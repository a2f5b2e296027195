//! A stored password: its name, description, date and sealed value.

use vstd::prelude::*;
use crate::codec::{base64_encode, base64_encode_bytes, base64_fits};

verus! {

/// The model of a [`Password`].
pub struct PasswordView {
    pub value: Seq<char>,
    pub name: Seq<char>,
    pub description: Seq<char>,
    pub date: Seq<char>,
    pub is_enc: bool,
}

/// A password record. Once sealed, `value` holds the Base64 text of the
/// nonce followed by the AES-256-GCM ciphertext.
pub struct Password {
    pub value: String,
    pub name: String,
    pub description: String,
    pub date: String,
    pub is_enc: bool,
}

impl View for Password {
    type V = PasswordView;

    open spec fn view(&self) -> PasswordView {
        PasswordView {
            value: self.value@,
            name: self.name@,
            description: self.description@,
            date: self.date@,
            is_enc: self.is_enc,
        }
    }
}

impl Default for Password {
    fn default() -> (res: Password)
        ensures
            res@ == (PasswordView {
                value: Seq::empty(),
                name: Seq::empty(),
                description: Seq::empty(),
                date: Seq::empty(),
                is_enc: false,
            }),
    {
        Password {
            value: String::new(),
            name: String::new(),
            description: String::new(),
            date: String::new(),
            is_enc: false,
        }
    }
}

impl Password {
    /// A password record with the given name, description and date, no
    /// value yet, not sealed.
    pub fn new(name: String, description: String, date: String) -> (res: Self)
        ensures
            res@ == (PasswordView {
                value: Seq::empty(),
                name: name@,
                description: description@,
                date: date@,
                is_enc: false,
            }),
    {
        Password { value: String::new(), name, description, date, is_enc: false }
    }

    /// Stores the Base64 text of `nonce` followed by `data` as the value.
    pub fn set_value(&mut self, data: Vec<u8>, nonce: &[u8])
        requires
            base64_fits(nonce@.len() + data@.len()),
        ensures
            final(self)@ == (PasswordView { value: base64_encode(nonce@ + data@), ..old(self)@ }),
    {
        let mut l_data: Vec<u8> = Vec::new();
        let mut i: usize = 0;
        while i < nonce.len()
            invariant
                i <= nonce@.len(),
                l_data@ == nonce@.subrange(0, i as int),
            decreases nonce@.len() - i,
        {
            l_data.push(nonce[i]);
            i = i + 1;
            assert(l_data@ =~= nonce@.subrange(0, i as int));
        }
        let mut j: usize = 0;
        while j < data.len()
            invariant
                j <= data@.len(),
                l_data@ == nonce@ + data@.subrange(0, j as int),
            decreases data@.len() - j,
        {
            l_data.push(data[j]);
            j = j + 1;
            assert(l_data@ =~= nonce@ + data@.subrange(0, j as int));
        }
        assert(data@.subrange(0, data@.len() as int) =~= data@);
        self.value = base64_encode_bytes(l_data.as_slice());
    }

    /// Whether the record is sealed.
    pub fn is_enc(&self) -> (res: bool)
        ensures
            res == self@.is_enc,
    {
        self.is_enc
    }
}

} // verus!
