//! The commands that touch the password store: `init`, `create`, `get` and
//! `remove`. Each is split where the store is read or written: a function
//! here decides from what was read, the caller performs the writes it
//! plans, and a second function here turns their outcome into the reply.

use vstd::prelude::*;
use vstd::utf8::{
    decode_utf8, encode_utf8, encode_utf8_decode_utf8, encode_utf8_valid_utf8, is_ascii_chars, is_ascii_chars_encode_utf8,
    valid_utf8,
};
use crate::args::{entry_value, index_of, value_of, ArgMap};
use crate::codec::{
    aead_error_text, aes256gcm_encrypt, aes256gcm_generate_key, aes256gcm_generate_nonce, aes256gcm_open,
    aes256gcm_seal, aes_gcm_max_plaintext, md5_digest, debug_plain, debug_quoted, debug_text, aes_opens, base64_decode, base64_decode_error, base64_encode,
    base64_encode_bytes, base64_error_text, base64_fits, decode_base64, lemma_base64_chars, lemma_base64_len,
    lemma_base64_roundtrip, open_sealed, string_from_utf8,
};
use crate::password::{Password, PasswordView};
use crate::store::{
    entry_meta, get_hash, key_hash, lemma_lines, lemma_newline_index, origin_add_result, origin_add_result_spec, origin_show,
    origin_show_spec, parse_entry, validate_spec, validate_user_key, AddIo, EntryRead, EntryReadView, MetaFile, MetaFileView,
};
use crate::text::{decimal, decimal_text, hex_lower};

verus! {

/// The value that a record holds once sealed: the Base64 text of the nonce
/// followed by the AES-256-GCM ciphertext of the plaintext.
pub open spec fn sealed_value(key: Seq<u8>, nonce: Seq<u8>, plaintext: Seq<u8>) -> Seq<char> {
    base64_encode(nonce + aes256gcm_seal(key, nonce, plaintext))
}

/// A plaintext that AES-GCM seals and whose sealed record (nonce, sealed
/// text and tag, in Base64) fits in memory.
pub open spec fn sealable(plaintext: Seq<u8>) -> bool {
    plaintext.len() <= aes_gcm_max_plaintext() && base64_fits(plaintext.len() + 28)
}

/// `value` is the sealed value of `plaintext` under `key` with the 12-byte
/// nonce `nonce`, whose sealed text is the plaintext and its 16-byte tag.
pub open spec fn sealed_with(value: Seq<char>, key: Seq<u8>, nonce: Seq<u8>, plaintext: Seq<u8>) -> bool {
    &&& nonce.len() == 12
    &&& value == sealed_value(key, nonce, plaintext)
    &&& aes256gcm_seal(key, nonce, plaintext).len() == plaintext.len() + 16
}

/// A fresh random key of 32 bytes.
pub fn generate_random_key() -> (res: Vec<u8>)
    ensures
        res@.len() == 32,
{
    aes256gcm_generate_key()
}

fn copy_range(v: &[u8], from: usize, to: usize) -> (res: Vec<u8>)
    requires
        from <= to <= v@.len(),
    ensures
        res@ == v@.subrange(from as int, to as int),
{
    let mut out: Vec<u8> = Vec::new();
    let mut i: usize = from;
    while i < to
        invariant
            from <= i <= to <= v@.len(),
            out@ == v@.subrange(from as int, i as int),
        decreases to - i,
    {
        out.push(v[i]);
        i = i + 1;
        assert(out@ =~= v@.subrange(from as int, i as int));
    }
    out
}

/// Seals `password` under `key` with the nonce `nonce` into a new record
/// with the given name, date and description.
pub fn seal_password(
    name: &str,
    password: &str,
    date: &str,
    description: &str,
    key: &[u8],
    nonce: &[u8],
) -> (res: Password)
    requires
        key@.len() == 32,
        nonce@.len() == 12,
        sealable(encode_utf8(password@)),
    ensures
        res@ == (PasswordView {
            value: sealed_value(key@, nonce@, encode_utf8(password@)),
            name: name@,
            description: description@,
            date: date@,
            is_enc: true,
        }),
        aes256gcm_seal(key@, nonce@, encode_utf8(password@)).len() == encode_utf8(password@).len() + 16,
{
    let mut base = Password::new(String::from_str(name), String::from_str(description), String::from_str(date));
    let bytes: &[u8] = password.as_bytes();
    let ciphertext = match aes256gcm_encrypt(key, nonce, bytes) {
        Ok(c) => c,
        Err(_) => {
            assert(false);
            Vec::new()
        },
    };
    base.set_value(ciphertext, nonce);
    base.is_enc = true;
    base
}

/// Seals `password` under `key` with a fresh random nonce into a new record
/// with the given name, date and description.
pub fn new_password(name: &str, password: &str, date: &str, description: &str, key: &[u8]) -> (res: Password)
    requires
        key@.len() == 32,
        sealable(encode_utf8(password@)),
    ensures
        res@.name == name@,
        res@.description == description@,
        res@.date == date@,
        res@.is_enc,
        exists|n: Seq<u8>| #[trigger] sealed_with(res@.value, key@, n, encode_utf8(password@)),
{
    let nonce: Vec<u8> = aes256gcm_generate_nonce();
    let res = seal_password(name, password, date, description, key, nonce.as_slice());
    assert(sealed_with(res@.value, key@, nonce@, encode_utf8(password@)));
    res
}

/// The body of a byte list as debug output writes it: the decimal values
/// separated by ", ".
pub open spec fn byte_list_body(b: Seq<u8>) -> Seq<char>
    decreases b.len(),
{
    if b.len() == 0 {
        Seq::empty()
    } else if b.len() == 1 {
        decimal(b[0] as nat)
    } else {
        byte_list_body(b.drop_last()) + ", "@ + decimal(b.last() as nat)
    }
}

/// A byte list as debug output writes it: `[1, 2, 3]`.
pub open spec fn byte_list_text(b: Seq<u8>) -> Seq<char> {
    "["@ + byte_list_body(b) + "]"@
}

/// Writes a byte list as debug output does.
pub fn byte_list(b: &[u8]) -> (res: String)
    ensures
        res@ == byte_list_text(b@),
{
    let mut body = String::new();
    let mut i: usize = 0;
    while i < b.len()
        invariant
            i <= b@.len(),
            body@ == byte_list_body(b@.subrange(0, i as int)),
        decreases b@.len() - i,
    {
        if i > 0 {
            body.append(", ");
        }
        body.append(decimal_text(b[i] as usize).as_str());
        proof {
            let pre = b@.subrange(0, i as int);
            let post = b@.subrange(0, i + 1);
            assert(post.drop_last() =~= pre);
            if i == 0 {
                assert(pre =~= Seq::<u8>::empty());
            }
        }
        i = i + 1;
    }
    assert(b@.subrange(0, b@.len() as int) =~= b@);
    let mut res = String::from_str("[");
    res.append(body.as_str());
    res.append("]");
    res
}

/// What `get` prints of a revealed record.
pub open spec fn reveal_text(p: PasswordView, plain: Seq<char>) -> Seq<char> {
    "name: "@ + p.name + "\ndescription: "@ + p.description + "\ndate: "@ + p.date + "\npassword: "@ + plain
}

/// What showing the record `name` with the key text `key` gives, from what
/// reading the record's files gave. `None` where the program stops: the
/// record has no date line, its value is no Base64 of at least 12 bytes,
/// the key is not 32 bytes, or the opened password is no UTF-8.
pub open spec fn show_spec(name: Seq<char>, key: Seq<char>, read: EntryReadView) -> Option<Result<Seq<char>, Seq<char>>> {
    match origin_show_spec(name, read) {
        None => None,
        Some(stored) => match base64_decode(key) {
            None => Some(
                Err(
                    "[!] Can't parse the key cause "@ + base64_error_text(base64_decode_error(key))
                        + ". Please provide a valid key"@,
                ),
            ),
            Some(kb) => match stored {
                Err(e) => Some(Err("File: "@ + e)),
                Ok(p) => match base64_decode(p.value) {
                    None => None,
                    Some(rec) => if rec.len() < 12 || kb.len() != 32 {
                        None
                    } else {
                        match aes256gcm_open(kb, rec.take(12), rec.skip(12)) {
                            None => Some(Err("Encryption: "@ + "aead::Error"@)),
                            Some(plain) => if valid_utf8(plain) {
                                Some(Ok(reveal_text(p, decode_utf8(plain))))
                            } else {
                                None
                            },
                        }
                    },
                },
            },
        },
    }
}

/// The record that reading `name` gives back (an empty one if none).
pub open spec fn stored_record(name: Seq<char>, read: EntryReadView) -> PasswordView {
    match origin_show_spec(name, read) {
        Some(Ok(p)) => p,
        _ => PasswordView {
            value: Seq::empty(),
            name: Seq::empty(),
            description: Seq::empty(),
            date: Seq::empty(),
            is_enc: false,
        },
    }
}

/// The record `name` reads back and holds the sealing, under the bytes of
/// the key text `key` (32 of them), of the UTF-8 text `plain` with the
/// nonce `n`.
pub open spec fn holds_sealing(name: Seq<char>, key: Seq<char>, read: EntryReadView, n: Seq<u8>, plain: Seq<u8>) -> bool {
    &&& origin_show_spec(name, read) matches Some(Ok(p))
    &&& base64_decode(key) matches Some(kb)
    &&& kb.len() == 32
    &&& n.len() == 12
    &&& plain.len() <= aes_gcm_max_plaintext()
    &&& valid_utf8(plain)
    &&& p.value == sealed_value(kb, n, plain)
}

fn revealed_text(p: &Password, plain: &str) -> (res: String)
    ensures
        res@ == reveal_text(p@, plain@),
{
    let mut s = String::from_str("name: ");
    s.append(p.name.as_str());
    s.append("\ndescription: ");
    s.append(p.description.as_str());
    s.append("\ndate: ");
    s.append(p.date.as_str());
    s.append("\npassword: ");
    s.append(plain);
    s
}

/// Shows the record `name` with the key text `key`: the text to print, or
/// the error; `None` where the program stops (see [`show_spec`]). A record
/// that holds the sealing of a UTF-8 password under the key is shown with
/// that password.
pub fn show_password(name: &str, key: &str, read: &EntryRead) -> (res: Option<Result<String, String>>)
    ensures
        match show_spec(name@, key@, read@) {
            None => res is None,
            Some(Ok(t)) => res matches Some(Ok(x)) && x@ == t,
            Some(Err(e)) => res matches Some(Err(x)) && x@ == e,
        },
        forall|n: Seq<u8>, plain: Seq<u8>|
            #[trigger] holds_sealing(name@, key@, read@, n, plain) ==> (res matches Some(Ok(t)) && t@
                == reveal_text(stored_record(name@, read@), decode_utf8(plain))),
{
    let upr = match origin_show(name, read) {
        None => {
            return None;
        },
        Some(u) => u,
    };
    let key_bytes: Vec<u8> = match decode_base64(key) {
        Err(e) => {
            let mut m = String::from_str("[!] Can't parse the key cause ");
            m.append(e.message().as_str());
            m.append(". Please provide a valid key");
            return Some(Err(m));
        },
        Ok(k) => k,
    };
    let upr: Password = match upr {
        Err(e) => {
            let mut m = String::from_str("File: ");
            m.append(e.as_str());
            return Some(Err(m));
        },
        Ok(p) => p,
    };
    proof {
        assert forall|n: Seq<u8>, plain: Seq<u8>| #[trigger] holds_sealing(name@, key@, read@, n, plain)
            implies base64_decode(upr@.value) == Some(n + aes256gcm_seal(key_bytes@, n, plain)) && key_bytes@.len() == 32 by {
            lemma_base64_roundtrip(n + aes256gcm_seal(key_bytes@, n, plain));
        }
    }
    let f_pass: Vec<u8> = match decode_base64(upr.value.as_str()) {
        Err(_) => {
            return None;
        },
        Ok(v) => v,
    };
    if f_pass.len() < 12 || key_bytes.len() != 32 {
        return None;
    }
    let nonce_res: Vec<u8> = copy_range(f_pass.as_slice(), 0, 12);
    let f_pass_res: Vec<u8> = copy_range(f_pass.as_slice(), 12, f_pass.len());
    assert(nonce_res@ =~= f_pass@.take(12));
    assert(f_pass_res@ =~= f_pass@.skip(12));
    proof {
        assert forall|n: Seq<u8>, plain: Seq<u8>| #[trigger] holds_sealing(name@, key@, read@, n, plain)
            implies aes_opens(key_bytes@, nonce_res@, f_pass_res@, plain) by {
            assert(f_pass@ == n + aes256gcm_seal(key_bytes@, n, plain));
            assert(f_pass@.take(12) =~= n);
            assert(f_pass@.skip(12) =~= aes256gcm_seal(key_bytes@, n, plain));
        }
    }
    match open_sealed(key_bytes.as_slice(), nonce_res.as_slice(), f_pass_res.as_slice()) {
        Err(e) => {
            let mut m = String::from_str("Encryption: ");
            m.append(aead_error_text(&e).as_str());
            Some(Err(m))
        },
        Ok(plain) => {
            let ghost pb = plain@;
            match string_from_utf8(plain) {
                None => None,
                Some(text) => {
                    assert(text@ == decode_utf8(pb));
                    Some(Ok(revealed_text(&upr, text.as_str())))
                },
            }
        },
    }
}


/// What a command printed (one entry per line) and its reply.
pub struct Outcome {
    pub printed: Vec<String>,
    pub result: Result<String, String>,
}

/// The model of an [`Outcome`].
pub struct OutcomeView {
    pub printed: Seq<Seq<char>>,
    pub result: Result<Seq<char>, Seq<char>>,
}

impl View for Outcome {
    type V = OutcomeView;

    open spec fn view(&self) -> OutcomeView {
        OutcomeView {
            printed: self.printed@.map_values(|s: String| s@),
            result: match self.result {
                Ok(s) => Ok(s@),
                Err(e) => Err(e@),
            },
        }
    }
}

/// An outcome that printed nothing.
pub open spec fn quiet(result: Result<Seq<char>, Seq<char>>) -> OutcomeView {
    OutcomeView { printed: Seq::empty(), result }
}

fn quiet_error(e: String) -> (res: Outcome)
    ensures
        res@ == quiet(Err(e@)),
{
    let res = Outcome { printed: Vec::new(), result: Err(e) };
    assert(res@.printed =~= Seq::<Seq<char>>::empty());
    res
}

/// Checking that the arguments `deps` were given, in turn: `None` where one
/// is not in the table at all (the lookup fails), `Some(false)` at the
/// first that is in the table but was not given.
pub open spec fn deps_check(t: Seq<crate::args::ActionView>, deps: Seq<Seq<char>>) -> Option<bool>
    decreases deps.len(),
{
    if deps.len() == 0 {
        Some(true)
    } else if index_of(t, deps[0]) < 0 {
        None
    } else if !t[index_of(t, deps[0])].used {
        Some(false)
    } else {
        deps_check(t, deps.drop_first())
    }
}

fn check_deps(config: &ArgMap, deps: Vec<&'static str>) -> (res: Option<bool>)
    ensures
        res == deps_check(config@, deps@.map_values(|d: &'static str| d@)),
{
    let ghost ds = deps@.map_values(|d: &'static str| d@);
    let mut i: usize = 0;
    assert(ds.skip(0) =~= ds);
    while i < deps.len()
        invariant
            i <= deps@.len(),
            ds == deps@.map_values(|d: &'static str| d@),
            deps_check(config@, ds) == deps_check(config@, ds.skip(i as int)),
        decreases deps@.len() - i,
    {
        assert(ds.skip(i as int)[0] == deps@[i as int]@);
        assert(ds.skip(i as int).drop_first() =~= ds.skip(i + 1));
        match config.get(deps[i]) {
            None => {
                return None;
            },
            Some(a) => {
                if !a.isActive() {
                    return Some(false);
                }
            },
        }
        i = i + 1;
    }
    assert(ds.skip(deps@.len() as int) =~= Seq::<Seq<char>>::empty());
    Some(true)
}

/// Whether `arg` is one of `deps`.
fn check_deps_partial(arg: &str, deps: Vec<&'static str>) -> (res: bool)
    ensures
        res == deps@.map_values(|d: &'static str| d@).contains(arg@),
{
    let ghost ds = deps@.map_values(|d: &'static str| d@);
    let mut i: usize = 0;
    while i < deps.len()
        invariant
            i <= deps@.len(),
            ds == deps@.map_values(|d: &'static str| d@),
            forall|j: int| 0 <= j < i ==> ds[j] != arg@,
        decreases deps@.len() - i,
    {
        if crate::text::str_equal(deps[i], arg) {
            assert(ds[i as int] == arg@);
            return true;
        }
        i = i + 1;
    }
    false
}

fn joined(a: &str, b: &str) -> (res: String)
    ensures
        res@ == a@ + b@,
{
    let mut s = String::from_str(a);
    s.append(b);
    s
}

/// What `get` does with the table `t`, the store's meta file and what
/// reading the record gave; `None` where the program stops.
pub open spec fn get_spec(t: Seq<crate::args::ActionView>, meta: MetaFileView, read: EntryReadView) -> Option<OutcomeView> {
    match deps_check(t, seq!["key"@, "name"@]) {
        None => None,
        Some(false) => Some(quiet(Err("Please provid valid arguments"@))),
        Some(true) => match validate_spec(value_of(t, "key"@), meta) {
            Err(e) => Some(quiet(Err("Key: "@ + e))),
            Ok(()) => match show_spec(value_of(t, "name"@), value_of(t, "key"@), read) {
                None => None,
                Some(Err(e)) => Some(quiet(Err("Print: "@ + e))),
                Some(Ok(text)) => Some(OutcomeView { printed: seq![text], result: Ok(Seq::empty()) }),
            },
        },
    }
}

/// The `get` command: checks the key and shows the named record.
pub fn get_callback(config: &ArgMap, meta: &MetaFile, read: &EntryRead) -> (res: Option<Outcome>)
    ensures
        match get_spec(config@, meta@, read@) {
            None => res is None,
            Some(o) => res matches Some(x) && x@ == o,
        },
        forall|n: Seq<u8>, plain: Seq<u8>|
            deps_check(config@, seq!["key"@, "name"@]) == Some(true) && validate_spec(value_of(config@, "key"@), meta@) is Ok
                && #[trigger] holds_sealing(value_of(config@, "name"@), value_of(config@, "key"@), read@, n, plain) ==> (
            res matches Some(o) && o@ == (OutcomeView {
                printed: seq![reveal_text(stored_record(value_of(config@, "name"@), read@), decode_utf8(plain))],
                result: Ok(Seq::empty()),
            })),
{
    let deps: Vec<&'static str> = vec!["key", "name"];
    assert(deps@.map_values(|d: &'static str| d@) =~= seq!["key"@, "name"@]);
    match check_deps(config, deps) {
        None => {
            return None;
        },
        Some(false) => {
            return Some(quiet_error(String::from_str("Please provid valid arguments")));
        },
        Some(true) => {},
    }
    proof {
        let ds = seq!["key"@, "name"@];
        assert(ds.drop_first() =~= seq!["name"@]);
        assert(seq!["name"@].drop_first() =~= Seq::<Seq<char>>::empty());
        reveal_with_fuel(deps_check, 3);
    }
    let key: String = entry_value(config, "key");
    let name: String = entry_value(config, "name");
    if let Err(err) = validate_user_key(key.as_str(), meta) {
        return Some(quiet_error(joined("Key: ", err.as_str())));
    }
    match show_password(name.as_str(), key.as_str(), read) {
        None => None,
        Some(Err(err)) => Some(quiet_error(joined("Print: ", err.as_str()))),
        Some(Ok(text)) => {
            let mut printed: Vec<String> = Vec::new();
            printed.push(text);
            let res = Outcome { printed, result: Ok(String::new()) };
            assert(res@.printed =~= seq![res.printed@[0]@]);
            Some(res)
        },
    }
}

/// The date that new records carry.
pub open spec fn record_date() -> Seq<char> {
    "2024"@
}

/// The first part of `add_new_password`: the sealed record, dated
/// [`record_date`].
pub fn add_new_password(p_name: &str, p_desc: &str, p_pass: &str, key_field: &Vec<u8>) -> (res: Password)
    requires
        key_field@.len() == 32,
        sealable(encode_utf8(p_pass@)),
    ensures
        res@.name == p_name@,
        res@.description == p_desc@,
        res@.date == record_date(),
        res@.is_enc,
        exists|n: Seq<u8>| #[trigger] sealed_with(res@.value, key_field@, n, encode_utf8(p_pass@)),
{
    let date: &str = "2024";
    new_password(p_name, p_pass, date, p_desc, key_field.as_slice())
}

/// The reply of `add_new_password` once the record's files were written
/// (or not): on success, the value as debug formatting quotes it.
pub fn add_new_password_result(base: &Password, io: &AddIo) -> (res: Result<String, String>)
    ensures
        match origin_add_result_spec(*io) {
            Err(e) => res matches Err(x) && x@ == "Add Password: "@ + e,
            Ok(()) => res matches Ok(x) && x@ == "Successfully Encrypted your password: "@ + debug_quoted(base@.value),
        },
{
    match origin_add_result(io) {
        Err(err) => Err(joined("Add Password: ", err.as_str())),
        Ok(()) => Ok(joined("Successfully Encrypted your password: ", debug_text(base.value.as_str()).as_str())),
    }
}

/// The reply of the `create` command once the record's files were written
/// (or not).
pub fn create_finish(base: &Password, io: &AddIo) -> (res: Result<String, String>)
    ensures
        match origin_add_result_spec(*io) {
            Err(e) => res matches Err(x) && x@ == "Can't create new password cause: "@ + ("Add Password: "@ + e),
            Ok(()) => res matches Ok(x) && x@ == "your password has been sucsessfully created"@,
        },
{
    match add_new_password_result(base, io) {
        Err(err) => Err(joined("Can't create new password cause: ", err.as_str())),
        Ok(_) => Ok(String::from_str("your password has been sucsessfully created")),
    }
}

/// What `create` prints before it checks the key.
pub open spec fn creating_text(name: Seq<char>, pass: Seq<char>, desc: Seq<char>) -> Seq<char> {
    "Creating password with this information:\nName: "@ + name + "\nPassword: "@ + pass + "\ndescription: "@
        + desc + "\nkey: ****"@
}

/// What `create` decides from the table, whether the store exists, and the
/// store's meta file.
pub enum CreateDecision {
    /// The program stops.
    Stop,
    /// The command ends with this outcome.
    Reply(OutcomeView),
    /// Seal `plaintext` under `key` into a record named `name` with the
    /// description `description`, after printing `printed`.
    Seal { printed: Seq<Seq<char>>, name: Seq<char>, description: Seq<char>, key: Seq<u8>, plaintext: Seq<u8> },
}

/// What `create` decides. It stops where the program stops: a missing
/// argument, a key that is not 32 bytes, or a password too long to seal.
pub open spec fn create_spec(t: Seq<crate::args::ActionView>, origin_exists: bool, meta: MetaFileView) -> CreateDecision {
    if !origin_exists {
        CreateDecision::Reply(quiet(Err("Please first initialize the program with 'psm init'"@)))
    } else {
        match deps_check(t, seq!["name"@, "description"@, "key"@]) {
            None => CreateDecision::Stop,
            Some(false) => CreateDecision::Reply(quiet(Err("Can't process because of the deps!"@))),
            Some(true) => if index_of(t, "password"@) < 0 {
                CreateDecision::Stop
            } else {
                let name = value_of(t, "name"@);
                let pass = value_of(t, "password"@);
                let desc = value_of(t, "description"@);
                let key = value_of(t, "key"@);
                let line = creating_text(name, pass, desc);
                match validate_spec(key, meta) {
                    Err(e) => CreateDecision::Reply(
                        OutcomeView { printed: seq![line], result: Err("Can't validate your key, because "@ + e) },
                    ),
                    Ok(()) => match base64_decode(key) {
                        None => CreateDecision::Reply(
                            OutcomeView {
                                printed: seq![line],
                                result: Err("Can't read the key, cause "@ + base64_error_text(base64_decode_error(key))),
                            },
                        ),
                        Some(kb) => if kb.len() != 32 || !sealable(encode_utf8(pass)) {
                            CreateDecision::Stop
                        } else {
                            CreateDecision::Seal {
                                printed: seq![line, "This is the generated password bytes: "@ + byte_list_text(encode_utf8(pass))],
                                name,
                                description: desc,
                                key: kb,
                                plaintext: encode_utf8(pass),
                            }
                        },
                    },
                }
            },
        }
    }
}

/// What `create` hands its caller.
pub enum CreatePlan {
    /// The command is over.
    Finished(Outcome),
    /// Print `printed`, write the record's files (see
    /// [`crate::store::entry_contents`]), then reply with [`create_finish`].
    Store { printed: Vec<String>, password: Password },
}

/// The `create` command, up to writing the record: checks the store, the
/// arguments and the key, and seals the password.
pub fn create_callback(config: &ArgMap, origin_exists: bool, meta: &MetaFile) -> (res: Option<CreatePlan>)
    ensures
        match create_spec(config@, origin_exists, meta@) {
            CreateDecision::Stop => res is None,
            CreateDecision::Reply(o) => res matches Some(CreatePlan::Finished(x)) && x@ == o,
            CreateDecision::Seal { printed, name, description, key, plaintext } => res matches Some(
                CreatePlan::Store { printed: pr, password: p },
            ) && pr@.map_values(|s: String| s@) == printed && p@.name == name && p@.description == description
                && p@.date == record_date() && p@.is_enc && debug_plain(p@.value) && exists|n: Seq<u8>|
                #[trigger] sealed_with(p@.value, key, n, plaintext),
        },
{
    if !origin_exists {
        return Some(CreatePlan::Finished(quiet_error(String::from_str("Please first initialize the program with 'psm init'"))));
    }
    let deps: Vec<&'static str> = vec!["name", "description", "key"];
    assert(deps@.map_values(|d: &'static str| d@) =~= seq!["name"@, "description"@, "key"@]);
    match check_deps(config, deps) {
        None => {
            return None;
        },
        Some(false) => {
            return Some(CreatePlan::Finished(quiet_error(String::from_str("Can't process because of the deps!"))));
        },
        Some(true) => {},
    }
    proof {
        let ds = seq!["name"@, "description"@, "key"@];
        assert(ds.drop_first() =~= seq!["description"@, "key"@]);
        assert(seq!["description"@, "key"@].drop_first() =~= seq!["key"@]);
        assert(seq!["key"@].drop_first() =~= Seq::<Seq<char>>::empty());
        reveal_with_fuel(deps_check, 4);
    }
    if config.position("password").is_none() {
        return None;
    }
    let name: String = entry_value(config, "name");
    let pass_value: String = entry_value(config, "password");
    let description: String = entry_value(config, "description");
    let key: String = entry_value(config, "key");
    let mut line = String::from_str("Creating password with this information:\nName: ");
    line.append(name.as_str());
    line.append("\nPassword: ");
    line.append(pass_value.as_str());
    line.append("\ndescription: ");
    line.append(description.as_str());
    line.append("\nkey: ****");
    let ghost line_v = line@;
    let mut printed: Vec<String> = Vec::new();
    printed.push(line);
    assert(printed@.map_values(|s: String| s@) =~= seq![line_v]);
    if let Err(err) = validate_user_key(key.as_str(), meta) {
        return Some(
            CreatePlan::Finished(Outcome { printed, result: Err(joined("Can't validate your key, because ", err.as_str())) }),
        );
    }
    let m_key: Vec<u8> = match decode_base64(key.as_str()) {
        Err(err) => {
            return Some(
                CreatePlan::Finished(
                    Outcome { printed, result: Err(joined("Can't read the key, cause ", err.message().as_str())) },
                ),
            );
        },
        Ok(k) => k,
    };
    let pass_bytes: &[u8] = pass_value.as_str().as_bytes();
    let pass_len: u128 = pass_bytes.len() as u128;
    if m_key.len() != 32 || pass_len > 68719476736u128 || 4 * ((pass_len + 30) / 3) > isize::MAX as u128 {
        return None;
    }
    let base: Password = add_new_password(name.as_str(), description.as_str(), pass_value.as_str(), &m_key);
    let mut bytes_line = String::from_str("This is the generated password bytes: ");
    bytes_line.append(byte_list(pass_bytes).as_str());
    let ghost bytes_v = bytes_line@;
    printed.push(bytes_line);
    assert(printed@.map_values(|s: String| s@) =~= seq![line_v, bytes_v]);
    proof {
        let n = choose|n: Seq<u8>| sealed_with(base@.value, m_key@, n, encode_utf8(pass_value@));
        lemma_base64_chars(n + aes256gcm_seal(m_key@, n, encode_utf8(pass_value@)));
        assert(sealed_with(base@.value, m_key@, n, encode_utf8(pass_value@)));
        assert(create_spec(config@, origin_exists, meta@) is Seal);
        assert(create_spec(config@, origin_exists, meta@)->key == m_key@);
        assert(create_spec(config@, origin_exists, meta@)->plaintext == encode_utf8(pass_value@));
    }
    Some(CreatePlan::Store { printed, password: base })
}

/// What `remove` is to remove.
pub enum RemovePlan {
    /// The whole store.
    Origin,
    /// The record `name`; `label` is the value given to `remove`.
    Password { name: String, label: String },
}

/// The model of a [`RemovePlan`].
pub enum RemovePlanView {
    Origin,
    Password { name: Seq<char>, label: Seq<char> },
}

impl View for RemovePlan {
    type V = RemovePlanView;

    open spec fn view(&self) -> RemovePlanView {
        match self {
            RemovePlan::Origin => RemovePlanView::Origin,
            RemovePlan::Password { name, label } => RemovePlanView::Password { name: name@, label: label@ },
        }
    }
}

/// What `remove` is to remove, from the table; `None` where the program
/// stops (no `remove` argument, or no `name` when it is needed).
pub open spec fn remove_spec(t: Seq<crate::args::ActionView>) -> Option<RemovePlanView> {
    if index_of(t, "remove"@) < 0 {
        None
    } else if value_of(t, "remove"@) == "all"@ {
        Some(RemovePlanView::Origin)
    } else if index_of(t, "name"@) < 0 {
        None
    } else {
        Some(RemovePlanView::Password { name: value_of(t, "name"@), label: value_of(t, "remove"@) })
    }
}

/// The `remove` command, up to the removal: what is to be removed.
pub fn remove_origin_callback(config: &ArgMap) -> (res: Option<RemovePlan>)
    ensures
        match remove_spec(config@) {
            None => res is None,
            Some(p) => res matches Some(x) && x@ == p,
        },
{
    if config.position("remove").is_none() {
        return None;
    }
    let remove_value: String = entry_value(config, "remove");
    if crate::text::str_equal(remove_value.as_str(), "all") {
        return Some(RemovePlan::Origin);
    }
    if config.position("name").is_none() {
        return None;
    }
    let name: String = entry_value(config, "name");
    Some(RemovePlan::Password { name, label: remove_value })
}

/// The reply of `remove` once the removal was tried.
pub open spec fn remove_finish_spec(plan: RemovePlanView, removed: bool) -> Result<Seq<char>, Seq<char>> {
    match plan {
        RemovePlanView::Origin => if removed {
            Ok("Successfully removed the origin environment"@)
        } else {
            Err("There was a problem when removing your origin"@)
        },
        RemovePlanView::Password { name, label } => if removed {
            Ok("Successfully removed your "@ + label + " password"@)
        } else {
            Err("There is a problem when removing your password"@)
        },
    }
}

/// The reply of `remove` once the removal was tried.
pub fn remove_finish(plan: &RemovePlan, removed: bool) -> (res: Result<String, String>)
    ensures
        match remove_finish_spec(plan@, removed) {
            Ok(s) => res matches Ok(x) && x@ == s,
            Err(e) => res matches Err(x) && x@ == e,
        },
{
    match plan {
        RemovePlan::Origin => if removed {
            Ok(String::from_str("Successfully removed the origin environment"))
        } else {
            Err(String::from_str("There was a problem when removing your origin"))
        },
        RemovePlan::Password { name: _, label } => if removed {
            let mut s = String::from_str("Successfully removed your ");
            s.append(label.as_str());
            s.append(" password");
            Ok(s)
        } else {
            Err(String::from_str("There is a problem when removing your password"))
        },
    }
}

/// What `init` is to write: the new key (Base64) and the store's meta
/// file (the key's digest).
pub struct InitPlan {
    pub key: String,
    pub meta: String,
}

/// The `init` command, up to writing the store: refuses an existing store,
/// else makes a fresh key.
pub fn init_callback(origin_exists: bool) -> (res: Result<InitPlan, String>)
    ensures
        origin_exists ==> (res matches Err(e) && e@
            == "You already have the origin, please remove the old one if you want to use this command\nNotice: you can remove the origin by using 'psm remove all'"@),
        !origin_exists ==> (res matches Ok(plan) && plan.meta@ == key_hash(plan.key@) && exists|k: Seq<u8>|
            k.len() == 32 && plan.key@ == base64_encode(k)),
{
    if origin_exists {
        return Err(
            String::from_str(
                "You already have the origin, please remove the old one if you want to use this command\nNotice: you can remove the origin by using 'psm remove all'",
            ),
        );
    }
    let n_key: Vec<u8> = generate_random_key();
    Ok(init_plan(n_key.as_slice()))
}

/// The store that `init` writes for the key bytes `key`: the key's Base64
/// text and, as the meta file, that text's digest.
pub fn init_plan(key: &[u8]) -> (res: InitPlan)
    requires
        key@.len() == 32,
    ensures
        res.key@ == base64_encode(key@),
        res.meta@ == key_hash(base64_encode(key@)),
        res.meta@ == hex_lower(md5_digest(encode_utf8(res.key@))),
{
    let m_key: String = base64_encode_bytes(key);
    let meta: String = get_hash(m_key.as_str());
    InitPlan { key: m_key, meta }
}

/// How writing the store went.
#[derive(Clone, Copy, Debug, PartialEq, Eq, Structural)]
pub enum InitIo {
    /// The store's folder could not be made.
    DirFailed,
    /// The meta file could not be made.
    MetaCreateFailed,
    /// The meta file could not be written.
    MetaWriteFailed,
    /// The store was written.
    Done,
}

/// The outcome of `init` once the store was written (or not).
pub open spec fn init_finish_spec(key: Seq<char>, io: InitIo) -> OutcomeView {
    match io {
        InitIo::DirFailed => quiet(Err("Can't make the origin folder"@)),
        InitIo::MetaCreateFailed => quiet(Err("Can't create the metadata file for origin"@)),
        InitIo::MetaWriteFailed => quiet(Err("Can't add data to the origin's metadata file"@)),
        InitIo::Done => OutcomeView {
            printed: seq![Seq::empty()],
            result: Ok("Sucsessfully generated the origin :D\nThis is your new key: "@ + key + "\n"@),
        },
    }
}

/// The outcome of `init` once the store was written (or not).
pub fn init_finish(plan: &InitPlan, io: &InitIo) -> (res: Outcome)
    ensures
        res@ == init_finish_spec(plan.key@, *io),
{
    match io {
        InitIo::DirFailed => quiet_error(String::from_str("Can't make the origin folder")),
        InitIo::MetaCreateFailed => quiet_error(String::from_str("Can't create the metadata file for origin")),
        InitIo::MetaWriteFailed => quiet_error(String::from_str("Can't add data to the origin's metadata file")),
        InitIo::Done => {
            let mut s = String::from_str("Sucsessfully generated the origin :D\nThis is your new key: ");
            s.append(plan.key.as_str());
            s.append("\n");
            let mut printed: Vec<String> = Vec::new();
            printed.push(String::new());
            let res = Outcome { printed, result: Ok(s) };
            assert(res@.printed =~= seq![Seq::<char>::empty()]);
            res
        },
    }
}


/// A key made by `init` passes the key check against the meta file that
/// `init` writes, and decodes to the 32 bytes it was made from.
pub proof fn law_init_key_accepted(k: Seq<u8>)
    requires
        k.len() == 32,
    ensures
        validate_spec(base64_encode(k), MetaFileView::Text(key_hash(base64_encode(k)))) == Ok::<(), Seq<char>>(()),
        base64_decode(base64_encode(k)) == Some(k),
{
    let t = base64_encode(k);
    lemma_base64_len(k);
    lemma_base64_chars(k);
    lemma_base64_roundtrip(k);
    assert(is_ascii_chars(t));
    is_ascii_chars_encode_utf8(t);
}

/// A record sealed under the key text `key` (the Base64 of 32 bytes
/// `kb`) with the nonce `n`, as [`new_password`] makes it, reads back from
/// the files that [`entry_contents`] fills holding that sealing of the
/// password's UTF-8 bytes, which decode to the password again; where its
/// description and date hold no line break, it reads back with its own
/// name, description and date. So [`show_password`] shows it as
/// `reveal_text` of the record and the password.
pub proof fn law_sealed_record_reads_back(
    p: PasswordView,
    key: Seq<char>,
    kb: Seq<u8>,
    n: Seq<u8>,
    password: Seq<char>,
)
    requires
        base64_decode(key) == Some(kb),
        kb.len() == 32,
        sealable(encode_utf8(password)),
        sealed_with(p.value, kb, n, encode_utf8(password)),
    ensures
        holds_sealing(
            p.name,
            key,
            EntryReadView::Found { data: p.value, meta: entry_meta(p) },
            n,
            encode_utf8(password),
        ),
        decode_utf8(encode_utf8(password)) == password,
        !p.description.contains('\n') && !p.date.contains('\n') ==> stored_record(
            p.name,
            EntryReadView::Found { data: p.value, meta: entry_meta(p) },
        ) == (PasswordView { is_enc: false, ..p }),
        !p.description.contains('\n') && !p.date.contains('\n') ==> reveal_text(
            stored_record(p.name, EntryReadView::Found { data: p.value, meta: entry_meta(p) }),
            password,
        ) == "name: "@ + p.name + "\ndescription: "@ + p.description + "\ndate: "@ + p.date + "\npassword: "@
            + password,
{
    let v = p.value;
    let meta = entry_meta(p);
    lemma_base64_chars(n + aes256gcm_seal(kb, n, encode_utf8(password)));
    assert(!v.contains('\n')) by {
        if v.contains('\n') {
            let i = choose|i: int| 0 <= i < v.len() && v[i] == '\n';
            assert(v[i] != '\n');
        }
    }
    lemma_lines(v, Seq::empty());
    lemma_newline_index(meta);
    assert(meta[p.description.len() as int] == '\n');
    encode_utf8_valid_utf8(password);
    encode_utf8_decode_utf8(password);
    if !p.description.contains('\n') && !p.date.contains('\n') {
        lemma_lines(p.description, p.date);
        lemma_lines(p.date, Seq::empty());
        assert(parse_entry(p.name, v, meta) == PasswordView { is_enc: false, ..p });
    }
}

/// `init`, then `create`, then `get`: with the key that `init` makes from
/// 32 bytes `k` and the meta file it writes, a `create` command line that
/// gives every argument with that key seals the password under `k`; the
/// record it writes, whatever nonce was drawn, passes `get`'s key check
/// and holds that sealing, so [`get_callback`] shows the password.
pub proof fn law_init_create_get(
    k: Seq<u8>,
    t: Seq<crate::args::ActionView>,
    g: Seq<crate::args::ActionView>,
    value: Seq<char>,
    n: Seq<u8>,
)
    requires
        k.len() == 32,
        deps_check(t, seq!["name"@, "description"@, "key"@]) == Some(true),
        index_of(t, "password"@) >= 0,
        value_of(t, "key"@) == base64_encode(k),
        sealable(encode_utf8(value_of(t, "password"@))),
        deps_check(g, seq!["key"@, "name"@]) == Some(true),
        value_of(g, "key"@) == base64_encode(k),
        value_of(g, "name"@) == value_of(t, "name"@),
        sealed_with(value, k, n, encode_utf8(value_of(t, "password"@))),
    ensures
        create_spec(t, true, MetaFileView::Text(key_hash(base64_encode(k)))) matches CreateDecision::Seal {
            name,
            description,
            key,
            plaintext,
            ..
        } && name == value_of(t, "name"@) && description == value_of(t, "description"@) && key == k && plaintext
            == encode_utf8(value_of(t, "password"@)),
        validate_spec(value_of(g, "key"@), MetaFileView::Text(key_hash(base64_encode(k)))) is Ok,
        holds_sealing(
            value_of(g, "name"@),
            value_of(g, "key"@),
            EntryReadView::Found {
                data: value,
                meta: entry_meta(
                    PasswordView {
                        value,
                        name: value_of(t, "name"@),
                        description: value_of(t, "description"@),
                        date: record_date(),
                        is_enc: true,
                    },
                ),
            },
            n,
            encode_utf8(value_of(t, "password"@)),
        ),
{
    law_init_key_accepted(k);
    let p = PasswordView {
        value,
        name: value_of(t, "name"@),
        description: value_of(t, "description"@),
        date: record_date(),
        is_enc: true,
    };
    law_sealed_record_reads_back(p, base64_encode(k), k, n, value_of(t, "password"@));
}

/// `remove` with a value other than `all` removes the record named by the
/// value of the `name` entry, and reports it under the value of `remove`;
/// with `all` it removes the whole store; without a `remove` entry, or
/// without a `name` entry where one is needed, the program stops.
pub proof fn law_remove_targets_named_record(t: Seq<crate::args::ActionView>, r: int, n: int)
    requires
        crate::args::keys_unique(t),
        0 <= r < t.len(),
        t[r].key == "remove"@,
        0 <= n < t.len(),
        t[n].key == "name"@,
    ensures
        t[r].value != "all"@ ==> remove_spec(t) == Some(
            RemovePlanView::Password { name: t[n].value, label: t[r].value },
        ),
        t[r].value == "all"@ ==> remove_spec(t) == Some(RemovePlanView::Origin),
        remove_spec(t.remove(r)) is None,
{
    crate::args::lemma_index_of(t, "remove"@);
    crate::args::lemma_index_of(t, "name"@);
    assert(crate::args::has_key(t, "remove"@));
    assert(crate::args::has_key(t, "name"@));
    let u = t.remove(r);
    crate::args::lemma_index_of(u, "remove"@);
    if crate::args::has_key(u, "remove"@) {
        let w = choose|w: int| 0 <= w < u.len() && #[trigger] u[w].key == "remove"@;
        if w < r {
            assert(u[w] == t[w]);
        } else {
            assert(u[w] == t[w + 1]);
        }
    }
}

} // verus!
