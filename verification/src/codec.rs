//! The outside computations the password records rest on: Base64 text,
//! AES-256-GCM sealing, MD5 digests and UTF-8 decoding. Each call of an
//! outside crate stands in one small trusted function here; the rest of the
//! library is proved against their contracts.

use aes_gcm::aead::{Aead, AeadCore, KeyInit, OsRng};
use aes_gcm::Aes256Gcm;
use base64::prelude::BASE64_STANDARD;
use base64::Engine;
use vstd::prelude::*;
use vstd::utf8::{decode_utf8, valid_utf8};
use crate::text::{decimal, decimal_text};

verus! {

// ---------------------------------------------------------------- Base64

/// The character of a 6-bit value in the standard Base64 alphabet
/// (RFC 4648: `A`-`Z`, `a`-`z`, `0`-`9`, `+`, `/`).
pub open spec fn b64_char(v: int) -> char {
    if v < 26 {
        ('A' as int + v) as char
    } else if v < 52 {
        ('a' as int + (v - 26)) as char
    } else if v < 62 {
        ('0' as int + (v - 52)) as char
    } else if v == 62 {
        '+'
    } else {
        '/'
    }
}

/// Standard Base64 with padding (RFC 4648, section 4): each group of three
/// bytes becomes four characters; a last group of one or two bytes is
/// padded with `=` to four characters.
pub open spec fn base64_encode(b: Seq<u8>) -> Seq<char>
    decreases b.len(),
{
    if b.len() == 0 {
        Seq::empty()
    } else {
        let x = b[0] as int;
        if b.len() == 1 {
            seq![b64_char(x / 4), b64_char((x % 4) * 16), '=', '=']
        } else {
            let y = b[1] as int;
            if b.len() == 2 {
                seq![b64_char(x / 4), b64_char((x % 4) * 16 + y / 16), b64_char((y % 16) * 4), '=']
            } else {
                let z = b[2] as int;
                seq![
                    b64_char(x / 4),
                    b64_char((x % 4) * 16 + y / 16),
                    b64_char((y % 16) * 4 + z / 64),
                    b64_char(z % 64),
                ] + base64_encode(b.skip(3))
            }
        }
    }
}

/// Base64 characters stand for distinct 6-bit values and are never `=`.
pub proof fn lemma_b64_char(v: int, w: int)
    requires
        0 <= v < 64,
        0 <= w < 64,
    ensures
        b64_char(v) != '=',
        b64_char(v) != '\n',
        b64_char(v) != '"',
        b64_char(v) != '\\',
        b64_char(v) != '\'',
        ' ' <= b64_char(v) <= '~',
        b64_char(v) == b64_char(w) ==> v == w,
{
}

/// Every character of a Base64 text is printable ASCII, and none is a line
/// break, a quote or a backslash.
pub proof fn lemma_base64_chars(b: Seq<u8>)
    ensures
        forall|i: int|
            0 <= i < base64_encode(b).len() ==> {
                &&& ' ' <= #[trigger] base64_encode(b)[i] <= '~'
                &&& base64_encode(b)[i] != '\n'
                &&& base64_encode(b)[i] != '"'
                &&& base64_encode(b)[i] != '\\'
                &&& base64_encode(b)[i] != '\''
            },
    decreases b.len(),
{
    if b.len() > 0 {
        let x = b[0] as int;
        lemma_b64_char(x / 4, 0);
        lemma_b64_char((x % 4) * 16, 0);
        if b.len() >= 2 {
            let y = b[1] as int;
            lemma_b64_char((x % 4) * 16 + y / 16, 0);
            lemma_b64_char((y % 16) * 4, 0);
            if b.len() >= 3 {
                let z = b[2] as int;
                lemma_b64_char((y % 16) * 4 + z / 64, 0);
                lemma_b64_char(z % 64, 0);
                lemma_base64_chars(b.skip(3));
                let e = base64_encode(b);
                let r = base64_encode(b.skip(3));
                assert forall|i: int| 4 <= i < e.len() implies e[i] == r[i - 4] by {}
            }
        }
    }
}

/// A Base64 text has four characters for every started group of three
/// bytes.
pub proof fn lemma_base64_len(b: Seq<u8>)
    ensures
        base64_encode(b).len() == 4 * ((b.len() + 2) / 3),
    decreases b.len(),
{
    if b.len() >= 3 {
        lemma_base64_len(b.skip(3));
    }
}

/// Distinct byte strings have distinct Base64 texts.
pub proof fn lemma_base64_injective(a: Seq<u8>, b: Seq<u8>)
    requires
        base64_encode(a) == base64_encode(b),
    ensures
        a == b,
    decreases a.len(),
{
    let ea = base64_encode(a);
    let eb = base64_encode(b);
    lemma_base64_len(a);
    lemma_base64_len(b);
    if a.len() == 0 || b.len() == 0 {
        assert(a =~= b);
    } else {
        let xa = a[0] as int;
        let xb = b[0] as int;
        lemma_b64_char(xa / 4, xb / 4);
        assert(ea[0] == b64_char(xa / 4)) by {
            if a.len() >= 3 {
                assert(ea[0] == (seq![b64_char(xa / 4), b64_char((xa % 4) * 16 + (a[1] as int) / 16), b64_char(((a[1] as int) % 16) * 4 + (a[2] as int) / 64), b64_char((a[2] as int) % 64)] + base64_encode(a.skip(3)))[0]);
            }
        }
        assert(eb[0] == b64_char(xb / 4)) by {
            if b.len() >= 3 {
                assert(eb[0] == (seq![b64_char(xb / 4), b64_char((xb % 4) * 16 + (b[1] as int) / 16), b64_char(((b[1] as int) % 16) * 4 + (b[2] as int) / 64), b64_char((b[2] as int) % 64)] + base64_encode(b.skip(3)))[0]);
            }
        }
        assert(xa / 4 == xb / 4);
        if a.len() == 1 || b.len() == 1 {
            // the other is a group of one too: its third character is '='
            if a.len() >= 2 {
                let ya = a[1] as int;
                lemma_b64_char((ya % 16) * 4, 0);
                if a.len() >= 3 {
                    let za = a[2] as int;
                    lemma_b64_char((ya % 16) * 4 + za / 64, 0);
                }
                assert(ea[2] == eb[2]);
            }
            if b.len() >= 2 {
                let yb = b[1] as int;
                lemma_b64_char((yb % 16) * 4, 0);
                if b.len() >= 3 {
                    let zb = b[2] as int;
                    lemma_b64_char((yb % 16) * 4 + zb / 64, 0);
                }
                assert(ea[2] == eb[2]);
            }
            lemma_b64_char((xa % 4) * 16, (xb % 4) * 16);
            assert(ea[1] == eb[1]);
            assert(xa == xb);
            assert(a =~= b);
        } else {
            let ya = a[1] as int;
            let yb = b[1] as int;
            lemma_b64_char((xa % 4) * 16 + ya / 16, (xb % 4) * 16 + yb / 16);
            assert(ea[1] == b64_char((xa % 4) * 16 + ya / 16)) by {
                if a.len() >= 3 {
                    assert(ea[1] == (seq![b64_char(xa / 4), b64_char((xa % 4) * 16 + ya / 16), b64_char((ya % 16) * 4 + (a[2] as int) / 64), b64_char((a[2] as int) % 64)] + base64_encode(a.skip(3)))[1]);
                }
            }
            assert(eb[1] == b64_char((xb % 4) * 16 + yb / 16)) by {
                if b.len() >= 3 {
                    assert(eb[1] == (seq![b64_char(xb / 4), b64_char((xb % 4) * 16 + yb / 16), b64_char((yb % 16) * 4 + (b[2] as int) / 64), b64_char((b[2] as int) % 64)] + base64_encode(b.skip(3)))[1]);
                }
            }
            assert(xa % 4 == xb % 4 && ya / 16 == yb / 16);
            assert(xa == xb);
            if a.len() == 2 || b.len() == 2 {
                if a.len() >= 3 {
                    let za = a[2] as int;
                    lemma_b64_char(za % 64, 0);
                    assert(ea[3] == eb[3]);
                }
                if b.len() >= 3 {
                    let zb = b[2] as int;
                    lemma_b64_char(zb % 64, 0);
                    assert(ea[3] == eb[3]);
                }
                lemma_b64_char((ya % 16) * 4, (yb % 16) * 4);
                assert(ea[2] == eb[2]);
                assert(ya == yb);
                assert(a =~= b);
            } else {
                let za = a[2] as int;
                let zb = b[2] as int;
                lemma_b64_char((ya % 16) * 4 + za / 64, (yb % 16) * 4 + zb / 64);
                lemma_b64_char(za % 64, zb % 64);
                assert(ea[2] == eb[2]);
                assert(ea[3] == eb[3]);
                assert(ea[2] == b64_char((ya % 16) * 4 + za / 64));
                assert(eb[2] == b64_char((yb % 16) * 4 + zb / 64));
                assert(ea[3] == b64_char(za % 64));
                assert(eb[3] == b64_char(zb % 64));
                assert((ya % 16) * 4 + za / 64 == (yb % 16) * 4 + zb / 64);
                assert(za % 64 == zb % 64);
                assert(za == zb) by (nonlinear_arith)
                    requires
                        (ya % 16) * 4 + za / 64 == (yb % 16) * 4 + zb / 64,
                        za % 64 == zb % 64,
                        0 <= za < 256,
                        0 <= zb < 256,
                ;
                assert(ya == yb) by (nonlinear_arith)
                    requires
                        (ya % 16) * 4 + za / 64 == (yb % 16) * 4 + zb / 64,
                        ya / 16 == yb / 16,
                        za == zb,
                        0 <= ya < 256,
                        0 <= yb < 256,
                ;
                let ra = base64_encode(a.skip(3));
                let rb = base64_encode(b.skip(3));
                assert(ra =~= ea.skip(4));
                assert(rb =~= eb.skip(4));
                lemma_base64_injective(a.skip(3), b.skip(3));
                assert(a =~= seq![a[0], a[1], a[2]] + a.skip(3));
                assert(b =~= seq![b[0], b[1], b[2]] + b.skip(3));
            }
        }
    }
}

/// Why a text is no Base64 of any byte string, as the Base64 decoder
/// reports it.
#[derive(Clone, Copy, Debug, PartialEq, Eq, Structural)]
pub enum Base64Error {
    /// A byte outside the alphabet, at the given offset.
    InvalidByte(usize, u8),
    /// A text whose length no Base64 text has.
    InvalidLength(usize),
    /// A last symbol whose unused bits are not zero, at the given offset.
    InvalidLastSymbol(usize, u8),
    /// Padding that is missing or misplaced.
    InvalidPadding,
}

/// The error that decoding `text` as standard Base64 reports, where it is
/// no Base64 text.
pub uninterp spec fn base64_decode_error(text: Seq<char>) -> Base64Error;

/// Whether the Base64 text of `n` bytes fits in memory (its length is at
/// most `isize::MAX`); the encoder stops the program otherwise.
pub open spec fn base64_fits(n: nat) -> bool {
    4 * ((n + 2) / 3) <= isize::MAX
}

/// Calls `base64::Engine::encode` of `BASE64_STANDARD`: the contract claims
/// that the result is the padded standard Base64 text of `data`.
#[verifier::external_body]
pub(crate) fn base64_encode_bytes(data: &[u8]) -> (res: String)
    requires
        base64_fits(data@.len() as nat),
    ensures
        res@ == base64_encode(data@),
{
    BASE64_STANDARD.encode(data)
}

/// Calls `base64::Engine::decode` of `BASE64_STANDARD` (canonical padding
/// required, no trailing bits allowed) and names the decoder's error by the
/// library's own enum. The contract claims that decoding succeeds exactly
/// on the texts that are the Base64 of some byte string, and then yields a
/// string whose Base64 the text is. That the error is a function of the
/// text alone is stated by a name; which error comes for which text is left
/// unsaid.
#[verifier::external_body]
pub(crate) fn base64_decode_text(text: &str) -> (res: Result<Vec<u8>, Base64Error>)
    ensures
        res matches Ok(v) ==> base64_encode(v@) == text@,
        res is Err ==> forall|b: Seq<u8>| base64_encode(b) != text@,
        res matches Err(e) ==> e == base64_decode_error(text@),
{
    match BASE64_STANDARD.decode(text) {
        Ok(v) => Ok(v),
        Err(base64::DecodeError::InvalidByte(i, b)) => Err(Base64Error::InvalidByte(i, b)),
        Err(base64::DecodeError::InvalidLength(n)) => Err(Base64Error::InvalidLength(n)),
        Err(base64::DecodeError::InvalidLastSymbol(i, b)) => Err(Base64Error::InvalidLastSymbol(i, b)),
        Err(base64::DecodeError::InvalidPadding) => Err(Base64Error::InvalidPadding),
    }
}

/// The byte string whose Base64 text is `text`, if there is one.
pub open spec fn base64_decode(text: Seq<char>) -> Option<Seq<u8>> {
    if exists|b: Seq<u8>| base64_encode(b) == text {
        Some(choose|b: Seq<u8>| base64_encode(b) == text)
    } else {
        None
    }
}

/// Decoding a Base64 text gives back the bytes it was made from.
pub proof fn lemma_base64_roundtrip(b: Seq<u8>)
    ensures
        base64_decode(base64_encode(b)) == Some(b),
{
    let t = base64_encode(b);
    assert(exists|c: Seq<u8>| base64_encode(c) == t);
    let c = choose|c: Seq<u8>| base64_encode(c) == t;
    lemma_base64_injective(c, b);
}

/// Decodes `text` as standard Base64.
pub fn decode_base64(text: &str) -> (res: Result<Vec<u8>, Base64Error>)
    ensures
        match base64_decode(text@) {
            Some(b) => res matches Ok(v) && v@ == b,
            None => res matches Err(e) && e == base64_decode_error(text@),
        },
{
    let res = base64_decode_text(text);
    let ghost r = res;
    proof {
        match r {
            Ok(v) => {
                lemma_base64_roundtrip(v@);
            },
            Err(_) => {},
        }
    }
    res
}

/// The message of a Base64 error, as the decoder's error writes it.
pub open spec fn base64_error_text(e: Base64Error) -> Seq<char> {
    match e {
        Base64Error::InvalidByte(index, byte) => "Invalid symbol "@ + decimal(byte as nat) + ", offset "@
            + decimal(index as nat) + "."@,
        Base64Error::InvalidLength(len) => "Invalid input length: "@ + decimal(len as nat),
        Base64Error::InvalidLastSymbol(index, byte) => "Invalid last symbol "@ + decimal(byte as nat)
            + ", offset "@ + decimal(index as nat) + "."@,
        Base64Error::InvalidPadding => "Invalid padding"@,
    }
}

impl Base64Error {
    /// The error's message.
    pub fn message(&self) -> (res: String)
        ensures
            res@ == base64_error_text(*self),
    {
        match *self {
            Base64Error::InvalidByte(index, byte) => {
                let mut s = String::from_str("Invalid symbol ");
                s.append(decimal_text(byte as usize).as_str());
                s.append(", offset ");
                s.append(decimal_text(index).as_str());
                s.append(".");
                s
            },
            Base64Error::InvalidLength(len) => {
                let mut s = String::from_str("Invalid input length: ");
                s.append(decimal_text(len).as_str());
                s
            },
            Base64Error::InvalidLastSymbol(index, byte) => {
                let mut s = String::from_str("Invalid last symbol ");
                s.append(decimal_text(byte as usize).as_str());
                s.append(", offset ");
                s.append(decimal_text(index).as_str());
                s.append(".");
                s
            },
            Base64Error::InvalidPadding => String::from_str("Invalid padding"),
        }
    }
}

// ---------------------------------------------------------------- AES-256-GCM

#[verifier::external_type_specification]
#[verifier::external_body]
pub struct ExAeadError(aes_gcm::Error);

/// The longest plaintext, in bytes, that AES-GCM seals (`aes_gcm::P_MAX`).
pub open spec fn aes_gcm_max_plaintext() -> nat {
    68719476736
}

/// The AES-256-GCM ciphertext (with its 16-byte tag appended) of
/// `plaintext` under `key` and `nonce`, with no associated data.
pub uninterp spec fn aes256gcm_seal(key: Seq<u8>, nonce: Seq<u8>, plaintext: Seq<u8>) -> Seq<u8>;

/// Calls `Aes256Gcm::generate_key(OsRng)`: the contract claims only that
/// the key has 32 bytes; its bytes come from the operating system's random
/// source and nothing is said of them.
#[verifier::external_body]
pub(crate) fn aes256gcm_generate_key() -> (res: Vec<u8>)
    ensures
        res@.len() == 32,
{
    Aes256Gcm::generate_key(OsRng).to_vec()
}

/// Calls `Aes256Gcm::generate_nonce(&mut OsRng)`: the contract claims only
/// that the nonce has 12 bytes; its bytes are random and nothing is said of
/// them.
#[verifier::external_body]
pub(crate) fn aes256gcm_generate_nonce() -> (res: Vec<u8>)
    ensures
        res@.len() == 12,
{
    Aes256Gcm::generate_nonce(&mut OsRng).to_vec()
}

/// Calls `Aead::encrypt` of `Aes256Gcm` built from `key`: the contract
/// claims that sealing succeeds exactly when the plaintext is no longer
/// than `P_MAX`, and then gives the sealed text, 16 bytes (the tag) longer
/// than the plaintext.
#[verifier::external_body]
pub(crate) fn aes256gcm_encrypt(key: &[u8], nonce: &[u8], plaintext: &[u8]) -> (res: Result<Vec<u8>, aes_gcm::Error>)
    requires
        key@.len() == 32,
        nonce@.len() == 12,
        plaintext@.len() + 16 <= isize::MAX,
    ensures
        res is Ok <==> plaintext@.len() <= aes_gcm_max_plaintext(),
        res matches Ok(c) ==> c@ == aes256gcm_seal(key@, nonce@, plaintext@),
        res matches Ok(c) ==> c@.len() == plaintext@.len() + 16,
{
    let cipher = Aes256Gcm::new(aes_gcm::Key::<Aes256Gcm>::from_slice(key));
    cipher.encrypt(aes_gcm::aead::Nonce::<Aes256Gcm>::from_slice(nonce), plaintext)
}

/// The longest message, in bytes, that AES-GCM opens (`aes_gcm::C_MAX`,
/// measured on the ciphertext without its tag).
pub open spec fn aes_gcm_max_opened() -> nat {
    68719476736 + 16
}

/// `plaintext` is no longer than AES-GCM opens and seals to `ciphertext`.
pub open spec fn aes_opens(key: Seq<u8>, nonce: Seq<u8>, ciphertext: Seq<u8>, plaintext: Seq<u8>) -> bool {
    plaintext.len() <= aes_gcm_max_opened() && aes256gcm_seal(key, nonce, plaintext) == ciphertext
}

/// What opening `ciphertext` under `key` and `nonce` gives: the plaintext
/// that seals to it, if there is one.
pub open spec fn aes256gcm_open(key: Seq<u8>, nonce: Seq<u8>, ciphertext: Seq<u8>) -> Option<Seq<u8>> {
    if exists|p: Seq<u8>| aes_opens(key, nonce, ciphertext, p) {
        Some(choose|p: Seq<u8>| aes_opens(key, nonce, ciphertext, p))
    } else {
        None
    }
}

/// Calls `Aead::decrypt` of `Aes256Gcm` built from `key`: the contract
/// claims that what opens is the one plaintext that seals to the
/// ciphertext (and is within `C_MAX`), and that decryption fails only where
/// no plaintext within `C_MAX` seals to it.
#[verifier::external_body]
pub(crate) fn aes256gcm_decrypt(key: &[u8], nonce: &[u8], ciphertext: &[u8]) -> (res: Result<Vec<u8>, aes_gcm::Error>)
    requires
        key@.len() == 32,
        nonce@.len() == 12,
    ensures
        res matches Ok(q) ==> aes_opens(key@, nonce@, ciphertext@, q@),
        res matches Ok(q) ==> forall|p: Seq<u8>| aes256gcm_seal(key@, nonce@, p) == ciphertext@ ==> p == q@,
        res is Err ==> forall|p: Seq<u8>| !aes_opens(key@, nonce@, ciphertext@, p),
{
    let cipher = Aes256Gcm::new(aes_gcm::Key::<Aes256Gcm>::from_slice(key));
    cipher.decrypt(aes_gcm::aead::Nonce::<Aes256Gcm>::from_slice(nonce), ciphertext)
}

/// Opens `ciphertext`; fails exactly where [`aes256gcm_open`] gives nothing.
pub(crate) fn open_sealed(key: &[u8], nonce: &[u8], ciphertext: &[u8]) -> (res: Result<Vec<u8>, aes_gcm::Error>)
    requires
        key@.len() == 32,
        nonce@.len() == 12,
    ensures
        match aes256gcm_open(key@, nonce@, ciphertext@) {
            Some(p) => res matches Ok(q) && q@ == p,
            None => res is Err,
        },
        forall|p: Seq<u8>| #[trigger] aes_opens(key@, nonce@, ciphertext@, p) ==> (res matches Ok(q) && q@ == p),
{
    let res = aes256gcm_decrypt(key, nonce, ciphertext);
    let ghost r = res;
    proof {
        match r {
            Ok(q) => {
                assert(aes_opens(key@, nonce@, ciphertext@, q@));
                let c = choose|p: Seq<u8>| aes_opens(key@, nonce@, ciphertext@, p);
                assert(aes256gcm_seal(key@, nonce@, c) == ciphertext@);
            },
            Err(_) => {},
        }
    }
    res
}

/// Calls `Display::fmt` of `aead::Error` (through `to_string`): the
/// contract claims the fixed text it writes.
#[verifier::external_body]
pub(crate) fn aead_error_text(e: &aes_gcm::Error) -> (res: String)
    ensures
        res@ == "aead::Error"@,
{
    e.to_string()
}

// ---------------------------------------------------------------- MD5

/// The MD5 digest (16 bytes) of `data`.
pub uninterp spec fn md5_digest(data: Seq<u8>) -> Seq<u8>;

/// Calls `md5::compute`: the contract claims that the result is the digest
/// of `data`, 16 bytes long.
#[verifier::external_body]
pub(crate) fn md5_compute(data: &[u8]) -> (res: Vec<u8>)
    ensures
        res@ == md5_digest(data@),
        res@.len() == 16,
{
    md5::compute(data).0.to_vec()
}

// ---------------------------------------------------------------- UTF-8

/// Calls `String::from_utf8`: the contract claims that it succeeds exactly
/// on valid UTF-8 and then decodes it (vstd's model of UTF-8).
#[verifier::external_body]
pub(crate) fn string_from_utf8(bytes: Vec<u8>) -> (res: Option<String>)
    ensures
        res is Some <==> valid_utf8(bytes@),
        res matches Some(s) ==> s@ == decode_utf8(bytes@),
{
    String::from_utf8(bytes).ok()
}

// ---------------------------------------------------------------- Debug text

/// The text that debug formatting (`{:?}`) writes for a string: the string
/// in double quotes, with the characters that need it escaped.
pub uninterp spec fn debug_quoted(s: Seq<char>) -> Seq<char>;

/// Text that debug formatting quotes without escaping anything: printable
/// ASCII with no quote (single or double) and no backslash.
pub open spec fn debug_plain(s: Seq<char>) -> bool {
    forall|i: int|
        0 <= i < s.len() ==> ' ' <= #[trigger] s[i] <= '~' && s[i] != '"' && s[i] != '\\' && s[i] != '\''
}

/// Calls `<str as Debug>::fmt` (through `format!("{:?}")`): the contract
/// claims that the result is a function of the text, and that text which
/// needs no escape is written between double quotes unchanged. Which
/// escape each other character gets is left unsaid.
#[verifier::external_body]
pub(crate) fn debug_text(s: &str) -> (res: String)
    ensures
        res@ == debug_quoted(s@),
        debug_plain(s@) ==> res@ == seq!['"'] + s@ + seq!['"'],
{
    format!("{:?}", s)
}

} // verus!
