//! The on-disk form of a password record and of the key check: what the
//! data and meta files of a record hold, how a record is read back from
//! them, and how a key is checked against the stored digest.

use vstd::prelude::*;
use vstd::utf8::encode_utf8;
use crate::codec::{md5_compute, md5_digest};
use crate::password::{Password, PasswordView};
use crate::text::{hex_lower, hex_text, lemma_hex_lower_len};

verus! {

/// The position of the first line break, or -1.
pub open spec fn newline_index(s: Seq<char>) -> int
    decreases s.len(),
{
    if s.len() == 0 {
        -1
    } else if s[0] == '\n' {
        0
    } else {
        let r = newline_index(s.drop_first());
        if r < 0 { -1 } else { r + 1 }
    }
}

/// The text before the first line break (all of it if there is none).
pub open spec fn first_line(s: Seq<char>) -> Seq<char> {
    let i = newline_index(s);
    if i < 0 { s } else { s.take(i) }
}

/// The text after the first line break (nothing if there is none).
pub open spec fn after_first_line(s: Seq<char>) -> Seq<char> {
    let i = newline_index(s);
    if i < 0 { Seq::empty() } else { s.skip(i + 1) }
}

pub proof fn lemma_newline_index(s: Seq<char>)
    ensures
        -1 <= newline_index(s) < s.len(),
        newline_index(s) >= 0 ==> s[newline_index(s)] == '\n',
        forall|j: int| 0 <= j < s.len() && (newline_index(s) < 0 || j < newline_index(s)) ==> s[j] != '\n',
    decreases s.len(),
{
    if s.len() > 0 {
        let q = s.drop_first();
        lemma_newline_index(q);
        assert forall|j: int| 0 <= j < q.len() implies q[j] == s[j + 1] by {}
        if s[0] != '\n' {
            assert forall|j: int| 0 <= j < s.len() && (newline_index(s) < 0 || j < newline_index(s)) implies s[j] != '\n' by {
                if j > 0 {
                    assert(q[j - 1] == s[j]);
                }
            }
        }
    }
}

/// A text holding no line break is its own first line, and after a line
/// break comes exactly what followed it.
pub proof fn lemma_lines(a: Seq<char>, b: Seq<char>)
    requires
        !a.contains('\n'),
    ensures
        first_line(a) == a,
        first_line(a + seq!['\n'] + b) == a,
        after_first_line(a + seq!['\n'] + b) == b,
{
    let s = a + seq!['\n'] + b;
    lemma_newline_index(a);
    lemma_newline_index(s);
    if newline_index(a) >= 0 {
        assert(a[newline_index(a)] == '\n');
    }
    assert(s[a.len() as int] == '\n');
    if newline_index(s) < 0 || newline_index(s) > a.len() {
        assert(s[a.len() as int] != '\n');
    }
    if newline_index(s) < a.len() {
        assert(s[newline_index(s)] == a[newline_index(s)]);
    }
    assert(newline_index(s) == a.len());
    assert(s.take(a.len() as int) =~= a);
    assert(s.skip(a.len() as int + 1) =~= b);
}

/// Finds the first line break of `s`.
fn find_newline(s: &str) -> (res: Option<usize>)
    ensures
        match res {
            Some(i) => i == newline_index(s@),
            None => newline_index(s@) < 0,
        },
{
    proof {
        lemma_newline_index(s@);
    }
    let n: usize = s.unicode_len();
    let mut i: usize = 0;
    while i < n
        invariant
            n == s@.len(),
            i <= n,
            forall|j: int| 0 <= j < i ==> s@[j] != '\n',
            -1 <= newline_index(s@) < s@.len(),
            newline_index(s@) >= 0 ==> s@[newline_index(s@)] == '\n',
            forall|j: int| 0 <= j < s@.len() && (newline_index(s@) < 0 || j < newline_index(s@)) ==> s@[j] != '\n',
        decreases n - i,
    {
        if s.get_char(i) == '\n' {
            return Some(i);
        }
        i = i + 1;
    }
    proof {
        if newline_index(s@) >= 0 {
            assert(s@[newline_index(s@)] == '\n');
        }
    }
    None
}

/// The text before the first line break of `s`.
pub fn first_line_of(s: &str) -> (res: String)
    ensures
        res@ == first_line(s@),
{
    match find_newline(s) {
        Some(i) => {
            proof {
                lemma_newline_index(s@);
            }
            let r = String::from_str(s.substring_char(0, i));
            assert(r@ =~= s@.take(i as int));
            r
        },
        None => String::from_str(s),
    }
}

/// The text after the first line break of `s`.
pub fn after_first_line_of(s: &str) -> (res: String)
    ensures
        res@ == after_first_line(s@),
{
    match find_newline(s) {
        Some(i) => {
            proof {
                lemma_newline_index(s@);
            }
            let n: usize = s.unicode_len();
            let r = String::from_str(s.substring_char(i + 1, n));
            assert(r@ =~= s@.skip(i + 1));
            r
        },
        None => String::new(),
    }
}

/// What the data and meta files of a record hold: the value, and the
/// description and date on two lines.
pub open spec fn entry_meta(p: PasswordView) -> Seq<char> {
    p.description + seq!['\n'] + p.date
}

/// The contents of the data and meta files of a record.
pub fn entry_contents(password: &Password) -> (res: (String, String))
    ensures
        res.0@ == password@.value,
        res.1@ == entry_meta(password@),
{
    let data: String = password.value.clone();
    let mut meta: String = password.description.clone();
    proof {
        reveal_strlit("\n");
    }
    meta.append("\n");
    meta.append(password.date.as_str());
    (data, meta)
}

/// What reading a record's files gave.
pub enum EntryRead {
    /// The record's folder does not exist.
    NotFound,
    /// A file could not be read, or was no UTF-8; the reader's message.
    Failed(String),
    /// The contents of the data and meta files.
    Found { data: String, meta: String },
}

/// The model of an [`EntryRead`].
pub enum EntryReadView {
    NotFound,
    Failed(Seq<char>),
    Found { data: Seq<char>, meta: Seq<char> },
}

impl View for EntryRead {
    type V = EntryReadView;

    open spec fn view(&self) -> EntryReadView {
        match self {
            EntryRead::NotFound => EntryReadView::NotFound,
            EntryRead::Failed(e) => EntryReadView::Failed(e@),
            EntryRead::Found { data, meta } => EntryReadView::Found { data: data@, meta: meta@ },
        }
    }
}

/// The record read back from its files: the value is the first line of
/// the data file, the description and date the first two lines of the
/// meta file.
pub open spec fn parse_entry(name: Seq<char>, data: Seq<char>, meta: Seq<char>) -> PasswordView {
    PasswordView {
        value: first_line(data),
        name,
        description: first_line(meta),
        date: first_line(after_first_line(meta)),
        is_enc: false,
    }
}

/// Reading the record `name`: `None` where the meta file has no second
/// line (there is then no date to read).
pub open spec fn origin_show_spec(name: Seq<char>, read: EntryReadView) -> Option<Result<PasswordView, Seq<char>>> {
    match read {
        EntryReadView::NotFound => Some(Err("Can't find any password with that name."@)),
        EntryReadView::Failed(e) => Some(Err(e)),
        EntryReadView::Found { data, meta } => if newline_index(meta) < 0 {
            None
        } else {
            Some(Ok(parse_entry(name, data, meta)))
        },
    }
}

/// Reads back the record `name` from what its files gave.
pub fn origin_show(name: &str, read: &EntryRead) -> (res: Option<Result<Password, String>>)
    ensures
        match origin_show_spec(name@, read@) {
            None => res is None,
            Some(Err(e)) => res matches Some(Err(x)) && x@ == e,
            Some(Ok(p)) => res matches Some(Ok(q)) && q@ == p,
        },
{
    match read {
        EntryRead::NotFound => Some(Err(String::from_str("Can't find any password with that name."))),
        EntryRead::Failed(e) => Some(Err(e.clone())),
        EntryRead::Found { data, meta } => {
            match find_newline(meta.as_str()) {
                None => None,
                Some(_) => {
                    let mut u_pass = Password::default();
                    let rest: String = after_first_line_of(meta.as_str());
                    u_pass.name = String::from_str(name);
                    u_pass.description = first_line_of(meta.as_str());
                    u_pass.value = first_line_of(data.as_str());
                    u_pass.date = first_line_of(rest.as_str());
                    Some(Ok(u_pass))
                },
            }
        },
    }
}

/// A record whose value, description and date hold no line break reads
/// back from its files as written, but unsealed.
pub proof fn law_entry_roundtrip(p: PasswordView)
    requires
        !p.value.contains('\n'),
        !p.description.contains('\n'),
        !p.date.contains('\n'),
    ensures
        origin_show_spec(p.name, EntryReadView::Found { data: p.value, meta: entry_meta(p) })
            == Some(Ok::<PasswordView, Seq<char>>(PasswordView { is_enc: false, ..p })),
{
    lemma_lines(p.description, p.date);
    lemma_lines(p.date, Seq::empty());
    lemma_lines(p.value, Seq::empty());
    lemma_newline_index(entry_meta(p));
}

/// How writing a record's files went.
#[derive(Clone, Copy, Debug, PartialEq, Eq, Structural)]
pub enum AddIo {
    /// The record's folder could not be made.
    DirFailed,
    /// The data file could not be made.
    DataCreateFailed,
    /// The data file could not be written.
    DataWriteFailed,
    /// The meta file could not be made.
    MetaCreateFailed,
    /// The meta file could not be written.
    MetaWriteFailed,
    /// Both files were written.
    Written,
}

/// The outcome of writing a record's files.
pub open spec fn origin_add_result_spec(io: AddIo) -> Result<(), Seq<char>> {
    match io {
        AddIo::DirFailed => Err("[!] Can't find the password folder"@),
        AddIo::DataCreateFailed => Err("Can't make data file_data"@),
        AddIo::DataWriteFailed => Err("Can't write to the file_data"@),
        AddIo::MetaCreateFailed => Err("Can't make meta)) file"@),
        AddIo::MetaWriteFailed => Err("Can't write to the file meta"@),
        AddIo::Written => Ok(()),
    }
}

/// The outcome of writing a record's files.
pub fn origin_add_result(io: &AddIo) -> (res: Result<(), String>)
    ensures
        match origin_add_result_spec(*io) {
            Err(e) => res matches Err(x) && x@ == e,
            Ok(()) => res is Ok,
        },
{
    match io {
        AddIo::DirFailed => Err(String::from_str("[!] Can't find the password folder")),
        AddIo::DataCreateFailed => Err(String::from_str("Can't make data file_data")),
        AddIo::DataWriteFailed => Err(String::from_str("Can't write to the file_data")),
        AddIo::MetaCreateFailed => Err(String::from_str("Can't make meta)) file")),
        AddIo::MetaWriteFailed => Err(String::from_str("Can't write to the file meta")),
        AddIo::Written => Ok(()),
    }
}

/// The digest text of a key as the meta file of the store holds it: the
/// lower-case hexadecimal MD5 of the key's UTF-8 bytes.
pub open spec fn key_hash(key: Seq<char>) -> Seq<char> {
    hex_lower(md5_digest(encode_utf8(key)))
}

/// The digest text of a key.
pub fn get_hash(key: &str) -> (res: String)
    ensures
        res@ == key_hash(key@),
        res@ == hex_lower(md5_digest(encode_utf8(key@))),
        res@.len() == 32,
{
    let digest: Vec<u8> = md5_compute(key.as_bytes());
    proof {
        lemma_hex_lower_len(digest@);
    }
    hex_text(digest.as_slice())
}

/// What reading the store's meta file gave.
pub enum MetaFile {
    /// The file could not be opened.
    Missing,
    /// The file was opened but could not be read as text.
    Unreadable,
    /// The file's text.
    Text(String),
}

/// The model of a [`MetaFile`].
pub enum MetaFileView {
    Missing,
    Unreadable,
    Text(Seq<char>),
}

impl View for MetaFile {
    type V = MetaFileView;

    open spec fn view(&self) -> MetaFileView {
        match self {
            MetaFile::Missing => MetaFileView::Missing,
            MetaFile::Unreadable => MetaFileView::Unreadable,
            MetaFile::Text(t) => MetaFileView::Text(t@),
        }
    }
}

/// The outcome of checking a key: it must be 44 bytes long, the meta file
/// must be readable, and the key's digest must be what the meta file holds
/// (nothing, when the file could not be opened).
pub open spec fn validate_spec(key: Seq<char>, meta: MetaFileView) -> Result<(), Seq<char>> {
    if encode_utf8(key).len() != 44 {
        Err("The key is not valid!"@)
    } else {
        match meta {
            MetaFileView::Unreadable => Err(
                "There is a problem in origin structure, please do the `psm --init` again"@,
            ),
            MetaFileView::Missing => if key_hash(key) != Seq::<char>::empty() {
                Err("Your key is not same as what you made before. please give the original key"@)
            } else {
                Ok(())
            },
            MetaFileView::Text(t) => if key_hash(key) != t {
                Err("Your key is not same as what you made before. please give the original key"@)
            } else {
                Ok(())
            },
        }
    }
}

/// Checks a key against the digest in the store's meta file.
pub fn validate_user_key(key: &str, meta: &MetaFile) -> (res: Result<(), String>)
    ensures
        match validate_spec(key@, meta@) {
            Ok(()) => res is Ok,
            Err(e) => res matches Err(x) && x@ == e,
        },
{
    let hashed_key: String = get_hash(key);
    let key_bytes: &[u8] = key.as_bytes();
    if key_bytes.len() != 44 {
        return Err(String::from_str("The key is not valid!"));
    }
    let f_key: String = match meta {
        MetaFile::Missing => String::new(),
        MetaFile::Unreadable => {
            return Err(
                String::from_str(
                    "There is a problem in origin structure, please do the `psm --init` again",
                ),
            );
        },
        MetaFile::Text(t) => t.clone(),
    };
    if !crate::text::str_equal(hashed_key.as_str(), f_key.as_str()) {
        return Err(
            String::from_str(
                "Your key is not same as what you made before. please give the original key",
            ),
        );
    }
    Ok(())
}

/// The digest of a key text is the lower-case hexadecimal MD5 of the
/// text's own UTF-8 bytes, not of the bytes the text may decode to.
pub proof fn law_digest_of_key_text(key: Seq<char>)
    ensures
        key_hash(key) == hex_lower(md5_digest(encode_utf8(key))),
{
}

} // verus!
