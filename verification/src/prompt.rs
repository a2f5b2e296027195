//! Reading the answers to the program's questions: a line typed by the
//! user, with its line ending (`\r\n` or `\n`) removed.

use vstd::prelude::*;

verus! {

/// The lower-case form of a text (Unicode lower-casing, as
/// `str::to_lowercase` does it).
pub uninterp spec fn lowercase(s: Seq<char>) -> Seq<char>;

/// The ASCII lower-case form of a character: `A`..`Z` become `a`..`z`,
/// every other character stays.
pub open spec fn ascii_lower(c: char) -> char {
    if 'A' <= c <= 'Z' {
        ((c as u32) + 32) as char
    } else {
        c
    }
}

proof fn lemma_ascii_lower_y(c: char)
    ensures
        ascii_lower(c) == 'y' <==> (c == 'y' || c == 'Y'),
{
}

/// The ASCII lower-case form of a text, character by character.
pub open spec fn ascii_lowered(s: Seq<char>) -> Seq<char> {
    s.map_values(|c: char| ascii_lower(c))
}

/// Whether every character of `s` is ASCII.
pub open spec fn all_ascii(s: Seq<char>) -> bool {
    forall|i: int| 0 <= i < s.len() ==> (#[trigger] s[i]) as u32 <= 127
}

/// Calls `str::to_lowercase`: the contract claims that the result is a
/// function of the text and that an ASCII text is lower-cased letter by
/// letter (`A`..`Z` to `a`..`z`); the rest of the Unicode lower-casing rules
/// are not restated.
#[verifier::external_body]
fn str_to_lowercase(s: &str) -> (res: String)
    ensures
        res@ == lowercase(s@),
        all_ascii(s@) ==> res@ == ascii_lowered(s@),
{
    s.to_lowercase()
}

/// A typed line without its one line ending: `"\r\n"` where the line ends
/// so, else `"\n"` where it ends so, else nothing is removed.
pub open spec fn cut_line_ending(line: Seq<char>) -> Seq<char> {
    let n = line.len();
    if n >= 2 && line[n - 2] == '\r' && line[n - 1] == '\n' {
        line.take(n - 2)
    } else if n >= 1 && line[n - 1] == '\n' {
        line.take(n - 1)
    } else {
        line
    }
}

/// The answer that a typed line gives to a yes/no question: whether the
/// line, without its ending and lower-cased, is "y".
pub open spec fn ask_answer_spec(input: Seq<char>) -> bool {
    lowercase(cut_line_ending(input)) == "y"@
}

/// The typed line without its line ending.
pub fn ask_text(input: &str) -> (res: String)
    ensures
        res@ == cut_line_ending(input@),
{
    let n: usize = input.unicode_len();
    if n >= 2 && input.get_char(n - 2) == '\r' && input.get_char(n - 1) == '\n' {
        String::from_str(input.substring_char(0, n - 2))
    } else if n >= 1 && input.get_char(n - 1) == '\n' {
        String::from_str(input.substring_char(0, n - 1))
    } else {
        String::from_str(input)
    }
}

/// The answer that a typed line gives to a yes/no question. A line of
/// ASCII text answers yes exactly when, without its ending, it is `y` or
/// `Y`.
pub fn ask_answer(input: &str) -> (res: bool)
    ensures
        res == ask_answer_spec(input@),
        all_ascii(cut_line_ending(input@)) ==> (res <==> (cut_line_ending(input@) == seq!['y'] || cut_line_ending(
            input@,
        ) == seq!['Y'])),
{
    let body: String = ask_text(input);
    let lower: String = str_to_lowercase(body.as_str());
    let res = crate::text::str_equal(lower.as_str(), "y");
    proof {
        reveal_strlit("y");
        let b = body@;
        if all_ascii(b) {
            let m = ascii_lowered(b);
            if b.len() == 1 {
                lemma_ascii_lower_y(b[0]);
            }
            if res {
                assert(m =~= seq!['y']);
                assert(m[0] == 'y');
                assert(b =~= seq!['y'] || b =~= seq!['Y']);
            } else {
                if b =~= seq!['y'] || b =~= seq!['Y'] {
                    assert(m =~= seq!['y']);
                    assert("y"@ =~= seq!['y']);
                }
            }
        }
    }
    res
}

} // verus!
