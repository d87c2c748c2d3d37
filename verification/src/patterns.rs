use vstd::prelude::*;

verus! {

/// What `regex::Regex::is_match` answers for the pattern `(?i)!\s*important\b` on `text`.
pub uninterp spec fn css_important_match(text: Seq<char>) -> bool;

/// Calls `regex::Regex::is_match` with the constant pattern `(?i)!\s*important\b`
/// (a `!`, Unicode white space, `important` in any case, then a word boundary).
/// The contract claims that the answer is a function of `text`, and that a text without
/// `!` never matches, since every match begins with one; the rest of the regular
/// expression's meaning, with its Unicode classes, is left to the `regex` crate.
#[verifier::external_body]
pub(crate) fn has_important_flag(text: &str) -> (r: bool)
    ensures
        r == css_important_match(text@),
        !text@.contains('!') ==> !r,
{
    regex::Regex::new(r"(?i)!\s*important\b").unwrap().is_match(text)
}

/// The pieces that `regex::Regex::find_iter` with the pattern `(?i)#[0-9a-fA-F]{6}\b`
/// cuts `text` into: each match with the text before it, then the text after the last match.
pub uninterp spec fn hex_color_segments(text: Seq<char>) -> (Seq<(Seq<char>, Seq<char>)>, Seq<char>);

/// A text put back together from its segments.
pub open spec fn join_segments(segs: Seq<(Seq<char>, Seq<char>)>, tail: Seq<char>) -> Seq<char>
    decreases segs.len(),
{
    if segs.len() == 0 {
        tail
    } else {
        join_segments(segs.drop_last(), segs.last().0 + segs.last().1 + tail)
    }
}

/// `[0-9a-fA-F]`
pub open spec fn is_hex_digit(c: char) -> bool {
    ('0' <= c && c <= '9') || ('a' <= c && c <= 'f') || ('A' <= c && c <= 'F')
}

/// Calls `regex::Regex::find_iter` with the constant pattern `(?i)#[0-9a-fA-F]{6}\b` and
/// cuts `text` at its matches. The contract claims that the pieces are a function of
/// `text`, that they put `text` back together (the matches are disjoint and in order, as
/// the crate documents) and that each match is `#` with six hexadecimal digits, as the
/// pattern requires; where the word boundary falls is left to the crate.
#[verifier::external_body]
pub(crate) fn find_hex_colors(text: &str) -> (r: (Vec<(String, String)>, String))
    ensures
        (r.0@.map_values(|p: (String, String)| (p.0@, p.1@)), r.1@) == hex_color_segments(text@),
        join_segments(r.0@.map_values(|p: (String, String)| (p.0@, p.1@)), r.1@) == text@,
        forall|i: int|
            0 <= i < r.0@.len() ==> {
                let m = #[trigger] r.0@[i].1@;
                &&& m.len() == 7
                &&& m[0] == '#'
                &&& forall|k: int| 1 <= k < 7 ==> is_hex_digit(#[trigger] m[k])
            },
{
    let re = regex::Regex::new(r"(?i)#[0-9a-fA-F]{6}\b").unwrap();
    let mut segments = Vec::new();
    let mut last: usize = 0;
    for m in re.find_iter(text) {
        segments.push((text[last..m.start()].to_string(), m.as_str().to_string()));
        last = m.end();
    }
    (segments, text[last..].to_string())
}

} // verus!
