use vstd::prelude::*;
use crate::error::SvgStripError;
use crate::patterns::{css_important_match, has_important_flag};
use crate::text::{
    append_chars, ascii_lower, chars_of, concat_chars, copy_chars, eq_str, find_char, has_char,
    index_of, lemma_index_of, lemma_trim_len, split_on, split_on_char, string_of, sub_chars,
    to_ascii_lower, trim, trimmed,
};

verus! {

broadcast use vstd::string::group_string_axioms;

/// A result of the CSS functions in the model: the value, or the message of the error.
pub type SResult<T> = Result<T, Seq<char>>;

/// The model of an executable result whose error is an `SvgStripError`.
pub open spec fn res_text(r: Result<Vec<char>, SvgStripError>) -> SResult<Seq<char>> {
    match r {
        Ok(v) => Ok(v@),
        Err(e) => Err(e@),
    }
}

/// `r` with `p` put in front of its value.
pub open spec fn prefixed(p: Seq<char>, r: SResult<Seq<char>>) -> SResult<Seq<char>> {
    match r {
        Ok(t) => Ok(p + t),
        Err(e) => Err(e),
    }
}

pub open spec fn msg_unterminated_comment() -> Seq<char> {
    "component mode found an unterminated CSS comment"@
}

pub open spec fn msg_unterminated_string() -> Seq<char> {
    "component mode found an unterminated CSS string"@
}

pub open spec fn msg_unbalanced() -> Seq<char> {
    "component mode found unbalanced CSS parentheses"@
}

pub open spec fn msg_nested_syntax() -> Seq<char> {
    "component mode does not support nested CSS syntax"@
}

/// An error whose message is `a`, then `b`, then `c`.
pub fn error3(a: &str, b: &[char], c: &str) -> (r: SvgStripError)
    ensures
        r@ == a@ + b@ + c@,
{
    let av = chars_of(a);
    let cv = chars_of(c);
    let ab = concat_chars(av.as_slice(), b);
    let abc = concat_chars(ab.as_slice(), cv.as_slice());
    SvgStripError::new(string_of(abc.as_slice()))
}

/// An error with a fixed message.
pub fn error1(a: &str) -> (r: SvgStripError)
    ensures
        r@ == a@,
{
    SvgStripError::new(a.to_string())
}

pub proof fn lemma_prefixed_assoc(p: Seq<char>, q: Seq<char>, r: SResult<Seq<char>>)
    ensures
        prefixed(p, prefixed(q, r)) == prefixed(p + q, r),
{
    if let Ok(t) = r {
        assert(p + (q + t) =~= (p + q) + t);
    }
}

/* ------------------------------------------------------------------ */
/*  Comments                                                          */
/* ------------------------------------------------------------------ */

/// The index of the first `*/` at or after `j`.
pub open spec fn comment_close(s: Seq<char>, j: int) -> Option<int>
    decreases s.len() - j,
{
    if j < 0 || j + 1 >= s.len() {
        None
    } else if s[j] == '*' && s[j + 1] == '/' {
        Some(j)
    } else {
        comment_close(s, j + 1)
    }
}

pub proof fn lemma_comment_close(s: Seq<char>, j: int)
    ensures
        comment_close(s, j) matches Some(k) ==> j <= k && k + 1 < s.len() && s[k] == '*' && s[k
            + 1] == '/',
    decreases s.len() - j,
{
    if !(j < 0 || j + 1 >= s.len()) && !(s[j] == '*' && s[j + 1] == '/') {
        lemma_comment_close(s, j + 1);
    }
}

/// The state of a string after reading the character `c` inside a quoted CSS string:
/// the quote that is still open, if any, and whether the next character is escaped.
pub open spec fn quoted_step(q: char, escaped: bool, c: char) -> (Option<char>, bool) {
    if escaped {
        (Some(q), false)
    } else if c == '\\' {
        (Some(q), true)
    } else if c == q {
        (None, false)
    } else {
        (Some(q), false)
    }
}

/// The text `s[i..]` without CSS comments, read from the state given by `quote` and `escaped`.
pub open spec fn strip_comments_from(s: Seq<char>, i: int, quote: Option<char>, escaped: bool) -> SResult<
    Seq<char>,
>
    decreases s.len() - i,
{
    if i < 0 || i >= s.len() {
        if quote is Some {
            Err(msg_unterminated_string())
        } else {
            Ok(Seq::empty())
        }
    } else {
        let c = s[i];
        match quote {
            Some(q) => {
                let (nq, ne) = quoted_step(q, escaped, c);
                prefixed(seq![c], strip_comments_from(s, i + 1, nq, ne))
            },
            None => {
                if c == '\'' || c == '"' {
                    prefixed(seq![c], strip_comments_from(s, i + 1, Some(c), escaped))
                } else if c == '/' && i + 1 < s.len() && s[i + 1] == '*' {
                    match comment_close(s, i + 2) {
                        Some(k) => {
                            proof {
                                lemma_comment_close(s, i + 2);
                            }
                            strip_comments_from(s, k + 2, None, escaped)
                        },
                        None => Err(msg_unterminated_comment()),
                    }
                } else {
                    prefixed(seq![c], strip_comments_from(s, i + 1, None, escaped))
                }
            },
        }
    }
}

/// The text without its CSS comments; an error for an unterminated comment or string.
pub open spec fn strip_css_comments_spec(s: Seq<char>) -> SResult<Seq<char>> {
    strip_comments_from(s, 0, None, false)
}

fn find_comment_close(s: &[char], j: usize) -> (r: Option<usize>)
    ensures
        match r {
            Some(k) => comment_close(s@, j as int) == Some(k as int),
            None => comment_close(s@, j as int) is None,
        },
{
    let mut k = j;
    while k < s.len() && k + 1 < s.len()
        invariant
            j <= k,
            comment_close(s@, j as int) == comment_close(s@, k as int),
        decreases s.len() - k,
    {
        if s[k] == '*' && s[k + 1] == '/' {
            return Some(k);
        }
        k += 1;
    }
    None
}

/// Removes CSS comments outside strings; fails on an unterminated comment or string.
pub fn strip_css_comments(input: &[char]) -> (r: Result<Vec<char>, SvgStripError>)
    ensures
        res_text(r) == strip_css_comments_spec(input@),
{
    let mut output: Vec<char> = Vec::new();
    let mut quote: Option<char> = None;
    let mut escaped = false;
    let mut i: usize = 0;
    while i < input.len()
        invariant
            i <= input.len(),
            strip_css_comments_spec(input@) == prefixed(
                output@,
                strip_comments_from(input@, i as int, quote, escaped),
            ),
        decreases input.len() - i,
    {
        let c = input[i];
        let ghost old_out = output@;
        let ghost old_i = i as int;
        let ghost old_quote = quote;
        let ghost old_escaped = escaped;
        match quote {
            Some(q) => {
                output.push(c);
                if escaped {
                    escaped = false;
                } else if c == '\\' {
                    escaped = true;
                } else if c == q {
                    quote = None;
                }
                i += 1;
            },
            None => {
                if c == '\'' || c == '"' {
                    quote = Some(c);
                    output.push(c);
                    i += 1;
                } else if c == '/' && i + 1 < input.len() && input[i + 1] == '*' {
                    match find_comment_close(input, i + 2) {
                        Some(k) => {
                            proof {
                                lemma_comment_close(input@, i + 2);
                            }
                            i = k + 2;
                        },
                        None => {
                            return Err(error1("component mode found an unterminated CSS comment"));
                        },
                    }
                } else {
                    output.push(c);
                    i += 1;
                }
            },
        }
        proof {
            if output@.len() > old_out.len() {
                assert(output@ == old_out + seq![c]);
                lemma_prefixed_assoc(
                    old_out,
                    seq![c],
                    strip_comments_from(input@, i as int, quote, escaped),
                );
            }
        }
    }
    if quote.is_some() {
        return Err(error1("component mode found an unterminated CSS string"));
    }
    assert(output@ + Seq::<char>::empty() =~= output@);
    Ok(output)
}

/* ------------------------------------------------------------------ */
/*  Top-level splitting                                               */
/* ------------------------------------------------------------------ */

/// The model of a vector of texts.
pub open spec fn texts_view(v: Seq<Vec<char>>) -> Seq<Seq<char>> {
    v.map_values(|t: Vec<char>| t@)
}

/// `r` with the parts `p` put in front of its parts.
pub open spec fn prefixed_parts(p: Seq<Seq<char>>, r: SResult<Seq<Seq<char>>>) -> SResult<
    Seq<Seq<char>>,
> {
    match r {
        Ok(t) => Ok(p + t),
        Err(e) => Err(e),
    }
}

pub proof fn lemma_prefixed_parts_assoc(
    p: Seq<Seq<char>>,
    q: Seq<Seq<char>>,
    r: SResult<Seq<Seq<char>>>,
)
    ensures
        prefixed_parts(p, prefixed_parts(q, r)) == prefixed_parts(p + q, r),
{
    if let Ok(t) = r {
        assert(p + (q + t) =~= (p + q) + t);
    }
}

/// The parts of `s[start..]` between the delimiters that stand outside strings and
/// parentheses, read from position `i` in the given state.
pub open spec fn split_from(
    s: Seq<char>,
    delim: char,
    i: int,
    start: int,
    quote: Option<char>,
    escaped: bool,
    depth: nat,
) -> SResult<Seq<Seq<char>>>
    decreases s.len() - i,
{
    if i < 0 || i >= s.len() {
        if quote is Some {
            Err(msg_unterminated_string())
        } else if depth != 0 {
            Err(msg_unbalanced())
        } else {
            Ok(seq![s.subrange(start, s.len() as int)])
        }
    } else {
        let c = s[i];
        match quote {
            Some(q) => {
                let (nq, ne) = quoted_step(q, escaped, c);
                split_from(s, delim, i + 1, start, nq, ne, depth)
            },
            None => {
                if c == '\'' || c == '"' {
                    split_from(s, delim, i + 1, start, Some(c), escaped, depth)
                } else if c == '(' {
                    split_from(s, delim, i + 1, start, None, escaped, depth + 1)
                } else if c == ')' {
                    if depth > 0 {
                        split_from(s, delim, i + 1, start, None, escaped, (depth - 1) as nat)
                    } else {
                        Err(msg_unbalanced())
                    }
                } else if c == '{' || c == '}' {
                    Err(msg_nested_syntax())
                } else if c == delim && depth == 0 {
                    prefixed_parts(
                        seq![s.subrange(start, i)],
                        split_from(s, delim, i + 1, i + 1, None, escaped, depth),
                    )
                } else {
                    split_from(s, delim, i + 1, start, None, escaped, depth)
                }
            },
        }
    }
}

/// The parts of `s` between its top-level delimiters, as `split_css_at_top_level` finds them.
pub open spec fn split_top_level(s: Seq<char>, delim: char) -> SResult<Seq<Seq<char>>> {
    split_from(s, delim, 0, 0, None, false, 0)
}

/// The first part found from a state starts at `start`; it is the only part exactly when it
/// runs to the end.
pub proof fn lemma_split_first(
    s: Seq<char>,
    delim: char,
    i: int,
    start: int,
    quote: Option<char>,
    escaped: bool,
    depth: nat,
)
    requires
        0 <= start <= i <= s.len(),
    ensures
        split_from(s, delim, i, start, quote, escaped, depth) matches Ok(ps) ==> {
            &&& ps.len() >= 1
            &&& start + ps[0].len() <= s.len()
            &&& ps[0] == s.subrange(start, start + ps[0].len())
            &&& (ps.len() == 1) == (start + ps[0].len() == s.len())
        },
    decreases s.len() - i,
{
    if i < s.len() {
        let c = s[i];
        match quote {
            Some(q) => {
                let (nq, ne) = quoted_step(q, escaped, c);
                lemma_split_first(s, delim, i + 1, start, nq, ne, depth);
            },
            None => {
                if c == '\'' || c == '"' {
                    lemma_split_first(s, delim, i + 1, start, Some(c), escaped, depth);
                } else if c == '(' {
                    lemma_split_first(s, delim, i + 1, start, None, escaped, depth + 1);
                } else if c == ')' {
                    if depth > 0 {
                        lemma_split_first(s, delim, i + 1, start, None, escaped, (depth - 1) as nat);
                    }
                } else if c == '{' || c == '}' {
                } else if c == delim && depth == 0 {
                    lemma_split_first(s, delim, i + 1, i + 1, None, escaped, depth);
                } else {
                    lemma_split_first(s, delim, i + 1, start, None, escaped, depth);
                }
            },
        }
    }
}

/// The parts joined back together with `delim` between each two.
pub open spec fn join_parts(parts: Seq<Seq<char>>, delim: char) -> Seq<char>
    decreases parts.len(),
{
    if parts.len() == 0 {
        Seq::empty()
    } else if parts.len() == 1 {
        parts[0]
    } else {
        parts[0] + seq![delim] + join_parts(parts.drop_first(), delim)
    }
}

proof fn lemma_split_join(
    s: Seq<char>,
    delim: char,
    i: int,
    start: int,
    quote: Option<char>,
    escaped: bool,
    depth: nat,
)
    requires
        0 <= start <= i <= s.len(),
    ensures
        split_from(s, delim, i, start, quote, escaped, depth) matches Ok(ps) ==> ps.len() >= 1
            && join_parts(ps, delim) == s.subrange(start, s.len() as int),
    decreases s.len() - i,
{
    if i < s.len() {
        let c = s[i];
        match quote {
            Some(q) => {
                let (nq, ne) = quoted_step(q, escaped, c);
                lemma_split_join(s, delim, i + 1, start, nq, ne, depth);
            },
            None => {
                if c == '\'' || c == '"' {
                    lemma_split_join(s, delim, i + 1, start, Some(c), escaped, depth);
                } else if c == '(' {
                    lemma_split_join(s, delim, i + 1, start, None, escaped, depth + 1);
                } else if c == ')' {
                    if depth > 0 {
                        lemma_split_join(s, delim, i + 1, start, None, escaped, (depth - 1) as nat);
                    }
                } else if c == '{' || c == '}' {
                } else if c == delim && depth == 0 {
                    lemma_split_join(s, delim, i + 1, i + 1, None, escaped, depth);
                    if let Ok(rest) = split_from(s, delim, i + 1, i + 1, None, escaped, depth) {
                        let ps = seq![s.subrange(start, i)] + rest;
                        assert(ps.drop_first() =~= rest);
                        assert(ps[0] == s.subrange(start, i));
                        assert(s.subrange(start, i) + seq![delim] + s.subrange(i + 1, s.len() as int)
                            =~= s.subrange(start, s.len() as int));
                    }
                } else {
                    lemma_split_join(s, delim, i + 1, start, None, escaped, depth);
                }
            },
        }
    }
}

/// Splitting at top-level delimiters loses nothing: the parts, joined back with the
/// delimiter, give the text that was split.
pub proof fn law_split_then_join(s: Seq<char>, delim: char)
    ensures
        split_top_level(s, delim) matches Ok(ps) ==> ps.len() >= 1 && join_parts(ps, delim) == s,
{
    lemma_split_join(s, delim, 0, 0, None, false, 0);
    assert(s.subrange(0, s.len() as int) =~= s);
}

/// The reading state after one more character: the open quote, whether the next character
/// is escaped, and the parenthesis depth.
pub open spec fn scan_step(st: (Option<char>, bool, int), c: char) -> (Option<char>, bool, int) {
    match st.0 {
        Some(q) => {
            let (nq, ne) = quoted_step(q, st.1, c);
            (nq, ne, st.2)
        },
        None => if c == '\'' || c == '"' {
            (Some(c), st.1, st.2)
        } else if c == '(' {
            (None, st.1, st.2 + 1)
        } else if c == ')' {
            (None, st.1, st.2 - 1)
        } else {
            (None, st.1, st.2)
        },
    }
}

/// The reading state before position `k` of `s`.
pub open spec fn scan_state(s: Seq<char>, k: int) -> (Option<char>, bool, int)
    decreases k,
{
    if k <= 0 {
        (None, false, 0)
    } else {
        scan_step(scan_state(s, k - 1), s[k - 1])
    }
}

/// Whether position `k` holds `delim` outside any string, at parenthesis depth zero.
pub open spec fn is_top_delimiter(s: Seq<char>, delim: char, k: int) -> bool {
    s[k] == delim && scan_state(s, k).0 is None && scan_state(s, k).2 == 0
}

/// The number of top-level `delim` positions of `s` from `i` on.
pub open spec fn top_delimiters_from(s: Seq<char>, delim: char, i: int) -> nat
    decreases s.len() - i,
{
    if i < 0 || i >= s.len() {
        0
    } else {
        (if is_top_delimiter(s, delim, i) {
            1nat
        } else {
            0nat
        }) + top_delimiters_from(s, delim, i + 1)
    }
}

proof fn lemma_split_count(
    s: Seq<char>,
    delim: char,
    i: int,
    start: int,
    quote: Option<char>,
    escaped: bool,
    depth: nat,
)
    requires
        0 <= i <= s.len(),
        (quote, escaped, depth as int) == scan_state(s, i),
        delim != '(' && delim != ')' && delim != '\'' && delim != '"' && delim != '{' && delim
            != '}',
    ensures
        split_from(s, delim, i, start, quote, escaped, depth) matches Ok(ps) ==> ps.len() == 1
            + top_delimiters_from(s, delim, i),
    decreases s.len() - i,
{
    if i < s.len() {
        let c = s[i];
        assert(scan_state(s, i + 1) == scan_step(scan_state(s, i), c));
        match quote {
            Some(q) => {
                let (nq, ne) = quoted_step(q, escaped, c);
                lemma_split_count(s, delim, i + 1, start, nq, ne, depth);
            },
            None => {
                if c == '\'' || c == '"' {
                    lemma_split_count(s, delim, i + 1, start, Some(c), escaped, depth);
                } else if c == '(' {
                    lemma_split_count(s, delim, i + 1, start, None, escaped, depth + 1);
                } else if c == ')' {
                    if depth > 0 {
                        lemma_split_count(s, delim, i + 1, start, None, escaped, (depth - 1) as nat);
                    }
                } else if c == '{' || c == '}' {
                } else if c == delim && depth == 0 {
                    lemma_split_count(s, delim, i + 1, i + 1, None, escaped, depth);
                } else {
                    lemma_split_count(s, delim, i + 1, start, None, escaped, depth);
                }
            },
        }
    }
}

/// Splitting at top-level delimiters makes one part more than there are delimiters outside
/// strings at parenthesis depth zero, where the delimiter is none of the characters that
/// open or close strings, parentheses or blocks.
pub proof fn law_split_part_count(s: Seq<char>, delim: char)
    requires
        delim != '(' && delim != ')' && delim != '\'' && delim != '"' && delim != '{' && delim
            != '}',
    ensures
        split_top_level(s, delim) matches Ok(ps) ==> ps.len() == 1 + top_delimiters_from(s, delim, 0),
{
    lemma_split_count(s, delim, 0, 0, None, false, 0);
}

/// Whether `s` holds no `/*`.
pub open spec fn no_comment_open(s: Seq<char>) -> bool {
    forall|k: int| 0 <= k < s.len() - 1 ==> !(#[trigger] s[k] == '/' && s[k + 1] == '*')
}

proof fn lemma_strip_without_comments(s: Seq<char>, i: int)
    requires
        0 <= i <= s.len(),
        no_comment_open(s),
    ensures
        strip_comments_from(s, i, scan_state(s, i).0, scan_state(s, i).1) == if scan_state(
            s,
            s.len() as int,
        ).0 is None {
            Ok::<Seq<char>, Seq<char>>(s.skip(i))
        } else {
            Err::<Seq<char>, Seq<char>>(msg_unterminated_string())
        },
    decreases s.len() - i,
{
    if i < s.len() {
        let c = s[i];
        assert(scan_state(s, i + 1) == scan_step(scan_state(s, i), c));
        lemma_strip_without_comments(s, i + 1);
        assert(seq![c] + s.skip(i + 1) =~= s.skip(i));
        if scan_state(s, i).0 is None && c == '/' && i + 1 < s.len() {
            assert(!(s[i] == '/' && s[i + 1] == '*'));
        }
    } else {
        assert(s.skip(i) =~= Seq::<char>::empty());
    }
}

/// Text without `/*` comes back unchanged from comment removal when its strings are all
/// closed, and otherwise gives the unterminated-string error.
pub proof fn law_text_without_comments_unchanged(s: Seq<char>)
    requires
        no_comment_open(s),
    ensures
        strip_css_comments_spec(s) == if scan_state(s, s.len() as int).0 is None {
            Ok::<Seq<char>, Seq<char>>(s)
        } else {
            Err::<Seq<char>, Seq<char>>(msg_unterminated_string())
        },
{
    lemma_strip_without_comments(s, 0);
    assert(s.skip(0) =~= s);
}

/// Splits `input` at each `delimiter` outside strings and parentheses; fails on an
/// unterminated string, unbalanced parentheses or braces.
pub fn split_css_at_top_level(input: &[char], delimiter: char) -> (r: Result<Vec<Vec<char>>, SvgStripError>)
    ensures
        match r {
            Ok(parts) => split_top_level(input@, delimiter) == Ok::<Seq<Seq<char>>, Seq<char>>(
                texts_view(parts@),
            ),
            Err(e) => split_top_level(input@, delimiter) == Err::<Seq<Seq<char>>, Seq<char>>(e@),
        },
{
    let mut parts: Vec<Vec<char>> = Vec::new();
    let mut start: usize = 0;
    let mut quote: Option<char> = None;
    let mut escaped = false;
    let mut depth: usize = 0;
    let mut i: usize = 0;
    while i < input.len()
        invariant
            start <= i <= input.len(),
            depth <= i,
            split_top_level(input@, delimiter) == prefixed_parts(
                texts_view(parts@),
                split_from(input@, delimiter, i as int, start as int, quote, escaped, depth as nat),
            ),
        decreases input.len() - i,
    {
        let c = input[i];
        let ghost old_parts = texts_view(parts@);
        match quote {
            Some(q) => {
                if escaped {
                    escaped = false;
                } else if c == '\\' {
                    escaped = true;
                } else if c == q {
                    quote = None;
                }
            },
            None => {
                if c == '\'' || c == '"' {
                    quote = Some(c);
                } else if c == '(' {
                    depth += 1;
                } else if c == ')' {
                    if depth > 0 {
                        depth -= 1;
                    } else {
                        return Err(error1("component mode found unbalanced CSS parentheses"));
                    }
                } else if c == '{' || c == '}' {
                    return Err(error1("component mode does not support nested CSS syntax"));
                } else if c == delimiter && depth == 0 {
                    let part = sub_chars(input, start, i);
                    parts.push(part);
                    proof {
                        assert(texts_view(parts@) =~= old_parts + seq![input@.subrange(start as int, i as int)]);
                        lemma_prefixed_parts_assoc(
                            old_parts,
                            seq![input@.subrange(start as int, i as int)],
                            split_from(input@, delimiter, i + 1, i + 1, None, escaped, 0),
                        );
                    }
                    start = i + 1;
                }
            },
        }
        i += 1;
    }
    if quote.is_some() {
        return Err(error1("component mode found an unterminated CSS string"));
    }
    if depth != 0 {
        return Err(error1("component mode found unbalanced CSS parentheses"));
    }
    let ghost old_parts = texts_view(parts@);
    let last = sub_chars(input, start, input.len());
    parts.push(last);
    assert(texts_view(parts@) =~= old_parts + seq![input@.subrange(start as int, input@.len() as int)]);
    Ok(parts)
}

/// The position of the first top-level `delim` in `s`, if any.
pub open spec fn find_top_level_spec(s: Seq<char>, delim: char) -> SResult<Option<int>> {
    match split_top_level(s, delim) {
        Ok(ps) => Ok(
            if ps.len() == 1 {
                None
            } else {
                Some(ps[0].len() as int)
            },
        ),
        Err(e) => Err(e),
    }
}

/// The position of the first `delimiter` outside strings and parentheses.
pub fn find_css_delimiter_at_top_level(input: &[char], delimiter: char) -> (r: Result<
    Option<usize>,
    SvgStripError,
>)
    ensures
        match r {
            Ok(Some(k)) => find_top_level_spec(input@, delimiter) == Ok::<Option<int>, Seq<char>>(
                Some(k as int),
            ) && k < input@.len(),
            Ok(None) => find_top_level_spec(input@, delimiter) == Ok::<Option<int>, Seq<char>>(None),
            Err(e) => find_top_level_spec(input@, delimiter) == Err::<Option<int>, Seq<char>>(e@),
        },
{
    let parts = split_css_at_top_level(input, delimiter)?;
    proof {
        lemma_split_first(input@, delimiter, 0, 0, None, false, 0);
    }
    if parts.len() == 1 {
        return Ok(None);
    }
    assert(texts_view(parts@)[0] == parts@[0]@);
    Ok(Some(parts[0].len()))
}

/* ------------------------------------------------------------------ */
/*  Declarations                                                      */
/* ------------------------------------------------------------------ */

/// `r` with the items `p` put in front of its items.
pub open spec fn prefixed_with<T>(p: Seq<T>, r: SResult<Seq<T>>) -> SResult<Seq<T>> {
    match r {
        Ok(t) => Ok(p + t),
        Err(e) => Err(e),
    }
}

pub proof fn lemma_prefixed_with_assoc<T>(p: Seq<T>, q: Seq<T>, r: SResult<Seq<T>>)
    ensures
        prefixed_with(p, prefixed_with(q, r)) == prefixed_with(p + q, r),
{
    if let Ok(t) = r {
        assert(p + (q + t) =~= (p + q) + t);
    }
}

/// One CSS declaration, `property: value`.
#[derive(Debug)]
pub struct CssDeclaration {
    pub property: Vec<char>,
    pub value: Vec<char>,
}

impl CssDeclaration {
    pub open spec fn view(&self) -> (Seq<char>, Seq<char>) {
        (self.property@, self.value@)
    }
}

/// The model of a list of declarations.
pub open spec fn decls_view(v: Seq<CssDeclaration>) -> Seq<(Seq<char>, Seq<char>)> {
    v.map_values(|d: CssDeclaration| d.view())
}

/// Where a list of declarations comes from: a component's style sheet, where only
/// presentation properties are allowed and names are lower-cased, or an inline `style`.
#[derive(Clone, Copy, PartialEq, Eq, Structural, Debug)]
pub enum CssDeclarationContext {
    ComponentStylesheet,
    InlineStyle,
}

pub open spec fn msg_invalid_declaration(d: Seq<char>) -> Seq<char> {
    "component mode found an invalid CSS declaration \""@ + d + "\""@
}

pub open spec fn msg_important(p: Seq<char>) -> Seq<char> {
    "component mode does not support !important on property \""@ + p + "\""@
}

pub open spec fn msg_property(p: Seq<char>) -> Seq<char> {
    "component mode does not support CSS property \""@ + p + "\""@
}

/// The SVG presentation attributes that a component's style sheet may set.
pub open spec fn is_presentation_attribute(p: Seq<char>) -> bool {
    ||| p == "color"@
    ||| p == "fill"@
    ||| p == "fill-opacity"@
    ||| p == "fill-rule"@
    ||| p == "stroke"@
    ||| p == "stroke-opacity"@
    ||| p == "stroke-width"@
    ||| p == "stroke-linecap"@
    ||| p == "stroke-linejoin"@
    ||| p == "stroke-miterlimit"@
    ||| p == "stroke-dasharray"@
    ||| p == "stroke-dashoffset"@
    ||| p == "clip-rule"@
    ||| p == "opacity"@
    ||| p == "stop-color"@
    ||| p == "stop-opacity"@
    ||| p == "paint-order"@
    ||| p == "vector-effect"@
    ||| p == "shape-rendering"@
}

/// Whether `p` is one of the presentation attributes.
pub fn presentation_attribute(p: &[char]) -> (r: bool)
    ensures
        r == is_presentation_attribute(p@),
{
    eq_str(p, "color") || eq_str(p, "fill") || eq_str(p, "fill-opacity") || eq_str(p, "fill-rule")
        || eq_str(p, "stroke") || eq_str(p, "stroke-opacity") || eq_str(p, "stroke-width")
        || eq_str(p, "stroke-linecap") || eq_str(p, "stroke-linejoin") || eq_str(
        p,
        "stroke-miterlimit",
    ) || eq_str(p, "stroke-dasharray") || eq_str(p, "stroke-dashoffset") || eq_str(p, "clip-rule")
        || eq_str(p, "opacity") || eq_str(p, "stop-color") || eq_str(p, "stop-opacity") || eq_str(
        p,
        "paint-order",
    ) || eq_str(p, "vector-effect") || eq_str(p, "shape-rendering")
}

/// The declaration that one `;`-separated part holds: none for a blank part.
pub open spec fn declaration_of(part: Seq<char>, ctx: CssDeclarationContext) -> SResult<
    Option<(Seq<char>, Seq<char>)>,
> {
    let d = trim(part);
    if d.len() == 0 {
        Ok(None)
    } else {
        match find_top_level_spec(d, ':') {
            Err(e) => Err(e),
            Ok(None) => Err(msg_invalid_declaration(d)),
            Ok(Some(colon)) => {
                let raw = trim(d.take(colon));
                let normalized = ascii_lower(raw);
                let property = if ctx == CssDeclarationContext::ComponentStylesheet {
                    normalized
                } else {
                    raw
                };
                let value = trim(d.skip(colon + 1));
                if property.len() == 0 || value.len() == 0 {
                    Err(msg_invalid_declaration(d))
                } else if ctx == CssDeclarationContext::ComponentStylesheet && css_important_match(
                    value,
                ) {
                    Err(msg_important(normalized))
                } else if ctx == CssDeclarationContext::ComponentStylesheet
                    && !is_presentation_attribute(normalized) {
                    Err(msg_property(normalized))
                } else {
                    Ok(Some((property, value)))
                }
            },
        }
    }
}

/// The declarations of `parts[k..]`, stopping at the first error.
pub open spec fn declarations_from(
    parts: Seq<Seq<char>>,
    k: int,
    ctx: CssDeclarationContext,
) -> SResult<Seq<(Seq<char>, Seq<char>)>>
    decreases parts.len() - k,
{
    if k < 0 || k >= parts.len() {
        Ok(Seq::empty())
    } else {
        match declaration_of(parts[k], ctx) {
            Err(e) => Err(e),
            Ok(None) => declarations_from(parts, k + 1, ctx),
            Ok(Some(d)) => prefixed_with(seq![d], declarations_from(parts, k + 1, ctx)),
        }
    }
}

/// The declarations of a declaration block or of an inline style.
pub open spec fn parse_declarations_spec(s: Seq<char>, ctx: CssDeclarationContext) -> SResult<
    Seq<(Seq<char>, Seq<char>)>,
> {
    match split_top_level(s, ';') {
        Err(e) => Err(e),
        Ok(parts) => declarations_from(parts, 0, ctx),
    }
}

/// The model of a result that holds declarations.
pub open spec fn res_decls(r: Result<Vec<CssDeclaration>, SvgStripError>) -> SResult<
    Seq<(Seq<char>, Seq<char>)>,
> {
    match r {
        Ok(v) => Ok(decls_view(v@)),
        Err(e) => Err(e@),
    }
}

fn parse_one_declaration(part: &[char], context: CssDeclarationContext) -> (r: Result<
    Option<CssDeclaration>,
    SvgStripError,
>)
    ensures
        match r {
            Ok(Some(d)) => declaration_of(part@, context) == Ok::<
                Option<(Seq<char>, Seq<char>)>,
                Seq<char>,
            >(Some(d.view())),
            Ok(None) => declaration_of(part@, context) == Ok::<
                Option<(Seq<char>, Seq<char>)>,
                Seq<char>,
            >(None),
            Err(e) => declaration_of(part@, context) == Err::<
                Option<(Seq<char>, Seq<char>)>,
                Seq<char>,
            >(e@),
        },
{
    let declaration = trimmed(part);
    if declaration.len() == 0 {
        return Ok(None);
    }
    let colon = match find_css_delimiter_at_top_level(declaration.as_slice(), ':')? {
        Some(k) => k,
        None => {
            return Err(
                error3(
                    "component mode found an invalid CSS declaration \"",
                    declaration.as_slice(),
                    "\"",
                ),
            );
        },
    };
    let head = sub_chars(declaration.as_slice(), 0, colon);
    let raw_property = trimmed(head.as_slice());
    let normalized_property = to_ascii_lower(raw_property.as_slice());
    let property = if context == CssDeclarationContext::ComponentStylesheet {
        copy_chars(normalized_property.as_slice())
    } else {
        copy_chars(raw_property.as_slice())
    };
    let tail = sub_chars(declaration.as_slice(), colon + 1, declaration.len());
    let value = trimmed(tail.as_slice());
    assert(head@ == declaration@.take(colon as int));
    assert(tail@ == declaration@.skip(colon + 1));
    if property.len() == 0 || value.len() == 0 {
        return Err(
            error3(
                "component mode found an invalid CSS declaration \"",
                declaration.as_slice(),
                "\"",
            ),
        );
    }
    if context == CssDeclarationContext::ComponentStylesheet && has_important_flag(
        string_of(value.as_slice()).as_str(),
    ) {
        return Err(
            error3(
                "component mode does not support !important on property \"",
                normalized_property.as_slice(),
                "\"",
            ),
        );
    }
    if context == CssDeclarationContext::ComponentStylesheet && !presentation_attribute(
        normalized_property.as_slice(),
    ) {
        return Err(
            error3(
                "component mode does not support CSS property \"",
                normalized_property.as_slice(),
                "\"",
            ),
        );
    }
    Ok(Some(CssDeclaration { property, value }))
}

/// The declarations of `input`, separated by top-level semicolons.
pub fn parse_css_declarations(input: &[char], context: CssDeclarationContext) -> (r: Result<
    Vec<CssDeclaration>,
    SvgStripError,
>)
    ensures
        res_decls(r) == parse_declarations_spec(input@, context),
{
    let parts = split_css_at_top_level(input, ';')?;
    let ghost ps = texts_view(parts@);
    let mut declarations: Vec<CssDeclaration> = Vec::new();
    let mut k: usize = 0;
    while k < parts.len()
        invariant
            k <= parts.len(),
            ps == texts_view(parts@),
            parse_declarations_spec(input@, context) == prefixed_with(
                decls_view(declarations@),
                declarations_from(ps, k as int, context),
            ),
        decreases parts.len() - k,
    {
        assert(ps[k as int] == parts@[k as int]@);
        let one = parse_one_declaration(parts[k].as_slice(), context);
        match one {
            Err(e) => {
                return Err(e);
            },
            Ok(None) => {},
            Ok(Some(d)) => {
                let ghost old = decls_view(declarations@);
                let ghost dv = d.view();
                declarations.push(d);
                proof {
                    assert(decls_view(declarations@) =~= old + seq![dv]);
                    lemma_prefixed_with_assoc(
                        old,
                        seq![dv],
                        declarations_from(ps, k + 1, context),
                    );
                }
            },
        }
        k += 1;
    }
    assert(decls_view(declarations@) + Seq::<(Seq<char>, Seq<char>)>::empty() =~= decls_view(
        declarations@,
    ));
    Ok(declarations)
}

/// The declarations of an inline `style` attribute, after its comments are removed.
pub open spec fn parse_inline_style_spec(style: Seq<char>) -> SResult<Seq<(Seq<char>, Seq<char>)>> {
    match strip_css_comments_spec(style) {
        Err(e) => Err(e),
        Ok(t) => parse_declarations_spec(t, CssDeclarationContext::InlineStyle),
    }
}

/// The declarations of an inline `style` attribute.
pub fn parse_inline_style(style: &[char]) -> (r: Result<Vec<CssDeclaration>, SvgStripError>)
    ensures
        res_decls(r) == parse_inline_style_spec(style@),
{
    let without_comments = strip_css_comments(style)?;
    parse_css_declarations(without_comments.as_slice(), CssDeclarationContext::InlineStyle)
}

/// One declaration written out as `property: value`.
pub open spec fn declaration_text(d: (Seq<char>, Seq<char>)) -> Seq<char> {
    d.0 + seq![':', ' '] + d.1
}

/// Declarations written out and joined with `; `.
pub open spec fn serialize_declarations_spec(ds: Seq<(Seq<char>, Seq<char>)>) -> Seq<char>
    decreases ds.len(),
{
    if ds.len() == 0 {
        Seq::empty()
    } else if ds.len() == 1 {
        declaration_text(ds[0])
    } else {
        serialize_declarations_spec(ds.drop_last()) + seq![';', ' '] + declaration_text(ds.last())
    }
}

/// Writes declarations out as an inline style.
pub fn serialize_css_declarations(declarations: &[CssDeclaration]) -> (r: Vec<char>)
    ensures
        r@ == serialize_declarations_spec(decls_view(declarations@)),
{
    let mut out: Vec<char> = Vec::new();
    let mut k: usize = 0;
    while k < declarations.len()
        invariant
            k <= declarations.len(),
            out@ == serialize_declarations_spec(decls_view(declarations@.take(k as int))),
        decreases declarations.len() - k,
    {
        let ghost prev = decls_view(declarations@.take(k as int));
        if k > 0 {
            out.push(';');
            out.push(' ');
        }
        append_chars(&mut out, declarations[k].property.as_slice());
        out.push(':');
        out.push(' ');
        append_chars(&mut out, declarations[k].value.as_slice());
        proof {
            let next = decls_view(declarations@.take(k + 1));
            assert(next.drop_last() =~= prev);
            assert(next.last() == declarations@[k as int].view());
            if k == 0 {
                assert(out@ =~= declaration_text(next[0]));
            } else {
                assert(out@ =~= serialize_declarations_spec(prev) + seq![';', ' '] + declaration_text(
                    next.last(),
                ));
            }
        }
        k += 1;
    }
    assert(declarations@.take(k as int) =~= declarations@);
    out
}

/* ------------------------------------------------------------------ */
/*  Component style sheets                                            */
/* ------------------------------------------------------------------ */

/// A rule of a component's style sheet: the classes it selects and what it declares.
#[derive(Debug)]
pub struct ComponentStyleRule {
    pub classes: Vec<Vec<char>>,
    pub declarations: Vec<CssDeclaration>,
}

/// The model of a rule.
pub type SRule = (Seq<Seq<char>>, Seq<(Seq<char>, Seq<char>)>);

impl ComponentStyleRule {
    pub open spec fn view(&self) -> SRule {
        (texts_view(self.classes@), decls_view(self.declarations@))
    }
}

/// The model of a list of rules.
pub open spec fn rules_view(v: Seq<ComponentStyleRule>) -> Seq<SRule> {
    v.map_values(|r: ComponentStyleRule| r.view())
}

/// The model of a result that holds rules.
pub open spec fn res_rules(r: Result<Vec<ComponentStyleRule>, SvgStripError>) -> SResult<Seq<SRule>> {
    match r {
        Ok(v) => Ok(rules_view(v@)),
        Err(e) => Err(e@),
    }
}

pub open spec fn msg_outside_rule() -> Seq<char> {
    "component mode found CSS outside a complete rule"@
}

pub open spec fn msg_at_rule(s: Seq<char>) -> Seq<char> {
    "component mode does not support CSS at-rule \""@ + s + "\""@
}

pub open spec fn msg_unterminated_rule(s: Seq<char>) -> Seq<char> {
    "component mode found an unterminated CSS rule for \""@ + s + "\""@
}

pub open spec fn msg_nested_rule(s: Seq<char>) -> Seq<char> {
    "component mode does not support nested CSS in rule \""@ + s + "\""@
}

pub open spec fn msg_selector(s: Seq<char>) -> Seq<char> {
    "component mode does not support selector \""@ + s
        + "\"; only simple class selectors are supported"@
}

/// `[_A-Za-z]`
pub open spec fn is_name_start(c: char) -> bool {
    c == '_' || ('A' <= c && c <= 'Z') || ('a' <= c && c <= 'z')
}

/// `[_A-Za-z0-9-]`
pub open spec fn is_name_char(c: char) -> bool {
    is_name_start(c) || ('0' <= c && c <= '9') || c == '-'
}

/// Whether `s` is a simple class selector, `\.-?[_A-Za-z][_A-Za-z0-9-]*` and nothing else.
pub open spec fn is_simple_class_selector(s: Seq<char>) -> bool {
    let k: int = if s.len() >= 2 && s[1] == '-' {
        2
    } else {
        1
    };
    &&& s.len() >= 2
    &&& s[0] == '.'
    &&& k < s.len()
    &&& is_name_start(s[k])
    &&& forall|j: int| k < j < s.len() ==> is_name_char(#[trigger] s[j])
}

fn name_start(c: char) -> (r: bool)
    ensures
        r == is_name_start(c),
{
    c == '_' || ('A' <= c && c <= 'Z') || ('a' <= c && c <= 'z')
}

fn name_char(c: char) -> (r: bool)
    ensures
        r == is_name_char(c),
{
    name_start(c) || ('0' <= c && c <= '9') || c == '-'
}

/// Whether `s` is a simple class selector such as `.st0`.
pub fn simple_class_selector(s: &[char]) -> (r: bool)
    ensures
        r == is_simple_class_selector(s@),
{
    if s.len() < 2 || s[0] != '.' {
        return false;
    }
    let k: usize = if s[1] == '-' {
        2
    } else {
        1
    };
    if k >= s.len() || !name_start(s[k]) {
        return false;
    }
    let mut j = k + 1;
    while j < s.len()
        invariant
            k < j <= s.len(),
            forall|m: int| k < m < j ==> is_name_char(#[trigger] s@[m]),
        decreases s.len() - j,
    {
        if !name_char(s[j]) {
            return false;
        }
        j += 1;
    }
    true
}

/// The class names of the selectors `sels[k..]`, each trimmed; an error names the first
/// selector that is not a simple class selector.
pub open spec fn classes_from(sels: Seq<Seq<char>>, k: int) -> SResult<Seq<Seq<char>>>
    decreases sels.len() - k,
{
    if k < 0 || k >= sels.len() {
        Ok(Seq::empty())
    } else {
        let sel = trim(sels[k]);
        if !is_simple_class_selector(sel) {
            Err(msg_selector(sel))
        } else {
            prefixed_with(seq![sel.skip(1)], classes_from(sels, k + 1))
        }
    }
}

/// The rules of the style sheet text `remaining`, which is already trimmed.
pub open spec fn stylesheet_from(remaining: Seq<char>) -> SResult<Seq<SRule>>
    decreases remaining.len(),
{
    if remaining.len() == 0 {
        Ok(Seq::empty())
    } else {
        match index_of(remaining, '{') {
            None => Err(msg_outside_rule()),
            Some(open) => {
                let selectors = trim(remaining.take(open));
                let after_open = remaining.skip(open + 1);
                if selectors.len() > 0 && selectors[0] == '@' {
                    Err(msg_at_rule(selectors))
                } else {
                    match index_of(after_open, '}') {
                        None => Err(msg_unterminated_rule(selectors)),
                        Some(close) => {
                            let text = after_open.take(close);
                            if text.contains('{') || text.contains('}') {
                                Err(msg_nested_rule(selectors))
                            } else {
                                match classes_from(split_on(selectors, ','), 0) {
                                    Err(e) => Err(e),
                                    Ok(classes) => match parse_declarations_spec(
                                        text,
                                        CssDeclarationContext::ComponentStylesheet,
                                    ) {
                                        Err(e) => Err(e),
                                        Ok(ds) => {
                                            proof {
                                                lemma_index_of(remaining, '{');
                                                lemma_index_of(after_open, '}');
                                                lemma_trim_len(after_open.skip(close + 1));
                                            }
                                            prefixed_with(
                                                seq![(classes, ds)],
                                                stylesheet_from(trim(after_open.skip(close + 1))),
                                            )
                                        },
                                    },
                                }
                            }
                        },
                    }
                }
            },
        }
    }
}

/// The rules of a component's style sheet.
pub open spec fn stylesheet_spec(input: Seq<char>) -> SResult<Seq<SRule>> {
    stylesheet_from(trim(input))
}

fn parse_selector_classes(selectors: &[char]) -> (r: Result<Vec<Vec<char>>, SvgStripError>)
    ensures
        match r {
            Ok(v) => classes_from(split_on(selectors@, ','), 0) == Ok::<Seq<Seq<char>>, Seq<char>>(
                texts_view(v@),
            ),
            Err(e) => classes_from(split_on(selectors@, ','), 0) == Err::<Seq<Seq<char>>, Seq<char>>(
                e@,
            ),
        },
{
    let sels = split_on_char(selectors, ',');
    let ghost ss = split_on(selectors@, ',');
    assert(texts_view(sels@) == ss);
    let mut classes: Vec<Vec<char>> = Vec::new();
    let mut k: usize = 0;
    while k < sels.len()
        invariant
            k <= sels.len(),
            texts_view(sels@) == ss,
            ss == split_on(selectors@, ','),
            classes_from(ss, 0) == prefixed_with(texts_view(classes@), classes_from(ss, k as int)),
        decreases sels.len() - k,
    {
        assert(ss[k as int] == sels@[k as int]@);
        let selector = trimmed(sels[k].as_slice());
        if !simple_class_selector(selector.as_slice()) {
            assert(classes_from(ss, k as int) == Err::<Seq<Seq<char>>, Seq<char>>(
                msg_selector(selector@),
            ));
            let e = error3(
                "component mode does not support selector \"",
                selector.as_slice(),
                "\"; only simple class selectors are supported",
            );
            return Err(e);
        }
        let name = sub_chars(selector.as_slice(), 1, selector.len());
        assert(name@ == selector@.skip(1));
        let ghost old = texts_view(classes@);
        classes.push(name);
        proof {
            assert(texts_view(classes@) =~= old + seq![selector@.skip(1)]);
            lemma_prefixed_with_assoc(old, seq![selector@.skip(1)], classes_from(ss, k + 1));
        }
        k += 1;
    }
    assert(texts_view(classes@) + Seq::<Seq<char>>::empty() =~= texts_view(classes@));
    Ok(classes)
}

/// The rules of a component's style sheet: simple class selectors with presentation
/// declarations; anything else is refused with an error that names it.
pub fn parse_component_stylesheet(input: &[char]) -> (r: Result<
    Vec<ComponentStyleRule>,
    SvgStripError,
>)
    ensures
        res_rules(r) == stylesheet_spec(input@),
{
    let mut remaining = trimmed(input);
    let mut rules: Vec<ComponentStyleRule> = Vec::new();
    while remaining.len() > 0
        invariant
            stylesheet_spec(input@) == prefixed_with(rules_view(rules@), stylesheet_from(remaining@)),
        decreases remaining@.len(),
    {
        proof {
            lemma_index_of(remaining@, '{');
        }
        let open = match find_char(remaining.as_slice(), '{') {
            Some(k) => k,
            None => {
                return Err(error1("component mode found CSS outside a complete rule"));
            },
        };
        let head = sub_chars(remaining.as_slice(), 0, open);
        assert(head@ == remaining@.take(open as int));
        let selectors = trimmed(head.as_slice());
        if selectors.len() > 0 && selectors[0] == '@' {
            return Err(
                error3("component mode does not support CSS at-rule \"", selectors.as_slice(), "\""),
            );
        }
        let after_open = sub_chars(remaining.as_slice(), open + 1, remaining.len());
        assert(after_open@ == remaining@.skip(open + 1));
        proof {
            lemma_index_of(after_open@, '}');
        }
        let close = match find_char(after_open.as_slice(), '}') {
            Some(k) => k,
            None => {
                return Err(
                    error3(
                        "component mode found an unterminated CSS rule for \"",
                        selectors.as_slice(),
                        "\"",
                    ),
                );
            },
        };
        let text = sub_chars(after_open.as_slice(), 0, close);
        assert(text@ == after_open@.take(close as int));
        if has_char(text.as_slice(), '{') || has_char(text.as_slice(), '}') {
            return Err(
                error3(
                    "component mode does not support nested CSS in rule \"",
                    selectors.as_slice(),
                    "\"",
                ),
            );
        }
        let classes = parse_selector_classes(selectors.as_slice())?;
        let declarations = parse_css_declarations(
            text.as_slice(),
            CssDeclarationContext::ComponentStylesheet,
        )?;
        let rule = ComponentStyleRule { classes, declarations };
        let ghost old = rules_view(rules@);
        let ghost rv = rule.view();
        rules.push(rule);
        let rest = sub_chars(after_open.as_slice(), close + 1, after_open.len());
        assert(rest@ == after_open@.skip(close + 1));
        proof {
            lemma_trim_len(rest@);
            assert(rules_view(rules@) =~= old + seq![rv]);
            lemma_prefixed_with_assoc(old, seq![rv], stylesheet_from(trim(rest@)));
        }
        remaining = trimmed(rest.as_slice());
    }
    assert(rules_view(rules@) + Seq::<SRule>::empty() =~= rules_view(rules@));
    Ok(rules)
}

} // verus!
