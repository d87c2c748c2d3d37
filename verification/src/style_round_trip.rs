use vstd::prelude::*;
use crate::css::{
    declaration_of, declaration_text, declarations_from, find_top_level_spec, is_top_delimiter,
    join_parts, law_text_without_comments_unchanged, lemma_split_first, no_comment_open,
    parse_inline_style_spec, quoted_step, scan_state, scan_step, serialize_declarations_spec,
    split_from, split_top_level, strip_css_comments_spec, CssDeclarationContext,
};
use crate::text::{ascii_lower, is_ws, lemma_trim_start_head, trim, trim_end, trim_start};
use crate::component::{
    apply_icon_style_spec, icon_declarations, is_icon_property, without_icon_properties,
};
use crate::icon::{is_digit, is_pixel_text};
use crate::tree::{
    attr_get, attr_insert, attr_remove, law_attr_get_insert, law_attr_get_remove, lemma_attr_insert_absent,
    lemma_attr_remove_absent, with_attributes, SElement,
};

verus! {

/* ------------------------------------------------------------------ */
/*  The reading state                                                 */
/* ------------------------------------------------------------------ */

/// The reading state at the start of a text: outside strings, nothing escaped, no open
/// parenthesis.
pub open spec fn fresh_state() -> (Option<char>, bool, int) {
    (None, false, 0)
}

/// A character that opens or closes a CSS string.
pub open spec fn is_quote_char(c: char) -> bool {
    c == '\'' || c == '"'
}

/// Whether the top-level splitter accepts `c` read in state `st`: no brace outside
/// strings, and no `)` that closes nothing.
pub open spec fn step_ok(st: (Option<char>, bool, int), c: char) -> bool {
    st.0 is None ==> c != '{' && c != '}' && (c == ')' ==> st.2 > 0)
}

/// Whether `x`, read from its start, splits without error and ends outside strings and
/// parentheses.
pub open spec fn balanced(x: Seq<char>) -> bool {
    &&& forall|k: int| 0 <= k < x.len() ==> step_ok(#[trigger] scan_state(x, k), x[k])
    &&& scan_state(x, x.len() as int).0 is None
    &&& scan_state(x, x.len() as int).2 == 0
}

/// Whether `x` has no `delim` outside strings at parenthesis depth zero.
pub open spec fn no_top(x: Seq<char>, delim: char) -> bool {
    forall|k: int| 0 <= k < x.len() ==> !#[trigger] is_top_delimiter(x, delim, k)
}

/// A delimiter that is none of the characters that open or close strings, parentheses or
/// blocks.
pub open spec fn is_split_delimiter(delim: char) -> bool {
    delim != '(' && delim != ')' && delim != '\'' && delim != '"' && delim != '{' && delim != '}'
}

/// An open string is opened by a quote character, and outside strings nothing is escaped.
proof fn lemma_state_shape(s: Seq<char>, k: int)
    ensures
        scan_state(s, k).0 matches Some(q) ==> is_quote_char(q),
        scan_state(s, k).0 is None ==> !scan_state(s, k).1,
    decreases k,
{
    if k > 0 {
        lemma_state_shape(s, k - 1);
    }
}

/// From a position where the state is fresh, a slice reads as the whole text does there.
proof fn lemma_scan_shift(s: Seq<char>, a: int, b: int, j: int)
    requires
        0 <= a <= b <= s.len(),
        0 <= j <= b - a,
        scan_state(s, a) == fresh_state(),
    ensures
        scan_state(s.subrange(a, b), j) == scan_state(s, a + j),
    decreases j,
{
    if j > 0 {
        lemma_scan_shift(s, a, b, j - 1);
        assert(s.subrange(a, b)[j - 1] == s[a + j - 1]);
    }
}

proof fn lemma_no_comment_subrange(s: Seq<char>, a: int, b: int)
    requires
        0 <= a <= b <= s.len(),
        no_comment_open(s),
    ensures
        no_comment_open(s.subrange(a, b)),
{
    let x = s.subrange(a, b);
    assert forall|k: int| 0 <= k < x.len() - 1 implies !(#[trigger] x[k] == '/' && x[k + 1]
        == '*') by {
        assert(x[k] == s[a + k] && x[k + 1] == s[a + k + 1]);
    }
}

/// The slice between two fresh positions, with no error and no top-level `delim` in
/// between, is balanced and has no top-level `delim`.
proof fn lemma_slice(s: Seq<char>, delim: char, a: int, b: int)
    requires
        0 <= a <= b <= s.len(),
        scan_state(s, a) == fresh_state(),
        forall|k: int|
            #![trigger scan_state(s, k)]
            a <= k < b ==> step_ok(scan_state(s, k), s[k]) && !is_top_delimiter(s, delim, k),
        scan_state(s, b).0 is None,
        scan_state(s, b).2 == 0,
    ensures
        balanced(s.subrange(a, b)),
        no_top(s.subrange(a, b), delim),
{
    let x = s.subrange(a, b);
    assert forall|k: int| 0 <= k < x.len() implies step_ok(#[trigger] scan_state(x, k), x[k])
        && !is_top_delimiter(x, delim, k) by {
        lemma_scan_shift(s, a, b, k);
        assert(x[k] == s[a + k]);
        assert(scan_state(s, a + k) == scan_state(s, a + k));
    }
    assert forall|k: int| 0 <= k < x.len() implies !#[trigger] is_top_delimiter(x, delim, k) by {
        assert(step_ok(scan_state(x, k), x[k]));
    }
    lemma_scan_shift(s, a, b, b - a);
}

/* ------------------------------------------------------------------ */
/*  What a successful split tells of its parts                        */
/* ------------------------------------------------------------------ */

/// Each part of a successful split is balanced and holds no top-level delimiter, and holds
/// no `/*` where the text holds none.
proof fn lemma_split_parts(
    s: Seq<char>,
    delim: char,
    i: int,
    start: int,
    quote: Option<char>,
    escaped: bool,
    depth: nat,
)
    requires
        0 <= start <= i <= s.len(),
        (quote, escaped, depth as int) == scan_state(s, i),
        scan_state(s, start) == fresh_state(),
        forall|k: int|
            #![trigger scan_state(s, k)]
            start <= k < i ==> step_ok(scan_state(s, k), s[k]) && !is_top_delimiter(s, delim, k),
        is_split_delimiter(delim),
    ensures
        split_from(s, delim, i, start, quote, escaped, depth) matches Ok(ps) ==> forall|m: int|
            0 <= m < ps.len() ==> balanced(#[trigger] ps[m]) && no_top(ps[m], delim) && (
            no_comment_open(s) ==> no_comment_open(ps[m])),
    decreases s.len() - i,
{
    if i >= s.len() {
        if quote is None && depth == 0 {
            lemma_slice(s, delim, start, s.len() as int);
            if no_comment_open(s) {
                lemma_no_comment_subrange(s, start, s.len() as int);
            }
        }
    } else {
        let c = s[i];
        assert(scan_state(s, i + 1) == scan_step(scan_state(s, i), c));
        lemma_state_shape(s, i);
        match quote {
            Some(q) => {
                let (nq, ne) = quoted_step(q, escaped, c);
                lemma_split_parts(s, delim, i + 1, start, nq, ne, depth);
            },
            None => {
                if c == '\'' || c == '"' {
                    lemma_split_parts(s, delim, i + 1, start, Some(c), escaped, depth);
                } else if c == '(' {
                    lemma_split_parts(s, delim, i + 1, start, None, escaped, depth + 1);
                } else if c == ')' {
                    if depth > 0 {
                        lemma_split_parts(s, delim, i + 1, start, None, escaped, (depth - 1) as nat);
                    }
                } else if c == '{' || c == '}' {
                } else if c == delim && depth == 0 {
                    lemma_slice(s, delim, start, i);
                    if no_comment_open(s) {
                        lemma_no_comment_subrange(s, start, i);
                    }
                    lemma_split_parts(s, delim, i + 1, i + 1, None, escaped, depth);
                    if let Ok(rest) = split_from(s, delim, i + 1, i + 1, None, escaped, depth) {
                        let ps = seq![s.subrange(start, i)] + rest;
                        assert forall|m: int| 0 <= m < ps.len() implies balanced(#[trigger] ps[m])
                            && no_top(ps[m], delim) && (no_comment_open(s) ==> no_comment_open(
                            ps[m],
                        )) by {
                            if m > 0 {
                                assert(ps[m] == rest[m - 1]);
                            }
                        }
                    }
                } else {
                    lemma_split_parts(s, delim, i + 1, start, None, escaped, depth);
                }
            },
        }
    }
}

/// Where a split gives more than one part, the first part ends at the first top-level
/// delimiter.
proof fn lemma_split_first_delimiter(
    s: Seq<char>,
    delim: char,
    i: int,
    start: int,
    quote: Option<char>,
    escaped: bool,
    depth: nat,
)
    requires
        0 <= start <= i <= s.len(),
        (quote, escaped, depth as int) == scan_state(s, i),
        forall|k: int| start <= k < i ==> !#[trigger] is_top_delimiter(s, delim, k),
        is_split_delimiter(delim),
    ensures
        split_from(s, delim, i, start, quote, escaped, depth) matches Ok(ps) ==> (ps.len() > 1
            ==> {
            &&& start + ps[0].len() < s.len()
            &&& is_top_delimiter(s, delim, start + ps[0].len())
            &&& forall|k: int|
                start <= k < start + ps[0].len() ==> !#[trigger] is_top_delimiter(s, delim, k)
        }),
    decreases s.len() - i,
{
    if i < s.len() {
        let c = s[i];
        assert(scan_state(s, i + 1) == scan_step(scan_state(s, i), c));
        match quote {
            Some(q) => {
                let (nq, ne) = quoted_step(q, escaped, c);
                lemma_split_first_delimiter(s, delim, i + 1, start, nq, ne, depth);
            },
            None => {
                if c == '\'' || c == '"' {
                    lemma_split_first_delimiter(s, delim, i + 1, start, Some(c), escaped, depth);
                } else if c == '(' {
                    lemma_split_first_delimiter(s, delim, i + 1, start, None, escaped, depth + 1);
                } else if c == ')' {
                    if depth > 0 {
                        lemma_split_first_delimiter(
                            s,
                            delim,
                            i + 1,
                            start,
                            None,
                            escaped,
                            (depth - 1) as nat,
                        );
                    }
                } else if c == '{' || c == '}' {
                } else if c == delim && depth == 0 {
                } else {
                    lemma_split_first_delimiter(s, delim, i + 1, start, None, escaped, depth);
                }
            },
        }
    }
}

/* ------------------------------------------------------------------ */
/*  Trimming                                                          */
/* ------------------------------------------------------------------ */

proof fn lemma_trim_start_keeps(x: Seq<char>, delim: char)
    requires
        balanced(x),
    ensures
        balanced(trim_start(x)),
        no_top(x, delim) ==> no_top(trim_start(x), delim),
        no_comment_open(x) ==> no_comment_open(trim_start(x)),
    decreases x.len(),
{
    if x.len() > 0 && is_ws(x[0]) {
        let y = x.subrange(1, x.len() as int);
        assert(scan_state(x, 1) == scan_step(scan_state(x, 0), x[0]));
        assert(scan_state(x, 1) == fresh_state());
        assert forall|k: int| 0 <= k < y.len() implies step_ok(#[trigger] scan_state(y, k), y[k])
            && (no_top(x, delim) ==> !is_top_delimiter(y, delim, k)) by {
            lemma_scan_shift(x, 1, x.len() as int, k);
            assert(y[k] == x[k + 1]);
            assert(step_ok(scan_state(x, k + 1), x[k + 1]));
            if no_top(x, delim) {
                assert(!is_top_delimiter(x, delim, k + 1));
            }
        }
        lemma_scan_shift(x, 1, x.len() as int, y.len() as int);
        if no_top(x, delim) {
            assert forall|k: int| 0 <= k < y.len() implies !#[trigger] is_top_delimiter(
                y,
                delim,
                k,
            ) by {
                assert(step_ok(scan_state(y, k), y[k]));
            }
        }
        if no_comment_open(x) {
            lemma_no_comment_subrange(x, 1, x.len() as int);
        }
        lemma_trim_start_keeps(y, delim);
    }
}

proof fn lemma_trim_end_keeps(x: Seq<char>, delim: char)
    requires
        balanced(x),
    ensures
        balanced(trim_end(x)),
        no_top(x, delim) ==> no_top(trim_end(x), delim),
        no_comment_open(x) ==> no_comment_open(trim_end(x)),
    decreases x.len(),
{
    if x.len() > 0 && is_ws(x.last()) {
        let n = x.len() - 1;
        let y = x.drop_last();
        assert(y =~= x.subrange(0, n));
        assert forall|k: int| 0 <= k <= y.len() implies #[trigger] scan_state(y, k) == scan_state(
            x,
            k,
        ) by {
            lemma_scan_shift(x, 0, n, k);
        }
        assert(scan_state(x, n + 1) == scan_step(scan_state(x, n), x[n]));
        lemma_state_shape(x, n);
        assert(scan_state(y, n) == scan_state(x, n));
        assert forall|k: int| 0 <= k < y.len() implies step_ok(#[trigger] scan_state(y, k), y[k])
            && (no_top(x, delim) ==> !is_top_delimiter(y, delim, k)) by {
            assert(scan_state(y, k) == scan_state(x, k));
            assert(y[k] == x[k]);
            assert(step_ok(scan_state(x, k), x[k]));
            if no_top(x, delim) {
                assert(!is_top_delimiter(x, delim, k));
            }
        }
        if no_top(x, delim) {
            assert forall|k: int| 0 <= k < y.len() implies !#[trigger] is_top_delimiter(
                y,
                delim,
                k,
            ) by {
                assert(step_ok(scan_state(y, k), y[k]));
            }
        }
        if no_comment_open(x) {
            lemma_no_comment_subrange(x, 0, n);
        }
        lemma_trim_end_keeps(y, delim);
    }
}

/// Trimming keeps a text balanced, free of top-level `delim` and free of `/*`.
proof fn lemma_trim_keeps(x: Seq<char>, delim: char)
    requires
        balanced(x),
    ensures
        balanced(trim(x)),
        no_top(x, delim) ==> no_top(trim(x), delim),
        no_comment_open(x) ==> no_comment_open(trim(x)),
{
    lemma_trim_start_keeps(x, delim);
    lemma_trim_end_keeps(trim_start(x), delim);
}

proof fn lemma_trim_end_shape(y: Seq<char>)
    ensures
        trim_end(y).len() <= y.len(),
        trim_end(y) =~= y.take(trim_end(y).len() as int),
        trim_end(y).len() > 0 ==> !is_ws(trim_end(y).last()),
    decreases y.len(),
{
    if y.len() > 0 && is_ws(y.last()) {
        lemma_trim_end_shape(y.drop_last());
    }
}

/// A trimmed text that is not empty starts and ends with a character that is not white
/// space.
proof fn lemma_trim_ends(x: Seq<char>)
    ensures
        trim(x).len() > 0 ==> !is_ws(trim(x)[0]) && !is_ws(trim(x).last()),
{
    lemma_trim_start_head(x);
    lemma_trim_end_shape(trim_start(x));
    if trim(x).len() > 0 {
        assert(trim(x)[0] == trim_start(x)[0]);
    }
}

/* ------------------------------------------------------------------ */
/*  Declarations that read back as themselves                         */
/* ------------------------------------------------------------------ */

/// A text that stands alone as a property or a value: not empty, no white space at either
/// end, balanced, without a top-level `;` and without `/*`.
pub open spec fn is_clean_text(x: Seq<char>) -> bool {
    &&& x.len() > 0
    &&& !is_ws(x[0])
    &&& !is_ws(x.last())
    &&& balanced(x)
    &&& no_top(x, ';')
    &&& no_comment_open(x)
}

/// A declaration whose property and value are clean texts, with no top-level `:` in the
/// property.
pub open spec fn is_round_trip_declaration(d: (Seq<char>, Seq<char>)) -> bool {
    is_clean_text(d.0) && is_clean_text(d.1) && no_top(d.0, ':')
}

/// What one part of an inline style declares is clean.
proof fn lemma_parsed_declaration(part: Seq<char>, d: (Seq<char>, Seq<char>))
    requires
        balanced(part),
        no_top(part, ';'),
        no_comment_open(part),
        declaration_of(part, CssDeclarationContext::InlineStyle) == Ok::<
            Option<(Seq<char>, Seq<char>)>,
            Seq<char>,
        >(Some(d)),
    ensures
        is_round_trip_declaration(d),
{
    let t = trim(part);
    lemma_trim_keeps(part, ';');
    lemma_split_first_delimiter(t, ':', 0, 0, None, false, 0);
    lemma_split_first(t, ':', 0, 0, None, false, 0);
    assert(t.len() > 0);
    if let Ok(ps) = split_top_level(t, ':') {
        assert(find_top_level_spec(t, ':') is Ok);
        assert(ps.len() != 1);
        let colon = ps[0].len() as int;
        assert(forall|k: int|
            #![trigger scan_state(t, k)]
            0 <= k < colon ==> step_ok(scan_state(t, k), t[k]) && !is_top_delimiter(t, ':', k));
        lemma_slice(t, ':', 0, colon);
        assert(forall|k: int|
            #![trigger scan_state(t, k)]
            0 <= k < colon ==> step_ok(scan_state(t, k), t[k]) && !is_top_delimiter(t, ';', k));
        lemma_slice(t, ';', 0, colon);
        lemma_no_comment_subrange(t, 0, colon);
        let raw = t.take(colon);
        assert(raw =~= t.subrange(0, colon));
        lemma_trim_keeps(raw, ':');
        lemma_trim_keeps(raw, ';');
        lemma_trim_ends(raw);
        assert(scan_state(t, colon + 1) == scan_step(scan_state(t, colon), t[colon]));
        lemma_state_shape(t, colon);
        assert(forall|k: int|
            #![trigger scan_state(t, k)]
            colon + 1 <= k < t.len() ==> step_ok(scan_state(t, k), t[k]) && !is_top_delimiter(
                t,
                ';',
                k,
            ));
        lemma_slice(t, ';', colon + 1, t.len() as int);
        lemma_no_comment_subrange(t, colon + 1, t.len() as int);
        let rest = t.skip(colon + 1);
        assert(rest =~= t.subrange(colon + 1, t.len() as int));
        lemma_trim_keeps(rest, ';');
        lemma_trim_ends(rest);
    }
}

proof fn lemma_parsed_declarations(
    parts: Seq<Seq<char>>,
    k: int,
    ds: Seq<(Seq<char>, Seq<char>)>,
)
    requires
        0 <= k,
        forall|m: int|
            0 <= m < parts.len() ==> balanced(#[trigger] parts[m]) && no_top(parts[m], ';')
                && no_comment_open(parts[m]),
        declarations_from(parts, k, CssDeclarationContext::InlineStyle) == Ok::<
            Seq<(Seq<char>, Seq<char>)>,
            Seq<char>,
        >(ds),
    ensures
        forall|m: int| 0 <= m < ds.len() ==> is_round_trip_declaration(#[trigger] ds[m]),
    decreases parts.len() - k,
{
    if k < parts.len() {
        match declaration_of(parts[k], CssDeclarationContext::InlineStyle) {
            Err(_) => {},
            Ok(None) => {
                lemma_parsed_declarations(parts, k + 1, ds);
            },
            Ok(Some(d)) => {
                lemma_parsed_declaration(parts[k], d);
                if let Ok(rest) = declarations_from(parts, k + 1, CssDeclarationContext::InlineStyle) {
                    lemma_parsed_declarations(parts, k + 1, rest);
                    assert(ds == seq![d] + rest);
                    assert forall|m: int| 0 <= m < ds.len() implies is_round_trip_declaration(
                        #[trigger] ds[m],
                    ) by {
                        if m > 0 {
                            assert(ds[m] == rest[m - 1]);
                        }
                    }
                }
            },
        }
    }
}

/// Every declaration read from an inline style without `/*` is clean.
pub proof fn lemma_style_declarations(s: Seq<char>)
    requires
        no_comment_open(s),
    ensures
        parse_inline_style_spec(s) matches Ok(ds) ==> forall|m: int|
            0 <= m < ds.len() ==> is_round_trip_declaration(#[trigger] ds[m]),
{
    law_text_without_comments_unchanged(s);
    if let Ok(ds) = parse_inline_style_spec(s) {
        lemma_split_parts(s, ';', 0, 0, None, false, 0);
        if let Ok(parts) = split_top_level(s, ';') {
            lemma_parsed_declarations(parts, 0, ds);
        }
    }
}

/* ------------------------------------------------------------------ */
/*  Reading written declarations                                      */
/* ------------------------------------------------------------------ */

/// A character that leaves the reading state as it is outside strings: no quote,
/// parenthesis or brace.
pub open spec fn is_neutral_char(c: char) -> bool {
    !is_quote_char(c) && c != '(' && c != ')' && c != '{' && c != '}'
}

proof fn lemma_neutral_states(x: Seq<char>, k: int)
    requires
        forall|m: int| 0 <= m < x.len() ==> is_neutral_char(#[trigger] x[m]),
        0 <= k <= x.len(),
    ensures
        scan_state(x, k) == fresh_state(),
    decreases k,
{
    if k > 0 {
        lemma_neutral_states(x, k - 1);
        assert(is_neutral_char(x[k - 1]));
    }
}

/// A text of neutral characters is balanced, and its top-level delimiters are exactly the
/// places where the delimiter stands.
proof fn lemma_neutral(x: Seq<char>)
    requires
        forall|m: int| 0 <= m < x.len() ==> is_neutral_char(#[trigger] x[m]),
    ensures
        balanced(x),
        forall|dl: char, k: int|
            0 <= k < x.len() ==> (#[trigger] is_top_delimiter(x, dl, k) <==> x[k] == dl),
{
    assert forall|k: int| 0 <= k <= x.len() implies #[trigger] scan_state(x, k) == fresh_state() by {
        lemma_neutral_states(x, k);
    }
    assert forall|k: int| 0 <= k < x.len() implies step_ok(#[trigger] scan_state(x, k), x[k]) by {
        assert(is_neutral_char(x[k]));
    }
    assert(scan_state(x, x.len() as int) == fresh_state());
}

/// Two balanced texts joined are balanced, and have a top-level delimiter only where one of
/// them has.
proof fn lemma_concat(a: Seq<char>, b: Seq<char>, delim: char)
    requires
        balanced(a),
        balanced(b),
    ensures
        balanced(a + b),
        no_top(a, delim) && no_top(b, delim) ==> no_top(a + b, delim),
{
    let s = a + b;
    let n = a.len() as int;
    assert(s.subrange(0, n) =~= a);
    assert(s.subrange(n, s.len() as int) =~= b);
    assert forall|k: int| 0 <= k <= n implies #[trigger] scan_state(s, k) == scan_state(a, k) by {
        lemma_scan_shift(s, 0, n, k);
    }
    lemma_state_shape(a, n);
    assert(scan_state(s, n) == scan_state(a, n));
    assert(scan_state(s, n) == fresh_state());
    assert forall|j: int| 0 <= j <= b.len() implies scan_state(s, n + j) == #[trigger] scan_state(
        b,
        j,
    ) by {
        lemma_scan_shift(s, n, s.len() as int, j);
    }
    let tops = no_top(a, delim) && no_top(b, delim);
    assert forall|k: int| 0 <= k < s.len() implies step_ok(#[trigger] scan_state(s, k), s[k]) && (
    tops ==> !is_top_delimiter(s, delim, k)) by {
        if k < n {
            assert(scan_state(s, k) == scan_state(a, k));
            assert(s[k] == a[k]);
            assert(step_ok(scan_state(a, k), a[k]));
            if tops {
                assert(!is_top_delimiter(a, delim, k));
            }
        } else {
            let j = k - n;
            assert(scan_state(s, n + j) == scan_state(b, j));
            assert(s[k] == b[j]);
            assert(step_ok(scan_state(b, j), b[j]));
            if tops {
                assert(!is_top_delimiter(b, delim, j));
            }
        }
    }
    assert(scan_state(s, n + b.len()) == scan_state(b, b.len() as int));
    if tops {
        assert forall|k: int| 0 <= k < s.len() implies !#[trigger] is_top_delimiter(s, delim, k) by {
            assert(step_ok(scan_state(s, k), s[k]));
        }
    }
}

proof fn lemma_no_comment_concat(a: Seq<char>, b: Seq<char>)
    requires
        no_comment_open(a),
        no_comment_open(b),
        a.len() == 0 || b.len() == 0 || a.last() != '/' || b[0] != '*',
    ensures
        no_comment_open(a + b),
{
    let s = a + b;
    assert forall|k: int| 0 <= k < s.len() - 1 implies !(#[trigger] s[k] == '/' && s[k + 1]
        == '*') by {
        if k < a.len() - 1 {
            assert(s[k] == a[k] && s[k + 1] == a[k + 1]);
        } else if k == a.len() - 1 {
            assert(s[k] == a.last() && s[k + 1] == b[0]);
        } else {
            assert(s[k] == b[k - a.len()] && s[k + 1] == b[k - a.len() + 1]);
        }
    }
}

/// Reading a stretch without top-level delimiters from a fresh state back to a fresh state
/// only moves the splitter along.
proof fn lemma_walk(
    s: Seq<char>,
    delim: char,
    i: int,
    x: Seq<char>,
    j: int,
    start: int,
    quote: Option<char>,
    escaped: bool,
    depth: nat,
)
    requires
        0 <= i,
        i + x.len() <= s.len(),
        s.subrange(i, i + x.len()) == x,
        0 <= j <= x.len(),
        (quote, escaped, depth as int) == scan_state(x, j),
        forall|k: int|
            #![trigger scan_state(x, k)]
            j <= k < x.len() ==> step_ok(scan_state(x, k), x[k]) && !is_top_delimiter(x, delim, k),
        scan_state(x, x.len() as int) == fresh_state(),
        is_split_delimiter(delim),
    ensures
        split_from(s, delim, i + j, start, quote, escaped, depth) == split_from(
            s,
            delim,
            i + x.len(),
            start,
            None,
            false,
            0,
        ),
    decreases x.len() - j,
{
    if j < x.len() {
        let c = x[j];
        assert(s.subrange(i, i + x.len())[j] == s[i + j]);
        assert(s[i + j] == c);
        assert(scan_state(x, j + 1) == scan_step(scan_state(x, j), c));
        assert(step_ok(scan_state(x, j), x[j]) && !is_top_delimiter(x, delim, j));
        match quote {
            Some(q) => {
                let (nq, ne) = quoted_step(q, escaped, c);
                lemma_walk(s, delim, i, x, j + 1, start, nq, ne, depth);
            },
            None => {
                if c == '\'' || c == '"' {
                    lemma_walk(s, delim, i, x, j + 1, start, Some(c), escaped, depth);
                } else if c == '(' {
                    lemma_walk(s, delim, i, x, j + 1, start, None, escaped, depth + 1);
                } else if c == ')' {
                    lemma_walk(s, delim, i, x, j + 1, start, None, escaped, (depth - 1) as nat);
                } else {
                    lemma_walk(s, delim, i, x, j + 1, start, None, escaped, depth);
                }
            },
        }
    }
}

/// Splitting a balanced tail never fails.
proof fn lemma_tail_ok(
    s: Seq<char>,
    delim: char,
    i: int,
    j: int,
    start: int,
    quote: Option<char>,
    escaped: bool,
    depth: nat,
)
    requires
        0 <= i <= s.len(),
        0 <= j <= s.len() - i,
        (quote, escaped, depth as int) == scan_state(s.subrange(i, s.len() as int), j),
        balanced(s.subrange(i, s.len() as int)),
        is_split_delimiter(delim),
    ensures
        split_from(s, delim, i + j, start, quote, escaped, depth) is Ok,
    decreases s.len() - i - j,
{
    let x = s.subrange(i, s.len() as int);
    if i + j < s.len() {
        let c = x[j];
        assert(s[i + j] == c);
        assert(scan_state(x, j + 1) == scan_step(scan_state(x, j), c));
        assert(step_ok(scan_state(x, j), x[j]));
        match quote {
            Some(q) => {
                let (nq, ne) = quoted_step(q, escaped, c);
                lemma_tail_ok(s, delim, i, j + 1, start, nq, ne, depth);
            },
            None => {
                if c == '\'' || c == '"' {
                    lemma_tail_ok(s, delim, i, j + 1, start, Some(c), escaped, depth);
                } else if c == '(' {
                    lemma_tail_ok(s, delim, i, j + 1, start, None, escaped, depth + 1);
                } else if c == ')' {
                    lemma_tail_ok(s, delim, i, j + 1, start, None, escaped, (depth - 1) as nat);
                } else if c == delim && depth == 0 {
                    lemma_tail_ok(s, delim, i, j + 1, i + j + 1, None, escaped, depth);
                } else {
                    lemma_tail_ok(s, delim, i, j + 1, start, None, escaped, depth);
                }
            },
        }
    }
}

/// Parts that are balanced and free of top-level delimiters, joined with the delimiter,
/// split back into themselves.
proof fn lemma_split_joined(s: Seq<char>, delim: char, i: int, qs: Seq<Seq<char>>)
    requires
        0 <= i <= s.len(),
        qs.len() >= 1,
        s.subrange(i, s.len() as int) == join_parts(qs, delim),
        forall|m: int| 0 <= m < qs.len() ==> balanced(#[trigger] qs[m]) && no_top(qs[m], delim),
        is_split_delimiter(delim),
    ensures
        split_from(s, delim, i, i, None, false, 0) == Ok::<Seq<Seq<char>>, Seq<char>>(qs),
    decreases qs.len(),
{
    let q0 = qs[0];
    let n = q0.len() as int;
    assert(balanced(q0) && no_top(q0, delim));
    lemma_state_shape(q0, n);
    let rest = s.subrange(i, s.len() as int);
    if qs.len() == 1 {
        assert(rest == q0);
    } else {
        assert(rest == q0 + seq![delim] + join_parts(qs.drop_first(), delim));
    }
    assert(s.subrange(i, i + n) =~= rest.subrange(0, n));
    assert(rest.subrange(0, n) =~= q0);
    lemma_walk(s, delim, i, q0, 0, i, None, false, 0);
    if qs.len() == 1 {
        assert(i + n == s.len());
        assert(seq![s.subrange(i, s.len() as int)] =~= qs);
    } else {
        assert(s[i + n] == rest[n]);
        assert(s[i + n] == delim);
        let tail = qs.drop_first();
        assert(s.subrange(i + n + 1, s.len() as int) =~= rest.subrange(n + 1, rest.len() as int));
        assert(rest.subrange(n + 1, rest.len() as int) =~= join_parts(tail, delim));
        assert forall|m: int| 0 <= m < tail.len() implies balanced(#[trigger] tail[m]) && no_top(
            tail[m],
            delim,
        ) by {
            assert(tail[m] == qs[m + 1]);
        }
        lemma_split_joined(s, delim, i + n + 1, tail);
        assert(seq![s.subrange(i, i + n)] + tail =~= qs);
    }
}

/// A text of neutral characters other than `;`, `/` and `*` is balanced, has no top-level
/// `;` and holds no `/*`.
proof fn lemma_neutral_text(x: Seq<char>)
    requires
        forall|m: int|
            0 <= m < x.len() ==> is_neutral_char(#[trigger] x[m]) && x[m] != ';' && x[m] != '/'
                && x[m] != '*',
    ensures
        balanced(x),
        no_top(x, ';'),
        no_comment_open(x),
{
    lemma_neutral(x);
    assert forall|k: int| 0 <= k < x.len() implies !#[trigger] is_top_delimiter(x, ';', k) by {
        assert(x[k] != ';');
    }
    assert forall|k: int| 0 <= k < x.len() - 1 implies !(#[trigger] x[k] == '/' && x[k + 1]
        == '*') by {
        assert(x[k] != '/');
    }
}

/// One declaration written out, after the separator's space where there is one: balanced,
/// without top-level `;` or `/*`, and read back as the declaration itself.
proof fn lemma_piece_reads_back(pre: Seq<char>, d: (Seq<char>, Seq<char>))
    requires
        pre == Seq::<char>::empty() || pre == seq![' '],
        is_round_trip_declaration(d),
    ensures
        balanced(pre + declaration_text(d)),
        no_top(pre + declaration_text(d), ';'),
        no_comment_open(pre + declaration_text(d)),
        declaration_of(pre + declaration_text(d), CssDeclarationContext::InlineStyle) == Ok::<
            Option<(Seq<char>, Seq<char>)>,
            Seq<char>,
        >(Some(d)),
{
    let (p, v) = d;
    let sep = seq![':', ' '];
    let sp = seq![' '];
    lemma_neutral_text(pre);
    lemma_neutral_text(sp);
    lemma_neutral(sep);
    assert(no_top(sep, ';')) by {
        assert forall|k: int| 0 <= k < sep.len() implies !#[trigger] is_top_delimiter(sep, ';', k) by {
            assert(sep[k] != ';');
        }
    }
    assert(no_comment_open(sep)) by {
        assert forall|k: int| 0 <= k < sep.len() - 1 implies !(#[trigger] sep[k] == '/' && sep[k
            + 1] == '*') by {
            assert(sep[k] != '/');
        }
    }
    let dt = declaration_text(d);
    // the written declaration is clean
    lemma_concat(p, sep, ';');
    lemma_no_comment_concat(p, sep);
    lemma_concat(p + sep, v, ';');
    lemma_no_comment_concat(p + sep, v);
    assert(dt == p + sep + v);
    lemma_concat(pre, dt, ';');
    lemma_no_comment_concat(pre, dt);
    // trimming gives the written declaration back
    let q = pre + dt;
    assert(dt[0] == p[0]);
    assert(dt.last() == v.last());
    assert(trim_start(dt) == dt);
    if pre.len() > 0 {
        assert(q.subrange(1, q.len() as int) =~= dt);
        assert(trim_start(q) == trim_start(dt));
    } else {
        assert(q =~= dt);
    }
    assert(trim(q) == dt);
    // the first top-level colon ends the property
    let n = p.len() as int;
    lemma_state_shape(p, n);
    assert(dt.subrange(0, n) =~= p);
    lemma_walk(dt, ':', 0, p, 0, 0, None, false, 0);
    assert(dt[n] == ':');
    let tail = dt.subrange(n + 1, dt.len() as int);
    assert(tail =~= sp + v);
    lemma_concat(sp, v, ';');
    lemma_tail_ok(dt, ':', n + 1, 0, n + 1, None, false, 0);
    lemma_split_first(dt, ':', n + 1, n + 1, None, false, 0);
    assert(find_top_level_spec(dt, ':') == Ok::<Option<int>, Seq<char>>(Some(n)));
    // property and value come back trimmed as they were
    assert(dt.take(n) =~= p);
    assert(trim_start(p) == p);
    assert(trim_end(p) == p);
    assert(dt.skip(n + 1) =~= sp + v);
    assert((sp + v).subrange(1, (sp + v).len() as int) =~= v);
    assert(trim_start(sp + v) == trim_start(v));
    assert(trim_start(v) == v);
    assert(trim_end(v) == v);
}

/// The parts into which written declarations split at top-level `;`: each declaration,
/// after the first behind the space of the separator.
pub open spec fn declaration_pieces(ds: Seq<(Seq<char>, Seq<char>)>) -> Seq<Seq<char>> {
    Seq::new(
        ds.len(),
        |m: int|
            if m == 0 {
                declaration_text(ds[0])
            } else {
                seq![' '] + declaration_text(ds[m])
            },
    )
}

proof fn lemma_join_push(qs: Seq<Seq<char>>, x: Seq<char>, delim: char)
    requires
        qs.len() >= 1,
    ensures
        join_parts(qs.push(x), delim) == join_parts(qs, delim) + seq![delim] + x,
    decreases qs.len(),
{
    if qs.len() == 1 {
        assert(qs.push(x).drop_first() =~= seq![x]);
        assert(join_parts(seq![x], delim) == x);
    } else {
        assert(qs.push(x).drop_first() =~= qs.drop_first().push(x));
        lemma_join_push(qs.drop_first(), x, delim);
        assert(qs.push(x)[0] == qs[0]);
        assert(join_parts(qs.push(x), delim) =~= join_parts(qs, delim) + seq![delim] + x);
    }
}

proof fn lemma_serialize_pieces(ds: Seq<(Seq<char>, Seq<char>)>)
    requires
        ds.len() >= 1,
    ensures
        serialize_declarations_spec(ds) == join_parts(declaration_pieces(ds), ';'),
    decreases ds.len(),
{
    let qs = declaration_pieces(ds);
    if ds.len() == 1 {
        assert(join_parts(qs, ';') == qs[0]);
    } else {
        let front = ds.drop_last();
        lemma_serialize_pieces(front);
        let x = seq![' '] + declaration_text(ds.last());
        assert(qs =~= declaration_pieces(front).push(x)) by {
            assert forall|m: int| 0 <= m < qs.len() implies qs[m] == declaration_pieces(front).push(
                x,
            )[m] by {
                if m < front.len() {
                    assert(front[m] == ds[m]);
                }
            }
        }
        lemma_join_push(declaration_pieces(front), x, ';');
        assert(serialize_declarations_spec(ds) =~= join_parts(declaration_pieces(front), ';') + seq![
            ';',
        ] + x);
    }
}

proof fn lemma_read_pieces(ds: Seq<(Seq<char>, Seq<char>)>, k: int)
    requires
        0 <= k <= ds.len(),
        forall|m: int| 0 <= m < ds.len() ==> is_round_trip_declaration(#[trigger] ds[m]),
    ensures
        declarations_from(declaration_pieces(ds), k, CssDeclarationContext::InlineStyle) == Ok::<
            Seq<(Seq<char>, Seq<char>)>,
            Seq<char>,
        >(ds.skip(k)),
    decreases ds.len() - k,
{
    let qs = declaration_pieces(ds);
    if k < ds.len() {
        assert(is_round_trip_declaration(ds[k]));
        if k == 0 {
            lemma_piece_reads_back(Seq::empty(), ds[k]);
            assert(Seq::<char>::empty() + declaration_text(ds[k]) =~= qs[k]);
        } else {
            lemma_piece_reads_back(seq![' '], ds[k]);
        }
        lemma_read_pieces(ds, k + 1);
        assert(seq![ds[k]] + ds.skip(k + 1) =~= ds.skip(k));
    } else {
        assert(ds.skip(k) =~= Seq::<(Seq<char>, Seq<char>)>::empty());
    }
}

proof fn lemma_pieces_clean(ds: Seq<(Seq<char>, Seq<char>)>)
    requires
        forall|m: int| 0 <= m < ds.len() ==> is_round_trip_declaration(#[trigger] ds[m]),
    ensures
        forall|m: int|
            0 <= m < ds.len() ==> balanced(#[trigger] declaration_pieces(ds)[m]) && no_top(
                declaration_pieces(ds)[m],
                ';',
            ) && no_comment_open(declaration_pieces(ds)[m]),
{
    assert forall|m: int| 0 <= m < ds.len() implies balanced(#[trigger] declaration_pieces(ds)[m])
        && no_top(declaration_pieces(ds)[m], ';') && no_comment_open(declaration_pieces(ds)[m]) by {
        assert(is_round_trip_declaration(ds[m]));
        if m == 0 {
            lemma_piece_reads_back(Seq::empty(), ds[m]);
            assert(Seq::<char>::empty() + declaration_text(ds[m]) =~= declaration_pieces(ds)[m]);
        } else {
            lemma_piece_reads_back(seq![' '], ds[m]);
        }
    }
}

/// Clean parts joined with `;` make a balanced text without `/*`.
proof fn lemma_join_clean(qs: Seq<Seq<char>>)
    requires
        qs.len() >= 1,
        forall|m: int| 0 <= m < qs.len() ==> balanced(#[trigger] qs[m]) && no_comment_open(qs[m]),
    ensures
        balanced(join_parts(qs, ';')),
        no_comment_open(join_parts(qs, ';')),
    decreases qs.len(),
{
    assert(balanced(qs[0]) && no_comment_open(qs[0]));
    if qs.len() > 1 {
        let tail = qs.drop_first();
        assert forall|m: int| 0 <= m < tail.len() implies balanced(#[trigger] tail[m])
            && no_comment_open(tail[m]) by {
            assert(tail[m] == qs[m + 1]);
        }
        lemma_join_clean(tail);
        let semi = seq![';'];
        lemma_neutral(semi);
        assert(no_comment_open(semi));
        lemma_concat(qs[0], semi, ';');
        lemma_no_comment_concat(qs[0], semi);
        let a = qs[0] + semi;
        assert(a.last() == ';');
        lemma_concat(a, join_parts(tail, ';'), ';');
        lemma_no_comment_concat(a, join_parts(tail, ';'));
    }
}

/// Writing declarations out as an inline style and reading the text back gives the same
/// declarations, where each property and value is a clean text and no property holds a
/// top-level `:`.
pub proof fn law_declarations_round_trip(ds: Seq<(Seq<char>, Seq<char>)>)
    requires
        forall|m: int| 0 <= m < ds.len() ==> is_round_trip_declaration(#[trigger] ds[m]),
    ensures
        parse_inline_style_spec(serialize_declarations_spec(ds)) == Ok::<
            Seq<(Seq<char>, Seq<char>)>,
            Seq<char>,
        >(ds),
{
    let t = serialize_declarations_spec(ds);
    if ds.len() == 0 {
        assert(t == Seq::<char>::empty());
        assert(strip_css_comments_spec(t) == Ok::<Seq<char>, Seq<char>>(t));
        assert(t.subrange(0, 0) =~= t);
        assert(split_top_level(t, ';') == Ok::<Seq<Seq<char>>, Seq<char>>(seq![t]));
        assert(trim_start(t) == t);
        assert(trim(t) == t);
        assert(declaration_of(t, CssDeclarationContext::InlineStyle) == Ok::<
            Option<(Seq<char>, Seq<char>)>,
            Seq<char>,
        >(None));
        assert(declarations_from(seq![t], 1, CssDeclarationContext::InlineStyle) == Ok::<
            Seq<(Seq<char>, Seq<char>)>,
            Seq<char>,
        >(Seq::empty()));
        assert(ds =~= Seq::<(Seq<char>, Seq<char>)>::empty());
    } else {
        let qs = declaration_pieces(ds);
        lemma_serialize_pieces(ds);
        lemma_pieces_clean(ds);
        lemma_join_clean(qs);
        law_text_without_comments_unchanged(t);
        assert(t.subrange(0, t.len() as int) =~= t);
        lemma_split_joined(t, ';', 0, qs);
        lemma_read_pieces(ds, 0);
        assert(ds.skip(0) =~= ds);
    }
}

/// A character with no part in the syntax of declarations: no quote, parenthesis, brace,
/// `;`, `:`, `/` or `*`, and no white space.
pub open spec fn is_plain_char(c: char) -> bool {
    is_neutral_char(c) && c != ';' && c != ':' && c != '/' && c != '*' && !is_ws(c)
}

/// A declaration whose property and value are written with plain characters alone is one
/// that reads back as itself.
pub proof fn lemma_plain_declaration(d: (Seq<char>, Seq<char>))
    requires
        d.0.len() > 0,
        d.1.len() > 0,
        forall|m: int| 0 <= m < d.0.len() ==> is_plain_char(#[trigger] d.0[m]),
        forall|m: int| 0 <= m < d.1.len() ==> is_plain_char(#[trigger] d.1[m]),
    ensures
        is_round_trip_declaration(d),
{
    lemma_neutral_text(d.0);
    lemma_neutral_text(d.1);
    lemma_neutral(d.0);
    assert(is_plain_char(d.0[0]) && is_plain_char(d.0.last()));
    assert(is_plain_char(d.1[0]) && is_plain_char(d.1.last()));
    assert forall|k: int| 0 <= k < d.0.len() implies !#[trigger] is_top_delimiter(d.0, ':', k) by {
        assert(is_plain_char(d.0[k]));
    }
}

/* ------------------------------------------------------------------ */
/*  Icon style                                                        */
/* ------------------------------------------------------------------ */

proof fn lemma_without_concat(a: Seq<(Seq<char>, Seq<char>)>, b: Seq<(Seq<char>, Seq<char>)>)
    ensures
        without_icon_properties(a + b) == without_icon_properties(a) + without_icon_properties(b),
    decreases b.len(),
{
    if b.len() == 0 {
        assert(a + b =~= a);
        assert(without_icon_properties(a) + b =~= without_icon_properties(a));
    } else {
        lemma_without_concat(a, b.drop_last());
        assert((a + b).drop_last() =~= a + b.drop_last());
        assert((a + b).last() == b.last());
        if !is_icon_property(b.last().0) {
            assert(without_icon_properties(a) + without_icon_properties(b.drop_last()).push(b.last())
                =~= (without_icon_properties(a) + without_icon_properties(b.drop_last())).push(
                b.last(),
            ));
        }
    }
}

proof fn lemma_without_idempotent(ds: Seq<(Seq<char>, Seq<char>)>)
    ensures
        without_icon_properties(without_icon_properties(ds)) == without_icon_properties(ds),
    decreases ds.len(),
{
    if ds.len() > 0 {
        lemma_without_idempotent(ds.drop_last());
        if !is_icon_property(ds.last().0) {
            let w = without_icon_properties(ds.drop_last());
            assert(w.push(ds.last()).drop_last() =~= w);
            assert(w.push(ds.last()).last() == ds.last());
        }
    }
}

proof fn lemma_without_all_icon(x: Seq<(Seq<char>, Seq<char>)>)
    requires
        forall|m: int| 0 <= m < x.len() ==> is_icon_property((#[trigger] x[m]).0),
    ensures
        without_icon_properties(x) == Seq::<(Seq<char>, Seq<char>)>::empty(),
    decreases x.len(),
{
    if x.len() > 0 {
        assert(is_icon_property(x[x.len() - 1].0));
        assert forall|m: int| 0 <= m < x.drop_last().len() implies is_icon_property(
            (#[trigger] x.drop_last()[m]).0,
        ) by {
            assert(x.drop_last()[m] == x[m]);
        }
        lemma_without_all_icon(x.drop_last());
    }
}

proof fn lemma_without_round_trip(ds: Seq<(Seq<char>, Seq<char>)>)
    requires
        forall|m: int| 0 <= m < ds.len() ==> is_round_trip_declaration(#[trigger] ds[m]),
    ensures
        forall|m: int|
            0 <= m < without_icon_properties(ds).len() ==> is_round_trip_declaration(
                #[trigger] without_icon_properties(ds)[m],
            ),
    decreases ds.len(),
{
    if ds.len() > 0 {
        let front = ds.drop_last();
        assert forall|m: int| 0 <= m < front.len() implies is_round_trip_declaration(
            #[trigger] front[m],
        ) by {
            assert(front[m] == ds[m]);
        }
        lemma_without_round_trip(front);
        assert(is_round_trip_declaration(ds[ds.len() - 1]));
        let w = without_icon_properties(front);
        if !is_icon_property(ds.last().0) {
            assert forall|m: int| 0 <= m < w.push(ds.last()).len() implies is_round_trip_declaration(
                #[trigger] w.push(ds.last())[m],
            ) by {
                if m < w.len() {
                    assert(w.push(ds.last())[m] == w[m]);
                }
            }
        }
    }
}

/// Whether every character of `s` is plain.
spec fn plain_text(s: Seq<char>) -> bool {
    forall|m: int| 0 <= m < s.len() ==> is_plain_char(#[trigger] s[m])
}

proof fn lemma_pixels_plain(n: Seq<char>)
    requires
        is_pixel_text(n),
    ensures
        plain_text(n + "px"@),
        (n + "px"@).len() > 0,
{
    reveal_strlit("px");
    let t = n + "px"@;
    assert forall|m: int| 0 <= m < t.len() implies is_plain_char(#[trigger] t[m]) by {
        if m < n.len() {
            assert(t[m] == n[m]);
            assert(is_digit(n[m]) || n[m] == '.');
        } else {
            assert(t[m] == "px"@[m - n.len()]);
        }
    }
}

/// The declarations that icon mode adds set icon properties and read back as themselves.
proof fn lemma_icon_declarations(size: (Seq<char>, Seq<char>))
    requires
        is_pixel_text(size.0),
        is_pixel_text(size.1),
    ensures
        forall|m: int|
            0 <= m < icon_declarations(size).len() ==> is_round_trip_declaration(
                #[trigger] icon_declarations(size)[m],
            ) && is_icon_property(icon_declarations(size)[m].0),
{
    reveal_strlit("width");
    reveal_strlit("height");
    reveal_strlit("overflow");
    reveal_strlit("fill");
    reveal_strlit("hidden");
    reveal_strlit("currentColor");
    let ic = icon_declarations(size);
    lemma_pixels_plain(size.0);
    lemma_pixels_plain(size.1);
    assert(plain_text("width"@));
    assert(plain_text("height"@));
    assert(plain_text("overflow"@));
    assert(plain_text("fill"@));
    assert(plain_text("hidden"@));
    assert(plain_text("currentColor"@));
    lemma_plain_declaration(ic[0]);
    lemma_plain_declaration(ic[1]);
    lemma_plain_declaration(ic[2]);
    lemma_plain_declaration(ic[3]);
    assert(ascii_lower("width"@) =~= "width"@);
    assert(ascii_lower("height"@) =~= "height"@);
    assert(ascii_lower("overflow"@) =~= "overflow"@);
    assert(ascii_lower("fill"@) =~= "fill"@);
}

/// Applying the icon style a second time changes nothing, for an inline style without
/// `/*` and a size written with digits and points.
pub proof fn law_icon_style_idempotent(e: SElement, size: (Seq<char>, Seq<char>))
    requires
        is_pixel_text(size.0),
        is_pixel_text(size.1),
        attr_get(e.attributes, "style"@) matches Some(s) ==> no_comment_open(s),
    ensures
        apply_icon_style_spec(e, size) matches Ok(t) ==> apply_icon_style_spec(t, size) == Ok::<
            SElement,
            Seq<char>,
        >(t),
{
    let parsed = match attr_get(e.attributes, "style"@) {
        Some(s) => parse_inline_style_spec(s),
        None => Ok(Seq::empty()),
    };
    if let Some(s) = attr_get(e.attributes, "style"@) {
        lemma_style_declarations(s);
    }
    if let Ok(ds) = parsed {
        let kept = without_icon_properties(ds);
        let ic = icon_declarations(size);
        let all = kept + ic;
        lemma_without_round_trip(ds);
        lemma_icon_declarations(size);
        assert forall|m: int| 0 <= m < all.len() implies is_round_trip_declaration(
            #[trigger] all[m],
        ) by {
            if m < kept.len() {
                assert(all[m] == kept[m]);
            } else {
                assert(all[m] == ic[m - kept.len()]);
            }
        }
        let text = serialize_declarations_spec(all);
        law_declarations_round_trip(all);
        // the declarations read back keep their place
        lemma_without_concat(kept, ic);
        lemma_without_idempotent(ds);
        assert forall|m: int| 0 <= m < ic.len() implies is_icon_property((#[trigger] ic[m]).0) by {
            assert(is_icon_property(ic[m].0));
        }
        lemma_without_all_icon(ic);
        assert(without_icon_properties(all) + ic =~= all);
        // the attributes stay as they are
        reveal_strlit("style");
        reveal_strlit("width");
        reveal_strlit("height");
        reveal_strlit("fill");
        let style = "style"@;
        assert(style != "width"@) by {
            assert(style[0] != "width"@[0]);
        }
        assert(style != "height"@);
        assert(style != "fill"@);
        let a1 = attr_remove(e.attributes, "width"@);
        let a2 = attr_remove(a1, "height"@);
        let a3 = attr_remove(a2, "fill"@);
        lemma_attr_remove_absent(e.attributes, "width"@, "width"@);
        lemma_attr_remove_absent(a1, "height"@, "width"@);
        lemma_attr_remove_absent(a2, "fill"@, "width"@);
        lemma_attr_remove_absent(a2, "fill"@, "height"@);
        let b = attr_insert(a3, style, text);
        lemma_attr_insert_absent(a3, style, text, "width"@);
        lemma_attr_insert_absent(a3, style, text, "height"@);
        lemma_attr_insert_absent(a3, style, text, "fill"@);
        lemma_attr_remove_absent(b, "width"@, "width"@);
        lemma_attr_remove_absent(b, "height"@, "height"@);
        lemma_attr_remove_absent(b, "fill"@, "fill"@);
        law_attr_get_insert(a3, style, text, style);
        lemma_attr_insert_absent(b, style, text, style);
        let t = with_attributes(e, b);
        assert(apply_icon_style_spec(e, size) == Ok::<SElement, Seq<char>>(t));
        assert(attr_get(t.attributes, style) == Some(text));
        assert(with_attributes(t, b) == t);
    }
}

/// Icon mode changes only the `width`, `height`, `fill` and `style` attributes: every
/// other attribute reads as before, and the element keeps its name, namespace and children.
pub proof fn law_icon_style_keeps_the_rest(
    e: SElement,
    size: (Seq<char>, Seq<char>),
    k: Seq<char>,
)
    requires
        k != "width"@,
        k != "height"@,
        k != "fill"@,
        k != "style"@,
    ensures
        apply_icon_style_spec(e, size) matches Ok(t) ==> {
            &&& attr_get(t.attributes, k) == attr_get(e.attributes, k)
            &&& t.name == e.name
            &&& t.prefix == e.prefix
            &&& t.namespace == e.namespace
            &&& t.namespaces == e.namespaces
            &&& t.children == e.children
        },
{
    let parsed = match attr_get(e.attributes, "style"@) {
        Some(s) => parse_inline_style_spec(s),
        None => Ok(Seq::empty()),
    };
    if let Ok(ds) = parsed {
        let text = serialize_declarations_spec(
            without_icon_properties(ds) + icon_declarations(size),
        );
        let a1 = attr_remove(e.attributes, "width"@);
        let a2 = attr_remove(a1, "height"@);
        let a3 = attr_remove(a2, "fill"@);
        law_attr_get_remove(e.attributes, "width"@, k);
        law_attr_get_remove(a1, "height"@, k);
        law_attr_get_remove(a2, "fill"@, k);
        law_attr_get_insert(a3, "style"@, text, k);
    }
}

} // verus!
