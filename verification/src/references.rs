use vstd::prelude::*;
use crate::cleanup::{map_element, map_elements, strip_ids_fn, HeaderRule};
use crate::css::texts_view;
use crate::text::{
    ascii_lower, occurs_at, occurs_at_exec, skip_ws_forward, sub_chars, to_ascii_lower, trim_start,
};
use crate::tree::{attrs_view, lemma_view_nodes, view_nodes, SvgElement, SvgNode, SElement, SNode};

verus! {

broadcast use lemma_view_nodes;

/// `url(`
pub open spec fn url_open() -> Seq<char> {
    seq!['u', 'r', 'l', '(']
}

/// The position of the first `url(` in `s` at or after `p`.
pub open spec fn url_from(s: Seq<char>, p: int) -> Option<int>
    decreases s.len() - p,
{
    if p < 0 || p + 4 > s.len() {
        None
    } else if occurs_at(s, url_open(), p) {
        Some(p)
    } else {
        url_from(s, p + 1)
    }
}

pub proof fn lemma_url_from(s: Seq<char>, p: int)
    requires
        0 <= p,
    ensures
        url_from(s, p) matches Some(m) ==> p <= m && m + 4 <= s.len(),
    decreases s.len() - p,
{
    if p + 4 <= s.len() && !occurs_at(s, url_open(), p) {
        lemma_url_from(s, p + 1);
    }
}

/// A character that ends a reference inside `url(...)`.
pub open spec fn ends_url_reference(c: char) -> bool {
    c == ')' || c == '\'' || c == '"' || c == ' ' || c == '\t' || c == '\n' || c == '\r' || c == ';'
}

/// The position of the first character of `s` at or after `i` that ends a reference, or the
/// length.
pub open spec fn reference_end_from(s: Seq<char>, i: int) -> int
    decreases s.len() - i,
{
    if i < 0 || i >= s.len() {
        s.len() as int
    } else if ends_url_reference(s[i]) {
        i
    } else {
        reference_end_from(s, i + 1)
    }
}

pub proof fn lemma_reference_end_from(s: Seq<char>, i: int)
    requires
        0 <= i <= s.len(),
    ensures
        i <= reference_end_from(s, i) <= s.len(),
    decreases s.len() - i,
{
    if i < s.len() && !ends_url_reference(s[i]) {
        lemma_reference_end_from(s, i + 1);
    }
}

/// The id named by a fragment `#id` at the start of `s`, if it is not empty.
pub open spec fn fragment_id(s: Seq<char>) -> Seq<Seq<char>> {
    if s.len() > 0 && s[0] == '#' {
        let h = s.skip(1);
        let id = h.take(reference_end_from(h, 0));
        if id.len() > 0 {
            seq![id]
        } else {
            Seq::empty()
        }
    } else {
        Seq::empty()
    }
}

/// The id that the text after `url(` refers to: white space, an optional quote, then `#id`.
pub open spec fn url_target(after: Seq<char>) -> Seq<Seq<char>> {
    let a = trim_start(after);
    let b = if a.len() > 0 && (a[0] == '\'' || a[0] == '"') {
        a.skip(1)
    } else {
        a
    };
    fragment_id(b)
}

/// The ids referenced by each `url(` (in any ASCII letter case) of `v` from position `p` on.
pub open spec fn url_ids_from(v: Seq<char>, p: int) -> Seq<Seq<char>>
    decreases v.len() - p,
{
    if p < 0 {
        Seq::empty()
    } else {
        match url_from(ascii_lower(v), p) {
            None => Seq::empty(),
            Some(m) => {
                proof {
                    lemma_url_from(ascii_lower(v), p);
                }
                url_target(v.skip(m + 4)) + url_ids_from(v, m + 4)
            },
        }
    }
}

/// The ids that the `url(#id)` references of a text name, in order.
pub open spec fn url_ids(v: Seq<char>) -> Seq<Seq<char>> {
    url_ids_from(v, 0)
}

/// The ids that an attribute value refers to: by `url(#id)` in any letter case, read at
/// positions of the value itself, and by a leading `#id`.
pub open spec fn ids_in_value(v: Seq<char>) -> Seq<Seq<char>> {
    url_ids(v) + fragment_id(v)
}

/// The position of the first `url(` of `s` at or after `p`.
fn url_from_exec(s: &[char], url: &[char], p: usize) -> (r: Option<usize>)
    requires
        url@ == url_open(),
    ensures
        match r {
            Some(m) => url_from(s@, p as int) == Some(m as int),
            None => url_from(s@, p as int) is None,
        },
{
    let mut q = p;
    while q < s.len() && 4 <= s.len() - q
        invariant
            p <= q,
            url@ == url_open(),
            url_from(s@, p as int) == url_from(s@, q as int),
        decreases s.len() - q,
    {
        if occurs_at_exec(s, url, q) {
            return Some(q);
        }
        q += 1;
    }
    None
}

fn reference_end(s: &[char], from: usize) -> (r: usize)
    requires
        from <= s.len(),
    ensures
        r == reference_end_from(s@, from as int),
        from <= r <= s.len(),
{
    let mut i = from;
    while i < s.len()
        invariant
            from <= i <= s.len(),
            reference_end_from(s@, from as int) == reference_end_from(s@, i as int),
        decreases s.len() - i,
    {
        let c = s[i];
        if c == ')' || c == '\'' || c == '"' || c == ' ' || c == '\t' || c == '\n' || c == '\r' || c
            == ';' {
            return i;
        }
        i += 1;
    }
    i
}

/// The id of a fragment `#id` at `s[from..]`, pushed onto `out` if it is not empty.
fn push_fragment_id(s: &[char], from: usize, out: &mut Vec<Vec<char>>)
    requires
        from <= s.len(),
    ensures
        texts_view(final(out)@) == texts_view(old(out)@) + fragment_id(
            s@.subrange(from as int, s@.len() as int),
        ),
{
    let ghost t = s@.subrange(from as int, s@.len() as int);
    if from < s.len() && s[from] == '#' {
        let ghost h = t.skip(1);
        assert(h =~= s@.subrange(from + 1, s@.len() as int));
        let end = reference_end(s, from + 1);
        proof {
            assert forall|i: int| from + 1 <= i <= s@.len() implies reference_end_from(s@, i) == from + 1
                + reference_end_from(h, i - from - 1) by {
                lemma_reference_end_shift(s@, from + 1, i);
            }
        }
        if end > from + 1 {
            let ghost before = texts_view(out@);
            let id = sub_chars(s, from + 1, end);
            assert(id@ =~= h.take(reference_end_from(h, 0)));
            out.push(id);
            assert(texts_view(out@) =~= before + seq![id@]);
        } else {
            assert(texts_view(out@) =~= texts_view(out@) + Seq::<Seq<char>>::empty());
        }
    } else {
        assert(texts_view(out@) =~= texts_view(out@) + Seq::<Seq<char>>::empty());
    }
}

proof fn lemma_reference_end_shift(s: Seq<char>, base: int, i: int)
    requires
        0 <= base <= i <= s.len(),
    ensures
        reference_end_from(s, i) == base + reference_end_from(
            s.subrange(base, s.len() as int),
            i - base,
        ),
    decreases s.len() - i,
{
    if i < s.len() && !ends_url_reference(s[i]) {
        lemma_reference_end_shift(s, base, i + 1);
    }
}

/// The ids that the text `after` (the rest of a value after `url(`) refers to.
fn push_url_target(v: &[char], j: usize, out: &mut Vec<Vec<char>>)
    requires
        j <= v.len(),
    ensures
        texts_view(final(out)@) == texts_view(old(out)@) + url_target(
            v@.subrange(j as int, v@.len() as int),
        ),
{
    let a = skip_ws_forward(v, j, v.len());
    let ghost at = v@.subrange(a as int, v@.len() as int);
    let from = if a < v.len() && (v[a] == '\'' || v[a] == '"') {
        assert(at.skip(1) =~= v@.subrange(a + 1, v@.len() as int));
        a + 1
    } else {
        a
    };
    push_fragment_id(v, from, out);
}

/// Appends the ids that the `url(#id)` references of `v` name.
fn push_url_ids(v: &[char], out: &mut Vec<Vec<char>>)
    ensures
        texts_view(final(out)@) == texts_view(old(out)@) + url_ids(v@),
{
    let lower = to_ascii_lower(v);
    let url: [char; 4] = ['u', 'r', 'l', '('];
    let url_s: &[char] = &url;
    assert(url_s@ =~= url_open());
    let ghost start = texts_view(out@);
    let ghost lw = ascii_lower(v@);
    assert(texts_view(out@) + url_ids_from(v@, 0) =~= start + url_ids(v@));
    let mut p: usize = 0;
    loop
        invariant
            lower@ == lw,
            lw == ascii_lower(v@),
            lw.len() == v@.len(),
            url_s@ == url_open(),
            p <= v.len(),
            texts_view(out@) + url_ids_from(v@, p as int) == start + url_ids(v@),
        ensures
            texts_view(out@) == start + url_ids(v@),
        decreases v.len() - p,
    {
        let m = match url_from_exec(lower.as_slice(), url_s, p) {
            Some(m) => m,
            None => {
                assert(url_ids_from(v@, p as int) == Seq::<Seq<char>>::empty());
                assert(texts_view(out@) + Seq::<Seq<char>>::empty() =~= texts_view(out@));
                break;
            },
        };
        proof {
            lemma_url_from(lw, p as int);
        }
        let ghost before = texts_view(out@);
        push_url_target(v, m + 4, out);
        proof {
            assert(v@.skip(m + 4) =~= v@.subrange(m + 4, v@.len() as int));
            let t = url_target(v@.skip(m + 4));
            let rest = url_ids_from(v@, m + 4);
            assert(before + (t + rest) =~= texts_view(out@) + rest);
        }
        p = m + 4;
    }
}

/// The ids that an attribute value refers to, by `url(#id)` in any letter case and by a
/// leading `#id`.
pub fn find_ids_in_value(value: &[char]) -> (r: Vec<Vec<char>>)
    ensures
        texts_view(r@) == ids_in_value(value@),
{
    let mut ids: Vec<Vec<char>> = Vec::new();
    assert(texts_view(ids@) =~= Seq::<Seq<char>>::empty());
    push_url_ids(value, &mut ids);
    assert(Seq::<Seq<char>>::empty() + url_ids(value@) =~= url_ids(value@));
    assert(value@.subrange(0, value@.len() as int) =~= value@);
    push_fragment_id(value, 0, &mut ids);
    ids
}

/* ------------------------------------------------------------------ */
/*  Ids referenced in a tree                                          */
/* ------------------------------------------------------------------ */

/// The ids that the attribute values refer to, in order.
pub open spec fn attr_ids(attrs: Seq<(Seq<char>, Seq<char>)>) -> Seq<Seq<char>>
    decreases attrs.len(),
{
    if attrs.len() == 0 {
        Seq::empty()
    } else {
        attr_ids(attrs.drop_last()) + ids_in_value(attrs.last().1)
    }
}

/// The ids that the `url(#id)` references of the text and CDATA nodes of a style sheet name.
pub open spec fn style_text_ids(s: Seq<SNode>) -> Seq<Seq<char>>
    decreases s.len(),
{
    if s.len() == 0 {
        Seq::empty()
    } else {
        style_text_ids(s.drop_last()) + match s.last() {
            SNode::Text(t) => url_ids(t),
            SNode::CData(t) => url_ids(t),
            _ => Seq::empty(),
        }
    }
}

/// The ids that an element itself refers to: those of its attribute values and, for a
/// `<style>` element, those of its style sheet.
pub open spec fn own_ids(e: SElement) -> Seq<Seq<char>> {
    attr_ids(e.attributes) + if e.name == "style"@ {
        style_text_ids(e.children)
    } else {
        Seq::empty()
    }
}

/// The ids referenced anywhere in `e`: its own, then its descendants' in document order.
pub open spec fn element_ids(e: SElement) -> Seq<Seq<char>>
    decreases e,
{
    own_ids(e) + nodes_ids(e.children)
}

pub open spec fn nodes_ids(s: Seq<SNode>) -> Seq<Seq<char>>
    decreases s,
{
    if s.len() == 0 {
        Seq::empty()
    } else {
        nodes_ids(s.drop_last()) + node_ids(s.last())
    }
}

pub open spec fn node_ids(n: SNode) -> Seq<Seq<char>>
    decreases n,
{
    match n {
        SNode::Element(c) => element_ids(c),
        _ => Seq::empty(),
    }
}

/// Appends the ids of a `<style>` element's text and CDATA nodes.
fn push_style_text_ids(children: &Vec<SvgNode>, used: &mut Vec<Vec<char>>)
    ensures
        texts_view(final(used)@) == texts_view(old(used)@) + style_text_ids(view_nodes(children@)),
{
    let ghost start = texts_view(used@);
    let ghost cv = children@;
    let mut i: usize = 0;
    assert(view_nodes(cv.take(0)) =~= Seq::<SNode>::empty());
    assert(start + Seq::<Seq<char>>::empty() =~= start);
    while i < children.len()
        invariant
            i <= children.len(),
            cv == children@,
            texts_view(used@) == start + style_text_ids(view_nodes(cv.take(i as int))),
        decreases children.len() - i,
    {
        let ghost x = view_nodes(cv.take(i as int));
        let ghost nv = cv[i as int].view();
        proof {
            assert(cv.take(i + 1).drop_last() =~= cv.take(i as int));
            assert(view_nodes(cv.take(i + 1)) == x.push(nv));
            assert(x.push(nv).drop_last() =~= x);
        }
        let ghost before = texts_view(used@);
        match &children[i] {
            SvgNode::Text(t) => {
                push_url_ids(t.as_slice(), used);
            },
            SvgNode::CData(t) => {
                push_url_ids(t.as_slice(), used);
            },
            _ => {
                assert(before + Seq::<Seq<char>>::empty() =~= before);
            },
        }
        assert(texts_view(used@) =~= start + style_text_ids(view_nodes(cv.take(i + 1))));
        i += 1;
    }
    assert(cv.take(i as int) =~= cv);
}

/// Appends the ids referenced anywhere in `e` to `used`.
pub fn collect_referenced_ids(e: &SvgElement, used: &mut Vec<Vec<char>>)
    ensures
        texts_view(final(used)@) == texts_view(old(used)@) + element_ids(e.view_element()),
    decreases e,
{
    let ghost start = texts_view(used@);
    let ghost av = attrs_view(e.attributes@);
    let mut k: usize = 0;
    assert(start + Seq::<Seq<char>>::empty() =~= start);
    while k < e.attributes.len()
        invariant
            k <= e.attributes.len(),
            av == attrs_view(e.attributes@),
            texts_view(used@) == start + attr_ids(av.take(k as int)),
        decreases e.attributes.len() - k,
    {
        assert(av.take(k + 1).drop_last() =~= av.take(k as int));
        assert(av.take(k + 1).last().1 == e.attributes@[k as int].value@);
        let ids = find_ids_in_value(e.attributes[k].value.as_slice());
        let ghost before = texts_view(used@);
        append_texts(used, ids);
        assert(texts_view(used@) =~= start + attr_ids(av.take(k + 1)));
        k += 1;
    }
    assert(av.take(k as int) =~= av);
    let ghost ev = e.view_element();
    let ghost after_attrs = texts_view(used@);
    if crate::text::eq_str(e.name.as_slice(), "style") {
        push_style_text_ids(&e.children, used);
    }
    assert(texts_view(used@) =~= start + own_ids(ev));
    let ghost own = own_ids(ev);
    let ghost cv = e.children@;
    let mut i: usize = 0;
    assert(start + own + Seq::<Seq<char>>::empty() =~= start + own);
    while i < e.children.len()
        invariant
            i <= e.children.len(),
            cv == e.children@,
            texts_view(used@) == start + own + nodes_ids(view_nodes(cv.take(i as int))),
        decreases e.children.len() - i,
    {
        let ghost x = view_nodes(cv.take(i as int));
        let ghost nv = cv[i as int].view();
        proof {
            assert(cv.take(i + 1).drop_last() =~= cv.take(i as int));
            assert(view_nodes(cv.take(i + 1)) == x.push(nv));
            assert(x.push(nv).drop_last() =~= x);
            assert(nodes_ids(x.push(nv)) == nodes_ids(x) + node_ids(nv));
        }
        let ghost before = texts_view(used@);
        match &e.children[i] {
            SvgNode::Element(c) => {
                proof {
                    assert(decreases_to!(e => c));
                }
                assert(cv[i as int].view() == SNode::Element(c.view_element()));
                collect_referenced_ids(c, used);
                assert(node_ids(nv) == element_ids(c.view_element()));
                assert(texts_view(used@) =~= start + own + nodes_ids(view_nodes(cv.take(i + 1))));
            },
            _ => {
                assert(node_ids(nv) == Seq::<Seq<char>>::empty());
                assert(nodes_ids(view_nodes(cv.take(i + 1))) =~= nodes_ids(x));
            },
        }
        i += 1;
    }
    assert(cv.take(i as int) =~= cv);
}

/// Appends the texts of `more` to `v`.
fn append_texts(v: &mut Vec<Vec<char>>, more: Vec<Vec<char>>)
    ensures
        texts_view(final(v)@) == texts_view(old(v)@) + texts_view(more@),
{
    let ghost mv = texts_view(more@);
    for t in it: more.into_iter()
        invariant
            it.seq() == more@,
            mv == texts_view(more@),
            texts_view(v@) == texts_view(old(v)@) + mv.take(it.index() as int),
    {
        let ghost before = texts_view(v@);
        let ghost i = it.index() as int;
        let ghost tv = t@;
        assert(mv[i] == tv);
        assert(mv.take(i + 1) =~= mv.take(i).push(tv));
        v.push(t);
        assert(texts_view(v@) =~= before.push(tv));
        assert(texts_view(v@) =~= texts_view(old(v)@) + mv.take(i + 1));
    }
    assert(mv.take(mv.len() as int) =~= mv);
}


/// The tree without the `id` attributes that nothing refers to.
pub open spec fn strip_unused_ids_spec(e: SElement) -> SElement {
    map_elements(e, strip_ids_fn(element_ids(e)))
}

/// Removes the `id` attributes that no `url(#id)` or `#id` reference names, in an attribute
/// value or in a style sheet.
pub fn strip_unused_ids(root: SvgElement) -> (r: SvgElement)
    ensures
        r.view_element() == strip_unused_ids_spec(root.view_element()),
{
    let mut used: Vec<Vec<char>> = Vec::new();
    collect_referenced_ids(&root, &mut used);
    assert(texts_view(used@) =~= element_ids(root.view_element()));
    map_element(root, &HeaderRule::StripIds(&used))
}

} // verus!
