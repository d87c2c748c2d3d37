use vstd::prelude::*;
use crate::cleanup::{
    law_id_kept_iff_referenced, map_elements, map_node, map_nodes, strip_ids_fn, metadata_fn, prune, prune_node, prune_nodes, expand_short_color, law_color_shrink_lossless, shrink_colors_spec, shrink_segment,
    shrink_segments,
};
use crate::patterns::hex_color_segments;
use crate::component::{
    clean_component_root_spec, remove_enable_background_spec, without_enable_background,
};
use crate::css::{
    declaration_of, declarations_from, find_top_level_spec, lemma_split_first,
    parse_declarations_spec, parse_inline_style_spec, serialize_declarations_spec, split_from,
    split_top_level, stylesheet_from, stylesheet_spec, CssDeclarationContext, SRule,
};
use crate::references::{
    attr_ids, element_ids, node_ids, nodes_ids, own_ids, strip_unused_ids_spec, fragment_id, ids_in_value, reference_end_from, url_from, url_ids, url_ids_from, url_open,
    url_target,
};
use crate::text::{
    ascii_lower, contains_text, index_of, is_ws, lemma_index_of, lemma_trim_len, occurs_at,
    trim, trim_end, trim_start,
};
use crate::laws::{every_below, every_node, every_node_in, head};
use crate::tree::{
    with_children, attr_get, attr_remove, law_attr_get_insert, law_attr_get_remove, SElement, SNode,
};

verus! {

/* ------------------------------------------------------------------ */
/*  Colors                                                            */
/* ------------------------------------------------------------------ */

/// The text of segments: each gap followed by its match, in order.
pub open spec fn segments_text(segs: Seq<(Seq<char>, Seq<char>)>) -> Seq<char>
    decreases segs.len(),
{
    if segs.len() == 0 {
        Seq::empty()
    } else {
        segments_text(segs.drop_last()) + segs.last().0 + segs.last().1
    }
}

/// The segments with their matches replaced by `reps`.
pub open spec fn with_matches(segs: Seq<(Seq<char>, Seq<char>)>, reps: Seq<Seq<char>>) -> Seq<
    (Seq<char>, Seq<char>),
> {
    Seq::new(segs.len(), |i: int| (segs[i].0, reps[i]))
}

/// Whether `rep` stands for the color `m` without loss: it is `m` itself, or a color
/// `#rgb` that, written out as `#rrggbb`, is `m` in lower case.
pub open spec fn stands_for(rep: Seq<char>, m: Seq<char>) -> bool {
    rep == m || (rep.len() == 4 && rep[0] == '#' && expand_short_color(rep) == ascii_lower(m))
}

/// Whether each match is `#` and six more characters.
pub open spec fn matches_are_colors(segs: Seq<(Seq<char>, Seq<char>)>) -> bool {
    forall|i: int| 0 <= i < segs.len() ==> (#[trigger] segs[i]).1.len() == 7 && segs[i].1[0] == '#'
}

/// Segments put back together before a tail are the segments' text and then the tail.
pub proof fn lemma_join_segments_text(segs: Seq<(Seq<char>, Seq<char>)>, tail: Seq<char>)
    ensures
        crate::patterns::join_segments(segs, tail) == segments_text(segs) + tail,
    decreases segs.len(),
{
    if segs.len() > 0 {
        let l = segs.last();
        lemma_join_segments_text(segs.drop_last(), l.0 + l.1 + tail);
        assert(segments_text(segs.drop_last()) + (l.0 + l.1 + tail) =~= segments_text(segs)
            + tail);
    }
}

proof fn lemma_segments_lossless(segs: Seq<(Seq<char>, Seq<char>)>)
    requires
        matches_are_colors(segs),
    ensures
        ({
            let reps = Seq::new(segs.len(), |i: int| shrink_segment(segs[i]).0);
            &&& shrink_segments(segs).0 == segments_text(with_matches(segs, reps))
            &&& forall|i: int| 0 <= i < segs.len() ==> stands_for(#[trigger] reps[i], segs[i].1)
            &&& shrink_segments(segs).1 == exists|i: int|
                0 <= i < segs.len() && #[trigger] reps[i] != segs[i].1
        }),
    decreases segs.len(),
{
    let reps = Seq::new(segs.len(), |i: int| shrink_segment(segs[i]).0);
    if segs.len() > 0 {
        let front = segs.drop_last();
        assert forall|i: int| 0 <= i < front.len() implies (#[trigger] front[i]).1.len() == 7
            && front[i].1[0] == '#' by {
            assert(front[i] == segs[i]);
        }
        lemma_segments_lossless(front);
        let fr = Seq::new(front.len(), |i: int| shrink_segment(front[i]).0);
        assert(with_matches(segs, reps).drop_last() =~= with_matches(front, fr));
        assert(with_matches(segs, reps).last() == (segs.last().0, shrink_segment(segs.last()).0));
        let n = front.len() as int;
        assert forall|i: int| 0 <= i < n implies #[trigger] reps[i] == fr[i] by {
            assert(front[i] == segs[i]);
        }
        let m = segs.last().1;
        law_color_shrink_lossless(m);
        assert(shrink_segment(segs.last()).1 == (reps[n] != segs[n].1));
        if exists|i: int| 0 <= i < segs.len() && #[trigger] reps[i] != segs[i].1 {
            let i = choose|i: int| 0 <= i < segs.len() && #[trigger] reps[i] != segs[i].1;
            if i < n {
                assert(fr[i] != front[i].1);
            }
        }
        if exists|i: int| 0 <= i < front.len() && #[trigger] fr[i] != front[i].1 {
            let i = choose|i: int| 0 <= i < front.len() && #[trigger] fr[i] != front[i].1;
            assert(reps[i] != segs[i].1);
        }
    } else {
        assert(with_matches(segs, reps) =~= Seq::<(Seq<char>, Seq<char>)>::empty());
    }
    assert forall|i: int| 0 <= i < segs.len() implies stands_for(#[trigger] reps[i], segs[i].1) by {
        let m = segs[i].1;
        assert(m.len() == 7 && m[0] == '#');
        law_color_shrink_lossless(m);
    }
}

/// Shortening the colors of cut-up text loses nothing but letter case: the result is the
/// same gaps, each followed by its color as it was or by a `#rgb` that writes out as the
/// color in lower case.
pub proof fn law_color_segments_lossless(segs: Seq<(Seq<char>, Seq<char>)>)
    requires
        matches_are_colors(segs),
    ensures
        exists|reps: Seq<Seq<char>>|
            reps.len() == segs.len() && shrink_segments(segs).0 == segments_text(
                #[trigger] with_matches(segs, reps),
            ) && (forall|i: int| 0 <= i < segs.len() ==> stands_for(#[trigger] reps[i], segs[i].1))
                && (shrink_segments(segs).1 <==> exists|i: int|
                0 <= i < segs.len() && #[trigger] reps[i] != segs[i].1),
{
    lemma_segments_lossless(segs);
    let reps = Seq::new(segs.len(), |i: int| shrink_segment(segs[i]).0);
    assert(shrink_segments(segs).0 == segments_text(with_matches(segs, reps)));
}

/// The color-shortened text is the text's gaps and tail as they were, with each color match
/// kept or replaced by a `#rgb` that writes out as the match in lower case.
pub proof fn law_shrink_colors_lossless(s: Seq<char>)
    requires
        matches_are_colors(hex_color_segments(s).0),
    ensures
        exists|reps: Seq<Seq<char>>|
            reps.len() == hex_color_segments(s).0.len() && shrink_colors_spec(s).0 == segments_text(
                #[trigger] with_matches(hex_color_segments(s).0, reps),
            ) + hex_color_segments(s).1 && (forall|i: int|
                0 <= i < hex_color_segments(s).0.len() ==> stands_for(
                    #[trigger] reps[i],
                    hex_color_segments(s).0[i].1,
                )) && (shrink_colors_spec(s).1 <==> exists|i: int|
                0 <= i < hex_color_segments(s).0.len() && #[trigger] reps[i]
                    != hex_color_segments(s).0[i].1),
{
    let segs = hex_color_segments(s).0;
    lemma_segments_lossless(segs);
    let reps = Seq::new(segs.len(), |i: int| shrink_segment(segs[i]).0);
    assert(shrink_colors_spec(s).0 == segments_text(with_matches(segs, reps))
        + hex_color_segments(s).1);
}

/* ------------------------------------------------------------------ */
/*  The root of a component                                           */
/* ------------------------------------------------------------------ */

proof fn lemma_enable_background_keeps_fill(x: SElement)
    ensures
        remove_enable_background_spec(x) matches Ok(t) ==> attr_get(t.attributes, "fill"@)
            == attr_get(x.attributes, "fill"@),
{
    reveal_strlit("fill");
    reveal_strlit("style");
    assert("fill"@.len() != "style"@.len());
    if let Some(style) = attr_get(x.attributes, "style"@) {
        if let Ok(ds) = parse_inline_style_spec(style) {
            let kept = without_enable_background(ds);
            law_attr_get_remove(x.attributes, "style"@, "fill"@);
            law_attr_get_insert(x.attributes, "style"@, serialize_declarations_spec(kept), "fill"@);
        }
    }
}

/// Cleaning a component's root takes its `fill` away only where the fill is the default
/// black (`black`, `#000` or `#000000` in any ASCII case, around white space), so that the
/// drawing looks the same; any other fill stays as it was.
pub proof fn law_component_root_fill(e: SElement)
    ensures
        clean_component_root_spec(e) matches Ok(t) ==> attr_get(t.attributes, "fill"@) == match attr_get(
            e.attributes,
            "fill"@,
        ) {
            Some(f) => {
                let l = ascii_lower(trim(f));
                if l == "black"@ || l == "#000"@ || l == "#000000"@ {
                    None
                } else {
                    Some(f)
                }
            },
            None => None,
        },
{
    reveal_strlit("fill");
    reveal_strlit("width");
    reveal_strlit("height");
    reveal_strlit("version");
    reveal_strlit("space");
    reveal_strlit("xml:space");
    let fill = "fill"@;
    assert(fill.len() == 4);
    assert("width"@.len() == 5 && "height"@.len() == 6 && "version"@.len() == 7);
    assert("space"@.len() == 5 && "xml:space"@.len() == 9);
    let a0 = e.attributes;
    let x1 = attr_remove(a0, "width"@);
    let x2 = attr_remove(x1, "height"@);
    let a1 = attr_remove(x2, "version"@);
    law_attr_get_remove(a0, "width"@, fill);
    law_attr_get_remove(x1, "height"@, fill);
    law_attr_get_remove(x2, "version"@, fill);
    law_attr_get_remove(a1, fill, fill);
    let a2 = match attr_get(a1, fill) {
        Some(f) => if crate::component::is_default_black_spec(f) {
            attr_remove(a1, fill)
        } else {
            a1
        },
        None => a1,
    };
    let y = attr_remove(a2, "space"@);
    law_attr_get_remove(a2, "space"@, fill);
    law_attr_get_remove(y, "xml:space"@, fill);
    lemma_enable_background_keeps_fill(
        crate::tree::with_attributes(e, attr_remove(y, "xml:space"@)),
    );
    lemma_enable_background_keeps_fill(crate::tree::with_attributes(e, a2));
}

/* ------------------------------------------------------------------ */
/*  References                                                        */
/* ------------------------------------------------------------------ */

/// A character that ends the id of a reference: `)`, a quote, a space, a tab, a line feed,
/// a carriage return or `;`.
pub open spec fn closes_id(c: char) -> bool {
    c == ')' || c == '\'' || c == '"' || c == ' ' || c == '\t' || c == '\n' || c == '\r' || c == ';'
}

/// Whether `id`, followed by `rest`, is read whole as the id of a reference: it is not
/// empty, none of its characters ends an id, and `rest` is empty or starts with one that does.
pub open spec fn whole_id(id: Seq<char>, rest: Seq<char>) -> bool {
    &&& id.len() > 0
    &&& forall|k: int| 0 <= k < id.len() ==> !closes_id(#[trigger] id[k])
    &&& (rest.len() == 0 || closes_id(rest[0]))
}

proof fn lemma_id_end(id: Seq<char>, rest: Seq<char>, i: int)
    requires
        whole_id(id, rest),
        0 <= i <= id.len(),
    ensures
        reference_end_from(id + rest, i) == id.len(),
    decreases id.len() - i,
{
    let h = id + rest;
    if i < id.len() {
        assert(h[i] == id[i]);
        assert(!closes_id(id[i]));
        lemma_id_end(id, rest, i + 1);
    } else if rest.len() > 0 {
        assert(h[i] == rest[0]);
    }
}

proof fn lemma_fragment(id: Seq<char>, rest: Seq<char>)
    requires
        whole_id(id, rest),
    ensures
        fragment_id(seq!['#'] + id + rest) == seq![id],
{
    let v = seq!['#'] + id + rest;
    assert(v.skip(1) =~= id + rest);
    lemma_id_end(id, rest, 0);
    assert((id + rest).take(id.len() as int) =~= id);
}

/// A value that starts with `#id` refers to `id`, where the id runs up to the first `)`,
/// quote, space, tab, line feed, carriage return or `;`.
pub proof fn law_fragment_reference_names_id(id: Seq<char>, rest: Seq<char>)
    requires
        whole_id(id, rest),
    ensures
        ids_in_value(seq!['#'] + id + rest).contains(id),
{
    let v = seq!['#'] + id + rest;
    lemma_fragment(id, rest);
    let u = url_ids(v);
    assert((u + seq![id])[u.len() as int] == id);
}

proof fn lemma_url_from_first(s: Seq<char>, p0: int, p: int)
    requires
        0 <= p0 <= p,
        occurs_at(s, url_open(), p),
    ensures
        url_from(s, p0) matches Some(m) && p0 <= m <= p && occurs_at(s, url_open(), m),
    decreases p - p0,
{
    if !occurs_at(s, url_open(), p0) {
        lemma_url_from_first(s, p0 + 1, p);
    }
}

/// Two `url(` never overlap.
proof fn lemma_url_apart(s: Seq<char>, m: int, p: int)
    requires
        m < p,
        occurs_at(s, url_open(), m),
        occurs_at(s, url_open(), p),
    ensures
        m + 4 <= p,
{
    if p < m + 4 {
        assert(s[p] == s.subrange(p, p + 4)[0]);
        assert(s[p] == s.subrange(m, m + 4)[p - m]);
    }
}

/// The scan for `url(` reaches every one of them.
proof fn lemma_url_visited(v: Seq<char>, p0: int, p: int, x: Seq<char>)
    requires
        0 <= p0 <= p,
        occurs_at(ascii_lower(v), url_open(), p),
        url_target(v.skip(p + 4)).contains(x),
    ensures
        url_ids_from(v, p0).contains(x),
    decreases p - p0,
{
    let lv = ascii_lower(v);
    lemma_url_from_first(lv, p0, p);
    if let Some(m) = url_from(lv, p0) {
        let t = url_target(v.skip(m + 4));
        let r = url_ids_from(v, m + 4);
        assert(url_ids_from(v, p0) == t + r);
        if m == p {
            let k = choose|k: int| 0 <= k < t.len() && t[k] == x;
            assert((t + r)[k] == x);
        } else {
            lemma_url_apart(lv, m, p);
            lemma_url_visited(v, m + 4, p, x);
            let k = choose|k: int| 0 <= k < r.len() && r[k] == x;
            assert((t + r)[t.len() + k] == x);
        }
    }
}

/// Wherever a value holds `url(` (in any ASCII letter case) followed by `#id`, the `#`
/// possibly behind a quote, the value refers to `id`, where the id runs up to the first
/// `)`, quote, space, tab, line feed, carriage return or `;`.
pub proof fn law_url_reference_names_id(
    pre: Seq<char>,
    u: Seq<char>,
    quote: Seq<char>,
    id: Seq<char>,
    rest: Seq<char>,
)
    requires
        u.len() == 4,
        ascii_lower(u) == url_open(),
        quote == Seq::<char>::empty() || quote == seq!['\''] || quote == seq!['"'],
        whole_id(id, rest),
    ensures
        ids_in_value(pre + u + quote + seq!['#'] + id + rest).contains(id),
{
    let frag = seq!['#'] + id + rest;
    let after = quote + frag;
    let v = pre + u + after;
    let p = pre.len() as int;
    let lv = ascii_lower(v);
    assert(lv.subrange(p, p + 4) =~= url_open()) by {
        assert forall|k: int| 0 <= k < 4 implies #[trigger] lv.subrange(p, p + 4)[k] == url_open()[k] by {
            assert(v[p + k] == u[k]);
            assert(ascii_lower(u)[k] == url_open()[k]);
        }
    }
    assert(occurs_at(lv, url_open(), p));
    assert(v.skip(p + 4) =~= after);
    assert(trim_start(after) == after) by {
        assert(after[0] == '#' || after[0] == '\'' || after[0] == '"');
    }
    if quote.len() > 0 {
        assert(after.skip(1) =~= frag);
    } else {
        assert(after =~= frag);
    }
    lemma_fragment(id, rest);
    assert(url_target(after) == seq![id]);
    assert(url_target(after)[0] == id);
    lemma_url_visited(v, 0, p, id);
    let ui = url_ids(v);
    let k = choose|k: int| 0 <= k < ui.len() && ui[k] == id;
    assert(pre + u + quote + seq!['#'] + id + rest =~= v);
    assert(ids_in_value(v)[k] == id);
}

/// The `id` values of an element and of its descendants, in document order.
pub open spec fn tree_ids(e: SElement) -> Seq<Seq<char>>
    decreases e,
{
    (match attr_get(e.attributes, "id"@) {
        Some(v) => seq![v],
        None => Seq::empty(),
    }) + nodes_tree_ids(e.children)
}

pub open spec fn nodes_tree_ids(s: Seq<SNode>) -> Seq<Seq<char>>
    decreases s,
{
    if s.len() == 0 {
        Seq::empty()
    } else {
        nodes_tree_ids(s.drop_last()) + node_tree_ids(s.last())
    }
}

pub open spec fn node_tree_ids(n: SNode) -> Seq<Seq<char>>
    decreases n,
{
    match n {
        SNode::Element(c) => tree_ids(c),
        _ => Seq::empty(),
    }
}

/// The texts of `ids` that are among `used`, in order.
pub open spec fn kept_ids(ids: Seq<Seq<char>>, used: Seq<Seq<char>>) -> Seq<Seq<char>>
    decreases ids.len(),
{
    if ids.len() == 0 {
        ids
    } else if used.contains(ids.last()) {
        kept_ids(ids.drop_last(), used).push(ids.last())
    } else {
        kept_ids(ids.drop_last(), used)
    }
}

proof fn lemma_kept_concat(a: Seq<Seq<char>>, b: Seq<Seq<char>>, used: Seq<Seq<char>>)
    ensures
        kept_ids(a + b, used) == kept_ids(a, used) + kept_ids(b, used),
    decreases b.len(),
{
    if b.len() == 0 {
        assert(a + b =~= a);
        assert(kept_ids(a, used) + kept_ids(b, used) =~= kept_ids(a, used));
    } else {
        lemma_kept_concat(a, b.drop_last(), used);
        assert((a + b).drop_last() =~= a + b.drop_last());
        assert((a + b).last() == b.last());
        assert((kept_ids(a, used) + kept_ids(b.drop_last(), used)).push(b.last()) =~= kept_ids(
            a,
            used,
        ) + kept_ids(b.drop_last(), used).push(b.last()));
    }
}

proof fn lemma_strip_ids_element(e: SElement, used: Seq<Seq<char>>)
    ensures
        tree_ids(map_elements(e, strip_ids_fn(used))) == kept_ids(tree_ids(e), used),
    decreases e,
{
    let f = strip_ids_fn(used);
    lemma_strip_ids_nodes(e.children, used);
    law_id_kept_iff_referenced(used, e.attributes, "id"@);
    let r = map_elements(e, f);
    assert(r.attributes == crate::cleanup::strip_id_attrs(used, e.attributes));
    let own = match attr_get(e.attributes, "id"@) {
        Some(v) => seq![v],
        None => Seq::<Seq<char>>::empty(),
    };
    lemma_kept_concat(own, nodes_tree_ids(e.children), used);
    if let Some(v) = attr_get(e.attributes, "id"@) {
        assert(own.drop_last() =~= Seq::<Seq<char>>::empty());
        assert(kept_ids(Seq::<Seq<char>>::empty(), used) == Seq::<Seq<char>>::empty());
        if used.contains(v) {
            assert(kept_ids(own, used) =~= seq![v]);
        } else {
            assert(kept_ids(own, used) =~= Seq::<Seq<char>>::empty());
        }
    }
}

proof fn lemma_strip_ids_nodes(s: Seq<SNode>, used: Seq<Seq<char>>)
    ensures
        nodes_tree_ids(map_nodes(s, strip_ids_fn(used))) == kept_ids(nodes_tree_ids(s), used),
    decreases s,
{
    let f = strip_ids_fn(used);
    if s.len() > 0 {
        lemma_strip_ids_nodes(s.drop_last(), used);
        lemma_strip_ids_node(s.last(), used);
        let m = map_nodes(s, f);
        assert(m.drop_last() =~= map_nodes(s.drop_last(), f));
        assert(m.last() == map_node(s.last(), f));
        lemma_kept_concat(nodes_tree_ids(s.drop_last()), node_tree_ids(s.last()), used);
    }
}

proof fn lemma_strip_ids_node(n: SNode, used: Seq<Seq<char>>)
    ensures
        node_tree_ids(map_node(n, strip_ids_fn(used))) == kept_ids(node_tree_ids(n), used),
    decreases n,
{
    if let SNode::Element(c) = n {
        lemma_strip_ids_element(c, used);
    }
}

/// Removing unused ids keeps, in document order, exactly the ids that some reference of
/// the tree names: every referenced id stays on its element, and no other id stays.
pub proof fn law_referenced_ids_stay(e: SElement)
    ensures
        tree_ids(strip_unused_ids_spec(e)) == kept_ids(tree_ids(e), element_ids(e)),
{
    lemma_strip_ids_element(e, element_ids(e));
}

/// Whether every reference in the attribute values of a node, seen without its
/// descendants, names an id among `used`.
pub open spec fn references_among(used: Seq<Seq<char>>) -> spec_fn(SNode) -> bool {
    |h: SNode|
        h matches SNode::Element(c) ==> forall|k: int, x: Seq<char>|
            0 <= k < c.attributes.len() && #[trigger] ids_in_value(c.attributes[k].1).contains(x)
                ==> used.contains(x)
}

proof fn lemma_attr_ids_has(attrs: Seq<(Seq<char>, Seq<char>)>, k: int, x: Seq<char>)
    requires
        0 <= k < attrs.len(),
        ids_in_value(attrs[k].1).contains(x),
    ensures
        attr_ids(attrs).contains(x),
    decreases attrs.len(),
{
    let front = attrs.drop_last();
    let last = ids_in_value(attrs.last().1);
    assert(attr_ids(attrs) == attr_ids(front) + last);
    if k < front.len() {
        assert(front[k] == attrs[k]);
        lemma_attr_ids_has(front, k, x);
        let j = choose|j: int| 0 <= j < attr_ids(front).len() && attr_ids(front)[j] == x;
        assert((attr_ids(front) + last)[j] == x);
    } else {
        let j = choose|j: int| 0 <= j < last.len() && last[j] == x;
        assert((attr_ids(front) + last)[attr_ids(front).len() + j] == x);
    }
}

proof fn lemma_within_concat(a: Seq<Seq<char>>, b: Seq<Seq<char>>, used: Seq<Seq<char>>)
    requires
        forall|x: Seq<char>| (a + b).contains(x) ==> used.contains(x),
    ensures
        forall|x: Seq<char>| a.contains(x) ==> used.contains(x),
        forall|x: Seq<char>| b.contains(x) ==> used.contains(x),
{
    assert forall|x: Seq<char>| a.contains(x) implies used.contains(x) by {
        let j = choose|j: int| 0 <= j < a.len() && a[j] == x;
        assert((a + b)[j] == x);
    }
    assert forall|x: Seq<char>| b.contains(x) implies used.contains(x) by {
        let j = choose|j: int| 0 <= j < b.len() && b[j] == x;
        assert((a + b)[a.len() + j] == x);
    }
}

proof fn lemma_collected_element(e: SElement, used: Seq<Seq<char>>)
    requires
        forall|x: Seq<char>| element_ids(e).contains(x) ==> used.contains(x),
    ensures
        every_node(SNode::Element(e), references_among(used)),
    decreases e,
{
    lemma_within_concat(own_ids(e), nodes_ids(e.children), used);
    let extra = if e.name == "style"@ {
        crate::references::style_text_ids(e.children)
    } else {
        Seq::empty()
    };
    lemma_within_concat(attr_ids(e.attributes), extra, used);
    assert forall|k: int, x: Seq<char>|
        0 <= k < e.attributes.len() && #[trigger] ids_in_value(e.attributes[k].1).contains(x)
        implies used.contains(x) by {
        lemma_attr_ids_has(e.attributes, k, x);
    }
    assert(head(SNode::Element(e)) == SNode::Element(with_children(e, Seq::empty())));
    assert((references_among(used))(head(SNode::Element(e))));
    lemma_collected_nodes(e.children, used);
}

proof fn lemma_collected_nodes(s: Seq<SNode>, used: Seq<Seq<char>>)
    requires
        forall|x: Seq<char>| nodes_ids(s).contains(x) ==> used.contains(x),
    ensures
        every_node_in(s, references_among(used)),
    decreases s,
{
    if s.len() > 0 {
        lemma_within_concat(nodes_ids(s.drop_last()), node_ids(s.last()), used);
        lemma_collected_nodes(s.drop_last(), used);
        lemma_collected_node(s.last(), used);
        let q = references_among(used);
        assert forall|i: int| 0 <= i < s.len() implies every_node(#[trigger] s[i], q) by {
            if i < s.len() - 1 {
                assert(s[i] == s.drop_last()[i]);
            }
        }
    }
}

proof fn lemma_collected_node(n: SNode, used: Seq<Seq<char>>)
    requires
        forall|x: Seq<char>| node_ids(n).contains(x) ==> used.contains(x),
    ensures
        every_node(n, references_among(used)),
    decreases n,
{
    match n {
        SNode::Element(c) => {
            lemma_collected_element(c, used);
        },
        _ => {},
    }
}

/// Every id that a reference in an attribute value names, on any element of the tree, is
/// among the ids that the removal of unused ids keeps.
pub proof fn law_references_are_collected(e: SElement)
    ensures
        every_node(SNode::Element(e), references_among(element_ids(e))),
{
    lemma_collected_element(e, element_ids(e));
}

/* ------------------------------------------------------------------ */
/*  Declarations keep their values as written                         */
/* ------------------------------------------------------------------ */

proof fn lemma_subrange_in(s: Seq<char>, a: int, b: int)
    requires
        0 <= a <= b <= s.len(),
    ensures
        contains_text(s, s.subrange(a, b)),
{
    assert(occurs_at(s, s.subrange(a, b), a));
}

proof fn lemma_in_trans(a: Seq<char>, b: Seq<char>, c: Seq<char>)
    requires
        contains_text(b, a),
        contains_text(c, b),
    ensures
        contains_text(c, a),
{
    let i = choose|i: int| occurs_at(b, a, i);
    let j = choose|j: int| occurs_at(c, b, j);
    assert(c.subrange(j + i, j + i + a.len()) =~= b.subrange(i, i + a.len()));
    assert(occurs_at(c, a, j + i));
}

proof fn lemma_trim_start_in(x: Seq<char>)
    ensures
        contains_text(x, trim_start(x)),
    decreases x.len(),
{
    if x.len() > 0 && is_ws(x[0]) {
        let y = x.subrange(1, x.len() as int);
        lemma_trim_start_in(y);
        lemma_subrange_in(x, 1, x.len() as int);
        lemma_in_trans(trim_start(y), y, x);
    } else {
        assert(x.subrange(0, x.len() as int) =~= x);
        lemma_subrange_in(x, 0, x.len() as int);
    }
}

proof fn lemma_trim_end_in(x: Seq<char>)
    ensures
        contains_text(x, trim_end(x)),
    decreases x.len(),
{
    if x.len() > 0 && is_ws(x.last()) {
        let y = x.drop_last();
        lemma_trim_end_in(y);
        assert(y =~= x.subrange(0, x.len() - 1));
        lemma_subrange_in(x, 0, x.len() - 1);
        lemma_in_trans(trim_end(y), y, x);
    } else {
        assert(x.subrange(0, x.len() as int) =~= x);
        lemma_subrange_in(x, 0, x.len() as int);
    }
}

/// A trimmed text is part of the text.
proof fn lemma_trim_in(x: Seq<char>)
    ensures
        contains_text(x, trim(x)),
{
    lemma_trim_start_in(x);
    lemma_trim_end_in(trim_start(x));
    lemma_in_trans(trim(x), trim_start(x), x);
}

/// Each part of a successful split is part of the text.
proof fn lemma_split_parts_in(
    s: Seq<char>,
    delim: char,
    i: int,
    start: int,
    quote: Option<char>,
    escaped: bool,
    depth: nat,
)
    requires
        0 <= start <= i <= s.len(),
    ensures
        split_from(s, delim, i, start, quote, escaped, depth) matches Ok(ps) ==> forall|m: int|
            0 <= m < ps.len() ==> contains_text(s, #[trigger] ps[m]),
    decreases s.len() - i,
{
    if i >= s.len() {
        lemma_subrange_in(s, start, s.len() as int);
    } else {
        let c = s[i];
        match quote {
            Some(q) => {
                let (nq, ne) = crate::css::quoted_step(q, escaped, c);
                lemma_split_parts_in(s, delim, i + 1, start, nq, ne, depth);
            },
            None => {
                if c == '\'' || c == '"' {
                    lemma_split_parts_in(s, delim, i + 1, start, Some(c), escaped, depth);
                } else if c == '(' {
                    lemma_split_parts_in(s, delim, i + 1, start, None, escaped, depth + 1);
                } else if c == ')' {
                    if depth > 0 {
                        lemma_split_parts_in(s, delim, i + 1, start, None, escaped, (depth - 1) as nat);
                    }
                } else if c == '{' || c == '}' {
                } else if c == delim && depth == 0 {
                    lemma_subrange_in(s, start, i);
                    lemma_split_parts_in(s, delim, i + 1, i + 1, None, escaped, depth);
                    if let Ok(rest) = split_from(s, delim, i + 1, i + 1, None, escaped, depth) {
                        let ps = seq![s.subrange(start, i)] + rest;
                        assert forall|m: int| 0 <= m < ps.len() implies contains_text(
                            s,
                            #[trigger] ps[m],
                        ) by {
                            if m > 0 {
                                assert(ps[m] == rest[m - 1]);
                            }
                        }
                    }
                } else {
                    lemma_split_parts_in(s, delim, i + 1, start, None, escaped, depth);
                }
            },
        }
    }
}

/// What one part declares: a value that is part of the text, and, in an inline style, a
/// property that is part of the text too.
proof fn lemma_declaration_in(part: Seq<char>, ctx: CssDeclarationContext)
    ensures
        declaration_of(part, ctx) matches Ok(Some(d)) ==> contains_text(part, d.1) && (ctx
            == CssDeclarationContext::InlineStyle ==> contains_text(part, d.0)),
{
    let t = trim(part);
    lemma_trim_in(part);
    lemma_split_first(t, ':', 0, 0, None, false, 0);
    if let Ok(Some(colon)) = find_top_level_spec(t, ':') {
        if let Ok(ps) = split_top_level(t, ':') {
            assert(ps.len() != 1);
            assert(0 <= colon < t.len());
            let head = t.take(colon);
            let tail = t.skip(colon + 1);
            assert(head =~= t.subrange(0, colon));
            assert(tail =~= t.subrange(colon + 1, t.len() as int));
            lemma_subrange_in(t, 0, colon);
            lemma_subrange_in(t, colon + 1, t.len() as int);
            lemma_trim_in(head);
            lemma_trim_in(tail);
            lemma_in_trans(trim(head), head, t);
            lemma_in_trans(trim(head), t, part);
            lemma_in_trans(trim(tail), tail, t);
            lemma_in_trans(trim(tail), t, part);
        }
    }
}

proof fn lemma_declarations_in(
    s: Seq<char>,
    parts: Seq<Seq<char>>,
    k: int,
    ctx: CssDeclarationContext,
)
    requires
        0 <= k,
        forall|m: int| 0 <= m < parts.len() ==> contains_text(s, #[trigger] parts[m]),
    ensures
        declarations_from(parts, k, ctx) matches Ok(ds) ==> forall|m: int|
            0 <= m < ds.len() ==> contains_text(s, (#[trigger] ds[m]).1) && (ctx
                == CssDeclarationContext::InlineStyle ==> contains_text(s, ds[m].0)),
    decreases parts.len() - k,
{
    if k < parts.len() {
        lemma_declarations_in(s, parts, k + 1, ctx);
        lemma_declaration_in(parts[k], ctx);
        assert(contains_text(s, parts[k]));
        if let Ok(Some(d)) = declaration_of(parts[k], ctx) {
            lemma_in_trans(d.1, parts[k], s);
            if ctx == CssDeclarationContext::InlineStyle {
                lemma_in_trans(d.0, parts[k], s);
            }
            if let Ok(rest) = declarations_from(parts, k + 1, ctx) {
                let ds = seq![d] + rest;
                assert forall|m: int| 0 <= m < ds.len() implies contains_text(
                    s,
                    (#[trigger] ds[m]).1,
                ) && (ctx == CssDeclarationContext::InlineStyle ==> contains_text(s, ds[m].0)) by {
                    if m > 0 {
                        assert(ds[m] == rest[m - 1]);
                    }
                }
            }
        }
    }
}

/// Every declaration read from a declaration block keeps its value as written: the value
/// is a piece of the block's text, letter case and all; in an inline style the property
/// is one too.
pub proof fn law_declaration_values_as_written(s: Seq<char>, ctx: CssDeclarationContext)
    ensures
        parse_declarations_spec(s, ctx) matches Ok(ds) ==> forall|m: int|
            0 <= m < ds.len() ==> contains_text(s, (#[trigger] ds[m]).1) && (ctx
                == CssDeclarationContext::InlineStyle ==> contains_text(s, ds[m].0)),
{
    lemma_split_parts_in(s, ';', 0, 0, None, false, 0);
    if let Ok(parts) = split_top_level(s, ';') {
        lemma_declarations_in(s, parts, 0, ctx);
    }
}

proof fn lemma_stylesheet_in(input: Seq<char>, remaining: Seq<char>)
    requires
        contains_text(input, remaining),
    ensures
        stylesheet_from(remaining) matches Ok(rules) ==> forall|r: int, m: int|
            0 <= r < rules.len() && 0 <= m < rules[r].1.len() ==> contains_text(
                input,
                (#[trigger] rules[r].1[m]).1,
            ),
    decreases remaining.len(),
{
    if remaining.len() > 0 {
        lemma_index_of(remaining, '{');
        if let Some(open) = index_of(remaining, '{') {
            let after_open = remaining.skip(open + 1);
            lemma_index_of(after_open, '}');
            if let Some(close) = index_of(after_open, '}') {
                let text = after_open.take(close);
                assert(text =~= remaining.subrange(open + 1, open + 1 + close));
                lemma_subrange_in(remaining, open + 1, open + 1 + close);
                lemma_in_trans(text, remaining, input);
                law_declaration_values_as_written(text, CssDeclarationContext::ComponentStylesheet);
                let next = after_open.skip(close + 1);
                assert(next =~= remaining.subrange(open + 1 + close + 1, remaining.len() as int));
                lemma_subrange_in(remaining, open + close + 2, remaining.len() as int);
                lemma_trim_in(next);
                lemma_in_trans(trim(next), next, remaining);
                lemma_in_trans(trim(next), remaining, input);
                lemma_trim_len(next);
                lemma_stylesheet_in(input, trim(next));
                if let Ok(rules) = stylesheet_from(remaining) {
                    if let Ok(ds) = parse_declarations_spec(
                        text,
                        CssDeclarationContext::ComponentStylesheet,
                    ) {
                        assert forall|m: int| 0 <= m < ds.len() implies contains_text(
                            input,
                            (#[trigger] ds[m]).1,
                        ) by {
                            lemma_in_trans(ds[m].1, text, input);
                        }
                        if let Ok(rest) = stylesheet_from(trim(next)) {
                            assert forall|r: int, m: int|
                                0 <= r < rules.len() && 0 <= m < rules[r].1.len() implies contains_text(
                                input,
                                (#[trigger] rules[r].1[m]).1,
                            ) by {
                                if r > 0 {
                                    assert(rules[r] == rest[r - 1]);
                                } else {
                                    assert(rules[r].1 == ds);
                                }
                            }
                        }
                    }
                }
            }
        }
    }
}

/// Every declaration of a component's style sheet keeps its value as written: the value is
/// a piece of the style sheet's text, letter case and all, so an element that a rule
/// selects gets the value as the sheet spells it.
pub proof fn law_stylesheet_values_as_written(input: Seq<char>)
    ensures
        stylesheet_spec(input) matches Ok(rules) ==> forall|r: int, m: int|
            0 <= r < rules.len() && 0 <= m < rules[r].1.len() ==> contains_text(
                input,
                (#[trigger] rules[r].1[m]).1,
            ),
{
    lemma_trim_in(input);
    lemma_stylesheet_in(input, trim(input));
}

/* ------------------------------------------------------------------ */
/*  Metadata                                                          */
/* ------------------------------------------------------------------ */

/// Whether a node is an element named `title`, `desc` or `metadata`.
pub open spec fn is_title_desc_or_metadata(n: SNode) -> bool {
    n matches SNode::Element(c) && (c.name == "title"@ || c.name == "desc"@ || c.name
        == "metadata"@)
}

/// Metadata removal removes exactly the elements named `title`, `desc` or `metadata`, at
/// every depth: it is the pruning of those elements and of nothing else.
pub proof fn law_metadata_removal_is_exact(e: SElement)
    ensures
        prune(e, metadata_fn()) == prune(e, |n: SNode| is_title_desc_or_metadata(n)),
{
    assert(metadata_fn() =~= |n: SNode| is_title_desc_or_metadata(n));
}

/// Metadata removal keeps, in place among the other kept nodes, every node that is not an
/// element named `title`, `desc` or `metadata`, with its own subtree pruned the same way;
/// and keeps no node that is.
pub proof fn law_metadata_removal_keeps_others(s: Seq<SNode>, i: int)
    requires
        0 <= i < s.len(),
    ensures
        !is_title_desc_or_metadata(s[i]) ==> prune_nodes(s, metadata_fn()).contains(
            prune_node(s[i], metadata_fn()),
        ),
        forall|j: int|
            0 <= j < prune_nodes(s, metadata_fn()).len() ==> !is_title_desc_or_metadata(
                #[trigger] prune_nodes(s, metadata_fn())[j],
            ),
    decreases s.len(),
{
    let d = metadata_fn();
    let front = s.drop_last();
    let rest = prune_nodes(front, d);
    if i < front.len() {
        law_metadata_removal_keeps_others(front, i);
        assert(front[i] == s[i]);
    } else if front.len() > 0 {
        law_metadata_removal_keeps_others(front, 0);
    }
    let last = s.last();
    let r = prune_nodes(s, d);
    if !d(last) {
        assert(r == rest.push(prune_node(last, d)));
        if i == s.len() - 1 && !is_title_desc_or_metadata(s[i]) {
            assert(r[rest.len() as int] == prune_node(s[i], d));
        }
        if i < front.len() && !is_title_desc_or_metadata(s[i]) {
            let k = choose|k: int| 0 <= k < rest.len() && rest[k] == prune_node(s[i], d);
            assert(r[k] == rest[k]);
        }
        assert(!is_title_desc_or_metadata(prune_node(last, d))) by {
            if let SNode::Element(c) = last {
                assert(prune_node(last, d) == SNode::Element(prune(c, d)));
            }
        }
        assert forall|j: int| 0 <= j < r.len() implies !is_title_desc_or_metadata(#[trigger] r[j]) by {
            if j < rest.len() {
                assert(r[j] == rest[j]);
            }
        }
    } else {
        assert(is_title_desc_or_metadata(last));
    }
}

} // verus!
