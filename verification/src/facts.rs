use vstd::prelude::*;
use crate::cleanup::{
    color_attr, colors_attrs, colors_element, colors_nodes, drop_empty_groups, elem_size,
    groups_node, groups_nodes, groups_pass, hidden_fn, hidden_in_style, is_decimal_attribute,
    is_hidden_spec, lemma_groups_pass_size, lookup_or_same, map_elements, map_node, map_nodes,
    prune, prune_node, prune_nodes, removable_node, remove_empty_groups_spec, round_attrs, round_fn,
    strip_ids_fn, style_decl_hides, ws_element, ws_nodes,
};
use crate::queries::{
    decimal_texts, decl_opacity, kind_texts, node_texts, nodes_texts, opacity_decls, opt_texts,
    tree_texts, QueryKind,
};
use crate::references::strip_unused_ids_spec;
use crate::stripper::{finish_spec, prepare_spec, queries_spec, strip_spec, StripConfig};
use crate::text::{index_of, split_on, trim};
use crate::tree::{attr_get, attr_remove, with_children, SElement, SNode};
use crate::xml::xml_parse_outcome;

verus! {

/* ------------------------------------------------------------------ */
/*  What the numeric facts matter for                                 */
/* ------------------------------------------------------------------ */

/// Whether two lists of zero texts agree on each of `texts`.
pub open spec fn zero_agree(z1: Seq<Seq<char>>, z2: Seq<Seq<char>>, texts: Seq<Seq<char>>) -> bool {
    forall|t: Seq<char>| #[trigger] texts.contains(t) ==> (z1.contains(t) == z2.contains(t))
}

proof fn lemma_agree_left(z1: Seq<Seq<char>>, z2: Seq<Seq<char>>, a: Seq<Seq<char>>, b: Seq<Seq<char>>)
    requires
        zero_agree(z1, z2, a + b),
    ensures
        zero_agree(z1, z2, a),
        zero_agree(z1, z2, b),
{
    assert forall|t: Seq<char>| #[trigger] a.contains(t) implies (z1.contains(t) == z2.contains(t)) by {
        let i = choose|i: int| 0 <= i < a.len() && a[i] == t;
        assert((a + b)[i] == t);
        assert((a + b).contains(t));
    }
    assert forall|t: Seq<char>| #[trigger] b.contains(t) implies (z1.contains(t) == z2.contains(t)) by {
        let i = choose|i: int| 0 <= i < b.len() && b[i] == t;
        assert((a + b)[a.len() + i] == t);
        assert((a + b).contains(t));
    }
}

proof fn lemma_decl_agrees(d: Seq<char>, z1: Seq<Seq<char>>, z2: Seq<Seq<char>>)
    requires
        zero_agree(z1, z2, opt_texts(decl_opacity(d))),
    ensures
        style_decl_hides(d, z1) == style_decl_hides(d, z2),
{
    if d.len() > 0 {
        if let Some(i) = index_of(d, ':') {
            let v = trim(d.skip(i + 1));
            if trim(d.take(i)) == "opacity"@ {
                assert(opt_texts(decl_opacity(d))[0] == v);
                assert(opt_texts(decl_opacity(d)).contains(v));
            }
        }
    }
}

proof fn lemma_decls_agree(parts: Seq<Seq<char>>, z1: Seq<Seq<char>>, z2: Seq<Seq<char>>, k: int)
    requires
        zero_agree(z1, z2, opacity_decls(parts)),
        0 <= k < parts.len(),
    ensures
        style_decl_hides(trim(parts[k]), z1) == style_decl_hides(trim(parts[k]), z2),
    decreases parts.len(),
{
    lemma_agree_left(
        z1,
        z2,
        opacity_decls(parts.drop_last()),
        opt_texts(decl_opacity(trim(parts.last()))),
    );
    if k == parts.len() - 1 {
        lemma_decl_agrees(trim(parts.last()), z1, z2);
    } else {
        lemma_decls_agree(parts.drop_last(), z1, z2, k);
        assert(parts.drop_last()[k] == parts[k]);
    }
}

proof fn lemma_hidden_agrees(attrs: Seq<(Seq<char>, Seq<char>)>, z1: Seq<Seq<char>>, z2: Seq<Seq<char>>)
    requires
        zero_agree(z1, z2, kind_texts(QueryKind::Opacity, attrs)),
    ensures
        is_hidden_spec(attrs, z1) == is_hidden_spec(attrs, z2),
{
    let own = opt_texts(attr_get(attrs, "opacity"@));
    let styled = match attr_get(attrs, "style"@) {
        Some(s) => opacity_decls(split_on(s, ';')),
        None => Seq::empty(),
    };
    lemma_agree_left(z1, z2, own, styled);
    if let Some(v) = attr_get(attrs, "opacity"@) {
        assert(own[0] == v);
        assert(own.contains(v));
    }
    if let Some(s) = attr_get(attrs, "style"@) {
        let ps = split_on(s, ';');
        assert forall|k: int| 0 <= k < ps.len() implies style_decl_hides(trim(#[trigger] ps[k]), z1)
            == style_decl_hides(trim(ps[k]), z2) by {
            lemma_decls_agree(ps, z1, z2, k);
        }
        assert(hidden_in_style(s, z1) == hidden_in_style(s, z2));
    }
}

proof fn lemma_prune_hidden_nodes(s: Seq<SNode>, z1: Seq<Seq<char>>, z2: Seq<Seq<char>>)
    requires
        zero_agree(z1, z2, nodes_texts(s, QueryKind::Opacity)),
    ensures
        prune_nodes(s, hidden_fn(z1)) == prune_nodes(s, hidden_fn(z2)),
    decreases s,
{
    if s.len() > 0 {
        lemma_agree_left(
            z1,
            z2,
            nodes_texts(s.drop_last(), QueryKind::Opacity),
            node_texts(s.last(), QueryKind::Opacity),
        );
        lemma_prune_hidden_nodes(s.drop_last(), z1, z2);
        lemma_prune_hidden_node(s.last(), z1, z2);
        if let SNode::Element(c) = s.last() {
            lemma_agree_left(
                z1,
                z2,
                kind_texts(QueryKind::Opacity, c.attributes),
                nodes_texts(c.children, QueryKind::Opacity),
            );
            lemma_hidden_agrees(c.attributes, z1, z2);
        }
    }
}

proof fn lemma_prune_hidden_node(n: SNode, z1: Seq<Seq<char>>, z2: Seq<Seq<char>>)
    requires
        zero_agree(z1, z2, node_texts(n, QueryKind::Opacity)),
    ensures
        prune_node(n, hidden_fn(z1)) == prune_node(n, hidden_fn(z2)),
    decreases n,
{
    if let SNode::Element(c) = n {
        lemma_agree_left(
            z1,
            z2,
            kind_texts(QueryKind::Opacity, c.attributes),
            nodes_texts(c.children, QueryKind::Opacity),
        );
        lemma_prune_hidden_nodes(c.children, z1, z2);
    }
}

/// Which texts read as zero matters only for the opacity texts that the queries list:
/// two lists that agree on each of them give the same hidden-element removal.
pub proof fn law_zero_facts_matter_only_on_queries(
    e: SElement,
    z1: Seq<Seq<char>>,
    z2: Seq<Seq<char>>,
)
    requires
        zero_agree(z1, z2, tree_texts(e, QueryKind::Opacity)),
    ensures
        prune(e, hidden_fn(z1)) == prune(e, hidden_fn(z2)),
{
    lemma_agree_left(
        z1,
        z2,
        kind_texts(QueryKind::Opacity, e.attributes),
        nodes_texts(e.children, QueryKind::Opacity),
    );
    lemma_prune_hidden_nodes(e.children, z1, z2);
}

proof fn lemma_color_not_decimal(n: Seq<char>)
    ensures
        crate::cleanup::is_color_attribute(n) ==> !crate::cleanup::is_decimal_attribute(n),
{
    reveal_strlit("d");
    reveal_strlit("points");
    reveal_strlit("viewBox");
    reveal_strlit("x");
    reveal_strlit("y");
    reveal_strlit("width");
    reveal_strlit("height");
    reveal_strlit("rx");
    reveal_strlit("ry");
    reveal_strlit("cx");
    reveal_strlit("cy");
    reveal_strlit("r");
    reveal_strlit("x1");
    reveal_strlit("y1");
    reveal_strlit("x2");
    reveal_strlit("y2");
    reveal_strlit("transform");
    reveal_strlit("offset");
    reveal_strlit("stroke-width");
    reveal_strlit("stroke-dasharray");
    reveal_strlit("stroke-dashoffset");
    reveal_strlit("opacity");
    reveal_strlit("stop-opacity");
    reveal_strlit("fill");
    reveal_strlit("stroke");
    reveal_strlit("stop-color");
    reveal_strlit("color");
    reveal_strlit("background-color");
    if crate::cleanup::is_color_attribute(n) {
        assert((n.len() == 4 && n[0] == 'f') || (n.len() == 6 && n[0] == 's') || (n.len() == 10
            && n[0] == 's') || (n.len() == 5 && n[0] == 'c') || (n.len() == 16 && n[0] == 'b'));
    }
}

/// Whether every text of `x` is among `y`.
pub open spec fn within(x: Seq<Seq<char>>, y: Seq<Seq<char>>) -> bool {
    forall|v: Seq<char>| #[trigger] x.contains(v) ==> y.contains(v)
}

proof fn lemma_within_concat(a1: Seq<Seq<char>>, a2: Seq<Seq<char>>, b1: Seq<Seq<char>>, b2: Seq<Seq<char>>)
    requires
        within(a1, b1),
        within(a2, b2),
    ensures
        within(a1 + a2, b1 + b2),
{
    assert forall|v: Seq<char>| #[trigger] (a1 + a2).contains(v) implies (b1 + b2).contains(v) by {
        let i = choose|i: int| 0 <= i < (a1 + a2).len() && (a1 + a2)[i] == v;
        if i < a1.len() {
            assert(a1[i] == v);
            assert(a1.contains(v));
            let j = choose|j: int| 0 <= j < b1.len() && b1[j] == v;
            assert((b1 + b2)[j] == v);
        } else {
            assert(a2[i - a1.len()] == v);
            assert(a2.contains(v));
            let j = choose|j: int| 0 <= j < b2.len() && b2[j] == v;
            assert((b1 + b2)[b1.len() + j] == v);
        }
    }
}

proof fn lemma_within_parts(a: Seq<Seq<char>>, b: Seq<Seq<char>>)
    ensures
        within(a, a + b),
        within(b, a + b),
{
    assert forall|v: Seq<char>| #[trigger] a.contains(v) implies (a + b).contains(v) by {
        let i = choose|i: int| 0 <= i < a.len() && a[i] == v;
        assert((a + b)[i] == v);
    }
    assert forall|v: Seq<char>| #[trigger] b.contains(v) implies (a + b).contains(v) by {
        let i = choose|i: int| 0 <= i < b.len() && b[i] == v;
        assert((a + b)[a.len() + i] == v);
    }
}

/// Whether two rounding tables give the same value for each of `texts`.
pub open spec fn table_agree(
    t1: Seq<(Seq<char>, Seq<char>)>,
    t2: Seq<(Seq<char>, Seq<char>)>,
    texts: Seq<Seq<char>>,
) -> bool {
    forall|v: Seq<char>| #[trigger] texts.contains(v) ==> lookup_or_same(t1, v) == lookup_or_same(t2, v)
}

proof fn lemma_decimal_push(r: Seq<(Seq<char>, Seq<char>)>, a: (Seq<char>, Seq<char>))
    ensures
        decimal_texts(r.push(a)) == decimal_texts(r) + if is_decimal_attribute(a.0) {
            seq![a.1]
        } else {
            Seq::<Seq<char>>::empty()
        },
{
    assert(r.push(a).drop_last() =~= r);
}

proof fn lemma_decimal_remove(attrs: Seq<(Seq<char>, Seq<char>)>, k: Seq<char>)
    ensures
        within(decimal_texts(attr_remove(attrs, k)), decimal_texts(attrs)),
    decreases attrs.len(),
{
    if attrs.len() > 0 {
        lemma_decimal_remove(attrs.drop_last(), k);
        let extra = if is_decimal_attribute(attrs.last().0) {
            seq![attrs.last().1]
        } else {
            Seq::<Seq<char>>::empty()
        };
        lemma_within_parts(decimal_texts(attrs.drop_last()), extra);
        if attrs.last().0 != k {
            let r = attr_remove(attrs.drop_last(), k);
            lemma_decimal_push(r, attrs.last());
            lemma_within_concat(decimal_texts(r), extra, decimal_texts(attrs.drop_last()), extra);
        }
    }
}

proof fn lemma_decimal_member(attrs: Seq<(Seq<char>, Seq<char>)>, i: int)
    requires
        0 <= i < attrs.len(),
        is_decimal_attribute(attrs[i].0),
    ensures
        decimal_texts(attrs).contains(attrs[i].1),
    decreases attrs.len(),
{
    let extra = if is_decimal_attribute(attrs.last().0) {
        seq![attrs.last().1]
    } else {
        Seq::<Seq<char>>::empty()
    };
    lemma_within_parts(decimal_texts(attrs.drop_last()), extra);
    if i < attrs.len() - 1 {
        lemma_decimal_member(attrs.drop_last(), i);
        assert(attrs.drop_last()[i] == attrs[i]);
    } else {
        assert(extra[0] == attrs[i].1);
        assert(extra.contains(attrs[i].1));
    }
}

proof fn lemma_decimal_colors(attrs: Seq<(Seq<char>, Seq<char>)>)
    ensures
        decimal_texts(colors_attrs(attrs).0) == decimal_texts(attrs),
    decreases attrs.len(),
{
    if attrs.len() > 0 {
        lemma_decimal_colors(attrs.drop_last());
        let r = colors_attrs(attrs.drop_last()).0;
        let a = color_attr(attrs.last()).0;
        lemma_color_not_decimal(attrs.last().0);
        lemma_decimal_push(r, a);
    }
}

proof fn lemma_prune_dec_nodes(s: Seq<SNode>, d: spec_fn(SNode) -> bool)
    ensures
        within(
            nodes_texts(prune_nodes(s, d), QueryKind::Decimal),
            nodes_texts(s, QueryKind::Decimal),
        ),
    decreases s,
{
    if s.len() > 0 {
        lemma_prune_dec_nodes(s.drop_last(), d);
        lemma_prune_dec_node(s.last(), d);
        let rest = prune_nodes(s.drop_last(), d);
        let head = nodes_texts(s.drop_last(), QueryKind::Decimal);
        let tail = node_texts(s.last(), QueryKind::Decimal);
        lemma_within_parts(head, tail);
        if !d(s.last()) {
            let pn = prune_node(s.last(), d);
            assert(rest.push(pn).drop_last() =~= rest);
            lemma_within_concat(
                nodes_texts(rest, QueryKind::Decimal),
                node_texts(pn, QueryKind::Decimal),
                head,
                tail,
            );
        }
    }
}

proof fn lemma_prune_dec_node(n: SNode, d: spec_fn(SNode) -> bool)
    ensures
        within(node_texts(prune_node(n, d), QueryKind::Decimal), node_texts(n, QueryKind::Decimal)),
    decreases n,
{
    if let SNode::Element(c) = n {
        lemma_prune_dec_nodes(c.children, d);
        let own = kind_texts(QueryKind::Decimal, c.attributes);
        lemma_within_concat(
            own,
            nodes_texts(prune_nodes(c.children, d), QueryKind::Decimal),
            own,
            nodes_texts(c.children, QueryKind::Decimal),
        );
    }
}

proof fn lemma_map_dec_nodes(s: Seq<SNode>, f: spec_fn(SElement) -> SElement)
    requires
        forall|x: SElement| #[trigger] within(decimal_texts(f(x).attributes), decimal_texts(x.attributes)),
    ensures
        within(nodes_texts(map_nodes(s, f), QueryKind::Decimal), nodes_texts(s, QueryKind::Decimal)),
    decreases s,
{
    if s.len() > 0 {
        lemma_map_dec_nodes(s.drop_last(), f);
        lemma_map_dec_node(s.last(), f);
        let r = map_nodes(s.drop_last(), f);
        let m = map_node(s.last(), f);
        assert(r.push(m).drop_last() =~= r);
        lemma_within_concat(
            nodes_texts(r, QueryKind::Decimal),
            node_texts(m, QueryKind::Decimal),
            nodes_texts(s.drop_last(), QueryKind::Decimal),
            node_texts(s.last(), QueryKind::Decimal),
        );
    }
}

proof fn lemma_map_dec_node(n: SNode, f: spec_fn(SElement) -> SElement)
    requires
        forall|x: SElement| #[trigger] within(decimal_texts(f(x).attributes), decimal_texts(x.attributes)),
    ensures
        within(node_texts(map_node(n, f), QueryKind::Decimal), node_texts(n, QueryKind::Decimal)),
    decreases n,
{
    if let SNode::Element(c) = n {
        lemma_map_dec_element(c, f);
    }
}

proof fn lemma_map_dec_element(e: SElement, f: spec_fn(SElement) -> SElement)
    requires
        forall|x: SElement| #[trigger] within(decimal_texts(f(x).attributes), decimal_texts(x.attributes)),
    ensures
        within(tree_texts(map_elements(e, f), QueryKind::Decimal), tree_texts(e, QueryKind::Decimal)),
    decreases e,
{
    lemma_map_dec_nodes(e.children, f);
    let x = with_children(e, Seq::empty());
    assert(within(decimal_texts(f(x).attributes), decimal_texts(x.attributes)));
    lemma_within_concat(
        decimal_texts(f(x).attributes),
        nodes_texts(map_nodes(e.children, f), QueryKind::Decimal),
        decimal_texts(e.attributes),
        nodes_texts(e.children, QueryKind::Decimal),
    );
}

proof fn lemma_drop_groups_dec(s: Seq<SNode>)
    ensures
        within(
            nodes_texts(drop_empty_groups(s), QueryKind::Decimal),
            nodes_texts(s, QueryKind::Decimal),
        ),
    decreases s.len(),
{
    if s.len() > 0 {
        lemma_drop_groups_dec(s.drop_last());
        let r = drop_empty_groups(s.drop_last());
        let head = nodes_texts(s.drop_last(), QueryKind::Decimal);
        let tail = node_texts(s.last(), QueryKind::Decimal);
        lemma_within_parts(head, tail);
        if !removable_node(s.last()) {
            assert(r.push(s.last()).drop_last() =~= r);
            lemma_within_concat(nodes_texts(r, QueryKind::Decimal), tail, head, tail);
        }
    }
}

proof fn lemma_groups_nodes_dec(s: Seq<SNode>)
    ensures
        within(
            nodes_texts(groups_nodes(s).0, QueryKind::Decimal),
            nodes_texts(s, QueryKind::Decimal),
        ),
    decreases s,
{
    if s.len() > 0 {
        lemma_groups_nodes_dec(s.drop_last());
        lemma_groups_node_dec(s.last());
        let r = groups_nodes(s.drop_last()).0;
        let n = groups_node(s.last()).0;
        assert(r.push(n).drop_last() =~= r);
        lemma_within_concat(
            nodes_texts(r, QueryKind::Decimal),
            node_texts(n, QueryKind::Decimal),
            nodes_texts(s.drop_last(), QueryKind::Decimal),
            node_texts(s.last(), QueryKind::Decimal),
        );
    }
}

proof fn lemma_groups_node_dec(n: SNode)
    ensures
        within(node_texts(groups_node(n).0, QueryKind::Decimal), node_texts(n, QueryKind::Decimal)),
    decreases n,
{
    if let SNode::Element(c) = n {
        lemma_groups_pass_dec(c);
    }
}

proof fn lemma_groups_pass_dec(e: SElement)
    ensures
        within(tree_texts(groups_pass(e).0, QueryKind::Decimal), tree_texts(e, QueryKind::Decimal)),
    decreases e,
{
    lemma_groups_nodes_dec(e.children);
    let cs = groups_nodes(e.children).0;
    lemma_drop_groups_dec(cs);
    let own = kind_texts(QueryKind::Decimal, e.attributes);
    lemma_within_concat(
        own,
        nodes_texts(drop_empty_groups(cs), QueryKind::Decimal),
        own,
        nodes_texts(e.children, QueryKind::Decimal),
    );
}

proof fn lemma_remove_groups_dec(e: SElement)
    ensures
        within(
            tree_texts(remove_empty_groups_spec(e), QueryKind::Decimal),
            tree_texts(e, QueryKind::Decimal),
        ),
    decreases elem_size(e),
{
    lemma_groups_pass_dec(e);
    if groups_pass(e).1 {
        lemma_groups_pass_size(e);
        lemma_remove_groups_dec(groups_pass(e).0);
    }
}

proof fn lemma_ws_nodes_dec(s: Seq<SNode>, preserve: bool, textual: bool)
    ensures
        within(
            nodes_texts(ws_nodes(s, preserve, textual), QueryKind::Decimal),
            nodes_texts(s, QueryKind::Decimal),
        ),
    decreases s,
{
    if s.len() > 0 {
        lemma_ws_nodes_dec(s.drop_last(), preserve, textual);
        let r = ws_nodes(s.drop_last(), preserve, textual);
        let head = nodes_texts(s.drop_last(), QueryKind::Decimal);
        let tail = node_texts(s.last(), QueryKind::Decimal);
        lemma_within_parts(head, tail);
        let rt = nodes_texts(r, QueryKind::Decimal);
        match s.last() {
            SNode::Element(c) => {
                lemma_ws_element_dec(c);
                let n2 = SNode::Element(ws_element(c));
                assert(r.push(n2).drop_last() =~= r);
                lemma_within_concat(rt, node_texts(n2, QueryKind::Decimal), head, tail);
            },
            SNode::Text(t) => {
                let n2 = if preserve {
                    s.last()
                } else if textual {
                    SNode::Text(crate::cleanup::collapse_spec(t))
                } else {
                    SNode::Text(trim(t))
                };
                assert(r.push(n2).drop_last() =~= r);
                assert(rt + node_texts(n2, QueryKind::Decimal) =~= rt);
            },
            _ => {
                assert(r.push(s.last()).drop_last() =~= r);
                lemma_within_concat(rt, tail, head, tail);
            },
        }
    }
}

proof fn lemma_ws_element_dec(e: SElement)
    ensures
        within(tree_texts(ws_element(e), QueryKind::Decimal), tree_texts(e, QueryKind::Decimal)),
    decreases e,
{
    lemma_ws_nodes_dec(
        e.children,
        crate::cleanup::preserves_space(e),
        crate::cleanup::is_textual_name(e.name),
    );
    let own = kind_texts(QueryKind::Decimal, e.attributes);
    lemma_within_concat(
        own,
        nodes_texts(
            ws_nodes(e.children, crate::cleanup::preserves_space(e), crate::cleanup::is_textual_name(e.name)),
            QueryKind::Decimal,
        ),
        own,
        nodes_texts(e.children, QueryKind::Decimal),
    );
}

proof fn lemma_colors_nodes_dec(s: Seq<SNode>, in_style: bool)
    ensures
        within(
            nodes_texts(colors_nodes(s, in_style).0, QueryKind::Decimal),
            nodes_texts(s, QueryKind::Decimal),
        ),
    decreases s,
{
    if s.len() > 0 {
        lemma_colors_nodes_dec(s.drop_last(), in_style);
        let r = colors_nodes(s.drop_last(), in_style).0;
        let head = nodes_texts(s.drop_last(), QueryKind::Decimal);
        let tail = node_texts(s.last(), QueryKind::Decimal);
        let rt = nodes_texts(r, QueryKind::Decimal);
        match s.last() {
            SNode::Element(c) => {
                lemma_colors_element_dec(c);
                let n2 = SNode::Element(colors_element(c).0);
                assert(r.push(n2).drop_last() =~= r);
                lemma_within_concat(rt, node_texts(n2, QueryKind::Decimal), head, tail);
            },
            SNode::Text(t) => {
                let n2 = SNode::Text(crate::cleanup::shrink_colors_spec(t).0);
                assert(r.push(n2).drop_last() =~= r);
                assert(r.push(s.last()).drop_last() =~= r);
                assert(rt + node_texts(n2, QueryKind::Decimal) =~= rt);
                assert(rt + tail =~= rt);
                lemma_within_parts(head, tail);
            },
            _ => {
                assert(r.push(s.last()).drop_last() =~= r);
                lemma_within_concat(rt, tail, head, tail);
            },
        }
    }
}

proof fn lemma_colors_element_dec(e: SElement)
    ensures
        within(tree_texts(colors_element(e).0, QueryKind::Decimal), tree_texts(e, QueryKind::Decimal)),
    decreases e,
{
    lemma_colors_nodes_dec(e.children, e.name == "style"@);
    lemma_decimal_colors(e.attributes);
    let own = kind_texts(QueryKind::Decimal, e.attributes);
    lemma_within_concat(
        own,
        nodes_texts(colors_nodes(e.children, e.name == "style"@).0, QueryKind::Decimal),
        own,
        nodes_texts(e.children, QueryKind::Decimal),
    );
}

proof fn lemma_round_attrs(
    attrs: Seq<(Seq<char>, Seq<char>)>,
    t1: Seq<(Seq<char>, Seq<char>)>,
    t2: Seq<(Seq<char>, Seq<char>)>,
)
    requires
        table_agree(t1, t2, decimal_texts(attrs)),
    ensures
        round_attrs(t1, attrs) == round_attrs(t2, attrs),
{
    assert forall|i: int| 0 <= i < attrs.len() implies #[trigger] round_attrs(t1, attrs)[i]
        == round_attrs(t2, attrs)[i] by {
        if is_decimal_attribute(attrs[i].0) {
            lemma_decimal_member(attrs, i);
        }
    }
    assert(round_attrs(t1, attrs) =~= round_attrs(t2, attrs));
}

proof fn lemma_round_nodes(s: Seq<SNode>, t1: Seq<(Seq<char>, Seq<char>)>, t2: Seq<(Seq<char>, Seq<char>)>)
    requires
        table_agree(t1, t2, nodes_texts(s, QueryKind::Decimal)),
    ensures
        map_nodes(s, round_fn(t1)) == map_nodes(s, round_fn(t2)),
    decreases s,
{
    if s.len() > 0 {
        lemma_within_parts(
            nodes_texts(s.drop_last(), QueryKind::Decimal),
            node_texts(s.last(), QueryKind::Decimal),
        );
        lemma_round_nodes(s.drop_last(), t1, t2);
        lemma_round_node(s.last(), t1, t2);
    }
}

proof fn lemma_round_node(n: SNode, t1: Seq<(Seq<char>, Seq<char>)>, t2: Seq<(Seq<char>, Seq<char>)>)
    requires
        table_agree(t1, t2, node_texts(n, QueryKind::Decimal)),
    ensures
        map_node(n, round_fn(t1)) == map_node(n, round_fn(t2)),
    decreases n,
{
    if let SNode::Element(c) = n {
        lemma_round_element(c, t1, t2);
    }
}

proof fn lemma_round_element(e: SElement, t1: Seq<(Seq<char>, Seq<char>)>, t2: Seq<(Seq<char>, Seq<char>)>)
    requires
        table_agree(t1, t2, tree_texts(e, QueryKind::Decimal)),
    ensures
        map_elements(e, round_fn(t1)) == map_elements(e, round_fn(t2)),
    decreases e,
{
    lemma_within_parts(decimal_texts(e.attributes), nodes_texts(e.children, QueryKind::Decimal));
    lemma_round_nodes(e.children, t1, t2);
    lemma_round_attrs(e.attributes, t1, t2);
}

/// The passes after the preparation depend on the facts only through the texts of the
/// prepared tree that the queries list.
#[verifier::rlimit(40)]
proof fn lemma_finish_facts(
    c: StripConfig,
    a: SElement,
    z1: Seq<Seq<char>>,
    z2: Seq<Seq<char>>,
    t1: Seq<(Seq<char>, Seq<char>)>,
    t2: Seq<(Seq<char>, Seq<char>)>,
)
    requires
        zero_agree(z1, z2, tree_texts(a, QueryKind::Opacity)),
        table_agree(t1, t2, tree_texts(a, QueryKind::Decimal)),
    ensures
        finish_spec(c, a, z1, t1) == finish_spec(c, a, z2, t2),
{
    law_zero_facts_matter_only_on_queries(a, z1, z2);
    let dec_a = tree_texts(a, QueryKind::Decimal);
    let e5 = if c.remove_hidden {
        prune(a, hidden_fn(z1))
    } else {
        a
    };
    lemma_prune_dec_nodes(a.children, hidden_fn(z1));
    lemma_within_concat(
        decimal_texts(a.attributes),
        nodes_texts(prune_nodes(a.children, hidden_fn(z1)), QueryKind::Decimal),
        decimal_texts(a.attributes),
        nodes_texts(a.children, QueryKind::Decimal),
    );
    assert(within(tree_texts(e5, QueryKind::Decimal), dec_a));
    let e6 = if c.strip_ids {
        strip_unused_ids_spec(e5)
    } else {
        e5
    };
    {
        if c.strip_ids {
            let used = crate::references::element_ids(e5);
            let f = strip_ids_fn(used);
            assert forall|x: SElement| #[trigger] within(
                decimal_texts(f(x).attributes),
                decimal_texts(x.attributes),
            ) by {
                lemma_decimal_remove(x.attributes, "id"@);
            }
            lemma_map_dec_element(e5, f);
        }
        assert(within(tree_texts(e6, QueryKind::Decimal), dec_a));
        let e7 = if c.remove_empty_groups {
            remove_empty_groups_spec(e6)
        } else {
            e6
        };
        lemma_remove_groups_dec(e6);
        assert(within(tree_texts(e7, QueryKind::Decimal), dec_a));
        let e8 = if c.strip_whitespace {
            ws_element(e7)
        } else {
            e7
        };
        lemma_ws_element_dec(e7);
        assert(within(tree_texts(e8, QueryKind::Decimal), dec_a));
        let e9 = if c.color_shrink {
            colors_element(e8).0
        } else {
            e8
        };
        lemma_colors_element_dec(e8);
        assert(within(tree_texts(e9, QueryKind::Decimal), dec_a));
        lemma_round_element(e9, t1, t2);
    }
}

/// Stripping depends on the numeric facts only through the texts that the queries list:
/// two sets of facts that agree on each listed opacity text (whether it reads as zero) and
/// on each listed numeric value (its rounded form) strip a document alike.
pub proof fn law_facts_matter_only_on_queries(
    c: StripConfig,
    input: Seq<char>,
    z1: Seq<Seq<char>>,
    z2: Seq<Seq<char>>,
    t1: Seq<(Seq<char>, Seq<char>)>,
    t2: Seq<(Seq<char>, Seq<char>)>,
)
    requires
        queries_spec(c, input) is Ok,
        zero_agree(z1, z2, queries_spec(c, input)->Ok_0.0),
        table_agree(t1, t2, queries_spec(c, input)->Ok_0.1),
    ensures
        strip_spec(c, input, z1, t1) == strip_spec(c, input, z2, t2),
{
    if let Ok(t) = xml_parse_outcome(input) {
        if let Ok(a) = prepare_spec(c, t) {
            lemma_finish_facts(c, a, z1, z2, t1, t2);
        }
    }
}

} // verus!
