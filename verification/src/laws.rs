use vstd::prelude::*;
use crate::cleanup::{
    colors_element, colors_nodes, drop_empty_groups, elem_size, groups_node, groups_nodes,
    groups_pass, lemma_groups_pass_size, map_elements, map_node, map_nodes, prune, prune_node,
    prune_nodes, remove_empty_groups_spec, ws_element, ws_nodes,
};
use crate::component::{
    apply_icon_style_spec, clean_component_root_spec, flatten_groups, is_redundant_group,
    remove_enable_background_spec, unwrap_element, unwrap_node, unwrap_nodes,
};
use crate::cleanup::{comments_fn, is_metadata_name, metadata_fn, style_elements_fn};
use crate::component::{apply_rules, inline_styles_spec};
use crate::references::strip_unused_ids_spec;
use crate::stripper::{component_mode_of, finish_spec, optimize_spec, prepare_spec, StripConfig};
use crate::cleanup::{lemma_drop_size, removable_node, strip_id_attrs, strip_ids_fn};
use crate::references::element_ids;
use crate::tree::{
    attr_get, attr_has, attr_index_from, attr_insert, attr_remove, law_attr_get_insert,
    law_attr_get_remove, with_children, SElement, SNode,
};

verus! {

/* ------------------------------------------------------------------ */
/*  Properties of every node of a tree                                */
/* ------------------------------------------------------------------ */

/// A node as seen without its descendants.
pub open spec fn head(n: SNode) -> SNode {
    match n {
        SNode::Element(c) => SNode::Element(with_children(c, Seq::empty())),
        _ => n,
    }
}

/// Whether every node below `e`, at every depth, satisfies `q`, which sees each node
/// without its descendants.
pub open spec fn every_below(e: SElement, q: spec_fn(SNode) -> bool) -> bool
    decreases e,
{
    every_node_in(e.children, q)
}

pub open spec fn every_node_in(s: Seq<SNode>, q: spec_fn(SNode) -> bool) -> bool
    decreases s,
{
    forall|i: int| 0 <= i < s.len() ==> every_node(#[trigger] s[i], q)
}

pub open spec fn every_node(n: SNode, q: spec_fn(SNode) -> bool) -> bool
    decreases n,
{
    q(head(n)) && match n {
        SNode::Element(c) => every_below(c, q),
        _ => true,
    }
}

proof fn lemma_every_push(s: Seq<SNode>, n: SNode, q: spec_fn(SNode) -> bool)
    requires
        every_node_in(s, q),
        every_node(n, q),
    ensures
        every_node_in(s.push(n), q),
{
    assert forall|i: int| 0 <= i < s.push(n).len() implies every_node(#[trigger] s.push(n)[i], q) by {
        if i < s.len() {
            assert(s.push(n)[i] == s[i]);
        }
    }
}

proof fn lemma_every_drop_last(s: Seq<SNode>, q: spec_fn(SNode) -> bool)
    requires
        s.len() > 0,
        every_node_in(s, q),
    ensures
        every_node_in(s.drop_last(), q),
        every_node(s.last(), q),
{
    assert forall|i: int| 0 <= i < s.drop_last().len() implies every_node(
        #[trigger] s.drop_last()[i],
        q,
    ) by {
        assert(s.drop_last()[i] == s[i]);
    }
}

proof fn lemma_every_concat(a: Seq<SNode>, b: Seq<SNode>, q: spec_fn(SNode) -> bool)
    requires
        every_node_in(a, q),
        every_node_in(b, q),
    ensures
        every_node_in(a + b, q),
{
    assert forall|i: int| 0 <= i < (a + b).len() implies every_node(#[trigger] (a + b)[i], q) by {
        if i < a.len() {
            assert((a + b)[i] == a[i]);
        } else {
            assert((a + b)[i] == b[i - a.len()]);
        }
    }
}

/* ------------------------------------------------------------------ */
/*  Pruning                                                           */
/* ------------------------------------------------------------------ */

proof fn lemma_prune_nodes(s: Seq<SNode>, d: spec_fn(SNode) -> bool, q: spec_fn(SNode) -> bool)
    ensures
        every_node_in(s, q) ==> every_node_in(prune_nodes(s, d), q),
        (forall|n: SNode| #[trigger] d(n) || q(head(n))) ==> every_node_in(prune_nodes(s, d), q),
    decreases s,
{
    if s.len() > 0 {
        lemma_prune_nodes(s.drop_last(), d, q);
        lemma_prune_node(s.last(), d, q);
        let rest = prune_nodes(s.drop_last(), d);
        if every_node_in(s, q) {
            lemma_every_drop_last(s, q);
            if !d(s.last()) {
                lemma_every_push(rest, prune_node(s.last(), d), q);
            }
        }
        if forall|n: SNode| #[trigger] d(n) || q(head(n)) {
            if !d(s.last()) {
                lemma_every_push(rest, prune_node(s.last(), d), q);
            }
        }
    }
}

proof fn lemma_prune_node(n: SNode, d: spec_fn(SNode) -> bool, q: spec_fn(SNode) -> bool)
    ensures
        head(prune_node(n, d)) == head(n),
        every_node(n, q) ==> every_node(prune_node(n, d), q),
        (forall|m: SNode| #[trigger] d(m) || q(head(m))) && q(head(n)) ==> every_node(
            prune_node(n, d),
            q,
        ),
    decreases n,
{
    if let SNode::Element(c) = n {
        lemma_prune_nodes(c.children, d, q);
        assert(head(prune_node(n, d)) =~= head(n));
    }
}

/// Pruning keeps what holds of every node: it only takes nodes away.
pub proof fn law_prune_keeps(e: SElement, d: spec_fn(SNode) -> bool, q: spec_fn(SNode) -> bool)
    requires
        every_below(e, q),
    ensures
        every_below(prune(e, d), q),
{
    lemma_prune_nodes(e.children, d, q);
}

/// After pruning, no node that the pruning selects is left below the root, at any depth,
/// where the selection looks at a node without its descendants.
pub proof fn law_prune_removes(e: SElement, d: spec_fn(SNode) -> bool)
    requires
        forall|n: SNode| #[trigger] d(n) == d(head(n)),
    ensures
        every_below(prune(e, d), |h: SNode| !d(h)),
{
    let q = |h: SNode| !d(h);
    assert forall|n: SNode| #[trigger] d(n) || q(head(n)) by {
        assert(d(n) == d(head(n)));
    }
    lemma_prune_nodes(e.children, d, q);
}

/* ------------------------------------------------------------------ */
/*  What the later passes keep                                        */
/* ------------------------------------------------------------------ */

/// What the passes after pruning never change of a node: an element's name and namespace
/// information, that a node is text; other nodes stay as they are.
pub ghost enum Shape {
    Element(Seq<char>, Option<Seq<char>>, Option<Seq<(Seq<char>, Seq<char>)>>),
    Text,
    Other(SNode),
}

/// Whether two elements agree on what their shape holds.
pub open spec fn same_header(a: SElement, b: SElement) -> bool {
    a.name == b.name && a.namespace == b.namespace && a.namespaces == b.namespaces && a.prefix
        == b.prefix
}

pub open spec fn shape(n: SNode) -> Shape {
    match n {
        SNode::Element(c) => Shape::Element(c.name, c.namespace, c.namespaces),
        SNode::Text(_) => Shape::Text,
        _ => Shape::Other(n),
    }
}

/// A property of nodes that depends on their shape alone.
pub open spec fn by_shape(p: spec_fn(Shape) -> bool) -> spec_fn(SNode) -> bool {
    |n: SNode| p(shape(n))
}

proof fn lemma_same_shape(a: SNode, b: SNode, p: spec_fn(Shape) -> bool)
    requires
        shape(a) == shape(b),
        every_node(a, by_shape(p)),
        b matches SNode::Element(c) ==> every_below(c, by_shape(p)),
    ensures
        every_node(b, by_shape(p)),
{
    assert(shape(head(a)) == shape(a));
    assert(shape(head(b)) == shape(b));
}

proof fn lemma_map_nodes(s: Seq<SNode>, f: spec_fn(SElement) -> SElement, p: spec_fn(Shape) -> bool)
    requires
        forall|x: SElement| #[trigger] same_header(f(x), x),
    ensures
        every_node_in(s, by_shape(p)) ==> every_node_in(map_nodes(s, f), by_shape(p)),
    decreases s,
{
    if s.len() > 0 {
        lemma_map_nodes(s.drop_last(), f, p);
        lemma_map_node(s.last(), f, p);
        if every_node_in(s, by_shape(p)) {
            lemma_every_drop_last(s, by_shape(p));
            lemma_every_push(map_nodes(s.drop_last(), f), map_node(s.last(), f), by_shape(p));
        }
    }
}

proof fn lemma_map_node(n: SNode, f: spec_fn(SElement) -> SElement, p: spec_fn(Shape) -> bool)
    requires
        forall|x: SElement| #[trigger] same_header(f(x), x),
    ensures
        every_node(n, by_shape(p)) ==> every_node(map_node(n, f), by_shape(p)),
    decreases n,
{
    if let SNode::Element(c) = n {
        lemma_map_elements(c, f, p);
        assert(same_header(f(with_children(c, Seq::empty())), with_children(c, Seq::empty())));
        if every_node(n, by_shape(p)) {
            lemma_same_shape(n, map_node(n, f), p);
        }
    }
}

/// Rewriting every element keeps what holds of every node's shape, where the rewrite keeps
/// element names.
pub proof fn law_map_keeps_shapes(
    e: SElement,
    f: spec_fn(SElement) -> SElement,
    p: spec_fn(Shape) -> bool,
)
    requires
        forall|x: SElement| #[trigger] same_header(f(x), x),
    ensures
        every_below(e, by_shape(p)) ==> every_below(map_elements(e, f), by_shape(p)),
{
    lemma_map_elements(e, f, p);
}

proof fn lemma_map_elements(e: SElement, f: spec_fn(SElement) -> SElement, p: spec_fn(Shape) -> bool)
    requires
        forall|x: SElement| #[trigger] same_header(f(x), x),
    ensures
        every_below(e, by_shape(p)) ==> every_below(map_elements(e, f), by_shape(p)),
    decreases e,
{
    lemma_map_nodes(e.children, f, p);
}

proof fn lemma_drop_groups(s: Seq<SNode>, q: spec_fn(SNode) -> bool)
    ensures
        every_node_in(s, q) ==> every_node_in(drop_empty_groups(s), q),
    decreases s.len(),
{
    if s.len() > 0 {
        lemma_drop_groups(s.drop_last(), q);
        if every_node_in(s, q) {
            lemma_every_drop_last(s, q);
            lemma_every_push(drop_empty_groups(s.drop_last()), s.last(), q);
        }
    }
}

proof fn lemma_groups_nodes(s: Seq<SNode>, p: spec_fn(Shape) -> bool)
    ensures
        every_node_in(s, by_shape(p)) ==> every_node_in(groups_nodes(s).0, by_shape(p)),
    decreases s,
{
    if s.len() > 0 {
        lemma_groups_nodes(s.drop_last(), p);
        lemma_groups_node(s.last(), p);
        if every_node_in(s, by_shape(p)) {
            lemma_every_drop_last(s, by_shape(p));
            lemma_every_push(groups_nodes(s.drop_last()).0, groups_node(s.last()).0, by_shape(p));
        }
    }
}

proof fn lemma_groups_node(n: SNode, p: spec_fn(Shape) -> bool)
    ensures
        every_node(n, by_shape(p)) ==> every_node(groups_node(n).0, by_shape(p)),
    decreases n,
{
    if let SNode::Element(c) = n {
        lemma_groups_pass(c, p);
        if every_node(n, by_shape(p)) {
            lemma_same_shape(n, groups_node(n).0, p);
        }
    }
}

proof fn lemma_groups_pass(e: SElement, p: spec_fn(Shape) -> bool)
    ensures
        every_below(e, by_shape(p)) ==> every_below(groups_pass(e).0, by_shape(p)),
    decreases e,
{
    lemma_groups_nodes(e.children, p);
    lemma_drop_groups(groups_nodes(e.children).0, by_shape(p));
}

proof fn lemma_remove_groups(e: SElement, p: spec_fn(Shape) -> bool)
    ensures
        every_below(e, by_shape(p)) ==> every_below(remove_empty_groups_spec(e), by_shape(p)),
    decreases elem_size(e),
{
    lemma_groups_pass(e, p);
    if groups_pass(e).1 {
        lemma_groups_pass_size(e);
        lemma_remove_groups(groups_pass(e).0, p);
    }
}

proof fn lemma_ws_nodes(s: Seq<SNode>, preserve: bool, textual: bool, p: spec_fn(Shape) -> bool)
    ensures
        every_node_in(s, by_shape(p)) ==> every_node_in(ws_nodes(s, preserve, textual), by_shape(p)),
    decreases s,
{
    if s.len() > 0 {
        lemma_ws_nodes(s.drop_last(), preserve, textual, p);
        if every_node_in(s, by_shape(p)) {
            lemma_every_drop_last(s, by_shape(p));
            let r = ws_nodes(s.drop_last(), preserve, textual);
            match s.last() {
                SNode::Element(c) => {
                    lemma_ws_element(c, p);
                    lemma_same_shape(s.last(), SNode::Element(ws_element(c)), p);
                    lemma_every_push(r, SNode::Element(ws_element(c)), by_shape(p));
                },
                SNode::Text(t) => {
                    let n2 = if preserve {
                        s.last()
                    } else if textual {
                        SNode::Text(crate::cleanup::collapse_spec(t))
                    } else {
                        SNode::Text(crate::text::trim(t))
                    };
                    lemma_same_shape(s.last(), n2, p);
                    lemma_every_push(r, n2, by_shape(p));
                },
                _ => {
                    lemma_every_push(r, s.last(), by_shape(p));
                },
            }
        }
    }
}

proof fn lemma_ws_element(e: SElement, p: spec_fn(Shape) -> bool)
    ensures
        every_below(e, by_shape(p)) ==> every_below(ws_element(e), by_shape(p)),
    decreases e,
{
    lemma_ws_nodes(e.children, crate::cleanup::preserves_space(e), crate::cleanup::is_textual_name(e.name), p);
}

proof fn lemma_colors_nodes(s: Seq<SNode>, in_style: bool, p: spec_fn(Shape) -> bool)
    ensures
        every_node_in(s, by_shape(p)) ==> every_node_in(colors_nodes(s, in_style).0, by_shape(p)),
    decreases s,
{
    if s.len() > 0 {
        lemma_colors_nodes(s.drop_last(), in_style, p);
        if every_node_in(s, by_shape(p)) {
            lemma_every_drop_last(s, by_shape(p));
            let r = colors_nodes(s.drop_last(), in_style).0;
            match s.last() {
                SNode::Element(c) => {
                    lemma_colors_element(c, p);
                    let n2 = SNode::Element(colors_element(c).0);
                    lemma_same_shape(s.last(), n2, p);
                    lemma_every_push(r, n2, by_shape(p));
                },
                SNode::Text(t) => {
                    let n2 = SNode::Text(crate::cleanup::shrink_colors_spec(t).0);
                    lemma_same_shape(s.last(), n2, p);
                    lemma_every_push(r, n2, by_shape(p));
                    lemma_every_push(r, s.last(), by_shape(p));
                },
                _ => {
                    lemma_every_push(r, s.last(), by_shape(p));
                },
            }
        }
    }
}

proof fn lemma_colors_element(e: SElement, p: spec_fn(Shape) -> bool)
    ensures
        every_below(e, by_shape(p)) ==> every_below(colors_element(e).0, by_shape(p)),
    decreases e,
{
    lemma_colors_nodes(e.children, e.name == "style"@, p);
}

proof fn lemma_flatten(s: Seq<SNode>, q: spec_fn(SNode) -> bool)
    ensures
        every_node_in(s, q) ==> every_node_in(flatten_groups(s), q),
    decreases s.len(),
{
    if s.len() > 0 {
        lemma_flatten(s.drop_last(), q);
        if every_node_in(s, q) {
            lemma_every_drop_last(s, q);
            let r = flatten_groups(s.drop_last());
            match s.last() {
                SNode::Element(c) => {
                    if is_redundant_group(c) {
                        lemma_every_concat(r, c.children, q);
                    } else {
                        lemma_every_push(r, s.last(), q);
                    }
                },
                _ => {
                    lemma_every_push(r, s.last(), q);
                },
            }
        }
    }
}

proof fn lemma_unwrap_nodes(s: Seq<SNode>, p: spec_fn(Shape) -> bool)
    ensures
        every_node_in(s, by_shape(p)) ==> every_node_in(unwrap_nodes(s), by_shape(p)),
    decreases s,
{
    if s.len() > 0 {
        lemma_unwrap_nodes(s.drop_last(), p);
        lemma_unwrap_node(s.last(), p);
        if every_node_in(s, by_shape(p)) {
            lemma_every_drop_last(s, by_shape(p));
            lemma_every_push(unwrap_nodes(s.drop_last()), unwrap_node(s.last()), by_shape(p));
        }
    }
}

proof fn lemma_unwrap_node(n: SNode, p: spec_fn(Shape) -> bool)
    ensures
        every_node(n, by_shape(p)) ==> every_node(unwrap_node(n), by_shape(p)),
    decreases n,
{
    if let SNode::Element(c) = n {
        lemma_unwrap_element(c, p);
        if every_node(n, by_shape(p)) {
            lemma_same_shape(n, unwrap_node(n), p);
        }
    }
}

proof fn lemma_unwrap_element(e: SElement, p: spec_fn(Shape) -> bool)
    ensures
        every_below(e, by_shape(p)) ==> every_below(unwrap_element(e), by_shape(p)),
    decreases e,
{
    lemma_unwrap_nodes(e.children, p);
    lemma_flatten(unwrap_nodes(e.children), by_shape(p));
}

proof fn lemma_enable_background_children(e: SElement)
    ensures
        remove_enable_background_spec(e) matches Ok(t) ==> t.children == e.children,
{
}

proof fn lemma_clean_root_children(e: SElement)
    ensures
        clean_component_root_spec(e) matches Ok(t) ==> t.children == e.children,
{
    let a1 = crate::tree::attr_remove(
        crate::tree::attr_remove(crate::tree::attr_remove(e.attributes, "width"@), "height"@),
        "version"@,
    );
    let a2 = match crate::tree::attr_get(a1, "fill"@) {
        Some(f) => if crate::component::is_default_black_spec(f) {
            crate::tree::attr_remove(a1, "fill"@)
        } else {
            a1
        },
        None => a1,
    };
    lemma_enable_background_children(
        crate::tree::with_attributes(
            e,
            crate::tree::attr_remove(crate::tree::attr_remove(a2, "space"@), "xml:space"@),
        ),
    );
    lemma_enable_background_children(crate::tree::with_attributes(e, a2));
}

proof fn lemma_icon_children(e: SElement, size: (Seq<char>, Seq<char>))
    ensures
        apply_icon_style_spec(e, size) matches Ok(t) ==> t.children == e.children,
{
}

proof fn lemma_apply_rules(e: SElement, rules: Seq<crate::css::SRule>, p: spec_fn(Shape) -> bool)
    ensures
        every_below(e, by_shape(p)) ==> every_below(apply_rules(e, rules), by_shape(p)),
    decreases rules.len(),
{
    if rules.len() > 0 {
        lemma_apply_rules(e, rules.drop_last(), p);
        let f = crate::cleanup::apply_rule_fn(rules.last());
        assert forall|x: SElement| #[trigger] same_header(f(x), x) by {}
        lemma_map_elements(apply_rules(e, rules.drop_last()), f, p);
    }
}

/// Not a `<title>`, `<desc>` or `<metadata>` element.
pub open spec fn not_metadata() -> spec_fn(Shape) -> bool {
    |s: Shape| !(s matches Shape::Element(n, _, _) && is_metadata_name(n))
}

/// Not a comment.
pub open spec fn not_comment() -> spec_fn(Shape) -> bool {
    |s: Shape| !(s matches Shape::Other(n) && n is Comment)
}

/// Not a `<style>` element.
pub open spec fn not_style() -> spec_fn(Shape) -> bool {
    |s: Shape| !(s matches Shape::Element(n, _, _) && n == "style"@)
}

proof fn lemma_inline_styles(e: SElement, p: spec_fn(Shape) -> bool)
    ensures
        inline_styles_spec(e) matches Ok(t) ==> (every_below(e, by_shape(p)) ==> every_below(
            t,
            by_shape(p),
        )) && every_below(t, by_shape(not_style())),
{
    if let Ok(rules) = crate::component::collect_rules(e) {
        lemma_apply_rules(e, rules, p);
        let f = crate::cleanup::remove_classes_fn(crate::component::consumed_classes(rules));
        assert forall|x: SElement| #[trigger] same_header(f(x), x) by {}
        let m = map_elements(apply_rules(e, rules), f);
        lemma_map_elements(apply_rules(e, rules), f, p);
        lemma_prune_nodes(m.children, style_elements_fn(), by_shape(p));
        let q = by_shape(not_style());
        assert forall|n: SNode| #[trigger] style_elements_fn()(n) || q(head(n)) by {}
        lemma_prune_nodes(m.children, style_elements_fn(), q);
    }
}

/// What the passes after the preparation keep of every node's shape.
proof fn lemma_finish(
    c: StripConfig,
    a: SElement,
    zero: Seq<Seq<char>>,
    table: Seq<(Seq<char>, Seq<char>)>,
    p: spec_fn(Shape) -> bool,
)
    requires
        every_below(a, by_shape(p)),
    ensures
        finish_spec(c, a, zero, table) matches Ok((t, _)) ==> every_below(t, by_shape(p)),
{
    let bp = by_shape(p);
    let e5 = if c.remove_hidden {
        prune(a, crate::cleanup::hidden_fn(zero))
    } else {
        a
    };
    lemma_prune_nodes(a.children, crate::cleanup::hidden_fn(zero), bp);
    assert(every_below(e5, bp));
    let e6 = if c.strip_ids {
        strip_unused_ids_spec(e5)
    } else {
        e5
    };
    {
        if c.strip_ids {
            let used = crate::references::element_ids(e5);
            let f = crate::cleanup::strip_ids_fn(used);
            assert forall|x: SElement| #[trigger] same_header(f(x), x) by {}
            lemma_map_elements(e5, f, p);
        }
        assert(every_below(e6, bp));
        let e7 = if c.remove_empty_groups {
            remove_empty_groups_spec(e6)
        } else {
            e6
        };
        lemma_remove_groups(e6, p);
        let e8 = if c.strip_whitespace {
            ws_element(e7)
        } else {
            e7
        };
        lemma_ws_element(e7, p);
        let e9 = if c.color_shrink {
            colors_element(e8).0
        } else {
            e8
        };
        lemma_colors_element(e8, p);
        let e10 = if c.decimal_precision is Some {
            map_elements(e9, crate::cleanup::round_fn(table))
        } else {
            e9
        };
        let f = crate::cleanup::round_fn(table);
        assert forall|x: SElement| #[trigger] same_header(f(x), x) by {}
        lemma_map_elements(e9, f, p);
        let e11 = if component_mode_of(c) {
            unwrap_element(e10)
        } else {
            e10
        };
        lemma_unwrap_element(e10, p);
        assert(every_below(e11, bp));
        if let Some(size) = c.icon_size {
            lemma_icon_children(e11, size@);
        }
    }
}

/// What the preparation leaves out.
proof fn lemma_prepare(c: StripConfig, e: SElement)
    ensures
        prepare_spec(c, e) matches Ok(a) ==> {
            &&& c.remove_metadata ==> every_below(a, by_shape(not_metadata()))
            &&& c.remove_comments ==> every_below(a, by_shape(not_comment()))
            &&& component_mode_of(c) ==> every_below(a, by_shape(not_style()))
        },
{
    let component = component_mode_of(c);
    if !(component && crate::component::component_root_error(e) is Some) {
        let e1 = if (c.inline_mode || component) && e.name == "svg"@ {
            map_elements(
                crate::tree::with_attributes(e, crate::stripper::without_xmlns(e.attributes)),
                crate::cleanup::strip_namespaces_fn(),
            )
        } else {
            e
        };
        let e2 = if c.remove_metadata {
            prune(e1, metadata_fn())
        } else {
            e1
        };
        let e3 = if c.remove_comments {
            prune(e2, comments_fn())
        } else {
            e2
        };
        let qm = by_shape(not_metadata());
        let qc = by_shape(not_comment());
        assert forall|n: SNode| #[trigger] metadata_fn()(n) || qm(head(n)) by {}
        assert forall|n: SNode| #[trigger] comments_fn()(n) || qc(head(n)) by {}
        lemma_prune_nodes(e1.children, metadata_fn(), qm);
        lemma_prune_nodes(e2.children, comments_fn(), qm);
        lemma_prune_nodes(e2.children, comments_fn(), qc);
        if component {
            lemma_inline_styles(e3, not_metadata());
            lemma_inline_styles(e3, not_comment());
            if let Ok(e4) = inline_styles_spec(e3) {
                lemma_clean_root_children(e4);
            }
        }
    }
}

/// The nodes that minification removes stay removed to the end: with metadata removal on,
/// no `<title>`, `<desc>` or `<metadata>` element is left below the root; with comment
/// removal on, no comment; in component mode, no `<style>` element.
pub proof fn law_removed_nodes_stay_removed(
    c: StripConfig,
    e: SElement,
    zero: Seq<Seq<char>>,
    table: Seq<(Seq<char>, Seq<char>)>,
)
    ensures
        optimize_spec(c, e, zero, table) matches Ok((t, _)) ==> {
            &&& c.remove_metadata ==> every_below(t, by_shape(not_metadata()))
            &&& c.remove_comments ==> every_below(t, by_shape(not_comment()))
            &&& component_mode_of(c) ==> every_below(t, by_shape(not_style()))
        },
{
    lemma_prepare(c, e);
    if let Ok(a) = prepare_spec(c, e) {
        if c.remove_metadata {
            lemma_finish(c, a, zero, table, not_metadata());
        }
        if c.remove_comments {
            lemma_finish(c, a, zero, table, not_comment());
        }
        if component_mode_of(c) {
            lemma_finish(c, a, zero, table, not_style());
        }
    }
}

/* ------------------------------------------------------------------ */
/*  Empty groups                                                      */
/* ------------------------------------------------------------------ */

proof fn lemma_drop_none(s: Seq<SNode>)
    requires
        drop_empty_groups(s).len() == s.len(),
    ensures
        drop_empty_groups(s) == s,
    decreases s.len(),
{
    if s.len() > 0 {
        lemma_drop_size(s.drop_last());
        if removable_node(s.last()) {
            assert(false);
        } else {
            lemma_drop_none(s.drop_last());
            assert(s.drop_last().push(s.last()) =~= s);
        }
    }
}

proof fn lemma_groups_nodes_unchanged(s: Seq<SNode>)
    ensures
        !groups_nodes(s).1 ==> groups_nodes(s).0 == s,
    decreases s,
{
    if s.len() > 0 {
        lemma_groups_nodes_unchanged(s.drop_last());
        lemma_groups_node_unchanged(s.last());
        if !groups_nodes(s).1 {
            assert(s.drop_last().push(s.last()) =~= s);
        }
    }
}

proof fn lemma_groups_node_unchanged(n: SNode)
    ensures
        !groups_node(n).1 ==> groups_node(n).0 == n,
    decreases n,
{
    if let SNode::Element(c) = n {
        lemma_groups_pass_unchanged(c);
    }
}

proof fn lemma_groups_pass_unchanged(e: SElement)
    ensures
        !groups_pass(e).1 ==> groups_pass(e).0 == e,
    decreases e,
{
    lemma_groups_nodes_unchanged(e.children);
    let (cs, changed) = groups_nodes(e.children);
    if !groups_pass(e).1 {
        lemma_drop_none(cs);
        assert(with_children(e, e.children) =~= e);
    }
}

/// Removing empty groups reaches a fixed point: one more pass over the result removes
/// nothing and changes nothing.
pub proof fn law_empty_groups_stable(e: SElement)
    ensures
        groups_pass(remove_empty_groups_spec(e)) == (remove_empty_groups_spec(e), false),
    decreases elem_size(e),
{
    lemma_groups_pass_unchanged(e);
    if groups_pass(e).1 {
        lemma_groups_pass_size(e);
        law_empty_groups_stable(groups_pass(e).0);
    }
}

/// Removing empty groups twice is removing them once.
pub proof fn law_empty_groups_idempotent(e: SElement)
    ensures
        remove_empty_groups_spec(remove_empty_groups_spec(e)) == remove_empty_groups_spec(e),
{
    law_empty_groups_stable(e);
}

/// Whether a further pass over each node would change nothing.
pub open spec fn stable_nodes(s: Seq<SNode>) -> bool {
    forall|i: int| 0 <= i < s.len() ==> !(#[trigger] groups_node(s[i])).1
}

proof fn lemma_stable_push(s: Seq<SNode>, n: SNode)
    requires
        stable_nodes(s),
        !groups_node(n).1,
    ensures
        stable_nodes(s.push(n)),
{
    assert forall|i: int| 0 <= i < s.push(n).len() implies !(#[trigger] groups_node(s.push(n)[i])).1 by {
        if i < s.len() {
            assert(s.push(n)[i] == s[i]);
        }
    }
}

proof fn lemma_drop_keeps_stable(s: Seq<SNode>)
    requires
        stable_nodes(s),
    ensures
        stable_nodes(drop_empty_groups(s)),
        forall|i: int|
            0 <= i < drop_empty_groups(s).len() ==> !removable_node(#[trigger] drop_empty_groups(s)[i]),
    decreases s.len(),
{
    if s.len() > 0 {
        assert forall|i: int| 0 <= i < s.drop_last().len() implies !(#[trigger] groups_node(
            s.drop_last()[i],
        )).1 by {
            assert(s.drop_last()[i] == s[i]);
        }
        lemma_drop_keeps_stable(s.drop_last());
        let r = drop_empty_groups(s.drop_last());
        if !removable_node(s.last()) {
            assert(!groups_node(s[s.len() - 1]).1);
            lemma_stable_push(r, s.last());
            assert forall|i: int| 0 <= i < r.push(s.last()).len() implies !removable_node(
                #[trigger] r.push(s.last())[i],
            ) by {
                if i < r.len() {
                    assert(r.push(s.last())[i] == r[i]);
                }
            }
        }
    }
}

proof fn lemma_stable_unchanged(s: Seq<SNode>)
    requires
        stable_nodes(s),
    ensures
        !groups_nodes(s).1,
    decreases s.len(),
{
    if s.len() > 0 {
        assert forall|i: int| 0 <= i < s.drop_last().len() implies !(#[trigger] groups_node(
            s.drop_last()[i],
        )).1 by {
            assert(s.drop_last()[i] == s[i]);
        }
        lemma_stable_unchanged(s.drop_last());
        assert(!groups_node(s[s.len() - 1]).1);
    }
}

proof fn lemma_drop_none_removable(s: Seq<SNode>)
    requires
        forall|i: int| 0 <= i < s.len() ==> !removable_node(#[trigger] s[i]),
    ensures
        drop_empty_groups(s) == s,
    decreases s.len(),
{
    if s.len() > 0 {
        assert forall|i: int| 0 <= i < s.drop_last().len() implies !removable_node(
            #[trigger] s.drop_last()[i],
        ) by {
            assert(s.drop_last()[i] == s[i]);
        }
        lemma_drop_none_removable(s.drop_last());
        assert(!removable_node(s[s.len() - 1]));
        assert(s.drop_last().push(s.last()) =~= s);
    }
}

proof fn lemma_nodes_stable(s: Seq<SNode>)
    ensures
        stable_nodes(groups_nodes(s).0),
    decreases s,
{
    if s.len() > 0 {
        lemma_nodes_stable(s.drop_last());
        lemma_node_stable(s.last());
        lemma_stable_push(groups_nodes(s.drop_last()).0, groups_node(s.last()).0);
    }
}

proof fn lemma_node_stable(n: SNode)
    ensures
        !groups_node(groups_node(n).0).1,
    decreases n,
{
    if let SNode::Element(c) = n {
        lemma_pass_stable(c);
    }
}

proof fn lemma_pass_stable(e: SElement)
    ensures
        !groups_pass(groups_pass(e).0).1,
    decreases e,
{
    lemma_nodes_stable(e.children);
    let cs = groups_nodes(e.children).0;
    lemma_drop_keeps_stable(cs);
    let d = drop_empty_groups(cs);
    lemma_stable_unchanged(d);
    lemma_groups_nodes_unchanged(d);
    lemma_drop_none_removable(d);
}

/// One bottom-up pass already removes every removable empty group: a second pass over its
/// result removes nothing, so repeating passes gives the result of the first.
pub proof fn law_one_groups_pass_suffices(e: SElement)
    ensures
        groups_pass(groups_pass(e).0) == (groups_pass(e).0, false),
        remove_empty_groups_spec(e) == groups_pass(e).0,
{
    lemma_pass_stable(e);
    lemma_groups_pass_unchanged(groups_pass(e).0);
    lemma_groups_pass_unchanged(e);
    let e2 = groups_pass(e).0;
    assert(remove_empty_groups_spec(e2) == e2);
    if groups_pass(e).1 {
        lemma_groups_pass_size(e);
        assert(remove_empty_groups_spec(e) == remove_empty_groups_spec(e2));
    }
}

/* ------------------------------------------------------------------ */
/*  Unused ids                                                        */
/* ------------------------------------------------------------------ */

/// Whether an element's `id`, if it has one, is among `used`.
pub open spec fn id_among(used: Seq<Seq<char>>) -> spec_fn(SNode) -> bool {
    |h: SNode| h matches SNode::Element(c) ==> (attr_get(c.attributes, "id"@) matches Some(v)
        ==> used.contains(v))
}

proof fn lemma_strip_id_attrs(used: Seq<Seq<char>>, attrs: Seq<(Seq<char>, Seq<char>)>)
    ensures
        attr_get(strip_id_attrs(used, attrs), "id"@) matches Some(v) ==> used.contains(v),
{
    law_attr_get_remove(attrs, "id"@, "id"@);
}

proof fn lemma_map_ids_nodes(s: Seq<SNode>, used: Seq<Seq<char>>)
    ensures
        every_node_in(map_nodes(s, strip_ids_fn(used)), id_among(used)),
    decreases s,
{
    if s.len() > 0 {
        lemma_map_ids_nodes(s.drop_last(), used);
        lemma_map_ids_node(s.last(), used);
        lemma_every_push(
            map_nodes(s.drop_last(), strip_ids_fn(used)),
            map_node(s.last(), strip_ids_fn(used)),
            id_among(used),
        );
    }
}

proof fn lemma_map_ids_node(n: SNode, used: Seq<Seq<char>>)
    ensures
        every_node(map_node(n, strip_ids_fn(used)), id_among(used)),
    decreases n,
{
    if let SNode::Element(c) = n {
        lemma_map_ids_element(c, used);
    }
}

proof fn lemma_map_ids_element(e: SElement, used: Seq<Seq<char>>)
    ensures
        every_node(SNode::Element(map_elements(e, strip_ids_fn(used))), id_among(used)),
    decreases e,
{
    lemma_map_ids_nodes(e.children, used);
    lemma_strip_id_attrs(used, e.attributes);
}

/// Every `id` that survives the removal of unused ids, on the root or below it, is one
/// that some `url(#id)` or `#id` reference in the tree before the removal names, in an
/// attribute value or in a style sheet.
pub proof fn law_kept_ids_are_referenced(e: SElement)
    ensures
        every_node(SNode::Element(strip_unused_ids_spec(e)), id_among(element_ids(e))),
{
    lemma_map_ids_element(e, element_ids(e));
}

/* ------------------------------------------------------------------ */
/*  The root of a component                                           */
/* ------------------------------------------------------------------ */

/// Whether two attribute lists have the same names in the same order.
pub open spec fn same_names(a: Seq<(Seq<char>, Seq<char>)>, b: Seq<(Seq<char>, Seq<char>)>) -> bool {
    a.len() == b.len() && forall|i: int| 0 <= i < a.len() ==> #[trigger] a[i].0 == b[i].0
}

proof fn lemma_same_names_index(
    a: Seq<(Seq<char>, Seq<char>)>,
    b: Seq<(Seq<char>, Seq<char>)>,
    k: Seq<char>,
    i: int,
)
    requires
        same_names(a, b),
    ensures
        attr_index_from(a, k, i) == attr_index_from(b, k, i),
    decreases a.len() - i,
{
    if 0 <= i < a.len() {
        assert(a[i].0 == b[i].0);
        lemma_same_names_index(a, b, k, i + 1);
    }
}

proof fn lemma_same_names_has(a: Seq<(Seq<char>, Seq<char>)>, b: Seq<(Seq<char>, Seq<char>)>, k: Seq<char>)
    requires
        same_names(a, b),
    ensures
        attr_has(a, k) == attr_has(b, k),
{
    lemma_same_names_index(a, b, k, 0);
}

proof fn lemma_colors_attrs_names(attrs: Seq<(Seq<char>, Seq<char>)>)
    ensures
        same_names(crate::cleanup::colors_attrs(attrs).0, attrs),
    decreases attrs.len(),
{
    if attrs.len() > 0 {
        lemma_colors_attrs_names(attrs.drop_last());
        let r = crate::cleanup::colors_attrs(attrs.drop_last()).0;
        let a = crate::cleanup::color_attr(attrs.last()).0;
        assert forall|i: int| 0 <= i < attrs.len() implies #[trigger] r.push(a)[i].0 == attrs[i].0 by {
            if i < r.len() {
                assert(r[i].0 == attrs.drop_last()[i].0);
            }
        }
    }
}

proof fn lemma_other_names()
    ensures
        "style"@ != "width"@ && "style"@ != "height"@,
        "version"@ != "width"@ && "version"@ != "height"@,
        "fill"@ != "width"@ && "fill"@ != "height"@,
        "space"@ != "width"@ && "space"@ != "height"@,
        "xml:space"@ != "width"@ && "xml:space"@ != "height"@,
        "height"@ != "width"@,
{
    reveal_strlit("style");
    reveal_strlit("width");
    reveal_strlit("height");
    reveal_strlit("version");
    reveal_strlit("fill");
    reveal_strlit("space");
    reveal_strlit("xml:space");
    assert("style"@[0] != "width"@[0] && "style"@[0] != "height"@[0]);
    assert("version"@[0] != "width"@[0] && "version"@[0] != "height"@[0]);
    assert("fill"@[0] != "width"@[0] && "fill"@[0] != "height"@[0]);
    assert("space"@[0] != "width"@[0] && "space"@[0] != "height"@[0]);
    assert("xml:space"@[0] != "width"@[0] && "xml:space"@[0] != "height"@[0]);
    assert("height"@[0] != "width"@[0]);
}

/// Whether the attributes fix no width and no height.
pub open spec fn no_fixed_size(attrs: Seq<(Seq<char>, Seq<char>)>) -> bool {
    !attr_has(attrs, "width"@) && !attr_has(attrs, "height"@)
}

proof fn lemma_remove_keeps(attrs: Seq<(Seq<char>, Seq<char>)>, k: Seq<char>)
    requires
        k != "width"@ && k != "height"@,
        no_fixed_size(attrs),
    ensures
        no_fixed_size(attr_remove(attrs, k)),
{
    law_attr_get_remove(attrs, k, "width"@);
    law_attr_get_remove(attrs, k, "height"@);
}

proof fn lemma_insert_keeps(attrs: Seq<(Seq<char>, Seq<char>)>, k: Seq<char>, v: Seq<char>)
    requires
        k != "width"@ && k != "height"@,
        no_fixed_size(attrs),
    ensures
        no_fixed_size(attr_insert(attrs, k, v)),
{
    law_attr_get_insert(attrs, k, v, "width"@);
    law_attr_get_insert(attrs, k, v, "height"@);
}

proof fn lemma_enable_background_size(e: SElement)
    requires
        no_fixed_size(e.attributes),
    ensures
        remove_enable_background_spec(e) matches Ok(t) ==> no_fixed_size(t.attributes),
{
    lemma_other_names();
    lemma_remove_keeps(e.attributes, "style"@);
    if let Some(style) = attr_get(e.attributes, "style"@) {
        if let Ok(ds) = crate::css::parse_inline_style_spec(style) {
            let kept = crate::component::without_enable_background(ds);
            lemma_insert_keeps(e.attributes, "style"@, crate::css::serialize_declarations_spec(kept));
        }
    }
}

proof fn lemma_clean_root_size(e: SElement)
    ensures
        clean_component_root_spec(e) matches Ok(t) ==> no_fixed_size(t.attributes),
{
    lemma_other_names();
    let w = attr_remove(e.attributes, "width"@);
    let h = attr_remove(w, "height"@);
    let a1 = attr_remove(h, "version"@);
    law_attr_get_remove(e.attributes, "width"@, "width"@);
    law_attr_get_remove(w, "height"@, "height"@);
    law_attr_get_remove(w, "height"@, "width"@);
    lemma_remove_keeps(h, "version"@);
    let a2 = match attr_get(a1, "fill"@) {
        Some(f) => if crate::component::is_default_black_spec(f) {
            attr_remove(a1, "fill"@)
        } else {
            a1
        },
        None => a1,
    };
    lemma_remove_keeps(a1, "fill"@);
    lemma_remove_keeps(a2, "space"@);
    lemma_remove_keeps(attr_remove(a2, "space"@), "xml:space"@);
    lemma_enable_background_size(
        crate::tree::with_attributes(e, attr_remove(attr_remove(a2, "space"@), "xml:space"@)),
    );
    lemma_enable_background_size(crate::tree::with_attributes(e, a2));
}

proof fn lemma_groups_root(e: SElement)
    ensures
        remove_empty_groups_spec(e).attributes == e.attributes,
        same_header(remove_empty_groups_spec(e), e),
    decreases elem_size(e),
{
    if groups_pass(e).1 {
        lemma_groups_pass_size(e);
        lemma_groups_root(groups_pass(e).0);
    }
}

proof fn lemma_finish_root(
    c: StripConfig,
    a: SElement,
    zero: Seq<Seq<char>>,
    table: Seq<(Seq<char>, Seq<char>)>,
)
    requires
        no_fixed_size(a.attributes),
    ensures
        finish_spec(c, a, zero, table) matches Ok((t, _)) ==> no_fixed_size(t.attributes),
{
    lemma_other_names();
    let e5 = if c.remove_hidden {
        prune(a, crate::cleanup::hidden_fn(zero))
    } else {
        a
    };
    let e6 = if c.strip_ids {
        strip_unused_ids_spec(e5)
    } else {
        e5
    };
    {
        if c.strip_ids {
            let used = crate::references::element_ids(e5);
            law_attr_get_remove(e5.attributes, "id"@, "width"@);
            law_attr_get_remove(e5.attributes, "id"@, "height"@);
            assert(e6.attributes == strip_id_attrs(used, e5.attributes));
        }
        assert(no_fixed_size(e6.attributes));
        let e7 = if c.remove_empty_groups {
            remove_empty_groups_spec(e6)
        } else {
            e6
        };
        lemma_groups_root(e6);
        let e8 = if c.strip_whitespace {
            ws_element(e7)
        } else {
            e7
        };
        let e9 = if c.color_shrink {
            colors_element(e8).0
        } else {
            e8
        };
        lemma_colors_attrs_names(e8.attributes);
        lemma_same_names_has(crate::cleanup::colors_attrs(e8.attributes).0, e8.attributes, "width"@);
        lemma_same_names_has(crate::cleanup::colors_attrs(e8.attributes).0, e8.attributes, "height"@);
        assert(no_fixed_size(e9.attributes));
        let e10 = if c.decimal_precision is Some {
            map_elements(e9, crate::cleanup::round_fn(table))
        } else {
            e9
        };
        let ra = crate::cleanup::round_attrs(table, e9.attributes);
        assert(same_names(ra, e9.attributes));
        lemma_same_names_has(ra, e9.attributes, "width"@);
        lemma_same_names_has(ra, e9.attributes, "height"@);
        assert(no_fixed_size(e10.attributes));
        let e11 = if component_mode_of(c) {
            unwrap_element(e10)
        } else {
            e10
        };
        if let Some(size) = c.icon_size {
            if let Ok(t) = apply_icon_style_spec(e11, size@) {
                let r = attr_remove(attr_remove(attr_remove(e11.attributes, "width"@), "height"@), "fill"@);
                law_attr_get_remove(e11.attributes, "width"@, "width"@);
                law_attr_get_remove(attr_remove(e11.attributes, "width"@), "height"@, "height"@);
                law_attr_get_remove(attr_remove(e11.attributes, "width"@), "height"@, "width"@);
                lemma_remove_keeps(attr_remove(attr_remove(e11.attributes, "width"@), "height"@), "fill"@);
                let ds = match attr_get(e11.attributes, "style"@) {
                    Some(s) => crate::css::parse_inline_style_spec(s)->Ok_0,
                    None => Seq::empty(),
                };
                let all = crate::component::without_icon_properties(ds)
                    + crate::component::icon_declarations(size@);
                lemma_insert_keeps(r, "style"@, crate::css::serialize_declarations_spec(all));
            }
        }
    }
}

/// A component's root fixes no size: in component mode (which icon mode implies), the
/// optimized root has no `width` and no `height` attribute, and the input root was an
/// `<svg>` with a `viewBox` that is not blank.
pub proof fn law_component_root_scales(
    c: StripConfig,
    e: SElement,
    zero: Seq<Seq<char>>,
    table: Seq<(Seq<char>, Seq<char>)>,
)
    requires
        component_mode_of(c),
    ensures
        optimize_spec(c, e, zero, table) matches Ok((t, _)) ==> no_fixed_size(t.attributes)
            && crate::component::component_root_error(e) is None,
{
    if let Ok(a) = prepare_spec(c, e) {
        let e1 = if (c.inline_mode || component_mode_of(c)) && e.name == "svg"@ {
            map_elements(
                crate::tree::with_attributes(e, crate::stripper::without_xmlns(e.attributes)),
                crate::cleanup::strip_namespaces_fn(),
            )
        } else {
            e
        };
        let e2 = if c.remove_metadata {
            prune(e1, metadata_fn())
        } else {
            e1
        };
        let e3 = if c.remove_comments {
            prune(e2, comments_fn())
        } else {
            e2
        };
        if let Ok(e4) = inline_styles_spec(e3) {
            lemma_clean_root_size(e4);
        }
        lemma_finish_root(c, a, zero, table);
    }
}

/* ------------------------------------------------------------------ */
/*  Namespace information                                             */
/* ------------------------------------------------------------------ */

/// Not an element that carries namespace information.
pub open spec fn no_namespace() -> spec_fn(Shape) -> bool {
    |s: Shape| s matches Shape::Element(_, ns, nss) ==> ns is None && nss is None
}

proof fn lemma_map_gives_nodes(s: Seq<SNode>, f: spec_fn(SElement) -> SElement)
    requires
        forall|x: SElement| #[trigger] f(x).namespace is None && f(x).namespaces is None,
    ensures
        every_node_in(map_nodes(s, f), by_shape(no_namespace())),
    decreases s,
{
    if s.len() > 0 {
        lemma_map_gives_nodes(s.drop_last(), f);
        lemma_map_gives_node(s.last(), f);
        lemma_every_push(map_nodes(s.drop_last(), f), map_node(s.last(), f), by_shape(no_namespace()));
    }
}

proof fn lemma_map_gives_node(n: SNode, f: spec_fn(SElement) -> SElement)
    requires
        forall|x: SElement| #[trigger] f(x).namespace is None && f(x).namespaces is None,
    ensures
        every_node(map_node(n, f), by_shape(no_namespace())),
    decreases n,
{
    if let SNode::Element(c) = n {
        lemma_map_gives_element(c, f);
    }
}

proof fn lemma_map_gives_element(e: SElement, f: spec_fn(SElement) -> SElement)
    requires
        forall|x: SElement| #[trigger] f(x).namespace is None && f(x).namespaces is None,
    ensures
        every_node(SNode::Element(map_elements(e, f)), by_shape(no_namespace())),
    decreases e,
{
    lemma_map_gives_nodes(e.children, f);
    let x = with_children(e, Seq::empty());
    assert(f(x).namespace is None && f(x).namespaces is None);
}

/// What the passes after the preparation keep of the root: its name and namespace
/// information.
proof fn lemma_finish_header(
    c: StripConfig,
    a: SElement,
    zero: Seq<Seq<char>>,
    table: Seq<(Seq<char>, Seq<char>)>,
)
    ensures
        finish_spec(c, a, zero, table) matches Ok((t, _)) ==> same_header(t, a),
{
    let e5 = if c.remove_hidden {
        prune(a, crate::cleanup::hidden_fn(zero))
    } else {
        a
    };
    let e6 = if c.strip_ids {
        strip_unused_ids_spec(e5)
    } else {
        e5
    };
    {
        let e7 = if c.remove_empty_groups {
            remove_empty_groups_spec(e6)
        } else {
            e6
        };
        lemma_groups_root(e6);
    }
}

/// What the preparation leaves of namespace information, where it strips it.
proof fn lemma_prepare_namespaces(c: StripConfig, e: SElement)
    requires
        (c.inline_mode || component_mode_of(c)) && e.name == "svg"@,
    ensures
        prepare_spec(c, e) matches Ok(a) ==> every_node(SNode::Element(a), by_shape(no_namespace())),
{
    let q = by_shape(no_namespace());
    let e0 = crate::tree::with_attributes(e, crate::stripper::without_xmlns(e.attributes));
    let g = crate::cleanup::strip_namespaces_fn();
    assert forall|x: SElement| #[trigger] g(x).namespace is None && g(x).namespaces is None by {}
    lemma_map_gives_element(e0, g);
    let e1 = map_elements(e0, g);
    let e2 = if c.remove_metadata {
        prune(e1, metadata_fn())
    } else {
        e1
    };
    let e3 = if c.remove_comments {
        prune(e2, comments_fn())
    } else {
        e2
    };
    lemma_prune_nodes(e1.children, metadata_fn(), q);
    lemma_prune_nodes(e2.children, comments_fn(), q);
    assert(every_below(e3, q));
    assert(shape(head(SNode::Element(e3))) == shape(head(SNode::Element(e1))));
    if component_mode_of(c) {
        lemma_inline_styles(e3, no_namespace());
        if let Ok(rules) = crate::component::collect_rules(e3) {
            lemma_apply_rules_header(e3, rules);
            let f = crate::cleanup::remove_classes_fn(crate::component::consumed_classes(rules));
            let m = map_elements(apply_rules(e3, rules), f);
            let e4 = prune(m, style_elements_fn());
            assert(same_header(e4, e3));
            lemma_clean_root_children(e4);
            lemma_clean_root_header(e4);
            if let Ok(a) = clean_component_root_spec(e4) {
                assert(shape(head(SNode::Element(a))) == shape(head(SNode::Element(e3))));
            }
        }
    }
}

proof fn lemma_apply_rules_header(e: SElement, rules: Seq<crate::css::SRule>)
    ensures
        same_header(apply_rules(e, rules), e),
    decreases rules.len(),
{
    if rules.len() > 0 {
        lemma_apply_rules_header(e, rules.drop_last());
    }
}

proof fn lemma_enable_background_header(e: SElement)
    ensures
        remove_enable_background_spec(e) matches Ok(t) ==> same_header(t, e),
{
}

proof fn lemma_clean_root_header(e: SElement)
    ensures
        clean_component_root_spec(e) matches Ok(t) ==> same_header(t, e),
{
    let a1 = attr_remove(attr_remove(attr_remove(e.attributes, "width"@), "height"@), "version"@);
    let a2 = match attr_get(a1, "fill"@) {
        Some(f) => if crate::component::is_default_black_spec(f) {
            attr_remove(a1, "fill"@)
        } else {
            a1
        },
        None => a1,
    };
    lemma_enable_background_header(
        crate::tree::with_attributes(e, attr_remove(attr_remove(a2, "space"@), "xml:space"@)),
    );
    lemma_enable_background_header(crate::tree::with_attributes(e, a2));
}

/// Inline and component modes strip namespace information for good: where the root is an
/// `<svg>`, no element of the optimized tree, the root included, carries a namespace or
/// namespace declarations, so none is written out.
pub proof fn law_namespaces_stay_stripped(
    c: StripConfig,
    e: SElement,
    zero: Seq<Seq<char>>,
    table: Seq<(Seq<char>, Seq<char>)>,
)
    requires
        c.inline_mode || component_mode_of(c),
        e.name == "svg"@,
    ensures
        optimize_spec(c, e, zero, table) matches Ok((t, _)) ==> every_node(
            SNode::Element(t),
            by_shape(no_namespace()),
        ),
{
    lemma_prepare_namespaces(c, e);
    if let Ok(a) = prepare_spec(c, e) {
        lemma_finish(c, a, zero, table, no_namespace());
        lemma_finish_header(c, a, zero, table);
        if let Ok((t, _)) = finish_spec(c, a, zero, table) {
            assert(shape(head(SNode::Element(t))) == shape(head(SNode::Element(a))));
        }
    }
}

/* ------------------------------------------------------------------ */
/*  The start of the written document                                 */
/* ------------------------------------------------------------------ */

/// What the preparation keeps of the root's tag: its prefix and name.
proof fn lemma_prepare_tag(c: StripConfig, e: SElement)
    ensures
        prepare_spec(c, e) matches Ok(a) ==> a.prefix == e.prefix && a.name == e.name,
{
    let e0 = crate::tree::with_attributes(e, crate::stripper::without_xmlns(e.attributes));
    let g = crate::cleanup::strip_namespaces_fn();
    let e1 = if (c.inline_mode || component_mode_of(c)) && e.name == "svg"@ {
        map_elements(e0, g)
    } else {
        e
    };
    assert(g(with_children(e0, Seq::empty())).prefix == e.prefix);
    let e2 = if c.remove_metadata {
        prune(e1, metadata_fn())
    } else {
        e1
    };
    let e3 = if c.remove_comments {
        prune(e2, comments_fn())
    } else {
        e2
    };
    if component_mode_of(c) {
        if let Ok(rules) = crate::component::collect_rules(e3) {
            lemma_apply_rules_header(e3, rules);
            let f = crate::cleanup::remove_classes_fn(crate::component::consumed_classes(rules));
            let m = map_elements(apply_rules(e3, rules), f);
            let e4 = prune(m, style_elements_fn());
            assert(same_header(e4, e3));
            lemma_clean_root_header(e4);
        }
    }
}

/// What the passes keep of the root's tag.
pub(crate) proof fn lemma_optimize_tag(
    c: StripConfig,
    t: SElement,
    zero: Seq<Seq<char>>,
    table: Seq<(Seq<char>, Seq<char>)>,
)
    ensures
        optimize_spec(c, t, zero, table) matches Ok((t2, _)) ==> crate::xml::tag_name(t2)
            == crate::xml::tag_name(t),
{
    lemma_prepare_tag(c, t);
    if let Ok(a) = prepare_spec(c, t) {
        lemma_finish_header(c, a, zero, table);
    }
}

pub(crate) proof fn lemma_line_breaks_keep_head(s: Seq<char>)
    requires
        s.len() >= 2,
        s[0] != '\n' && s[0] != '\r',
        s[1] != '\n' && s[1] != '\r',
    ensures
        crate::stripper::without_line_breaks(s).len() >= 2,
        crate::stripper::without_line_breaks(s)[0] == s[0],
        crate::stripper::without_line_breaks(s)[1] == s[1],
    decreases s.len(),
{
    let w = crate::stripper::without_line_breaks(s);
    let r = crate::stripper::without_line_breaks(s.drop_last());
    assert(w == if s.last() == '\n' || s.last() == '\r' {
        r
    } else {
        r.push(s.last())
    });
    if s.len() > 2 {
        lemma_line_breaks_keep_head(s.drop_last());
    } else {
        let t = s.drop_last();
        let e = t.drop_last();
        assert(e.len() == 0);
        assert(crate::stripper::without_line_breaks(e) == e);
        assert(crate::stripper::without_line_breaks(t) == crate::stripper::without_line_breaks(
            e,
        ).push(t.last()));
        assert(r =~= seq![s[0]]);
    }
}

pub(crate) proof fn lemma_decode_head(b: Seq<u8>)
    requires
        vstd::utf8::valid_utf8(b),
        b.len() >= 2,
        b[0] == 60u8,
    ensures
        vstd::utf8::decode_utf8(b).len() >= 2,
        vstd::utf8::decode_utf8(b)[0] == '<',
        b[1] < 128u8 ==> vstd::utf8::decode_utf8(b)[1] == (b[1] as u32) as char,
        b[1] >= 128u8 ==> !crate::xml::cannot_open_tag(vstd::utf8::decode_utf8(b)[1]),
{
    let p = vstd::utf8::pop_first_scalar(b);
    let b0 = b[0];
    assert(b0 & 0x7fu8 == b0) by (bit_vector)
        requires
            b0 == 60u8,
    ;
    assert(p =~= b.subrange(1, b.len() as int));
    assert(p[0] == b[1]);
    assert(vstd::utf8::valid_utf8(p));
    let q = vstd::utf8::pop_first_scalar(p);
    assert(vstd::utf8::decode_utf8(p) == seq![vstd::utf8::decode_first_scalar(p) as char]
        + vstd::utf8::decode_utf8(q));
    let p0 = p[0];
    if p0 < 128u8 {
        assert(p0 & 0x7fu8 == p0) by (bit_vector)
            requires
                p0 < 128u8,
        ;
    } else {
        let x = vstd::utf8::decode_first_scalar(p);
        if vstd::utf8::is_leading_byte_width_2(p0) {
            let p1 = p[1];
            assert(vstd::utf8::codepoint_width_2(p0, p1) < 0x800u32) by (bit_vector);
        } else if vstd::utf8::is_leading_byte_width_3(p0) {
            let p1 = p[1];
            let p2 = p[2];
            assert(vstd::utf8::codepoint_width_3(p0, p1, p2) < 0x10000u32) by (bit_vector);
        }
        assert(0x80 <= x <= 0x10ffff);
        assert(!(0xD800 <= x <= 0xDFFF));
    }
}

} // verus!
