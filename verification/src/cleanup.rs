use vstd::prelude::*;
use crate::css::{decls_view, texts_view, ComponentStyleRule, SRule};
use crate::patterns::{find_hex_colors, hex_color_segments, is_hex_digit};
use crate::pass_laws::{
    law_shrink_colors_lossless, lemma_join_segments_text, segments_text, stands_for, with_matches,
};
use crate::text::{
    append_chars, ascii_lower, chars_of, eq_chars, eq_str, find_char, index_of, join_with_spaces,
    join_words, lemma_index_of, skip_ws_backward, split_on, split_on_char, split_whitespace,
    string_of, sub_chars, to_ascii_lower, trim, trim_end, trimmed, words,
};
use crate::tree::{
    attr_get, attr_has, attr_insert, attr_remove, attrs_view, get_attr, insert_attr,
    law_attr_get_insert,
    lemma_view_nodes, remove_attr, view_nodes, with_attributes, with_children, Attribute, SvgElement,
    SvgNode, SElement, SNode,
};

verus! {

broadcast use lemma_view_nodes;

/* ------------------------------------------------------------------ */
/*  Pruning                                                           */
/* ------------------------------------------------------------------ */

/// `e` without the nodes that `drop` selects, at every depth; the children of a dropped
/// node go with it.
pub open spec fn prune(e: SElement, drop: spec_fn(SNode) -> bool) -> SElement
    decreases e,
{
    with_children(e, prune_nodes(e.children, drop))
}

/// The nodes of `s` that `drop` does not select, each pruned.
pub open spec fn prune_nodes(s: Seq<SNode>, drop: spec_fn(SNode) -> bool) -> Seq<SNode>
    decreases s,
{
    if s.len() == 0 {
        s
    } else {
        let rest = prune_nodes(s.drop_last(), drop);
        if drop(s.last()) {
            rest
        } else {
            rest.push(prune_node(s.last(), drop))
        }
    }
}

/// A node with its descendants pruned.
pub open spec fn prune_node(n: SNode, drop: spec_fn(SNode) -> bool) -> SNode
    decreases n,
{
    match n {
        SNode::Element(c) => SNode::Element(prune(c, drop)),
        _ => n,
    }
}

/// Whether one declaration `property: value` of an inline style hides its element.
pub open spec fn style_decl_hides(d: Seq<char>, zero: Seq<Seq<char>>) -> bool {
    d.len() > 0 && match index_of(d, ':') {
        None => false,
        Some(i) => {
            let p = trim(d.take(i));
            let v = trim(d.skip(i + 1));
            ||| (p == "display"@ && v == "none"@)
            ||| (p == "visibility"@ && v == "hidden"@)
            ||| (p == "opacity"@ && zero.contains(v))
        },
    }
}

/// Whether an inline style hides its element: some `;`-separated declaration sets
/// `display: none`, `visibility: hidden` or a zero opacity.
pub open spec fn hidden_in_style(style: Seq<char>, zero: Seq<Seq<char>>) -> bool {
    exists|k: int|
        0 <= k < split_on(style, ';').len() && style_decl_hides(
            trim(#[trigger] split_on(style, ';')[k]),
            zero,
        )
}

/// Whether an element with these attributes is hidden: `display="none"`,
/// `visibility="hidden"`, a zero `opacity` (the texts in `zero`), or a hiding inline style.
pub open spec fn is_hidden_spec(attrs: Seq<(Seq<char>, Seq<char>)>, zero: Seq<Seq<char>>) -> bool {
    ||| (attr_get(attrs, "display"@) matches Some(v) && trim(v) == "none"@)
    ||| (attr_get(attrs, "visibility"@) matches Some(v) && trim(v) == "hidden"@)
    ||| (attr_get(attrs, "opacity"@) matches Some(v) && zero.contains(v))
    ||| (attr_get(attrs, "style"@) matches Some(s) && hidden_in_style(s, zero))
}

fn style_declaration_hides(d: &[char], zero: &Vec<Vec<char>>) -> (r: bool)
    ensures
        r == style_decl_hides(d@, texts_view(zero@)),
{
    if d.len() == 0 {
        return false;
    }
    proof {
        lemma_index_of(d@, ':');
    }
    match find_char(d, ':') {
        None => false,
        Some(i) => {
            let head = sub_chars(d, 0, i);
            let tail = sub_chars(d, i + 1, d.len());
            assert(head@ == d@.take(i as int));
            assert(tail@ == d@.skip(i + 1));
            let p = trimmed(head.as_slice());
            let v = trimmed(tail.as_slice());
            (eq_str(p.as_slice(), "display") && eq_str(v.as_slice(), "none")) || (eq_str(
                p.as_slice(),
                "visibility",
            ) && eq_str(v.as_slice(), "hidden")) || (eq_str(p.as_slice(), "opacity")
                && contains_text_in(zero, v.as_slice()))
        },
    }
}

/// Whether an inline style hides its element.
pub fn is_hidden_in_style(style: &[char], zero: &Vec<Vec<char>>) -> (r: bool)
    ensures
        r == hidden_in_style(style@, texts_view(zero@)),
{
    let parts = split_on_char(style, ';');
    let ghost ps = split_on(style@, ';');
    assert(texts_view(parts@) == ps);
    let mut k: usize = 0;
    while k < parts.len()
        invariant
            k <= parts.len(),
            texts_view(parts@) == ps,
            ps == split_on(style@, ';'),
            forall|j: int| 0 <= j < k ==> !style_decl_hides(trim(#[trigger] ps[j]), texts_view(zero@)),
        decreases parts.len() - k,
    {
        assert(ps[k as int] == parts@[k as int]@);
        let d = trimmed(parts[k].as_slice());
        if style_declaration_hides(d.as_slice(), zero) {
            return true;
        }
        k += 1;
    }
    false
}

/// Whether an element with these attributes is hidden.
pub fn is_hidden(attrs: &Vec<Attribute>, zero: &Vec<Vec<char>>) -> (r: bool)
    ensures
        r == is_hidden_spec(attrs_view(attrs@), texts_view(zero@)),
{
    if let Some(v) = get_attr(attrs, "display") {
        let t = trimmed(v.as_slice());
        if eq_str(t.as_slice(), "none") {
            return true;
        }
    }
    if let Some(v) = get_attr(attrs, "visibility") {
        let t = trimmed(v.as_slice());
        if eq_str(t.as_slice(), "hidden") {
            return true;
        }
    }
    if let Some(v) = get_attr(attrs, "opacity") {
        if contains_text_in(zero, v.as_slice()) {
            return true;
        }
    }
    if let Some(style) = get_attr(attrs, "style") {
        if is_hidden_in_style(style.as_slice(), zero) {
            return true;
        }
    }
    false
}

/// What a pruning pass removes.
pub enum PruneRule<'a> {
    /// Elements that are hidden, where the listed texts are the opacity values that read
    /// as the number zero.
    Hidden(&'a Vec<Vec<char>>),
    /// `<title>`, `<desc>` and `<metadata>` elements.
    Metadata,
    /// Comments.
    Comments,
    /// `<style>` elements.
    StyleElements,
}

/// Whether an element is named `title`, `desc` or `metadata`.
pub open spec fn is_metadata_name(name: Seq<char>) -> bool {
    name == "title"@ || name == "desc"@ || name == "metadata"@
}

/// Drops hidden elements, `zero` being the opacity texts that read as zero.
pub open spec fn hidden_fn(zero: Seq<Seq<char>>) -> spec_fn(SNode) -> bool {
    |n: SNode| n matches SNode::Element(c) && is_hidden_spec(c.attributes, zero)
}

/// Drops `<title>`, `<desc>` and `<metadata>` elements.
pub open spec fn metadata_fn() -> spec_fn(SNode) -> bool {
    |n: SNode| n matches SNode::Element(c) && is_metadata_name(c.name)
}

/// Drops comments.
pub open spec fn comments_fn() -> spec_fn(SNode) -> bool {
    |n: SNode| n is Comment
}

/// Drops `<style>` elements.
pub open spec fn style_elements_fn() -> spec_fn(SNode) -> bool {
    |n: SNode| n matches SNode::Element(c) && c.name == "style"@
}

impl<'a> PruneRule<'a> {
    /// The nodes that the rule removes.
    pub open spec fn drops(&self) -> spec_fn(SNode) -> bool {
        match self {
            PruneRule::Hidden(z) => hidden_fn(texts_view(z@)),
            PruneRule::Metadata => metadata_fn(),
            PruneRule::Comments => comments_fn(),
            PruneRule::StyleElements => style_elements_fn(),
        }
    }

    fn drops_node(&self, n: &SvgNode) -> (r: bool)
        ensures
            r == (self.drops())(n.view()),
    {
        match self {
            PruneRule::Hidden(z) => match n {
                SvgNode::Element(c) => is_hidden(&c.attributes, z),
                _ => false,
            },
            PruneRule::Metadata => match n {
                SvgNode::Element(c) => crate::text::eq_str(c.name.as_slice(), "title")
                    || crate::text::eq_str(c.name.as_slice(), "desc") || crate::text::eq_str(
                    c.name.as_slice(),
                    "metadata",
                ),
                _ => false,
            },
            PruneRule::Comments => matches!(n, SvgNode::Comment(_)),
            PruneRule::StyleElements => match n {
                SvgNode::Element(c) => crate::text::eq_str(c.name.as_slice(), "style"),
                _ => false,
            },
        }
    }
}

/// Removes the nodes that `rule` selects, at every depth.
pub fn prune_element(e: SvgElement, rule: &PruneRule) -> (r: SvgElement)
    ensures
        r.view_element() == prune(e.view_element(), rule.drops()),
    decreases e,
{
    let ghost ge = e;
    let SvgElement { prefix, namespace, namespaces, name, attributes, children } = e;
    let ghost cv = children@;
    let ghost drop = rule.drops();
    let mut out: Vec<SvgNode> = Vec::new();
    for child in it: children.into_iter()
        invariant
            it.seq() == cv,
            ge == e,
            cv == ge.children@,
            drop == rule.drops(),
            view_nodes(out@) == prune_nodes(view_nodes(cv.take(it.index() as int)), drop),
    {
        let ghost i = it.index() as int;
        let ghost x = view_nodes(cv.take(i));
        let ghost cview = child.view();
        proof {
            assert(cv.take(i + 1).drop_last() =~= cv.take(i));
            assert(cv.take(i + 1).last() == child);
            assert(view_nodes(cv.take(i + 1)) == x.push(cview));
            assert(x.push(cview).drop_last() =~= x);
        }
        if !rule.drops_node(&child) {
            let kept = match child {
                SvgNode::Element(c) => {
                    proof {
                        assert(decreases_to!(ge => c));
                    }
                    SvgNode::Element(prune_element(c, rule))
                },
                other => other,
            };
            let ghost prev = out@;
            out.push(kept);
            assert(out@.drop_last() =~= prev);
            assert(kept.view() == prune_node(cview, drop));
        }
    }
    proof {
        assert(cv.take(cv.len() as int) =~= cv);
    }
    SvgElement { prefix, namespace, namespaces, name, attributes, children: out }
}

/* ------------------------------------------------------------------ */
/*  Rewriting every element                                           */
/* ------------------------------------------------------------------ */

/// `e` with `f` applied to each element, at every depth; `f` sees an element without its
/// children and rewrites its name, namespaces and attributes.
pub open spec fn map_elements(e: SElement, f: spec_fn(SElement) -> SElement) -> SElement
    decreases e,
{
    with_children(f(with_children(e, Seq::empty())), map_nodes(e.children, f))
}

/// The nodes of `s` with `f` applied to each element, at every depth.
pub open spec fn map_nodes(s: Seq<SNode>, f: spec_fn(SElement) -> SElement) -> Seq<SNode>
    decreases s,
{
    if s.len() == 0 {
        s
    } else {
        map_nodes(s.drop_last(), f).push(map_node(s.last(), f))
    }
}

/// A node with `f` applied to each element in it.
pub open spec fn map_node(n: SNode, f: spec_fn(SElement) -> SElement) -> SNode
    decreases n,
{
    match n {
        SNode::Element(c) => SNode::Element(map_elements(c, f)),
        _ => n,
    }
}

/// The model of a table of pairs of texts.
pub open spec fn pairs_view(v: Seq<(Vec<char>, Vec<char>)>) -> Seq<(Seq<char>, Seq<char>)> {
    v.map_values(|p: (Vec<char>, Vec<char>)| (p.0@, p.1@))
}

/// The value paired with `key` in `table` from position `i` on, or `key` itself.
pub open spec fn lookup_from(table: Seq<(Seq<char>, Seq<char>)>, key: Seq<char>, i: int) -> Seq<char>
    decreases table.len() - i,
{
    if i < 0 || i >= table.len() {
        key
    } else if table[i].0 == key {
        table[i].1
    } else {
        lookup_from(table, key, i + 1)
    }
}

/// The value that `table` pairs with `key`, or `key` itself.
pub open spec fn lookup_or_same(table: Seq<(Seq<char>, Seq<char>)>, key: Seq<char>) -> Seq<char> {
    lookup_from(table, key, 0)
}

/// The attributes whose numbers are rounded to a chosen precision.
pub open spec fn is_decimal_attribute(name: Seq<char>) -> bool {
    ||| name == "d"@
    ||| name == "points"@
    ||| name == "viewBox"@
    ||| name == "x"@
    ||| name == "y"@
    ||| name == "width"@
    ||| name == "height"@
    ||| name == "rx"@
    ||| name == "ry"@
    ||| name == "cx"@
    ||| name == "cy"@
    ||| name == "r"@
    ||| name == "x1"@
    ||| name == "y1"@
    ||| name == "x2"@
    ||| name == "y2"@
    ||| name == "transform"@
    ||| name == "offset"@
    ||| name == "stroke-width"@
    ||| name == "stroke-dasharray"@
    ||| name == "stroke-dashoffset"@
    ||| name == "opacity"@
    ||| name == "stop-opacity"@
}

/// Whether `name` is one of the attributes whose numbers are rounded.
pub fn decimal_attribute(name: &[char]) -> (r: bool)
    ensures
        r == is_decimal_attribute(name@),
{
    eq_str(name, "d") || eq_str(name, "points") || eq_str(name, "viewBox") || eq_str(name, "x")
        || eq_str(name, "y") || eq_str(name, "width") || eq_str(name, "height") || eq_str(name, "rx")
        || eq_str(name, "ry") || eq_str(name, "cx") || eq_str(name, "cy") || eq_str(name, "r")
        || eq_str(name, "x1") || eq_str(name, "y1") || eq_str(name, "x2") || eq_str(name, "y2")
        || eq_str(name, "transform") || eq_str(name, "offset") || eq_str(name, "stroke-width")
        || eq_str(name, "stroke-dasharray") || eq_str(name, "stroke-dashoffset") || eq_str(
        name,
        "opacity",
    ) || eq_str(name, "stop-opacity")
}

/// Whether the `class` attribute names one of `classes`.
pub open spec fn class_selected(attrs: Seq<(Seq<char>, Seq<char>)>, classes: Seq<Seq<char>>) -> bool {
    match attr_get(attrs, "class"@) {
        Some(v) => exists|w: Seq<char>| words(v).contains(w) && classes.contains(w),
        None => false,
    }
}

/// The attributes with each declaration of `ds` inserted in turn.
pub open spec fn insert_all(
    attrs: Seq<(Seq<char>, Seq<char>)>,
    ds: Seq<(Seq<char>, Seq<char>)>,
) -> Seq<(Seq<char>, Seq<char>)>
    decreases ds.len(),
{
    if ds.len() == 0 {
        attrs
    } else {
        attr_insert(insert_all(attrs, ds.drop_last()), ds.last().0, ds.last().1)
    }
}

/// The value that the last declaration of `p` in `ds` gives it, if any does.
pub open spec fn last_value(ds: Seq<(Seq<char>, Seq<char>)>, p: Seq<char>) -> Option<Seq<char>>
    decreases ds.len(),
{
    if ds.len() == 0 {
        None
    } else if ds.last().0 == p {
        Some(ds.last().1)
    } else {
        last_value(ds.drop_last(), p)
    }
}

/// Declarations written as attributes: a property that some declaration sets reads as
/// the value of the last such declaration; every other attribute reads as before.
pub proof fn law_declarations_override(
    attrs: Seq<(Seq<char>, Seq<char>)>,
    ds: Seq<(Seq<char>, Seq<char>)>,
    p: Seq<char>,
)
    ensures
        attr_get(insert_all(attrs, ds), p) == match last_value(ds, p) {
            Some(v) => Some(v),
            None => attr_get(attrs, p),
        },
    decreases ds.len(),
{
    if ds.len() > 0 {
        law_declarations_override(attrs, ds.drop_last(), p);
        law_attr_get_insert(insert_all(attrs, ds.drop_last()), ds.last().0, ds.last().1, p);
    }
}

/// Attributes after a style sheet rule is applied to them: if the class list names one of
/// the rule's classes, each declaration becomes a presentation attribute.
pub open spec fn apply_rule_attrs(rule: SRule, attrs: Seq<(Seq<char>, Seq<char>)>) -> Seq<
    (Seq<char>, Seq<char>),
> {
    if class_selected(attrs, rule.0) {
        insert_all(attrs, rule.1)
    } else {
        attrs
    }
}

/// The words of `ws` that are not in `consumed`.
pub open spec fn unconsumed(ws: Seq<Seq<char>>, consumed: Seq<Seq<char>>) -> Seq<Seq<char>>
    decreases ws.len(),
{
    if ws.len() == 0 {
        ws
    } else if consumed.contains(ws.last()) {
        unconsumed(ws.drop_last(), consumed)
    } else {
        unconsumed(ws.drop_last(), consumed).push(ws.last())
    }
}

/// Attributes whose class list loses the classes in `consumed`; an empty list goes away.
pub open spec fn remove_classes_attrs(
    consumed: Seq<Seq<char>>,
    attrs: Seq<(Seq<char>, Seq<char>)>,
) -> Seq<(Seq<char>, Seq<char>)> {
    match attr_get(attrs, "class"@) {
        None => attrs,
        Some(v) => {
            let kept = unconsumed(words(v), consumed);
            if kept.len() == 0 {
                attr_remove(attrs, "class"@)
            } else {
                attr_insert(attrs, "class"@, join_words(kept))
            }
        },
    }
}

/// Attributes that lose the `id` unless the id is in `used`.
pub open spec fn strip_id_attrs(used: Seq<Seq<char>>, attrs: Seq<(Seq<char>, Seq<char>)>) -> Seq<
    (Seq<char>, Seq<char>),
> {
    match attr_get(attrs, "id"@) {
        Some(id) => if used.contains(id) {
            attrs
        } else {
            attr_remove(attrs, "id"@)
        },
        None => attrs,
    }
}

/// An element keeps its `id` exactly when the id is referenced, and every other attribute
/// reads as before.
pub proof fn law_id_kept_iff_referenced(
    used: Seq<Seq<char>>,
    attrs: Seq<(Seq<char>, Seq<char>)>,
    other: Seq<char>,
)
    ensures
        attr_get(strip_id_attrs(used, attrs), "id"@) == match attr_get(attrs, "id"@) {
            Some(v) => if used.contains(v) {
                Some(v)
            } else {
                None
            },
            None => None,
        },
        other != "id"@ ==> attr_get(strip_id_attrs(used, attrs), other) == attr_get(attrs, other),
{
    crate::tree::law_attr_get_remove(attrs, "id"@, other);
    crate::tree::law_attr_get_remove(attrs, "id"@, "id"@);
}

/// One attribute after rounding: a numeric attribute takes the value that `table` pairs
/// with its value.
pub open spec fn round_attr(table: Seq<(Seq<char>, Seq<char>)>, a: (Seq<char>, Seq<char>)) -> (
    Seq<char>,
    Seq<char>,
) {
    if is_decimal_attribute(a.0) {
        (a.0, lookup_or_same(table, a.1))
    } else {
        a
    }
}

/// Attributes whose numeric values take the values that `table` pairs with them.
pub open spec fn round_attrs(
    table: Seq<(Seq<char>, Seq<char>)>,
    attrs: Seq<(Seq<char>, Seq<char>)>,
) -> Seq<(Seq<char>, Seq<char>)> {
    attrs.map_values(|a: (Seq<char>, Seq<char>)| round_attr(table, a))
}

/// An element without namespace information.
pub open spec fn strip_namespace_header(e: SElement) -> SElement {
    SElement { namespace: None, namespaces: None, ..e }
}

/// How each element is rewritten.
pub enum HeaderRule<'a> {
    StripNamespaces,
    ApplyStyle(&'a ComponentStyleRule),
    RemoveClasses(&'a Vec<Vec<char>>),
    StripIds(&'a Vec<Vec<char>>),
    RoundDecimals(&'a Vec<(Vec<char>, Vec<char>)>),
}

/// Rewrites every element's namespace information away.
pub open spec fn strip_namespaces_fn() -> spec_fn(SElement) -> SElement {
    |x: SElement| strip_namespace_header(x)
}

/// Applies a style sheet rule to every element.
pub open spec fn apply_rule_fn(rule: SRule) -> spec_fn(SElement) -> SElement {
    |x: SElement| with_attributes(x, apply_rule_attrs(rule, x.attributes))
}

/// Removes the consumed classes from every element.
pub open spec fn remove_classes_fn(consumed: Seq<Seq<char>>) -> spec_fn(SElement) -> SElement {
    |x: SElement| with_attributes(x, remove_classes_attrs(consumed, x.attributes))
}

/// Removes every `id` that is not in `used`.
pub open spec fn strip_ids_fn(used: Seq<Seq<char>>) -> spec_fn(SElement) -> SElement {
    |x: SElement| with_attributes(x, strip_id_attrs(used, x.attributes))
}

/// Rounds every numeric attribute by `table`.
pub open spec fn round_fn(table: Seq<(Seq<char>, Seq<char>)>) -> spec_fn(SElement) -> SElement {
    |x: SElement| with_attributes(x, round_attrs(table, x.attributes))
}

impl<'a> HeaderRule<'a> {
    pub open spec fn header(&self) -> spec_fn(SElement) -> SElement {
        match self {
            HeaderRule::StripNamespaces => strip_namespaces_fn(),
            HeaderRule::ApplyStyle(r) => apply_rule_fn(r.view()),
            HeaderRule::RemoveClasses(c) => remove_classes_fn(texts_view(c@)),
            HeaderRule::StripIds(u) => strip_ids_fn(texts_view(u@)),
            HeaderRule::RoundDecimals(t) => round_fn(pairs_view(t@)),
        }
    }

    fn apply(&self, e: &mut SvgElement)
        ensures
            final(e).view_element() == (self.header())(old(e).view_element()),
    {
        match self {
            HeaderRule::StripNamespaces => {
                e.namespace = None;
                e.namespaces = None;
            },
            HeaderRule::ApplyStyle(r) => apply_rule_to_attributes(&mut e.attributes, r),
            HeaderRule::RemoveClasses(c) => remove_classes_from_attributes(&mut e.attributes, c),
            HeaderRule::StripIds(u) => strip_id_from_attributes(&mut e.attributes, u),
            HeaderRule::RoundDecimals(t) => round_attributes(&mut e.attributes, t),
        }
    }
}

/// Whether some word of `ws` is in `classes`.
fn any_word_in(ws: &Vec<Vec<char>>, classes: &Vec<Vec<char>>) -> (r: bool)
    ensures
        r == exists|w: Seq<char>| texts_view(ws@).contains(w) && texts_view(classes@).contains(w),
{
    let mut i: usize = 0;
    while i < ws.len()
        invariant
            i <= ws.len(),
            forall|w: Seq<char>|
                #![trigger texts_view(classes@).contains(w)]
                texts_view(ws@).take(i as int).contains(w) ==> !texts_view(classes@).contains(w),
        decreases ws.len() - i,
    {
        if contains_text_in(classes, ws[i].as_slice()) {
            proof {
                assert(texts_view(ws@)[i as int] == ws@[i as int]@);
                assert(texts_view(ws@).contains(ws@[i as int]@));
            }
            return true;
        }
        proof {
            assert forall|w: Seq<char>|
                #![trigger texts_view(classes@).contains(w)]
                texts_view(ws@).take(i + 1).contains(w) implies !texts_view(classes@).contains(w) by {
                let k = choose|k: int| 0 <= k < i + 1 && #[trigger] texts_view(ws@).take(i + 1)[k] == w;
                if k < i {
                    assert(texts_view(ws@).take(i as int)[k] == w);
                } else {
                    assert(w == ws@[i as int]@);
                }
            }
        }
        i += 1;
    }
    assert(texts_view(ws@).take(i as int) =~= texts_view(ws@));
    false
}

/// Whether `v` is one of `set`.
pub fn contains_text_in(set: &Vec<Vec<char>>, v: &[char]) -> (r: bool)
    ensures
        r == texts_view(set@).contains(v@),
{
    let mut j: usize = 0;
    while j < set.len()
        invariant
            j <= set.len(),
            forall|m: int| 0 <= m < j ==> set@[m]@ != v@,
        decreases set.len() - j,
    {
        if eq_chars(set[j].as_slice(), v) {
            assert(texts_view(set@)[j as int] == v@);
            return true;
        }
        j += 1;
    }
    proof {
        if texts_view(set@).contains(v@) {
            let m = choose|m: int| 0 <= m < set@.len() && #[trigger] texts_view(set@)[m] == v@;
            assert(set@[m]@ == v@);
        }
    }
    false
}

fn apply_rule_to_attributes(attrs: &mut Vec<Attribute>, rule: &ComponentStyleRule)
    ensures
        attrs_view(final(attrs)@) == apply_rule_attrs(rule.view(), attrs_view(old(attrs)@)),
{
    let selected = match get_attr(attrs, "class") {
        Some(v) => {
            let ws = split_whitespace(v.as_slice());
            any_word_in(&ws, &rule.classes)
        },
        None => false,
    };
    if !selected {
        return;
    }
    let ghost orig = attrs_view(attrs@);
    let ghost ds = decls_view(rule.declarations@);
    let mut k: usize = 0;
    while k < rule.declarations.len()
        invariant
            k <= rule.declarations.len(),
            ds == decls_view(rule.declarations@),
            attrs_view(attrs@) == insert_all(orig, ds.take(k as int)),
        decreases rule.declarations.len() - k,
    {
        let d = &rule.declarations[k];
        insert_attr(
            attrs,
            crate::text::copy_chars(d.property.as_slice()),
            crate::text::copy_chars(d.value.as_slice()),
        );
        assert(ds.take(k + 1).drop_last() =~= ds.take(k as int));
        assert(ds.take(k + 1).last() == d.view());
        k += 1;
    }
    assert(ds.take(k as int) =~= ds);
}

fn remove_classes_from_attributes(attrs: &mut Vec<Attribute>, consumed: &Vec<Vec<char>>)
    ensures
        attrs_view(final(attrs)@) == remove_classes_attrs(
            texts_view(consumed@),
            attrs_view(old(attrs)@),
        ),
{
    let kept = match get_attr(attrs, "class") {
        None => {
            return;
        },
        Some(v) => {
            let ws = split_whitespace(v.as_slice());
            let ghost wv = texts_view(ws@);
            let mut kept: Vec<Vec<char>> = Vec::new();
            let mut i: usize = 0;
            while i < ws.len()
                invariant
                    i <= ws.len(),
                    wv == texts_view(ws@),
                    texts_view(kept@) == unconsumed(wv.take(i as int), texts_view(consumed@)),
                decreases ws.len() - i,
            {
                assert(wv.take(i + 1).drop_last() =~= wv.take(i as int));
                assert(wv.take(i + 1).last() == ws@[i as int]@);
                if !contains_text_in(consumed, ws[i].as_slice()) {
                    let ghost before = texts_view(kept@);
                    kept.push(crate::text::copy_chars(ws[i].as_slice()));
                    assert(texts_view(kept@) =~= before.push(ws@[i as int]@));
                }
                i += 1;
            }
            assert(wv.take(i as int) =~= wv);
            kept
        },
    };
    if kept.len() == 0 {
        remove_attr(attrs, "class");
    } else {
        let joined = join_with_spaces(kept.as_slice());
        insert_attr(attrs, crate::text::chars_of("class"), joined);
    }
}

fn strip_id_from_attributes(attrs: &mut Vec<Attribute>, used: &Vec<Vec<char>>)
    ensures
        attrs_view(final(attrs)@) == strip_id_attrs(texts_view(used@), attrs_view(old(attrs)@)),
{
    let keep = match get_attr(attrs, "id") {
        Some(id) => contains_text_in(used, id.as_slice()),
        None => true,
    };
    if !keep {
        remove_attr(attrs, "id");
    }
}

/// The value that `table` pairs with `key`, or `key` itself.
pub fn lookup_or_same_exec(table: &Vec<(Vec<char>, Vec<char>)>, key: &[char]) -> (r: Vec<char>)
    ensures
        r@ == lookup_or_same(pairs_view(table@), key@),
{
    let ghost tv = pairs_view(table@);
    let mut i: usize = 0;
    while i < table.len()
        invariant
            i <= table.len(),
            tv == pairs_view(table@),
            lookup_or_same(tv, key@) == lookup_from(tv, key@, i as int),
        decreases table.len() - i,
    {
        if eq_chars(table[i].0.as_slice(), key) {
            return crate::text::copy_chars(table[i].1.as_slice());
        }
        i += 1;
    }
    crate::text::copy_chars(key)
}

fn round_attributes(attrs: &mut Vec<Attribute>, table: &Vec<(Vec<char>, Vec<char>)>)
    ensures
        attrs_view(final(attrs)@) == round_attrs(pairs_view(table@), attrs_view(old(attrs)@)),
{
    let mut old_attrs: Vec<Attribute> = Vec::new();
    std::mem::swap(&mut old_attrs, attrs);
    let ghost ov = attrs_view(old_attrs@);
    let ghost tv = pairs_view(table@);
    for a in it: old_attrs.into_iter()
        invariant
            it.seq() == old_attrs@,
            ov == attrs_view(old_attrs@),
            tv == pairs_view(table@),
            attrs_view(attrs@) == round_attrs(tv, ov.take(it.index() as int)),
    {
        let ghost i = it.index() as int;
        let ghost before = attrs_view(attrs@);
        let ghost av = (a.name@, a.value@);
        assert(ov[i] == av);
        let Attribute { name, value } = a;
        let new_value = if decimal_attribute(name.as_slice()) {
            lookup_or_same_exec(table, value.as_slice())
        } else {
            value
        };
        attrs.push(Attribute { name, value: new_value });
        assert(attrs_view(attrs@) =~= before.push(round_attr(tv, av)));
        assert(round_attrs(tv, ov.take(i + 1)) =~= round_attrs(tv, ov.take(i)).push(round_attr(tv, av)));
    }
    assert(ov.take(ov.len() as int) =~= ov);
}

/// Rewrites each element with `rule`, at every depth.
pub fn map_element(e: SvgElement, rule: &HeaderRule) -> (r: SvgElement)
    ensures
        r.view_element() == map_elements(e.view_element(), rule.header()),
    decreases e,
{
    let ghost ge = e;
    let SvgElement { prefix, namespace, namespaces, name, attributes, children } = e;
    let mut head = SvgElement { prefix, namespace, namespaces, name, attributes, children: Vec::new() };
    assert(head.view_element() == with_children(ge.view_element(), Seq::empty()));
    rule.apply(&mut head);
    let ghost cv = children@;
    let ghost f = rule.header();
    let mut out: Vec<SvgNode> = Vec::new();
    for child in it: children.into_iter()
        invariant
            it.seq() == cv,
            ge == e,
            cv == ge.children@,
            f == rule.header(),
            view_nodes(out@) == map_nodes(view_nodes(cv.take(it.index() as int)), f),
    {
        let ghost i = it.index() as int;
        let ghost x = view_nodes(cv.take(i));
        let ghost cview = child.view();
        proof {
            assert(cv.take(i + 1).drop_last() =~= cv.take(i));
            assert(cv.take(i + 1).last() == child);
            assert(view_nodes(cv.take(i + 1)) == x.push(cview));
            assert(x.push(cview).drop_last() =~= x);
        }
        let mapped = match child {
            SvgNode::Element(c) => {
                proof {
                    assert(decreases_to!(ge => c));
                }
                SvgNode::Element(map_element(c, rule))
            },
            other => other,
        };
        let ghost prev = out@;
        out.push(mapped);
        assert(out@.drop_last() =~= prev);
        assert(mapped.view() == map_node(cview, f));
    }
    proof {
        assert(cv.take(cv.len() as int) =~= cv);
    }
    head.children = out;
    head
}

/* ------------------------------------------------------------------ */
/*  Empty groups                                                      */
/* ------------------------------------------------------------------ */

/// Whether `n` may stay inside a removable empty group: no element, no text (plain or
/// CDATA) that is more than white space.
pub open spec fn inert_child(n: SNode) -> bool {
    match n {
        SNode::Element(_) => false,
        SNode::Text(t) => trim(t).len() == 0,
        SNode::CData(t) => trim(t).len() == 0,
        _ => true,
    }
}

/// A `<g>` with no `id`, no element children and no text but white space.
pub open spec fn is_removable_empty_group(e: SElement) -> bool {
    &&& e.name == "g"@
    &&& !attr_has(e.attributes, "id"@)
    &&& forall|i: int| 0 <= i < e.children.len() ==> inert_child(#[trigger] e.children[i])
}

/// Whether `n` is a removable empty group.
pub open spec fn removable_node(n: SNode) -> bool {
    n matches SNode::Element(c) && is_removable_empty_group(c)
}

/// The nodes of `s` without the removable empty groups.
pub open spec fn drop_empty_groups(s: Seq<SNode>) -> Seq<SNode>
    decreases s.len(),
{
    if s.len() == 0 {
        s
    } else if removable_node(s.last()) {
        drop_empty_groups(s.drop_last())
    } else {
        drop_empty_groups(s.drop_last()).push(s.last())
    }
}

/// One pass over `e`: each child is cleaned first, then the removable empty groups among
/// the children go away; the flag tells whether anything was removed.
pub open spec fn groups_pass(e: SElement) -> (SElement, bool)
    decreases e,
{
    let (cs, changed) = groups_nodes(e.children);
    let kept = drop_empty_groups(cs);
    (with_children(e, kept), changed || kept.len() != cs.len())
}

pub open spec fn groups_nodes(s: Seq<SNode>) -> (Seq<SNode>, bool)
    decreases s,
{
    if s.len() == 0 {
        (s, false)
    } else {
        let (r, c1) = groups_nodes(s.drop_last());
        let (n, c2) = groups_node(s.last());
        (r.push(n), c1 || c2)
    }
}

pub open spec fn groups_node(n: SNode) -> (SNode, bool)
    decreases n,
{
    match n {
        SNode::Element(c) => {
            let (c2, ch) = groups_pass(c);
            (SNode::Element(c2), ch)
        },
        _ => (n, false),
    }
}

/// The number of nodes in an element, itself included.
pub open spec fn elem_size(e: SElement) -> nat
    decreases e,
{
    1 + nodes_size(e.children)
}

pub open spec fn nodes_size(s: Seq<SNode>) -> nat
    decreases s,
{
    if s.len() == 0 {
        0
    } else {
        nodes_size(s.drop_last()) + node_size(s.last())
    }
}

pub open spec fn node_size(n: SNode) -> nat
    decreases n,
{
    match n {
        SNode::Element(c) => elem_size(c),
        _ => 1,
    }
}

pub proof fn lemma_node_size_pos(n: SNode)
    ensures
        node_size(n) >= 1,
{
}

pub proof fn lemma_drop_size(s: Seq<SNode>)
    ensures
        nodes_size(drop_empty_groups(s)) <= nodes_size(s),
        drop_empty_groups(s).len() <= s.len(),
        drop_empty_groups(s).len() != s.len() ==> nodes_size(drop_empty_groups(s)) < nodes_size(s),
    decreases s.len(),
{
    if s.len() > 0 {
        lemma_drop_size(s.drop_last());
        lemma_node_size_pos(s.last());
        let d = drop_empty_groups(s.drop_last());
        assert(d.push(s.last()).drop_last() =~= d);
    }
}

pub proof fn lemma_groups_pass_size(e: SElement)
    ensures
        elem_size(groups_pass(e).0) <= elem_size(e),
        groups_pass(e).1 ==> elem_size(groups_pass(e).0) < elem_size(e),
    decreases e,
{
    lemma_groups_nodes_size(e.children);
    lemma_drop_size(groups_nodes(e.children).0);
}

pub proof fn lemma_groups_nodes_size(s: Seq<SNode>)
    ensures
        groups_nodes(s).0.len() == s.len(),
        nodes_size(groups_nodes(s).0) <= nodes_size(s),
        groups_nodes(s).1 ==> nodes_size(groups_nodes(s).0) < nodes_size(s),
    decreases s,
{
    if s.len() > 0 {
        lemma_groups_nodes_size(s.drop_last());
        lemma_groups_node_size(s.last());
        let (r, c1) = groups_nodes(s.drop_last());
        let (n, c2) = groups_node(s.last());
        assert(r.push(n).drop_last() =~= r);
    }
}

pub proof fn lemma_groups_node_size(n: SNode)
    ensures
        node_size(groups_node(n).0) <= node_size(n),
        groups_node(n).1 ==> node_size(groups_node(n).0) < node_size(n),
    decreases n,
{
    if let SNode::Element(c) = n {
        lemma_groups_pass_size(c);
    }
}

/// Passes repeated until one removes nothing.
pub open spec fn remove_empty_groups_spec(e: SElement) -> SElement
    decreases elem_size(e),
{
    let (e2, changed) = groups_pass(e);
    if changed {
        proof {
            lemma_groups_pass_size(e);
        }
        remove_empty_groups_spec(e2)
    } else {
        e2
    }
}

fn removable_empty_group(e: &SvgElement) -> (r: bool)
    ensures
        r == is_removable_empty_group(e.view_element()),
{
    if !eq_str(e.name.as_slice(), "g") {
        return false;
    }
    if crate::tree::has_attr(&e.attributes, "id") {
        return false;
    }
    let ghost cv = view_nodes(e.children@);
    let mut i: usize = 0;
    while i < e.children.len()
        invariant
            i <= e.children.len(),
            cv == view_nodes(e.children@),
            forall|j: int| 0 <= j < i ==> inert_child(#[trigger] cv[j]),
        decreases e.children.len() - i,
    {
        proof {
            lemma_view_nodes(e.children@);
        }
        assert(cv[i as int] == e.children@[i as int].view());
        match &e.children[i] {
            SvgNode::Element(_) => {
                assert(!inert_child(e.view_element().children[i as int]));
                return false;
            },
            SvgNode::Text(t) => {
                if !crate::text::is_blank(t.as_slice()) {
                    assert(!inert_child(e.view_element().children[i as int]));
                    return false;
                }
            },
            SvgNode::CData(t) => {
                if !crate::text::is_blank(t.as_slice()) {
                    assert(!inert_child(e.view_element().children[i as int]));
                    return false;
                }
            },
            _ => {},
        }
        i += 1;
    }
    assert forall|j: int| 0 <= j < e.view_element().children.len() implies inert_child(
        #[trigger] e.view_element().children[j],
    ) by {
        assert(cv[j] == e.view_element().children[j]);
    }
    true
}

fn removable_node_exec(n: &SvgNode) -> (r: bool)
    ensures
        r == removable_node(n.view()),
{
    match n {
        SvgNode::Element(c) => removable_empty_group(c),
        _ => false,
    }
}

/// One pass that removes empty groups bottom-up; answers whether it removed anything.
pub fn remove_empty_groups(e: SvgElement) -> (r: (SvgElement, bool))
    ensures
        (r.0.view_element(), r.1) == groups_pass(e.view_element()),
    decreases e,
{
    let ghost ge = e;
    let SvgElement { prefix, namespace, namespaces, name, attributes, children } = e;
    let ghost cv = children@;
    let mut out: Vec<SvgNode> = Vec::new();
    let mut changed = false;
    for child in it: children.into_iter()
        invariant
            it.seq() == cv,
            ge == e,
            cv == ge.children@,
            groups_nodes(view_nodes(cv.take(it.index() as int))).0.len() == it.index(),
            view_nodes(out@) == drop_empty_groups(groups_nodes(view_nodes(cv.take(it.index() as int))).0),
            changed == (groups_nodes(view_nodes(cv.take(it.index() as int))).1 || out@.len()
                != it.index()),
            out@.len() <= it.index(),
    {
        let ghost i = it.index() as int;
        let ghost x = view_nodes(cv.take(i));
        let ghost cview = child.view();
        proof {
            assert(cv.take(i + 1).drop_last() =~= cv.take(i));
            assert(cv.take(i + 1).last() == child);
            assert(view_nodes(cv.take(i + 1)) == x.push(cview));
            assert(x.push(cview).drop_last() =~= x);
            lemma_groups_nodes_size(x);
            let (r, c1) = groups_nodes(x);
            let (n, c2) = groups_node(cview);
            assert(r.push(n).drop_last() =~= r);
        }
        let processed = match child {
            SvgNode::Element(c) => {
                proof {
                    assert(decreases_to!(ge => c));
                }
                let (c2, ch) = remove_empty_groups(c);
                if ch {
                    changed = true;
                }
                SvgNode::Element(c2)
            },
            other => other,
        };
        assert(processed.view() == groups_node(cview).0);
        if removable_node_exec(&processed) {
            changed = true;
        } else {
            let ghost prev = out@;
            out.push(processed);
            assert(out@.drop_last() =~= prev);
        }
    }
    proof {
        assert(cv.take(cv.len() as int) =~= cv);
    }
    (SvgElement { prefix, namespace, namespaces, name, attributes, children: out }, changed)
}

/// Removes empty groups until none is left, since removing one may empty its parent.
pub fn remove_all_empty_groups(e: SvgElement) -> (r: SvgElement)
    ensures
        r.view_element() == remove_empty_groups_spec(e.view_element()),
{
    let mut cur = e;
    loop
        invariant
            remove_empty_groups_spec(cur.view_element()) == remove_empty_groups_spec(
                e.view_element(),
            ),
        decreases elem_size(cur.view_element()),
    {
        proof {
            lemma_groups_pass_size(cur.view_element());
        }
        let (next, changed) = remove_empty_groups(cur);
        if !changed {
            return next;
        }
        cur = next;
    }
}

/* ------------------------------------------------------------------ */
/*  White space                                                       */
/* ------------------------------------------------------------------ */

/// Elements whose text is significant.
pub open spec fn is_textual_name(n: Seq<char>) -> bool {
    n == "text"@ || n == "tspan"@ || n == "textPath"@ || n == "style"@ || n == "script"@
}

/// A text with its runs of white space collapsed into single spaces and trimmed.
pub open spec fn collapse_spec(t: Seq<char>) -> Seq<char> {
    join_words(words(t))
}

/// Whether an element asks for its white space to be preserved.
pub open spec fn preserves_space(e: SElement) -> bool {
    attr_get(e.attributes, "xml:space"@) == Some("preserve"@)
}

/// `e` with the white space of its text handled at every depth: outside textual elements
/// blank text goes away and other text is trimmed; inside them runs collapse; where
/// `xml:space="preserve"` is set, text stays as it is.
pub open spec fn ws_element(e: SElement) -> SElement
    decreases e,
{
    with_children(e, ws_nodes(e.children, preserves_space(e), is_textual_name(e.name)))
}

pub open spec fn ws_nodes(s: Seq<SNode>, preserve: bool, textual: bool) -> Seq<SNode>
    decreases s,
{
    if s.len() == 0 {
        s
    } else {
        let r = ws_nodes(s.drop_last(), preserve, textual);
        match s.last() {
            SNode::Element(c) => r.push(SNode::Element(ws_element(c))),
            SNode::Text(t) => if preserve {
                r.push(s.last())
            } else if trim(t).len() == 0 && !textual {
                r
            } else if textual {
                r.push(SNode::Text(collapse_spec(t)))
            } else {
                r.push(SNode::Text(trim(t)))
            },
            _ => r.push(s.last()),
        }
    }
}

/// Collapsing leaves a text with no white space at either end and single spaces inside.
pub proof fn law_collapse_is_collapsed(t: Seq<char>)
    ensures
        crate::text::is_collapsed(collapse_spec(t)),
{
    crate::text::lemma_words_are_words(t);
    crate::text::lemma_join_words_collapsed(words(t));
}

/// Collapsing white space twice is collapsing it once.
pub proof fn law_collapse_idempotent(t: Seq<char>)
    ensures
        collapse_spec(collapse_spec(t)) == collapse_spec(t),
{
    crate::text::lemma_words_are_words(t);
    crate::text::lemma_words_of_join(words(t));
}

/// Collapses each run of white space into one space and trims the ends.
pub fn collapse_whitespace(s: &[char]) -> (r: Vec<char>)
    ensures
        r@ == collapse_spec(s@),
{
    let ws = split_whitespace(s);
    join_with_spaces(ws.as_slice())
}

fn textual_name(n: &[char]) -> (r: bool)
    ensures
        r == is_textual_name(n@),
{
    eq_str(n, "text") || eq_str(n, "tspan") || eq_str(n, "textPath") || eq_str(n, "style")
        || eq_str(n, "script")
}

/// Removes and collapses insignificant white space in text, at every depth.
pub fn strip_whitespace(e: SvgElement) -> (r: SvgElement)
    ensures
        r.view_element() == ws_element(e.view_element()),
    decreases e,
{
    let ghost ge = e;
    let preserve = match get_attr(&e.attributes, "xml:space") {
        Some(v) => eq_str(v.as_slice(), "preserve"),
        None => false,
    };
    assert(preserve == preserves_space(e.view_element()));
    let textual = textual_name(e.name.as_slice());
    let SvgElement { prefix, namespace, namespaces, name, attributes, children } = e;
    let ghost cv = children@;
    let mut out: Vec<SvgNode> = Vec::new();
    for child in it: children.into_iter()
        invariant
            it.seq() == cv,
            ge == e,
            cv == ge.children@,
            view_nodes(out@) == ws_nodes(view_nodes(cv.take(it.index() as int)), preserve, textual),
    {
        let ghost i = it.index() as int;
        let ghost x = view_nodes(cv.take(i));
        let ghost cview = child.view();
        proof {
            assert(cv.take(i + 1).drop_last() =~= cv.take(i));
            assert(cv.take(i + 1).last() == child);
            assert(view_nodes(cv.take(i + 1)) == x.push(cview));
            assert(x.push(cview).drop_last() =~= x);
        }
        let ghost prev = out@;
        match child {
            SvgNode::Element(c) => {
                proof {
                    assert(decreases_to!(ge => c));
                }
                out.push(SvgNode::Element(strip_whitespace(c)));
            },
            SvgNode::Text(t) => {
                if preserve {
                    out.push(SvgNode::Text(t));
                } else if !textual && crate::text::is_blank(t.as_slice()) {
                } else if textual {
                    out.push(SvgNode::Text(collapse_whitespace(t.as_slice())));
                } else {
                    out.push(SvgNode::Text(trimmed(t.as_slice())));
                }
            },
            other => {
                out.push(other);
            },
        }
        proof {
            if out@.len() > prev.len() {
                assert(out@.drop_last() =~= prev);
            } else {
                assert(out@ =~= prev);
            }
        }
    }
    proof {
        assert(cv.take(cv.len() as int) =~= cv);
    }
    SvgElement { prefix, namespace, namespaces, name, attributes, children: out }
}

/* ------------------------------------------------------------------ */
/*  Colors                                                            */
/* ------------------------------------------------------------------ */

/// The attributes whose colors are shortened.
pub open spec fn is_color_attribute(n: Seq<char>) -> bool {
    n == "fill"@ || n == "stroke"@ || n == "stop-color"@ || n == "color"@ || n
        == "background-color"@
}

/// A matched color `#rrggbb` in its three-digit lower-case form where each pair repeats a
/// digit, else as it was written; the flag tells whether it was shortened.
pub open spec fn shrink_match(m: Seq<char>) -> (Seq<char>, bool) {
    let l = ascii_lower(m);
    if l[1] == l[2] && l[3] == l[4] && l[5] == l[6] {
        (seq!['#', l[1], l[3], l[5]], true)
    } else {
        (m, false)
    }
}

/// A three-digit color `#rgb` written out in six digits.
pub open spec fn expand_short_color(r: Seq<char>) -> Seq<char> {
    seq!['#', r[1], r[1], r[2], r[2], r[3], r[3]]
}

/// Shortening a color loses nothing but letter case: a shortened color expands back to
/// the lower-cased color, and a color that cannot be shortened keeps its text.
pub proof fn law_color_shrink_lossless(m: Seq<char>)
    requires
        m.len() == 7,
        m[0] == '#',
    ensures
        shrink_match(m).1 ==> shrink_match(m).0.len() == 4 && expand_short_color(shrink_match(m).0)
            == ascii_lower(m),
        !shrink_match(m).1 ==> shrink_match(m).0 == m,
{
    let l = ascii_lower(m);
    if shrink_match(m).1 {
        assert(l[0] == '#');
        assert(expand_short_color(shrink_match(m).0) =~= l);
    }
}

/// `url(`, the opening of a reference.
pub open spec fn url_opening() -> Seq<char> {
    seq!['u', 'r', 'l', '(']
}

/// Whether the text before a match ends in `url(` (any ASCII letter case), then optional
/// white space and an optional quote: the match names a fragment, not a color.
pub open spec fn opens_url(gap: Seq<char>) -> bool {
    let a = trim_end(gap);
    let b = if a.len() > 0 && (a.last() == '\'' || a.last() == '"') {
        trim_end(a.drop_last())
    } else {
        a
    };
    b.len() >= 4 && ascii_lower(b.skip(b.len() - 4)) == url_opening()
}

/// One segment with its match replaced, unless the match is a `url(#...)` reference.
pub open spec fn shrink_segment(seg: (Seq<char>, Seq<char>)) -> (Seq<char>, bool) {
    if opens_url(seg.0) {
        (seg.1, false)
    } else {
        shrink_match(seg.1)
    }
}

/// The segments with each match replaced, and whether any was shortened.
pub open spec fn shrink_segments(segs: Seq<(Seq<char>, Seq<char>)>) -> (Seq<char>, bool)
    decreases segs.len(),
{
    if segs.len() == 0 {
        (Seq::empty(), false)
    } else {
        let (r, b) = shrink_segments(segs.drop_last());
        let (rep, sh) = shrink_segment(segs.last());
        (r + segs.last().0 + rep, b || sh)
    }
}

/// Whether a gap before a match opens a `url(` reference.
fn gap_opens_url(gap: &[char]) -> (r: bool)
    ensures
        r == opens_url(gap@),
{
    let a = skip_ws_backward(gap, 0, gap.len());
    assert(gap@.subrange(0, gap@.len() as int) =~= gap@);
    let b = if a > 0 && (gap[a - 1] == '\'' || gap[a - 1] == '"') {
        assert(gap@.subrange(0, a as int).drop_last() =~= gap@.subrange(0, a - 1));
        skip_ws_backward(gap, 0, a - 1)
    } else {
        a
    };
    if b < 4 {
        return false;
    }
    let tail = sub_chars(gap, b - 4, b);
    let low = to_ascii_lower(tail.as_slice());
    proof {
        let bs = gap@.subrange(0, b as int);
        assert(bs.skip(bs.len() - 4) =~= tail@);
    }
    let r = low[0] == 'u' && low[1] == 'r' && low[2] == 'l' && low[3] == '(';
    proof {
        if r {
            assert(low@ =~= url_opening());
        } else {
            assert(low@ != url_opening()) by {
                if low@ == url_opening() {
                    assert(low@[0] == 'u' && low@[1] == 'r' && low@[2] == 'l' && low@[3] == '(');
                }
            }
        }
    }
    r
}

/// A text with each six-digit hex color replaced as `shrink_segment` says.
pub open spec fn shrink_colors_spec(s: Seq<char>) -> (Seq<char>, bool) {
    let (segs, tail) = hex_color_segments(s);
    let (r, b) = shrink_segments(segs);
    (r + tail, b)
}

/// Shortens the six-digit hex colors of a text that can be written with three digits.
pub fn shrink_colors_in_str(s: &[char]) -> (r: (Vec<char>, bool))
    ensures
        (r.0@, r.1) == shrink_colors_spec(s@),
        s@ == segments_text(hex_color_segments(s@).0) + hex_color_segments(s@).1,
        forall|i: int|
            0 <= i < hex_color_segments(s@).0.len() ==> {
                let m = (#[trigger] hex_color_segments(s@).0[i]).1;
                &&& m.len() == 7
                &&& m[0] == '#'
                &&& forall|k: int| 1 <= k < 7 ==> is_hex_digit(#[trigger] m[k])
            },
        exists|reps: Seq<Seq<char>>|
            reps.len() == hex_color_segments(s@).0.len() && r.0@ == segments_text(
                #[trigger] with_matches(hex_color_segments(s@).0, reps),
            ) + hex_color_segments(s@).1 && (forall|i: int|
                0 <= i < hex_color_segments(s@).0.len() ==> stands_for(
                    #[trigger] reps[i],
                    hex_color_segments(s@).0[i].1,
                )) && (r.1 <==> exists|i: int|
                0 <= i < hex_color_segments(s@).0.len() && #[trigger] reps[i]
                    != hex_color_segments(s@).0[i].1),
{
    let (segments, tail) = find_hex_colors(string_of(s).as_str());
    let ghost sv = segments@.map_values(|p: (String, String)| (p.0@, p.1@));
    let mut out: Vec<char> = Vec::new();
    let mut shrunk = false;
    let mut k: usize = 0;
    while k < segments.len()
        invariant
            k <= segments.len(),
            sv == segments@.map_values(|p: (String, String)| (p.0@, p.1@)),
            forall|i: int|
                0 <= i < segments@.len() ==> {
                    let m = #[trigger] segments@[i].1@;
                    &&& m.len() == 7
                },
            (out@, shrunk) == shrink_segments(sv.take(k as int)),
        decreases segments.len() - k,
    {
        let gap = chars_of(segments[k].0.as_str());
        let m = chars_of(segments[k].1.as_str());
        assert(sv[k as int] == (gap@, m@));
        assert(m@.len() == 7);
        let lower = to_ascii_lower(m.as_slice());
        append_chars(&mut out, gap.as_slice());
        if gap_opens_url(gap.as_slice()) {
            append_chars(&mut out, m.as_slice());
        } else if lower[1] == lower[2] && lower[3] == lower[4] && lower[5] == lower[6] {
            shrunk = true;
            out.push('#');
            out.push(lower[1]);
            out.push(lower[3]);
            out.push(lower[5]);
        } else {
            append_chars(&mut out, m.as_slice());
        }
        proof {
            assert(sv.take(k + 1).drop_last() =~= sv.take(k as int));
            let (r, b) = shrink_segments(sv.take(k as int));
            let (rep, sh) = shrink_segment((gap@, m@));
            assert(out@ =~= r + gap@ + rep);
        }
        k += 1;
    }
    assert(sv.take(k as int) =~= sv);
    let t = chars_of(tail.as_str());
    append_chars(&mut out, t.as_slice());
    proof {
        let segs = hex_color_segments(s@).0;
        assert(segs == sv);
        assert forall|i: int| 0 <= i < segs.len() implies (#[trigger] segs[i]).1.len() == 7
            && segs[i].1[0] == '#' && forall|k: int| 1 <= k < 7 ==> is_hex_digit(#[trigger] segs[i].1[k]) by {
            assert(segs[i].1 == segments@[i].1@);
        }
        lemma_join_segments_text(sv, tail@);
        law_shrink_colors_lossless(s@);
    }
    (out, shrunk)
}

/// One attribute after its colors are shortened, and whether any was; an attribute keeps
/// its text unless some color shortens.
pub open spec fn color_attr(a: (Seq<char>, Seq<char>)) -> ((Seq<char>, Seq<char>), bool) {
    if is_color_attribute(a.0) {
        let (nv, sh) = shrink_colors_spec(a.1);
        if sh {
            ((a.0, nv), true)
        } else {
            (a, false)
        }
    } else {
        (a, false)
    }
}

pub open spec fn colors_attrs(attrs: Seq<(Seq<char>, Seq<char>)>) -> (
    Seq<(Seq<char>, Seq<char>)>,
    bool,
)
    decreases attrs.len(),
{
    if attrs.len() == 0 {
        (attrs, false)
    } else {
        let (r, b) = colors_attrs(attrs.drop_last());
        let (a, sh) = color_attr(attrs.last());
        (r.push(a), b || sh)
    }
}

/// `e` with the colors of its color attributes, and of the text of its `<style>` elements,
/// shortened at every depth; the flag tells whether any color was shortened.
pub open spec fn colors_element(e: SElement) -> (SElement, bool)
    decreases e,
{
    let (attrs, b1) = colors_attrs(e.attributes);
    let (cs, b2) = colors_nodes(e.children, e.name == "style"@);
    (SElement { attributes: attrs, children: cs, ..e }, b1 || b2)
}

pub open spec fn colors_nodes(s: Seq<SNode>, in_style: bool) -> (Seq<SNode>, bool)
    decreases s,
{
    if s.len() == 0 {
        (s, false)
    } else {
        let (r, b) = colors_nodes(s.drop_last(), in_style);
        match s.last() {
            SNode::Element(c) => {
                let (c2, sh) = colors_element(c);
                (r.push(SNode::Element(c2)), b || sh)
            },
            SNode::Text(t) => if in_style {
                let (nt, sh) = shrink_colors_spec(t);
                if sh {
                    (r.push(SNode::Text(nt)), true)
                } else {
                    (r.push(s.last()), b)
                }
            } else {
                (r.push(s.last()), b)
            },
            _ => (r.push(s.last()), b),
        }
    }
}

fn color_attribute(n: &[char]) -> (r: bool)
    ensures
        r == is_color_attribute(n@),
{
    eq_str(n, "fill") || eq_str(n, "stroke") || eq_str(n, "stop-color") || eq_str(n, "color")
        || eq_str(n, "background-color")
}

fn colors_in_attributes(attrs: Vec<Attribute>) -> (r: (Vec<Attribute>, bool))
    ensures
        (attrs_view(r.0@), r.1) == colors_attrs(attrs_view(attrs@)),
{
    let ghost ov = attrs_view(attrs@);
    let mut out: Vec<Attribute> = Vec::new();
    let mut any = false;
    for a in it: attrs.into_iter()
        invariant
            it.seq() == attrs@,
            ov == attrs_view(attrs@),
            (attrs_view(out@), any) == colors_attrs(ov.take(it.index() as int)),
    {
        let ghost i = it.index() as int;
        let ghost av = (a.name@, a.value@);
        assert(ov[i] == av);
        assert(ov.take(i + 1).drop_last() =~= ov.take(i));
        let ghost before = attrs_view(out@);
        let Attribute { name, value } = a;
        if color_attribute(name.as_slice()) {
            let (nv, sh) = shrink_colors_in_str(value.as_slice());
            if sh {
                out.push(Attribute { name, value: nv });
                any = true;
            } else {
                out.push(Attribute { name, value });
            }
        } else {
            out.push(Attribute { name, value });
        }
        assert(attrs_view(out@) =~= before.push(color_attr(av).0));
    }
    assert(ov.take(ov.len() as int) =~= ov);
    (out, any)
}

/// Shortens hex colors in color attributes and `<style>` text; answers whether any was
/// shortened.
pub fn optimize_colors(e: SvgElement) -> (r: (SvgElement, bool))
    ensures
        (r.0.view_element(), r.1) == colors_element(e.view_element()),
    decreases e,
{
    let ghost ge = e;
    let in_style = eq_str(e.name.as_slice(), "style");
    let SvgElement { prefix, namespace, namespaces, name, attributes, children } = e;
    let (attributes, b1) = colors_in_attributes(attributes);
    let ghost cv = children@;
    let mut out: Vec<SvgNode> = Vec::new();
    let mut any = false;
    for child in it: children.into_iter()
        invariant
            it.seq() == cv,
            ge == e,
            cv == ge.children@,
            (view_nodes(out@), any) == colors_nodes(view_nodes(cv.take(it.index() as int)), in_style),
    {
        let ghost i = it.index() as int;
        let ghost x = view_nodes(cv.take(i));
        let ghost cview = child.view();
        proof {
            assert(cv.take(i + 1).drop_last() =~= cv.take(i));
            assert(cv.take(i + 1).last() == child);
            assert(view_nodes(cv.take(i + 1)) == x.push(cview));
            assert(x.push(cview).drop_last() =~= x);
        }
        let ghost prev = out@;
        match child {
            SvgNode::Element(c) => {
                proof {
                    assert(decreases_to!(ge => c));
                }
                let (c2, sh) = optimize_colors(c);
                if sh {
                    any = true;
                }
                out.push(SvgNode::Element(c2));
            },
            SvgNode::Text(t) => {
                if in_style {
                    let (nt, sh) = shrink_colors_in_str(t.as_slice());
                    if sh {
                        out.push(SvgNode::Text(nt));
                        any = true;
                    } else {
                        out.push(SvgNode::Text(t));
                    }
                } else {
                    out.push(SvgNode::Text(t));
                }
            },
            other => {
                out.push(other);
            },
        }
        assert(out@.drop_last() =~= prev);
    }
    proof {
        assert(cv.take(cv.len() as int) =~= cv);
    }
    (SvgElement { prefix, namespace, namespaces, name, attributes, children: out }, b1 || any)
}

} // verus!
