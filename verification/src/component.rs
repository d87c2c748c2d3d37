use vstd::prelude::*;
use crate::cleanup::{
    apply_rule_fn, map_element, map_elements, prune, prune_element, remove_classes_fn,
    style_elements_fn, HeaderRule, PruneRule,
};
use crate::css::{
    decls_view, error1, error3, parse_component_stylesheet,
    parse_inline_style, parse_inline_style_spec, rules_view, serialize_css_declarations,
    serialize_declarations_spec, strip_css_comments, strip_css_comments_spec, stylesheet_spec,
    texts_view, ComponentStyleRule, CssDeclaration, SResult, SRule,
};
use crate::error::SvgStripError;
use crate::icon::IconSize;
use crate::text::{
    ascii_lower, chars_of, concat_chars, contains_str, contains_text, eq_chars, eq_str,
    to_ascii_lower, trim, trimmed,
};
use crate::tree::{
    attr_get, attr_has, attr_insert, attr_remove, attrs_view, get_attr, has_attr, insert_attr,
    lemma_view_nodes, remove_attr, view_nodes, with_attributes, with_children, SvgElement, SvgNode,
    SElement, SNode,
};

verus! {

broadcast use {lemma_view_nodes, vstd::string::group_string_axioms};

/// The model of a result that holds an element.
pub open spec fn res_element(r: Result<SvgElement, SvgStripError>) -> SResult<SElement> {
    match r {
        Ok(e) => Ok(e.view_element()),
        Err(err) => Err(err@),
    }
}

pub open spec fn msg_root() -> Seq<char> {
    "component mode requires an <svg> root element"@
}

pub open spec fn msg_view_box() -> Seq<char> {
    "component mode requires a non-empty viewBox attribute"@
}

pub open spec fn msg_space() -> Seq<char> {
    "component mode cannot safely remove xml:space from an SVG containing text"@
}

pub open spec fn msg_filter() -> Seq<char> {
    "component mode cannot safely remove enable-background from an SVG that uses filters"@
}

/* ------------------------------------------------------------------ */
/*  Validation and tree queries                                       */
/* ------------------------------------------------------------------ */

/// The error that component mode finds in a root, if any: it must be an `<svg>` with a
/// `viewBox` that is not blank.
pub open spec fn component_root_error(e: SElement) -> Option<Seq<char>> {
    if e.name != "svg"@ {
        Some(msg_root())
    } else {
        match attr_get(e.attributes, "viewBox"@) {
            None => Some(msg_view_box()),
            Some(v) => if trim(v).len() == 0 {
                Some(msg_view_box())
            } else {
                None
            },
        }
    }
}

/// Checks that a root can become a component.
pub fn validate_component_root(root: &SvgElement) -> (r: Result<(), SvgStripError>)
    ensures
        match r {
            Ok(()) => component_root_error(root.view_element()) is None,
            Err(e) => component_root_error(root.view_element()) == Some(e@),
        },
{
    if !eq_str(root.name.as_slice(), "svg") {
        return Err(error1("component mode requires an <svg> root element"));
    }
    match get_attr(&root.attributes, "viewBox") {
        None => Err(error1("component mode requires a non-empty viewBox attribute")),
        Some(v) => {
            if crate::text::is_blank(v.as_slice()) {
                Err(error1("component mode requires a non-empty viewBox attribute"))
            } else {
                Ok(())
            }
        },
    }
}

/// Elements that hold text.
pub open spec fn is_text_name(n: Seq<char>) -> bool {
    n == "text"@ || n == "tspan"@ || n == "textPath"@
}

/// Whether `e` is or contains a `<text>`, `<tspan>` or `<textPath>`.
pub open spec fn has_text_elements(e: SElement) -> bool
    decreases e,
{
    is_text_name(e.name) || any_text_nodes(e.children)
}

pub open spec fn any_text_nodes(s: Seq<SNode>) -> bool
    decreases s,
{
    s.len() > 0 && (any_text_nodes(s.drop_last()) || (s.last() matches SNode::Element(c)
        && has_text_elements(c)))
}

/// Whether `e` is or contains an element that holds text.
pub fn contains_text_elements(e: &SvgElement) -> (r: bool)
    ensures
        r == has_text_elements(e.view_element()),
    decreases e,
{
    if eq_str(e.name.as_slice(), "text") || eq_str(e.name.as_slice(), "tspan") || eq_str(
        e.name.as_slice(),
        "textPath",
    ) {
        return true;
    }
    let ghost cv = e.children@;
    let mut i: usize = 0;
    while i < e.children.len()
        invariant
            i <= e.children.len(),
            cv == e.children@,
            !any_text_nodes(view_nodes(cv.take(i as int))),
        decreases e.children.len() - i,
    {
        let ghost x = view_nodes(cv.take(i as int));
        let ghost nv = cv[i as int].view();
        proof {
            assert(cv.take(i + 1).drop_last() =~= cv.take(i as int));
            assert(view_nodes(cv.take(i + 1)) == x.push(nv));
            assert(x.push(nv).drop_last() =~= x);
        }
        if let SvgNode::Element(c) = &e.children[i] {
            proof {
                assert(decreases_to!(e => c));
            }
            if contains_text_elements(c) {
                proof {
                    lemma_any_nodes_prefix_text(view_nodes(cv), i + 1);
                    assert(view_nodes(cv).take(i + 1) =~= view_nodes(cv.take(i + 1)));
                }
                return true;
            }
        }
        i += 1;
    }
    assert(cv.take(i as int) =~= cv);
    false
}

proof fn lemma_any_nodes_prefix_text(s: Seq<SNode>, k: int)
    requires
        0 < k <= s.len(),
        any_text_nodes(s.take(k)),
    ensures
        any_text_nodes(s),
    decreases s.len(),
{
    if s.len() > k {
        assert(s.drop_last().take(k) =~= s.take(k));
        lemma_any_nodes_prefix_text(s.drop_last(), k);
    } else {
        assert(s.take(k) =~= s);
    }
}

/// Whether `e` is or contains a `<filter>`, a `filter` attribute, or a `style` that
/// mentions `filter` in any ASCII case.
pub open spec fn has_filter_usage(e: SElement) -> bool
    decreases e,
{
    ||| e.name == "filter"@
    ||| attr_has(e.attributes, "filter"@)
    ||| (attr_get(e.attributes, "style"@) matches Some(s) && contains_text(ascii_lower(s), "filter"@))
    ||| any_filter_nodes(e.children)
}

pub open spec fn any_filter_nodes(s: Seq<SNode>) -> bool
    decreases s,
{
    s.len() > 0 && (any_filter_nodes(s.drop_last()) || (s.last() matches SNode::Element(c)
        && has_filter_usage(c)))
}

proof fn lemma_any_nodes_prefix_filter(s: Seq<SNode>, k: int)
    requires
        0 < k <= s.len(),
        any_filter_nodes(s.take(k)),
    ensures
        any_filter_nodes(s),
    decreases s.len(),
{
    if s.len() > k {
        assert(s.drop_last().take(k) =~= s.take(k));
        lemma_any_nodes_prefix_filter(s.drop_last(), k);
    } else {
        assert(s.take(k) =~= s);
    }
}

/// Whether `e` uses filters anywhere.
pub fn contains_filter_usage(e: &SvgElement) -> (r: bool)
    ensures
        r == has_filter_usage(e.view_element()),
    decreases e,
{
    if eq_str(e.name.as_slice(), "filter") || has_attr(&e.attributes, "filter") {
        return true;
    }
    if let Some(style) = get_attr(&e.attributes, "style") {
        let lower = to_ascii_lower(style.as_slice());
        if contains_str(lower.as_slice(), "filter") {
            return true;
        }
    }
    let ghost cv = e.children@;
    let mut i: usize = 0;
    while i < e.children.len()
        invariant
            i <= e.children.len(),
            cv == e.children@,
            !any_filter_nodes(view_nodes(cv.take(i as int))),
        decreases e.children.len() - i,
    {
        let ghost x = view_nodes(cv.take(i as int));
        let ghost nv = cv[i as int].view();
        proof {
            assert(cv.take(i + 1).drop_last() =~= cv.take(i as int));
            assert(view_nodes(cv.take(i + 1)) == x.push(nv));
            assert(x.push(nv).drop_last() =~= x);
        }
        if let SvgNode::Element(c) = &e.children[i] {
            proof {
                assert(decreases_to!(e => c));
            }
            if contains_filter_usage(c) {
                proof {
                    assert(x.push(nv).last() == nv);
                    assert(any_filter_nodes(x.push(nv)));
                    lemma_view_nodes(cv);
                    lemma_view_nodes(cv.take(i + 1));
                    assert(view_nodes(cv).take(i + 1) =~= view_nodes(cv.take(i + 1)));
                    lemma_any_nodes_prefix_filter(view_nodes(cv), i + 1);
                }
                return true;
            }
        }
        i += 1;
    }
    assert(cv.take(i as int) =~= cv);
    false
}

/// Whether a `fill` value is the default black: `black`, `#000` or `#000000` in any ASCII
/// case, around white space.
pub open spec fn is_default_black_spec(v: Seq<char>) -> bool {
    let l = ascii_lower(trim(v));
    l == "black"@ || l == "#000"@ || l == "#000000"@
}

/// Whether a `fill` value is the default black.
pub fn is_default_black(v: &[char]) -> (r: bool)
    ensures
        r == is_default_black_spec(v@),
{
    let t = trimmed(v);
    let l = to_ascii_lower(t.as_slice());
    eq_str(l.as_slice(), "black") || eq_str(l.as_slice(), "#000") || eq_str(l.as_slice(), "#000000")
}

/* ------------------------------------------------------------------ */
/*  Cleaning the root                                                 */
/* ------------------------------------------------------------------ */

/// Whether a property name is `enable-background` in any ASCII case.
pub open spec fn is_enable_background(p: Seq<char>) -> bool {
    ascii_lower(p) == ascii_lower("enable-background"@)
}

/// The declarations that do not set `enable-background`.
pub open spec fn without_enable_background(ds: Seq<(Seq<char>, Seq<char>)>) -> Seq<
    (Seq<char>, Seq<char>),
>
    decreases ds.len(),
{
    if ds.len() == 0 {
        ds
    } else if is_enable_background(ds.last().0) {
        without_enable_background(ds.drop_last())
    } else {
        without_enable_background(ds.drop_last()).push(ds.last())
    }
}

/// The root without an `enable-background` in its inline style, which only filters need;
/// with filters in use, an error.
pub open spec fn remove_enable_background_spec(e: SElement) -> SResult<SElement> {
    match attr_get(e.attributes, "style"@) {
        None => Ok(e),
        Some(style) => if !contains_text(ascii_lower(style), "enable-background"@) {
            Ok(e)
        } else {
            match parse_inline_style_spec(style) {
                Err(m) => Err(m),
                Ok(ds) => if !(exists|k: int|
                    0 <= k < ds.len() && is_enable_background(#[trigger] ds[k].0)) {
                    Ok(e)
                } else if has_filter_usage(e) {
                    Err(msg_filter())
                } else {
                    let kept = without_enable_background(ds);
                    if kept.len() == 0 {
                        Ok(with_attributes(e, attr_remove(e.attributes, "style"@)))
                    } else {
                        Ok(
                            with_attributes(
                                e,
                                attr_insert(e.attributes, "style"@, serialize_declarations_spec(kept)),
                            ),
                        )
                    }
                },
            }
        },
    }
}

fn enable_background(p: &[char], eb: &[char]) -> (r: bool)
    requires
        eb@ == ascii_lower("enable-background"@),
    ensures
        r == is_enable_background(p@),
{
    let l = to_ascii_lower(p);
    eq_chars(l.as_slice(), eb)
}

/// Removes an `enable-background` declaration from the root's inline style.
pub fn remove_unused_enable_background(root: SvgElement) -> (r: Result<SvgElement, SvgStripError>)
    ensures
        res_element(r) == remove_enable_background_spec(root.view_element()),
{
    let mut root = root;
    let declarations = match get_attr(&root.attributes, "style") {
        None => {
            return Ok(root);
        },
        Some(style) => {
            let lower = to_ascii_lower(style.as_slice());
            if !contains_str(lower.as_slice(), "enable-background") {
                return Ok(root);
            }
            parse_inline_style(style.as_slice())?
        },
    };
    let ghost ds = decls_view(declarations@);
    let eb = to_ascii_lower(chars_of("enable-background").as_slice());
    let mut found = false;
    let mut kept: Vec<CssDeclaration> = Vec::new();
    for d in it: declarations.into_iter()
        invariant
            it.seq() == declarations@,
            ds == decls_view(declarations@),
            eb@ == ascii_lower("enable-background"@),
            decls_view(kept@) == without_enable_background(ds.take(it.index() as int)),
            found == exists|k: int| 0 <= k < it.index() && is_enable_background(#[trigger] ds[k].0),
    {
        let ghost i = it.index() as int;
        let ghost dv = d.view();
        assert(ds[i] == dv);
        assert(ds.take(i + 1).drop_last() =~= ds.take(i));
        let ghost before = decls_view(kept@);
        let ghost was_found = found;
        if enable_background(d.property.as_slice(), eb.as_slice()) {
            found = true;
            assert(is_enable_background(ds[i].0));
        } else {
            kept.push(d);
            assert(decls_view(kept@) =~= before.push(dv));
            assert(!is_enable_background(ds[i].0));
        }
        proof {
            if !found {
                assert forall|k: int| 0 <= k < i + 1 implies !is_enable_background(
                    #[trigger] ds[k].0,
                ) by {
                    if k < i {
                        assert(!was_found);
                    }
                }
            }
        }
    }
    assert(ds.take(ds.len() as int) =~= ds);
    if !found {
        return Ok(root);
    }
    if contains_filter_usage(&root) {
        return Err(
            error1(
                "component mode cannot safely remove enable-background from an SVG that uses filters",
            ),
        );
    }
    if kept.len() == 0 {
        remove_attr(&mut root.attributes, "style");
    } else {
        let text = serialize_css_declarations(kept.as_slice());
        insert_attr(&mut root.attributes, chars_of("style"), text);
    }
    Ok(root)
}

/// The root of a component: without `width`, `height`, `version`, a default black `fill`,
/// `xml:space` (refused where the SVG holds text) and an unused `enable-background`.
pub open spec fn clean_component_root_spec(e: SElement) -> SResult<SElement> {
    let a1 = attr_remove(attr_remove(attr_remove(e.attributes, "width"@), "height"@), "version"@);
    let a2 = match attr_get(a1, "fill"@) {
        Some(f) => if is_default_black_spec(f) {
            attr_remove(a1, "fill"@)
        } else {
            a1
        },
        None => a1,
    };
    if attr_has(a2, "space"@) || attr_has(a2, "xml:space"@) {
        if has_text_elements(e) {
            Err(msg_space())
        } else {
            remove_enable_background_spec(
                with_attributes(e, attr_remove(attr_remove(a2, "space"@), "xml:space"@)),
            )
        }
    } else {
        remove_enable_background_spec(with_attributes(e, a2))
    }
}

/// Removes what a component's root does not need.
pub fn clean_component_root(root: SvgElement) -> (r: Result<SvgElement, SvgStripError>)
    ensures
        res_element(r) == clean_component_root_spec(root.view_element()),
{
    let ghost e0 = root.view_element();
    let mut root = root;
    remove_attr(&mut root.attributes, "width");
    remove_attr(&mut root.attributes, "height");
    remove_attr(&mut root.attributes, "version");
    let black = match get_attr(&root.attributes, "fill") {
        Some(f) => is_default_black(f.as_slice()),
        None => false,
    };
    if black {
        remove_attr(&mut root.attributes, "fill");
    }
    if has_attr(&root.attributes, "space") || has_attr(&root.attributes, "xml:space") {
        if contains_text_elements(&root) {
            assert(has_text_elements(e0));
            return Err(
                error1("component mode cannot safely remove xml:space from an SVG containing text"),
            );
        }
        remove_attr(&mut root.attributes, "space");
        remove_attr(&mut root.attributes, "xml:space");
    }
    remove_unused_enable_background(root)
}

/* ------------------------------------------------------------------ */
/*  Icon style                                                        */
/* ------------------------------------------------------------------ */

/// Whether a property is one that icon mode sets itself.
pub open spec fn is_icon_property(p: Seq<char>) -> bool {
    let l = ascii_lower(p);
    l == "width"@ || l == "height"@ || l == "overflow"@ || l == "fill"@
}

/// The declarations that icon mode keeps.
pub open spec fn without_icon_properties(ds: Seq<(Seq<char>, Seq<char>)>) -> Seq<
    (Seq<char>, Seq<char>),
>
    decreases ds.len(),
{
    if ds.len() == 0 {
        ds
    } else if is_icon_property(ds.last().0) {
        without_icon_properties(ds.drop_last())
    } else {
        without_icon_properties(ds.drop_last()).push(ds.last())
    }
}

/// The declarations that icon mode adds: the size in pixels, no overflow, and a fill that
/// follows the CSS `color`.
pub open spec fn icon_declarations(size: (Seq<char>, Seq<char>)) -> Seq<(Seq<char>, Seq<char>)> {
    seq![
        ("width"@, size.0 + "px"@),
        ("height"@, size.1 + "px"@),
        ("overflow"@, "hidden"@),
        ("fill"@, "currentColor"@),
    ]
}

/// The root of an icon: its inline style without the properties that icon mode sets,
/// then the icon declarations; no `width`, `height` or `fill` attribute.
pub open spec fn apply_icon_style_spec(e: SElement, size: (Seq<char>, Seq<char>)) -> SResult<
    SElement,
> {
    let parsed = match attr_get(e.attributes, "style"@) {
        Some(s) => parse_inline_style_spec(s),
        None => Ok(Seq::empty()),
    };
    match parsed {
        Err(m) => Err(m),
        Ok(ds) => {
            let all = without_icon_properties(ds) + icon_declarations(size);
            let a = attr_remove(attr_remove(attr_remove(e.attributes, "width"@), "height"@), "fill"@);
            Ok(with_attributes(e, attr_insert(a, "style"@, serialize_declarations_spec(all))))
        },
    }
}

fn icon_property(p: &[char]) -> (r: bool)
    ensures
        r == is_icon_property(p@),
{
    let l = to_ascii_lower(p);
    eq_str(l.as_slice(), "width") || eq_str(l.as_slice(), "height") || eq_str(l.as_slice(), "overflow")
        || eq_str(l.as_slice(), "fill")
}

fn declaration(property: &str, value: Vec<char>) -> (r: CssDeclaration)
    ensures
        r.view() == (property@, value@),
{
    CssDeclaration { property: chars_of(property), value }
}

/// Gives the root the icon's size and a fill that follows `color`.
pub fn apply_icon_style(root: SvgElement, icon_size: &IconSize) -> (r: Result<SvgElement, SvgStripError>)
    ensures
        res_element(r) == apply_icon_style_spec(root.view_element(), icon_size@),
{
    let mut root = root;
    let declarations = match get_attr(&root.attributes, "style") {
        Some(style) => parse_inline_style(style.as_slice())?,
        None => Vec::new(),
    };
    let ghost ds = decls_view(declarations@);
    let mut kept: Vec<CssDeclaration> = Vec::new();
    for d in it: declarations.into_iter()
        invariant
            it.seq() == declarations@,
            ds == decls_view(declarations@),
            decls_view(kept@) == without_icon_properties(ds.take(it.index() as int)),
    {
        let ghost i = it.index() as int;
        let ghost dv = d.view();
        assert(ds[i] == dv);
        assert(ds.take(i + 1).drop_last() =~= ds.take(i));
        let ghost before = decls_view(kept@);
        if !icon_property(d.property.as_slice()) {
            kept.push(d);
            assert(decls_view(kept@) =~= before.push(dv));
        }
    }
    assert(ds.take(ds.len() as int) =~= ds);
    let ghost base = decls_view(kept@);
    let px = chars_of("px");
    let w = concat_chars(chars_of(icon_size.width()).as_slice(), px.as_slice());
    let h = concat_chars(chars_of(icon_size.height()).as_slice(), px.as_slice());
    kept.push(declaration("width", w));
    kept.push(declaration("height", h));
    kept.push(declaration("overflow", chars_of("hidden")));
    kept.push(declaration("fill", chars_of("currentColor")));
    assert(decls_view(kept@) =~= base + icon_declarations(icon_size@));
    remove_attr(&mut root.attributes, "width");
    remove_attr(&mut root.attributes, "height");
    remove_attr(&mut root.attributes, "fill");
    let text = serialize_css_declarations(kept.as_slice());
    insert_attr(&mut root.attributes, chars_of("style"), text);
    Ok(root)
}

/* ------------------------------------------------------------------ */
/*  Style sheets                                                      */
/* ------------------------------------------------------------------ */

pub open spec fn msg_style_attribute(n: Seq<char>) -> Seq<char> {
    "component mode does not support the <style> attribute \""@ + n + "\""@
}

pub open spec fn msg_style_type(v: Seq<char>) -> Seq<char> {
    "component mode only supports <style type=\"text/css\">, found \""@ + v + "\""@
}

pub open spec fn msg_style_content() -> Seq<char> {
    "component mode only supports text or CDATA inside <style>"@
}

/// The error of one attribute of a `<style>`: only `type="text/css"` is allowed.
pub open spec fn style_attr_error(a: (Seq<char>, Seq<char>)) -> Option<Seq<char>> {
    if a.0 != "type"@ {
        Some(msg_style_attribute(a.0))
    } else if ascii_lower(trim(a.1)) != ascii_lower("text/css"@) {
        Some(msg_style_type(a.1))
    } else {
        None
    }
}

/// The error of the first attribute of a `<style>` that is not allowed.
pub open spec fn style_attrs_error(attrs: Seq<(Seq<char>, Seq<char>)>) -> Option<Seq<char>>
    decreases attrs.len(),
{
    if attrs.len() == 0 {
        None
    } else {
        match style_attrs_error(attrs.drop_last()) {
            Some(m) => Some(m),
            None => style_attr_error(attrs.last()),
        }
    }
}

/// The text of a `<style>`: its text and CDATA joined, comments left out; none if it holds
/// anything else.
pub open spec fn style_text(s: Seq<SNode>) -> Option<Seq<char>>
    decreases s.len(),
{
    if s.len() == 0 {
        Some(Seq::empty())
    } else {
        match style_text(s.drop_last()) {
            None => None,
            Some(t) => match s.last() {
                SNode::Text(x) => Some(t + x),
                SNode::CData(x) => Some(t + x),
                SNode::Comment(_) => Some(t),
                _ => None,
            },
        }
    }
}

/// The rules of one `<style>` element.
pub open spec fn style_element_rules(e: SElement) -> SResult<Seq<SRule>> {
    match style_attrs_error(e.attributes) {
        Some(m) => Err(m),
        None => match style_text(e.children) {
            None => Err(msg_style_content()),
            Some(css) => match strip_css_comments_spec(css) {
                Err(m) => Err(m),
                Ok(t) => stylesheet_spec(t),
            },
        },
    }
}

/// The rules of every `<style>` in `e`, in document order; the first error stops.
pub open spec fn collect_rules(e: SElement) -> SResult<Seq<SRule>>
    decreases e,
{
    if e.name == "style"@ {
        style_element_rules(e)
    } else {
        collect_rules_nodes(e.children)
    }
}

pub open spec fn collect_rules_nodes(s: Seq<SNode>) -> SResult<Seq<SRule>>
    decreases s,
{
    if s.len() == 0 {
        Ok(Seq::empty())
    } else {
        match collect_rules_nodes(s.drop_last()) {
            Err(m) => Err(m),
            Ok(r) => match s.last() {
                SNode::Element(c) => match collect_rules(c) {
                    Err(m) => Err(m),
                    Ok(r2) => Ok(r + r2),
                },
                _ => Ok(r),
            },
        }
    }
}

/// The rules of one `<style>` element.
pub fn parse_component_style_element(style: &SvgElement) -> (r: Result<
    Vec<ComponentStyleRule>,
    SvgStripError,
>)
    ensures
        match r {
            Ok(v) => style_element_rules(style.view_element()) == Ok::<Seq<SRule>, Seq<char>>(
                rules_view(v@),
            ),
            Err(e) => style_element_rules(style.view_element()) == Err::<Seq<SRule>, Seq<char>>(
                e@,
            ),
        },
{
    let ghost av = attrs_view(style.attributes@);
    let css_type = to_ascii_lower(chars_of("text/css").as_slice());
    let mut k: usize = 0;
    while k < style.attributes.len()
        invariant
            k <= style.attributes.len(),
            av == attrs_view(style.attributes@),
            css_type@ == ascii_lower("text/css"@),
            style_attrs_error(av.take(k as int)) is None,
        decreases style.attributes.len() - k,
    {
        let a = &style.attributes[k];
        assert(av.take(k + 1).drop_last() =~= av.take(k as int));
        assert(av.take(k + 1).last() == (a.name@, a.value@));
        if !eq_str(a.name.as_slice(), "type") {
            proof {
                lemma_style_attrs_error_prefix(av, k + 1);
            }
            return Err(
                error3(
                    "component mode does not support the <style> attribute \"",
                    a.name.as_slice(),
                    "\"",
                ),
            );
        }
        let t = trimmed(a.value.as_slice());
        let l = to_ascii_lower(t.as_slice());
        if !eq_chars(l.as_slice(), css_type.as_slice()) {
            proof {
                lemma_style_attrs_error_prefix(av, k + 1);
            }
            return Err(
                error3(
                    "component mode only supports <style type=\"text/css\">, found \"",
                    a.value.as_slice(),
                    "\"",
                ),
            );
        }
        k += 1;
    }
    assert(av.take(k as int) =~= av);
    let ghost cv = style.children@;
    let mut css: Vec<char> = Vec::new();
    let mut i: usize = 0;
    while i < style.children.len()
        invariant
            i <= style.children.len(),
            cv == style.children@,
            style_attrs_error(attrs_view(style.attributes@)) is None,
            style_text(view_nodes(cv.take(i as int))) == Some(css@),
        decreases style.children.len() - i,
    {
        let ghost x = view_nodes(cv.take(i as int));
        let ghost nv = cv[i as int].view();
        proof {
            assert(cv.take(i + 1).drop_last() =~= cv.take(i as int));
            assert(view_nodes(cv.take(i + 1)) == x.push(nv));
            assert(x.push(nv).drop_last() =~= x);
        }
        match &style.children[i] {
            SvgNode::Text(t) => {
                crate::text::append_chars(&mut css, t.as_slice());
            },
            SvgNode::CData(t) => {
                crate::text::append_chars(&mut css, t.as_slice());
            },
            SvgNode::Comment(_) => {},
            _ => {
                proof {
                    lemma_style_text_prefix(view_nodes(cv), i + 1);
                    assert(view_nodes(cv).take(i + 1) =~= view_nodes(cv.take(i + 1)));
                }
                return Err(error1("component mode only supports text or CDATA inside <style>"));
            },
        }
        i += 1;
    }
    assert(cv.take(i as int) =~= cv);
    let without_comments = strip_css_comments(css.as_slice())?;
    parse_component_stylesheet(without_comments.as_slice())
}

proof fn lemma_style_attrs_error_prefix(av: Seq<(Seq<char>, Seq<char>)>, k: int)
    requires
        0 < k <= av.len(),
        style_attrs_error(av.take(k - 1)) is None,
        style_attr_error(av[k - 1]) is Some,
    ensures
        style_attrs_error(av) == style_attr_error(av[k - 1]),
    decreases av.len(),
{
    if av.len() > k {
        assert(av.drop_last().take(k - 1) =~= av.take(k - 1));
        lemma_style_attrs_error_prefix(av.drop_last(), k);
    } else {
        assert(av.drop_last() =~= av.take(k - 1));
    }
}

proof fn lemma_style_text_prefix(s: Seq<SNode>, k: int)
    requires
        0 < k <= s.len(),
        style_text(s.take(k)) is None,
    ensures
        style_text(s) is None,
    decreases s.len(),
{
    if s.len() > k {
        assert(s.drop_last().take(k) =~= s.take(k));
        lemma_style_text_prefix(s.drop_last(), k);
    } else {
        assert(s.take(k) =~= s);
    }
}

/// Appends the rules of every `<style>` in `element`, in document order.
pub fn collect_component_style_rules(
    element: &SvgElement,
    rules: &mut Vec<ComponentStyleRule>,
) -> (r: Result<(), SvgStripError>)
    ensures
        match r {
            Ok(()) => collect_rules(element.view_element()) matches Ok(more) && rules_view(
                final(rules)@,
            ) == rules_view(old(rules)@) + more,
            Err(e) => collect_rules(element.view_element()) == Err::<Seq<SRule>, Seq<char>>(e@),
        },
    decreases element,
{
    if eq_str(element.name.as_slice(), "style") {
        let parsed = parse_component_style_element(element)?;
        append_rules(rules, parsed);
        return Ok(());
    }
    let ghost start = rules_view(rules@);
    let ghost cv = element.children@;
    let mut i: usize = 0;
    while i < element.children.len()
        invariant
            i <= element.children.len(),
            cv == element.children@,
            collect_rules(element.view_element()) == collect_rules_nodes(view_nodes(cv)),
            collect_rules_nodes(view_nodes(cv.take(i as int))) matches Ok(got) && rules_view(rules@)
                == start + got,
        decreases element.children.len() - i,
    {
        let ghost x = view_nodes(cv.take(i as int));
        let ghost nv = cv[i as int].view();
        proof {
            assert(cv.take(i + 1).drop_last() =~= cv.take(i as int));
            assert(view_nodes(cv.take(i + 1)) == x.push(nv));
            assert(x.push(nv).drop_last() =~= x);
        }
        if let SvgNode::Element(c) = &element.children[i] {
            proof {
                assert(decreases_to!(element => c));
            }
            let ghost before = rules_view(rules@);
            match collect_component_style_rules(c, rules) {
                Ok(()) => {
                    proof {
                        let got = collect_rules_nodes(x)->Ok_0;
                        let more = collect_rules(c.view_element())->Ok_0;
                        assert(rules_view(rules@) =~= start + (got + more));
                    }
                },
                Err(e) => {
                    proof {
                        lemma_collect_rules_prefix(view_nodes(cv), i + 1);
                        assert(view_nodes(cv).take(i + 1) =~= view_nodes(cv.take(i + 1)));
                    }
                    return Err(e);
                },
            }
        }
        i += 1;
    }
    assert(cv.take(i as int) =~= cv);
    Ok(())
}

proof fn lemma_collect_rules_prefix(s: Seq<SNode>, k: int)
    requires
        0 < k <= s.len(),
        collect_rules_nodes(s.take(k)) is Err,
    ensures
        collect_rules_nodes(s) == collect_rules_nodes(s.take(k)),
    decreases s.len(),
{
    if s.len() > k {
        assert(s.drop_last().take(k) =~= s.take(k));
        lemma_collect_rules_prefix(s.drop_last(), k);
    } else {
        assert(s.take(k) =~= s);
    }
}

fn append_rules(v: &mut Vec<ComponentStyleRule>, more: Vec<ComponentStyleRule>)
    ensures
        rules_view(final(v)@) == rules_view(old(v)@) + rules_view(more@),
{
    let ghost mv = rules_view(more@);
    for t in it: more.into_iter()
        invariant
            it.seq() == more@,
            mv == rules_view(more@),
            rules_view(v@) == rules_view(old(v)@) + mv.take(it.index() as int),
    {
        let ghost before = rules_view(v@);
        let ghost i = it.index() as int;
        let ghost tv = t.view();
        assert(mv[i] == tv);
        assert(mv.take(i + 1) =~= mv.take(i).push(tv));
        v.push(t);
        assert(rules_view(v@) =~= before.push(tv));
        assert(rules_view(v@) =~= rules_view(old(v)@) + mv.take(i + 1));
    }
    assert(mv.take(mv.len() as int) =~= mv);
}

/// `e` with each rule applied in turn to every element.
pub open spec fn apply_rules(e: SElement, rules: Seq<SRule>) -> SElement
    decreases rules.len(),
{
    if rules.len() == 0 {
        e
    } else {
        map_elements(apply_rules(e, rules.drop_last()), apply_rule_fn(rules.last()))
    }
}

/// The classes of all rules, in order.
pub open spec fn consumed_classes(rules: Seq<SRule>) -> Seq<Seq<char>>
    decreases rules.len(),
{
    if rules.len() == 0 {
        Seq::empty()
    } else {
        consumed_classes(rules.drop_last()) + rules.last().0
    }
}

/// `e` with its style sheets turned into presentation attributes: each rule applied, the
/// classes the rules use removed, the `<style>` elements gone.
pub open spec fn inline_styles_spec(e: SElement) -> SResult<SElement> {
    match collect_rules(e) {
        Err(m) => Err(m),
        Ok(rules) => Ok(
            prune(
                map_elements(apply_rules(e, rules), remove_classes_fn(consumed_classes(rules))),
                style_elements_fn(),
            ),
        ),
    }
}

/// Turns a component's style sheets into presentation attributes.
pub fn inline_component_styles(root: SvgElement) -> (r: Result<SvgElement, SvgStripError>)
    ensures
        res_element(r) == inline_styles_spec(root.view_element()),
{
    let mut rules: Vec<ComponentStyleRule> = Vec::new();
    collect_component_style_rules(&root, &mut rules)?;
    assert(rules_view(rules@) =~= collect_rules(root.view_element())->Ok_0);
    let ghost rv = rules_view(rules@);
    let ghost e0 = root.view_element();
    let mut root = root;
    let mut k: usize = 0;
    while k < rules.len()
        invariant
            k <= rules.len(),
            rv == rules_view(rules@),
            root.view_element() == apply_rules(e0, rv.take(k as int)),
        decreases rules.len() - k,
    {
        assert(rv.take(k + 1).drop_last() =~= rv.take(k as int));
        assert(rv.take(k + 1).last() == rules@[k as int].view());
        root = map_element(root, &HeaderRule::ApplyStyle(&rules[k]));
        k += 1;
    }
    assert(rv.take(k as int) =~= rv);
    let mut consumed: Vec<Vec<char>> = Vec::new();
    let mut j: usize = 0;
    while j < rules.len()
        invariant
            j <= rules.len(),
            rv == rules_view(rules@),
            texts_view(consumed@) == consumed_classes(rv.take(j as int)),
        decreases rules.len() - j,
    {
        assert(rv.take(j + 1).drop_last() =~= rv.take(j as int));
        assert(rv.take(j + 1).last() == rules@[j as int].view());
        let ghost before = texts_view(consumed@);
        let classes = &rules[j].classes;
        let mut m: usize = 0;
        while m < classes.len()
            invariant
                m <= classes.len(),
                texts_view(consumed@) == before + texts_view(classes@).take(m as int),
            decreases classes.len() - m,
        {
            let ghost b2 = texts_view(consumed@);
            consumed.push(crate::text::copy_chars(classes[m].as_slice()));
            assert(texts_view(classes@).take(m + 1) =~= texts_view(classes@).take(m as int).push(
                classes@[m as int]@,
            ));
            assert(texts_view(consumed@) =~= b2.push(classes@[m as int]@));
            m += 1;
        }
        assert(texts_view(classes@).take(m as int) =~= texts_view(classes@));
        j += 1;
    }
    assert(rv.take(j as int) =~= rv);
    let root = map_element(root, &HeaderRule::RemoveClasses(&consumed));
    Ok(prune_element(root, &PruneRule::StyleElements))
}

/* ------------------------------------------------------------------ */
/*  Redundant groups                                                  */
/* ------------------------------------------------------------------ */

/// The animation elements, which apply to their parent.
pub open spec fn is_animation_name(n: Seq<char>) -> bool {
    n == "animate"@ || n == "animateMotion"@ || n == "animateTransform"@ || n == "set"@
}

/// A `<g>` without attributes and without an animation child: it changes nothing.
pub open spec fn is_redundant_group(e: SElement) -> bool {
    &&& e.name == "g"@
    &&& e.attributes.len() == 0
    &&& forall|i: int|
        0 <= i < e.children.len() ==> !(#[trigger] e.children[i] matches SNode::Element(c)
            && is_animation_name(c.name))
}

/// The nodes with each redundant group replaced by its children.
pub open spec fn flatten_groups(s: Seq<SNode>) -> Seq<SNode>
    decreases s.len(),
{
    if s.len() == 0 {
        s
    } else {
        match s.last() {
            SNode::Element(c) => if is_redundant_group(c) {
                flatten_groups(s.drop_last()) + c.children
            } else {
                flatten_groups(s.drop_last()).push(s.last())
            },
            _ => flatten_groups(s.drop_last()).push(s.last()),
        }
    }
}

/// `e` with its redundant groups unwrapped, bottom-up.
pub open spec fn unwrap_element(e: SElement) -> SElement
    decreases e,
{
    with_children(e, flatten_groups(unwrap_nodes(e.children)))
}

pub open spec fn unwrap_nodes(s: Seq<SNode>) -> Seq<SNode>
    decreases s,
{
    if s.len() == 0 {
        s
    } else {
        unwrap_nodes(s.drop_last()).push(unwrap_node(s.last()))
    }
}

pub open spec fn unwrap_node(n: SNode) -> SNode
    decreases n,
{
    match n {
        SNode::Element(c) => SNode::Element(unwrap_element(c)),
        _ => n,
    }
}

fn animation_name(n: &[char]) -> (r: bool)
    ensures
        r == is_animation_name(n@),
{
    eq_str(n, "animate") || eq_str(n, "animateMotion") || eq_str(n, "animateTransform") || eq_str(
        n,
        "set",
    )
}

/// Whether `e` is a redundant group.
pub fn redundant_group(e: &SvgElement) -> (r: bool)
    ensures
        r == is_redundant_group(e.view_element()),
{
    if !eq_str(e.name.as_slice(), "g") || e.attributes.len() != 0 {
        return false;
    }
    let ghost cv = view_nodes(e.children@);
    let mut i: usize = 0;
    while i < e.children.len()
        invariant
            i <= e.children.len(),
            cv == view_nodes(e.children@),
            forall|j: int|
                0 <= j < i ==> !(#[trigger] cv[j] matches SNode::Element(c) && is_animation_name(
                    c.name,
                )),
        decreases e.children.len() - i,
    {
        proof {
            lemma_view_nodes(e.children@);
        }
        assert(cv[i as int] == e.children@[i as int].view());
        if let SvgNode::Element(c) = &e.children[i] {
            if animation_name(c.name.as_slice()) {
                assert(e.view_element().children[i as int] == cv[i as int]);
                return false;
            }
        }
        i += 1;
    }
    assert forall|j: int| 0 <= j < e.view_element().children.len() implies !(
    #[trigger] e.view_element().children[j] matches SNode::Element(c) && is_animation_name(c.name)) by {
        assert(cv[j] == e.view_element().children[j]);
    }
    true
}

/// Appends the nodes of `more` to `v`.
fn append_nodes(v: &mut Vec<SvgNode>, more: Vec<SvgNode>)
    ensures
        view_nodes(final(v)@) == view_nodes(old(v)@) + view_nodes(more@),
{
    let ghost mv = view_nodes(more@);
    for t in it: more.into_iter()
        invariant
            it.seq() == more@,
            mv == view_nodes(more@),
            view_nodes(v@) == view_nodes(old(v)@) + mv.take(it.index() as int),
    {
        let ghost before = v@;
        let ghost i = it.index() as int;
        let ghost tv = t.view();
        proof {
            lemma_view_nodes(more@);
        }
        assert(more@[i] == t);
        assert(view_nodes(more@)[i] == more@[i].view());
        assert(mv[i] == tv);
        assert(mv.take(i + 1) =~= mv.take(i).push(tv));
        v.push(t);
        assert(v@.drop_last() =~= before);
        assert(view_nodes(v@) =~= view_nodes(old(v)@) + mv.take(i + 1));
    }
    assert(mv.take(mv.len() as int) =~= mv);
}

/// Replaces each group that changes nothing by its children, at every depth.
pub fn unwrap_redundant_groups(e: SvgElement) -> (r: SvgElement)
    ensures
        r.view_element() == unwrap_element(e.view_element()),
    decreases e,
{
    let ghost ge = e;
    let SvgElement { prefix, namespace, namespaces, name, attributes, children } = e;
    let ghost cv = children@;
    let mut out: Vec<SvgNode> = Vec::new();
    for child in it: children.into_iter()
        invariant
            it.seq() == cv,
            ge == e,
            cv == ge.children@,
            view_nodes(out@) == flatten_groups(unwrap_nodes(view_nodes(cv.take(it.index() as int)))),
    {
        let ghost i = it.index() as int;
        let ghost x = view_nodes(cv.take(i));
        let ghost cview = child.view();
        proof {
            assert(cv.take(i + 1).drop_last() =~= cv.take(i));
            assert(cv.take(i + 1).last() == child);
            assert(view_nodes(cv.take(i + 1)) == x.push(cview));
            assert(x.push(cview).drop_last() =~= x);
            let u = unwrap_nodes(x);
            assert(unwrap_nodes(x.push(cview)) == u.push(unwrap_node(cview)));
            assert(u.push(unwrap_node(cview)).drop_last() =~= u);
        }
        let ghost prev = out@;
        match child {
            SvgNode::Element(c) => {
                proof {
                    assert(decreases_to!(ge => c));
                }
                let c2 = unwrap_redundant_groups(c);
                if redundant_group(&c2) {
                    let SvgElement { children: grandchildren, .. } = c2;
                    append_nodes(&mut out, grandchildren);
                } else {
                    out.push(SvgNode::Element(c2));
                    assert(out@.drop_last() =~= prev);
                }
            },
            other => {
                out.push(other);
                assert(out@.drop_last() =~= prev);
            },
        }
    }
    proof {
        assert(cv.take(cv.len() as int) =~= cv);
    }
    SvgElement { prefix, namespace, namespaces, name, attributes, children: out }
}

} // verus!
