use svg_strip::cleanup::{
    prune_element, remove_all_empty_groups, remove_empty_groups, strip_whitespace, PruneRule,
};
use svg_strip::component::{apply_icon_style, unwrap_redundant_groups};
use svg_strip::references::strip_unused_ids;
use svg_strip::tree::{get_attr, has_attr, insert_attr, remove_attr, Attribute, SvgElement, SvgNode};
use svg_strip::IconSize;

fn chars(s: &str) -> Vec<char> {
    s.chars().collect()
}

fn string(v: &[char]) -> String {
    v.iter().collect()
}

fn attrs(pairs: &[(&str, &str)]) -> Vec<Attribute> {
    pairs
        .iter()
        .map(|(k, v)| Attribute {
            name: chars(k),
            value: chars(v),
        })
        .collect()
}

fn element(name: &str, pairs: &[(&str, &str)], children: Vec<SvgNode>) -> SvgElement {
    SvgElement {
        prefix: None,
        namespace: None,
        namespaces: None,
        name: chars(name),
        attributes: attrs(pairs),
        children,
    }
}

fn el(name: &str, pairs: &[(&str, &str)], children: Vec<SvgNode>) -> SvgNode {
    SvgNode::Element(element(name, pairs, children))
}

fn txt(s: &str) -> SvgNode {
    SvgNode::Text(chars(s))
}

/// The tree written as a compact text, for comparisons.
fn show(e: &SvgElement) -> String {
    let mut s = format!("<{}", string(&e.name));
    for a in &e.attributes {
        s.push_str(&format!(" {}={}", string(&a.name), string(&a.value)));
    }
    s.push('>');
    for c in &e.children {
        match c {
            SvgNode::Element(x) => s.push_str(&show(x)),
            SvgNode::Text(t) => s.push_str(&format!("[{}]", string(t))),
            SvgNode::Comment(t) => s.push_str(&format!("<!{}>", string(t))),
            SvgNode::CData(t) => s.push_str(&format!("<[{}]>", string(t))),
            SvgNode::ProcessingInstruction(n, _) => s.push_str(&format!("<?{}>", string(n))),
        }
    }
    s.push_str("</>");
    s
}

#[test]
fn attribute_reads_give_back_writes() {
    let mut a = attrs(&[("x", "1"), ("y", "2")]);
    insert_attr(&mut a, chars("x"), chars("3"));
    assert_eq!(get_attr(&a, "x").map(|v| string(v)), Some("3".to_string()));
    assert_eq!(get_attr(&a, "y").map(|v| string(v)), Some("2".to_string()));
    assert_eq!(string(&a[0].name), "x");
    insert_attr(&mut a, chars("z"), chars("4"));
    assert_eq!(string(&a[2].name), "z");
    remove_attr(&mut a, "x");
    assert!(!has_attr(&a, "x"));
    assert_eq!(get_attr(&a, "z").map(|v| string(v)), Some("4".to_string()));
    assert_eq!(a.len(), 2);
    remove_attr(&mut a, "missing");
    assert_eq!(a.len(), 2);
}

#[test]
fn pruning_removes_at_every_depth() {
    let tree = element(
        "svg",
        &[],
        vec![
            el("title", &[], vec![txt("t")]),
            el("g", &[], vec![el("desc", &[], vec![]), SvgNode::Comment(chars("c")), el("path", &[], vec![])]),
        ],
    );
    let pruned = prune_element(tree, &PruneRule::Metadata);
    assert_eq!(show(&pruned), "<svg><g><!c><path></></></>");
    let pruned = prune_element(pruned, &PruneRule::Comments);
    assert_eq!(show(&pruned), "<svg><g><path></></></>");
}

#[test]
fn hidden_pruning_uses_the_zero_texts() {
    let zero = vec![chars("0")];
    let tree = element(
        "svg",
        &[("opacity", "0")],
        vec![
            el("rect", &[("opacity", "0")], vec![]),
            el("rect", &[("opacity", "0.0")], vec![]),
            el("g", &[("display", " none ")], vec![el("path", &[], vec![])]),
        ],
    );
    let pruned = prune_element(tree, &PruneRule::Hidden(&zero));
    assert_eq!(show(&pruned), "<svg opacity=0><rect opacity=0.0></></>");
}

#[test]
fn empty_group_removal_reaches_a_fixed_point() {
    let tree = element(
        "svg",
        &[],
        vec![
            el("g", &[], vec![el("g", &[], vec![txt("  ")]), SvgNode::Comment(chars("c"))]),
            el("g", &[("id", "k")], vec![]),
            el("g", &[], vec![txt("x")]),
        ],
    );
    let (once, changed) = remove_empty_groups(tree);
    assert!(changed);
    assert_eq!(show(&once), "<svg><g id=k></><g>[x]</></>");
    let all = remove_all_empty_groups(once);
    assert_eq!(show(&all), "<svg><g id=k></><g>[x]</></>");
    let (again, changed) = remove_empty_groups(all);
    assert!(!changed);
    assert_eq!(show(&again), "<svg><g id=k></><g>[x]</></>");
}

#[test]
fn redundant_groups_are_unwrapped() {
    let tree = element(
        "svg",
        &[],
        vec![
            el("g", &[], vec![el("g", &[], vec![el("path", &[], vec![])]), txt("t")]),
            el("g", &[("fill", "red")], vec![el("rect", &[], vec![])]),
            el("g", &[], vec![el("animate", &[], vec![])]),
        ],
    );
    let out = unwrap_redundant_groups(tree);
    assert_eq!(
        show(&out),
        "<svg><path></>[t]<g fill=red><rect></></><g><animate></></></>"
    );
}

#[test]
fn whitespace_pass_by_parent() {
    let tree = element(
        "svg",
        &[],
        vec![
            txt("  "),
            el("text", &[], vec![txt("  a  b ")]),
            txt(" c "),
            el("g", &[("xml:space", "preserve")], vec![txt("  d  ")]),
        ],
    );
    let out = strip_whitespace(tree);
    assert_eq!(show(&out), "<svg><text>[a b]</>[c]<g xml:space=preserve>[  d  ]</></>");
}

#[test]
fn unused_ids_go_and_referenced_ids_stay() {
    let tree = element(
        "svg",
        &[("id", "root")],
        vec![
            el("path", &[("id", "a"), ("fill", "url(#b)")], vec![]),
            el("rect", &[("id", "b")], vec![]),
            el("use", &[("href", "#root")], vec![]),
        ],
    );
    let out = strip_unused_ids(tree);
    assert_eq!(
        show(&out),
        "<svg id=root><path fill=url(#b)></><rect id=b></><use href=#root></></>"
    );
}

#[test]
fn icon_style_replaces_size_properties() {
    let size = IconSize::parse("16x24").unwrap();
    let tree = element(
        "svg",
        &[("width", "1"), ("style", "Width: 3px; stroke: red"), ("fill", "blue"), ("height", "2")],
        vec![],
    );
    let out = apply_icon_style(tree, &size).unwrap();
    assert_eq!(
        show(&out),
        "<svg style=stroke: red; width: 16px; height: 24px; overflow: hidden; fill: currentColor></>"
    );
    let tree = element("svg", &[("style", "x")], vec![]);
    assert_eq!(
        apply_icon_style(tree, &size).unwrap_err().to_string(),
        "component mode found an invalid CSS declaration \"x\""
    );
}

#[test]
fn ids_named_in_style_sheets_stay() {
    let tree = element(
        "svg",
        &[],
        vec![
            el("style", &[], vec![txt(".a{fill:url(#g)}"), SvgNode::CData(chars(".b{stroke:URL(#h)}"))]),
            el("linearGradient", &[("id", "g")], vec![]),
            el("linearGradient", &[("id", "h")], vec![]),
            el("linearGradient", &[("id", "k")], vec![]),
        ],
    );
    let out = strip_unused_ids(tree);
    assert_eq!(
        show(&out),
        "<svg><style>[.a{fill:url(#g)}]<[.b{stroke:URL(#h)}]></><linearGradient id=g></><linearGradient id=h></><linearGradient></></>"
    );
}

#[test]
fn groups_with_cdata_text_stay() {
    let tree = element(
        "svg",
        &[],
        vec![
            el("g", &[], vec![SvgNode::CData(chars("abc"))]),
            el("g", &[], vec![SvgNode::CData(chars("  "))]),
        ],
    );
    let (out, changed) = remove_empty_groups(tree);
    assert!(changed);
    assert_eq!(show(&out), "<svg><g><[abc]></></>");
}

#[test]
fn icon_style_applied_twice_changes_nothing() {
    let size = IconSize::parse("16x24").unwrap();
    let tree = element(
        "svg",
        &[
            ("width", "1"),
            ("style", " Width: 3px; stroke: url(#a) ; font-family: 'x;y'; FILL: red"),
            ("fill", "blue"),
            ("viewBox", "0 0 1 1"),
        ],
        vec![el("path", &[("d", "M0 0")], vec![])],
    );
    let once = apply_icon_style(tree, &size).unwrap();
    let first = show(&once);
    assert_eq!(
        first,
        "<svg style=stroke: url(#a); font-family: 'x;y'; width: 16px; height: 24px; overflow: hidden; fill: currentColor viewBox=0 0 1 1><path d=M0 0></></>"
    );
    let twice = apply_icon_style(once, &size).unwrap();
    assert_eq!(show(&twice), first);
}
