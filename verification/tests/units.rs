use svg_strip::cleanup::{collapse_whitespace, decimal_attribute, is_hidden_in_style, shrink_colors_in_str};
use svg_strip::component::is_default_black;
use svg_strip::css::{
    find_css_delimiter_at_top_level, parse_component_stylesheet, parse_inline_style,
    serialize_css_declarations, split_css_at_top_level, strip_css_comments, CssDeclaration,
};
use svg_strip::icon::normalize_icon_dimension;
use svg_strip::references::find_ids_in_value;
use svg_strip::stripper::remove_line_breaks;
use svg_strip::IconSize;

fn chars(s: &str) -> Vec<char> {
    s.chars().collect()
}

fn text(v: &[char]) -> String {
    v.iter().collect()
}

fn texts(v: &[Vec<char>]) -> Vec<String> {
    v.iter().map(|t| text(t)).collect()
}

fn decl(p: &str, v: &str) -> CssDeclaration {
    CssDeclaration {
        property: chars(p),
        value: chars(v),
    }
}

#[test]
fn css_comments_are_removed_outside_strings() {
    assert_eq!(text(&strip_css_comments(&chars("a/*x*/b")).unwrap()), "ab");
    assert_eq!(
        text(&strip_css_comments(&chars("c: '/*keep*/' /**/d")).unwrap()),
        "c: '/*keep*/' d"
    );
    assert_eq!(
        text(&strip_css_comments(&chars(r#""a\"/**/""#)).unwrap()),
        r#""a\"/**/""#
    );
    assert_eq!(text(&strip_css_comments(&chars("a/b*c")).unwrap()), "a/b*c");
}

#[test]
fn css_comment_errors() {
    assert_eq!(
        strip_css_comments(&chars("a /* open")).unwrap_err().to_string(),
        "component mode found an unterminated CSS comment"
    );
    assert_eq!(
        strip_css_comments(&chars("a 'open")).unwrap_err().to_string(),
        "component mode found an unterminated CSS string"
    );
}

#[test]
fn css_split_respects_strings_and_parentheses() {
    let parts = split_css_at_top_level(&chars("a;b(c;d);'e;f'"), ';').unwrap();
    assert_eq!(texts(&parts), vec!["a", "b(c;d)", "'e;f'"]);
    let parts = split_css_at_top_level(&chars(""), ';').unwrap();
    assert_eq!(texts(&parts), vec![""]);
    let parts = split_css_at_top_level(&chars("x;;"), ';').unwrap();
    assert_eq!(texts(&parts), vec!["x", "", ""]);
}

#[test]
fn css_split_then_join_gives_the_input() {
    for input in ["a;b(c;d);'e;f'", "fill: red; stroke: url(x;y)", ";;", "plain"] {
        let parts = split_css_at_top_level(&chars(input), ';').unwrap();
        assert!(!parts.is_empty());
        assert_eq!(texts(&parts).join(";"), input);
    }
}

#[test]
fn css_split_errors() {
    let cases = [
        ("a)", "component mode found unbalanced CSS parentheses"),
        ("(a", "component mode found unbalanced CSS parentheses"),
        ("a{b", "component mode does not support nested CSS syntax"),
        ("a}b", "component mode does not support nested CSS syntax"),
        ("'a", "component mode found an unterminated CSS string"),
    ];
    for (input, message) in cases {
        assert_eq!(
            split_css_at_top_level(&chars(input), ';').unwrap_err().to_string(),
            message
        );
    }
}

#[test]
fn css_delimiter_is_found_at_top_level_only() {
    assert_eq!(
        find_css_delimiter_at_top_level(&chars("fill:url(a:b)"), ':').unwrap(),
        Some(4)
    );
    assert_eq!(
        find_css_delimiter_at_top_level(&chars("'a:b'x:y"), ':').unwrap(),
        Some(6)
    );
    assert_eq!(find_css_delimiter_at_top_level(&chars("fill"), ':').unwrap(), None);
    assert!(find_css_delimiter_at_top_level(&chars("a(:"), ':').is_err());
}

#[test]
fn inline_style_is_parsed_and_serialized() {
    let ds = parse_inline_style(&chars("fill: red; stroke : blue ;/* c */ FILL-Rule:evenodd")).unwrap();
    let pairs: Vec<(String, String)> = ds
        .iter()
        .map(|d| (text(&d.property), text(&d.value)))
        .collect();
    assert_eq!(
        pairs,
        vec![
            ("fill".to_string(), "red".to_string()),
            ("stroke".to_string(), "blue".to_string()),
            ("FILL-Rule".to_string(), "evenodd".to_string()),
        ]
    );
    assert_eq!(
        text(&serialize_css_declarations(&[decl("fill", "red"), decl("stroke", "blue")])),
        "fill: red; stroke: blue"
    );
    assert_eq!(text(&serialize_css_declarations(&[])), "");
    assert_eq!(parse_inline_style(&chars("  ; ")).unwrap().len(), 0);
}

#[test]
fn inline_style_errors() {
    assert_eq!(
        parse_inline_style(&chars("fill")).unwrap_err().to_string(),
        "component mode found an invalid CSS declaration \"fill\""
    );
    assert_eq!(
        parse_inline_style(&chars("a: b; fill:")).unwrap_err().to_string(),
        "component mode found an invalid CSS declaration \"fill:\""
    );
    assert_eq!(
        parse_inline_style(&chars(": red")).unwrap_err().to_string(),
        "component mode found an invalid CSS declaration \": red\""
    );
}

#[test]
fn stylesheet_rules_are_read() {
    let rules = parse_component_stylesheet(&chars(" .a { FILL: red; } .b, .c{stroke-width:2}")).unwrap();
    assert_eq!(rules.len(), 2);
    assert_eq!(texts(&rules[0].classes), vec!["a"]);
    assert_eq!(text(&rules[0].declarations[0].property), "fill");
    assert_eq!(text(&rules[0].declarations[0].value), "red");
    assert_eq!(texts(&rules[1].classes), vec!["b", "c"]);
    assert_eq!(text(&rules[1].declarations[0].property), "stroke-width");
    assert_eq!(parse_component_stylesheet(&chars("   ")).unwrap().len(), 0);
}

#[test]
fn stylesheet_errors() {
    let cases = [
        ("x", "component mode found CSS outside a complete rule"),
        ("@media x { }", "component mode does not support CSS at-rule \"@media x\""),
        (".a { fill: red", "component mode found an unterminated CSS rule for \".a\""),
        (".a { x { } }", "component mode does not support nested CSS in rule \".a\""),
        (
            "svg .a { fill: red }",
            "component mode does not support selector \"svg .a\"; only simple class selectors are supported",
        ),
        (
            ".a { fill: red ! IMPORTANT }",
            "component mode does not support !important on property \"fill\"",
        ),
        (".a { Transform: none }", "component mode does not support CSS property \"transform\""),
        (".a { fill }", "component mode found an invalid CSS declaration \"fill\""),
    ];
    for (input, message) in cases {
        assert_eq!(
            parse_component_stylesheet(&chars(input)).unwrap_err().to_string(),
            message
        );
    }
}

#[test]
fn hidden_styles_are_recognized() {
    let zero = vec![chars("0"), chars("0.0")];
    assert!(is_hidden_in_style(&chars("display: none"), &zero));
    assert!(is_hidden_in_style(&chars("fill:red; visibility : hidden ;"), &zero));
    assert!(is_hidden_in_style(&chars("opacity:0.0"), &zero));
    assert!(!is_hidden_in_style(&chars("opacity: 0.5"), &zero));
    assert!(!is_hidden_in_style(&chars("display: block; color: red"), &zero));
    assert!(!is_hidden_in_style(&chars("display none"), &zero));
}

#[test]
fn referenced_ids_are_found() {
    let ids = find_ids_in_value(&chars("url(#a) url( '#b') #c"));
    assert_eq!(texts(&ids), vec!["a", "b"]);
    let ids = find_ids_in_value(&chars("#frag rest"));
    assert_eq!(texts(&ids), vec!["frag"]);
    let ids = find_ids_in_value(&chars("URL(#Grad)"));
    assert_eq!(texts(&ids), vec!["Grad"]);
    let ids = find_ids_in_value(&chars("url(#)"));
    assert_eq!(ids.len(), 0);
    let ids = find_ids_in_value(&chars("#a url(#b)"));
    assert_eq!(texts(&ids), vec!["b", "a"]);
}

#[test]
fn id_scan_reads_positions_of_the_value_itself() {
    let ids = find_ids_in_value(&chars("İurl(#a)"));
    assert_eq!(texts(&ids), vec!["a"]);
    let ids = find_ids_in_value(&chars("ẞURL(#a)"));
    assert_eq!(texts(&ids), vec!["a"]);
    let ids = find_ids_in_value(&chars("İurl(é"));
    assert_eq!(ids.len(), 0);
    let ids = find_ids_in_value(&chars("İİİurl("));
    assert_eq!(ids.len(), 0);
    let ids = find_ids_in_value(&chars("ẞurl(x#a) url(#b)"));
    assert_eq!(texts(&ids), vec!["b"]);
}

#[test]
fn whitespace_collapses() {
    assert_eq!(text(&collapse_whitespace(&chars("  a \n\t b  "))), "a b");
    assert_eq!(text(&collapse_whitespace(&chars(""))), "");
    assert_eq!(text(&collapse_whitespace(&chars(" \u{3000} "))), "");
    assert_eq!(text(&collapse_whitespace(&chars("x"))), "x");
}

#[test]
fn default_black_is_recognized() {
    assert!(is_default_black(&chars(" BLACK ")));
    assert!(is_default_black(&chars("#000")));
    assert!(is_default_black(&chars("#000000")));
    assert!(!is_default_black(&chars("#0000")));
    assert!(!is_default_black(&chars("red")));
}

#[test]
fn icon_dimensions_normalize() {
    assert_eq!(text(&normalize_icon_dimension(&chars("007.50")).unwrap()), "7.5");
    assert_eq!(text(&normalize_icon_dimension(&chars("1.000")).unwrap()), "1");
    assert_eq!(text(&normalize_icon_dimension(&chars("0.50")).unwrap()), "0.5");
    assert_eq!(
        normalize_icon_dimension(&chars("00.00")).unwrap_err().to_string(),
        "icon dimensions must be greater than zero"
    );
}

#[test]
fn icon_size_errors_and_shapes() {
    assert_eq!(
        IconSize::parse("20px").unwrap_err().to_string(),
        "invalid icon size \"20px\"; expected SIZE or WIDTHxHEIGHT using positive pixel values"
    );
    assert_eq!(
        IconSize::parse("0x20").unwrap_err().to_string(),
        "icon dimensions must be greater than zero"
    );
    assert!(IconSize::parse("1e3").is_err());
    assert!(IconSize::parse(".5").is_err());
    assert!(IconSize::parse("5.").is_err());
    assert!(IconSize::parse("2x3x4").is_err());
    let size = IconSize::parse("0.5").unwrap();
    assert_eq!(size.width(), size.height());
    assert_eq!(size.width(), "0.5");
    let size = IconSize::parse("3x004").unwrap();
    assert_eq!((size.width(), size.height()), ("3", "4"));
}

#[test]
fn colors_shrink_losslessly() {
    let (out, shrunk) = shrink_colors_in_str(&chars("#AABBCC #123456 #aabbccd"));
    assert_eq!(text(&out), "#abc #123456 #aabbccd");
    assert!(shrunk);
    let (out, shrunk) = shrink_colors_in_str(&chars("fill:#ABCDEF;"));
    assert_eq!(text(&out), "fill:#ABCDEF;");
    assert!(!shrunk);
    let (out, shrunk) = shrink_colors_in_str(&chars("fill:#FF0000;stroke:#ABCDEF"));
    assert_eq!(text(&out), "fill:#f00;stroke:#ABCDEF");
    assert!(shrunk);
    let (out, shrunk) = shrink_colors_in_str(&chars("none"));
    assert_eq!(text(&out), "none");
    assert!(!shrunk);
    let expanded: String = ['#', 'a', 'a', 'b', 'b', 'c', 'c'].iter().collect();
    assert_eq!(expanded, "#AABBCC".to_ascii_lowercase());
}

#[test]
fn numeric_attributes_are_listed() {
    assert!(decimal_attribute(&chars("viewBox")));
    assert!(decimal_attribute(&chars("stop-opacity")));
    assert!(!decimal_attribute(&chars("fill")));
}

#[test]
fn line_breaks_are_removed() {
    assert_eq!(remove_line_breaks("a\nb\r\nc"), "abc");
    assert_eq!(remove_line_breaks(""), "");
}

#[test]
fn class_selector_grammar() {
    for ok in [".a", ".-a", "._x-1", ".A_b-9"] {
        let css = format!("{} {{ fill: red }}", ok);
        assert!(parse_component_stylesheet(&chars(&css)).is_ok(), "{ok} should be accepted");
    }
    for bad in [".1a", ".-", ".a.b", ".a b", "a", ".", ".-1", ".é"] {
        let css = format!("{} {{ fill: red }}", bad);
        assert_eq!(
            parse_component_stylesheet(&chars(&css)).unwrap_err().to_string(),
            format!(
                "component mode does not support selector \"{}\"; only simple class selectors are supported",
                bad
            )
        );
    }
    assert_eq!(
        parse_component_stylesheet(&chars("{ fill: red }")).unwrap_err().to_string(),
        "component mode does not support selector \"\"; only simple class selectors are supported"
    );
    assert_eq!(
        parse_component_stylesheet(&chars(".a, { fill: red }")).unwrap_err().to_string(),
        "component mode does not support selector \"\"; only simple class selectors are supported"
    );
}

#[test]
fn normalized_dimensions_stay_normalized() {
    for v in ["007.50", "0.50", "12", "1.000", "0.05"] {
        let once = normalize_icon_dimension(&chars(v)).unwrap();
        let twice = normalize_icon_dimension(&once).unwrap();
        assert_eq!(once, twice);
    }
}

#[test]
fn fragment_references_are_not_colors() {
    for v in ["url(#aabbcc)", "URL( '#AABBCC')", "url(\"#aabbcc\")"] {
        let (out, shrunk) = shrink_colors_in_str(&chars(v));
        assert_eq!(text(&out), v);
        assert!(!shrunk);
    }
    let (out, shrunk) = shrink_colors_in_str(&chars("url(#aabbcc) #FFFFFF"));
    assert_eq!(text(&out), "url(#aabbcc) #fff");
    assert!(shrunk);
}

#[test]
fn collapsing_twice_is_collapsing_once() {
    for t in ["  a \n\t b  ", "", "   ", "x  y\u{3000}z"] {
        let once = collapse_whitespace(&chars(t));
        assert_eq!(collapse_whitespace(&once), once);
    }
}

#[test]
fn normalized_sizes_read_back_the_same() {
    for v in ["020.500X16.00", "20", "0.50x3"] {
        let size = IconSize::parse(v).unwrap();
        let again = IconSize::parse(&format!("{}x{}", size.width(), size.height())).unwrap();
        assert_eq!(again, size);
    }
}

#[test]
fn text_without_comments_is_unchanged() {
    for t in ["fill: red; x: 'a/b'", "a(b) \"c\\\"d\""] {
        assert_eq!(text(&strip_css_comments(&chars(t)).unwrap()), t);
    }
    assert!(strip_css_comments(&chars("a 'b")).is_err());
}

#[test]
fn part_count_follows_top_level_delimiters() {
    let parts = split_css_at_top_level(&chars("a;b(c;d);'e;f';g"), ';').unwrap();
    assert_eq!(parts.len(), 4);
}

#[test]
fn normalized_dimension_reads_back_alone() {
    for v in ["007.50x3", "12", "0.250x1.0"] {
        let size = IconSize::parse(v).unwrap();
        let w = IconSize::parse(size.width()).unwrap();
        assert_eq!(w.width(), size.width());
        assert_eq!(w.height(), size.width());
        let h = IconSize::parse(size.height()).unwrap();
        assert_eq!(h.width(), size.height());
        assert_eq!(h.height(), size.height());
        assert!(size.width().chars().all(|c| c.is_ascii_digit() || c == '.'));
        assert!(size.height().chars().all(|c| c.is_ascii_digit() || c == '.'));
    }
    assert_eq!(IconSize::parse("007.50x3").unwrap().width(), "7.5");
}

#[test]
fn written_declarations_read_back() {
    let ds = vec![
        decl("color", "rgb(1, 2, 3)"),
        decl("font-family", "'a;b:c'"),
        decl("--x", "a:b"),
        decl("Fill", "red"),
    ];
    let text_form = serialize_css_declarations(&ds);
    assert_eq!(text(&text_form), "color: rgb(1, 2, 3); font-family: 'a;b:c'; --x: a:b; Fill: red");
    let back = parse_inline_style(&text_form).unwrap();
    assert_eq!(back.len(), ds.len());
    for (a, b) in back.iter().zip(ds.iter()) {
        assert_eq!(text(&a.property), text(&b.property));
        assert_eq!(text(&a.value), text(&b.value));
    }
}
