use regex::Regex;
use svg_strip::{IconSize, NumberFacts, OptimizeStats, StripConfig, SvgStripError, SvgStripper};
use xmltree::{Element, XMLNode};

/// Whether a text reads as the number zero.
fn reads_as_zero(s: &str) -> bool {
    s.trim().parse::<f64>().map(|f| f == 0.0).unwrap_or(false)
}

/// Every number in `value` rounded to `precision` decimals.
fn round_numbers(value: &str, precision: u8) -> String {
    let re = Regex::new(r"[-+]?[0-9]*\.?[0-9]+([eE][-+]?[0-9]+)?").unwrap();
    re.replace_all(value, |caps: &regex::Captures| {
        if let Ok(num) = caps[0].parse::<f64>() {
            let p = 10_f64.powi(precision as i32);
            let rounded = (num * p).round() / p;
            format!("{}", rounded)
        } else {
            caps[0].to_string()
        }
    })
    .into_owned()
}

/// Strips `input`, answering the library's questions about numbers first.
fn strip_with(
    stripper: &SvgStripper,
    input: &str,
    precision: Option<u8>,
) -> Result<(String, OptimizeStats), SvgStripError> {
    let queries = stripper.number_queries(input)?;
    let facts = NumberFacts {
        zero_opacity: queries
            .opacity_values
            .into_iter()
            .filter(|v| reads_as_zero(v))
            .collect(),
        rounded: match precision {
            Some(p) => queries
                .decimal_values
                .iter()
                .map(|v| (v.clone(), round_numbers(v, p)))
                .collect(),
            None => Vec::new(),
        },
    };
    stripper.strip_str(input, &facts)
}

#[test]
fn full_pipeline() {
    let input = r#"
<svg xmlns="http://www.w3.org/2000/svg" viewBox="0 0 100 100">
  <!-- comment -->
  <title>Title</title>
  <desc>Desc</desc>
  <metadata><x /></metadata>
  <g id="unused">
    <rect display="none" width="10" height="10"/>
  </g>
  <g id="used">
    <rect fill="url(#grad1)" width="50" height="50"/>
  </g>
  <linearGradient id="grad1"><stop offset="0%" stop-color="red"/></linearGradient>
  <g id="empty"></g>
</svg>
"#;
    let stripper = SvgStripper::new();
    let out = strip_with(&stripper, input, None).unwrap().0;

    assert!(!out.contains("comment"));
    assert!(!out.contains("<title>"));
    assert!(!out.contains("<desc>"));
    assert!(!out.contains("<metadata>"));
    assert!(!out.contains(r#"display="none""#));
    assert!(!out.contains(r#"id="unused""#));
    assert!(!out.contains(r#"id="empty""#));
    assert!(!out.contains(r#"id="used""#));

    assert!(out.contains(r#"id="grad1""#));
    assert!(out.contains(r#"fill="url(#grad1)""#));
}

#[test]
fn test_optimizations() {
    let input = r##"
<svg viewBox="0 0 100.123 100.987">
  <style>.st0{fill:#FFFFFF;}</style>
  <path d="M 10.12345 20.98765 L 30 40" fill="#FF0000" stroke="#aabbcc"/>
  <rect fill="#123456" stroke="#f1f1f1" />
</svg>
"##;
    let config = StripConfig {
        decimal_precision: Some(2),
        ..StripConfig::default()
    };
    let stripper = SvgStripper::with_config(config);
    let (out, stats) = strip_with(&stripper, input, Some(2)).unwrap();

    assert!(stats.colors_shrunk);
    assert!(out.contains(r#"viewBox="0 0 100.12 100.99""#));
    assert!(out.contains(r#"d="M 10.12 20.99 L 30 40""#));
    assert!(out.contains(r##"fill="#f00""##));
    assert!(out.contains(r##"stroke="#abc""##));
    assert!(out.contains(r##"{fill:#fff;}"##));
    assert!(out.contains(r##"fill="#123456""##));
    assert!(out.contains(r##"stroke="#f1f1f1""##));
}

#[test]
fn component_mode_produces_component_ready_svg() {
    let input = r##"<?xml version="1.0" encoding="utf-8"?>
<svg xmlns="http://www.w3.org/2000/svg"
     xmlns:xlink="http://www.w3.org/1999/xlink"
     fill="#000000"
     width="800px"
     height="800px"
     viewBox="0 -0.09 122.88 122.88"
     version="1.1"
     style="enable-background:new 0 0 122.88 122.7"
     xml:space="preserve">
  <style type="text/css">.st0{fill-rule:evenodd;clip-rule:evenodd;}</style>
  <g>
    <path class="st0" d="M0.18,0h44.63v44.45H0.18V0z"/>
  </g>
</svg>"##;
    let config = StripConfig {
        component_mode: true,
        ..StripConfig::default()
    };

    let output = strip_with(&SvgStripper::with_config(config), input, None)
        .unwrap()
        .0;
    let root = Element::parse(output.as_bytes()).unwrap();

    assert_eq!(root.name, "svg");
    assert_eq!(
        root.attributes,
        [("viewBox".to_string(), "0 -0.09 122.88 122.88".to_string())]
            .into_iter()
            .collect::<xmltree::AttributeMap<String, String>>()
    );

    let element_children: Vec<&Element> = root
        .children
        .iter()
        .filter_map(|child| match child {
            XMLNode::Element(element) => Some(element),
            _ => None,
        })
        .collect();
    assert_eq!(element_children.len(), 1);

    let path = element_children[0];
    assert_eq!(path.name, "path");
    assert_eq!(
        path.attributes.get("fill-rule").map(String::as_str),
        Some("evenodd")
    );
    assert_eq!(
        path.attributes.get("clip-rule").map(String::as_str),
        Some("evenodd")
    );
    assert!(!path.attributes.contains_key("class"));
}

#[test]
fn component_mode_rejects_unsupported_stylesheet_rules() {
    let cases = [
        (
            r#"<svg viewBox="0 0 10 10"><style>path.st0 { fill: red; }</style><path class="st0"/></svg>"#,
            r#"does not support selector "path.st0""#,
        ),
        (
            r#"<svg viewBox="0 0 10 10"><style>.st0 { fill: red !important; }</style><path class="st0"/></svg>"#,
            r#"does not support !important on property "fill""#,
        ),
        (
            r#"<svg viewBox="0 0 10 10"><style>.st0 { transform: rotate(10deg); }</style><path class="st0"/></svg>"#,
            r#"does not support CSS property "transform""#,
        ),
    ];
    let config = StripConfig {
        component_mode: true,
        ..StripConfig::default()
    };
    let stripper = SvgStripper::with_config(config);

    for (input, expected_error) in cases {
        let error = strip_with(&stripper, input, None).unwrap_err().to_string();
        assert!(
            error.contains(expected_error),
            "expected {error:?} to contain {expected_error:?}"
        );
    }
}

#[test]
fn component_mode_preserves_basic_cascade_and_unrelated_classes() {
    let input = r##"<svg viewBox="0 0 10 10">
            <style><![CDATA[
                /* Exported rules */
                .first, .second { fill: #FFFFFF; }
                .second { fill: #000000; stroke-width: 2; }
            ]]></style>
            <path class="external first second" fill="red" style="fill: blue"/>
        </svg>"##;
    let config = StripConfig {
        component_mode: true,
        ..StripConfig::default()
    };

    let output = strip_with(&SvgStripper::with_config(config), input, None)
        .unwrap()
        .0;
    let root = Element::parse(output.as_bytes()).unwrap();
    let path = root.get_child("path").unwrap();

    assert_eq!(
        path.attributes.get("class").map(String::as_str),
        Some("external")
    );
    assert_eq!(path.attributes.get("fill").map(String::as_str), Some("#000"));
    assert_eq!(
        path.attributes.get("stroke-width").map(String::as_str),
        Some("2")
    );
    assert_eq!(
        path.attributes.get("style").map(String::as_str),
        Some("fill: blue")
    );
}

#[test]
fn component_mode_inlines_references_before_stripping_unused_ids() {
    let input = r##"<svg viewBox="0 0 10 10">
            <style>.paint { fill: url(#gradient); }</style>
            <defs><linearGradient id="gradient"/></defs>
            <path class="paint"/>
        </svg>"##;
    let config = StripConfig {
        component_mode: true,
        ..StripConfig::default()
    };

    let output = strip_with(&SvgStripper::with_config(config), input, None)
        .unwrap()
        .0;

    assert!(output.contains(r#"fill="url(#gradient)""#));
    assert!(output.contains(r#"id="gradient""#));
}

#[test]
fn component_mode_requires_view_box_and_protects_filter_semantics() {
    let cases = [
        (
            r#"<svg width="10" height="10"><path/></svg>"#,
            "requires a non-empty viewBox",
        ),
        (
            r#"<svg viewBox="0 0 10 10" style="enable-background:new 0 0 10 10"><filter id="blur"/></svg>"#,
            "cannot safely remove enable-background",
        ),
    ];
    let config = StripConfig {
        component_mode: true,
        ..StripConfig::default()
    };
    let stripper = SvgStripper::with_config(config);

    for (input, expected_error) in cases {
        let error = strip_with(&stripper, input, None).unwrap_err().to_string();
        assert!(
            error.contains(expected_error),
            "expected {error:?} to contain {expected_error:?}"
        );
    }
}

#[test]
fn inline_mode_keeps_styles_dimensions_and_groups() {
    let input = r#"<svg xmlns="http://www.w3.org/2000/svg" viewBox="0 0 10 10" width="10" height="10">
            <style>.st0 { fill: red; }</style>
            <g><path class="st0"/></g>
        </svg>"#;
    let config = StripConfig {
        inline_mode: true,
        ..StripConfig::default()
    };

    let output = strip_with(&SvgStripper::with_config(config), input, None)
        .unwrap()
        .0;

    assert!(!output.contains("xmlns"));
    assert!(output.contains(r#"width="10""#));
    assert!(output.contains(r#"height="10""#));
    assert!(output.contains("<style>"));
    assert!(output.contains(r#"class="st0""#));
    assert!(output.contains("<g>"));
}

#[test]
fn icon_mode_implies_component_mode_and_sets_root_style() {
    let input = r#"<svg xmlns="http://www.w3.org/2000/svg"
                            viewBox="0 0 24 24"
                            width="800"
                            height="800"
                            fill="blue"
                            style="stroke: red; width: 12px; /* exporter */ fill: green !important">
                         <g><path d="M0 0h24v24z"/></g>
                       </svg>"#;
    let config = StripConfig {
        icon_size: Some(IconSize::parse("20x20").unwrap()),
        ..StripConfig::default()
    };

    let output = strip_with(&SvgStripper::with_config(config), input, None)
        .unwrap()
        .0;
    let root = Element::parse(output.as_bytes()).unwrap();

    assert!(!root.attributes.contains_key("xmlns"));
    assert!(!root.attributes.contains_key("width"));
    assert!(!root.attributes.contains_key("height"));
    assert!(!root.attributes.contains_key("fill"));
    assert_eq!(
        root.attributes.get("style").map(String::as_str),
        Some("stroke: red; width: 20px; height: 20px; overflow: hidden; fill: currentColor")
    );
    assert!(matches!(
        root.children.as_slice(),
        [XMLNode::Element(element)] if element.name == "path"
    ));
}

#[test]
fn icon_size_accepts_positive_pixels_and_normalizes_them() {
    let square = IconSize::parse("20").unwrap();
    assert_eq!(square.width(), "20");
    assert_eq!(square.height(), "20");

    let size = IconSize::parse("020.500X16.00").unwrap();
    assert_eq!(size.width(), "20.5");
    assert_eq!(size.height(), "16");

    for invalid in ["20px", "20pxx20px", "0", "0x20", "-1x20", "20 x 20"] {
        assert!(IconSize::parse(invalid).is_err(), "{invalid} should fail");
    }
}

fn component_stripper() -> SvgStripper {
    SvgStripper::with_config(StripConfig {
        component_mode: true,
        ..StripConfig::default()
    })
}

#[test]
fn component_mode_error_messages() {
    let cases = [
        (
            r#"<g viewBox="0 0 1 1"/>"#,
            "component mode requires an <svg> root element",
        ),
        (
            r#"<svg viewBox="  "/>"#,
            "component mode requires a non-empty viewBox attribute",
        ),
        (
            r#"<svg viewBox="0 0 1 1" xml:space="preserve"><g><text>a</text></g></svg>"#,
            "component mode cannot safely remove xml:space from an SVG containing text",
        ),
        (
            r#"<svg viewBox="0 0 1 1"><style media="x">.a{fill:red}</style></svg>"#,
            "component mode does not support the <style> attribute \"media\"",
        ),
        (
            r#"<svg viewBox="0 0 1 1"><style type="text/plain">.a{fill:red}</style></svg>"#,
            "component mode only supports <style type=\"text/css\">, found \"text/plain\"",
        ),
        (
            r#"<svg viewBox="0 0 1 1"><style><b/></style></svg>"#,
            "component mode only supports text or CDATA inside <style>",
        ),
        (
            r#"<svg viewBox="0 0 1 1"><style>.a{fill:red} /* open</style></svg>"#,
            "component mode found an unterminated CSS comment",
        ),
        (
            r#"<svg viewBox="0 0 1 1" style="enable-background: new; x"/>"#,
            "component mode found an invalid CSS declaration \"x\"",
        ),
    ];
    let stripper = component_stripper();
    for (input, message) in cases {
        let error = strip_with(&stripper, input, None).unwrap_err();
        assert_eq!(error.to_string(), message);
        assert_eq!(error.message(), message);
    }
}

#[test]
fn component_mode_keeps_text_safe_and_style_type_case() {
    let input = r#"<svg viewBox="0 0 1 1" xml:space="preserve"><path/></svg>"#;
    let out = strip_with(&component_stripper(), input, None).unwrap().0;
    assert_eq!(out, r#"<svg viewBox="0 0 1 1"><path /></svg>"#);
    let input = r#"<svg viewBox="0 0 1 1"><g><style type=" TEXT/CSS ">.a{fill:red}</style></g><path class="a b"/></svg>"#;
    let out = strip_with(&component_stripper(), input, None).unwrap().0;
    assert!(!out.contains("<style"));
    assert!(out.contains(r#"class="b""#));
    assert!(out.contains(r#"fill="red""#));
}

#[test]
fn component_mode_drops_unused_enable_background_only() {
    let input = r#"<svg viewBox="0 0 1 1" style="enable-background:new 0 0 1 1; stroke: red"><path/></svg>"#;
    let out = strip_with(&component_stripper(), input, None).unwrap().0;
    assert!(out.contains(r#"style="stroke: red""#));
    let input = r#"<svg viewBox="0 0 1 1" style="Enable-Background:new"><path/></svg>"#;
    let out = strip_with(&component_stripper(), input, None).unwrap().0;
    assert!(!out.contains("style="));
}

#[test]
fn unreadable_documents_are_refused() {
    let stripper = SvgStripper::new();
    assert!(strip_with(&stripper, "<svg", None).is_err());
    assert!(strip_with(&stripper, "", None).is_err());
    assert!(strip_with(&stripper, "<a></b>", None).is_err());
}

#[test]
fn references_are_found_in_any_value_and_style_sheet() {
    let stripper = SvgStripper::new();
    let input = r#"<svg><path fill="İURL(#g)"/><linearGradient id="g"/><path fill="İurl(é"/></svg>"#;
    let out = strip_with(&stripper, input, None).unwrap().0;
    assert!(out.contains(r#"id="g""#));
    let input = r#"<svg><style>.a{fill:url(#g)}</style><linearGradient id="g"/><path class="a"/></svg>"#;
    let out = strip_with(&stripper, input, None).unwrap().0;
    assert!(out.contains(r#"id="g""#));
}

#[test]
fn color_shrink_keeps_references_and_unshortened_colors() {
    let input = r##"<svg><linearGradient id="aabbcc"/><rect fill="url(#aabbcc)"/><path style="x" fill="#ABCDEF"/><circle stroke="#FF0000 #ABCDEF"/></svg>"##;
    let (out, stats) = strip_with(&SvgStripper::new(), input, None).unwrap();
    assert!(out.contains(r##"fill="url(#aabbcc)""##));
    assert!(out.contains(r#"id="aabbcc""#));
    assert!(out.contains(r##"fill="#ABCDEF""##));
    assert!(out.contains(r##"stroke="#f00 #ABCDEF""##));
    assert!(stats.colors_shrunk);
    let input = r##"<svg><rect fill="url(#aabbcc)"/></svg>"##;
    let (_, stats) = strip_with(&SvgStripper::new(), input, None).unwrap();
    assert!(!stats.colors_shrunk);
}

#[test]
fn groups_holding_cdata_text_are_kept() {
    let input = "<svg><g><![CDATA[abc]]></g><g><![CDATA[ ]]></g></svg>";
    let out = strip_with(&SvgStripper::new(), input, None).unwrap().0;
    assert_eq!(out, "<svg><g><![CDATA[abc]]></g></svg>");
}

#[test]
fn zero_opacity_hides_elements() {
    let input = r#"<svg><rect opacity=" 0.0 "/><circle opacity="0.5"/><ellipse style="fill:red; opacity : 0 "/><line visibility="hidden"/><g><polygon style="display:none"/></g></svg>"#;
    let stripper = SvgStripper::new();
    let queries = stripper.number_queries(input).unwrap();
    assert_eq!(queries.opacity_values, vec![" 0.0 ", "0.5", "0"]);
    let out = strip_with(&stripper, input, None).unwrap().0;
    assert_eq!(out, r#"<svg><circle opacity="0.5" /></svg>"#);
}

#[test]
fn numbers_are_asked_for_numeric_attributes_only() {
    let input = r#"<svg viewBox="0 0 1.5 2"><rect x="1.25" fill="red" stop-opacity="0.333"/></svg>"#;
    let queries = SvgStripper::new().number_queries(input).unwrap();
    assert_eq!(queries.decimal_values, vec!["0 0 1.5 2", "1.25", "0.333"]);
    let config = StripConfig {
        decimal_precision: Some(1),
        ..StripConfig::default()
    };
    let out = strip_with(&SvgStripper::with_config(config), input, Some(1))
        .unwrap()
        .0;
    assert_eq!(
        out,
        r#"<svg viewBox="0 0 1.5 2"><rect x="1.3" fill="red" stop-opacity="0.3" /></svg>"#
    );
}

#[test]
fn query_failure_is_the_strip_failure() {
    let stripper = component_stripper();
    for input in ["<svg", r#"<svg width="1"/>"#, r#"<svg viewBox="0 0 1 1"><style>@x{}</style></svg>"#] {
        let asked = stripper.number_queries(input).unwrap_err().to_string();
        let empty = NumberFacts {
            zero_opacity: Vec::new(),
            rounded: Vec::new(),
        };
        let stripped = stripper.strip_str(input, &empty).unwrap_err().to_string();
        assert_eq!(asked, stripped);
    }
}

#[test]
fn whitespace_is_collapsed_by_element_kind() {
    let input = "<svg>\n  <text>  a \n  b </text>\n  <g xml:space=\"preserve\"><desc>x</desc><tspan>  c  </tspan></g>\n</svg>";
    let out = strip_with(&SvgStripper::new(), input, None).unwrap().0;
    assert_eq!(
        out,
        r#"<svg><text>a b</text><g space="preserve"><tspan>c</tspan></g></svg>"#
    );
}

#[test]
fn nested_empty_groups_go_away() {
    let input = r#"<svg><g><g> </g><!-- c --></g><g id="keep"/><path/></svg>"#;
    let out = strip_with(&SvgStripper::new(), input, None).unwrap().0;
    assert_eq!(out, r#"<svg><path /></svg>"#);
    let config = StripConfig {
        strip_ids: false,
        remove_comments: false,
        ..StripConfig::default()
    };
    let out = strip_with(&SvgStripper::with_config(config), input, None)
        .unwrap()
        .0;
    assert_eq!(out, r#"<svg><g id="keep" /><path /></svg>"#);
}

#[test]
fn referenced_ids_survive() {
    let input = r##"<svg><path id="a"/><use href="#a"/><rect id="b" fill="url('#c')"/><circle id="c"/></svg>"##;
    let out = strip_with(&SvgStripper::new(), input, None).unwrap().0;
    assert!(out.contains(r#"id="a""#));
    assert!(!out.contains(r#"id="b""#));
    assert!(out.contains(r#"id="c""#));
}

#[test]
fn output_is_one_line() {
    let input = "<svg>\r\n<text xml:space=\"preserve\">a\nb</text>\n</svg>\n";
    let config = StripConfig {
        strip_whitespace: false,
        ..StripConfig::default()
    };
    let out = strip_with(&SvgStripper::with_config(config), input, None)
        .unwrap()
        .0;
    assert!(!out.contains('\n') && !out.contains('\r'));
}

#[test]
fn removed_nodes_stay_removed_at_every_depth() {
    let input = r#"<svg viewBox="0 0 1 1"><g fill="red"><title>t</title><g><metadata/><!-- c --><style>.x{fill:red}</style><path class="x"/></g></g></svg>"#;
    let out = strip_with(&component_stripper(), input, None).unwrap().0;
    assert!(!out.contains("<title"));
    assert!(!out.contains("<metadata"));
    assert!(!out.contains("<!--"));
    assert!(!out.contains("<style"));
    assert!(out.contains("<path"));
}

#[test]
fn defaults_are_all_cleanups() {
    let c = StripConfig::default();
    assert!(c.remove_metadata && c.remove_comments && c.remove_hidden && c.strip_ids);
    assert!(c.remove_empty_groups && c.strip_whitespace && c.color_shrink);
    assert!(!c.inline_mode && !c.component_mode);
    assert!(c.icon_size.is_none() && c.decimal_precision.is_none());
}

#[test]
fn facts_beyond_the_queries_change_nothing() {
    let input = r#"<svg viewBox="0 0 10.55 10"><rect opacity="0"/><path d="M1.26 2"/></svg>"#;
    let config = StripConfig {
        decimal_precision: Some(1),
        ..StripConfig::default()
    };
    let stripper = SvgStripper::with_config(config);
    let minimal = strip_with(&stripper, input, Some(1)).unwrap().0;
    let padded = NumberFacts {
        zero_opacity: vec!["0".to_string(), "0.5".to_string(), "-0".to_string()],
        rounded: vec![
            ("0 0 10.55 10".to_string(), "0 0 10.6 10".to_string()),
            ("M1.26 2".to_string(), "M1.3 2".to_string()),
            ("unrelated".to_string(), "value".to_string()),
        ],
    };
    let (with_padding, _) = stripper.strip_str(input, &padded).unwrap();
    assert_eq!(minimal, with_padding);
    assert_eq!(minimal, r#"<svg viewBox="0 0 10.6 10"><path d="M1.3 2" /></svg>"#);
}

#[test]
fn output_opens_with_the_root_tag() {
    let input = "<?xml version=\"1.0\"?>\n<?pi data?>\n<!-- c -->\n<svg><rect/></svg>";
    for config in [StripConfig::default(), StripConfig { remove_comments: false, ..StripConfig::default() }] {
        let out = strip_with(&SvgStripper::with_config(config), input, None).unwrap().0;
        assert!(out.starts_with("<svg"));
        assert!(!out.starts_with("<?xml"));
    }
}
