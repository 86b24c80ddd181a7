use svag::{is_default_value, minify, minify_color, minify_with_options, Options};

#[test]
fn test_minify_color() {
    assert_eq!(minify_color("#ffffff"), "#fff");
    assert_eq!(minify_color("#ff0000"), "red");
    assert_eq!(minify_color("#aabbcc"), "#abc");
    assert_eq!(minify_color("#abcdef"), "#abcdef");
}

#[test]
fn test_is_default_value() {
    assert!(is_default_value("svg", "version", "1.1"));
    assert!(is_default_value("rect", "opacity", "1"));
    assert!(!is_default_value("rect", "opacity", "0.5"));
}

#[test]
fn test_color_minification() {
    let svg = r##"<svg xmlns="http://www.w3.org/2000/svg">
        <rect fill="#ff0000"/>
        <rect fill="#ffffff"/>
        <rect fill="#aabbcc"/>
    </svg>"##;

    let minified = minify(svg).unwrap();

    assert!(minified.contains("red"), "red color not shortened");
    assert!(minified.contains("#fff"), "#ffffff not shortened to #fff");
    assert!(minified.contains("#abc"), "#aabbcc not shortened to #abc");
}

#[test]
fn test_default_removal() {
    let svg = r#"<svg xmlns="http://www.w3.org/2000/svg" version="1.1">
        <rect fill-opacity="1" stroke-opacity="1" opacity="1"/>
    </svg>"#;

    let minified = minify(svg).unwrap();

    assert!(!minified.contains("version="), "version attribute not removed");
    assert!(!minified.contains("fill-opacity"), "fill-opacity not removed");
    assert!(!minified.contains("stroke-opacity"), "stroke-opacity not removed");
    assert!(!minified.contains("opacity="), "opacity not removed");
}

#[test]
fn scenario_plain_document() {
    let svg = r#"<svg xmlns="http://www.w3.org/2000/svg"><rect/></svg>"#;
    assert_eq!(minify(svg).unwrap(), svg);
}

#[test]
fn scenario_comment() {
    let svg = r#"<svg xmlns="http://www.w3.org/2000/svg"><!-- c --><rect/></svg>"#;
    assert_eq!(minify(svg).unwrap(), r#"<svg xmlns="http://www.w3.org/2000/svg"><rect/></svg>"#);
}

#[test]
fn scenario_defaults() {
    let svg = r#"<svg xmlns="http://www.w3.org/2000/svg" version="1.1"><rect fill-opacity="1" opacity="1"/></svg>"#;
    assert_eq!(minify(svg).unwrap(), r#"<svg xmlns="http://www.w3.org/2000/svg"><rect/></svg>"#);
}

#[test]
fn scenario_colors() {
    let svg = r##"<svg xmlns="http://www.w3.org/2000/svg"><rect fill="#ff0000"/><rect fill="#ffffff"/><rect fill="#aabbcc"/></svg>"##;
    assert_eq!(
        minify(svg).unwrap(),
        r##"<svg xmlns="http://www.w3.org/2000/svg"><rect fill="red"/><rect fill="#fff"/><rect fill="#abc"/></svg>"##
    );
}

#[test]
fn scenario_path() {
    let svg = r#"<svg xmlns="http://www.w3.org/2000/svg"><path d="M 10.00 20.00 L 30.00 40.00 Z"/></svg>"#;
    assert_eq!(
        minify(svg).unwrap(),
        r#"<svg xmlns="http://www.w3.org/2000/svg"><path d="M10 20 30 40z"/></svg>"#
    );
}

#[test]
fn scenario_editor_namespaces() {
    let svg = r#"<svg xmlns="http://www.w3.org/2000/svg" xmlns:inkscape="http://www.inkscape.org/namespaces/inkscape" xmlns:sodipodi="http://sodipodi.sourceforge.net/DTD/sodipodi-0.dtd"><sodipodi:namedview inkscape:zoom="1"/><inkscape:grid/></svg>"#;
    let out = minify(svg).unwrap();
    assert!(!out.contains("inkscape:"));
    assert!(!out.contains("sodipodi:"));
    assert_eq!(out, r#"<svg xmlns="http://www.w3.org/2000/svg"/>"#);
}

#[test]
fn self_closing_root_survives() {
    assert_eq!(minify("<svg/>").unwrap(), "<svg/>");
    let doc = svag::parse_svg("<svg/>").unwrap();
    assert!(doc.root.is("svg"));
    assert_eq!(doc.root.attributes.len(), 0);
    assert_eq!(doc.root.children.len(), 0);
}

#[test]
fn style_of_defaults_only_is_removed() {
    let svg = r#"<svg><rect style="opacity:1; fill-opacity: 1 ;font-weight:400"/></svg>"#;
    assert_eq!(minify(svg).unwrap(), "<svg><rect/></svg>");
    let kept = r#"<svg><rect style="opacity:1; fill : #FFFFFF ;; stroke-width:2"/></svg>"#;
    assert_eq!(minify(kept).unwrap(), r#"<svg><rect style="fill:#fff;stroke-width:2"/></svg>"#);
}

#[test]
fn minify_twice_is_minify_once() {
    let samples = [
        r##"<svg xmlns="http://www.w3.org/2000/svg" version="1.1"><g><g><rect fill="#FF0000"/></g></g><!-- c --><path d="M 0.5 0.5 L -0.5 -0.5 1e1 2"/></svg>"##,
        r##"<?xml version="1.0"?><svg xmlns="http://www.w3.org/2000/svg" xmlns:xlink="http://www.w3.org/1999/xlink"><defs/><use xlink:href="#a"/><text> a &amp; b </text></svg>"##,
        r#"<svg><g id="k"/><g class="c"><circle cx="0" cy="1"/></g><title>t</title></svg>"#,
    ];
    for s in samples {
        let once = minify(s).unwrap();
        assert_eq!(minify(&once).unwrap(), once);
        assert!(svag::parse_svg(&once).is_ok());
    }
}

#[test]
fn passes_can_be_turned_off() {
    let svg = r##"<?xml version="1.0" encoding="UTF-8" standalone="no"?><!DOCTYPE svg><svg version="1.1" b="1" a="2"><!--c--><title>t</title><g><rect fill="#ffffff" display="none"/></g><defs/><path d="M 1.00 2.00"/></svg>"##;
    let off = Options {
        precision: 2,
        remove_comments: false,
        remove_metadata: false,
        remove_xml_declaration: false,
        remove_doctype: false,
        remove_unused_namespaces: false,
        collapse_groups: false,
        remove_hidden: false,
        remove_empty: false,
        minify_colors: false,
        remove_defaults: false,
        minify_paths: false,
        minify_styles: false,
        merge_paths: false,
        sort_attrs: false,
    };
    assert_eq!(minify_with_options(svg, &off).unwrap(), svg);
    let on = Options::default();
    assert_eq!(minify_with_options(svg, &on).unwrap(), r#"<svg a="2" b="1"><path d="M1 2"/></svg>"#);
}

#[test]
fn test_inkscape_cleanup() {
    let inkscape_svg = r#"<?xml version="1.0" encoding="UTF-8"?>
<svg xmlns="http://www.w3.org/2000/svg"
     xmlns:inkscape="http://www.inkscape.org/namespaces/inkscape"
     xmlns:sodipodi="http://sodipodi.sourceforge.net/DTD/sodipodi-0.dtd"
     inkscape:version="1.0"
     sodipodi:docname="test.svg">
  <sodipodi:namedview inkscape:zoom="1"/>
  <g inkscape:label="Layer 1">
    <rect x="0" y="0" width="100" height="100"/>
  </g>
</svg>"#;

    let minified = minify(inkscape_svg).unwrap();

    assert!(!minified.contains("inkscape:"), "inkscape namespace not removed");
    assert!(!minified.contains("sodipodi:"), "sodipodi namespace not removed");
    assert!(!minified.contains("sodipodi:namedview"), "sodipodi:namedview not removed");

    let doc = svag::parse_svg(&minified).unwrap();
    assert!(doc.root.is("svg"));
}

#[test]
fn test_path_precision() {
    let svg = r#"<svg xmlns="http://www.w3.org/2000/svg">
        <path d="M 10.123456789 20.987654321 L 30.111111111 40.222222222"/>
    </svg>"#;

    let minified = minify(svg).unwrap();

    assert!(!minified.contains("123456789"), "High precision not reduced");
    assert!(!minified.contains("987654321"), "High precision not reduced");

    let _ = svag::parse_svg(&minified).unwrap();
}

#[test]
fn colors() {
    assert_eq!(minify_color("white"), "#fff");
    assert_eq!(minify_color(" White "), "#fff");
    assert_eq!(minify_color("#FFF"), "#fff");
    assert_eq!(minify_color("black"), "#000");
    assert_eq!(minify_color("#000000"), "#000");
    assert_eq!(minify_color("#000"), "#000");
    assert_eq!(minify_color("#f00"), "red");
    assert_eq!(minify_color("red"), "red");
    assert_eq!(minify_color("RED"), "RED");
    assert_eq!(minify_color("#0000ff"), "blue");
    assert_eq!(minify_color("#00F"), "blue");
    assert_eq!(minify_color(" Blue"), "Blue");
    assert_eq!(minify_color("#AABBCC"), "#abc");
    assert_eq!(minify_color("#AABBCD"), "#AABBCD");
    assert_eq!(minify_color("#aabbc"), "#aabbc");
    assert_eq!(minify_color("#gghhii"), "#gghhii");
    assert_eq!(minify_color("#+0+0+0"), "#+0+0+0");
    assert_eq!(minify_color("  url(#a) "), "url(#a)");
    assert_eq!(minify_color("#ééé"), "#ééé");
    assert_eq!(minify_color(""), "");
    assert_eq!(minify_color("Green"), "Green");
}

#[test]
fn defaults_table() {
    assert!(is_default_value("anything", "font-weight", "normal"));
    assert!(is_default_value("anything", "font-weight", "400"));
    assert!(!is_default_value("anything", "font-weight", "700"));
    assert!(is_default_value("svg", "preserveAspectRatio", "xMidYMid meet"));
    assert!(is_default_value("rect", "rx", "0"));
    assert!(!is_default_value("circle", "rx", "0"));
    assert!(is_default_value("line", "y2", "0"));
    assert!(!is_default_value("line", "y2", "0.0"));
    assert!(!is_default_value("rect", "style", "1"));
    assert!(!is_default_value("rect", "version", "1.0"));
}

#[test]
fn idempotence_has_exceptions() {
    let svg = r#"<svg><rect style="display : none"/></svg>"#;
    let once = minify(svg).unwrap();
    assert_eq!(once, r#"<svg><rect style="display:none"/></svg>"#);
    assert_eq!(minify(&once).unwrap(), "<svg/>");
}

#[test]
fn colors_compare_without_regard_to_case() {
    assert_eq!(svag::minify_color(" WHITE "), "#fff");
    assert_eq!(svag::minify_color("#FF0000"), "red");
    assert_eq!(svag::minify_color("#AaBbCc"), "#abc");
    assert_eq!(svag::minify_color("blac\u{212A}"), "#000");
    assert_eq!(svag::minify_color("BLAC\u{212A}"), "#000");
    assert_eq!(svag::minify_color("\u{212A}"), "\u{212A}");
    assert_eq!(svag::minify_color("#aabbc\u{212A}"), "#aabbc\u{212A}");
}
