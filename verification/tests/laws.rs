use svag::{
    extract_text_chars, format_number, minify, optimize, parse_path, parse_svg, serialize,
    serialize_path, Command, Element, Node, Number, Options,
};

fn minified(d: &str, precision: u8) -> String {
    serialize_path(&parse_path(d).unwrap(), precision)
}

#[test]
fn minified_paths_read_back_as_the_rounded_path() {
    let samples = [
        "M 10.123 20.987 L 30.5 40 Z",
        "m.5.5-.5-.5",
        "M0 0C1.005 2.995 3 4 5 6S7 8 9 10Q1 1 2 2T3 3A1 2 3 0 1 .4 -.5a1 1 0 1 0 0 0zH1v2",
        "M1e2 1E-2 1.5e+1 -0.0",
        "L1 2 3 4M5 6l7 8 9 10",
        "A.1.2.3 0 0.4.5",
    ];
    for d in samples {
        for precision in [0u8, 1, 2, 5] {
            let once = minified(d, precision);
            let twice = minified(&once, precision);
            assert_eq!(once, twice);
            assert_eq!(parse_path(&once).unwrap().commands.len(), parse_path(d).unwrap().commands.len());
        }
    }
}

#[test]
fn a_move_after_a_move_is_read_back_as_a_line() {
    let path = parse_path("M1 2M3 4").unwrap();
    assert!(matches!(path.commands[1], Command::MoveTo { rel: false, .. }));
    let text = serialize_path(&path, 2);
    assert_eq!(text, "M1 2 3 4");
    let back = parse_path(&text).unwrap();
    assert!(matches!(back.commands[1], Command::LineTo { rel: false, .. }));
}

fn rounded(text: &str, precision: u8) -> String {
    format_number(&Number::parse(text).unwrap(), precision)
}

#[test]
fn rounding_is_exact_on_decimals() {
    assert_eq!(rounded("1.005", 2), "1.01");
    assert_eq!(rounded("1.0049999999999999999999", 2), "1");
    assert_eq!(rounded("0.285", 2), ".29");
    assert_eq!(rounded("-2.675", 2), "-2.68");
    assert_eq!(rounded("123456789012345678901234567890.5", 0), "123456789012345678901234567891");
    assert_eq!(rounded("0.000000000000000000000000000001", 30), ".000000000000000000000000000001");
    assert_eq!(rounded("999.9995", 3), "1000");
}

#[test]
fn rounding_twice_is_rounding_once() {
    for text in ["3.14159", "-0.995", "99.95", "0.05", "12", "-7.5"] {
        for precision in [0u8, 1, 2, 3] {
            let once = rounded(text, precision);
            assert_eq!(rounded(&once, precision), once);
        }
    }
}

fn elements(e: &Element, out: &mut Vec<Element>) {
    for n in &e.children {
        if let Node::Element(c) = n {
            out.push(c.clone());
            elements(c, out);
        }
    }
}

const SAMPLE: &str = r##"<svg xmlns="N" xmlns:a="A" xmlns:b="B" version="1.1" display="none">
  <!-- one -->
  <g opacity="1"><!-- two --><rect rx="0" a:k="1" fill-opacity="1" display="none"/><circle cx="0" r="1"/></g>
  <a:g visibility="hidden"><line x1="0" style="opacity:1"/></a:g>
  <text font-weight="400" opacity="0">t<!-- three --></text>
  <line y2="0" x3="0"><title>x</title></line>
</svg>"##;

#[test]
fn the_optimized_tree_holds_no_comment_and_no_default() {
    let mut doc = parse_svg(SAMPLE).unwrap();
    optimize(&mut doc, &Options::default());
    let mut all = vec![doc.root.clone()];
    elements(&doc.root, &mut all);
    assert!(all.len() > 2);
    for e in &all {
        assert!(!e.children.iter().any(|n| matches!(n, Node::Comment(_))));
        for a in &e.attributes {
            assert!(!svag::is_default_value(&e.name.local, &a.name.local, &a.value));
        }
    }
    assert!(!serialize(&doc, &Options::default()).contains("<!--"));
}

#[test]
fn hidden_elements_below_the_root_are_removed_and_the_root_stays() {
    let mut doc = parse_svg(SAMPLE).unwrap();
    optimize(&mut doc, &Options::default());
    assert_eq!(doc.root.get_attr("display"), Some("none"));
    let mut below = Vec::new();
    elements(&doc.root, &mut below);
    for e in &below {
        assert_ne!(e.get_attr("display"), Some("none"));
        assert_ne!(e.get_attr("visibility"), Some("hidden"));
        assert_ne!(e.get_attr("opacity"), Some("0"));
    }
}

#[test]
fn declared_prefixes_are_used() {
    let out = minify(r#"<svg xmlns:a="A" xmlns:b="B" xmlns:c="C"><a:g><rect/><rect c:x="1"/></a:g></svg>"#).unwrap();
    assert_eq!(out, r#"<svg xmlns:a="A" xmlns:c="C"><a:g><rect/><rect c:x="1"/></a:g></svg>"#);
    let later = minify(r#"<svg xmlns:a="A"><a:g display="none"/></svg>"#).unwrap();
    assert_eq!(later, r#"<svg xmlns:a="A"/>"#);
}

#[test]
fn the_characters_of_text_come_once() {
    let doc = parse_svg("<svg><text>aabbaa</text><text>ba</text></svg>").unwrap();
    assert_eq!(extract_text_chars(&doc), vec!['a', 'b']);
}

#[test]
fn outputs_parse_again() {
    for svg in [SAMPLE, "<svg/>", "<a:b xmlns:a='x'>&lt;&amp;&gt;<![CDATA[<]]><?p q?></a:b>"] {
        let out = minify(svg).unwrap();
        let again = parse_svg(&out).unwrap();
        assert_eq!(serialize(&again, &Options { sort_attrs: false, ..Options::default() }), out);
    }
}

#[test]
fn repeated_moves_keep_their_coordinates() {
    let data = "M1.234 2.345M3.456 -4.567m1 1m-2.005 2z";
    let path = parse_path(data).unwrap();
    let text = serialize_path(&path, 2);
    assert_eq!(text, "M1.23 2.35 3.46-4.57m1 1-2.01 2z");
    let back = parse_path(&text).unwrap();
    assert_eq!(back.commands.len(), path.commands.len());
    assert!(matches!(back.commands[0], Command::MoveTo { rel: false, .. }));
    assert!(matches!(back.commands[1], Command::LineTo { rel: false, .. }));
    assert!(matches!(back.commands[2], Command::MoveTo { rel: true, .. }));
    assert!(matches!(back.commands[3], Command::LineTo { rel: true, .. }));
    assert!(matches!(back.commands[4], Command::ClosePath));
    match &back.commands[1] {
        Command::LineTo { x, y, .. } => {
            assert_eq!(format_number(x, 2), "3.46");
            assert_eq!(format_number(y, 2), "-4.57");
        }
        _ => unreachable!(),
    }
    assert_eq!(serialize_path(&back, 2), text);
}

#[test]
fn the_text_of_a_path_is_spaced() {
    let samples = [
        "M 10.123 20.987 L 30.5 40 Z",
        "m.5.5-.5-.5",
        "M0,0 C1.005,2.995 3,4 5,6 S7,8 9,10 Q1,1 2,2 T3,3 A1,2,3,0,1,.4,-.5 a1 1 0 1 0 0 0 z H1 v2",
        "M1 2M3 4m5 6m7 8",
        "A.1.2.3 0 0.4.5",
        "",
    ];
    for d in samples {
        for precision in [0u8, 1, 3] {
            let text: Vec<char> = minified(d, precision).chars().collect();
            for (p, c) in text.iter().enumerate() {
                assert!(c.is_ascii_digit() || "MmLlHhVvCcSsQqTtAaZz.- ".contains(*c));
                if *c == ' ' {
                    assert!(p > 0 && p + 1 < text.len());
                    assert!(text[p - 1].is_ascii_digit() || text[p - 1] == '.');
                    assert!(text[p + 1].is_ascii_digit() || text[p + 1] == '.');
                }
            }
        }
    }
    assert_eq!(minified("M 1 , 2 L 3 -4 .5 .5", 2), "M1 2 3-4 .5 .5");
}

#[test]
fn plain_trees_show_everything_under_the_default_options() {
    let out = minify(
        r##"<svg><g display="none"><rect/></g><rect opacity="0.0" fill="RED"/><circle style="fill: #FF0000; display: none"/><line opacity="1" style="opacity:1" x2="1"/></svg>"##,
    )
    .unwrap();
    assert_eq!(out, r#"<svg><line x2="1"/></svg>"#);
}

#[test]
fn rewriting_can_hide_what_is_not_plain() {
    let behind = minify(r#"<svg xmlns:a="A"><rect a:opacity="1" opacity="0"/></svg>"#).unwrap();
    assert_eq!(behind, r#"<svg xmlns:a="A"><rect opacity="0"/></svg>"#);
    let styled = minify(r#"<svg><rect style="display :none"/></svg>"#).unwrap();
    assert_eq!(styled, r#"<svg><rect style="display:none"/></svg>"#);
}

#[test]
fn a_settled_tree_is_minified_once() {
    for svg in ["<svg/>", "<svg><!-- a --><g> </g><text> a </text></svg>", r##"<svg><path d="M1 2M3 4.005"/><g id="a"><rect fill="#ff0000"/></g></svg>"##] {
        let once = minify(svg).unwrap();
        assert_eq!(minify(&once).unwrap(), once);
    }
    let once = minify(r#"<svg><g opacity="1"><rect/></g></svg>"#).unwrap();
    assert_eq!(once, "<svg><g><rect/></g></svg>");
    assert_eq!(minify(&once).unwrap(), "<svg><rect/></svg>");
}

#[test]
fn minifying_fails_as_parsing_fails() {
    let options = Options { precision: 0, sort_attrs: false, ..Options::default() };
    for svg in ["", "   ", "<svg>", "<svg></g>", "<svg a='1' a='2'/>", "<svg><path d='M1 2 x'/>", "<!-- only -->"] {
        let parsed = parse_svg(svg);
        assert!(parsed.is_err());
        assert_eq!(minify(svg).unwrap_err(), parsed.clone().unwrap_err());
        assert_eq!(svag::minify_with_options(svg, &options).unwrap_err(), parsed.unwrap_err());
    }
    let kept = svag::minify_with_options("<svg><path d='M1 2 x'/></svg>", &options).unwrap();
    assert_eq!(kept, r#"<svg><path d="M1 2 x"/></svg>"#);
}
