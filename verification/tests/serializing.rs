use svag::{parse_svg, serialize, Attribute, Document, Element, Node, Options, QName};

#[test]
fn test_serialize_simple() {
    let svg = r#"<svg xmlns="http://www.w3.org/2000/svg"><rect/></svg>"#;
    let doc = parse_svg(svg).unwrap();
    let options = Options::default();
    let out = serialize(&doc, &options);
    assert_eq!(out, r#"<svg xmlns="http://www.w3.org/2000/svg"><rect/></svg>"#);
}

#[test]
fn test_serialize_removes_xml_decl() {
    let svg = r#"<?xml version="1.0"?><svg xmlns="http://www.w3.org/2000/svg"/>"#;
    let doc = parse_svg(svg).unwrap();
    let options = Options::default();
    let out = serialize(&doc, &options);
    assert!(!out.starts_with("<?xml"));
}

#[test]
fn test_serialize_removes_comments() {
    let svg = r#"<svg xmlns="http://www.w3.org/2000/svg"><!-- comment --><rect/></svg>"#;
    let doc = parse_svg(svg).unwrap();
    let options = Options::default();
    let out = serialize(&doc, &options);
    assert!(!out.contains("<!--"));
}

fn keep_all() -> Options {
    Options {
        remove_comments: false,
        remove_xml_declaration: false,
        remove_doctype: false,
        sort_attrs: false,
        ..Options::default()
    }
}

#[test]
fn declaration_and_doctype_are_written_where_kept() {
    let svg = r#"<?xml version="1.0" encoding="UTF-8" standalone="no"?><!DOCTYPE svg><svg/>"#;
    let doc = parse_svg(svg).unwrap();
    assert_eq!(serialize(&doc, &keep_all()), svg);
    assert_eq!(serialize(&doc, &Options::default()), "<svg/>");
    let only_doctype = Options { remove_doctype: false, ..Options::default() };
    assert_eq!(serialize(&doc, &only_doctype), "<!DOCTYPE svg><svg/>");
    let yes = parse_svg(r#"<?xml version="1.0" standalone="yes"?><svg/>"#).unwrap();
    assert_eq!(serialize(&yes, &keep_all()), r#"<?xml version="1.0" standalone="yes"?><svg/>"#);
}

#[test]
fn attributes_are_sorted_with_declarations_first() {
    let svg = r#"<svg width="1" xmlns:b="B" id="i" xmlns="N" Z="z" xmlns:a="A" a:x="1"/>"#;
    let doc = parse_svg(svg).unwrap();
    assert_eq!(
        serialize(&doc, &Options::default()),
        r#"<svg xmlns="N" xmlns:a="A" xmlns:b="B" Z="z" a:x="1" id="i" width="1"/>"#
    );
    assert_eq!(serialize(&doc, &keep_all()), svg);
}

#[test]
fn sorting_keeps_the_order_of_equal_names() {
    let mut root = Element::new("svg");
    root.attributes.push(Attribute::new("b", "1"));
    root.attributes.push(Attribute::new("a", "first"));
    root.attributes.push(Attribute::new("a", "second"));
    root.attributes.push(Attribute::new("ab", "3"));
    let doc = Document { xml_declaration: None, doctype: None, root };
    assert_eq!(
        serialize(&doc, &Options::default()),
        r#"<svg a="first" a="second" ab="3" b="1"/>"#
    );
}

#[test]
fn values_and_text_are_escaped() {
    let mut root = Element::new("svg");
    root.attributes.push(Attribute::new("a", "\"<&>'"));
    root.children.push(Node::Text("  \"<&>'  ".to_string()));
    root.children.push(Node::Text("   ".to_string()));
    root.children.push(Node::CData("<&>".to_string()));
    root.children.push(Node::Comment(" c ".to_string()));
    root.children.push(Node::ProcessingInstruction {
        target: "t".to_string(),
        content: Some("c d".to_string()),
    });
    root.children.push(Node::ProcessingInstruction { target: "u".to_string(), content: None });
    let doc = Document { xml_declaration: None, doctype: None, root };
    assert_eq!(
        serialize(&doc, &keep_all()),
        "<svg a=\"&quot;&lt;&amp;&gt;'\">\"&lt;&amp;&gt;'<![CDATA[<&>]]><!-- c --><?t c d?><?u?></svg>"
    );
    assert_eq!(
        serialize(&doc, &Options::default()),
        "<svg a=\"&quot;&lt;&amp;&gt;'\">\"&lt;&amp;&gt;'<![CDATA[<&>]]><?t c d?><?u?></svg>"
    );
}

#[test]
fn prefixed_names_are_written_in_full() {
    let mut root = Element { name: QName::with_prefix("svg", "svg"), attributes: Vec::new(), children: Vec::new() };
    root.children.push(Node::Element(Element {
        name: QName::with_prefix("svg", "g"),
        attributes: vec![Attribute { name: QName::with_prefix("xlink", "href"), value: "#a".to_string() }],
        children: vec![Node::Text("t".to_string())],
    }));
    let doc = Document { xml_declaration: None, doctype: None, root };
    assert_eq!(
        serialize(&doc, &Options::default()),
        "<svg:svg><svg:g xlink:href=\"#a\">t</svg:g></svg:svg>"
    );
}
