use svag::{
    build_document, event_of, parse_svg, Attribute, Document, Element, Node, QName,
    RawAttribute, RawDeclaration, RawEvent, RawTag, SavageError, XmlDeclaration, XmlEvent,
};

#[test]
fn test_parse_simple_svg() {
    let svg = r#"<?xml version="1.0" encoding="UTF-8"?>
<svg xmlns="http://www.w3.org/2000/svg" width="100" height="100">
    <rect x="10" y="10" width="80" height="80" fill="red"/>
</svg>"#;

    let doc = parse_svg(svg).unwrap();
    assert!(doc.xml_declaration.is_some());
    assert!(doc.root.is("svg"));
    assert_eq!(doc.root.get_attr("width"), Some("100"));
}

#[test]
fn test_parse_with_comments() {
    let svg = r#"<svg xmlns="http://www.w3.org/2000/svg">
    <!-- This is a comment -->
    <rect/>
</svg>"#;

    let doc = parse_svg(svg).unwrap();
    let comments: Vec<_> =
        doc.root.children.iter().filter(|n| matches!(n, Node::Comment(_))).collect();
    assert_eq!(comments.len(), 1);
}

#[test]
fn test_parse_namespaced() {
    let svg = r##"<svg xmlns="http://www.w3.org/2000/svg" xmlns:xlink="http://www.w3.org/1999/xlink">
    <use xlink:href="#foo"/>
</svg>"##;

    let doc = parse_svg(svg).unwrap();
    let ns = doc.root.namespaces();
    assert!(ns.contains_key(None));
    assert!(ns.contains_key(Some("xlink")));
    assert!(!ns.contains_key(Some("svg")));
    assert_eq!(ns.get(None), Some("http://www.w3.org/2000/svg"));
    assert_eq!(ns.get(Some("xlink")), Some("http://www.w3.org/1999/xlink"));
    assert_eq!(ns.get(Some("x")), None);
}

#[test]
fn declaration_fields_are_read() {
    let doc = parse_svg(r#"<?xml version="1.1" encoding="UTF-8" standalone="yes"?><!DOCTYPE svg PUBLIC "x" "y"><svg/>"#).unwrap();
    let decl = doc.xml_declaration.unwrap();
    assert_eq!(decl.version, "1.1");
    assert_eq!(decl.encoding, Some("UTF-8".to_string()));
    assert_eq!(decl.standalone, Some(true));
    assert_eq!(doc.doctype, Some(r#"svg PUBLIC "x" "y""#.to_string()));
    let doc = parse_svg(r#"<?xml version="1.0" standalone="no"?><svg/>"#).unwrap();
    let decl = doc.xml_declaration.unwrap();
    assert_eq!(decl.encoding, None);
    assert_eq!(decl.standalone, Some(false));
}

#[test]
fn whitespace_text_is_dropped_only_before_the_first_child() {
    let doc = parse_svg("<svg>\n  <a/>\n  <b/> x </svg>").unwrap();
    assert_eq!(doc.root.children.len(), 4);
    assert!(matches!(&doc.root.children[0], Node::Element(e) if e.is("a")));
    assert!(matches!(&doc.root.children[1], Node::Text(t) if t == "\n  "));
    assert!(matches!(&doc.root.children[2], Node::Element(e) if e.is("b")));
    assert!(matches!(&doc.root.children[3], Node::Text(t) if t == " x "));
    let doc = parse_svg("<svg>   </svg>").unwrap();
    assert_eq!(doc.root.children.len(), 0);
}

#[test]
fn content_before_the_root_is_discarded() {
    let doc = parse_svg("<!-- a --> <?pi x?> <svg><g/></svg><!-- after -->").unwrap();
    assert!(doc.root.is("svg"));
    assert_eq!(doc.root.children.len(), 1);
}

#[test]
fn nodes_of_every_kind() {
    let doc = parse_svg("<svg><!--c--><![CDATA[a<b]]><?target some content?><?lone?>t&amp;t<p:e p:a='1&lt;2' b=\"&quot;\"/></svg>").unwrap();
    let c = &doc.root.children;
    assert_eq!(c.len(), 6);
    assert!(matches!(&c[0], Node::Comment(t) if t == "c"));
    assert!(matches!(&c[1], Node::CData(t) if t == "a<b"));
    assert!(matches!(&c[2], Node::ProcessingInstruction { target, content }
        if target == "target" && content.as_deref() == Some("some content")));
    assert!(matches!(&c[3], Node::ProcessingInstruction { target, content }
        if target == "lone" && content.is_none()));
    assert!(matches!(&c[4], Node::Text(t) if t == "t&t"));
    match &c[5] {
        Node::Element(e) => {
            assert_eq!(e.name, QName::with_prefix("p", "e"));
            assert_eq!(e.attributes.len(), 2);
            assert_eq!(e.attributes[0].name, QName::with_prefix("p", "a"));
            assert_eq!(e.attributes[0].value, "1<2");
            assert_eq!(e.attributes[1].name, QName::new("b"));
            assert_eq!(e.attributes[1].value, "\"");
        }
        _ => panic!("expected an element"),
    }
}

#[test]
fn names_outside_ascii() {
    let doc = parse_svg("<svg><größe maß='ü'>日本語</größe></svg>").unwrap();
    match &doc.root.children[0] {
        Node::Element(e) => {
            assert!(e.is("größe"));
            assert_eq!(e.get_attr("maß"), Some("ü"));
            assert!(matches!(&e.children[0], Node::Text(t) if t == "日本語"));
        }
        _ => panic!("expected an element"),
    }
}

fn error_of(svg: &str) -> SavageError {
    match parse_svg(svg) {
        Err(e) => e,
        Ok(_) => panic!("the document was accepted"),
    }
}

#[test]
fn parse_errors() {
    assert_eq!(error_of(""), SavageError::InvalidSvg("No root element found".to_string()));
    assert_eq!(
        error_of("<!-- only a comment -->"),
        SavageError::InvalidSvg("No root element found".to_string())
    );
    assert_eq!(
        error_of("<svg><g>"),
        SavageError::InvalidSvg("Unexpected end of file".to_string())
    );
    assert!(matches!(error_of("<svg></g>"), SavageError::XmlParse(_)));
    assert!(matches!(error_of("<svg><g></svg>"), SavageError::XmlParse(_)));
    assert!(matches!(error_of("<svg>&bogus;</svg>"), SavageError::XmlParse(_)));
    assert!(matches!(error_of("<svg a='&bogus;'/>"), SavageError::XmlParse(_)));
    assert!(matches!(error_of("<?xml encoding='x'?><svg/>"), SavageError::XmlParse(_)));
    match error_of("<svg a=1/>") {
        SavageError::InvalidSvg(detail) => assert!(detail.starts_with("Invalid attribute: ")),
        _ => panic!("expected InvalidSvg"),
    }
    match error_of("<svg a='1' a='2'/>") {
        SavageError::InvalidSvg(detail) => assert!(detail.starts_with("Invalid attribute: ")),
        _ => panic!("expected InvalidSvg"),
    }
}

#[test]
fn an_error_before_the_root_is_not_seen_where_it_is_not_looked_at() {
    assert!(parse_svg("&bogus; <svg/>").is_ok());
    assert!(parse_svg("<svg/> <broken").is_ok());
}

#[test]
fn error_messages() {
    assert_eq!(SavageError::XmlParse("x".to_string()).message(), "XML parsing error: x");
    assert_eq!(SavageError::InvalidSvg("x".to_string()).message(), "Invalid SVG: x");
    assert_eq!(SavageError::InvalidPath("x".to_string()).message(), "Invalid path data: x");
    assert_eq!(SavageError::Utf8("x".to_string()).message(), "UTF-8 error: x");
    assert_eq!(SavageError::Io("x".to_string()).message(), "IO error: x");
}

fn text_of(doc: &Document) -> String {
    let keep = svag::Options {
        remove_comments: false,
        remove_xml_declaration: false,
        remove_doctype: false,
        sort_attrs: false,
        ..svag::Options::default()
    };
    svag::serialize(doc, &keep)
}

#[test]
fn documents_from_events() {
    let mut root = Element::new("svg");
    root.attributes.push(Attribute::new("a", "1"));
    let events = vec![
        XmlEvent::Comment("before".to_string()),
        XmlEvent::Text("before".to_string()),
        XmlEvent::Declaration(XmlDeclaration {
            version: "1.0".to_string(),
            encoding: None,
            standalone: None,
        }),
        XmlEvent::DocType("svg".to_string()),
        XmlEvent::Start(root),
        XmlEvent::Text("  ".to_string()),
        XmlEvent::Declaration(XmlDeclaration {
            version: "9".to_string(),
            encoding: None,
            standalone: None,
        }),
        XmlEvent::Start(Element::new("g")),
        XmlEvent::Empty(Element::new("rect")),
        XmlEvent::Text("  ".to_string()),
        XmlEvent::Comment("c".to_string()),
        XmlEvent::CData("d".to_string()),
        XmlEvent::ProcessingInstruction("t\u{a0}rest of it".to_string()),
        XmlEvent::End,
        XmlEvent::End,
        XmlEvent::Start(Element::new("ignored")),
    ];
    let doc = build_document(events).unwrap();
    assert_eq!(
        text_of(&doc),
        r#"<?xml version="1.0"?><!DOCTYPE svg><svg a="1"><g><rect/><!--c--><![CDATA[d]]><?t rest of it?></g></svg>"#
    );
    match &doc.root.children[0] {
        Node::Element(g) => assert!(matches!(&g.children[1], Node::Text(t) if t == "  ")),
        _ => panic!("expected an element"),
    }
}

#[test]
fn events_that_make_no_document() {
    assert_eq!(
        build_document(vec![XmlEvent::Eof]).unwrap_err(),
        SavageError::InvalidSvg("No root element found".to_string())
    );
    assert_eq!(
        build_document(vec![]).unwrap_err(),
        SavageError::InvalidSvg("No root element found".to_string())
    );
    assert_eq!(
        build_document(vec![XmlEvent::End, XmlEvent::CData("x".to_string())]).unwrap_err(),
        SavageError::InvalidSvg("No root element found".to_string())
    );
    assert_eq!(
        build_document(vec![XmlEvent::Start(Element::new("svg")), XmlEvent::Eof]).unwrap_err(),
        SavageError::InvalidSvg("Unexpected end of file".to_string())
    );
    assert_eq!(
        build_document(vec![XmlEvent::Start(Element::new("svg"))]).unwrap_err(),
        SavageError::InvalidSvg("Unexpected end of file".to_string())
    );
    let doc = build_document(vec![XmlEvent::Empty(Element::new("svg")), XmlEvent::Eof]).unwrap();
    assert!(doc.root.is("svg"));
}

fn read(key: &str, value: Result<&str, &str>) -> RawAttribute {
    RawAttribute::Read {
        key: key.as_bytes().to_vec(),
        value: match value {
            Ok(v) => Ok(v.to_string()),
            Err(e) => Err(e.to_string()),
        },
    }
}

fn tag(name: &[u8], attributes: Vec<RawAttribute>) -> RawTag {
    RawTag { name: name.to_vec(), attributes }
}

fn fault(raw: RawEvent, at_top: bool) -> SavageError {
    match event_of(raw, at_top) {
        Err(e) => e,
        Ok(_) => panic!("an event was made"),
    }
}

#[test]
fn tags_become_elements() {
    for at_top in [true, false] {
        let raw = RawEvent::Start(tag(b"a:b", vec![read("x", Ok("1")), read("p:y:z", Ok(""))]));
        match event_of(raw, at_top) {
            Ok(Some(XmlEvent::Start(e))) => {
                assert_eq!(e.name, QName::with_prefix("a", "b"));
                assert_eq!(e.attributes.len(), 2);
                assert_eq!(e.attributes[0].name, QName::new("x"));
                assert_eq!(e.attributes[0].value, "1");
                assert_eq!(e.attributes[1].name, QName::with_prefix("p", "y:z"));
                assert_eq!(e.attributes[1].value, "");
                assert_eq!(e.children.len(), 0);
            }
            _ => panic!("expected a start tag"),
        }
        let empty = RawEvent::Empty(tag("größe".as_bytes(), vec![]));
        match event_of(empty, at_top) {
            Ok(Some(XmlEvent::Empty(e))) => {
                assert_eq!(e.name, QName::new("größe"));
                assert_eq!(e.attributes.len(), 0);
            }
            _ => panic!("expected an empty-element tag"),
        }
    }
}

#[test]
fn the_first_fault_of_a_tag_is_reported() {
    assert!(matches!(
        fault(RawEvent::Start(tag(&[0xff], vec![RawAttribute::Malformed("m".to_string())])), true),
        SavageError::Utf8(_)
    ));
    assert_eq!(
        fault(RawEvent::Start(tag(b"a", vec![
            read("x", Ok("1")),
            RawAttribute::Malformed("position 3: why".to_string()),
            read("y", Err("later")),
        ])), false),
        SavageError::InvalidSvg("Invalid attribute: position 3: why".to_string())
    );
    assert_eq!(
        fault(RawEvent::Empty(tag(b"a", vec![
            read("x", Err("first")),
            RawAttribute::Malformed("second".to_string()),
        ])), true),
        SavageError::XmlParse("first".to_string())
    );
    let bad_key = RawAttribute::Read { key: vec![b'k', 0xc3], value: Err("value".to_string()) };
    assert!(matches!(
        fault(RawEvent::Start(tag(b"a", vec![bad_key])), false),
        SavageError::Utf8(_)
    ));
}

#[test]
fn what_is_looked_at_depends_on_the_place() {
    let text = || RawEvent::Text(Ok("t".to_string()));
    assert!(matches!(event_of(text(), true), Ok(None)));
    assert!(matches!(event_of(text(), false), Ok(Some(XmlEvent::Text(t))) if t == "t"));
    let broken = || RawEvent::Text(Err("bad entity".to_string()));
    assert!(matches!(event_of(broken(), true), Ok(None)));
    assert_eq!(fault(broken(), false), SavageError::XmlParse("bad entity".to_string()));
    assert!(matches!(event_of(RawEvent::End, true), Ok(None)));
    assert!(matches!(event_of(RawEvent::End, false), Ok(Some(XmlEvent::End))));
    assert!(matches!(event_of(RawEvent::Eof, true), Ok(Some(XmlEvent::Eof))));
    assert!(matches!(event_of(RawEvent::Eof, false), Ok(Some(XmlEvent::Eof))));
    let bytes = || b"a b".to_vec();
    assert!(matches!(event_of(RawEvent::Comment(bytes()), true), Ok(None)));
    assert!(matches!(event_of(RawEvent::Comment(bytes()), false),
        Ok(Some(XmlEvent::Comment(t))) if t == "a b"));
    assert!(matches!(event_of(RawEvent::CData(bytes()), true), Ok(None)));
    assert!(matches!(event_of(RawEvent::CData(bytes()), false),
        Ok(Some(XmlEvent::CData(t))) if t == "a b"));
    assert!(matches!(event_of(RawEvent::ProcessingInstruction(bytes()), true), Ok(None)));
    assert!(matches!(event_of(RawEvent::ProcessingInstruction(bytes()), false),
        Ok(Some(XmlEvent::ProcessingInstruction(t))) if t == "a b"));
    assert!(matches!(event_of(RawEvent::DocType(bytes()), true),
        Ok(Some(XmlEvent::DocType(t))) if t == "a b"));
    assert!(matches!(event_of(RawEvent::DocType(bytes()), false), Ok(None)));
}

fn declaration(version: Result<&str, &str>, encoding: Option<&str>, standalone: Option<&str>) -> RawEvent {
    RawEvent::Declaration(RawDeclaration {
        version: match version {
            Ok(v) => Ok(v.as_bytes().to_vec()),
            Err(e) => Err(e.to_string()),
        },
        encoding: encoding.map(|e| e.as_bytes().to_vec()),
        standalone: standalone.map(|s| s.as_bytes().to_vec()),
    })
}

#[test]
fn declarations_count_before_the_root_only() {
    match event_of(declaration(Ok("1.0"), Some("UTF-8"), Some("yes")), true) {
        Ok(Some(XmlEvent::Declaration(d))) => {
            assert_eq!(d.version, "1.0");
            assert_eq!(d.encoding, Some("UTF-8".to_string()));
            assert_eq!(d.standalone, Some(true));
        }
        _ => panic!("expected a declaration"),
    }
    match event_of(declaration(Ok("1.1"), None, Some("Yes")), true) {
        Ok(Some(XmlEvent::Declaration(d))) => {
            assert_eq!(d.version, "1.1");
            assert_eq!(d.encoding, None);
            assert_eq!(d.standalone, Some(false));
        }
        _ => panic!("expected a declaration"),
    }
    match event_of(declaration(Ok("1.0"), None, None), true) {
        Ok(Some(XmlEvent::Declaration(d))) => assert_eq!(d.standalone, None),
        _ => panic!("expected a declaration"),
    }
    assert_eq!(
        fault(declaration(Err("no version"), None, None), true),
        SavageError::XmlParse("no version".to_string())
    );
    assert!(matches!(event_of(declaration(Err("no version"), None, None), false), Ok(None)));
    assert!(matches!(event_of(declaration(Ok("1.0"), None, None), false), Ok(None)));
}

#[test]
fn bytes_that_are_no_text_are_replaced() {
    assert!(matches!(event_of(RawEvent::Comment(vec![b'a', 0xff, b'b']), false),
        Ok(Some(XmlEvent::Comment(t))) if t == "a\u{fffd}b"));
    assert!(matches!(event_of(RawEvent::DocType(vec![0xc3]), true),
        Ok(Some(XmlEvent::DocType(t))) if t == "\u{fffd}"));
}

#[test]
fn a_name_that_is_not_utf8_is_reported_in_words() {
    assert_eq!(
        fault(RawEvent::Empty(tag(&[b'a', 0xff, b'b'], vec![])), true),
        SavageError::Utf8("invalid utf-8 sequence of 1 bytes from index 1".to_string())
    );
    let cut_short = RawAttribute::Read { key: vec![b'k', 0xc3], value: Ok("v".to_string()) };
    assert_eq!(
        fault(RawEvent::Start(tag(b"a", vec![cut_short])), false),
        SavageError::Utf8("incomplete utf-8 byte sequence from index 1".to_string())
    );
}
