use svag::{optimize, parse_svg, serialize, Attribute, Element, Node, Options, QName};

#[test]
fn names() {
    assert_eq!(QName::new("rect"), QName { prefix: None, local: "rect".to_string() });
    assert_eq!(
        QName::with_prefix("xlink", "href"),
        QName { prefix: Some("xlink".to_string()), local: "href".to_string() }
    );
    assert_eq!(QName::parse("xlink:href"), QName::with_prefix("xlink", "href"));
    assert_eq!(QName::parse("rect"), QName::new("rect"));
    assert_eq!(QName::parse("a:b:c"), QName::with_prefix("a", "b:c"));
    assert_eq!(QName::parse(":b"), QName::with_prefix("", "b"));
    assert_eq!(QName::parse(""), QName::new(""));
    assert_eq!(QName::parse("xlink:href").full_name(), "xlink:href");
    assert_eq!(QName::new("rect").full_name(), "rect");
    assert!(QName::new("xmlns").is_xmlns());
    assert!(QName::with_prefix("xmlns", "xlink").is_xmlns());
    assert!(!QName::with_prefix("xlink", "xmlns").is_xmlns());
    assert!(!QName::new("xmlnsx").is_xmlns());
}

#[test]
fn attributes_by_local_name() {
    let mut e = Element::new("rect");
    assert!(e.is("rect"));
    assert!(!e.is("circle"));
    assert_eq!(e.get_attr("x"), None);
    e.set_attr("x", "1");
    e.set_attr("y", "2");
    e.attributes.push(Attribute { name: QName::with_prefix("p", "x"), value: "3".to_string() });
    assert_eq!(e.get_attr("x"), Some("1"));
    e.set_attr("x", "4");
    assert_eq!(e.attributes.len(), 3);
    assert_eq!(e.get_attr("x"), Some("4"));
    assert_eq!(e.attributes[2].value, "3");
    assert_eq!(e.attributes[0].name, QName::new("x"));
    e.remove_attr("x");
    assert_eq!(e.attributes.len(), 1);
    assert_eq!(e.get_attr("x"), None);
    assert_eq!(e.get_attr("y"), Some("2"));
    e.remove_attr("absent");
    assert_eq!(e.attributes.len(), 1);
}

#[test]
fn later_namespace_declarations_win() {
    let mut e = Element::new("svg");
    e.attributes.push(Attribute::new("xmlns", "first"));
    e.attributes.push(Attribute { name: QName::with_prefix("xmlns", "a"), value: "A".to_string() });
    e.attributes.push(Attribute::new("xmlns", "second"));
    e.attributes.push(Attribute { name: QName::with_prefix("a", "xmlns"), value: "no".to_string() });
    let ns = e.namespaces();
    assert_eq!(ns.get(None), Some("second"));
    assert_eq!(ns.get(Some("a")), Some("A"));
    assert!(!ns.contains_key(Some("xmlns")));
}

#[test]
fn child_elements_and_visits() {
    let doc = parse_svg("<svg>t<a><b/>u<c><d/></c></a><!--x--><e/></svg>").unwrap();
    let names: Vec<String> =
        doc.root.child_elements().iter().map(|e| e.name.local.clone()).collect();
    assert_eq!(names, vec!["a", "e"]);
    let visited = doc.for_each_element(|e| e.name.local.clone());
    assert_eq!(visited, vec!["svg", "a", "b", "c", "d", "e"]);
    let copy = doc.clone();
    assert_eq!(serialize(&copy, &Options::default()), serialize(&doc, &Options::default()));
}

#[test]
fn rewriting_elements() {
    let mut doc = parse_svg("<svg a='1'>t<g b='2'><rect/></g><!--x--></svg>").unwrap();
    doc.for_each_element_mut(|name, mut attributes| {
        attributes.push(Attribute::new("seen", name.local.as_str()));
        (QName::with_prefix("s", name.local.as_str()), attributes)
    });
    assert_eq!(
        serialize(&doc, &Options { sort_attrs: false, ..Options::default() }),
        r#"<s:svg a="1" seen="svg">t<s:g b="2" seen="g"><s:rect seen="rect"/></s:g></s:svg>"#
    );
    doc.root.child_elements_mut(|mut e| {
        e.children.clear();
        e
    });
    assert_eq!(
        serialize(&doc, &Options { sort_attrs: false, ..Options::default() }),
        r#"<s:svg a="1" seen="svg">t<s:g b="2" seen="g"/></s:svg>"#
    );
}

fn optimized(svg: &str, options: &Options) -> String {
    let mut doc = parse_svg(svg).unwrap();
    optimize(&mut doc, options);
    let write = Options {
        remove_comments: false,
        remove_xml_declaration: false,
        remove_doctype: false,
        sort_attrs: false,
        ..Options::default()
    };
    serialize(&doc, &write)
}

fn only(f: fn(&mut Options)) -> Options {
    let mut o = Options {
        precision: 2,
        remove_comments: false,
        remove_metadata: false,
        remove_xml_declaration: false,
        remove_doctype: false,
        remove_unused_namespaces: false,
        collapse_groups: false,
        remove_hidden: false,
        remove_empty: false,
        minify_colors: false,
        remove_defaults: false,
        minify_paths: false,
        minify_styles: false,
        merge_paths: false,
        sort_attrs: false,
    };
    f(&mut o);
    o
}

#[test]
fn metadata_pass() {
    let o = only(|o| o.remove_metadata = true);
    assert_eq!(
        optimized(
            r#"<svg id="k" data-name="n" inkscape:v="1" sodipodi:d="2"><metadata><a/></metadata><title>t</title><desc/><g data-name="m"><p:title/><inkscape:x/><sodipodi:y/><rect id="r"/></g></svg>"#,
            &o
        ),
        r#"<svg id="k"><g><rect id="r"/></g></svg>"#
    );
}

#[test]
fn namespace_pass() {
    let o = only(|o| o.remove_unused_namespaces = true);
    assert_eq!(
        optimized(
            r##"<svg xmlns="N" xmlns:a="A" xmlns:b="B" xmlns:c="C" xmlns:d="D"><a:g><rect b:x="1"/><g xmlns:e="E" xmlns:c="no use"/></a:g></svg>"##,
            &o
        ),
        r##"<svg xmlns="N" xmlns:a="A" xmlns:b="B"><a:g><rect b:x="1"/><g/></a:g></svg>"##
    );
}

#[test]
fn namespaces_below_the_root() {
    let o = only(|o| o.remove_unused_namespaces = true);
    assert_eq!(
        optimized(
            r##"<svg xmlns="N"><g id="a" xmlns:foo="urn:x" xmlns="M"><rect xmlns:bar="B"/><bar:c xmlns:bar="C"/></g></svg>"##,
            &o
        ),
        r##"<svg xmlns="N"><g id="a" xmlns="M"><rect xmlns:bar="B"/><bar:c xmlns:bar="C"/></g></svg>"##
    );
    assert_eq!(
        svag::minify(r##"<svg xmlns="http://www.w3.org/2000/svg"><g id="a" xmlns:foo="urn:x"><rect/></g></svg>"##).unwrap(),
        r##"<svg xmlns="http://www.w3.org/2000/svg"><g id="a"><rect/></g></svg>"##
    );
}

#[test]
fn hidden_pass() {
    let o = only(|o| o.remove_hidden = true);
    assert_eq!(
        optimized(
            r#"<svg display="none"><a display="none"/><b visibility="hidden"/><c opacity="0"/><d opacity="0.0"/><e opacity="-0e5"/><f opacity=" 0"/><g opacity="0.1"><h style="x;display:none"/><i style="display: none"/><j style="display :none"/></g><k display="inline" visibility="visible"/></svg>"#,
            &o
        ),
        r#"<svg display="none"><f opacity=" 0"/><g opacity="0.1"><j style="display :none"/></g><k display="inline" visibility="visible"/></svg>"#
    );
}

#[test]
fn empty_pass() {
    let o = only(|o| o.remove_empty = true);
    assert_eq!(
        optimized(
            r#"<svg><g/><defs></defs><symbol/><marker/><clipPath/><mask/><pattern/><g id="k"/><rect/><g><g><defs/></g></g><g>t</g><g><rect/></g></svg>"#,
            &o
        ),
        r#"<svg><g id="k"/><rect/><g>t</g><g><rect/></g></svg>"#
    );
    assert_eq!(optimized("<g/>", &o), "<g/>");
}

#[test]
fn collapse_pass() {
    let o = only(|o| o.collapse_groups = true);
    assert_eq!(
        optimized(
            r#"<svg><g><g><g><rect/></g></g></g><g><a/><b/></g><g id="k"><c/></g><g class="c"><d/></g><g fill="red"><e/></g><g x="1">t</g><g/></svg>"#,
            &o
        ),
        r#"<svg><rect/><g><a/><b/></g><g id="k"><c/></g><g class="c"><d/></g><g fill="red"><e/></g>t<g/></svg>"#
    );
}

#[test]
fn path_pass() {
    let o = only(|o| o.minify_paths = true);
    assert_eq!(
        optimized(
            r#"<svg d="M 1.0 2.0"><path d="M 1.000 2.000 L 3.14159 4"/><path d="M 1 2 oops"/><path/><g><path d=""/><path p:d="m 0.10 0"/></g></svg>"#,
            &o
        ),
        r#"<svg d="M 1.0 2.0"><path d="M1 2 3.14 4"/><path d="M 1 2 oops"/><path/><g><path d=""/><path p:d="m.1 0"/></g></svg>"#
    );
    let three = Options { precision: 3, ..o };
    assert_eq!(
        optimized(r#"<path d="M 3.14159 2.71828"/>"#, &three),
        r#"<path d="M3.142 2.718"/>"#
    );
}

#[test]
fn color_pass() {
    let o = only(|o| o.minify_colors = true);
    assert_eq!(
        optimized(
            r##"<svg fill=" WHITE " stroke="#000000" stop-color="#F00" flood-color="#0000FF" lighting-color="#AaBbCc" color="Black" other="#ffffff" style=" fill : #FFFFFF ;; stroke:#00F; x ; stop-color:#112233;y:#ffffff"><g fill="#12345" stroke="#ggffee" style=""/></svg>"##,
            &o
        ),
        r##"<svg fill="#fff" stroke="#000" stop-color="red" flood-color="blue" lighting-color="#abc" color="#000" other="#ffffff" style="fill:#fff;stroke:blue;x;stop-color:#123;y:#ffffff"><g fill="#12345" stroke="#ggffee" style=""/></svg>"##
    );
}

#[test]
fn defaults_pass() {
    let o = only(|o| o.remove_defaults = true);
    assert_eq!(
        optimized(
            r#"<svg version="1.1" baseProfile="full" preserveAspectRatio="xMidYMid meet" rx="0"><rect rx="0" ry="0" cx="0" stroke-width="1" stroke-linecap="butt" stroke-linejoin="miter" stroke-miterlimit="4"/><circle cx="0" cy="0" rx="0" fill-rule="nonzero" clip-rule="nonzero"/><ellipse cx="0" cy="0" font-style="normal" font-weight="400" p:font-weight="normal"/><line x1="0" y1="0" x2="0" y2="0" x3="0" text-anchor="start" dominant-baseline="auto" visibility="visible" display="inline" overflow="visible" opacity="1" fill-opacity="1" stroke-opacity="1" font-weight="bold"/></svg>"#,
            &o
        ),
        r#"<svg rx="0"><rect cx="0"/><circle rx="0"/><ellipse/><line x3="0" font-weight="bold"/></svg>"#
    );
}

#[test]
fn style_pass() {
    let o = only(|o| o.minify_styles = true);
    assert_eq!(
        optimized(
            r#"<svg style="fill-opacity:1;stroke-opacity:1;opacity:1;stroke-width:1;font-style:normal;font-weight:normal;font-weight:400"><g style=" a : b ; opacity: 1;no colon; c:d:e "/><g style="" x="1"/><g style="opacity:0.5" p:style="q"/><g p:style="opacity:1" style="kept:1"/></svg>"#,
            &o
        ),
        r#"<svg><g style="a:b;c:d:e"/><g x="1"/><g style="opacity:0.5" p:style="q"/><g/></svg>"#
    );
}

#[test]
fn whitespace_is_always_cleaned() {
    let o = only(|_| {});
    assert_eq!(optimized("<svg><a/> <b> x </b>\n<!-- c --></svg>", &o), "<svg><a/><b>x</b><!-- c --></svg>");
}

#[test]
fn comment_pass() {
    let o = only(|o| o.remove_comments = true);
    assert_eq!(optimized("<svg><!--a--><g><!--b-->t</g></svg>", &o), "<svg><g>t</g></svg>");
}

#[test]
fn passes_run_in_order() {
    let hidden_group = r#"<svg><g display="none"><rect/></g></svg>"#;
    assert_eq!(svag::minify(hidden_group).unwrap(), "<svg/>");
    let editor = r#"<svg xmlns:inkscape="I"><g inkscape:label="L"><rect/><rect/></g></svg>"#;
    assert_eq!(svag::minify(editor).unwrap(), "<svg><g><rect/><rect/></g></svg>");
    let emptied = r#"<svg><defs><g display="none"/></defs></svg>"#;
    assert_eq!(svag::minify(emptied).unwrap(), "<svg/>");
}

#[test]
fn only_elements_count_as_child_elements() {
    let mut e = Element::new("svg");
    e.children.push(Node::Text("a".to_string()));
    e.children.push(Node::Element(Element::new("b")));
    e.children.push(Node::Text("c".to_string()));
    assert_eq!(e.child_elements().len(), 1);
    assert!(e.child_elements()[0].is("b"));
}
