use svag::{
    extract_font_faces, extract_text_chars, parse_svg, replace_font_url, serialize, Options,
};

#[test]
fn test_extract_text_chars() {
    let svg = r#"<svg xmlns="http://www.w3.org/2000/svg">
            <text>Hello</text>
            <text><tspan>World</tspan></text>
        </svg>"#;
    let doc = parse_svg(svg).unwrap();
    let chars = extract_text_chars(&doc);
    assert!(chars.contains(&'H'));
    assert!(chars.contains(&'W'));
    assert!(!chars.contains(&'X'));
}

#[test]
fn test_extract_font_faces() {
    let svg = r#"<svg xmlns="http://www.w3.org/2000/svg">
            <style>
                @font-face {
                    font-family: 'Iosevka';
                    src: url('fonts/Iosevka.woff2');
                    font-weight: bold;
                }
            </style>
        </svg>"#;
    let doc = parse_svg(svg).unwrap();
    let faces = extract_font_faces(&doc);
    assert_eq!(faces.len(), 1);
    assert_eq!(faces[0].family, "Iosevka");
    assert_eq!(faces[0].url, "fonts/Iosevka.woff2");
    assert_eq!(faces[0].weight, Some("bold".to_string()));
}

#[test]
fn test_replace_font_url() {
    let svg = r#"<svg xmlns="http://www.w3.org/2000/svg">
            <style>@font-face { font-family: 'Test'; src: url('old.woff2'); }</style>
        </svg>"#;
    let mut doc = parse_svg(svg).unwrap();

    let faces = extract_font_faces(&doc);
    assert_eq!(faces.len(), 1);
    assert_eq!(faces[0].url, "old.woff2");

    replace_font_url(&mut doc, "old.woff2", "new.woff2");

    let faces = extract_font_faces(&doc);
    assert_eq!(faces.len(), 1);
    assert_eq!(faces[0].url, "new.woff2");
}

const TEST_SVG: &str = r#"<svg xmlns="http://www.w3.org/2000/svg" width="400" height="200">
  <defs>
    <style>
      @font-face {
        font-family: 'Iosevka';
        src: url('tests/fixtures/Iosevka-Regular.woff2') format('woff2');
        font-weight: normal;
      }
      .code { font-family: 'Iosevka', monospace; }
    </style>
  </defs>
  <text x="20" y="60" class="code">fn main() { }</text>
  <text x="20" y="100" class="code">let x = 42;</text>
</svg>"#;

#[test]
fn test_extract_text_chars_real_svg() {
    let doc = parse_svg(TEST_SVG).unwrap();
    let chars = extract_text_chars(&doc);

    assert!(chars.contains(&'f'));
    assert!(chars.contains(&'n'));
    assert!(chars.contains(&'m'));
    assert!(chars.contains(&'a'));
    assert!(chars.contains(&'i'));
    assert!(chars.contains(&'('));
    assert!(chars.contains(&')'));
    assert!(chars.contains(&'{'));
    assert!(chars.contains(&'}'));
    assert!(chars.contains(&'l'));
    assert!(chars.contains(&'e'));
    assert!(chars.contains(&'t'));
    assert!(chars.contains(&'x'));
    assert!(chars.contains(&'='));
    assert!(chars.contains(&'4'));
    assert!(chars.contains(&'2'));
    assert!(chars.contains(&';'));
    assert!(chars.contains(&' '));

    assert!(!chars.contains(&'Z'));
    assert!(!chars.contains(&'Q'));

    assert!(chars.len() < 30);
}

#[test]
fn test_extract_font_faces_real_svg() {
    let doc = parse_svg(TEST_SVG).unwrap();
    let faces = extract_font_faces(&doc);

    assert_eq!(faces.len(), 1);
    assert_eq!(faces[0].family, "Iosevka");
    assert_eq!(faces[0].url, "tests/fixtures/Iosevka-Regular.woff2");
    assert_eq!(faces[0].weight, Some("normal".to_string()));
    assert_eq!(faces[0].style, None);
}

#[test]
fn test_replace_and_roundtrip() {
    let mut doc = parse_svg(TEST_SVG).unwrap();

    replace_font_url(&mut doc, "tests/fixtures/Iosevka-Regular.woff2", "fonts/subset.woff2");

    let serialized = serialize(&doc, &Options::default());
    let doc2 = parse_svg(&serialized).unwrap();

    let faces = extract_font_faces(&doc2);
    assert_eq!(faces.len(), 1);
    assert_eq!(faces[0].url, "fonts/subset.woff2");

    let chars = extract_text_chars(&doc2);
    assert!(chars.contains(&'f'));
    assert!(chars.contains(&'n'));
}

#[test]
fn characters_come_once_in_the_order_of_their_first_use() {
    let doc = parse_svg("<svg>no<text>abca<tspan>cd</tspan>e</text><g>no<textPath>fa</textPath></g><title>zz</title></svg>").unwrap();
    let chars: String = extract_text_chars(&doc).into_iter().collect();
    assert_eq!(chars, "abcedf");
    let none = parse_svg("<svg><g>text</g></svg>").unwrap();
    assert_eq!(extract_text_chars(&none).len(), 0);
}

fn faces_of(css: &str) -> Vec<(String, String, Option<String>, Option<String>)> {
    let svg = format!("<svg><style><![CDATA[{}]]></style></svg>", css);
    let doc = parse_svg(&svg).unwrap();
    extract_font_faces(&doc).into_iter().map(|f| (f.family, f.url, f.weight, f.style)).collect()
}

fn face(family: &str, url: &str, weight: Option<&str>, style: Option<&str>)
    -> (String, String, Option<String>, Option<String>) {
    (family.to_string(), url.to_string(), weight.map(|s| s.to_string()), style.map(|s| s.to_string()))
}

#[test]
fn font_face_rules() {
    assert_eq!(
        faces_of("@font-face{font-family:\"A B\", serif;src:url( \"a.woff\" ) format('woff');font-style: italic ;font-weight:700}"),
        vec![face("A B", "a.woff", Some("700"), Some("italic"))]
    );
    assert_eq!(
        faces_of("a{b:c} @font-face { font-family: X; src: url(x.ttf) } p{} @font-face { src: url('y.ttf'); font-family: 'Y' }"),
        vec![face("X", "x.ttf", None, None), face("Y", "y.ttf", None, None)]
    );
    assert_eq!(faces_of("@font-face { font-family: X }"), vec![]);
    assert_eq!(faces_of("@font-face { src: url(x) }"), vec![]);
    assert_eq!(faces_of("@font-face { font-family: X; src: local(x) }"), vec![]);
    assert_eq!(faces_of("@font-face { font-family: X; src: url(x); src: none }"), vec![]);
    assert_eq!(
        faces_of("@font-face { font-family: X; font-family: Z; src: url(x) }"),
        vec![face("Z", "x", None, None)]
    );
    assert_eq!(faces_of("@font-face font-family: X"), vec![]);
    assert_eq!(faces_of("@font-face { font-family: X; src: url(x) "), vec![]);
    assert_eq!(
        faces_of("@font-face {} @font-face { font-family: X; src: url(x) }"),
        vec![]
    );
    assert_eq!(
        faces_of("@font-face { font-family: X; src: url(x); a { b } }"),
        vec![face("X", "x", None, None)]
    );
}

#[test]
fn urls_are_replaced_in_the_first_sheet_that_holds_them() {
    let svg = "<svg><style>a{src:url(\"f.ttf\")} b{src:url(\"f.ttf\")} c{src:url(f.ttf)}</style><style>d{src:url('f.ttf')}<![CDATA[e{src:url('f.ttf')}]]></style><g><style>x<![CDATA[f{src:url(f.ttf)}]]></style></g></svg>";
    let mut doc = parse_svg(svg).unwrap();
    replace_font_url(&mut doc, "f.ttf", "n.ttf");
    assert_eq!(
        serialize(&doc, &Options::default()),
        "<svg><style>a{src:url('n.ttf')} b{src:url('n.ttf')} c{src:url(f.ttf)}</style><style>d{src:url('n.ttf')}<![CDATA[e{src:url('f.ttf')}]]></style><g><style>x<![CDATA[f{src:url('n.ttf')}]]></style></g></svg>"
    );
    let mut other = parse_svg("<svg><text>url(f.ttf)</text><style>none</style></svg>").unwrap();
    replace_font_url(&mut other, "f.ttf", "n.ttf");
    assert_eq!(
        serialize(&other, &Options::default()),
        "<svg><text>url(f.ttf)</text><style>none</style></svg>"
    );
}
