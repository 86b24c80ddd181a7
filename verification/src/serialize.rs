//! Writing a document as minified XML.

use vstd::prelude::*;

use crate::ast::{
    attributes_view, full_name, is_namespace_declaration, lemma_nodes_view_all,
    lemma_nodes_view_take, Attribute, AttributeView, Document, DocumentView, Element, ElementView,
    Node, NodeView, XmlDeclarationView,
};
use crate::options::Options;
use crate::text::{extend, extend_str, from_chars, to_chars, trim, trimmed};

verus! {

/// Whether the text `a` comes before the text `b`, character by character
/// from position `i` on; a text comes after its own beginnings.
pub open spec fn less_from(a: Seq<char>, b: Seq<char>, i: int) -> bool
    decreases a.len() - i,
{
    if i < 0 || i >= b.len() {
        false
    } else if i >= a.len() {
        true
    } else if a[i] != b[i] {
        a[i] < b[i]
    } else {
        less_from(a, b, i + 1)
    }
}

/// Whether the text `a` comes before the text `b`.
pub open spec fn text_less(a: Seq<char>, b: Seq<char>) -> bool {
    less_from(a, b, 0)
}

/// Whether the attribute `x` is written before the attribute `y`:
/// namespace declarations come first, then full names decide.
pub open spec fn precedes(x: AttributeView, y: AttributeView) -> bool {
    let dx = is_namespace_declaration(x.name);
    let dy = is_namespace_declaration(y.name);
    (dx && !dy) || (dx == dy && text_less(full_name(x.name), full_name(y.name)))
}

/// Where `x` goes into the sorted `s`: before the first attribute that it precedes.
pub open spec fn insertion_point(s: Seq<AttributeView>, x: AttributeView, from: int) -> int
    decreases s.len() - from,
{
    if 0 <= from < s.len() && !precedes(x, s[from]) {
        insertion_point(s, x, from + 1)
    } else {
        from
    }
}

/// The attributes in the order in which they are written when sorted.
/// Attributes of which neither precedes the other keep their order.
pub open spec fn sorted(attrs: Seq<AttributeView>) -> Seq<AttributeView>
    decreases attrs.len(),
{
    if attrs.len() == 0 {
        attrs
    } else {
        let rest = sorted(attrs.drop_last());
        let at = insertion_point(rest, attrs.last(), 0);
        if 0 <= at <= rest.len() {
            rest.insert(at, attrs.last())
        } else {
            rest
        }
    }
}

/// The attributes in the order in which they are written.
pub open spec fn ordered(attrs: Seq<AttributeView>, sort: bool) -> Seq<AttributeView> {
    if sort {
        sorted(attrs)
    } else {
        attrs
    }
}

/// A character of an attribute value as it is written.
pub open spec fn escaped_attr_char(c: char) -> Seq<char> {
    if c == '"' {
        "&quot;"@
    } else if c == '&' {
        "&amp;"@
    } else if c == '<' {
        "&lt;"@
    } else if c == '>' {
        "&gt;"@
    } else {
        seq![c]
    }
}

/// An attribute value as it is written between double quotes.
pub open spec fn escaped_attr(s: Seq<char>) -> Seq<char>
    decreases s.len(),
{
    if s.len() == 0 {
        Seq::empty()
    } else {
        escaped_attr(s.drop_last()) + escaped_attr_char(s.last())
    }
}

/// A character of text as it is written.
pub open spec fn escaped_text_char(c: char) -> Seq<char> {
    if c == '&' {
        "&amp;"@
    } else if c == '<' {
        "&lt;"@
    } else if c == '>' {
        "&gt;"@
    } else {
        seq![c]
    }
}

/// Text as it is written between tags.
pub open spec fn escaped_text(s: Seq<char>) -> Seq<char>
    decreases s.len(),
{
    if s.len() == 0 {
        Seq::empty()
    } else {
        escaped_text(s.drop_last()) + escaped_text_char(s.last())
    }
}

/// ` name="value"` for one attribute.
pub open spec fn attribute_text(a: AttributeView) -> Seq<char> {
    seq![' '] + full_name(a.name) + "=\""@ + escaped_attr(a.value) + seq!['"']
}

/// The attributes as they are written, one after the other.
pub open spec fn attributes_text(attrs: Seq<AttributeView>) -> Seq<char>
    decreases attrs.len(),
{
    if attrs.len() == 0 {
        Seq::empty()
    } else {
        attributes_text(attrs.drop_last()) + attribute_text(attrs.last())
    }
}

/// An element as it is written: `<name attrs/>` without children,
/// `<name attrs>children</name>` with them.
pub open spec fn element_text(e: ElementView, o: Options) -> Seq<char>
    decreases e,
{
    let open = seq!['<'] + full_name(e.name) + attributes_text(ordered(e.attributes, o.sort_attrs));
    if e.children.len() == 0 {
        open + "/>"@
    } else {
        open + seq!['>'] + nodes_text(e.children, o) + "</"@ + full_name(e.name) + seq!['>']
    }
}

/// The nodes as they are written, one after the other.
pub open spec fn nodes_text(ns: Seq<NodeView>, o: Options) -> Seq<char>
    decreases ns,
{
    if ns.len() == 0 {
        Seq::empty()
    } else {
        nodes_text(ns.drop_last(), o) + node_text(ns.last(), o)
    }
}

/// A node as it is written. Text is trimmed and escaped; a comment is
/// written only where comments are kept.
pub open spec fn node_text(n: NodeView, o: Options) -> Seq<char>
    decreases n,
{
    match n {
        NodeView::Element(e) => element_text(e, o),
        NodeView::Text(t) => escaped_text(trimmed(t)),
        NodeView::Comment(c) => if o.remove_comments {
            Seq::empty()
        } else {
            "<!--"@ + c + "-->"@
        },
        NodeView::CData(d) => "<![CDATA["@ + d + "]]>"@,
        NodeView::ProcessingInstruction { target, content } => "<?"@ + target + (match content {
            Some(c) => seq![' '] + c,
            None => Seq::empty(),
        }) + "?>"@,
    }
}

/// An XML declaration as it is written.
pub open spec fn declaration_text(d: XmlDeclarationView) -> Seq<char> {
    "<?xml version=\""@ + d.version + seq!['"'] + (match d.encoding {
        Some(e) => " encoding=\""@ + e + seq!['"'],
        None => Seq::empty(),
    }) + (match d.standalone {
        Some(s) => " standalone=\""@ + (if s {
            "yes"@
        } else {
            "no"@
        }) + seq!['"'],
        None => Seq::empty(),
    }) + "?>"@
}

/// The document as it is written: the declaration and the DOCTYPE where
/// the document has them and the options keep them, then the root.
pub open spec fn document_text(doc: DocumentView, o: Options) -> Seq<char> {
    (match doc.xml_declaration {
        Some(d) => if o.remove_xml_declaration {
            Seq::empty()
        } else {
            declaration_text(d)
        },
        None => Seq::empty(),
    }) + (match doc.doctype {
        Some(dt) => if o.remove_doctype {
            Seq::empty()
        } else {
            "<!DOCTYPE "@ + dt + seq!['>']
        },
        None => Seq::empty(),
    }) + element_text(doc.root, o)
}

fn chars_less(a: &Vec<char>, b: &Vec<char>) -> (r: bool)
    ensures
        r == text_less(a@, b@),
{
    let mut i: usize = 0;
    while i < a.len() && i < b.len() && a[i] == b[i]
        invariant
            i <= a.len(),
            i <= b.len(),
            text_less(a@, b@) == less_from(a@, b@, i as int),
        decreases a.len() - i,
    {
        i += 1;
    }
    if i >= b.len() {
        false
    } else if i >= a.len() {
        true
    } else {
        a[i] < b[i]
    }
}

/// An attribute with what decides its place.
struct Keyed<'a> {
    declares: bool,
    name: Vec<char>,
    attr: &'a Attribute,
}

impl<'a> Keyed<'a> {
    spec fn wf(self) -> bool {
        self.declares == is_namespace_declaration(self.attr@.name) && self.name@ == full_name(
            self.attr@.name,
        )
    }
}

spec fn keyed_view(s: Seq<Keyed>) -> Seq<AttributeView> {
    Seq::new(s.len(), |i: int| s[i].attr@)
}

spec fn all_wf(s: Seq<Keyed>) -> bool {
    forall|i: int| 0 <= i < s.len() ==> (#[trigger] s[i]).wf()
}

fn keyed_precedes(x: &Keyed, y: &Keyed) -> (r: bool)
    requires
        x.wf(),
        y.wf(),
    ensures
        r == precedes(x.attr@, y.attr@),
{
    (x.declares && !y.declares) || (x.declares == y.declares && chars_less(&x.name, &y.name))
}

/// The attributes in the order in which they are written.
fn order_attributes<'a>(attrs: &'a Vec<Attribute>, sort: bool) -> (r: Vec<Keyed<'a>>)
    ensures
        all_wf(r@),
        keyed_view(r@) == ordered(attributes_view(attrs@), sort),
{
    let mut r: Vec<Keyed<'a>> = Vec::new();
    let ghost all = attributes_view(attrs@);
    let mut i: usize = 0;
    assert(keyed_view(r@) =~= ordered(all.take(0), sort));
    while i < attrs.len()
        invariant
            i <= attrs.len(),
            all == attributes_view(attrs@),
            all_wf(r@),
            keyed_view(r@) == ordered(all.take(i as int), sort),
        decreases attrs.len() - i,
    {
        let a = &attrs[i];
        let k = Keyed { declares: a.name.is_xmlns(), name: a.name.full_name_chars(), attr: a };
        let ghost before = r@;
        proof {
            assert(all.take(i + 1).drop_last() == all.take(i as int));
            assert(all.take(i + 1).last() == a@);
        }
        let mut at: usize = 0;
        if sort {
            while at < r.len() && !keyed_precedes(&k, &r[at])
                invariant
                    at <= r.len(),
                    r@ == before,
                    all_wf(r@),
                    k.wf(),
                    k.attr == a,
                    insertion_point(keyed_view(before), a@, 0) == insertion_point(
                        keyed_view(before),
                        a@,
                        at as int,
                    ),
                decreases r.len() - at,
            {
                at += 1;
            }
            r.insert(at, k);
            assert(keyed_view(r@) =~= keyed_view(before).insert(at as int, a@));
        } else {
            r.push(k);
            assert(keyed_view(r@) =~= keyed_view(before).push(a@));
        }
        i += 1;
    }
    proof {
        assert(all.take(attrs.len() as int) == all);
    }
    r
}

/// Appends an attribute value as it is written between double quotes.
pub fn push_escaped_attr(out: &mut Vec<char>, s: &str)
    ensures
        final(out)@ == old(out)@ + escaped_attr(s@),
{
    let v = to_chars(s);
    let mut i: usize = 0;
    assert(old(out)@ + escaped_attr(v@.take(0)) =~= old(out)@);
    while i < v.len()
        invariant
            i <= v.len(),
            out@ == old(out)@ + escaped_attr(v@.take(i as int)),
        decreases v.len() - i,
    {
        let c = v[i];
        let ghost before = out@;
        proof {
            assert(v@.take(i + 1).drop_last() == v@.take(i as int));
        }
        if c == '"' {
            extend_str(out, "&quot;");
        } else if c == '&' {
            extend_str(out, "&amp;");
        } else if c == '<' {
            extend_str(out, "&lt;");
        } else if c == '>' {
            extend_str(out, "&gt;");
        } else {
            out.push(c);
            assert(out@ == before + seq![c]);
        }
        assert(out@ =~= old(out)@ + escaped_attr(v@.take(i + 1)));
        i += 1;
    }
    assert(v@.take(v.len() as int) == v@);
}

/// Appends the escaped form of the characters of `v`.
fn push_escaped_chars(out: &mut Vec<char>, v: &Vec<char>)
    ensures
        final(out)@ == old(out)@ + escaped_text(v@),
{
    let mut i: usize = 0;
    assert(old(out)@ + escaped_text(v@.take(0)) =~= old(out)@);
    while i < v.len()
        invariant
            i <= v.len(),
            out@ == old(out)@ + escaped_text(v@.take(i as int)),
        decreases v.len() - i,
    {
        let c = v[i];
        let ghost before = out@;
        proof {
            assert(v@.take(i + 1).drop_last() == v@.take(i as int));
        }
        if c == '&' {
            extend_str(out, "&amp;");
        } else if c == '<' {
            extend_str(out, "&lt;");
        } else if c == '>' {
            extend_str(out, "&gt;");
        } else {
            out.push(c);
            assert(out@ == before + seq![c]);
        }
        assert(out@ =~= old(out)@ + escaped_text(v@.take(i + 1)));
        i += 1;
    }
    assert(v@.take(v.len() as int) == v@);
}

/// Appends text as it is written between tags.
pub fn push_escaped_text(out: &mut Vec<char>, s: &str)
    ensures
        final(out)@ == old(out)@ + escaped_text(s@),
{
    push_escaped_chars(out, &to_chars(s));
}

fn push_attribute(out: &mut Vec<char>, k: &Keyed)
    requires
        k.wf(),
    ensures
        final(out)@ == old(out)@ + attribute_text(k.attr@),
{
    out.push(' ');
    extend(out, &k.name);
    extend_str(out, "=\"");
    push_escaped_attr(out, k.attr.value.as_str());
    out.push('"');
    assert(out@ =~= old(out)@ + attribute_text(k.attr@));
}

/// Appends an element as it is written.
pub fn serialize_element(out: &mut Vec<char>, elem: &Element, options: &Options)
    ensures
        final(out)@ == old(out)@ + element_text(elem@, *options),
    decreases elem,
{
    let name = elem.name.full_name_chars();
    out.push('<');
    extend(out, &name);
    let attrs = order_attributes(&elem.attributes, options.sort_attrs);
    let ghost head = out@;
    let ghost views = keyed_view(attrs@);
    let mut i: usize = 0;
    assert(head + attributes_text(views.take(0)) =~= head);
    while i < attrs.len()
        invariant
            i <= attrs.len(),
            all_wf(attrs@),
            views == keyed_view(attrs@),
            out@ == head + attributes_text(views.take(i as int)),
        decreases attrs.len() - i,
    {
        proof {
            assert(views.take(i + 1).drop_last() == views.take(i as int));
            assert(views.take(i + 1).last() == attrs@[i as int].attr@);
        }
        push_attribute(out, &attrs[i]);
        assert(out@ =~= head + attributes_text(views.take(i + 1)));
        i += 1;
    }
    proof {
        assert(views.take(attrs.len() as int) == views);
        lemma_nodes_view_all(elem.children@);
    }
    let ghost open = out@;
    assert(open =~= old(out)@ + (seq!['<'] + full_name(elem@.name) + attributes_text(
        ordered(elem@.attributes, options.sort_attrs),
    )));
    if elem.children.len() == 0 {
        extend_str(out, "/>");
        assert(out@ =~= old(out)@ + element_text(elem@, *options));
    } else {
        out.push('>');
        let ghost inner = out@;
        let ghost nodes = elem@.children;
        let mut k: usize = 0;
        assert(inner + nodes_text(nodes.take(0), *options) =~= inner);
        while k < elem.children.len()
            invariant
                k <= elem.children.len(),
                nodes == elem@.children,
                out@ == inner + nodes_text(nodes.take(k as int), *options),
            decreases elem.children.len() - k,
        {
            proof {
                lemma_nodes_view_take(elem.children@, k as int);
                assert(nodes.take(k + 1).drop_last() == nodes.take(k as int));
                assert(nodes.take(k + 1).last() == elem.children@[k as int]@);
            }
            serialize_node(out, &elem.children[k], options);
            assert(out@ =~= inner + nodes_text(nodes.take(k + 1), *options));
            k += 1;
        }
        let ghost body = out@;
        extend_str(out, "</");
        extend(out, &name);
        out.push('>');
        assert(out@ =~= old(out)@ + element_text(elem@, *options));
    }
}

/// Appends a node as it is written.
pub fn serialize_node(out: &mut Vec<char>, node: &Node, options: &Options)
    ensures
        final(out)@ == old(out)@ + node_text(node@, *options),
    decreases node,
{
    match node {
        Node::Element(elem) => {
            serialize_element(out, elem, options);
        },
        Node::Text(text) => {
            let trimmed = trim(&to_chars(text.as_str()));
            push_escaped_chars(out, &trimmed);
        },
        Node::Comment(comment) => {
            if !options.remove_comments {
                extend_str(out, "<!--");
                extend_str(out, comment.as_str());
                extend_str(out, "-->");
                assert(out@ =~= old(out)@ + node_text(node@, *options));
            } else {
                assert(out@ =~= old(out)@ + node_text(node@, *options));
            }
        },
        Node::CData(data) => {
            extend_str(out, "<![CDATA[");
            extend_str(out, data.as_str());
            extend_str(out, "]]>");
            assert(out@ =~= old(out)@ + node_text(node@, *options));
        },
        Node::ProcessingInstruction { target, content } => {
            extend_str(out, "<?");
            extend_str(out, target.as_str());
            match content {
                Some(c) => {
                    out.push(' ');
                    extend_str(out, c.as_str());
                },
                None => {},
            }
            extend_str(out, "?>");
            assert(out@ =~= old(out)@ + node_text(node@, *options));
        },
    }
}

/// Serializes a document to minified SVG text.
pub fn serialize(doc: &Document, options: &Options) -> (r: String)
    ensures
        r@ == document_text(doc@, *options),
{
    let mut out: Vec<char> = Vec::new();
    if !options.remove_xml_declaration {
        match &doc.xml_declaration {
            Some(decl) => {
                extend_str(&mut out, "<?xml version=\"");
                extend_str(&mut out, decl.version.as_str());
                out.push('"');
                match &decl.encoding {
                    Some(enc) => {
                        extend_str(&mut out, " encoding=\"");
                        extend_str(&mut out, enc.as_str());
                        out.push('"');
                    },
                    None => {},
                }
                match decl.standalone {
                    Some(standalone) => {
                        extend_str(&mut out, " standalone=\"");
                        if standalone {
                            extend_str(&mut out, "yes");
                        } else {
                            extend_str(&mut out, "no");
                        }
                        out.push('"');
                    },
                    None => {},
                }
                extend_str(&mut out, "?>");
                assert(out@ =~= declaration_text(decl@));
            },
            None => {},
        }
    }
    let ghost d = out@;
    if !options.remove_doctype {
        match &doc.doctype {
            Some(dt) => {
                extend_str(&mut out, "<!DOCTYPE ");
                extend_str(&mut out, dt.as_str());
                out.push('>');
                assert(out@ =~= d + ("<!DOCTYPE "@ + dt@ + seq!['>']));
            },
            None => {},
        }
    }
    let ghost before = out@;
    serialize_element(&mut out, &doc.root, options);
    assert(out@ =~= document_text(doc@, *options));
    from_chars(&out)
}

} // verus!
