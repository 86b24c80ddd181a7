//! Building the document tree from XML.
//!
//! The XML is cut into events by the tokenizer. What the tokenizer hands
//! out is first taken as plain values; what event they make is decided
//! here, and proved: see `event_for`. So is what becomes of a sequence of
//! events: see `advance` and `run`.

use vstd::prelude::*;

use crate::ast::{
    attributes_view, lemma_attributes_view_all, lemma_attributes_view_push, lemma_nodes_view_all,
    lemma_nodes_view_empty, lemma_nodes_view_push, opt_view, Attribute,
    Document, DocumentView, Element, ElementView, Node, NodeView, QName, XmlDeclaration,
    XmlDeclarationView,
};
use crate::error::SavageError;
use crate::text::{
    blank, extend, from_chars, is_blank, is_space, is_whitespace, slice, str_eq, to_chars,
};
use crate::xml::{
    attribute_error_text, attribute_error_words, attribute_value, declaration_encoding,
    declaration_standalone, declaration_version, error_words, lossy_decoded, lossy_text,
    new_reader, raw_attributes, raw_name, read_at, read_token, reader_reads, reader_text,
    stated_encoding, stated_standalone, stated_version, tag_attributes, tag_name, text_unescaped,
    unescaped_text, unescaped_value, utf8_error_words, utf8_text, xml_error_text, Token,
};
use quick_xml::events::attributes::AttrError;
use vstd::string::StringSliceAdditionalSpecFns;
use vstd::utf8::{decode_utf8, encode_utf8, valid_utf8};
use quick_xml::events::{BytesDecl, BytesStart};

verus! {

/// What the tokenizer found, as plain values.
pub enum XmlEvent {
    /// The XML declaration.
    Declaration(XmlDeclaration),
    /// The text of the DOCTYPE.
    DocType(String),
    /// A start tag: the element without its content.
    Start(Element),
    /// An empty-element tag: the whole element.
    Empty(Element),
    /// An end tag.
    End,
    /// Unescaped text.
    Text(String),
    /// The text of a comment.
    Comment(String),
    /// The text of a CDATA section.
    CData(String),
    /// What stands between `<?` and `?>`.
    ProcessingInstruction(String),
    /// The end of the input.
    Eof,
}

/// The model of an event.
pub enum XmlEventView {
    Declaration(XmlDeclarationView),
    DocType(Seq<char>),
    Start(ElementView),
    Empty(ElementView),
    End,
    Text(Seq<char>),
    Comment(Seq<char>),
    CData(Seq<char>),
    ProcessingInstruction(Seq<char>),
    Eof,
}

impl View for XmlEvent {
    type V = XmlEventView;

    open spec fn view(&self) -> XmlEventView {
        match self {
            XmlEvent::Declaration(d) => XmlEventView::Declaration(d@),
            XmlEvent::DocType(t) => XmlEventView::DocType(t@),
            XmlEvent::Start(e) => XmlEventView::Start(e@),
            XmlEvent::Empty(e) => XmlEventView::Empty(e@),
            XmlEvent::End => XmlEventView::End,
            XmlEvent::Text(t) => XmlEventView::Text(t@),
            XmlEvent::Comment(t) => XmlEventView::Comment(t@),
            XmlEvent::CData(t) => XmlEventView::CData(t@),
            XmlEvent::ProcessingInstruction(t) => XmlEventView::ProcessingInstruction(t@),
            XmlEvent::Eof => XmlEventView::Eof,
        }
    }
}

/// A document under construction: what was seen before the root, and the
/// elements that are open, the root first.
pub struct BuilderView {
    pub xml_declaration: Option<XmlDeclarationView>,
    pub doctype: Option<Seq<char>>,
    pub open: Seq<ElementView>,
}

/// A document under construction.
pub struct TreeBuilder {
    xml_declaration: Option<XmlDeclaration>,
    doctype: Option<String>,
    open: Vec<Element>,
}

/// Why a sequence of events makes no document.
#[derive(Debug, Clone, Copy, PartialEq, Eq, Structural)]
pub enum BuildFault {
    /// The input ends before any element.
    NoRoot,
    /// The input ends inside an element.
    UnexpectedEnd,
}

/// Where the construction stands after an event.
pub enum Progress {
    Building(BuilderView),
    Built(DocumentView),
    Failed(BuildFault),
}

/// The detail of the error that reports a fault.
pub open spec fn fault_text(f: BuildFault) -> Seq<char> {
    match f {
        BuildFault::NoRoot => "No root element found"@,
        BuildFault::UnexpectedEnd => "Unexpected end of file"@,
    }
}

/// The first position from `from` on that holds whitespace; the length
/// where none does.
pub open spec fn space_index(s: Seq<char>, from: int) -> int
    decreases s.len() - from,
{
    if 0 <= from < s.len() && !is_space(s[from]) {
        space_index(s, from + 1)
    } else {
        from
    }
}

/// The processing instruction with the given inside: what stands before
/// the first whitespace is the target, what follows it the content.
pub open spec fn instruction(inside: Seq<char>) -> NodeView {
    let at = space_index(inside, 0);
    if at < inside.len() {
        NodeView::ProcessingInstruction {
            target: inside.take(at),
            content: Some(inside.skip(at + 1)),
        }
    } else {
        NodeView::ProcessingInstruction { target: inside, content: None }
    }
}

/// The open elements once `n` has been added to the innermost.
pub open spec fn with_child(open: Seq<ElementView>, n: NodeView) -> Seq<ElementView> {
    open.drop_last().push(open.last().with_children(open.last().children.push(n)))
}

/// The construction going on with other open elements.
pub open spec fn keep(b: BuilderView, open: Seq<ElementView>) -> Progress {
    Progress::Building(
        BuilderView { xml_declaration: b.xml_declaration, doctype: b.doctype, open },
    )
}

/// What one event does to a document under construction.
///
/// Before the root only the declaration, the DOCTYPE and the root's own
/// tag count. Inside an element, whitespace-only text is dropped unless
/// the element already has a child. The end tag of the root completes the
/// document, and so does a root that is an empty-element tag.
pub open spec fn advance(b: BuilderView, ev: XmlEventView) -> Progress {
    if b.open.len() == 0 {
        match ev {
            XmlEventView::Declaration(d) => Progress::Building(
                BuilderView { xml_declaration: Some(d), doctype: b.doctype, open: b.open },
            ),
            XmlEventView::DocType(t) => Progress::Building(
                BuilderView { xml_declaration: b.xml_declaration, doctype: Some(t), open: b.open },
            ),
            XmlEventView::Start(e) => keep(b, seq![e]),
            XmlEventView::Empty(e) => Progress::Built(
                DocumentView { xml_declaration: b.xml_declaration, doctype: b.doctype, root: e },
            ),
            XmlEventView::Eof => Progress::Failed(BuildFault::NoRoot),
            _ => Progress::Building(b),
        }
    } else {
        match ev {
            XmlEventView::Start(e) => keep(b, b.open.push(e)),
            XmlEventView::Empty(e) => keep(b, with_child(b.open, NodeView::Element(e))),
            XmlEventView::End => if b.open.len() == 1 {
                Progress::Built(
                    DocumentView {
                        xml_declaration: b.xml_declaration,
                        doctype: b.doctype,
                        root: b.open.last(),
                    },
                )
            } else {
                keep(b, with_child(b.open.drop_last(), NodeView::Element(b.open.last())))
            },
            XmlEventView::Text(t) => if !is_blank(t) || b.open.last().children.len() > 0 {
                keep(b, with_child(b.open, NodeView::Text(t)))
            } else {
                Progress::Building(b)
            },
            XmlEventView::Comment(t) => keep(b, with_child(b.open, NodeView::Comment(t))),
            XmlEventView::CData(t) => keep(b, with_child(b.open, NodeView::CData(t))),
            XmlEventView::ProcessingInstruction(t) => keep(b, with_child(b.open, instruction(t))),
            XmlEventView::Eof => Progress::Failed(BuildFault::UnexpectedEnd),
            _ => Progress::Building(b),
        }
    }
}

/// A construction that has seen nothing yet.
pub open spec fn fresh() -> BuilderView {
    BuilderView { xml_declaration: None, doctype: None, open: Seq::empty() }
}

/// Where the construction stands after the events, one after the other.
/// Events after the one that completes the document, or fails, count for
/// nothing.
pub open spec fn run(events: Seq<XmlEventView>) -> Progress
    decreases events.len(),
{
    if events.len() == 0 {
        Progress::Building(fresh())
    } else {
        match run(events.drop_last()) {
            Progress::Building(b) => advance(b, events.last()),
            done => done,
        }
    }
}

/// The model of a list of elements.
pub open spec fn elements_view(s: Seq<Element>) -> Seq<ElementView> {
    Seq::new(s.len(), |i: int| s[i]@)
}

impl View for TreeBuilder {
    type V = BuilderView;

    closed spec fn view(&self) -> BuilderView {
        BuilderView {
            xml_declaration: match self.xml_declaration {
                Some(d) => Some(d@),
                None => None,
            },
            doctype: opt_view(self.doctype),
            open: elements_view(self.open@),
        }
    }
}

fn split_instruction(inside: &str) -> (r: Node)
    ensures
        r@ == instruction(inside@),
{
    let v = to_chars(inside);
    let mut at: usize = 0;
    while at < v.len() && !is_whitespace(v[at])
        invariant
            at <= v.len(),
            space_index(v@, 0) == space_index(v@, at as int),
        decreases v.len() - at,
    {
        at += 1;
    }
    if at < v.len() {
        let target = slice(&v, 0, at);
        let rest = slice(&v, at + 1, v.len());
        assert(v@.subrange(0, at as int) == v@.take(at as int));
        assert(v@.subrange(at + 1, v.len() as int) == v@.skip(at + 1));
        Node::ProcessingInstruction {
            target: from_chars(&target),
            content: Some(from_chars(&rest)),
        }
    } else {
        Node::ProcessingInstruction { target: inside.to_owned(), content: None }
    }
}

impl TreeBuilder {
    /// A construction that has seen nothing yet.
    pub fn new() -> (r: TreeBuilder)
        ensures
            r@ == fresh(),
    {
        let r = TreeBuilder { xml_declaration: None, doctype: None, open: Vec::new() };
        assert(elements_view(r.open@) =~= Seq::<ElementView>::empty());
        r
    }

    /// Whether no element is open.
    pub fn at_top(&self) -> (r: bool)
        ensures
            r == (self@.open.len() == 0),
    {
        self.open.len() == 0
    }

    /// Adds a node to the innermost open element.
    fn add_child(&mut self, n: Node)
        requires
            old(self)@.open.len() > 0,
        ensures
            final(self)@ == (BuilderView {
                xml_declaration: old(self)@.xml_declaration,
                doctype: old(self)@.doctype,
                open: with_child(old(self)@.open, n@),
            }),
    {
        let ghost before = self.open@;
        let mut top = self.open.remove(self.open.len() - 1);
        let ghost kids = top.children@;
        top.children.push(n);
        proof {
            lemma_nodes_view_push(kids, n);
        }
        self.open.push(top);
        assert(elements_view(self.open@) =~= with_child(elements_view(before), n@));
    }

    /// Takes what has been built so far as a document with the given root.
    fn finish(&mut self, root: Element) -> (r: Document)
        ensures
            r@ == (DocumentView {
                xml_declaration: old(self)@.xml_declaration,
                doctype: old(self)@.doctype,
                root: root@,
            }),
    {
        let mut xml_declaration: Option<XmlDeclaration> = None;
        std::mem::swap(&mut xml_declaration, &mut self.xml_declaration);
        let mut doctype: Option<String> = None;
        std::mem::swap(&mut doctype, &mut self.doctype);
        Document { xml_declaration, doctype, root }
    }

    /// Takes one event in. Returns the document where the event completes
    /// it, the error where the event shows that there is none, and nothing
    /// where the construction goes on.
    pub fn step(&mut self, ev: XmlEvent) -> (r: Option<Result<Document, SavageError>>)
        ensures
            match advance(old(self)@, ev@) {
                Progress::Building(b) => r is None && final(self)@ == b,
                Progress::Built(d) => r matches Some(Ok(doc)) && doc@ == d,
                Progress::Failed(f) => r matches Some(Err(SavageError::InvalidSvg(m))) && m@
                    == fault_text(f),
            },
    {
        let ghost before = self.open@;
        if self.open.len() == 0 {
            match ev {
                XmlEvent::Declaration(d) => {
                    self.xml_declaration = Some(d);
                    None
                },
                XmlEvent::DocType(t) => {
                    self.doctype = Some(t);
                    None
                },
                XmlEvent::Start(e) => {
                    self.open.push(e);
                    assert(elements_view(self.open@) =~= seq![e@]);
                    None
                },
                XmlEvent::Empty(e) => Some(Ok(self.finish(e))),
                XmlEvent::Eof => Some(
                    Err(SavageError::InvalidSvg("No root element found".to_owned())),
                ),
                _ => None,
            }
        } else {
            match ev {
                XmlEvent::Start(e) => {
                    self.open.push(e);
                    assert(elements_view(self.open@) =~= elements_view(before).push(e@));
                    None
                },
                XmlEvent::Empty(e) => {
                    self.add_child(Node::Element(e));
                    None
                },
                XmlEvent::End => {
                    let top = self.open.remove(self.open.len() - 1);
                    assert(elements_view(self.open@) =~= elements_view(before).drop_last());
                    if self.open.len() == 0 {
                        Some(Ok(self.finish(top)))
                    } else {
                        self.add_child(Node::Element(top));
                        None
                    }
                },
                XmlEvent::Text(t) => {
                    let top = &self.open[self.open.len() - 1];
                    proof {
                        lemma_nodes_view_all(top.children@);
                    }
                    if !blank(t.as_str()) || top.children.len() > 0 {
                        self.add_child(Node::Text(t));
                    }
                    None
                },
                XmlEvent::Comment(t) => {
                    self.add_child(Node::Comment(t));
                    None
                },
                XmlEvent::CData(t) => {
                    self.add_child(Node::CData(t));
                    None
                },
                XmlEvent::ProcessingInstruction(t) => {
                    self.add_child(split_instruction(t.as_str()));
                    None
                },
                XmlEvent::Eof => Some(
                    Err(SavageError::InvalidSvg("Unexpected end of file".to_owned())),
                ),
                _ => None,
            }
        }
    }
}

/// The model of a list of events.
pub open spec fn events_view(s: Seq<XmlEvent>) -> Seq<XmlEventView> {
    Seq::new(s.len(), |i: int| s[i]@)
}

/// Builds the document that a sequence of events makes. Where the events
/// stop before the document is complete, there is none.
pub fn build_document(events: Vec<XmlEvent>) -> (r: Result<Document, SavageError>)
    ensures
        match run(events_view(events@)) {
            Progress::Built(d) => r matches Ok(doc) && doc@ == d,
            Progress::Failed(f) => r matches Err(SavageError::InvalidSvg(m)) && m@ == fault_text(f),
            Progress::Building(b) => r matches Err(SavageError::InvalidSvg(m)) && m@ == fault_text(
                if b.open.len() == 0 {
                    BuildFault::NoRoot
                } else {
                    BuildFault::UnexpectedEnd
                },
            ),
        },
{
    let mut builder = TreeBuilder::new();
    let ghost all = events_view(events@);
    for ev in it: events
        invariant
            it.seq() == events@,
            all == events_view(events@),
            run(all.take(it.index())) == Progress::Building(builder@),
    {
        proof {
            assert(all.take(it.index() + 1).drop_last() == all.take(it.index()));
            assert(all.take(it.index() + 1).last() == ev@);
        }
        match builder.step(ev) {
            Some(r) => {
                proof {
                    lemma_run_done(all, it.index() + 1);
                }
                return r;
            },
            None => {},
        }
    }
    proof {
        assert(all.take(events@.len() as int) == all);
    }
    if builder.at_top() {
        Err(SavageError::InvalidSvg("No root element found".to_owned()))
    } else {
        Err(SavageError::InvalidSvg("Unexpected end of file".to_owned()))
    }
}

/// Once the construction is complete or has failed, more events change nothing.
pub proof fn lemma_run_done(events: Seq<XmlEventView>, n: int)
    requires
        0 <= n <= events.len(),
        !(run(events.take(n)) is Building),
    ensures
        run(events) == run(events.take(n)),
    decreases events.len() - n,
{
    if n < events.len() {
        assert(events.take(n + 1).drop_last() == events.take(n));
        lemma_run_done(events, n + 1);
    } else {
        assert(events.take(n) == events);
    }
}

/// An attribute as the tokenizer hands it out.
pub enum RawAttribute {
    /// The attribute is malformed: the reason, in words.
    Malformed(String),
    /// The raw name of the attribute, and its value with the escape
    /// sequences resolved or the reason why they cannot be.
    Read { key: Vec<u8>, value: Result<String, String> },
}

/// A tag as the tokenizer hands it out: its raw name and its attributes
/// in order.
pub struct RawTag {
    pub name: Vec<u8>,
    pub attributes: Vec<RawAttribute>,
}

/// An XML declaration as the tokenizer hands it out: the version that it
/// states or the reason why it states none, and the encoding and the
/// standalone flag where it states them readably.
pub struct RawDeclaration {
    pub version: Result<Vec<u8>, String>,
    pub encoding: Option<Vec<u8>>,
    pub standalone: Option<Vec<u8>>,
}

/// What the tokenizer hands out, before anything is made of it.
pub enum RawEvent {
    Declaration(RawDeclaration),
    DocType(Vec<u8>),
    Start(RawTag),
    Empty(RawTag),
    End,
    /// Text with the escape sequences resolved, or the reason why they
    /// cannot be.
    Text(Result<String, String>),
    Comment(Vec<u8>),
    CData(Vec<u8>),
    ProcessingInstruction(Vec<u8>),
    Eof,
}

/// The model of a raw attribute.
pub enum RawAttributeView {
    Malformed(Seq<char>),
    Read { key: Seq<u8>, value: Result<Seq<char>, Seq<char>> },
}

/// The model of a raw tag.
pub struct RawTagView {
    pub name: Seq<u8>,
    pub attributes: Seq<RawAttributeView>,
}

/// The model of a raw declaration.
pub struct RawDeclarationView {
    pub version: Result<Seq<u8>, Seq<char>>,
    pub encoding: Option<Seq<u8>>,
    pub standalone: Option<Seq<u8>>,
}

/// The model of a raw event.
pub enum RawEventView {
    Declaration(RawDeclarationView),
    DocType(Seq<u8>),
    Start(RawTagView),
    Empty(RawTagView),
    End,
    Text(Result<Seq<char>, Seq<char>>),
    Comment(Seq<u8>),
    CData(Seq<u8>),
    ProcessingInstruction(Seq<u8>),
    Eof,
}

/// The model of text or words of an error.
pub open spec fn words_view(r: Result<String, String>) -> Result<Seq<char>, Seq<char>> {
    match r {
        Ok(s) => Ok(s@),
        Err(e) => Err(e@),
    }
}

/// The model of optional bytes.
pub open spec fn bytes_option_view(o: Option<Vec<u8>>) -> Option<Seq<u8>> {
    match o {
        Some(b) => Some(b@),
        None => None,
    }
}

impl View for RawAttribute {
    type V = RawAttributeView;

    open spec fn view(&self) -> RawAttributeView {
        match self {
            RawAttribute::Malformed(t) => RawAttributeView::Malformed(t@),
            RawAttribute::Read { key, value } => RawAttributeView::Read {
                key: key@,
                value: words_view(*value),
            },
        }
    }
}

/// The model of a list of raw attributes.
pub open spec fn raw_attributes_view(s: Seq<RawAttribute>) -> Seq<RawAttributeView> {
    Seq::new(s.len(), |i: int| s[i]@)
}

impl View for RawTag {
    type V = RawTagView;

    open spec fn view(&self) -> RawTagView {
        RawTagView { name: self.name@, attributes: raw_attributes_view(self.attributes@) }
    }
}

impl View for RawDeclaration {
    type V = RawDeclarationView;

    open spec fn view(&self) -> RawDeclarationView {
        RawDeclarationView {
            version: match self.version {
                Ok(v) => Ok(v@),
                Err(e) => Err(e@),
            },
            encoding: bytes_option_view(self.encoding),
            standalone: bytes_option_view(self.standalone),
        }
    }
}

impl View for RawEvent {
    type V = RawEventView;

    open spec fn view(&self) -> RawEventView {
        match self {
            RawEvent::Declaration(d) => RawEventView::Declaration(d@),
            RawEvent::DocType(b) => RawEventView::DocType(b@),
            RawEvent::Start(t) => RawEventView::Start(t@),
            RawEvent::Empty(t) => RawEventView::Empty(t@),
            RawEvent::End => RawEventView::End,
            RawEvent::Text(r) => RawEventView::Text(words_view(*r)),
            RawEvent::Comment(b) => RawEventView::Comment(b@),
            RawEvent::CData(b) => RawEventView::CData(b@),
            RawEvent::ProcessingInstruction(b) => RawEventView::ProcessingInstruction(b@),
            RawEvent::Eof => RawEventView::Eof,
        }
    }
}

/// Why a text makes no document.
pub enum Fault {
    /// A name is not UTF-8: the reason.
    NotUtf8(Seq<char>),
    /// An attribute is malformed: the reason.
    Malformed(Seq<char>),
    /// The tokenizer reports an error: its words.
    Xml(Seq<char>),
    /// The events make no document.
    Build(BuildFault),
}

/// Whether the error `e` reports the fault `f`: a name that is not UTF-8
/// as `Utf8` with the reason, a malformed attribute as `InvalidSvg` with
/// the reason, an error of the tokenizer as `XmlParse` with its words,
/// events that make no document as `InvalidSvg` with what is wrong with
/// them. Each fault is reported by one error only.
pub open spec fn reports(e: SavageError, f: Fault) -> bool {
    match f {
        Fault::NotUtf8(t) => e.detail() == t && e is Utf8,
        Fault::Malformed(t) => e.detail() == "Invalid attribute: "@ + t && e is InvalidSvg,
        Fault::Xml(t) => e.detail() == t && e is XmlParse,
        Fault::Build(b) => e.detail() == fault_text(b) && e is InvalidSvg,
    }
}

/// The name that raw bytes write, where they are UTF-8; else the reason
/// why they are not.
pub open spec fn name_from(bytes: Seq<u8>) -> Result<crate::ast::QNameView, Fault> {
    if valid_utf8(bytes) {
        Ok(crate::ast::parsed_name(decode_utf8(bytes)))
    } else {
        Err(Fault::NotUtf8(utf8_error_words(bytes)))
    }
}

/// The attributes from the `i`-th on, added to `acc`; or the first fault
/// among them. Of one attribute, being malformed counts first, then its
/// name, then its value.
pub open spec fn attributes_from(
    raws: Seq<RawAttributeView>,
    i: int,
    acc: Seq<crate::ast::AttributeView>,
) -> Result<Seq<crate::ast::AttributeView>, Fault>
    decreases raws.len() - i,
{
    if i < 0 || i >= raws.len() {
        Ok(acc)
    } else {
        match raws[i] {
            RawAttributeView::Malformed(t) => Err(Fault::Malformed(t)),
            RawAttributeView::Read { key, value } => match name_from(key) {
                Err(f) => Err(f),
                Ok(name) => match value {
                    Err(t) => Err(Fault::Xml(t)),
                    Ok(v) => attributes_from(
                        raws,
                        i + 1,
                        acc.push(crate::ast::AttributeView { name, value: v }),
                    ),
                },
            },
        }
    }
}

/// The element that a tag opens: its name and its attributes in order,
/// without children; or the first fault in the tag, the name first.
pub open spec fn element_from(tag: RawTagView) -> Result<ElementView, Fault> {
    match name_from(tag.name) {
        Err(f) => Err(f),
        Ok(name) => match attributes_from(tag.attributes, 0, Seq::empty()) {
            Err(f) => Err(f),
            Ok(attributes) => Ok(ElementView { name, attributes, children: Seq::empty() }),
        },
    }
}

/// The text that optional bytes are read as.
pub open spec fn lossy_option(o: Option<Seq<u8>>) -> Option<Seq<char>> {
    match o {
        Some(b) => Some(lossy_decoded(b)),
        None => None,
    }
}

/// Whether optional bytes read `yes`.
pub open spec fn says_yes(o: Option<Seq<u8>>) -> Option<bool> {
    match o {
        Some(b) => Some(lossy_decoded(b) == "yes"@),
        None => None,
    }
}

/// The declaration as plain values, where it states a version. A
/// standalone flag counts as set where it reads `yes`.
pub open spec fn declaration_from(d: RawDeclarationView) -> Result<XmlDeclarationView, Fault> {
    match d.version {
        Err(t) => Err(Fault::Xml(t)),
        Ok(v) => Ok(
            XmlDeclarationView {
                version: lossy_decoded(v),
                encoding: lossy_option(d.encoding),
                standalone: says_yes(d.standalone),
            },
        ),
    }
}

/// The event that stands for what the tokenizer hands out. Before the
/// root (`at_top`) only the declaration, the DOCTYPE, tags and the end of
/// the input are looked at; inside an element, everything but a
/// declaration and a DOCTYPE. What is not looked at gives no event, and no
/// error either, whatever is wrong with it.
pub open spec fn event_for(raw: RawEventView, at_top: bool) -> Result<Option<XmlEventView>, Fault> {
    match raw {
        RawEventView::Start(tag) => match element_from(tag) {
            Ok(e) => Ok(Some(XmlEventView::Start(e))),
            Err(f) => Err(f),
        },
        RawEventView::Empty(tag) => match element_from(tag) {
            Ok(e) => Ok(Some(XmlEventView::Empty(e))),
            Err(f) => Err(f),
        },
        RawEventView::Eof => Ok(Some(XmlEventView::Eof)),
        RawEventView::Declaration(d) => if at_top {
            match declaration_from(d) {
                Ok(v) => Ok(Some(XmlEventView::Declaration(v))),
                Err(f) => Err(f),
            }
        } else {
            Ok(None)
        },
        RawEventView::DocType(b) => if at_top {
            Ok(Some(XmlEventView::DocType(lossy_decoded(b))))
        } else {
            Ok(None)
        },
        RawEventView::End => if at_top {
            Ok(None)
        } else {
            Ok(Some(XmlEventView::End))
        },
        RawEventView::Text(r) => if at_top {
            Ok(None)
        } else {
            match r {
                Ok(t) => Ok(Some(XmlEventView::Text(t))),
                Err(t) => Err(Fault::Xml(t)),
            }
        },
        RawEventView::Comment(b) => if at_top {
            Ok(None)
        } else {
            Ok(Some(XmlEventView::Comment(lossy_decoded(b))))
        },
        RawEventView::CData(b) => if at_top {
            Ok(None)
        } else {
            Ok(Some(XmlEventView::CData(lossy_decoded(b))))
        },
        RawEventView::ProcessingInstruction(b) => if at_top {
            Ok(None)
        } else {
            Ok(Some(XmlEventView::ProcessingInstruction(lossy_decoded(b))))
        },
    }
}

/// The error that reports what the tokenizer says in `detail`.
fn xml_error(detail: String) -> (r: SavageError)
    ensures
        r == SavageError::XmlParse(detail),
{
    SavageError::XmlParse(detail)
}

/// The name that the raw bytes write.
fn read_name(bytes: &Vec<u8>) -> (r: Result<QName, SavageError>)
    ensures
        match name_from(bytes@) {
            Ok(name) => r matches Ok(q) && q@ == name,
            Err(f) => r matches Err(e) && reports(e, f),
        },
{
    match utf8_text(bytes) {
        Ok(name) => Ok(QName::parse(name.as_str())),
        Err(reason) => Err(SavageError::Utf8(reason)),
    }
}

/// The element that a tag opens: its name and its attributes in order,
/// without children. Fails on a name that is not UTF-8, on a malformed
/// attribute and on a value whose escape sequences cannot be resolved,
/// whichever comes first.
fn parse_element_start(tag: &RawTag) -> (r: Result<Element, SavageError>)
    ensures
        match element_from(tag@) {
            Ok(v) => r matches Ok(e) && e@ == v,
            Err(f) => r matches Err(e) && reports(e, f),
        },
{
    let name = read_name(&tag.name)?;
    let mut attributes: Vec<Attribute> = Vec::new();
    let mut i: usize = 0;
    let ghost raws = raw_attributes_view(tag.attributes@);
    proof {
        lemma_attributes_view_all(attributes@);
    }
    while i < tag.attributes.len()
        invariant
            i <= tag.attributes.len(),
            raws == raw_attributes_view(tag.attributes@),
            name_from(tag.name@) == Ok::<crate::ast::QNameView, Fault>(name@),
            attributes_from(raws, 0, Seq::empty()) == attributes_from(
                raws,
                i as int,
                attributes_view(attributes@),
            ),
        decreases tag.attributes.len() - i,
    {
        let ghost before = attributes@;
        assert(raws[i as int] == tag.attributes@[i as int]@);
        match &tag.attributes[i] {
            RawAttribute::Malformed(reason) => {
                let mut detail = to_chars("Invalid attribute: ");
                extend(&mut detail, &to_chars(reason.as_str()));
                return Err(SavageError::InvalidSvg(from_chars(&detail)));
            },
            RawAttribute::Read { key, value } => {
                let name = read_name(key)?;
                match value {
                    Ok(v) => {
                        let a = Attribute { name, value: v.clone() };
                        attributes.push(a);
                        proof {
                            lemma_attributes_view_push(before, a);
                        }
                    },
                    Err(reason) => {
                        return Err(xml_error(reason.clone()));
                    },
                }
            },
        }
        i += 1;
    }
    let e = Element { name, attributes, children: Vec::new() };
    proof {
        lemma_nodes_view_empty();
    }
    Ok(e)
}

/// The element that an empty-element tag writes: what the tag would open.
fn parse_empty_element(tag: &RawTag) -> (r: Result<Element, SavageError>)
    ensures
        match element_from(tag@) {
            Ok(v) => r matches Ok(e) && e@ == v,
            Err(f) => r matches Err(e) && reports(e, f),
        },
{
    parse_element_start(tag)
}

/// The declaration as plain values. A standalone flag counts as set where
/// it reads `yes`.
fn parse_declaration(decl: &RawDeclaration) -> (r: Result<XmlDeclaration, SavageError>)
    ensures
        match declaration_from(decl@) {
            Ok(v) => r matches Ok(d) && d@ == v,
            Err(f) => r matches Err(e) && reports(e, f),
        },
{
    let version = match &decl.version {
        Ok(v) => lossy_text(v),
        Err(reason) => {
            return Err(xml_error(reason.clone()));
        },
    };
    let encoding = match &decl.encoding {
        Some(e) => Some(lossy_text(e)),
        None => None,
    };
    let standalone = match &decl.standalone {
        Some(s) => Some(str_eq(lossy_text(s).as_str(), "yes")),
        None => None,
    };
    Ok(XmlDeclaration { version, encoding, standalone })
}

/// The event that stands for what the tokenizer hands out, or the error
/// that reports what is wrong with it.
pub fn event_of(raw: RawEvent, at_top: bool) -> (r: Result<Option<XmlEvent>, SavageError>)
    ensures
        match event_for(raw@, at_top) {
            Ok(Some(v)) => r matches Ok(Some(ev)) && ev@ == v,
            Ok(None) => r matches Ok(None),
            Err(f) => r matches Err(e) && reports(e, f),
        },
{
    match raw {
        RawEvent::Start(tag) => Ok(Some(XmlEvent::Start(parse_element_start(&tag)?))),
        RawEvent::Empty(tag) => Ok(Some(XmlEvent::Empty(parse_empty_element(&tag)?))),
        RawEvent::Eof => Ok(Some(XmlEvent::Eof)),
        RawEvent::Declaration(decl) => if at_top {
            Ok(Some(XmlEvent::Declaration(parse_declaration(&decl)?)))
        } else {
            Ok(None)
        },
        RawEvent::DocType(bytes) => if at_top {
            Ok(Some(XmlEvent::DocType(lossy_text(&bytes))))
        } else {
            Ok(None)
        },
        RawEvent::End => if at_top {
            Ok(None)
        } else {
            Ok(Some(XmlEvent::End))
        },
        RawEvent::Text(text) => if at_top {
            Ok(None)
        } else {
            match text {
                Ok(t) => Ok(Some(XmlEvent::Text(t))),
                Err(reason) => Err(xml_error(reason)),
            }
        },
        RawEvent::Comment(bytes) => if at_top {
            Ok(None)
        } else {
            Ok(Some(XmlEvent::Comment(lossy_text(&bytes))))
        },
        RawEvent::CData(bytes) => if at_top {
            Ok(None)
        } else {
            Ok(Some(XmlEvent::CData(lossy_text(&bytes))))
        },
        RawEvent::ProcessingInstruction(bytes) => if at_top {
            Ok(None)
        } else {
            Ok(Some(XmlEvent::ProcessingInstruction(lossy_text(&bytes))))
        },
    }
}

/// Text with its escape sequences resolved, or the tokenizer's words
/// where they cannot be.
pub open spec fn resolved(r: Result<Seq<char>, quick_xml::Error>) -> Result<
    Seq<char>,
    Seq<char>,
> {
    match r {
        Ok(t) => Ok(t),
        Err(e) => Err(error_words(e)),
    }
}

/// One attribute as plain values: the reason where it is malformed, else
/// its raw name and its value as far as it can be resolved.
pub open spec fn raw_attribute_of(found: Result<(Seq<u8>, Seq<u8>), AttrError>) -> RawAttributeView {
    match found {
        Err(e) => RawAttributeView::Malformed(attribute_error_words(e)),
        Ok((key, value)) => RawAttributeView::Read { key, value: resolved(unescaped_value(value)) },
    }
}

/// A tag as plain values: what the tokenizer makes of its name and of
/// each of its attributes.
pub open spec fn raw_tag_of(start: BytesStart) -> RawTagView {
    RawTagView {
        name: raw_name(start),
        attributes: Seq::new(
            raw_attributes(start).len(),
            |i: int| raw_attribute_of(raw_attributes(start)[i]),
        ),
    }
}

/// What a declaration states readably: what cannot be read counts as not
/// stated.
pub open spec fn readable(o: Option<Result<Seq<u8>, AttrError>>) -> Option<Seq<u8>> {
    match o {
        Some(Ok(b)) => Some(b),
        _ => None,
    }
}

/// A declaration as plain values.
pub open spec fn raw_declaration_of(decl: BytesDecl) -> RawDeclarationView {
    RawDeclarationView {
        version: match stated_version(decl) {
            Ok(v) => Ok(v),
            Err(e) => Err(error_words(e)),
        },
        encoding: readable(stated_encoding(decl)),
        standalone: readable(stated_standalone(decl)),
    }
}

/// A token as plain values.
pub open spec fn raw_of(token: Token) -> RawEventView {
    match token {
        Token::Start(start) => RawEventView::Start(raw_tag_of(start)),
        Token::Empty(start) => RawEventView::Empty(raw_tag_of(start)),
        Token::End => RawEventView::End,
        Token::Eof => RawEventView::Eof,
        Token::Declaration(decl) => RawEventView::Declaration(raw_declaration_of(decl)),
        Token::DocType(bytes) => RawEventView::DocType(bytes@),
        Token::Comment(bytes) => RawEventView::Comment(bytes@),
        Token::CData(bytes) => RawEventView::CData(bytes@),
        Token::ProcessingInstruction(bytes) => RawEventView::ProcessingInstruction(bytes@),
        Token::Text(text) => RawEventView::Text(resolved(unescaped_text(text))),
    }
}

/// The document that the text makes, from the `n`-th read on, with `b`
/// under construction: every token that is read becomes an event, as
/// `event_for` says, and every event is taken in, as `advance` says, until
/// the document is complete or something fails. No more than `limit + 1`
/// tokens are read.
pub open spec fn document_from(text: Seq<char>, n: int, b: BuilderView, limit: int) -> Result<
    DocumentView,
    Fault,
>
    decreases limit - n + 1,
{
    if n > limit {
        Err(Fault::Build(BuildFault::UnexpectedEnd))
    } else {
        match read_at(text, n) {
            Err(e) => Err(Fault::Xml(error_words(e))),
            Ok(token) => match event_for(raw_of(token), b.open.len() == 0) {
                Err(f) => Err(f),
                Ok(None) => document_from(text, n + 1, b, limit),
                Ok(Some(ev)) => match advance(b, ev) {
                    Progress::Building(next) => document_from(text, n + 1, next, limit),
                    Progress::Built(d) => Ok(d),
                    Progress::Failed(f) => Err(Fault::Build(f)),
                },
            },
        }
    }
}

/// The document that a text makes, or why it makes none. What the
/// tokenizer reads in the text is named, not stated; everything that is
/// made of it is stated. A text holds no more tokens than bytes: reading
/// stops as at an unexpected end after one token more than that.
pub open spec fn document_of(text: Seq<char>) -> Result<DocumentView, Fault> {
    document_from(text, 0, fresh(), encode_utf8(text).len() as int)
}

/// Text as the tokenizer resolved it, or its words where it could not.
fn resolve(r: Result<String, quick_xml::Error>) -> (t: Result<String, String>)
    ensures
        words_view(t) == resolved(crate::xml::text_result_view(r)),
{
    match r {
        Ok(v) => Ok(v),
        Err(e) => Err(xml_error_text(&e)),
    }
}

/// What a declaration states readably: what cannot be read counts as not
/// stated.
fn readable_bytes(o: Option<Result<Vec<u8>, AttrError>>) -> (r: Option<Vec<u8>>)
    ensures
        bytes_option_view(r) == readable(crate::xml::stated_view(o)),
{
    match o {
        Some(Ok(b)) => Some(b),
        _ => None,
    }
}

/// The tag as plain values: what the tokenizer makes of its name and of
/// each of its attributes.
fn raw_tag(start: &BytesStart) -> (r: RawTag)
    ensures
        r@ == raw_tag_of(*start),
{
    let name = tag_name(start);
    let mut attributes: Vec<RawAttribute> = Vec::new();
    let found = tag_attributes(start);
    let ghost all = raw_attributes(*start);
    let mut i: usize = 0;
    while i < found.len()
        invariant
            i <= found.len(),
            crate::xml::found_view(found@) == all,
            attributes.len() == i,
            forall|j: int| 0 <= j < i ==> (#[trigger] attributes@[j])@ == raw_attribute_of(all[j]),
        decreases found.len() - i,
    {
        assert(crate::xml::found_view(found@)[i as int] == all[i as int]);
        match &found[i] {
            Err(e) => {
                attributes.push(RawAttribute::Malformed(attribute_error_text(e)));
            },
            Ok((key, raw_value)) => {
                let value = resolve(attribute_value(raw_value));
                attributes.push(RawAttribute::Read { key: copy_bytes(key), value });
            },
        }
        i += 1;
    }
    let r = RawTag { name, attributes };
    assert(r@.attributes =~= raw_tag_of(*start).attributes);
    r
}

/// A copy of the bytes.
fn copy_bytes(v: &Vec<u8>) -> (r: Vec<u8>)
    ensures
        r@ == v@,
{
    let mut r: Vec<u8> = Vec::new();
    let mut i: usize = 0;
    while i < v.len()
        invariant
            i <= v.len(),
            r@ == v@.take(i as int),
        decreases v.len() - i,
    {
        r.push(v[i]);
        i += 1;
    }
    assert(v@.take(v.len() as int) == v@);
    r
}

/// The declaration as plain values: what the tokenizer makes of its parts.
fn raw_declaration(decl: &BytesDecl) -> (r: RawDeclaration)
    ensures
        r@ == raw_declaration_of(*decl),
{
    let version = match declaration_version(decl) {
        Ok(v) => Ok(v),
        Err(e) => Err(xml_error_text(&e)),
    };
    RawDeclaration {
        version,
        encoding: readable_bytes(declaration_encoding(decl)),
        standalone: readable_bytes(declaration_standalone(decl)),
    }
}

/// What the tokenizer hands out as plain values.
fn raw_event(token: Token) -> (r: RawEvent)
    ensures
        r@ == raw_of(token),
{
    match token {
        Token::Start(start) => RawEvent::Start(raw_tag(&start)),
        Token::Empty(start) => RawEvent::Empty(raw_tag(&start)),
        Token::End => RawEvent::End,
        Token::Eof => RawEvent::Eof,
        Token::Declaration(decl) => RawEvent::Declaration(raw_declaration(&decl)),
        Token::DocType(bytes) => RawEvent::DocType(bytes),
        Token::Comment(bytes) => RawEvent::Comment(bytes),
        Token::CData(bytes) => RawEvent::CData(bytes),
        Token::ProcessingInstruction(bytes) => RawEvent::ProcessingInstruction(bytes),
        Token::Text(text) => RawEvent::Text(resolve(text_unescaped(&text))),
    }
}

/// Parses SVG text into a document.
///
/// The result is `document_of` the text: the tokenizer decides what
/// tokens the text holds, and everything that is made of them is stated.
/// The tokenizer's errors come back as `XmlParse`, names that are not
/// UTF-8 as `Utf8`, malformed attributes and a missing or unfinished root
/// as `InvalidSvg`.
pub fn parse_svg(svg: &str) -> (r: Result<Document, SavageError>)
    ensures
        match document_of(svg@) {
            Ok(d) => r matches Ok(doc) && doc@ == d,
            Err(f) => r matches Err(e) && reports(e, f),
        },
{
    let mut reader = new_reader(svg);
    let mut builder = TreeBuilder::new();
    let limit: usize = svg.as_bytes().len();
    let mut seen: usize = 0;
    assert(svg.spec_bytes() == encode_utf8(svg@));
    loop
        invariant
            seen <= limit,
            limit == encode_utf8(svg@).len(),
            reader_text(reader) == svg@,
            reader_reads(reader) == seen,
            document_of(svg@) == document_from(svg@, seen as int, builder@, limit as int),
        decreases limit - seen,
    {
        let token = match read_token(&mut reader) {
            Ok(t) => t,
            Err(e) => {
                return Err(xml_error(xml_error_text(&e)));
            },
        };
        match event_of(raw_event(token), builder.at_top()) {
            Err(e) => {
                return Err(e);
            },
            Ok(Some(ev)) => {
                match builder.step(ev) {
                    Some(r) => {
                        return r;
                    },
                    None => {},
                }
            },
            Ok(None) => {},
        }
        assert(document_of(svg@) == document_from(svg@, seen + 1, builder@, limit as int));
        if seen >= limit {
            assert(document_from(svg@, seen + 1, builder@, limit as int) == Err::<
                DocumentView,
                Fault,
            >(Fault::Build(BuildFault::UnexpectedEnd)));
            return Err(SavageError::InvalidSvg("Unexpected end of file".to_owned()));
        }
        seen += 1;
    }
}

} // verus!
