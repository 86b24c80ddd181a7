//! The document tree and its mathematical model.
//!
//! Every type of the tree has a view that holds the same data as sequences
//! of characters. Contracts speak of the views.

use vstd::prelude::*;

use crate::text::{extend, first_index, from_chars, split_once, str_eq, to_chars};

verus! {

/// The model of a qualified name.
pub struct QNameView {
    pub prefix: Option<Seq<char>>,
    pub local: Seq<char>,
}

/// The model of an attribute.
pub struct AttributeView {
    pub name: QNameView,
    pub value: Seq<char>,
}

/// The model of a node.
pub enum NodeView {
    Element(ElementView),
    Text(Seq<char>),
    Comment(Seq<char>),
    CData(Seq<char>),
    ProcessingInstruction { target: Seq<char>, content: Option<Seq<char>> },
}

/// The model of an element.
pub struct ElementView {
    pub name: QNameView,
    pub attributes: Seq<AttributeView>,
    pub children: Seq<NodeView>,
}

/// The model of an XML declaration.
pub struct XmlDeclarationView {
    pub version: Seq<char>,
    pub encoding: Option<Seq<char>>,
    pub standalone: Option<bool>,
}

/// The model of a document.
pub struct DocumentView {
    pub xml_declaration: Option<XmlDeclarationView>,
    pub doctype: Option<Seq<char>>,
    pub root: ElementView,
}

/// A complete SVG document.
#[derive(Debug)]
pub struct Document {
    /// The XML declaration, if the document has one.
    pub xml_declaration: Option<XmlDeclaration>,
    /// The text of the DOCTYPE declaration, if the document has one.
    pub doctype: Option<String>,
    /// The root element.
    pub root: Element,
}

/// The attributes of an XML declaration.
#[derive(Debug, Clone)]
pub struct XmlDeclaration {
    pub version: String,
    pub encoding: Option<String>,
    pub standalone: Option<bool>,
}

/// An element: its name, its attributes in order, its children in order.
#[derive(Debug)]
pub struct Element {
    pub name: QName,
    pub attributes: Vec<Attribute>,
    pub children: Vec<Node>,
}

/// A qualified name: a local name and, possibly, a namespace prefix.
#[derive(Debug, Clone, PartialEq, Eq, Hash)]
pub struct QName {
    pub prefix: Option<String>,
    pub local: String,
}

/// An attribute: a qualified name and an unescaped value.
#[derive(Debug, Clone)]
pub struct Attribute {
    pub name: QName,
    pub value: String,
}

/// A node of the tree.
#[derive(Debug)]
pub enum Node {
    Element(Element),
    Text(String),
    Comment(String),
    CData(String),
    ProcessingInstruction { target: String, content: Option<String> },
}

/// The model of an optional string.
pub open spec fn opt_view(o: Option<String>) -> Option<Seq<char>> {
    match o {
        Some(s) => Some(s@),
        None => None,
    }
}

/// The model of an optional string slice.
pub open spec fn opt_str_view(o: Option<&str>) -> Option<Seq<char>> {
    match o {
        Some(s) => Some(s@),
        None => None,
    }
}

impl View for QName {
    type V = QNameView;

    open spec fn view(&self) -> QNameView {
        QNameView { prefix: opt_view(self.prefix), local: self.local@ }
    }
}

impl View for Attribute {
    type V = AttributeView;

    open spec fn view(&self) -> AttributeView {
        AttributeView { name: self.name@, value: self.value@ }
    }
}

impl View for Node {
    type V = NodeView;

    open spec fn view(&self) -> NodeView
        decreases self,
    {
        match self {
            Node::Element(e) => NodeView::Element(e.view()),
            Node::Text(t) => NodeView::Text(t@),
            Node::Comment(t) => NodeView::Comment(t@),
            Node::CData(t) => NodeView::CData(t@),
            Node::ProcessingInstruction { target, content } => NodeView::ProcessingInstruction {
                target: target@,
                content: opt_view(*content),
            },
        }
    }
}

/// The model of a list of nodes.
pub open spec fn nodes_view(s: Seq<Node>) -> Seq<NodeView>
    decreases s,
{
    Seq::new(
        s.len(),
        |i: int|
            if 0 <= i < s.len() {
                s[i].view()
            } else {
                NodeView::Text(Seq::empty())
            },
    )
}

/// The model of a list of attributes.
pub open spec fn attributes_view(s: Seq<Attribute>) -> Seq<AttributeView> {
    Seq::new(s.len(), |i: int| s[i]@)
}

impl View for Element {
    type V = ElementView;

    open spec fn view(&self) -> ElementView
        decreases self,
    {
        ElementView {
            name: self.name@,
            attributes: attributes_view(self.attributes@),
            children: nodes_view(self.children@),
        }
    }
}

impl View for XmlDeclaration {
    type V = XmlDeclarationView;

    open spec fn view(&self) -> XmlDeclarationView {
        XmlDeclarationView {
            version: self.version@,
            encoding: opt_view(self.encoding),
            standalone: self.standalone,
        }
    }
}

impl View for Document {
    type V = DocumentView;

    open spec fn view(&self) -> DocumentView {
        DocumentView {
            xml_declaration: match self.xml_declaration {
                Some(d) => Some(d@),
                None => None,
            },
            doctype: opt_view(self.doctype),
            root: self.root@,
        }
    }
}

/// The model of a list with one more node.
pub proof fn lemma_nodes_view_push(s: Seq<Node>, n: Node)
    ensures
        nodes_view(s.push(n)) == nodes_view(s).push(n@),
{
    assert(nodes_view(s.push(n)) =~= nodes_view(s).push(n@));
}

/// The model of the first nodes of a list, one node more at a time.
pub proof fn lemma_nodes_view_take(s: Seq<Node>, i: int)
    requires
        0 <= i < s.len(),
    ensures
        nodes_view(s.take(i + 1)) == nodes_view(s.take(i)).push(s[i]@),
        nodes_view(s.take(i + 1)).drop_last() == nodes_view(s.take(i)),
        nodes_view(s.take(i + 1)).last() == s[i]@,
        nodes_view(s.take(i)) == nodes_view(s).take(i),
        nodes_view(s)[i] == s[i]@,
{
    assert(nodes_view(s.take(i + 1)) =~= nodes_view(s.take(i)).push(s[i]@));
    assert(nodes_view(s.take(i + 1)).drop_last() =~= nodes_view(s.take(i)));
    assert(nodes_view(s.take(i)) =~= nodes_view(s).take(i));
}

/// The model of the empty list of nodes is empty.
pub proof fn lemma_nodes_view_empty()
    ensures
        nodes_view(Seq::<Node>::empty()) == Seq::<NodeView>::empty(),
{
    assert(nodes_view(Seq::<Node>::empty()) =~= Seq::<NodeView>::empty());
}

/// The model of a list of nodes has as many nodes as the list.
pub proof fn lemma_nodes_view_all(s: Seq<Node>)
    ensures
        s.take(s.len() as int) == s,
        nodes_view(s).len() == s.len(),
        nodes_view(s).take(s.len() as int) == nodes_view(s),
{
    assert(s.take(s.len() as int) =~= s);
    assert(nodes_view(s).take(s.len() as int) =~= nodes_view(s));
}

/// The model of a list with one more attribute.
pub proof fn lemma_attributes_view_push(s: Seq<Attribute>, a: Attribute)
    ensures
        attributes_view(s.push(a)) == attributes_view(s).push(a@),
{
    assert(attributes_view(s.push(a)) =~= attributes_view(s).push(a@));
}

/// The model of the first attributes of a list, one more at a time.
pub proof fn lemma_attributes_view_take(s: Seq<Attribute>, i: int)
    requires
        0 <= i < s.len(),
    ensures
        attributes_view(s.take(i + 1)) == attributes_view(s.take(i)).push(s[i]@),
        attributes_view(s.take(i + 1)).drop_last() == attributes_view(s.take(i)),
        attributes_view(s.take(i + 1)).last() == s[i]@,
        attributes_view(s.take(i)) == attributes_view(s).take(i),
{
    assert(attributes_view(s.take(i + 1)) =~= attributes_view(s.take(i)).push(s[i]@));
    assert(attributes_view(s.take(i + 1)).drop_last() =~= attributes_view(s.take(i)));
    assert(attributes_view(s.take(i)) =~= attributes_view(s).take(i));
}

/// The model of a list of attributes has as many attributes as the list.
pub proof fn lemma_attributes_view_all(s: Seq<Attribute>)
    ensures
        s.take(s.len() as int) == s,
        attributes_view(s).len() == s.len(),
        attributes_view(s).take(s.len() as int) == attributes_view(s),
        attributes_view(Seq::<Attribute>::empty()) == Seq::<AttributeView>::empty(),
{
    assert(s.take(s.len() as int) =~= s);
    assert(attributes_view(s).take(s.len() as int) =~= attributes_view(s));
    assert(attributes_view(Seq::<Attribute>::empty()) =~= Seq::<AttributeView>::empty());
}

/// The name that `s` writes: what stands before the first colon is the
/// prefix, what follows it the local name.
pub open spec fn parsed_name(s: Seq<char>) -> QNameView {
    let at = first_index(s, ':', 0);
    if at < s.len() {
        QNameView { prefix: Some(s.take(at)), local: s.skip(at + 1) }
    } else {
        QNameView { prefix: None, local: s }
    }
}

/// Whether a name declares a namespace: `xmlns` or `xmlns:prefix`.
pub open spec fn is_namespace_declaration(q: QNameView) -> bool {
    q.prefix == Some("xmlns"@) || (q.prefix is None && q.local == "xmlns"@)
}

/// `prefix:local`, or `local` alone.
pub open spec fn full_name(q: QNameView) -> Seq<char> {
    match q.prefix {
        Some(p) => p + seq![':'] + q.local,
        None => q.local,
    }
}

/// The first position from `from` on of an attribute with the local name
/// `name`; the length where there is none.
pub open spec fn attr_index(attrs: Seq<AttributeView>, name: Seq<char>, from: int) -> int
    decreases attrs.len() - from,
{
    if 0 <= from < attrs.len() && attrs[from].name.local != name {
        attr_index(attrs, name, from + 1)
    } else {
        from
    }
}

/// Where `attr_index` points, an attribute with the name stands, and none
/// before it.
pub proof fn lemma_attr_index(attrs: Seq<AttributeView>, name: Seq<char>, from: int)
    requires
        0 <= from <= attrs.len(),
    ensures
        from <= attr_index(attrs, name, from) <= attrs.len(),
        attr_index(attrs, name, from) < attrs.len() ==> attrs[attr_index(
            attrs,
            name,
            from,
        )].name.local == name,
        forall|i: int| from <= i < attr_index(attrs, name, from) ==> attrs[i].name.local != name,
    decreases attrs.len() - from,
{
    if from < attrs.len() && attrs[from].name.local != name {
        lemma_attr_index(attrs, name, from + 1);
    }
}

/// The value of the first attribute with the local name `name`.
pub open spec fn attr_value(attrs: Seq<AttributeView>, name: Seq<char>) -> Option<Seq<char>> {
    let at = attr_index(attrs, name, 0);
    if at < attrs.len() {
        Some(attrs[at].value)
    } else {
        None
    }
}

/// The attributes once `name` has been set to `value`: the first attribute
/// with that local name gets the value; where there is none, an attribute
/// without prefix is added at the end.
pub open spec fn with_attr(attrs: Seq<AttributeView>, name: Seq<char>, value: Seq<char>) -> Seq<
    AttributeView,
> {
    let at = attr_index(attrs, name, 0);
    if at < attrs.len() {
        attrs.update(at, AttributeView { name: attrs[at].name, value })
    } else {
        attrs.push(AttributeView { name: QNameView { prefix: None, local: name }, value })
    }
}

/// The attributes whose local name is not `name`.
pub open spec fn without_attr(attrs: Seq<AttributeView>, name: Seq<char>) -> Seq<AttributeView>
    decreases attrs.len(),
{
    if attrs.len() == 0 {
        attrs
    } else if attrs.last().name.local == name {
        without_attr(attrs.drop_last(), name)
    } else {
        without_attr(attrs.drop_last(), name).push(attrs.last())
    }
}

/// The elements among the nodes, in order.
pub open spec fn child_elements(nodes: Seq<NodeView>) -> Seq<ElementView>
    decreases nodes.len(),
{
    if nodes.len() == 0 {
        Seq::empty()
    } else {
        match nodes.last() {
            NodeView::Element(e) => child_elements(nodes.drop_last()).push(e),
            _ => child_elements(nodes.drop_last()),
        }
    }
}

/// The namespaces that the attributes declare, by prefix; `None` is the
/// default namespace. A later declaration replaces an earlier one.
pub open spec fn declared_namespaces(attrs: Seq<AttributeView>) -> Map<
    Option<Seq<char>>,
    Seq<char>,
>
    decreases attrs.len(),
{
    if attrs.len() == 0 {
        Map::empty()
    } else {
        let rest = declared_namespaces(attrs.drop_last());
        let a = attrs.last();
        if a.name.local == "xmlns"@ && a.name.prefix is None {
            rest.insert(None, a.value)
        } else if a.name.prefix == Some("xmlns"@) {
            rest.insert(Some(a.name.local), a.value)
        } else {
            rest
        }
    }
}

impl ElementView {
    /// The value of the first attribute with the local name `name`.
    pub open spec fn attr(self, name: Seq<char>) -> Option<Seq<char>> {
        attr_value(self.attributes, name)
    }

    /// The element with other children.
    pub open spec fn with_children(self, children: Seq<NodeView>) -> ElementView {
        ElementView { name: self.name, attributes: self.attributes, children }
    }

    /// The element with other attributes.
    pub open spec fn with_attributes(self, attributes: Seq<AttributeView>) -> ElementView {
        ElementView { name: self.name, attributes, children: self.children }
    }
}

impl QName {
    /// A name without prefix.
    pub fn new(local: &str) -> (r: QName)
        ensures
            r@ == (QNameView { prefix: None, local: local@ }),
    {
        QName { prefix: None, local: local.to_owned() }
    }

    /// A name with a prefix.
    pub fn with_prefix(prefix: &str, local: &str) -> (r: QName)
        ensures
            r@ == (QNameView { prefix: Some(prefix@), local: local@ }),
    {
        QName { prefix: Some(prefix.to_owned()), local: local.to_owned() }
    }

    /// Parses a qualified name from text such as `prefix:local` or `local`.
    pub fn parse(s: &str) -> (r: QName)
        ensures
            r@ == parsed_name(s@),
    {
        let v = to_chars(s);
        match split_once(&v, ':') {
            Some((prefix, local)) => QName {
                prefix: Some(from_chars(&prefix)),
                local: from_chars(&local),
            },
            None => QName { prefix: None, local: s.to_owned() },
        }
    }

    /// Whether this name is a namespace declaration (`xmlns` or `xmlns:prefix`).
    pub fn is_xmlns(&self) -> (r: bool)
        ensures
            r == is_namespace_declaration(self@),
    {
        match &self.prefix {
            Some(p) => str_eq(p.as_str(), "xmlns"),
            None => str_eq(self.local.as_str(), "xmlns"),
        }
    }

    /// The full name as text.
    pub fn full_name(&self) -> (r: String)
        ensures
            r@ == full_name(self@),
    {
        from_chars(&self.full_name_chars())
    }

    /// The full name as characters.
    pub fn full_name_chars(&self) -> (r: Vec<char>)
        ensures
            r@ == full_name(self@),
    {
        match &self.prefix {
            Some(p) => {
                let mut out = to_chars(p.as_str());
                out.push(':');
                extend(&mut out, &to_chars(self.local.as_str()));
                out
            },
            None => to_chars(self.local.as_str()),
        }
    }

    /// A copy of the name.
    pub fn duplicate(&self) -> (r: QName)
        ensures
            r@ == self@,
    {
        QName {
            prefix: match &self.prefix {
                Some(p) => Some(p.clone()),
                None => None,
            },
            local: self.local.clone(),
        }
    }
}

impl Attribute {
    /// An attribute without prefix.
    pub fn new(name: &str, value: &str) -> (r: Attribute)
        ensures
            r@ == (AttributeView {
                name: QNameView { prefix: None, local: name@ },
                value: value@,
            }),
    {
        Attribute { name: QName::new(name), value: value.to_owned() }
    }
}

impl Element {
    /// An element without prefix, attributes or children.
    pub fn new(name: &str) -> (r: Element)
        ensures
            r@ == (ElementView {
                name: QNameView { prefix: None, local: name@ },
                attributes: Seq::empty(),
                children: Seq::empty(),
            }),
    {
        let r = Element { name: QName::new(name), attributes: Vec::new(), children: Vec::new() };
        proof {
            lemma_nodes_view_empty();
            lemma_attributes_view_all(r.attributes@);
        }
        r
    }

    /// The position of the first attribute with the local name `name`.
    fn find_attr(&self, name: &str) -> (r: usize)
        ensures
            r <= self.attributes.len(),
            r == attr_index(self@.attributes, name@, 0),
    {
        let mut i: usize = 0;
        while i < self.attributes.len() && !str_eq(self.attributes[i].name.local.as_str(), name)
            invariant
                i <= self.attributes.len(),
                attr_index(self@.attributes, name@, 0) == attr_index(
                    self@.attributes,
                    name@,
                    i as int,
                ),
            decreases self.attributes.len() - i,
        {
            i += 1;
        }
        i
    }

    /// The value of the first attribute with the local name `name`.
    pub fn get_attr(&self, name: &str) -> (r: Option<&str>)
        ensures
            opt_str_view(r) == self@.attr(name@),
    {
        let i = self.find_attr(name);
        if i < self.attributes.len() {
            Some(self.attributes[i].value.as_str())
        } else {
            None
        }
    }

    /// Sets the value of the first attribute with the local name `name`, or
    /// adds such an attribute.
    pub fn set_attr(&mut self, name: &str, value: &str)
        ensures
            final(self)@ == old(self)@.with_attributes(
                with_attr(old(self)@.attributes, name@, value@),
            ),
    {
        let i = self.find_attr(name);
        if i < self.attributes.len() {
            let q = self.attributes[i].name.duplicate();
            let ghost before = self.attributes@;
            self.attributes.set(i, Attribute { name: q, value: value.to_owned() });
            assert(attributes_view(self.attributes@) =~= attributes_view(before).update(
                i as int,
                AttributeView { name: before[i as int]@.name, value: value@ },
            ));
        } else {
            let ghost before = self.attributes@;
            let a = Attribute::new(name, value);
            self.attributes.push(a);
            proof {
                lemma_attributes_view_push(before, a);
            }
        }
    }

    /// Removes every attribute with the local name `name`.
    pub fn remove_attr(&mut self, name: &str)
        ensures
            final(self)@ == old(self)@.with_attributes(
                without_attr(old(self)@.attributes, name@),
            ),
    {
        let mut attrs: Vec<Attribute> = Vec::new();
        std::mem::swap(&mut attrs, &mut self.attributes);
        let mut kept: Vec<Attribute> = Vec::new();
        proof {
            lemma_attributes_view_all(attrs@);
        }
        for a in it: attrs
            invariant
                it.seq() == attrs@,
                attributes_view(kept@) == without_attr(
                    attributes_view(attrs@.take(it.index())),
                    name@,
                ),
        {
            proof {
                lemma_attributes_view_take(attrs@, it.index());
            }
            let ghost before = kept@;
            if !str_eq(a.name.local.as_str(), name) {
                kept.push(a);
                proof {
                    lemma_attributes_view_push(before, a);
                }
            }
        }
        proof {
            lemma_attributes_view_all(attrs@);
        }
        self.attributes = kept;
    }

    /// Whether the element has the local name `name`.
    pub fn is(&self, name: &str) -> (r: bool)
        ensures
            r == (self@.name.local == name@),
    {
        str_eq(self.name.local.as_str(), name)
    }

    /// The child elements, without text, comments and the like.
    pub fn child_elements(&self) -> (r: Vec<&Element>)
        ensures
            Seq::new(r@.len(), |i: int| r@[i]@) == child_elements(self@.children),
    {
        let mut r: Vec<&Element> = Vec::new();
        let mut i: usize = 0;
        let ghost nodes = self@.children;
        assert(Seq::new(r@.len(), |i: int| r@[i]@) =~= child_elements(nodes.take(0)));
        while i < self.children.len()
            invariant
                i <= self.children.len(),
                nodes == self@.children,
                Seq::new(r@.len(), |i: int| r@[i]@) == child_elements(nodes.take(i as int)),
            decreases self.children.len() - i,
        {
            proof {
                lemma_nodes_view_take(self.children@, i as int);
                assert(nodes.take(i + 1).drop_last() == nodes.take(i as int));
            }
            let ghost before = Seq::new(r@.len(), |i: int| r@[i]@);
            match &self.children[i] {
                Node::Element(e) => {
                    r.push(e);
                    assert(Seq::new(r@.len(), |i: int| r@[i]@) =~= before.push(e@));
                },
                _ => {},
            }
            i += 1;
        }
        proof {
            lemma_nodes_view_all(self.children@);
        }
        r
    }
}

/// Takes the children out of an element.
pub(crate) fn take_children(elem: &mut Element) -> (r: Vec<Node>)
    ensures
        r == old(elem).children,
        final(elem).name == old(elem).name,
        final(elem).attributes == old(elem).attributes,
{
    let mut children: Vec<Node> = Vec::new();
    std::mem::swap(&mut children, &mut elem.children);
    children
}

/// Takes the attributes out of an element.
pub(crate) fn take_attributes(elem: &mut Element) -> (r: Vec<Attribute>)
    ensures
        r == old(elem).attributes,
        final(elem).name == old(elem).name,
        final(elem).children == old(elem).children,
{
    let mut attributes: Vec<Attribute> = Vec::new();
    std::mem::swap(&mut attributes, &mut elem.attributes);
    attributes
}

/// The namespace declarations of an element, by prefix.
#[derive(Debug, Clone)]
pub struct Namespaces {
    entries: Vec<(Option<String>, String)>,
}

/// The prefix that a declaration declares.
pub open spec fn entry_key(e: (Option<String>, String)) -> Option<Seq<char>> {
    opt_view(e.0)
}

/// The map that a list of declarations makes; a later one replaces an earlier
/// one.
pub open spec fn entries_map(s: Seq<(Option<String>, String)>) -> Map<Option<Seq<char>>, Seq<char>>
    decreases s.len(),
{
    if s.len() == 0 {
        Map::empty()
    } else {
        entries_map(s.drop_last()).insert(entry_key(s.last()), s.last().1@)
    }
}

proof fn lemma_entries_absent(s: Seq<(Option<String>, String)>, k: Option<Seq<char>>)
    requires
        forall|j: int| 0 <= j < s.len() ==> entry_key(#[trigger] s[j]) != k,
    ensures
        !entries_map(s).dom().contains(k),
    decreases s.len(),
{
    if s.len() > 0 {
        assert(entry_key(s[s.len() - 1]) != k);
        assert forall|j: int| 0 <= j < s.drop_last().len() implies entry_key(
            #[trigger] s.drop_last()[j],
        ) != k by {
            assert(s.drop_last()[j] == s[j]);
        }
        lemma_entries_absent(s.drop_last(), k);
    }
}

proof fn lemma_entries_present(s: Seq<(Option<String>, String)>, k: Option<Seq<char>>, i: int)
    requires
        0 <= i < s.len(),
        entry_key(s[i]) == k,
        forall|j: int| i < j < s.len() ==> entry_key(#[trigger] s[j]) != k,
    ensures
        entries_map(s).dom().contains(k),
        entries_map(s)[k] == s[i].1@,
    decreases s.len(),
{
    if i < s.len() - 1 {
        assert(entry_key(s[s.len() - 1]) != k);
        assert forall|j: int| i < j < s.drop_last().len() implies entry_key(
            #[trigger] s.drop_last()[j],
        ) != k by {
            assert(s.drop_last()[j] == s[j]);
        }
        lemma_entries_present(s.drop_last(), k, i);
    }
}

fn key_is(key: &Option<String>, prefix: &Option<&str>) -> (r: bool)
    ensures
        r == (opt_view(*key) == opt_str_view(*prefix)),
{
    match key {
        Some(k) => match prefix {
            Some(p) => str_eq(k.as_str(), p),
            None => false,
        },
        None => prefix.is_none(),
    }
}

impl View for Namespaces {
    type V = Map<Option<Seq<char>>, Seq<char>>;

    closed spec fn view(&self) -> Map<Option<Seq<char>>, Seq<char>> {
        entries_map(self.entries@)
    }
}

impl Namespaces {
    /// The position of the last declaration of `prefix`.
    fn find(&self, prefix: &Option<&str>) -> (r: Option<usize>)
        ensures
            match r {
                Some(i) => i < self.entries.len() && self@.dom().contains(opt_str_view(*prefix))
                    && self@[opt_str_view(*prefix)] == self.entries@[i as int].1@,
                None => !self@.dom().contains(opt_str_view(*prefix)),
            },
    {
        let ghost k = opt_str_view(*prefix);
        let mut i: usize = self.entries.len();
        while i > 0
            invariant
                i <= self.entries.len(),
                k == opt_str_view(*prefix),
                forall|j: int| i <= j < self.entries.len() ==> entry_key(
                    #[trigger] self.entries@[j],
                ) != k,
            decreases i,
        {
            if key_is(&self.entries[i - 1].0, prefix) {
                proof {
                    lemma_entries_present(self.entries@, k, i - 1);
                }
                return Some(i - 1);
            }
            i -= 1;
        }
        proof {
            lemma_entries_absent(self.entries@, k);
        }
        None
    }

    /// Whether `prefix` is declared; `None` asks for the default namespace.
    pub fn contains_key(&self, prefix: Option<&str>) -> (r: bool)
        ensures
            r == self@.dom().contains(opt_str_view(prefix)),
    {
        self.find(&prefix).is_some()
    }

    /// The namespace that `prefix` is declared as.
    pub fn get(&self, prefix: Option<&str>) -> (r: Option<&str>)
        ensures
            match r {
                Some(v) => self@.dom().contains(opt_str_view(prefix)) && self@[opt_str_view(
                    prefix,
                )] == v@,
                None => !self@.dom().contains(opt_str_view(prefix)),
            },
    {
        match self.find(&prefix) {
            Some(i) => Some(self.entries[i].1.as_str()),
            None => None,
        }
    }
}

impl Element {
    /// The namespace declarations on this element.
    pub fn namespaces(&self) -> (r: Namespaces)
        ensures
            r@ == declared_namespaces(self@.attributes),
    {
        let mut entries: Vec<(Option<String>, String)> = Vec::new();
        let ghost attrs = self@.attributes;
        let mut i: usize = 0;
        while i < self.attributes.len()
            invariant
                i <= self.attributes.len(),
                attrs == self@.attributes,
                entries_map(entries@) == declared_namespaces(attrs.take(i as int)),
            decreases self.attributes.len() - i,
        {
            let a = &self.attributes[i];
            proof {
                assert(attrs.take(i + 1).drop_last() == attrs.take(i as int));
                assert(attrs.take(i + 1).last() == a@);
            }
            let ghost before = entries@;
            if str_eq(a.name.local.as_str(), "xmlns") && a.name.prefix.is_none() {
                entries.push((None, a.value.clone()));
                assert(entries@.drop_last() == before);
            } else {
                let declares = match &a.name.prefix {
                    Some(p) => str_eq(p.as_str(), "xmlns"),
                    None => false,
                };
                if declares {
                    entries.push((Some(a.name.local.clone()), a.value.clone()));
                    assert(entries@.drop_last() == before);
                }
            }
            i += 1;
        }
        proof {
            assert(attrs.take(self.attributes.len() as int) == attrs);
        }
        Namespaces { entries }
    }
}

/// The element and every element below it, in document order.
pub open spec fn descendants(e: Element) -> Seq<Element>
    decreases e,
{
    seq![e] + nodes_descendants(e.children@)
}

/// The elements among the nodes and below them, in document order.
pub open spec fn nodes_descendants(ns: Seq<Node>) -> Seq<Element>
    decreases ns,
{
    if ns.len() == 0 {
        Seq::empty()
    } else {
        nodes_descendants(ns.drop_last()) + match ns.last() {
            Node::Element(c) => descendants(c),
            _ => Seq::empty(),
        }
    }
}

/// Whether `results` holds, for each of `elements` in order, something
/// that `f` may return for it.
pub open spec fn visited<T, F: Fn(&Element) -> T>(f: F, elements: Seq<Element>, results: Seq<T>) -> bool {
    &&& results.len() == elements.len()
    &&& forall|i: int| 0 <= i < elements.len() ==> call_ensures(f, (&elements[i],), #[trigger] results[i])
}

fn visit<T, F: Fn(&Element) -> T>(elem: &Element, f: &F, results: &mut Vec<T>)
    requires
        forall|e: &Element| call_requires(*f, (e,)),
    ensures
        final(results)@.len() == old(results)@.len() + descendants(*elem).len(),
        final(results)@.take(old(results)@.len() as int) == old(results)@,
        visited(*f, descendants(*elem), final(results)@.skip(old(results)@.len() as int)),
    decreases elem,
{
    let ghost start = results@;
    results.push(f(elem));
    let ghost own = results@;
    let mut i: usize = 0;
    assert(elem.children@.take(0) =~= Seq::<Node>::empty());
    assert(results@.skip(start.len() as int) =~= seq![results@[start.len() as int]]);
    while i < elem.children.len()
        invariant
            i <= elem.children.len(),
            forall|e: &Element| call_requires(*f, (e,)),
            results@.len() == start.len() + 1 + nodes_descendants(elem.children@.take(i as int)).len(),
            results@.take(start.len() as int) == start,
            visited(
                *f,
                seq![*elem] + nodes_descendants(elem.children@.take(i as int)),
                results@.skip(start.len() as int),
            ),
        decreases elem.children.len() - i,
    {
        let ghost before = results@;
        let ghost done = seq![*elem] + nodes_descendants(elem.children@.take(i as int));
        proof {
            assert(elem.children@.take(i + 1).drop_last() == elem.children@.take(i as int));
            assert(elem.children@.take(i + 1).last() == elem.children@[i as int]);
        }
        match &elem.children[i] {
            Node::Element(c) => {
                visit(c, f, results);
                proof {
                    let all = done + descendants(*c);
                    assert(all == seq![*elem] + nodes_descendants(elem.children@.take(i + 1)));
                    let rs = results@.skip(start.len() as int);
                    assert forall|j: int| 0 <= j < all.len() implies call_ensures(
                        *f,
                        (&all[j],),
                        #[trigger] rs[j],
                    ) by {
                        if j < done.len() {
                            assert(rs[j] == before.skip(start.len() as int)[j]);
                            assert(all[j] == done[j]);
                        } else {
                            assert(rs[j] == results@.skip(before.len() as int)[j - done.len()]);
                            assert(all[j] == descendants(*c)[j - done.len()]);
                        }
                    }
                    assert(results@.take(start.len() as int) == results@.take(
                        before.len() as int,
                    ).take(start.len() as int));
                }
            },
            _ => {
                assert(done + Seq::<Element>::empty() == done);
            },
        }
        i += 1;
    }
    proof {
        assert(elem.children@.take(elem.children.len() as int) == elem.children@);
    }
}

impl Document {
    /// Visits every element of the document in document order, and
    /// returns what `f` made of each.
    pub fn for_each_element<T, F: Fn(&Element) -> T>(&self, f: F) -> (r: Vec<T>)
        requires
            forall|e: &Element| call_requires(f, (e,)),
        ensures
            visited(f, descendants(self.root), r@),
    {
        let mut results: Vec<T> = Vec::new();
        visit(&self.root, &f, &mut results);
        assert(results@.skip(0) == results@);
        results
    }
}

/// Whether `new` is what becomes of the node `old` when `f` rewrites
/// elements: an element becomes something that `f` may return for it,
/// every other node stays as it is.
pub open spec fn rewritten<F: Fn(Element) -> Element>(f: F, old_node: Node, new_node: Node) -> bool {
    match old_node {
        Node::Element(e) => new_node matches Node::Element(e2) && call_ensures(f, (e,), e2),
        other => new_node == other,
    }
}

impl Element {
    /// Rewrites each child element with `f`, in order. Text, comments and
    /// the like stay as they are, and so do the name and the attributes of
    /// this element.
    pub fn child_elements_mut<F: Fn(Element) -> Element>(&mut self, f: F)
        requires
            forall|e: Element| call_requires(f, (e,)),
        ensures
            final(self).name == old(self).name,
            final(self).attributes == old(self).attributes,
            final(self).children@.len() == old(self).children@.len(),
            forall|i: int|
                0 <= i < old(self).children@.len() ==> rewritten(
                    f,
                    old(self).children@[i],
                    #[trigger] final(self).children@[i],
                ),
    {
        let mut children: Vec<Node> = Vec::new();
        std::mem::swap(&mut children, &mut self.children);
        let mut done: Vec<Node> = Vec::new();
        for node in it: children
            invariant
                it.seq() == children@,
                forall|e: Element| call_requires(f, (e,)),
                done@.len() == it.index(),
                forall|i: int|
                    0 <= i < it.index() ==> rewritten(f, children@[i], #[trigger] done@[i]),
        {
            match node {
                Node::Element(e) => {
                    done.push(Node::Element(f(e)));
                },
                other => {
                    done.push(other);
                },
            }
        }
        self.children = done;
    }
}

/// Whether `new` is what becomes of the element `old` when `f` gives every
/// element its name and attributes: at every depth the name and the
/// attributes are something that `f` may return for the old ones, and the
/// children are the old children, relabelled in turn.
pub open spec fn relabelled<F: Fn(QName, Vec<Attribute>) -> (QName, Vec<Attribute>)>(
    f: F,
    old_element: Element,
    new_element: Element,
) -> bool
    decreases old_element,
{
    &&& call_ensures(
        f,
        (old_element.name, old_element.attributes),
        (new_element.name, new_element.attributes),
    )
    &&& relabelled_nodes(f, old_element.children@, new_element.children@)
}

/// Whether `new_nodes` are the nodes `old_nodes` with every element
/// relabelled.
pub open spec fn relabelled_nodes<F: Fn(QName, Vec<Attribute>) -> (QName, Vec<Attribute>)>(
    f: F,
    old_nodes: Seq<Node>,
    new_nodes: Seq<Node>,
) -> bool
    decreases old_nodes,
{
    if old_nodes.len() == 0 {
        new_nodes.len() == 0
    } else {
        &&& new_nodes.len() == old_nodes.len()
        &&& relabelled_nodes(f, old_nodes.drop_last(), new_nodes.drop_last())
        &&& match old_nodes.last() {
            Node::Element(c) => new_nodes.last() matches Node::Element(c2) && relabelled(f, c, c2),
            other => new_nodes.last() == other,
        }
    }
}

fn relabel<F: Fn(QName, Vec<Attribute>) -> (QName, Vec<Attribute>)>(elem: Element, f: &F) -> (r:
    Element)
    requires
        forall|n: QName, a: Vec<Attribute>| call_requires(*f, (n, a)),
    ensures
        relabelled(*f, elem, r),
    decreases elem,
{
    let Element { name, attributes, children } = elem;
    let (name, attributes) = f(name, attributes);
    let mut done: Vec<Node> = Vec::new();
    for node in it: children
        invariant
            it.seq() == children@,
            children == elem.children,
            forall|n: QName, a: Vec<Attribute>| call_requires(*f, (n, a)),
            relabelled_nodes(*f, children@.take(it.index()), done@),
    {
        let ghost before = done@;
        proof {
            assert(children@.take(it.index() + 1).drop_last() == children@.take(it.index()));
            assert(children@.take(it.index() + 1).last() == node);
        }
        match node {
            Node::Element(c) => {
                done.push(Node::Element(relabel(c, f)));
            },
            other => {
                done.push(other);
            },
        }
        assert(done@.drop_last() == before);
    }
    proof {
        assert(children@.take(children@.len() as int) == children@);
    }
    Element { name, attributes, children: done }
}

impl Document {
    /// Gives every element of the document the name and the attributes
    /// that `f` makes of its own, in document order. The shape of the tree
    /// stays as it is.
    pub fn for_each_element_mut<F: Fn(QName, Vec<Attribute>) -> (QName, Vec<Attribute>)>(
        &mut self,
        f: F,
    )
        requires
            forall|n: QName, a: Vec<Attribute>| call_requires(f, (n, a)),
        ensures
            relabelled(f, old(self).root, final(self).root),
            final(self).xml_declaration == old(self).xml_declaration,
            final(self).doctype == old(self).doctype,
    {
        let mut root = Element { name: QName::new(""), attributes: Vec::new(), children: Vec::new() };
        std::mem::swap(&mut root, &mut self.root);
        self.root = relabel(root, &f);
    }
}

fn copy_option(o: &Option<String>) -> (r: Option<String>)
    ensures
        opt_view(r) == opt_view(*o),
{
    match o {
        Some(s) => Some(s.clone()),
        None => None,
    }
}

impl Clone for Node {
    fn clone(&self) -> (r: Node)
        ensures
            r@ == self@,
        decreases self,
    {
        match self {
            Node::Element(e) => Node::Element(e.clone()),
            Node::Text(t) => Node::Text(t.clone()),
            Node::Comment(t) => Node::Comment(t.clone()),
            Node::CData(t) => Node::CData(t.clone()),
            Node::ProcessingInstruction { target, content } => Node::ProcessingInstruction {
                target: target.clone(),
                content: copy_option(content),
            },
        }
    }
}

impl Clone for Element {
    fn clone(&self) -> (r: Element)
        ensures
            r@ == self@,
        decreases self,
    {
        let mut attributes: Vec<Attribute> = Vec::new();
        let mut i: usize = 0;
        while i < self.attributes.len()
            invariant
                i <= self.attributes.len(),
                attributes_view(attributes@) == attributes_view(self.attributes@.take(i as int)),
            decreases self.attributes.len() - i,
        {
            let a = &self.attributes[i];
            let ghost before = attributes@;
            let b = Attribute { name: a.name.duplicate(), value: a.value.clone() };
            attributes.push(b);
            proof {
                lemma_attributes_view_take(self.attributes@, i as int);
                lemma_attributes_view_push(before, b);
            }
            i += 1;
        }
        let mut children: Vec<Node> = Vec::new();
        let mut k: usize = 0;
        proof {
            lemma_nodes_view_empty();
        }
        while k < self.children.len()
            invariant
                k <= self.children.len(),
                nodes_view(children@) == nodes_view(self.children@.take(k as int)),
            decreases self.children.len() - k,
        {
            let ghost before = children@;
            let n = self.children[k].clone();
            children.push(n);
            proof {
                lemma_nodes_view_take(self.children@, k as int);
                lemma_nodes_view_push(before, n);
            }
            k += 1;
        }
        proof {
            lemma_attributes_view_all(self.attributes@);
            lemma_nodes_view_all(self.children@);
        }
        Element { name: self.name.duplicate(), attributes, children }
    }
}

impl Clone for Document {
    fn clone(&self) -> (r: Document)
        ensures
            r@ == self@,
    {
        Document {
            xml_declaration: match &self.xml_declaration {
                Some(d) => Some(
                    XmlDeclaration {
                        version: d.version.clone(),
                        encoding: copy_option(&d.encoding),
                        standalone: d.standalone,
                    },
                ),
                None => None,
            },
            doctype: copy_option(&self.doctype),
            root: self.root.clone(),
        }
    }
}

} // verus!
