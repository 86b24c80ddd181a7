//! The optimization passes, each a rewriting of the tree.

use vstd::prelude::*;

use crate::ast::{
    attr_value, attributes_view, full_name, is_namespace_declaration, lemma_attributes_view_all,
    lemma_attributes_view_push, lemma_attributes_view_take, lemma_nodes_view_all,
    lemma_nodes_view_empty, lemma_nodes_view_push, lemma_nodes_view_take, nodes_view,
    take_attributes, take_children, with_attr, without_attr, Attribute, AttributeView, Document,
    DocumentView, Element, ElementView, Node, NodeView, QName, QNameView,
};
use crate::color::{minified_color, minify_color};
use crate::defaults::{is_default, is_default_value};
use crate::number::{is_zero_text, writes_zero};
use crate::options::Options;
use crate::path::{parse_path, parsed, serialize_path, serialized};
use crate::style::{
    is_color_name, minified_style, minify_style, minify_style_colors, recolored_style,
};
use crate::text::{
    blank, contains, has_prefix, has_substring, is_blank, starts_with, str_eq, to_chars,
};

verus! {

/// Whether a name belongs to an editor: its full name begins with
/// `sodipodi:` or `inkscape:`.
pub open spec fn is_editor_name(q: QNameView) -> bool {
    has_prefix(full_name(q), "sodipodi:"@) || has_prefix(full_name(q), "inkscape:"@)
}

/// Whether an element with this name only describes the document.
pub open spec fn is_metadata_name(q: QNameView) -> bool {
    q.local == "metadata"@ || q.local == "title"@ || q.local == "desc"@ || is_editor_name(q)
        || q.prefix == Some("sodipodi"@) || q.prefix == Some("inkscape"@)
}

/// Whether an attribute only serves an editor.
pub open spec fn is_metadata_attribute(a: AttributeView) -> bool {
    is_editor_name(a.name) || a.name.local == "data-name"@
}

/// The attributes that do not only serve an editor.
pub open spec fn rendering_attributes(attrs: Seq<AttributeView>) -> Seq<AttributeView>
    decreases attrs.len(),
{
    if attrs.len() == 0 {
        attrs
    } else if is_metadata_attribute(attrs.last()) {
        rendering_attributes(attrs.drop_last())
    } else {
        rendering_attributes(attrs.drop_last()).push(attrs.last())
    }
}

/// The element without metadata: no child element that only describes the
/// document, no attribute that only serves an editor, at any depth. The
/// element itself stays.
pub open spec fn without_metadata(e: ElementView) -> ElementView
    decreases e,
{
    ElementView {
        name: e.name,
        attributes: rendering_attributes(e.attributes),
        children: without_metadata_nodes(e.children),
    }
}

/// The nodes without metadata, at any depth.
pub open spec fn without_metadata_nodes(ns: Seq<NodeView>) -> Seq<NodeView>
    decreases ns,
{
    if ns.len() == 0 {
        Seq::empty()
    } else {
        let rest = without_metadata_nodes(ns.drop_last());
        match ns.last() {
            NodeView::Element(c) => if is_metadata_name(c.name) {
                rest
            } else {
                rest.push(NodeView::Element(without_metadata(c)))
            },
            other => rest.push(other),
        }
    }
}

fn editor_name(q: &QName) -> (r: bool)
    ensures
        r == is_editor_name(q@),
{
    let full = q.full_name_chars();
    starts_with(&full, &to_chars("sodipodi:")) || starts_with(&full, &to_chars("inkscape:"))
}

fn metadata_name(q: &QName) -> (r: bool)
    ensures
        r == is_metadata_name(q@),
{
    if str_eq(q.local.as_str(), "metadata") || str_eq(q.local.as_str(), "title") || str_eq(
        q.local.as_str(),
        "desc",
    ) || editor_name(q) {
        return true;
    }
    match &q.prefix {
        Some(p) => str_eq(p.as_str(), "sodipodi") || str_eq(p.as_str(), "inkscape"),
        None => false,
    }
}

/// Whether the element with this `id` is referred to from elsewhere.
/// References are not tracked: every `id` counts as referred to.
pub fn is_id_referenced(_id: &str) -> (r: bool)
    ensures
        r,
{
    true
}

fn metadata_attribute(a: &Attribute) -> (r: bool)
    ensures
        r == is_metadata_attribute(a@),
{
    editor_name(&a.name) || str_eq(a.name.local.as_str(), "data-name") || (str_eq(
        a.name.local.as_str(),
        "id",
    ) && !is_id_referenced(a.value.as_str()))
}

/// Removes metadata, title, desc and what editors leave behind.
pub fn remove_metadata(elem: &mut Element)
    ensures
        final(elem)@ == without_metadata(old(elem)@),
    decreases *old(elem),
{
    let children = take_children(elem);
    let mut kept: Vec<Node> = Vec::new();
    proof {
        lemma_nodes_view_empty();
    }
    for node in it: children
        invariant
            it.seq() == children@,
            children == old(elem).children,
            nodes_view(kept@) == without_metadata_nodes(nodes_view(children@.take(it.index()))),
    {
        proof {
            lemma_nodes_view_take(children@, it.index());
        }
        let ghost before = kept@;
        match node {
            Node::Element(mut c) => {
                if !metadata_name(&c.name) {
                    remove_metadata(&mut c);
                    kept.push(Node::Element(c));
                    proof {
                        lemma_nodes_view_push(before, Node::Element(c));
                    }
                }
            },
            other => {
                kept.push(other);
                proof {
                    lemma_nodes_view_push(before, other);
                }
            },
        }
    }
    proof {
        lemma_nodes_view_all(children@);
    }
    elem.children = kept;
    let attrs = take_attributes(elem);
    let mut kept_attrs: Vec<Attribute> = Vec::new();
    proof {
        lemma_attributes_view_all(attrs@);
    }
    for a in it: attrs
        invariant
            it.seq() == attrs@,
            attributes_view(kept_attrs@) == rendering_attributes(
                attributes_view(attrs@.take(it.index())),
            ),
    {
        proof {
            lemma_attributes_view_take(attrs@, it.index());
        }
        let ghost before = kept_attrs@;
        if !metadata_attribute(&a) {
            kept_attrs.push(a);
            proof {
                lemma_attributes_view_push(before, a);
            }
        }
    }
    proof {
        lemma_attributes_view_all(attrs@);
    }
    elem.attributes = kept_attrs;
}

/// The element without comments at any depth.
pub open spec fn without_comments(e: ElementView) -> ElementView
    decreases e,
{
    e.with_children(without_comments_nodes(e.children))
}

/// The nodes without comments, at any depth.
pub open spec fn without_comments_nodes(ns: Seq<NodeView>) -> Seq<NodeView>
    decreases ns,
{
    if ns.len() == 0 {
        Seq::empty()
    } else {
        let rest = without_comments_nodes(ns.drop_last());
        match ns.last() {
            NodeView::Comment(_) => rest,
            NodeView::Element(c) => rest.push(NodeView::Element(without_comments(c))),
            other => rest.push(other),
        }
    }
}

/// Removes comment nodes.
pub fn remove_comments(elem: &mut Element)
    ensures
        final(elem)@ == without_comments(old(elem)@),
    decreases *old(elem),
{
    let children = take_children(elem);
    let mut kept: Vec<Node> = Vec::new();
    proof {
        lemma_nodes_view_empty();
    }
    for node in it: children
        invariant
            it.seq() == children@,
            children == old(elem).children,
            nodes_view(kept@) == without_comments_nodes(nodes_view(children@.take(it.index()))),
    {
        proof {
            lemma_nodes_view_take(children@, it.index());
        }
        let ghost before = kept@;
        match node {
            Node::Comment(_) => {},
            Node::Element(mut c) => {
                remove_comments(&mut c);
                kept.push(Node::Element(c));
                proof {
                    lemma_nodes_view_push(before, Node::Element(c));
                }
            },
            other => {
                kept.push(other);
                proof {
                    lemma_nodes_view_push(before, other);
                }
            },
        }
    }
    proof {
        lemma_nodes_view_all(children@);
    }
    elem.children = kept;
}

/// The element without text that is whitespace only, at any depth.
pub open spec fn without_blank_text(e: ElementView) -> ElementView
    decreases e,
{
    e.with_children(without_blank_text_nodes(e.children))
}

/// The nodes without text that is whitespace only, at any depth.
pub open spec fn without_blank_text_nodes(ns: Seq<NodeView>) -> Seq<NodeView>
    decreases ns,
{
    if ns.len() == 0 {
        Seq::empty()
    } else {
        let rest = without_blank_text_nodes(ns.drop_last());
        match ns.last() {
            NodeView::Text(t) => if is_blank(t) {
                rest
            } else {
                rest.push(NodeView::Text(t))
            },
            NodeView::Element(c) => rest.push(NodeView::Element(without_blank_text(c))),
            other => rest.push(other),
        }
    }
}

/// Removes the text nodes that hold whitespace only.
pub fn cleanup_whitespace(elem: &mut Element)
    ensures
        final(elem)@ == without_blank_text(old(elem)@),
    decreases *old(elem),
{
    let children = take_children(elem);
    let mut kept: Vec<Node> = Vec::new();
    proof {
        lemma_nodes_view_empty();
    }
    for node in it: children
        invariant
            it.seq() == children@,
            children == old(elem).children,
            nodes_view(kept@) == without_blank_text_nodes(nodes_view(children@.take(it.index()))),
    {
        proof {
            lemma_nodes_view_take(children@, it.index());
        }
        let ghost before = kept@;
        match node {
            Node::Text(t) => {
                if !blank(t.as_str()) {
                    kept.push(Node::Text(t));
                    proof {
                        lemma_nodes_view_push(before, Node::Text(t));
                    }
                }
            },
            Node::Element(mut c) => {
                cleanup_whitespace(&mut c);
                kept.push(Node::Element(c));
                proof {
                    lemma_nodes_view_push(before, Node::Element(c));
                }
            },
            other => {
                kept.push(other);
                proof {
                    lemma_nodes_view_push(before, other);
                }
            },
        }
    }
    proof {
        lemma_nodes_view_all(children@);
    }
    elem.children = kept;
}

/// The prefixes of the attributes, namespace declarations aside, in order.
pub open spec fn attribute_prefixes(attrs: Seq<AttributeView>) -> Seq<Seq<char>>
    decreases attrs.len(),
{
    if attrs.len() == 0 {
        Seq::empty()
    } else {
        let rest = attribute_prefixes(attrs.drop_last());
        match attrs.last().name.prefix {
            Some(p) => if is_namespace_declaration(attrs.last().name) {
                rest
            } else {
                rest.push(p)
            },
            None => rest,
        }
    }
}

/// The prefix of a name, if it has one.
pub open spec fn name_prefix(q: QNameView) -> Seq<Seq<char>> {
    match q.prefix {
        Some(p) => seq![p],
        None => Seq::empty(),
    }
}

/// Every prefix of the element, of its attributes and of what is below
/// it, in document order.
pub open spec fn prefixes(e: ElementView) -> Seq<Seq<char>>
    decreases e,
{
    name_prefix(e.name) + attribute_prefixes(e.attributes) + nodes_prefixes(e.children)
}

/// Every prefix of the elements among the nodes and of what is below them.
pub open spec fn nodes_prefixes(ns: Seq<NodeView>) -> Seq<Seq<char>>
    decreases ns,
{
    if ns.len() == 0 {
        Seq::empty()
    } else {
        nodes_prefixes(ns.drop_last()) + match ns.last() {
            NodeView::Element(c) => prefixes(c),
            _ => Seq::empty(),
        }
    }
}

/// Whether the element, one of its attributes or something below it has
/// the prefix `p`.
pub open spec fn uses_prefix(e: ElementView, p: Seq<char>) -> bool {
    prefixes(e).contains(p)
}

/// The model of a list of strings.
pub open spec fn strings_view(list: Seq<String>) -> Seq<Seq<char>> {
    Seq::new(list.len(), |i: int| list[i]@)
}

fn is_listed(list: &Vec<String>, p: &str) -> (r: bool)
    ensures
        r == strings_view(list@).contains(p@),
{
    let mut i: usize = 0;
    while i < list.len()
        invariant
            i <= list.len(),
            forall|j: int| 0 <= j < i ==> strings_view(list@)[j] != p@,
        decreases list.len() - i,
    {
        if str_eq(list[i].as_str(), p) {
            assert(strings_view(list@)[i as int] == p@);
            return true;
        }
        i += 1;
    }
    false
}

/// Adds to `used` every prefix that the element, its attributes or
/// something below it has.
pub fn collect_used_prefixes(elem: &Element, used: &mut Vec<String>)
    ensures
        strings_view(final(used)@) == strings_view(old(used)@) + prefixes(elem@),
    decreases elem,
{
    let ghost start = strings_view(used@);
    match &elem.name.prefix {
        Some(p) => {
            used.push(p.clone());
            assert(strings_view(used@) =~= start + name_prefix(elem@.name));
        },
        None => {
            assert(strings_view(used@) =~= start + name_prefix(elem@.name));
        },
    }
    let ghost attrs = elem@.attributes;
    let mut i: usize = 0;
    assert(attribute_prefixes(attrs.take(0)) =~= Seq::<Seq<char>>::empty());
    assert(start + name_prefix(elem@.name) + Seq::<Seq<char>>::empty() =~= start + name_prefix(
        elem@.name,
    ));
    while i < elem.attributes.len()
        invariant
            i <= elem.attributes.len(),
            attrs == elem@.attributes,
            strings_view(used@) == start + name_prefix(elem@.name) + attribute_prefixes(
                attrs.take(i as int),
            ),
        decreases elem.attributes.len() - i,
    {
        let a = &elem.attributes[i];
        let ghost before = strings_view(used@);
        proof {
            assert(attrs.take(i + 1).drop_last() == attrs.take(i as int));
            assert(attrs.take(i + 1).last() == a@);
        }
        let declares = a.name.is_xmlns();
        match &a.name.prefix {
            Some(p) => {
                if !declares {
                    used.push(p.clone());
                    assert(strings_view(used@) =~= before.push(p@));
                }
            },
            None => {},
        }
        assert(strings_view(used@) =~= start + name_prefix(elem@.name) + attribute_prefixes(
            attrs.take(i + 1),
        ));
        i += 1;
    }
    proof {
        assert(attrs.take(elem.attributes.len() as int) == attrs);
    }
    let ghost nodes = elem@.children;
    let ghost head = start + name_prefix(elem@.name) + attribute_prefixes(attrs);
    assert(head + nodes_prefixes(nodes.take(0)) =~= head);
    let mut k: usize = 0;
    while k < elem.children.len()
        invariant
            k <= elem.children.len(),
            nodes == elem@.children,
            strings_view(used@) == head + nodes_prefixes(nodes.take(k as int)),
        decreases elem.children.len() - k,
    {
        proof {
            lemma_nodes_view_take(elem.children@, k as int);
            assert(nodes.take(k + 1).drop_last() == nodes.take(k as int));
            assert(nodes.take(k + 1).last() == elem.children@[k as int]@);
        }
        let ghost before = strings_view(used@);
        match &elem.children[k] {
            Node::Element(c) => {
                collect_used_prefixes(c, used);
                assert(before + prefixes(c@) =~= head + nodes_prefixes(nodes.take(k + 1)));
            },
            _ => {
                assert(before =~= head + nodes_prefixes(nodes.take(k + 1)));
            },
        }
        k += 1;
    }
    proof {
        lemma_nodes_view_all(elem.children@);
        assert(head + nodes_prefixes(nodes) =~= strings_view(old(used)@) + prefixes(elem@));
    }
}

/// The namespace declarations that something uses, and what declares none.
pub open spec fn used_declarations(attrs: Seq<AttributeView>, root: ElementView) -> Seq<
    AttributeView,
>
    decreases attrs.len(),
{
    if attrs.len() == 0 {
        attrs
    } else {
        let a = attrs.last();
        if a.name.prefix == Some("xmlns"@) && !uses_prefix(root, a.name.local) {
            used_declarations(attrs.drop_last(), root)
        } else {
            used_declarations(attrs.drop_last(), root).push(a)
        }
    }
}

/// The element without the declarations `xmlns:p`, on itself and on every
/// element below it, of a prefix `p` that nothing in the tree `root` has.
pub open spec fn pruned(e: ElementView, root: ElementView) -> ElementView
    decreases e,
{
    ElementView {
        name: e.name,
        attributes: used_declarations(e.attributes, root),
        children: pruned_nodes(e.children, root),
    }
}

/// The nodes without the declarations of prefixes that nothing in the
/// tree `root` has.
pub open spec fn pruned_nodes(ns: Seq<NodeView>, root: ElementView) -> Seq<NodeView>
    decreases ns,
{
    if ns.len() == 0 {
        Seq::empty()
    } else {
        let rest = pruned_nodes(ns.drop_last(), root);
        match ns.last() {
            NodeView::Element(c) => rest.push(NodeView::Element(pruned(c, root))),
            other => rest.push(other),
        }
    }
}

/// The tree without the declarations `xmlns:p`, wherever they stand, of a
/// prefix `p` that no element and no attribute of the tree has. The
/// default namespace is never removed.
pub open spec fn without_unused_namespaces(e: ElementView) -> ElementView {
    pruned(e, e)
}

/// Removes from the element and from everything below it the namespace
/// declarations of the prefixes that are not among `used`.
fn prune_namespaces(elem: &mut Element, used: &Vec<String>, Ghost(root): Ghost<ElementView>)
    requires
        strings_view(used@) == prefixes(root),
    ensures
        final(elem)@ == pruned(old(elem)@, root),
    decreases *old(elem),
{
    let children = take_children(elem);
    let attrs = take_attributes(elem);
    let mut kept_attrs: Vec<Attribute> = Vec::new();
    proof {
        lemma_attributes_view_all(attrs@);
    }
    for a in it: attrs
        invariant
            it.seq() == attrs@,
            strings_view(used@) == prefixes(root),
            attributes_view(kept_attrs@) == used_declarations(
                attributes_view(attrs@.take(it.index())),
                root,
            ),
    {
        proof {
            lemma_attributes_view_take(attrs@, it.index());
        }
        let ghost before = kept_attrs@;
        let declares = match &a.name.prefix {
            Some(p) => str_eq(p.as_str(), "xmlns"),
            None => false,
        };
        if !(declares && !is_listed(used, a.name.local.as_str())) {
            kept_attrs.push(a);
            proof {
                lemma_attributes_view_push(before, a);
            }
        }
    }
    proof {
        lemma_attributes_view_all(attrs@);
    }
    elem.attributes = kept_attrs;
    let mut kept: Vec<Node> = Vec::new();
    proof {
        lemma_nodes_view_empty();
    }
    for node in it: children
        invariant
            it.seq() == children@,
            children == old(elem).children,
            strings_view(used@) == prefixes(root),
            nodes_view(kept@) == pruned_nodes(nodes_view(children@.take(it.index())), root),
    {
        proof {
            lemma_nodes_view_take(children@, it.index());
        }
        let ghost before = kept@;
        match node {
            Node::Element(mut c) => {
                prune_namespaces(&mut c, used, Ghost(root));
                kept.push(Node::Element(c));
                proof {
                    lemma_nodes_view_push(before, Node::Element(c));
                }
            },
            other => {
                kept.push(other);
                proof {
                    lemma_nodes_view_push(before, other);
                }
            },
        }
    }
    proof {
        lemma_nodes_view_all(children@);
    }
    elem.children = kept;
}

/// Removes the namespace declarations that nothing in the tree uses.
pub fn remove_unused_namespaces(elem: &mut Element)
    ensures
        final(elem)@ == without_unused_namespaces(old(elem)@),
{
    let mut used: Vec<String> = Vec::new();
    collect_used_prefixes(elem, &mut used);
    let ghost root = elem@;
    assert(strings_view(used@) =~= prefixes(root));
    prune_namespaces(elem, &used, Ghost(root));
}

/// Whether an element is not rendered: `display="none"`,
/// `visibility="hidden"`, an `opacity` that writes zero, or a `style` that
/// holds `display:none` or `display: none`.
pub open spec fn hidden(e: ElementView) -> bool {
    ||| e.attr("display"@) == Some("none"@)
    ||| e.attr("visibility"@) == Some("hidden"@)
    ||| (e.attr("opacity"@) matches Some(o) && writes_zero(o))
    ||| (e.attr("style"@) matches Some(s) && (has_substring(s, "display:none"@) || has_substring(
        s,
        "display: none"@,
    )))
}

/// Whether an element is not rendered.
pub fn is_hidden(elem: &Element) -> (r: bool)
    ensures
        r == hidden(elem@),
{
    match elem.get_attr("display") {
        Some(d) => {
            if str_eq(d, "none") {
                return true;
            }
        },
        None => {},
    }
    match elem.get_attr("visibility") {
        Some(v) => {
            if str_eq(v, "hidden") {
                return true;
            }
        },
        None => {},
    }
    match elem.get_attr("opacity") {
        Some(o) => {
            if is_zero_text(o) {
                return true;
            }
        },
        None => {},
    }
    match elem.get_attr("style") {
        Some(s) => {
            let v = to_chars(s);
            contains(&v, &to_chars("display:none")) || contains(&v, &to_chars("display: none"))
        },
        None => false,
    }
}

/// The element without hidden elements below it. The element itself stays.
pub open spec fn without_hidden(e: ElementView) -> ElementView
    decreases e,
{
    e.with_children(without_hidden_nodes(e.children))
}

/// The nodes without hidden elements, at any depth.
pub open spec fn without_hidden_nodes(ns: Seq<NodeView>) -> Seq<NodeView>
    decreases ns,
{
    if ns.len() == 0 {
        Seq::empty()
    } else {
        let rest = without_hidden_nodes(ns.drop_last());
        match ns.last() {
            NodeView::Element(c) => if hidden(c) {
                rest
            } else {
                rest.push(NodeView::Element(without_hidden(c)))
            },
            other => rest.push(other),
        }
    }
}

/// Removes hidden elements.
pub fn remove_hidden(elem: &mut Element)
    ensures
        final(elem)@ == without_hidden(old(elem)@),
    decreases *old(elem),
{
    let children = take_children(elem);
    let mut kept: Vec<Node> = Vec::new();
    proof {
        lemma_nodes_view_empty();
    }
    for node in it: children
        invariant
            it.seq() == children@,
            children == old(elem).children,
            nodes_view(kept@) == without_hidden_nodes(nodes_view(children@.take(it.index()))),
    {
        proof {
            lemma_nodes_view_take(children@, it.index());
        }
        let ghost before = kept@;
        match node {
            Node::Element(mut c) => {
                if !is_hidden(&c) {
                    remove_hidden(&mut c);
                    kept.push(Node::Element(c));
                    proof {
                        lemma_nodes_view_push(before, Node::Element(c));
                    }
                }
            },
            other => {
                kept.push(other);
                proof {
                    lemma_nodes_view_push(before, other);
                }
            },
        }
    }
    proof {
        lemma_nodes_view_all(children@);
    }
    elem.children = kept;
}

/// The elements whose presence alone renders nothing.
pub open spec fn is_container_name(local: Seq<char>) -> bool {
    local == "g"@ || local == "defs"@ || local == "symbol"@ || local == "marker"@ || local
        == "clipPath"@ || local == "mask"@ || local == "pattern"@
}

/// Whether an element is a container without children and without `id`.
pub open spec fn is_empty_container(e: ElementView) -> bool {
    is_container_name(e.name.local) && e.children.len() == 0 && e.attr("id"@) is None
}

/// The element without empty containers below it. Whether a container is
/// empty is judged once its own content has been pruned.
pub open spec fn without_empty(e: ElementView) -> ElementView
    decreases e,
{
    e.with_children(without_empty_nodes(e.children))
}

/// The nodes without empty containers, at any depth.
pub open spec fn without_empty_nodes(ns: Seq<NodeView>) -> Seq<NodeView>
    decreases ns,
{
    if ns.len() == 0 {
        Seq::empty()
    } else {
        let rest = without_empty_nodes(ns.drop_last());
        match ns.last() {
            NodeView::Element(c) => if is_empty_container(without_empty(c)) {
                rest
            } else {
                rest.push(NodeView::Element(without_empty(c)))
            },
            other => rest.push(other),
        }
    }
}

fn empty_container(e: &Element) -> (r: bool)
    ensures
        r == is_empty_container(e@),
{
    proof {
        lemma_nodes_view_all(e.children@);
    }
    let l = e.name.local.as_str();
    let container = str_eq(l, "g") || str_eq(l, "defs") || str_eq(l, "symbol") || str_eq(
        l,
        "marker",
    ) || str_eq(l, "clipPath") || str_eq(l, "mask") || str_eq(l, "pattern");
    container && e.children.len() == 0 && e.get_attr("id").is_none()
}

/// Removes empty container elements.
pub fn remove_empty(elem: &mut Element)
    ensures
        final(elem)@ == without_empty(old(elem)@),
    decreases *old(elem),
{
    let children = take_children(elem);
    let mut kept: Vec<Node> = Vec::new();
    proof {
        lemma_nodes_view_empty();
    }
    for node in it: children
        invariant
            it.seq() == children@,
            children == old(elem).children,
            nodes_view(kept@) == without_empty_nodes(nodes_view(children@.take(it.index()))),
    {
        proof {
            lemma_nodes_view_take(children@, it.index());
        }
        let ghost before = kept@;
        match node {
            Node::Element(mut c) => {
                remove_empty(&mut c);
                if !empty_container(&c) {
                    kept.push(Node::Element(c));
                    proof {
                        lemma_nodes_view_push(before, Node::Element(c));
                    }
                }
            },
            other => {
                kept.push(other);
                proof {
                    lemma_nodes_view_push(before, other);
                }
            },
        }
    }
    proof {
        lemma_nodes_view_all(children@);
    }
    elem.children = kept;
}

/// The attributes that give a group a meaning of its own.
pub open spec fn is_group_attribute(local: Seq<char>) -> bool {
    local == "class"@ || local == "style"@ || local == "transform"@ || local == "fill"@ || local
        == "stroke"@ || local == "opacity"@
}

/// Whether one of the attributes gives a group a meaning of its own.
pub open spec fn has_group_attribute(attrs: Seq<AttributeView>) -> bool {
    exists|i: int| 0 <= i < attrs.len() && is_group_attribute((#[trigger] attrs[i]).name.local)
}

/// Whether a group serves no purpose: a `g` without `id`, without an
/// attribute that gives it a meaning, with exactly one child.
pub open spec fn collapsible(e: ElementView) -> bool {
    e.name.local == "g"@ && e.attr("id"@) is None && !has_group_attribute(e.attributes)
        && e.children.len() == 1
}

/// Whether a group serves no purpose.
pub fn can_collapse_group(elem: &Element) -> (r: bool)
    ensures
        r == collapsible(elem@),
{
    if !str_eq(elem.name.local.as_str(), "g") {
        return false;
    }
    if elem.get_attr("id").is_some() {
        return false;
    }
    let ghost attrs = elem@.attributes;
    let mut i: usize = 0;
    while i < elem.attributes.len()
        invariant
            i <= elem.attributes.len(),
            attrs == elem@.attributes,
            forall|j: int| 0 <= j < i ==> !is_group_attribute((#[trigger] attrs[j]).name.local),
        decreases elem.attributes.len() - i,
    {
        let l = elem.attributes[i].name.local.as_str();
        if str_eq(l, "class") || str_eq(l, "style") || str_eq(l, "transform") || str_eq(l, "fill")
            || str_eq(l, "stroke") || str_eq(l, "opacity") {
            assert(is_group_attribute(attrs[i as int].name.local));
            return false;
        }
        i += 1;
    }
    proof {
        lemma_nodes_view_all(elem.children@);
    }
    elem.children.len() == 1
}

/// The element with every group below it that serves no purpose replaced
/// by its one child. Whether a group serves a purpose is judged once its
/// own content has been collapsed.
pub open spec fn collapsed(e: ElementView) -> ElementView
    decreases e,
{
    e.with_children(collapsed_nodes(e.children))
}

/// The nodes with every group that serves no purpose replaced by its one
/// child.
pub open spec fn collapsed_nodes(ns: Seq<NodeView>) -> Seq<NodeView>
    decreases ns,
{
    if ns.len() == 0 {
        Seq::empty()
    } else {
        let rest = collapsed_nodes(ns.drop_last());
        match ns.last() {
            NodeView::Element(c) => if collapsible(collapsed(c)) {
                rest + collapsed(c).children
            } else {
                rest.push(NodeView::Element(collapsed(c)))
            },
            other => rest.push(other),
        }
    }
}

proof fn lemma_nodes_view_add(a: Seq<Node>, b: Seq<Node>)
    ensures
        nodes_view(a + b) == nodes_view(a) + nodes_view(b),
{
    assert(nodes_view(a + b) =~= nodes_view(a) + nodes_view(b));
}

/// Collapses the groups that serve no purpose.
pub fn collapse_groups(elem: &mut Element)
    ensures
        final(elem)@ == collapsed(old(elem)@),
    decreases *old(elem),
{
    let children = take_children(elem);
    let mut kept: Vec<Node> = Vec::new();
    proof {
        lemma_nodes_view_empty();
    }
    for node in it: children
        invariant
            it.seq() == children@,
            children == old(elem).children,
            nodes_view(kept@) == collapsed_nodes(nodes_view(children@.take(it.index()))),
    {
        proof {
            lemma_nodes_view_take(children@, it.index());
        }
        let ghost before = kept@;
        match node {
            Node::Element(mut c) => {
                collapse_groups(&mut c);
                if can_collapse_group(&c) {
                    let mut inner = take_children(&mut c);
                    proof {
                        lemma_nodes_view_add(before, inner@);
                    }
                    kept.append(&mut inner);
                } else {
                    kept.push(Node::Element(c));
                    proof {
                        lemma_nodes_view_push(before, Node::Element(c));
                    }
                }
            },
            other => {
                kept.push(other);
                proof {
                    lemma_nodes_view_push(before, other);
                }
            },
        }
    }
    proof {
        lemma_nodes_view_all(children@);
    }
    elem.children = kept;
}

/// Path data in its compact form at `k` fractional digits; path data that
/// does not parse is itself.
pub open spec fn minified_path_data(d: Seq<char>, k: nat) -> Seq<char> {
    match parsed(d) {
        Ok(cmds) => serialized(cmds, k),
        Err(_) => d,
    }
}

/// The attributes of an element named `local` with its path data minified.
pub open spec fn with_minified_path(local: Seq<char>, attrs: Seq<AttributeView>, k: nat) -> Seq<
    AttributeView,
> {
    if local == "path"@ {
        match attr_value(attrs, "d"@) {
            Some(d) => match parsed(d) {
                Ok(cmds) => with_attr(attrs, "d"@, serialized(cmds, k)),
                Err(_) => attrs,
            },
            None => attrs,
        }
    } else {
        attrs
    }
}

/// The element with the path data of every `path`, itself included,
/// minified at `k` fractional digits.
pub open spec fn with_minified_paths(e: ElementView, k: nat) -> ElementView
    decreases e,
{
    ElementView {
        name: e.name,
        attributes: with_minified_path(e.name.local, e.attributes, k),
        children: with_minified_paths_nodes(e.children, k),
    }
}

/// The nodes with the path data of every `path` minified.
pub open spec fn with_minified_paths_nodes(ns: Seq<NodeView>, k: nat) -> Seq<NodeView>
    decreases ns,
{
    if ns.len() == 0 {
        Seq::empty()
    } else {
        let rest = with_minified_paths_nodes(ns.drop_last(), k);
        match ns.last() {
            NodeView::Element(c) => rest.push(NodeView::Element(with_minified_paths(c, k))),
            other => rest.push(other),
        }
    }
}

/// The value of an attribute, copied.
fn attr_copy(elem: &Element, name: &str) -> (r: Option<String>)
    ensures
        crate::ast::opt_view(r) == elem@.attr(name@),
{
    match elem.get_attr(name) {
        Some(v) => Some(v.to_owned()),
        None => None,
    }
}

/// Minifies path data.
pub fn minify_paths(elem: &mut Element, precision: u8)
    ensures
        final(elem)@ == with_minified_paths(old(elem)@, precision as nat),
    decreases *old(elem),
{
    let children = take_children(elem);
    if elem.is("path") {
        match attr_copy(elem, "d") {
            Some(d) => {
                match parse_path(d.as_str()) {
                    Ok(path) => {
                        let minified = serialize_path(&path, precision);
                        elem.set_attr("d", minified.as_str());
                    },
                    Err(_) => {},
                }
            },
            None => {},
        }
    }
    let mut kept: Vec<Node> = Vec::new();
    proof {
        lemma_nodes_view_empty();
    }
    for node in it: children
        invariant
            it.seq() == children@,
            children == old(elem).children,
            nodes_view(kept@) == with_minified_paths_nodes(
                nodes_view(children@.take(it.index())),
                precision as nat,
            ),
    {
        proof {
            lemma_nodes_view_take(children@, it.index());
        }
        let ghost before = kept@;
        match node {
            Node::Element(mut c) => {
                minify_paths(&mut c, precision);
                kept.push(Node::Element(c));
                proof {
                    lemma_nodes_view_push(before, Node::Element(c));
                }
            },
            other => {
                kept.push(other);
                proof {
                    lemma_nodes_view_push(before, other);
                }
            },
        }
    }
    proof {
        lemma_nodes_view_all(children@);
    }
    elem.children = kept;
}

/// The attributes with the value of every color attribute minified.
pub open spec fn recolored_attributes(attrs: Seq<AttributeView>) -> Seq<AttributeView> {
    Seq::new(
        attrs.len(),
        |i: int|
            if is_color_name(attrs[i].name.local) {
                AttributeView { name: attrs[i].name, value: minified_color(attrs[i].value) }
            } else {
                attrs[i]
            },
    )
}

/// The attributes with the colors inside the first `style` minified.
pub open spec fn with_recolored_style(attrs: Seq<AttributeView>) -> Seq<AttributeView> {
    match attr_value(attrs, "style"@) {
        Some(s) => with_attr(attrs, "style"@, recolored_style(s)),
        None => attrs,
    }
}

/// The element with every color minified, in color attributes and in
/// styles, itself included.
pub open spec fn recolored(e: ElementView) -> ElementView
    decreases e,
{
    ElementView {
        name: e.name,
        attributes: with_recolored_style(recolored_attributes(e.attributes)),
        children: recolored_nodes(e.children),
    }
}

/// The nodes with every color minified.
pub open spec fn recolored_nodes(ns: Seq<NodeView>) -> Seq<NodeView>
    decreases ns,
{
    if ns.len() == 0 {
        Seq::empty()
    } else {
        let rest = recolored_nodes(ns.drop_last());
        match ns.last() {
            NodeView::Element(c) => rest.push(NodeView::Element(recolored(c))),
            other => rest.push(other),
        }
    }
}

fn color_attribute(local: &str) -> (r: bool)
    ensures
        r == is_color_name(local@),
{
    str_eq(local, "fill") || str_eq(local, "stroke") || str_eq(local, "stop-color") || str_eq(
        local,
        "flood-color",
    ) || str_eq(local, "lighting-color") || str_eq(local, "color")
}

/// Minifies color values.
pub fn minify_colors(elem: &mut Element)
    ensures
        final(elem)@ == recolored(old(elem)@),
    decreases *old(elem),
{
    let children = take_children(elem);
    let attrs = take_attributes(elem);
    let mut changed: Vec<Attribute> = Vec::new();
    proof {
        lemma_attributes_view_all(attrs@);
        assert(recolored_attributes(attributes_view(attrs@.take(0))) =~= Seq::<
            AttributeView,
        >::empty());
    }
    for a in it: attrs
        invariant
            it.seq() == attrs@,
            attributes_view(changed@) == recolored_attributes(
                attributes_view(attrs@.take(it.index())),
            ),
    {
        proof {
            lemma_attributes_view_take(attrs@, it.index());
        }
        let ghost before = changed@;
        let ghost done = attributes_view(attrs@.take(it.index()));
        if color_attribute(a.name.local.as_str()) {
            let b = Attribute { name: a.name, value: minify_color(a.value.as_str()) };
            changed.push(b);
            proof {
                lemma_attributes_view_push(before, b);
                assert(recolored_attributes(done.push(a@)) =~= recolored_attributes(done).push(
                    b@,
                ));
            }
        } else {
            changed.push(a);
            proof {
                lemma_attributes_view_push(before, a);
                assert(recolored_attributes(done.push(a@)) =~= recolored_attributes(done).push(
                    a@,
                ));
            }
        }
    }
    proof {
        lemma_attributes_view_all(attrs@);
    }
    elem.attributes = changed;
    match attr_copy(elem, "style") {
        Some(style) => {
            let new_style = minify_style_colors(style.as_str());
            elem.set_attr("style", new_style.as_str());
        },
        None => {},
    }
    let mut kept: Vec<Node> = Vec::new();
    proof {
        lemma_nodes_view_empty();
    }
    for node in it: children
        invariant
            it.seq() == children@,
            children == old(elem).children,
            nodes_view(kept@) == recolored_nodes(nodes_view(children@.take(it.index()))),
    {
        proof {
            lemma_nodes_view_take(children@, it.index());
        }
        let ghost before = kept@;
        match node {
            Node::Element(mut c) => {
                minify_colors(&mut c);
                kept.push(Node::Element(c));
                proof {
                    lemma_nodes_view_push(before, Node::Element(c));
                }
            },
            other => {
                kept.push(other);
                proof {
                    lemma_nodes_view_push(before, other);
                }
            },
        }
    }
    proof {
        lemma_nodes_view_all(children@);
    }
    elem.children = kept;
}

/// The attributes of an element named `local` that state no default.
pub open spec fn stated_attributes(local: Seq<char>, attrs: Seq<AttributeView>) -> Seq<
    AttributeView,
>
    decreases attrs.len(),
{
    if attrs.len() == 0 {
        attrs
    } else if is_default(local, attrs.last().name.local, attrs.last().value) {
        stated_attributes(local, attrs.drop_last())
    } else {
        stated_attributes(local, attrs.drop_last()).push(attrs.last())
    }
}

/// The element without the attributes that state a default, itself included.
pub open spec fn without_defaults(e: ElementView) -> ElementView
    decreases e,
{
    ElementView {
        name: e.name,
        attributes: stated_attributes(e.name.local, e.attributes),
        children: without_defaults_nodes(e.children),
    }
}

/// The nodes without attributes that state a default.
pub open spec fn without_defaults_nodes(ns: Seq<NodeView>) -> Seq<NodeView>
    decreases ns,
{
    if ns.len() == 0 {
        Seq::empty()
    } else {
        let rest = without_defaults_nodes(ns.drop_last());
        match ns.last() {
            NodeView::Element(c) => rest.push(NodeView::Element(without_defaults(c))),
            other => rest.push(other),
        }
    }
}

/// Removes the attributes that state a default.
pub fn remove_default_attrs(elem: &mut Element)
    ensures
        final(elem)@ == without_defaults(old(elem)@),
    decreases *old(elem),
{
    let children = take_children(elem);
    let attrs = take_attributes(elem);
    let mut kept_attrs: Vec<Attribute> = Vec::new();
    proof {
        lemma_attributes_view_all(attrs@);
    }
    for a in it: attrs
        invariant
            it.seq() == attrs@,
            elem.name == old(elem).name,
            attributes_view(kept_attrs@) == stated_attributes(
                old(elem)@.name.local,
                attributes_view(attrs@.take(it.index())),
            ),
    {
        proof {
            lemma_attributes_view_take(attrs@, it.index());
        }
        let ghost before = kept_attrs@;
        if !is_default_value(
            elem.name.local.as_str(),
            a.name.local.as_str(),
            a.value.as_str(),
        ) {
            kept_attrs.push(a);
            proof {
                lemma_attributes_view_push(before, a);
            }
        }
    }
    proof {
        lemma_attributes_view_all(attrs@);
    }
    elem.attributes = kept_attrs;
    let mut kept: Vec<Node> = Vec::new();
    proof {
        lemma_nodes_view_empty();
    }
    for node in it: children
        invariant
            it.seq() == children@,
            children == old(elem).children,
            nodes_view(kept@) == without_defaults_nodes(nodes_view(children@.take(it.index()))),
    {
        proof {
            lemma_nodes_view_take(children@, it.index());
        }
        let ghost before = kept@;
        match node {
            Node::Element(mut c) => {
                remove_default_attrs(&mut c);
                kept.push(Node::Element(c));
                proof {
                    lemma_nodes_view_push(before, Node::Element(c));
                }
            },
            other => {
                kept.push(other);
                proof {
                    lemma_nodes_view_push(before, other);
                }
            },
        }
    }
    proof {
        lemma_nodes_view_all(children@);
    }
    elem.children = kept;
}

/// The attributes with the first `style` minified; where nothing is left
/// of it, without any `style`.
pub open spec fn with_minified_style(attrs: Seq<AttributeView>) -> Seq<AttributeView> {
    match attr_value(attrs, "style"@) {
        Some(s) => if minified_style(s).len() == 0 {
            without_attr(attrs, "style"@)
        } else {
            with_attr(attrs, "style"@, minified_style(s))
        },
        None => attrs,
    }
}

/// The element with every style minified, itself included.
pub open spec fn with_minified_styles(e: ElementView) -> ElementView
    decreases e,
{
    ElementView {
        name: e.name,
        attributes: with_minified_style(e.attributes),
        children: with_minified_styles_nodes(e.children),
    }
}

/// The nodes with every style minified.
pub open spec fn with_minified_styles_nodes(ns: Seq<NodeView>) -> Seq<NodeView>
    decreases ns,
{
    if ns.len() == 0 {
        Seq::empty()
    } else {
        let rest = with_minified_styles_nodes(ns.drop_last());
        match ns.last() {
            NodeView::Element(c) => rest.push(NodeView::Element(with_minified_styles(c))),
            other => rest.push(other),
        }
    }
}

/// Minifies inline styles.
pub fn minify_styles(elem: &mut Element)
    ensures
        final(elem)@ == with_minified_styles(old(elem)@),
    decreases *old(elem),
{
    let children = take_children(elem);
    match attr_copy(elem, "style") {
        Some(style) => {
            let minified = minify_style(style.as_str());
            if minified.as_str().is_empty() {
                elem.remove_attr("style");
            } else {
                elem.set_attr("style", minified.as_str());
            }
        },
        None => {},
    }
    let mut kept: Vec<Node> = Vec::new();
    proof {
        lemma_nodes_view_empty();
    }
    for node in it: children
        invariant
            it.seq() == children@,
            children == old(elem).children,
            nodes_view(kept@) == with_minified_styles_nodes(
                nodes_view(children@.take(it.index())),
            ),
    {
        proof {
            lemma_nodes_view_take(children@, it.index());
        }
        let ghost before = kept@;
        match node {
            Node::Element(mut c) => {
                minify_styles(&mut c);
                kept.push(Node::Element(c));
                proof {
                    lemma_nodes_view_push(before, Node::Element(c));
                }
            },
            other => {
                kept.push(other);
                proof {
                    lemma_nodes_view_push(before, other);
                }
            },
        }
    }
    proof {
        lemma_nodes_view_all(children@);
    }
    elem.children = kept;
}

/// `after` where `on` is set, else `before`.
pub open spec fn choice(on: bool, after: ElementView, before: ElementView) -> ElementView {
    if on {
        after
    } else {
        before
    }
}

/// The root once every pass that the options turn on has run, in this
/// order: metadata, unused namespaces, comments, hidden elements, empty
/// containers, groups, paths, colors, defaults, styles; and last, always,
/// whitespace-only text.
pub open spec fn optimized(root: ElementView, o: Options) -> ElementView {
    let r1 = choice(o.remove_metadata, without_metadata(root), root);
    let r2 = choice(o.remove_unused_namespaces, without_unused_namespaces(r1), r1);
    let r3 = choice(o.remove_comments, without_comments(r2), r2);
    let r4 = choice(o.remove_hidden, without_hidden(r3), r3);
    let r5 = choice(o.remove_empty, without_empty(r4), r4);
    let r6 = choice(o.collapse_groups, collapsed(r5), r5);
    let r7 = choice(o.minify_paths, with_minified_paths(r6, o.precision as nat), r6);
    let r8 = choice(o.minify_colors, recolored(r7), r7);
    let r9 = choice(o.remove_defaults, without_defaults(r8), r8);
    let r10 = choice(o.minify_styles, with_minified_styles(r9), r9);
    without_blank_text(r10)
}

/// Applies every optimization that the options turn on. The declaration
/// and the DOCTYPE stay as they are.
pub fn optimize(doc: &mut Document, options: &Options)
    ensures
        final(doc)@ == (DocumentView {
            xml_declaration: old(doc)@.xml_declaration,
            doctype: old(doc)@.doctype,
            root: optimized(old(doc)@.root, *options),
        }),
{
    if options.remove_metadata {
        remove_metadata(&mut doc.root);
    }
    if options.remove_unused_namespaces {
        remove_unused_namespaces(&mut doc.root);
    }
    if options.remove_comments {
        remove_comments(&mut doc.root);
    }
    if options.remove_hidden {
        remove_hidden(&mut doc.root);
    }
    if options.remove_empty {
        remove_empty(&mut doc.root);
    }
    if options.collapse_groups {
        collapse_groups(&mut doc.root);
    }
    if options.minify_paths {
        minify_paths(&mut doc.root, options.precision);
    }
    if options.minify_colors {
        minify_colors(&mut doc.root);
    }
    if options.remove_defaults {
        remove_default_attrs(&mut doc.root);
    }
    if options.minify_styles {
        minify_styles(&mut doc.root);
    }
    cleanup_whitespace(&mut doc.root);
}

} // verus!
