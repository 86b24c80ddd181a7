//! What holds of namespace declarations: what is declared is used.

use vstd::prelude::*;

use crate::ast::{attr_value, lemma_attr_index, without_attr, AttributeView, ElementView, NodeView};
use crate::laws::lemma_without_attr_subset;
use crate::optimize::{
    attribute_prefixes, choice, collapsed, collapsed_nodes, nodes_prefixes, optimized, prefixes,
    pruned, pruned_nodes, recolored, recolored_attributes, recolored_nodes, stated_attributes,
    used_declarations, uses_prefix, with_minified_path, with_minified_paths,
    with_minified_paths_nodes, with_minified_style, with_minified_styles,
    with_minified_styles_nodes, with_recolored_style, without_blank_text, without_blank_text_nodes,
    without_comments, without_comments_nodes, without_defaults, without_defaults_nodes,
    without_empty, without_empty_nodes, without_hidden, without_hidden_nodes, without_metadata,
    without_unused_namespaces,
};
use crate::options::Options;
use crate::shown_laws::lemma_stated_within;
use crate::style::{minified_style, recolored_style};

verus! {

/// Whether two lists of attributes have the same names in the same places.
pub open spec fn same_names(a: Seq<AttributeView>, b: Seq<AttributeView>) -> bool {
    a.len() == b.len() && forall|i: int| 0 <= i < a.len() ==> (#[trigger] a[i]).name == b[i].name
}

proof fn lemma_same_names_prefixes(a: Seq<AttributeView>, b: Seq<AttributeView>)
    requires
        same_names(a, b),
    ensures
        attribute_prefixes(a) == attribute_prefixes(b),
    decreases a.len(),
{
    if a.len() > 0 {
        assert forall|i: int| 0 <= i < a.drop_last().len() implies (#[trigger] a.drop_last()[i]).name
            == b.drop_last()[i].name by {
            assert(a[i].name == b[i].name);
        }
        lemma_same_names_prefixes(a.drop_last(), b.drop_last());
        assert(a[a.len() - 1].name == b[a.len() - 1].name);
    }
}

pub(crate) proof fn lemma_set_keeps_names(attrs: Seq<AttributeView>, name: Seq<char>, value: Seq<char>)
    requires
        attr_value(attrs, name) is Some,
    ensures
        same_names(crate::ast::with_attr(attrs, name, value), attrs),
{
    lemma_attr_index(attrs, name, 0);
}

pub(crate) proof fn lemma_paths_keep_names(e: ElementView, k: nat)
    ensures
        same_names(with_minified_path(e.name.local, e.attributes, k), e.attributes),
{
    let r = with_minified_path(e.name.local, e.attributes, k);
    if r != e.attributes {
        let d = attr_value(e.attributes, "d"@).unwrap();
        lemma_set_keeps_names(
            e.attributes,
            "d"@,
            crate::path::serialized(crate::path::parsed(d).unwrap(), k),
        );
    }
}

pub(crate) proof fn lemma_colors_keep_names(attrs: Seq<AttributeView>)
    ensures
        same_names(with_recolored_style(recolored_attributes(attrs)), attrs),
{
    let a = recolored_attributes(attrs);
    assert(same_names(a, attrs));
    match attr_value(a, "style"@) {
        Some(st) => {
            lemma_set_keeps_names(a, "style"@, crate::style::recolored_style(st));
            let r = crate::ast::with_attr(a, "style"@, crate::style::recolored_style(st));
            assert forall|i: int| 0 <= i < r.len() implies (#[trigger] r[i]).name
                == attrs[i].name by {
                assert(r[i].name == a[i].name);
            }
        },
        None => {},
    }
}

proof fn lemma_comments_keep_prefixes(e: ElementView)
    ensures
        prefixes(without_comments(e)) == prefixes(e),
    decreases e,
{
    lemma_comments_keep_prefixes_nodes(e.children);
}

proof fn lemma_comments_keep_prefixes_nodes(ns: Seq<NodeView>)
    ensures
        nodes_prefixes(without_comments_nodes(ns)) == nodes_prefixes(ns),
    decreases ns,
{
    if ns.len() > 0 {
        lemma_comments_keep_prefixes_nodes(ns.drop_last());
        let rest = without_comments_nodes(ns.drop_last());
        match ns.last() {
            NodeView::Comment(_) => {
                assert(nodes_prefixes(ns.drop_last()) + Seq::<Seq<char>>::empty()
                    =~= nodes_prefixes(ns.drop_last()));
            },
            NodeView::Element(c) => {
                lemma_comments_keep_prefixes(c);
                assert(rest.push(NodeView::Element(without_comments(c))).drop_last() == rest);
            },
            other => {
                assert(rest.push(other).drop_last() == rest);
            },
        }
    }
}

proof fn lemma_blank_keeps_prefixes(e: ElementView)
    ensures
        prefixes(without_blank_text(e)) == prefixes(e),
    decreases e,
{
    lemma_blank_keeps_prefixes_nodes(e.children);
}

proof fn lemma_blank_keeps_prefixes_nodes(ns: Seq<NodeView>)
    ensures
        nodes_prefixes(without_blank_text_nodes(ns)) == nodes_prefixes(ns),
    decreases ns,
{
    if ns.len() > 0 {
        lemma_blank_keeps_prefixes_nodes(ns.drop_last());
        let rest = without_blank_text_nodes(ns.drop_last());
        match ns.last() {
            NodeView::Text(t) => {
                assert(nodes_prefixes(ns.drop_last()) + Seq::<Seq<char>>::empty()
                    =~= nodes_prefixes(ns.drop_last()));
                assert(rest.push(NodeView::Text(t)).drop_last() == rest);
            },
            NodeView::Element(c) => {
                lemma_blank_keeps_prefixes(c);
                assert(rest.push(NodeView::Element(without_blank_text(c))).drop_last() == rest);
            },
            other => {
                assert(rest.push(other).drop_last() == rest);
            },
        }
    }
}

proof fn lemma_paths_keep_prefixes(e: ElementView, k: nat)
    ensures
        prefixes(with_minified_paths(e, k)) == prefixes(e),
    decreases e,
{
    lemma_paths_keep_names(e, k);
    lemma_same_names_prefixes(with_minified_path(e.name.local, e.attributes, k), e.attributes);
    lemma_paths_keep_prefixes_nodes(e.children, k);
}

proof fn lemma_paths_keep_prefixes_nodes(ns: Seq<NodeView>, k: nat)
    ensures
        nodes_prefixes(with_minified_paths_nodes(ns, k)) == nodes_prefixes(ns),
    decreases ns,
{
    if ns.len() > 0 {
        lemma_paths_keep_prefixes_nodes(ns.drop_last(), k);
        let rest = with_minified_paths_nodes(ns.drop_last(), k);
        match ns.last() {
            NodeView::Element(c) => {
                lemma_paths_keep_prefixes(c, k);
                assert(rest.push(NodeView::Element(with_minified_paths(c, k))).drop_last()
                    == rest);
            },
            other => {
                assert(rest.push(other).drop_last() == rest);
            },
        }
    }
}

proof fn lemma_colors_keep_prefixes(e: ElementView)
    ensures
        prefixes(recolored(e)) == prefixes(e),
    decreases e,
{
    lemma_colors_keep_names(e.attributes);
    lemma_same_names_prefixes(with_recolored_style(recolored_attributes(e.attributes)), e.attributes);
    lemma_colors_keep_prefixes_nodes(e.children);
}

proof fn lemma_colors_keep_prefixes_nodes(ns: Seq<NodeView>)
    ensures
        nodes_prefixes(recolored_nodes(ns)) == nodes_prefixes(ns),
    decreases ns,
{
    if ns.len() > 0 {
        lemma_colors_keep_prefixes_nodes(ns.drop_last());
        let rest = recolored_nodes(ns.drop_last());
        match ns.last() {
            NodeView::Element(c) => {
                lemma_colors_keep_prefixes(c);
                assert(rest.push(NodeView::Element(recolored(c))).drop_last() == rest);
            },
            other => {
                assert(rest.push(other).drop_last() == rest);
            },
        }
    }
}

/// Whether every prefix that one of the attributes declares is among `u`.
pub open spec fn attributes_declare_within(attrs: Seq<AttributeView>, u: Seq<Seq<char>>) -> bool {
    forall|i: int|
        0 <= i < attrs.len() && (#[trigger] attrs[i]).name.prefix == Some("xmlns"@) ==> u.contains(
            attrs[i].name.local,
        )
}

/// Whether every prefix that the element or an element below it declares
/// is among `u`.
pub open spec fn declares_within(e: ElementView, u: Seq<Seq<char>>) -> bool
    decreases e,
{
    attributes_declare_within(e.attributes, u) && nodes_declare_within(e.children, u)
}

/// Whether every prefix that an element among the nodes, or below them,
/// declares is among `u`.
pub open spec fn nodes_declare_within(ns: Seq<NodeView>, u: Seq<Seq<char>>) -> bool
    decreases ns,
{
    if ns.len() == 0 {
        true
    } else {
        nodes_declare_within(ns.drop_last(), u) && match ns.last() {
            NodeView::Element(c) => declares_within(c, u),
            _ => true,
        }
    }
}

/// Whether every prefix that is declared anywhere in the tree is the
/// prefix of an element or of an attribute of the tree.
pub open spec fn declares_used_only(e: ElementView) -> bool {
    declares_within(e, prefixes(e))
}

proof fn lemma_declare_push(ns: Seq<NodeView>, n: NodeView, u: Seq<Seq<char>>)
    ensures
        nodes_declare_within(ns.push(n), u) == (nodes_declare_within(ns, u) && match n {
            NodeView::Element(c) => declares_within(c, u),
            _ => true,
        }),
{
    assert(ns.push(n).drop_last() == ns);
}

proof fn lemma_used_declarations(attrs: Seq<AttributeView>, root: ElementView)
    ensures
        attributes_declare_within(used_declarations(attrs, root), prefixes(root)),
        attribute_prefixes(used_declarations(attrs, root)) == attribute_prefixes(attrs),
    decreases attrs.len(),
{
    if attrs.len() > 0 {
        lemma_used_declarations(attrs.drop_last(), root);
        let rest = used_declarations(attrs.drop_last(), root);
        let a = attrs.last();
        if !(a.name.prefix == Some("xmlns"@) && !uses_prefix(root, a.name.local)) {
            assert(rest.push(a).drop_last() == rest);
        }
    }
}

proof fn lemma_pruned(e: ElementView, root: ElementView)
    ensures
        declares_within(pruned(e, root), prefixes(root)),
        prefixes(pruned(e, root)) == prefixes(e),
    decreases e,
{
    lemma_used_declarations(e.attributes, root);
    lemma_pruned_nodes(e.children, root);
}

proof fn lemma_pruned_nodes(ns: Seq<NodeView>, root: ElementView)
    ensures
        nodes_declare_within(crate::optimize::pruned_nodes(ns, root), prefixes(root)),
        nodes_prefixes(crate::optimize::pruned_nodes(ns, root)) == nodes_prefixes(ns),
    decreases ns,
{
    if ns.len() > 0 {
        lemma_pruned_nodes(ns.drop_last(), root);
        let rest = crate::optimize::pruned_nodes(ns.drop_last(), root);
        match ns.last() {
            NodeView::Element(c) => {
                lemma_pruned(c, root);
                lemma_declare_push(rest, NodeView::Element(pruned(c, root)), prefixes(root));
                assert(rest.push(NodeView::Element(pruned(c, root))).drop_last() == rest);
            },
            other => {
                lemma_declare_push(rest, other, prefixes(root));
                assert(rest.push(other).drop_last() == rest);
            },
        }
    }
}

/// Once unused namespace declarations have been removed, every prefix
/// that is still declared anywhere in the tree is the prefix of an element
/// or of an attribute of the tree.
pub proof fn lemma_declared_prefixes_are_used(e: ElementView)
    ensures
        declares_used_only(without_unused_namespaces(e)),
        prefixes(without_unused_namespaces(e)) == prefixes(e),
{
    lemma_pruned(e, e);
}

proof fn lemma_names_declare(a: Seq<AttributeView>, b: Seq<AttributeView>, u: Seq<Seq<char>>)
    requires
        same_names(a, b),
        attributes_declare_within(b, u),
    ensures
        attributes_declare_within(a, u),
{
    assert forall|i: int|
        0 <= i < a.len() && (#[trigger] a[i]).name.prefix == Some("xmlns"@) implies u.contains(
        a[i].name.local,
    ) by {
        assert(a[i].name == b[i].name);
    }
}

proof fn lemma_comments_declare(e: ElementView, u: Seq<Seq<char>>)
    requires
        declares_within(e, u),
    ensures
        declares_within(without_comments(e), u),
    decreases e,
{
    lemma_comments_declare_nodes(e.children, u);
}

proof fn lemma_comments_declare_nodes(ns: Seq<NodeView>, u: Seq<Seq<char>>)
    requires
        nodes_declare_within(ns, u),
    ensures
        nodes_declare_within(without_comments_nodes(ns), u),
    decreases ns,
{
    if ns.len() > 0 {
        lemma_comments_declare_nodes(ns.drop_last(), u);
        let rest = without_comments_nodes(ns.drop_last());
        match ns.last() {
            NodeView::Comment(_) => {},
            NodeView::Element(c) => {
                lemma_comments_declare(c, u);
                lemma_declare_push(rest, NodeView::Element(without_comments(c)), u);
            },
            other => {
                lemma_declare_push(rest, other, u);
            },
        }
    }
}

proof fn lemma_blank_declares(e: ElementView, u: Seq<Seq<char>>)
    requires
        declares_within(e, u),
    ensures
        declares_within(without_blank_text(e), u),
    decreases e,
{
    lemma_blank_declares_nodes(e.children, u);
}

proof fn lemma_blank_declares_nodes(ns: Seq<NodeView>, u: Seq<Seq<char>>)
    requires
        nodes_declare_within(ns, u),
    ensures
        nodes_declare_within(without_blank_text_nodes(ns), u),
    decreases ns,
{
    if ns.len() > 0 {
        lemma_blank_declares_nodes(ns.drop_last(), u);
        let rest = without_blank_text_nodes(ns.drop_last());
        match ns.last() {
            NodeView::Text(t) => {
                lemma_declare_push(rest, NodeView::Text(t), u);
            },
            NodeView::Element(c) => {
                lemma_blank_declares(c, u);
                lemma_declare_push(rest, NodeView::Element(without_blank_text(c)), u);
            },
            other => {
                lemma_declare_push(rest, other, u);
            },
        }
    }
}

proof fn lemma_paths_declare(e: ElementView, k: nat, u: Seq<Seq<char>>)
    requires
        declares_within(e, u),
    ensures
        declares_within(with_minified_paths(e, k), u),
    decreases e,
{
    lemma_paths_keep_names(e, k);
    lemma_names_declare(with_minified_path(e.name.local, e.attributes, k), e.attributes, u);
    lemma_paths_declare_nodes(e.children, k, u);
}

proof fn lemma_paths_declare_nodes(ns: Seq<NodeView>, k: nat, u: Seq<Seq<char>>)
    requires
        nodes_declare_within(ns, u),
    ensures
        nodes_declare_within(with_minified_paths_nodes(ns, k), u),
    decreases ns,
{
    if ns.len() > 0 {
        lemma_paths_declare_nodes(ns.drop_last(), k, u);
        let rest = with_minified_paths_nodes(ns.drop_last(), k);
        match ns.last() {
            NodeView::Element(c) => {
                lemma_paths_declare(c, k, u);
                lemma_declare_push(rest, NodeView::Element(with_minified_paths(c, k)), u);
            },
            other => {
                lemma_declare_push(rest, other, u);
            },
        }
    }
}

proof fn lemma_colors_declare(e: ElementView, u: Seq<Seq<char>>)
    requires
        declares_within(e, u),
    ensures
        declares_within(recolored(e), u),
    decreases e,
{
    lemma_colors_keep_names(e.attributes);
    lemma_names_declare(with_recolored_style(recolored_attributes(e.attributes)), e.attributes, u);
    lemma_colors_declare_nodes(e.children, u);
}

proof fn lemma_colors_declare_nodes(ns: Seq<NodeView>, u: Seq<Seq<char>>)
    requires
        nodes_declare_within(ns, u),
    ensures
        nodes_declare_within(recolored_nodes(ns), u),
    decreases ns,
{
    if ns.len() > 0 {
        lemma_colors_declare_nodes(ns.drop_last(), u);
        let rest = recolored_nodes(ns.drop_last());
        match ns.last() {
            NodeView::Element(c) => {
                lemma_colors_declare(c, u);
                lemma_declare_push(rest, NodeView::Element(recolored(c)), u);
            },
            other => {
                lemma_declare_push(rest, other, u);
            },
        }
    }
}

proof fn lemma_declare_add(a: Seq<NodeView>, b: Seq<NodeView>, u: Seq<Seq<char>>)
    ensures
        nodes_declare_within(a + b, u) == (nodes_declare_within(a, u) && nodes_declare_within(b, u)),
    decreases b.len(),
{
    if b.len() == 0 {
        assert(a + b == a);
    } else {
        assert((a + b).drop_last() == a + b.drop_last());
        lemma_declare_add(a, b.drop_last(), u);
    }
}

proof fn lemma_part_declares(y: Seq<AttributeView>, x: Seq<AttributeView>, u: Seq<Seq<char>>)
    requires
        attributes_declare_within(x, u),
        forall|j: int| 0 <= j < y.len() ==> x.contains(#[trigger] y[j]),
    ensures
        attributes_declare_within(y, u),
{
    assert forall|j: int|
        0 <= j < y.len() && (#[trigger] y[j]).name.prefix == Some("xmlns"@) implies u.contains(
        y[j].name.local,
    ) by {
        assert(x.contains(y[j]));
        let i = choose|i: int| 0 <= i < x.len() && x[i] == y[j];
        assert(x[i].name.prefix == Some("xmlns"@));
    }
}

proof fn lemma_hidden_declares(ns: Seq<NodeView>, u: Seq<Seq<char>>)
    requires
        nodes_declare_within(ns, u),
    ensures
        nodes_declare_within(without_hidden_nodes(ns), u),
    decreases ns,
{
    if ns.len() > 0 {
        lemma_hidden_declares(ns.drop_last(), u);
        let rest = without_hidden_nodes(ns.drop_last());
        match ns.last() {
            NodeView::Element(c) => {
                assert(declares_within(c, u));
                lemma_hidden_declares(c.children, u);
                lemma_declare_push(rest, NodeView::Element(without_hidden(c)), u);
            },
            other => {
                lemma_declare_push(rest, other, u);
            },
        }
    }
}

proof fn lemma_empty_declares(ns: Seq<NodeView>, u: Seq<Seq<char>>)
    requires
        nodes_declare_within(ns, u),
    ensures
        nodes_declare_within(without_empty_nodes(ns), u),
    decreases ns,
{
    if ns.len() > 0 {
        lemma_empty_declares(ns.drop_last(), u);
        let rest = without_empty_nodes(ns.drop_last());
        match ns.last() {
            NodeView::Element(c) => {
                assert(declares_within(c, u));
                lemma_empty_declares(c.children, u);
                lemma_declare_push(rest, NodeView::Element(without_empty(c)), u);
            },
            other => {
                lemma_declare_push(rest, other, u);
            },
        }
    }
}

proof fn lemma_collapse_declares(ns: Seq<NodeView>, u: Seq<Seq<char>>)
    requires
        nodes_declare_within(ns, u),
    ensures
        nodes_declare_within(collapsed_nodes(ns), u),
    decreases ns,
{
    if ns.len() > 0 {
        lemma_collapse_declares(ns.drop_last(), u);
        let rest = collapsed_nodes(ns.drop_last());
        match ns.last() {
            NodeView::Element(c) => {
                assert(declares_within(c, u));
                lemma_collapse_declares(c.children, u);
                lemma_declare_push(rest, NodeView::Element(collapsed(c)), u);
                lemma_declare_add(rest, collapsed(c).children, u);
            },
            other => {
                lemma_declare_push(rest, other, u);
            },
        }
    }
}

proof fn lemma_defaults_declare(ns: Seq<NodeView>, u: Seq<Seq<char>>)
    requires
        nodes_declare_within(ns, u),
    ensures
        nodes_declare_within(without_defaults_nodes(ns), u),
    decreases ns,
{
    if ns.len() > 0 {
        lemma_defaults_declare(ns.drop_last(), u);
        let rest = without_defaults_nodes(ns.drop_last());
        match ns.last() {
            NodeView::Element(c) => {
                assert(declares_within(c, u));
                lemma_defaults_declare(c.children, u);
                lemma_stated_within(c.name.local, c.attributes);
                lemma_part_declares(stated_attributes(c.name.local, c.attributes), c.attributes, u);
                lemma_declare_push(rest, NodeView::Element(without_defaults(c)), u);
            },
            other => {
                lemma_declare_push(rest, other, u);
            },
        }
    }
}

proof fn lemma_styled_declares(attrs: Seq<AttributeView>, u: Seq<Seq<char>>)
    requires
        attributes_declare_within(attrs, u),
    ensures
        attributes_declare_within(with_minified_style(attrs), u),
{
    match attr_value(attrs, "style"@) {
        Some(v) => {
            if minified_style(v).len() == 0 {
                lemma_without_attr_subset(attrs, "style"@);
                lemma_part_declares(without_attr(attrs, "style"@), attrs, u);
            } else {
                lemma_set_keeps_names(attrs, "style"@, minified_style(v));
                lemma_names_declare(with_minified_style(attrs), attrs, u);
            }
        },
        None => {},
    }
}

proof fn lemma_styles_declare(ns: Seq<NodeView>, u: Seq<Seq<char>>)
    requires
        nodes_declare_within(ns, u),
    ensures
        nodes_declare_within(with_minified_styles_nodes(ns), u),
    decreases ns,
{
    if ns.len() > 0 {
        lemma_styles_declare(ns.drop_last(), u);
        let rest = with_minified_styles_nodes(ns.drop_last());
        match ns.last() {
            NodeView::Element(c) => {
                assert(declares_within(c, u));
                lemma_styles_declare(c.children, u);
                lemma_styled_declares(c.attributes, u);
                lemma_declare_push(rest, NodeView::Element(with_minified_styles(c)), u);
            },
            other => {
                lemma_declare_push(rest, other, u);
            },
        }
    }
}

proof fn lemma_declares_more(ns: Seq<NodeView>, u: Seq<Seq<char>>, v: Seq<Seq<char>>)
    requires
        nodes_declare_within(ns, u),
        forall|p: Seq<char>| u.contains(p) ==> v.contains(p),
    ensures
        nodes_declare_within(ns, v),
    decreases ns,
{
    if ns.len() > 0 {
        lemma_declares_more(ns.drop_last(), u, v);
        match ns.last() {
            NodeView::Element(c) => {
                assert(declares_within(c, u));
                lemma_declares_more(c.children, u, v);
                assert forall|i: int|
                    0 <= i < c.attributes.len() && (#[trigger] c.attributes[i]).name.prefix
                        == Some("xmlns"@) implies v.contains(c.attributes[i].name.local) by {
                    assert(u.contains(c.attributes[i].name.local));
                }
                assert(declares_within(c, v));
            },
            _ => {},
        }
    }
}

/// The tree as it is when its namespace declarations are judged: once
/// metadata has been removed, where it is removed.
pub open spec fn judged(root: ElementView, o: Options) -> ElementView {
    choice(o.remove_metadata, without_metadata(root), root)
}

/// Where unused namespace declarations are removed, every prefix that is
/// declared anywhere in the optimized tree was used in the tree when its
/// declarations were judged, whatever else the options turn on.
pub proof fn lemma_optimized_declares_judged(root: ElementView, o: Options)
    requires
        o.remove_unused_namespaces,
    ensures
        declares_within(optimized(root, o), prefixes(judged(root, o))),
{
    let r1 = judged(root, o);
    let u = prefixes(r1);
    let r2 = without_unused_namespaces(r1);
    lemma_pruned(r1, r1);
    let r3 = choice(o.remove_comments, without_comments(r2), r2);
    lemma_comments_declare(r2, u);
    let r4 = choice(o.remove_hidden, without_hidden(r3), r3);
    lemma_hidden_declares(r3.children, u);
    let r5 = choice(o.remove_empty, without_empty(r4), r4);
    lemma_empty_declares(r4.children, u);
    let r6 = choice(o.collapse_groups, collapsed(r5), r5);
    lemma_collapse_declares(r5.children, u);
    let r7 = choice(o.minify_paths, with_minified_paths(r6, o.precision as nat), r6);
    lemma_paths_declare(r6, o.precision as nat, u);
    let r8 = choice(o.minify_colors, recolored(r7), r7);
    lemma_colors_declare(r7, u);
    let r9 = choice(o.remove_defaults, without_defaults(r8), r8);
    lemma_defaults_declare(r8.children, u);
    lemma_stated_within(r8.name.local, r8.attributes);
    lemma_part_declares(stated_attributes(r8.name.local, r8.attributes), r8.attributes, u);
    let r10 = choice(o.minify_styles, with_minified_styles(r9), r9);
    lemma_styles_declare(r9.children, u);
    lemma_styled_declares(r9.attributes, u);
    lemma_blank_declares(r10, u);
}

/// Where unused namespace declarations are removed, every prefix that is
/// declared anywhere in the optimized tree is used in the optimized tree,
/// whatever else the options turn on: on every tree of which no later
/// pass removes the last use of a prefix.
pub proof fn lemma_optimized_declares_what_it_uses(root: ElementView, o: Options)
    requires
        o.remove_unused_namespaces,
        forall|p: Seq<char>|
            prefixes(judged(root, o)).contains(p) ==> prefixes(optimized(root, o)).contains(p),
    ensures
        declares_used_only(optimized(root, o)),
{
    let t = optimized(root, o);
    let u = prefixes(judged(root, o));
    let v = prefixes(t);
    lemma_optimized_declares_judged(root, o);
    lemma_declares_more(t.children, u, v);
    assert forall|i: int|
        0 <= i < t.attributes.len() && (#[trigger] t.attributes[i]).name.prefix == Some(
            "xmlns"@,
        ) implies v.contains(t.attributes[i].name.local) by {
        assert(u.contains(t.attributes[i].name.local));
    }
}

proof fn lemma_used_stay(attrs: Seq<AttributeView>, root: ElementView)
    requires
        attributes_declare_within(attrs, prefixes(root)),
    ensures
        used_declarations(attrs, root) == attrs,
    decreases attrs.len(),
{
    if attrs.len() > 0 {
        let front = attrs.drop_last();
        assert forall|i: int|
            0 <= i < front.len() && (#[trigger] front[i]).name.prefix == Some(
                "xmlns"@,
            ) implies prefixes(root).contains(front[i].name.local) by {
            assert(front[i] == attrs[i]);
        }
        lemma_used_stay(front, root);
        assert(attrs[attrs.len() - 1] == attrs.last());
        assert(attrs == front.push(attrs.last()));
    }
}

proof fn lemma_declared_stay(ns: Seq<NodeView>, root: ElementView)
    requires
        nodes_declare_within(ns, prefixes(root)),
    ensures
        pruned_nodes(ns, root) == ns,
    decreases ns,
{
    if ns.len() > 0 {
        lemma_declared_stay(ns.drop_last(), root);
        match ns.last() {
            NodeView::Element(c) => {
                assert(declares_within(c, prefixes(root)));
                lemma_declared_stay(c.children, root);
                lemma_used_stay(c.attributes, root);
                assert(pruned(c, root) == c);
            },
            _ => {},
        }
        assert(ns == ns.drop_last().push(ns.last()));
    }
}

/// A tree that declares no prefix but those it uses is left as it is
/// when unused namespace declarations are removed.
pub proof fn lemma_used_only_is_settled(e: ElementView)
    requires
        declares_used_only(e),
    ensures
        without_unused_namespaces(e) == e,
{
    lemma_declared_stay(e.children, e);
    lemma_used_stay(e.attributes, e);
}

/// Where unused namespace declarations are removed and no later pass
/// removes elements or attributes, every prefix that is declared anywhere
/// in the optimized tree is used in the optimized tree. The passes left
/// out remove what may have been the only use of a prefix.
pub proof fn lemma_optimized_declares_used_only(root: ElementView, o: Options)
    requires
        o.remove_unused_namespaces,
        !o.remove_hidden,
        !o.remove_empty,
        !o.collapse_groups,
        !o.remove_defaults,
        !o.minify_styles,
    ensures
        declares_used_only(optimized(root, o)),
{
    let r1 = choice(o.remove_metadata, crate::optimize::without_metadata(root), root);
    let r2 = without_unused_namespaces(r1);
    let u = prefixes(r2);
    lemma_declared_prefixes_are_used(r1);
    let r3 = choice(o.remove_comments, without_comments(r2), r2);
    lemma_comments_keep_prefixes(r2);
    lemma_comments_declare(r2, u);
    let r7 = choice(o.minify_paths, with_minified_paths(r3, o.precision as nat), r3);
    lemma_paths_keep_prefixes(r3, o.precision as nat);
    lemma_paths_declare(r3, o.precision as nat, u);
    let r8 = choice(o.minify_colors, recolored(r7), r7);
    lemma_colors_keep_prefixes(r7);
    lemma_colors_declare(r7, u);
    lemma_blank_keeps_prefixes(r8);
    lemma_blank_declares(r8, u);
}

} // verus!
