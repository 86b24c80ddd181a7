//! What holds of the optimizer and of the serializer as a whole.

use vstd::prelude::*;

use crate::ast::{
    attr_index, attr_value, lemma_attr_index, without_attr, AttributeView, ElementView, NodeView,
};
use crate::defaults::is_default;
use crate::optimize::{
    choice, collapsed, collapsed_nodes, hidden, optimized, pruned_nodes, recolored,
    recolored_attributes, recolored_nodes, rendering_attributes, stated_attributes,
    used_declarations, with_minified_paths, with_minified_paths_nodes, with_minified_style,
    with_minified_styles, with_minified_styles_nodes, without_blank_text, without_blank_text_nodes,
    without_comments, without_comments_nodes, without_defaults, without_defaults_nodes,
    without_empty, without_empty_nodes, without_hidden, without_hidden_nodes, without_metadata,
    without_metadata_nodes, without_unused_namespaces,
};
use crate::options::Options;
use crate::serialize::{element_text, insertion_point, less_from, precedes, sorted, text_less};
use crate::style::{kept_declaration, minified_pieces, minified_style};
use crate::text::{split, trimmed};

verus! {

/// Whether no comment stands anywhere below the element.
pub open spec fn comment_free(e: ElementView) -> bool
    decreases e,
{
    comment_free_nodes(e.children)
}

/// Whether none of the nodes is a comment or holds one.
pub open spec fn comment_free_nodes(ns: Seq<NodeView>) -> bool
    decreases ns,
{
    if ns.len() == 0 {
        true
    } else {
        comment_free_nodes(ns.drop_last()) && match ns.last() {
            NodeView::Comment(_) => false,
            NodeView::Element(c) => comment_free(c),
            _ => true,
        }
    }
}

proof fn lemma_comment_free_push(ns: Seq<NodeView>, n: NodeView)
    ensures
        comment_free_nodes(ns.push(n)) == (comment_free_nodes(ns) && match n {
            NodeView::Comment(_) => false,
            NodeView::Element(c) => comment_free(c),
            _ => true,
        }),
{
    assert(ns.push(n).drop_last() == ns);
}

proof fn lemma_comment_free_add(a: Seq<NodeView>, b: Seq<NodeView>)
    ensures
        comment_free_nodes(a + b) == (comment_free_nodes(a) && comment_free_nodes(b)),
    decreases b.len(),
{
    if b.len() == 0 {
        assert(a + b == a);
    } else {
        assert((a + b).drop_last() == a + b.drop_last());
        lemma_comment_free_add(a, b.drop_last());
    }
}

/// Removing comments leaves none.
pub proof fn lemma_without_comments(e: ElementView)
    ensures
        comment_free(without_comments(e)),
    decreases e,
{
    lemma_without_comments_nodes(e.children);
}

proof fn lemma_without_comments_nodes(ns: Seq<NodeView>)
    ensures
        comment_free_nodes(without_comments_nodes(ns)),
    decreases ns,
{
    if ns.len() > 0 {
        lemma_without_comments_nodes(ns.drop_last());
        let rest = without_comments_nodes(ns.drop_last());
        match ns.last() {
            NodeView::Comment(_) => {},
            NodeView::Element(c) => {
                lemma_without_comments(c);
                lemma_comment_free_push(rest, NodeView::Element(without_comments(c)));
            },
            other => {
                lemma_comment_free_push(rest, other);
            },
        }
    }
}

proof fn lemma_hidden_keeps(e: ElementView)
    requires
        comment_free(e),
    ensures
        comment_free(without_hidden(e)),
    decreases e,
{
    lemma_hidden_keeps_nodes(e.children);
}

proof fn lemma_hidden_keeps_nodes(ns: Seq<NodeView>)
    requires
        comment_free_nodes(ns),
    ensures
        comment_free_nodes(without_hidden_nodes(ns)),
    decreases ns,
{
    if ns.len() > 0 {
        lemma_hidden_keeps_nodes(ns.drop_last());
        let rest = without_hidden_nodes(ns.drop_last());
        match ns.last() {
            NodeView::Element(c) => {
                if !hidden(c) {
                    lemma_hidden_keeps(c);
                    lemma_comment_free_push(rest, NodeView::Element(without_hidden(c)));
                }
            },
            other => {
                lemma_comment_free_push(rest, other);
            },
        }
    }
}

proof fn lemma_empty_keeps(e: ElementView)
    requires
        comment_free(e),
    ensures
        comment_free(without_empty(e)),
    decreases e,
{
    lemma_empty_keeps_nodes(e.children);
}

proof fn lemma_empty_keeps_nodes(ns: Seq<NodeView>)
    requires
        comment_free_nodes(ns),
    ensures
        comment_free_nodes(without_empty_nodes(ns)),
    decreases ns,
{
    if ns.len() > 0 {
        lemma_empty_keeps_nodes(ns.drop_last());
        let rest = without_empty_nodes(ns.drop_last());
        match ns.last() {
            NodeView::Element(c) => {
                lemma_empty_keeps(c);
                lemma_comment_free_push(rest, NodeView::Element(without_empty(c)));
            },
            other => {
                lemma_comment_free_push(rest, other);
            },
        }
    }
}

proof fn lemma_collapse_keeps(e: ElementView)
    requires
        comment_free(e),
    ensures
        comment_free(collapsed(e)),
    decreases e,
{
    lemma_collapse_keeps_nodes(e.children);
}

proof fn lemma_collapse_keeps_nodes(ns: Seq<NodeView>)
    requires
        comment_free_nodes(ns),
    ensures
        comment_free_nodes(collapsed_nodes(ns)),
    decreases ns,
{
    if ns.len() > 0 {
        lemma_collapse_keeps_nodes(ns.drop_last());
        let rest = collapsed_nodes(ns.drop_last());
        match ns.last() {
            NodeView::Element(c) => {
                lemma_collapse_keeps(c);
                lemma_comment_free_push(rest, NodeView::Element(collapsed(c)));
                lemma_comment_free_add(rest, collapsed(c).children);
            },
            other => {
                lemma_comment_free_push(rest, other);
            },
        }
    }
}

proof fn lemma_paths_keep(e: ElementView, k: nat)
    requires
        comment_free(e),
    ensures
        comment_free(with_minified_paths(e, k)),
    decreases e,
{
    lemma_paths_keep_nodes(e.children, k);
}

proof fn lemma_paths_keep_nodes(ns: Seq<NodeView>, k: nat)
    requires
        comment_free_nodes(ns),
    ensures
        comment_free_nodes(with_minified_paths_nodes(ns, k)),
    decreases ns,
{
    if ns.len() > 0 {
        lemma_paths_keep_nodes(ns.drop_last(), k);
        let rest = with_minified_paths_nodes(ns.drop_last(), k);
        match ns.last() {
            NodeView::Element(c) => {
                lemma_paths_keep(c, k);
                lemma_comment_free_push(rest, NodeView::Element(with_minified_paths(c, k)));
            },
            other => {
                lemma_comment_free_push(rest, other);
            },
        }
    }
}

proof fn lemma_colors_keep(e: ElementView)
    requires
        comment_free(e),
    ensures
        comment_free(recolored(e)),
    decreases e,
{
    lemma_colors_keep_nodes(e.children);
}

proof fn lemma_colors_keep_nodes(ns: Seq<NodeView>)
    requires
        comment_free_nodes(ns),
    ensures
        comment_free_nodes(recolored_nodes(ns)),
    decreases ns,
{
    if ns.len() > 0 {
        lemma_colors_keep_nodes(ns.drop_last());
        let rest = recolored_nodes(ns.drop_last());
        match ns.last() {
            NodeView::Element(c) => {
                lemma_colors_keep(c);
                lemma_comment_free_push(rest, NodeView::Element(recolored(c)));
            },
            other => {
                lemma_comment_free_push(rest, other);
            },
        }
    }
}

proof fn lemma_defaults_keep(e: ElementView)
    requires
        comment_free(e),
    ensures
        comment_free(without_defaults(e)),
    decreases e,
{
    lemma_defaults_keep_nodes(e.children);
}

proof fn lemma_defaults_keep_nodes(ns: Seq<NodeView>)
    requires
        comment_free_nodes(ns),
    ensures
        comment_free_nodes(without_defaults_nodes(ns)),
    decreases ns,
{
    if ns.len() > 0 {
        lemma_defaults_keep_nodes(ns.drop_last());
        let rest = without_defaults_nodes(ns.drop_last());
        match ns.last() {
            NodeView::Element(c) => {
                lemma_defaults_keep(c);
                lemma_comment_free_push(rest, NodeView::Element(without_defaults(c)));
            },
            other => {
                lemma_comment_free_push(rest, other);
            },
        }
    }
}

proof fn lemma_styles_keep(e: ElementView)
    requires
        comment_free(e),
    ensures
        comment_free(with_minified_styles(e)),
    decreases e,
{
    lemma_styles_keep_nodes(e.children);
}

proof fn lemma_styles_keep_nodes(ns: Seq<NodeView>)
    requires
        comment_free_nodes(ns),
    ensures
        comment_free_nodes(with_minified_styles_nodes(ns)),
    decreases ns,
{
    if ns.len() > 0 {
        lemma_styles_keep_nodes(ns.drop_last());
        let rest = with_minified_styles_nodes(ns.drop_last());
        match ns.last() {
            NodeView::Element(c) => {
                lemma_styles_keep(c);
                lemma_comment_free_push(rest, NodeView::Element(with_minified_styles(c)));
            },
            other => {
                lemma_comment_free_push(rest, other);
            },
        }
    }
}

proof fn lemma_blank_keeps(e: ElementView)
    requires
        comment_free(e),
    ensures
        comment_free(without_blank_text(e)),
    decreases e,
{
    lemma_blank_keeps_nodes(e.children);
}

proof fn lemma_blank_keeps_nodes(ns: Seq<NodeView>)
    requires
        comment_free_nodes(ns),
    ensures
        comment_free_nodes(without_blank_text_nodes(ns)),
    decreases ns,
{
    if ns.len() > 0 {
        lemma_blank_keeps_nodes(ns.drop_last());
        let rest = without_blank_text_nodes(ns.drop_last());
        match ns.last() {
            NodeView::Text(t) => {
                lemma_comment_free_push(rest, NodeView::Text(t));
            },
            NodeView::Element(c) => {
                lemma_blank_keeps(c);
                lemma_comment_free_push(rest, NodeView::Element(without_blank_text(c)));
            },
            other => {
                lemma_comment_free_push(rest, other);
            },
        }
    }
}

/// Where comments are removed, the optimized tree holds no comment at any
/// depth, whatever else the options turn on.
pub proof fn lemma_optimized_has_no_comments(root: ElementView, o: Options)
    requires
        o.remove_comments,
    ensures
        comment_free(optimized(root, o)),
{
    let r1 = choice(o.remove_metadata, crate::optimize::without_metadata(root), root);
    let r2 = choice(o.remove_unused_namespaces, without_unused_namespaces(r1), r1);
    let r3 = without_comments(r2);
    lemma_without_comments(r2);
    let r4 = choice(o.remove_hidden, without_hidden(r3), r3);
    lemma_hidden_keeps(r3);
    let r5 = choice(o.remove_empty, without_empty(r4), r4);
    lemma_empty_keeps(r4);
    let r6 = choice(o.collapse_groups, collapsed(r5), r5);
    lemma_collapse_keeps(r5);
    let r7 = choice(o.minify_paths, with_minified_paths(r6, o.precision as nat), r6);
    lemma_paths_keep(r6, o.precision as nat);
    let r8 = choice(o.minify_colors, recolored(r7), r7);
    lemma_colors_keep(r7);
    let r9 = choice(o.remove_defaults, without_defaults(r8), r8);
    lemma_defaults_keep(r8);
    let r10 = choice(o.minify_styles, with_minified_styles(r9), r9);
    lemma_styles_keep(r9);
    lemma_blank_keeps(r10);
}

/// Whether no attribute of the element, or of an element below it,
/// states a default.
pub open spec fn default_free(e: ElementView) -> bool
    decreases e,
{
    states_no_default(e.name.local, e.attributes) && default_free_nodes(e.children)
}

/// Whether none of the attributes of an element named `local` states a
/// default.
pub open spec fn states_no_default(local: Seq<char>, attrs: Seq<AttributeView>) -> bool {
    forall|i: int|
        0 <= i < attrs.len() ==> !is_default(
            local,
            (#[trigger] attrs[i]).name.local,
            attrs[i].value,
        )
}

/// Whether no attribute of an element among the nodes, or below them, states a
/// default.
pub open spec fn default_free_nodes(ns: Seq<NodeView>) -> bool
    decreases ns,
{
    if ns.len() == 0 {
        true
    } else {
        default_free_nodes(ns.drop_last()) && match ns.last() {
            NodeView::Element(c) => default_free(c),
            _ => true,
        }
    }
}

proof fn lemma_default_free_push(ns: Seq<NodeView>, n: NodeView)
    ensures
        default_free_nodes(ns.push(n)) == (default_free_nodes(ns) && match n {
            NodeView::Element(c) => default_free(c),
            _ => true,
        }),
{
    assert(ns.push(n).drop_last() == ns);
}

proof fn lemma_stated_attributes(local: Seq<char>, attrs: Seq<AttributeView>)
    ensures
        states_no_default(local, stated_attributes(local, attrs)),
    decreases attrs.len(),
{
    if attrs.len() > 0 {
        lemma_stated_attributes(local, attrs.drop_last());
    }
}

/// Removing the attributes that state a default leaves none.
pub proof fn lemma_without_defaults(e: ElementView)
    ensures
        default_free(without_defaults(e)),
    decreases e,
{
    lemma_stated_attributes(e.name.local, e.attributes);
    lemma_without_defaults_nodes(e.children);
}

proof fn lemma_without_defaults_nodes(ns: Seq<NodeView>)
    ensures
        default_free_nodes(without_defaults_nodes(ns)),
    decreases ns,
{
    if ns.len() > 0 {
        lemma_without_defaults_nodes(ns.drop_last());
        let rest = without_defaults_nodes(ns.drop_last());
        match ns.last() {
            NodeView::Element(c) => {
                lemma_without_defaults(c);
                lemma_default_free_push(rest, NodeView::Element(without_defaults(c)));
            },
            other => {
                lemma_default_free_push(rest, other);
            },
        }
    }
}

/// No value makes `style` a default, on any element.
pub proof fn lemma_style_is_no_default(element: Seq<char>, value: Seq<char>)
    ensures
        !is_default(element, "style"@, value),
{
    reveal_strlit("style");
    reveal_strlit("version");
    reveal_strlit("baseProfile");
    reveal_strlit("preserveAspectRatio");
    reveal_strlit("fill-opacity");
    reveal_strlit("stroke-opacity");
    reveal_strlit("opacity");
    reveal_strlit("stroke-width");
    reveal_strlit("stroke-linecap");
    reveal_strlit("stroke-linejoin");
    reveal_strlit("stroke-miterlimit");
    reveal_strlit("fill-rule");
    reveal_strlit("clip-rule");
    reveal_strlit("font-style");
    reveal_strlit("font-weight");
    reveal_strlit("text-anchor");
    reveal_strlit("dominant-baseline");
    reveal_strlit("visibility");
    reveal_strlit("display");
    reveal_strlit("overflow");
    reveal_strlit("rx");
    reveal_strlit("ry");
    reveal_strlit("cx");
    reveal_strlit("cy");
    reveal_strlit("x1");
    reveal_strlit("y1");
    reveal_strlit("x2");
    reveal_strlit("y2");
    assert("style"@.len() == 5);
}

pub(crate) proof fn lemma_without_attr_subset(attrs: Seq<AttributeView>, name: Seq<char>)
    ensures
        forall|i: int|
            0 <= i < without_attr(attrs, name).len() ==> attrs.contains(
                #[trigger] without_attr(attrs, name)[i],
            ),
    decreases attrs.len(),
{
    if attrs.len() > 0 {
        lemma_without_attr_subset(attrs.drop_last(), name);
        let rest = without_attr(attrs.drop_last(), name);
        assert forall|i: int| 0 <= i < without_attr(attrs, name).len() implies attrs.contains(
            #[trigger] without_attr(attrs, name)[i],
        ) by {
            if i < rest.len() {
                assert(attrs.drop_last().contains(rest[i]));
                let j = choose|j: int|
                    0 <= j < attrs.drop_last().len() && attrs.drop_last()[j] == rest[i];
                assert(attrs[j] == rest[i]);
            } else {
                assert(attrs[attrs.len() - 1] == attrs.last());
            }
        }
    }
}

proof fn lemma_style_keeps_stated(local: Seq<char>, attrs: Seq<AttributeView>)
    requires
        states_no_default(local, attrs),
    ensures
        states_no_default(local, with_minified_style(attrs)),
{
    let r = with_minified_style(attrs);
    match attr_value(attrs, "style"@) {
        Some(s) => {
            lemma_attr_index(attrs, "style"@, 0);
            let at = attr_index(attrs, "style"@, 0);
            if minified_style(s).len() == 0 {
                lemma_without_attr_subset(attrs, "style"@);
                assert forall|i: int| 0 <= i < r.len() implies !is_default(
                    local,
                    (#[trigger] r[i]).name.local,
                    r[i].value,
                ) by {
                    assert(attrs.contains(r[i]));
                    let j = choose|j: int| 0 <= j < attrs.len() && attrs[j] == r[i];
                    assert(!is_default(local, attrs[j].name.local, attrs[j].value));
                }
            } else {
                assert forall|i: int| 0 <= i < r.len() implies !is_default(
                    local,
                    (#[trigger] r[i]).name.local,
                    r[i].value,
                ) by {
                    if i == at {
                        lemma_style_is_no_default(local, minified_style(s));
                    } else {
                        assert(r[i] == attrs[i]);
                    }
                }
            }
        },
        None => {},
    }
}

proof fn lemma_styles_keep_defaults(e: ElementView)
    requires
        default_free(e),
    ensures
        default_free(with_minified_styles(e)),
    decreases e,
{
    lemma_style_keeps_stated(e.name.local, e.attributes);
    lemma_styles_keep_defaults_nodes(e.children);
}

proof fn lemma_styles_keep_defaults_nodes(ns: Seq<NodeView>)
    requires
        default_free_nodes(ns),
    ensures
        default_free_nodes(with_minified_styles_nodes(ns)),
    decreases ns,
{
    if ns.len() > 0 {
        lemma_styles_keep_defaults_nodes(ns.drop_last());
        let rest = with_minified_styles_nodes(ns.drop_last());
        match ns.last() {
            NodeView::Element(c) => {
                lemma_styles_keep_defaults(c);
                lemma_default_free_push(rest, NodeView::Element(with_minified_styles(c)));
            },
            other => {
                lemma_default_free_push(rest, other);
            },
        }
    }
}

proof fn lemma_blank_keeps_defaults(e: ElementView)
    requires
        default_free(e),
    ensures
        default_free(without_blank_text(e)),
    decreases e,
{
    lemma_blank_keeps_defaults_nodes(e.children);
}

proof fn lemma_blank_keeps_defaults_nodes(ns: Seq<NodeView>)
    requires
        default_free_nodes(ns),
    ensures
        default_free_nodes(without_blank_text_nodes(ns)),
    decreases ns,
{
    if ns.len() > 0 {
        lemma_blank_keeps_defaults_nodes(ns.drop_last());
        let rest = without_blank_text_nodes(ns.drop_last());
        match ns.last() {
            NodeView::Text(t) => {
                lemma_default_free_push(rest, NodeView::Text(t));
            },
            NodeView::Element(c) => {
                lemma_blank_keeps_defaults(c);
                lemma_default_free_push(rest, NodeView::Element(without_blank_text(c)));
            },
            other => {
                lemma_default_free_push(rest, other);
            },
        }
    }
}

/// Where defaults are removed, no attribute of the optimized tree states
/// a default, at any depth, whatever else the options turn on.
pub proof fn lemma_optimized_states_no_default(root: ElementView, o: Options)
    requires
        o.remove_defaults,
    ensures
        default_free(optimized(root, o)),
{
    let r1 = choice(o.remove_metadata, crate::optimize::without_metadata(root), root);
    let r2 = choice(o.remove_unused_namespaces, without_unused_namespaces(r1), r1);
    let r3 = choice(o.remove_comments, without_comments(r2), r2);
    let r4 = choice(o.remove_hidden, without_hidden(r3), r3);
    let r5 = choice(o.remove_empty, without_empty(r4), r4);
    let r6 = choice(o.collapse_groups, collapsed(r5), r5);
    let r7 = choice(o.minify_paths, with_minified_paths(r6, o.precision as nat), r6);
    let r8 = choice(o.minify_colors, recolored(r7), r7);
    let r9 = without_defaults(r8);
    lemma_without_defaults(r8);
    let r10 = choice(o.minify_styles, with_minified_styles(r9), r9);
    lemma_styles_keep_defaults(r9);
    lemma_blank_keeps_defaults(r10);
}

/// Whether no element below `e` is hidden. Nothing is said of `e` itself.
pub open spec fn shows_all_below(e: ElementView) -> bool
    decreases e,
{
    shows_all(e.children)
}

/// Whether none of the nodes is a hidden element or holds one.
pub open spec fn shows_all(ns: Seq<NodeView>) -> bool
    decreases ns,
{
    if ns.len() == 0 {
        true
    } else {
        shows_all(ns.drop_last()) && match ns.last() {
            NodeView::Element(c) => !hidden(c) && shows_all_below(c),
            _ => true,
        }
    }
}

/// Once hidden elements have been removed, no element below the root is
/// hidden. The root is never removed, hidden or not.
pub proof fn lemma_without_hidden(e: ElementView)
    ensures
        shows_all_below(without_hidden(e)),
    decreases e,
{
    lemma_without_hidden_nodes(e.children);
}

proof fn lemma_without_hidden_nodes(ns: Seq<NodeView>)
    ensures
        shows_all(without_hidden_nodes(ns)),
    decreases ns,
{
    if ns.len() > 0 {
        lemma_without_hidden_nodes(ns.drop_last());
        let rest = without_hidden_nodes(ns.drop_last());
        match ns.last() {
            NodeView::Element(c) => {
                if !hidden(c) {
                    lemma_without_hidden(c);
                    assert(rest.push(NodeView::Element(without_hidden(c))).drop_last() == rest);
                    assert(hidden(without_hidden(c)) == hidden(c));
                }
            },
            other => {
                assert(rest.push(other).drop_last() == rest);
            },
        }
    }
}

/// A style none of whose declarations is kept minifies to nothing.
pub proof fn lemma_defaults_only_style(pieces: Seq<Seq<char>>)
    requires
        forall|i: int|
            0 <= i < pieces.len() ==> trimmed(#[trigger] pieces[i]).len() == 0 || kept_declaration(
                trimmed(pieces[i]),
            ) is None,
    ensures
        minified_pieces(pieces).len() == 0,
    decreases pieces.len(),
{
    if pieces.len() > 0 {
        assert forall|i: int| 0 <= i < pieces.drop_last().len() implies trimmed(
            #[trigger] pieces.drop_last()[i],
        ).len() == 0 || kept_declaration(trimmed(pieces.drop_last()[i])) is None by {
            assert(pieces.drop_last()[i] == pieces[i]);
        }
        lemma_defaults_only_style(pieces.drop_last());
        assert(pieces.last() == pieces[pieces.len() - 1]);
    }
}

proof fn lemma_without_attr_absent(attrs: Seq<AttributeView>, name: Seq<char>, from: int)
    requires
        0 <= from <= without_attr(attrs, name).len(),
    ensures
        attr_index(without_attr(attrs, name), name, from) == without_attr(attrs, name).len(),
    decreases without_attr(attrs, name).len() - from,
{
    let r = without_attr(attrs, name);
    if from < r.len() {
        lemma_without_attr_names(attrs, name);
        lemma_without_attr_absent(attrs, name, from + 1);
    }
}

pub(crate) proof fn lemma_without_attr_names(attrs: Seq<AttributeView>, name: Seq<char>)
    ensures
        forall|i: int|
            0 <= i < without_attr(attrs, name).len() ==> (#[trigger] without_attr(
                attrs,
                name,
            )[i]).name.local != name,
    decreases attrs.len(),
{
    if attrs.len() > 0 {
        lemma_without_attr_names(attrs.drop_last(), name);
    }
}

/// A `style` attribute that holds nothing but declarations that state a
/// default, blank declarations and declarations without colon is removed
/// entirely: afterwards the element has no `style`.
pub proof fn lemma_style_of_defaults_is_removed(attrs: Seq<AttributeView>, style: Seq<char>)
    requires
        attr_value(attrs, "style"@) == Some(style),
        forall|i: int|
            0 <= i < split(style, ';').len() ==> trimmed(#[trigger] split(style, ';')[i]).len()
                == 0 || kept_declaration(trimmed(split(style, ';')[i])) is None,
    ensures
        attr_value(with_minified_style(attrs), "style"@) is None,
{
    lemma_defaults_only_style(split(style, ';'));
    lemma_without_attr_absent(attrs, "style"@, 0);
}

proof fn lemma_less_transitive(a: Seq<char>, b: Seq<char>, c: Seq<char>, i: int)
    requires
        0 <= i,
        less_from(a, b, i),
        less_from(b, c, i),
    ensures
        less_from(a, c, i),
    decreases a.len() - i,
{
    if i < a.len() && i < b.len() && i < c.len() && a[i] == b[i] && b[i] == c[i] {
        lemma_less_transitive(a, b, c, i + 1);
    }
}

proof fn lemma_less_irreflexive(a: Seq<char>, i: int)
    requires
        0 <= i,
    ensures
        !less_from(a, a, i),
    decreases a.len() - i,
{
    if i < a.len() {
        lemma_less_irreflexive(a, i + 1);
    }
}

/// No attribute precedes itself.
pub proof fn lemma_precedes_irreflexive(x: AttributeView)
    ensures
        !precedes(x, x),
{
    lemma_less_irreflexive(crate::ast::full_name(x.name), 0);
}

/// The order in which attributes are written is transitive.
pub proof fn lemma_precedes_transitive(x: AttributeView, y: AttributeView, z: AttributeView)
    requires
        precedes(x, y),
        precedes(y, z),
    ensures
        precedes(x, z),
{
    let a = crate::ast::full_name(x.name);
    let b = crate::ast::full_name(y.name);
    let c = crate::ast::full_name(z.name);
    if text_less(a, b) && text_less(b, c) {
        lemma_less_transitive(a, b, c, 0);
    }
}

/// Whether no attribute is written after one that it precedes.
pub open spec fn in_order(s: Seq<AttributeView>) -> bool {
    forall|i: int, j: int| 0 <= i < j < s.len() ==> !precedes(#[trigger] s[j], #[trigger] s[i])
}

proof fn lemma_insertion_point(s: Seq<AttributeView>, x: AttributeView, from: int)
    requires
        0 <= from <= s.len(),
    ensures
        from <= insertion_point(s, x, from) <= s.len(),
        forall|q: int| from <= q < insertion_point(s, x, from) ==> !precedes(x, #[trigger] s[q]),
        insertion_point(s, x, from) < s.len() ==> precedes(x, s[insertion_point(s, x, from)]),
    decreases s.len() - from,
{
    if from < s.len() && !precedes(x, s[from]) {
        lemma_insertion_point(s, x, from + 1);
    }
}

/// Sorted attributes are the attributes, each as often as before, in an
/// order in which none is written after one that it precedes.
pub proof fn lemma_sorted(attrs: Seq<AttributeView>)
    ensures
        sorted(attrs).len() == attrs.len(),
        sorted(attrs).to_multiset() == attrs.to_multiset(),
        in_order(sorted(attrs)),
    decreases attrs.len(),
{
    if attrs.len() == 0 {
    } else {
        let rest = sorted(attrs.drop_last());
        let x = attrs.last();
        lemma_sorted(attrs.drop_last());
        lemma_insertion_point(rest, x, 0);
        let at = insertion_point(rest, x, 0);
        let r = rest.insert(at, x);
        assert(sorted(attrs) == r);
        vstd::seq_lib::to_multiset_insert(rest, at, x);
        assert(attrs =~= attrs.drop_last().push(x));
        vstd::seq_lib::to_multiset_build(attrs.drop_last(), x);
        assert forall|i: int, j: int| 0 <= i < j < r.len() implies !precedes(
            #[trigger] r[j],
            #[trigger] r[i],
        ) by {
            if j == at {
                assert(r[j] == x);
                assert(r[i] == rest[i]);
                assert(!precedes(x, rest[i]));
            } else if i == at {
                assert(r[i] == x);
                assert(r[j] == rest[j - 1]);
                assert(precedes(x, rest[at]));
                if precedes(rest[j - 1], x) {
                    lemma_precedes_transitive(rest[j - 1], x, rest[at]);
                    if j - 1 == at {
                        lemma_precedes_irreflexive(rest[at]);
                    } else {
                        assert(!precedes(rest[j - 1], rest[at]));
                    }
                }
            } else {
                let i0 = if i < at {
                    i
                } else {
                    i - 1
                };
                let j0 = if j < at {
                    j
                } else {
                    j - 1
                };
                assert(r[i] == rest[i0]);
                assert(r[j] == rest[j0]);
                assert(!precedes(rest[j0], rest[i0]));
            }
        }
    }
}

/// Sorting keeps the order of attributes of which neither precedes the
/// other: an attribute goes behind every attribute that it does not
/// precede.
pub proof fn lemma_sorted_is_stable(attrs: Seq<AttributeView>, x: AttributeView)
    ensures
        sorted(attrs.push(x)) == sorted(attrs).insert(insertion_point(sorted(attrs), x, 0), x),
        forall|q: int|
            0 <= q < insertion_point(sorted(attrs), x, 0) ==> !precedes(
                x,
                #[trigger] sorted(attrs)[q],
            ),
{
    assert(attrs.push(x).drop_last() =~= attrs);
    lemma_insertion_point(sorted(attrs), x, 0);
}

/// An element without attributes and without children comes out of the
/// optimizer as it went in, whatever the options, and is written as one
/// empty-element tag.
pub proof fn lemma_bare_element_survives(e: ElementView, o: Options)
    requires
        e.attributes.len() == 0,
        e.children.len() == 0,
    ensures
        optimized(e, o) == e,
        element_text(e, o) == seq!['<'] + crate::ast::full_name(e.name) + "/>"@,
{
    assert(e.attributes =~= Seq::<AttributeView>::empty());
    assert(e.children =~= Seq::<NodeView>::empty());
    assert(crate::optimize::without_metadata(e) == e) by {
        assert(crate::optimize::rendering_attributes(e.attributes) =~= e.attributes);
        assert(crate::optimize::without_metadata_nodes(e.children) =~= e.children);
    }
    assert(without_unused_namespaces(e) == e) by {
        assert(used_declarations(e.attributes, e) =~= e.attributes);
        assert(crate::optimize::pruned_nodes(e.children, e) =~= e.children);
    }
    assert(without_comments(e) == e) by {
        assert(without_comments_nodes(e.children) =~= e.children);
    }
    assert(without_hidden(e) == e) by {
        assert(without_hidden_nodes(e.children) =~= e.children);
    }
    assert(without_empty(e) == e) by {
        assert(without_empty_nodes(e.children) =~= e.children);
    }
    assert(collapsed(e) == e) by {
        assert(collapsed_nodes(e.children) =~= e.children);
    }
    assert(with_minified_paths(e, o.precision as nat) == e) by {
        assert(with_minified_paths_nodes(e.children, o.precision as nat) =~= e.children);
        assert(attr_index(e.attributes, "d"@, 0) == 0);
    }
    assert(recolored(e) == e) by {
        assert(recolored_nodes(e.children) =~= e.children);
        assert(crate::optimize::recolored_attributes(e.attributes) =~= e.attributes);
        assert(attr_index(e.attributes, "style"@, 0) == 0);
    }
    assert(without_defaults(e) == e) by {
        assert(without_defaults_nodes(e.children) =~= e.children);
        assert(stated_attributes(e.name.local, e.attributes) =~= e.attributes);
    }
    assert(with_minified_styles(e) == e) by {
        assert(with_minified_styles_nodes(e.children) =~= e.children);
        assert(attr_index(e.attributes, "style"@, 0) == 0);
    }
    assert(without_blank_text(e) == e) by {
        assert(without_blank_text_nodes(e.children) =~= e.children);
    }
    assert(crate::serialize::sorted(e.attributes) =~= e.attributes);
    assert(crate::serialize::attributes_text(e.attributes) =~= Seq::<char>::empty());
    assert(seq!['<'] + crate::ast::full_name(e.name) + Seq::<char>::empty() =~= seq!['<']
        + crate::ast::full_name(e.name));
}

pub(crate) proof fn lemma_shows_all_push(ns: Seq<NodeView>, n: NodeView)
    ensures
        shows_all(ns.push(n)) == (shows_all(ns) && match n {
            NodeView::Element(c) => !hidden(c) && shows_all_below(c),
            _ => true,
        }),
{
    assert(ns.push(n).drop_last() == ns);
}

proof fn lemma_shows_all_add(a: Seq<NodeView>, b: Seq<NodeView>)
    ensures
        shows_all(a + b) == (shows_all(a) && shows_all(b)),
    decreases b.len(),
{
    if b.len() == 0 {
        assert(a + b == a);
    } else {
        assert((a + b).drop_last() == a + b.drop_last());
        lemma_shows_all_add(a, b.drop_last());
    }
}

pub(crate) proof fn lemma_attr_index_other(
    attrs: Seq<AttributeView>,
    changed: Seq<AttributeView>,
    other: Seq<char>,
    from: int,
)
    requires
        0 <= from <= attrs.len(),
        changed.len() == attrs.len(),
        forall|i: int|
            0 <= i < attrs.len() ==> (#[trigger] changed[i]).name == attrs[i].name && (
            attrs[i].name.local == other ==> changed[i] == attrs[i]),
    ensures
        attr_index(changed, other, from) == attr_index(attrs, other, from),
        attr_index(attrs, other, from) < attrs.len() ==> changed[attr_index(attrs, other, from)]
            == attrs[attr_index(attrs, other, from)],
    decreases attrs.len() - from,
{
    if from < attrs.len() {
        assert(changed[from].name == attrs[from].name);
        if attrs[from].name.local != other {
            lemma_attr_index_other(attrs, changed, other, from + 1);
        }
    }
}

/// Setting the value of an attribute that is there leaves the attributes
/// with other names as they are.
pub proof fn lemma_set_leaves_others(
    attrs: Seq<AttributeView>,
    name: Seq<char>,
    value: Seq<char>,
    other: Seq<char>,
)
    requires
        other != name,
        attr_value(attrs, name) is Some,
    ensures
        attr_value(crate::ast::with_attr(attrs, name, value), other) == attr_value(attrs, other),
{
    lemma_attr_index(attrs, name, 0);
    lemma_attr_index_other(attrs, crate::ast::with_attr(attrs, name, value), other, 0);
}

pub(crate) proof fn lemma_path_data_is_no_sign_of_hiding()
    ensures
        "d"@ != "display"@,
        "d"@ != "visibility"@,
        "d"@ != "opacity"@,
        "d"@ != "style"@,
{
    reveal_strlit("d");
    reveal_strlit("display");
    reveal_strlit("visibility");
    reveal_strlit("opacity");
    reveal_strlit("style");
    assert("d"@.len() == 1);
}

proof fn lemma_paths_hide_nothing(e: ElementView, k: nat)
    ensures
        hidden(with_minified_paths(e, k)) == hidden(e),
{
    let r = with_minified_paths(e, k);
    lemma_path_data_is_no_sign_of_hiding();
    if r.attributes != e.attributes {
        let d = attr_value(e.attributes, "d"@).unwrap();
        let v = crate::path::serialized(crate::path::parsed(d).unwrap(), k);
        lemma_set_leaves_others(e.attributes, "d"@, v, "display"@);
        lemma_set_leaves_others(e.attributes, "d"@, v, "visibility"@);
        lemma_set_leaves_others(e.attributes, "d"@, v, "opacity"@);
        lemma_set_leaves_others(e.attributes, "d"@, v, "style"@);
    }
}

pub(crate) proof fn lemma_empty_shows(e: ElementView)
    requires
        shows_all_below(e),
    ensures
        shows_all_below(without_empty(e)),
    decreases e,
{
    lemma_empty_shows_nodes(e.children);
}

proof fn lemma_empty_shows_nodes(ns: Seq<NodeView>)
    requires
        shows_all(ns),
    ensures
        shows_all(without_empty_nodes(ns)),
    decreases ns,
{
    if ns.len() > 0 {
        lemma_empty_shows_nodes(ns.drop_last());
        let rest = without_empty_nodes(ns.drop_last());
        match ns.last() {
            NodeView::Element(c) => {
                lemma_empty_shows(c);
                assert(hidden(without_empty(c)) == hidden(c));
                lemma_shows_all_push(rest, NodeView::Element(without_empty(c)));
            },
            other => {
                lemma_shows_all_push(rest, other);
            },
        }
    }
}

pub(crate) proof fn lemma_collapse_shows(e: ElementView)
    requires
        shows_all_below(e),
    ensures
        shows_all_below(collapsed(e)),
    decreases e,
{
    lemma_collapse_shows_nodes(e.children);
}

proof fn lemma_collapse_shows_nodes(ns: Seq<NodeView>)
    requires
        shows_all(ns),
    ensures
        shows_all(collapsed_nodes(ns)),
    decreases ns,
{
    if ns.len() > 0 {
        lemma_collapse_shows_nodes(ns.drop_last());
        let rest = collapsed_nodes(ns.drop_last());
        match ns.last() {
            NodeView::Element(c) => {
                lemma_collapse_shows(c);
                assert(hidden(collapsed(c)) == hidden(c));
                lemma_shows_all_push(rest, NodeView::Element(collapsed(c)));
                lemma_shows_all_add(rest, collapsed(c).children);
            },
            other => {
                lemma_shows_all_push(rest, other);
            },
        }
    }
}

pub(crate) proof fn lemma_paths_show(e: ElementView, k: nat)
    requires
        shows_all_below(e),
    ensures
        shows_all_below(with_minified_paths(e, k)),
    decreases e,
{
    lemma_paths_show_nodes(e.children, k);
}

proof fn lemma_paths_show_nodes(ns: Seq<NodeView>, k: nat)
    requires
        shows_all(ns),
    ensures
        shows_all(with_minified_paths_nodes(ns, k)),
    decreases ns,
{
    if ns.len() > 0 {
        lemma_paths_show_nodes(ns.drop_last(), k);
        let rest = with_minified_paths_nodes(ns.drop_last(), k);
        match ns.last() {
            NodeView::Element(c) => {
                lemma_paths_show(c, k);
                lemma_paths_hide_nothing(c, k);
                lemma_shows_all_push(rest, NodeView::Element(with_minified_paths(c, k)));
            },
            other => {
                lemma_shows_all_push(rest, other);
            },
        }
    }
}

pub(crate) proof fn lemma_blank_shows(e: ElementView)
    requires
        shows_all_below(e),
    ensures
        shows_all_below(without_blank_text(e)),
    decreases e,
{
    lemma_blank_shows_nodes(e.children);
}

proof fn lemma_blank_shows_nodes(ns: Seq<NodeView>)
    requires
        shows_all(ns),
    ensures
        shows_all(without_blank_text_nodes(ns)),
    decreases ns,
{
    if ns.len() > 0 {
        lemma_blank_shows_nodes(ns.drop_last());
        let rest = without_blank_text_nodes(ns.drop_last());
        match ns.last() {
            NodeView::Text(t) => {
                lemma_shows_all_push(rest, NodeView::Text(t));
            },
            NodeView::Element(c) => {
                lemma_blank_shows(c);
                assert(hidden(without_blank_text(c)) == hidden(c));
                lemma_shows_all_push(rest, NodeView::Element(without_blank_text(c)));
            },
            other => {
                lemma_shows_all_push(rest, other);
            },
        }
    }
}

/// Where hidden elements are removed, and colors, defaults and styles are
/// left as they are, no element below the root of the optimized tree is
/// hidden. The three passes left out rewrite or remove attributes, and
/// with them what decides whether an element is hidden.
pub proof fn lemma_optimized_shows_all(root: ElementView, o: Options)
    requires
        o.remove_hidden,
        !o.minify_colors,
        !o.remove_defaults,
        !o.minify_styles,
    ensures
        shows_all_below(optimized(root, o)),
{
    let r1 = choice(o.remove_metadata, crate::optimize::without_metadata(root), root);
    let r2 = choice(o.remove_unused_namespaces, without_unused_namespaces(r1), r1);
    let r3 = choice(o.remove_comments, without_comments(r2), r2);
    let r4 = without_hidden(r3);
    lemma_without_hidden(r3);
    let r5 = choice(o.remove_empty, without_empty(r4), r4);
    lemma_empty_shows(r4);
    let r6 = choice(o.collapse_groups, collapsed(r5), r5);
    lemma_collapse_shows(r5);
    let r7 = choice(o.minify_paths, with_minified_paths(r6, o.precision as nat), r6);
    lemma_paths_show(r6, o.precision as nat);
    lemma_blank_shows(r7);
}

} // verus!
