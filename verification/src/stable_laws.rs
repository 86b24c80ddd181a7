//! What holds of optimizing again: which passes find their work done.

use vstd::prelude::*;

use crate::ast::{
    attr_index, attr_value, lemma_attr_index, without_attr, AttributeView, ElementView, NodeView,
};
use crate::defaults::is_default;
use crate::laws::{
    comment_free, comment_free_nodes, default_free, default_free_nodes, lemma_attr_index_other,
    lemma_optimized_has_no_comments, lemma_optimized_states_no_default,
    lemma_path_data_is_no_sign_of_hiding, lemma_set_leaves_others, lemma_without_attr_subset,
    shows_all, shows_all_below, states_no_default,
};
use crate::namespace_laws::{
    judged, lemma_colors_keep_names, lemma_optimized_declares_what_it_uses, lemma_paths_keep_names,
    lemma_set_keeps_names, lemma_used_only_is_settled, same_names,
};
use crate::optimize::{
    choice, collapsed, collapsed_nodes, hidden, is_metadata_attribute, is_metadata_name, optimized,
    prefixes, pruned, pruned_nodes, recolored, recolored_attributes, recolored_nodes,
    rendering_attributes, stated_attributes, used_declarations, with_minified_path,
    with_minified_paths, with_minified_paths_nodes, with_minified_style, with_minified_styles,
    with_minified_styles_nodes, with_recolored_style, without_blank_text, without_blank_text_nodes,
    without_comments, without_comments_nodes, without_defaults, without_defaults_nodes,
    without_empty, without_empty_nodes, without_hidden, without_hidden_nodes, without_metadata,
    without_metadata_nodes, without_unused_namespaces,
};
use crate::options::Options;
use crate::shown_laws::{
    arranged, lemma_optimized_in_steps, lemma_plain_tree_hides_nothing, lemma_stated_within,
    lemma_used_within, plain, plain_nodes, rewritten,
};
use crate::style::{is_color_name, minified_style, recolored_style};

verus! {

/// Whether no pass that the options turn on changes the tree: each of
/// them, run on the tree by itself, gives the tree back.
pub open spec fn settled(r: ElementView, o: Options) -> bool {
    &&& o.remove_metadata ==> crate::optimize::without_metadata(r) == r
    &&& o.remove_unused_namespaces ==> without_unused_namespaces(r) == r
    &&& o.remove_comments ==> without_comments(r) == r
    &&& o.remove_hidden ==> without_hidden(r) == r
    &&& o.remove_empty ==> without_empty(r) == r
    &&& o.collapse_groups ==> collapsed(r) == r
    &&& o.minify_paths ==> with_minified_paths(r, o.precision as nat) == r
    &&& o.minify_colors ==> recolored(r) == r
    &&& o.remove_defaults ==> without_defaults(r) == r
    &&& o.minify_styles ==> with_minified_styles(r) == r
    &&& without_blank_text(r) == r
}

proof fn lemma_comment_free_stays(ns: Seq<NodeView>)
    requires
        comment_free_nodes(ns),
    ensures
        without_comments_nodes(ns) == ns,
    decreases ns,
{
    if ns.len() > 0 {
        lemma_comment_free_stays(ns.drop_last());
        match ns.last() {
            NodeView::Element(c) => {
                assert(comment_free(c));
                lemma_comment_free_stays(c.children);
                assert(without_comments(c) == c);
            },
            _ => {},
        }
        assert(ns == ns.drop_last().push(ns.last()));
    }
}

proof fn lemma_stated_stay(local: Seq<char>, attrs: Seq<AttributeView>)
    requires
        states_no_default(local, attrs),
    ensures
        stated_attributes(local, attrs) == attrs,
    decreases attrs.len(),
{
    if attrs.len() > 0 {
        assert forall|i: int| 0 <= i < attrs.drop_last().len() implies !is_default(
            local,
            (#[trigger] attrs.drop_last()[i]).name.local,
            attrs.drop_last()[i].value,
        ) by {
            assert(attrs.drop_last()[i] == attrs[i]);
        }
        lemma_stated_stay(local, attrs.drop_last());
        assert(attrs[attrs.len() - 1] == attrs.last());
        assert(attrs == attrs.drop_last().push(attrs.last()));
    }
}

proof fn lemma_default_free_stays(ns: Seq<NodeView>)
    requires
        default_free_nodes(ns),
    ensures
        without_defaults_nodes(ns) == ns,
    decreases ns,
{
    if ns.len() > 0 {
        lemma_default_free_stays(ns.drop_last());
        match ns.last() {
            NodeView::Element(c) => {
                assert(default_free(c));
                lemma_default_free_stays(c.children);
                lemma_stated_stay(c.name.local, c.attributes);
                assert(without_defaults(c) == c);
            },
            _ => {},
        }
        assert(ns == ns.drop_last().push(ns.last()));
    }
}

proof fn lemma_shown_stay(ns: Seq<NodeView>)
    requires
        shows_all(ns),
    ensures
        without_hidden_nodes(ns) == ns,
    decreases ns,
{
    if ns.len() > 0 {
        lemma_shown_stay(ns.drop_last());
        match ns.last() {
            NodeView::Element(c) => {
                assert(shows_all_below(c));
                lemma_shown_stay(c.children);
                assert(without_hidden(c) == c);
            },
            _ => {},
        }
        assert(ns == ns.drop_last().push(ns.last()));
    }
}

proof fn lemma_blank_text_once(ns: Seq<NodeView>)
    ensures
        without_blank_text_nodes(without_blank_text_nodes(ns)) == without_blank_text_nodes(ns),
    decreases ns,
{
    if ns.len() > 0 {
        lemma_blank_text_once(ns.drop_last());
        let rest = without_blank_text_nodes(ns.drop_last());
        match ns.last() {
            NodeView::Text(t) => {
                assert(rest.push(NodeView::Text(t)).drop_last() == rest);
            },
            NodeView::Element(c) => {
                lemma_blank_text_once(c.children);
                assert(without_blank_text(without_blank_text(c)) == without_blank_text(c));
                assert(rest.push(NodeView::Element(without_blank_text(c))).drop_last() == rest);
            },
            other => {
                assert(rest.push(other).drop_last() == rest);
            },
        }
    }
}

/// Setting an attribute to the value it has changes nothing.
proof fn lemma_set_same(attrs: Seq<AttributeView>, name: Seq<char>, value: Seq<char>)
    requires
        attr_value(attrs, name) == Some(value),
    ensures
        crate::ast::with_attr(attrs, name, value) == attrs,
{
    lemma_attr_index(attrs, name, 0);
    assert(crate::ast::with_attr(attrs, name, value) =~= attrs);
}

proof fn lemma_same_names_index(
    a: Seq<AttributeView>,
    b: Seq<AttributeView>,
    name: Seq<char>,
    from: int,
)
    requires
        same_names(a, b),
        0 <= from <= a.len(),
    ensures
        attr_index(a, name, from) == attr_index(b, name, from),
    decreases a.len() - from,
{
    if from < a.len() {
        assert(a[from].name == b[from].name);
        if a[from].name.local != name {
            lemma_same_names_index(a, b, name, from + 1);
        }
    }
}

/// An attribute that has been set has the value it was set to.
proof fn lemma_set_value(attrs: Seq<AttributeView>, name: Seq<char>, value: Seq<char>)
    requires
        attr_value(attrs, name) is Some,
    ensures
        attr_value(crate::ast::with_attr(attrs, name, value), name) == Some(value),
{
    lemma_attr_index(attrs, name, 0);
    lemma_set_keeps_names(attrs, name, value);
    lemma_same_names_index(crate::ast::with_attr(attrs, name, value), attrs, name, 0);
}

proof fn lemma_index_push(attrs: Seq<AttributeView>, x: AttributeView, name: Seq<char>, from: int)
    requires
        0 <= from <= attrs.len(),
    ensures
        attr_index(attrs, name, from) < attrs.len() ==> attr_index(attrs.push(x), name, from)
            == attr_index(attrs, name, from),
        attr_index(attrs, name, from) == attrs.len() && x.name.local == name ==> attr_index(
            attrs.push(x),
            name,
            from,
        ) == attrs.len(),
        attr_index(attrs, name, from) == attrs.len() && x.name.local != name ==> attr_index(
            attrs.push(x),
            name,
            from,
        ) == attrs.len() + 1,
    decreases attrs.len() - from,
{
    let more = attrs.push(x);
    if from < attrs.len() {
        assert(more[from] == attrs[from]);
        if attrs[from].name.local != name {
            lemma_index_push(attrs, x, name, from + 1);
        }
    } else {
        assert(more[from] == x);
        if x.name.local != name {
            assert(attr_index(more, name, from + 1) == from + 1);
        }
    }
}

/// The value of a name among attributes with one more at the end: the
/// value it had, or the value of the new one where it had none.
proof fn lemma_value_push(attrs: Seq<AttributeView>, x: AttributeView, name: Seq<char>)
    ensures
        attr_value(attrs.push(x), name) == match attr_value(attrs, name) {
            Some(v) => Some(v),
            None => if x.name.local == name {
                Some(x.value)
            } else {
                None
            },
        },
{
    lemma_index_push(attrs, x, name, 0);
    lemma_attr_index(attrs, name, 0);
    let at = attr_index(attrs, name, 0);
    if at < attrs.len() {
        assert(attrs.push(x)[at] == attrs[at]);
    } else if x.name.local == name {
        assert(attrs.push(x)[at] == x);
    }
}

proof fn lemma_stated_keep_value(local: Seq<char>, attrs: Seq<AttributeView>, name: Seq<char>)
    requires
        forall|v: Seq<char>| !is_default(local, name, v),
    ensures
        attr_value(stated_attributes(local, attrs), name) == attr_value(attrs, name),
    decreases attrs.len(),
{
    if attrs.len() > 0 {
        let front = attrs.drop_last();
        let x = attrs.last();
        lemma_stated_keep_value(local, front, name);
        assert(attrs == front.push(x));
        lemma_value_push(front, x, name);
        if !is_default(local, x.name.local, x.value) {
            lemma_value_push(stated_attributes(local, front), x, name);
        }
    }
}

proof fn lemma_without_attr_keeps_value(
    attrs: Seq<AttributeView>,
    gone: Seq<char>,
    name: Seq<char>,
)
    requires
        gone != name,
    ensures
        attr_value(without_attr(attrs, gone), name) == attr_value(attrs, name),
    decreases attrs.len(),
{
    if attrs.len() > 0 {
        let front = attrs.drop_last();
        let x = attrs.last();
        lemma_without_attr_keeps_value(front, gone, name);
        assert(attrs == front.push(x));
        lemma_value_push(front, x, name);
        if x.name.local != gone {
            lemma_value_push(without_attr(front, gone), x, name);
        }
    }
}

/// No value makes `d` a default, on any element.
proof fn lemma_path_data_is_no_default(element: Seq<char>, value: Seq<char>)
    ensures
        !is_default(element, "d"@, value),
{
    reveal_strlit("d");
    reveal_strlit("version");
    reveal_strlit("baseProfile");
    reveal_strlit("preserveAspectRatio");
    reveal_strlit("fill-opacity");
    reveal_strlit("stroke-opacity");
    reveal_strlit("opacity");
    reveal_strlit("stroke-width");
    reveal_strlit("stroke-linecap");
    reveal_strlit("stroke-linejoin");
    reveal_strlit("stroke-miterlimit");
    reveal_strlit("fill-rule");
    reveal_strlit("clip-rule");
    reveal_strlit("font-style");
    reveal_strlit("font-weight");
    reveal_strlit("text-anchor");
    reveal_strlit("dominant-baseline");
    reveal_strlit("visibility");
    reveal_strlit("display");
    reveal_strlit("overflow");
    reveal_strlit("rx");
    reveal_strlit("ry");
    reveal_strlit("cx");
    reveal_strlit("cy");
    reveal_strlit("x1");
    reveal_strlit("y1");
    reveal_strlit("x2");
    reveal_strlit("y2");
    assert("d"@.len() == 1);
}

/// Attributes whose path data is minified stay so whatever else changes,
/// as long as the path data is what it was.
proof fn lemma_path_stays(local: Seq<char>, a: Seq<AttributeView>, b: Seq<AttributeView>, k: nat)
    requires
        with_minified_path(local, a, k) == a,
        attr_value(b, "d"@) == attr_value(a, "d"@),
    ensures
        with_minified_path(local, b, k) == b,
{
    if local == "path"@ {
        match attr_value(a, "d"@) {
            Some(d) => {
                match crate::path::parsed(d) {
                    Ok(cmds) => {
                        let s = crate::path::serialized(cmds, k);
                        lemma_set_value(a, "d"@, s);
                        lemma_set_same(b, "d"@, s);
                    },
                    Err(_) => {},
                }
            },
            None => {},
        }
    }
}

/// Minifying the path data of attributes twice is minifying it once.
proof fn lemma_path_once(local: Seq<char>, a: Seq<AttributeView>, k: nat)
    ensures
        with_minified_path(local, with_minified_path(local, a, k), k) == with_minified_path(
            local,
            a,
            k,
        ),
{
    if local == "path"@ {
        match attr_value(a, "d"@) {
            Some(d) => {
                match crate::path::parsed(d) {
                    Ok(cmds) => {
                        let s = crate::path::serialized(cmds, k);
                        let b = crate::ast::with_attr(a, "d"@, s);
                        lemma_set_value(a, "d"@, s);
                        crate::path_laws::lemma_minified_path_reads_back(d, k);
                        crate::path_laws::lemma_minified_path_is_stable(d, k);
                        assert(s == crate::optimize::minified_path_data(d, k));
                        let again = crate::path::serialized(crate::path::parsed(s).unwrap(), k);
                        assert(again == s);
                        lemma_set_same(b, "d"@, s);
                    },
                    Err(_) => {},
                }
            },
            None => {},
        }
    }
}

/// Whether the path data of every `path` among the nodes, at any depth,
/// is minified at `k` fractional digits already.
pub open spec fn paths_settled(ns: Seq<NodeView>, k: nat) -> bool
    decreases ns,
{
    if ns.len() == 0 {
        true
    } else {
        paths_settled(ns.drop_last(), k) && match ns.last() {
            NodeView::Element(c) => with_minified_path(c.name.local, c.attributes, k)
                == c.attributes && paths_settled(c.children, k),
            _ => true,
        }
    }
}

proof fn lemma_paths_settled_push(ns: Seq<NodeView>, n: NodeView, k: nat)
    ensures
        paths_settled(ns.push(n), k) == (paths_settled(ns, k) && match n {
            NodeView::Element(c) => with_minified_path(c.name.local, c.attributes, k)
                == c.attributes && paths_settled(c.children, k),
            _ => true,
        }),
{
    assert(ns.push(n).drop_last() == ns);
}

proof fn lemma_paths_settled_stay(ns: Seq<NodeView>, k: nat)
    requires
        paths_settled(ns, k),
    ensures
        with_minified_paths_nodes(ns, k) == ns,
    decreases ns,
{
    if ns.len() > 0 {
        lemma_paths_settled_stay(ns.drop_last(), k);
        match ns.last() {
            NodeView::Element(c) => {
                lemma_paths_settled_stay(c.children, k);
                assert(with_minified_paths(c, k) == c);
            },
            _ => {},
        }
        assert(ns == ns.drop_last().push(ns.last()));
    }
}

proof fn lemma_minified_paths_settled(ns: Seq<NodeView>, k: nat)
    ensures
        paths_settled(with_minified_paths_nodes(ns, k), k),
    decreases ns,
{
    if ns.len() > 0 {
        lemma_minified_paths_settled(ns.drop_last(), k);
        let rest = with_minified_paths_nodes(ns.drop_last(), k);
        match ns.last() {
            NodeView::Element(c) => {
                lemma_minified_paths_settled(c.children, k);
                lemma_path_once(c.name.local, c.attributes, k);
                lemma_paths_settled_push(rest, NodeView::Element(with_minified_paths(c, k)), k);
            },
            other => {
                lemma_paths_settled_push(rest, other, k);
            },
        }
    }
}

proof fn lemma_recolored_keep_path(local: Seq<char>, a: Seq<AttributeView>, k: nat)
    requires
        with_minified_path(local, a, k) == a,
    ensures
        with_minified_path(local, with_recolored_style(recolored_attributes(a)), k)
            == with_recolored_style(recolored_attributes(a)),
{
    let ra = recolored_attributes(a);
    lemma_path_data_is_no_sign_of_hiding();
    reveal_strlit("d");
    reveal_strlit("fill");
    reveal_strlit("stroke");
    reveal_strlit("stop-color");
    reveal_strlit("flood-color");
    reveal_strlit("lighting-color");
    reveal_strlit("color");
    assert("d"@.len() == 1);
    assert(!is_color_name("d"@));
    lemma_attr_index_other(a, ra, "d"@, 0);
    match attr_value(ra, "style"@) {
        Some(st) => {
            lemma_set_leaves_others(ra, "style"@, recolored_style(st), "d"@);
        },
        None => {},
    }
    lemma_path_stays(local, a, with_recolored_style(ra), k);
}

proof fn lemma_colors_keep_paths(ns: Seq<NodeView>, k: nat)
    requires
        paths_settled(ns, k),
    ensures
        paths_settled(recolored_nodes(ns), k),
    decreases ns,
{
    if ns.len() > 0 {
        lemma_colors_keep_paths(ns.drop_last(), k);
        let rest = recolored_nodes(ns.drop_last());
        match ns.last() {
            NodeView::Element(c) => {
                lemma_colors_keep_paths(c.children, k);
                lemma_recolored_keep_path(c.name.local, c.attributes, k);
                lemma_paths_settled_push(rest, NodeView::Element(recolored(c)), k);
            },
            other => {
                lemma_paths_settled_push(rest, other, k);
            },
        }
    }
}

proof fn lemma_stated_keep_path(local: Seq<char>, a: Seq<AttributeView>, k: nat)
    requires
        with_minified_path(local, a, k) == a,
    ensures
        with_minified_path(local, stated_attributes(local, a), k) == stated_attributes(local, a),
{
    assert forall|v: Seq<char>| !is_default(local, "d"@, v) by {
        lemma_path_data_is_no_default(local, v);
    }
    lemma_stated_keep_value(local, a, "d"@);
    lemma_path_stays(local, a, stated_attributes(local, a), k);
}

proof fn lemma_defaults_keep_paths(ns: Seq<NodeView>, k: nat)
    requires
        paths_settled(ns, k),
    ensures
        paths_settled(without_defaults_nodes(ns), k),
    decreases ns,
{
    if ns.len() > 0 {
        lemma_defaults_keep_paths(ns.drop_last(), k);
        let rest = without_defaults_nodes(ns.drop_last());
        match ns.last() {
            NodeView::Element(c) => {
                lemma_defaults_keep_paths(c.children, k);
                lemma_stated_keep_path(c.name.local, c.attributes, k);
                lemma_paths_settled_push(rest, NodeView::Element(without_defaults(c)), k);
            },
            other => {
                lemma_paths_settled_push(rest, other, k);
            },
        }
    }
}

proof fn lemma_styled_keep_path(local: Seq<char>, a: Seq<AttributeView>, k: nat)
    requires
        with_minified_path(local, a, k) == a,
    ensures
        with_minified_path(local, with_minified_style(a), k) == with_minified_style(a),
{
    lemma_path_data_is_no_sign_of_hiding();
    match attr_value(a, "style"@) {
        Some(st) => {
            if minified_style(st).len() == 0 {
                lemma_without_attr_keeps_value(a, "style"@, "d"@);
            } else {
                lemma_set_leaves_others(a, "style"@, minified_style(st), "d"@);
            }
        },
        None => {},
    }
    lemma_path_stays(local, a, with_minified_style(a), k);
}

proof fn lemma_styles_keep_paths(ns: Seq<NodeView>, k: nat)
    requires
        paths_settled(ns, k),
    ensures
        paths_settled(with_minified_styles_nodes(ns), k),
    decreases ns,
{
    if ns.len() > 0 {
        lemma_styles_keep_paths(ns.drop_last(), k);
        let rest = with_minified_styles_nodes(ns.drop_last());
        match ns.last() {
            NodeView::Element(c) => {
                lemma_styles_keep_paths(c.children, k);
                lemma_styled_keep_path(c.name.local, c.attributes, k);
                lemma_paths_settled_push(rest, NodeView::Element(with_minified_styles(c)), k);
            },
            other => {
                lemma_paths_settled_push(rest, other, k);
            },
        }
    }
}

proof fn lemma_blank_keeps_paths(ns: Seq<NodeView>, k: nat)
    requires
        paths_settled(ns, k),
    ensures
        paths_settled(without_blank_text_nodes(ns), k),
    decreases ns,
{
    if ns.len() > 0 {
        lemma_blank_keeps_paths(ns.drop_last(), k);
        let rest = without_blank_text_nodes(ns.drop_last());
        match ns.last() {
            NodeView::Text(t) => {
                lemma_paths_settled_push(rest, NodeView::Text(t), k);
            },
            NodeView::Element(c) => {
                lemma_blank_keeps_paths(c.children, k);
                lemma_paths_settled_push(rest, NodeView::Element(without_blank_text(c)), k);
            },
            other => {
                lemma_paths_settled_push(rest, other, k);
            },
        }
    }
}

/// Where paths are minified, they are minified once and for all: the
/// optimized tree is left as it is by the pass on paths.
pub proof fn lemma_optimized_paths_are_settled(root: ElementView, o: Options)
    requires
        o.minify_paths,
    ensures
        with_minified_paths(optimized(root, o), o.precision as nat) == optimized(root, o),
{
    let k = o.precision as nat;
    let r1 = choice(o.remove_metadata, without_metadata(root), root);
    let r2 = choice(o.remove_unused_namespaces, without_unused_namespaces(r1), r1);
    let r3 = choice(o.remove_comments, without_comments(r2), r2);
    let r4 = choice(o.remove_hidden, without_hidden(r3), r3);
    let r5 = choice(o.remove_empty, without_empty(r4), r4);
    let r6 = choice(o.collapse_groups, collapsed(r5), r5);
    let r7 = with_minified_paths(r6, k);
    lemma_minified_paths_settled(r6.children, k);
    lemma_path_once(r6.name.local, r6.attributes, k);
    let r8 = choice(o.minify_colors, recolored(r7), r7);
    lemma_colors_keep_paths(r7.children, k);
    lemma_recolored_keep_path(r7.name.local, r7.attributes, k);
    let r9 = choice(o.remove_defaults, without_defaults(r8), r8);
    lemma_defaults_keep_paths(r8.children, k);
    lemma_stated_keep_path(r8.name.local, r8.attributes, k);
    let r10 = choice(o.minify_styles, with_minified_styles(r9), r9);
    lemma_styles_keep_paths(r9.children, k);
    lemma_styled_keep_path(r9.name.local, r9.attributes, k);
    let t = without_blank_text(r10);
    lemma_blank_keeps_paths(r10.children, k);
    lemma_paths_settled_stay(t.children, k);
}

/// Whether none of the attributes only serves an editor.
pub open spec fn serves_rendering(attrs: Seq<AttributeView>) -> bool {
    forall|i: int| 0 <= i < attrs.len() ==> !is_metadata_attribute(#[trigger] attrs[i])
}

/// Whether the nodes hold no metadata at any depth: no element that only
/// describes the document, no attribute that only serves an editor.
pub open spec fn metadata_free(ns: Seq<NodeView>) -> bool
    decreases ns,
{
    if ns.len() == 0 {
        true
    } else {
        metadata_free(ns.drop_last()) && match ns.last() {
            NodeView::Element(c) => !is_metadata_name(c.name) && serves_rendering(c.attributes)
                && metadata_free(c.children),
            _ => true,
        }
    }
}

proof fn lemma_metadata_free_push(ns: Seq<NodeView>, n: NodeView)
    ensures
        metadata_free(ns.push(n)) == (metadata_free(ns) && match n {
            NodeView::Element(c) => !is_metadata_name(c.name) && serves_rendering(c.attributes)
                && metadata_free(c.children),
            _ => true,
        }),
{
    assert(ns.push(n).drop_last() == ns);
}

proof fn lemma_metadata_free_add(a: Seq<NodeView>, b: Seq<NodeView>)
    ensures
        metadata_free(a + b) == (metadata_free(a) && metadata_free(b)),
    decreases b.len(),
{
    if b.len() == 0 {
        assert(a + b == a);
    } else {
        assert((a + b).drop_last() == a + b.drop_last());
        lemma_metadata_free_add(a, b.drop_last());
    }
}

proof fn lemma_rendering_stay(attrs: Seq<AttributeView>)
    requires
        serves_rendering(attrs),
    ensures
        rendering_attributes(attrs) == attrs,
    decreases attrs.len(),
{
    if attrs.len() > 0 {
        let front = attrs.drop_last();
        assert forall|i: int| 0 <= i < front.len() implies !is_metadata_attribute(
            #[trigger] front[i],
        ) by {
            assert(front[i] == attrs[i]);
        }
        lemma_rendering_stay(front);
        assert(attrs[attrs.len() - 1] == attrs.last());
        assert(attrs == front.push(attrs.last()));
    }
}

proof fn lemma_rendering_serves(attrs: Seq<AttributeView>)
    ensures
        serves_rendering(rendering_attributes(attrs)),
    decreases attrs.len(),
{
    if attrs.len() > 0 {
        lemma_rendering_serves(attrs.drop_last());
    }
}

proof fn lemma_part_serves(y: Seq<AttributeView>, x: Seq<AttributeView>)
    requires
        serves_rendering(x),
        forall|j: int| 0 <= j < y.len() ==> x.contains(#[trigger] y[j]),
    ensures
        serves_rendering(y),
{
    assert forall|j: int| 0 <= j < y.len() implies !is_metadata_attribute(#[trigger] y[j]) by {
        assert(x.contains(y[j]));
        let i = choose|i: int| 0 <= i < x.len() && x[i] == y[j];
        assert(!is_metadata_attribute(x[i]));
    }
}

proof fn lemma_names_serve(y: Seq<AttributeView>, x: Seq<AttributeView>)
    requires
        serves_rendering(x),
        same_names(y, x),
    ensures
        serves_rendering(y),
{
    assert forall|j: int| 0 <= j < y.len() implies !is_metadata_attribute(#[trigger] y[j]) by {
        assert(y[j].name == x[j].name);
        assert(!is_metadata_attribute(x[j]));
    }
}

proof fn lemma_styled_serve(attrs: Seq<AttributeView>)
    requires
        serves_rendering(attrs),
    ensures
        serves_rendering(with_minified_style(attrs)),
{
    match attr_value(attrs, "style"@) {
        Some(v) => {
            if minified_style(v).len() == 0 {
                lemma_without_attr_subset(attrs, "style"@);
                lemma_part_serves(without_attr(attrs, "style"@), attrs);
            } else {
                lemma_set_keeps_names(attrs, "style"@, minified_style(v));
                lemma_names_serve(with_minified_style(attrs), attrs);
            }
        },
        None => {},
    }
}

proof fn lemma_metadata_free_stay(ns: Seq<NodeView>)
    requires
        metadata_free(ns),
    ensures
        without_metadata_nodes(ns) == ns,
    decreases ns,
{
    if ns.len() > 0 {
        lemma_metadata_free_stay(ns.drop_last());
        match ns.last() {
            NodeView::Element(c) => {
                lemma_metadata_free_stay(c.children);
                lemma_rendering_stay(c.attributes);
                assert(without_metadata(c) == c);
            },
            _ => {},
        }
        assert(ns == ns.drop_last().push(ns.last()));
    }
}

proof fn lemma_without_metadata_free(ns: Seq<NodeView>)
    ensures
        metadata_free(without_metadata_nodes(ns)),
    decreases ns,
{
    if ns.len() > 0 {
        lemma_without_metadata_free(ns.drop_last());
        let rest = without_metadata_nodes(ns.drop_last());
        match ns.last() {
            NodeView::Element(c) => {
                if !is_metadata_name(c.name) {
                    lemma_without_metadata_free(c.children);
                    lemma_rendering_serves(c.attributes);
                    lemma_metadata_free_push(rest, NodeView::Element(without_metadata(c)));
                }
            },
            other => {
                lemma_metadata_free_push(rest, other);
            },
        }
    }
}

proof fn lemma_pruned_keeps_metadata_free(ns: Seq<NodeView>, root: ElementView)
    requires
        metadata_free(ns),
    ensures
        metadata_free(pruned_nodes(ns, root)),
    decreases ns,
{
    if ns.len() > 0 {
        lemma_pruned_keeps_metadata_free(ns.drop_last(), root);
        let rest = pruned_nodes(ns.drop_last(), root);
        match ns.last() {
            NodeView::Element(c) => {
                lemma_pruned_keeps_metadata_free(c.children, root);
                lemma_used_within(c.attributes, root);
                lemma_part_serves(used_declarations(c.attributes, root), c.attributes);
                lemma_metadata_free_push(rest, NodeView::Element(pruned(c, root)));
            },
            other => {
                lemma_metadata_free_push(rest, other);
            },
        }
    }
}

proof fn lemma_comments_keep_metadata_free(ns: Seq<NodeView>)
    requires
        metadata_free(ns),
    ensures
        metadata_free(without_comments_nodes(ns)),
    decreases ns,
{
    if ns.len() > 0 {
        lemma_comments_keep_metadata_free(ns.drop_last());
        let rest = without_comments_nodes(ns.drop_last());
        match ns.last() {
            NodeView::Comment(_) => {},
            NodeView::Element(c) => {
                lemma_comments_keep_metadata_free(c.children);
                lemma_metadata_free_push(rest, NodeView::Element(without_comments(c)));
            },
            other => {
                lemma_metadata_free_push(rest, other);
            },
        }
    }
}

proof fn lemma_hidden_keeps_metadata_free(ns: Seq<NodeView>)
    requires
        metadata_free(ns),
    ensures
        metadata_free(without_hidden_nodes(ns)),
    decreases ns,
{
    if ns.len() > 0 {
        lemma_hidden_keeps_metadata_free(ns.drop_last());
        let rest = without_hidden_nodes(ns.drop_last());
        match ns.last() {
            NodeView::Element(c) => {
                lemma_hidden_keeps_metadata_free(c.children);
                lemma_metadata_free_push(rest, NodeView::Element(without_hidden(c)));
            },
            other => {
                lemma_metadata_free_push(rest, other);
            },
        }
    }
}

proof fn lemma_empty_keeps_metadata_free(ns: Seq<NodeView>)
    requires
        metadata_free(ns),
    ensures
        metadata_free(without_empty_nodes(ns)),
    decreases ns,
{
    if ns.len() > 0 {
        lemma_empty_keeps_metadata_free(ns.drop_last());
        let rest = without_empty_nodes(ns.drop_last());
        match ns.last() {
            NodeView::Element(c) => {
                lemma_empty_keeps_metadata_free(c.children);
                lemma_metadata_free_push(rest, NodeView::Element(without_empty(c)));
            },
            other => {
                lemma_metadata_free_push(rest, other);
            },
        }
    }
}

proof fn lemma_collapse_keeps_metadata_free(ns: Seq<NodeView>)
    requires
        metadata_free(ns),
    ensures
        metadata_free(collapsed_nodes(ns)),
    decreases ns,
{
    if ns.len() > 0 {
        lemma_collapse_keeps_metadata_free(ns.drop_last());
        let rest = collapsed_nodes(ns.drop_last());
        match ns.last() {
            NodeView::Element(c) => {
                lemma_collapse_keeps_metadata_free(c.children);
                lemma_metadata_free_push(rest, NodeView::Element(collapsed(c)));
                lemma_metadata_free_add(rest, collapsed(c).children);
            },
            other => {
                lemma_metadata_free_push(rest, other);
            },
        }
    }
}

proof fn lemma_paths_keep_metadata_free(ns: Seq<NodeView>, k: nat)
    requires
        metadata_free(ns),
    ensures
        metadata_free(with_minified_paths_nodes(ns, k)),
    decreases ns,
{
    if ns.len() > 0 {
        lemma_paths_keep_metadata_free(ns.drop_last(), k);
        let rest = with_minified_paths_nodes(ns.drop_last(), k);
        match ns.last() {
            NodeView::Element(c) => {
                lemma_paths_keep_metadata_free(c.children, k);
                lemma_paths_keep_names(c, k);
                lemma_names_serve(with_minified_path(c.name.local, c.attributes, k), c.attributes);
                lemma_metadata_free_push(rest, NodeView::Element(with_minified_paths(c, k)));
            },
            other => {
                lemma_metadata_free_push(rest, other);
            },
        }
    }
}

proof fn lemma_colors_keep_metadata_free(ns: Seq<NodeView>)
    requires
        metadata_free(ns),
    ensures
        metadata_free(recolored_nodes(ns)),
    decreases ns,
{
    if ns.len() > 0 {
        lemma_colors_keep_metadata_free(ns.drop_last());
        let rest = recolored_nodes(ns.drop_last());
        match ns.last() {
            NodeView::Element(c) => {
                lemma_colors_keep_metadata_free(c.children);
                lemma_colors_keep_names(c.attributes);
                lemma_names_serve(with_recolored_style(recolored_attributes(c.attributes)), c.attributes);
                lemma_metadata_free_push(rest, NodeView::Element(recolored(c)));
            },
            other => {
                lemma_metadata_free_push(rest, other);
            },
        }
    }
}

proof fn lemma_defaults_keep_metadata_free(ns: Seq<NodeView>)
    requires
        metadata_free(ns),
    ensures
        metadata_free(without_defaults_nodes(ns)),
    decreases ns,
{
    if ns.len() > 0 {
        lemma_defaults_keep_metadata_free(ns.drop_last());
        let rest = without_defaults_nodes(ns.drop_last());
        match ns.last() {
            NodeView::Element(c) => {
                lemma_defaults_keep_metadata_free(c.children);
                lemma_stated_within(c.name.local, c.attributes);
                lemma_part_serves(stated_attributes(c.name.local, c.attributes), c.attributes);
                lemma_metadata_free_push(rest, NodeView::Element(without_defaults(c)));
            },
            other => {
                lemma_metadata_free_push(rest, other);
            },
        }
    }
}

proof fn lemma_styles_keep_metadata_free(ns: Seq<NodeView>)
    requires
        metadata_free(ns),
    ensures
        metadata_free(with_minified_styles_nodes(ns)),
    decreases ns,
{
    if ns.len() > 0 {
        lemma_styles_keep_metadata_free(ns.drop_last());
        let rest = with_minified_styles_nodes(ns.drop_last());
        match ns.last() {
            NodeView::Element(c) => {
                lemma_styles_keep_metadata_free(c.children);
                lemma_styled_serve(c.attributes);
                lemma_metadata_free_push(rest, NodeView::Element(with_minified_styles(c)));
            },
            other => {
                lemma_metadata_free_push(rest, other);
            },
        }
    }
}

proof fn lemma_blank_keeps_metadata_free(ns: Seq<NodeView>)
    requires
        metadata_free(ns),
    ensures
        metadata_free(without_blank_text_nodes(ns)),
    decreases ns,
{
    if ns.len() > 0 {
        lemma_blank_keeps_metadata_free(ns.drop_last());
        let rest = without_blank_text_nodes(ns.drop_last());
        match ns.last() {
            NodeView::Text(t) => {
                lemma_metadata_free_push(rest, NodeView::Text(t));
            },
            NodeView::Element(c) => {
                lemma_blank_keeps_metadata_free(c.children);
                lemma_metadata_free_push(rest, NodeView::Element(without_blank_text(c)));
            },
            other => {
                lemma_metadata_free_push(rest, other);
            },
        }
    }
}

/// Where metadata is removed, it is removed once and for all: the
/// optimized tree is left as it is by the pass on metadata.
pub proof fn lemma_optimized_metadata_is_settled(root: ElementView, o: Options)
    requires
        o.remove_metadata,
    ensures
        without_metadata(optimized(root, o)) == optimized(root, o),
{
    let k = o.precision as nat;
    let r1 = without_metadata(root);
    lemma_without_metadata_free(root.children);
    lemma_rendering_serves(root.attributes);
    let r2 = choice(o.remove_unused_namespaces, without_unused_namespaces(r1), r1);
    lemma_pruned_keeps_metadata_free(r1.children, r1);
    lemma_used_within(r1.attributes, r1);
    lemma_part_serves(used_declarations(r1.attributes, r1), r1.attributes);
    let r3 = choice(o.remove_comments, without_comments(r2), r2);
    lemma_comments_keep_metadata_free(r2.children);
    let r4 = choice(o.remove_hidden, without_hidden(r3), r3);
    lemma_hidden_keeps_metadata_free(r3.children);
    let r5 = choice(o.remove_empty, without_empty(r4), r4);
    lemma_empty_keeps_metadata_free(r4.children);
    let r6 = choice(o.collapse_groups, collapsed(r5), r5);
    lemma_collapse_keeps_metadata_free(r5.children);
    let r7 = choice(o.minify_paths, with_minified_paths(r6, k), r6);
    lemma_paths_keep_metadata_free(r6.children, k);
    lemma_paths_keep_names(r6, k);
    lemma_names_serve(with_minified_path(r6.name.local, r6.attributes, k), r6.attributes);
    let r8 = choice(o.minify_colors, recolored(r7), r7);
    lemma_colors_keep_metadata_free(r7.children);
    lemma_colors_keep_names(r7.attributes);
    lemma_names_serve(with_recolored_style(recolored_attributes(r7.attributes)), r7.attributes);
    let r9 = choice(o.remove_defaults, without_defaults(r8), r8);
    lemma_defaults_keep_metadata_free(r8.children);
    lemma_stated_within(r8.name.local, r8.attributes);
    lemma_part_serves(stated_attributes(r8.name.local, r8.attributes), r8.attributes);
    let r10 = choice(o.minify_styles, with_minified_styles(r9), r9);
    lemma_styles_keep_metadata_free(r9.children);
    lemma_styled_serve(r9.attributes);
    let t = without_blank_text(r10);
    lemma_blank_keeps_metadata_free(r10.children);
    lemma_metadata_free_stay(t.children);
    lemma_rendering_stay(t.attributes);
}

/// What the optimizer settles by itself. The optimized tree is left as
/// it is by the pass on whitespace-only text; by the passes on metadata,
/// comments, paths and defaults, where they are turned on; where the
/// elements below the root are plain, by the pass on hidden elements; and,
/// where no pass has removed the last use of a prefix, by the pass on
/// namespace declarations. For a tree to be settled it is left to ask the
/// same of the passes on empty containers, groups, colors and styles.
pub proof fn lemma_optimized_is_partly_settled(r: ElementView, o: Options)
    ensures
        without_blank_text(optimized(r, o)) == optimized(r, o),
        o.remove_metadata ==> without_metadata(optimized(r, o)) == optimized(r, o),
        o.remove_comments ==> without_comments(optimized(r, o)) == optimized(r, o),
        o.minify_paths ==> with_minified_paths(optimized(r, o), o.precision as nat) == optimized(
            r,
            o,
        ),
        o.remove_defaults ==> without_defaults(optimized(r, o)) == optimized(r, o),
        o.remove_hidden && plain_nodes(r.children, o) ==> without_hidden(optimized(r, o))
            == optimized(r, o),
        o.remove_unused_namespaces && (forall|p: Seq<char>|
            prefixes(judged(r, o)).contains(p) ==> prefixes(optimized(r, o)).contains(p))
            ==> without_unused_namespaces(optimized(r, o)) == optimized(r, o),
{
    let t = optimized(r, o);
    lemma_optimized_in_steps(r, o);
    lemma_blank_text_once(rewritten(arranged(r, o), o).children);
    if o.remove_metadata {
        lemma_optimized_metadata_is_settled(r, o);
    }
    if o.minify_paths {
        lemma_optimized_paths_are_settled(r, o);
    }
    if o.remove_comments {
        lemma_optimized_has_no_comments(r, o);
        lemma_comment_free_stays(t.children);
    }
    if o.remove_defaults {
        lemma_optimized_states_no_default(r, o);
        lemma_default_free_stays(t.children);
        lemma_stated_stay(t.name.local, t.attributes);
    }
    if o.remove_hidden && plain_nodes(r.children, o) {
        lemma_plain_tree_hides_nothing(r, o);
        lemma_shown_stay(t.children);
    }
    if o.remove_unused_namespaces && (forall|p: Seq<char>|
        prefixes(judged(r, o)).contains(p) ==> prefixes(t).contains(p)) {
        lemma_optimized_declares_what_it_uses(r, o);
        lemma_used_only_is_settled(t);
    }
}

/// Optimizing a tree that no single pass changes gives the tree back.
pub proof fn lemma_settled_is_unchanged(r: ElementView, o: Options)
    requires
        settled(r, o),
    ensures
        optimized(r, o) == r,
{
}

/// Optimizing twice gives what optimizing once gives, on every tree that
/// the optimizer settles: one for which no single pass changes the
/// optimized tree again. A tree is not settled where a late pass makes
/// room for an early one, as where a group has only an attribute that
/// states a default: the attribute goes after the groups have been
/// looked at, and the bare group only on the next run.
pub proof fn lemma_optimized_is_stable(r: ElementView, o: Options)
    requires
        settled(optimized(r, o), o),
    ensures
        optimized(optimized(r, o), o) == optimized(r, o),
{
    lemma_settled_is_unchanged(optimized(r, o), o);
}

/// Whether the passes on empty containers, groups, colors and styles,
/// where the options turn them on, leave the tree as it is: it holds no
/// container left empty, no group left bare, and no color or style that
/// can be written shorter.
pub open spec fn tidy(t: ElementView, o: Options) -> bool {
    &&& o.remove_empty ==> without_empty(t) == t
    &&& o.collapse_groups ==> collapsed(t) == t
    &&& o.minify_colors ==> recolored(t) == t
    &&& o.minify_styles ==> with_minified_styles(t) == t
}

/// Optimizing twice gives what optimizing once gives, on every tree whose
/// elements below the root are plain, of which no pass removes the last
/// use of a prefix, and whose optimized tree is tidy. Of the other passes
/// nothing is asked: what they have done once, they find done.
pub proof fn lemma_optimizing_twice(r: ElementView, o: Options)
    requires
        o.remove_hidden ==> plain_nodes(r.children, o),
        o.remove_unused_namespaces ==> forall|p: Seq<char>|
            prefixes(judged(r, o)).contains(p) ==> prefixes(optimized(r, o)).contains(p),
        tidy(optimized(r, o), o),
    ensures
        optimized(optimized(r, o), o) == optimized(r, o),
{
    lemma_optimized_is_partly_settled(r, o);
    lemma_settled_is_unchanged(optimized(r, o), o);
}

} // verus!
