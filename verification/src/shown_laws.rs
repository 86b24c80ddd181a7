//! What holds of hidden elements: where they are removed, none is left
//! below the root.

use vstd::prelude::*;

use crate::ast::{attr_index, attr_value, lemma_attr_index, AttributeView, ElementView, NodeView};
use crate::laws::{
    lemma_attr_index_other, lemma_blank_shows, lemma_collapse_shows, lemma_empty_shows,
    lemma_path_data_is_no_sign_of_hiding, lemma_paths_show, lemma_set_leaves_others,
    lemma_shows_all_push, lemma_without_attr_names, lemma_without_attr_subset,
    lemma_without_hidden, shows_all, shows_all_below,
};
use crate::namespace_laws::lemma_paths_keep_names;
use crate::optimize::{
    choice, collapsed, collapsed_nodes, hidden, is_metadata_name, optimized, pruned, pruned_nodes,
    recolored, recolored_attributes, recolored_nodes, rendering_attributes, stated_attributes,
    used_declarations, with_minified_paths, with_minified_paths_nodes, with_minified_style,
    with_minified_styles, with_minified_styles_nodes, with_recolored_style, without_blank_text,
    without_comments, without_comments_nodes, without_defaults, without_defaults_nodes,
    without_empty, without_empty_nodes, without_hidden, without_hidden_nodes, without_metadata,
    without_metadata_nodes, without_unused_namespaces,
};
use crate::options::Options;
use crate::style::{is_color_name, minified_style, recolored_style};
use crate::text::has_substring;

verus! {

/// The tree once the passes that remove or move nodes, and the pass on
/// paths, have run: what the optimizer has before it rewrites colors,
/// defaults and styles.
pub open spec fn arranged(root: ElementView, o: Options) -> ElementView {
    let r1 = choice(o.remove_metadata, crate::optimize::without_metadata(root), root);
    let r2 = choice(o.remove_unused_namespaces, without_unused_namespaces(r1), r1);
    let r3 = choice(o.remove_comments, without_comments(r2), r2);
    let r4 = choice(o.remove_hidden, without_hidden(r3), r3);
    let r5 = choice(o.remove_empty, without_empty(r4), r4);
    let r6 = choice(o.collapse_groups, collapsed(r5), r5);
    choice(o.minify_paths, with_minified_paths(r6, o.precision as nat), r6)
}

/// The element once the passes on colors, defaults and styles that the
/// options turn on have rewritten its attributes and those below it.
pub open spec fn rewritten(e: ElementView, o: Options) -> ElementView {
    let r8 = choice(o.minify_colors, recolored(e), e);
    let r9 = choice(o.remove_defaults, without_defaults(r8), r8);
    choice(o.minify_styles, with_minified_styles(r9), r9)
}

/// A node with the attributes in it rewritten.
pub open spec fn rewritten_node(n: NodeView, o: Options) -> NodeView {
    match n {
        NodeView::Element(c) => NodeView::Element(rewritten(c, o)),
        other => other,
    }
}

/// The nodes once the passes on colors, defaults and styles that the
/// options turn on have rewritten the attributes in them.
pub open spec fn rewritten_nodes(ns: Seq<NodeView>, o: Options) -> Seq<NodeView> {
    let a = if o.minify_colors {
        recolored_nodes(ns)
    } else {
        ns
    };
    let b = if o.remove_defaults {
        without_defaults_nodes(a)
    } else {
        a
    };
    if o.minify_styles {
        with_minified_styles_nodes(b)
    } else {
        b
    }
}

/// Whether rewriting attributes hides no element among the nodes, at any
/// depth: an element that is hidden afterwards was hidden before. It
/// fails where a value only shows once another has gone: a second
/// attribute of the same name behind one that states a default, or a
/// style that holds `display:none` only after it has been minified.
pub open spec fn keeps_shown(ns: Seq<NodeView>, o: Options) -> bool
    decreases ns,
{
    if ns.len() == 0 {
        true
    } else {
        keeps_shown(ns.drop_last(), o) && match ns.last() {
            NodeView::Element(c) => (hidden(rewritten(c, o)) ==> hidden(c)) && keeps_shown(
                c.children,
                o,
            ),
            _ => true,
        }
    }
}

/// The optimizer arranges the tree, rewrites its attributes, and drops
/// whitespace-only text.
pub proof fn lemma_optimized_in_steps(root: ElementView, o: Options)
    ensures
        optimized(root, o) == without_blank_text(rewritten(arranged(root, o), o)),
{
}

proof fn lemma_rewritten_step(ns: Seq<NodeView>, o: Options)
    requires
        ns.len() > 0,
    ensures
        rewritten_nodes(ns, o) == rewritten_nodes(ns.drop_last(), o).push(
            rewritten_node(ns.last(), o),
        ),
{
    let front = ns.drop_last();
    let a = recolored_nodes(ns);
    assert(a.drop_last() == recolored_nodes(front)) by {
        match ns.last() {
            NodeView::Element(c) => {
                assert(recolored_nodes(front).push(NodeView::Element(recolored(c))).drop_last()
                    == recolored_nodes(front));
            },
            other => {
                assert(recolored_nodes(front).push(other).drop_last() == recolored_nodes(front));
            },
        }
    }
    let a = if o.minify_colors {
        recolored_nodes(ns)
    } else {
        ns
    };
    let a0 = if o.minify_colors {
        recolored_nodes(front)
    } else {
        front
    };
    assert(a.len() > 0 && a.drop_last() == a0);
    let b0 = if o.remove_defaults {
        without_defaults_nodes(a0)
    } else {
        a0
    };
    let b = if o.remove_defaults {
        without_defaults_nodes(a)
    } else {
        a
    };
    assert(b.len() > 0 && b.drop_last() == b0) by {
        match a.last() {
            NodeView::Element(c) => {
                assert(without_defaults_nodes(a0).push(
                    NodeView::Element(without_defaults(c)),
                ).drop_last() == without_defaults_nodes(a0));
            },
            other => {
                assert(without_defaults_nodes(a0).push(other).drop_last()
                    == without_defaults_nodes(a0));
            },
        }
    }
}

proof fn lemma_rewritten_shows(ns: Seq<NodeView>, o: Options)
    requires
        shows_all(ns),
        keeps_shown(ns, o),
    ensures
        shows_all(rewritten_nodes(ns, o)),
    decreases ns,
{
    if ns.len() > 0 {
        lemma_rewritten_shows(ns.drop_last(), o);
        lemma_rewritten_step(ns, o);
        let rest = rewritten_nodes(ns.drop_last(), o);
        lemma_shows_all_push(rest, rewritten_node(ns.last(), o));
        match ns.last() {
            NodeView::Element(c) => {
                assert(shows_all_below(c));
                lemma_rewritten_shows(c.children, o);
                assert(rewritten(c, o).children == rewritten_nodes(c.children, o));
            },
            _ => {},
        }
    }
}

/// Where hidden elements are removed, no element below the root of the
/// optimized tree is hidden, whatever else the options turn on: on every
/// tree in which, once it has been arranged, rewriting the attributes of
/// an element does not hide it.
pub proof fn lemma_optimized_hides_nothing(root: ElementView, o: Options)
    requires
        o.remove_hidden,
        keeps_shown(arranged(root, o).children, o),
    ensures
        shows_all_below(optimized(root, o)),
{
    let r1 = choice(o.remove_metadata, crate::optimize::without_metadata(root), root);
    let r2 = choice(o.remove_unused_namespaces, without_unused_namespaces(r1), r1);
    let r3 = choice(o.remove_comments, without_comments(r2), r2);
    let r4 = without_hidden(r3);
    lemma_without_hidden(r3);
    let r5 = choice(o.remove_empty, without_empty(r4), r4);
    lemma_empty_shows(r4);
    let r6 = choice(o.collapse_groups, collapsed(r5), r5);
    lemma_collapse_shows(r5);
    let r7 = choice(o.minify_paths, with_minified_paths(r6, o.precision as nat), r6);
    lemma_paths_show(r6, o.precision as nat);
    assert(r7 == arranged(root, o));
    lemma_rewritten_shows(r7.children, o);
    let r10 = rewritten(r7, o);
    assert(r10.children == rewritten_nodes(r7.children, o));
    lemma_blank_shows(r10);
}

/// Whether no two of the attributes have the same local name.
pub open spec fn single_names(attrs: Seq<AttributeView>) -> bool {
    forall|i: int, j: int|
        0 <= i < j < attrs.len() ==> (#[trigger] attrs[i]).name.local != (
        #[trigger] attrs[j]).name.local
}

/// Whether a style says that the element is not displayed.
pub open spec fn style_hides(s: Seq<char>) -> bool {
    has_substring(s, "display:none"@) || has_substring(s, "display: none"@)
}

/// A style as the passes on colors and styles that the options turn on
/// leave it.
pub open spec fn rewritten_style(s: Seq<char>, o: Options) -> Seq<char> {
    let a = if o.minify_colors {
        recolored_style(s)
    } else {
        s
    };
    if o.minify_styles {
        minified_style(a)
    } else {
        a
    }
}

/// Whether an element is plain: no two of its attributes have the same
/// local name, and its style, if it has one, does not come to hold
/// `display:none` by being rewritten.
pub open spec fn plain(c: ElementView, o: Options) -> bool {
    single_names(c.attributes) && match attr_value(c.attributes, "style"@) {
        Some(s) => style_hides(rewritten_style(s, o)) ==> style_hides(s),
        None => true,
    }
}

/// Whether every element among the nodes, at any depth, is plain.
pub open spec fn plain_nodes(ns: Seq<NodeView>, o: Options) -> bool
    decreases ns,
{
    if ns.len() == 0 {
        true
    } else {
        plain_nodes(ns.drop_last(), o) && match ns.last() {
            NodeView::Element(c) => plain(c, o) && plain_nodes(c.children, o),
            _ => true,
        }
    }
}

/// Whether the attribute `b` is what rewriting has made of the attribute
/// `a`: it has the name of `a`, and the value `style` where that name is
/// `style`, else the value of `a` unless `a` holds a color.
pub open spec fn stems(b: AttributeView, a: AttributeView, style: Seq<char>) -> bool {
    b.name == a.name && if a.name.local == "style"@ {
        b.value == style
    } else {
        b.value == a.value || is_color_name(a.name.local)
    }
}

/// Whether `b` stems from one of the attributes `x`.
pub open spec fn stems_from(b: AttributeView, x: Seq<AttributeView>, style: Seq<char>) -> bool {
    exists|i: int| 0 <= i < x.len() && #[trigger] stems(b, x[i], style)
}

/// Whether each of the attributes `y` stems from one of the attributes `x`.
pub open spec fn drawn_from(y: Seq<AttributeView>, x: Seq<AttributeView>, style: Seq<char>) -> bool {
    forall|j: int| 0 <= j < y.len() ==> stems_from(#[trigger] y[j], x, style)
}

proof fn lemma_signs_of_hiding()
    ensures
        "display"@ != "style"@,
        "visibility"@ != "style"@,
        "opacity"@ != "style"@,
        !is_color_name("display"@),
        !is_color_name("visibility"@),
        !is_color_name("opacity"@),
        !is_color_name("style"@),
{
    reveal_strlit("display");
    reveal_strlit("visibility");
    reveal_strlit("opacity");
    reveal_strlit("style");
    reveal_strlit("fill");
    reveal_strlit("stroke");
    reveal_strlit("stop-color");
    reveal_strlit("flood-color");
    reveal_strlit("lighting-color");
    reveal_strlit("color");
    assert("display"@[0] == 'd');
    assert("visibility"@[0] == 'v');
    assert("opacity"@[0] == 'o');
    assert("style"@[1] == 't');
    assert("fill"@[0] == 'f');
    assert("stroke"@[2] == 'r');
    assert("stop-color"@[2] == 'o');
    assert("flood-color"@[0] == 'f');
    assert("lighting-color"@[0] == 'l');
    assert("color"@[0] == 'c');
}

/// Among attributes with single names, the value of a name is the value
/// of any attribute that has the name.
proof fn lemma_single_value(x: Seq<AttributeView>, i: int)
    requires
        single_names(x),
        0 <= i < x.len(),
    ensures
        attr_index(x, x[i].name.local, 0) == i,
        attr_value(x, x[i].name.local) == Some(x[i].value),
{
    lemma_attr_index(x, x[i].name.local, 0);
    let at = attr_index(x, x[i].name.local, 0);
    if at < i {
        assert(x[at].name.local != x[i].name.local);
    }
}

/// Where no attribute has the name, no attribute has the name.
proof fn lemma_absent(x: Seq<AttributeView>, name: Seq<char>, j: int)
    requires
        attr_value(x, name) is None,
        0 <= j < x.len(),
    ensures
        x[j].name.local != name,
{
    lemma_attr_index(x, name, 0);
}

/// What the value of a name is among attributes drawn from attributes
/// with single names: for a sign of hiding other than the style, the value
/// it had; for the style, the style that they were drawn with.
proof fn lemma_drawn_value(
    y: Seq<AttributeView>,
    x: Seq<AttributeView>,
    style: Seq<char>,
    name: Seq<char>,
)
    requires
        single_names(x),
        drawn_from(y, x, style),
        attr_value(y, name) is Some,
        !is_color_name(name),
    ensures
        attr_value(x, name) is Some,
        name != "style"@ ==> attr_value(x, name) == attr_value(y, name),
        name == "style"@ ==> attr_value(y, name) == Some(style),
{
    lemma_attr_index(y, name, 0);
    let j = attr_index(y, name, 0);
    assert(stems_from(y[j], x, style));
    let i = choose|i: int| 0 <= i < x.len() && #[trigger] stems(y[j], x[i], style);
    lemma_single_value(x, i);
}

proof fn lemma_drawn_from_self(x: Seq<AttributeView>, style: Seq<char>)
    requires
        single_names(x),
        attr_value(x, "style"@) is Some ==> attr_value(x, "style"@) == Some(style),
    ensures
        drawn_from(x, x, style),
{
    assert forall|j: int| 0 <= j < x.len() implies stems_from(#[trigger] x[j], x, style) by {
        lemma_single_value(x, j);
        assert(stems(x[j], x[j], style));
    }
}

proof fn lemma_recolored_drawn(x: Seq<AttributeView>, style: Seq<char>)
    requires
        single_names(x),
        attr_value(x, "style"@) is Some ==> attr_value(x, "style"@) == Some(style),
    ensures
        drawn_from(with_recolored_style(recolored_attributes(x)), x, recolored_style(style)),
        single_names(with_recolored_style(recolored_attributes(x))),
{
    let ra = recolored_attributes(x);
    let a = with_recolored_style(ra);
    lemma_signs_of_hiding();
    lemma_attr_index_other(x, ra, "style"@, 0);
    lemma_attr_index(x, "style"@, 0);
    let at = attr_index(x, "style"@, 0);
    assert(a.len() == x.len());
    assert forall|j: int| 0 <= j < a.len() implies (#[trigger] a[j]).name == x[j].name && stems(
        a[j],
        x[j],
        recolored_style(style),
    ) by {
        lemma_single_value(x, j);
    }
    assert forall|j: int| 0 <= j < a.len() implies stems_from(
        #[trigger] a[j],
        x,
        recolored_style(style),
    ) by {
        assert(stems(a[j], x[j], recolored_style(style)));
    }
    assert forall|i: int, j: int| 0 <= i < j < a.len() implies (#[trigger] a[i]).name.local != (
    #[trigger] a[j]).name.local by {
        assert(a[i].name == x[i].name);
        assert(a[j].name == x[j].name);
    }
}

pub(crate) proof fn lemma_stated_within(local: Seq<char>, a: Seq<AttributeView>)
    ensures
        forall|j: int|
            0 <= j < stated_attributes(local, a).len() ==> a.contains(
                #[trigger] stated_attributes(local, a)[j],
            ),
        single_names(a) ==> single_names(stated_attributes(local, a)),
    decreases a.len(),
{
    if a.len() > 0 {
        let front = a.drop_last();
        let rest = stated_attributes(local, front);
        let r = stated_attributes(local, a);
        lemma_stated_within(local, front);
        lemma_grown_within(a, rest, r);
    }
}

proof fn lemma_part_is_drawn(
    b: Seq<AttributeView>,
    a: Seq<AttributeView>,
    x: Seq<AttributeView>,
    style: Seq<char>,
)
    requires
        drawn_from(a, x, style),
        forall|j: int| 0 <= j < b.len() ==> a.contains(#[trigger] b[j]),
    ensures
        drawn_from(b, x, style),
{
    assert forall|j: int| 0 <= j < b.len() implies stems_from(#[trigger] b[j], x, style) by {
        assert(a.contains(b[j]));
        let i = choose|i: int| 0 <= i < a.len() && a[i] == b[j];
        assert(stems_from(a[i], x, style));
    }
}

/// Attributes none of which is named `style` are drawn as well with one
/// style as with another.
proof fn lemma_drawn_without_style(
    b: Seq<AttributeView>,
    x: Seq<AttributeView>,
    from: Seq<char>,
    to: Seq<char>,
)
    requires
        drawn_from(b, x, from),
        forall|j: int| 0 <= j < b.len() ==> (#[trigger] b[j]).name.local != "style"@,
    ensures
        drawn_from(b, x, to),
{
    assert forall|j: int| 0 <= j < b.len() implies stems_from(#[trigger] b[j], x, to) by {
        assert(stems_from(b[j], x, from));
        let i = choose|i: int| 0 <= i < x.len() && #[trigger] stems(b[j], x[i], from);
        assert(stems(b[j], x[i], to));
    }
}

proof fn lemma_styled_drawn(b: Seq<AttributeView>, x: Seq<AttributeView>, style: Seq<char>)
    requires
        single_names(x),
        single_names(b),
        drawn_from(b, x, style),
    ensures
        drawn_from(with_minified_style(b), x, minified_style(style)),
{
    let c = with_minified_style(b);
    let to = minified_style(style);
    lemma_signs_of_hiding();
    match attr_value(b, "style"@) {
        None => {
            assert forall|j: int| 0 <= j < b.len() implies (#[trigger] b[j]).name.local
                != "style"@ by {
                lemma_absent(b, "style"@, j);
            }
            lemma_drawn_without_style(b, x, style, to);
        },
        Some(v) => {
            lemma_drawn_value(b, x, style, "style"@);
            lemma_attr_index(b, "style"@, 0);
            let at = attr_index(b, "style"@, 0);
            if minified_style(v).len() == 0 {
                lemma_without_attr_subset(b, "style"@);
                lemma_without_attr_names(b, "style"@);
                lemma_part_is_drawn(c, b, x, style);
                lemma_drawn_without_style(c, x, style, to);
            } else {
                assert forall|j: int| 0 <= j < c.len() implies stems_from(#[trigger] c[j], x, to) by {
                    assert(stems_from(b[j], x, style));
                    let i = choose|i: int| 0 <= i < x.len() && #[trigger] stems(b[j], x[i], style);
                    if j == at {
                        assert(stems(c[j], x[i], to));
                    } else {
                        lemma_single_value(b, j);
                        assert(c[j] == b[j]);
                        assert(stems(c[j], x[i], to));
                    }
                }
            }
        },
    }
}

/// A plain element that is hidden once its attributes have been
/// rewritten was hidden before.
pub proof fn lemma_plain_stays_shown(c: ElementView, o: Options)
    requires
        plain(c, o),
    ensures
        hidden(rewritten(c, o)) ==> hidden(c),
{
    let x = c.attributes;
    let s0 = match attr_value(x, "style"@) {
        Some(s) => s,
        None => Seq::empty(),
    };
    lemma_signs_of_hiding();
    lemma_drawn_from_self(x, s0);
    let a = if o.minify_colors {
        with_recolored_style(recolored_attributes(x))
    } else {
        x
    };
    let sa = if o.minify_colors {
        recolored_style(s0)
    } else {
        s0
    };
    if o.minify_colors {
        lemma_recolored_drawn(x, s0);
    }
    assert(drawn_from(a, x, sa) && single_names(a));
    let b = if o.remove_defaults {
        stated_attributes(c.name.local, a)
    } else {
        a
    };
    if o.remove_defaults {
        lemma_stated_within(c.name.local, a);
        lemma_part_is_drawn(b, a, x, sa);
    }
    assert(drawn_from(b, x, sa) && single_names(b));
    let y = if o.minify_styles {
        with_minified_style(b)
    } else {
        b
    };
    let sy = rewritten_style(s0, o);
    if o.minify_styles {
        lemma_styled_drawn(b, x, sa);
    }
    assert(drawn_from(y, x, sy));
    assert(rewritten(c, o).attributes == y);
    if hidden(rewritten(c, o)) {
        if attr_value(y, "display"@) is Some {
            lemma_drawn_value(y, x, sy, "display"@);
        }
        if attr_value(y, "visibility"@) is Some {
            lemma_drawn_value(y, x, sy, "visibility"@);
        }
        if attr_value(y, "opacity"@) is Some {
            lemma_drawn_value(y, x, sy, "opacity"@);
        }
        if attr_value(y, "style"@) is Some {
            lemma_drawn_value(y, x, sy, "style"@);
        }
    }
}

/// Rewriting attributes hides no element of a tree of plain elements.
pub proof fn lemma_plain_keeps_shown(ns: Seq<NodeView>, o: Options)
    requires
        plain_nodes(ns, o),
    ensures
        keeps_shown(ns, o),
    decreases ns,
{
    if ns.len() > 0 {
        lemma_plain_keeps_shown(ns.drop_last(), o);
        match ns.last() {
            NodeView::Element(c) => {
                lemma_plain_stays_shown(c, o);
                lemma_plain_keeps_shown(c.children, o);
            },
            _ => {},
        }
    }
}

proof fn lemma_plain_push(ns: Seq<NodeView>, n: NodeView, o: Options)
    ensures
        plain_nodes(ns.push(n), o) == (plain_nodes(ns, o) && match n {
            NodeView::Element(c) => plain(c, o) && plain_nodes(c.children, o),
            _ => true,
        }),
{
    assert(ns.push(n).drop_last() == ns);
}

proof fn lemma_plain_add(a: Seq<NodeView>, b: Seq<NodeView>, o: Options)
    ensures
        plain_nodes(a + b, o) == (plain_nodes(a, o) && plain_nodes(b, o)),
    decreases b.len(),
{
    if b.len() == 0 {
        assert(a + b == a);
    } else {
        assert((a + b).drop_last() == a + b.drop_last());
        lemma_plain_add(a, b.drop_last(), o);
    }
}

/// Some of the attributes of a plain element, each once, are the
/// attributes of a plain element.
proof fn lemma_part_is_plain(y: ElementView, x: ElementView, o: Options)
    requires
        plain(x, o),
        single_names(y.attributes),
        forall|j: int| 0 <= j < y.attributes.len() ==> x.attributes.contains(#[trigger] y.attributes[j]),
    ensures
        plain(y, o),
{
    if attr_value(y.attributes, "style"@) is Some {
        lemma_attr_index(y.attributes, "style"@, 0);
        let j = attr_index(y.attributes, "style"@, 0);
        assert(x.attributes.contains(y.attributes[j]));
        let i = choose|i: int| 0 <= i < x.attributes.len() && x.attributes[i] == y.attributes[j];
        lemma_single_value(x.attributes, i);
    }
}

proof fn lemma_rendering_within(a: Seq<AttributeView>)
    ensures
        forall|j: int|
            0 <= j < rendering_attributes(a).len() ==> a.contains(
                #[trigger] rendering_attributes(a)[j],
            ),
        single_names(a) ==> single_names(rendering_attributes(a)),
    decreases a.len(),
{
    if a.len() > 0 {
        let front = a.drop_last();
        let rest = rendering_attributes(front);
        let r = rendering_attributes(a);
        lemma_rendering_within(front);
        lemma_grown_within(a, rest, r);
    }
}

pub(crate) proof fn lemma_used_within(a: Seq<AttributeView>, root: ElementView)
    ensures
        forall|j: int|
            0 <= j < used_declarations(a, root).len() ==> a.contains(
                #[trigger] used_declarations(a, root)[j],
            ),
        single_names(a) ==> single_names(used_declarations(a, root)),
    decreases a.len(),
{
    if a.len() > 0 {
        let front = a.drop_last();
        let rest = used_declarations(front, root);
        let r = used_declarations(a, root);
        lemma_used_within(front, root);
        lemma_grown_within(a, rest, r);
    }
}

/// A part of all attributes but the last, with or without the last, is a
/// part of all of them, and has single names where they have.
proof fn lemma_grown_within(a: Seq<AttributeView>, rest: Seq<AttributeView>, r: Seq<AttributeView>)
    requires
        a.len() > 0,
        forall|j: int| 0 <= j < rest.len() ==> a.drop_last().contains(#[trigger] rest[j]),
        single_names(a.drop_last()) ==> single_names(rest),
        r == rest || r == rest.push(a.last()),
    ensures
        forall|j: int| 0 <= j < r.len() ==> a.contains(#[trigger] r[j]),
        single_names(a) ==> single_names(r),
{
    let front = a.drop_last();
    assert forall|j: int| 0 <= j < r.len() implies a.contains(#[trigger] r[j]) by {
        if j < rest.len() {
            assert(front.contains(rest[j]));
            let i = choose|i: int| 0 <= i < front.len() && front[i] == rest[j];
            assert(a[i] == rest[j]);
        } else {
            assert(a[a.len() - 1] == a.last());
        }
    }
    if single_names(a) {
        assert(single_names(front)) by {
            assert forall|i: int, j: int| 0 <= i < j < front.len() implies (
            #[trigger] front[i]).name.local != (#[trigger] front[j]).name.local by {
                assert(front[i] == a[i]);
                assert(front[j] == a[j]);
            }
        }
        assert forall|i: int, j: int| 0 <= i < j < r.len() implies (#[trigger] r[i]).name.local != (
        #[trigger] r[j]).name.local by {
            if j == rest.len() {
                assert(front.contains(rest[i]));
                let q = choose|q: int| 0 <= q < front.len() && front[q] == rest[i];
                assert(a[q] == rest[i]);
                assert(a[a.len() - 1] == r[j]);
            } else {
                assert(r[i] == rest[i]);
                assert(r[j] == rest[j]);
            }
        }
    }
}

proof fn lemma_metadata_plain(ns: Seq<NodeView>, o: Options)
    requires
        plain_nodes(ns, o),
    ensures
        plain_nodes(without_metadata_nodes(ns), o),
    decreases ns,
{
    if ns.len() > 0 {
        lemma_metadata_plain(ns.drop_last(), o);
        let rest = without_metadata_nodes(ns.drop_last());
        match ns.last() {
            NodeView::Element(c) => {
                if !is_metadata_name(c.name) {
                    lemma_metadata_plain(c.children, o);
                    lemma_rendering_within(c.attributes);
                    lemma_part_is_plain(without_metadata(c), c, o);
                    lemma_plain_push(rest, NodeView::Element(without_metadata(c)), o);
                }
            },
            other => {
                lemma_plain_push(rest, other, o);
            },
        }
    }
}

proof fn lemma_pruned_plain(ns: Seq<NodeView>, root: ElementView, o: Options)
    requires
        plain_nodes(ns, o),
    ensures
        plain_nodes(pruned_nodes(ns, root), o),
    decreases ns,
{
    if ns.len() > 0 {
        lemma_pruned_plain(ns.drop_last(), root, o);
        let rest = pruned_nodes(ns.drop_last(), root);
        match ns.last() {
            NodeView::Element(c) => {
                lemma_pruned_plain(c.children, root, o);
                lemma_used_within(c.attributes, root);
                lemma_part_is_plain(pruned(c, root), c, o);
                lemma_plain_push(rest, NodeView::Element(pruned(c, root)), o);
            },
            other => {
                lemma_plain_push(rest, other, o);
            },
        }
    }
}

proof fn lemma_comments_plain(ns: Seq<NodeView>, o: Options)
    requires
        plain_nodes(ns, o),
    ensures
        plain_nodes(without_comments_nodes(ns), o),
    decreases ns,
{
    if ns.len() > 0 {
        lemma_comments_plain(ns.drop_last(), o);
        let rest = without_comments_nodes(ns.drop_last());
        match ns.last() {
            NodeView::Comment(_) => {},
            NodeView::Element(c) => {
                lemma_comments_plain(c.children, o);
                lemma_plain_push(rest, NodeView::Element(without_comments(c)), o);
            },
            other => {
                lemma_plain_push(rest, other, o);
            },
        }
    }
}

proof fn lemma_hidden_plain(ns: Seq<NodeView>, o: Options)
    requires
        plain_nodes(ns, o),
    ensures
        plain_nodes(without_hidden_nodes(ns), o),
    decreases ns,
{
    if ns.len() > 0 {
        lemma_hidden_plain(ns.drop_last(), o);
        let rest = without_hidden_nodes(ns.drop_last());
        match ns.last() {
            NodeView::Element(c) => {
                if !hidden(c) {
                    lemma_hidden_plain(c.children, o);
                    lemma_plain_push(rest, NodeView::Element(without_hidden(c)), o);
                }
            },
            other => {
                lemma_plain_push(rest, other, o);
            },
        }
    }
}

proof fn lemma_empty_plain(ns: Seq<NodeView>, o: Options)
    requires
        plain_nodes(ns, o),
    ensures
        plain_nodes(without_empty_nodes(ns), o),
    decreases ns,
{
    if ns.len() > 0 {
        lemma_empty_plain(ns.drop_last(), o);
        let rest = without_empty_nodes(ns.drop_last());
        match ns.last() {
            NodeView::Element(c) => {
                lemma_empty_plain(c.children, o);
                lemma_plain_push(rest, NodeView::Element(without_empty(c)), o);
            },
            other => {
                lemma_plain_push(rest, other, o);
            },
        }
    }
}

proof fn lemma_collapse_plain(ns: Seq<NodeView>, o: Options)
    requires
        plain_nodes(ns, o),
    ensures
        plain_nodes(collapsed_nodes(ns), o),
    decreases ns,
{
    if ns.len() > 0 {
        lemma_collapse_plain(ns.drop_last(), o);
        let rest = collapsed_nodes(ns.drop_last());
        match ns.last() {
            NodeView::Element(c) => {
                lemma_collapse_plain(c.children, o);
                lemma_plain_push(rest, NodeView::Element(collapsed(c)), o);
                lemma_plain_add(rest, collapsed(c).children, o);
            },
            other => {
                lemma_plain_push(rest, other, o);
            },
        }
    }
}

proof fn lemma_paths_plain(ns: Seq<NodeView>, k: nat, o: Options)
    requires
        plain_nodes(ns, o),
    ensures
        plain_nodes(with_minified_paths_nodes(ns, k), o),
    decreases ns,
{
    if ns.len() > 0 {
        lemma_paths_plain(ns.drop_last(), k, o);
        let rest = with_minified_paths_nodes(ns.drop_last(), k);
        match ns.last() {
            NodeView::Element(c) => {
                lemma_paths_plain(c.children, k, o);
                let r = with_minified_paths(c, k);
                lemma_paths_keep_names(c, k);
                lemma_path_data_is_no_sign_of_hiding();
                if r.attributes != c.attributes {
                    let d = attr_value(c.attributes, "d"@).unwrap();
                    let v = crate::path::serialized(crate::path::parsed(d).unwrap(), k);
                    lemma_set_leaves_others(c.attributes, "d"@, v, "style"@);
                }
                assert(single_names(r.attributes)) by {
                    assert forall|i: int, j: int| 0 <= i < j < r.attributes.len() implies (
                    #[trigger] r.attributes[i]).name.local != (
                    #[trigger] r.attributes[j]).name.local by {
                        assert(r.attributes[i].name == c.attributes[i].name);
                        assert(r.attributes[j].name == c.attributes[j].name);
                    }
                }
                lemma_plain_push(rest, NodeView::Element(r), o);
            },
            other => {
                lemma_plain_push(rest, other, o);
            },
        }
    }
}

/// Arranging a tree of plain elements leaves a tree of plain elements.
pub proof fn lemma_arranged_is_plain(root: ElementView, o: Options)
    requires
        plain_nodes(root.children, o),
    ensures
        plain_nodes(arranged(root, o).children, o),
{
    let r1 = choice(o.remove_metadata, without_metadata(root), root);
    lemma_metadata_plain(root.children, o);
    let r2 = choice(o.remove_unused_namespaces, without_unused_namespaces(r1), r1);
    lemma_pruned_plain(r1.children, r1, o);
    let r3 = choice(o.remove_comments, without_comments(r2), r2);
    lemma_comments_plain(r2.children, o);
    let r4 = choice(o.remove_hidden, without_hidden(r3), r3);
    lemma_hidden_plain(r3.children, o);
    let r5 = choice(o.remove_empty, without_empty(r4), r4);
    lemma_empty_plain(r4.children, o);
    let r6 = choice(o.collapse_groups, collapsed(r5), r5);
    lemma_collapse_plain(r5.children, o);
    lemma_paths_plain(r6.children, o.precision as nat, o);
}

/// Where hidden elements are removed, no element below the root of the
/// optimized tree is hidden, whatever else the options turn on: on every
/// tree in which, below the root, no element has two attributes of the
/// same local name or a style that holds `display:none` only once it has
/// been rewritten.
pub proof fn lemma_plain_tree_hides_nothing(root: ElementView, o: Options)
    requires
        o.remove_hidden,
        plain_nodes(root.children, o),
    ensures
        shows_all_below(optimized(root, o)),
{
    lemma_arranged_is_plain(root, o);
    lemma_plain_keeps_shown(arranged(root, o).children, o);
    lemma_optimized_hides_nothing(root, o);
}

} // verus!
