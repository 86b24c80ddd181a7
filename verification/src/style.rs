//! The `style` attribute: declarations `property:value`, separated by `;`.

use vstd::prelude::*;

use crate::color::{minified_color, minify_color_chars};
use crate::text::{
    cut, extend, from_chars, is_text, pieces_view, split, split_on, split_once, to_chars, trim,
    trimmed,
};

verus! {

/// The properties whose value is a color.
pub open spec fn is_color_name(p: Seq<char>) -> bool {
    p == "fill"@ || p == "stroke"@ || p == "stop-color"@ || p == "flood-color"@ || p
        == "lighting-color"@ || p == "color"@
}

/// Whether the value of the property is a color.
pub fn is_color_property(p: &Vec<char>) -> (r: bool)
    ensures
        r == is_color_name(p@),
{
    is_text(p, "fill") || is_text(p, "stroke") || is_text(p, "stop-color") || is_text(
        p,
        "flood-color",
    ) || is_text(p, "lighting-color") || is_text(p, "color")
}

/// Whether a declaration only states what holds anyway.
pub open spec fn is_default_declaration(p: Seq<char>, v: Seq<char>) -> bool {
    ||| p == "fill-opacity"@ && v == "1"@
    ||| p == "stroke-opacity"@ && v == "1"@
    ||| p == "opacity"@ && v == "1"@
    ||| p == "stroke-width"@ && v == "1"@
    ||| p == "font-style"@ && v == "normal"@
    ||| p == "font-weight"@ && v == "normal"@
    ||| p == "font-weight"@ && v == "400"@
}

/// Whether a declaration states a default, on characters.
pub fn is_default_style_chars(p: &Vec<char>, v: &Vec<char>) -> (r: bool)
    ensures
        r == is_default_declaration(p@, v@),
{
    (is_text(p, "fill-opacity") && is_text(v, "1")) || (is_text(p, "stroke-opacity") && is_text(
        v,
        "1",
    )) || (is_text(p, "opacity") && is_text(v, "1")) || (is_text(p, "stroke-width") && is_text(
        v,
        "1",
    )) || (is_text(p, "font-style") && is_text(v, "normal")) || (is_text(p, "font-weight")
        && is_text(v, "normal")) || (is_text(p, "font-weight") && is_text(v, "400"))
}

/// Whether the style declaration `prop: value` states a default.
pub fn is_default_style_value(prop: &str, value: &str) -> (r: bool)
    ensures
        r == is_default_declaration(prop@, value@),
{
    is_default_style_chars(&to_chars(prop), &to_chars(value))
}

/// A trimmed declaration with its color, if it has one, minified: the
/// property and the value trimmed, a colon between them. A declaration
/// without colon stays as it is.
pub open spec fn recolored_declaration(d: Seq<char>) -> Seq<char> {
    match cut(d, ':') {
        Some((p, v)) => {
            let p = trimmed(p);
            let v = trimmed(v);
            p.push(':') + (if is_color_name(p) {
                minified_color(v)
            } else {
                v
            })
        },
        None => d,
    }
}

/// `rest` followed by the declaration `d`, with a `;` between them.
pub open spec fn joined(rest: Seq<char>, d: Seq<char>) -> Seq<char> {
    if rest.len() > 0 {
        rest.push(';') + d
    } else {
        d
    }
}

/// The declarations among `pieces` with their colors minified, joined by `;`.
pub open spec fn recolored_pieces(pieces: Seq<Seq<char>>) -> Seq<char>
    decreases pieces.len(),
{
    if pieces.len() == 0 {
        Seq::empty()
    } else {
        let rest = recolored_pieces(pieces.drop_last());
        let d = trimmed(pieces.last());
        if d.len() == 0 {
            rest
        } else {
            joined(rest, recolored_declaration(d))
        }
    }
}

/// The style with every color minified, blank declarations dropped and
/// the others trimmed.
pub open spec fn recolored_style(style: Seq<char>) -> Seq<char> {
    recolored_pieces(split(style, ';'))
}

/// What is left of a trimmed declaration: nothing where it has no colon
/// or states a default, else property and value trimmed with a colon
/// between them.
pub open spec fn kept_declaration(d: Seq<char>) -> Option<Seq<char>> {
    match cut(d, ':') {
        Some((p, v)) => {
            let p = trimmed(p);
            let v = trimmed(v);
            if is_default_declaration(p, v) {
                None
            } else {
                Some(p.push(':') + v)
            }
        },
        None => None,
    }
}

/// The declarations among `pieces` that are kept, joined by `;`.
pub open spec fn minified_pieces(pieces: Seq<Seq<char>>) -> Seq<char>
    decreases pieces.len(),
{
    if pieces.len() == 0 {
        Seq::empty()
    } else {
        let rest = minified_pieces(pieces.drop_last());
        let d = trimmed(pieces.last());
        if d.len() == 0 {
            rest
        } else {
            match kept_declaration(d) {
                Some(t) => joined(rest, t),
                None => rest,
            }
        }
    }
}

/// The style without the declarations that state a default.
pub open spec fn minified_style(style: Seq<char>) -> Seq<char> {
    minified_pieces(split(style, ';'))
}

fn join(out: &mut Vec<char>, d: &Vec<char>)
    ensures
        final(out)@ == joined(old(out)@, d@),
{
    if out.len() > 0 {
        out.push(';');
        extend(out, d);
    } else {
        extend(out, d);
        assert(out@ == d@);
    }
}

fn recolor_declaration(d: &Vec<char>) -> (r: Vec<char>)
    ensures
        r@ == recolored_declaration(d@),
{
    match split_once(d, ':') {
        Some((p, v)) => {
            let p = trim(&p);
            let v = trim(&v);
            let mut r: Vec<char> = Vec::new();
            extend(&mut r, &p);
            r.push(':');
            if is_color_property(&p) {
                extend(&mut r, &minify_color_chars(&v));
            } else {
                extend(&mut r, &v);
            }
            r
        },
        None => {
            let mut r: Vec<char> = Vec::new();
            extend(&mut r, d);
            r
        },
    }
}

/// The style with every color minified, on characters.
pub fn minify_style_colors_chars(style: &Vec<char>) -> (r: Vec<char>)
    ensures
        r@ == recolored_style(style@),
{
    let pieces = split_on(style, ';');
    let ghost all = pieces_view(pieces@);
    let mut out: Vec<char> = Vec::new();
    let mut i: usize = 0;
    while i < pieces.len()
        invariant
            i <= pieces.len(),
            all == pieces_view(pieces@),
            out@ == recolored_pieces(all.take(i as int)),
        decreases pieces.len() - i,
    {
        assert(all.take(i + 1).drop_last() == all.take(i as int));
        assert(all.take(i + 1).last() == pieces@[i as int]@);
        let d = trim(&pieces[i]);
        if d.len() > 0 {
            let t = recolor_declaration(&d);
            join(&mut out, &t);
        }
        i += 1;
    }
    assert(all.take(pieces.len() as int) == all);
    out
}

/// Minifies the colors inside a `style` attribute.
pub fn minify_style_colors(style: &str) -> (r: String)
    ensures
        r@ == recolored_style(style@),
{
    from_chars(&minify_style_colors_chars(&to_chars(style)))
}

fn keep_declaration(d: &Vec<char>) -> (r: Option<Vec<char>>)
    ensures
        match kept_declaration(d@) {
            Some(t) => r matches Some(x) && x@ == t,
            None => r is None,
        },
{
    match split_once(d, ':') {
        Some((p, v)) => {
            let p = trim(&p);
            let v = trim(&v);
            if is_default_style_chars(&p, &v) {
                None
            } else {
                let mut r: Vec<char> = Vec::new();
                extend(&mut r, &p);
                r.push(':');
                extend(&mut r, &v);
                Some(r)
            }
        },
        None => None,
    }
}

/// The style without the declarations that state a default, on characters.
pub fn minify_style_chars(style: &Vec<char>) -> (r: Vec<char>)
    ensures
        r@ == minified_style(style@),
{
    let pieces = split_on(style, ';');
    let ghost all = pieces_view(pieces@);
    let mut out: Vec<char> = Vec::new();
    let mut i: usize = 0;
    while i < pieces.len()
        invariant
            i <= pieces.len(),
            all == pieces_view(pieces@),
            out@ == minified_pieces(all.take(i as int)),
        decreases pieces.len() - i,
    {
        assert(all.take(i + 1).drop_last() == all.take(i as int));
        assert(all.take(i + 1).last() == pieces@[i as int]@);
        let d = trim(&pieces[i]);
        if d.len() > 0 {
            match keep_declaration(&d) {
                Some(t) => {
                    join(&mut out, &t);
                },
                None => {},
            }
        }
        i += 1;
    }
    assert(all.take(pieces.len() as int) == all);
    out
}

/// Minifies a `style` attribute: drops the declarations that state a default.
pub fn minify_style(style: &str) -> (r: String)
    ensures
        r@ == minified_style(style@),
{
    from_chars(&minify_style_chars(&to_chars(style)))
}

} // verus!
