//! Shorter ways to write a color.

use vstd::prelude::*;

use crate::text::{from_chars, is_text, lower, to_ascii_lowercase, to_chars, trim, trimmed};

verus! {

/// Whether `c` is a hexadecimal digit in lower case.
pub open spec fn is_hex_digit(c: char) -> bool {
    ('0' <= c <= '9') || ('a' <= c <= 'f')
}

/// Whether the lower-case text `l` is `#rrggbb` with the two digits of
/// each channel equal.
pub open spec fn is_doubled_hex(l: Seq<char>) -> bool {
    &&& l.len() == 7
    &&& l[0] == '#'
    &&& forall|i: int| 1 <= i < 7 ==> is_hex_digit(#[trigger] l[i])
    &&& l[1] == l[2]
    &&& l[3] == l[4]
    &&& l[5] == l[6]
}

/// The letter that `c` counts as where case does not count: a capital
/// ASCII letter as its small letter, and the Kelvin sign as `k`, whose
/// capital Unicode makes it. No other character counts as an ASCII
/// letter or digit.
pub open spec fn folded_char(c: char) -> char {
    if c == '\u{212A}' {
        'k'
    } else {
        lower(c)
    }
}

/// `s` with every character as what it counts as where case does not count.
pub open spec fn folded(s: Seq<char>) -> Seq<char> {
    Seq::new(s.len(), |i: int| folded_char(s[i]))
}

fn fold(v: &Vec<char>) -> (r: Vec<char>)
    ensures
        r@ == folded(v@),
{
    let mut r: Vec<char> = Vec::new();
    let mut i: usize = 0;
    while i < v.len()
        invariant
            i <= v.len(),
            r@ == folded(v@.take(i as int)),
        decreases v.len() - i,
    {
        let c = if v[i] == '\u{212A}' {
            'k'
        } else {
            to_ascii_lowercase(v[i])
        };
        r.push(c);
        assert(r@ == folded(v@.take(i + 1)));
        i += 1;
    }
    assert(v@.take(v.len() as int) == v@);
    r
}

/// The shortest known way to write the color `s`. The text is trimmed and
/// compared without regard to the case of letters: white and black,
/// by name or in hexadecimal, become `#fff` and `#000`, pure red and blue in
/// hexadecimal take their names, and `#rrggbb` with doubled digits becomes
/// `#rgb`. Everything else is the trimmed text itself.
pub open spec fn minified_color(s: Seq<char>) -> Seq<char> {
    let t = trimmed(s);
    let l = folded(t);
    if l == "white"@ || l == "#ffffff"@ || l == "#fff"@ {
        "#fff"@
    } else if l == "black"@ || l == "#000000"@ || l == "#000"@ {
        "#000"@
    } else if l == "#ff0000"@ || l == "#f00"@ {
        "red"@
    } else if l == "#0000ff"@ || l == "#00f"@ {
        "blue"@
    } else if is_doubled_hex(l) {
        seq!['#', l[1], l[3], l[5]]
    } else {
        t
    }
}

fn hex_digit(c: char) -> (r: bool)
    ensures
        r == is_hex_digit(c),
{
    ('0' <= c && c <= '9') || ('a' <= c && c <= 'f')
}

/// The color in its shortest known form, on characters.
pub fn minify_color_chars(color: &Vec<char>) -> (r: Vec<char>)
    ensures
        r@ == minified_color(color@),
{
    let t = trim(color);
    let l = fold(&t);
    if is_text(&l, "white") || is_text(&l, "#ffffff") || is_text(&l, "#fff") {
        to_chars("#fff")
    } else if is_text(&l, "black") || is_text(&l, "#000000") || is_text(&l, "#000") {
        to_chars("#000")
    } else if is_text(&l, "#ff0000") || is_text(&l, "#f00") {
        to_chars("red")
    } else if is_text(&l, "#0000ff") || is_text(&l, "#00f") {
        to_chars("blue")
    } else if l.len() == 7 && l[0] == '#' && hex_digit(l[1]) && hex_digit(l[2]) && hex_digit(l[3])
        && hex_digit(l[4]) && hex_digit(l[5]) && hex_digit(l[6]) && l[1] == l[2] && l[3] == l[4]
        && l[5] == l[6] {
        let mut r: Vec<char> = Vec::new();
        r.push('#');
        r.push(l[1]);
        r.push(l[3]);
        r.push(l[5]);
        assert(r@ == seq!['#', l@[1], l@[3], l@[5]]);
        r
    } else {
        t
    }
}

/// Rewrites a color value in its shortest known form.
pub fn minify_color(color: &str) -> (r: String)
    ensures
        r@ == minified_color(color@),
{
    let v = to_chars(color);
    from_chars(&minify_color_chars(&v))
}

} // verus!
