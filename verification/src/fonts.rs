//! Fonts in SVG documents: the characters that text uses, and the
//! `@font-face` rules of style sheets.

use vstd::prelude::*;

use crate::ast::{
    lemma_nodes_view_all, lemma_nodes_view_empty, lemma_nodes_view_push, lemma_nodes_view_take,
    nodes_view, opt_view, take_children, Document, DocumentView, Element, ElementView, Node,
    NodeView,
};
use crate::text::{
    contains, extend, extend_str, find, find_char, first_index, first_occurrence, from_chars,
    has_prefix, has_substring, lemma_first_occurrence, pieces_view, replace, replaced, slice,
    split, split_on, starts_with, strip, stripped, to_chars, trim, trimmed,
};

verus! {

/// A `@font-face` rule: the family it names and the file it points to,
/// with the weight and the style where it states them.
#[derive(Debug, Clone, PartialEq, Eq)]
pub struct FontFaceRef {
    pub family: String,
    pub url: String,
    pub weight: Option<String>,
    pub style: Option<String>,
}

/// The model of a `@font-face` rule.
pub struct FontFaceView {
    pub family: Seq<char>,
    pub url: Seq<char>,
    pub weight: Option<Seq<char>>,
    pub style: Option<Seq<char>>,
}

impl View for FontFaceRef {
    type V = FontFaceView;

    open spec fn view(&self) -> FontFaceView {
        FontFaceView {
            family: self.family@,
            url: self.url@,
            weight: opt_view(self.weight),
            style: opt_view(self.style),
        }
    }
}

/// The elements whose text is rendered with a font.
pub open spec fn is_text_name(local: Seq<char>) -> bool {
    local == "text"@ || local == "tspan"@ || local == "textPath"@
}

/// The characters of the text nodes among `ns`, in order.
pub open spec fn direct_text(ns: Seq<NodeView>) -> Seq<char>
    decreases ns.len(),
{
    if ns.len() == 0 {
        Seq::empty()
    } else {
        direct_text(ns.drop_last()) + match ns.last() {
            NodeView::Text(t) => t,
            _ => Seq::empty(),
        }
    }
}

/// Every character of text that stands directly inside a text element, at
/// any depth, in document order.
pub open spec fn text_chars(e: ElementView) -> Seq<char>
    decreases e,
{
    (if is_text_name(e.name.local) {
        direct_text(e.children)
    } else {
        Seq::empty()
    }) + nodes_text_chars(e.children)
}

/// The characters of text inside the text elements among the nodes and below
/// them.
pub open spec fn nodes_text_chars(ns: Seq<NodeView>) -> Seq<char>
    decreases ns,
{
    if ns.len() == 0 {
        Seq::empty()
    } else {
        nodes_text_chars(ns.drop_last()) + match ns.last() {
            NodeView::Element(c) => text_chars(c),
            _ => Seq::empty(),
        }
    }
}

/// The characters of `s`, each one once, in the order in which they first occur.
pub open spec fn distinct(s: Seq<char>) -> Seq<char>
    decreases s.len(),
{
    if s.len() == 0 {
        Seq::empty()
    } else {
        let d = distinct(s.drop_last());
        if d.contains(s.last()) {
            d
        } else {
            d.push(s.last())
        }
    }
}

/// The characters kept are those of the text, and none comes twice.
pub proof fn lemma_distinct(s: Seq<char>)
    ensures
        distinct(s).no_duplicates(),
        forall|c: char| distinct(s).contains(c) <==> s.contains(c),
    decreases s.len(),
{
    if s.len() > 0 {
        let d = distinct(s.drop_last());
        let x = s.last();
        lemma_distinct(s.drop_last());
        assert forall|c: char| distinct(s).contains(c) <==> s.contains(c) by {
            if s.contains(c) {
                let i = choose|i: int| 0 <= i < s.len() && s[i] == c;
                if i < s.len() - 1 {
                    assert(s.drop_last()[i] == c);
                    assert(s.drop_last().contains(c));
                    assert(d.contains(c));
                    let j = choose|j: int| 0 <= j < d.len() && d[j] == c;
                    assert(distinct(s)[j] == c);
                } else if !d.contains(x) {
                    assert(d.push(x)[d.len() as int] == x);
                } else {
                    let j = choose|j: int| 0 <= j < d.len() && d[j] == x;
                    assert(distinct(s)[j] == c);
                }
            }
            if distinct(s).contains(c) {
                let j = choose|j: int| 0 <= j < distinct(s).len() && distinct(s)[j] == c;
                if j < d.len() {
                    assert(d[j] == c);
                    assert(s.drop_last().contains(c));
                    let i = choose|i: int| 0 <= i < s.drop_last().len() && s.drop_last()[i] == c;
                    assert(s[i] == c);
                } else {
                    assert(s[s.len() - 1] == c);
                }
            }
        }
    }
}

/// `d` followed by the characters of `s` that are new, each one once.
pub open spec fn add_distinct(d: Seq<char>, s: Seq<char>) -> Seq<char>
    decreases s.len(),
{
    if s.len() == 0 {
        d
    } else {
        let r = add_distinct(d, s.drop_last());
        if r.contains(s.last()) {
            r
        } else {
            r.push(s.last())
        }
    }
}

fn has_char(v: &Vec<char>, c: char) -> (r: bool)
    ensures
        r == v@.contains(c),
{
    let mut i: usize = 0;
    while i < v.len()
        invariant
            i <= v.len(),
            forall|j: int| 0 <= j < i ==> v@[j] != c,
        decreases v.len() - i,
    {
        if v[i] == c {
            return true;
        }
        i += 1;
    }
    false
}

fn add_chars(seen: &mut Vec<char>, t: &str)
    ensures
        final(seen)@ == add_distinct(old(seen)@, t@),
{
    let v = to_chars(t);
    let mut i: usize = 0;
    while i < v.len()
        invariant
            i <= v.len(),
            seen@ == add_distinct(old(seen)@, v@.take(i as int)),
        decreases v.len() - i,
    {
        proof {
            assert(v@.take(i + 1).drop_last() == v@.take(i as int));
        }
        if !has_char(seen, v[i]) {
            seen.push(v[i]);
        }
        i += 1;
    }
    proof {
        assert(v@.take(v.len() as int) == v@);
    }
}

fn text_element(e: &Element) -> (r: bool)
    ensures
        r == is_text_name(e@.name.local),
{
    e.is("text") || e.is("tspan") || e.is("textPath")
}

fn collect_text_chars(elem: &Element, seen: &mut Vec<char>)
    ensures
        final(seen)@ == add_distinct(old(seen)@, text_chars(elem@)),
    decreases elem,
{
    let ghost nodes = elem@.children;
    let ghost start = seen@;
    proof {
        lemma_nodes_view_all(elem.children@);
    }
    if text_element(elem) {
        let mut i: usize = 0;
        while i < elem.children.len()
            invariant
                i <= elem.children.len(),
                nodes == elem@.children,
                seen@ == add_distinct(start, direct_text(nodes.take(i as int))),
            decreases elem.children.len() - i,
        {
            proof {
                lemma_nodes_view_take(elem.children@, i as int);
                assert(nodes.take(i + 1).drop_last() == nodes.take(i as int));
                assert(nodes.take(i + 1).last() == elem.children@[i as int]@);
            }
            match &elem.children[i] {
                Node::Text(t) => {
                    add_chars(seen, t.as_str());
                    proof {
                        lemma_add_distinct_add(start, direct_text(nodes.take(i as int)), t@);
                    }
                },
                _ => {
                    assert(direct_text(nodes.take(i + 1)) == direct_text(nodes.take(i as int))
                        + Seq::<char>::empty());
                    assert(direct_text(nodes.take(i as int)) + Seq::<char>::empty()
                        == direct_text(nodes.take(i as int)));
                },
            }
            i += 1;
        }
    }
    let ghost own = if is_text_name(elem@.name.local) {
        direct_text(nodes)
    } else {
        Seq::<char>::empty()
    };
    assert(seen@ == add_distinct(start, own));
    let mut k: usize = 0;
    assert(own + nodes_text_chars(nodes.take(0)) == own);
    while k < elem.children.len()
        invariant
            k <= elem.children.len(),
            nodes == elem@.children,
            seen@ == add_distinct(start, own + nodes_text_chars(nodes.take(k as int))),
        decreases elem.children.len() - k,
    {
        proof {
            lemma_nodes_view_take(elem.children@, k as int);
            assert(nodes.take(k + 1).drop_last() == nodes.take(k as int));
            assert(nodes.take(k + 1).last() == elem.children@[k as int]@);
        }
        let ghost done = own + nodes_text_chars(nodes.take(k as int));
        match &elem.children[k] {
            Node::Element(c) => {
                collect_text_chars(c, seen);
                proof {
                    lemma_add_distinct_add(start, done, text_chars(c@));
                    assert(done + text_chars(c@) == own + nodes_text_chars(nodes.take(k + 1)));
                }
            },
            _ => {
                assert(nodes_text_chars(nodes.take(k + 1)) == nodes_text_chars(
                    nodes.take(k as int),
                ) + Seq::<char>::empty());
                assert(done + Seq::<char>::empty() == done);
                assert(own + (nodes_text_chars(nodes.take(k as int)) + Seq::<char>::empty())
                    == done);
            },
        }
        k += 1;
    }
}

/// Adding the new characters of two texts one after the other adds those of
/// both.
pub proof fn lemma_add_distinct_add(d: Seq<char>, a: Seq<char>, b: Seq<char>)
    ensures
        add_distinct(add_distinct(d, a), b) == add_distinct(d, a + b),
    decreases b.len(),
{
    if b.len() == 0 {
        assert(a + b == a);
    } else {
        assert((a + b).drop_last() == a + b.drop_last());
        lemma_add_distinct_add(d, a, b.drop_last());
    }
}

/// The new characters of a text, added to nothing, are its distinct
/// characters.
pub proof fn lemma_add_distinct_empty(s: Seq<char>)
    ensures
        add_distinct(Seq::empty(), s) == distinct(s),
    decreases s.len(),
{
    if s.len() > 0 {
        lemma_add_distinct_empty(s.drop_last());
    }
}

/// The characters that the text of the document uses: every character
/// that stands directly inside `text`, `tspan` or `textPath`, once each,
/// in the order in which they first occur.
pub fn extract_text_chars(doc: &Document) -> (r: Vec<char>)
    ensures
        r@ == distinct(text_chars(doc@.root)),
{
    let mut seen: Vec<char> = Vec::new();
    collect_text_chars(&doc.root, &mut seen);
    proof {
        lemma_add_distinct_empty(text_chars(doc@.root));
    }
    seen
}

/// `s` without the double quotes, then the single quotes, around it.
pub open spec fn unquoted(s: Seq<char>) -> Seq<char> {
    stripped(stripped(s, '"'), '\'')
}

fn unquote(v: &Vec<char>) -> (r: Vec<char>)
    ensures
        r@ == unquoted(v@),
{
    strip(&strip(v, '"'), '\'')
}

/// The first of the families that a `font-family` value lists, without
/// quotes.
pub open spec fn first_family(v: Seq<char>) -> Seq<char> {
    let t = trimmed(v);
    unquoted(trimmed(t.take(first_index(t, ',', 0))))
}

fn parse_value(v: &Vec<char>) -> (r: Vec<char>)
    ensures
        r@ == first_family(v@),
{
    let t = trim(v);
    let at = find_char(&t, ',', 0);
    let first = slice(&t, 0, at);
    assert(t@.subrange(0, at as int) == t@.take(at as int));
    unquote(&trim(&first))
}

/// What stands between the first `url(` of `v` and the next `)`, trimmed
/// and without quotes.
pub open spec fn first_url(v: Seq<char>) -> Option<Seq<char>> {
    let at = first_occurrence(v, "url("@, 0);
    let end = first_index(v, ')', at + 4);
    if 0 <= at < v.len() && at + 4 <= end < v.len() {
        Some(unquoted(trimmed(v.subrange(at + 4, end))))
    } else {
        None
    }
}

fn parse_url(v: &Vec<char>) -> (r: Option<Vec<char>>)
    ensures
        match first_url(v@) {
            Some(u) => r matches Some(x) && x@ == u,
            None => r is None,
        },
{
    let pat = to_chars("url(");
    proof {
        reveal_strlit("url(");
        lemma_first_occurrence(v@, pat@, 0);
    }
    let at = find(v, &pat, 0);
    if at >= v.len() {
        return None;
    }
    let start = at + 4;
    let end = find_char(v, ')', start);
    if end >= v.len() {
        return None;
    }
    Some(unquote(&trim(&slice(v, start, end))))
}

/// What the declarations of a rule say of a font, each as the last
/// declaration of its kind says it: family, file, weight, style.
pub struct FaceFields {
    pub family: Option<Seq<char>>,
    pub url: Option<Seq<char>>,
    pub weight: Option<Seq<char>>,
    pub style: Option<Seq<char>>,
}

/// What the declarations say, read from the first to the last.
pub open spec fn face_fields(pieces: Seq<Seq<char>>) -> FaceFields
    decreases pieces.len(),
{
    if pieces.len() == 0 {
        FaceFields { family: None, url: None, weight: None, style: None }
    } else {
        let f = face_fields(pieces.drop_last());
        let d = trimmed(pieces.last());
        if has_prefix(d, "font-family:"@) {
            FaceFields {
                family: Some(first_family(d.skip("font-family:"@.len() as int))),
                url: f.url,
                weight: f.weight,
                style: f.style,
            }
        } else if has_prefix(d, "src:"@) {
            FaceFields {
                family: f.family,
                url: first_url(d.skip("src:"@.len() as int)),
                weight: f.weight,
                style: f.style,
            }
        } else if has_prefix(d, "font-weight:"@) {
            FaceFields {
                family: f.family,
                url: f.url,
                weight: Some(trimmed(d.skip("font-weight:"@.len() as int))),
                style: f.style,
            }
        } else if has_prefix(d, "font-style:"@) {
            FaceFields {
                family: f.family,
                url: f.url,
                weight: f.weight,
                style: Some(trimmed(d.skip("font-style:"@.len() as int))),
            }
        } else {
            f
        }
    }
}

/// The font that the inside of a `@font-face` rule describes, if it names
/// a family and a file.
pub open spec fn font_face_of(block: Seq<char>) -> Option<FontFaceView> {
    let f = face_fields(split(block, ';'));
    match (f.family, f.url) {
        (Some(family), Some(url)) => Some(
            FontFaceView { family, url, weight: f.weight, style: f.style },
        ),
        _ => None,
    }
}

/// What follows the prefix `p` in `d`, where `d` begins with it.
fn after_prefix(d: &Vec<char>, p: &str) -> (r: Option<Vec<char>>)
    ensures
        match r {
            Some(x) => has_prefix(d@, p@) && x@ == d@.skip(p@.len() as int),
            None => !has_prefix(d@, p@),
        },
{
    let pat = to_chars(p);
    if starts_with(d, &pat) {
        let r = slice(d, pat.len(), d.len());
        assert(d@.subrange(pat.len() as int, d.len() as int) == d@.skip(pat.len() as int));
        Some(r)
    } else {
        None
    }
}

fn some_text(o: Option<Vec<char>>) -> (r: Option<String>)
    ensures
        match o {
            Some(v) => r matches Some(s) && s@ == v@,
            None => r is None,
        },
{
    match o {
        Some(v) => Some(from_chars(&v)),
        None => None,
    }
}

fn parse_font_face_block(block: &Vec<char>) -> (r: Option<FontFaceRef>)
    ensures
        match font_face_of(block@) {
            Some(f) => r matches Some(x) && x@ == f,
            None => r is None,
        },
{
    let pieces = split_on(block, ';');
    let ghost all = pieces_view(pieces@);
    let mut family: Option<Vec<char>> = None;
    let mut url: Option<Vec<char>> = None;
    let mut weight: Option<Vec<char>> = None;
    let mut style: Option<Vec<char>> = None;
    let mut i: usize = 0;
    while i < pieces.len()
        invariant
            i <= pieces.len(),
            all == pieces_view(pieces@),
            chars_opt(family) == face_fields(all.take(i as int)).family,
            chars_opt(url) == face_fields(all.take(i as int)).url,
            chars_opt(weight) == face_fields(all.take(i as int)).weight,
            chars_opt(style) == face_fields(all.take(i as int)).style,
        decreases pieces.len() - i,
    {
        proof {
            assert(all.take(i + 1).drop_last() == all.take(i as int));
            assert(all.take(i + 1).last() == pieces@[i as int]@);
        }
        let d = trim(&pieces[i]);
        match after_prefix(&d, "font-family:") {
            Some(v) => {
                family = Some(parse_value(&v));
            },
            None => match after_prefix(&d, "src:") {
                Some(v) => {
                    url = parse_url(&v);
                },
                None => match after_prefix(&d, "font-weight:") {
                    Some(v) => {
                        weight = Some(trim(&v));
                    },
                    None => match after_prefix(&d, "font-style:") {
                        Some(v) => {
                            style = Some(trim(&v));
                        },
                        None => {},
                    },
                },
            },
        }
        i += 1;
    }
    proof {
        assert(all.take(pieces.len() as int) == all);
    }
    match (family, url) {
        (Some(f), Some(u)) => Some(
            FontFaceRef {
                family: from_chars(&f),
                url: from_chars(&u),
                weight: some_text(weight),
                style: some_text(style),
            },
        ),
        _ => None,
    }
}

/// The model of optional characters.
pub open spec fn chars_opt(o: Option<Vec<char>>) -> Option<Seq<char>> {
    match o {
        Some(v) => Some(v@),
        None => None,
    }
}

/// Where the block that is open at `i` with `depth` braces closes; the
/// length of `s` where it does not.
pub open spec fn block_end(s: Seq<char>, i: int, depth: int) -> int
    decreases s.len() - i,
{
    if i < 0 || i >= s.len() {
        s.len() as int
    } else if s[i] == '{' {
        block_end(s, i + 1, depth + 1)
    } else if s[i] == '}' {
        if depth <= 1 {
            i
        } else {
            block_end(s, i + 1, depth - 1)
        }
    } else {
        block_end(s, i + 1, depth)
    }
}

/// A block closes at or after the place where the search starts.
pub proof fn lemma_block_end_bounds(s: Seq<char>, i: int, depth: int)
    requires
        0 <= i <= s.len(),
    ensures
        i <= block_end(s, i, depth) <= s.len(),
    decreases s.len() - i,
{
    if i < s.len() {
        if s[i] == '{' {
            lemma_block_end_bounds(s, i + 1, depth + 1);
        } else if s[i] == '}' {
            if depth > 1 {
                lemma_block_end_bounds(s, i + 1, depth - 1);
            }
        } else {
            lemma_block_end_bounds(s, i + 1, depth);
        }
    }
}

/// The fonts of the `@font-face` rules that `s` holds from `from` on,
/// added to `acc`. Reading stops at a rule without braces, at one that
/// does not close and at an empty one.
pub open spec fn font_faces_from(s: Seq<char>, from: int, acc: Seq<FontFaceView>) -> Seq<
    FontFaceView,
>
    decreases s.len() - from,
{
    let at = first_occurrence(s, "@font-face"@, from);
    let brace = first_index(s, '{', at + "@font-face"@.len());
    let start = brace + 1;
    let end = block_end(s, start, 1);
    if 0 <= from <= at < s.len() && at + "@font-face"@.len() <= brace < s.len() && start < end
        < s.len() {
        font_faces_from(
            s,
            end + 1,
            match font_face_of(s.subrange(start, end)) {
                Some(f) => acc.push(f),
                None => acc,
            },
        )
    } else {
        acc
    }
}

/// The fonts of the `@font-face` rules of a style sheet.
pub open spec fn font_faces_of(css: Seq<char>) -> Seq<FontFaceView> {
    font_faces_from(css, 0, Seq::empty())
}

/// The model of a list of rules.
pub open spec fn faces_view(s: Seq<FontFaceRef>) -> Seq<FontFaceView> {
    Seq::new(s.len(), |i: int| s[i]@)
}

fn find_block_end(v: &Vec<char>, start: usize) -> (r: usize)
    requires
        start <= v.len(),
    ensures
        start <= r <= v.len(),
        r == block_end(v@, start as int, 1),
{
    let mut i: usize = start;
    let mut depth: u128 = 1;
    proof {
        lemma_block_end_bounds(v@, start as int, 1);
    }
    while i < v.len()
        invariant
            start <= i <= v.len(),
            1 <= depth <= 1 + (i - start),
            block_end(v@, start as int, 1) == block_end(v@, i as int, depth as int),
        decreases v.len() - i,
    {
        if v[i] == '{' {
            depth += 1;
        } else if v[i] == '}' {
            if depth <= 1 {
                return i;
            }
            depth -= 1;
        }
        i += 1;
    }
    i
}

fn parse_font_faces(css: &Vec<char>) -> (r: Vec<FontFaceRef>)
    ensures
        faces_view(r@) == font_faces_of(css@),
{
    let mut faces: Vec<FontFaceRef> = Vec::new();
    let pat = to_chars("@font-face");
    let mut from: usize = 0;
    proof {
        reveal_strlit("@font-face");
    }
    assert(faces_view(faces@) =~= Seq::<FontFaceView>::empty());
    loop
        invariant_except_break
            from <= css.len(),
            pat@ == "@font-face"@,
            pat@.len() == 10,
            font_faces_of(css@) == font_faces_from(css@, from as int, faces_view(faces@)),
        ensures
            faces_view(faces@) == font_faces_of(css@),
        decreases css.len() - from,
    {
        let at = find(css, &pat, from);
        if at >= css.len() {
            break;
        }
        proof {
            lemma_first_occurrence(css@, pat@, from as int);
        }
        let brace = find_char(css, '{', at + 10);
        if brace >= css.len() {
            break;
        }
        let start = brace + 1;
        let end = find_block_end(css, start);
        if end >= css.len() || end == start {
            break;
        }
        let ghost before = faces_view(faces@);
        match parse_font_face_block(&slice(css, start, end)) {
            Some(face) => {
                faces.push(face);
                assert(faces_view(faces@) =~= before.push(face@));
            },
            None => {},
        }
        from = end + 1;
    }
    faces
}

/// The fonts of the style sheets among `ns`: of the text and CDATA nodes, in order.
pub open spec fn sheet_faces(ns: Seq<NodeView>) -> Seq<FontFaceView>
    decreases ns.len(),
{
    if ns.len() == 0 {
        Seq::empty()
    } else {
        sheet_faces(ns.drop_last()) + match ns.last() {
            NodeView::Text(t) => font_faces_of(t),
            NodeView::CData(t) => font_faces_of(t),
            _ => Seq::empty(),
        }
    }
}

/// The fonts of every `style` element, at any depth, in document order.
pub open spec fn font_faces(e: ElementView) -> Seq<FontFaceView>
    decreases e,
{
    (if e.name.local == "style"@ {
        sheet_faces(e.children)
    } else {
        Seq::empty()
    }) + nodes_font_faces(e.children)
}

/// The fonts of the `style` elements among the nodes and below them.
pub open spec fn nodes_font_faces(ns: Seq<NodeView>) -> Seq<FontFaceView>
    decreases ns,
{
    if ns.len() == 0 {
        Seq::empty()
    } else {
        nodes_font_faces(ns.drop_last()) + match ns.last() {
            NodeView::Element(c) => font_faces(c),
            _ => Seq::empty(),
        }
    }
}

fn append_faces(faces: &mut Vec<FontFaceRef>, more: Vec<FontFaceRef>)
    ensures
        faces_view(final(faces)@) == faces_view(old(faces)@) + faces_view(more@),
{
    let mut more = more;
    let ghost m = more@;
    faces.append(&mut more);
    assert(faces_view(faces@) =~= faces_view(old(faces)@) + faces_view(m));
}

fn collect_font_faces(elem: &Element, faces: &mut Vec<FontFaceRef>)
    ensures
        faces_view(final(faces)@) == faces_view(old(faces)@) + font_faces(elem@),
    decreases elem,
{
    let ghost nodes = elem@.children;
    let ghost start = faces_view(faces@);
    proof {
        lemma_nodes_view_all(elem.children@);
    }
    let ghost own = if elem@.name.local == "style"@ {
        sheet_faces(nodes)
    } else {
        Seq::<FontFaceView>::empty()
    };
    if elem.is("style") {
        let mut i: usize = 0;
        assert(start + sheet_faces(nodes.take(0)) =~= start);
        while i < elem.children.len()
            invariant
                i <= elem.children.len(),
                nodes == elem@.children,
                faces_view(faces@) == start + sheet_faces(nodes.take(i as int)),
            decreases elem.children.len() - i,
        {
            proof {
                lemma_nodes_view_take(elem.children@, i as int);
                assert(nodes.take(i + 1).drop_last() == nodes.take(i as int));
                assert(nodes.take(i + 1).last() == elem.children@[i as int]@);
            }
            let ghost before = faces_view(faces@);
            match &elem.children[i] {
                Node::Text(t) => {
                    append_faces(faces, parse_font_faces(&to_chars(t.as_str())));
                    assert(before + font_faces_of(t@) =~= start + sheet_faces(nodes.take(i + 1)));
                },
                Node::CData(t) => {
                    append_faces(faces, parse_font_faces(&to_chars(t.as_str())));
                    assert(before + font_faces_of(t@) =~= start + sheet_faces(nodes.take(i + 1)));
                },
                _ => {
                    assert(before =~= start + sheet_faces(nodes.take(i + 1)));
                },
            }
            i += 1;
        }
    } else {
        assert(faces_view(faces@) =~= start + own);
    }
    let mut k: usize = 0;
    assert(start + own + nodes_font_faces(nodes.take(0)) =~= start + own);
    while k < elem.children.len()
        invariant
            k <= elem.children.len(),
            nodes == elem@.children,
            faces_view(faces@) == start + own + nodes_font_faces(nodes.take(k as int)),
        decreases elem.children.len() - k,
    {
        proof {
            lemma_nodes_view_take(elem.children@, k as int);
            assert(nodes.take(k + 1).drop_last() == nodes.take(k as int));
            assert(nodes.take(k + 1).last() == elem.children@[k as int]@);
        }
        let ghost before = faces_view(faces@);
        match &elem.children[k] {
            Node::Element(c) => {
                collect_font_faces(c, faces);
                assert(before + font_faces(c@) =~= start + own + nodes_font_faces(
                    nodes.take(k + 1),
                ));
            },
            _ => {
                assert(before =~= start + own + nodes_font_faces(nodes.take(k + 1)));
            },
        }
        k += 1;
    }
    assert(start + own + nodes_font_faces(nodes) =~= start + font_faces(elem@));
}

/// The `@font-face` rules of the `style` elements of the document, in
/// document order.
pub fn extract_font_faces(doc: &Document) -> (r: Vec<FontFaceRef>)
    ensures
        faces_view(r@) == font_faces(doc@.root),
{
    let mut faces: Vec<FontFaceRef> = Vec::new();
    collect_font_faces(&doc.root, &mut faces);
    assert(faces_view(Seq::<FontFaceRef>::empty()) + font_faces(doc@.root) =~= font_faces(
        doc@.root,
    ));
    faces
}

/// `url(` + `open` + `url` + `close` + `)`.
pub open spec fn url_text(open: Seq<char>, url: Seq<char>, close: Seq<char>) -> Seq<char> {
    "url("@ + open + url + close + seq![')']
}

/// The style sheet with `url('new')` in place of every `url('old')`; where
/// there is none, of every `url("old")`; where there is none, of every
/// `url(old)`. `None` where the sheet holds none of the three.
pub open spec fn css_with_url(css: Seq<char>, old: Seq<char>, new: Seq<char>) -> Option<Seq<char>> {
    let single = url_text(seq!['\''], old, seq!['\'']);
    let double = url_text(seq!['"'], old, seq!['"']);
    let bare = url_text(Seq::empty(), old, Seq::empty());
    let with = url_text(seq!['\''], new, seq!['\'']);
    if has_substring(css, single) {
        Some(replaced(css, single, with))
    } else if has_substring(css, double) {
        Some(replaced(css, double, with))
    } else if has_substring(css, bare) {
        Some(replaced(css, bare, with))
    } else {
        None
    }
}

/// A text or CDATA node with the URL replaced, where it holds the URL.
pub open spec fn node_with_url(n: NodeView, old: Seq<char>, new: Seq<char>) -> Option<NodeView> {
    match n {
        NodeView::Text(t) => match css_with_url(t, old, new) {
            Some(c) => Some(NodeView::Text(c)),
            None => None,
        },
        NodeView::CData(t) => match css_with_url(t, old, new) {
            Some(c) => Some(NodeView::CData(c)),
            None => None,
        },
        _ => None,
    }
}

/// The first position from `from` on of a node that holds the URL.
pub open spec fn first_sheet(ns: Seq<NodeView>, old: Seq<char>, new: Seq<char>, from: int) -> int
    decreases ns.len() - from,
{
    if 0 <= from < ns.len() && node_with_url(ns[from], old, new) is None {
        first_sheet(ns, old, new, from + 1)
    } else {
        from
    }
}

/// The element with the font URL `old` replaced by `new`. In a `style`
/// element the first text or CDATA child that holds the URL is rewritten,
/// and nothing else of that element. Every other element, and a `style`
/// element without such a child, is searched further down.
pub open spec fn with_font_url(e: ElementView, old: Seq<char>, new: Seq<char>) -> ElementView
    decreases e,
{
    let at = first_sheet(e.children, old, new, 0);
    if e.name.local == "style"@ && 0 <= at < e.children.len() {
        e.with_children(e.children.update(at, node_with_url(e.children[at], old, new).unwrap()))
    } else {
        e.with_children(with_font_url_nodes(e.children, old, new))
    }
}

/// The nodes with the font URL replaced in every element among them.
pub open spec fn with_font_url_nodes(ns: Seq<NodeView>, old: Seq<char>, new: Seq<char>) -> Seq<
    NodeView,
>
    decreases ns,
{
    if ns.len() == 0 {
        Seq::empty()
    } else {
        let rest = with_font_url_nodes(ns.drop_last(), old, new);
        match ns.last() {
            NodeView::Element(c) => rest.push(NodeView::Element(with_font_url(c, old, new))),
            other => rest.push(other),
        }
    }
}

fn make_url_text(open: &str, url: &Vec<char>, close: &str) -> (r: Vec<char>)
    ensures
        r@ == url_text(open@, url@, close@),
        r.len() > 0,
{
    let mut r = to_chars("url(");
    extend_str(&mut r, open);
    extend(&mut r, url);
    extend_str(&mut r, close);
    r.push(')');
    r
}

fn replace_css(css: &str, from: &Vec<char>, to: &Vec<char>) -> (r: Option<String>)
    ensures
        opt_view(r) == css_with_url(css@, from@, to@),
{
    proof {
        reveal_strlit("'");
        reveal_strlit("\"");
        reveal_strlit("");
        assert("'"@ =~= seq!['\'']);
        assert("\""@ =~= seq!['"']);
        assert(""@ =~= Seq::<char>::empty());
    }
    let v = to_chars(css);
    let single = make_url_text("'", from, "'");
    let double = make_url_text("\"", from, "\"");
    let bare = make_url_text("", from, "");
    let with = make_url_text("'", to, "'");
    if contains(&v, &single) {
        Some(from_chars(&replace(&v, &single, &with)))
    } else if contains(&v, &double) {
        Some(from_chars(&replace(&v, &double, &with)))
    } else if contains(&v, &bare) {
        Some(from_chars(&replace(&v, &bare, &with)))
    } else {
        None
    }
}

fn replace_in_node(n: &Node, from: &Vec<char>, to: &Vec<char>) -> (r: Option<Node>)
    ensures
        match node_with_url(n@, from@, to@) {
            Some(v) => r matches Some(x) && x@ == v,
            None => r is None,
        },
{
    match n {
        Node::Text(t) => match replace_css(t.as_str(), from, to) {
            Some(c) => Some(Node::Text(c)),
            None => None,
        },
        Node::CData(t) => match replace_css(t.as_str(), from, to) {
            Some(c) => Some(Node::CData(c)),
            None => None,
        },
        _ => None,
    }
}

fn replace_in_element(elem: &mut Element, from: &Vec<char>, to: &Vec<char>)
    ensures
        final(elem)@ == with_font_url(old(elem)@, from@, to@),
    decreases *old(elem),
{
    let mut children = take_children(elem);
    let ghost nodes = nodes_view(children@);
    proof {
        lemma_nodes_view_all(children@);
    }
    if elem.is("style") {
        let mut at: usize = 0;
        let mut found: Option<Node> = None;
        while at < children.len() && found.is_none()
            invariant
                at <= children.len(),
                nodes == nodes_view(children@),
                children == old(elem).children,
                match found {
                    Some(x) => at < children.len() && first_sheet(nodes, from@, to@, 0) == at
                        && node_with_url(nodes[at as int], from@, to@) == Some(x@),
                    None => first_sheet(nodes, from@, to@, 0) == first_sheet(
                        nodes,
                        from@,
                        to@,
                        at as int,
                    ),
                },
            decreases children.len() - at + (if found is None { 1int } else { 0int }),
        {
            proof {
                lemma_nodes_view_take(children@, at as int);
            }
            match replace_in_node(&children[at], from, to) {
                Some(x) => {
                    found = Some(x);
                },
                None => {
                    at += 1;
                },
            }
        }
        match found {
            Some(x) => {
                children.set(at, x);
                assert(nodes_view(children@) =~= nodes.update(at as int, x@));
                elem.children = children;
                return;
            },
            None => {},
        }
    }
    let mut kept: Vec<Node> = Vec::new();
    proof {
        lemma_nodes_view_empty();
    }
    for node in it: children
        invariant
            it.seq() == children@,
            children == old(elem).children,
            nodes_view(kept@) == with_font_url_nodes(
                nodes_view(children@.take(it.index())),
                from@,
                to@,
            ),
    {
        proof {
            lemma_nodes_view_take(children@, it.index());
        }
        let ghost before = kept@;
        match node {
            Node::Element(mut c) => {
                replace_in_element(&mut c, from, to);
                kept.push(Node::Element(c));
                proof {
                    lemma_nodes_view_push(before, Node::Element(c));
                }
            },
            other => {
                kept.push(other);
                proof {
                    lemma_nodes_view_push(before, other);
                }
            },
        }
    }
    proof {
        lemma_nodes_view_all(children@);
    }
    elem.children = kept;
}

/// Replaces a font URL in the `style` elements of the document.
pub fn replace_font_url(doc: &mut Document, old_url: &str, new_url: &str)
    ensures
        final(doc)@ == (DocumentView {
            xml_declaration: old(doc)@.xml_declaration,
            doctype: old(doc)@.doctype,
            root: with_font_url(old(doc)@.root, old_url@, new_url@),
        }),
{
    replace_in_element(&mut doc.root, &to_chars(old_url), &to_chars(new_url));
}

} // verus!
