//! Character-level helpers shared by every component.
//!
//! Strings are modelled as `Seq<char>`. The executable helpers work on
//! `Vec<char>`, so that every position is reached in constant time.

use vstd::prelude::*;

verus! {

/// Appends one character to a string.
///
/// Trusted: wraps `String::push`, which appends the given `char` to the end
/// of the string and changes nothing else.
#[verifier::external_body]
pub(crate) fn push_char(s: &mut String, c: char)
    ensures
        final(s)@ == old(s)@.push(c),
{
    s.push(c)
}

/// Whether two string slices hold the same characters.
///
/// Trusted: wraps `==` on `str`, which compares the two slices character by
/// character.
#[verifier::external_body]
pub(crate) fn str_eq(a: &str, b: &str) -> (r: bool)
    ensures
        r == (a@ == b@),
{
    a == b
}

/// The characters of a string, in order.
pub fn to_chars(s: &str) -> (v: Vec<char>)
    ensures
        v@ == s@,
{
    let mut v: Vec<char> = Vec::new();
    for c in it: s.chars()
        invariant
            it.seq() == s@,
            v@ == s@.take(it.index() as int),
    {
        v.push(c);
    }
    v
}

/// The string made of the given characters.
pub fn from_chars(v: &Vec<char>) -> (s: String)
    ensures
        s@ == v@,
{
    let mut s = String::new();
    let mut i: usize = 0;
    while i < v.len()
        invariant
            i <= v.len(),
            s@ == v@.take(i as int),
        decreases v.len() - i,
    {
        push_char(&mut s, v[i]);
        i += 1;
    }
    s
}

/// Unicode `White_Space`.
pub open spec fn is_space(c: char) -> bool {
    let u = c as u32;
    (0x09 <= u <= 0x0D) || u == 0x20 || u == 0x85 || u == 0xA0 || u == 0x1680 || (0x2000 <= u
        <= 0x200A) || u == 0x2028 || u == 0x2029 || u == 0x202F || u == 0x205F || u == 0x3000
}

/// Whether `c` is Unicode whitespace.
pub fn is_whitespace(c: char) -> (r: bool)
    ensures
        r == is_space(c),
{
    let u: u32 = c as u32;
    (0x09 <= u && u <= 0x0D) || u == 0x20 || u == 0x85 || u == 0xA0 || u == 0x1680 || (0x2000 <= u
        && u <= 0x200A) || u == 0x2028 || u == 0x2029 || u == 0x202F || u == 0x205F || u == 0x3000
}

/// The whitespace of the path grammar: space, tab, line feed, form feed, carriage return.
pub open spec fn is_ascii_space(c: char) -> bool {
    c == ' ' || c == '\t' || c == '\n' || c == '\x0C' || c == '\r'
}

/// Whether `c` is whitespace of the path grammar.
pub fn is_ascii_whitespace(c: char) -> (r: bool)
    ensures
        r == is_ascii_space(c),
{
    c == ' ' || c == '\t' || c == '\n' || c == '\x0C' || c == '\r'
}

/// Whether `c` is a decimal digit.
pub open spec fn is_digit(c: char) -> bool {
    '0' <= c <= '9'
}

/// Whether `c` is a decimal digit.
pub fn is_ascii_digit(c: char) -> (r: bool)
    ensures
        r == is_digit(c),
{
    '0' <= c && c <= '9'
}

/// Whether `c` is an ASCII letter.
pub open spec fn is_letter(c: char) -> bool {
    ('a' <= c <= 'z') || ('A' <= c <= 'Z')
}

/// Whether `c` is an ASCII letter.
pub fn is_ascii_alphabetic(c: char) -> (r: bool)
    ensures
        r == is_letter(c),
{
    ('a' <= c && c <= 'z') || ('A' <= c && c <= 'Z')
}

/// The lower-case form of an ASCII letter; every other character is itself.
pub open spec fn lower(c: char) -> char {
    if 'A' <= c <= 'Z' {
        ((c as u32) + 32) as char
    } else {
        c
    }
}

/// The lower-case form of an ASCII letter; every other character is itself.
pub fn to_ascii_lowercase(c: char) -> (r: char)
    ensures
        r == lower(c),
{
    if 'A' <= c && c <= 'Z' {
        let u: u8 = c as u8;
        (u + 32) as char
    } else {
        c
    }
}

/// A copy of `v[lo..hi]`.
pub fn slice(v: &Vec<char>, lo: usize, hi: usize) -> (r: Vec<char>)
    requires
        lo <= hi <= v.len(),
    ensures
        r@ == v@.subrange(lo as int, hi as int),
{
    let mut r: Vec<char> = Vec::new();
    let mut i: usize = lo;
    while i < hi
        invariant
            lo <= i <= hi <= v.len(),
            r@ == v@.subrange(lo as int, i as int),
        decreases hi - i,
    {
        r.push(v[i]);
        i += 1;
    }
    r
}

/// Appends `w` to `out`.
pub fn extend(out: &mut Vec<char>, w: &Vec<char>)
    ensures
        final(out)@ == old(out)@ + w@,
{
    let mut i: usize = 0;
    while i < w.len()
        invariant
            i <= w.len(),
            out@ == old(out)@ + w@.take(i as int),
        decreases w.len() - i,
    {
        out.push(w[i]);
        i += 1;
    }
}

/// Appends the characters of `s` to `out`.
pub fn extend_str(out: &mut Vec<char>, s: &str)
    ensures
        final(out)@ == old(out)@ + s@,
{
    let w = to_chars(s);
    extend(out, &w);
}

/// Whether `a` and `b` hold the same characters.
pub fn chars_eq(a: &Vec<char>, b: &Vec<char>) -> (r: bool)
    ensures
        r == (a@ == b@),
{
    if a.len() != b.len() {
        return false;
    }
    let mut i: usize = 0;
    while i < a.len()
        invariant
            i <= a.len(),
            a.len() == b.len(),
            a@.take(i as int) == b@.take(i as int),
        decreases a.len() - i,
    {
        if a[i] != b[i] {
            return false;
        }
        assert(a@.take(i + 1) == a@.take(i as int).push(a@[i as int]));
        assert(b@.take(i + 1) == b@.take(i as int).push(b@[i as int]));
        i += 1;
    }
    assert(a@.take(a.len() as int) == a@);
    assert(b@.take(b.len() as int) == b@);
    true
}

/// The first position from `from` on that holds `c`; the length where none does.
pub open spec fn first_index(s: Seq<char>, c: char, from: int) -> int
    decreases s.len() - from,
{
    if 0 <= from < s.len() && s[from] != c {
        first_index(s, c, from + 1)
    } else {
        from
    }
}

/// The first position from `from` on that holds `c`; the length where none
/// does.
pub fn find_char(v: &Vec<char>, c: char, from: usize) -> (r: usize)
    requires
        from <= v.len(),
    ensures
        from <= r <= v.len(),
        r == first_index(v@, c, from as int),
{
    let mut i: usize = from;
    while i < v.len() && v[i] != c
        invariant
            from <= i <= v.len(),
            first_index(v@, c, from as int) == first_index(v@, c, i as int),
        decreases v.len() - i,
    {
        i += 1;
    }
    i
}

/// Whether `p` stands in `s` at position `at`.
pub open spec fn occurs_at(s: Seq<char>, p: Seq<char>, at: int) -> bool {
    0 <= at && at + p.len() <= s.len() && s.subrange(at, at + p.len()) == p
}

/// Whether `s` begins with `p`.
pub open spec fn has_prefix(s: Seq<char>, p: Seq<char>) -> bool {
    occurs_at(s, p, 0)
}

/// Whether `p` stands in `v` at position `at`.
pub fn matches_at(v: &Vec<char>, p: &Vec<char>, at: usize) -> (r: bool)
    requires
        at <= v.len(),
    ensures
        r == occurs_at(v@, p@, at as int),
{
    if p.len() > v.len() - at {
        return false;
    }
    let mut i: usize = 0;
    while i < p.len()
        invariant
            i <= p.len(),
            at + p.len() <= v.len(),
            v@.subrange(at as int, at + i) == p@.take(i as int),
        decreases p.len() - i,
    {
        if v[at + i] != p[i] {
            proof {
                assert(v@.subrange(at as int, at + p.len())[i as int] != p@[i as int]);
            }
            return false;
        }
        proof {
            assert(v@.subrange(at as int, at + i + 1) == v@.subrange(at as int, at + i).push(
                v@[at + i],
            ));
            assert(p@.take(i + 1) == p@.take(i as int).push(p@[i as int]));
        }
        i += 1;
    }
    proof {
        assert(p@.take(p.len() as int) == p@);
    }
    true
}

/// Whether `v` begins with `p`.
pub fn starts_with(v: &Vec<char>, p: &Vec<char>) -> (r: bool)
    ensures
        r == has_prefix(v@, p@),
{
    matches_at(v, p, 0)
}

/// The first position from `from` on at which `p` stands in `s`; the
/// length of `s` where it stands nowhere.
pub open spec fn first_occurrence(s: Seq<char>, p: Seq<char>, from: int) -> int
    decreases s.len() - from,
{
    if 0 <= from < s.len() && !occurs_at(s, p, from) {
        first_occurrence(s, p, from + 1)
    } else {
        from
    }
}

/// Whether `p` stands somewhere in `s`.
pub open spec fn has_substring(s: Seq<char>, p: Seq<char>) -> bool {
    exists|at: int| occurs_at(s, p, at)
}

/// Where `first_occurrence` points, `p` stands, and nowhere before it.
pub proof fn lemma_first_occurrence(s: Seq<char>, p: Seq<char>, from: int)
    requires
        0 <= from <= s.len(),
    ensures
        from <= first_occurrence(s, p, from) <= s.len(),
        first_occurrence(s, p, from) < s.len() ==> occurs_at(s, p, first_occurrence(s, p, from)),
        forall|i: int| from <= i < first_occurrence(s, p, from) ==> !occurs_at(s, p, i),
    decreases s.len() - from,
{
    if from < s.len() && !occurs_at(s, p, from) {
        lemma_first_occurrence(s, p, from + 1);
    }
}

/// The first position from `from` on at which `p` stands in `v`; the length of
/// `v` where it stands nowhere.
pub fn find(v: &Vec<char>, p: &Vec<char>, from: usize) -> (r: usize)
    requires
        from <= v.len(),
    ensures
        from <= r <= v.len(),
        r == first_occurrence(v@, p@, from as int),
{
    let mut i: usize = from;
    while i < v.len() && !matches_at(v, p, i)
        invariant
            from <= i <= v.len(),
            first_occurrence(v@, p@, from as int) == first_occurrence(v@, p@, i as int),
        decreases v.len() - i,
    {
        i += 1;
    }
    i
}

/// Whether `p` stands somewhere in `v`.
pub fn contains(v: &Vec<char>, p: &Vec<char>) -> (r: bool)
    ensures
        r == has_substring(v@, p@),
{
    let at = find(v, p, 0);
    proof {
        lemma_first_occurrence(v@, p@, 0);
    }
    if at < v.len() {
        true
    } else {
        let r = matches_at(v, p, at);
        proof {
            if !r {
                assert forall|i: int| !occurs_at(v@, p@, i) by {
                    if 0 <= i < v.len() {
                    } else if i == v.len() {
                    } else {
                    }
                }
            }
        }
        r
    }
}

/// Where the leading whitespace of `s` ends.
pub open spec fn trim_start_index(s: Seq<char>, from: int) -> int
    decreases s.len() - from,
{
    if 0 <= from < s.len() && is_space(s[from]) {
        trim_start_index(s, from + 1)
    } else {
        from
    }
}

/// Where the trailing whitespace of `s` starts, looking no further back than `lo`.
pub open spec fn trim_end_index(s: Seq<char>, lo: int, to: int) -> int
    decreases to,
{
    if 0 <= lo < to <= s.len() && is_space(s[to - 1]) {
        trim_end_index(s, lo, to - 1)
    } else {
        to
    }
}

/// `s` without leading and trailing whitespace.
pub open spec fn trimmed(s: Seq<char>) -> Seq<char> {
    let lo = trim_start_index(s, 0);
    let hi = trim_end_index(s, lo, s.len() as int);
    s.subrange(lo, hi)
}

/// The bounds of `v[lo..hi]` without its leading and trailing whitespace.
pub fn trim_range(v: &Vec<char>, lo: usize, hi: usize) -> (r: (usize, usize))
    requires
        lo <= hi <= v.len(),
    ensures
        lo <= r.0 <= r.1 <= hi,
        v@.subrange(r.0 as int, r.1 as int) == trimmed(v@.subrange(lo as int, hi as int)),
{
    let ghost s = v@.subrange(lo as int, hi as int);
    let mut a: usize = lo;
    while a < hi && is_whitespace(v[a])
        invariant
            lo <= a <= hi <= v.len(),
            s == v@.subrange(lo as int, hi as int),
            trim_start_index(s, 0) == trim_start_index(s, a - lo),
        decreases hi - a,
    {
        assert(s[a - lo] == v@[a as int]);
        a += 1;
    }
    assert(a < hi ==> s[a - lo] == v@[a as int]);
    let mut b: usize = hi;
    while b > a && is_whitespace(v[b - 1])
        invariant
            lo <= a <= b <= hi <= v.len(),
            s == v@.subrange(lo as int, hi as int),
            trim_end_index(s, a - lo, s.len() as int) == trim_end_index(s, a - lo, b - lo),
        decreases b,
    {
        assert(s[b - 1 - lo] == v@[b - 1]);
        b -= 1;
    }
    assert(b > a ==> s[b - 1 - lo] == v@[b - 1]);
    assert(s.subrange(a - lo, b - lo) == v@.subrange(a as int, b as int));
    (a, b)
}

/// `v` without leading and trailing whitespace.
pub fn trim(v: &Vec<char>) -> (r: Vec<char>)
    ensures
        r@ == trimmed(v@),
{
    let (a, b) = trim_range(v, 0, v.len());
    assert(v@.subrange(0, v.len() as int) == v@);
    slice(v, a, b)
}

/// Whether `s` is empty once trimmed.
pub open spec fn is_blank(s: Seq<char>) -> bool {
    trimmed(s).len() == 0
}

/// Whether `s` is empty once trimmed.
pub fn blank(s: &str) -> (r: bool)
    ensures
        r == is_blank(s@),
{
    let v = to_chars(s);
    let t = trim(&v);
    t.len() == 0
}

/// The pieces of `s` between the occurrences of `c`, from `from` on.
pub open spec fn split_from(s: Seq<char>, c: char, from: int) -> Seq<Seq<char>>
    decreases s.len() - from,
{
    let at = first_index(s, c, from);
    if 0 <= from <= at < s.len() {
        seq![s.subrange(from, at)] + split_from(s, c, at + 1)
    } else {
        seq![s.subrange(from, s.len() as int)]
    }
}

/// The pieces of `s` between the occurrences of `c`.
pub open spec fn split(s: Seq<char>, c: char) -> Seq<Seq<char>> {
    split_from(s, c, 0)
}

/// The model of a list of pieces.
pub open spec fn pieces_view(v: Seq<Vec<char>>) -> Seq<Seq<char>> {
    Seq::new(v.len(), |i: int| v[i]@)
}

/// The pieces of `v` between the occurrences of `c`.
pub fn split_on(v: &Vec<char>, c: char) -> (r: Vec<Vec<char>>)
    ensures
        pieces_view(r@) == split(v@, c),
{
    let mut r: Vec<Vec<char>> = Vec::new();
    let mut from: usize = 0;
    loop
        invariant_except_break
            from <= v.len(),
            split(v@, c) == pieces_view(r@) + split_from(v@, c, from as int),
        ensures
            pieces_view(r@) == split(v@, c),
        decreases v.len() - from,
    {
        let at = find_char(v, c, from);
        let ghost before = pieces_view(r@);
        if at < v.len() {
            r.push(slice(v, from, at));
            proof {
                assert(pieces_view(r@) == before.push(v@.subrange(from as int, at as int)));
                assert(before + (seq![v@.subrange(from as int, at as int)] + split_from(
                    v@,
                    c,
                    at + 1,
                )) == before.push(v@.subrange(from as int, at as int)) + split_from(v@, c, at + 1));
            }
            from = at + 1;
        } else {
            r.push(slice(v, from, v.len()));
            proof {
                assert(pieces_view(r@) == before.push(v@.subrange(from as int, v.len() as int)));
                assert(before + seq![v@.subrange(from as int, v.len() as int)] == before.push(
                    v@.subrange(from as int, v.len() as int),
                ));
            }
            break;
        }
    }
    r
}

/// `s` cut at the first occurrence of `c`, which belongs to neither part.
pub open spec fn cut(s: Seq<char>, c: char) -> Option<(Seq<char>, Seq<char>)> {
    let at = first_index(s, c, 0);
    if at < s.len() {
        Some((s.take(at), s.skip(at + 1)))
    } else {
        None
    }
}

/// `v` cut at the first occurrence of `c`.
pub fn split_once(v: &Vec<char>, c: char) -> (r: Option<(Vec<char>, Vec<char>)>)
    ensures
        match cut(v@, c) {
            Some((a, b)) => r matches Some((x, y)) && x@ == a && y@ == b,
            None => r is None,
        },
{
    let at = find_char(v, c, 0);
    if at < v.len() {
        let a = slice(v, 0, at);
        let b = slice(v, at + 1, v.len());
        assert(v@.subrange(0, at as int) == v@.take(at as int));
        assert(v@.subrange(at + 1, v.len() as int) == v@.skip(at + 1));
        Some((a, b))
    } else {
        None
    }
}

/// Whether `v` holds exactly the characters of `lit`.
pub fn is_text(v: &Vec<char>, lit: &str) -> (r: bool)
    ensures
        r == (v@ == lit@),
{
    let w = to_chars(lit);
    chars_eq(v, &w)
}

/// Where the run of `c` that starts at `from` ends.
pub open spec fn run_end(s: Seq<char>, c: char, from: int) -> int
    decreases s.len() - from,
{
    if 0 <= from < s.len() && s[from] == c {
        run_end(s, c, from + 1)
    } else {
        from
    }
}

/// Where the run of `c` that ends at `to` starts, looking no further back than `lo`.
pub open spec fn run_start(s: Seq<char>, c: char, lo: int, to: int) -> int
    decreases to,
{
    if 0 <= lo < to <= s.len() && s[to - 1] == c {
        run_start(s, c, lo, to - 1)
    } else {
        to
    }
}

/// `s` without the `c` at its start and at its end, however many there are.
pub open spec fn stripped(s: Seq<char>, c: char) -> Seq<char> {
    let lo = run_end(s, c, 0);
    let hi = run_start(s, c, lo, s.len() as int);
    s.subrange(lo, hi)
}

/// `v` without the `c` at its start and at its end.
pub fn strip(v: &Vec<char>, c: char) -> (r: Vec<char>)
    ensures
        r@ == stripped(v@, c),
{
    let mut a: usize = 0;
    while a < v.len() && v[a] == c
        invariant
            a <= v.len(),
            run_end(v@, c, 0) == run_end(v@, c, a as int),
        decreases v.len() - a,
    {
        a += 1;
    }
    let mut b: usize = v.len();
    while b > a && v[b - 1] == c
        invariant
            a <= b <= v.len(),
            run_start(v@, c, a as int, v.len() as int) == run_start(v@, c, a as int, b as int),
        decreases b,
    {
        b -= 1;
    }
    slice(v, a, b)
}

/// `s` from `from` on, with `with` in place of every occurrence of the
/// non-empty `pat`, found from left to right without overlap.
pub open spec fn replaced_from(s: Seq<char>, pat: Seq<char>, with: Seq<char>, from: int) -> Seq<
    char,
>
    decreases s.len() - from,
{
    let at = first_occurrence(s, pat, from);
    if 0 <= from <= at < s.len() && pat.len() > 0 && at + pat.len() <= s.len() {
        s.subrange(from, at) + with + replaced_from(s, pat, with, at + pat.len())
    } else if 0 <= from <= s.len() {
        s.subrange(from, s.len() as int)
    } else {
        Seq::empty()
    }
}

/// `s` with `with` in place of every occurrence of `pat`.
pub open spec fn replaced(s: Seq<char>, pat: Seq<char>, with: Seq<char>) -> Seq<char> {
    replaced_from(s, pat, with, 0)
}

/// `v` with `with` in place of every occurrence of `pat`.
pub fn replace(v: &Vec<char>, pat: &Vec<char>, with: &Vec<char>) -> (r: Vec<char>)
    requires
        pat.len() > 0,
    ensures
        r@ == replaced(v@, pat@, with@),
{
    let mut out: Vec<char> = Vec::new();
    let mut from: usize = 0;
    loop
        invariant_except_break
            from <= v.len(),
            pat.len() > 0,
            replaced(v@, pat@, with@) == out@ + replaced_from(v@, pat@, with@, from as int),
        ensures
            out@ == replaced(v@, pat@, with@),
        decreases v.len() - from,
    {
        let at = find(v, pat, from);
        let ghost before = out@;
        if at < v.len() {
            proof {
                lemma_first_occurrence(v@, pat@, from as int);
            }
            extend(&mut out, &slice(v, from, at));
            extend(&mut out, with);
            proof {
                assert(before + (v@.subrange(from as int, at as int) + with@ + replaced_from(
                    v@,
                    pat@,
                    with@,
                    at + pat.len(),
                )) == out@ + replaced_from(v@, pat@, with@, at + pat.len()));
            }
            from = at + pat.len();
        } else {
            extend(&mut out, &slice(v, from, v.len()));
            break;
        }
    }
    out
}

} // verus!
