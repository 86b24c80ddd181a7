//! Exact decimal numbers, as the path micro-language writes them.
//!
//! A coordinate is kept as the decimal digits that were read, so rounding to a
//! number of fractional digits and printing are exact operations on digits.

use vstd::prelude::*;

use crate::error::PathError;
use crate::text::{from_chars, is_digit};

verus! {

/// A decimal number: sign, integer digits and fractional digits, most
/// significant digit first. Leading and trailing zeros are allowed.
pub struct NumberView {
    pub negative: bool,
    pub int_digits: Seq<u8>,
    pub frac_digits: Seq<u8>,
}

/// A decimal number, as exact digits.
#[derive(Debug, PartialEq, Eq)]
pub struct Number {
    negative: bool,
    int_digits: Vec<u8>,
    frac_digits: Vec<u8>,
}

/// Whether every digit is at most nine.
pub open spec fn all_digits(s: Seq<u8>) -> bool {
    forall|i: int| 0 <= i < s.len() ==> #[trigger] s[i] <= 9
}

/// A number's digits are decimal digits.
pub open spec fn valid_number(n: NumberView) -> bool {
    all_digits(n.int_digits) && all_digits(n.frac_digits)
}

/// Whether every digit is zero.
pub open spec fn all_zero(s: Seq<u8>) -> bool {
    forall|i: int| 0 <= i < s.len() ==> #[trigger] s[i] == 0
}

/// `n` zeros.
pub open spec fn zeros(n: nat) -> Seq<u8> {
    Seq::new(n, |i: int| 0u8)
}

/// The digits of `s + 1`; one digit longer than `s` when `s` is all nines.
pub open spec fn increment(s: Seq<u8>) -> Seq<u8>
    decreases s.len(),
{
    if s.len() == 0 {
        seq![1u8]
    } else if s.last() < 9 {
        s.drop_last().push((s.last() + 1) as u8)
    } else {
        increment(s.drop_last()).push(0u8)
    }
}

/// The digits without the zeros at their start.
pub open spec fn strip_leading_zeros(s: Seq<u8>) -> Seq<u8>
    decreases s.len(),
{
    if s.len() > 0 && s[0] == 0 {
        strip_leading_zeros(s.drop_first())
    } else {
        s
    }
}

/// The digits without the zeros at their end.
pub open spec fn strip_trailing_zeros(s: Seq<u8>) -> Seq<u8>
    decreases s.len(),
{
    if s.len() > 0 && s.last() == 0 {
        strip_trailing_zeros(s.drop_last())
    } else {
        s
    }
}

/// The character that writes a digit.
pub open spec fn digit_char(d: u8) -> char {
    (d + 48) as char
}

/// The characters that write the digits.
pub open spec fn digit_chars(s: Seq<u8>) -> Seq<char> {
    Seq::new(s.len(), |i: int| digit_char(s[i]))
}

/// The magnitude rounded half away from zero to `k` fractional digits:
/// integer digits and at most `k` fractional digits.
pub open spec fn rounded(n: NumberView, k: nat) -> (Seq<u8>, Seq<u8>) {
    if n.frac_digits.len() <= k {
        (n.int_digits, n.frac_digits)
    } else {
        let kept = n.int_digits + n.frac_digits.take(k as int);
        let d = if n.frac_digits[k as int] >= 5 {
            increment(kept)
        } else {
            kept
        };
        (d.take(d.len() - k), d.skip(d.len() - k))
    }
}

/// The shortest text of the number rounded to `k` fractional digits: no
/// leading zeros, no zero before the point, no trailing zeros after it, no
/// point without a fraction, no sign on zero.
pub open spec fn formatted(n: NumberView, k: nat) -> Seq<char> {
    let (i, f) = rounded(n, k);
    written(n.negative, strip_leading_zeros(i), strip_trailing_zeros(f))
}

impl View for Number {
    type V = NumberView;

    closed spec fn view(&self) -> NumberView {
        NumberView {
            negative: self.negative,
            int_digits: self.int_digits@,
            frac_digits: self.frac_digits@,
        }
    }
}

/// Adding one to digits gives digits, at most one more.
pub proof fn lemma_increment_digits(s: Seq<u8>)
    requires
        all_digits(s),
    ensures
        all_digits(increment(s)),
        s.len() <= increment(s).len() <= s.len() + 1,
    decreases s.len(),
{
    if s.len() == 0 {
    } else if s.last() < 9 {
    } else {
        lemma_increment_digits(s.drop_last());
    }
}

fn add_one(v: &mut Vec<u8>)
    requires
        all_digits(old(v)@),
    ensures
        final(v)@ == increment(old(v)@),
        all_digits(final(v)@),
{
    proof {
        lemma_increment_digits(v@);
    }
    let mut i: usize = v.len();
    proof {
        assert(v@.take(v.len() as int) == v@);
        assert(v@ + zeros(0) == v@);
        assert(increment(v@) + zeros(0) == increment(v@));
    }
    while i > 0 && v[i - 1] == 9
        invariant
            i <= v.len(),
            v.len() == old(v).len(),
            v@ == old(v)@.take(i as int) + zeros((v.len() - i) as nat),
            increment(old(v)@) == increment(old(v)@.take(i as int)) + zeros((v.len() - i) as nat),
        decreases i,
    {
        let ghost before = v@;
        v.set(i - 1, 0);
        proof {
            let o = old(v)@;
            assert(o.take(i as int).drop_last() == o.take(i - 1));
            assert(v@ == o.take(i - 1) + zeros((v.len() - (i - 1)) as nat));
            assert(increment(o.take(i as int)) == increment(o.take(i - 1)).push(0u8));
            assert(increment(o.take(i - 1)).push(0u8) + zeros((v.len() - i) as nat) == increment(
                o.take(i - 1),
            ) + zeros((v.len() - (i - 1)) as nat));
        }
        i -= 1;
    }
    if i == 0 {
        proof {
            assert(old(v)@.take(0) == Seq::<u8>::empty());
            assert(v@ == zeros(v.len() as nat));
        }
        v.insert(0, 1);
        assert(v@ == seq![1u8] + zeros(old(v).len() as nat));
    } else {
        let d: u8 = v[i - 1];
        v.set(i - 1, d + 1);
        proof {
            let o = old(v)@;
            assert(o.take(i as int).drop_last() == o.take(i - 1));
            assert(o.take(i as int).last() == d);
            assert(v@ == o.take(i - 1).push((d + 1) as u8) + zeros((v.len() - i) as nat));
        }
    }
}

fn push_digits(out: &mut Vec<char>, v: &Vec<u8>, lo: usize, hi: usize)
    requires
        lo <= hi <= v.len(),
        all_digits(v@),
    ensures
        final(out)@ == old(out)@ + digit_chars(v@.subrange(lo as int, hi as int)),
{
    let mut i: usize = lo;
    while i < hi
        invariant
            lo <= i <= hi <= v.len(),
            all_digits(v@),
            out@ == old(out)@ + digit_chars(v@.subrange(lo as int, i as int)),
        decreases hi - i,
    {
        let d: u8 = v[i];
        out.push((d + 48) as char);
        assert(digit_chars(v@.subrange(lo as int, i + 1)) == digit_chars(
            v@.subrange(lo as int, i as int),
        ).push(digit_char(d)));
        i += 1;
    }
}

proof fn lemma_strip_leading(s: Seq<u8>, a: int)
    requires
        0 <= a <= s.len(),
        all_zero(s.take(a)),
        a < s.len() ==> s[a] != 0,
    ensures
        strip_leading_zeros(s) == s.skip(a),
    decreases a,
{
    if a == 0 {
        assert(s.skip(0) == s);
    } else {
        assert(s.take(a)[0] == 0);
        let t = s.drop_first();
        assert(t.take(a - 1) == s.take(a).drop_first());
        assert forall|i: int| 0 <= i < a - 1 implies #[trigger] t.take(a - 1)[i] == 0 by {
            assert(s.take(a)[i + 1] == 0);
        }
        lemma_strip_leading(t, a - 1);
        assert(t.skip(a - 1) == s.skip(a));
    }
}

proof fn lemma_strip_trailing(s: Seq<u8>, b: int)
    requires
        0 <= b <= s.len(),
        all_zero(s.skip(b)),
        b > 0 ==> s[b - 1] != 0,
    ensures
        strip_trailing_zeros(s) == s.take(b),
    decreases s.len() - b,
{
    if b == s.len() {
        assert(s.take(b) == s);
    } else {
        assert(s.skip(b)[s.len() - b - 1] == 0);
        let t = s.drop_last();
        assert forall|i: int| 0 <= i < t.len() - b implies #[trigger] t.skip(b)[i] == 0 by {
            assert(s.skip(b)[i] == 0);
        }
        lemma_strip_trailing(t, b);
        assert(t.take(b) == s.take(b));
    }
}

impl Number {
    #[verifier::type_invariant]
    spec fn inv(self) -> bool {
        all_digits(self.int_digits@) && all_digits(self.frac_digits@)
    }

    /// Whether the number carries a minus sign.
    pub fn is_negative(&self) -> (r: bool)
        ensures
            r == self@.negative,
    {
        self.negative
    }

    /// The digits of the rounded magnitude and where its fraction starts.
    fn rounded_digits(&self, precision: u8) -> (r: (Vec<u8>, usize))
        ensures
            r.1 <= r.0.len(),
            all_digits(r.0@),
            r.0@.take(r.1 as int) == rounded(self@, precision as nat).0,
            r.0@.skip(r.1 as int) == rounded(self@, precision as nat).1,
    {
        proof {
            use_type_invariant(self);
        }
        let k: usize = precision as usize;
        let mut digits: Vec<u8> = Vec::new();
        let mut i: usize = 0;
        while i < self.int_digits.len()
            invariant
                i <= self.int_digits.len(),
                digits@ == self.int_digits@.take(i as int),
            decreases self.int_digits.len() - i,
        {
            digits.push(self.int_digits[i]);
            i += 1;
        }
        assert(self.int_digits@.take(self.int_digits.len() as int) == self.int_digits@);
        let frac_len: usize = if self.frac_digits.len() <= k {
            self.frac_digits.len()
        } else {
            k
        };
        let mut j: usize = 0;
        while j < frac_len
            invariant
                j <= frac_len <= self.frac_digits.len(),
                digits@ == self.int_digits@ + self.frac_digits@.take(j as int),
            decreases frac_len - j,
        {
            digits.push(self.frac_digits[j]);
            j += 1;
        }
        assert(all_digits(digits@));
        let ghost kept = digits@;
        if self.frac_digits.len() > k && self.frac_digits[k] >= 5 {
            add_one(&mut digits);
        }
        proof {
            if self.frac_digits.len() <= k {
                assert(self.frac_digits@.take(frac_len as int) == self.frac_digits@);
                assert(digits@.take(digits.len() - frac_len) == self.int_digits@);
                assert(digits@.skip(digits.len() - frac_len) == self.frac_digits@);
            } else {
                lemma_increment_digits(kept);
            }
        }
        let split: usize = digits.len() - frac_len;
        (digits, split)
    }

    /// The text of the number rounded to `precision` fractional digits.
    pub fn format_chars(&self, precision: u8) -> (out: Vec<char>)
        ensures
            out@ == formatted(self@, precision as nat),
    {
        let (digits, split) = self.rounded_digits(precision);
        let (a, b) = significant(&digits, split);
        write_digits(self.negative, &digits, a, split, b)
    }
}

impl Clone for Number {
    fn clone(&self) -> (r: Number)
        ensures
            r@ == self@,
    {
        proof {
            use_type_invariant(self);
        }
        let mut i: Vec<u8> = Vec::new();
        push_range(&mut i, &self.int_digits, 0, self.int_digits.len());
        let mut f: Vec<u8> = Vec::new();
        push_range(&mut f, &self.frac_digits, 0, self.frac_digits.len());
        assert(self.int_digits@.subrange(0, self.int_digits.len() as int) == self.int_digits@);
        assert(self.frac_digits@.subrange(0, self.frac_digits.len() as int) == self.frac_digits@);
        assert(i@ == self.int_digits@);
        assert(f@ == self.frac_digits@);
        Number { negative: self.negative, int_digits: i, frac_digits: f }
    }
}

/// Where the digits that carry value start and end: after the leading
/// zeros of the integer part, before the trailing zeros of the fraction.
fn significant(digits: &Vec<u8>, split: usize) -> (r: (usize, usize))
    requires
        split <= digits.len(),
    ensures
        r.0 <= split <= r.1 <= digits.len(),
        strip_leading_zeros(digits@.take(split as int)) == digits@.subrange(
            r.0 as int,
            split as int,
        ),
        strip_trailing_zeros(digits@.skip(split as int)) == digits@.subrange(
            split as int,
            r.1 as int,
        ),
{
    let ghost ri = digits@.take(split as int);
    let ghost rf = digits@.skip(split as int);
    let mut a: usize = 0;
    while a < split && digits[a] == 0
        invariant
            a <= split <= digits.len(),
            forall|j: int| 0 <= j < a ==> digits@[j] == 0,
        decreases split - a,
    {
        a += 1;
    }
    let mut b: usize = digits.len();
    while b > split && digits[b - 1] == 0
        invariant
            split <= b <= digits.len(),
            forall|j: int| b <= j < digits.len() ==> digits@[j] == 0,
        decreases b,
    {
        b -= 1;
    }
    proof {
        assert forall|j: int| 0 <= j < ri.take(a as int).len() implies #[trigger] ri.take(
            a as int,
        )[j] == 0 by {
            assert(digits@[j] == 0);
        }
        assert forall|j: int| 0 <= j < rf.skip(b - split).len() implies #[trigger] rf.skip(
            b - split,
        )[j] == 0 by {
            assert(digits@[j + b] == 0);
        }
        lemma_strip_leading(ri, a as int);
        lemma_strip_trailing(rf, b - split);
        assert(ri.skip(a as int) == digits@.subrange(a as int, split as int));
        assert(rf.take(b - split) == digits@.subrange(split as int, b as int));
    }
    (a, b)
}

/// The text of a number with the given sign, integer digits and
/// fractional digits: `0` where it has no digit at all, else an optional
/// `-`, the integer digits and, where there is a fraction, a point and the
/// fractional digits.
pub open spec fn written(negative: bool, i: Seq<u8>, f: Seq<u8>) -> Seq<char> {
    if i.len() == 0 && f.len() == 0 {
        seq!['0']
    } else {
        (if negative {
            seq!['-']
        } else {
            Seq::<char>::empty()
        }) + digit_chars(i) + (if f.len() > 0 {
            seq!['.'] + digit_chars(f)
        } else {
            Seq::<char>::empty()
        })
    }
}

fn write_digits(negative: bool, digits: &Vec<u8>, a: usize, split: usize, b: usize) -> (out: Vec<
    char,
>)
    requires
        a <= split <= b <= digits.len(),
        all_digits(digits@),
    ensures
        out@ == written(
            negative,
            digits@.subrange(a as int, split as int),
            digits@.subrange(split as int, b as int),
        ),
{
    let mut out: Vec<char> = Vec::new();
    if a == split && b == split {
        out.push('0');
        assert(out@ == seq!['0']);
        return out;
    }
    if negative {
        out.push('-');
    }
    let ghost sign = out@;
    assert(sign == if negative {
        seq!['-']
    } else {
        Seq::<char>::empty()
    });
    push_digits(&mut out, digits, a, split);
    if b > split {
        let ghost before = out@;
        out.push('.');
        push_digits(&mut out, digits, split, b);
        assert(out@ == before + (seq!['.'] + digit_chars(
            digits@.subrange(split as int, b as int),
        )));
    } else {
        assert(out@ == out@ + Seq::<char>::empty());
    }
    out
}

/// Where the run of digits that starts at `pos` ends.
pub open spec fn digits_end(s: Seq<char>, pos: int) -> int
    decreases s.len() - pos,
{
    if 0 <= pos < s.len() && is_digit(s[pos]) {
        digits_end(s, pos + 1)
    } else {
        pos
    }
}

/// Whether a sign stands at `pos`.
pub open spec fn is_sign(s: Seq<char>, pos: int) -> bool {
    0 <= pos < s.len() && (s[pos] == '-' || s[pos] == '+')
}

/// Whether a minus sign stands at `pos`.
pub open spec fn is_minus(s: Seq<char>, pos: int) -> bool {
    0 <= pos < s.len() && s[pos] == '-'
}

/// Whether a point stands at `pos`.
pub open spec fn is_dot(s: Seq<char>, pos: int) -> bool {
    0 <= pos < s.len() && s[pos] == '.'
}

/// Whether `e` or `E` stands at `pos`.
pub open spec fn is_exponent_mark(s: Seq<char>, pos: int) -> bool {
    0 <= pos < s.len() && (s[pos] == 'e' || s[pos] == 'E')
}

/// The digit that a character writes.
pub open spec fn digit_value(c: char) -> u8 {
    (c as u32 - 48) as u8
}

/// The digits that the characters write.
pub open spec fn digit_values(s: Seq<char>) -> Seq<u8> {
    Seq::new(s.len(), |i: int| digit_value(s[i]))
}

/// The natural number that a digit string writes.
pub open spec fn decimal(s: Seq<u8>) -> nat
    decreases s.len(),
{
    if s.len() == 0 {
        0
    } else {
        decimal(s.drop_last()) * 10 + s.last() as nat
    }
}

/// The parts of the longest text at `start` that has the shape of a number:
/// an optional sign, digits, an optional point with digits, an optional
/// exponent mark with an optional sign and digits.
pub struct Lexeme {
    pub start: int,
    pub int_start: int,
    pub int_end: int,
    pub frac_end: int,
    pub exp_start: int,
    pub end: int,
}

/// The parts of the number-shaped text at `pos`.
pub open spec fn lexeme_at(s: Seq<char>, pos: int) -> Lexeme {
    let int_start = if is_sign(s, pos) {
        pos + 1
    } else {
        pos
    };
    let int_end = digits_end(s, int_start);
    let frac_end = if is_dot(s, int_end) {
        digits_end(s, int_end + 1)
    } else {
        int_end
    };
    let exp_start = if is_exponent_mark(s, frac_end) {
        if is_sign(s, frac_end + 1) {
            frac_end + 2
        } else {
            frac_end + 1
        }
    } else {
        frac_end
    };
    let end = if is_exponent_mark(s, frac_end) {
        digits_end(s, exp_start)
    } else {
        frac_end
    };
    Lexeme { start: pos, int_start, int_end, frac_end, exp_start, end }
}

impl Lexeme {
    /// The digits before the point.
    pub open spec fn int_digits(self, s: Seq<char>) -> Seq<u8> {
        digit_values(s.subrange(self.int_start, self.int_end))
    }

    /// The digits after the point.
    pub open spec fn frac_digits(self, s: Seq<char>) -> Seq<u8> {
        if is_dot(s, self.int_end) {
            digit_values(s.subrange(self.int_end + 1, self.frac_end))
        } else {
            Seq::empty()
        }
    }

    /// The digits of the exponent.
    pub open spec fn exponent_digits(self, s: Seq<char>) -> Seq<u8> {
        digit_values(s.subrange(self.exp_start, self.end))
    }

    /// The exponent: how many places the point moves to the right.
    pub open spec fn exponent(self, s: Seq<char>) -> int {
        if is_minus(s, self.frac_end + 1) {
            -(decimal(self.exponent_digits(s)) as int)
        } else {
            decimal(self.exponent_digits(s)) as int
        }
    }

    /// A number has a digit before or after the point, a digit after an
    /// exponent mark, and an exponent that the machine can count to.
    pub open spec fn valid(self, s: Seq<char>) -> bool {
        &&& self.int_digits(s).len() + self.frac_digits(s).len() >= 1
        &&& is_exponent_mark(s, self.frac_end) ==> self.exp_start < self.end
        &&& decimal(self.exponent_digits(s)) <= usize::MAX
    }

    /// The number that the text writes.
    pub open spec fn number(self, s: Seq<char>) -> NumberView {
        let (i, f) = shifted(self.int_digits(s), self.frac_digits(s), self.exponent(s));
        NumberView { negative: is_minus(s, self.start), int_digits: i, frac_digits: f }
    }
}

/// The smaller of two integers.
pub open spec fn min(a: int, b: int) -> int {
    if a <= b {
        a
    } else {
        b
    }
}

/// The digits before and after the point once it has moved `e` places to
/// the right (to the left where `e` is negative).
pub open spec fn shifted(int_digits: Seq<u8>, frac_digits: Seq<u8>, e: int) -> (Seq<u8>, Seq<u8>) {
    if e >= 0 {
        let m = min(e, frac_digits.len() as int);
        (int_digits + frac_digits.take(m) + zeros((e - m) as nat), frac_digits.skip(m))
    } else {
        let m = min(-e, int_digits.len() as int);
        (
            int_digits.take(int_digits.len() - m),
            zeros((-e - m) as nat) + int_digits.skip(int_digits.len() - m) + frac_digits,
        )
    }
}

/// The number written at `pos`, and where it ends.
pub open spec fn number_at(s: Seq<char>, pos: int) -> Result<(NumberView, int), PathError> {
    let lx = lexeme_at(s, pos);
    if lx.end == lx.start {
        Err(PathError::ExpectedNumber)
    } else if !lx.valid(s) {
        Err(PathError::InvalidNumber { start: lx.start as usize, end: lx.end as usize })
    } else {
        Ok((lx.number(s), lx.end))
    }
}

fn scan_digits(v: &Vec<char>, pos: usize) -> (r: usize)
    requires
        pos <= v.len(),
    ensures
        pos <= r <= v.len(),
        r == digits_end(v@, pos as int),
        forall|i: int| pos <= i < r ==> is_digit(#[trigger] v@[i]),
{
    let mut i: usize = pos;
    while i < v.len() && crate::text::is_ascii_digit(v[i])
        invariant
            pos <= i <= v.len(),
            digits_end(v@, pos as int) == digits_end(v@, i as int),
            forall|j: int| pos <= j < i ==> is_digit(#[trigger] v@[j]),
        decreases v.len() - i,
    {
        i += 1;
    }
    i
}

fn sign_at(v: &Vec<char>, pos: usize) -> (r: bool)
    requires
        pos <= v.len(),
    ensures
        r == is_sign(v@, pos as int),
{
    pos < v.len() && (v[pos] == '-' || v[pos] == '+')
}

fn minus_at(v: &Vec<char>, pos: usize) -> (r: bool)
    requires
        pos <= v.len(),
    ensures
        r == is_minus(v@, pos as int),
{
    pos < v.len() && v[pos] == '-'
}

/// The digits written in `v[lo..hi]`.
fn read_digits(v: &Vec<char>, lo: usize, hi: usize) -> (r: Vec<u8>)
    requires
        lo <= hi <= v.len(),
        forall|i: int| lo <= i < hi ==> is_digit(#[trigger] v@[i]),
    ensures
        r@ == digit_values(v@.subrange(lo as int, hi as int)),
        r.len() == hi - lo,
        all_digits(r@),
{
    let mut r: Vec<u8> = Vec::new();
    let mut i: usize = lo;
    while i < hi
        invariant
            lo <= i <= hi <= v.len(),
            forall|j: int| lo <= j < hi ==> is_digit(#[trigger] v@[j]),
            r@ == digit_values(v@.subrange(lo as int, i as int)),
            all_digits(r@),
        decreases hi - i,
    {
        let c: char = v[i];
        assert(is_digit(v@[i as int]));
        let d: u8 = (c as u8) - 48;
        r.push(d);
        assert(r@ == digit_values(v@.subrange(lo as int, i + 1)));
        i += 1;
    }
    r
}

/// The beginning of a digit string writes no more than the whole.
proof fn lemma_decimal_grows(s: Seq<u8>, i: int)
    requires
        0 <= i <= s.len(),
    ensures
        decimal(s.take(i)) <= decimal(s),
    decreases s.len() - i,
{
    if i < s.len() {
        assert(s.take(i + 1).drop_last() == s.take(i));
        lemma_decimal_grows(s, i + 1);
    } else {
        assert(s.take(i) == s);
    }
}

/// The value of a digit string, where the machine can count to it.
fn exponent_value(digits: &Vec<u8>) -> (r: Option<usize>)
    requires
        all_digits(digits@),
    ensures
        match r {
            Some(e) => e == decimal(digits@),
            None => decimal(digits@) > usize::MAX,
        },
{
    let mut e: usize = 0;
    let mut i: usize = 0;
    while i < digits.len()
        invariant
            i <= digits.len(),
            all_digits(digits@),
            e == decimal(digits@.take(i as int)),
        decreases digits.len() - i,
    {
        proof {
            assert(digits@.take(i + 1).drop_last() == digits@.take(i as int));
            assert(digits@[i as int] <= 9);
            lemma_decimal_grows(digits@, i + 1);
        }
        let d: usize = digits[i] as usize;
        if e > (usize::MAX - d) / 10 {
            return None;
        }
        e = e * 10 + d;
        i += 1;
    }
    assert(digits@.take(digits.len() as int) == digits@);
    Some(e)
}

fn push_zeros(v: &mut Vec<u8>, n: usize)
    ensures
        final(v)@ == old(v)@ + zeros(n as nat),
{
    let mut i: usize = 0;
    while i < n
        invariant
            i <= n,
            v@ == old(v)@ + zeros(i as nat),
        decreases n - i,
    {
        v.push(0);
        assert(v@ == old(v)@ + zeros((i + 1) as nat));
        i += 1;
    }
}

fn push_range(v: &mut Vec<u8>, w: &Vec<u8>, lo: usize, hi: usize)
    requires
        lo <= hi <= w.len(),
    ensures
        final(v)@ == old(v)@ + w@.subrange(lo as int, hi as int),
{
    let mut i: usize = lo;
    while i < hi
        invariant
            lo <= i <= hi <= w.len(),
            v@ == old(v)@ + w@.subrange(lo as int, i as int),
        decreases hi - i,
    {
        v.push(w[i]);
        assert(v@ == old(v)@ + w@.subrange(lo as int, i + 1));
        i += 1;
    }
}

/// Moves the point `e` places to the right, or to the left where `left` is set.
fn shift(int_digits: &Vec<u8>, frac_digits: &Vec<u8>, e: usize, left: bool) -> (r: (
    Vec<u8>,
    Vec<u8>,
))
    ensures
        (r.0@, r.1@) == shifted(
            int_digits@,
            frac_digits@,
            if left {
                -(e as int)
            } else {
                e as int
            },
        ),
{
    let mut i: Vec<u8> = Vec::new();
    let mut f: Vec<u8> = Vec::new();
    if !left || e == 0 {
        let m: usize = if e <= frac_digits.len() {
            e
        } else {
            frac_digits.len()
        };
        push_range(&mut i, int_digits, 0, int_digits.len());
        push_range(&mut i, frac_digits, 0, m);
        push_zeros(&mut i, e - m);
        push_range(&mut f, frac_digits, m, frac_digits.len());
        proof {
            assert(int_digits@.subrange(0, int_digits.len() as int) == int_digits@);
            assert(frac_digits@.subrange(0, m as int) == frac_digits@.take(m as int));
            assert(frac_digits@.subrange(m as int, frac_digits.len() as int) == frac_digits@.skip(
                m as int,
            ));
            assert(i@ == int_digits@ + frac_digits@.take(m as int) + zeros((e - m) as nat));
            assert(f@ == frac_digits@.skip(m as int));
        }
    } else {
        let m: usize = if e <= int_digits.len() {
            e
        } else {
            int_digits.len()
        };
        let cut: usize = int_digits.len() - m;
        push_range(&mut i, int_digits, 0, cut);
        push_zeros(&mut f, e - m);
        push_range(&mut f, int_digits, cut, int_digits.len());
        push_range(&mut f, frac_digits, 0, frac_digits.len());
        proof {
            assert(frac_digits@.subrange(0, frac_digits.len() as int) == frac_digits@);
            assert(int_digits@.subrange(0, cut as int) == int_digits@.take(cut as int));
            assert(int_digits@.subrange(cut as int, int_digits.len() as int) == int_digits@.skip(
                cut as int,
            ));
            assert(i@ == int_digits@.take(cut as int));
            assert(f@ == zeros((e - m) as nat) + int_digits@.skip(cut as int) + frac_digits@);
        }
    }
    (i, f)
}

/// Moving the point leaves digits digits.
pub proof fn lemma_shifted_digits(i: Seq<u8>, f: Seq<u8>, e: int)
    requires
        all_digits(i),
        all_digits(f),
    ensures
        all_digits(shifted(i, f, e).0),
        all_digits(shifted(i, f, e).1),
{
}

/// The bounds of the parts of the number-shaped text at `pos`.
struct Bounds {
    int_start: usize,
    int_end: usize,
    frac_end: usize,
    exp_start: usize,
    end: usize,
}

fn scan_lexeme(v: &Vec<char>, pos: usize) -> (r: Bounds)
    requires
        pos <= v.len(),
    ensures
        lexeme_at(v@, pos as int) == (Lexeme {
            start: pos as int,
            int_start: r.int_start as int,
            int_end: r.int_end as int,
            frac_end: r.frac_end as int,
            exp_start: r.exp_start as int,
            end: r.end as int,
        }),
        pos <= r.int_start <= r.int_end <= r.frac_end <= r.exp_start <= r.end <= v.len(),
        is_dot(v@, r.int_end as int) ==> r.int_end + 1 <= r.frac_end,
        forall|i: int| r.int_start <= i < r.int_end ==> is_digit(#[trigger] v@[i]),
        is_dot(v@, r.int_end as int) ==> forall|i: int|
            r.int_end + 1 <= i < r.frac_end ==> is_digit(#[trigger] v@[i]),
        forall|i: int| r.exp_start <= i < r.end ==> is_digit(#[trigger] v@[i]),
{
    let int_start: usize = if sign_at(v, pos) {
        pos + 1
    } else {
        pos
    };
    let int_end = scan_digits(v, int_start);
    let dot: bool = int_end < v.len() && v[int_end] == '.';
    let frac_end = if dot {
        scan_digits(v, int_end + 1)
    } else {
        int_end
    };
    let mark: bool = frac_end < v.len() && (v[frac_end] == 'e' || v[frac_end] == 'E');
    let exp_start: usize = if mark {
        if sign_at(v, frac_end + 1) {
            frac_end + 2
        } else {
            frac_end + 1
        }
    } else {
        frac_end
    };
    let end = if mark {
        scan_digits(v, exp_start)
    } else {
        frac_end
    };
    Bounds { int_start, int_end, frac_end, exp_start, end }
}

/// Whether `s` writes a number, and nothing else, whose value is zero.
pub open spec fn writes_zero(s: Seq<char>) -> bool {
    let lx = lexeme_at(s, 0);
    &&& s.len() > 0
    &&& lx.end == s.len()
    &&& lx.int_digits(s).len() + lx.frac_digits(s).len() >= 1
    &&& is_exponent_mark(s, lx.frac_end) ==> lx.exp_start < lx.end
    &&& all_zero(lx.int_digits(s))
    &&& all_zero(lx.frac_digits(s))
}

fn zeros_only(v: &Vec<u8>) -> (r: bool)
    ensures
        r == all_zero(v@),
{
    let mut i: usize = 0;
    while i < v.len()
        invariant
            i <= v.len(),
            forall|j: int| 0 <= j < i ==> v@[j] == 0,
        decreases v.len() - i,
    {
        if v[i] != 0 {
            return false;
        }
        i += 1;
    }
    true
}

/// Whether `text` writes the number zero.
pub fn is_zero_text(text: &str) -> (r: bool)
    ensures
        r == writes_zero(text@),
{
    let v = crate::text::to_chars(text);
    let b = scan_lexeme(&v, 0);
    if v.len() == 0 || b.end != v.len() {
        return false;
    }
    let dot: bool = b.int_end < v.len() && v[b.int_end] == '.';
    let mark: bool = b.frac_end < v.len() && (v[b.frac_end] == 'e' || v[b.frac_end] == 'E');
    let int_digits = read_digits(&v, b.int_start, b.int_end);
    let frac_digits = if dot {
        read_digits(&v, b.int_end + 1, b.frac_end)
    } else {
        Vec::new()
    };
    if int_digits.len() + frac_digits.len() == 0 || (mark && b.exp_start == b.end) {
        return false;
    }
    zeros_only(&int_digits) && zeros_only(&frac_digits)
}

impl Number {
    /// Reads the number written at `pos`.
    pub fn scan(v: &Vec<char>, pos: usize) -> (r: Result<(Number, usize), PathError>)
        requires
            pos <= v.len(),
        ensures
            match number_at(v@, pos as int) {
                Ok((n, end)) => r matches Ok((m, q)) && m@ == n && q == end && pos < q <= v.len(),
                Err(e) => r == Err::<(Number, usize), PathError>(e),
            },
            r matches Err(PathError::InvalidNumber { start, end }) ==> start <= end <= v.len(),
            r matches Ok((m, _)) ==> valid_number(m@),
    {
        let ghost lx = lexeme_at(v@, pos as int);
        let b = scan_lexeme(v, pos);
        let int_start = b.int_start;
        let int_end = b.int_end;
        let frac_end = b.frac_end;
        let exp_start = b.exp_start;
        let end = b.end;
        let dot: bool = int_end < v.len() && v[int_end] == '.';
        let mark: bool = frac_end < v.len() && (v[frac_end] == 'e' || v[frac_end] == 'E');
        if end == pos {
            return Err(PathError::ExpectedNumber);
        }
        let int_digits = read_digits(v, int_start, int_end);
        let frac_digits = if dot {
            read_digits(v, int_end + 1, frac_end)
        } else {
            Vec::new()
        };
        let exp_digits = read_digits(v, exp_start, end);
        if int_digits.len() + frac_digits.len() == 0 || (mark && exp_start == end) {
            return Err(PathError::InvalidNumber { start: pos, end });
        }
        let e = match exponent_value(&exp_digits) {
            Some(e) => e,
            None => {
                return Err(PathError::InvalidNumber { start: pos, end });
            },
        };
        let left = mark && minus_at(v, frac_end + 1);
        let (i, f) = shift(&int_digits, &frac_digits, e, left);
        proof {
            lemma_shifted_digits(int_digits@, frac_digits@, lx.exponent(v@));
            if !mark {
                assert(lx.exponent_digits(v@) =~= Seq::<u8>::empty());
            }
        }
        let negative = minus_at(v, pos);
        Ok((Number { negative, int_digits: i, frac_digits: f }, end))
    }

    /// The number that `text` writes, if it writes one and nothing else.
    pub fn parse(text: &str) -> (r: Option<Number>)
        ensures
            match number_at(text@, 0) {
                Ok((n, end)) => if end == text@.len() {
                    r matches Some(m) && m@ == n
                } else {
                    r is None
                },
                Err(_) => r is None,
            },
            r matches Some(m) ==> valid_number(m@),
    {
        let v = crate::text::to_chars(text);
        match Number::scan(&v, 0) {
            Ok((n, end)) => if end == v.len() {
                Some(n)
            } else {
                None
            },
            Err(_) => None,
        }
    }
}

/// Formats a number with the given precision, dropping every character that
/// carries no value.
pub fn format_number(n: &Number, precision: u8) -> (r: String)
    ensures
        r@ == formatted(n@, precision as nat),
{
    let out = n.format_chars(precision);
    from_chars(&out)
}

} // verus!
