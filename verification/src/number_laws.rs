//! What holds of numbers: a number that is written and read again is the
//! number rounded, and rounding moves a number by at most half a unit of
//! the last digit kept.

use vstd::prelude::*;

use crate::number::{
    all_digits, decimal, digit_char, digit_chars, digit_value, digit_values, digits_end, formatted,
    increment, is_dot, is_exponent_mark, is_minus, is_sign, lemma_increment_digits,
    lemma_shifted_digits, lexeme_at, number_at, rounded, shifted, strip_leading_zeros,
    strip_trailing_zeros, valid_number, written, zeros, NumberView,
};
use crate::text::is_digit;

verus! {

/// The number that the text `written(negative, i, f)` reads as: zero is
/// read as `0` without a sign.
pub open spec fn read_back(negative: bool, i: Seq<u8>, f: Seq<u8>) -> NumberView {
    if i.len() == 0 && f.len() == 0 {
        NumberView { negative: false, int_digits: seq![0u8], frac_digits: Seq::empty() }
    } else {
        NumberView { negative, int_digits: i, frac_digits: f }
    }
}

/// The number rounded to `k` fractional digits, without leading and
/// trailing zeros: what `formatted(n, k)` reads as.
pub open spec fn canonical(n: NumberView, k: nat) -> NumberView {
    let (i, f) = rounded(n, k);
    read_back(n.negative, strip_leading_zeros(i), strip_trailing_zeros(f))
}

/// Whether a number that ends before position `p` cannot go on there.
pub open spec fn terminated(s: Seq<char>, p: int) -> bool {
    p >= s.len() || !(is_digit(s[p]) || s[p] == '.' || s[p] == 'e' || s[p] == 'E')
}

/// Digits that are written are read as themselves, from digit characters.
pub proof fn lemma_digit_chars(d: Seq<u8>)
    requires
        all_digits(d),
    ensures
        digit_values(digit_chars(d)) == d,
        forall|j: int| 0 <= j < d.len() ==> is_digit(#[trigger] digit_chars(d)[j]),
{
    assert forall|j: int| 0 <= j < d.len() implies digit_value(digit_char(d[j])) == d[j]
        && is_digit(#[trigger] digit_chars(d)[j]) by {
        assert(d[j] <= 9);
    }
    assert(digit_values(digit_chars(d)) =~= d);
}

/// A run of `m` digits that nothing continues ends after `m` characters.
pub proof fn lemma_digits_end_run(s: Seq<char>, a: int, m: int)
    requires
        0 <= a,
        0 <= m,
        a + m <= s.len(),
        forall|j: int| a <= j < a + m ==> is_digit(#[trigger] s[j]),
        a + m == s.len() || !is_digit(s[a + m]),
    ensures
        digits_end(s, a) == a + m,
    decreases m,
{
    if m > 0 {
        assert(is_digit(s[a]));
        lemma_digits_end_run(s, a + 1, m - 1);
    }
}

/// Leaving zeros out leaves digits digits.
pub proof fn lemma_strip_keeps_digits(s: Seq<u8>)
    requires
        all_digits(s),
    ensures
        all_digits(strip_leading_zeros(s)),
        all_digits(strip_trailing_zeros(s)),
    decreases s.len(),
{
    if s.len() > 0 {
        if s[0] == 0 {
            assert forall|j: int| 0 <= j < s.drop_first().len() implies #[trigger] s.drop_first()[j]
                <= 9 by {
                assert(s[j + 1] <= 9);
            }
            lemma_strip_keeps_digits(s.drop_first());
        }
        if s.last() == 0 {
            assert forall|j: int| 0 <= j < s.drop_last().len() implies #[trigger] s.drop_last()[j]
                <= 9 by {
                assert(s[j] <= 9);
            }
            lemma_strip_keeps_digits(s.drop_last());
        }
    }
}

/// Rounding gives digits, at most `k` of them after the point.
pub proof fn lemma_rounded_digits(n: NumberView, k: nat)
    requires
        valid_number(n),
    ensures
        all_digits(rounded(n, k).0),
        all_digits(rounded(n, k).1),
        rounded(n, k).1.len() <= k,
{
    if n.frac_digits.len() > k {
        let kept = n.int_digits + n.frac_digits.take(k as int);
        assert forall|j: int| 0 <= j < kept.len() implies #[trigger] kept[j] <= 9 by {
            if j < n.int_digits.len() {
                assert(n.int_digits[j] <= 9);
            } else {
                assert(n.frac_digits[j - n.int_digits.len()] <= 9);
            }
        }
        lemma_increment_digits(kept);
        let d = if n.frac_digits[k as int] >= 5 {
            increment(kept)
        } else {
            kept
        };
        assert forall|j: int| 0 <= j < d.take(d.len() - k).len() implies #[trigger] d.take(
            d.len() - k,
        )[j] <= 9 by {
            assert(d[j] <= 9);
        }
        assert forall|j: int| 0 <= j < d.skip(d.len() - k).len() implies #[trigger] d.skip(
            d.len() - k,
        )[j] <= 9 by {
            assert(d[j + d.len() - k] <= 9);
        }
    }
}

/// A number is never written as nothing; its text begins with `-`, a
/// digit or a point and ends with a digit.
pub proof fn lemma_written_chars(negative: bool, i: Seq<u8>, f: Seq<u8>)
    requires
        all_digits(i),
        all_digits(f),
    ensures
        written(negative, i, f).len() > 0,
        written(negative, i, f)[0] == '-' || is_digit(written(negative, i, f)[0]) || written(
            negative,
            i,
            f,
        )[0] == '.',
        is_digit(written(negative, i, f).last()),
{
    lemma_digit_chars(i);
    lemma_digit_chars(f);
    let t = written(negative, i, f);
    if i.len() == 0 && f.len() == 0 {
    } else {
        let sign = if negative {
            seq!['-']
        } else {
            Seq::<char>::empty()
        };
        let tail = if f.len() > 0 {
            seq!['.'] + digit_chars(f)
        } else {
            Seq::<char>::empty()
        };
        assert(t == sign + digit_chars(i) + tail);
        if f.len() > 0 {
            assert(t.last() == digit_chars(f)[f.len() - 1]);
        } else {
            assert(t.last() == digit_chars(i)[i.len() - 1]);
        }
        if negative {
            assert(t[0] == '-');
        } else if i.len() > 0 {
            assert(t[0] == digit_chars(i)[0]);
        } else {
            assert(t[0] == '.');
        }
    }
}

/// Reading the text of a number gives the number back, where the text is
/// followed by nothing that could belong to it.
pub proof fn lemma_written_reads_back(
    s: Seq<char>,
    pos: int,
    negative: bool,
    i: Seq<u8>,
    f: Seq<u8>,
)
    requires
        all_digits(i),
        all_digits(f),
        0 <= pos,
        pos + written(negative, i, f).len() <= s.len(),
        s.subrange(pos, pos + written(negative, i, f).len()) == written(negative, i, f),
        terminated(s, pos + written(negative, i, f).len()),
    ensures
        number_at(s, pos) == Ok::<(NumberView, int), crate::error::PathError>(
            (read_back(negative, i, f), pos + written(negative, i, f).len()),
        ),
{
    let t = written(negative, i, f);
    let end = pos + t.len();
    lemma_digit_chars(i);
    lemma_digit_chars(f);
    assert forall|j: int| 0 <= j < t.len() implies s[pos + j] == #[trigger] t[j] by {
        assert(s.subrange(pos, end)[j] == s[pos + j]);
    }
    if i.len() == 0 && f.len() == 0 {
        assert(t[0] == '0');
        assert(s[pos] == '0');
        lemma_digits_end_run(s, pos, 1);
        let lx = lexeme_at(s, pos);
        assert(lx.int_start == pos);
        assert(lx.int_end == pos + 1);
        assert(lx.frac_end == pos + 1);
        assert(lx.end == pos + 1);
        assert(lx.exp_start == pos + 1);
        assert(s.subrange(pos, pos + 1) =~= seq!['0']);
        assert(digit_values(seq!['0']) =~= seq![0u8]);
        assert(lx.int_digits(s) == seq![0u8]);
        assert(lx.frac_digits(s) == Seq::<u8>::empty());
        assert(lx.exponent_digits(s) =~= Seq::<u8>::empty());
        assert(shifted(seq![0u8], Seq::<u8>::empty(), 0) == (seq![0u8], Seq::<u8>::empty())) by {
            assert(seq![0u8] + Seq::<u8>::empty().take(0) + zeros(0) =~= seq![0u8]);
            assert(Seq::<u8>::empty().skip(0) =~= Seq::<u8>::empty());
        }
    } else {
        let sign = if negative {
            seq!['-']
        } else {
            Seq::<char>::empty()
        };
        let tail = if f.len() > 0 {
            seq!['.'] + digit_chars(f)
        } else {
            Seq::<char>::empty()
        };
        assert(t == sign + digit_chars(i) + tail);
        let a = pos + sign.len();
        let b = a + i.len();
        assert forall|j: int| a <= j < b implies is_digit(#[trigger] s[j]) by {
            assert(s[j] == t[j - pos]);
            assert(t[j - pos] == digit_chars(i)[j - a]);
        }
        if f.len() > 0 {
            assert(t[b - pos] == '.');
            assert(s[b] == '.');
        } else {
            assert(b == end);
        }
        lemma_digits_end_run(s, a, i.len() as int);
        if negative {
            assert(t[0] == '-');
            assert(s[pos] == '-');
        } else if i.len() > 0 {
            assert(t[0] == digit_chars(i)[0]);
            assert(is_digit(s[pos]));
        } else {
            assert(t[0] == '.');
        }
        let lx = lexeme_at(s, pos);
        assert(is_sign(s, pos) == negative);
        assert(is_minus(s, pos) == negative);
        assert(lx.int_start == a);
        assert(lx.int_end == b);
        if f.len() > 0 {
            assert forall|j: int| b + 1 <= j < end implies is_digit(#[trigger] s[j]) by {
                assert(s[j] == t[j - pos]);
                assert(t[j - pos] == digit_chars(f)[j - b - 1]);
            }
            lemma_digits_end_run(s, b + 1, f.len() as int);
            assert(lx.frac_end == end);
            assert forall|j: int| 0 <= j < f.len() implies s.subrange(b + 1, end)[j]
                == #[trigger] digit_chars(f)[j] by {
                assert(s[b + 1 + j] == t[b + 1 + j - pos]);
                assert(t[b + 1 + j - pos] == digit_chars(f)[j]);
            }
            assert(s.subrange(b + 1, end) =~= digit_chars(f));
        } else {
            assert(lx.frac_end == end);
        }
        assert(!is_exponent_mark(s, end));
        assert(lx.end == end);
        assert(lx.exp_start == end);
        assert forall|j: int| 0 <= j < i.len() implies s.subrange(a, b)[j]
            == #[trigger] digit_chars(i)[j] by {
            assert(s[a + j] == t[a + j - pos]);
            assert(t[a + j - pos] == digit_chars(i)[j]);
        }
        assert(s.subrange(a, b) =~= digit_chars(i));
        assert(lx.int_digits(s) == i);
        assert(lx.frac_digits(s) == f);
        assert(lx.exponent_digits(s) =~= Seq::<u8>::empty());
        assert(shifted(i, f, 0) == (i, f)) by {
            assert(i + f.take(0) + zeros(0) =~= i);
            assert(f.skip(0) =~= f);
        }
    }
}

/// Reading the text of a formatted number gives the number rounded.
pub proof fn lemma_formatted_reads_back(s: Seq<char>, pos: int, n: NumberView, k: nat)
    requires
        valid_number(n),
        0 <= pos,
        pos + formatted(n, k).len() <= s.len(),
        s.subrange(pos, pos + formatted(n, k).len()) == formatted(n, k),
        terminated(s, pos + formatted(n, k).len()),
    ensures
        number_at(s, pos) == Ok::<(NumberView, int), crate::error::PathError>(
            (canonical(n, k), pos + formatted(n, k).len()),
        ),
{
    lemma_rounded_digits(n, k);
    let (i, f) = rounded(n, k);
    lemma_strip_keeps_digits(i);
    lemma_strip_keeps_digits(f);
    lemma_written_reads_back(
        s,
        pos,
        n.negative,
        strip_leading_zeros(i),
        strip_trailing_zeros(f),
    );
}

/// The text of a formatted number is not empty, begins with `-`, a digit
/// or a point and ends with a digit.
pub proof fn lemma_formatted_chars(n: NumberView, k: nat)
    requires
        valid_number(n),
    ensures
        formatted(n, k).len() > 0,
        formatted(n, k)[0] == '-' || is_digit(formatted(n, k)[0]) || formatted(n, k)[0] == '.',
        is_digit(formatted(n, k).last()),
{
    lemma_rounded_digits(n, k);
    let (i, f) = rounded(n, k);
    lemma_strip_keeps_digits(i);
    lemma_strip_keeps_digits(f);
    lemma_written_chars(n.negative, strip_leading_zeros(i), strip_trailing_zeros(f));
}

/// The text of a formatted number holds digits and at most one point,
/// after a `-` that can only stand first: no space, no letter, no comma.
pub proof fn lemma_formatted_tidy(n: NumberView, k: nat)
    requires
        valid_number(n),
    ensures
        forall|j: int|
            0 <= j < formatted(n, k).len() ==> is_digit(#[trigger] formatted(n, k)[j]) || formatted(
                n,
                k,
            )[j] == '.' || (j == 0 && formatted(n, k)[j] == '-'),
{
    lemma_rounded_digits(n, k);
    let (i0, f0) = rounded(n, k);
    lemma_strip_keeps_digits(i0);
    lemma_strip_keeps_digits(f0);
    let i = strip_leading_zeros(i0);
    let f = strip_trailing_zeros(f0);
    lemma_digit_chars(i);
    lemma_digit_chars(f);
    let t = written(n.negative, i, f);
    if i.len() == 0 && f.len() == 0 {
    } else {
        let sign = if n.negative {
            seq!['-']
        } else {
            Seq::<char>::empty()
        };
        let tail = if f.len() > 0 {
            seq!['.'] + digit_chars(f)
        } else {
            Seq::<char>::empty()
        };
        assert(t == sign + digit_chars(i) + tail);
        assert forall|j: int| 0 <= j < t.len() implies is_digit(#[trigger] t[j]) || t[j] == '.' || (j
            == 0 && t[j] == '-') by {
            if j < sign.len() {
            } else if j < sign.len() + i.len() {
                assert(t[j] == digit_chars(i)[j - sign.len()]);
            } else {
                let q = j - sign.len() - i.len();
                if q > 0 {
                    assert(t[j] == digit_chars(f)[q - 1]);
                }
            }
        }
    }
}

/// Ten to the power of `e`.
pub open spec fn pow10(e: nat) -> nat
    decreases e,
{
    if e == 0 {
        1
    } else {
        10 * pow10((e - 1) as nat)
    }
}

/// The magnitude of the number in units of `10^-m`, for `m` at least the
/// number of its fractional digits.
pub open spec fn scaled(n: NumberView, m: nat) -> nat {
    decimal(n.int_digits + n.frac_digits) * pow10((m - n.frac_digits.len()) as nat)
}

/// How far two numbers are apart.
pub open spec fn distance(a: nat, b: nat) -> nat {
    if a >= b {
        (a - b) as nat
    } else {
        (b - a) as nat
    }
}

/// Powers of ten multiply as their exponents add, and are positive.
pub proof fn lemma_pow10_add(a: nat, b: nat)
    ensures
        pow10(a + b) == pow10(a) * pow10(b),
        pow10(a) > 0,
    decreases a,
{
    if a == 0 {
        assert(pow10(0) == 1);
    } else {
        lemma_pow10_add((a - 1) as nat, b);
        assert(pow10(a + b) == 10 * pow10((a + b - 1) as nat));
        assert(pow10(a) == 10 * pow10((a - 1) as nat));
        assert(10 * (pow10((a - 1) as nat) * pow10(b)) == (10 * pow10((a - 1) as nat)) * pow10(b))
            by (nonlinear_arith);
    }
}

/// The number that two digit strings write, one after the other.
pub proof fn lemma_decimal_add(a: Seq<u8>, b: Seq<u8>)
    ensures
        decimal(a + b) == decimal(a) * pow10(b.len()) + decimal(b),
    decreases b.len(),
{
    if b.len() == 0 {
        assert(a + b =~= a);
        assert(pow10(0) == 1);
        assert(decimal(a) * 1 == decimal(a)) by (nonlinear_arith);
    } else {
        assert((a + b).drop_last() =~= a + b.drop_last());
        assert((a + b).last() == b.last());
        lemma_decimal_add(a, b.drop_last());
        let x = decimal(a);
        let p = pow10(b.drop_last().len());
        let y = decimal(b.drop_last());
        assert(pow10(b.len()) == 10 * p);
        assert((x * p + y) * 10 == x * (10 * p) + y * 10) by (nonlinear_arith);
    }
}

/// One digit writes itself.
pub proof fn lemma_decimal_one(d: u8)
    ensures
        decimal(seq![d]) == d,
{
    assert(seq![d].drop_last() =~= Seq::<u8>::empty());
    assert(decimal(Seq::<u8>::empty()) == 0);
    assert(seq![d].last() == d);
    assert(decimal(seq![d]) == decimal(seq![d].drop_last()) * 10 + seq![d].last() as nat);
}

/// `n` digits write a number below ten to the power of `n`.
pub proof fn lemma_decimal_bound(b: Seq<u8>)
    requires
        all_digits(b),
    ensures
        decimal(b) < pow10(b.len()),
    decreases b.len(),
{
    if b.len() > 0 {
        assert forall|j: int| 0 <= j < b.drop_last().len() implies #[trigger] b.drop_last()[j]
            <= 9 by {
            assert(b[j] <= 9);
        }
        lemma_decimal_bound(b.drop_last());
        assert(b.last() <= 9);
    }
}

/// Leading zeros do not change the number.
pub proof fn lemma_decimal_leading(s: Seq<u8>)
    ensures
        decimal(strip_leading_zeros(s)) == decimal(s),
    decreases s.len(),
{
    if s.len() > 0 && s[0] == 0 {
        lemma_decimal_leading(s.drop_first());
        assert(s =~= seq![0u8] + s.drop_first());
        lemma_decimal_add(seq![0u8], s.drop_first());
        lemma_decimal_one(0u8);
        assert(0 * pow10(s.drop_first().len()) == 0) by (nonlinear_arith);
    }
}

/// Every trailing zero multiplies the number by ten.
pub proof fn lemma_decimal_trailing(s: Seq<u8>)
    ensures
        strip_trailing_zeros(s).len() <= s.len(),
        decimal(s) == decimal(strip_trailing_zeros(s)) * pow10(
            (s.len() - strip_trailing_zeros(s).len()) as nat,
        ),
    decreases s.len(),
{
    if s.len() > 0 && s.last() == 0 {
        lemma_decimal_trailing(s.drop_last());
        let t = strip_trailing_zeros(s);
        let z = (s.drop_last().len() - t.len()) as nat;
        assert(pow10(z + 1) == 10 * pow10(z));
        assert(decimal(s) == decimal(s.drop_last()) * 10);
        assert((decimal(t) * pow10(z)) * 10 == decimal(t) * (10 * pow10(z))) by (nonlinear_arith);
    } else {
        assert(pow10(0) == 1);
        assert(decimal(s) * 1 == decimal(s)) by (nonlinear_arith);
    }
}

/// The digits of `s + 1` write the number after that of `s`.
pub proof fn lemma_decimal_increment(s: Seq<u8>)
    requires
        all_digits(s),
    ensures
        decimal(increment(s)) == decimal(s) + 1,
    decreases s.len(),
{
    if s.len() == 0 {
        lemma_decimal_one(1u8);
        assert(decimal(s) == 0);
    } else if s.last() < 9 {
        let r = s.drop_last().push((s.last() + 1) as u8);
        assert(increment(s) == r);
        assert(r.drop_last() =~= s.drop_last());
        assert(r.last() == s.last() + 1);
        assert(decimal(r) == decimal(r.drop_last()) * 10 + r.last() as nat);
        assert(decimal(s) == decimal(s.drop_last()) * 10 + s.last() as nat);
    } else {
        assert forall|j: int| 0 <= j < s.drop_last().len() implies #[trigger] s.drop_last()[j]
            <= 9 by {
            assert(s[j] <= 9);
        }
        lemma_decimal_increment(s.drop_last());
        let r = increment(s.drop_last()).push(0u8);
        assert(increment(s) == r);
        assert(r.drop_last() =~= increment(s.drop_last()));
        assert(r.last() == 0);
        assert(s[s.len() - 1] <= 9);
        assert(s.last() == 9);
        assert(decimal(r) == decimal(r.drop_last()) * 10 + r.last() as nat);
        assert(decimal(s) == decimal(s.drop_last()) * 10 + s.last() as nat);
    }
}

/// Leaving out leading and trailing zeros does not change the value.
pub proof fn lemma_read_back_value(negative: bool, i: Seq<u8>, f: Seq<u8>, m: nat)
    requires
        m >= f.len(),
    ensures
        read_back(negative, strip_leading_zeros(i), strip_trailing_zeros(f)).frac_digits.len()
            <= f.len(),
        scaled(read_back(negative, strip_leading_zeros(i), strip_trailing_zeros(f)), m)
            == decimal(i + f) * pow10((m - f.len()) as nat),
{
    let i2 = strip_leading_zeros(i);
    let f2 = strip_trailing_zeros(f);
    lemma_decimal_leading(i);
    lemma_decimal_trailing(f);
    lemma_decimal_add(i, f);
    lemma_decimal_add(i2, f2);
    let z = (f.len() - f2.len()) as nat;
    let q = (m - f.len()) as nat;
    lemma_pow10_add(z, q);
    lemma_pow10_add(f2.len(), z);
    let a = decimal(i);
    let b = decimal(f2);
    let pf2 = pow10(f2.len());
    let pz = pow10(z);
    let pq = pow10(q);
    assert(decimal(i + f) == a * pow10(f.len()) + b * pz);
    assert(pow10(f.len()) == pf2 * pz);
    assert((a * (pf2 * pz) + b * pz) * pq == (a * pf2 + b) * (pz * pq)) by (nonlinear_arith);
    if i2.len() == 0 && f2.len() == 0 {
        assert(a == 0);
        assert(b == 0);
        assert(seq![0u8] + Seq::<u8>::empty() =~= seq![0u8]);
        lemma_decimal_one(0u8);
        assert(0 * pow10(m) == 0) by (nonlinear_arith);
        assert((0 * pf2 + 0) * (pz * pq) == 0) by (nonlinear_arith);
    } else {
        assert((m - f2.len()) as nat == z + q);
    }
}

proof fn lemma_close_up(x: nat, t: nat, h: nat, p: nat, q: nat, r: nat, rest: nat)
    requires
        t == r * h + rest,
        5 <= r <= 9,
        rest < h,
        p == 10 * h,
        q > 0,
    ensures
        2 * distance((x + 1) * (p * q), (x * p + t) * q) <= p * q,
{
    assert(t >= 5 * h) by (nonlinear_arith)
        requires
            t == r * h + rest,
            r >= 5,
    ;
    assert(t < p) by (nonlinear_arith)
        requires
            t == r * h + rest,
            r <= 9,
            rest < h,
            p == 10 * h,
    ;
    assert((x + 1) * (p * q) == (x * p + t) * q + (p - t) * q) by (nonlinear_arith)
        requires
            t < p,
    ;
    assert(2 * ((p - t) * q) <= p * q) by (nonlinear_arith)
        requires
            2 * t >= p,
            t < p,
            q > 0,
    ;
    assert((p - t) * q >= 0) by (nonlinear_arith)
        requires
            t < p,
            q > 0,
    ;
}

proof fn lemma_close_down(x: nat, t: nat, h: nat, p: nat, q: nat, r: nat, rest: nat)
    requires
        t == r * h + rest,
        r <= 4,
        rest < h,
        p == 10 * h,
        q > 0,
    ensures
        2 * distance(x * (p * q), (x * p + t) * q) <= p * q,
{
    assert(2 * t < p) by (nonlinear_arith)
        requires
            t == r * h + rest,
            r <= 4,
            rest < h,
            p == 10 * h,
    ;
    assert((x * p + t) * q == x * (p * q) + t * q) by (nonlinear_arith);
    assert(2 * (t * q) <= p * q) by (nonlinear_arith)
        requires
            2 * t < p,
            q > 0,
    ;
    assert(t * q >= 0) by (nonlinear_arith)
        requires
            q > 0,
    ;
}

/// The value of a number that has more than `k` fractional digits, by
/// the digits that are kept and the digits that are dropped.
proof fn lemma_split_value(n: NumberView, k: nat, m: nat)
    requires
        valid_number(n),
        n.frac_digits.len() > k,
        m >= n.frac_digits.len(),
    ensures
        ({
            let kept = n.int_digits + n.frac_digits.take(k as int);
            let tail = n.frac_digits.skip(k as int);
            let rest = tail.drop_first();
            let h = pow10(rest.len());
            let q = pow10((m - n.frac_digits.len()) as nat);
            &&& all_digits(kept)
            &&& scaled(n, m) == (decimal(kept) * (10 * h) + decimal(tail)) * q
            &&& decimal(tail) == n.frac_digits[k as int] as nat * h + decimal(rest)
            &&& decimal(rest) < h
            &&& q > 0
            &&& pow10((m - k) as nat) == (10 * h) * q
        }),
{
    let kept = n.int_digits + n.frac_digits.take(k as int);
    let tail = n.frac_digits.skip(k as int);
    let rest = tail.drop_first();
    assert forall|j: int| 0 <= j < kept.len() implies #[trigger] kept[j] <= 9 by {
        if j < n.int_digits.len() {
            assert(n.int_digits[j] <= 9);
        } else {
            assert(n.frac_digits[j - n.int_digits.len()] <= 9);
        }
    }
    assert(n.int_digits + n.frac_digits =~= kept + tail);
    lemma_decimal_add(kept, tail);
    assert(tail =~= seq![tail[0]] + rest);
    lemma_decimal_add(seq![tail[0]], rest);
    lemma_decimal_one(tail[0]);
    assert forall|j: int| 0 <= j < rest.len() implies #[trigger] rest[j] <= 9 by {
        assert(n.frac_digits[j + k + 1] <= 9);
    }
    lemma_decimal_bound(rest);
    assert(tail[0] == n.frac_digits[k as int]);
    let h = pow10(rest.len());
    let q = pow10((m - n.frac_digits.len()) as nat);
    assert(tail.len() == rest.len() + 1);
    assert(pow10(tail.len()) == 10 * h);
    lemma_pow10_add(tail.len(), (m - n.frac_digits.len()) as nat);
    assert((m - k) as nat == tail.len() + (m - n.frac_digits.len()) as nat);
    assert(pow10((m - k) as nat) == (10 * h) * q);
    assert(decimal(kept + tail) == decimal(kept) * (10 * h) + decimal(tail));
    assert(scaled(n, m) == decimal(kept + tail) * q);
    assert(decimal(tail) == tail[0] as nat * h + decimal(rest));
    lemma_pow10_add((m - n.frac_digits.len()) as nat, 0);
    assert(q > 0);
    assert(all_digits(kept));
}

/// The value of the rounded number, by the digits that are kept.
proof fn lemma_rounded_value(n: NumberView, k: nat, m: nat)
    requires
        valid_number(n),
        n.frac_digits.len() > k,
        m >= n.frac_digits.len(),
    ensures
        ({
            let kept = n.int_digits + n.frac_digits.take(k as int);
            let up: nat = if n.frac_digits[k as int] >= 5 {
                1
            } else {
                0
            };
            scaled(canonical(n, k), m) == (decimal(kept) + up) * pow10((m - k) as nat)
        }),
        canonical(n, k).frac_digits.len() <= k,
{
    let kept = n.int_digits + n.frac_digits.take(k as int);
    lemma_split_value(n, k, m);
    lemma_rounded_digits(n, k);
    let (ri, rf) = rounded(n, k);
    lemma_increment_digits(kept);
    lemma_decimal_increment(kept);
    let d = if n.frac_digits[k as int] >= 5 {
        increment(kept)
    } else {
        kept
    };
    assert(ri + rf =~= d);
    assert(rf.len() == k);
    lemma_read_back_value(n.negative, ri, rf, m);
}

/// Rounding moves a number by at most half a unit of the last digit
/// kept: in units of `10^-m`, the rounded number is within `10^(m-k) / 2`
/// of the number. It keeps the sign unless it gives zero.
pub proof fn lemma_rounding_is_close(n: NumberView, k: nat, m: nat)
    requires
        valid_number(n),
        m >= n.frac_digits.len(),
        m >= k,
    ensures
        canonical(n, k).frac_digits.len() <= m,
        2 * distance(scaled(canonical(n, k), m), scaled(n, m)) <= pow10((m - k) as nat),
        canonical(n, k).negative == n.negative || scaled(canonical(n, k), m) == 0,
        valid_number(canonical(n, k)),
{
    let c = canonical(n, k);
    lemma_rounded_digits(n, k);
    let (ri, rf) = rounded(n, k);
    lemma_strip_keeps_digits(ri);
    lemma_strip_keeps_digits(rf);
    lemma_pow10_add((m - k) as nat, 0);
    assert(c.negative == n.negative || scaled(c, m) == 0) by {
        if strip_leading_zeros(ri).len() == 0 && strip_trailing_zeros(rf).len() == 0 {
            assert(c.int_digits + c.frac_digits =~= seq![0u8]);
            lemma_decimal_one(0u8);
            assert(0 * pow10(m) == 0) by (nonlinear_arith);
        }
    }
    if n.frac_digits.len() <= k {
        lemma_read_back_value(n.negative, ri, rf, m);
    } else {
        let kept = n.int_digits + n.frac_digits.take(k as int);
        let tail = n.frac_digits.skip(k as int);
        let rest = tail.drop_first();
        let h = pow10(rest.len());
        let q = pow10((m - n.frac_digits.len()) as nat);
        let r = n.frac_digits[k as int] as nat;
        lemma_split_value(n, k, m);
        lemma_rounded_value(n, k, m);
        assert(n.frac_digits[k as int] <= 9);
        if r >= 5 {
            lemma_close_up(decimal(kept), decimal(tail), h, 10 * h, q, r, decimal(rest));
        } else {
            lemma_close_down(decimal(kept), decimal(tail), h, 10 * h, q, r, decimal(rest));
        }
    }
}

/// A run of digits holds digits only and ends inside the text.
pub proof fn lemma_digits_run(s: Seq<char>, pos: int)
    requires
        0 <= pos <= s.len(),
    ensures
        pos <= digits_end(s, pos) <= s.len(),
        forall|j: int| pos <= j < digits_end(s, pos) ==> is_digit(#[trigger] s[j]),
    decreases s.len() - pos,
{
    if pos < s.len() && is_digit(s[pos]) {
        lemma_digits_run(s, pos + 1);
    }
}

/// Digit characters write digits.
pub proof fn lemma_digit_values(s: Seq<char>, a: int, b: int)
    requires
        0 <= a <= b <= s.len(),
        forall|j: int| a <= j < b ==> is_digit(#[trigger] s[j]),
    ensures
        all_digits(digit_values(s.subrange(a, b))),
{
    assert forall|j: int| 0 <= j < b - a implies #[trigger] digit_values(s.subrange(a, b))[j]
        <= 9 by {
        assert(is_digit(s[a + j]));
    }
}

/// Every number that is read has decimal digits only.
pub proof fn lemma_number_at_valid(s: Seq<char>, pos: int)
    requires
        0 <= pos <= s.len(),
    ensures
        number_at(s, pos) matches Ok((n, end)) ==> valid_number(n) && pos < end <= s.len(),
{
    let lx = lexeme_at(s, pos);
    lemma_digits_run(s, lx.int_start);
    lemma_digit_values(s, lx.int_start, lx.int_end);
    if is_dot(s, lx.int_end) {
        lemma_digits_run(s, lx.int_end + 1);
        lemma_digit_values(s, lx.int_end + 1, lx.frac_end);
    }
    if lx.exp_start <= s.len() {
        lemma_digits_run(s, lx.exp_start);
    }
    lemma_shifted_digits(lx.int_digits(s), lx.frac_digits(s), lx.exponent(s));
}

/// Leaving zeros out twice is leaving them out once.
pub proof fn lemma_strip_again(s: Seq<u8>)
    ensures
        strip_leading_zeros(strip_leading_zeros(s)) == strip_leading_zeros(s),
        strip_trailing_zeros(strip_trailing_zeros(s)) == strip_trailing_zeros(s),
        strip_trailing_zeros(s).len() <= s.len(),
    decreases s.len(),
{
    if s.len() > 0 {
        if s[0] == 0 {
            lemma_strip_again(s.drop_first());
        }
        if s.last() == 0 {
            lemma_strip_again(s.drop_last());
        }
    }
}

/// A number that has been rounded is written as the number itself:
/// rounding twice is rounding once.
pub proof fn lemma_formatted_canonical(n: NumberView, k: nat)
    requires
        valid_number(n),
    ensures
        formatted(canonical(n, k), k) == formatted(n, k),
        valid_number(canonical(n, k)),
{
    lemma_rounded_digits(n, k);
    let (ri, rf) = rounded(n, k);
    let i2 = strip_leading_zeros(ri);
    let f2 = strip_trailing_zeros(rf);
    lemma_strip_keeps_digits(ri);
    lemma_strip_keeps_digits(rf);
    lemma_strip_again(ri);
    lemma_strip_again(rf);
    let c = canonical(n, k);
    if i2.len() == 0 && f2.len() == 0 {
        assert(rounded(c, k) == (seq![0u8], Seq::<u8>::empty()));
        assert(seq![0u8].drop_first() =~= Seq::<u8>::empty());
        assert(strip_leading_zeros(Seq::<u8>::empty()) == Seq::<u8>::empty());
        assert(strip_leading_zeros(seq![0u8]) == Seq::<u8>::empty());
        assert(strip_trailing_zeros(Seq::<u8>::empty()) == Seq::<u8>::empty());
    } else {
        assert(rounded(c, k) == (i2, f2));
    }
}

} // verus!
