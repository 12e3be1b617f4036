//! Fixed-point decimal numbers.
//!
//! Lengths, feeds and speeds are held exactly, as a whole number of
//! ten-thousandths (`units`), which is the resolution at which the translator
//! writes G-code. The decimal grammar is `[+-]digits[.digits]` with at least
//! one digit on either side of the point; a fifth fractional digit rounds the
//! magnitude half up, further digits are ignored.

use vstd::prelude::*;
use crate::text::{find_char, index_of, lemma_index_of_unique, to_chars, to_text};

verus! {

/// Units per whole: four fractional digits.
pub const UNITS_PER_ONE: i64 = 10_000;

/// Largest magnitude, in units, that parsing accepts.
pub const MAX_UNITS: i64 = 1_000_000_000_000_000_000;

/// A decimal number with four fractional digits; its value is `units / 10000`.
#[derive(Clone, Copy, Debug, PartialEq, Eq, Structural, PartialOrd, Ord, Hash)]
pub struct Decimal {
    pub units: i64,
}

pub open spec fn is_digit(c: char) -> bool {
    '0' <= c <= '9'
}

pub open spec fn digit_val(c: char) -> int {
    c as int - 48
}

pub open spec fn all_digits(s: Seq<char>) -> bool {
    forall|i: int| 0 <= i < s.len() ==> is_digit(#[trigger] s[i])
}

/// The number that a run of decimal digits writes.
pub open spec fn digits_value(s: Seq<char>) -> int
    decreases s.len(),
{
    if s.len() == 0 {
        0
    } else {
        digits_value(s.drop_last()) * 10 + digit_val(s.last())
    }
}

/// The `k`-th fractional digit, zero beyond the end.
pub open spec fn frac_digit(f: Seq<char>, k: int) -> int {
    if 0 <= k < f.len() {
        digit_val(f[k])
    } else {
        0
    }
}

/// The fractional digits as units: the first four, rounded half up by the fifth.
pub open spec fn frac_units(f: Seq<char>) -> int {
    frac_digit(f, 0) * 1000 + frac_digit(f, 1) * 100 + frac_digit(f, 2) * 10 + frac_digit(f, 3)
        + if frac_digit(f, 4) >= 5 {
        1int
    } else {
        0int
    }
}

pub open spec fn sign_len(s: Seq<char>) -> int {
    if s.len() > 0 && (s[0] == '-' || s[0] == '+') {
        1
    } else {
        0
    }
}

pub open spec fn is_negative(s: Seq<char>) -> bool {
    s.len() > 0 && s[0] == '-'
}

/// What follows the optional sign.
pub open spec fn unsigned_part(s: Seq<char>) -> Seq<char> {
    s.subrange(sign_len(s), s.len() as int)
}

/// The digits before the decimal point of an unsigned text.
pub open spec fn int_digits(b: Seq<char>) -> Seq<char> {
    b.subrange(0, index_of(b, '.'))
}

/// The digits after the decimal point of an unsigned text; empty without a point.
pub open spec fn frac_digits(b: Seq<char>) -> Seq<char> {
    if index_of(b, '.') < b.len() {
        b.subrange(index_of(b, '.') + 1, b.len() as int)
    } else {
        Seq::empty()
    }
}

/// Whether `s` is written in the decimal grammar.
pub open spec fn is_decimal(s: Seq<char>) -> bool {
    let b = unsigned_part(s);
    &&& all_digits(int_digits(b))
    &&& all_digits(frac_digits(b))
    &&& int_digits(b).len() + frac_digits(b).len() > 0
}

/// The magnitude, in units, that a decimal text writes.
pub open spec fn magnitude(s: Seq<char>) -> int {
    let b = unsigned_part(s);
    digits_value(int_digits(b)) * 10_000 + frac_units(frac_digits(b))
}

/// The signed number of units that a decimal text writes.
pub open spec fn signed_units(s: Seq<char>) -> int {
    if is_negative(s) {
        -magnitude(s)
    } else {
        magnitude(s)
    }
}

/// The decimal that `s` writes: `None` where `s` is not in the grammar or its
/// magnitude exceeds `MAX_UNITS`.
pub open spec fn decimal_of(s: Seq<char>) -> Option<Decimal> {
    if is_decimal(s) && magnitude(s) <= MAX_UNITS {
        Some(Decimal { units: signed_units(s) as i64 })
    } else {
        None
    }
}

/// A digit run has a value that is not negative.
pub proof fn lemma_digits_value_nonneg(s: Seq<char>)
    requires
        all_digits(s),
    ensures
        digits_value(s) >= 0,
    decreases s.len(),
{
    if s.len() > 0 {
        assert(is_digit(s[s.len() - 1]));
        assert forall|i: int| 0 <= i < s.drop_last().len() implies is_digit(
            #[trigger] s.drop_last()[i],
        ) by {
            assert(s.drop_last()[i] == s[i]);
        }
        lemma_digits_value_nonneg(s.drop_last());
    }
}

fn is_digit_char(c: char) -> (b: bool)
    ensures
        b == is_digit(c),
{
    let n: u32 = c as u32;
    48 <= n && n <= 57
}

fn digit_of(c: char) -> (d: u64)
    requires
        is_digit(c),
    ensures
        d == digit_val(c),
        d <= 9,
{
    let n: u32 = c as u32;
    (n - 48) as u64
}

pub(crate) fn digits_in(v: &Vec<char>, lo: usize, hi: usize) -> (b: bool)
    requires
        lo <= hi <= v.len(),
    ensures
        b == all_digits(v@.subrange(lo as int, hi as int)),
{
    let mut i: usize = lo;
    while i < hi
        invariant
            lo <= i <= hi <= v.len(),
            forall|j: int| lo <= j < i ==> is_digit(v@[j]),
        decreases hi - i,
    {
        if !is_digit_char(v[i]) {
            proof {
                assert(v@.subrange(lo as int, hi as int)[i - lo] == v@[i as int]);
            }
            return false;
        }
        i += 1;
    }
    true
}

/// The value of the digit run `v[lo..hi]`, held at `cap` once it reaches it.
pub(crate) fn capped_value(v: &Vec<char>, lo: usize, hi: usize, cap: u64) -> (r: u64)
    requires
        lo <= hi <= v.len(),
        all_digits(v@.subrange(lo as int, hi as int)),
        cap <= 1_000_000_000_000_000_000,
    ensures
        digits_value(v@.subrange(lo as int, hi as int)) < cap ==> r == digits_value(
            v@.subrange(lo as int, hi as int),
        ),
        digits_value(v@.subrange(lo as int, hi as int)) >= cap ==> r == cap,
{
    let mut acc: u64 = 0;
    let mut i: usize = lo;
    while i < hi
        invariant
            lo <= i <= hi <= v.len(),
            all_digits(v@.subrange(lo as int, hi as int)),
            cap <= 1_000_000_000_000_000_000,
            acc <= cap,
            digits_value(v@.subrange(lo as int, i as int)) < cap ==> acc == digits_value(
                v@.subrange(lo as int, i as int),
            ),
            digits_value(v@.subrange(lo as int, i as int)) >= cap ==> acc == cap,
            digits_value(v@.subrange(lo as int, i as int)) >= 0,
        decreases hi - i,
    {
        proof {
            assert(v@.subrange(lo as int, hi as int)[i - lo] == v@[i as int]);
            assert(v@.subrange(lo as int, i + 1).drop_last() =~= v@.subrange(lo as int, i as int));
        }
        let d = digit_of(v[i]);
        let next = acc * 10 + d;
        acc = if next > cap {
            cap
        } else {
            next
        };
        i += 1;
    }
    acc
}

fn frac_digit_at(v: &Vec<char>, lo: usize, hi: usize, k: usize) -> (d: u64)
    requires
        lo <= hi <= v.len(),
        all_digits(v@.subrange(lo as int, hi as int)),
        k <= 4,
    ensures
        d == frac_digit(v@.subrange(lo as int, hi as int), k as int),
        d <= 9,
{
    if k < hi - lo {
        proof {
            assert(v@.subrange(lo as int, hi as int)[k as int] == v@[lo + k]);
        }
        digit_of(v[lo + k])
    } else {
        0
    }
}

/// Reads a decimal from its characters.
pub fn parse_decimal(v: &Vec<char>) -> (r: Option<Decimal>)
    ensures
        r == decimal_of(v@),
        r is Some ==> -MAX_UNITS <= r->0.units <= MAX_UNITS,
{
    let n = v.len();
    let start: usize = if n > 0 && (v[0] == '-' || v[0] == '+') {
        1
    } else {
        0
    };
    let negative = n > 0 && v[0] == '-';
    let dot = find_char(v, start, '.');
    let ghost b = unsigned_part(v@);
    proof {
        assert(b == v@.subrange(start as int, n as int));
        assert(int_digits(b) =~= v@.subrange(start as int, dot as int));
        if dot < n {
            assert(frac_digits(b) =~= v@.subrange(dot + 1, n as int));
        } else {
            assert(frac_digits(b) =~= v@.subrange(n as int, n as int));
        }
    }
    let frac_lo: usize = if dot < n {
        dot + 1
    } else {
        n
    };
    if !digits_in(v, start, dot) || !digits_in(v, frac_lo, n) {
        return None;
    }
    if (dot - start) + (n - frac_lo) == 0 {
        return None;
    }
    let whole = capped_value(v, start, dot, 1_000_000_000_000_000);
    let f0 = frac_digit_at(v, frac_lo, n, 0);
    let f1 = frac_digit_at(v, frac_lo, n, 1);
    let f2 = frac_digit_at(v, frac_lo, n, 2);
    let f3 = frac_digit_at(v, frac_lo, n, 3);
    let f4 = frac_digit_at(v, frac_lo, n, 4);
    let round: u64 = if f4 >= 5 {
        1
    } else {
        0
    };
    let mag: u64 = whole * 10_000 + (f0 * 1000 + f1 * 100 + f2 * 10 + f3 + round);
    proof {
        lemma_digits_value_nonneg(int_digits(b));
    }
    if mag > 1_000_000_000_000_000_000 {
        return None;
    }
    let m: i64 = mag as i64;
    Some(Decimal { units: if negative { -m } else { m } })
}

/// The character of a decimal digit.
pub open spec fn digit_char(d: int) -> char {
    (48 + d) as char
}

/// The decimal digits of a natural number, without leading zeros.
pub open spec fn nat_digits(n: nat) -> Seq<char>
    decreases n,
{
    if n < 10 {
        seq![digit_char(n as int)]
    } else {
        nat_digits(n / 10).push(digit_char((n % 10) as int))
    }
}

/// The four digits of a number below ten thousand, leading zeros kept.
pub open spec fn four_digits(n: int) -> Seq<char> {
    seq![
        digit_char(n / 1000 % 10),
        digit_char(n / 100 % 10),
        digit_char(n / 10 % 10),
        digit_char(n % 10),
    ]
}

pub open spec fn magnitude_of(units: int) -> int {
    if units < 0 {
        -units
    } else {
        units
    }
}

pub open spec fn sign_text(units: int) -> Seq<char> {
    if units < 0 {
        seq!['-']
    } else {
        Seq::empty()
    }
}

/// `units` written with exactly four fractional digits, as in `609.6000`.
pub open spec fn fixed4(units: int) -> Seq<char> {
    let m = magnitude_of(units);
    sign_text(units) + nat_digits((m / 10_000) as nat) + seq!['.'] + four_digits(m % 10_000)
}

/// `s` without its trailing zeros.
pub open spec fn strip_zeros(s: Seq<char>) -> Seq<char>
    decreases s.len(),
{
    if s.len() > 0 && s.last() == '0' {
        strip_zeros(s.drop_last())
    } else {
        s
    }
}

/// `units` written with no more digits than it needs: a whole number has no
/// decimal point, a fraction no trailing zeros.
pub open spec fn shortest(units: int) -> Seq<char> {
    let m = magnitude_of(units);
    let whole = sign_text(units) + nat_digits((m / 10_000) as nat);
    if m % 10_000 == 0 {
        whole
    } else {
        whole + seq!['.'] + strip_zeros(four_digits(m % 10_000))
    }
}

/// The digits of a number are digits, at least one, and write that number.
pub proof fn lemma_nat_digits(n: nat)
    ensures
        nat_digits(n).len() > 0,
        all_digits(nat_digits(n)),
        digits_value(nat_digits(n)) == n,
    decreases n,
{
    let d = nat_digits(n);
    if n < 10 {
        assert(d.drop_last() =~= Seq::<char>::empty());
        assert(digits_value(d.drop_last()) == 0);
        assert(digit_val(d.last()) == n);
    } else {
        lemma_nat_digits(n / 10);
        assert(d.drop_last() =~= nat_digits(n / 10));
        assert(digit_val(d.last()) == n % 10);
        assert forall|i: int| 0 <= i < d.len() implies is_digit(#[trigger] d[i]) by {
            if i < d.len() - 1 {
                assert(d[i] == nat_digits(n / 10)[i]);
            }
        }
    }
}

proof fn lemma_digit_char(x: int)
    requires
        0 <= x <= 9,
    ensures
        is_digit(digit_char(x)),
        digit_val(digit_char(x)) == x,
{
}

proof fn lemma_four_places(f: int)
    requires
        0 <= f < 10_000,
    ensures
        (f / 1000 % 10) * 1000 + (f / 100 % 10) * 100 + (f / 10 % 10) * 10 + f % 10 == f,
        0 <= f / 1000 % 10 <= 9,
        0 <= f / 100 % 10 <= 9,
        0 <= f / 10 % 10 <= 9,
        0 <= f % 10 <= 9,
{
    let q1 = f / 10;
    let q2 = q1 / 10;
    let q3 = q2 / 10;
    assert(f / 100 == q2);
    assert(f / 1000 == q3);
}

proof fn lemma_four_digits(f: int)
    requires
        0 <= f < 10_000,
    ensures
        four_digits(f).len() == 4,
        all_digits(four_digits(f)),
        frac_units(four_digits(f)) == f,
{
    let d = four_digits(f);
    lemma_four_places(f);
    lemma_digit_char(f / 1000 % 10);
    lemma_digit_char(f / 100 % 10);
    lemma_digit_char(f / 10 % 10);
    lemma_digit_char(f % 10);
    assert(d[0] == digit_char(f / 1000 % 10));
    assert(d[1] == digit_char(f / 100 % 10));
    assert(d[2] == digit_char(f / 10 % 10));
    assert(d[3] == digit_char(f % 10));
    assert(frac_digit(d, 0) == f / 1000 % 10);
    assert(frac_digit(d, 1) == f / 100 % 10);
    assert(frac_digit(d, 2) == f / 10 % 10);
    assert(frac_digit(d, 3) == f % 10);
    assert(frac_digit(d, 4) == 0);
}

proof fn lemma_point_splits(whole: Seq<char>, frac: Seq<char>)
    requires
        all_digits(whole),
    ensures
        int_digits(whole + seq!['.'] + frac) == whole,
        frac_digits(whole + seq!['.'] + frac) == frac,
{
    let body = whole + seq!['.'] + frac;
    assert forall|j: int| 0 <= j < whole.len() implies body[j] != '.' by {
        assert(is_digit(whole[j]));
    }
    assert(body[whole.len() as int] == '.');
    lemma_index_of_unique(body, '.', whole.len() as int);
    assert(body.subrange(0, whole.len() as int) =~= whole);
    assert(body.subrange(whole.len() as int + 1, body.len() as int) =~= frac);
}

/// A number written with four fractional digits is made of digits, one
/// point and, where it is negative, a leading minus sign.
pub proof fn lemma_fixed4_chars(units: int)
    ensures
        fixed4(units).len() > 0,
        forall|i: int|
            0 <= i < fixed4(units).len() ==> is_digit(#[trigger] fixed4(units)[i]) || fixed4(
                units,
            )[i] == '.' || fixed4(units)[i] == '-',
{
    let m = magnitude_of(units);
    let sign = sign_text(units);
    let whole = nat_digits((m / 10_000) as nat);
    let frac = four_digits(m % 10_000);
    let s = fixed4(units);
    lemma_nat_digits((m / 10_000) as nat);
    lemma_four_digits(m % 10_000);
    assert forall|i: int| 0 <= i < s.len() implies is_digit(#[trigger] s[i]) || s[i] == '.'
        || s[i] == '-' by {
        if i < sign.len() {
            assert(s[i] == sign[i]);
        } else if i < sign.len() + whole.len() {
            assert(s[i] == whole[i - sign.len()]);
        } else if i == sign.len() + whole.len() {
            assert(s[i] == '.');
        } else {
            assert(s[i] == frac[i - sign.len() - whole.len() - 1]);
        }
    }
}

/// A number written with four fractional digits reads back as itself.
pub proof fn lemma_fixed4_reads_back(units: int)
    requires
        -MAX_UNITS <= units <= MAX_UNITS,
    ensures
        decimal_of(fixed4(units)) == Some(Decimal { units: units as i64 }),
{
    let m = magnitude_of(units);
    let whole = nat_digits((m / 10_000) as nat);
    let frac = four_digits(m % 10_000);
    let body = whole + seq!['.'] + frac;
    let s = fixed4(units);
    lemma_nat_digits((m / 10_000) as nat);
    lemma_four_digits(m % 10_000);
    lemma_point_splits(whole, frac);
    assert(is_digit(whole[0]));
    assert(body[0] == whole[0]);
    if units < 0 {
        assert(s =~= seq!['-'] + body);
        assert(s[0] == '-');
        assert(s.subrange(1, s.len() as int) =~= body);
    } else {
        assert(s =~= body);
        assert(s.subrange(0, s.len() as int) =~= body);
    }
    assert(unsigned_part(s) == body);
    assert(magnitude(s) == (m / 10_000) * 10_000 + m % 10_000);
}

proof fn lemma_strip_zeros(s: Seq<char>)
    ensures
        strip_zeros(s).len() <= s.len(),
        strip_zeros(s) == s.subrange(0, strip_zeros(s).len() as int),
        forall|j: int| strip_zeros(s).len() <= j < s.len() ==> s[j] == '0',
    decreases s.len(),
{
    if s.len() > 0 && s.last() == '0' {
        let r = s.drop_last();
        lemma_strip_zeros(r);
        let k = strip_zeros(s).len() as int;
        assert(r.subrange(0, k) =~= s.subrange(0, k));
        assert forall|j: int| k <= j < s.len() implies s[j] == '0' by {
            if j < r.len() {
                assert(r[j] == s[j]);
            }
        }
    } else {
        assert(s.subrange(0, s.len() as int) =~= s);
    }
}

/// A number written in its shortest form reads back as itself.
pub proof fn lemma_shortest_reads_back(units: int)
    requires
        -MAX_UNITS <= units <= MAX_UNITS,
    ensures
        decimal_of(shortest(units)) == Some(Decimal { units: units as i64 }),
{
    let m = magnitude_of(units);
    let whole = nat_digits((m / 10_000) as nat);
    let four = four_digits(m % 10_000);
    let frac = strip_zeros(four);
    let s = shortest(units);
    lemma_nat_digits((m / 10_000) as nat);
    lemma_four_digits(m % 10_000);
    lemma_strip_zeros(four);
    assert(is_digit(whole[0]));
    let body = if m % 10_000 == 0 {
        whole
    } else {
        whole + seq!['.'] + frac
    };
    assert(body[0] == whole[0]);
    if units < 0 {
        assert(s =~= seq!['-'] + body);
        assert(s[0] == '-');
        assert(s.subrange(1, s.len() as int) =~= body);
    } else {
        assert(s =~= body);
        assert(s.subrange(0, s.len() as int) =~= body);
    }
    assert(unsigned_part(s) == body);
    if m % 10_000 == 0 {
        assert forall|j: int| 0 <= j < whole.len() implies whole[j] != '.' by {
            assert(is_digit(whole[j]));
        }
        lemma_index_of_unique(whole, '.', whole.len() as int);
        assert(int_digits(whole) =~= whole);
        assert(frac_digits(whole) =~= Seq::<char>::empty());
        assert(frac_units(Seq::<char>::empty()) == 0);
    } else {
        assert forall|j: int| 0 <= j < frac.len() implies is_digit(#[trigger] frac[j]) by {
            assert(frac[j] == four[j]);
        }
        lemma_point_splits(whole, frac);
        assert forall|k: int| 0 <= k < 4 implies frac_digit(frac, k) == frac_digit(four, k) by {
            if k < frac.len() {
                assert(frac[k] == four[k]);
            } else {
                assert(four[k] == '0');
            }
        }
        assert(frac_digit(frac, 0) == frac_digit(four, 0));
        assert(frac_digit(frac, 1) == frac_digit(four, 1));
        assert(frac_digit(frac, 2) == frac_digit(four, 2));
        assert(frac_digit(frac, 3) == frac_digit(four, 3));
        assert(frac_digit(frac, 4) == 0);
        assert(frac_digit(four, 4) == 0);
        assert(frac_units(frac) == frac_units(four));
    }
    assert(magnitude(s) == (m / 10_000) * 10_000 + m % 10_000);
}

fn digit_to_char(d: u8) -> (c: char)
    requires
        d <= 9,
    ensures
        c == digit_char(d as int),
{
    (48u8 + d) as char
}

/// Appends the decimal digits of `n` to `out`.
pub fn push_nat(out: &mut Vec<char>, n: u128)
    ensures
        final(out)@ == old(out)@ + nat_digits(n as nat),
    decreases n,
{
    if n < 10 {
        out.push(digit_to_char(n as u8));
        proof {
            assert(out@ =~= old(out)@ + nat_digits(n as nat));
        }
    } else {
        push_nat(out, n / 10);
        out.push(digit_to_char((n % 10) as u8));
        proof {
            assert(out@ =~= old(out)@ + nat_digits(n as nat));
        }
    }
}

fn magnitude_u128(units: i128) -> (m: u128)
    ensures
        m == magnitude_of(units as int),
{
    if units < 0 {
        let above: i128 = -(units + 1);
        (above as u128) + 1
    } else {
        units as u128
    }
}

fn push_four(out: &mut Vec<char>, n: u128)
    requires
        n < 10_000,
    ensures
        final(out)@ == old(out)@ + four_digits(n as int),
{
    out.push(digit_to_char((n / 1000 % 10) as u8));
    out.push(digit_to_char((n / 100 % 10) as u8));
    out.push(digit_to_char((n / 10 % 10) as u8));
    out.push(digit_to_char((n % 10) as u8));
    proof {
        assert(out@ =~= old(out)@ + four_digits(n as int));
    }
}

/// Appends `units` with exactly four fractional digits to `out`.
pub fn push_fixed4(out: &mut Vec<char>, units: i128)
    ensures
        final(out)@ == old(out)@ + fixed4(units as int),
{
    let m = magnitude_u128(units);
    if units < 0 {
        out.push('-');
    }
    let ghost signed = out@;
    push_nat(out, m / 10_000);
    out.push('.');
    push_four(out, m % 10_000);
    proof {
        assert(signed =~= old(out)@ + sign_text(units as int));
        assert(out@ =~= old(out)@ + fixed4(units as int));
    }
}

/// Appends `units` in its shortest form to `out`.
pub fn push_shortest(out: &mut Vec<char>, units: i128)
    ensures
        final(out)@ == old(out)@ + shortest(units as int),
{
    let m = magnitude_u128(units);
    if units < 0 {
        out.push('-');
    }
    let ghost signed = out@;
    push_nat(out, m / 10_000);
    let ghost whole = out@;
    proof {
        assert(signed =~= old(out)@ + sign_text(units as int));
        assert(whole =~= old(out)@ + (sign_text(units as int) + nat_digits(
            (magnitude_of(units as int) / 10_000) as nat,
        )));
    }
    let f = m % 10_000;
    if f != 0 {
        let mut digits: Vec<char> = Vec::new();
        push_four(&mut digits, f);
        let mut end: usize = 4;
        proof {
            assert(digits@ =~= four_digits(f as int));
            assert(digits@.subrange(0, 4) =~= digits@);
        }
        while end > 0 && digits[end - 1] == '0'
            invariant
                end <= 4 == digits.len(),
                strip_zeros(digits@) == strip_zeros(digits@.subrange(0, end as int)),
            decreases end,
        {
            proof {
                assert(digits@.subrange(0, end as int).drop_last() =~= digits@.subrange(
                    0,
                    end - 1,
                ));
            }
            end -= 1;
        }
        out.push('.');
        let mut i: usize = 0;
        while i < end
            invariant
                i <= end <= digits.len(),
                out@ == whole + seq!['.'] + digits@.subrange(0, i as int),
            decreases end - i,
        {
            out.push(digits[i]);
            proof {
                assert(out@ =~= whole + seq!['.'] + digits@.subrange(0, i + 1));
            }
            i += 1;
        }
        proof {
            assert(out@ =~= old(out)@ + shortest(units as int));
        }
    }
}

impl Decimal {
    /// The decimal of `units` ten-thousandths.
    pub fn from_units(units: i64) -> (d: Decimal)
        ensures
            d.units == units,
    {
        Decimal { units }
    }

    /// Zero.
    pub fn zero() -> (d: Decimal)
        ensures
            d.units == 0,
    {
        Decimal { units: 0 }
    }

    /// Reads a decimal from text; white space is not skipped.
    pub fn parse(s: &str) -> (r: Option<Decimal>)
        ensures
            r == decimal_of(s@),
    {
        let v = to_chars(s);
        parse_decimal(&v)
    }

    /// The number with exactly four fractional digits.
    pub fn to_fixed4(&self) -> (s: String)
        ensures
            s@ == fixed4(self.units as int),
    {
        let mut out: Vec<char> = Vec::new();
        push_fixed4(&mut out, self.units as i128);
        proof {
            assert(Seq::<char>::empty() + fixed4(self.units as int) =~= fixed4(self.units as int));
        }
        to_text(&out)
    }

    /// The number in its shortest form.
    pub fn render(&self) -> (s: String)
        ensures
            s@ == shortest(self.units as int),
    {
        let mut out: Vec<char> = Vec::new();
        push_shortest(&mut out, self.units as i128);
        proof {
            assert(Seq::<char>::empty() + shortest(self.units as int) =~= shortest(
                self.units as int,
            ));
        }
        to_text(&out)
    }
}

} // verus!
