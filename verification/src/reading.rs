//! Readings as decimal numbers.
//!
//! A reading is a whole number of units of 0.0001 degree, held in an `i64`.
//! Text is read as an optional `-`, digits, and optionally a point and more
//! digits; at least one digit is needed. Nothing else is a reading: no `+`,
//! no exponent, no name of a special value.
//!
//! Fraction digits after the fourth are dropped. Where one of them is not
//! zero and the number kept ends in 0 or 5, the reading is one unit further
//! from zero: so a reading stands on a multiple of five units only if the
//! text does, and rounding it to fewer digits goes the way in which rounding
//! the text goes. Sums of readings are exact, so they do not depend on the
//! order in which the readings arrive.

use crate::scan::find_byte;
use crate::scan::first_index_of;
use vstd::arithmetic::div_mod::lemma_fundamental_div_mod_converse;
use vstd::prelude::*;
use vstd::slice::slice_subrange;
use vstd::string::StringExecFns;

verus! {

/// The number of fraction digits that a reading keeps.
pub const FRACTION_DIGITS: usize = 4;

/// The number of units in one degree.
pub const UNITS_PER_DEGREE: i64 = 10_000;

/// The number of units in one hundredth of a degree.
pub const UNITS_PER_HUNDREDTH: i64 = 100;

/// The byte `-`.
pub const MINUS: u8 = 0x2d;

/// The byte `.`.
pub const POINT: u8 = 0x2e;

/// The byte `0`.
pub const ZERO: u8 = 0x30;

/// `b` is one of the bytes `0` to `9`.
pub open spec fn is_digit(b: u8) -> bool {
    0x30 <= b && b <= 0x39
}

/// Every byte of `s` is a digit.
pub open spec fn all_digits(s: Seq<u8>) -> bool {
    forall|i: int| 0 <= i < s.len() ==> is_digit(#[trigger] s[i])
}

/// The number that the digits `s` write in base ten; 0 for no digits.
pub open spec fn digits_value(s: Seq<u8>) -> nat
    decreases s.len(),
{
    if s.len() == 0 {
        0
    } else {
        10 * digits_value(s.drop_last()) + (s.last() - ZERO) as nat
    }
}

/// `t` begins with `-`.
pub open spec fn is_negative(t: Seq<u8>) -> bool {
    t.len() > 0 && t[0] == MINUS
}

/// The number of bytes that the sign takes: 1 if `t` begins with `-`.
pub open spec fn sign_len(t: Seq<u8>) -> int {
    if is_negative(t) {
        1
    } else {
        0
    }
}

/// What stands between the sign and the first point of `t`.
pub open spec fn integer_part(t: Seq<u8>) -> Seq<u8> {
    let u = t.skip(sign_len(t));
    u.take(first_index_of(u, POINT))
}

/// What stands after the first point of `t`; nothing if `t` has no point.
pub open spec fn fraction_part(t: Seq<u8>) -> Seq<u8> {
    let u = t.skip(sign_len(t));
    let p = first_index_of(u, POINT);
    if p < u.len() {
        u.skip(p + 1)
    } else {
        Seq::empty()
    }
}

/// `t` is written as a decimal number: both parts hold digits only, and there
/// is at least one digit.
pub open spec fn is_decimal(t: Seq<u8>) -> bool {
    &&& all_digits(integer_part(t))
    &&& all_digits(fraction_part(t))
    &&& integer_part(t).len() + fraction_part(t).len() > 0
}

/// The first [`FRACTION_DIGITS`] digits of the fraction `f`, with `0` where
/// `f` has no digit.
pub open spec fn kept_fraction(f: Seq<u8>) -> Seq<u8> {
    Seq::new(
        FRACTION_DIGITS as nat,
        |i: int|
            if i < f.len() {
                f[i]
            } else {
                ZERO
            },
    )
}

/// One of the digits of the fraction `f` that are dropped is not zero.
pub open spec fn drops_digits(f: Seq<u8>) -> bool {
    exists|i: int| FRACTION_DIGITS <= i < f.len() && (#[trigger] f[i]) != ZERO
}

/// The number that the digits of `t` write, down to the last digit kept.
pub open spec fn kept_value(t: Seq<u8>) -> nat {
    digits_value(integer_part(t) + kept_fraction(fraction_part(t)))
}

/// The number of units that the decimal number `t` stands for, without its
/// sign: the number kept, and one more where digits are dropped from a number
/// that ends in 0 or 5.
pub open spec fn magnitude(t: Seq<u8>) -> nat {
    if drops_digits(fraction_part(t)) && kept_value(t) % 5 == 0 {
        kept_value(t) + 1
    } else {
        kept_value(t)
    }
}

/// The number of units that the decimal number `t` stands for.
pub open spec fn units(t: Seq<u8>) -> int {
    if is_negative(t) {
        -(magnitude(t) as int)
    } else {
        magnitude(t) as int
    }
}

/// `t` is a decimal number whose units fit in an `i64`, with either sign.
pub open spec fn is_reading(t: Seq<u8>) -> bool {
    is_decimal(t) && magnitude(t) <= i64::MAX
}

/// The value of a prefix of digits is at most the value of the whole.
proof fn lemma_prefix_value(s: Seq<u8>, k: int)
    requires
        0 <= k <= s.len(),
        all_digits(s),
    ensures
        digits_value(s.take(k)) <= digits_value(s),
    decreases s.len() - k,
{
    if k == s.len() {
        assert(s.take(k) =~= s);
    } else {
        lemma_prefix_value(s, k + 1);
        assert(s.take(k + 1).drop_last() =~= s.take(k));
    }
}

/// Whether `s[lo..hi]` holds digits only.
fn digits_only(s: &[u8], lo: usize, hi: usize) -> (r: bool)
    requires
        lo <= hi <= s@.len(),
    ensures
        r == all_digits(s@.subrange(lo as int, hi as int)),
{
    let ghost part = s@.subrange(lo as int, hi as int);
    let mut i: usize = lo;
    while i < hi
        invariant
            lo <= i <= hi <= s@.len(),
            part == s@.subrange(lo as int, hi as int),
            forall|j: int| 0 <= j < i - lo ==> is_digit(#[trigger] part[j]),
        decreases hi - i,
    {
        if !(0x30 <= s[i] && s[i] <= 0x39) {
            assert(!is_digit(part[i - lo]));
            return false;
        }
        i += 1;
    }
    true
}

/// Reads a decimal number.
///
/// Returns the reading in units of 0.0001 degree, or `None` when `t` is not
/// written as a decimal number or is too large for an `i64`.
pub fn parse_reading(t: &[u8]) -> (r: Option<i64>)
    ensures
        r is Some <==> is_reading(t@),
        r matches Some(v) ==> v == units(t@),
{
    let n: usize = t.len();
    let negative: bool = n > 0 && t[0] == MINUS;
    let start: usize = if negative {
        1
    } else {
        0
    };
    let u = slice_subrange(t, start, n);
    let p: usize = find_byte(u, POINT);
    let m: usize = u.len();
    let frac_lo: usize = if p < m {
        p + 1
    } else {
        m
    };
    let ghost int_part = integer_part(t@);
    let ghost frac_part = fraction_part(t@);
    if !digits_only(u, 0, p) || !digits_only(u, frac_lo, m) || p + (m - frac_lo) == 0 {
        return None;
    }
    let ghost all = int_part + kept_fraction(frac_part);
    let mut acc: u128 = 0;
    let mut i: usize = 0;
    while i < p
        invariant
            0 <= i <= p <= u@.len(),
            int_part == u@.subrange(0, p as int),
            all == int_part + kept_fraction(frac_part),
            all_digits(all),
            digits_value(all) == kept_value(t@),
            acc == digits_value(all.take(i as int)),
            acc <= i64::MAX,
        decreases p - i,
    {
        proof {
            assert(all.take(i + 1).drop_last() =~= all.take(i as int));
            lemma_prefix_value(all, i + 1);
        }
        let d: u128 = (u[i] - ZERO) as u128;
        acc = acc * 10 + d;
        if acc > 0x7fff_ffff_ffff_ffff {
            return None;
        }
        i += 1;
    }
    let mut k: usize = 0;
    while k < FRACTION_DIGITS
        invariant
            0 <= k <= FRACTION_DIGITS,
            p <= frac_lo <= m == u@.len(),
            int_part.len() == p,
            frac_part == u@.subrange(frac_lo as int, m as int),
            all == int_part + kept_fraction(frac_part),
            all_digits(all),
            digits_value(all) == kept_value(t@),
            acc == digits_value(all.take(p + k)),
            acc <= i64::MAX,
        decreases FRACTION_DIGITS - k,
    {
        proof {
            assert(all.take(p + k + 1).drop_last() =~= all.take(p + k));
            lemma_prefix_value(all, p + k + 1);
        }
        let d: u128 = if k < m - frac_lo {
            (u[frac_lo + k] - ZERO) as u128
        } else {
            0
        };
        acc = acc * 10 + d;
        if acc > 0x7fff_ffff_ffff_ffff {
            return None;
        }
        k += 1;
    }
    assert(all.take(p + FRACTION_DIGITS) =~= all);
    let mut cut: bool = false;
    let mut j: usize = FRACTION_DIGITS;
    while j < m - frac_lo
        invariant
            FRACTION_DIGITS <= j,
            frac_lo <= m == u@.len(),
            j <= m - frac_lo || m - frac_lo < FRACTION_DIGITS,
            frac_part == u@.subrange(frac_lo as int, m as int),
            cut == exists|i: int| FRACTION_DIGITS <= i < j && i < frac_part.len() && (
            #[trigger] frac_part[i]) != ZERO,
        decreases m - frac_lo - j,
    {
        if u[frac_lo + j] != ZERO {
            assert(frac_part[j as int] != ZERO);
            cut = true;
        }
        j += 1;
    }
    assert(cut == drops_digits(frac_part));
    if cut && acc % 5 == 0 {
        acc = acc + 1;
        if acc > 0x7fff_ffff_ffff_ffff {
            return None;
        }
    }
    let v: i64 = acc as i64;
    if negative {
        Some(-v)
    } else {
        Some(v)
    }
}

/// A reading stands on a multiple of five units only if no digit that is
/// not zero was dropped, and it is the number kept or one more.
pub proof fn lemma_cut_reading_stands_off(t: Seq<u8>)
    ensures
        drops_digits(fraction_part(t)) ==> magnitude(t) % 5 != 0,
        kept_value(t) <= magnitude(t) <= kept_value(t) + 1,
        !drops_digits(fraction_part(t)) ==> magnitude(t) == kept_value(t),
{
}

/// `n / d` rounded to the nearest integer; where two are equally near, to the
/// even one.
pub open spec fn round_half_even(n: int, d: int) -> int
    recommends
        d > 0,
{
    let a = if n < 0 {
        -n
    } else {
        n
    };
    let q = a / d;
    let twice = 2 * (a % d);
    let m = if twice > d || (twice == d && q % 2 == 1) {
        q + 1
    } else {
        q
    };
    if n < 0 {
        -m
    } else {
        m
    }
}

/// [`round_half_even`] is nearest: it differs from `n / d` by at most one
/// half, and where it differs by just one half, it is even.
pub proof fn lemma_round_half_even_nearest(n: int, d: int)
    requires
        d > 0,
    ensures
        -d <= 2 * (n - round_half_even(n, d) * d) <= d,
        2 * (n - round_half_even(n, d) * d) == d || 2 * (n - round_half_even(n, d) * d) == -d
            ==> round_half_even(n, d) % 2 == 0,
{
    let a = if n < 0 {
        -n
    } else {
        n
    };
    let q = a / d;
    let r = a % d;
    assert(a == q * d + r && 0 <= r < d) by (nonlinear_arith)
        requires
            d > 0,
            q == a / d,
            r == a % d,
    ;
    assert((q + 1) * d == q * d + d) by (nonlinear_arith);
    assert((-q) * d == -(q * d)) by (nonlinear_arith);
    assert((-(q + 1)) * d == -(q * d) - d) by (nonlinear_arith);
}

/// [`round_half_even`] without its sign.
pub open spec fn rounded_magnitude(n: int, d: int) -> nat
    recommends
        d > 0,
{
    let r = round_half_even(n, d);
    (if r < 0 {
        -r
    } else {
        r
    }) as nat
}

/// Computes [`rounded_magnitude`].
fn round_ratio(n: i128, d: u128) -> (m: u128)
    requires
        d >= 2,
        n > i128::MIN,
    ensures
        m == rounded_magnitude(n as int, d as int),
{
    let a: u128 = if n < 0 {
        (-n) as u128
    } else {
        n as u128
    };
    let q: u128 = a / d;
    let rest: u128 = a % d;
    assert(q <= a / 2) by (nonlinear_arith)
        requires
            q == a / d,
            d >= 2,
    ;
    if rest > d - rest || (rest == d - rest && q % 2 == 1) {
        q + 1
    } else {
        q
    }
}

/// Ten to the power `n`.
pub open spec fn pow10(n: nat) -> nat
    decreases n,
{
    if n == 0 {
        1
    } else {
        10 * pow10((n - 1) as nat)
    }
}

/// Digits written after other digits: the first ones count for as many powers
/// of ten as there are digits behind them, and the ones behind write a number
/// below that power of ten, which is zero only if they are all `0`.
proof fn lemma_digits_value_concat(a: Seq<u8>, b: Seq<u8>)
    requires
        all_digits(b),
    ensures
        digits_value(a + b) == digits_value(a) * pow10(b.len()) + digits_value(b),
        digits_value(b) < pow10(b.len()),
        digits_value(b) > 0 <==> exists|i: int| 0 <= i < b.len() && (#[trigger] b[i]) != ZERO,
    decreases b.len(),
{
    if b.len() == 0 {
        assert(a + b =~= a);
        assert(digits_value(a) * 1 == digits_value(a)) by (nonlinear_arith);
    } else {
        let front = b.drop_last();
        let d = (b.last() - ZERO) as nat;
        assert(is_digit(b[b.len() - 1]));
        assert forall|i: int| 0 <= i < front.len() implies is_digit(#[trigger] front[i]) by {
            assert(front[i] == b[i]);
        }
        lemma_digits_value_concat(a, front);
        assert((a + b).drop_last() =~= a + front);
        assert((a + b).last() == b.last());
        let p = pow10(front.len()) as int;
        let x = digits_value(a) as int;
        let y = digits_value(front) as int;
        assert(pow10(b.len()) == 10 * p);
        assert(digits_value(a + b) == 10 * digits_value(a + front) + d);
        assert(digits_value(b) == 10 * y + d);
        assert(10 * (x * p + y) + d == x * (10 * p) + (10 * y + d)) by (nonlinear_arith);
        if exists|i: int| 0 <= i < front.len() && (#[trigger] front[i]) != ZERO {
            let i = choose|i: int| 0 <= i < front.len() && (#[trigger] front[i]) != ZERO;
            assert(b[i] != ZERO);
        }
        if exists|i: int| 0 <= i < b.len() && (#[trigger] b[i]) != ZERO {
            let i = choose|i: int| 0 <= i < b.len() && (#[trigger] b[i]) != ZERO;
            if i < front.len() {
                assert(front[i] != ZERO);
            }
        }
    }
}

/// Rounding to hundredths sees no difference between a number of units with
/// something behind it and that number moved off the multiples of five.
proof fn lemma_round_stands_off(k: int, p: int, rest: int)
    requires
        k >= 0,
        p >= 1,
        0 <= rest < p,
    ensures
        rounded_magnitude(k * p + rest, 100 * p) == rounded_magnitude(
            if rest > 0 && k % 5 == 0 {
                k + 1
            } else {
                k
            },
            100,
        ),
{
    let q = k / 100;
    let r = k % 100;
    let whole = k * p + rest;
    let low = r * p + rest;
    assert(whole == q * (100 * p) + low) by (nonlinear_arith)
        requires
            k == q * 100 + r,
            whole == k * p + rest,
            low == r * p + rest,
    ;
    assert(0 <= low < 100 * p) by (nonlinear_arith)
        requires
            0 <= r < 100,
            0 <= rest < p,
            low == r * p + rest,
    ;
    lemma_fundamental_div_mod_converse(whole, 100 * p, q, low);
    if r >= 50 {
        assert(r * p >= 50 * p) by (nonlinear_arith)
            requires
                r >= 50,
                p >= 1,
        ;
    }
    if r <= 50 {
        assert(r * p <= 50 * p) by (nonlinear_arith)
            requires
                r <= 50,
                p >= 1,
        ;
    }
    if r <= 49 {
        assert(r * p + p <= 50 * p) by (nonlinear_arith)
            requires
                r <= 49,
                p >= 1,
        ;
    }
    if r >= 51 {
        assert(r * p >= 50 * p + p) by (nonlinear_arith)
            requires
                r >= 51,
                p >= 1,
        ;
    }
    if rest > 0 && k % 5 == 0 {
        lemma_fundamental_div_mod_converse(k + 1, 100, q, r + 1);
    }
}

/// A reading rounds to the hundredth to which the number rounds as it is
/// written, however many digits are written and dropped: the digits of the
/// report are those of the text.
pub proof fn lemma_reading_rounds_as_written(t: Seq<u8>)
    requires
        is_decimal(t),
        fraction_part(t).len() >= FRACTION_DIGITS,
    ensures
        rounded_magnitude(magnitude(t) as int, UNITS_PER_HUNDREDTH as int) == rounded_magnitude(
            digits_value(integer_part(t) + fraction_part(t)) as int,
            UNITS_PER_HUNDREDTH * pow10((fraction_part(t).len() - FRACTION_DIGITS) as nat),
        ),
{
    let f = fraction_part(t);
    let kept = integer_part(t) + kept_fraction(f);
    let dropped = f.skip(FRACTION_DIGITS as int);
    assert(kept_fraction(f) =~= f.take(FRACTION_DIGITS as int));
    assert(integer_part(t) + f =~= kept + dropped);
    assert forall|i: int| 0 <= i < dropped.len() implies is_digit(#[trigger] dropped[i]) by {
        assert(dropped[i] == f[i + FRACTION_DIGITS]);
    }
    lemma_digits_value_concat(kept, dropped);
    if drops_digits(f) {
        let i = choose|i: int| FRACTION_DIGITS <= i < f.len() && (#[trigger] f[i]) != ZERO;
        assert(dropped[i - FRACTION_DIGITS] != ZERO);
    }
    if exists|i: int| 0 <= i < dropped.len() && (#[trigger] dropped[i]) != ZERO {
        let i = choose|i: int| 0 <= i < dropped.len() && (#[trigger] dropped[i]) != ZERO;
        assert(f[i + FRACTION_DIGITS] != ZERO);
    }
    lemma_pow10_positive(dropped.len());
    lemma_round_stands_off(
        digits_value(kept) as int,
        pow10(dropped.len()) as int,
        digits_value(dropped) as int,
    );
}

/// A power of ten is at least one.
proof fn lemma_pow10_positive(n: nat)
    ensures
        pow10(n) >= 1,
    decreases n,
{
    if n > 0 {
        lemma_pow10_positive((n - 1) as nat);
    }
}

/// The character that writes the digit `d`.
pub open spec fn digit_char(d: int) -> char {
    if d == 0 {
        '0'
    } else if d == 1 {
        '1'
    } else if d == 2 {
        '2'
    } else if d == 3 {
        '3'
    } else if d == 4 {
        '4'
    } else if d == 5 {
        '5'
    } else if d == 6 {
        '6'
    } else if d == 7 {
        '7'
    } else if d == 8 {
        '8'
    } else {
        '9'
    }
}

/// `n` written in base ten, without leading zeros.
pub open spec fn decimal_text(n: nat) -> Seq<char>
    decreases n,
{
    if n < 10 {
        seq![digit_char(n as int)]
    } else {
        decimal_text(n / 10).push(digit_char((n % 10) as int))
    }
}

/// `a` hundredths written with two fraction digits, after `-` if `negative`:
/// `-12.05` for 1205 that are negative.
pub open spec fn hundredths_text(negative: bool, a: nat) -> Seq<char> {
    let sign = if negative {
        seq!['-']
    } else {
        Seq::<char>::empty()
    };
    sign + decimal_text(a / 100) + seq![
        '.',
        digit_char((a % 100 / 10) as int),
        digit_char((a % 10) as int),
    ]
}

/// `n / d` in hundredths, written with two fraction digits. The digits are
/// those of [`rounded_magnitude`]; the sign is that of `n`, also where the
/// digits are all zero: a value just below zero is written `-0.00`.
pub open spec fn rounded_text(n: int, d: int) -> Seq<char>
    recommends
        d > 0,
{
    hundredths_text(n < 0, rounded_magnitude(n, d))
}

/// The digit `d` as text.
fn digit_str(d: u8) -> (r: &'static str)
    requires
        d < 10,
    ensures
        r@ == seq![digit_char(d as int)],
{
    proof {
        reveal_strlit("0");
        reveal_strlit("1");
        reveal_strlit("2");
        reveal_strlit("3");
        reveal_strlit("4");
        reveal_strlit("5");
        reveal_strlit("6");
        reveal_strlit("7");
        reveal_strlit("8");
        reveal_strlit("9");
    }
    let r = match d {
        0 => "0",
        1 => "1",
        2 => "2",
        3 => "3",
        4 => "4",
        5 => "5",
        6 => "6",
        7 => "7",
        8 => "8",
        _ => "9",
    };
    r
}

/// Appends `n` in base ten to `out`.
fn push_decimal(out: &mut String, n: u128)
    ensures
        final(out)@ == old(out)@ + decimal_text(n as nat),
    decreases n,
{
    if n >= 10 {
        push_decimal(out, n / 10);
    }
    out.append(digit_str((n % 10) as u8));
}

/// Appends `a` hundredths to `out`, with two fraction digits, after `-` if
/// `negative`.
fn push_hundredths(out: &mut String, negative: bool, a: u128)
    ensures
        final(out)@ == old(out)@ + hundredths_text(negative, a as nat),
{
    proof {
        reveal_strlit("-");
        reveal_strlit(".");
    }
    if negative {
        out.append("-");
    }
    push_decimal(out, a / 100);
    out.append(".");
    out.append(digit_str((a % 100 / 10) as u8));
    out.append(digit_str((a % 10) as u8));
}

/// Appends `n / d` in hundredths to `out`, as [`rounded_text`] writes it.
pub(crate) fn push_rounded(out: &mut String, n: i128, d: u128)
    requires
        d >= 2,
        n > i128::MIN,
    ensures
        final(out)@ == old(out)@ + rounded_text(n as int, d as int),
{
    let a: u128 = round_ratio(n, d);
    push_hundredths(out, n < 0, a);
}

} // verus!
