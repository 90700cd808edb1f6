//! Double-precision numbers in decimal.
//!
//! Reading takes an optional sign and then `inf`, `infinity` or `nan` in any
//! case, or digits with at most one point and an optional exponent; the result
//! is the number nearest to what is written. Writing gives the shortest digits
//! that read back as the same number, without an exponent.

use crate::double::{is_nearest, round_quotient, units_times, Double, BINADE, INFINITY_BITS, SIGN_BIT};
use crate::natural::Natural;
use crate::text::{chars_of, same, slice_text, to_lower, write_u64};
use crate::{double, text};
use vstd::arithmetic::power::*;
use vstd::arithmetic::power2::*;
use vstd::prelude::*;

verus! {

/// `10^k`.
pub open spec fn ten(k: nat) -> nat
    decreases k,
{
    if k == 0 {
        1
    } else {
        10 * ten((k - 1) as nat)
    }
}

pub proof fn lemma_ten_adds(a: nat, b: nat)
    ensures
        ten(a + b) == ten(a) * ten(b),
        ten(a) > 0,
    decreases a,
{
    if a == 0 {
        assert(ten(b) == 1 * ten(b));
    } else {
        lemma_ten_adds((a - 1) as nat, b);
        let x = ten((a - 1) as nat);
        let y = ten(b);
        assert(10 * (x * y) == (10 * x) * y) by (nonlinear_arith);
    }
}

/// The numerator of `10^k`, in multiples of 2^-1074.
pub open spec fn up(k: int) -> nat {
    if k >= 0 {
        ten(k as nat) * double::one_in_units()
    } else {
        double::one_in_units()
    }
}

/// The denominator of `10^k`.
pub open spec fn down(k: int) -> nat {
    if k >= 0 {
        1
    } else {
        ten((-k) as nat)
    }
}

/// The magnitude nearest to `c * 10^k`.
pub open spec fn nearest_decimal(c: nat, k: int) -> u64 {
    double::nearest(c * up(k), down(k))
}

/// How many digits a text starts with.
pub open spec fn digit_run(text: Seq<char>) -> nat
    decreases text.len(),
{
    if text.len() > 0 && text::is_digit(text[0]) {
        1 + digit_run(text.skip(1))
    } else {
        0
    }
}

/// The exponent that ends a numeral: nothing, or `e`, an optional sign and
/// digits.
pub open spec fn exponent_value(text: Seq<char>) -> Option<int> {
    if text.len() == 0 {
        Some(0)
    } else if text[0] == 'e' || text[0] == 'E' {
        text::integer_value(text.skip(1), true)
    } else {
        None
    }
}

/// The magnitude that an unsigned numeral writes.
pub open spec fn numeral_value(text: Seq<char>) -> Option<u64> {
    let whole = digit_run(text);
    let point = whole < text.len() && text[whole as int] == '.';
    let start = if point {
        whole + 1
    } else {
        whole
    };
    let fraction = if point {
        digit_run(text.skip(start as int))
    } else {
        0
    };
    let digits = text.take(whole as int) + text.subrange(start as int, (start + fraction) as int);
    match exponent_value(text.skip((start + fraction) as int)) {
        Some(e) => if digits.len() == 0 {
            None
        } else {
            Some(nearest_decimal(text::digits_value(digits), e - fraction))
        },
        None => None,
    }
}

/// The magnitude that an unsigned text writes: a numeral or a name.
pub open spec fn unsigned_value(text: Seq<char>) -> Option<u64> {
    if text::lower(text) == "inf"@ || text::lower(text) == "infinity"@ {
        Some(INFINITY_BITS)
    } else if text::lower(text) == "nan"@ {
        Some(double::not_a_number().bits)
    } else {
        numeral_value(text)
    }
}

/// The number that a text writes.
pub open spec fn double_value(text: Seq<char>) -> Option<Double> {
    let sign = text.len() > 0 && (text[0] == '+' || text[0] == '-');
    let rest = if sign {
        text.skip(1)
    } else {
        text
    };
    match unsigned_value(rest) {
        Some(m) => Some(double::signed(m, sign && text[0] == '-')),
        None => None,
    }
}

proof fn lemma_run(text: Seq<char>, n: nat)
    requires
        n <= text.len(),
        text::all_digits(text.take(n as int)),
        n == text.len() || !text::is_digit(text[n as int]),
    ensures
        digit_run(text) == n,
    decreases n,
{
    if n > 0 {
        assert(text::is_digit(text.take(n as int)[0]));
        let rest = text.skip(1);
        assert forall|i: int| 0 <= i < n - 1 implies text::is_digit(
            #[trigger] rest.take((n - 1) as int)[i],
        ) by {
            assert(text.take(n as int)[i + 1] == rest.take((n - 1) as int)[i]);
        }
        lemma_run(rest, (n - 1) as nat);
    }
}

/// Where the digits from `from` on end.
fn run_end(chars: &Vec<char>, from: usize) -> (r: usize)
    requires
        from <= chars.len(),
    ensures
        r == from + digit_run(chars@.skip(from as int)),
        from <= r <= chars.len(),
        text::all_digits(chars@.subrange(from as int, r as int)),
{
    let mut i: usize = from;
    while i < chars.len() && '0' <= chars[i] && chars[i] <= '9'
        invariant
            from <= i <= chars.len(),
            text::all_digits(chars@.subrange(from as int, i as int)),
        decreases chars.len() - i,
    {
        assert(chars@.subrange(from as int, i + 1) =~= chars@.subrange(from as int, i as int).push(
            chars@[i as int],
        ));
        i = i + 1;
    }
    proof {
        let rest = chars@.skip(from as int);
        assert(rest.take(i - from) =~= chars@.subrange(from as int, i as int));
        lemma_run(rest, (i - from) as nat);
    }
    i
}

/// Exponents beyond this are told apart no more: every numeral with one is
/// infinite or zero.
const EXPONENT_LIMIT: u128 = 1_000_000_000_000_000_000_000_000_000_000;

/// Reads an exponent, capped at [`EXPONENT_LIMIT`].
fn read_exponent(chars: &Vec<char>, from: usize) -> (r: Option<i128>)
    requires
        from <= chars.len(),
    ensures
        match (r, exponent_value(chars@.skip(from as int))) {
            (Some(x), Some(e)) => {
                &&& x == e || (x == EXPONENT_LIMIT && e > x) || (x == -EXPONENT_LIMIT && e < x)
                &&& -EXPONENT_LIMIT <= x <= EXPONENT_LIMIT
            },
            (None, None) => true,
            _ => false,
        },
{
    let ghost text = chars@.skip(from as int);
    if from == chars.len() {
        return Some(0);
    }
    assert(text[0] == chars@[from as int]);
    if chars[from] != 'e' && chars[from] != 'E' {
        return None;
    }
    let ghost rest = text.skip(1);
    let mut i: usize = from + 1;
    let mut negative: bool = false;
    if i < chars.len() {
        assert(rest[0] == chars@[i as int]);
        if chars[i] == '-' {
            negative = true;
            i = i + 1;
        } else if chars[i] == '+' {
            i = i + 1;
        }
    }
    let start: usize = i;
    let ghost digits = chars@.skip(start as int);
    proof {
        assert(rest =~= chars@.skip(from + 1));
        if start == from + 2 {
            assert(rest.skip(1) =~= digits);
        } else {
            assert(rest =~= digits);
        }
    }
    if start == chars.len() {
        return None;
    }
    let ghost exact = exponent_value(text);
    proof {
        if text::all_digits(digits) {
            assert(exact == Some(
                if negative {
                    -(text::digits_value(digits) as int)
                } else {
                    text::digits_value(digits) as int
                },
            ));
        } else {
            assert(exact is None);
        }
    }
    let mut total: u128 = 0;
    assert(digits.take(0) =~= Seq::empty());
    while i < chars.len()
        invariant
            start <= i <= chars.len(),
            digits == chars@.skip(start as int),
            exact == exponent_value(chars@.skip(from as int)),
            !text::all_digits(digits) ==> exact is None,
            text::all_digits(digits.take(i - start)),
            total <= EXPONENT_LIMIT,
            total == text::digits_value(digits.take(i - start)) || (total == EXPONENT_LIMIT
                && text::digits_value(digits.take(i - start)) > total),
        decreases chars.len() - i,
    {
        let c: char = chars[i];
        assert(digits[i - start] == c);
        if !('0' <= c && c <= '9') {
            assert(!text::all_digits(digits));
            return None;
        }
        proof {
            assert(digits.take(i - start + 1).drop_last() =~= digits.take(i - start));
            assert(digits.take(i - start + 1) =~= digits.take(i - start).push(c));
        }
        total = total * 10 + (c as u128 - '0' as u128);
        if total > EXPONENT_LIMIT {
            total = EXPONENT_LIMIT;
        }
        i = i + 1;
    }
    assert(digits.take(digits.len() as int) =~= digits);
    if negative {
        Some(-(total as i128))
    } else {
        Some(total as i128)
    }
}

/// A text's digits, and how many of them follow the leading zeros.
struct Significand {
    value: Natural,
    length: usize,
}

proof fn lemma_leading(digits: Seq<char>, c: char)
    ensures
        text::digits_value(digits.push(c)) == 10 * text::digits_value(digits) + text::digit_value(c),
{
    assert(digits.push(c).drop_last() =~= digits);
}

/// Adds the digits between `from` and `to` behind those already read.
fn extend(sofar: Significand, chars: &Vec<char>, from: usize, to: usize, before: Ghost<Seq<char>>) -> (r:
    Significand)
    requires
        from <= to <= chars.len(),
        text::all_digits(chars@.subrange(from as int, to as int)),
        sofar.value@ == text::digits_value(before@),
        sofar.length <= before@.len(),
        before@.len() + (to - from) <= chars.len(),
        sofar.value@ < ten(sofar.length as nat),
        sofar.length > 0 ==> sofar.value@ >= ten((sofar.length - 1) as nat),
    ensures
        r.value@ == text::digits_value(before@ + chars@.subrange(from as int, to as int)),
        r.length <= before@.len() + (to - from),
        r.value@ < ten(r.length as nat),
        r.length > 0 ==> r.value@ >= ten((r.length - 1) as nat),
{
    let mut value = sofar.value;
    let mut length: usize = sofar.length;
    let mut i: usize = from;
    assert(before@ + chars@.subrange(from as int, from as int) =~= before@);
    while i < to
        invariant
            from <= i <= to <= chars.len(),
            text::all_digits(chars@.subrange(from as int, to as int)),
            before@.len() + (to - from) <= chars.len(),
            value@ == text::digits_value(before@ + chars@.subrange(from as int, i as int)),
            length <= before@.len() + (i - from),
            value@ < ten(length as nat),
            length > 0 ==> value@ >= ten((length - 1) as nat),
        decreases to - i,
    {
        let c: char = chars[i];
        proof {
            assert(chars@.subrange(from as int, to as int)[i - from] == c);
            let now = before@ + chars@.subrange(from as int, i as int);
            assert(before@ + chars@.subrange(from as int, i + 1) =~= now.push(c));
            lemma_leading(now, c);
        }
        let digit: u64 = c as u64 - '0' as u64;
        value = value.times_plus(10, digit);
        if length > 0 || digit > 0 {
            length = length + 1;
        }
        i = i + 1;
    }
    Significand { value, length }
}

proof fn lemma_ten_large(k: nat)
    requires
        k >= 400,
    ensures
        ten(k) >= pow2(1300),
{
    lemma_ten_powers(100);
    lemma_ten_adds(400, (k - 400) as nat);
    lemma_ten_adds((k - 400) as nat, 0);
    let x = ten(400);
    let y = ten((k - 400) as nat);
    assert(x * y >= x) by (nonlinear_arith)
        requires
            y >= 1,
            x >= 0,
    ;
}

proof fn lemma_ten_powers(j: nat)
    ensures
        ten(4 * j) >= pow2(13 * j),
    decreases j,
{
    if j == 0 {
        lemma2_to64();
    } else {
        let i = (j - 1) as nat;
        lemma_ten_powers(i);
        reveal_with_fuel(ten, 5);
        assert(ten(4) == 10_000);
        lemma2_to64();
        assert(pow2(13) == 8192);
        lemma_ten_adds(4, 4 * i);
        lemma_pow2_adds(13, 13 * i);
        assert(4 + 4 * i == 4 * j && 13 + 13 * i == 13 * j);
        let x = ten(4 * i);
        let y = pow2(13 * i);
        assert(10_000 * x >= 8192 * y) by (nonlinear_arith)
            requires
                x >= y,
                y >= 0,
        ;
    }
}

/// A numeral far above every number is infinite.
proof fn lemma_huge(c: nat, k: int, length: nat)
    requires
        length > 0,
        c >= ten((length - 1) as nat),
        k + length - 1 >= 400,
    ensures
        nearest_decimal(c, k) == INFINITY_BITS,
{
    lemma_ten_adds((length - 1) as nat, 0);
    let one = double::one_in_units();
    lemma_top_units();
    lemma_pow2_strictly_increases(1024, 1300);
    lemma_pow2_pos(1074);
    if k >= 0 {
        lemma_ten_adds(k as nat, (length - 1) as nat);
        lemma_ten_large((k + length - 1) as nat);
        let t = ten(k as nat);
        let l = ten((length - 1) as nat);
        assert(c * t >= t * l) by (nonlinear_arith)
            requires
                c >= l,
                t >= 0,
        ;
        let v = c * t;
        let p = pow2(1024);
        assert(v * one >= p * one) by (nonlinear_arith)
            requires
                v >= p,
                one >= 0,
        ;
        assert(v * one == c * (t * one)) by (nonlinear_arith)
            requires
                v == c * t,
        ;
        double::lemma_top(c * (t * one), 1);
    } else {
        let j = (-k) as nat;
        lemma_ten_adds(j, 0);
        lemma_ten_adds(j, (length - 1 - j) as nat);
        lemma_ten_large((length - 1 - j) as nat);
        let t = ten(j);
        let l = ten((length - 1 - j) as nat);
        let p = pow2(1024);
        assert(c * one >= (p * one) * t) by (nonlinear_arith)
            requires
                c >= t * l,
                l >= p,
                t >= 0,
                one >= 0,
        ;
        double::lemma_top(c * one, t);
    }
}

/// A numeral far below every number is zero.
proof fn lemma_minute(c: nat, k: int, length: nat)
    requires
        c < ten(length),
        k + length <= -400,
    ensures
        nearest_decimal(c, k) == 0,
{
    let j = (-k) as nat;
    let one = double::one_in_units();
    lemma_ten_adds(length, (j - length) as nat);
    lemma_ten_large((j - length) as nat);
    lemma_pow2_unfold(1075);
    lemma_pow2_strictly_increases(1075, 1300);
    lemma_pow2_pos(1074);
    let l = ten(length);
    let t = ten((j - length) as nat);
    assert(2 * (c * one) < l * t) by (nonlinear_arith)
        requires
            c < l,
            2 * one <= t,
            one > 0,
    ;
    double::lemma_bottom(c * one, ten(j));
}

/// Rounds a significand with an exponent, of which a capped reading is given.
fn scale(part: &Significand, exponent: i128, fraction: usize, exact: Ghost<int>) -> (r: u64)
    requires
        part.value@ < ten(part.length as nat),
        part.length > 0 ==> part.value@ >= ten((part.length - 1) as nat),
        -EXPONENT_LIMIT <= exponent <= EXPONENT_LIMIT,
        exponent == exact@ || (exponent == EXPONENT_LIMIT && exact@ > exponent) || (exponent
            == -EXPONENT_LIMIT && exact@ < exponent),
    ensures
        r == nearest_decimal(part.value@, exact@ - fraction),
        r <= INFINITY_BITS,
{
    let length: usize = part.length;
    let k: i128 = exponent - fraction as i128;
    if length == 0 {
        proof {
            lemma_none(exact@ - fraction);
        }
        return 0;
    }
    if k + length as i128 - 1 >= 400 {
        proof {
            lemma_huge(part.value@, exact@ - fraction, length as nat);
        }
        return INFINITY_BITS;
    }
    if k + length as i128 <= -400 {
        proof {
            lemma_minute(part.value@, exact@ - fraction, length as nat);
        }
        return 0;
    }
    round_decimal(&part.value, k)
}

/// Where the digits before the point end, and where those behind it start and
/// end.
fn split_numeral(chars: &Vec<char>, from: usize) -> (r: (usize, usize, usize))
    requires
        from <= chars.len(),
    ensures
        from <= r.0 <= r.1 <= r.2 <= chars.len(),
        ({
            let text = chars@.skip(from as int);
            let whole = digit_run(text);
            let point = whole < text.len() && text[whole as int] == '.';
            &&& r.0 == from + whole
            &&& r.1 == if point {
                r.0 + 1
            } else {
                r.0 as int
            }
            &&& r.2 == if point {
                r.1 + digit_run(text.skip(r.1 - from))
            } else {
                r.1 as int
            }
        }),
        text::all_digits(chars@.subrange(from as int, r.0 as int)),
        text::all_digits(chars@.subrange(r.1 as int, r.2 as int)),
{
    let ghost text = chars@.skip(from as int);
    let whole: usize = run_end(chars, from);
    if whole < chars.len() {
        assert(text[whole - from] == chars@[whole as int]);
        if chars[whole] == '.' {
            let start: usize = whole + 1;
            let end: usize = run_end(chars, start);
            assert(text.skip(start - from) =~= chars@.skip(start as int));
            return (whole, start, end);
        }
    }
    (whole, whole, whole)
}

/// Reads an unsigned numeral.
fn read_numeral(chars: &Vec<char>, from: usize) -> (r: Option<u64>)
    requires
        from <= chars.len(),
    ensures
        r == numeral_value(chars@.skip(from as int)),
        r matches Some(m) ==> m <= INFINITY_BITS,
{
    let ghost text = chars@.skip(from as int);
    let (whole, start, end) = split_numeral(chars, from);
    let ghost first = text.take(whole - from);
    let ghost second = text.subrange(start - from, end - from);
    proof {
        assert(first =~= chars@.subrange(from as int, whole as int));
        assert(second =~= chars@.subrange(start as int, end as int));
        assert(text.skip(end - from) =~= chars@.skip(end as int));
    }
    let exponent: i128 = match read_exponent(chars, end) {
        Some(e) => e,
        None => {
            return None;
        },
    };
    let fraction: usize = end - start;
    if whole == from && fraction == 0 {
        assert((first + second).len() == 0);
        return None;
    }
    let nothing = Significand { value: Natural::from_u64(0), length: 0 };
    let ghost none = Seq::<char>::empty();
    let left = extend(nothing, chars, from, whole, Ghost(none));
    assert(none + first =~= first);
    let part = extend(left, chars, start, end, Ghost(first));
    let ghost exact = exponent_value(text.skip(end - from))->Some_0;
    Some(scale(&part, exponent, fraction, Ghost(exact)))
}

proof fn lemma_none(k: int)
    ensures
        nearest_decimal(0, k) == 0,
{
    let t = up(k);
    assert(0 * t == 0) by (nonlinear_arith);
    if k < 0 {
        lemma_ten_adds((-k) as nat, 0);
    }
    double::lemma_bottom(0, down(k));
}

/// `n * 10^k`.
fn times_ten(n: &Natural, k: u128) -> (r: Natural)
    ensures
        r@ == n@ * ten(k as nat),
{
    let mut out = n.duplicate();
    let mut i: u128 = 0;
    proof {
        let v = n@;
        assert(v * 1 == v) by (nonlinear_arith);
    }
    while i < k
        invariant
            i <= k,
            out@ == n@ * ten(i as nat),
        decreases k - i,
    {
        proof {
            let v = n@;
            let t = ten(i as nat);
            assert((v * t) * 10 == v * (10 * t)) by (nonlinear_arith);
        }
        out = out.times_plus(10, 0);
        i = i + 1;
    }
    out
}

/// The magnitude nearest to `c * 10^k`.
fn round_decimal(c: &Natural, k: i128) -> (r: u64)
    requires
        -0x1_ffff_ffff_ffff_ffff < k < 0x1_0000_0000_0000_0000,
    ensures
        r == nearest_decimal(c@, k as int),
        r <= INFINITY_BITS,
{
    if k >= 0 {
        proof {
            let v = c@;
            let t = ten(k as nat);
            let u = double::one_in_units();
            assert((v * t) * u == v * (t * u)) by (nonlinear_arith);
        }
        let n = times_ten(c, k as u128).shifted(1074);
        let one = Natural::from_u64(1);
        round_quotient(&n, &one)
    } else {
        let n = c.shifted(1074);
        let one = Natural::from_u64(1);
        let d = times_ten(&one, (-k) as u128);
        proof {
            lemma_ten_adds((-k) as nat, 0);
            assert(1 * ten((-k) as nat) == ten((-k) as nat));
        }
        round_quotient(&n, &d)
    }
}

/// Reads a number.
pub fn read_double(text: &str) -> (r: Option<Double>)
    ensures
        r == double_value(text@),
{
    let chars = chars_of(text);
    let mut from: usize = 0;
    let mut negative: bool = false;
    if chars.len() > 0 {
        if chars[0] == '-' {
            from = 1;
            negative = true;
        } else if chars[0] == '+' {
            from = 1;
        }
    }
    let rest = slice_text(&chars, from, chars.len());
    proof {
        assert(rest@ =~= chars@.skip(from as int));
        assert(chars@.skip(0) =~= chars@);
    }
    let name = to_lower(rest.as_str());
    let size: u64 = if same(name.as_str(), "inf") || same(name.as_str(), "infinity") {
        INFINITY_BITS
    } else if same(name.as_str(), "nan") {
        0x7ff8_0000_0000_0000
    } else {
        match read_numeral(&chars, from) {
            Some(m) => m,
            None => {
                return None;
            },
        }
    };
    Some(Double {
        bits: if negative {
            size + SIGN_BIT
        } else {
            size
        },
    })
}

/// The power of ten that lies next above a magnitude.
pub open spec fn next_power(m: u64) -> int {
    choose|p: int| #[trigger]
        is_next_power(m, p)
}

/// Whether the magnitude `m` lies below `10^p`, but not below `10^(p - 1)`.
pub open spec fn is_next_power(m: u64, p: int) -> bool {
    let u = double::units(m as nat);
    u * down(p) < up(p) && up(p - 1) <= u * down(p - 1)
}

/// How many times `10^k` goes into the magnitude `m`.
pub open spec fn cut(m: u64, k: int) -> nat {
    (double::units(m as nat) * down(k)) / up(k)
}

/// Whether `m`, cut before `10^k`, reads back as `m` when it is rounded down
/// or up there.
pub open spec fn cut_reads_back(m: u64, k: int) -> bool {
    nearest_decimal(cut(m, k), k) == m || nearest_decimal(cut(m, k) + 1, k) == m
}

/// The fewest digits, from `n` up to 17, that tell the magnitude `m` apart.
pub open spec fn fewest_digits(m: u64, n: nat) -> nat
    decreases 17 - n,
{
    if n >= 17 || cut_reads_back(m, next_power(m) - n) {
        n
    } else {
        fewest_digits(m, n + 1)
    }
}

/// Of the two multiples of `10^k` around `m`, the one nearer to it among those
/// that read back as `m`; the upper one where both are as near.
pub open spec fn nearer_cut(m: u64, k: int) -> nat {
    let c = cut(m, k);
    let low = nearest_decimal(c, k) == m;
    let high = nearest_decimal(c + 1, k) == m;
    if high && (!low || (2 * c + 1) * up(k) <= 2 * (double::units(m as nat) * down(k))) {
        c + 1
    } else {
        c
    }
}

/// `c * 10^k` without the zeros that `c` ends in.
pub open spec fn without_zeros(c: nat, k: int) -> (nat, int)
    decreases c,
{
    if c > 0 && c % 10 == 0 {
        without_zeros(c / 10, k + 1)
    } else {
        (c, k)
    }
}

/// `n` zeros.
pub open spec fn zeros(n: nat) -> Seq<char> {
    Seq::new(n, |i: int| '0')
}

/// `c * 10^k` in decimal, with a point where it is not whole.
pub open spec fn positional(c: nat, k: int) -> Seq<char> {
    let digits = text::decimal_digits(c);
    if k >= 0 {
        digits + zeros(k as nat)
    } else if digits.len() > -k {
        digits.take(digits.len() + k) + seq!['.'] + digits.skip(digits.len() + k)
    } else {
        seq!['0', '.'] + zeros((-k - digits.len()) as nat) + digits
    }
}

/// The shortest decimal that reads back as the magnitude `m`.
pub open spec fn shortest(m: u64) -> (nat, int) {
    let k = next_power(m) - fewest_digits(m, 1);
    without_zeros(nearer_cut(m, k), k)
}

/// A magnitude in decimal.
pub open spec fn magnitude_text(m: u64) -> Seq<char> {
    if m == INFINITY_BITS {
        "inf"@
    } else if m == 0 {
        "0"@
    } else {
        positional(shortest(m).0, shortest(m).1)
    }
}

/// A number in decimal.
pub open spec fn double_text(x: Double) -> Seq<char> {
    if x.nan() {
        "NaN"@
    } else if x.negative() {
        seq!['-'] + magnitude_text(x.magnitude())
    } else {
        magnitude_text(x.magnitude())
    }
}

proof fn lemma_positive(k: int)
    ensures
        up(k) > 0,
        down(k) > 0,
{
    lemma_pow2_pos(1074);
    if k >= 0 {
        lemma_ten_adds(k as nat, 0);
        let t = ten(k as nat);
        let one = double::one_in_units();
        assert(t * one > 0) by (nonlinear_arith)
            requires
                t > 0,
                one > 0,
        ;
    } else {
        lemma_ten_adds((-k) as nat, 0);
    }
}

/// One place more is a factor of ten.
proof fn lemma_place(k: int)
    ensures
        (up(k + 1) == 10 * up(k) && down(k + 1) == down(k)) || (up(k + 1) == up(k) && down(k) == 10
            * down(k + 1)),
{
    if k >= 0 {
        let t = ten(k as nat);
        let one = double::one_in_units();
        assert((10 * t) * one == 10 * (t * one)) by (nonlinear_arith);
    } else if k == -1 {
        assert(ten(1) == 10) by {
            reveal_with_fuel(ten, 2);
        }
        assert(1 * double::one_in_units() == double::one_in_units());
    }
}

/// What reaches `10^(k + 1)` reaches ten times `10^k`.
proof fn lemma_reach(u: nat, c: nat, k: int)
    ensures
        c * up(k + 1) <= u * down(k + 1) <==> (10 * c) * up(k) <= u * down(k),
{
    lemma_place(k);
    let a = up(k);
    let b = down(k);
    let x = up(k + 1);
    let y = down(k + 1);
    if x == 10 * a && y == b {
        assert(c * (10 * a) == (10 * c) * a) by (nonlinear_arith);
    } else {
        assert(u * (10 * y) == 10 * (u * y)) by (nonlinear_arith);
        assert((10 * c) * a == 10 * (c * a)) by (nonlinear_arith);
    }
}

/// A higher power is reached less.
proof fn lemma_reach_down(u: nat, j: int, k: int)
    requires
        j <= k,
        up(k) <= u * down(k),
    ensures
        up(j) <= u * down(j),
    decreases k - j,
{
    if j < k {
        lemma_reach(u, 1, k - 1);
        let a = up(k - 1);
        assert(1 * up(k) == up(k));
        assert(a <= 10 * a);
        lemma_reach_down(u, j, k - 1);
    }
}

proof fn lemma_next_power(m: u64, p: int)
    requires
        is_next_power(m, p),
    ensures
        next_power(m) == p,
{
    let q = next_power(m);
    let u = double::units(m as nat);
    assert(is_next_power(m, q));
    if p < q {
        lemma_reach_down(u, p, q - 1);
    }
    if q < p {
        lemma_reach_down(u, q, p - 1);
    }
}

/// No number reaches `10^400`, and every one but zero reaches `10^-400`.
proof fn lemma_power_range(m: u64)
    requires
        0 < m < INFINITY_BITS,
    ensures
        double::units(m as nat) * down(400) < up(400),
        up(-400) <= double::units(m as nat) * down(-400),
{
    let u = double::units(m as nat);
    let one = double::one_in_units();
    double::lemma_units_increase(m as nat, INFINITY_BITS as nat);
    double::lemma_units_increase(0, m as nat);
    lemma_top_units();
    lemma_ten_large(400);
    lemma_pow2_adds(1024, 1074);
    lemma_pow2_strictly_increases(1024, 1300);
    lemma_pow2_strictly_increases(1074, 1300);
    lemma_pow2_pos(1074);
    let t = ten(400);
    let p = pow2(1024);
    assert(p * one < t * one) by (nonlinear_arith)
        requires
            p < t,
            one > 0,
    ;
    assert(u * t >= t) by (nonlinear_arith)
        requires
            u >= 1,
            t >= 0,
    ;
}

/// From `10^p` down, a power that `m` reaches is found.
proof fn lemma_power_below(m: u64, p: int)
    requires
        -400 < p,
        double::units(m as nat) * down(p) < up(p),
        up(-400) <= double::units(m as nat) * down(-400),
    ensures
        is_next_power(m, next_power(m)),
    decreases p + 400,
{
    let u = double::units(m as nat);
    if up(p - 1) <= u * down(p - 1) {
        lemma_next_power(m, p);
    } else {
        lemma_power_below(m, p - 1);
    }
}

proof fn lemma_top_units()
    ensures
        double::units(INFINITY_BITS as nat) == pow2(2098),
        pow2(2098) == pow2(1024) * double::one_in_units(),
{
    lemma2_to64_rest();
    lemma2_to64();
    lemma_pow2_adds(52, 2046);
    lemma_pow2_adds(1024, 1074);
    assert(INFINITY_BITS % BINADE == 0 && INFINITY_BITS / BINADE == 2047);
    assert((BINADE + 0) * pow2(2046) == pow2(52) * pow2(2046));
}

/// Numerator and denominator of `10^k`.
fn power_parts(k: i64) -> (r: (Natural, Natural))
    requires
        -500 <= k <= 500,
    ensures
        r.0@ == up(k as int),
        r.1@ == down(k as int),
{
    let one = Natural::from_u64(1);
    if k >= 0 {
        let t = times_ten(&one, k as u128);
        assert(1 * ten(k as nat) == ten(k as nat));
        (t.shifted(1074), one)
    } else {
        let t = times_ten(&one, (-k) as u128);
        assert(1 * ten((-k) as nat) == ten((-k) as nat));
        assert(1 * pow2(1074) == pow2(1074));
        (one.shifted(1074), t)
    }
}

/// Whether the magnitude `m` reaches `10^k`.
fn reaches(m: u64, k: i64) -> (r: bool)
    requires
        m < INFINITY_BITS,
        -500 <= k <= 500,
    ensures
        r == (up(k as int) <= double::units(m as nat) * down(k as int)),
{
    let (a, b) = power_parts(k);
    a.at_most(&units_times(m, &b))
}

/// Finds the power of ten next above a magnitude.
fn find_power(m: u64) -> (r: i64)
    requires
        0 < m < INFINITY_BITS,
    ensures
        r == next_power(m),
        is_next_power(m, r as int),
        -400 < r <= 400,
{
    let guess: u64 = (m / BINADE) * 30103 / 100000;
    let mut p: i64 = guess as i64 - 308;
    let ghost u = double::units(m as nat);
    proof {
        lemma_power_range(m);
        assert(guess <= 700);
    }
    while p < 400 && reaches(m, p)
        invariant
            m < INFINITY_BITS,
            u == double::units(m as nat),
            -400 < p <= 400,
            u * down(400) < up(400),
        ensures
            u * down(p as int) < up(p as int),
            -400 < p <= 400,
        decreases 400 - p,
    {
        p = p + 1;
    }
    while p > -399 && !reaches(m, p - 1)
        invariant
            m < INFINITY_BITS,
            u == double::units(m as nat),
            -400 < p <= 400,
            u * down(p as int) < up(p as int),
            up(-400) <= u * down(-400),
        ensures
            -400 < p <= 400,
            u * down(p as int) < up(p as int),
            up(p - 1) <= u * down(p - 1),
        decreases p + 400,
    {
        p = p - 1;
    }
    proof {
        lemma_next_power(m, p as int);
    }
    p
}

proof fn lemma_cut(m: u64, c: nat, k: int)
    requires
        c * up(k) <= double::units(m as nat) * down(k),
        double::units(m as nat) * down(k) < (c + 1) * up(k),
    ensures
        cut(m, k) == c,
{
    let a = double::units(m as nat) * down(k);
    let b = up(k);
    lemma_positive(k);
    assert((c + 1) * b == c * b + b) by (nonlinear_arith);
    vstd::arithmetic::div_mod::lemma_fundamental_div_mod_converse(
        a as int,
        b as int,
        c as int,
        a - c * b,
    );
}

/// A number below `10^p` has `n` digits before `10^(p - n)`.
proof fn lemma_cut_bound(u: nat, c: nat, p: int, n: nat)
    requires
        u * down(p) < up(p),
        c * up(p - n) <= u * down(p - n),
    ensures
        c < ten(n),
    decreases n,
{
    if n == 0 {
        lemma_positive(p);
        let a = up(p);
        if c >= 1 {
            assert(c * a >= a) by (nonlinear_arith)
                requires
                    c >= 1,
            ;
        }
    } else {
        let d = c / 10;
        lemma_positive(p - n);
        let a = up(p - n);
        assert((10 * d) * a <= c * a) by (nonlinear_arith)
            requires
                10 * d <= c,
                a > 0,
        ;
        lemma_reach(u, d, p - n);
        assert(p - n + 1 == p - (n - 1));
        lemma_cut_bound(u, d, p, (n - 1) as nat);
    }
}

/// A number not below `10^(p - 1)` reaches `10^(n - 1)` times `10^(p - n)`.
proof fn lemma_cut_floor(u: nat, p: int, n: nat)
    requires
        up(p - 1) <= u * down(p - 1),
        n >= 1,
    ensures
        ten((n - 1) as nat) * up(p - n) <= u * down(p - n),
    decreases n,
{
    if n == 1 {
        assert(1 * up(p - 1) == up(p - 1));
    } else {
        lemma_cut_floor(u, p, (n - 1) as nat);
        assert(p - n + 1 == p - (n - 1));
        lemma_reach(u, ten((n - 2) as nat), p - n);
    }
}

/// A multiple of `10^k` within half of `10^k` of a number with 17 digits
/// before `10^k` reads back as that number.
proof fn lemma_close_enough(m: u64, c: nat, k: int)
    requires
        0 < m < INFINITY_BITS,
        ten(16) * up(k) <= double::units(m as nat) * down(k),
        2 * (double::units(m as nat) * down(k)) - up(k) <= 2 * (c * up(k)) <= 2 * (double::units(
            m as nat,
        ) * down(k)) + up(k),
    ensures
        nearest_decimal(c, k) == m,
{
    let u = double::units(m as nat);
    let x = double::units((m - 1) as nat);
    let y = double::units((m + 1) as nat);
    let a = up(k);
    let d = down(k);
    let n = c * a;
    lemma_positive(k);
    double::lemma_gaps(m as nat);
    double::lemma_units_increase((m - 1) as nat, m as nat);
    double::lemma_units_increase(m as nat, (m + 1) as nat);
    reveal_with_fuel(ten, 17);
    assert(ten(16) == 10_000_000_000_000_000);
    let g = u - x;
    let h = y - u;
    lemma_narrow(u, g, d, a);
    lemma_narrow(u, h, d, a);
    assert((x + u) * d == 2 * (u * d) - g * d) by (nonlinear_arith)
        requires
            g == u - x,
    ;
    assert((u + y) * d == 2 * (u * d) + h * d) by (nonlinear_arith)
        requires
            h == y - u,
    ;
    assert(double::rounds_to(n, d, m as nat));
    double::lemma_nearest(n, d, m);
}

proof fn lemma_narrow(u: nat, g: int, d: nat, a: nat)
    requires
        u > 0,
        d > 0,
        u <= 0x20_0000_0000_0000 * g,
        10_000_000_000_000_000 * a <= u * d,
    ensures
        a < g * d,
{
    assert(u * d <= 0x20_0000_0000_0000 * (g * d)) by (nonlinear_arith)
        requires
            u <= 0x20_0000_0000_0000 * g,
            d > 0,
    ;
    assert(u * d > 0) by (nonlinear_arith)
        requires
            u > 0,
            d > 0,
    ;
}

/// Seventeen digits tell every number apart.
proof fn lemma_seventeen(m: u64)
    requires
        0 < m < INFINITY_BITS,
        is_next_power(m, next_power(m)),
    ensures
        cut_reads_back(m, next_power(m) - 17),
{
    let p = next_power(m);
    let k = p - 17;
    let u = double::units(m as nat);
    let a = up(k);
    let v = u * down(k);
    let c = cut(m, k);
    lemma_positive(k);
    lemma_cut_floor(u, p, 17);
    vstd::arithmetic::div_mod::lemma_fundamental_div_mod(v as int, a as int);
    assert(a * c == c * a) by (nonlinear_arith);
    let rest = v - c * a;
    assert((c + 1) * a == c * a + a) by (nonlinear_arith);
    if 2 * rest <= a {
        lemma_close_enough(m, c, k);
    } else {
        lemma_close_enough(m, c + 1, k);
    }
}

proof fn lemma_fewest(m: u64, n: nat)
    requires
        0 < m < INFINITY_BITS,
        is_next_power(m, next_power(m)),
        1 <= n <= 17,
    ensures
        n <= fewest_digits(m, n) <= 17,
        cut_reads_back(m, next_power(m) - fewest_digits(m, n)),
    decreases 17 - n,
{
    lemma_seventeen(m);
    if n < 17 && !cut_reads_back(m, next_power(m) - n) {
        lemma_fewest(m, n + 1);
    }
}

proof fn lemma_ten_order(a: nat, b: nat)
    requires
        a <= b,
    ensures
        1 <= ten(a) <= ten(b),
    decreases b,
{
    if a < b {
        lemma_ten_order(a, (b - 1) as nat);
    } else if b > 0 {
        lemma_ten_order((a - 1) as nat, (b - 1) as nat);
    }
}

/// Drops the zeros that `c` ends in.
fn strip(c: u64, k: i64) -> (r: (u64, i64))
    requires
        c > 0,
        -0x1_0000_0000 < k < 0x1_0000_0000,
    ensures
        without_zeros(c as nat, k as int) == (r.0 as nat, r.1 as int),
        r.0 > 0,
        k <= r.1 <= k + 20,
{
    let mut c: u64 = c;
    let mut k: i64 = k;
    let ghost c0 = c;
    let ghost k0 = k;
    let mut n: u64 = 0;
    proof {
        reveal_with_fuel(ten, 21);
        assert(ten(20) > 0xffff_ffff_ffff_ffff);
        assert(c * ten(0) == c) by (nonlinear_arith)
            requires
                ten(0) == 1,
        ;
    }
    while c % 10 == 0
        invariant
            c > 0,
            n <= 20,
            k == k0 + n,
            -0x1_0000_0000 < k0 < 0x1_0000_0000,
            c * ten(n as nat) == c0,
            ten(20) > 0xffff_ffff_ffff_ffff,
            without_zeros(c as nat, k as int) == without_zeros(c0 as nat, k0 as int),
        decreases c,
    {
        proof {
            let t = ten(n as nat);
            let d = (c / 10) as nat;
            assert(d * (10 * t) == (10 * d) * t) by (nonlinear_arith);
            if n == 20 {
                assert(c * t >= t) by (nonlinear_arith)
                    requires
                        c >= 1,
                        t >= 1,
                ;
            }
        }
        c = c / 10;
        k = k + 1;
        n = n + 1;
    }
    (c, k)
}

/// Finds the shortest decimal that reads back as a magnitude.
fn find_shortest(m: u64) -> (r: (u64, i64))
    requires
        0 < m < INFINITY_BITS,
    ensures
        shortest(m) == (r.0 as nat, r.1 as int),
        r.0 > 0,
        -500 < r.1 < 500,
{
    let p: i64 = find_power(m);
    let ghost u = double::units(m as nat);
    let mut k: i64 = p;
    let mut c: u64 = 0;
    let mut n: u64 = 0;
    proof {
        lemma_positive(p as int);
        assert(0 * up(p as int) == 0 && 1 * up(p as int) == up(p as int)) by (nonlinear_arith);
        reveal_with_fuel(ten, 18);
        assert(ten(17) == 100_000_000_000_000_000);
    }
    loop
        invariant_except_break
            n < 17,
            fewest_digits(m, 1) == fewest_digits(m, n as nat + 1),
            c * up(k as int) <= u * down(k as int),
            u * down(k as int) < (c + 1) * up(k as int),
        invariant
            0 < m < INFINITY_BITS,
            u == double::units(m as nat),
            p == next_power(m),
            is_next_power(m, p as int),
            -400 < p <= 400,
            n <= 17,
            k == p - n,
            ten(17) == 100_000_000_000_000_000,
        ensures
            1 <= n <= 17,
            n == fewest_digits(m, 1),
            c == nearer_cut(m, k as int),
            k == p - n,
            0 < c < 0x1_0000_0000_0000_0000,
        decreases 17 - n,
    {
        proof {
            lemma_cut_bound(u, c as nat, p as int, n as nat);
            lemma_reach(u, c as nat, k - 1);
            lemma_reach(u, c as nat + 1, k - 1);
            lemma_ten_order(n as nat, 16);
        }
        let ghost start = c;
        c = c * 10;
        k = k - 1;
        n = n + 1;
        let (a, b) = power_parts(k);
        let value = units_times(m, &b);
        while a.times_plus(c + 1, 0).at_most(&value)
            invariant
                0 < m < INFINITY_BITS,
                u == double::units(m as nat),
                is_next_power(m, p as int),
                1 <= n <= 17,
                k == p - n,
                start * 10 <= c,
                ten(17) == 100_000_000_000_000_000,
                a@ == up(k as int),
                value@ == u * down(k as int),
                c * up(k as int) <= u * down(k as int),
                c < 0xffff_ffff_ffff_ffff,
                u * down(k as int) < (10 * (start + 1)) * up(k as int),
            decreases (10 * (start + 1)) - c,
        {
            proof {
                let x = a@;
                let y = (c + 1) as nat;
                assert(x * y + 0 == y * x) by (nonlinear_arith);
                lemma_cut_bound(u, y, p as int, n as nat);
                lemma_ten_order(n as nat, 17);
                let z = (10 * (start + 1)) as nat;
                assert(y < z) by (nonlinear_arith)
                    requires
                        y * x < z * x,
                ;
            }
            c = c + 1;
        }
        proof {
            let x = a@;
            let y = (c + 1) as nat;
            assert(x * y + 0 == y * x) by (nonlinear_arith);
            lemma_cut_bound(u, c as nat, p as int, n as nat);
            lemma_ten_order(n as nat, 17);
            lemma_cut(m, c as nat, k as int);
            lemma_positive(k as int);
            let w = c as nat;
            assert(x * w + 0 == w * x) by (nonlinear_arith);
        }
        let low: bool = is_nearest(&a.times_plus(c, 0), &b, m);
        let high: bool = is_nearest(&a.times_plus(c + 1, 0), &b, m);
        proof {
            assert(n < 17 ==> fewest_digits(m, n as nat) == if low || high {
                n as nat
            } else {
                fewest_digits(m, n as nat + 1)
            });
            if n == 17 {
                lemma_seventeen(m);
            }
        }
        if low || high {
            let twice = value.times_plus(2, 0);
            let middle = a.times_plus(2 * c + 1, 0);
            proof {
                let x = a@;
                let w = (2 * c + 1) as nat;
                assert(x * w + 0 == w * x) by (nonlinear_arith);
                let v = value@;
                assert(v * 2 + 0 == 2 * v);
                lemma_cut_floor(u, p as int, n as nat);
                lemma_ten_order(0, (n - 1) as nat);
                let t = ten((n - 1) as nat);
                if c == 0 {
                    assert(t * x >= 1 * x) by (nonlinear_arith)
                        requires
                            t >= 1,
                    ;
                }
            }
            if high && (!low || middle.at_most(&twice)) {
                c = c + 1;
            }
            break;
        }
    }
    strip(c, k)
}

/// Adds `n` zeros behind a text.
fn push_zeros(out: &mut String, n: u64)
    ensures
        final(out)@ == old(out)@ + zeros(n as nat),
{
    let mut i: u64 = 0;
    let ghost start = out@;
    assert(start + zeros(0) =~= start);
    while i < n
        invariant
            i <= n,
            out@ == start + zeros(i as nat),
        decreases n - i,
    {
        out.push('0');
        assert((start + zeros(i as nat)).push('0') =~= start + zeros(i as nat + 1));
        i = i + 1;
    }
}

/// Writes `c * 10^k` in decimal.
fn write_positional(c: u64, k: i64) -> (r: String)
    requires
        -500 < k < 500,
    ensures
        r@ == positional(c as nat, k as int),
{
    let digits = write_u64(c);
    if k >= 0 {
        let mut out = digits;
        push_zeros(&mut out, k as u64);
        return out;
    }
    let chars = chars_of(digits.as_str());
    let places: usize = (-k) as usize;
    if chars.len() > places {
        let point: usize = chars.len() - places;
        let mut out = slice_text(&chars, 0, point);
        out.push('.');
        let rest = slice_text(&chars, point, chars.len());
        out.append(rest.as_str());
        proof {
            assert(digits@.take(point as int) =~= chars@.subrange(0, point as int));
            assert(digits@.skip(point as int) =~= chars@.subrange(
                point as int,
                chars@.len() as int,
            ));
            assert(out@ =~= positional(c as nat, k as int));
        }
        out
    } else {
        let mut out = String::new();
        out.push('0');
        out.push('.');
        push_zeros(&mut out, (places - chars.len()) as u64);
        out.append(digits.as_str());
        assert(out@ =~= positional(c as nat, k as int));
        out
    }
}

/// Writes a number in decimal, with the fewest digits that read back as it.
pub fn write_double(x: Double) -> (r: String)
    ensures
        r@ == double_text(x),
{
    let negative: bool = x.bits >= SIGN_BIT;
    let m: u64 = if negative {
        x.bits - SIGN_BIT
    } else {
        x.bits
    };
    if m > INFINITY_BITS {
        return "NaN".to_owned();
    }
    let mut out = String::new();
    if negative {
        out.push('-');
    }
    assert(out@ =~= if negative { seq!['-'] } else { Seq::empty() });
    let size = if m == INFINITY_BITS {
        "inf".to_owned()
    } else if m == 0 {
        "0".to_owned()
    } else {
        let (c, k) = find_shortest(m);
        write_positional(c, k)
    };
    out.append(size.as_str());
    assert(out@ =~= double_text(x));
    out
}

/// Zeros behind a number multiply it.
proof fn lemma_trailing(digits: Seq<char>, n: nat)
    ensures
        text::digits_value(digits + zeros(n)) == text::digits_value(digits) * ten(n),
    decreases n,
{
    let v = text::digits_value(digits);
    if n == 0 {
        assert(digits + zeros(0) =~= digits);
        assert(v * 1 == v);
    } else {
        lemma_trailing(digits, (n - 1) as nat);
        let t = ten((n - 1) as nat);
        assert(digits + zeros(n) =~= (digits + zeros((n - 1) as nat)).push('0'));
        lemma_leading(digits + zeros((n - 1) as nat), '0');
        assert(10 * (v * t) == v * (10 * t)) by (nonlinear_arith);
    }
}

/// Zeros before a number leave it as it is.
proof fn lemma_leading_zeros(digits: Seq<char>, n: nat)
    ensures
        text::digits_value(zeros(n) + digits) == text::digits_value(digits),
    decreases digits.len() + n,
{
    if digits.len() > 0 {
        lemma_leading_zeros(digits.drop_last(), n);
        assert(zeros(n) + digits =~= (zeros(n) + digits.drop_last()).push(digits.last()));
        lemma_leading(zeros(n) + digits.drop_last(), digits.last());
    } else if n > 0 {
        lemma_leading_zeros(digits, (n - 1) as nat);
        assert(zeros((n - 1) as nat) + digits =~= zeros((n - 1) as nat));
        assert(zeros(n) + digits =~= zeros((n - 1) as nat).push('0'));
        lemma_leading(zeros((n - 1) as nat), '0');
    } else {
        assert(zeros(n) + digits =~= digits);
    }
}

proof fn lemma_zeros_dropped(c: nat, k: int)
    requires
        c > 0,
    ensures
        nearest_decimal(without_zeros(c, k).0, without_zeros(c, k).1) == nearest_decimal(c, k),
        without_zeros(c, k).0 > 0,
    decreases c,
{
    if c % 10 == 0 {
        let d = c / 10;
        lemma_zeros_dropped(d, k + 1);
        lemma_place(k);
        lemma_positive(k);
        lemma_positive(k + 1);
        let a = up(k);
        let x = up(k + 1);
        let b = down(k);
        let y = down(k + 1);
        if x == 10 * a && y == b {
            assert(d * (10 * a) == (10 * d) * a) by (nonlinear_arith);
        } else {
            double::lemma_nearest_is(d * x, y);
            double::lemma_nearest_scaled(d * x, y, 10, double::nearest(d * x, y));
            assert((d * x) * 10 == (10 * d) * x) by (nonlinear_arith);
        }
    }
}

proof fn lemma_shortest_reads_back(m: u64)
    requires
        0 < m < INFINITY_BITS,
    ensures
        nearest_decimal(shortest(m).0, shortest(m).1) == m,
{
    lemma_power_range(m);
    lemma_power_below(m, 400);
    let p = next_power(m);
    lemma_fewest(m, 1);
    let n = fewest_digits(m, 1);
    let k = p - n;
    let u = double::units(m as nat);
    lemma_cut_floor(u, p, n);
    lemma_ten_order(0, (n - 1) as nat);
    lemma_positive(k);
    let t = ten((n - 1) as nat);
    let a = up(k);
    let v = u * down(k);
    let c = cut(m, k);
    vstd::arithmetic::div_mod::lemma_fundamental_div_mod(v as int, a as int);
    assert(c > 0) by {
        assert(t * a >= a) by (nonlinear_arith)
            requires
                t >= 1,
        ;
        assert(a * 0 == 0);
    }
    lemma_zeros_dropped(nearer_cut(m, k), k);
}

proof fn lemma_positional_reads_back(c: nat, k: int)
    ensures
        numeral_value(positional(c, k)) == Some(nearest_decimal(c, k)),
        positional(c, k).len() > 0,
        text::is_digit(positional(c, k)[0]),
{
    let whole = positional(c, k);
    let digits = text::decimal_digits(c);
    text::lemma_digits_back(c);
    let none = Seq::<char>::empty();
    if k >= 0 {
        lemma_trailing(digits, k as nat);
        lemma_run(whole, whole.len());
        assert(whole.take(whole.len() as int) =~= whole);
        assert(whole.skip(whole.len() as int) =~= none);
        assert(whole.take(whole.len() as int) + whole.subrange(
            whole.len() as int,
            whole.len() as int,
        ) =~= whole);
        let t = ten(k as nat);
        let one = double::one_in_units();
        assert((c * t) * (1 * one) == c * (t * one)) by (nonlinear_arith);
    } else if digits.len() > -k {
        let n = digits.len() + k;
        lemma_run(whole, n as nat);
        let rest = whole.skip(n + 1);
        assert(rest =~= digits.skip(n));
        assert forall|i: int| 0 <= i < rest.len() implies text::is_digit(#[trigger] rest[i]) by {
            assert(rest[i] == digits[n + i]);
        }
        lemma_run(rest, rest.len());
        assert(rest.take(rest.len() as int) =~= rest);
        assert(whole.take(n) + whole.subrange(n + 1, n + 1 + rest.len()) =~= digits);
        assert(whole.skip((n + 1 + rest.len()) as int) =~= none);
    } else {
        let pad = (-k - digits.len()) as nat;
        lemma_run(whole, 1);
        let rest = whole.skip(2);
        assert(rest =~= zeros(pad) + digits);
        lemma_run(rest, rest.len());
        assert(rest.take(rest.len() as int) =~= rest);
        lemma_leading_zeros(digits, pad + 1);
        assert(whole.take(1) + whole.subrange(2, (2 + rest.len()) as int) =~= zeros(pad + 1) + digits);
        assert(whole.skip((2 + rest.len()) as int) =~= none);
    }
}

/// What is written as a number reads back as that number. What is written for
/// a value that is no number reads back as the one such value that the library
/// makes.
pub proof fn law_double_text_reads_back(x: Double)
    ensures
        !x.nan() ==> double_value(double_text(x)) == Some(x),
        x.nan() ==> double_value(double_text(x)) == Some(double::not_a_number()),
{
    reveal_strlit("inf");
    reveal_strlit("infinity");
    reveal_strlit("nan");
    reveal_strlit("NaN");
    reveal_strlit("0");
    if x.nan() {
        assert(text::lower("NaN"@) =~= "nan"@);
        assert("nan"@[0] != "inf"@[0] && "nan"@[0] != "infinity"@[0]);
    } else {
        let m = x.magnitude();
        let size = magnitude_text(m);
        assert((seq!['-'] + size).skip(1) =~= size);
        if m == INFINITY_BITS {
            assert(text::lower("inf"@) =~= "inf"@);
        } else {
            if m == 0 {
                lemma_positional_reads_back(0, 0);
                assert(positional(0, 0) =~= "0"@);
                lemma_positive(0);
                let one = down(0);
                assert(0 * up(0) == 0 && double::units(0) * one == 0) by (nonlinear_arith)
                    requires
                        double::units(0) == 0,
                ;
                double::lemma_nearest_exact(0, one);
            } else {
                lemma_shortest_reads_back(m);
                lemma_positional_reads_back(shortest(m).0, shortest(m).1);
            }
            assert(text::lower(size)[0] == size[0]);
        }
    }
}

proof fn lemma_ten_is_power(k: nat)
    ensures
        ten(k) == pow(10, k),
    decreases k,
{
    reveal(pow);
    if k > 0 {
        lemma_ten_is_power((k - 1) as nat);
    }
}

/// What a numeral of digits, a point and an exponent is read as.
proof fn lemma_numeral(text: Seq<char>, whole: Seq<char>, fraction: Seq<char>, rest: Seq<char>, n: int)
    requires
        text::all_digits(whole),
        text::all_digits(fraction),
        whole.len() + fraction.len() > 0,
        rest.len() > 0 ==> !text::is_digit(rest[0]) && rest[0] != '.',
        exponent_value(rest) == Some(n),
        text == whole + seq!['.'] + fraction + rest || (fraction.len() == 0 && text == whole + rest),
    ensures
        numeral_value(text) == Some(
            nearest_decimal(text::digits_value(whole + fraction), n - fraction.len()),
        ),
{
    let w = whole.len() as int;
    let f = fraction.len() as int;
    assert(text.take(w) =~= whole);
    lemma_run(text, w as nat);
    if text == whole + seq!['.'] + fraction + rest {
        let after = text.skip(w + 1);
        assert(after =~= fraction + rest);
        assert(after.take(f) =~= fraction);
        lemma_run(after, f as nat);
        assert(text.take(w) + text.subrange(w + 1, w + 1 + f) =~= whole + fraction);
        assert(text.skip(w + 1 + f) =~= rest);
    } else {
        assert(text.take(w) + text.subrange(w, w) =~= whole + fraction);
        assert(text.skip(w) =~= rest);
    }
}

/// Digits with a point are the number that they write in base ten, times a power
/// of ten where there is an exponent: what is read is the number nearest to
/// that. A sign in front is the sign of what is read.
pub proof fn law_decimal_is_read(whole: Seq<char>, fraction: Seq<char>, power: Seq<char>, n: int)
    requires
        text::all_digits(whole),
        text::all_digits(fraction),
        whole.len() + fraction.len() > 0,
        text::integer_value(power, true) == Some(n),
    ensures
        ({
            let plain = whole + seq!['.'] + fraction;
            let digits = text::digits_value(whole + fraction);
            let k = n - fraction.len();
            &&& double_value(plain + seq!['e'] + power) matches Some(x)
            &&& !x.nan() && !x.negative()
            &&& k >= 0 ==> double::rounds_to(
                digits * (pow(10, k as nat) as nat * pow2(1074)),
                1,
                x.magnitude() as nat,
            )
            &&& k < 0 ==> double::rounds_to(
                digits * pow2(1074),
                pow(10, (-k) as nat) as nat,
                x.magnitude() as nat,
            )
            &&& double_value(plain + seq!['E'] + power) == Some(x)
            &&& double_value(seq!['+'] + (plain + seq!['e'] + power)) == Some(x)
            &&& double_value(seq!['-'] + (plain + seq!['e'] + power)) matches Some(y)
                && y.negative() && y.magnitude() == x.magnitude()
            &&& n == 0 ==> double_value(plain) == Some(x)
            &&& fraction.len() == 0 ==> double_value(whole + seq!['e'] + power) == Some(x)
            &&& fraction.len() == 0 && n == 0 ==> double_value(whole) == Some(x)
        }),
{
    let none = Seq::<char>::empty();
    let plain = whole + seq!['.'] + fraction;
    let digits = text::digits_value(whole + fraction);
    let k = n - fraction.len();
    let small = seq!['e'] + power;
    let large = seq!['E'] + power;
    assert(small.skip(1) =~= power && large.skip(1) =~= power);
    let text = plain + seq!['e'] + power;
    assert(text =~= plain + small);
    assert(plain + seq!['E'] + power =~= plain + large);
    assert(plain + none =~= plain);
    assert(whole + seq!['e'] + power =~= whole + small);
    assert(whole + none =~= whole);
    lemma_numeral(text, whole, fraction, small, n);
    lemma_numeral(plain + large, whole, fraction, large, n);
    lemma_plain_start(text);
    lemma_plain_start(plain + large);
    lemma_plain_start(plain);
    assert((seq!['+'] + text).skip(1) =~= text);
    assert((seq!['-'] + text).skip(1) =~= text);
    if n == 0 {
        lemma_numeral(plain, whole, fraction, none, 0);
    }
    if fraction.len() == 0 {
        lemma_numeral(whole + small, whole, fraction, small, n);
        lemma_plain_start(whole + small);
        lemma_plain_start(whole);
        if n == 0 {
            lemma_numeral(whole, whole, fraction, none, 0);
        }
    }
    let m = nearest_decimal(digits, k);
    lemma_positive(k);
    double::lemma_nearest_is(digits * up(k), down(k));
    if k >= 0 {
        lemma_ten_is_power(k as nat);
    } else {
        lemma_ten_is_power((-k) as nat);
    }
}

/// What begins with a digit or a point is no word and has no sign.
proof fn lemma_plain_start(text: Seq<char>)
    requires
        text.len() > 0,
        text::is_digit(text[0]) || text[0] == '.',
    ensures
        double_value(text) == match numeral_value(text) {
            Some(m) => Some(double::signed(m, false)),
            None => None,
        },
        unsigned_value(text) == numeral_value(text),
{
    reveal_strlit("inf");
    reveal_strlit("infinity");
    reveal_strlit("nan");
    assert(text::lower(text)[0] == text[0]);
    assert("inf"@[0] == 'i' && "infinity"@[0] == 'i' && "nan"@[0] == 'n');
}

/// Infinity and what is no number are written by their names, in any case; a
/// text that begins with none of these, nor with a sign, a digit or a point,
/// writes no number.
pub proof fn law_words_are_read(text: Seq<char>)
    ensures
        ({
            let name = text::lower(text);
            &&& name == "inf"@ || name == "infinity"@ ==> double_value(text) == Some(
                Double { bits: 0x7ff0_0000_0000_0000 },
            )
            &&& name == "nan"@ ==> (double_value(text) matches Some(x) && x.nan())
            &&& name != "inf"@ && name != "infinity"@ && name != "nan"@ && text.len() > 0
                && text[0] != '+' && text[0] != '-' && text[0] != '.' && !('0' <= text[0] <= '9')
                ==> double_value(text) is None
            &&& text.len() == 0 ==> double_value(text) is None
        }),
{
    reveal_strlit("inf");
    reveal_strlit("infinity");
    reveal_strlit("nan");
    let name = text::lower(text);
    assert(name.len() == text.len());
    if text.len() > 0 {
        assert(name[0] == text::lower_char(text[0]));
        assert("inf"@[0] == 'i' && "infinity"@[0] == 'i' && "nan"@[0] == 'n');
        if !text::is_digit(text[0]) && text[0] != '.' {
            lemma_run(text, 0);
            assert(text.take(0) + text.subrange(0, 0) =~= Seq::empty());
        }
    } else {
        lemma_run(text, 0);
        assert(text.take(0) + text.subrange(0, 0) =~= Seq::empty());
        assert(name.len() == 0 && "inf"@.len() == 3 && "infinity"@.len() == 8 && "nan"@.len() == 3);
    }
}

proof fn lemma_ten_times(c: nat, k: int)
    ensures
        nearest_decimal(10 * c, k) == nearest_decimal(c, k + 1),
{
    lemma_place(k);
    lemma_positive(k);
    lemma_positive(k + 1);
    let a = up(k);
    let x = up(k + 1);
    let b = down(k);
    let y = down(k + 1);
    if x == 10 * a && y == b {
        assert(c * (10 * a) == (10 * c) * a) by (nonlinear_arith);
    } else {
        double::lemma_nearest_is(c * x, y);
        double::lemma_nearest_scaled(c * x, y, 10, double::nearest(c * x, y));
        assert((c * x) * 10 == (10 * c) * x) by (nonlinear_arith);
    }
}

proof fn lemma_ten_raised(c: nat, k: int, d: nat)
    ensures
        nearest_decimal(c * ten(d), k) == nearest_decimal(c, k + d),
    decreases d,
{
    if d == 0 {
        assert(c * 1 == c);
    } else {
        let t = ten((d - 1) as nat);
        lemma_ten_raised(c, k + 1, (d - 1) as nat);
        lemma_ten_times(c * t, k);
        assert(c * (10 * t) == 10 * (c * t)) by (nonlinear_arith);
    }
}

proof fn lemma_decimal_grows(a: nat, b: nat, k: int)
    requires
        a <= b,
    ensures
        nearest_decimal(a, k) <= nearest_decimal(b, k),
{
    lemma_positive(k);
    let x = up(k);
    assert(a * x <= b * x) by (nonlinear_arith)
        requires
            a <= b,
    ;
    double::lemma_nearest_grows(a * x, b * x, down(k));
}

/// A multiple of `10^k` that reads as a number lies beyond neither neighbour of
/// the number that does not.
proof fn lemma_neighbours(m: u64, c: nat, k: int)
    requires
        0 < m < INFINITY_BITS,
        nearest_decimal(c, k) == m,
    ensures
        cut_reads_back(m, k),
{
    let f = cut(m, k);
    let v = double::units(m as nat) * down(k);
    let a = up(k);
    lemma_positive(k);
    vstd::arithmetic::div_mod::lemma_fundamental_div_mod(v as int, a as int);
    assert(a * f == f * a) by (nonlinear_arith);
    assert((f + 1) * a == f * a + a) by (nonlinear_arith);
    double::lemma_nearest_ordered(f * a, down(k), m);
    double::lemma_nearest_ordered((f + 1) * a, down(k), m);
    if c <= f {
        lemma_decimal_grows(c, f, k);
    } else {
        lemma_decimal_grows(f + 1, c, k);
    }
}

/// What has `j` digits and reads as a number has a neighbour with `j` digits that
/// does.
proof fn lemma_few_digits(m: u64, c: nat, k: int, j: nat)
    requires
        0 < m < INFINITY_BITS,
        is_next_power(m, next_power(m)),
        nearest_decimal(c, k) == m,
        c < ten(j),
        j >= 1,
    ensures
        cut_reads_back(m, next_power(m) - j),
{
    let p = next_power(m);
    let t = p - j;
    let u = double::units(m as nat);
    if k >= t {
        lemma_ten_raised(c, t, (k - t) as nat);
        lemma_neighbours(m, c * ten((k - t) as nat), t);
    } else {
        let x = ten((j - 1) as nat);
        let d = (t - k) as nat;
        lemma_cut_floor(u, p, j);
        lemma_positive(t);
        double::lemma_nearest_ordered(x * up(t), down(t), m);
        lemma_ten_raised(x, k, d);
        lemma_ten_order(0, (d - 1) as nat);
        let y = ten((d - 1) as nat);
        assert(10 * x <= x * (10 * y)) by (nonlinear_arith)
            requires
                y >= 1,
        ;
        lemma_decimal_grows(c, x * ten(d), k);
        lemma_neighbours(m, x, t);
    }
}

proof fn lemma_none_fewer(m: u64, n: nat, j: nat)
    requires
        n <= j < fewest_digits(m, n),
    ensures
        !cut_reads_back(m, next_power(m) - j),
    decreases 17 - n,
{
    if n < j {
        lemma_none_fewer(m, n + 1, j);
    }
}

proof fn lemma_zeros_shorten(c: nat, k: int)
    ensures
        without_zeros(c, k).0 <= c,
    decreases c,
{
    if c > 0 && c % 10 == 0 {
        lemma_zeros_shorten(c / 10, k + 1);
    }
}

/// The digits that a number is written with are the fewest that read back: a
/// decimal of `j` digits that reads as the number means that the number is
/// written with at most `j`.
pub proof fn law_fewest_digits_are_written(m: u64, c: nat, k: int, j: nat)
    requires
        0 < m < INFINITY_BITS,
        double::rounds_to(c * up(k), down(k), m as nat),
        c < pow(10, j),
    ensures
        0 < shortest(m).0 < pow(10, j),
        nearest_decimal(shortest(m).0, shortest(m).1) == m,
        shortest(m).0 % 10 != 0,
{
    lemma_positive(k);
    double::lemma_nearest(c * up(k), down(k), m);
    lemma_ten_is_power(j);
    lemma_power_range(m);
    lemma_power_below(m, 400);
    lemma_shortest_reads_back(m);
    let p = next_power(m);
    lemma_fewest(m, 1);
    let n = fewest_digits(m, 1);
    let t = p - n;
    let u = double::units(m as nat);
    let v = u * down(t);
    let a = up(t);
    let f = cut(m, t);
    if j == 0 {
        assert(c == 0);
        lemma_positive(0);
        double::lemma_nearest_exact(0, down(k));
        assert(0 * up(k) == 0 && double::units(0) * down(k) == 0) by (nonlinear_arith)
            requires
                double::units(0) == 0,
        ;
    } else if j < n {
        lemma_few_digits(m, c, k, j);
        lemma_none_fewer(m, 1, j);
    }
    lemma_positive(t);
    vstd::arithmetic::div_mod::lemma_fundamental_div_mod(v as int, a as int);
    assert(a * f == f * a) by (nonlinear_arith);
    lemma_cut_bound(u, f, p, n);
    lemma_ten_order(n, j);
    let g = nearer_cut(m, t);
    lemma_cut_floor(u, p, n);
    lemma_ten_order(0, (n - 1) as nat);
    let low = ten((n - 1) as nat);
    assert(f > 0) by {
        assert(low * a >= a) by (nonlinear_arith)
            requires
                low >= 1,
        ;
        assert(a * 0 == 0);
    }
    lemma_zeros_dropped(g, t);
    lemma_zeros_shorten(g, t);
    lemma_no_zeros(g, t);
    if g == ten(n) {
        assert(g == 10 * low);
        assert(g % 10 == 0 && g / 10 == low);
        lemma_zeros_shorten(low, t + 1);
    }
}

proof fn lemma_no_zeros(c: nat, k: int)
    requires
        c > 0,
    ensures
        without_zeros(c, k).0 % 10 != 0,
    decreases c,
{
    if c % 10 == 0 {
        lemma_no_zeros(c / 10, k + 1);
    }
}

} // verus!
