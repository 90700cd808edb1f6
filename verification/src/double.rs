//! Double-precision numbers, held by their IEEE 754 bit patterns.
//!
//! Volumes and prices are binary64 numbers. [`Double`] carries such a number
//! as the 64 bits of its encoding, and computes on it with integers alone, so
//! that each operation can be stated exactly: the result is the number nearest
//! to the exact one, and of two equally near the one with the even encoding.
//!
//! Every finite number is a whole multiple of the smallest positive one,
//! 2^-1074. [`units`] counts those multiples, and exact results are quotients
//! of such counts.

use crate::natural::{small_power, Natural};
use vstd::arithmetic::div_mod::*;
use vstd::arithmetic::power2::*;
use vstd::prelude::*;

verus! {

/// The bit that marks a negative number.
pub const SIGN_BIT: u64 = 0x8000_0000_0000_0000;

/// The encoding of positive infinity. Larger magnitudes are not numbers.
pub const INFINITY_BITS: u64 = 0x7ff0_0000_0000_0000;

/// How many encodings share one exponent.
pub const BINADE: u64 = 0x0010_0000_0000_0000;

/// A double-precision number.
#[derive(Debug, Clone, Copy)]
pub struct Double {
    /// The IEEE 754 binary64 encoding.
    pub bits: u64,
}

impl View for Double {
    type V = Double;

    open spec fn view(&self) -> Double {
        *self
    }
}

/// How many multiples of 2^-1074 the magnitude `m` stands for. Infinity counts
/// as the number that would follow the largest finite one.
pub open spec fn units(m: nat) -> nat {
    if m < BINADE {
        m
    } else {
        ((BINADE + m % (BINADE as nat)) * pow2((m / (BINADE as nat) - 1) as nat)) as nat
    }
}

/// How many multiples of 2^-1074 make one.
pub open spec fn one_in_units() -> nat {
    pow2(1074)
}

/// Whether `m` is the magnitude nearest to `n / d` multiples of 2^-1074, ties
/// going to the even encoding.
pub open spec fn rounds_to(n: nat, d: nat, m: nat) -> bool {
    &&& m <= INFINITY_BITS
    &&& m > 0 ==> {
        let middle = (units((m - 1) as nat) + units(m)) * d;
        middle < 2 * n || (middle == 2 * n && m % 2 == 0)
    }
    &&& m < INFINITY_BITS ==> {
        let middle = (units(m) + units(m + 1)) * d;
        2 * n < middle || (2 * n == middle && m % 2 == 0)
    }
}

/// The magnitude nearest to `n / d` multiples of 2^-1074.
pub open spec fn nearest(n: nat, d: nat) -> u64 {
    choose|m: u64| rounds_to(n, d, m as nat)
}

proof fn lemma_units_step(m: nat)
    ensures
        units(m) < units(m + 1),
        units(m + 1) - units(m) == if m < BINADE {
            1
        } else {
            pow2((m / (BINADE as nat) - 1) as nat)
        },
{
    let b = BINADE as nat;
    if m + 1 < b {
    } else if m + 1 == b {
        assert((m + 1) % b == 0 && (m + 1) / b == 1) by (nonlinear_arith)
            requires
                m + 1 == b,
                b == 0x0010_0000_0000_0000,
        ;
        lemma2_to64();
        assert(units(m + 1) == b * 1) by {
            assert((b + 0) * pow2(0) == b * 1);
        }
    } else {
        let e = m / b;
        let f = m % b;
        assert(m == e * b + f && 1 <= e && f < b) by (nonlinear_arith)
            requires
                e == m / b,
                f == m % b,
                m >= b,
                b == 0x0010_0000_0000_0000,
        ;
        let p = pow2((e - 1) as nat);
        lemma_pow2_pos((e - 1) as nat);
        assert(units(m) == (b + f) * p);
        if f + 1 < b {
            assert((m + 1) / b == e && (m + 1) % b == f + 1) by (nonlinear_arith)
                requires
                    m == e * b + f,
                    f + 1 < b,
                    b == 0x0010_0000_0000_0000,
            ;
            assert(units(m + 1) == (b + (f + 1)) * p);
            assert((b + (f + 1)) * p == (b + f) * p + p) by (nonlinear_arith);
        } else {
            assert((m + 1) / b == e + 1 && (m + 1) % b == 0) by (nonlinear_arith)
                requires
                    m == e * b + f,
                    f + 1 == b,
                    b == 0x0010_0000_0000_0000,
            ;
            lemma_pow2_unfold(e);
            assert(units(m + 1) == b * (2 * p)) by {
                assert((b + 0) * pow2(e) == b * (2 * p));
            }
            assert(b * (2 * p) == (b + f) * p + p) by (nonlinear_arith)
                requires
                    f + 1 == b,
            ;
        }
    }
}

/// A larger magnitude encodes a larger number.
pub proof fn lemma_units_increase(a: nat, b: nat)
    requires
        a < b,
    ensures
        units(a) < units(b),
    decreases b,
{
    lemma_units_step((b - 1) as nat);
    if a < b - 1 {
        lemma_units_increase(a, (b - 1) as nat);
    }
}

/// At most one magnitude is nearest.
proof fn lemma_rounds_once(n: nat, d: nat, a: nat, b: nat)
    requires
        d > 0,
        a < b,
    ensures
        !(rounds_to(n, d, a) && rounds_to(n, d, b)),
{
    let up = (units(a) + units(a + 1)) * d;
    let down = (units((b - 1) as nat) + units(b)) * d;
    if a + 1 < b {
        lemma_units_increase(a, (b - 1) as nat);
        lemma_units_increase(a + 1, b);
        let x = units(a) + units(a + 1);
        let y = units((b - 1) as nat) + units(b);
        assert(x * d < y * d) by (nonlinear_arith)
            requires
                x < y,
                d > 0,
        ;
    }
}

pub proof fn lemma_nearest(n: nat, d: nat, m: u64)
    requires
        d > 0,
        rounds_to(n, d, m as nat),
    ensures
        nearest(n, d) == m,
{
    let other = nearest(n, d);
    assert(rounds_to(n, d, other as nat));
    if other < m {
        lemma_rounds_once(n, d, other as nat, m as nat);
    }
    if m < other {
        lemma_rounds_once(n, d, m as nat, other as nat);
    }
}

/// A number that is encoded exactly is nearest to itself.
pub proof fn lemma_nearest_exact(m: u64, d: nat)
    requires
        m <= INFINITY_BITS,
        d > 0,
    ensures
        nearest(units(m as nat) * d, d) == m,
{
    let k = m as nat;
    let u = units(k);
    if k > 0 {
        lemma_units_increase((k - 1) as nat, k);
        let v = units((k - 1) as nat);
        assert((v + u) * d < 2 * (u * d)) by (nonlinear_arith)
            requires
                v < u,
                d > 0,
        ;
    }
    lemma_units_increase(k, k + 1);
    let w = units(k + 1);
    assert(2 * (u * d) < (u + w) * d) by (nonlinear_arith)
        requires
            u < w,
            d > 0,
    ;
    lemma_nearest(u * d, d, m);
}

proof fn lemma_scale(x: nat, n: nat, d: nat, k: nat)
    requires
        k > 0,
    ensures
        x * d < 2 * n ==> x * (d * k) < 2 * (n * k),
        x * d == 2 * n ==> x * (d * k) == 2 * (n * k),
        2 * n < x * d ==> 2 * (n * k) < x * (d * k),
{
    assert(x * (d * k) == (x * d) * k) by (nonlinear_arith);
    assert(2 * (n * k) == (2 * n) * k) by (nonlinear_arith);
    let p = x * d;
    let q = 2 * n;
    assert(p < q ==> p * k < q * k) by (nonlinear_arith)
        requires
            k > 0,
    ;
    assert(q < p ==> q * k < p * k) by (nonlinear_arith)
        requires
            k > 0,
    ;
}

/// What reaches beyond the largest number rounds to infinity.
pub proof fn lemma_top(n: nat, d: nat)
    requires
        d > 0,
        n >= units(INFINITY_BITS as nat) * d,
    ensures
        nearest(n, d) == INFINITY_BITS,
{
    let k = INFINITY_BITS as nat;
    lemma_units_increase((k - 1) as nat, k);
    let a = units((k - 1) as nat);
    let b = units(k);
    assert((a + b) * d < 2 * (b * d)) by (nonlinear_arith)
        requires
            a < b,
            d > 0,
    ;
    lemma_nearest(n, d, INFINITY_BITS);
}

/// What lies below half the smallest number rounds to zero.
pub proof fn lemma_bottom(n: nat, d: nat)
    requires
        2 * n < d,
    ensures
        nearest(n, d) == 0,
{
    assert((units(0) + units(1)) * d == d) by (nonlinear_arith)
        requires
            units(0) == 0,
            units(1) == 1,
    ;
    lemma_nearest(n, d, 0);
}

/// Only the quotient matters.
pub proof fn lemma_nearest_scaled(n: nat, d: nat, k: nat, m: u64)
    requires
        d > 0,
        k > 0,
        rounds_to(n, d, m as nat),
    ensures
        nearest(n * k, d * k) == m,
        rounds_to(n * k, d * k, m as nat),
        nearest(n, d) == m,
{
    lemma_nearest(n, d, m);
    assert(d * k > 0) by (nonlinear_arith)
        requires
            d > 0,
            k > 0,
    ;
    let low = (m as nat - 1) as nat;
    let a = units(low) + units(m as nat);
    let b = units(m as nat) + units(m as nat + 1);
    lemma_scale(a, n, d, k);
    lemma_scale(b, n, d, k);
    lemma_nearest(n * k, d * k, m);
}

proof fn lemma_floor(n: nat, d: nat, b: nat) -> (m: nat)
    ensures
        m <= b,
        units(m) * d <= n,
        m < b ==> n < units(m + 1) * d,
    decreases b,
{
    if b == 0 || units(b) * d <= n {
        assert(units(0) * d == 0) by (nonlinear_arith)
            requires
                units(0) == 0,
        ;
        b
    } else {
        let m = lemma_floor(n, d, (b - 1) as nat);
        m
    }
}

/// Some magnitude is nearest.
pub proof fn lemma_nearest_is(n: nat, d: nat)
    requires
        d > 0,
    ensures
        rounds_to(n, d, nearest(n, d) as nat),
{
    let k = lemma_floor(n, d, INFINITY_BITS as nat);
    if k > 0 {
        lemma_units_increase((k - 1) as nat, k);
        let a = units((k - 1) as nat);
        let b = units(k);
        assert((a + b) * d < 2 * (b * d)) by (nonlinear_arith)
            requires
                a < b,
                d > 0,
        ;
    }
    let a = units(k);
    let b = units(k + 1);
    let c = units(k + 2);
    lemma_units_increase(k, k + 1);
    lemma_units_increase(k + 1, k + 2);
    assert((a + b) * d == a * d + b * d) by (nonlinear_arith);
    assert(2 * (b * d) < (b + c) * d) by (nonlinear_arith)
        requires
            b < c,
            d > 0,
    ;
    if k == INFINITY_BITS || 2 * n < (a + b) * d || (2 * n == (a + b) * d && k % 2 == 0) {
        assert(rounds_to(n, d, (k as u64) as nat));
    } else {
        assert(rounds_to(n, d, ((k + 1) as u64) as nat));
    }
}

/// Neighbouring numbers lie less than one part in 2^53 apart, or are the
/// smallest there are.
pub proof fn lemma_gaps(m: nat)
    requires
        m > 0,
    ensures
        units(m) <= 0x20_0000_0000_0000 * (units(m) - units((m - 1) as nat)),
        units(m) <= 0x20_0000_0000_0000 * (units(m + 1) - units(m)),
{
    lemma_units_step((m - 1) as nat);
    lemma_units_step(m);
    lemma_gap_bound(m);
    lemma_gap_bound((m - 1) as nat);
}

proof fn lemma_gap_bound(m: nat)
    ensures
        units(m) + (units(m + 1) - units(m)) <= 0x20_0000_0000_0000 * (units(m + 1) - units(m)),
{
    lemma_units_step(m);
    if m >= BINADE {
        let p = pow2((m / (BINADE as nat) - 1) as nat);
        let g = (BINADE + m % (BINADE as nat)) as nat;
        assert(g * p + p <= 0x20_0000_0000_0000 * p) by (nonlinear_arith)
            requires
                g + 1 <= 0x20_0000_0000_0000,
        ;
        assert(units(m) == g * p);
    }
}

/// `units(m) * d`.
pub fn units_times(m: u64, d: &Natural) -> (r: Natural)
    requires
        m <= INFINITY_BITS,
    ensures
        r@ == units(m as nat) * d@,
{
    if m < BINADE {
        proof {
            assert(d@ * m == m * d@) by (nonlinear_arith);
        }
        d.times_plus(m, 0)
    } else {
        let exponent: u64 = m / BINADE;
        let fraction: u64 = m % BINADE;
        let shift: usize = (exponent - 1) as usize;
        let scaled = d.times_plus(BINADE + fraction, 0);
        proof {
            let s = (BINADE + fraction) as nat;
            let p = pow2(shift as nat);
            let v = d@;
            assert((v * s) * p == (s * p) * v) by (nonlinear_arith);
        }
        scaled.shifted(shift)
    }
}

/// The magnitude nearest to `n / d` multiples of 2^-1074.
pub fn round_quotient(n: &Natural, d: &Natural) -> (r: u64)
    requires
        d@ > 0,
    ensures
        r == nearest(n@, d@),
        rounds_to(n@, d@, r as nat),
        r <= INFINITY_BITS,
{
    let mut low: u64 = 0;
    let mut high: u64 = INFINITY_BITS + 1;
    assert(units(0) * d@ == 0) by (nonlinear_arith)
        requires
            units(0) == 0,
    ;
    while high - low > 1
        invariant
            low < high <= INFINITY_BITS + 1,
            units(low as nat) * d@ <= n@,
            high <= INFINITY_BITS ==> n@ < units(high as nat) * d@,
        decreases high - low,
    {
        let middle: u64 = low + (high - low) / 2;
        if units_times(middle, d).at_most(n) {
            low = middle;
        } else {
            high = middle;
        }
    }
    let ghost k = low as nat;
    let ghost v = d@;
    proof {
        if k > 0 {
            lemma_units_increase((k - 1) as nat, k);
            let a = units((k - 1) as nat);
            let b = units(k);
            assert((a + b) * v < 2 * (b * v)) by (nonlinear_arith)
                requires
                    a < b,
                    v > 0,
            ;
        }
    }
    if low == INFINITY_BITS {
        proof {
            lemma_nearest(n@, d@, low);
        }
        return low;
    }
    let here = units_times(low, d);
    let next = units_times(low + 1, d);
    let middle = here.plus(&next);
    let twice = n.times_plus(2, 0);
    proof {
        let a = units(k);
        let b = units(k + 1);
        lemma_units_increase(k, k + 1);
        lemma_units_increase(k + 1, k + 2);
        assert((a + b) * v == a * v + b * v) by (nonlinear_arith);
        let c = units(k + 2);
        assert(2 * (b * v) < (b + c) * v) by (nonlinear_arith)
            requires
                b < c,
                v > 0,
        ;
    }
    if twice.at_most(&middle) {
        if !middle.at_most(&twice) || low % 2 == 0 {
            proof {
                lemma_nearest(n@, d@, low);
            }
            return low;
        }
    }
    proof {
        lemma_nearest(n@, d@, (low + 1) as u64);
    }
    low + 1
}

/// Whether `m` is the magnitude nearest to `n / d` multiples of 2^-1074.
pub fn is_nearest(n: &Natural, d: &Natural, m: u64) -> (r: bool)
    requires
        d@ > 0,
        m <= INFINITY_BITS,
    ensures
        r == (nearest(n@, d@) == m),
{
    proof {
        lemma_nearest_is(n@, d@);
        if rounds_to(n@, d@, m as nat) {
            lemma_nearest(n@, d@, m);
        }
    }
    let twice = n.times_plus(2, 0);
    let here = units_times(m, d);
    let even: bool = m % 2 == 0;
    let ghost v = d@;
    if m > 0 {
        let middle = units_times(m - 1, d).plus(&here);
        proof {
            let a = units((m - 1) as nat);
            let b = units(m as nat);
            assert((a + b) * v == a * v + b * v) by (nonlinear_arith);
        }
        if !middle.at_most(&twice) || (!even && twice.at_most(&middle)) {
            return false;
        }
    }
    if m < INFINITY_BITS {
        let middle = here.plus(&units_times(m + 1, d));
        proof {
            let a = units(m as nat);
            let b = units((m + 1) as nat);
            assert((a + b) * v == a * v + b * v) by (nonlinear_arith);
        }
        if !twice.at_most(&middle) || (!even && middle.at_most(&twice)) {
            return false;
        }
    }
    true
}

/// The number of magnitude `m` and the given sign.
pub open spec fn signed(m: u64, negative: bool) -> Double {
    Double {
        bits: if negative {
            (m + SIGN_BIT) as u64
        } else {
            m
        },
    }
}

/// What an operation without a result gives.
pub open spec fn not_a_number() -> Double {
    Double { bits: 0x7ff8_0000_0000_0000 }
}

impl Double {
    /// Whether the sign bit is set.
    pub open spec fn negative(self) -> bool {
        self.bits >= SIGN_BIT
    }

    /// The encoding without the sign bit.
    pub open spec fn magnitude(self) -> u64 {
        if self.negative() {
            (self.bits - SIGN_BIT) as u64
        } else {
            self.bits
        }
    }

    /// Whether this is no number.
    pub open spec fn nan(self) -> bool {
        self.magnitude() > INFINITY_BITS
    }

    /// Whether this is an infinity.
    pub open spec fn infinite(self) -> bool {
        self.magnitude() == INFINITY_BITS
    }

    /// Whether this is a number other than an infinity.
    pub open spec fn finite(self) -> bool {
        self.magnitude() < INFINITY_BITS
    }

    /// The number in multiples of 2^-1074.
    pub open spec fn signed_units(self) -> int {
        if self.negative() {
            -(units(self.magnitude() as nat) as int)
        } else {
            units(self.magnitude() as nat) as int
        }
    }

    /// Whether `self <= other`. Nothing is ordered with what is no number.
    pub open spec fn le(self, other: Double) -> bool {
        !self.nan() && !other.nan() && self.signed_units() <= other.signed_units()
    }

    /// Whether `self < other`.
    pub open spec fn lt(self, other: Double) -> bool {
        !self.nan() && !other.nan() && self.signed_units() < other.signed_units()
    }

    /// The product.
    pub open spec fn product(self, other: Double) -> Double {
        let negative = self.negative() != other.negative();
        if self.nan() || other.nan() {
            not_a_number()
        } else if self.infinite() || other.infinite() {
            if self.magnitude() == 0 || other.magnitude() == 0 {
                not_a_number()
            } else {
                signed(INFINITY_BITS, negative)
            }
        } else {
            signed(
                nearest(
                    units(self.magnitude() as nat) * units(other.magnitude() as nat),
                    one_in_units(),
                ),
                negative,
            )
        }
    }

    /// The quotient.
    pub open spec fn quotient(self, other: Double) -> Double {
        let negative = self.negative() != other.negative();
        if self.nan() || other.nan() {
            not_a_number()
        } else if self.infinite() {
            if other.infinite() {
                not_a_number()
            } else {
                signed(INFINITY_BITS, negative)
            }
        } else if other.infinite() {
            signed(0, negative)
        } else if other.magnitude() == 0 {
            if self.magnitude() == 0 {
                not_a_number()
            } else {
                signed(INFINITY_BITS, negative)
            }
        } else {
            signed(
                nearest(
                    units(self.magnitude() as nat) * one_in_units(),
                    units(other.magnitude() as nat),
                ),
                negative,
            )
        }
    }

    /// The sum.
    pub open spec fn sum(self, other: Double) -> Double {
        let exact = self.signed_units() + other.signed_units();
        if self.nan() || other.nan() {
            not_a_number()
        } else if self.infinite() {
            if other.infinite() && self.negative() != other.negative() {
                not_a_number()
            } else {
                self
            }
        } else if other.infinite() {
            other
        } else if exact == 0 {
            signed(0, self.negative() && other.negative())
        } else if exact < 0 {
            signed(nearest((-exact) as nat, 1), true)
        } else {
            signed(nearest(exact as nat, 1), false)
        }
    }

    /// The number with the other sign.
    pub open spec fn opposite(self) -> Double {
        signed(self.magnitude(), !self.negative())
    }

    /// The distance from zero.
    pub open spec fn distance(self) -> Double {
        signed(self.magnitude(), false)
    }

    /// The difference.
    pub open spec fn difference(self, other: Double) -> Double {
        self.sum(other.opposite())
    }

    /// The nearest whole number, halves going away from zero.
    pub open spec fn whole(self) -> Double {
        if self.nan() {
            not_a_number()
        } else if self.infinite() {
            self
        } else {
            let u = units(self.magnitude() as nat);
            let count = (2 * u + one_in_units()) / (2 * one_in_units());
            signed(nearest((count * one_in_units()) as nat, 1), self.negative())
        }
    }

    /// The greater of two numbers; the other one where one is no number.
    pub open spec fn greater(self, other: Double) -> Double {
        if self.nan() || self.lt(other) {
            other
        } else {
            self
        }
    }

    /// The smaller of two numbers; the other one where one is no number.
    pub open spec fn smaller(self, other: Double) -> Double {
        if self.nan() || other.lt(self) {
            other
        } else {
            self
        }
    }

    /// The number itself, or the bound that it lies beyond.
    pub open spec fn within(self, low: Double, high: Double) -> Double {
        if self.lt(low) {
            low
        } else if high.lt(self) {
            high
        } else {
            self
        }
    }

    /// The whole part, as far as a machine integer reaches.
    pub open spec fn integer_part(self) -> int {
        let count = (units(self.magnitude() as nat) / one_in_units()) as int;
        if self.nan() {
            0
        } else if self.negative() {
            if count > -(i64::MIN as int) {
                i64::MIN as int
            } else {
                -count
            }
        } else {
            if count > i64::MAX {
                i64::MAX as int
            } else {
                count
            }
        }
    }
}

/// The number nearest to the integer `n`.
pub open spec fn nearest_integer(n: int) -> Double {
    if n < 0 {
        signed(nearest(((-n) * one_in_units()) as nat, 1), true)
    } else {
        signed(nearest((n * one_in_units()) as nat, 1), false)
    }
}

fn make(m: u64, negative: bool) -> (r: Double)
    requires
        m <= INFINITY_BITS,
    ensures
        r == signed(m, negative),
        r.magnitude() == m,
        r.negative() == negative,
{
    Double {
        bits: if negative {
            m + SIGN_BIT
        } else {
            m
        },
    }
}

fn make_nan() -> (r: Double)
    ensures
        r == not_a_number(),
{
    Double { bits: 0x7ff8_0000_0000_0000 }
}

fn one_natural() -> (r: Natural)
    ensures
        r@ == one_in_units(),
        r@ > 0,
{
    proof {
        lemma_pow2_pos(1074);
        assert(1 * pow2(1074) == pow2(1074)) by (nonlinear_arith);
    }
    Natural::from_u64(1).shifted(1074)
}

impl Double {
    /// Zero.
    pub fn zero() -> (r: Double)
        ensures
            r.bits == 0,
            r.signed_units() == 0,
    {
        Double { bits: 0 }
    }

    fn is_negative(self) -> (r: bool)
        ensures
            r == self.negative(),
    {
        self.bits >= SIGN_BIT
    }

    fn size(self) -> (r: u64)
        ensures
            r == self.magnitude(),
    {
        if self.bits >= SIGN_BIT {
            self.bits - SIGN_BIT
        } else {
            self.bits
        }
    }

    /// Whether `self <= other`.
    pub fn at_most(self, other: Double) -> (r: bool)
        ensures
            r == self.le(other),
    {
        let a: u64 = self.size();
        let b: u64 = other.size();
        proof {
            lemma_order(a, b);
            lemma_order(b, a);
            lemma_order(0, a);
            lemma_order(0, b);
        }
        if a > INFINITY_BITS || b > INFINITY_BITS {
            false
        } else if self.is_negative() {
            if other.is_negative() {
                b <= a
            } else {
                true
            }
        } else {
            if other.is_negative() {
                a == 0 && b == 0
            } else {
                a <= b
            }
        }
    }

    /// Whether `self < other`.
    pub fn below(self, other: Double) -> (r: bool)
        ensures
            r == self.lt(other),
    {
        if self.size() > INFINITY_BITS || other.size() > INFINITY_BITS {
            false
        } else {
            !other.at_most(self)
        }
    }

    /// The product.
    pub fn times(self, other: Double) -> (r: Double)
        ensures
            r == self.product(other),
    {
        let a: u64 = self.size();
        let b: u64 = other.size();
        let negative: bool = self.is_negative() != other.is_negative();
        if a > INFINITY_BITS || b > INFINITY_BITS {
            make_nan()
        } else if a == INFINITY_BITS || b == INFINITY_BITS {
            if a == 0 || b == 0 {
                make_nan()
            } else {
                make(INFINITY_BITS, negative)
            }
        } else {
            let one = Natural::from_u64(1);
            let left = units_times(a, &one);
            let n = units_times(b, &left);
            proof {
                let x = units(a as nat);
                let y = units(b as nat);
                assert(y * (x * 1) == x * y) by (nonlinear_arith);
            }
            let d = one_natural();
            make(round_quotient(&n, &d), negative)
        }
    }

    /// The quotient.
    pub fn over(self, other: Double) -> (r: Double)
        ensures
            r == self.quotient(other),
    {
        let a: u64 = self.size();
        let b: u64 = other.size();
        let negative: bool = self.is_negative() != other.is_negative();
        if a > INFINITY_BITS || b > INFINITY_BITS {
            make_nan()
        } else if a == INFINITY_BITS {
            if b == INFINITY_BITS {
                make_nan()
            } else {
                make(INFINITY_BITS, negative)
            }
        } else if b == INFINITY_BITS {
            make(0, negative)
        } else if b == 0 {
            if a == 0 {
                make_nan()
            } else {
                make(INFINITY_BITS, negative)
            }
        } else {
            let scale = one_natural();
            let n = units_times(a, &scale);
            let one = Natural::from_u64(1);
            let d = units_times(b, &one);
            proof {
                lemma_units_increase(0, b as nat);
                let y = units(b as nat);
                assert(y * 1 == y) by (nonlinear_arith);
            }
            make(round_quotient(&n, &d), negative)
        }
    }

    /// The number with the other sign.
    pub fn negated(self) -> (r: Double)
        ensures
            r == self.opposite(),
    {
        if self.bits >= SIGN_BIT {
            Double { bits: self.bits - SIGN_BIT }
        } else {
            Double { bits: self.bits + SIGN_BIT }
        }
    }

    /// The sum.
    pub fn plus(self, other: Double) -> (r: Double)
        ensures
            r == self.sum(other),
    {
        let a: u64 = self.size();
        let b: u64 = other.size();
        let left: bool = self.is_negative();
        let right: bool = other.is_negative();
        if a > INFINITY_BITS || b > INFINITY_BITS {
            return make_nan();
        }
        if a == INFINITY_BITS {
            return if b == INFINITY_BITS && left != right {
                make_nan()
            } else {
                self
            };
        }
        if b == INFINITY_BITS {
            return other;
        }
        proof {
            lemma_order(a, b);
            lemma_order(b, a);
            let x = units(a as nat);
            let y = units(b as nat);
            assert(x * 1 == x && y * 1 == y) by (nonlinear_arith);
            if a > 0 {
                lemma_units_increase(0, a as nat);
            }
            if b > 0 {
                lemma_units_increase(0, b as nat);
            }
        }
        let one = Natural::from_u64(1);
        let x = units_times(a, &one);
        let y = units_times(b, &one);
        if left == right {
            if a == 0 && b == 0 {
                make(0, left)
            } else {
                let n = x.plus(&y);
                make(round_quotient(&n, &one), left)
            }
        } else if a == b {
            make(0, false)
        } else if b < a {
            let n = x.minus(&y);
            make(round_quotient(&n, &one), left)
        } else {
            let n = y.minus(&x);
            make(round_quotient(&n, &one), right)
        }
    }

    /// The difference.
    pub fn minus(self, other: Double) -> (r: Double)
        ensures
            r == self.difference(other),
    {
        self.plus(other.negated())
    }

    /// The distance from zero.
    pub fn absolute(self) -> (r: Double)
        ensures
            r == self.distance(),
    {
        if self.bits >= SIGN_BIT {
            Double { bits: self.bits - SIGN_BIT }
        } else {
            self
        }
    }

    /// The greater of two numbers; the other one where one is no number.
    pub fn at_least(self, other: Double) -> (r: Double)
        ensures
            r == self.greater(other),
    {
        if self.size() > INFINITY_BITS || self.below(other) {
            other
        } else {
            self
        }
    }

    /// The smaller of two numbers; the other one where one is no number.
    pub fn capped(self, other: Double) -> (r: Double)
        ensures
            r == self.smaller(other),
    {
        if self.size() > INFINITY_BITS || other.below(self) {
            other
        } else {
            self
        }
    }

    /// The number itself, or the bound that it lies beyond.
    pub fn clamped(self, low: Double, high: Double) -> (r: Double)
        ensures
            r == self.within(low, high),
    {
        if self.below(low) {
            low
        } else if high.below(self) {
            high
        } else {
            self
        }
    }

    /// The nearest whole number, halves going away from zero.
    pub fn rounded(self) -> (r: Double)
        ensures
            r == self.whole(),
    {
        let m: u64 = self.size();
        if m > INFINITY_BITS {
            return make_nan();
        }
        if m == INFINITY_BITS {
            return self;
        }
        let exponent: u64 = m / BINADE;
        let significand: u64 = BINADE + m % BINADE;
        let ghost u = units(m as nat);
        let ghost one = one_in_units();
        let count: u64 = if exponent >= 1075 {
            proof {
                lemma_integral(m);
            }
            return make(m, self.is_negative());
        } else if exponent < 1022 {
            proof {
                lemma_tiny(m, 1022);
                lemma_pow2_unfold(1074);
                assert((2 * u + one) / (2 * one) == 0) by (nonlinear_arith)
                    requires
                        2 * u < one,
                ;
            }
            0
        } else {
            let shift: usize = (1075 - exponent) as usize;
            let half: u64 = small_power(shift - 1);
            let full: u64 = small_power(shift);
            proof {
                lemma_pow2_unfold(shift as nat);
                lemma2_to64();
                lemma2_to64_rest();
                if shift < 53 {
                    lemma_pow2_strictly_increases(shift as nat, 53);
                }
                let e = exponent as nat;
                let p = pow2(e);
                let g = significand as nat;
                lemma_pow2_unfold(e);
                lemma_pow2_pos(e);
                lemma_pow2_adds(e, shift as nat);
                lemma_pow2_adds(e, (shift - 1) as nat);
                lemma_pow2_unfold(1075);
                assert(u == g * pow2((e - 1) as nat));
                let q = pow2((e - 1) as nat);
                assert(2 * (g * q) == p * g) by (nonlinear_arith)
                    requires
                        p == 2 * q,
                ;
                let h = half as nat;
                assert(p * g + p * h == p * (g + h)) by (nonlinear_arith);
                lemma_div_multiples_vanish_quotient(p as int, (g + h) as int, full as int);
                assert((2 * u + one) / (2 * one) == (g + h) / (full as nat));
            }
            (significand + half) / full
        };
        let one = Natural::from_u64(1);
        let n = Natural::from_u64(count).shifted(1074);
        make(round_quotient(&n, &one), self.is_negative())
    }

    /// The whole part, as far as a machine integer reaches.
    pub fn truncated(self) -> (r: i64)
        ensures
            r == self.integer_part(),
    {
        let m: u64 = self.size();
        if m > INFINITY_BITS {
            return 0;
        }
        let exponent: u64 = m / BINADE;
        let significand: u64 = BINADE + m % BINADE;
        let ghost u = units(m as nat);
        let ghost one = one_in_units();
        let count: u64 = if exponent < 1023 {
            proof {
                lemma_tiny(m, 1023);
                lemma_pow2_pos(1074);
                assert(u / one == 0) by (nonlinear_arith)
                    requires
                        u < one,
                ;
            }
            0
        } else if exponent < 1075 {
            let shift: usize = (1075 - exponent) as usize;
            let full: u64 = small_power(shift);
            proof {
                let e = (exponent - 1) as nat;
                let p = pow2(e);
                let g = significand as nat;
                lemma_pow2_pos(e);
                lemma_pow2_pos(shift as nat);
                lemma_pow2_adds(e, shift as nat);
                assert(g * p == p * g) by (nonlinear_arith);
                lemma_div_multiples_vanish_quotient(p as int, g as int, full as int);
            }
            significand / full
        } else if exponent < 1086 {
            let shift: usize = (exponent - 1075) as usize;
            let full: u64 = small_power(shift);
            proof {
                lemma_shifted_part(m, shift as nat);
                lemma2_to64();
                if shift < 10 {
                    lemma_pow2_strictly_increases(shift as nat, 10);
                }
                let g = significand as nat;
                assert(g * full < 0x8000_0000_0000_0000) by (nonlinear_arith)
                    requires
                        g < 0x20_0000_0000_0000,
                        full <= 1024,
                ;
            }
            significand * full
        } else {
            proof {
                let k = (exponent - 1075) as nat;
                lemma_shifted_part(m, k);
                lemma2_to64();
                if k > 11 {
                    lemma_pow2_strictly_increases(11, k);
                }
                let g = significand as nat;
                let f = pow2(k);
                assert(g * f >= 0x8000_0000_0000_0000) by (nonlinear_arith)
                    requires
                        g >= 0x10_0000_0000_0000,
                        f >= 2048,
                ;
            }
            return if self.is_negative() {
                i64::MIN
            } else {
                i64::MAX
            };
        };
        if self.is_negative() {
            -(count as i64)
        } else {
            count as i64
        }
    }

    /// The number nearest to `n`.
    pub fn from_u64(n: u64) -> (r: Double)
        ensures
            r == nearest_integer(n as int),
    {
        let one = Natural::from_u64(1);
        let count = Natural::from_u64(n).shifted(1074);
        make(round_quotient(&count, &one), false)
    }

    /// The number nearest to `n`.
    pub fn from_i64(n: i64) -> (r: Double)
        ensures
            r == nearest_integer(n as int),
    {
        if n < 0 {
            let one = Natural::from_u64(1);
            let size: u64 = (-(n as i128)) as u64;
            let count = Natural::from_u64(size).shifted(1074);
            make(round_quotient(&count, &one), true)
        } else {
            Double::from_u64(n as u64)
        }
    }
}

impl PartialEq for Double {
    fn eq(&self, other: &Double) -> (r: bool) {
        self.at_most(*other) && other.at_most(*self)
    }
}

/// Numbers are equal where neither is less: the two zeros are, and what is no
/// number equals nothing.
impl vstd::std_specs::cmp::PartialEqSpecImpl for Double {
    open spec fn obeys_eq_spec() -> bool {
        true
    }

    open spec fn eq_spec(&self, other: &Double) -> bool {
        self.le(*other) && other.le(*self)
    }
}

/// A number with exponent `k` or more binary digits before the point is whole.
pub proof fn lemma_shifted_part(m: u64, k: nat)
    requires
        BINADE <= m,
        m / BINADE == 1075 + k,
    ensures
        units(m as nat) == ((BINADE + m % BINADE) * pow2(k)) * one_in_units(),
        units(m as nat) / one_in_units() == (BINADE + m % BINADE) * pow2(k),
{
    let g = (BINADE + m % BINADE) as nat;
    lemma_pow2_adds(k, 1074);
    lemma_pow2_pos(1074);
    let p = pow2(k);
    let one = one_in_units();
    assert(g * (p * one) == (g * p) * one) by (nonlinear_arith);
    lemma_div_by_multiple((g * p) as int, one as int);
}

pub proof fn lemma_integral(m: u64)
    requires
        m < INFINITY_BITS,
        m / BINADE >= 1075,
    ensures
        ({
            let u = units(m as nat);
            let one = one_in_units();
            nearest((((2 * u + one) / (2 * one)) * one) as nat, 1) == m
        }),
{
    let k = (m / BINADE - 1075) as nat;
    lemma_shifted_part(m, k);
    lemma_pow2_pos(1074);
    let one = one_in_units();
    let c = ((BINADE + m % BINADE) * pow2(k)) as nat;
    assert(units(m as nat) == c * one);
    assert(2 * (c * one) + one == c * (2 * one) + one) by (nonlinear_arith);
    lemma_fundamental_div_mod_converse(
        (2 * (c * one) + one) as int,
        (2 * one) as int,
        c as int,
        one as int,
    );
    lemma_nearest_exact(m, 1);
}

/// A number with a small exponent is small.
proof fn lemma_tiny(m: u64, e: nat)
    requires
        m / BINADE < e,
        53 <= e <= 1023,
    ensures
        units(m as nat) < pow2((e + 51) as nat),
{
    let g = (BINADE + m % BINADE) as nat;
    lemma2_to64();
    lemma2_to64_rest();
    lemma_pow2_adds(53, (e - 2) as nat);
    lemma_pow2_pos((e - 2) as nat);
    if m < BINADE {
        lemma_pow2_strictly_increases(53, (e + 51) as nat);
    } else {
        let x = (m / BINADE - 1) as nat;
        if x < e - 2 {
            lemma_pow2_strictly_increases(x, (e - 2) as nat);
        }
        let p = pow2(x);
        let q = pow2((e - 2) as nat);
        assert(g * p < 0x20_0000_0000_0000 * q) by (nonlinear_arith)
            requires
                g < 0x20_0000_0000_0000,
                p <= q,
                q > 0,
        ;
    }
}

proof fn lemma_order(a: u64, b: u64)
    ensures
        a < b ==> units(a as nat) < units(b as nat),
        units(0) == 0,
{
    if a < b {
        lemma_units_increase(a as nat, b as nat);
    }
}

/// What is at least a magnitude rounds to nothing smaller, what is at most one
/// to nothing larger.
pub proof fn lemma_nearest_ordered(n: nat, d: nat, m: u64)
    requires
        d > 0,
        m <= INFINITY_BITS,
    ensures
        units(m as nat) * d <= n ==> m <= nearest(n, d),
        n <= units(m as nat) * d ==> nearest(n, d) <= m,
        nearest(n, d) <= INFINITY_BITS,
{
    let k = nearest(n, d) as nat;
    lemma_nearest_is(n, d);
    let u = units(m as nat);
    if units(m as nat) * d <= n && k < m {
        let a = units(k);
        let b = units(k + 1);
        lemma_units_increase(k, k + 1);
        if k + 1 < m {
            lemma_units_increase(k + 1, m as nat);
        }
        assert((a + b) * d < 2 * (u * d)) by (nonlinear_arith)
            requires
                a < b,
                b <= u,
                d > 0,
        ;
    }
    if n <= units(m as nat) * d && m < k {
        let a = units((k - 1) as nat);
        let b = units(k);
        lemma_units_increase((k - 1) as nat, k);
        if m < k - 1 {
            lemma_units_increase(m as nat, (k - 1) as nat);
        }
        assert(2 * (u * d) < (a + b) * d) by (nonlinear_arith)
            requires
                a < b,
                u <= a,
                d > 0,
        ;
    }
}

/// A sum with what is not negative is never below the number.
pub proof fn law_adding_never_lowers(x: Double, y: Double)
    requires
        !y.nan(),
        y.signed_units() >= 0,
    ensures
        !x.sum(y).lt(x),
{
    let exact = x.signed_units() + y.signed_units();
    if x.finite() && y.finite() && exact != 0 {
        let m = x.magnitude();
        let u = units(m as nat);
        assert(u * 1 == u);
        if exact < 0 {
            let n = (-exact) as nat;
            lemma_nearest_ordered(n, 1, m);
            let k = nearest(n, 1);
            if k < m {
                lemma_units_increase(k as nat, m as nat);
            }
        } else {
            let n = exact as nat;
            let k = nearest(n, 1);
            lemma_nearest_ordered(n, 1, m);
            if x.signed_units() >= 0 {
                if m < k {
                    lemma_units_increase(m as nat, k as nat);
                }
            }
        }
    } else if x.finite() && y.infinite() {
        if x.magnitude() < INFINITY_BITS {
            lemma_units_increase(x.magnitude() as nat, INFINITY_BITS as nat);
        }
    }
}

/// The difference of a number and itself is nothing, or no number.
pub proof fn law_difference_with_itself(x: Double, bound: Double)
    requires
        bound.signed_units() >= 0,
    ensures
        !bound.lt(x.difference(x).distance()),
{
    if x.finite() {
        assert(x.opposite().magnitude() == x.magnitude());
        assert(x.opposite().signed_units() == -x.signed_units());
    }
}

/// A number that is brought within bounds lies within them.
pub proof fn law_within_bounds(x: Double, low: Double, high: Double)
    requires
        !x.nan(),
        low.le(high),
    ensures
        low.le(x.within(low, high)),
        x.within(low, high).le(high),
{
}

/// The quotient of two numbers that are not negative is not negative.
pub proof fn lemma_quotient_sign(n: int, d: int)
    requires
        n >= 0,
        d >= 0,
    ensures
        nearest_integer(n).quotient(nearest_integer(d)).nan() || nearest_integer(n).quotient(
            nearest_integer(d),
        ).signed_units() >= 0,
{
    let a = nearest_integer(n);
    let b = nearest_integer(d);
    lemma_nearest_ordered((n * one_in_units()) as nat, 1, 0);
    lemma_nearest_ordered((d * one_in_units()) as nat, 1, 0);
    if !a.nan() && !b.nan() && b.magnitude() > 0 {
        lemma_units_increase(0, b.magnitude() as nat);
        lemma_nearest_ordered(
            units(a.magnitude() as nat) * one_in_units(),
            units(b.magnitude() as nat),
            0,
        );
    }
}

/// Neighbouring numbers lie at most one part in 2^52 apart, or one unit.
proof fn lemma_gap_small(m: nat)
    ensures
        0x10_0000_0000_0000 * (units(m + 1) - units(m)) <= units(m) + 0x10_0000_0000_0000,
{
    lemma_units_step(m);
    if m >= BINADE {
        let p = pow2((m / (BINADE as nat) - 1) as nat);
        let g = (BINADE + m % (BINADE as nat)) as nat;
        assert(0x10_0000_0000_0000 * p <= g * p) by (nonlinear_arith)
            requires
                g >= 0x10_0000_0000_0000,
        ;
        assert(units(m) == g * p);
    }
}

/// What is nearest to a quotient lies within one part in 2^53 of it, or within
/// half a unit.
pub proof fn lemma_close(n: nat, d: nat)
    requires
        d > 0,
        nearest(n, d) < INFINITY_BITS,
    ensures
        ({
            let u = units(nearest(n, d) as nat);
            &&& 0x20_0000_0000_0000 * (u * d) <= 0x20_0000_0000_0000 * n + u * d
                + 0x20_0000_0000_0000 * d
            &&& 0x20_0000_0000_0000 * n <= 0x20_0000_0000_0000 * (u * d) + u * d
                + 0x20_0000_0000_0000 * d
        }),
{
    let k = nearest(n, d) as nat;
    let u = units(k);
    lemma_nearest_is(n, d);
    lemma_gap_small(k);
    let v = units(k + 1);
    let g = v - u;
    assert((u + v) * d == 2 * (u * d) + g * d) by (nonlinear_arith)
        requires
            g == v - u,
    ;
    assert(0x10_0000_0000_0000 * (g * d) <= u * d + 0x10_0000_0000_0000 * d) by (nonlinear_arith)
        requires
            0x10_0000_0000_0000 * g <= u + 0x10_0000_0000_0000,
            d > 0,
    ;
    if k > 0 {
        let w = units((k - 1) as nat);
        lemma_gap_small((k - 1) as nat);
        lemma_units_step((k - 1) as nat);
        let h = u - w;
        assert((w + u) * d == 2 * (u * d) - h * d) by (nonlinear_arith)
            requires
                h == u - w,
        ;
        assert(0x10_0000_0000_0000 * (h * d) <= u * d + 0x10_0000_0000_0000 * d)
            by (nonlinear_arith)
            requires
                0x10_0000_0000_0000 * h <= u + 0x10_0000_0000_0000,
                d > 0,
        ;
    } else {
        assert(u * d == 0) by (nonlinear_arith)
            requires
                u == 0,
        ;
    }
}

/// Equal quotients round alike.
pub proof fn lemma_nearest_ratio(n: nat, d: nat, k: nat, e: nat)
    requires
        d > 0,
        e > 0,
        n * e == k * d,
    ensures
        nearest(n, d) == nearest(k, e),
{
    lemma_nearest_is(n, d);
    lemma_nearest_is(k, e);
    lemma_nearest_scaled(n, d, e, nearest(n, d));
    lemma_nearest_scaled(k, e, d, nearest(k, e));
    assert(d * e == e * d) by (nonlinear_arith);
}

/// A quotient that a number is equal to rounds to that number.
pub proof fn lemma_nearest_equal(n: nat, d: nat, m: u64)
    requires
        d > 0,
        m <= INFINITY_BITS,
        units(m as nat) * d == n,
    ensures
        nearest(n, d) == m,
{
    lemma_nearest_exact(m, d);
}

/// Numbers are ordered as what they stand for: of two numbers one is at most
/// the other, one is below the other just where the other is not at most it,
/// and two numbers of which each is at most the other stand for the same. What
/// is no number is in no order with anything.
pub proof fn law_numbers_are_ordered(x: Double, y: Double, z: Double)
    ensures
        !x.nan() && !y.nan() ==> x.le(y) || y.le(x),
        !x.nan() && !y.nan() ==> (x.lt(y) <==> !y.le(x)),
        x.le(y) && y.le(z) ==> x.le(z),
        x.le(y) && y.le(x) ==> x.signed_units() == y.signed_units(),
        x.nan() || y.nan() ==> !x.le(y) && !x.lt(y),
        x.finite() && !x.negative() && !y.nan() && y.negative() ==> y.le(x),
        !x.nan() && !y.nan() && !x.negative() && !y.negative() ==> (x.le(y) <==> x.bits <= y.bits),
{
    if !x.nan() && !y.nan() && !x.negative() && !y.negative() {
        lemma_order(x.bits, y.bits);
        lemma_order(y.bits, x.bits);
    }
}

/// The product of two numbers is the number nearest to the exact product, with
/// the sign of it.
pub proof fn law_product_is_nearest(x: Double, y: Double)
    requires
        x.finite(),
        y.finite(),
    ensures
        rounds_to(
            units(x.magnitude() as nat) * units(y.magnitude() as nat),
            pow2(1074),
            x.product(y).magnitude() as nat,
        ),
        x.product(y).negative() == (x.negative() != y.negative()),
        x.product(y).bits == y.product(x).bits,
{
    lemma_pow2_pos(1074);
    let n = units(x.magnitude() as nat) * units(y.magnitude() as nat);
    assert(n == units(y.magnitude() as nat) * units(x.magnitude() as nat)) by (nonlinear_arith)
        requires
            n == units(x.magnitude() as nat) * units(y.magnitude() as nat),
    ;
    lemma_nearest_is(n, one_in_units());
}

/// Where a number is the exact product of two numbers, it is their product.
pub proof fn law_product_is_exact(x: Double, y: Double, r: Double)
    requires
        x.finite(),
        y.finite(),
        r.finite(),
        r.signed_units() * pow2(1074) == x.signed_units() * y.signed_units(),
        r.negative() == (x.negative() != y.negative()),
    ensures
        x.product(y) == r,
{
    let a = units(x.magnitude() as nat);
    let b = units(y.magnitude() as nat);
    let u = units(r.magnitude() as nat);
    let one = pow2(1074);
    lemma_pow2_pos(1074);
    assert(u * one == a * b) by (nonlinear_arith)
        requires
            r.signed_units() * one == x.signed_units() * y.signed_units(),
            r.signed_units() == u || r.signed_units() == -u,
            x.signed_units() == a || x.signed_units() == -a,
            y.signed_units() == b || y.signed_units() == -b,
            u >= 0,
            a >= 0,
            b >= 0,
            one > 0,
    ;
    lemma_nearest_equal(a * b, one, r.magnitude());
}

/// The quotient of two numbers is the number nearest to the exact quotient,
/// with the sign of it.
pub proof fn law_quotient_is_nearest(x: Double, y: Double)
    requires
        x.finite(),
        y.finite(),
        y.magnitude() > 0,
    ensures
        rounds_to(
            units(x.magnitude() as nat) * pow2(1074),
            units(y.magnitude() as nat),
            x.quotient(y).magnitude() as nat,
        ),
        x.quotient(y).negative() == (x.negative() != y.negative()),
{
    lemma_units_increase(0, y.magnitude() as nat);
    lemma_nearest_is(units(x.magnitude() as nat) * one_in_units(), units(y.magnitude() as nat));
}

/// Where a number is the exact quotient of two numbers, it is their quotient.
pub proof fn law_quotient_is_exact(x: Double, y: Double, r: Double)
    requires
        x.finite(),
        y.finite(),
        r.finite(),
        y.magnitude() > 0,
        r.signed_units() * y.signed_units() == x.signed_units() * pow2(1074),
        r.negative() == (x.negative() != y.negative()),
    ensures
        x.quotient(y) == r,
{
    let a = units(x.magnitude() as nat);
    let b = units(y.magnitude() as nat);
    let u = units(r.magnitude() as nat);
    let one = pow2(1074);
    lemma_pow2_pos(1074);
    lemma_units_increase(0, y.magnitude() as nat);
    assert(u * b == a * one) by (nonlinear_arith)
        requires
            r.signed_units() * y.signed_units() == x.signed_units() * one,
            r.signed_units() == u || r.signed_units() == -u,
            x.signed_units() == a || x.signed_units() == -a,
            y.signed_units() == b || y.signed_units() == -b,
            u >= 0,
            a >= 0,
            b > 0,
            one > 0,
    ;
    lemma_nearest_equal(a * one, b, r.magnitude());
}

/// Numbers in one ratio have one quotient.
pub proof fn law_equal_ratios(a: Double, b: Double, c: Double, d: Double)
    requires
        a.finite() && b.finite() && c.finite() && d.finite(),
        b.magnitude() > 0 && d.magnitude() > 0,
        a.signed_units() * d.signed_units() == c.signed_units() * b.signed_units(),
        (a.negative() != b.negative()) == (c.negative() != d.negative()),
    ensures
        a.quotient(b) == c.quotient(d),
{
    let ua = units(a.magnitude() as nat);
    let ub = units(b.magnitude() as nat);
    let uc = units(c.magnitude() as nat);
    let ud = units(d.magnitude() as nat);
    let one = pow2(1074);
    lemma_units_increase(0, b.magnitude() as nat);
    lemma_units_increase(0, d.magnitude() as nat);
    assert(ua * ud == uc * ub) by (nonlinear_arith)
        requires
            a.signed_units() * d.signed_units() == c.signed_units() * b.signed_units(),
            a.signed_units() == ua || a.signed_units() == -ua,
            b.signed_units() == ub || b.signed_units() == -ub,
            c.signed_units() == uc || c.signed_units() == -uc,
            d.signed_units() == ud || d.signed_units() == -ud,
            ua >= 0,
            ub > 0,
            uc >= 0,
            ud > 0,
    ;
    assert((ua * one) * ud == (uc * one) * ub) by (nonlinear_arith)
        requires
            ua * ud == uc * ub,
    ;
    lemma_nearest_ratio(ua * one, ub, uc * one, ud);
}

/// The sum of two numbers is the number nearest to the exact sum, and so is the
/// difference. Nothing is zero where the exact one is not.
pub proof fn law_sum_is_nearest(x: Double, y: Double)
    requires
        x.finite(),
        y.finite(),
    ensures
        ({
            let exact = x.signed_units() + y.signed_units();
            let size = if exact < 0 {
                -exact
            } else {
                exact
            };
            &&& rounds_to(size as nat, 1, x.sum(y).magnitude() as nat)
            &&& exact < 0 ==> x.sum(y).negative()
            &&& exact > 0 ==> !x.sum(y).negative()
        }),
        ({
            let exact = x.signed_units() - y.signed_units();
            let size = if exact < 0 {
                -exact
            } else {
                exact
            };
            &&& rounds_to(size as nat, 1, x.difference(y).magnitude() as nat)
            &&& exact < 0 ==> x.difference(y).negative()
            &&& exact > 0 ==> !x.difference(y).negative()
        }),
{
    assert(y.opposite().signed_units() == -y.signed_units());
    lemma_sum_nearest(x, y);
    lemma_sum_nearest(x, y.opposite());
}

proof fn lemma_sum_nearest(x: Double, y: Double)
    requires
        x.finite(),
        y.finite(),
    ensures
        ({
            let exact = x.signed_units() + y.signed_units();
            let size = if exact < 0 {
                -exact
            } else {
                exact
            };
            &&& rounds_to(size as nat, 1, x.sum(y).magnitude() as nat)
            &&& exact < 0 ==> x.sum(y).negative()
            &&& exact > 0 ==> !x.sum(y).negative()
        }),
{
    let exact = x.signed_units() + y.signed_units();
    let size = (if exact < 0 {
        -exact
    } else {
        exact
    }) as nat;
    lemma_nearest_is(size, 1);
    if exact == 0 {
        lemma_bottom(0, 1);
    }
}

/// What is no number stays none under arithmetic, and an infinity is not
/// brought back.
pub proof fn law_beyond_numbers(x: Double, y: Double)
    ensures
        x.nan() || y.nan() ==> x.product(y).nan() && x.quotient(y).nan() && x.sum(y).nan()
            && x.difference(y).nan(),
        x.infinite() && y.finite() ==> x.sum(y) == x && x.difference(y) == x,
        x.infinite() && y.finite() && y.magnitude() > 0 ==> x.product(y).infinite() && x.quotient(
            y,
        ).infinite(),
        x.finite() && y.infinite() ==> x.quotient(y).magnitude() == 0,
        x.nan() ==> x.whole().nan(),
        x.infinite() ==> x.whole() == x,
{
}

/// Of two numbers the greater one is one of them and at least as large as
/// each, and the smaller one is one of them and at most as large as each. Beside
/// what is no number it is the other.
pub proof fn law_greater_and_smaller(x: Double, y: Double)
    ensures
        x.greater(y) == x || x.greater(y) == y,
        x.smaller(y) == x || x.smaller(y) == y,
        !x.nan() && !y.nan() ==> x.le(x.greater(y)) && y.le(x.greater(y)),
        !x.nan() && !y.nan() ==> x.smaller(y).le(x) && x.smaller(y).le(y),
        x.nan() ==> x.greater(y) == y && x.smaller(y) == y,
        !x.nan() && y.nan() ==> x.greater(y) == x && x.smaller(y) == x,
{
}

/// A number within bounds stays as it is, and one beyond them becomes the bound
/// that it lies beyond.
pub proof fn law_within_keeps(x: Double, low: Double, high: Double)
    requires
        low.le(high),
    ensures
        low.le(x) && x.le(high) ==> x.within(low, high) == x,
        x.lt(low) ==> x.within(low, high) == low,
        high.lt(x) ==> x.within(low, high) == high,
        x.nan() ==> x.within(low, high) == x,
{
}

/// The distance of a number from zero is its size, without its sign.
pub proof fn law_distance_is_size(x: Double)
    requires
        !x.nan(),
    ensures
        x.distance().signed_units() >= 0,
        x.distance().signed_units() == x.signed_units() || x.distance().signed_units()
            == -x.signed_units(),
        x.opposite().signed_units() == -x.signed_units(),
{
}

/// The whole part of a number is the last whole number that is not beyond it,
/// as far as a machine integer reaches.
pub proof fn law_whole_part(x: Double)
    requires
        !x.nan(),
        !x.negative(),
        x.signed_units() < 0x8000_0000_0000_0000 * pow2(1074),
    ensures
        x.integer_part() * pow2(1074) <= x.signed_units() < (x.integer_part() + 1) * pow2(1074),
{
    let u = x.signed_units();
    let one = pow2(1074) as int;
    lemma_pow2_pos(1074);
    lemma_fundamental_div_mod(u, one);
    lemma_mod_bound(u, one);
    let q = u / one;
    assert(q < 0x8000_0000_0000_0000) by (nonlinear_arith)
        requires
            u == one * q + u % one,
            0 <= u % one,
            u < 0x8000_0000_0000_0000 * one,
            one > 0,
    ;
    assert(q * one <= u < (q + 1) * one) by (nonlinear_arith)
        requires
            u == one * q + u % one,
            0 <= u % one < one,
    ;
}

/// What is greater has no smaller nearest number.
pub proof fn lemma_nearest_grows(a: nat, b: nat, d: nat)
    requires
        d > 0,
        a <= b,
    ensures
        nearest(a, d) <= nearest(b, d),
{
    let m = nearest(a, d) as nat;
    let n = nearest(b, d) as nat;
    lemma_nearest_is(a, d);
    lemma_nearest_is(b, d);
    if n < m {
        let x = units((m - 1) as nat) + units(m);
        let y = units(n) + units(n + 1);
        if n + 1 < m {
            lemma_units_increase(n, (m - 1) as nat);
            lemma_units_increase(n + 1, m);
            assert(y * d < x * d) by (nonlinear_arith)
                requires
                    y < x,
                    d > 0,
            ;
        }
    }
}

} // verus!
