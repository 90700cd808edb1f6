//! Volumes in whole steps: how many steps a volume counts, and which of them
//! lie between bounds.

use crate::double;
use crate::double::{Double, BINADE, INFINITY_BITS};
use vstd::arithmetic::div_mod::*;
use vstd::arithmetic::power2::*;
use vstd::prelude::*;

verus! {

/// A whole number.
pub open spec fn number(n: int) -> Double {
    double::nearest_integer(n)
}

/// The volume of a number of steps, freed of what the arithmetic left below
/// the eighth decimal place.
pub open spec fn volume_of(count: Double, step: Double) -> Double {
    count.product(step).product(number(100_000_000)).whole().quotient(number(100_000_000))
}

/// The volume of `n` steps.
pub open spec fn steps(n: nat, step: Double) -> Double {
    volume_of(number(n as int), step)
}

/// Whether a volume is one of a whole number of steps.
pub open spec fn in_steps(volume: Double, step: Double) -> bool {
    exists|n: nat| #[trigger] steps(n, step) == volume
}

/// Whether steps of a size can be counted: it is a positive number.
pub open spec fn countable(step: Double) -> bool {
    step.finite() && !step.negative() && step.magnitude() > 0
}

/// A larger quotient does not round to less.
proof fn lemma_nearest_grows(n: nat, k: nat, d: nat)
    requires
        d > 0,
        n <= k,
    ensures
        double::nearest(n, d) <= double::nearest(k, d),
        double::nearest(k, d) <= INFINITY_BITS,
{
    let a = double::nearest(n, d) as nat;
    let b = double::nearest(k, d) as nat;
    double::lemma_nearest_is(n, d);
    double::lemma_nearest_is(k, d);
    if b < a {
        let low = double::units(b) + double::units(b + 1);
        let high = double::units((a - 1) as nat) + double::units(a);
        if b + 1 < a {
            double::lemma_units_increase(b, (a - 1) as nat);
            double::lemma_units_increase(b + 1, a);
        }
        assert(low * d <= high * d) by (nonlinear_arith)
            requires
                low <= high,
        ;
        if b + 1 < a {
            assert(low * d < high * d) by (nonlinear_arith)
                requires
                    low < high,
                    d > 0,
            ;
        }
    }
}

/// A magnitude that is not smaller counts no fewer units.
proof fn lemma_units_grow(a: u64, b: u64)
    requires
        a <= b,
    ensures
        double::units(a as nat) <= double::units(b as nat),
{
    if a < b {
        double::lemma_units_increase(a as nat, b as nat);
    }
}

/// The binary place of the leading digit of a number.
proof fn lemma_leading_place(n: nat) -> (j: nat)
    requires
        n > 0,
    ensures
        pow2(j) <= n < pow2(j + 1),
    decreases n,
{
    if n == 1 {
        lemma2_to64();
        0
    } else {
        let j = lemma_leading_place(n / 2);
        lemma_pow2_unfold(j + 1);
        lemma_pow2_unfold(j + 2);
        j + 1
    }
}

/// A whole number below 2^53 is carried exactly.
pub proof fn lemma_small_number(n: nat)
    requires
        n < 0x20_0000_0000_0000,
    ensures
        number(n as int).finite(),
        !number(n as int).negative(),
        double::units(number(n as int).magnitude() as nat) == n * double::one_in_units(),
        n > 0 ==> number(n as int).magnitude() > 0,
{
    let one = double::one_in_units();
    lemma_pow2_pos(1074);
    if n == 0 {
        assert(0 * one == 0);
        double::lemma_nearest_exact(0, 1);
    } else {
        let j = lemma_leading_place(n);
        lemma2_to64();
        lemma2_to64_rest();
        if j > 52 {
            if j > 53 {
                lemma_pow2_strictly_increases(53, j);
            }
        }
        assert(j <= 52);
        let p = pow2((52 - j) as nat);
        let b = BINADE as nat;
        lemma_pow2_adds(j, (52 - j) as nat);
        lemma_pow2_adds(j + 1, (52 - j) as nat);
        let g = n * p;
        assert(b <= g < 2 * b) by (nonlinear_arith)
            requires
                g == n * p,
                pow2(j) <= n < pow2(j + 1),
                pow2(j) * p == b,
                pow2(j + 1) * p == 2 * b,
                p > 0,
        ;
        let m = ((1023 + j) * b + (g - b)) as nat;
        assert(m / b == 1023 + j && m % b == g - b) by {
            lemma_fundamental_div_mod_converse(
                m as int,
                b as int,
                (1023 + j) as int,
                (g - b) as int,
            );
        }
        assert(m < INFINITY_BITS);
        assert(double::units(m as nat) == g * pow2((1022 + j) as nat));
        lemma_pow2_adds((52 - j) as nat, (1022 + j) as nat);
        let t = pow2((1022 + j) as nat);
        assert(n * p * t == n * (p * t)) by (nonlinear_arith);
        double::lemma_nearest_exact(m as u64, 1);
        assert(double::units(m as nat) * 1 == n * one);
        assert(b <= m) by (nonlinear_arith)
            requires
                m == (1023 + j) * b + (g - b),
                g >= b,
        ;
    }
}

/// Whole numbers stay as they are when they are rounded to whole numbers.
proof fn lemma_number_whole(n: nat)
    ensures
        number(n as int).whole() == number(n as int),
        !number(n as int).nan(),
        !number(n as int).negative(),
{
    let one = double::one_in_units();
    let x = number(n as int);
    let m = x.magnitude();
    lemma_pow2_pos(1074);
    double::lemma_nearest_ordered((n * one) as nat, 1, 0);
    if m < INFINITY_BITS {
        if m / BINADE >= 1075 {
            double::lemma_integral(m);
        } else {
            if n >= 0x20_0000_0000_0000 {
                let top = (1076 * BINADE) as u64;
                lemma2_to64();
                lemma2_to64_rest();
                lemma_pow2_adds(53, 1074);
                lemma_pow2_adds(52, 1075);
                assert(double::units(top as nat) == (BINADE + 0) * pow2(1075));
                assert(0x20_0000_0000_0000 * one <= n * one) by (nonlinear_arith)
                    requires
                        n >= 0x20_0000_0000_0000,
                ;
                double::lemma_nearest_ordered((n * one) as nat, 1, top);
            }
            lemma_small_number(n);
            assert(2 * (n * one) + one == n * (2 * one) + one) by (nonlinear_arith);
            lemma_fundamental_div_mod_converse(
                (2 * (n * one) + one) as int,
                (2 * one) as int,
                n as int,
                one as int,
            );
        }
    }
}

/// The size of the places that are kept can be counted.
proof fn lemma_places()
    ensures
        countable(number(100_000_000)),
        double::units(number(100_000_000).magnitude() as nat) == 100_000_000
            * double::one_in_units(),
{
    lemma_small_number(100_000_000);
}

/// Multiples of a size grow with what is multiplied.
pub proof fn lemma_product_grows(x: Double, y: Double, size: Double)
    requires
        x.bits <= y.bits <= INFINITY_BITS,
        countable(size),
    ensures
        x.product(size).bits <= y.product(size).bits <= INFINITY_BITS,
{
    let u = double::units(size.magnitude() as nat);
    let a = double::units(x.magnitude() as nat);
    let b = double::units(y.magnitude() as nat);
    lemma_pow2_pos(1074);
    lemma_units_grow(x.magnitude(), y.magnitude());
    assert(a * u <= b * u) by (nonlinear_arith)
        requires
            a <= b,
    ;
    lemma_nearest_grows(a * u, b * u, double::one_in_units());
}

/// Parts of a size grow with what is divided.
proof fn lemma_quotient_grows(x: Double, y: Double, size: Double)
    requires
        x.bits <= y.bits <= INFINITY_BITS,
        countable(size),
    ensures
        x.quotient(size).bits <= y.quotient(size).bits <= INFINITY_BITS,
{
    let one = double::one_in_units();
    let a = double::units(x.magnitude() as nat);
    let b = double::units(y.magnitude() as nat);
    double::lemma_units_increase(0, size.magnitude() as nat);
    lemma_units_grow(x.magnitude(), y.magnitude());
    assert(a * one <= b * one) by (nonlinear_arith)
        requires
            a <= b,
    ;
    lemma_nearest_grows(a * one, b * one, double::units(size.magnitude() as nat));
}

/// The nearest whole number grows with the number.
proof fn lemma_whole_grows(x: Double, y: Double)
    requires
        x.bits <= y.bits <= INFINITY_BITS,
    ensures
        x.whole().bits <= y.whole().bits <= INFINITY_BITS,
{
    let one = double::one_in_units();
    let a = double::units(x.magnitude() as nat);
    let b = double::units(y.magnitude() as nat);
    lemma_pow2_pos(1074);
    lemma_units_grow(x.magnitude(), y.magnitude());
    lemma_div_is_ordered((2 * a + one) as int, (2 * b + one) as int, (2 * one) as int);
    let c = ((2 * a + one) / (2 * one)) as nat;
    let d = ((2 * b + one) / (2 * one)) as nat;
    assert(c * one <= d * one) by (nonlinear_arith)
        requires
            c <= d,
    ;
    lemma_nearest_grows(c * one, d * one, 1);
}

/// The volume grows with the number of steps.
proof fn lemma_volume_grows(x: Double, y: Double, step: Double)
    requires
        x.bits <= y.bits <= INFINITY_BITS,
        countable(step),
    ensures
        volume_of(x, step).bits <= volume_of(y, step).bits <= INFINITY_BITS,
{
    let places = number(100_000_000);
    lemma_places();
    lemma_product_grows(x, y, step);
    lemma_product_grows(x.product(step), y.product(step), places);
    lemma_whole_grows(x.product(step).product(places), y.product(step).product(places));
    lemma_quotient_grows(
        x.product(step).product(places).whole(),
        y.product(step).product(places).whole(),
        places,
    );
}

/// Numbers that are not negative are ordered as their encodings are.
pub proof fn lemma_order(x: Double, y: Double)
    requires
        x.bits <= INFINITY_BITS,
        y.bits <= INFINITY_BITS,
    ensures
        x.le(y) <==> x.bits <= y.bits,
        x.lt(y) <==> x.bits < y.bits,
{
    if x.bits < y.bits {
        double::lemma_units_increase(x.bits as nat, y.bits as nat);
    }
    if y.bits < x.bits {
        double::lemma_units_increase(y.bits as nat, x.bits as nat);
    }
}

/// What a number that is not negative is rounded to is a whole number.
proof fn lemma_whole_number(x: Double) -> (n: nat)
    requires
        x.bits <= INFINITY_BITS,
    ensures
        x.whole() == number(n as int),
{
    let one = double::one_in_units();
    lemma_pow2_pos(1074);
    if x.finite() {
        ((2 * double::units(x.magnitude() as nat) + one) / (2 * one)) as nat
    } else {
        let n = double::units(INFINITY_BITS as nat);
        assert(n * one >= n * 1) by (nonlinear_arith)
            requires
                one >= 1,
        ;
        double::lemma_top((n * one) as nat, 1);
        n
    }
}

/// The volume of as many steps as the number with an encoding rounds to.
pub open spec fn encoded(bits: u64, step: Double) -> Double {
    volume_of(Double { bits }.whole(), step)
}

proof fn lemma_encoded_grows(a: u64, b: u64, step: Double)
    requires
        a <= b <= INFINITY_BITS,
        countable(step),
    ensures
        encoded(a, step).bits <= encoded(b, step).bits <= INFINITY_BITS,
        in_steps(encoded(a, step), step),
{
    lemma_whole_grows(Double { bits: a }, Double { bits: b });
    lemma_volume_grows(Double { bits: a }.whole(), Double { bits: b }.whole(), step);
    let n = lemma_whole_number(Double { bits: a });
    assert(steps(n, step) == encoded(a, step));
}

/// Every whole number of steps has an encoding.
proof fn lemma_steps_encoded(n: nat, step: Double)
    ensures
        number(n as int).bits <= INFINITY_BITS,
        encoded(number(n as int).bits, step) == steps(n, step),
{
    lemma_number_whole(n);
    let x = number(n as int);
    assert(Double { bits: x.bits } == x);
}

/// A volume in whole steps, freed of what the arithmetic left below the eighth
/// decimal place. What is not positive counts as nothing.
pub open spec fn stepped(value: Double, step: Double) -> Double {
    if value.le(Double { bits: 0 }) {
        Double { bits: 0 }
    } else {
        volume_of(value.quotient(step).whole(), step)
    }
}

/// No steps make no volume.
proof fn lemma_no_steps(step: Double)
    requires
        countable(step),
    ensures
        steps(0, step) == (Double { bits: 0 }),
{
    let one = double::one_in_units();
    let u = double::units(step.magnitude() as nat);
    lemma_pow2_pos(1074);
    lemma_places();
    lemma_small_number(0);
    let x = number(0);
    if x.magnitude() > 0 {
        double::lemma_units_increase(0, x.magnitude() as nat);
    }
    assert(0 * u == 0 && 0 * (100_000_000 * one) == 0 && 0 * one == 0) by (nonlinear_arith);
    double::lemma_bottom(0, one);
    double::lemma_bottom(0, 1);
    assert((2 * 0 + one) / (2 * one) == 0) by (nonlinear_arith)
        requires
            one > 0,
    ;
    double::lemma_bottom(0, (100_000_000 * one) as nat);
}

/// A volume that was brought to whole steps is one of a whole number of steps.
pub proof fn lemma_stepped(value: Double, step: Double)
    requires
        !value.nan(),
        countable(step),
    ensures
        in_steps(stepped(value, step), step),
        stepped(value, step).bits <= INFINITY_BITS,
{
    if value.le(Double { bits: 0 }) {
        lemma_no_steps(step);
        assert(steps(0, step) == stepped(value, step));
    } else {
        if value.negative() && value.magnitude() > 0 {
            double::lemma_units_increase(0, value.magnitude() as nat);
        }
        assert(value.bits <= INFINITY_BITS);
        let q = value.quotient(step);
        lemma_quotient_grows(value, value, step);
        lemma_encoded_grows(q.bits, q.bits, step);
        assert(Double { bits: q.bits } == q);
    }
}

/// Bringing a larger volume to whole steps gives no less.
pub proof fn law_stepping_keeps_order(left: Double, right: Double, step: Double)
    requires
        left.le(right),
        countable(step),
    ensures
        stepped(left, step).le(stepped(right, step)),
{
    let nothing = Double { bits: 0 };
    lemma_stepped(left, step);
    lemma_stepped(right, step);
    lemma_order(stepped(left, step), stepped(right, step));
    if !left.le(nothing) {
        if left.negative() && left.magnitude() > 0 {
            double::lemma_units_increase(0, left.magnitude() as nat);
        }
        if right.negative() && right.magnitude() > 0 {
            double::lemma_units_increase(0, right.magnitude() as nat);
        }
        lemma_order(left, right);
        let a = left.quotient(step);
        let b = right.quotient(step);
        lemma_quotient_grows(left, right, step);
        lemma_encoded_grows(a.bits, b.bits, step);
        assert(Double { bits: a.bits } == a && Double { bits: b.bits } == b);
    }
}

/// Whether a volume lies between bounds.
pub open spec fn fits(volume: Double, low: Double, high: Double) -> bool {
    low.le(volume) && volume.le(high)
}

/// Whether a volume is the largest of a whole number of steps between bounds.
pub open spec fn is_last(volume: Double, low: Double, high: Double, step: Double) -> bool {
    &&& in_steps(volume, step)
    &&& fits(volume, low, high)
    &&& forall|n: nat| (#[trigger] steps(n, step)).le(high) ==> steps(n, step).le(volume)
}

/// Whether a volume is the least of a whole number of steps between bounds.
pub open spec fn is_first(volume: Double, low: Double, high: Double, step: Double) -> bool {
    &&& in_steps(volume, step)
    &&& fits(volume, low, high)
    &&& forall|n: nat| low.le(#[trigger] steps(n, step)) ==> volume.le(steps(n, step))
}

/// The volume of a number of steps.
pub fn volume(count: Double, step: Double) -> (r: Double)
    ensures
        r == volume_of(count, step),
{
    let places = Double::from_u64(100_000_000);
    count.times(step).times(places).rounded().over(places)
}

/// The largest volume of a whole number of steps between bounds.
pub fn last_between(low: Double, high: Double, step: Double) -> (r: Option<Double>)
    requires
        countable(step),
    ensures
        match r {
            Some(found) => is_last(found, low, high, step),
            None => forall|n: nat| !fits(#[trigger] steps(n, step), low, high),
        },
{
    let mut from: u64 = 0;
    let mut to: u64 = INFINITY_BITS + 1;
    if !volume(Double { bits: 0 }.rounded(), step).at_most(high) {
        proof {
            assert forall|n: nat| !(#[trigger] steps(n, step)).le(high) by {
                lemma_steps_encoded(n, step);
                lemma_encoded_grows(0, number(n as int).bits, step);
                lemma_order(encoded(0, step), steps(n, step));
            }
        }
        return None;
    }
    while to - from > 1
        invariant
            from < to <= INFINITY_BITS + 1,
            encoded(from, step).le(high),
            to <= INFINITY_BITS ==> !encoded(to, step).le(high),
        decreases to - from,
    {
        let middle: u64 = from + (to - from) / 2;
        if volume(Double { bits: middle }.rounded(), step).at_most(high) {
            from = middle;
        } else {
            to = middle;
        }
    }
    let found = volume(Double { bits: from }.rounded(), step);
    proof {
        lemma_encoded_grows(from, from, step);
        assert forall|n: nat| (#[trigger] steps(n, step)).le(high) implies steps(n, step).le(
            found,
        ) by {
            let b = number(n as int).bits;
            lemma_steps_encoded(n, step);
            lemma_encoded_grows(b, b, step);
            lemma_order(steps(n, step), found);
            if b <= from {
                lemma_encoded_grows(b, from, step);
            } else {
                lemma_encoded_grows(to, b, step);
                lemma_order(encoded(to, step), steps(n, step));
            }
        }
    }
    if low.at_most(found) {
        Some(found)
    } else {
        None
    }
}

/// The least volume of a whole number of steps between bounds.
pub fn first_between(low: Double, high: Double, step: Double) -> (r: Option<Double>)
    requires
        countable(step),
    ensures
        match r {
            Some(found) => is_first(found, low, high, step),
            None => forall|n: nat| !fits(#[trigger] steps(n, step), low, high),
        },
{
    if !low.at_most(volume(Double { bits: INFINITY_BITS }.rounded(), step)) {
        proof {
            assert forall|n: nat| !low.le(#[trigger] steps(n, step)) by {
                lemma_steps_encoded(n, step);
                lemma_encoded_grows(number(n as int).bits, INFINITY_BITS, step);
                lemma_order(steps(n, step), encoded(INFINITY_BITS, step));
            }
        }
        return None;
    }
    let mut from: u64 = 0;
    let mut to: u64 = INFINITY_BITS;
    while from < to
        invariant
            from <= to <= INFINITY_BITS,
            low.le(encoded(to, step)),
            from > 0 ==> !low.le(encoded((from - 1) as u64, step)),
        decreases to - from,
    {
        let middle: u64 = from + (to - from) / 2;
        if low.at_most(volume(Double { bits: middle }.rounded(), step)) {
            to = middle;
        } else {
            from = middle + 1;
        }
    }
    let found = volume(Double { bits: to }.rounded(), step);
    proof {
        lemma_encoded_grows(to, to, step);
        assert forall|n: nat| low.le(#[trigger] steps(n, step)) implies found.le(
            steps(n, step),
        ) by {
            let b = number(n as int).bits;
            lemma_steps_encoded(n, step);
            lemma_encoded_grows(b, b, step);
            lemma_order(found, steps(n, step));
            if to <= b {
                lemma_encoded_grows(to, b, step);
            } else {
                let under = (from - 1) as u64;
                lemma_encoded_grows(b, under, step);
                lemma_order(steps(n, step), encoded(under, step));
            }
        }
    }
    if found.at_most(high) {
        Some(found)
    } else {
        None
    }
}

/// A volume between bounds, in whole steps where a whole number of them lies
/// there: the nearest one if it does, else the last one before the bound that
/// the nearest one lies beyond. Where none lies there, it is the volume itself
/// within the bounds.
pub open spec fn between(value: Double, low: Double, high: Double, step: Double) -> Double {
    let inside = value.within(low, high);
    let near = stepped(inside, step);
    if inside.nan() || fits(near, low, high) {
        near
    } else if !countable(step) {
        inside
    } else if high.lt(near) && (exists|x: Double| is_last(x, low, high, step)) {
        choose|x: Double| is_last(x, low, high, step)
    } else if near.lt(low) && (exists|x: Double| is_first(x, low, high, step)) {
        choose|x: Double| is_first(x, low, high, step)
    } else {
        inside
    }
}

/// A volume of a whole number of steps is not negative.
proof fn lemma_in_steps(volume: Double, step: Double)
    requires
        in_steps(volume, step),
        countable(step),
    ensures
        volume.bits <= INFINITY_BITS,
{
    let n = choose|n: nat| #[trigger] steps(n, step) == volume;
    lemma_steps_encoded(n, step);
    let b = number(n as int).bits;
    lemma_encoded_grows(b, b, step);
}

/// At most one volume is the largest between bounds, and at most one the least.
proof fn lemma_ends_once(x: Double, y: Double, low: Double, high: Double, step: Double)
    requires
        countable(step),
    ensures
        is_last(x, low, high, step) && is_last(y, low, high, step) ==> x == y,
        is_first(x, low, high, step) && is_first(y, low, high, step) ==> x == y,
{
    if in_steps(x, step) && in_steps(y, step) {
        lemma_in_steps(x, step);
        lemma_in_steps(y, step);
        let n = choose|n: nat| #[trigger] steps(n, step) == x;
        let k = choose|n: nat| #[trigger] steps(n, step) == y;
        assert(steps(n, step) == x && steps(k, step) == y);
        lemma_order(x, y);
        lemma_order(y, x);
    }
}

/// A volume between bounds, in whole steps where a whole number of them lies
/// there.
pub fn bring_between(value: Double, low: Double, high: Double, step: Double) -> (r: Double)
    requires
        low.le(high),
    ensures
        r == between(value, low, high, step),
        !value.nan() ==> fits(r, low, high),
        !value.nan() && countable(step) && (exists|n: nat|
            fits(#[trigger] steps(n, step), low, high)) ==> in_steps(r, step),
{
    let inside = value.clamped(low, high);
    let near = if inside.at_most(Double { bits: 0 }) {
        Double { bits: 0 }
    } else {
        volume(inside.over(step).rounded(), step)
    };
    proof {
        if !value.nan() {
            double::law_within_bounds(value, low, high);
            if countable(step) {
                lemma_stepped(inside, step);
            }
        }
    }
    let number: bool = inside.at_most(inside);
    if !number || (low.at_most(near) && near.at_most(high)) {
        return near;
    }
    if step.bits == 0 || step.bits >= INFINITY_BITS {
        return inside;
    }
    if high.below(near) {
        match last_between(low, high, step) {
            Some(found) => {
                proof {
                    let chosen = choose|x: Double| is_last(x, low, high, step);
                    lemma_ends_once(found, chosen, low, high, step);
                }
                found
            },
            None => {
                assert forall|x: Double| !is_last(x, low, high, step) by {
                    if is_last(x, low, high, step) {
                        let n = choose|n: nat| #[trigger] steps(n, step) == x;
                        assert(fits(steps(n, step), low, high));
                    }
                }
                inside
            },
        }
    } else if near.below(low) {
        match first_between(low, high, step) {
            Some(found) => {
                proof {
                    let chosen = choose|x: Double| is_first(x, low, high, step);
                    lemma_ends_once(found, chosen, low, high, step);
                }
                found
            },
            None => {
                assert forall|x: Double| !is_first(x, low, high, step) by {
                    if is_first(x, low, high, step) {
                        let n = choose|n: nat| #[trigger] steps(n, step) == x;
                        assert(fits(steps(n, step), low, high));
                    }
                }
                inside
            },
        }
    } else {
        inside
    }
}

/// A magnitude up to another one at which a growing count of steps is last
/// within a bound.
proof fn lemma_last_within(high: Double, step: Double, top: u64) -> (b: u64)
    requires
        countable(step),
        top <= INFINITY_BITS,
        encoded(0, step).le(high),
    ensures
        b <= top,
        encoded(b, step).le(high),
        forall|c: u64| b < c <= top ==> !(#[trigger] encoded(c, step)).le(high),
    decreases top,
{
    if encoded(top, step).le(high) {
        top
    } else {
        lemma_last_within(high, step, (top - 1) as u64)
    }
}

proof fn lemma_first_within(low: Double, step: Double, from: u64) -> (b: u64)
    requires
        countable(step),
        from <= INFINITY_BITS,
        low.le(encoded(INFINITY_BITS, step)),
    ensures
        from <= b <= INFINITY_BITS,
        low.le(encoded(b, step)),
        forall|c: u64| from <= c < b ==> !low.le(#[trigger] encoded(c, step)),
    decreases INFINITY_BITS - from,
{
    if low.le(encoded(from, step)) {
        from
    } else {
        lemma_first_within(low, step, (from + 1) as u64)
    }
}

/// Where a whole number of steps lies between bounds, one is the last there and
/// one the first.
proof fn lemma_ends(low: Double, high: Double, step: Double, n: nat)
    requires
        countable(step),
        fits(steps(n, step), low, high),
    ensures
        exists|x: Double| is_last(x, low, high, step),
        exists|x: Double| is_first(x, low, high, step),
{
    let place = number(n as int).bits;
    lemma_steps_encoded(n, step);
    lemma_encoded_grows(0, place, step);
    lemma_encoded_grows(place, INFINITY_BITS, step);
    lemma_order(encoded(0, step), steps(n, step));
    lemma_order(steps(n, step), encoded(INFINITY_BITS, step));
    let a = lemma_last_within(high, step, INFINITY_BITS);
    let b = lemma_first_within(low, step, 0);
    let last = encoded(a, step);
    let first = encoded(b, step);
    lemma_encoded_grows(a, a, step);
    lemma_encoded_grows(b, b, step);
    assert forall|k: nat| (#[trigger] steps(k, step)).le(high) implies steps(k, step).le(
        last,
    ) by {
        let c = number(k as int).bits;
        lemma_steps_encoded(k, step);
        lemma_encoded_grows(c, c, step);
        lemma_order(steps(k, step), last);
        if c <= a {
            lemma_encoded_grows(c, a, step);
        }
    }
    assert forall|k: nat| low.le(#[trigger] steps(k, step)) implies first.le(
        steps(k, step),
    ) by {
        let c = number(k as int).bits;
        lemma_steps_encoded(k, step);
        lemma_encoded_grows(c, c, step);
        lemma_order(first, steps(k, step));
        if b <= c {
            lemma_encoded_grows(b, c, step);
        }
    }
    assert(steps(n, step).le(last) && first.le(steps(n, step)));
    assert(is_last(last, low, high, step));
    assert(is_first(first, low, high, step));
}

/// A volume that is brought between bounds lies between them, and is one of a
/// whole number of steps wherever such a volume lies between them.
pub proof fn law_between_bounds(value: Double, low: Double, high: Double, step: Double)
    requires
        low.le(high),
        !value.nan(),
    ensures
        fits(between(value, low, high, step), low, high),
        countable(step) && (exists|n: nat| fits(#[trigger] steps(n, step), low, high))
            ==> in_steps(between(value, low, high, step), step),
{
    let inside = value.within(low, high);
    let near = stepped(inside, step);
    double::law_within_bounds(value, low, high);
    if countable(step) {
        lemma_stepped(inside, step);
        if exists|n: nat| fits(#[trigger] steps(n, step), low, high) {
            let n = choose|n: nat| fits(#[trigger] steps(n, step), low, high);
            lemma_ends(low, high, step, n);
        }
    }
}

/// A step of `a` hundred-millionths.
pub open spec fn decimal_step(a: nat) -> Double {
    number(a as int).quotient(number(100_000_000))
}

/// One is more units than the errors of rounding come to.
proof fn lemma_one_large()
    ensures
        double::one_in_units() >= 0x1_0000_0000_0000_0000 * 0x1_0000_0000_0000_0000
            * 0x1_0000_0000_0000_0000,
{
    lemma2_to64();
    lemma2_to64_rest();
    lemma_pow2_adds(64, 64);
    lemma_pow2_adds(128, 64);
    lemma_pow2_strictly_increases(192, 1074);
}

/// What is at most a whole number rounds to nothing larger.
proof fn lemma_at_most_number(n: nat, d: nat, c: nat)
    requires
        d > 0,
        c < 0x20_0000_0000_0000,
        n <= (c * double::one_in_units()) * d,
    ensures
        double::nearest(n, d) < INFINITY_BITS,
{
    lemma_small_number(c);
    double::lemma_nearest_ordered(n, d, number(c as int).magnitude());
}

/// A common factor of an inequality goes away.
proof fn lemma_cancel(x: int, y: int, f: int)
    requires
        x * f <= y * f,
        f > 0,
    ensures
        x <= y,
{
    assert(x <= y) by (nonlinear_arith)
        requires
            x * f <= y * f,
            f > 0,
    ;
}

/// The number nearest to a quotient whose parts share a factor.
proof fn lemma_close_scaled(n: nat, d: nat, f: nat)
    requires
        d > 0,
        f > 0,
        double::nearest(n * f, d * f) < INFINITY_BITS,
    ensures
        ({
            let u = double::units(double::nearest(n * f, d * f) as nat);
            &&& 0x20_0000_0000_0000 * (u * d) <= 0x20_0000_0000_0000 * n + u * d
                + 0x20_0000_0000_0000 * d
            &&& 0x20_0000_0000_0000 * n <= 0x20_0000_0000_0000 * (u * d) + u * d
                + 0x20_0000_0000_0000 * d
        }),
{
    let u = double::units(double::nearest(n * f, d * f) as nat);
    assert(d * f > 0) by (nonlinear_arith)
        requires
            d > 0,
            f > 0,
    ;
    double::lemma_close(n * f, d * f);
    assert(u * (d * f) == (u * d) * f) by (nonlinear_arith);
    let e = 0x20_0000_0000_0000int;
    let x = u * d;
    assert((e * x) * f == e * (x * f)) by (nonlinear_arith);
    assert((e * n + x + e * d) * f == e * (n * f) + x * f + e * (d * f)) by (nonlinear_arith);
    assert((e * n) * f == e * (n * f)) by (nonlinear_arith);
    assert((e * x + x + e * d) * f == e * (x * f) + x * f + e * (d * f)) by (nonlinear_arith);
    lemma_cancel(e * x, e * n + x + e * d, f as int);
    lemma_cancel(e * n, e * x + x + e * d, f as int);
}

/// The size of a step of `a` hundred-millionths.
proof fn lemma_step_size(a: nat)
    requires
        1 <= a <= 10_000_000_000_000,
    ensures
        countable(decimal_step(a)),
        ({
            let s = double::units(decimal_step(a).magnitude() as nat);
            let x = 100_000_000 * s;
            let y = a * double::one_in_units();
            let e = 0x20_0000_0000_0000int;
            &&& e * x <= e * y + x + e * 100_000_000
            &&& e * y <= e * x + x + e * 100_000_000
            &&& 100 * x <= 101 * y
            &&& 99 * y <= 100 * x
            &&& s > 0
        }),
{
    let one = double::one_in_units();
    let places = number(100_000_000);
    lemma_one_large();
    lemma_places();
    lemma_small_number(a);
    let n = a * one;
    let d = 100_000_000 * one;
    assert(double::units(number(a as int).magnitude() as nat) * one == n * one);
    assert(n * one <= (a * one) * d) by (nonlinear_arith)
        requires
            n == a * one,
            d >= one,
            one >= 0,
    ;
    assert(d > 0);
    lemma_at_most_number(n * one, d, a);
    lemma_close_scaled(n, 100_000_000, one);
    let m = decimal_step(a).magnitude();
    let s = double::units(m as nat);
    assert(decimal_step(a) == (Double { bits: m }));
    assert(s * 100_000_000 == 100_000_000 * s);
    assert(n >= one) by (nonlinear_arith)
        requires
            n == a * one,
            a >= 1,
    ;
    if m == 0 {
        assert(s == 0);
    }
}

/// What `k` steps of `a` hundred-millionths come to.
proof fn lemma_steps_size(k: nat, a: nat)
    requires
        1 <= a <= 10_000_000_000_000,
    ensures
        ({
            let s = double::units(decimal_step(a).magnitude() as nat);
            let x = 100_000_000 * (k * s);
            let y = (k * a) * double::one_in_units();
            let e = 0x20_0000_0000_0000int;
            &&& e * x <= e * y + x + e * 100_000_000 * k
            &&& e * y <= e * x + x + e * 100_000_000 * k
            &&& 100 * x <= 101 * y
            &&& 99 * y <= 100 * x
        }),
{
    let one = double::one_in_units();
    let e = 0x20_0000_0000_0000int;
    lemma_step_size(a);
    let s = double::units(decimal_step(a).magnitude() as nat);
    let x = 100_000_000 * (k * s);
    let y = (k * a) * one;
    let u = 100_000_000 * s;
    let v = a * one;
    assert(k * u == x) by (nonlinear_arith)
        requires
            u == 100_000_000 * s,
            x == 100_000_000 * (k * s),
    ;
    assert(k * v == y) by (nonlinear_arith)
        requires
            v == a * one,
            y == (k * a) * one,
    ;
    assert(e * x <= e * y + x + e * 100_000_000 * k && e * y <= e * x + x + e * 100_000_000 * k
        && 100 * x <= 101 * y && 99 * y <= 100 * x) by (nonlinear_arith)
        requires
            k * u == x,
            k * v == y,
            e * u <= e * v + u + e * 100_000_000,
            e * v <= e * u + u + e * 100_000_000,
            100 * u <= 101 * v,
            99 * v <= 100 * u,
            k >= 0,
    ;
}

/// The volume of `k` steps of `a` hundred-millionths is the number nearest to
/// `k * a` of them.
proof fn lemma_decimal_steps(k: nat, a: nat)
    requires
        1 <= a <= 10_000_000_000_000,
        k * a <= 20_000_000_000_000,
    ensures
        steps(k, decimal_step(a)) == number((k * a) as int).quotient(number(100_000_000)),
        steps(k, decimal_step(a)).finite(),
        !steps(k, decimal_step(a)).negative(),
        ({
            let x = 100_000_000 * double::units(steps(k, decimal_step(a)).magnitude() as nat);
            let y = (k * a) * double::one_in_units();
            let e = 0x20_0000_0000_0000int;
            &&& e * x <= e * y + x + e * 100_000_000
            &&& e * y <= e * x + x + e * 100_000_000
        }),
{
    let one = double::one_in_units();
    let e = 0x20_0000_0000_0000int;
    let step = decimal_step(a);
    let places = number(100_000_000);
    let s = double::units(step.magnitude() as nat);
    let c = k * a;
    lemma_one_large();
    lemma_places();
    lemma_step_size(a);
    assert(k <= c) by (nonlinear_arith)
        requires
            c == k * a,
            a >= 1,
    ;
    lemma_small_number(k);
    lemma_small_number(c);
    // The steps, and what they would make if no digit were lost.
    let t = k * s;
    let x = 100_000_000 * t;
    let y = c * one;
    lemma_steps_size(k, a);
    assert(y <= 20_000_000_000_000 * one) by (nonlinear_arith)
        requires
            y == c * one,
            c <= 20_000_000_000_000,
            one >= 0,
    ;
    // The product.
    let first = number(k as int).product(step);
    assert((k * one) * s == t * one) by (nonlinear_arith)
        requires
            t == k * s,
    ;
    assert(t * one <= (1_000_000 * one) * one) by (nonlinear_arith)
        requires
            100_000_000 * t <= 21_000_000_000_000 * one,
            one >= 0,
    ;
    lemma_at_most_number(t * one, one, 1_000_000);
    assert(1 * one == one);
    lemma_close_scaled(t, 1, one);
    let p = double::units(first.magnitude() as nat);
    assert(first.finite() && !first.negative());
    assert(p * 1 == p);
    // The product with the places.
    let second = first.product(places);
    assert(p * (100_000_000 * one) == (100_000_000 * p) * one) by (nonlinear_arith);
    let w = 100_000_000 * p;
    assert(w * one <= (100_000_000_000_000 * one) * one) by (nonlinear_arith)
        requires
            w <= 100_000_000_000_000 * one,
            one >= 0,
    ;
    lemma_at_most_number(w * one, one, 100_000_000_000_000);
    lemma_close_scaled(w, 1, one);
    let q = double::units(second.magnitude() as nat);
    assert(second.finite() && !second.negative());
    assert(q * 1 == q);
    // The whole number.
    assert(2 * q + one < 2 * y + 2 * one && 2 * y <= 2 * q + one);
    assert(c * (2 * one) == 2 * y) by (nonlinear_arith)
        requires
            y == c * one,
    ;
    lemma_fundamental_div_mod_converse(
        (2 * q + one) as int,
        (2 * one) as int,
        c as int,
        (2 * q + one - 2 * y) as int,
    );
    assert(second.whole() == number(c as int));
    // The quotient.
    let r = number(c as int).quotient(places);
    assert((y * one) <= (20_000_000_000_000 * one) * (100_000_000 * one)) by (nonlinear_arith)
        requires
            y <= 20_000_000_000_000 * one,
            one >= 0,
    ;
    lemma_at_most_number(y * one, (100_000_000 * one) as nat, 20_000_000_000_000);
    lemma_close_scaled(y, 100_000_000, one);
}

/// How many steps of `a` hundred-millionths a volume counts.
pub open spec fn count_of(value: Double, a: nat) -> nat {
    let one = double::one_in_units();
    let q = double::units(value.quotient(decimal_step(a)).magnitude() as nat);
    ((2 * q + one) / (2 * one)) as nat
}

/// The quotient of a volume and a step of `a` hundred-millionths.
proof fn lemma_count_quotient(value: Double, a: nat)
    requires
        1 <= a <= 10_000_000_000_000,
        0 < value.bits < INFINITY_BITS,
        double::units(value.magnitude() as nat) <= 250_000 * double::one_in_units(),
    ensures
        stepped(value, decimal_step(a)) == steps(count_of(value, a), decimal_step(a)),
        ({
            let one = double::one_in_units();
            let e = 0x20_0000_0000_0000int;
            let s = double::units(decimal_step(a).magnitude() as nat);
            let q = double::units(value.quotient(decimal_step(a)).magnitude() as nat);
            let v = double::units(value.magnitude() as nat);
            let k = count_of(value, a);
            &&& e * (q * s) <= e * (v * one) + q * s + e * s
            &&& e * (v * one) <= e * (q * s) + q * s + e * s
            &&& 2 * (k * one) <= 2 * q + one
            &&& 2 * q < 2 * (k * one) + one
        }),
{
    let one = double::one_in_units();
    let step = decimal_step(a);
    lemma_one_large();
    lemma_step_size(a);
    let s = double::units(step.magnitude() as nat);
    let v = double::units(value.magnitude() as nat);
    double::lemma_units_increase(0, value.magnitude() as nat);
    let n = v * one;
    assert(99 * one <= 10_000_000_000 * s) by {
        assert(a * one >= one) by (nonlinear_arith)
            requires
                a >= 1,
        ;
    }
    assert(n <= (26_000_000_000_000 * one) * s) by (nonlinear_arith)
        requires
            n == v * one,
            v <= 250_000 * one,
            99 * one <= 10_000_000_000 * s,
            one >= 0,
    ;
    lemma_at_most_number(n, s, 26_000_000_000_000);
    double::lemma_close(n, s);
    let quotient = value.quotient(step);
    assert(quotient.finite() && !quotient.negative());
    let q = double::units(quotient.magnitude() as nat);
    let k = count_of(value, a);
    lemma_fundamental_div_mod((2 * q + one) as int, (2 * one) as int);
    assert((2 * one) * k == 2 * (k * one)) by (nonlinear_arith);
    assert(quotient.whole() == number(k as int));
}

/// How far steps of `a` hundred-millionths lie from the volume that they were
/// counted of, and how many they are at most.
proof fn lemma_count_bound(value: Double, a: nat)
    requires
        1 <= a <= 10_000_000_000_000,
        0 < value.bits < INFINITY_BITS,
        double::units(value.magnitude() as nat) <= 100_000 * double::one_in_units(),
    ensures
        count_of(value, a) * a <= 20_000_000_000_000,
        ({
            let one = double::one_in_units();
            let s = double::units(decimal_step(a).magnitude() as nat);
            let v = double::units(value.magnitude() as nat);
            let t = count_of(value, a) * s;
            let e = 0x20_0000_0000_0000int;
            &&& e * (2 * t) <= e * (2 * v) + e * s + 210_000 * one
            &&& e * (2 * v) <= e * (2 * t) + e * s + 210_000 * one
        }),
{
    let one = double::one_in_units();
    let e = 0x20_0000_0000_0000int;
    lemma_one_large();
    lemma_step_size(a);
    lemma_count_quotient(value, a);
    let s = double::units(decimal_step(a).magnitude() as nat);
    let q = double::units(value.quotient(decimal_step(a)).magnitude() as nat);
    let v = double::units(value.magnitude() as nat);
    let k = count_of(value, a);
    let t = k * s;
    let x = q * s;
    let y = v * one;
    assert(2 * (t * one) <= 2 * x + s * one && 2 * x <= 2 * (t * one) + s * one)
        by (nonlinear_arith)
        requires
            t == k * s,
            x == q * s,
            2 * (k * one) <= 2 * q + one,
            2 * q < 2 * (k * one) + one,
            s > 0,
    ;
    let size = a * one;
    assert(size <= 10_000_000_000_000 * one) by (nonlinear_arith)
        requires
            size == a * one,
            a <= 10_000_000_000_000,
            one >= 0,
    ;
    assert(s <= 101_000 * one);
    assert(100 * x <= 101 * (y + s));
    // In multiples of one.
    let f = one as int;
    assert(y <= 100_000 * (f * f)) by (nonlinear_arith)
        requires
            y == v * f,
            v <= 100_000 * f,
            f >= 0,
    ;
    assert(s <= f * f && 4 * e * s <= f * f) by (nonlinear_arith)
        requires
            s <= 101_000 * f,
            f >= 4 * 0x20_0000_0000_0000 * 101_000,
            e == 0x20_0000_0000_0000int,
    ;
    assert(2 * x + 2 * e * s <= 210_000 * (f * f));
    assert(e * (2 * (t * f)) <= e * (2 * y) + e * (s * f) + 210_000 * (f * f));
    assert(e * (2 * y) <= e * (2 * (t * f)) + e * (s * f) + 210_000 * (f * f));
    assert((e * (2 * t)) * f == e * (2 * (t * f))) by (nonlinear_arith);
    assert((e * (2 * v)) * f == e * (2 * y)) by (nonlinear_arith)
        requires
            y == v * f,
    ;
    assert((e * (2 * v) + e * s + 210_000 * f) * f == e * (2 * y) + e * (s * f) + 210_000 * (f
        * f)) by (nonlinear_arith)
        requires
            y == v * f,
    ;
    assert((e * (2 * t) + e * s + 210_000 * f) * f == e * (2 * (t * f)) + e * (s * f) + 210_000
        * (f * f)) by (nonlinear_arith);
    lemma_cancel(e * (2 * t), e * (2 * v) + e * s + 210_000 * f, f);
    lemma_cancel(e * (2 * v), e * (2 * t) + e * s + 210_000 * f, f);
    // How many they are.
    let c = k * a;
    let u = 100_000_000 * s;
    assert(99 * (c * f) <= 100 * (100_000_000 * t)) by (nonlinear_arith)
        requires
            c == k * a,
            t == k * s,
            u == 100_000_000 * s,
            99 * size <= 100 * u,
            size == a * f,
            k >= 0,
    ;
    assert(100_000_000 * t <= 16_000_000_000_000 * f);
    assert(c * f <= 20_000_000_000_000 * f);
    lemma_cancel(c as int, 20_000_000_000_000, f);
}

/// Of a step of so many hundred-millionths, and a volume up to a hundred
/// thousand: bringing the volume to whole steps gives the number nearest to a
/// whole number of steps; it lies within half a step of the volume, and a
/// hundred-millionth; and a second time changes nothing.
pub proof fn law_decimal_steps(value: Double, a: nat)
    requires
        1 <= a <= 10_000_000_000_000,
        (Double { bits: 0 }).le(value),
        value.le(number(100_000)),
    ensures
        ({
            let step = decimal_step(a);
            let r = stepped(value, step);
            let one = double::one_in_units();
            let distance = r.signed_units() - value.signed_units();
            &&& (exists|k: nat|
                k * a <= 20_000_000_000_000 && r == #[trigger] number((k * a) as int).quotient(
                    number(100_000_000),
                ))
            &&& 200_000_000 * distance <= (a + 2) * one
            &&& -(a + 2) * one <= 200_000_000 * distance
            &&& stepped(r, step) == r
        }),
{
    let one = double::one_in_units();
    let e = 0x20_0000_0000_0000int;
    let step = decimal_step(a);
    let r = stepped(value, step);
    lemma_one_large();
    lemma_step_size(a);
    lemma_small_number(100_000);
    let s = double::units(step.magnitude() as nat);
    let size = a * one;
    assert(size >= one) by (nonlinear_arith)
        requires
            size == a * one,
            a >= 1,
    ;
    assert(size <= 10_000_000_000_000 * one) by (nonlinear_arith)
        requires
            size == a * one,
            a <= 10_000_000_000_000,
            one >= 0,
    ;
    assert((a + 2) * one == size + 2 * one) by (nonlinear_arith)
        requires
            size == a * one,
    ;
    assert(-(a + 2) * one == -size - 2 * one) by (nonlinear_arith)
        requires
            size == a * one,
    ;
    if value.magnitude() > 0 {
        double::lemma_units_increase(0, value.magnitude() as nat);
    }
    if value.magnitude() == 0 {
        assert(value.signed_units() == 0);
        assert(0 * a == 0) by (nonlinear_arith);
        lemma_decimal_steps(0, a);
        lemma_no_steps(step);
        assert(r == number((0 * a) as int).quotient(number(100_000_000)));
        assert(r.signed_units() == 0);
    } else {
        assert(!value.negative());
        if value.bits >= INFINITY_BITS {
            lemma_units_grow(number(100_000).magnitude(), value.bits);
            double::lemma_units_increase(
                number(100_000).magnitude() as nat,
                INFINITY_BITS as nat,
            );
            lemma_units_grow(INFINITY_BITS, value.bits);
        }
        let k = count_of(value, a);
        lemma_count_quotient(value, a);
        lemma_count_bound(value, a);
        lemma_decimal_steps(k, a);
        assert(r == number((k * a) as int).quotient(number(100_000_000)));
        let c = k * a;
        let t = k * s;
        let v = double::units(value.magnitude() as nat);
        let w = double::units(r.magnitude() as nat);
        let y = c * one;
        let x = 100_000_000 * t;
        assert(k <= c) by (nonlinear_arith)
            requires
                c == k * a,
                a >= 1,
        ;
        lemma_steps_size(k, a);
        assert(y <= 20_000_000_000_000 * one) by (nonlinear_arith)
            requires
                y == c * one,
                c <= 20_000_000_000_000,
                one >= 0,
        ;
        let z = 100_000_000 * w;
        assert(100 * (z - x) <= one && 100 * (x - z) <= one);
        assert(e * (100_000_000 * s) <= e * size + 11_000_000_000_000 * one);
        assert(100_000_000 * (2 * t - 2 * v) <= size + one);
        assert(100_000_000 * (2 * v - 2 * t) <= size + one);
        assert(r.signed_units() == w && value.signed_units() == v);
        assert(200_000_000 * (w - v) == 2 * (z - x) + 100_000_000 * (2 * t - 2 * v));
        if k == 0 {
            lemma_no_steps(step);
        } else {
            lemma_again(k, a);
        }
    }
}

/// A volume of a whole number of steps counts that number.
proof fn lemma_again(k: nat, a: nat)
    requires
        1 <= a <= 10_000_000_000_000,
        k > 0,
        k * a <= 20_000_000_000_000,
    ensures
        stepped(steps(k, decimal_step(a)), decimal_step(a)) == steps(k, decimal_step(a)),
{
    let one = double::one_in_units();
    let e = 0x20_0000_0000_0000int;
    let step = decimal_step(a);
    let r = steps(k, step);
    lemma_one_large();
    lemma_step_size(a);
    lemma_decimal_steps(k, a);
    let s = double::units(step.magnitude() as nat);
    let w = double::units(r.magnitude() as nat);
    let c = k * a;
    let t = k * s;
    let y = c * one;
    let x = 100_000_000 * t;
    let z = 100_000_000 * w;
    let size = a * one;
    assert(k <= c && c >= 1) by (nonlinear_arith)
        requires
            c == k * a,
            a >= 1,
            k >= 1,
    ;
    lemma_steps_size(k, a);
    assert(size >= one) by (nonlinear_arith)
        requires
            size == a * one,
            a >= 1,
    ;
    assert(one <= y <= 20_000_000_000_000 * one) by (nonlinear_arith)
        requires
            y == c * one,
            1 <= c <= 20_000_000_000_000,
            one >= 0,
    ;
    assert(w > 0);
    assert(w <= 250_000 * one);
    if r.magnitude() == 0 {
        assert(double::units(0) == 0);
    }
    assert(100 * z <= 103 * x);
    lemma_count_quotient(r, a);
    let q = double::units(r.quotient(step).magnitude() as nat);
    let other = count_of(r, a);
    let f = one as int;
    let near = q * s;
    let exact = t * f;
    let given = w * f;
    assert(e * (w - t) * 100 <= 204 * t + 100 * e * (1 + k) && e * (t - w) * 100 <= 204 * t + 100
        * e * (1 + k));
    assert(100 * given <= 103 * exact && 100 * (e * given) <= 100 * (e * exact) + 204 * exact + 100
        * e * ((1 + k) * f) && 100 * (e * exact) <= 100 * (e * given) + 204 * exact + 100 * e * ((1
        + k) * f)) by (nonlinear_arith)
        requires
            given == w * f,
            exact == t * f,
            100 * w <= 103 * t,
            e * (w - t) * 100 <= 204 * t + 100 * e * (1 + k),
            e * (t - w) * 100 <= 204 * t + 100 * e * (1 + k),
            e == 0x20_0000_0000_0000int,
            f > 0,
    ;
    let whole = s * f;
    assert(exact <= 20_000_000_000_000 * whole) by (nonlinear_arith)
        requires
            exact == t * f,
            t == k * s,
            whole == s * f,
            k <= 20_000_000_000_000,
            s > 0,
            f > 0,
    ;
    assert(99 * f <= 10_000_000_000 * s);
    assert(2 * e * (1 + k) <= s);
    assert(2 * e * ((1 + k) * f) <= whole) by (nonlinear_arith)
        requires
            2 * e * (1 + k) <= s,
            whole == s * f,
            f > 0,
    ;
    assert(3 * e * s <= whole) by (nonlinear_arith)
        requires
            3 * e <= f,
            whole == s * f,
            s > 0,
    ;
    assert(2 * near < 2 * exact + whole && 2 * exact < 2 * near + whole);
    let full = k * f;
    assert(exact == full * s) by (nonlinear_arith)
        requires
            exact == t * f,
            t == k * s,
            full == k * f,
    ;
    assert(2 * q < 2 * full + f && 2 * full < 2 * q + f) by (nonlinear_arith)
        requires
            2 * (q * s) < 2 * (full * s) + s * f,
            2 * (full * s) < 2 * (q * s) + s * f,
            s > 0,
    ;
    assert(other * f < (k + 1) * f && k * f < (other + 1) * f) by (nonlinear_arith)
        requires
            2 * (other * f) <= 2 * q + f,
            2 * q < 2 * (other * f) + f,
            2 * q < 2 * full + f,
            2 * full < 2 * q + f,
            full == k * f,
    ;
    assert(other == k) by (nonlinear_arith)
        requires
            other * f < (k + 1) * f,
            k * f < (other + 1) * f,
            f > 0,
    ;
}

/// A quotient of whole numbers that share a factor.
proof fn lemma_shared_factor(n: nat, d: nat, f: nat)
    requires
        d > 0,
        f > 0,
        n * f < 0x20_0000_0000_0000,
        d * f < 0x20_0000_0000_0000,
    ensures
        number((n * f) as int).quotient(number((d * f) as int)) == number(n as int).quotient(
            number(d as int),
        ),
{
    let one = double::one_in_units();
    lemma_one_large();
    assert(n <= n * f && d <= d * f) by (nonlinear_arith)
        requires
            f >= 1,
    ;
    lemma_small_number(n);
    lemma_small_number(d);
    lemma_small_number(n * f);
    lemma_small_number(d * f);
    let x = (n * one) * one;
    let y = d * one;
    assert(y > 0) by (nonlinear_arith)
        requires
            y == d * one,
            d > 0,
            one > 0,
    ;
    assert(((n * f) * one) * one == x * f) by (nonlinear_arith)
        requires
            x == (n * one) * one,
    ;
    assert((d * f) * one == y * f) by (nonlinear_arith)
        requires
            y == d * one,
    ;
    double::lemma_nearest_is(x, y);
    double::lemma_nearest_scaled(x, y, f, double::nearest(x, y));
}

/// Of a step of a hundredth, and a volume up to a hundred thousand: bringing
/// the volume to whole steps gives the number nearest to a whole number of
/// hundredths; it lies within half a hundredth of the volume, and a
/// hundred-millionth; and a second time changes nothing.
pub proof fn law_hundredths(value: Double)
    requires
        (Double { bits: 0 }).le(value),
        value.le(number(100_000)),
    ensures
        ({
            let step = number(1).quotient(number(100));
            let r = stepped(value, step);
            let distance = r.signed_units() - value.signed_units();
            &&& (exists|k: nat| r == #[trigger] number(k as int).quotient(number(100)))
            &&& 200_000_000 * distance <= 1_000_002 * double::one_in_units()
            &&& -1_000_002 * double::one_in_units() <= 200_000_000 * distance
            &&& stepped(r, step) == r
        }),
{
    lemma_shared_factor(1, 100, 1_000_000);
    law_decimal_steps(value, 1_000_000);
    let step = decimal_step(1_000_000);
    let r = stepped(value, step);
    let k = choose|k: nat|
        k * 1_000_000 <= 20_000_000_000_000 && r == #[trigger] number(
            (k * 1_000_000) as int,
        ).quotient(number(100_000_000));
    lemma_shared_factor(k, 100, 1_000_000);
    assert(r == number(k as int).quotient(number(100)));
}

/// What is not positive counts as no steps, whatever their size.
pub proof fn law_nothing_to_step(value: Double, step: Double)
    requires
        (value.le(Double { bits: 0 })),
    ensures
        stepped(value, step) == (Double { bits: 0 }),
{
}

/// A number is rounded to a whole number that lies within half of one of it,
/// halves going away from zero, and keeps its sign.
pub proof fn law_rounded_is_near(x: Double)
    requires
        x.finite(),
    ensures
        !x.whole().nan(),
        x.whole().negative() == x.negative(),
        exists|n: nat|
            {
                let u = double::units(x.magnitude() as nat);
                &&& double::units(x.whole().magnitude() as nat) == #[trigger] (n * pow2(1074))
                &&& 2 * (n * pow2(1074)) <= 2 * u + pow2(1074)
                &&& 2 * u < 2 * (n * pow2(1074)) + pow2(1074)
            },
{
    let one = double::one_in_units();
    let m = x.magnitude();
    let u = double::units(m as nat);
    let n = ((2 * u + one) / (2 * one)) as nat;
    lemma_pow2_pos(1074);
    lemma_fundamental_div_mod((2 * u + one) as int, (2 * one) as int);
    lemma_mod_bound((2 * u + one) as int, (2 * one) as int);
    assert(2 * (n * one) <= 2 * u + one && 2 * u < 2 * (n * one) + one) by (nonlinear_arith)
        requires
            2 * u + one == (2 * one) * n + (2 * u + one) % ((2 * one) as nat),
            0 <= (2 * u + one) % ((2 * one) as nat) < 2 * one,
    ;
    if m / BINADE >= 1075 {
        let k = (m / BINADE - 1075) as nat;
        double::lemma_shifted_part(m, k);
        double::lemma_integral(m);
        let c = ((BINADE + m % BINADE) * pow2(k)) as nat;
        assert(2 * (c * one) + one == c * (2 * one) + one) by (nonlinear_arith);
        lemma_fundamental_div_mod_converse(
            (2 * (c * one) + one) as int,
            (2 * one) as int,
            c as int,
            one as int,
        );
        assert(n == c);
    } else {
        let top = (1075 * BINADE) as u64;
        lemma2_to64();
        lemma2_to64_rest();
        double::lemma_units_increase(m as nat, top as nat);
        assert(double::units(top as nat) == (BINADE + 0) * pow2(1074));
        assert(n < 0x20_0000_0000_0000) by (nonlinear_arith)
            requires
                2 * (n * one) <= 2 * u + one,
                u < 0x10_0000_0000_0000 * one,
                one > 0,
        ;
        lemma_small_number(n);
        assert(number(n as int) == double::signed(double::nearest(n * one, 1), false));
    }
    double::lemma_nearest_ordered((n * one) as nat, 1, 0);
    assert(double::units(x.whole().magnitude() as nat) == n * pow2(1074));
}

/// A volume between bounds is brought to whole steps as it would be without
/// bounds, if what comes of it lies between them. One beyond a bound counts as
/// the bound.
pub proof fn law_between_keeps(value: Double, low: Double, high: Double, step: Double)
    requires
        low.le(high),
        !value.nan(),
    ensures
        low.le(value) && value.le(high) && low.le(stepped(value, step)) && stepped(value, step).le(
            high,
        ) ==> between(value, low, high, step) == stepped(value, step),
        value.lt(low) ==> between(value, low, high, step) == between(low, low, high, step),
        high.lt(value) ==> between(value, low, high, step) == between(high, low, high, step),
{
}

/// A volume between bounds whose whole steps lie beyond one of them is brought
/// to the last step before that bound: no whole number of steps lies between it
/// and the bound. Where no whole number of steps lies between the bounds, it
/// stays as it is.
pub proof fn law_between_reaches(value: Double, low: Double, high: Double, step: Double, n: nat)
    requires
        low.le(value),
        value.le(high),
        countable(step),
    ensures
        ({
            let r = between(value, low, high, step);
            let fitting = exists|k: nat|
                low.le(#[trigger] steps(k, step)) && steps(k, step).le(high);
            &&& fitting && high.lt(stepped(value, step)) && steps(n, step).le(high)
                ==> steps(n, step).le(r)
            &&& fitting && stepped(value, step).lt(low) && low.le(steps(n, step)) ==> r.le(
                steps(n, step),
            )
            &&& !fitting ==> r == value
        }),
{
    let r = between(value, low, high, step);
    let near = stepped(value, step);
    lemma_stepped(value, step);
    if exists|k: nat| low.le(#[trigger] steps(k, step)) && steps(k, step).le(high) {
        let k = choose|k: nat| low.le(#[trigger] steps(k, step)) && steps(k, step).le(high);
        assert(fits(steps(k, step), low, high));
        lemma_ends(low, high, step, k);
    } else {
        let k = choose|k: nat| #[trigger] steps(k, step) == near;
        assert(steps(k, step) == near);
        assert forall|x: Double| !is_last(x, low, high, step) && !is_first(
            x,
            low,
            high,
            step,
        ) by {
            if in_steps(x, step) {
                let j = choose|j: nat| #[trigger] steps(j, step) == x;
                assert(!(low.le(steps(j, step)) && steps(j, step).le(high)));
            }
        }
    }
}

} // verus!
