//! Natural numbers of any size.
//!
//! [`Natural`] holds a number as base 2^64 limbs, least significant first. It
//! is the scratch space in which [`crate::double`] compares exact quotients,
//! so it offers only what that needs: multiplication by a machine word,
//! shifts, sums, differences and comparison.

use vstd::arithmetic::power2::*;
use vstd::prelude::*;

verus! {

/// The number of values that one limb can take.
pub const LIMB_BASE: u128 = 0x1_0000_0000_0000_0000;

/// What the limb at index `n` counts.
pub open spec fn limb_weight(n: nat) -> nat {
    pow2(64 * n)
}

/// The number that a sequence of limbs stands for.
pub open spec fn limbs_value(limbs: Seq<u64>) -> nat
    decreases limbs.len(),
{
    if limbs.len() == 0 {
        0
    } else {
        limbs_value(limbs.drop_last()) + limbs.last() as nat * limb_weight(
            (limbs.len() - 1) as nat,
        )
    }
}

proof fn lemma_weight_step(n: nat)
    ensures
        limb_weight(0) == 1,
        limb_weight(n) > 0,
        limb_weight(n + 1) == LIMB_BASE * limb_weight(n),
{
    lemma2_to64();
    lemma2_to64_rest();
    lemma_pow2_pos(64 * n);
    lemma_pow2_adds(64, 64 * n);
    assert(64 * (n + 1) == 64 + 64 * n);
}

proof fn lemma_value_push(limbs: Seq<u64>, limb: u64)
    ensures
        limbs_value(limbs.push(limb)) == limbs_value(limbs) + limb as nat * limb_weight(
            limbs.len(),
        ),
{
    assert(limbs.push(limb).drop_last() =~= limbs);
}

proof fn lemma_value_take(limbs: Seq<u64>, i: int)
    requires
        0 <= i < limbs.len(),
    ensures
        limbs_value(limbs.take(i + 1)) == limbs_value(limbs.take(i)) + limbs[i] as nat
            * limb_weight(i as nat),
{
    assert(limbs.take(i + 1) =~= limbs.take(i).push(limbs[i]));
    lemma_value_push(limbs.take(i), limbs[i]);
}

proof fn lemma_value_bound(limbs: Seq<u64>)
    ensures
        limbs_value(limbs) < limb_weight(limbs.len()),
    decreases limbs.len(),
{
    if limbs.len() == 0 {
        lemma_weight_step(0);
    } else {
        let n = (limbs.len() - 1) as nat;
        lemma_value_bound(limbs.drop_last());
        lemma_weight_step(n);
        let w = limb_weight(n);
        let x = limbs.last() as nat;
        assert(x * w + w <= LIMB_BASE * w) by (nonlinear_arith)
            requires
                x + 1 <= LIMB_BASE,
        ;
    }
}

/// Two numbers of the same length that agree above limb `i` are ordered as
/// their limbs at `i`.
proof fn lemma_value_order(a: Seq<u64>, b: Seq<u64>, i: int)
    requires
        a.len() == b.len(),
        0 <= i < a.len(),
        a[i] < b[i],
        forall|j: int| i < j < a.len() ==> a[j] == b[j],
    ensures
        limbs_value(a) < limbs_value(b),
    decreases a.len(),
{
    let n = (a.len() - 1) as nat;
    if i < n {
        lemma_value_order(a.drop_last(), b.drop_last(), i);
    } else {
        lemma_value_bound(a.drop_last());
        let w = limb_weight(n);
        let x = a.last() as nat;
        let y = b.last() as nat;
        assert(x * w + w <= y * w) by (nonlinear_arith)
            requires
                x + 1 <= y,
        ;
    }
}

/// `2^k`, where a machine word holds it.
pub fn small_power(k: usize) -> (r: u64)
    requires
        k < 64,
    ensures
        r == pow2(k as nat),
{
    let mut power: u64 = 1;
    let mut i: usize = 0;
    proof {
        lemma2_to64();
    }
    while i < k
        invariant
            i <= k < 64,
            power == pow2(i as nat),
        decreases k - i,
    {
        proof {
            lemma_pow2_unfold((i + 1) as nat);
            if i + 1 < 63 {
                lemma_pow2_strictly_increases((i + 1) as nat, 63);
            }
            lemma2_to64_rest();
        }
        power = power * 2;
        i = i + 1;
    }
    power
}

/// A natural number.
pub struct Natural {
    limbs: Vec<u64>,
}

impl View for Natural {
    type V = nat;

    closed spec fn view(&self) -> nat {
        limbs_value(self.limbs@)
    }
}

impl Natural {
    /// The number `low`.
    pub fn from_u64(low: u64) -> (r: Natural)
        ensures
            r@ == low,
    {
        let mut limbs: Vec<u64> = Vec::new();
        limbs.push(low);
        proof {
            let none = Seq::<u64>::empty();
            lemma_value_push(none, low);
            lemma_weight_step(0);
            assert(limbs@ =~= none.push(low));
            assert(limbs_value(none) == 0);
            assert(low as nat * limb_weight(0) == low) by (nonlinear_arith)
                requires
                    limb_weight(0) == 1,
            ;
        }
        Natural { limbs }
    }

    /// A second copy of the same number.
    pub fn duplicate(&self) -> (r: Natural)
        ensures
            r@ == self@,
    {
        let mut limbs: Vec<u64> = Vec::new();
        let mut i: usize = 0;
        while i < self.limbs.len()
            invariant
                i <= self.limbs.len(),
                limbs@ == self.limbs@.take(i as int),
            decreases self.limbs.len() - i,
        {
            limbs.push(self.limbs[i]);
            i = i + 1;
        }
        assert(self.limbs@.take(i as int) =~= self.limbs@);
        Natural { limbs }
    }

    /// `self * factor + addend`.
    pub fn times_plus(&self, factor: u64, addend: u64) -> (r: Natural)
        ensures
            r@ == self@ * factor + addend,
    {
        let mut limbs: Vec<u64> = Vec::new();
        let mut carry: u64 = addend;
        let mut i: usize = 0;
        proof {
            lemma_weight_step(0);
            assert(self.limbs@.take(0) =~= Seq::empty());
            assert(0 * factor == 0) by (nonlinear_arith);
        }
        while i < self.limbs.len()
            invariant
                i <= self.limbs.len(),
                limbs@.len() == i,
                limbs_value(limbs@) + carry * limb_weight(i as nat) == limbs_value(
                    self.limbs@.take(i as int),
                ) * factor + addend,
            decreases self.limbs.len() - i,
        {
            let limb: u64 = self.limbs[i];
            assert(limb * factor + carry <= 0xffff_ffff_ffff_ffff * 0x1_0000_0000_0000_0000)
                by (nonlinear_arith)
                requires
                    limb <= 0xffff_ffff_ffff_ffff,
                    factor <= 0xffff_ffff_ffff_ffff,
                    carry <= 0xffff_ffff_ffff_ffff,
            ;
            let total: u128 = limb as u128 * factor as u128 + carry as u128;
            let low: u64 = (total % LIMB_BASE) as u64;
            let high: u64 = (total / LIMB_BASE) as u64;
            proof {
                let w = limb_weight(i as nat);
                let before = limbs_value(self.limbs@.take(i as int));
                lemma_weight_step(i as nat);
                lemma_value_push(limbs@, low);
                lemma_value_take(self.limbs@, i as int);
                assert(low as int + LIMB_BASE * high == limb * factor + carry);
                assert(low * w + high * (LIMB_BASE * w) == (limb * w) * factor + carry * w)
                    by (nonlinear_arith)
                    requires
                        low as int + LIMB_BASE * high == limb * factor + carry,
                ;
                assert((before + limb * w) * factor == before * factor + (limb * w) * factor)
                    by (nonlinear_arith);
            }
            limbs.push(low);
            carry = high;
            i = i + 1;
        }
        proof {
            assert(self.limbs@.take(i as int) =~= self.limbs@);
            lemma_value_push(limbs@, carry);
        }
        if carry != 0 {
            limbs.push(carry);
        }
        Natural { limbs }
    }

    /// `self * 2^bits`.
    pub fn shifted(&self, bits: usize) -> (r: Natural)
        ensures
            r@ == self@ * pow2(bits as nat),
    {
        let whole: usize = bits / 64;
        let rest: usize = bits % 64;
        let mut limbs: Vec<u64> = Vec::new();
        let mut i: usize = 0;
        while i < whole
            invariant
                i <= whole,
                limbs@.len() == i,
                limbs_value(limbs@) == 0,
            decreases whole - i,
        {
            proof {
                lemma_value_push(limbs@, 0);
            }
            limbs.push(0);
            i = i + 1;
        }
        let mut j: usize = 0;
        proof {
            assert(self.limbs@.take(0) =~= Seq::empty());
            assert(0 * limb_weight(whole as nat) == 0) by (nonlinear_arith);
        }
        while j < self.limbs.len()
            invariant
                j <= self.limbs.len(),
                limbs@.len() == whole + j,
                limbs_value(limbs@) == limbs_value(self.limbs@.take(j as int)) * limb_weight(
                    whole as nat,
                ),
            decreases self.limbs.len() - j,
        {
            let limb: u64 = self.limbs[j];
            proof {
                let before = limbs_value(self.limbs@.take(j as int));
                let w = limb_weight(j as nat);
                let k = limb_weight(whole as nat);
                lemma_value_push(limbs@, limb);
                lemma_value_take(self.limbs@, j as int);
                lemma_pow2_adds(64 * (j as nat), 64 * (whole as nat));
                assert(limb_weight((whole + j) as nat) == w * k);
                assert((before + limb * w) * k == before * k + limb * (w * k))
                    by (nonlinear_arith);
            }
            limbs.push(limb);
            j = j + 1;
        }
        proof {
            assert(self.limbs@.take(j as int) =~= self.limbs@);
        }
        let factor: u64 = small_power(rest);
        let aligned = Natural { limbs };
        proof {
            lemma_pow2_adds(64 * (whole as nat), rest as nat);
            let v = self@;
            let k = limb_weight(whole as nat);
            assert((v * k) * factor == v * (k * factor)) by (nonlinear_arith);
        }
        aligned.times_plus(factor, 0)
    }

    /// The limbs of two numbers, padded to one length.
    fn aligned(left: &Natural, right: &Natural) -> (r: (Vec<u64>, Vec<u64>))
        ensures
            r.0.len() == r.1.len(),
            limbs_value(r.0@) == left@,
            limbs_value(r.1@) == right@,
    {
        let mut a: Vec<u64> = left.duplicate().limbs;
        let mut b: Vec<u64> = right.duplicate().limbs;
        while a.len() < b.len()
            invariant
                limbs_value(a@) == left@,
            decreases b.len() - a.len(),
        {
            proof {
                lemma_value_push(a@, 0);
            }
            a.push(0);
        }
        while b.len() < a.len()
            invariant
                limbs_value(b@) == right@,
                b.len() <= a.len(),
            decreases a.len() - b.len(),
        {
            proof {
                lemma_value_push(b@, 0);
            }
            b.push(0);
        }
        (a, b)
    }

    /// Whether `self <= other`.
    pub fn at_most(&self, other: &Natural) -> (r: bool)
        ensures
            r == (self@ <= other@),
    {
        let (a, b) = Self::aligned(self, other);
        let mut i: usize = a.len();
        while i > 0
            invariant
                a.len() == b.len(),
                i <= a.len(),
                limbs_value(a@) == self@,
                limbs_value(b@) == other@,
                forall|j: int| i <= j < a.len() ==> a[j] == b[j],
            decreases i,
        {
            i = i - 1;
            if a[i] < b[i] {
                proof {
                    lemma_value_order(a@, b@, i as int);
                }
                return true;
            }
            if b[i] < a[i] {
                proof {
                    lemma_value_order(b@, a@, i as int);
                }
                return false;
            }
        }
        assert(a@ =~= b@);
        true
    }

    /// `self + other`.
    pub fn plus(&self, other: &Natural) -> (r: Natural)
        ensures
            r@ == self@ + other@,
    {
        let (a, b) = Self::aligned(self, other);
        let mut limbs: Vec<u64> = Vec::new();
        let mut carry: u64 = 0;
        let mut i: usize = 0;
        proof {
            lemma_weight_step(0);
            assert(a@.take(0) =~= Seq::empty());
            assert(b@.take(0) =~= Seq::empty());
        }
        while i < a.len()
            invariant
                a.len() == b.len(),
                i <= a.len(),
                limbs@.len() == i,
                carry <= 1,
                limbs_value(limbs@) + carry * limb_weight(i as nat) == limbs_value(
                    a@.take(i as int),
                ) + limbs_value(b@.take(i as int)),
            decreases a.len() - i,
        {
            let total: u128 = a[i] as u128 + b[i] as u128 + carry as u128;
            let low: u64 = (total % LIMB_BASE) as u64;
            let high: u64 = (total / LIMB_BASE) as u64;
            proof {
                let w = limb_weight(i as nat);
                let x = a[i as int];
                let y = b[i as int];
                lemma_weight_step(i as nat);
                lemma_value_push(limbs@, low);
                lemma_value_take(a@, i as int);
                lemma_value_take(b@, i as int);
                assert(low as int + LIMB_BASE * high == x + y + carry);
                assert(low * w + high * (LIMB_BASE * w) == x * w + y * w + carry * w)
                    by (nonlinear_arith)
                    requires
                        low as int + LIMB_BASE * high == x + y + carry,
                ;
            }
            limbs.push(low);
            carry = high;
            i = i + 1;
        }
        proof {
            assert(a@.take(i as int) =~= a@);
            assert(b@.take(i as int) =~= b@);
            lemma_value_push(limbs@, carry);
        }
        if carry != 0 {
            limbs.push(carry);
        }
        Natural { limbs }
    }

    /// `self - other`, where it is not negative.
    pub fn minus(&self, other: &Natural) -> (r: Natural)
        requires
            other@ <= self@,
        ensures
            r@ == self@ - other@,
    {
        let (a, b) = Self::aligned(self, other);
        let mut limbs: Vec<u64> = Vec::new();
        let mut borrow: u64 = 0;
        let mut i: usize = 0;
        proof {
            lemma_weight_step(0);
            assert(a@.take(0) =~= Seq::empty());
            assert(b@.take(0) =~= Seq::empty());
        }
        while i < a.len()
            invariant
                a.len() == b.len(),
                i <= a.len(),
                limbs@.len() == i,
                borrow <= 1,
                limbs_value(limbs@) + limbs_value(b@.take(i as int)) == limbs_value(
                    a@.take(i as int),
                ) + borrow * limb_weight(i as nat),
            decreases a.len() - i,
        {
            let have: u128 = LIMB_BASE + a[i] as u128;
            let total: u128 = have - b[i] as u128 - borrow as u128;
            let low: u64 = (total % LIMB_BASE) as u64;
            let next: u64 = if total < LIMB_BASE { 1 } else { 0 };
            proof {
                let w = limb_weight(i as nat);
                let x = a[i as int];
                let y = b[i as int];
                lemma_weight_step(i as nat);
                lemma_value_push(limbs@, low);
                lemma_value_take(a@, i as int);
                lemma_value_take(b@, i as int);
                assert(low as int + y + borrow == x + LIMB_BASE * next);
                assert(low * w + y * w + borrow * w == x * w + next * (LIMB_BASE * w))
                    by (nonlinear_arith)
                    requires
                        low as int + y + borrow == x + LIMB_BASE * next,
                ;
            }
            limbs.push(low);
            borrow = next;
            i = i + 1;
        }
        proof {
            assert(a@.take(i as int) =~= a@);
            assert(b@.take(i as int) =~= b@);
            lemma_value_bound(limbs@);
            if borrow == 1 {
                assert(borrow * limb_weight(i as nat) == limb_weight(i as nat));
            }
        }
        Natural { limbs }
    }
}

} // verus!
