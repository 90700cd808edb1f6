//! Accounts that are reached at a broker or a cloud service directly.

use crate::{config, double, steps};
use crate::config::{AccountBackend, AccountConfig, CTraderEnvironment, DaemonConfig};
use crate::double::{Double, BINADE};
use vstd::arithmetic::power2::*;
use vstd::prelude::*;

pub mod ctrader;
pub mod metaapi;

verus! {

/// The least difference between two prices that counts as a change.
pub open spec fn price_step() -> Double {
    steps::number(1).quotient(steps::number(10_000_000_000))
}

/// The least difference between two volumes that counts as a change: the
/// distance from one to the next larger number.
pub open spec fn volume_step() -> Double {
    steps::number(1).quotient(steps::number(4_503_599_627_370_496))
}

/// The least difference between two volumes that counts as a change.
pub fn least_volume() -> (r: Double)
    ensures
        r == volume_step(),
{
    Double::from_u64(1).over(Double::from_u64(4_503_599_627_370_496))
}

/// Whether a price changed: it came or went, or it moved.
pub open spec fn moved(left: Option<Double>, right: Option<Double>) -> bool {
    match (left, right) {
        (Some(a), Some(b)) => price_step().lt(a.difference(b).distance()),
        (None, None) => false,
        _ => true,
    }
}

/// Whether a price changed.
pub fn changed_price(left: Option<Double>, right: Option<Double>) -> (r: bool)
    ensures
        r == moved(left, right),
{
    match (left, right) {
        (Some(a), Some(b)) => {
            let step = Double::from_u64(1).over(Double::from_u64(10_000_000_000));
            step.below(a.minus(b).absolute())
        },
        (None, None) => false,
        _ => true,
    }
}

/// What did not change did not grow, shrink or move.
pub proof fn lemma_unchanged(volume: Double, price: Option<Double>)
    ensures
        !volume.sum(volume_step()).lt(volume),
        !moved(price, price),
{
    double::lemma_quotient_sign(1, 4_503_599_627_370_496);
    double::lemma_quotient_sign(1, 10_000_000_000);
    if !volume_step().nan() {
        double::law_adding_never_lowers(volume, volume_step());
    }
    if price is Some && !price_step().nan() {
        double::law_difference_with_itself(price->Some_0, price_step());
    }
}

/// Which accounts are reached where, by their places in the configuration.
#[derive(Debug)]
pub struct VenuePlan {
    pub ctrader_live: Vec<usize>,
    pub ctrader_demo: Vec<usize>,
    pub metaapi: Vec<usize>,
}

/// Whether an account is reached at cTrader's server of an environment.
pub open spec fn at_ctrader(account: AccountConfig, environment: CTraderEnvironment) -> bool {
    account.backend == AccountBackend::CTraderOpenApi && account.ctrader is Some
        && account.ctrader->Some_0.environment == environment
}

/// Whether an account is reached at MetaApi.
pub open spec fn at_metaapi(account: AccountConfig) -> bool {
    account.backend == AccountBackend::MetaApi
}

/// The places of the accounts that fit, in their order.
pub open spec fn places(accounts: Seq<AccountConfig>, fits: spec_fn(AccountConfig) -> bool) -> Seq<
    usize,
>
    decreases accounts.len(),
{
    if accounts.len() == 0 {
        Seq::empty()
    } else {
        let before = places(accounts.drop_last(), fits);
        if fits(accounts.last()) {
            before.push((accounts.len() - 1) as usize)
        } else {
            before
        }
    }
}

/// Sorts the accounts of a valid configuration by where they are reached.
pub fn plan_venues(config: &DaemonConfig) -> (r: VenuePlan)
    requires
        config.fault() is None,
    ensures
        r.ctrader_live@ == places(
            config.accounts@,
            |account: AccountConfig| at_ctrader(account, CTraderEnvironment::Live),
        ),
        r.ctrader_demo@ == places(
            config.accounts@,
            |account: AccountConfig| at_ctrader(account, CTraderEnvironment::Demo),
        ),
        r.metaapi@ == places(config.accounts@, |account: AccountConfig| at_metaapi(account)),
{
    let ghost live = |account: AccountConfig| at_ctrader(account, CTraderEnvironment::Live);
    let ghost demo = |account: AccountConfig| at_ctrader(account, CTraderEnvironment::Demo);
    let ghost meta = |account: AccountConfig| at_metaapi(account);
    let mut plan = VenuePlan {
        ctrader_live: Vec::new(),
        ctrader_demo: Vec::new(),
        metaapi: Vec::new(),
    };
    let mut i: usize = 0;
    proof {
        config::law_valid_accounts(*config, config.accounts@);
    }
    while i < config.accounts.len()
        invariant
            i <= config.accounts.len(),
            live == (|account: AccountConfig| at_ctrader(account, CTraderEnvironment::Live)),
            demo == (|account: AccountConfig| at_ctrader(account, CTraderEnvironment::Demo)),
            meta == (|account: AccountConfig| at_metaapi(account)),
            plan.ctrader_live@ == places(config.accounts@.take(i as int), live),
            plan.ctrader_demo@ == places(config.accounts@.take(i as int), demo),
            plan.metaapi@ == places(config.accounts@.take(i as int), meta),
            forall|j: int|
                0 <= j < config.accounts@.len() ==> config.backend_fault(
                    #[trigger] config.accounts@[j],
                ) is None,
        decreases config.accounts.len() - i,
    {
        let account = &config.accounts[i];
        proof {
            assert(config.accounts@.take(i + 1).drop_last() =~= config.accounts@.take(i as int));
            assert(config.backend_fault(config.accounts@[i as int]) is None);
        }
        match account.backend {
            AccountBackend::Agent => {},
            AccountBackend::CTraderOpenApi => {
                if let Some(direct) = &account.ctrader {
                    match direct.environment {
                        CTraderEnvironment::Live => {
                            plan.ctrader_live.push(i);
                        },
                        CTraderEnvironment::Demo => {
                            plan.ctrader_demo.push(i);
                        },
                    }
                }
            },
            AccountBackend::MetaApi => {
                plan.metaapi.push(i);
            },
        }
        i = i + 1;
    }
    assert(config.accounts@.take(i as int) =~= config.accounts@);
    plan
}

/// A volume counts as changed from a distance of 2^-52 on, the distance from one
/// to the next larger number, and a price from the number nearest to 10^-10 on.
pub proof fn law_least_changes()
    ensures
        volume_step().signed_units() * 0x10_0000_0000_0000 == pow2(1074),
        double::rounds_to(pow2(1074), 10_000_000_000, price_step().magnitude() as nat),
        !price_step().negative(),
        steps::countable(volume_step()),
        steps::countable(price_step()),
{
    let one = pow2(1074);
    lemma2_to64();
    lemma2_to64_rest();
    lemma_pow2_adds(52, 1022);
    lemma_pow2_adds(1022, 0);
    lemma_pow2_pos(1022);
    steps::lemma_small_number(1);
    steps::lemma_small_number(4_503_599_627_370_496);
    steps::lemma_small_number(10_000_000_000);
    assert(1 * one == one);
    let m = (971 * BINADE) as u64;
    assert(m / BINADE == 971 && m % BINADE == 0);
    lemma_pow2_adds(52, 970);
    assert(double::units(m as nat) == (BINADE + 0) * pow2(970));
    let p = pow2(1022);
    assert(double::units(m as nat) == p);
    assert(p * (4_503_599_627_370_496 * one) == one * one) by (nonlinear_arith)
        requires
            one == 0x10_0000_0000_0000 * p,
    ;
    double::lemma_nearest_equal(one * one, (4_503_599_627_370_496 * one) as nat, m);
    double::lemma_nearest_is(one * one, (10_000_000_000 * one) as nat);
    let k = double::nearest(one * one, (10_000_000_000 * one) as nat);
    double::lemma_nearest_is(one, 10_000_000_000);
    double::lemma_nearest_scaled(one, 10_000_000_000, one, double::nearest(one, 10_000_000_000));
    if k == 0 {
        assert((double::units(0) + double::units(1)) * 10_000_000_000 == 10_000_000_000);
        lemma_pow2_strictly_increases(64, 1074);
    }
    let unit = steps::number(1).magnitude();
    assert(one <= double::units(unit as nat) * 10_000_000_000);
    double::lemma_nearest_ordered(one, 10_000_000_000, unit);
}

/// A price moved just where it came or went, or where the number nearest to the
/// distance, in either direction, is more than the least that counts.
pub proof fn law_price_moves(left: Option<Double>, right: Option<Double>, distance: u64)
    requires
        left is Some && right is Some ==> {
            let exact = left->Some_0.signed_units() - right->Some_0.signed_units();
            &&& left->Some_0.finite()
            &&& right->Some_0.finite()
            &&& double::rounds_to(
                (if exact < 0 {
                    -exact
                } else {
                    exact
                }) as nat,
                1,
                distance as nat,
            )
        },
    ensures
        left is None && right is None ==> !moved(left, right),
        left is None != right is None ==> moved(left, right),
        left is Some && right is Some ==> (moved(left, right) <==> price_step().signed_units()
            < double::units(distance as nat)),
{
    if left is Some && right is Some {
        let a = left->Some_0;
        let b = right->Some_0;
        let exact = a.signed_units() - b.signed_units();
        let size = (if exact < 0 {
            -exact
        } else {
            exact
        }) as nat;
        law_least_changes();
        double::law_sum_is_nearest(a, b);
        let d = a.difference(b);
        double::lemma_nearest(size, 1, distance);
        double::lemma_nearest(size, 1, d.magnitude());
        assert(d.distance().magnitude() == distance);
        assert(!d.distance().nan());
        assert(d.distance().signed_units() == double::units(distance as nat));
    }
}

/// The places are those of the accounts that fit, all of them and in their
/// order.
pub proof fn law_places_are_complete(
    accounts: Seq<AccountConfig>,
    fits: spec_fn(AccountConfig) -> bool,
)
    requires
        accounts.len() <= usize::MAX,
    ensures
        forall|i: int|
            0 <= i < places(accounts, fits).len() ==> 0 <= #[trigger] places(accounts, fits)[i]
                < accounts.len() && fits(accounts[places(accounts, fits)[i] as int]),
        forall|i: int, j: int|
            0 <= i < j < places(accounts, fits).len() ==> places(accounts, fits)[i] < places(
                accounts,
                fits,
            )[j],
        forall|j: int|
            0 <= j < accounts.len() && fits(#[trigger] accounts[j]) ==> places(
                accounts,
                fits,
            ).contains(j as usize),
    decreases accounts.len(),
{
    if accounts.len() > 0 {
        let fewer = accounts.drop_last();
        let before = places(fewer, fits);
        let all = places(accounts, fits);
        let last = accounts.len() - 1;
        law_places_are_complete(fewer, fits);
        assert forall|i: int| 0 <= i < all.len() implies 0 <= #[trigger] all[i] < accounts.len()
            && fits(accounts[all[i] as int]) by {
            if i < before.len() {
                assert(0 <= before[i] < fewer.len());
                assert(fewer[before[i] as int] == accounts[before[i] as int]);
            }
        }
        assert forall|i: int, j: int| 0 <= i < j < all.len() implies all[i] < all[j] by {
            assert(0 <= before[i] < fewer.len());
        }
        assert forall|j: int| 0 <= j < accounts.len() && fits(
            #[trigger] accounts[j],
        ) implies all.contains(j as usize) by {
            if j < last {
                assert(fits(fewer[j]));
                let i = choose|i: int| 0 <= i < before.len() && before[i] == j as usize;
                assert(all[i] == j as usize);
            } else {
                assert(all[all.len() - 1] == j as usize);
            }
        }
    }
}

/// An account is reached at cTrader's server of the environment that it names,
/// or at MetaApi, and in one place only.
pub proof fn law_reached_in_one_place(account: AccountConfig)
    ensures
        at_ctrader(account, CTraderEnvironment::Live) <==> account.backend
            == AccountBackend::CTraderOpenApi && account.ctrader is Some
            && account.ctrader->Some_0.environment == CTraderEnvironment::Live,
        at_ctrader(account, CTraderEnvironment::Demo) <==> account.backend
            == AccountBackend::CTraderOpenApi && account.ctrader is Some
            && account.ctrader->Some_0.environment == CTraderEnvironment::Demo,
        at_metaapi(account) <==> account.backend == AccountBackend::MetaApi,
{
}

} // verus!
