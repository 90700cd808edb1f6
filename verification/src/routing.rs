//! Copy rules: which events a route takes, and what command it makes of one.

use crate::digest::fingerprint;
use crate::double::Double;
use crate::model::{
    ExecutionCommand, ExecutionCommandView, MirrorBinding, MirrorBindingView, Side, TradeAction,
    TradeEvent, TradeEventView,
};
use crate::steps::{bring_between, volume};
use crate::table::Table;
use crate::text::joined;
use crate::{digest, double, steps};
use vstd::arithmetic::power2::*;
use vstd::prelude::*;
use vstd::string::*;

verus! {

/// How the volume of an opening is found.
#[derive(Debug, Clone, Copy, PartialEq, Eq, Structural)]
pub enum SizingMode {
    Mirror,
    Fixed,
    Multiplier,
}

impl Default for SizingMode {
    fn default() -> (r: Self)
        ensures
            r == SizingMode::Mirror,
    {
        SizingMode::Mirror
    }
}

/// A rule that copies one account's trades to another.
pub struct RouteRule {
    pub id: String,
    pub source_account_id: String,
    pub target_account_id: String,
    pub enabled: bool,
    pub sizing: SizingMode,
    pub size_value: Double,
    pub reverse: bool,
    pub copy_sl_tp: bool,
    pub min_volume: Double,
    pub max_volume: Double,
    pub volume_step: Double,
    pub allow_buy: bool,
    pub allow_sell: bool,
    pub allow_symbols: Vec<String>,
    pub deny_symbols: Vec<String>,
    pub symbol_map: Table<String>,
    pub symbol_prefix: String,
    pub symbol_suffix: String,
    pub max_event_age_ms: u64,
}

/// What is wrong with a route, or with a binding that it needs.
#[derive(Debug)]
pub enum RouteError {
    InvalidRule(String),
    SelfRoute(String),
    InvalidVolumePolicy(String),
    MissingMirror(String),
    InvalidMirror(String),
}

/// What an error of routing holds: the route's name.
pub enum RouteErrorView {
    InvalidRule(Seq<char>),
    SelfRoute(Seq<char>),
    InvalidVolumePolicy(Seq<char>),
    MissingMirror(Seq<char>),
    InvalidMirror(Seq<char>),
}

impl View for RouteError {
    type V = RouteErrorView;

    open spec fn view(&self) -> RouteErrorView {
        match self {
            RouteError::InvalidRule(id) => RouteErrorView::InvalidRule(id@),
            RouteError::SelfRoute(id) => RouteErrorView::SelfRoute(id@),
            RouteError::InvalidVolumePolicy(id) => RouteErrorView::InvalidVolumePolicy(id@),
            RouteError::MissingMirror(id) => RouteErrorView::MissingMirror(id@),
            RouteError::InvalidMirror(id) => RouteErrorView::InvalidMirror(id@),
        }
    }
}

impl RouteErrorView {
    /// The error in words.
    pub open spec fn words(self) -> Seq<char> {
        match self {
            RouteErrorView::InvalidRule(id) => "invalid route rule: "@ + id,
            RouteErrorView::SelfRoute(id) => "route may not target its own source account: "@ + id,
            RouteErrorView::InvalidVolumePolicy(id) => "invalid volume policy on route: "@ + id,
            RouteErrorView::MissingMirror(id) => "mirror binding is missing for route: "@ + id,
            RouteErrorView::InvalidMirror(id) => "mirror binding is invalid for route: "@ + id,
        }
    }
}

impl RouteError {
    /// The error in words.
    pub fn to_string(&self) -> (r: String)
        ensures
            r@ == self@.words(),
    {
        match self {
            RouteError::InvalidRule(id) => joined("invalid route rule: ", id.as_str()),
            RouteError::SelfRoute(id) => joined(
                "route may not target its own source account: ",
                id.as_str(),
            ),
            RouteError::InvalidVolumePolicy(id) => joined(
                "invalid volume policy on route: ",
                id.as_str(),
            ),
            RouteError::MissingMirror(id) => joined(
                "mirror binding is missing for route: ",
                id.as_str(),
            ),
            RouteError::InvalidMirror(id) => joined(
                "mirror binding is invalid for route: ",
                id.as_str(),
            ),
        }
    }
}

/// Zero.
pub open spec fn zero() -> Double {
    Double { bits: 0 }
}

/// A volume in whole steps.
pub fn normalize_step(value: Double, step: Double) -> (r: Double)
    ensures
        r == steps::stepped(value, step),
{
    if value.at_most(Double { bits: 0 }) {
        return Double { bits: 0 };
    }
    volume(value.over(step).rounded(), step)
}

/// Whether a route is switched on where nothing is said.
pub fn default_true() -> (r: bool)
    ensures
        r,
{
    true
}

/// The size of a route where nothing is said: one.
pub fn default_one() -> (r: Double)
    ensures
        r == steps::number(1),
{
    Double::from_u64(1)
}

/// The largest volume of a route where nothing is said.
pub fn default_max_volume() -> (r: Double)
    ensures
        r == steps::number(100_000),
{
    Double::from_u64(100_000)
}

/// The volume step of a route where nothing is said: a hundredth.
pub fn default_volume_step() -> (r: Double)
    ensures
        r == steps::number(1).quotient(steps::number(100)),
{
    Double::from_u64(1).over(Double::from_u64(100))
}

/// Whether a text is among others.
pub open spec fn listed(names: Seq<Seq<char>>, name: Seq<char>) -> bool {
    exists|i: int| 0 <= i < names.len() && #[trigger] names[i] == name
}

fn is_listed(names: &Vec<String>, name: &String) -> (r: bool)
    ensures
        r == listed(names.deep_view(), name@),
{
    let mut i: usize = 0;
    while i < names.len()
        invariant
            i <= names.len(),
            forall|j: int| 0 <= j < i ==> names.deep_view()[j] != name@,
        decreases names.len() - i,
    {
        assert(names.deep_view()[i as int] == names[i as int]@);
        if names[i] == *name {
            return true;
        }
        i = i + 1;
    }
    false
}

impl RouteRule {
    /// What is wrong with a rule, if anything.
    pub open spec fn fault(&self) -> Option<RouteErrorView> {
        if self.id@.len() == 0 || self.source_account_id@.len() == 0
            || self.target_account_id@.len() == 0 {
            Some(RouteErrorView::InvalidRule(self.id@))
        } else if self.source_account_id@ == self.target_account_id@ {
            Some(RouteErrorView::SelfRoute(self.id@))
        } else if self.max_volume.le(zero()) || self.volume_step.le(zero()) || self.min_volume.lt(
            zero(),
        ) || (self.sizing != SizingMode::Mirror && self.size_value.le(zero())) {
            Some(RouteErrorView::InvalidVolumePolicy(self.id@))
        } else {
            None
        }
    }

    /// Checks a rule.
    pub fn validate(&self) -> (r: Result<(), RouteError>)
        ensures
            match self.fault() {
                Some(fault) => r is Err && r->Err_0@ == fault,
                None => r is Ok,
            },
    {
        if self.id.as_str().is_empty() || self.source_account_id.as_str().is_empty()
            || self.target_account_id.as_str().is_empty() {
            return Err(RouteError::InvalidRule(self.id.clone()));
        }
        if self.source_account_id == self.target_account_id {
            return Err(RouteError::SelfRoute(self.id.clone()));
        }
        let nothing = Double { bits: 0 };
        if self.max_volume.at_most(nothing) || self.volume_step.at_most(nothing)
            || self.min_volume.below(nothing) {
            return Err(RouteError::InvalidVolumePolicy(self.id.clone()));
        }
        if self.sizing != SizingMode::Mirror && self.size_value.at_most(nothing) {
            return Err(RouteError::InvalidVolumePolicy(self.id.clone()));
        }
        Ok(())
    }

    /// Whether a rule takes an event: it is switched on, it takes the event's
    /// symbol, and it does not take the other side alone.
    pub open spec fn takes(&self, event: TradeEventView) -> bool {
        &&& self.enabled
        &&& self.allow_symbols@.len() == 0 || listed(self.allow_symbols.deep_view(), event.symbol)
        &&& !listed(self.deny_symbols.deep_view(), event.symbol)
        &&& !(event.side == Some(Side::Buy) && self.allow_sell && !self.allow_buy)
        &&& !(event.side == Some(Side::Sell) && self.allow_buy && !self.allow_sell)
    }

    /// Whether a rule takes an event.
    pub fn allows(&self, event: &TradeEvent) -> (r: bool)
        ensures
            r == self.takes(event@),
    {
        if !self.enabled {
            return false;
        }
        if self.allow_symbols.len() > 0 && !is_listed(&self.allow_symbols, &event.symbol) {
            return false;
        }
        if is_listed(&self.deny_symbols, &event.symbol) {
            return false;
        }
        match event.side {
            Some(Side::Buy) => !(self.allow_sell && !self.allow_buy),
            Some(Side::Sell) => !(self.allow_buy && !self.allow_sell),
            None => true,
        }
    }

    /// The symbol that stands for another on the following account.
    pub open spec fn symbol_for(&self, source: Seq<char>) -> Seq<char> {
        if self.symbol_map@.contains_key(source) {
            self.symbol_map@[source]@
        } else {
            self.symbol_prefix@ + source + self.symbol_suffix@
        }
    }

    /// The symbol that stands for another on the following account.
    pub fn target_symbol(&self, source: &str) -> (r: String)
        ensures
            r@ == self.symbol_for(source@),
    {
        match self.symbol_map.get(source) {
            Some(mapped) => mapped.clone(),
            None => {
                let mut out = joined(self.symbol_prefix.as_str(), source);
                out.append(self.symbol_suffix.as_str());
                out
            },
        }
    }

    /// The volume of an opening before it is brought into bounds.
    pub open spec fn raw_volume(&self, source_volume: Double) -> Double {
        match self.sizing {
            SizingMode::Mirror => source_volume,
            SizingMode::Fixed => self.size_value,
            SizingMode::Multiplier => source_volume.product(self.size_value),
        }
    }

    /// A volume within the rule's bounds, in whole steps where a whole number
    /// of them lies there.
    pub open spec fn bounded_volume(&self, raw: Double) -> Double {
        steps::between(raw, self.min_volume, self.max_volume, self.volume_step)
    }

    /// Whether a volume of a whole number of steps lies within the rule's
    /// bounds.
    pub open spec fn steps_fit(&self) -> bool {
        &&& steps::countable(self.volume_step)
        &&& exists|n: nat|
            steps::fits(
                #[trigger] steps::steps(n, self.volume_step),
                self.min_volume,
                self.max_volume,
            )
    }

    /// A volume to take off, no more than remains, in whole steps.
    pub open spec fn reduced_volume(&self, raw: Double, remaining: Double) -> Double {
        steps::stepped(raw.smaller(remaining).greater(zero()), self.volume_step)
    }

    /// The volume of an opening.
    pub fn open_volume(&self, source_volume: Double) -> (r: Double)
        requires
            self.min_volume.le(self.max_volume),
        ensures
            r == self.bounded_volume(self.raw_volume(source_volume)),
            !self.raw_volume(source_volume).nan() ==> self.min_volume.le(r) && r.le(
                self.max_volume,
            ),
            !self.raw_volume(source_volume).nan() && self.steps_fit() ==> steps::in_steps(
                r,
                self.volume_step,
            ),
    {
        let raw = match self.sizing {
            SizingMode::Mirror => source_volume,
            SizingMode::Fixed => self.size_value,
            SizingMode::Multiplier => source_volume.times(self.size_value),
        };
        self.normalize_open_volume(raw)
    }

    /// A volume within the rule's bounds, in whole steps where a whole number
    /// of them lies there.
    pub fn normalize_open_volume(&self, raw: Double) -> (r: Double)
        requires
            self.min_volume.le(self.max_volume),
        ensures
            r == self.bounded_volume(raw),
            !raw.nan() ==> self.min_volume.le(r) && r.le(self.max_volume),
            !raw.nan() && self.steps_fit() ==> steps::in_steps(r, self.volume_step),
    {
        bring_between(raw, self.min_volume, self.max_volume, self.volume_step)
    }

    /// A volume to take off, no more than remains, in whole steps.
    pub fn normalize_reduce_volume(&self, raw: Double, remaining: Double) -> (r: Double)
        ensures
            r == self.reduced_volume(raw, remaining),
    {
        normalize_step(raw.capped(remaining).at_least(Double { bits: 0 }), self.volume_step)
    }

    /// Whether an event is too old for a rule. An age beyond the range of
    /// `i64` counts as the largest in it.
    pub open spec fn stale(&self, event: TradeEventView, now: i64) -> bool {
        let age = now - event.timestamp_unix_ns;
        let limit = self.max_event_age_ms * 1_000_000;
        &&& self.max_event_age_ms > 0
        &&& if age > i64::MAX {
            i64::MAX > limit
        } else {
            age > limit
        }
    }

    /// Whether an event is too old for a rule.
    fn is_stale(&self, event: &TradeEvent, now: i64) -> (r: bool)
        ensures
            r == self.stale(event@, now),
    {
        if self.max_event_age_ms == 0 {
            return false;
        }
        let age: i128 = now as i128 - event.timestamp_unix_ns as i128;
        let limit: i128 = self.max_event_age_ms as i128 * 1_000_000;
        if age > 0x7fff_ffff_ffff_ffff {
            0x7fff_ffff_ffff_ffff > limit
        } else {
            age > limit
        }
    }

    /// Whether a rule sizes an opening for an event.
    pub open spec fn sizes(&self, event: TradeEventView, now: i64) -> bool {
        self.takes(event) && !self.stale(event, now) && event.action == TradeAction::Open
    }

    /// Whether the bounds of a rule admit a volume, where it sizes an opening.
    pub fn can_size(&self, event: &TradeEvent, now_unix_ns: i64) -> (r: bool)
        ensures
            r == (self.sizes(event@, now_unix_ns) ==> self.min_volume.le(self.max_volume)),
    {
        if event.action == TradeAction::Open && self.allows(event) && !self.is_stale(
            event,
            now_unix_ns,
        ) {
            self.min_volume.at_most(self.max_volume)
        } else {
            true
        }
    }

    /// The volume of the command for an event, and what stands in its way.
    pub open spec fn volume_for(
        &self,
        event: TradeEventView,
        mirror: Option<MirrorBindingView>,
    ) -> Result<Double, RouteErrorView> {
        match (event.action, mirror) {
            (TradeAction::Open, _) => Ok(self.bounded_volume(self.raw_volume(event.volume))),
            (_, None) => Err(RouteErrorView::MissingMirror(self.id@)),
            (TradeAction::Reduce, Some(binding)) => if binding.source_open_volume.le(zero()) {
                Err(RouteErrorView::InvalidMirror(self.id@))
            } else {
                Ok(
                    self.reduced_volume(
                        binding.target_open_volume.product(
                            event.volume.quotient(binding.source_open_volume),
                        ),
                        binding.target_remaining_volume,
                    ),
                )
            },
            (_, Some(binding)) => Ok(binding.target_remaining_volume),
        }
    }

    /// The command for an event, given its volume.
    pub open spec fn command_for(
        &self,
        event: TradeEventView,
        mirror: Option<MirrorBindingView>,
        volume: Double,
        now: i64,
    ) -> ExecutionCommandView {
        ExecutionCommandView {
            command_id: command_name(event.event_id, self.id@, self.target_account_id@),
            origin_event_id: event.event_id,
            route_id: self.id@,
            source_account_id: event.source_account_id,
            source_order_id: event.source_order_id,
            target_account_id: self.target_account_id@,
            action: event.action,
            target_order_id: match (event.action, mirror) {
                (TradeAction::Open, _) => None,
                (_, None) => None,
                (_, Some(binding)) => Some(binding.target_order_id),
            },
            symbol: self.symbol_for(event.symbol),
            side: match event.side {
                Some(side) => Some(
                    if self.reverse {
                        side.opposite()
                    } else {
                        side
                    },
                ),
                None => None,
            },
            volume,
            source_volume: event.volume,
            source_remaining_volume: event.remaining_volume,
            price: event.price,
            stop_loss: if self.copy_sl_tp {
                event.stop_loss
            } else {
                None
            },
            take_profit: if self.copy_sl_tp {
                event.take_profit
            } else {
                None
            },
            created_unix_ns: now,
        }
    }

    /// What a rule makes of an event: nothing where it does not take it, where
    /// it is too old, or where nothing is left of the volume of an opening or a
    /// reduction; else a command, or what stands in its way.
    pub open spec fn planned(
        &self,
        event: TradeEventView,
        mirror: Option<MirrorBindingView>,
        now: i64,
    ) -> Result<Option<ExecutionCommandView>, RouteErrorView> {
        if !self.takes(event) || self.stale(event, now) {
            Ok(None)
        } else {
            match self.volume_for(event, mirror) {
                Err(error) => Err(error),
                Ok(volume) => if (event.action == TradeAction::Open || event.action
                    == TradeAction::Reduce) && volume.le(zero()) {
                    Ok(None)
                } else {
                    Ok(Some(self.command_for(event, mirror, volume, now)))
                },
            }
        }
    }
}

impl Clone for RouteRule {
    fn clone(&self) -> (r: Self)
        ensures
            r.same(self),
    {
        RouteRule {
            id: self.id.clone(),
            source_account_id: self.source_account_id.clone(),
            target_account_id: self.target_account_id.clone(),
            enabled: self.enabled,
            sizing: self.sizing,
            size_value: self.size_value,
            reverse: self.reverse,
            copy_sl_tp: self.copy_sl_tp,
            min_volume: self.min_volume,
            max_volume: self.max_volume,
            volume_step: self.volume_step,
            allow_buy: self.allow_buy,
            allow_sell: self.allow_sell,
            allow_symbols: copy_texts(&self.allow_symbols),
            deny_symbols: copy_texts(&self.deny_symbols),
            symbol_map: self.symbol_map.clone(),
            symbol_prefix: self.symbol_prefix.clone(),
            symbol_suffix: self.symbol_suffix.clone(),
            max_event_age_ms: self.max_event_age_ms,
        }
    }
}

/// A copy of texts.
pub fn copy_texts(names: &Vec<String>) -> (r: Vec<String>)
    ensures
        r@ == names@,
{
    let mut out: Vec<String> = Vec::new();
    let mut i: usize = 0;
    while i < names.len()
        invariant
            i <= names.len(),
            out@ == names@.take(i as int),
        decreases names.len() - i,
    {
        out.push(names[i].clone());
        assert(names@.take(i + 1) =~= names@.take(i as int).push(names@[i as int]));
        i = i + 1;
    }
    assert(names@.take(i as int) =~= names@);
    out
}

impl RouteRule {
    /// Whether two rules say the same.
    pub open spec fn same(&self, other: &RouteRule) -> bool {
        &&& self.id == other.id
        &&& self.source_account_id == other.source_account_id
        &&& self.target_account_id == other.target_account_id
        &&& self.enabled == other.enabled
        &&& self.sizing == other.sizing
        &&& self.size_value == other.size_value
        &&& self.reverse == other.reverse
        &&& self.copy_sl_tp == other.copy_sl_tp
        &&& self.min_volume == other.min_volume
        &&& self.max_volume == other.max_volume
        &&& self.volume_step == other.volume_step
        &&& self.allow_buy == other.allow_buy
        &&& self.allow_sell == other.allow_sell
        &&& self.allow_symbols@ == other.allow_symbols@
        &&& self.deny_symbols@ == other.deny_symbols@
        &&& self.symbol_map@ == other.symbol_map@
        &&& self.symbol_prefix == other.symbol_prefix
        &&& self.symbol_suffix == other.symbol_suffix
        &&& self.max_event_age_ms == other.max_event_age_ms
    }
}

/// Whether rules say the same as others, each as the one in its place.
pub open spec fn same_rules(rules: Seq<RouteRule>, others: Seq<RouteRule>) -> bool {
    &&& rules.len() == others.len()
    &&& forall|i: int| 0 <= i < rules.len() ==> (#[trigger] rules[i]).same(&others[i])
}

/// A copy of rules.
pub fn copy_rules(rules: &Vec<RouteRule>) -> (r: Vec<RouteRule>)
    ensures
        same_rules(r@, rules@),
{
    let mut out: Vec<RouteRule> = Vec::new();
    let mut i: usize = 0;
    while i < rules.len()
        invariant
            i <= rules.len(),
            out@.len() == i,
            forall|j: int| 0 <= j < i ==> (#[trigger] out@[j]).same(&rules@[j]),
        decreases rules.len() - i,
    {
        out.push(rules[i].clone());
        i = i + 1;
    }
    out
}

/// Rules that say the same have the same fault, and plan the same for every
/// event.
pub proof fn law_same_rule(
    rule: RouteRule,
    other: RouteRule,
    event: TradeEventView,
    mirror: Option<MirrorBindingView>,
    now: i64,
)
    requires
        rule.same(&other),
    ensures
        rule.fault() == other.fault(),
        rule.sizes(event, now) == other.sizes(event, now),
        rule.planned(event, mirror, now) == other.planned(event, mirror, now),
{
    assert(rule.allow_symbols.deep_view() =~= other.allow_symbols.deep_view());
    assert(rule.deny_symbols.deep_view() =~= other.deny_symbols.deep_view());
}

proof fn lemma_same_fault(rule: RouteRule, other: RouteRule)
    requires
        rule.same(&other),
    ensures
        rule.fault() == other.fault(),
{
}

/// Rules that say the same have the same fault, and those among them that copy
/// an account say the same.
pub proof fn lemma_same_rules(rules: Seq<RouteRule>, others: Seq<RouteRule>, source: Seq<char>)
    requires
        same_rules(rules, others),
    ensures
        rules_fault(rules) == rules_fault(others),
        same_rules(routes_from(rules, source), routes_from(others, source)),
    decreases rules.len(),
{
    if rules.len() > 0 {
        let fewer = rules.drop_last();
        let fewer_others = others.drop_last();
        assert forall|i: int| 0 <= i < fewer.len() implies (#[trigger] fewer[i]).same(
            &fewer_others[i],
        ) by {
            assert(rules[i].same(&others[i]));
        }
        lemma_same_rules(fewer, fewer_others, source);
        assert(rules[rules.len() - 1].same(&others[others.len() - 1]));
        lemma_same_fault(rules.last(), others.last());
    }
}

/// The name of the command for an event on a route. It depends on the event,
/// the route and the following account alone.
pub open spec fn command_name(
    event_id: Seq<char>,
    route_id: Seq<char>,
    target_account_id: Seq<char>,
) -> Seq<char> {
    digest::fingerprint_of("copierr:v1"@, event_id, route_id, target_account_id)
}

/// The name of the command for an event on a route.
pub fn command_id(event: &TradeEvent, route: &RouteRule) -> (r: String)
    ensures
        r@ == command_name(event.event_id@, route.id@, route.target_account_id@),
        r@.len() == 32,
{
    fingerprint(
        "copierr:v1",
        event.event_id.as_str(),
        route.id.as_str(),
        route.target_account_id.as_str(),
    )
}

/// The fault of the first rule that has one.
pub open spec fn rules_fault(routes: Seq<RouteRule>) -> Option<RouteErrorView>
    decreases routes.len(),
{
    if routes.len() == 0 {
        None
    } else {
        match rules_fault(routes.drop_last()) {
            Some(fault) => Some(fault),
            None => routes.last().fault(),
        }
    }
}

/// The rules that copy an account, in their order.
pub open spec fn routes_from(routes: Seq<RouteRule>, source: Seq<char>) -> Seq<RouteRule>
    decreases routes.len(),
{
    if routes.len() == 0 {
        Seq::empty()
    } else {
        let before = routes_from(routes.drop_last(), source);
        if routes.last().source_account_id@ == source {
            before.push(routes.last())
        } else {
            before
        }
    }
}

/// Checks rules.
pub fn check_rules(routes: &Vec<RouteRule>) -> (r: Result<(), RouteError>)
    ensures
        match rules_fault(routes@) {
            Some(fault) => r is Err && r->Err_0@ == fault,
            None => r is Ok,
        },
{
    let mut i: usize = 0;
    while i < routes.len()
        invariant
            i <= routes.len(),
            rules_fault(routes@.take(i as int)) is None,
        decreases routes.len() - i,
    {
        proof {
            let more = routes@.take(i + 1);
            assert(more.drop_last() =~= routes@.take(i as int));
            assert(more.last() == routes@[i as int]);
            if rules_fault(more) is Some {
                lemma_first_fault(routes@, i + 1);
            }
        }
        routes[i].validate()?;
        i = i + 1;
    }
    assert(routes@.take(i as int) =~= routes@);
    Ok(())
}

/// Among rules without a fault each has none.
pub proof fn lemma_rule_sound(routes: Seq<RouteRule>, i: int)
    requires
        rules_fault(routes) is None,
        0 <= i < routes.len(),
    ensures
        routes[i].fault() is None,
    decreases routes.len(),
{
    if i < routes.len() - 1 {
        lemma_rule_sound(routes.drop_last(), i);
    }
}

/// The rules, by the account that they copy.
pub struct CopyEngine {
    routes_by_source: Table<Vec<RouteRule>>,
    none: Vec<RouteRule>,
}

impl CopyEngine {
    /// The rules that copy an account.
    pub closed spec fn routes(&self, source: Seq<char>) -> Seq<RouteRule> {
        if self.routes_by_source@.contains_key(source) {
            self.routes_by_source@[source]@
        } else {
            Seq::empty()
        }
    }

    #[verifier::type_invariant]
    spec fn has_none(self) -> bool {
        self.none@.len() == 0
    }

    /// Sorts rules by the account that they copy. A rule with a fault is
    /// refused.
    pub fn new(routes: Vec<RouteRule>) -> (r: Result<CopyEngine, RouteError>)
        ensures
            match rules_fault(routes@) {
                Some(fault) => r is Err && r->Err_0@ == fault,
                None => r is Ok && forall|source: Seq<char>| #[trigger]
                    r->Ok_0.routes(source) == routes_from(routes@, source),
            },
    {
        let mut table: Table<Vec<RouteRule>> = Table::new();
        let ghost all = routes@;
        for route in it: routes
            invariant
                it.seq() == all,
                rules_fault(all.take(it.index() as int)) is None,
                forall|source: Seq<char>| #[trigger]
                    routes_from(all.take(it.index() as int), source) == (
                    if table@.contains_key(source) {
                        table@[source]@
                    } else {
                        Seq::empty()
                    }),
        {
            let ghost before = table@;
            let ghost taken = all.take(it.index() as int);
            let ghost more = all.take(it.index() + 1);
            proof {
                assert(more.drop_last() =~= taken);
                assert(more.last() == route);
            }
            match route.validate() {
                Ok(_) => {},
                Err(error) => {
                    proof {
                        lemma_first_fault(all, it.index() + 1);
                    }
                    return Err(error);
                },
            }
            let source = route.source_account_id.clone();
            let ghost added = route;
            let mut rules: Vec<RouteRule> = match table.remove(source.as_str()) {
                Some(rules) => rules,
                None => Vec::new(),
            };
            rules.push(route);
            let ghost name = source@;
            let ghost grown = rules@;
            table.insert(source, rules);
            proof {
                assert forall|other: Seq<char>| #[trigger] routes_from(more, other) == (
                if table@.contains_key(other) {
                    table@[other]@
                } else {
                    Seq::empty()
                }) by {
                    assert(routes_from(taken, other) == (if before.contains_key(other) {
                        before[other]@
                    } else {
                        Seq::empty()
                    }));
                }
            }
        }
        proof {
            assert(all.take(all.len() as int) =~= all);
        }
        Ok(CopyEngine { routes_by_source: table, none: Vec::new() })
    }

    /// The rules that copy an account.
    pub fn routes_for(&self, source_account_id: &str) -> (r: &[RouteRule])
        ensures
            r@ == self.routes(source_account_id@),
    {
        proof {
            use_type_invariant(self);
        }
        match self.routes_by_source.get(source_account_id) {
            Some(rules) => rules.as_slice(),
            None => {
                assert(self.none@ =~= Seq::empty());
                self.none.as_slice()
            },
        }
    }

    /// What a rule makes of an event.
    pub fn build_command(
        &self,
        event: &TradeEvent,
        route: &RouteRule,
        mirror: Option<&MirrorBinding>,
        now_unix_ns: i64,
    ) -> (r: Result<Option<ExecutionCommand>, RouteError>)
        requires
            route.sizes(event@, now_unix_ns) ==> route.min_volume.le(route.max_volume),
        ensures
            match route.planned(event@, seen_mirror(mirror), now_unix_ns) {
                Ok(Some(command)) => r is Ok && r->Ok_0 is Some && r->Ok_0->Some_0@ == command,
                Ok(None) => r is Ok && r->Ok_0 is None,
                Err(error) => r is Err && r->Err_0@ == error,
            },
    {
        if !route.allows(event) {
            return Ok(None);
        }
        if route.is_stale(event, now_unix_ns) {
            return Ok(None);
        }
        let (target_order_id, volume): (Option<String>, Double) = match event.action {
            TradeAction::Open => (None, route.open_volume(event.volume)),
            TradeAction::Reduce => {
                match mirror {
                    None => {
                        return Err(RouteError::MissingMirror(route.id.clone()));
                    },
                    Some(binding) => {
                        if binding.source_open_volume.at_most(Double { bits: 0 }) {
                            return Err(RouteError::InvalidMirror(route.id.clone()));
                        }
                        let ratio = event.volume.over(binding.source_open_volume);
                        let target_reduce = binding.target_open_volume.times(ratio);
                        (
                            Some(binding.target_order_id.clone()),
                            route.normalize_reduce_volume(
                                target_reduce,
                                binding.target_remaining_volume,
                            ),
                        )
                    },
                }
            },
            TradeAction::Modify | TradeAction::Close => {
                match mirror {
                    None => {
                        return Err(RouteError::MissingMirror(route.id.clone()));
                    },
                    Some(binding) => (
                        Some(binding.target_order_id.clone()),
                        binding.target_remaining_volume,
                    ),
                }
            },
        };
        if (event.action == TradeAction::Open || event.action == TradeAction::Reduce)
            && volume.at_most(Double { bits: 0 }) {
            return Ok(None);
        }
        let side: Option<Side> = match event.side {
            Some(side) => Some(
                if route.reverse {
                    side.reversed()
                } else {
                    side
                },
            ),
            None => None,
        };
        let stop_loss: Option<Double> = if route.copy_sl_tp {
            event.stop_loss
        } else {
            None
        };
        let take_profit: Option<Double> = if route.copy_sl_tp {
            event.take_profit
        } else {
            None
        };
        Ok(
            Some(
                ExecutionCommand {
                    command_id: command_id(event, route),
                    origin_event_id: event.event_id.clone(),
                    route_id: route.id.clone(),
                    source_account_id: event.source_account_id.clone(),
                    source_order_id: event.source_order_id.clone(),
                    target_account_id: route.target_account_id.clone(),
                    action: event.action,
                    target_order_id,
                    symbol: route.target_symbol(event.symbol.as_str()),
                    side,
                    volume,
                    source_volume: event.volume,
                    source_remaining_volume: event.remaining_volume,
                    price: event.price,
                    stop_loss,
                    take_profit,
                    created_unix_ns: now_unix_ns,
                },
            ),
        )
    }
}

/// A binding that may be absent, by its view.
pub open spec fn seen_mirror(mirror: Option<&MirrorBinding>) -> Option<MirrorBindingView> {
    match mirror {
        Some(binding) => Some(binding@),
        None => None,
    }
}

/// A fault among the first rules is the fault of all of them.
proof fn lemma_first_fault(routes: Seq<RouteRule>, n: int)
    requires
        0 <= n <= routes.len(),
        rules_fault(routes.take(n)) is Some,
    ensures
        rules_fault(routes) == rules_fault(routes.take(n)),
    decreases routes.len(),
{
    if n == routes.len() {
        assert(routes.take(n) =~= routes);
    } else {
        assert(routes.drop_last().take(n) =~= routes.take(n));
        lemma_first_fault(routes.drop_last(), n);
    }
}

/// A command for an event goes to the route's account under a name that the
/// event, the route and the account alone decide; it takes the event's side, or
/// the other one on a route that reverses; it opens or reduces nothing by a
/// volume that is not positive; and it carries no protection that the route
/// holds back.
pub proof fn law_command_of_route(
    route: RouteRule,
    event: TradeEventView,
    mirror: Option<MirrorBindingView>,
    now: i64,
)
    ensures
        match route.planned(event, mirror, now) {
            Ok(Some(command)) => {
                &&& route.enabled
                &&& command.target_account_id == route.target_account_id@
                &&& command.command_id == command_name(
                    event.event_id,
                    route.id@,
                    route.target_account_id@,
                )
                &&& command.action == event.action
                &&& command.symbol == route.symbol_for(event.symbol)
                &&& event.side is None <==> command.side is None
                &&& event.side is Some ==> command.side == Some(
                    if route.reverse {
                        event.side->Some_0.opposite()
                    } else {
                        event.side->Some_0
                    },
                )
                &&& (command.action == TradeAction::Open || command.action == TradeAction::Reduce)
                    ==> !command.volume.le(zero())
                &&& !route.copy_sl_tp ==> command.stop_loss is None && command.take_profit is None
                &&& command.action != TradeAction::Open ==> mirror is Some
                    && command.target_order_id == Some(mirror->Some_0.target_order_id)
                &&& command.action == TradeAction::Open ==> command.target_order_id is None
            },
            _ => true,
        },
{
}

/// A route that is switched off makes nothing of any event, one with an age
/// limit makes nothing of an older event, one for one side makes nothing of the
/// other, and none makes anything of a symbol that it denies or, where it lists
/// some, does not list.
pub proof fn law_route_holds_back(
    route: RouteRule,
    event: TradeEventView,
    mirror: Option<MirrorBindingView>,
    now: i64,
)
    ensures
        !route.enabled ==> route.planned(event, mirror, now) == Ok::<_, RouteErrorView>(
            None::<ExecutionCommandView>,
        ),
        route.max_event_age_ms > 0 && route.max_event_age_ms * 1_000_000 < now
            - event.timestamp_unix_ns <= i64::MAX ==> route.planned(event, mirror, now) == Ok::<
            _,
            RouteErrorView,
        >(None::<ExecutionCommandView>),
        route.allow_buy && !route.allow_sell && event.side == Some(Side::Sell) ==> route.planned(
            event,
            mirror,
            now,
        ) == Ok::<_, RouteErrorView>(None::<ExecutionCommandView>),
        route.allow_sell && !route.allow_buy && event.side == Some(Side::Buy) ==> route.planned(
            event,
            mirror,
            now,
        ) == Ok::<_, RouteErrorView>(None::<ExecutionCommandView>),
        listed(route.deny_symbols.deep_view(), event.symbol) ==> route.planned(event, mirror, now)
            == Ok::<_, RouteErrorView>(None::<ExecutionCommandView>),
        route.allow_symbols@.len() > 0 && !listed(route.allow_symbols.deep_view(), event.symbol)
            ==> route.planned(event, mirror, now) == Ok::<_, RouteErrorView>(
            None::<ExecutionCommandView>,
        ),
{
}

/// An opening has a volume within the route's bounds, and one of a whole number
/// of steps wherever such a volume lies there.
pub proof fn law_opening_within_bounds(
    route: RouteRule,
    event: TradeEventView,
    mirror: Option<MirrorBindingView>,
    now: i64,
)
    requires
        event.action == TradeAction::Open,
        route.min_volume.le(route.max_volume),
        !route.raw_volume(event.volume).nan(),
    ensures
        route.planned(event, mirror, now) matches Ok(Some(command)) ==> {
            &&& route.min_volume.le(command.volume)
            &&& command.volume.le(route.max_volume)
            &&& route.steps_fit() ==> steps::in_steps(command.volume, route.volume_step)
        },
{
    steps::law_between_bounds(
        route.raw_volume(event.volume),
        route.min_volume,
        route.max_volume,
        route.volume_step,
    );
}

/// A reduction takes no more than remains, where what remains is in whole
/// steps.
pub proof fn law_reduction_within_remaining(route: RouteRule, raw: Double, remaining: Double)
    requires
        steps::countable(route.volume_step),
        !remaining.nan(),
        steps::stepped(remaining, route.volume_step) == remaining,
    ensures
        route.reduced_volume(raw, remaining).le(remaining),
{
    let taken = raw.smaller(remaining).greater(zero());
    steps::lemma_stepped(remaining, route.volume_step);
    steps::lemma_order(zero(), remaining);
    steps::law_stepping_keeps_order(taken, remaining, route.volume_step);
}

/// Each rule that an engine gives for an account copies that account and is
/// one of the rules that the engine was made of.
pub proof fn law_routes_from_account(routes: Seq<RouteRule>, source: Seq<char>, i: int)
    requires
        0 <= i < routes_from(routes, source).len(),
    ensures
        routes_from(routes, source)[i].source_account_id@ == source,
        routes.contains(routes_from(routes, source)[i]),
    decreases routes.len(),
{
    let found = routes_from(routes, source);
    let before = routes_from(routes.drop_last(), source);
    if i < before.len() {
        law_routes_from_account(routes.drop_last(), source, i);
        let j = choose|j: int|
            0 <= j < routes.drop_last().len() && routes.drop_last()[j] == before[i];
        assert(routes[j] == found[i]);
    } else {
        assert(routes[routes.len() - 1] == found[i]);
    }
}

/// A rule takes an event just where it is switched on, lists the event's symbol
/// or lists none, does not deny the symbol, and is not for the other side alone.
pub proof fn law_route_takes(route: RouteRule, event: TradeEventView)
    ensures
        route.takes(event) <==> {
            &&& route.enabled
            &&& route.allow_symbols@.len() == 0 || (exists|i: int|
                0 <= i < route.allow_symbols@.len() && (#[trigger] route.allow_symbols@[i])@
                    == event.symbol)
            &&& forall|i: int|
                0 <= i < route.deny_symbols@.len() ==> (#[trigger] route.deny_symbols@[i])@
                    != event.symbol
            &&& match event.side {
                None => true,
                Some(Side::Buy) => route.allow_buy || !route.allow_sell,
                Some(Side::Sell) => route.allow_sell || !route.allow_buy,
            }
        },
{
    let allowed = route.allow_symbols.deep_view();
    let denied = route.deny_symbols.deep_view();
    assert(forall|i: int|
        0 <= i < allowed.len() ==> #[trigger] allowed[i] == route.allow_symbols@[i]@);
    assert(forall|i: int|
        0 <= i < denied.len() ==> #[trigger] denied[i] == route.deny_symbols@[i]@);
    if exists|i: int|
        0 <= i < route.allow_symbols@.len() && (#[trigger] route.allow_symbols@[i])@
            == event.symbol {
        let i = choose|i: int|
            0 <= i < route.allow_symbols@.len() && (#[trigger] route.allow_symbols@[i])@
                == event.symbol;
        assert(allowed[i] == event.symbol);
    }
    if exists|i: int|
        0 <= i < route.deny_symbols@.len() && (#[trigger] route.deny_symbols@[i])@
            == event.symbol {
        let i = choose|i: int|
            0 <= i < route.deny_symbols@.len() && (#[trigger] route.deny_symbols@[i])@
                == event.symbol;
        assert(denied[i] == event.symbol);
    }
}

/// An event is too old for a rule just where the rule has an age limit and more
/// than that has passed since the event. So one that is too old stays too old,
/// and one that is too old for a rule is too old for one with a lower limit.
pub proof fn law_age_limit(
    route: RouteRule,
    other: RouteRule,
    event: TradeEventView,
    now: i64,
    later: i64,
)
    ensures
        route.max_event_age_ms == 0 ==> !route.stale(event, now),
        now - event.timestamp_unix_ns <= i64::MAX && route.max_event_age_ms > 0 ==> (route.stale(
            event,
            now,
        ) <==> now - event.timestamp_unix_ns > route.max_event_age_ms * 1_000_000),
        now <= event.timestamp_unix_ns ==> !route.stale(event, now),
        now <= later && route.stale(event, now) ==> route.stale(event, later),
        0 < other.max_event_age_ms <= route.max_event_age_ms && route.stale(event, now)
            ==> other.stale(event, now),
{
}

/// A rule that takes an event that is not too old answers it: an opening gives
/// no error, and anything else gives one just where its binding is not there,
/// or, for a reduction, where the binding says that nothing was opened.
pub proof fn law_route_answers(
    route: RouteRule,
    event: TradeEventView,
    mirror: Option<MirrorBindingView>,
    now: i64,
)
    ensures
        !route.takes(event) || route.stale(event, now) ==> route.planned(event, mirror, now)
            == Ok::<_, RouteErrorView>(None::<ExecutionCommandView>),
        route.takes(event) && !route.stale(event, now) ==> match (event.action, mirror) {
            (TradeAction::Open, _) => route.planned(event, mirror, now) is Ok,
            (_, None) => route.planned(event, mirror, now) == Err::<
                Option<ExecutionCommandView>,
                _,
            >(RouteErrorView::MissingMirror(route.id@)),
            (TradeAction::Reduce, Some(binding)) => if binding.source_open_volume.le(zero()) {
                route.planned(event, mirror, now) == Err::<Option<ExecutionCommandView>, _>(
                    RouteErrorView::InvalidMirror(route.id@),
                )
            } else {
                route.planned(event, mirror, now) is Ok
            },
            (_, Some(_)) => route.planned(event, mirror, now) matches Ok(Some(_)),
        },
{
}

/// A command carries its event: whose it is, which order it is about, what the
/// master's volumes are, its price, and its protection where the route copies
/// that. Its side is the event's, or the other one on a route that reverses. A
/// change of protection or a closing is for all that remains of the order that
/// follows.
pub proof fn law_command_carries_event(
    route: RouteRule,
    event: TradeEventView,
    mirror: Option<MirrorBindingView>,
    now: i64,
)
    ensures
        route.planned(event, mirror, now) matches Ok(Some(command)) ==> {
            &&& command.origin_event_id == event.event_id
            &&& command.route_id == route.id@
            &&& command.source_account_id == event.source_account_id
            &&& command.source_order_id == event.source_order_id
            &&& command.target_account_id == route.target_account_id@
            &&& command.action == event.action
            &&& command.source_volume == event.volume
            &&& command.source_remaining_volume == event.remaining_volume
            &&& command.price == event.price
            &&& route.copy_sl_tp ==> command.stop_loss == event.stop_loss
                && command.take_profit == event.take_profit
            &&& !route.copy_sl_tp ==> command.stop_loss is None && command.take_profit is None
            &&& command.created_unix_ns == now
            &&& event.side is None ==> command.side is None
            &&& event.side == Some(Side::Buy) ==> command.side == Some(
                if route.reverse {
                    Side::Sell
                } else {
                    Side::Buy
                },
            )
            &&& event.side == Some(Side::Sell) ==> command.side == Some(
                if route.reverse {
                    Side::Buy
                } else {
                    Side::Sell
                },
            )
            &&& event.action == TradeAction::Open ==> command.target_order_id is None
            &&& event.action != TradeAction::Open ==> mirror is Some && command.target_order_id
                == Some(mirror->Some_0.target_order_id)
            &&& event.action == TradeAction::Modify || event.action == TradeAction::Close
                ==> command.volume == mirror->Some_0.target_remaining_volume
        },
{
}

/// The symbol of a command is the one that the route maps the event's symbol
/// to, or else the event's symbol between the route's prefix and suffix.
pub proof fn law_symbol_is_mapped(
    route: RouteRule,
    event: TradeEventView,
    mirror: Option<MirrorBindingView>,
    now: i64,
)
    ensures
        route.planned(event, mirror, now) matches Ok(Some(command)) ==> {
            &&& route.symbol_map@.contains_key(event.symbol) ==> command.symbol
                == route.symbol_map@[event.symbol]@
            &&& !route.symbol_map@.contains_key(event.symbol) ==> {
                let before = route.symbol_prefix@.len() as int;
                let after = before + event.symbol.len();
                &&& command.symbol.len() == after + route.symbol_suffix@.len()
                &&& command.symbol.take(before) == route.symbol_prefix@
                &&& command.symbol.subrange(before, after) == event.symbol
                &&& command.symbol.skip(after) == route.symbol_suffix@
            }
        },
{
    if let Ok(Some(command)) = route.planned(event, mirror, now) {
        if !route.symbol_map@.contains_key(event.symbol) {
            let before = route.symbol_prefix@.len() as int;
            let after = before + event.symbol.len();
            assert(command.symbol.take(before) =~= route.symbol_prefix@);
            assert(command.symbol.subrange(before, after) =~= event.symbol);
            assert(command.symbol.skip(after) =~= route.symbol_suffix@);
        }
    }
}

/// An opening is sized by its route. A route that mirrors asks for the master's
/// volume, one with a fixed size for that size, and one that multiplies for the
/// number nearest to the exact product of the master's volume and the size.
/// What is asked for is brought between the route's bounds, in whole steps;
/// there is a command for it just where that leaves a positive volume.
pub proof fn law_opening_is_sized(
    route: RouteRule,
    event: TradeEventView,
    mirror: Option<MirrorBindingView>,
    now: i64,
    asked: Double,
)
    requires
        event.action == TradeAction::Open,
        route.takes(event),
        !route.stale(event, now),
        match route.sizing {
            SizingMode::Mirror => asked == event.volume,
            SizingMode::Fixed => asked == route.size_value,
            SizingMode::Multiplier => {
                &&& event.volume.finite()
                &&& route.size_value.finite()
                &&& asked.negative() == (event.volume.negative() != route.size_value.negative())
                &&& double::rounds_to(
                    double::units(event.volume.magnitude() as nat) * double::units(
                        route.size_value.magnitude() as nat,
                    ),
                    pow2(1074),
                    asked.magnitude() as nat,
                )
            },
        },
    ensures
        ({
            let volume = steps::between(
                asked,
                route.min_volume,
                route.max_volume,
                route.volume_step,
            );
            match route.planned(event, mirror, now) {
                Ok(Some(command)) => command.volume == volume && !volume.le(zero()),
                Ok(None) => volume.le(zero()),
                Err(_) => false,
            }
        }),
{
    if route.sizing == SizingMode::Multiplier {
        lemma_pow2_pos(1074);
        double::lemma_nearest(
            double::units(event.volume.magnitude() as nat) * double::units(
                route.size_value.magnitude() as nat,
            ),
            pow2(1074),
            asked.magnitude(),
        );
    }
}

/// A route that multiplies by one asks for the master's volume, and one that
/// multiplies by more asks for no less. A multiplier and a volume may change
/// places.
pub proof fn law_multiplier(route: RouteRule, other: RouteRule, volume: Double)
    requires
        route.sizing == SizingMode::Multiplier,
        other.sizing == SizingMode::Multiplier,
        steps::countable(volume),
        steps::countable(route.size_value),
        steps::countable(other.size_value),
    ensures
        route.size_value.signed_units() == pow2(1074) ==> route.raw_volume(volume) == volume,
        route.size_value.le(other.size_value) ==> route.raw_volume(volume).le(
            other.raw_volume(volume),
        ),
        route.size_value == volume ==> other.raw_volume(volume) == route.raw_volume(
            other.size_value,
        ),
{
    let size = route.size_value;
    let more = other.size_value;
    if size.signed_units() == pow2(1074) {
        assert(volume.signed_units() * pow2(1074) == volume.signed_units() * size.signed_units());
        double::law_product_is_exact(volume, size, volume);
    }
    double::law_product_is_nearest(volume, size);
    double::law_product_is_nearest(volume, more);
    if size.le(more) {
        steps::lemma_order(size, more);
        steps::lemma_product_grows(size, more, volume);
        steps::lemma_order(volume.product(size), volume.product(more));
    }
}

/// What is taken off by a reduction is what is asked for, in whole steps, and
/// no more than remains.
pub proof fn law_reduction_is_capped(route: RouteRule, asked: Double, remaining: Double)
    requires
        !asked.nan(),
        !remaining.nan(),
    ensures
        asked.le(remaining) && !asked.negative() ==> route.reduced_volume(asked, remaining)
            == steps::stepped(asked, route.volume_step),
        remaining.lt(asked) && !remaining.negative() ==> route.reduced_volume(asked, remaining)
            == steps::stepped(remaining, route.volume_step),
        asked.le(zero()) || remaining.le(zero()) ==> route.reduced_volume(asked, remaining).bits
            == 0,
{
    assert(zero().signed_units() == 0);
}

/// Whether a plan takes a volume off: there is a command for it, or none where
/// the volume is not positive.
pub open spec fn takes_off(
    plan: Result<Option<ExecutionCommandView>, RouteErrorView>,
    volume: Double,
) -> bool {
    match plan {
        Ok(Some(command)) => command.volume == volume && !volume.le(Double { bits: 0 }),
        Ok(None) => volume.le(Double { bits: 0 }),
        Err(_) => false,
    }
}

/// A reduction is in proportion: what it asks for stands to what the follower
/// opened as what the master takes off stands to what the master opened.
/// Exactly so where both ratios are carried exactly.
pub proof fn law_reduction_in_proportion(
    route: RouteRule,
    event: TradeEventView,
    binding: MirrorBindingView,
    now: i64,
    ratio: Double,
    asked: Double,
)
    requires
        event.action == TradeAction::Reduce,
        route.takes(event),
        !route.stale(event, now),
        steps::countable(event.volume),
        steps::countable(binding.source_open_volume),
        steps::countable(binding.target_open_volume),
        steps::countable(ratio),
        steps::countable(asked),
        ratio.signed_units() * binding.source_open_volume.signed_units()
            == event.volume.signed_units() * pow2(1074),
        asked.signed_units() * pow2(1074) == binding.target_open_volume.signed_units()
            * ratio.signed_units(),
    ensures
        asked.signed_units() * binding.source_open_volume.signed_units()
            == binding.target_open_volume.signed_units() * event.volume.signed_units(),
        takes_off(
            route.planned(event, Some(binding), now),
            route.reduced_volume(asked, binding.target_remaining_volume),
        ),
{
    double::lemma_units_increase(0, binding.source_open_volume.magnitude() as nat);
    double::law_quotient_is_exact(event.volume, binding.source_open_volume, ratio);
    double::law_product_is_exact(binding.target_open_volume, ratio, asked);
    let one = pow2(1074) as int;
    let r = ratio.signed_units();
    let s = binding.source_open_volume.signed_units();
    let t = binding.target_open_volume.signed_units();
    let e = event.volume.signed_units();
    let a = asked.signed_units();
    lemma_pow2_pos(1074);
    assert((a * s) * one == (t * e) * one) by (nonlinear_arith)
        requires
            r * s == e * one,
            a * one == t * r,
    ;
    assert(a * s == t * e) by (nonlinear_arith)
        requires
            (a * s) * one == (t * e) * one,
            one > 0,
    ;
}

/// A reduction by all that the master opened asks for all that the follower
/// opened.
pub proof fn law_reduction_by_all(
    route: RouteRule,
    event: TradeEventView,
    binding: MirrorBindingView,
    now: i64,
)
    requires
        event.action == TradeAction::Reduce,
        route.takes(event),
        !route.stale(event, now),
        steps::countable(event.volume),
        steps::countable(binding.target_open_volume),
        event.volume == binding.source_open_volume,
    ensures
        takes_off(
            route.planned(event, Some(binding), now),
            route.reduced_volume(binding.target_open_volume, binding.target_remaining_volume),
        ),
{
    let one = steps::number(1);
    steps::lemma_small_number(1);
    assert(1 * pow2(1074) == pow2(1074));
    let e = event.volume.signed_units();
    let t = binding.target_open_volume.signed_units();
    assert(one.signed_units() * e == e * pow2(1074)) by (nonlinear_arith)
        requires
            one.signed_units() == pow2(1074),
    ;
    law_reduction_in_proportion(
        route,
        event,
        binding,
        now,
        one,
        binding.target_open_volume,
    );
}

/// Reductions by the same part of what the master opened ask for the same of
/// what the follower opened, so scaling the master's volumes changes nothing.
pub proof fn law_reduction_by_ratio(
    route: RouteRule,
    event: TradeEventView,
    binding: MirrorBindingView,
    other_event: TradeEventView,
    other_binding: MirrorBindingView,
    now: i64,
    volume: Double,
)
    requires
        event.action == TradeAction::Reduce && other_event.action == TradeAction::Reduce,
        route.takes(event) && route.takes(other_event),
        !route.stale(event, now) && !route.stale(other_event, now),
        steps::countable(event.volume) && steps::countable(other_event.volume),
        steps::countable(binding.source_open_volume),
        steps::countable(other_binding.source_open_volume),
        event.volume.signed_units() * other_binding.source_open_volume.signed_units()
            == other_event.volume.signed_units() * binding.source_open_volume.signed_units(),
        binding.target_open_volume == other_binding.target_open_volume,
        binding.target_remaining_volume == other_binding.target_remaining_volume,
    ensures
        takes_off(route.planned(event, Some(binding), now), volume) ==> takes_off(
            route.planned(other_event, Some(other_binding), now),
            volume,
        ),
{
    double::lemma_units_increase(0, binding.source_open_volume.magnitude() as nat);
    double::lemma_units_increase(0, other_binding.source_open_volume.magnitude() as nat);
    double::law_equal_ratios(
        event.volume,
        binding.source_open_volume,
        other_event.volume,
        other_binding.source_open_volume,
    );
}

/// Whatever the volumes, a reduction is in proportion as far as numbers carry
/// it: what it asks for, times what the master opened, differs from what the
/// follower opened, times what the master takes off, by three parts in 2^53 at
/// most, and by what lies below the smallest numbers.
pub proof fn law_reduction_is_near_proportion(
    route: RouteRule,
    event: TradeEventView,
    binding: MirrorBindingView,
    now: i64,
)
    requires
        event.action == TradeAction::Reduce,
        route.takes(event),
        !route.stale(event, now),
        steps::countable(event.volume),
        steps::countable(binding.source_open_volume),
        steps::countable(binding.target_open_volume),
        event.volume.quotient(binding.source_open_volume).finite(),
        binding.target_open_volume.product(
            event.volume.quotient(binding.source_open_volume),
        ).finite(),
    ensures
        exists|asked: Double|
            {
                let s = binding.source_open_volume.signed_units();
                let t = binding.target_open_volume.signed_units();
                let e = event.volume.signed_units();
                let one = pow2(1074);
                let off = asked.signed_units() * s - t * e;
                let slack = s * (3 * (asked.signed_units() * one) + 0x40_0000_0000_0000 * one
                    + 0x20_0000_0000_0000 * t);
                &&& takes_off(
                    route.planned(event, Some(binding), now),
                    #[trigger] route.reduced_volume(asked, binding.target_remaining_volume),
                )
                &&& 0x20_0000_0000_0000 * (off * one) <= slack
                &&& -slack <= 0x20_0000_0000_0000 * (off * one)
            },
{
    let big = 0x20_0000_0000_0000int;
    let one = pow2(1074) as int;
    let s = binding.source_open_volume.signed_units();
    let t = binding.target_open_volume.signed_units();
    let e = event.volume.signed_units();
    let ratio = event.volume.quotient(binding.source_open_volume);
    let asked = binding.target_open_volume.product(ratio);
    lemma_pow2_pos(1074);
    double::lemma_units_increase(0, binding.source_open_volume.magnitude() as nat);
    double::lemma_units_increase(0, binding.target_open_volume.magnitude() as nat);
    double::law_quotient_is_nearest(event.volume, binding.source_open_volume);
    double::law_product_is_nearest(binding.target_open_volume, ratio);
    double::lemma_close((e * one) as nat, s as nat);
    let r = ratio.signed_units();
    double::lemma_close((t * r) as nat, one as nat);
    let a = asked.signed_units();
    lemma_near_proportion(a, r, s, t, e, one);
    assert(takes_off(
        route.planned(event, Some(binding), now),
        route.reduced_volume(asked, binding.target_remaining_volume),
    ));
}

proof fn lemma_near_proportion(a: int, r: int, s: int, t: int, e: int, one: int)
    requires
        a >= 0 && r >= 0 && s > 0 && t > 0 && e >= 0 && one > 0,
        0x20_0000_0000_0000 * (r * s) <= 0x20_0000_0000_0000 * (e * one) + r * s
            + 0x20_0000_0000_0000 * s,
        0x20_0000_0000_0000 * (e * one) <= 0x20_0000_0000_0000 * (r * s) + r * s
            + 0x20_0000_0000_0000 * s,
        0x20_0000_0000_0000 * (a * one) <= 0x20_0000_0000_0000 * (t * r) + a * one
            + 0x20_0000_0000_0000 * one,
        0x20_0000_0000_0000 * (t * r) <= 0x20_0000_0000_0000 * (a * one) + a * one
            + 0x20_0000_0000_0000 * one,
    ensures
        ({
            let off = a * s - t * e;
            let slack = s * (3 * (a * one) + 0x40_0000_0000_0000 * one + 0x20_0000_0000_0000 * t);
            &&& 0x20_0000_0000_0000 * (off * one) <= slack
            &&& -slack <= 0x20_0000_0000_0000 * (off * one)
        }),
{
    let x = a * one;
    let y = t * r;
    let off = a * s - t * e;
    let rs = r * s;
    let eo = e * one;
    assert(s * x >= 0 && x >= 0) by (nonlinear_arith)
        requires
            x == a * one,
            a >= 0,
            s > 0,
            one > 0,
    ;
    assert(y <= 2 * x + one);
    // The two errors, each times what the other step multiplies by.
    assert(0x20_0000_0000_0000 * (s * x) <= 0x20_0000_0000_0000 * (s * y) + s * x
        + 0x20_0000_0000_0000 * (s * one)) by (nonlinear_arith)
        requires
            0x20_0000_0000_0000 * x <= 0x20_0000_0000_0000 * y + x + 0x20_0000_0000_0000 * one,
            s > 0,
    ;
    assert(0x20_0000_0000_0000 * (s * y) <= 0x20_0000_0000_0000 * (s * x) + s * x
        + 0x20_0000_0000_0000 * (s * one)) by (nonlinear_arith)
        requires
            0x20_0000_0000_0000 * y <= 0x20_0000_0000_0000 * x + x + 0x20_0000_0000_0000 * one,
            s > 0,
    ;
    assert(0x20_0000_0000_0000 * (t * rs) <= 0x20_0000_0000_0000 * (t * eo) + t * rs
        + 0x20_0000_0000_0000 * (t * s)) by (nonlinear_arith)
        requires
            0x20_0000_0000_0000 * rs <= 0x20_0000_0000_0000 * eo + rs + 0x20_0000_0000_0000 * s,
            t > 0,
    ;
    assert(0x20_0000_0000_0000 * (t * eo) <= 0x20_0000_0000_0000 * (t * rs) + t * rs
        + 0x20_0000_0000_0000 * (t * s)) by (nonlinear_arith)
        requires
            0x20_0000_0000_0000 * eo <= 0x20_0000_0000_0000 * rs + rs + 0x20_0000_0000_0000 * s,
            t > 0,
    ;
    assert(t * rs == s * y) by (nonlinear_arith)
        requires
            rs == r * s,
            y == t * r,
    ;
    assert(s * y <= 2 * (s * x) + s * one) by (nonlinear_arith)
        requires
            y <= 2 * x + one,
            s > 0,
    ;
    assert(off * one == s * x - t * eo) by (nonlinear_arith)
        requires
            off == a * s - t * e,
            x == a * one,
            eo == e * one,
    ;
    assert(s * one >= 0) by (nonlinear_arith)
        requires
            s > 0,
            one > 0,
    ;
    assert(s * (3 * x + 0x40_0000_0000_0000 * one + 0x20_0000_0000_0000 * t) == 3 * (s * x)
        + 0x40_0000_0000_0000 * (s * one) + 0x20_0000_0000_0000 * (t * s)) by (nonlinear_arith);
}

/// Every rule that copies an account is among those that an engine gives for
/// it, and they stand in the order in which they were given.
pub proof fn law_routes_are_complete(routes: Seq<RouteRule>, source: Seq<char>) -> (places: Seq<
    int,
>)
    ensures
        places.len() == routes_from(routes, source).len(),
        forall|i: int|
            0 <= i < places.len() ==> 0 <= #[trigger] places[i] < routes.len()
                && routes[places[i]] == routes_from(routes, source)[i],
        forall|i: int, j: int| 0 <= i < j < places.len() ==> places[i] < places[j],
        forall|j: int|
            0 <= j < routes.len() && (#[trigger] routes[j]).source_account_id@ == source
                ==> places.contains(j),
    decreases routes.len(),
{
    if routes.len() == 0 {
        Seq::empty()
    } else {
        let before = law_routes_are_complete(routes.drop_last(), source);
        let last = routes.len() - 1;
        let all = if routes.last().source_account_id@ == source {
            before.push(last)
        } else {
            before
        };
        assert forall|j: int|
            0 <= j < routes.len() && (
            #[trigger] routes[j]).source_account_id@ == source implies all.contains(j) by {
            if j < last {
                assert(routes.drop_last()[j] == routes[j]);
                let i = choose|i: int| 0 <= i < before.len() && before[i] == j;
                assert(all[i] == j);
            } else {
                assert(all[all.len() - 1] == j);
            }
        }
        all
    }
}

/// A rule is refused just where it names no route, no source or no target,
/// where it copies an account to itself, or where it can size nothing: its
/// largest volume or its step is not positive, its least volume is negative, or
/// its size is not positive where it has one.
pub proof fn law_rule_is_checked(route: RouteRule)
    ensures
        route.fault() is None <==> {
            &&& route.id@.len() > 0
            &&& route.source_account_id@.len() > 0
            &&& route.target_account_id@.len() > 0
            &&& route.source_account_id@ != route.target_account_id@
            &&& !route.max_volume.le(Double { bits: 0 })
            &&& !route.volume_step.le(Double { bits: 0 })
            &&& !route.min_volume.lt(Double { bits: 0 })
            &&& route.sizing == SizingMode::Mirror || !route.size_value.le(Double { bits: 0 })
        },
        route.fault() matches Some(fault) ==> match fault {
            RouteErrorView::InvalidRule(id) => id == route.id@ && (id.len() == 0
                || route.source_account_id@.len() == 0 || route.target_account_id@.len() == 0),
            RouteErrorView::SelfRoute(id) => id == route.id@ && route.source_account_id@
                == route.target_account_id@,
            RouteErrorView::InvalidVolumePolicy(id) => id == route.id@,
            _ => false,
        },
{
}

/// Rules are accepted just where each is, and else the first fault is told.
pub proof fn law_rules_are_checked(routes: Seq<RouteRule>)
    ensures
        rules_fault(routes) is None <==> forall|i: int|
            0 <= i < routes.len() ==> (#[trigger] routes[i]).fault() is None,
        rules_fault(routes) is Some ==> exists|i: int|
            {
                &&& 0 <= i < routes.len()
                &&& (#[trigger] routes[i]).fault() == rules_fault(routes)
                &&& forall|j: int| 0 <= j < i ==> (#[trigger] routes[j]).fault() is None
            },
    decreases routes.len(),
{
    if routes.len() > 0 {
        let fewer = routes.drop_last();
        law_rules_are_checked(fewer);
        assert(forall|i: int| 0 <= i < fewer.len() ==> #[trigger] fewer[i] == routes[i]);
        if rules_fault(fewer) is Some {
            let i = choose|i: int|
                {
                    &&& 0 <= i < fewer.len()
                    &&& (#[trigger] fewer[i]).fault() == rules_fault(fewer)
                    &&& forall|j: int| 0 <= j < i ==> (#[trigger] fewer[j]).fault() is None
                };
            assert(routes[i].fault() == rules_fault(routes));
            assert forall|j: int| 0 <= j < i implies (#[trigger] routes[j]).fault() is None by {
                assert(fewer[j].fault() is None);
            }
        } else {
            assert forall|j: int| 0 <= j < fewer.len() implies (
            #[trigger] routes[j]).fault() is None by {
                assert(fewer[j].fault() is None);
            }
            let n = routes.len() - 1;
            assert(routes[n] == routes.last());
        }
    }
}

/// The name of a command tells the event, the route and the account apart: two
/// names are the same only for the same three, or where the digests of two
/// different messages begin with the same half.
pub proof fn law_command_names_differ(
    event: Seq<char>,
    route: Seq<char>,
    account: Seq<char>,
    other_event: Seq<char>,
    other_route: Seq<char>,
    other_account: Seq<char>,
)
    requires
        digest::without_zero(event) && digest::without_zero(route),
        digest::without_zero(other_event) && digest::without_zero(other_route),
        command_name(event, route, account) == command_name(
            other_event,
            other_route,
            other_account,
        ),
    ensures
        (event == other_event && route == other_route && account == other_account) || ({
            let one = digest::message_of("copierr:v1"@, event, route, account);
            let two = digest::message_of("copierr:v1"@, other_event, other_route, other_account);
            one != two && digest::sha256_digest(one).take(16) == digest::sha256_digest(two).take(
                16,
            )
        }),
{
    digest::law_fingerprints_differ(
        "copierr:v1"@,
        (event, route, account),
        (other_event, other_route, other_account),
    );
}

/// The words for a fault end in the name of the route that has it.
pub proof fn law_words_name_route(error: RouteErrorView)
    ensures
        ({
            let id = match error {
                RouteErrorView::InvalidRule(id) => id,
                RouteErrorView::SelfRoute(id) => id,
                RouteErrorView::InvalidVolumePolicy(id) => id,
                RouteErrorView::MissingMirror(id) => id,
                RouteErrorView::InvalidMirror(id) => id,
            };
            error.words().len() >= id.len() && error.words().skip(error.words().len() - id.len())
                == id
        }),
{
    let id = match error {
        RouteErrorView::InvalidRule(id) => id,
        RouteErrorView::SelfRoute(id) => id,
        RouteErrorView::InvalidVolumePolicy(id) => id,
        RouteErrorView::MissingMirror(id) => id,
        RouteErrorView::InvalidMirror(id) => id,
    };
    assert(error.words().skip(error.words().len() - id.len()) =~= id);
}

} // verus!
