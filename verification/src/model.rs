//! What is traded: platforms, sides, actions, events, commands,
//! acknowledgements and the bindings between orders.

use crate::decimal::write_double;
use crate::double::Double;
use crate::text::{joined, same, to_lower};
use crate::{decimal, text};
use vstd::prelude::*;
use vstd::string::*;

verus! {

/// A result, seen through the views of what it holds.
pub open spec fn outcome<T: View, E: View>(r: Result<T, E>) -> Result<T::V, E::V> {
    match r {
        Ok(value) => Ok(value@),
        Err(error) => Err(error@),
    }
}

/// Where an account is held.
#[derive(Debug, Clone, Copy, PartialEq, Eq, Hash, Structural)]
pub enum Platform {
    Trinity,
    Mt4,
    Mt5,
    CTrader,
}

impl View for Platform {
    type V = Platform;

    open spec fn view(&self) -> Platform {
        *self
    }
}

impl Platform {
    /// The name of a platform.
    pub open spec fn name(self) -> Seq<char> {
        match self {
            Platform::Trinity => "trinity"@,
            Platform::Mt4 => "mt4"@,
            Platform::Mt5 => "mt5"@,
            Platform::CTrader => "ctrader"@,
        }
    }

    /// The platform that a text names, in any case of its letters.
    #[verifier::opaque]
    pub open spec fn named(text: Seq<char>) -> Result<Platform, ModelErrorView> {
        let name = text::lower(text);
        if name == "trinity"@ || name == "trinityr"@ {
            Ok(Platform::Trinity)
        } else if name == "mt4"@ {
            Ok(Platform::Mt4)
        } else if name == "mt5"@ {
            Ok(Platform::Mt5)
        } else if name == "ctrader"@ || name == "c_trader"@ {
            Ok(Platform::CTrader)
        } else {
            Err(ModelErrorView::InvalidPlatform(text))
        }
    }

    /// The name of this platform.
    pub fn to_string(&self) -> (r: String)
        ensures
            r@ == self.name(),
    {
        match self {
            Platform::Trinity => "trinity".to_owned(),
            Platform::Mt4 => "mt4".to_owned(),
            Platform::Mt5 => "mt5".to_owned(),
            Platform::CTrader => "ctrader".to_owned(),
        }
    }

    /// Reads the name of a platform.
    pub fn from_str(value: &str) -> (r: Result<Platform, ModelError>)
        ensures
            outcome(r) == Platform::named(value@),
    {
        reveal(Platform::named);
        let name = to_lower(value);
        if same(name.as_str(), "trinity") || same(name.as_str(), "trinityr") {
            Ok(Platform::Trinity)
        } else if same(name.as_str(), "mt4") {
            Ok(Platform::Mt4)
        } else if same(name.as_str(), "mt5") {
            Ok(Platform::Mt5)
        } else if same(name.as_str(), "ctrader") || same(name.as_str(), "c_trader") {
            Ok(Platform::CTrader)
        } else {
            Err(ModelError::InvalidPlatform(value.to_owned()))
        }
    }
}

/// The direction of a position.
#[derive(Debug, Clone, Copy, PartialEq, Eq, Hash, Structural)]
pub enum Side {
    Buy,
    Sell,
}

impl View for Side {
    type V = Side;

    open spec fn view(&self) -> Side {
        *self
    }
}

impl Side {
    /// The name of a side.
    pub open spec fn name(self) -> Seq<char> {
        match self {
            Side::Buy => "buy"@,
            Side::Sell => "sell"@,
        }
    }

    /// The side that a text names, in any case of its letters.
    #[verifier::opaque]
    pub open spec fn named(text: Seq<char>) -> Result<Side, ModelErrorView> {
        let name = text::lower(text);
        if name == "buy"@ || name == "long"@ {
            Ok(Side::Buy)
        } else if name == "sell"@ || name == "short"@ {
            Ok(Side::Sell)
        } else {
            Err(ModelErrorView::InvalidSide(text))
        }
    }

    /// The side across.
    pub open spec fn opposite(self) -> Side {
        match self {
            Side::Buy => Side::Sell,
            Side::Sell => Side::Buy,
        }
    }

    /// The side across from this one.
    pub fn reversed(self) -> (r: Side)
        ensures
            r == self.opposite(),
    {
        match self {
            Side::Buy => Side::Sell,
            Side::Sell => Side::Buy,
        }
    }

    /// The name of this side.
    pub fn to_string(&self) -> (r: String)
        ensures
            r@ == self.name(),
    {
        match self {
            Side::Buy => "buy".to_owned(),
            Side::Sell => "sell".to_owned(),
        }
    }

    /// Reads the name of a side.
    pub fn from_str(value: &str) -> (r: Result<Side, ModelError>)
        ensures
            outcome(r) == Side::named(value@),
    {
        reveal(Side::named);
        let name = to_lower(value);
        if same(name.as_str(), "buy") || same(name.as_str(), "long") {
            Ok(Side::Buy)
        } else if same(name.as_str(), "sell") || same(name.as_str(), "short") {
            Ok(Side::Sell)
        } else {
            Err(ModelError::InvalidSide(value.to_owned()))
        }
    }
}

/// What happens to a position.
#[derive(Debug, Clone, Copy, PartialEq, Eq, Hash, Structural)]
pub enum TradeAction {
    Open,
    Modify,
    Reduce,
    Close,
}

impl View for TradeAction {
    type V = TradeAction;

    open spec fn view(&self) -> TradeAction {
        *self
    }
}

impl TradeAction {
    /// The name of an action.
    pub open spec fn name(self) -> Seq<char> {
        match self {
            TradeAction::Open => "open"@,
            TradeAction::Modify => "modify"@,
            TradeAction::Reduce => "reduce"@,
            TradeAction::Close => "close"@,
        }
    }

    /// The action that a text names, in any case of its letters.
    #[verifier::opaque]
    pub open spec fn named(text: Seq<char>) -> Result<TradeAction, ModelErrorView> {
        let name = text::lower(text);
        if name == "open"@ {
            Ok(TradeAction::Open)
        } else if name == "modify"@ {
            Ok(TradeAction::Modify)
        } else if name == "reduce"@ || name == "partial_close"@ {
            Ok(TradeAction::Reduce)
        } else if name == "close"@ {
            Ok(TradeAction::Close)
        } else {
            Err(ModelErrorView::InvalidAction(text))
        }
    }

    /// The name of this action.
    pub fn to_string(&self) -> (r: String)
        ensures
            r@ == self.name(),
    {
        match self {
            TradeAction::Open => "open".to_owned(),
            TradeAction::Modify => "modify".to_owned(),
            TradeAction::Reduce => "reduce".to_owned(),
            TradeAction::Close => "close".to_owned(),
        }
    }

    /// Reads the name of an action.
    pub fn from_str(value: &str) -> (r: Result<TradeAction, ModelError>)
        ensures
            outcome(r) == TradeAction::named(value@),
    {
        reveal(TradeAction::named);
        let name = to_lower(value);
        if same(name.as_str(), "open") {
            Ok(TradeAction::Open)
        } else if same(name.as_str(), "modify") {
            Ok(TradeAction::Modify)
        } else if same(name.as_str(), "reduce") || same(name.as_str(), "partial_close") {
            Ok(TradeAction::Reduce)
        } else if same(name.as_str(), "close") {
            Ok(TradeAction::Close)
        } else {
            Err(ModelError::InvalidAction(value.to_owned()))
        }
    }
}

/// What became of a command.
#[derive(Debug, Clone, Copy, PartialEq, Eq, Structural)]
pub enum AckStatus {
    Accepted,
    Filled,
    Rejected,
    Unknown,
}

impl View for AckStatus {
    type V = AckStatus;

    open spec fn view(&self) -> AckStatus {
        *self
    }
}

impl AckStatus {
    /// The name of a status.
    pub open spec fn name(self) -> Seq<char> {
        match self {
            AckStatus::Accepted => "accepted"@,
            AckStatus::Filled => "filled"@,
            AckStatus::Rejected => "rejected"@,
            AckStatus::Unknown => "unknown"@,
        }
    }

    /// The status that a text names, in any case of its letters.
    #[verifier::opaque]
    pub open spec fn named(text: Seq<char>) -> Result<AckStatus, ModelErrorView> {
        let name = text::lower(text);
        if name == "accepted"@ {
            Ok(AckStatus::Accepted)
        } else if name == "filled"@ {
            Ok(AckStatus::Filled)
        } else if name == "rejected"@ {
            Ok(AckStatus::Rejected)
        } else if name == "unknown"@ {
            Ok(AckStatus::Unknown)
        } else {
            Err(ModelErrorView::InvalidAckStatus(text))
        }
    }

    /// The name of this status.
    pub fn to_string(&self) -> (r: String)
        ensures
            r@ == self.name(),
    {
        match self {
            AckStatus::Accepted => "accepted".to_owned(),
            AckStatus::Filled => "filled".to_owned(),
            AckStatus::Rejected => "rejected".to_owned(),
            AckStatus::Unknown => "unknown".to_owned(),
        }
    }

    /// Reads the name of a status.
    pub fn from_str(value: &str) -> (r: Result<AckStatus, ModelError>)
        ensures
            outcome(r) == AckStatus::named(value@),
    {
        reveal(AckStatus::named);
        let name = to_lower(value);
        if same(name.as_str(), "accepted") {
            Ok(AckStatus::Accepted)
        } else if same(name.as_str(), "filled") {
            Ok(AckStatus::Filled)
        } else if same(name.as_str(), "rejected") {
            Ok(AckStatus::Rejected)
        } else if same(name.as_str(), "unknown") {
            Ok(AckStatus::Unknown)
        } else {
            Err(ModelError::InvalidAckStatus(value.to_owned()))
        }
    }
}

/// Every name reads back as what it names.
pub proof fn law_names_read_back(
    platform: Platform,
    side: Side,
    action: TradeAction,
    status: AckStatus,
)
    ensures
        Platform::named(platform.name()) == Ok::<_, ModelErrorView>(platform),
        Side::named(side.name()) == Ok::<_, ModelErrorView>(side),
        TradeAction::named(action.name()) == Ok::<_, ModelErrorView>(action),
        AckStatus::named(status.name()) == Ok::<_, ModelErrorView>(status),
{
    lemma_platform_name(platform);
    lemma_side_name(side);
    lemma_action_name(action);
    lemma_status_name(status);
}

proof fn lemma_platform_name(platform: Platform)
    ensures
        Platform::named(platform.name()) == Ok::<_, ModelErrorView>(platform),
{
    reveal(Platform::named);
    reveal_strlit("trinity");
    reveal_strlit("trinityr");
    reveal_strlit("mt4");
    reveal_strlit("mt5");
    reveal_strlit("ctrader");
    reveal_strlit("c_trader");
    assert(text::lower(platform.name()) =~= platform.name());
    assert("mt4"@[2] != "mt5"@[2]);
    assert("trinity"@[0] != "ctrader"@[0]);
}

proof fn lemma_side_name(side: Side)
    ensures
        Side::named(side.name()) == Ok::<_, ModelErrorView>(side),
{
    reveal(Side::named);
    reveal_strlit("buy");
    reveal_strlit("long");
    reveal_strlit("sell");
    reveal_strlit("short");
    assert(text::lower(side.name()) =~= side.name());
    assert("sell"@[0] != "long"@[0]);
}

proof fn lemma_action_name(action: TradeAction)
    ensures
        TradeAction::named(action.name()) == Ok::<_, ModelErrorView>(action),
{
    reveal(TradeAction::named);
    reveal_strlit("open");
    reveal_strlit("modify");
    reveal_strlit("reduce");
    reveal_strlit("partial_close");
    reveal_strlit("close");
    assert(text::lower(action.name()) =~= action.name());
    assert("modify"@[0] != "reduce"@[0]);
}

proof fn lemma_status_name(status: AckStatus)
    ensures
        AckStatus::named(status.name()) == Ok::<_, ModelErrorView>(status),
{
    reveal(AckStatus::named);
    reveal_strlit("accepted");
    reveal_strlit("filled");
    reveal_strlit("rejected");
    reveal_strlit("unknown");
    assert(text::lower(status.name()) =~= status.name());
    assert("accepted"@[0] != "rejected"@[0]);
}

/// A side turned around twice is that side.
pub proof fn law_reversed_twice(side: Side)
    ensures
        side.opposite().opposite() == side,
        side.opposite() != side,
{
}

/// A change of a position on an account that others follow.
#[derive(Debug, PartialEq)]
pub struct TradeEvent {
    pub event_id: String,
    pub source_account_id: String,
    pub platform: Platform,
    pub action: TradeAction,
    pub source_order_id: String,
    pub symbol: String,
    pub side: Option<Side>,
    pub volume: Double,
    pub remaining_volume: Option<Double>,
    pub price: Option<Double>,
    pub stop_loss: Option<Double>,
    pub take_profit: Option<Double>,
    pub timestamp_unix_ns: i64,
    pub origin_command_id: Option<String>,
}

/// What an event holds.
pub struct TradeEventView {
    pub event_id: Seq<char>,
    pub source_account_id: Seq<char>,
    pub platform: Platform,
    pub action: TradeAction,
    pub source_order_id: Seq<char>,
    pub symbol: Seq<char>,
    pub side: Option<Side>,
    pub volume: Double,
    pub remaining_volume: Option<Double>,
    pub price: Option<Double>,
    pub stop_loss: Option<Double>,
    pub take_profit: Option<Double>,
    pub timestamp_unix_ns: i64,
    pub origin_command_id: Option<Seq<char>>,
}

impl View for TradeEvent {
    type V = TradeEventView;

    open spec fn view(&self) -> TradeEventView {
        TradeEventView {
            event_id: self.event_id@,
            source_account_id: self.source_account_id@,
            platform: self.platform,
            action: self.action,
            source_order_id: self.source_order_id@,
            symbol: self.symbol@,
            side: self.side,
            volume: self.volume,
            remaining_volume: self.remaining_volume,
            price: self.price,
            stop_loss: self.stop_loss,
            take_profit: self.take_profit,
            timestamp_unix_ns: self.timestamp_unix_ns,
            origin_command_id: self.origin_command_id.deep_view(),
        }
    }
}

impl TradeEventView {
    /// What is wrong with an event, if anything: the first field that is
    /// missing, or a volume of an opening or a reduction that is not positive.
    pub open spec fn fault(self) -> Option<ModelErrorView> {
        if self.event_id.len() == 0 {
            Some(ModelErrorView::Missing("event_id"@))
        } else if self.source_account_id.len() == 0 {
            Some(ModelErrorView::Missing("source_account_id"@))
        } else if self.source_order_id.len() == 0 {
            Some(ModelErrorView::Missing("source_order_id"@))
        } else if self.symbol.len() == 0 {
            Some(ModelErrorView::Missing("symbol"@))
        } else if (self.action == TradeAction::Open || self.action == TradeAction::Reduce)
            && self.volume.le(Double { bits: 0 }) {
            Some(ModelErrorView::InvalidVolume(self.volume))
        } else if self.action == TradeAction::Open && self.side is None {
            Some(ModelErrorView::Missing("side"@))
        } else {
            None
        }
    }
}

impl TradeEvent {
    /// Checks that an event can be copied.
    pub fn validate(&self) -> (r: Result<(), ModelError>)
        ensures
            match self@.fault() {
                Some(fault) => r is Err && r->Err_0@ == fault,
                None => r is Ok,
            },
    {
        if self.event_id.as_str().is_empty() {
            return Err(ModelError::Missing("event_id"));
        }
        if self.source_account_id.as_str().is_empty() {
            return Err(ModelError::Missing("source_account_id"));
        }
        if self.source_order_id.as_str().is_empty() {
            return Err(ModelError::Missing("source_order_id"));
        }
        if self.symbol.as_str().is_empty() {
            return Err(ModelError::Missing("symbol"));
        }
        if (self.action == TradeAction::Open || self.action == TradeAction::Reduce)
            && self.volume.at_most(Double { bits: 0 }) {
            return Err(ModelError::InvalidVolume(self.volume));
        }
        if self.action == TradeAction::Open && self.side.is_none() {
            return Err(ModelError::Missing("side"));
        }
        Ok(())
    }
}

impl Clone for TradeEvent {
    fn clone(&self) -> (r: Self)
        ensures
            r@ == self@,
    {
        TradeEvent {
            event_id: self.event_id.clone(),
            source_account_id: self.source_account_id.clone(),
            platform: self.platform,
            action: self.action,
            source_order_id: self.source_order_id.clone(),
            symbol: self.symbol.clone(),
            side: self.side,
            volume: self.volume,
            remaining_volume: self.remaining_volume,
            price: self.price,
            stop_loss: self.stop_loss,
            take_profit: self.take_profit,
            timestamp_unix_ns: self.timestamp_unix_ns,
            origin_command_id: copy_text(&self.origin_command_id),
        }
    }
}

/// A copy of a text that may be absent.
pub fn copy_text(value: &Option<String>) -> (r: Option<String>)
    ensures
        r.deep_view() == value.deep_view(),
{
    match value {
        Some(inner) => Some(inner.clone()),
        None => None,
    }
}

/// What a following account is to do.
#[derive(Debug, PartialEq)]
pub struct ExecutionCommand {
    pub command_id: String,
    pub origin_event_id: String,
    pub route_id: String,
    pub source_account_id: String,
    pub source_order_id: String,
    pub target_account_id: String,
    pub action: TradeAction,
    pub target_order_id: Option<String>,
    pub symbol: String,
    pub side: Option<Side>,
    pub volume: Double,
    pub source_volume: Double,
    pub source_remaining_volume: Option<Double>,
    pub price: Option<Double>,
    pub stop_loss: Option<Double>,
    pub take_profit: Option<Double>,
    pub created_unix_ns: i64,
}

/// What a command holds.
pub struct ExecutionCommandView {
    pub command_id: Seq<char>,
    pub origin_event_id: Seq<char>,
    pub route_id: Seq<char>,
    pub source_account_id: Seq<char>,
    pub source_order_id: Seq<char>,
    pub target_account_id: Seq<char>,
    pub action: TradeAction,
    pub target_order_id: Option<Seq<char>>,
    pub symbol: Seq<char>,
    pub side: Option<Side>,
    pub volume: Double,
    pub source_volume: Double,
    pub source_remaining_volume: Option<Double>,
    pub price: Option<Double>,
    pub stop_loss: Option<Double>,
    pub take_profit: Option<Double>,
    pub created_unix_ns: i64,
}

impl View for ExecutionCommand {
    type V = ExecutionCommandView;

    open spec fn view(&self) -> ExecutionCommandView {
        ExecutionCommandView {
            command_id: self.command_id@,
            origin_event_id: self.origin_event_id@,
            route_id: self.route_id@,
            source_account_id: self.source_account_id@,
            source_order_id: self.source_order_id@,
            target_account_id: self.target_account_id@,
            action: self.action,
            target_order_id: self.target_order_id.deep_view(),
            symbol: self.symbol@,
            side: self.side,
            volume: self.volume,
            source_volume: self.source_volume,
            source_remaining_volume: self.source_remaining_volume,
            price: self.price,
            stop_loss: self.stop_loss,
            take_profit: self.take_profit,
            created_unix_ns: self.created_unix_ns,
        }
    }
}

impl Clone for ExecutionCommand {
    fn clone(&self) -> (r: Self)
        ensures
            r@ == self@,
    {
        ExecutionCommand {
            command_id: self.command_id.clone(),
            origin_event_id: self.origin_event_id.clone(),
            route_id: self.route_id.clone(),
            source_account_id: self.source_account_id.clone(),
            source_order_id: self.source_order_id.clone(),
            target_account_id: self.target_account_id.clone(),
            action: self.action,
            target_order_id: copy_text(&self.target_order_id),
            symbol: self.symbol.clone(),
            side: self.side,
            volume: self.volume,
            source_volume: self.source_volume,
            source_remaining_volume: self.source_remaining_volume,
            price: self.price,
            stop_loss: self.stop_loss,
            take_profit: self.take_profit,
            created_unix_ns: self.created_unix_ns,
        }
    }
}

/// What an account reports of a command.
#[derive(Debug, PartialEq)]
pub struct ExecutionAck {
    pub command_id: String,
    pub account_id: String,
    pub status: AckStatus,
    pub external_id: Option<String>,
    pub timestamp_unix_ns: i64,
    pub message: Option<String>,
}

/// What an acknowledgement holds.
pub struct ExecutionAckView {
    pub command_id: Seq<char>,
    pub account_id: Seq<char>,
    pub status: AckStatus,
    pub external_id: Option<Seq<char>>,
    pub timestamp_unix_ns: i64,
    pub message: Option<Seq<char>>,
}

impl View for ExecutionAck {
    type V = ExecutionAckView;

    open spec fn view(&self) -> ExecutionAckView {
        ExecutionAckView {
            command_id: self.command_id@,
            account_id: self.account_id@,
            status: self.status,
            external_id: self.external_id.deep_view(),
            timestamp_unix_ns: self.timestamp_unix_ns,
            message: self.message.deep_view(),
        }
    }
}

impl Clone for ExecutionAck {
    fn clone(&self) -> (r: Self)
        ensures
            r@ == self@,
    {
        ExecutionAck {
            command_id: self.command_id.clone(),
            account_id: self.account_id.clone(),
            status: self.status,
            external_id: copy_text(&self.external_id),
            timestamp_unix_ns: self.timestamp_unix_ns,
            message: copy_text(&self.message),
        }
    }
}

/// An order of a followed account and the order that follows it.
#[derive(Debug, PartialEq)]
pub struct MirrorBinding {
    pub route_id: String,
    pub source_account_id: String,
    pub source_order_id: String,
    pub target_account_id: String,
    pub target_order_id: String,
    pub source_open_volume: Double,
    pub source_remaining_volume: Double,
    pub target_open_volume: Double,
    pub target_remaining_volume: Double,
}

/// What a binding holds.
pub struct MirrorBindingView {
    pub route_id: Seq<char>,
    pub source_account_id: Seq<char>,
    pub source_order_id: Seq<char>,
    pub target_account_id: Seq<char>,
    pub target_order_id: Seq<char>,
    pub source_open_volume: Double,
    pub source_remaining_volume: Double,
    pub target_open_volume: Double,
    pub target_remaining_volume: Double,
}

impl View for MirrorBinding {
    type V = MirrorBindingView;

    open spec fn view(&self) -> MirrorBindingView {
        MirrorBindingView {
            route_id: self.route_id@,
            source_account_id: self.source_account_id@,
            source_order_id: self.source_order_id@,
            target_account_id: self.target_account_id@,
            target_order_id: self.target_order_id@,
            source_open_volume: self.source_open_volume,
            source_remaining_volume: self.source_remaining_volume,
            target_open_volume: self.target_open_volume,
            target_remaining_volume: self.target_remaining_volume,
        }
    }
}

/// The character between the parts of a key.
pub open spec fn separator() -> char {
    '\u{1f}'
}

/// The key under which the order that follows another is found.
pub open spec fn mirror_key(
    source_account_id: Seq<char>,
    source_order_id: Seq<char>,
    target_account_id: Seq<char>,
) -> Seq<char> {
    source_account_id + seq![separator()] + source_order_id + seq![separator()] + target_account_id
}

impl MirrorBindingView {
    /// The key under which a binding is kept.
    pub open spec fn key(self) -> Seq<char> {
        mirror_key(self.source_account_id, self.source_order_id, self.target_account_id)
    }
}

impl MirrorBinding {
    /// The key under which the order that follows another is found.
    pub fn key(
        source_account_id: &str,
        source_order_id: &str,
        target_account_id: &str,
    ) -> (r: String)
        ensures
            r@ == mirror_key(source_account_id@, source_order_id@, target_account_id@),
    {
        let mut out = source_account_id.to_owned();
        out.push('\u{1f}');
        out.append(source_order_id);
        out.push('\u{1f}');
        out.append(target_account_id);
        assert(out@ =~= mirror_key(source_account_id@, source_order_id@, target_account_id@));
        out
    }

    /// The key under which this binding is kept.
    pub fn binding_key(&self) -> (r: String)
        ensures
            r@ == self@.key(),
    {
        Self::key(
            self.source_account_id.as_str(),
            self.source_order_id.as_str(),
            self.target_account_id.as_str(),
        )
    }
}

impl Clone for MirrorBinding {
    fn clone(&self) -> (r: Self)
        ensures
            r@ == self@,
    {
        MirrorBinding {
            route_id: self.route_id.clone(),
            source_account_id: self.source_account_id.clone(),
            source_order_id: self.source_order_id.clone(),
            target_account_id: self.target_account_id.clone(),
            target_order_id: self.target_order_id.clone(),
            source_open_volume: self.source_open_volume,
            source_remaining_volume: self.source_remaining_volume,
            target_open_volume: self.target_open_volume,
            target_remaining_volume: self.target_remaining_volume,
        }
    }
}

/// Two texts in front of the first separator are the same where the whole is.
proof fn lemma_first_part(a: Seq<char>, b: Seq<char>, x: Seq<char>, y: Seq<char>)
    requires
        a + seq![separator()] + x == b + seq![separator()] + y,
        !a.contains(separator()),
        !b.contains(separator()),
    ensures
        a == b,
        x == y,
{
    let whole = a + seq![separator()] + x;
    let other = b + seq![separator()] + y;
    assert(whole[a.len() as int] == separator());
    assert(other[b.len() as int] == separator());
    if a.len() < b.len() {
        assert(other[a.len() as int] == b[a.len() as int]);
    }
    if b.len() < a.len() {
        assert(whole[b.len() as int] == a[b.len() as int]);
    }
    assert(whole.take(a.len() as int) =~= a);
    assert(other.take(b.len() as int) =~= b);
    assert(whole.skip((a.len() + 1) as int) =~= x);
    assert(other.skip((b.len() + 1) as int) =~= y);
}

/// Two keys are the same only for the same order and the same account that
/// follows, where the source account and the order are free of the separator.
pub proof fn law_mirror_keys_differ(
    account: Seq<char>,
    order: Seq<char>,
    target: Seq<char>,
    other_account: Seq<char>,
    other_order: Seq<char>,
    other_target: Seq<char>,
)
    requires
        !account.contains(separator()),
        !order.contains(separator()),
        !other_account.contains(separator()),
        !other_order.contains(separator()),
        mirror_key(account, order, target) == mirror_key(other_account, other_order, other_target),
    ensures
        account == other_account,
        order == other_order,
        target == other_target,
{
    let rest = order + seq![separator()] + target;
    let other_rest = other_order + seq![separator()] + other_target;
    assert(mirror_key(account, order, target) =~= account + seq![separator()] + rest);
    assert(mirror_key(other_account, other_order, other_target) =~= other_account
        + seq![separator()] + other_rest);
    lemma_first_part(account, other_account, rest, other_rest);
    lemma_first_part(order, other_order, target, other_target);
}

/// What is wrong with a value of the model.
#[derive(Debug)]
pub enum ModelError {
    Missing(&'static str),
    InvalidPlatform(String),
    InvalidSide(String),
    InvalidAction(String),
    InvalidAckStatus(String),
    InvalidVolume(Double),
}

/// What an error of the model holds.
pub enum ModelErrorView {
    Missing(Seq<char>),
    InvalidPlatform(Seq<char>),
    InvalidSide(Seq<char>),
    InvalidAction(Seq<char>),
    InvalidAckStatus(Seq<char>),
    InvalidVolume(Double),
}

impl View for ModelError {
    type V = ModelErrorView;

    open spec fn view(&self) -> ModelErrorView {
        match self {
            ModelError::Missing(name) => ModelErrorView::Missing(name@),
            ModelError::InvalidPlatform(value) => ModelErrorView::InvalidPlatform(value@),
            ModelError::InvalidSide(value) => ModelErrorView::InvalidSide(value@),
            ModelError::InvalidAction(value) => ModelErrorView::InvalidAction(value@),
            ModelError::InvalidAckStatus(value) => ModelErrorView::InvalidAckStatus(value@),
            ModelError::InvalidVolume(value) => ModelErrorView::InvalidVolume(*value),
        }
    }
}

impl ModelErrorView {
    /// The error in words.
    pub open spec fn words(self) -> Seq<char> {
        match self {
            ModelErrorView::Missing(name) => "missing required field: "@ + name,
            ModelErrorView::InvalidPlatform(value) => "invalid platform: "@ + value,
            ModelErrorView::InvalidSide(value) => "invalid side: "@ + value,
            ModelErrorView::InvalidAction(value) => "invalid trade action: "@ + value,
            ModelErrorView::InvalidAckStatus(value) => "invalid acknowledgement status: "@ + value,
            ModelErrorView::InvalidVolume(value) => "invalid volume: "@ + decimal::double_text(
                value,
            ),
        }
    }
}

impl ModelError {
    /// The error in words.
    pub fn to_string(&self) -> (r: String)
        ensures
            r@ == self@.words(),
    {
        match self {
            ModelError::Missing(name) => joined("missing required field: ", name),
            ModelError::InvalidPlatform(value) => joined("invalid platform: ", value.as_str()),
            ModelError::InvalidSide(value) => joined("invalid side: ", value.as_str()),
            ModelError::InvalidAction(value) => joined("invalid trade action: ", value.as_str()),
            ModelError::InvalidAckStatus(value) => joined(
                "invalid acknowledgement status: ",
                value.as_str(),
            ),
            ModelError::InvalidVolume(value) => {
                let number = write_double(*value);
                joined("invalid volume: ", number.as_str())
            },
        }
    }
}

/// An event can be copied just where it has a name, an account, an order and a
/// symbol, where an opening or a reduction has a volume that is not zero or
/// less, and where an opening has a side. What is wrong is told as it is.
pub proof fn law_event_is_checked(event: TradeEventView)
    ensures
        event.fault() is None <==> {
            &&& event.event_id.len() > 0
            &&& event.source_account_id.len() > 0
            &&& event.source_order_id.len() > 0
            &&& event.symbol.len() > 0
            &&& event.action == TradeAction::Open || event.action == TradeAction::Reduce
                ==> !event.volume.le(Double { bits: 0 })
            &&& event.action == TradeAction::Open ==> event.side is Some
        },
        event.fault() matches Some(fault) ==> match fault {
            ModelErrorView::Missing(name) => {
                ||| name == "event_id"@ && event.event_id.len() == 0
                ||| name == "source_account_id"@ && event.source_account_id.len() == 0
                ||| name == "source_order_id"@ && event.source_order_id.len() == 0
                ||| name == "symbol"@ && event.symbol.len() == 0
                ||| name == "side"@ && event.side is None && event.action == TradeAction::Open
            },
            ModelErrorView::InvalidVolume(volume) => volume == event.volume && volume.le(
                Double { bits: 0 },
            ),
            _ => false,
        },
{
}

/// Names are read in any case of their letters, with the other spellings that
/// there are, and nothing else is a name.
pub proof fn law_names_are_known(name: Seq<char>)
    ensures
        ({
            let small = text::lower(name);
            &&& Platform::named(name) == Ok::<_, ModelErrorView>(Platform::Trinity) <==> small
                == "trinity"@ || small == "trinityr"@
            &&& Platform::named(name) == Ok::<_, ModelErrorView>(Platform::Mt4) <==> small
                == "mt4"@
            &&& Platform::named(name) == Ok::<_, ModelErrorView>(Platform::Mt5) <==> small
                == "mt5"@
            &&& Platform::named(name) == Ok::<_, ModelErrorView>(Platform::CTrader) <==> small
                == "ctrader"@ || small == "c_trader"@
            &&& Platform::named(name) matches Err(error) ==> error
                == ModelErrorView::InvalidPlatform(name)
            &&& Side::named(name) == Ok::<_, ModelErrorView>(Side::Buy) <==> small == "buy"@
                || small == "long"@
            &&& Side::named(name) == Ok::<_, ModelErrorView>(Side::Sell) <==> small == "sell"@
                || small == "short"@
            &&& Side::named(name) matches Err(error) ==> error == ModelErrorView::InvalidSide(name)
            &&& TradeAction::named(name) == Ok::<_, ModelErrorView>(TradeAction::Open) <==> small
                == "open"@
            &&& TradeAction::named(name) == Ok::<_, ModelErrorView>(TradeAction::Modify) <==> small
                == "modify"@
            &&& TradeAction::named(name) == Ok::<_, ModelErrorView>(TradeAction::Reduce) <==> small
                == "reduce"@ || small == "partial_close"@
            &&& TradeAction::named(name) == Ok::<_, ModelErrorView>(TradeAction::Close) <==> small
                == "close"@
            &&& TradeAction::named(name) matches Err(error) ==> error
                == ModelErrorView::InvalidAction(name)
            &&& AckStatus::named(name) == Ok::<_, ModelErrorView>(AckStatus::Accepted) <==> small
                == "accepted"@
            &&& AckStatus::named(name) == Ok::<_, ModelErrorView>(AckStatus::Filled) <==> small
                == "filled"@
            &&& AckStatus::named(name) == Ok::<_, ModelErrorView>(AckStatus::Rejected) <==> small
                == "rejected"@
            &&& AckStatus::named(name) == Ok::<_, ModelErrorView>(AckStatus::Unknown) <==> small
                == "unknown"@
            &&& AckStatus::named(name) matches Err(error) ==> error
                == ModelErrorView::InvalidAckStatus(name)
        }),
{
    lemma_platforms_known(name);
    lemma_sides_known(name);
    lemma_actions_known(name);
    lemma_statuses_known(name);
}

proof fn lemma_platforms_known(name: Seq<char>)
    ensures
        ({
            let small = text::lower(name);
            &&& Platform::named(name) == Ok::<_, ModelErrorView>(Platform::Trinity) <==> small
                == "trinity"@ || small == "trinityr"@
            &&& Platform::named(name) == Ok::<_, ModelErrorView>(Platform::Mt4) <==> small
                == "mt4"@
            &&& Platform::named(name) == Ok::<_, ModelErrorView>(Platform::Mt5) <==> small
                == "mt5"@
            &&& Platform::named(name) == Ok::<_, ModelErrorView>(Platform::CTrader) <==> small
                == "ctrader"@ || small == "c_trader"@
            &&& Platform::named(name) matches Err(error) ==> error
                == ModelErrorView::InvalidPlatform(name)
        }),
{
    reveal(Platform::named);
    reveal_strlit("trinity");
    reveal_strlit("trinityr");
    reveal_strlit("mt4");
    reveal_strlit("mt5");
    reveal_strlit("ctrader");
    reveal_strlit("c_trader");
    assert("mt4"@[2] != "mt5"@[2]);
    assert("trinity"@.len() == 7 && "trinityr"@.len() == 8 && "mt4"@.len() == 3 && "mt5"@.len()
        == 3 && "ctrader"@.len() == 7 && "c_trader"@.len() == 8);
    assert("trinity"@[0] == 't' && "ctrader"@[0] == 'c' && "trinityr"@[0] == 't'
        && "c_trader"@[0] == 'c');
}

proof fn lemma_sides_known(name: Seq<char>)
    ensures
        ({
            let small = text::lower(name);
            &&& Side::named(name) == Ok::<_, ModelErrorView>(Side::Buy) <==> small == "buy"@
                || small == "long"@
            &&& Side::named(name) == Ok::<_, ModelErrorView>(Side::Sell) <==> small == "sell"@
                || small == "short"@
            &&& Side::named(name) matches Err(error) ==> error == ModelErrorView::InvalidSide(name)
        }),
{
    reveal(Side::named);
    reveal_strlit("buy");
    reveal_strlit("long");
    reveal_strlit("sell");
    reveal_strlit("short");
    assert("buy"@.len() == 3 && "long"@.len() == 4 && "sell"@.len() == 4 && "short"@.len() == 5);
    assert("long"@[0] == 'l' && "sell"@[0] == 's');
}

proof fn lemma_actions_known(name: Seq<char>)
    ensures
        ({
            let small = text::lower(name);
            &&& TradeAction::named(name) == Ok::<_, ModelErrorView>(TradeAction::Open) <==> small
                == "open"@
            &&& TradeAction::named(name) == Ok::<_, ModelErrorView>(TradeAction::Modify) <==> small
                == "modify"@
            &&& TradeAction::named(name) == Ok::<_, ModelErrorView>(TradeAction::Reduce) <==> small
                == "reduce"@ || small == "partial_close"@
            &&& TradeAction::named(name) == Ok::<_, ModelErrorView>(TradeAction::Close) <==> small
                == "close"@
            &&& TradeAction::named(name) matches Err(error) ==> error
                == ModelErrorView::InvalidAction(name)
        }),
{
    reveal(TradeAction::named);
    reveal_strlit("open");
    reveal_strlit("modify");
    reveal_strlit("reduce");
    reveal_strlit("partial_close");
    reveal_strlit("close");
    assert("open"@.len() == 4 && "modify"@.len() == 6 && "reduce"@.len() == 6
        && "partial_close"@.len() == 13 && "close"@.len() == 5);
    assert("modify"@[0] == 'm' && "reduce"@[0] == 'r');
}

proof fn lemma_statuses_known(name: Seq<char>)
    ensures
        ({
            let small = text::lower(name);
            &&& AckStatus::named(name) == Ok::<_, ModelErrorView>(AckStatus::Accepted) <==> small
                == "accepted"@
            &&& AckStatus::named(name) == Ok::<_, ModelErrorView>(AckStatus::Filled) <==> small
                == "filled"@
            &&& AckStatus::named(name) == Ok::<_, ModelErrorView>(AckStatus::Rejected) <==> small
                == "rejected"@
            &&& AckStatus::named(name) == Ok::<_, ModelErrorView>(AckStatus::Unknown) <==> small
                == "unknown"@
            &&& AckStatus::named(name) matches Err(error) ==> error
                == ModelErrorView::InvalidAckStatus(name)
        }),
{
    reveal(AckStatus::named);
    reveal_strlit("accepted");
    reveal_strlit("filled");
    reveal_strlit("rejected");
    reveal_strlit("unknown");
    assert("accepted"@.len() == 8 && "filled"@.len() == 6 && "rejected"@.len() == 8
        && "unknown"@.len() == 7);
    assert("accepted"@[0] == 'a' && "rejected"@[0] == 'r');
}

/// Each thing has a name of its own: the one that it goes by on the wire.
pub proof fn law_names_are_written(
    platform: Platform,
    side: Side,
    action: TradeAction,
    status: AckStatus,
)
    ensures
        platform.name() == match platform {
            Platform::Trinity => "trinity"@,
            Platform::Mt4 => "mt4"@,
            Platform::Mt5 => "mt5"@,
            Platform::CTrader => "ctrader"@,
        },
        side == Side::Buy ==> side.name() == "buy"@,
        side == Side::Sell ==> side.name() == "sell"@,
        action.name() == match action {
            TradeAction::Open => "open"@,
            TradeAction::Modify => "modify"@,
            TradeAction::Reduce => "reduce"@,
            TradeAction::Close => "close"@,
        },
        status.name() == match status {
            AckStatus::Accepted => "accepted"@,
            AckStatus::Filled => "filled"@,
            AckStatus::Rejected => "rejected"@,
            AckStatus::Unknown => "unknown"@,
        },
        side == Side::Buy ==> side.opposite() == Side::Sell,
        side == Side::Sell ==> side.opposite() == Side::Buy,
{
}

} // verus!
