//! Accounts at cTrader's Open API.

use crate::double::Double;
use crate::json::{
    as_f64, as_i64, enum_number, list_of, member_in, no_members, number_json, object, put,
    value_to_string, Json, JsonView,
};
use crate::model::{
    AckStatus, ExecutionAck, ExecutionAckView, ExecutionCommand, ExecutionCommandView, ModelError,
    ModelErrorView, Platform, Side, TradeAction, TradeEvent, TradeEventView,
};
use crate::table::Table;
use crate::text::{after_prefix, joined, joined_three, read_i64, same, write_i64};
use crate::venues::{changed_price, least_volume};
use crate::{double, json, model, routing, steps, table, text, venues};
use std::collections::HashMap;
use vstd::arithmetic::power2::*;
use vstd::prelude::*;
use vstd::string::*;

verus! {

pub const APPLICATION_AUTH_REQ: i64 = 2100;

pub const APPLICATION_AUTH_RES: i64 = 2101;

pub const ACCOUNT_AUTH_REQ: i64 = 2102;

pub const ACCOUNT_AUTH_RES: i64 = 2103;

pub const NEW_ORDER_REQ: i64 = 2106;

pub const AMEND_POSITION_SLTP_REQ: i64 = 2110;

pub const CLOSE_POSITION_REQ: i64 = 2111;

pub const SYMBOLS_LIST_REQ: i64 = 2114;

pub const SYMBOLS_LIST_RES: i64 = 2115;

pub const SYMBOL_BY_ID_REQ: i64 = 2116;

pub const SYMBOL_BY_ID_RES: i64 = 2117;

pub const RECONCILE_REQ: i64 = 2124;

pub const RECONCILE_RES: i64 = 2125;

pub const EXECUTION_EVENT: i64 = 2126;

pub const ORDER_ERROR_EVENT: i64 = 2132;

pub const ERROR_RES: i64 = 2142;

pub const HEARTBEAT_EVENT: i64 = 51;

/// What goes wrong with cTrader.
#[derive(Debug)]
pub enum CTraderError {
    SymbolsOmitted,
    SymbolIdOmitted,
    DetailsOmitted,
    FullSymbolIdOmitted,
    PositionIdOmitted,
    TradeDataOmitted,
    PositionSymbolOmitted,
    UnknownSymbolId(i64),
    UnknownSide(i64),
    AccountOmitted,
    NoRuntime,
    InvalidPositionId,
    SymbolNotFound(String),
    SideOmitted,
    ZeroVolume,
    TargetRequired,
    InvalidTarget,
    Model(ModelError),
}

/// What an error of cTrader holds.
pub enum CTraderErrorView {
    SymbolsOmitted,
    SymbolIdOmitted,
    DetailsOmitted,
    FullSymbolIdOmitted,
    PositionIdOmitted,
    TradeDataOmitted,
    PositionSymbolOmitted,
    UnknownSymbolId(i64),
    UnknownSide(i64),
    AccountOmitted,
    NoRuntime,
    InvalidPositionId,
    SymbolNotFound(Seq<char>),
    SideOmitted,
    ZeroVolume,
    TargetRequired,
    InvalidTarget,
    Model(ModelErrorView),
}

impl View for CTraderError {
    type V = CTraderErrorView;

    open spec fn view(&self) -> CTraderErrorView {
        match self {
            CTraderError::SymbolsOmitted => CTraderErrorView::SymbolsOmitted,
            CTraderError::SymbolIdOmitted => CTraderErrorView::SymbolIdOmitted,
            CTraderError::DetailsOmitted => CTraderErrorView::DetailsOmitted,
            CTraderError::FullSymbolIdOmitted => CTraderErrorView::FullSymbolIdOmitted,
            CTraderError::PositionIdOmitted => CTraderErrorView::PositionIdOmitted,
            CTraderError::TradeDataOmitted => CTraderErrorView::TradeDataOmitted,
            CTraderError::PositionSymbolOmitted => CTraderErrorView::PositionSymbolOmitted,
            CTraderError::UnknownSymbolId(id) => CTraderErrorView::UnknownSymbolId(*id),
            CTraderError::UnknownSide(side) => CTraderErrorView::UnknownSide(*side),
            CTraderError::AccountOmitted => CTraderErrorView::AccountOmitted,
            CTraderError::NoRuntime => CTraderErrorView::NoRuntime,
            CTraderError::InvalidPositionId => CTraderErrorView::InvalidPositionId,
            CTraderError::SymbolNotFound(symbol) => CTraderErrorView::SymbolNotFound(symbol@),
            CTraderError::SideOmitted => CTraderErrorView::SideOmitted,
            CTraderError::ZeroVolume => CTraderErrorView::ZeroVolume,
            CTraderError::TargetRequired => CTraderErrorView::TargetRequired,
            CTraderError::InvalidTarget => CTraderErrorView::InvalidTarget,
            CTraderError::Model(error) => CTraderErrorView::Model(error@),
        }
    }
}

impl CTraderErrorView {
    /// The error in words.
    pub open spec fn words(self) -> Seq<char> {
        match self {
            CTraderErrorView::SymbolsOmitted => "cTrader symbols response omitted symbols"@,
            CTraderErrorView::SymbolIdOmitted => "cTrader symbol omitted id"@,
            CTraderErrorView::DetailsOmitted => "cTrader symbol details response omitted symbols"@,
            CTraderErrorView::FullSymbolIdOmitted => "cTrader full symbol omitted id"@,
            CTraderErrorView::PositionIdOmitted => "cTrader position omitted id"@,
            CTraderErrorView::TradeDataOmitted => "cTrader position omitted tradeData"@,
            CTraderErrorView::PositionSymbolOmitted => "cTrader position omitted symbol id"@,
            CTraderErrorView::UnknownSymbolId(id) => "unknown cTrader symbol id "@
                + text::integer_text(id as int),
            CTraderErrorView::UnknownSide(side) => "unknown cTrader trade side "@
                + text::integer_text(side as int),
            CTraderErrorView::AccountOmitted => "cTrader execution event omitted account id"@,
            CTraderErrorView::NoRuntime => "missing cTrader runtime for protection"@,
            CTraderErrorView::InvalidPositionId => "invalid cTrader position id"@,
            CTraderErrorView::SymbolNotFound(symbol) => "cTrader symbol "@ + symbol
                + " not found"@,
            CTraderErrorView::SideOmitted => "cTrader open command omitted side"@,
            CTraderErrorView::ZeroVolume => "cTrader normalized volume is zero"@,
            CTraderErrorView::TargetRequired => "cTrader command requires target position id"@,
            CTraderErrorView::InvalidTarget => "invalid cTrader target position id"@,
            CTraderErrorView::Model(error) => error.words(),
        }
    }
}

impl CTraderError {
    /// The error in words.
    pub fn to_string(&self) -> (r: String)
        ensures
            r@ == self@.words(),
    {
        match self {
            CTraderError::SymbolsOmitted => "cTrader symbols response omitted symbols".to_owned(),
            CTraderError::SymbolIdOmitted => "cTrader symbol omitted id".to_owned(),
            CTraderError::DetailsOmitted => "cTrader symbol details response omitted symbols".to_owned(),
            CTraderError::FullSymbolIdOmitted => "cTrader full symbol omitted id".to_owned(),
            CTraderError::PositionIdOmitted => "cTrader position omitted id".to_owned(),
            CTraderError::TradeDataOmitted => "cTrader position omitted tradeData".to_owned(),
            CTraderError::PositionSymbolOmitted => "cTrader position omitted symbol id".to_owned(),
            CTraderError::UnknownSymbolId(id) => {
                let number = write_i64(*id);
                joined("unknown cTrader symbol id ", number.as_str())
            },
            CTraderError::UnknownSide(side) => {
                let number = write_i64(*side);
                joined("unknown cTrader trade side ", number.as_str())
            },
            CTraderError::AccountOmitted => "cTrader execution event omitted account id".to_owned(),
            CTraderError::NoRuntime => "missing cTrader runtime for protection".to_owned(),
            CTraderError::InvalidPositionId => "invalid cTrader position id".to_owned(),
            CTraderError::SymbolNotFound(symbol) => joined_three(
                "cTrader symbol ",
                symbol.as_str(),
                " not found",
            ),
            CTraderError::SideOmitted => "cTrader open command omitted side".to_owned(),
            CTraderError::ZeroVolume => "cTrader normalized volume is zero".to_owned(),
            CTraderError::TargetRequired => "cTrader command requires target position id".to_owned(),
            CTraderError::InvalidTarget => "invalid cTrader target position id".to_owned(),
            CTraderError::Model(error) => error.to_string(),
        }
    }
}

/// A symbol of cTrader's.
#[derive(Debug)]
pub struct SymbolInfo {
    pub id: i64,
    pub name: String,
    pub lot_size_cents: Double,
}

/// What a symbol holds.
pub struct SymbolInfoView {
    pub id: i64,
    pub name: Seq<char>,
    pub lot_size_cents: Double,
}

impl View for SymbolInfo {
    type V = SymbolInfoView;

    open spec fn view(&self) -> SymbolInfoView {
        SymbolInfoView { id: self.id, name: self.name@, lot_size_cents: self.lot_size_cents }
    }
}

impl Clone for SymbolInfo {
    fn clone(&self) -> (r: Self)
        ensures
            r@ == self@,
    {
        SymbolInfo {
            id: self.id,
            name: self.name.clone(),
            lot_size_cents: self.lot_size_cents,
        }
    }
}

/// A position at cTrader.
#[derive(Debug)]
pub struct PositionSnapshot {
    pub id: String,
    pub symbol: String,
    pub side: Side,
    pub volume_lots: Double,
    pub price: Option<Double>,
    pub stop_loss: Option<Double>,
    pub take_profit: Option<Double>,
    pub origin_command_id: Option<String>,
}

/// What a position holds.
pub struct PositionView {
    pub id: Seq<char>,
    pub symbol: Seq<char>,
    pub side: Side,
    pub volume_lots: Double,
    pub price: Option<Double>,
    pub stop_loss: Option<Double>,
    pub take_profit: Option<Double>,
    pub origin_command_id: Option<Seq<char>>,
}

impl View for PositionSnapshot {
    type V = PositionView;

    open spec fn view(&self) -> PositionView {
        PositionView {
            id: self.id@,
            symbol: self.symbol@,
            side: self.side,
            volume_lots: self.volume_lots,
            price: self.price,
            stop_loss: self.stop_loss,
            take_profit: self.take_profit,
            origin_command_id: self.origin_command_id.deep_view(),
        }
    }
}

/// The symbols that a reply lists by number and name; those without a name are
/// left out.
pub open spec fn light_symbols(items: Seq<JsonView>) -> Result<
    Seq<(i64, Seq<char>)>,
    CTraderErrorView,
>
    decreases items.len(),
{
    if items.len() == 0 {
        Ok(Seq::empty())
    } else {
        match light_symbols(items.drop_last()) {
            Err(error) => Err(error),
            Ok(before) => match json::read_whole_in(items.last().member("symbolId"@)) {
                None => Err(CTraderErrorView::SymbolIdOmitted),
                Some(id) => match json::text_in(items.last().member("symbolName"@)) {
                    Some(name) => if name.len() > 0 {
                        Ok(before.push((id, name)))
                    } else {
                        Ok(before)
                    },
                    None => Ok(before),
                },
            },
        }
    }
}

/// Numbered names, seen through their views.
pub open spec fn seen_light(light: Seq<(i64, String)>) -> Seq<(i64, Seq<char>)> {
    light.map_values(|symbol: (i64, String)| (symbol.0, symbol.1@))
}

/// The symbols that a reply lists.
pub open spec fn light_of(value: JsonView) -> Result<Seq<(i64, Seq<char>)>, CTraderErrorView> {
    match json::items_in(json::nested(value.member("payload"@), "symbol"@)) {
        None => Err(CTraderErrorView::SymbolsOmitted),
        Some(items) => light_symbols(items),
    }
}

proof fn lemma_light_stops(items: Seq<JsonView>, n: int)
    requires
        0 <= n <= items.len(),
        light_symbols(items.take(n)) is Err,
    ensures
        light_symbols(items) == light_symbols(items.take(n)),
    decreases items.len(),
{
    if n == items.len() {
        assert(items.take(n) =~= items);
    } else {
        assert(items.drop_last().take(n) =~= items.take(n));
        lemma_light_stops(items.drop_last(), n);
    }
}

/// Reads the symbols that a reply lists.
pub fn parse_light_symbols(value: &Json) -> (r: Result<Vec<(i64, String)>, CTraderError>)
    ensures
        match light_of(value@) {
            Ok(light) => r is Ok && seen_light(r->Ok_0@) == light,
            Err(error) => r is Err && r->Err_0@ == error,
        },
{
    let symbols = match member_in(value.get("payload"), "symbol") {
        Some(inner) => match inner.as_list() {
            Some(symbols) => symbols,
            None => {
                return Err(CTraderError::SymbolsOmitted);
            },
        },
        None => {
            return Err(CTraderError::SymbolsOmitted);
        },
    };
    let ghost items = json::seen_items(symbols@);
    let mut out: Vec<(i64, String)> = Vec::new();
    let mut i: usize = 0;
    assert(seen_light(out@) =~= Seq::empty());
    while i < symbols.len()
        invariant
            i <= symbols.len(),
            items == json::seen_items(symbols@),
            light_of(value@) == light_symbols(items),
            light_symbols(items.take(i as int)) == Ok::<_, CTraderErrorView>(seen_light(out@)),
        decreases symbols.len() - i,
    {
        let symbol = &symbols[i];
        let ghost before = out@;
        proof {
            assert(items.take(i + 1).drop_last() =~= items.take(i as int));
            assert(items[i as int] == symbol@);
            if light_symbols(items.take(i + 1)) is Err {
                lemma_light_stops(items, i + 1);
            }
        }
        let id: i64 = match symbol.get("symbolId") {
            Some(inner) => match as_i64(inner) {
                Some(id) => id,
                None => {
                    return Err(CTraderError::SymbolIdOmitted);
                },
            },
            None => {
                return Err(CTraderError::SymbolIdOmitted);
            },
        };
        if let Some(inner) = symbol.get("symbolName") {
            if let Some(name) = inner.as_text() {
                if !name.as_str().is_empty() {
                    out.push((id, name.clone()));
                    assert(seen_light(out@) =~= seen_light(before).push((id, name@)));
                }
            }
        }
        i = i + 1;
    }
    assert(items.take(i as int) =~= items);
    Ok(out)
}

/// The last name that a number was listed with.
pub open spec fn name_of(light: Seq<(i64, Seq<char>)>, id: i64) -> Option<Seq<char>>
    decreases light.len(),
{
    if light.len() == 0 {
        None
    } else if light.last().0 == id {
        Some(light.last().1)
    } else {
        name_of(light.drop_last(), id)
    }
}

fn find_name(light: &Vec<(i64, String)>, id: i64) -> (r: Option<String>)
    ensures
        r.deep_view() == name_of(seen_light(light@), id),
{
    let ghost all = seen_light(light@);
    let mut n: usize = light.len();
    assert(all.take(n as int) =~= all);
    while n > 0
        invariant
            n <= light.len(),
            all == seen_light(light@),
            name_of(all.take(n as int), id) == name_of(all, id),
        decreases n,
    {
        assert(all.take(n as int).drop_last() =~= all.take(n - 1));
        assert(all.take(n as int).last() == (light@[n - 1].0, light@[n - 1].1@));
        if light[n - 1].0 == id {
            return Some(light[n - 1].1.clone());
        }
        n = n - 1;
    }
    None
}

/// The size of a lot where a symbol does not say it.
pub open spec fn usual_lot() -> Double {
    steps::number(10_000_000)
}

/// Symbols by their names and by their numbers.
#[verifier::ext_equal]
pub struct SymbolsView {
    pub by_name: Map<Seq<char>, SymbolInfoView>,
    pub by_id: Map<i64, SymbolInfoView>,
}

/// No symbols.
pub open spec fn no_symbols() -> SymbolsView {
    SymbolsView { by_name: Map::empty(), by_id: Map::empty() }
}

/// The symbols whose details a reply gives, of those that were listed before.
pub open spec fn detailed_symbols(light: Seq<(i64, Seq<char>)>, items: Seq<JsonView>) -> Result<
    SymbolsView,
    CTraderErrorView,
>
    decreases items.len(),
{
    if items.len() == 0 {
        Ok(no_symbols())
    } else {
        let item = items.last();
        match detailed_symbols(light, items.drop_last()) {
            Err(error) => Err(error),
            Ok(before) => match json::read_whole_in(item.member("symbolId"@)) {
                None => Err(CTraderErrorView::FullSymbolIdOmitted),
                Some(id) => match name_of(light, id) {
                    None => Ok(before),
                    Some(name) => {
                        let info = SymbolInfoView {
                            id,
                            name,
                            lot_size_cents: match json::read_number_in(item.member("lotSize"@)) {
                                Some(size) => size,
                                None => usual_lot(),
                            },
                        };
                        Ok(
                            SymbolsView {
                                by_name: before.by_name.insert(name, info),
                                by_id: before.by_id.insert(id, info),
                            },
                        )
                    },
                },
            },
        }
    }
}

/// The symbols whose details a reply gives.
pub open spec fn details_of(light: Seq<(i64, Seq<char>)>, value: JsonView) -> Result<
    SymbolsView,
    CTraderErrorView,
> {
    match json::items_in(json::nested(value.member("payload"@), "symbol"@)) {
        None => Err(CTraderErrorView::DetailsOmitted),
        Some(items) => detailed_symbols(light, items),
    }
}

proof fn lemma_details_stop(light: Seq<(i64, Seq<char>)>, items: Seq<JsonView>, n: int)
    requires
        0 <= n <= items.len(),
        detailed_symbols(light, items.take(n)) is Err,
    ensures
        detailed_symbols(light, items) == detailed_symbols(light, items.take(n)),
    decreases items.len(),
{
    if n == items.len() {
        assert(items.take(n) =~= items);
    } else {
        assert(items.drop_last().take(n) =~= items.take(n));
        lemma_details_stop(light, items.drop_last(), n);
    }
}

/// Symbols by their names and by their numbers.
pub struct Symbols {
    pub by_name: Table<SymbolInfo>,
    pub by_id: HashMap<i64, SymbolInfo>,
}

/// Symbols by number, seen through their views.
pub open spec fn seen_by_id(by_id: Map<i64, SymbolInfo>) -> Map<i64, SymbolInfoView> {
    by_id.map_values(|info: SymbolInfo| info@)
}

impl View for Symbols {
    type V = SymbolsView;

    open spec fn view(&self) -> SymbolsView {
        SymbolsView { by_name: table::seen(self.by_name@), by_id: seen_by_id(self.by_id@) }
    }
}

impl Symbols {
    /// No symbols.
    pub fn new() -> (r: Symbols)
        ensures
            r@ == no_symbols(),
    {
        broadcast use vstd::std_specs::hash::group_hash_axioms;

        let r = Symbols { by_name: Table::new(), by_id: HashMap::new() };
        assert(r@ =~= no_symbols());
        r
    }

    fn put(&mut self, info: SymbolInfo)
        ensures
            final(self)@ == (SymbolsView {
                by_name: old(self)@.by_name.insert(info@.name, info@),
                by_id: old(self)@.by_id.insert(info@.id, info@),
            }),
    {
        broadcast use vstd::std_specs::hash::group_hash_axioms;

        let ghost names = self.by_name@;
        let ghost ids = self.by_id@;
        let ghost view = info@;
        let name = info.name.clone();
        let id: i64 = info.id;
        let copy = info.clone();
        self.by_name.insert(name, copy);
        self.by_id.insert(id, info);
        assert(table::seen(self.by_name@) =~= table::seen(names).insert(view.name, view));
        assert(seen_by_id(self.by_id@) =~= seen_by_id(ids).insert(view.id, view));
    }

    /// The symbol of a number.
    pub fn numbered(&self, id: i64) -> (r: Option<&SymbolInfo>)
        ensures
            match r {
                Some(info) => self@.by_id.contains_key(id) && self@.by_id[id] == info@,
                None => !self@.by_id.contains_key(id),
            },
    {
        broadcast use vstd::std_specs::hash::group_hash_axioms;

        self.by_id.get(&id)
    }
}

/// Reads the details of symbols.
pub fn parse_symbol_details(light: &Vec<(i64, String)>, value: &Json) -> (r: Result<
    Symbols,
    CTraderError,
>)
    ensures
        match details_of(seen_light(light@), value@) {
            Ok(symbols) => r is Ok && r->Ok_0@ == symbols,
            Err(error) => r is Err && r->Err_0@ == error,
        },
{
    let symbols = match member_in(value.get("payload"), "symbol") {
        Some(inner) => match inner.as_list() {
            Some(symbols) => symbols,
            None => {
                return Err(CTraderError::DetailsOmitted);
            },
        },
        None => {
            return Err(CTraderError::DetailsOmitted);
        },
    };
    let ghost items = json::seen_items(symbols@);
    let ghost names = seen_light(light@);
    let mut out = Symbols::new();
    let mut i: usize = 0;
    while i < symbols.len()
        invariant
            i <= symbols.len(),
            items == json::seen_items(symbols@),
            names == seen_light(light@),
            details_of(names, value@) == detailed_symbols(names, items),
            detailed_symbols(names, items.take(i as int)) == Ok::<_, CTraderErrorView>(out@),
        decreases symbols.len() - i,
    {
        let symbol = &symbols[i];
        proof {
            assert(items.take(i + 1).drop_last() =~= items.take(i as int));
            assert(items[i as int] == symbol@);
            if detailed_symbols(names, items.take(i + 1)) is Err {
                lemma_details_stop(names, items, i + 1);
            }
        }
        let id: i64 = match symbol.get("symbolId") {
            Some(inner) => match as_i64(inner) {
                Some(id) => id,
                None => {
                    return Err(CTraderError::FullSymbolIdOmitted);
                },
            },
            None => {
                return Err(CTraderError::FullSymbolIdOmitted);
            },
        };
        if let Some(name) = find_name(light, id) {
            let given: Option<Double> = match symbol.get("lotSize") {
                Some(inner) => as_f64(inner),
                None => None,
            };
            let lot_size_cents = match given {
                Some(size) => size,
                None => Double::from_u64(10_000_000),
            };
            out.put(SymbolInfo { id, name, lot_size_cents });
        }
        i = i + 1;
    }
    assert(items.take(i as int) =~= items);
    Ok(out)
}

/// The command that made a position, as its label tells.
pub open spec fn origin_of(label: Option<Seq<char>>) -> Option<Seq<char>> {
    match label {
        Some(inner) => if text::starts(inner, "CopierR:"@) {
            Some(inner.skip("CopierR:"@.len() as int))
        } else {
            None
        },
        None => None,
    }
}

/// The number that stands for a side; nothing stands for zero.
pub open spec fn side_number(trade: JsonView) -> i64 {
    match json::number_of(trade.member("tradeSide"@), seq![("BUY", 1i64), ("SELL", 2i64)]) {
        Some(n) => n,
        None => 0,
    }
}

/// The position that a value describes.
pub open spec fn position_of(value: JsonView, symbols: Map<i64, SymbolInfoView>) -> Result<
    PositionView,
    CTraderErrorView,
> {
    let id = json::read_text_in(value.member("positionId"@));
    let trade = value.member("tradeData"@);
    let symbol_id = json::read_whole_in(json::nested(trade, "symbolId"@));
    if id is None {
        Err(CTraderErrorView::PositionIdOmitted)
    } else if trade is None {
        Err(CTraderErrorView::TradeDataOmitted)
    } else if symbol_id is None {
        Err(CTraderErrorView::PositionSymbolOmitted)
    } else if !symbols.contains_key(symbol_id->Some_0) {
        Err(CTraderErrorView::UnknownSymbolId(symbol_id->Some_0))
    } else {
        let symbol = symbols[symbol_id->Some_0];
        let volume = match json::read_number_in(json::nested(trade, "volume"@)) {
            Some(volume) => volume,
            None => routing::zero(),
        };
        let side = side_number(trade->Some_0);
        if side != 1 && side != 2 {
            Err(CTraderErrorView::UnknownSide(side))
        } else {
            Ok(
                PositionView {
                    id: id->Some_0,
                    symbol: symbol.name,
                    side: if side == 1 {
                        Side::Buy
                    } else {
                        Side::Sell
                    },
                    volume_lots: volume.quotient(symbol.lot_size_cents),
                    price: json::read_number_in(value.member("price"@)),
                    stop_loss: json::read_number_in(value.member("stopLoss"@)),
                    take_profit: json::read_number_in(value.member("takeProfit"@)),
                    origin_command_id: origin_of(
                        json::text_in(json::nested(trade, "label"@)),
                    ),
                },
            )
        }
    }
}

fn read_number(value: Option<&Json>) -> (r: Option<Double>)
    ensures
        r == json::read_number_in(json::seen(value)),
{
    match value {
        Some(inner) => as_f64(inner),
        None => None,
    }
}

fn read_text(value: Option<&Json>) -> (r: Option<String>)
    ensures
        r.deep_view() == json::read_text_in(json::seen(value)),
{
    match value {
        Some(inner) => value_to_string(inner),
        None => None,
    }
}

fn read_whole(value: Option<&Json>) -> (r: Option<i64>)
    ensures
        r == json::read_whole_in(json::seen(value)),
{
    match value {
        Some(inner) => as_i64(inner),
        None => None,
    }
}

/// Reads a position.
pub fn parse_position(value: &Json, symbols: &Symbols) -> (r: Result<
    PositionSnapshot,
    CTraderError,
>)
    ensures
        model::outcome(r) == position_of(value@, symbols@.by_id),
{
    let id = match read_text(value.get("positionId")) {
        Some(id) => id,
        None => {
            return Err(CTraderError::PositionIdOmitted);
        },
    };
    let trade = match value.get("tradeData") {
        Some(trade) => trade,
        None => {
            return Err(CTraderError::TradeDataOmitted);
        },
    };
    let symbol_id: i64 = match read_whole(trade.get("symbolId")) {
        Some(id) => id,
        None => {
            return Err(CTraderError::PositionSymbolOmitted);
        },
    };
    let symbol = match symbols.numbered(symbol_id) {
        Some(symbol) => symbol,
        None => {
            return Err(CTraderError::UnknownSymbolId(symbol_id));
        },
    };
    let volume_cents = match read_number(trade.get("volume")) {
        Some(volume) => volume,
        None => Double { bits: 0 },
    };
    let names: [(&str, i64); 2] = [("BUY", 1), ("SELL", 2)];
    assert(names@ =~= seq![("BUY", 1i64), ("SELL", 2i64)]);
    let number: i64 = match enum_number(trade.get("tradeSide"), &names) {
        Some(number) => number,
        None => 0,
    };
    let side = if number == 1 {
        Side::Buy
    } else if number == 2 {
        Side::Sell
    } else {
        return Err(CTraderError::UnknownSide(number));
    };
    let origin_command_id: Option<String> = match trade.get("label") {
        Some(inner) => match inner.as_text() {
            Some(label) => after_prefix(label.as_str(), "CopierR:"),
            None => None,
        },
        None => None,
    };
    Ok(
        PositionSnapshot {
            id,
            symbol: symbol.name.clone(),
            side,
            volume_lots: volume_cents.over(symbol.lot_size_cents),
            price: read_number(value.get("price")),
            stop_loss: read_number(value.get("stopLoss")),
            take_profit: read_number(value.get("takeProfit")),
            origin_command_id,
        },
    )
}

/// The positions that values describe, by their names.
pub open spec fn positions_of(items: Seq<JsonView>, symbols: Map<i64, SymbolInfoView>) -> Result<
    Map<Seq<char>, PositionView>,
    CTraderErrorView,
>
    decreases items.len(),
{
    if items.len() == 0 {
        Ok(Map::empty())
    } else {
        match positions_of(items.drop_last(), symbols) {
            Err(error) => Err(error),
            Ok(before) => match position_of(items.last(), symbols) {
                Err(error) => Err(error),
                Ok(position) => Ok(before.insert(position.id, position)),
            },
        }
    }
}

/// The positions that a reply gives.
pub open spec fn reconciled(value: JsonView, symbols: Map<i64, SymbolInfoView>) -> Result<
    Map<Seq<char>, PositionView>,
    CTraderErrorView,
> {
    match json::items_in(json::nested(value.member("payload"@), "position"@)) {
        None => Ok(Map::empty()),
        Some(items) => positions_of(items, symbols),
    }
}

proof fn lemma_positions_stop(items: Seq<JsonView>, symbols: Map<i64, SymbolInfoView>, n: int)
    requires
        0 <= n <= items.len(),
        positions_of(items.take(n), symbols) is Err,
    ensures
        positions_of(items, symbols) == positions_of(items.take(n), symbols),
    decreases items.len(),
{
    if n == items.len() {
        assert(items.take(n) =~= items);
    } else {
        assert(items.drop_last().take(n) =~= items.take(n));
        lemma_positions_stop(items.drop_last(), symbols, n);
    }
}

/// Reads the positions that a reply gives.
pub fn parse_reconcile_positions(value: &Json, symbols: &Symbols) -> (r: Result<
    Table<PositionSnapshot>,
    CTraderError,
>)
    ensures
        match reconciled(value@, symbols@.by_id) {
            Ok(positions) => r is Ok && table::seen(r->Ok_0@) == positions,
            Err(error) => r is Err && r->Err_0@ == error,
        },
{
    let mut positions: Table<PositionSnapshot> = Table::new();
    assert(table::seen(positions@) =~= Map::empty());
    let values = match member_in(value.get("payload"), "position") {
        Some(inner) => match inner.as_list() {
            Some(values) => values,
            None => {
                return Ok(positions);
            },
        },
        None => {
            return Ok(positions);
        },
    };
    let ghost items = json::seen_items(values@);
    let mut i: usize = 0;
    while i < values.len()
        invariant
            i <= values.len(),
            items == json::seen_items(values@),
            reconciled(value@, symbols@.by_id) == positions_of(items, symbols@.by_id),
            positions_of(items.take(i as int), symbols@.by_id) == Ok::<_, CTraderErrorView>(
                table::seen(positions@),
            ),
        decreases values.len() - i,
    {
        let ghost before = positions@;
        proof {
            assert(items.take(i + 1).drop_last() =~= items.take(i as int));
            assert(items[i as int] == values@[i as int]@);
            if positions_of(items.take(i + 1), symbols@.by_id) is Err {
                lemma_positions_stop(items, symbols@.by_id, i + 1);
            }
        }
        let parsed = parse_position(&values[i], symbols)?;
        let ghost view = parsed@;
        positions.insert(parsed.id.clone(), parsed);
        assert(table::seen(positions@) =~= table::seen(before).insert(view.id, view));
        i = i + 1;
    }
    assert(items.take(i as int) =~= items);
    Ok(positions)
}

/// A connected account: who it is, its session, its symbols and its positions.
pub struct AccountRuntime {
    pub account_id: String,
    pub ctid: i64,
    pub platform: Platform,
    pub publishes: bool,
    pub session_id: u64,
    pub symbols: Symbols,
    pub positions: Table<PositionSnapshot>,
}

/// What a connected account holds.
#[verifier::ext_equal]
pub struct AccountView {
    pub account_id: Seq<char>,
    pub ctid: i64,
    pub platform: Platform,
    pub publishes: bool,
    pub session_id: u64,
    pub symbols: SymbolsView,
    pub positions: Map<Seq<char>, PositionView>,
}

impl View for AccountRuntime {
    type V = AccountView;

    open spec fn view(&self) -> AccountView {
        AccountView {
            account_id: self.account_id@,
            ctid: self.ctid,
            platform: self.platform,
            publishes: self.publishes,
            session_id: self.session_id,
            symbols: self.symbols@,
            positions: table::seen(self.positions@),
        }
    }
}

/// The position that a command is for.
pub open spec fn target_of(command: ExecutionCommandView) -> Result<i64, CTraderErrorView> {
    match command.target_order_id {
        None => Err(CTraderErrorView::TargetRequired),
        Some(id) => match json::whole_in(id) {
            Some(n) => Ok(n),
            None => Err(CTraderErrorView::InvalidTarget),
        },
    }
}

/// The position that a command is for.
pub fn parse_target_position(command: &ExecutionCommand) -> (r: Result<i64, CTraderError>)
    ensures
        model::outcome(r) == target_of(command@),
{
    match &command.target_order_id {
        None => Err(CTraderError::TargetRequired),
        Some(id) => match read_i64(id.as_str()) {
            Some(n) => Ok(n),
            None => Err(CTraderError::InvalidTarget),
        },
    }
}

/// Lots in cTrader's units of volume, to the nearest whole one.
pub open spec fn units_of(lots: Double, symbol: SymbolInfoView) -> i64 {
    lots.product(symbol.lot_size_cents).whole().integer_part() as i64
}

fn to_units(lots: Double, symbol: &SymbolInfo) -> (r: i64)
    ensures
        r == units_of(lots, symbol@),
{
    lots.times(symbol.lot_size_cents).rounded().truncated()
}

/// The members that set the protection of a position.
pub open spec fn protection_members(
    ctid: i64,
    position_id: i64,
    stop_loss: Option<Double>,
    take_profit: Option<Double>,
) -> Seq<(Seq<char>, JsonView)> {
    let base = seq![
        ("ctidTraderAccountId"@, JsonView::Signed(ctid)),
        ("positionId"@, JsonView::Signed(position_id)),
    ];
    let with_stop = match stop_loss {
        Some(price) => base.push(("stopLoss"@, json::number_view(price))),
        None => base,
    };
    match take_profit {
        Some(price) => with_stop.push(("takeProfit"@, json::number_view(price))),
        None => with_stop,
    }
}

fn protection_json(
    ctid: i64,
    position_id: i64,
    stop_loss: Option<Double>,
    take_profit: Option<Double>,
) -> (r: Json)
    ensures
        r@ == JsonView::Object(protection_members(ctid, position_id, stop_loss, take_profit)),
{
    let mut members = no_members();
    put(&mut members, "ctidTraderAccountId", Json::Signed(ctid));
    put(&mut members, "positionId", Json::Signed(position_id));
    assert(json::seen_members(members@) =~= seq![
        ("ctidTraderAccountId"@, JsonView::Signed(ctid)),
        ("positionId"@, JsonView::Signed(position_id)),
    ]);
    if let Some(price) = stop_loss {
        put(&mut members, "stopLoss", number_json(price));
    }
    if let Some(price) = take_profit {
        put(&mut members, "takeProfit", number_json(price));
    }
    object(members)
}

/// The number of a side in a request.
pub open spec fn side_value(side: Side) -> i64 {
    match side {
        Side::Buy => 1,
        Side::Sell => 2,
    }
}

/// The request that carries a command out: its kind and what it holds.
pub open spec fn request_of(account: AccountView, command: ExecutionCommandView) -> Result<
    (i64, JsonView),
    CTraderErrorView,
> {
    let listed = account.symbols.by_name.contains_key(command.symbol);
    let symbol = account.symbols.by_name[command.symbol];
    match command.action {
        TradeAction::Open => if !listed {
            Err(CTraderErrorView::SymbolNotFound(command.symbol))
        } else if command.side is None {
            Err(CTraderErrorView::SideOmitted)
        } else if units_of(command.volume, symbol) <= 0 {
            Err(CTraderErrorView::ZeroVolume)
        } else {
            Ok(
                (
                    NEW_ORDER_REQ,
                    JsonView::Object(
                        seq![
                            ("ctidTraderAccountId"@, JsonView::Signed(account.ctid)),
                            ("symbolId"@, JsonView::Signed(symbol.id)),
                            ("orderType"@, JsonView::Signed(1)),
                            (
                                "tradeSide"@,
                                JsonView::Signed(side_value(command.side->Some_0)),
                            ),
                            (
                                "volume"@,
                                JsonView::Signed(units_of(command.volume, symbol)),
                            ),
                            ("clientOrderId"@, JsonView::Text(command.command_id)),
                            ("label"@, JsonView::Text("CopierR:"@ + command.command_id)),
                        ],
                    ),
                ),
            )
        },
        TradeAction::Modify => match target_of(command) {
            Err(error) => Err(error),
            Ok(position_id) => Ok(
                (
                    AMEND_POSITION_SLTP_REQ,
                    JsonView::Object(
                        protection_members(
                            account.ctid,
                            position_id,
                            command.stop_loss,
                            command.take_profit,
                        ),
                    ),
                ),
            ),
        },
        _ => match target_of(command) {
            Err(error) => Err(error),
            Ok(position_id) => if !listed {
                Err(CTraderErrorView::SymbolNotFound(command.symbol))
            } else {
                let name = text::integer_text(position_id as int);
                let lots = if command.action == TradeAction::Close
                    && account.positions.contains_key(name) {
                    account.positions[name].volume_lots
                } else {
                    command.volume
                };
                Ok(
                    (
                        CLOSE_POSITION_REQ,
                        JsonView::Object(
                            seq![
                                ("ctidTraderAccountId"@, JsonView::Signed(account.ctid)),
                                ("positionId"@, JsonView::Signed(position_id)),
                                ("volume"@, JsonView::Signed(units_of(lots, symbol))),
                            ],
                        ),
                    ),
                )
            },
        },
    }
}

/// The request that carries a command out.
pub fn command_message(runtime: &AccountRuntime, command: &ExecutionCommand) -> (r: Result<
    (i64, Json),
    CTraderError,
>)
    ensures
        match request_of(runtime@, command@) {
            Ok((kind, payload)) => r is Ok && r->Ok_0.0 == kind && r->Ok_0.1@ == payload,
            Err(error) => r is Err && r->Err_0@ == error,
        },
{
    let ctid: i64 = runtime.ctid;
    match command.action {
        TradeAction::Open => {
            let symbol = match runtime.symbols.by_name.get(command.symbol.as_str()) {
                Some(symbol) => symbol,
                None => {
                    return Err(CTraderError::SymbolNotFound(command.symbol.clone()));
                },
            };
            assert(runtime@.symbols.by_name[command.symbol@] == symbol@);
            let side: i64 = match command.side {
                Some(Side::Buy) => 1,
                Some(Side::Sell) => 2,
                None => {
                    return Err(CTraderError::SideOmitted);
                },
            };
            let volume: i64 = to_units(command.volume, symbol);
            if volume <= 0 {
                return Err(CTraderError::ZeroVolume);
            }
            let mut members = no_members();
            put(&mut members, "ctidTraderAccountId", Json::Signed(ctid));
            put(&mut members, "symbolId", Json::Signed(symbol.id));
            put(&mut members, "orderType", Json::Signed(1));
            put(&mut members, "tradeSide", Json::Signed(side));
            put(&mut members, "volume", Json::Signed(volume));
            put(&mut members, "clientOrderId", Json::Text(command.command_id.clone()));
            put(
                &mut members,
                "label",
                Json::Text(joined("CopierR:", command.command_id.as_str())),
            );
            assert(json::seen_members(members@) =~= request_of(
                runtime@,
                command@,
            )->Ok_0.1->Object_0);
            Ok((NEW_ORDER_REQ, object(members)))
        },
        TradeAction::Modify => {
            let position_id: i64 = parse_target_position(command)?;
            Ok(
                (
                    AMEND_POSITION_SLTP_REQ,
                    protection_json(ctid, position_id, command.stop_loss, command.take_profit),
                ),
            )
        },
        TradeAction::Reduce | TradeAction::Close => {
            let position_id: i64 = parse_target_position(command)?;
            let symbol = match runtime.symbols.by_name.get(command.symbol.as_str()) {
                Some(symbol) => symbol,
                None => {
                    return Err(CTraderError::SymbolNotFound(command.symbol.clone()));
                },
            };
            assert(runtime@.symbols.by_name[command.symbol@] == symbol@);
            let name = write_i64(position_id);
            let held: Option<Double> = if command.action == TradeAction::Close {
                match runtime.positions.get(name.as_str()) {
                    Some(position) => Some(position.volume_lots),
                    None => None,
                }
            } else {
                None
            };
            let lots = match held {
                Some(lots) => lots,
                None => command.volume,
            };
            let volume: i64 = to_units(lots, symbol);
            let mut members = no_members();
            put(&mut members, "ctidTraderAccountId", Json::Signed(ctid));
            put(&mut members, "positionId", Json::Signed(position_id));
            put(&mut members, "volume", Json::Signed(volume));
            assert(json::seen_members(members@) =~= request_of(
                runtime@,
                command@,
            )->Ok_0.1->Object_0);
            Ok((CLOSE_POSITION_REQ, object(members)))
        },
    }
}

/// The name of the order or position that a report gives.
pub open spec fn external_of(payload: JsonView) -> Option<Seq<char>> {
    match json::read_text_in(json::nested(payload.member("position"@), "positionId"@)) {
        Some(id) => Some(id),
        None => json::read_text_in(json::nested(payload.member("order"@), "orderId"@)),
    }
}

/// The name of the order or position that a report gives.
pub fn execution_external_id(payload: &Json) -> (r: Option<String>)
    ensures
        r.deep_view() == external_of(payload@),
{
    match read_text(member_in(payload.get("position"), "positionId")) {
        Some(id) => Some(id),
        None => read_text(member_in(payload.get("order"), "orderId")),
    }
}

/// The acknowledgement of a command.
pub open spec fn ack_of(
    command: ExecutionCommandView,
    status: AckStatus,
    external_id: Option<Seq<char>>,
    message: Option<Seq<char>>,
    now: i64,
) -> ExecutionAckView {
    ExecutionAckView {
        command_id: command.command_id,
        account_id: command.target_account_id,
        status,
        external_id,
        timestamp_unix_ns: now,
        message,
    }
}

fn make_ack(
    command: &ExecutionCommand,
    status: AckStatus,
    external_id: Option<String>,
    message: Option<String>,
    now: i64,
) -> (r: ExecutionAck)
    ensures
        r@ == ack_of(command@, status, external_id.deep_view(), message.deep_view(), now),
{
    ExecutionAck {
        command_id: command.command_id.clone(),
        account_id: command.target_account_id.clone(),
        status,
        external_id,
        timestamp_unix_ns: now,
        message,
    }
}

/// The acknowledgement of a command whose outcome is not known.
pub fn unknown_ack(command: &ExecutionCommand, message: &str, now_unix_ns: i64) -> (r: ExecutionAck)
    ensures
        r@ == ack_of(command@, AckStatus::Unknown, None, Some(message@), now_unix_ns),
{
    make_ack(command, AckStatus::Unknown, None, Some(message.to_owned()), now_unix_ns)
}

/// The event that a position of an account gives rise to.
pub open spec fn event_of(
    account: AccountView,
    position: PositionView,
    action: TradeAction,
    volume: Double,
    remaining: Double,
    now: i64,
) -> TradeEventView {
    TradeEventView {
        event_id: "ctrader:"@ + account.account_id + ":"@ + position.id + ":"@ + action.name() + ":"@
            + text::integer_text(now as int),
        source_account_id: account.account_id,
        platform: account.platform,
        action,
        source_order_id: position.id,
        symbol: position.symbol,
        side: Some(position.side),
        volume,
        remaining_volume: Some(remaining),
        price: position.price,
        stop_loss: position.stop_loss,
        take_profit: position.take_profit,
        timestamp_unix_ns: now,
        origin_command_id: position.origin_command_id,
    }
}

fn make_event(
    runtime: &AccountRuntime,
    position: &PositionSnapshot,
    action: TradeAction,
    volume: Double,
    remaining: Double,
    now: i64,
) -> (r: Result<TradeEvent, CTraderError>)
    ensures
        ({
            let event = event_of(runtime@, position@, action, volume, remaining, now);
            match event.fault() {
                None => r is Ok && r->Ok_0@ == event,
                Some(fault) => r is Err && r->Err_0@ == CTraderErrorView::Model(fault),
            }
        }),
{
    let mut event_id = joined_three("ctrader:", runtime.account_id.as_str(), ":");
    event_id.append(position.id.as_str());
    event_id.append(":");
    let name = action.to_string();
    event_id.append(name.as_str());
    event_id.append(":");
    let time = write_i64(now);
    event_id.append(time.as_str());
    let event = TradeEvent {
        event_id,
        source_account_id: runtime.account_id.clone(),
        platform: runtime.platform,
        action,
        source_order_id: position.id.clone(),
        symbol: position.symbol.clone(),
        side: Some(position.side),
        volume,
        remaining_volume: Some(remaining),
        price: position.price,
        stop_loss: position.stop_loss,
        take_profit: position.take_profit,
        timestamp_unix_ns: now,
        origin_command_id: model::copy_text(&position.origin_command_id),
    };
    match event.validate() {
        Ok(_) => Ok(event),
        Err(error) => Err(CTraderError::Model(error)),
    }
}

/// What a report of a position does: the account after it, the event that it
/// gives rise to, and what stands in its way.
pub struct PositionStep {
    pub account: AccountView,
    pub event: Option<TradeEventView>,
    pub fault: Option<CTraderErrorView>,
}

/// The event for a position that is open, if there is one to give: it is new,
/// it became smaller, or its protection moved. One that grew gives none.
pub open spec fn change_of(
    account: AccountView,
    current: PositionView,
    now: i64,
) -> Option<TradeEventView> {
    let volume = current.volume_lots;
    if !account.publishes {
        None
    } else if !account.positions.contains_key(current.id) {
        Some(event_of(account, current, TradeAction::Open, volume, volume, now))
    } else {
        let old = account.positions[current.id];
        if volume.sum(venues::volume_step()).lt(old.volume_lots) {
            Some(
                event_of(
                    account,
                    current,
                    TradeAction::Reduce,
                    old.volume_lots.difference(volume),
                    volume,
                    now,
                ),
            )
        } else if old.volume_lots.sum(venues::volume_step()).lt(volume) {
            None
        } else if venues::moved(old.stop_loss, current.stop_loss) || venues::moved(
            old.take_profit,
            current.take_profit,
        ) {
            Some(event_of(account, current, TradeAction::Modify, volume, volume, now))
        } else {
            None
        }
    }
}

/// A step that gives an event, or its fault where it has one.
pub open spec fn give(account: AccountView, next: AccountView, event: TradeEventView) -> PositionStep {
    match event.fault() {
        Some(fault) => PositionStep {
            account,
            event: None,
            fault: Some(CTraderErrorView::Model(fault)),
        },
        None => PositionStep { account: next, event: Some(event), fault: None },
    }
}

/// The number of the status of a position; nothing stands for open.
pub open spec fn status_number(position: JsonView) -> i64 {
    match json::number_of(
        position.member("positionStatus"@),
        seq![
            ("POSITION_STATUS_OPEN", 1i64),
            ("POSITION_STATUS_CLOSED", 2i64),
            ("POSITION_STATUS_CREATED", 3i64),
            ("POSITION_STATUS_ERROR", 4i64),
        ],
    ) {
        Some(n) => n,
        None => 1,
    }
}

/// What a report does to the positions of an account.
pub open spec fn position_step(account: AccountView, payload: JsonView, now: i64) -> PositionStep {
    let still = PositionStep { account, event: None, fault: None };
    match payload.member("position"@) {
        None => still,
        Some(position) => match json::read_text_in(position.member("positionId"@)) {
            None => PositionStep {
                account,
                event: None,
                fault: Some(CTraderErrorView::PositionIdOmitted),
            },
            Some(id) => if status_number(position) == 2 {
                if account.positions.contains_key(id) {
                    let old = account.positions[id];
                    let next = AccountView { positions: account.positions.remove(id), ..account };
                    if account.publishes {
                        give(
                            next,
                            next,
                            event_of(
                                next,
                                old,
                                TradeAction::Close,
                                old.volume_lots,
                                routing::zero(),
                                now,
                            ),
                        )
                    } else {
                        PositionStep { account: next, event: None, fault: None }
                    }
                } else {
                    still
                }
            } else {
                match position_of(position, account.symbols.by_id) {
                    Err(fault) => PositionStep { account, event: None, fault: Some(fault) },
                    Ok(current) => {
                        let next = AccountView {
                            positions: account.positions.insert(id, current),
                            ..account
                        };
                        match change_of(account, current, now) {
                            Some(event) => give(account, next, event),
                            None => PositionStep { account: next, event: None, fault: None },
                        }
                    },
                }
            },
        },
    }
}

/// Takes a report into the positions of an account.
pub fn update_position_from_execution(runtime: &mut AccountRuntime, payload: &Json, now_unix_ns: i64)
    -> (r: Result<Option<TradeEvent>, CTraderError>)
    ensures
        ({
            let step = position_step(old(runtime)@, payload@, now_unix_ns);
            &&& final(runtime)@ == step.account
            &&& match step.fault {
                Some(fault) => r is Err && r->Err_0@ == fault,
                None => r is Ok && seen_event(r->Ok_0) == step.event,
            }
        }),
{
    let position = match payload.get("position") {
        Some(position) => position,
        None => {
            return Ok(None);
        },
    };
    let position_id = match read_text(position.get("positionId")) {
        Some(id) => id,
        None => {
            return Err(CTraderError::PositionIdOmitted);
        },
    };
    let names: [(&str, i64); 4] = [
        ("POSITION_STATUS_OPEN", 1),
        ("POSITION_STATUS_CLOSED", 2),
        ("POSITION_STATUS_CREATED", 3),
        ("POSITION_STATUS_ERROR", 4),
    ];
    assert(names@ =~= seq![
        ("POSITION_STATUS_OPEN", 1i64),
        ("POSITION_STATUS_CLOSED", 2i64),
        ("POSITION_STATUS_CREATED", 3i64),
        ("POSITION_STATUS_ERROR", 4i64),
    ]);
    let status: i64 = match enum_number(position.get("positionStatus"), &names) {
        Some(status) => status,
        None => 1,
    };
    let ghost before = runtime@;
    let ghost held = runtime.positions@;
    if status == 2 {
        match runtime.positions.remove(position_id.as_str()) {
            None => {
                assert(held.remove(position_id@) =~= held);
                return Ok(None);
            },
            Some(old) => {
                assert(table::seen(runtime.positions@) =~= table::seen(held).remove(
                    position_id@,
                ));
                assert(old@ == before.positions[position_id@]);
                if !runtime.publishes {
                    return Ok(None);
                }
                let event = make_event(
                    runtime,
                    &old,
                    TradeAction::Close,
                    old.volume_lots,
                    Double { bits: 0 },
                    now_unix_ns,
                )?;
                return Ok(Some(event));
            },
        }
    }
    let current = parse_position(position, &runtime.symbols)?;
    assert(current@.id == position_id@);
    let change = describe_change(runtime, &current, now_unix_ns)?;
    let ghost view = current@;
    runtime.positions.insert(position_id, current);
    assert(table::seen(runtime.positions@) =~= table::seen(held).insert(view.id, view));
    Ok(change)
}

/// An event that may be absent, by its view.
pub open spec fn seen_event(event: Option<TradeEvent>) -> Option<TradeEventView> {
    match event {
        Some(inner) => Some(inner@),
        None => None,
    }
}

/// The event for a position that is open.
fn describe_change(runtime: &AccountRuntime, current: &PositionSnapshot, now: i64) -> (r: Result<
    Option<TradeEvent>,
    CTraderError,
>)
    ensures
        match change_of(runtime@, current@, now) {
            None => r is Ok && r->Ok_0 is None,
            Some(event) => match event.fault() {
                None => r is Ok && seen_event(r->Ok_0) == Some(event),
                Some(fault) => r is Err && r->Err_0@ == CTraderErrorView::Model(fault),
            },
        },
{
    if !runtime.publishes {
        return Ok(None);
    }
    let volume = current.volume_lots;
    let old = match runtime.positions.get(current.id.as_str()) {
        Some(old) => old,
        None => {
            let event = make_event(runtime, current, TradeAction::Open, volume, volume, now)?;
            return Ok(Some(event));
        },
    };
    assert(runtime@.positions[current.id@] == old@);
    if volume.plus(least_volume()).below(old.volume_lots) {
        let event = make_event(
            runtime,
            current,
            TradeAction::Reduce,
            old.volume_lots.minus(volume),
            volume,
            now,
        )?;
        return Ok(Some(event));
    }
    if old.volume_lots.plus(least_volume()).below(volume) {
        return Ok(None);
    }
    if changed_price(old.stop_loss, current.stop_loss) || changed_price(
        old.take_profit,
        current.take_profit,
    ) {
        let event = make_event(runtime, current, TradeAction::Modify, volume, volume, now)?;
        return Ok(Some(event));
    }
    Ok(None)
}

/// What is to be done for the accounts at cTrader.
#[derive(Debug)]
pub enum HubAction {
    /// An account acknowledges a command.
    Ack(ExecutionAck),
    /// A request is sent.
    Send { payload_type: i64, client_msg_id: String, payload: Json },
    /// An account reports an event.
    Event { account_id: String, event: TradeEvent },
}

/// What that holds.
pub enum HubActionView {
    Ack(ExecutionAckView),
    Send { payload_type: i64, client_msg_id: Seq<char>, payload: JsonView },
    Event { account_id: Seq<char>, event: TradeEventView },
}

impl View for HubAction {
    type V = HubActionView;

    open spec fn view(&self) -> HubActionView {
        match self {
            HubAction::Ack(ack) => HubActionView::Ack(ack@),
            HubAction::Send { payload_type, client_msg_id, payload } => HubActionView::Send {
                payload_type: *payload_type,
                client_msg_id: client_msg_id@,
                payload: payload@,
            },
            HubAction::Event { account_id, event } => HubActionView::Event {
                account_id: account_id@,
                event: event@,
            },
        }
    }
}

/// The connected accounts, the commands that wait for a report, and those that
/// were filled and wait for their protection, with the position.
pub struct Hub {
    pub accounts: Vec<AccountRuntime>,
    pub pending: Table<ExecutionCommand>,
    pub protections: Table<(ExecutionCommand, String)>,
}

/// What a hub holds.
#[verifier::ext_equal]
pub struct HubView {
    pub accounts: Seq<AccountView>,
    pub pending: Map<Seq<char>, ExecutionCommandView>,
    pub protections: Map<Seq<char>, (ExecutionCommandView, Seq<char>)>,
}

/// Accounts, seen through their views.
pub open spec fn seen_accounts(accounts: Seq<AccountRuntime>) -> Seq<AccountView> {
    accounts.map_values(|account: AccountRuntime| account@)
}

/// Commands with their positions, seen through their views.
pub open spec fn seen_protections(
    protections: Map<Seq<char>, (ExecutionCommand, String)>,
) -> Map<Seq<char>, (ExecutionCommandView, Seq<char>)> {
    protections.map_values(|entry: (ExecutionCommand, String)| (entry.0@, entry.1@))
}

impl View for Hub {
    type V = HubView;

    open spec fn view(&self) -> HubView {
        HubView {
            accounts: seen_accounts(self.accounts@),
            pending: table::seen(self.pending@),
            protections: seen_protections(self.protections@),
        }
    }
}

/// What a step of a hub comes to.
pub struct HubStep {
    pub hub: HubView,
    pub actions: Seq<HubActionView>,
    pub fault: Option<CTraderErrorView>,
}

/// The place of the first account with a number.
pub open spec fn place_of_ctid(accounts: Seq<AccountView>, ctid: i64) -> Option<int>
    decreases accounts.len(),
{
    if accounts.len() == 0 {
        None
    } else {
        match place_of_ctid(accounts.drop_last(), ctid) {
            Some(place) => Some(place),
            None => if accounts.last().ctid == ctid {
                Some(accounts.len() - 1)
            } else {
                None
            },
        }
    }
}

/// The place of the first account of a name.
pub open spec fn place_of_id(accounts: Seq<AccountView>, id: Seq<char>) -> Option<int>
    decreases accounts.len(),
{
    if accounts.len() == 0 {
        None
    } else {
        match place_of_id(accounts.drop_last(), id) {
            Some(place) => Some(place),
            None => if accounts.last().account_id == id {
                Some(accounts.len() - 1)
            } else {
                None
            },
        }
    }
}

proof fn lemma_ctid_found(accounts: Seq<AccountView>, ctid: i64, n: int)
    requires
        0 <= n <= accounts.len(),
        place_of_ctid(accounts.take(n), ctid) is Some,
    ensures
        place_of_ctid(accounts, ctid) == place_of_ctid(accounts.take(n), ctid),
    decreases accounts.len(),
{
    if n == accounts.len() {
        assert(accounts.take(n) =~= accounts);
    } else {
        assert(accounts.drop_last().take(n) =~= accounts.take(n));
        lemma_ctid_found(accounts.drop_last(), ctid, n);
    }
}

proof fn lemma_id_found(accounts: Seq<AccountView>, id: Seq<char>, n: int)
    requires
        0 <= n <= accounts.len(),
        place_of_id(accounts.take(n), id) is Some,
    ensures
        place_of_id(accounts, id) == place_of_id(accounts.take(n), id),
    decreases accounts.len(),
{
    if n == accounts.len() {
        assert(accounts.take(n) =~= accounts);
    } else {
        assert(accounts.drop_last().take(n) =~= accounts.take(n));
        lemma_id_found(accounts.drop_last(), id, n);
    }
}

/// What a report does to the account that it names.
pub open spec fn hub_position_step(hub: HubView, ctid: i64, payload: JsonView, now: i64) -> HubStep {
    match place_of_ctid(hub.accounts, ctid) {
        None => HubStep { hub, actions: Seq::empty(), fault: None },
        Some(place) => {
            let step = position_step(hub.accounts[place], payload, now);
            HubStep {
                hub: HubView { accounts: hub.accounts.update(place, step.account), ..hub },
                actions: match step.event {
                    Some(event) => seq![
                        HubActionView::Event {
                            account_id: hub.accounts[place].account_id,
                            event,
                        },
                    ],
                    None => Seq::empty(),
                },
                fault: step.fault,
            }
        },
    }
}

/// The status that the kind of a final report stands for.
pub open spec fn final_status(execution_type: i64) -> AckStatus {
    if execution_type == 3 || execution_type == 4 {
        AckStatus::Filled
    } else if 5 <= execution_type <= 8 {
        AckStatus::Rejected
    } else {
        AckStatus::Unknown
    }
}

/// Why a protected opening is settled.
pub open spec fn finalized() -> Seq<char> {
    "cTrader position protection finalized"@
}

/// What a final report settles: the protection of a command that was filled;
/// or a command, whose opening asks for its protection first where it has one.
pub open spec fn settle_step(
    hub: HubView,
    id: Seq<char>,
    execution_type: i64,
    payload: JsonView,
    now: i64,
) -> HubStep {
    if hub.protections.contains_key(id) {
        let (command, position) = hub.protections[id];
        HubStep {
            hub: HubView { protections: hub.protections.remove(id), ..hub },
            actions: seq![
                HubActionView::Ack(
                    ack_of(
                        command,
                        final_status(execution_type),
                        Some(position),
                        Some(finalized()),
                        now,
                    ),
                ),
            ],
            fault: None,
        }
    } else if hub.pending.contains_key(id) {
        let command = hub.pending[id];
        let rest = HubView { pending: hub.pending.remove(id), ..hub };
        let external_id = match external_of(payload) {
            Some(given) => Some(given),
            None => command.target_order_id,
        };
        if command.action == TradeAction::Open && (execution_type == 3 || execution_type == 4) && (
        command.stop_loss is Some || command.take_profit is Some) {
            protect_step(rest, command, external_id, now)
        } else {
            HubStep {
                hub: rest,
                actions: seq![
                    HubActionView::Ack(
                        ack_of(
                            command,
                            final_status(execution_type),
                            external_id,
                            json::text_in(payload.member("errorCode"@)),
                            now,
                        ),
                    ),
                ],
                fault: None,
            }
        }
    } else {
        HubStep { hub, actions: Seq::empty(), fault: None }
    }
}

/// The protection that is asked for a command that was filled. Without a
/// position its outcome is not known.
pub open spec fn protect_step(
    hub: HubView,
    command: ExecutionCommandView,
    position: Option<Seq<char>>,
    now: i64,
) -> HubStep {
    match position {
        None => HubStep {
            hub,
            actions: seq![
                HubActionView::Ack(
                    ack_of(
                        command,
                        AckStatus::Unknown,
                        None,
                        Some("cTrader fill omitted position id"@),
                        now,
                    ),
                ),
            ],
            fault: None,
        },
        Some(name) => match place_of_id(hub.accounts, command.target_account_id) {
            None => HubStep {
                hub,
                actions: Seq::empty(),
                fault: Some(CTraderErrorView::NoRuntime),
            },
            Some(place) => match json::whole_in(name) {
                None => HubStep {
                    hub,
                    actions: Seq::empty(),
                    fault: Some(CTraderErrorView::InvalidPositionId),
                },
                Some(number) => {
                    let id = "p:"@ + command.command_id;
                    HubStep {
                        hub: HubView {
                            protections: hub.protections.insert(id, (command, name)),
                            ..hub
                        },
                        actions: seq![
                            HubActionView::Send {
                                payload_type: AMEND_POSITION_SLTP_REQ,
                                client_msg_id: id,
                                payload: JsonView::Object(
                                    protection_members(
                                        hub.accounts[place].ctid,
                                        number,
                                        command.stop_loss,
                                        command.take_profit,
                                    ),
                                ),
                            },
                        ],
                        fault: None,
                    }
                },
            },
        },
    }
}

/// What the refusal of a request does: the command that it was for is
/// rejected; one that was filled and whose protection was refused is unknown.
pub open spec fn refusal_step(hub: HubView, id: Seq<char>, payload: JsonView, now: i64) -> HubStep {
    if hub.pending.contains_key(id) {
        let given = match payload.member("description"@) {
            Some(description) => Some(description),
            None => payload.member("errorCode"@),
        };
        let message = match json::text_in(given) {
            Some(words) => words,
            None => "cTrader rejected request"@,
        };
        HubStep {
            hub: HubView { pending: hub.pending.remove(id), ..hub },
            actions: seq![
                HubActionView::Ack(
                    ack_of(hub.pending[id], AckStatus::Rejected, None, Some(message), now),
                ),
            ],
            fault: None,
        }
    } else if hub.protections.contains_key(id) {
        HubStep {
            hub: HubView { protections: hub.protections.remove(id), ..hub },
            actions: seq![
                HubActionView::Ack(
                    ack_of(
                        hub.protections[id].0,
                        AckStatus::Unknown,
                        Some(hub.protections[id].1),
                        Some("cTrader order filled but SL/TP protection request failed"@),
                        now,
                    ),
                ),
            ],
            fault: None,
        }
    } else {
        HubStep { hub, actions: Seq::empty(), fault: None }
    }
}

/// The number of the kind of a report; nothing stands for zero.
pub open spec fn execution_number(payload: JsonView) -> i64 {
    match json::number_of(
        payload.member("executionType"@),
        seq![
            ("ORDER_ACCEPTED", 2i64),
            ("ORDER_FILLED", 3i64),
            ("ORDER_REPLACED", 4i64),
            ("ORDER_CANCELLED", 5i64),
            ("ORDER_EXPIRED", 6i64),
            ("ORDER_REJECTED", 7i64),
            ("ORDER_CANCEL_REJECTED", 8i64),
            ("ORDER_PARTIAL_FILL", 11i64),
        ],
    ) {
        Some(n) => n,
        None => 0,
    }
}

/// Whether a report says that a command is under way, and not yet what became
/// of it.
pub open spec fn under_way(execution_type: i64) -> bool {
    execution_type == 2 || execution_type == 11
}

/// What a report of an execution does.
pub open spec fn execution_step(hub: HubView, id: Seq<char>, payload: JsonView, now: i64) -> HubStep {
    match json::read_whole_in(payload.member("ctidTraderAccountId"@)) {
        None => HubStep {
            hub,
            actions: Seq::empty(),
            fault: Some(CTraderErrorView::AccountOmitted),
        },
        Some(ctid) => if under_way(execution_number(payload)) {
            hub_position_step(hub, ctid, payload, now)
        } else {
            let settled = settle_step(hub, id, execution_number(payload), payload, now);
            if settled.fault is Some {
                settled
            } else {
                let step = hub_position_step(settled.hub, ctid, payload, now);
                HubStep {
                    hub: step.hub,
                    actions: settled.actions + step.actions,
                    fault: step.fault,
                }
            }
        },
    }
}

/// What a message of cTrader does.
pub open spec fn message_step(hub: HubView, value: JsonView, now: i64) -> HubStep {
    let payload_type = match value.member("payloadType"@) {
        Some(kind) => match kind.whole() {
            Some(n) => n,
            None => 0,
        },
        None => 0,
    };
    let id = match json::text_in(value.member("clientMsgId"@)) {
        Some(id) => id,
        None => Seq::empty(),
    };
    let payload = match value.member("payload"@) {
        Some(payload) => payload,
        None => JsonView::Object(Seq::empty()),
    };
    if payload_type == EXECUTION_EVENT {
        execution_step(hub, id, payload, now)
    } else if payload_type == ORDER_ERROR_EVENT || payload_type == ERROR_RES {
        refusal_step(hub, id, payload, now)
    } else {
        HubStep { hub, actions: Seq::empty(), fault: None }
    }
}

/// What a command does: it is sent and waits for a report; one that cannot be
/// sent is rejected; one for an account that is not here is dropped.
pub open spec fn command_step(hub: HubView, command: ExecutionCommandView, now: i64) -> HubStep {
    match place_of_id(hub.accounts, command.target_account_id) {
        None => HubStep { hub, actions: Seq::empty(), fault: None },
        Some(place) => match request_of(hub.accounts[place], command) {
            Ok((payload_type, payload)) => HubStep {
                hub: HubView { pending: hub.pending.insert(command.command_id, command), ..hub },
                actions: seq![
                    HubActionView::Send {
                        payload_type,
                        client_msg_id: command.command_id,
                        payload,
                    },
                ],
                fault: None,
            },
            Err(error) => HubStep {
                hub,
                actions: seq![
                    HubActionView::Ack(
                        ack_of(command, AckStatus::Rejected, None, Some(error.words()), now),
                    ),
                ],
                fault: None,
            },
        },
    }
}

/// What is to be done, and what stands in the way of more.
#[derive(Debug)]
pub struct HubResult {
    pub actions: Vec<HubAction>,
    pub fault: Option<CTraderError>,
}

/// Actions, seen through their views.
pub open spec fn seen_actions(actions: Seq<HubAction>) -> Seq<HubActionView> {
    actions.map_values(|action: HubAction| action@)
}

/// A fault that may be absent, by its view.
pub open spec fn seen_fault(fault: Option<CTraderError>) -> Option<CTraderErrorView> {
    match fault {
        Some(error) => Some(error@),
        None => None,
    }
}

impl HubResult {
    /// Whether this is what a step comes to.
    pub open spec fn shows(self, step: HubStep) -> bool {
        seen_actions(self.actions@) == step.actions && seen_fault(self.fault) == step.fault
    }

    fn nothing() -> (r: HubResult)
        ensures
            seen_actions(r.actions@) == Seq::<HubActionView>::empty(),
            seen_fault(r.fault) is None,
    {
        let actions: Vec<HubAction> = Vec::new();
        assert(seen_actions(actions@) =~= Seq::empty());
        HubResult { actions, fault: None }
    }

    fn one(action: HubAction) -> (r: HubResult)
        ensures
            seen_actions(r.actions@) == seq![action@],
            seen_fault(r.fault) is None,
    {
        let mut actions: Vec<HubAction> = Vec::new();
        actions.push(action);
        assert(seen_actions(actions@) =~= seq![action@]);
        HubResult { actions, fault: None }
    }

    fn failed(error: CTraderError) -> (r: HubResult)
        ensures
            seen_actions(r.actions@) == Seq::<HubActionView>::empty(),
            seen_fault(r.fault) == Some(error@),
    {
        let actions: Vec<HubAction> = Vec::new();
        assert(seen_actions(actions@) =~= Seq::empty());
        HubResult { actions, fault: Some(error) }
    }
}

impl Hub {
    /// A hub without accounts.
    pub fn new() -> (r: Hub)
        ensures
            r@ == (HubView {
                accounts: Seq::empty(),
                pending: Map::empty(),
                protections: Map::empty(),
            }),
    {
        let r = Hub { accounts: Vec::new(), pending: Table::new(), protections: Table::new() };
        assert(r@ =~= (HubView {
            accounts: Seq::empty(),
            pending: Map::empty(),
            protections: Map::empty(),
        }));
        r
    }

    fn find_ctid(&self, ctid: i64) -> (r: Option<usize>)
        ensures
            match r {
                Some(i) => i < self.accounts.len() && place_of_ctid(self@.accounts, ctid) == Some(
                    i as int,
                ),
                None => place_of_ctid(self@.accounts, ctid) is None,
            },
    {
        let ghost all = self@.accounts;
        let mut i: usize = 0;
        while i < self.accounts.len()
            invariant
                i <= self.accounts.len(),
                all == self@.accounts,
                place_of_ctid(all.take(i as int), ctid) is None,
            decreases self.accounts.len() - i,
        {
            proof {
                assert(all.take(i + 1).drop_last() =~= all.take(i as int));
                assert(all[i as int] == self.accounts@[i as int]@);
            }
            if self.accounts[i].ctid == ctid {
                proof {
                    lemma_ctid_found(all, ctid, i + 1);
                }
                return Some(i);
            }
            i = i + 1;
        }
        assert(all.take(i as int) =~= all);
        None
    }

    fn find_id(&self, id: &str) -> (r: Option<usize>)
        ensures
            match r {
                Some(i) => i < self.accounts.len() && place_of_id(self@.accounts, id@) == Some(
                    i as int,
                ),
                None => place_of_id(self@.accounts, id@) is None,
            },
    {
        let ghost all = self@.accounts;
        let mut i: usize = 0;
        while i < self.accounts.len()
            invariant
                i <= self.accounts.len(),
                all == self@.accounts,
                place_of_id(all.take(i as int), id@) is None,
            decreases self.accounts.len() - i,
        {
            proof {
                assert(all.take(i + 1).drop_last() =~= all.take(i as int));
                assert(all[i as int] == self.accounts@[i as int]@);
            }
            if same(self.accounts[i].account_id.as_str(), id) {
                proof {
                    lemma_id_found(all, id@, i + 1);
                }
                return Some(i);
            }
            i = i + 1;
        }
        assert(all.take(i as int) =~= all);
        None
    }

    fn update_position(&mut self, ctid: i64, payload: &Json, now: i64) -> (r: HubResult)
        ensures
            final(self)@ == hub_position_step(old(self)@, ctid, payload@, now).hub,
            r.shows(hub_position_step(old(self)@, ctid, payload@, now)),
    {
        let ghost before = self@;
        let place: usize = match self.find_ctid(ctid) {
            Some(place) => place,
            None => {
                return HubResult::nothing();
            },
        };
        let account_id = self.accounts[place].account_id.clone();
        let ghost account = self.accounts@[place as int]@;
        assert(before.accounts[place as int] == account);
        let outcome = update_position_from_execution(&mut self.accounts[place], payload, now);
        assert(seen_accounts(self.accounts@) =~= before.accounts.update(
            place as int,
            position_step(account, payload@, now).account,
        ));
        match outcome {
            Err(error) => {
                assert(position_step(account, payload@, now).event is None);
                HubResult::failed(error)
            },
            Ok(None) => HubResult::nothing(),
            Ok(Some(event)) => HubResult::one(HubAction::Event { account_id, event }),
        }
    }

    fn protect(&mut self, command: ExecutionCommand, position: Option<String>, now: i64) -> (r:
        HubResult)
        ensures
            final(self)@ == protect_step(old(self)@, command@, position.deep_view(), now).hub,
            r.shows(protect_step(old(self)@, command@, position.deep_view(), now)),
    {
        let name = match position {
            Some(name) => name,
            None => {
                return HubResult::one(
                    HubAction::Ack(unknown_ack(&command, "cTrader fill omitted position id", now)),
                );
            },
        };
        let place: usize = match self.find_id(command.target_account_id.as_str()) {
            Some(place) => place,
            None => {
                return HubResult::failed(CTraderError::NoRuntime);
            },
        };
        let ctid: i64 = self.accounts[place].ctid;
        assert(self@.accounts[place as int].ctid == ctid);
        let number: i64 = match read_i64(name.as_str()) {
            Some(number) => number,
            None => {
                return HubResult::failed(CTraderError::InvalidPositionId);
            },
        };
        let id = joined("p:", command.command_id.as_str());
        let payload = protection_json(ctid, number, command.stop_loss, command.take_profit);
        let ghost before = self.protections@;
        let ghost entry = (command@, name@);
        self.protections.insert(id.clone(), (command, name));
        assert(seen_protections(self.protections@) =~= seen_protections(before).insert(
            id@,
            entry,
        ));
        HubResult::one(
            HubAction::Send { payload_type: AMEND_POSITION_SLTP_REQ, client_msg_id: id, payload },
        )
    }

    fn settle(&mut self, id: &str, execution_type: i64, payload: &Json, now: i64) -> (r: HubResult)
        ensures
            final(self)@ == settle_step(old(self)@, id@, execution_type, payload@, now).hub,
            r.shows(settle_step(old(self)@, id@, execution_type, payload@, now)),
    {
        let status = if execution_type == 3 || execution_type == 4 {
            AckStatus::Filled
        } else if 5 <= execution_type && execution_type <= 8 {
            AckStatus::Rejected
        } else {
            AckStatus::Unknown
        };
        let ghost before = self@;
        let ghost protections = self.protections@;
        let ghost pending = self.pending@;
        if let Some((command, position)) = self.protections.remove(id) {
            assert(seen_protections(self.protections@) =~= seen_protections(protections).remove(
                id@,
            ));
            assert(before.protections[id@] == (command@, position@));
            let ack = make_ack(
                &command,
                status,
                Some(position),
                Some("cTrader position protection finalized".to_owned()),
                now,
            );
            return HubResult::one(HubAction::Ack(ack));
        }
        assert(protections.remove(id@) =~= protections);
        let command = match self.pending.remove(id) {
            Some(command) => command,
            None => {
                assert(pending.remove(id@) =~= pending);
                return HubResult::nothing();
            },
        };
        assert(table::seen(self.pending@) =~= table::seen(pending).remove(id@));
        assert(before.pending[id@] == command@);
        let external_id = match execution_external_id(payload) {
            Some(given) => Some(given),
            None => model::copy_text(&command.target_order_id),
        };
        if command.action == TradeAction::Open && (execution_type == 3 || execution_type == 4) && (
        command.stop_loss.is_some() || command.take_profit.is_some()) {
            return self.protect(command, external_id, now);
        }
        let message: Option<String> = match payload.get("errorCode") {
            Some(inner) => match inner.as_text() {
                Some(code) => Some(code.clone()),
                None => None,
            },
            None => None,
        };
        let ack = make_ack(&command, status, external_id, message, now);
        HubResult::one(HubAction::Ack(ack))
    }

    fn refuse(&mut self, id: &str, payload: &Json, now: i64) -> (r: HubResult)
        ensures
            final(self)@ == refusal_step(old(self)@, id@, payload@, now).hub,
            r.shows(refusal_step(old(self)@, id@, payload@, now)),
    {
        let ghost before = self@;
        let ghost protections = self.protections@;
        let ghost pending = self.pending@;
        if let Some(command) = self.pending.remove(id) {
            assert(table::seen(self.pending@) =~= table::seen(pending).remove(id@));
            assert(before.pending[id@] == command@);
            let given = match payload.get("description") {
                Some(description) => Some(description),
                None => payload.get("errorCode"),
            };
            let words: Option<String> = match given {
                Some(inner) => match inner.as_text() {
                    Some(words) => Some(words.clone()),
                    None => None,
                },
                None => None,
            };
            let message = match words {
                Some(words) => words,
                None => "cTrader rejected request".to_owned(),
            };
            let ack = make_ack(&command, AckStatus::Rejected, None, Some(message), now);
            return HubResult::one(HubAction::Ack(ack));
        }
        assert(pending.remove(id@) =~= pending);
        if let Some((command, position)) = self.protections.remove(id) {
            assert(seen_protections(self.protections@) =~= seen_protections(protections).remove(
                id@,
            ));
            assert(before.protections[id@] == (command@, position@));
            let ack = make_ack(
                &command,
                AckStatus::Unknown,
                Some(position),
                Some("cTrader order filled but SL/TP protection request failed".to_owned()),
                now,
            );
            return HubResult::one(HubAction::Ack(ack));
        }
        assert(protections.remove(id@) =~= protections);
        HubResult::nothing()
    }

    fn execute(&mut self, id: &str, payload: &Json, now: i64) -> (r: HubResult)
        ensures
            final(self)@ == execution_step(old(self)@, id@, payload@, now).hub,
            r.shows(execution_step(old(self)@, id@, payload@, now)),
    {
        let ctid: i64 = match read_whole(payload.get("ctidTraderAccountId")) {
            Some(ctid) => ctid,
            None => {
                return HubResult::failed(CTraderError::AccountOmitted);
            },
        };
        let names: [(&str, i64); 8] = [
            ("ORDER_ACCEPTED", 2),
            ("ORDER_FILLED", 3),
            ("ORDER_REPLACED", 4),
            ("ORDER_CANCELLED", 5),
            ("ORDER_EXPIRED", 6),
            ("ORDER_REJECTED", 7),
            ("ORDER_CANCEL_REJECTED", 8),
            ("ORDER_PARTIAL_FILL", 11),
        ];
        assert(names@ =~= seq![
            ("ORDER_ACCEPTED", 2i64),
            ("ORDER_FILLED", 3i64),
            ("ORDER_REPLACED", 4i64),
            ("ORDER_CANCELLED", 5i64),
            ("ORDER_EXPIRED", 6i64),
            ("ORDER_REJECTED", 7i64),
            ("ORDER_CANCEL_REJECTED", 8i64),
            ("ORDER_PARTIAL_FILL", 11i64),
        ]);
        let execution_type: i64 = match enum_number(payload.get("executionType"), &names) {
            Some(number) => number,
            None => 0,
        };
        if execution_type == 2 || execution_type == 11 {
            return self.update_position(ctid, payload, now);
        }
        let settled = self.settle(id, execution_type, payload, now);
        if settled.fault.is_some() {
            return settled;
        }
        let mut actions = settled.actions;
        let ghost first = seen_actions(actions@);
        let step = self.update_position(ctid, payload, now);
        let ghost second = seen_actions(step.actions@);
        let mut more = step.actions;
        actions.append(&mut more);
        assert(seen_actions(actions@) =~= first + second);
        HubResult { actions, fault: step.fault }
    }

    /// Takes a message of cTrader.
    pub fn handle_message(&mut self, value: &Json, now_unix_ns: i64) -> (r: HubResult)
        ensures
            final(self)@ == message_step(old(self)@, value@, now_unix_ns).hub,
            r.shows(message_step(old(self)@, value@, now_unix_ns)),
    {
        let payload_type: i64 = match value.get("payloadType") {
            Some(kind) => match kind.as_whole() {
                Some(number) => number,
                None => 0,
            },
            None => 0,
        };
        let empty = String::new();
        assert(empty@ =~= Seq::empty());
        let id: &str = match value.get("clientMsgId") {
            Some(inner) => match inner.as_text() {
                Some(id) => id.as_str(),
                None => empty.as_str(),
            },
            None => empty.as_str(),
        };
        let none = object(no_members());
        let payload: &Json = match value.get("payload") {
            Some(payload) => payload,
            None => &none,
        };
        if payload_type == EXECUTION_EVENT {
            self.execute(id, payload, now_unix_ns)
        } else if payload_type == ORDER_ERROR_EVENT || payload_type == ERROR_RES {
            self.refuse(id, payload, now_unix_ns)
        } else {
            HubResult::nothing()
        }
    }

    /// Takes a command for one of the accounts.
    pub fn handle_command(&mut self, command: ExecutionCommand, now_unix_ns: i64) -> (r: HubResult)
        ensures
            final(self)@ == command_step(old(self)@, command@, now_unix_ns).hub,
            r.shows(command_step(old(self)@, command@, now_unix_ns)),
    {
        let place: usize = match self.find_id(command.target_account_id.as_str()) {
            Some(place) => place,
            None => {
                return HubResult::nothing();
            },
        };
        assert(self@.accounts[place as int] == self.accounts@[place as int]@);
        match command_message(&self.accounts[place], &command) {
            Ok((payload_type, payload)) => {
                let ghost pending = self.pending@;
                let id = command.command_id.clone();
                let ghost view = command@;
                self.pending.insert(command.command_id.clone(), command);
                assert(table::seen(self.pending@) =~= table::seen(pending).insert(id@, view));
                HubResult::one(HubAction::Send { payload_type, client_msg_id: id, payload })
            },
            Err(error) => {
                let ack = make_ack(
                    &command,
                    AckStatus::Rejected,
                    None,
                    Some(error.to_string()),
                    now_unix_ns,
                );
                HubResult::one(HubAction::Ack(ack))
            },
        }
    }
}

/// A message to cTrader: its kind, its name and what it holds.
#[derive(Debug)]
pub struct Request {
    pub payload_type: i64,
    pub client_msg_id: String,
    pub payload: Json,
}

/// What a message holds.
pub struct RequestView {
    pub payload_type: i64,
    pub client_msg_id: Seq<char>,
    pub payload: JsonView,
}

impl View for Request {
    type V = RequestView;

    open spec fn view(&self) -> RequestView {
        RequestView {
            payload_type: self.payload_type,
            client_msg_id: self.client_msg_id@,
            payload: self.payload@,
        }
    }
}

/// The frame that carries a message.
pub open spec fn frame_of(payload_type: i64, id: Seq<char>, payload: JsonView) -> JsonView {
    JsonView::Object(
        seq![
            ("clientMsgId"@, JsonView::Text(id)),
            ("payloadType"@, JsonView::Signed(payload_type)),
            ("payload"@, payload),
        ],
    )
}

/// The frame that carries a message.
pub fn request_frame(payload_type: i64, client_msg_id: &str, payload: Json) -> (r: Json)
    ensures
        r@ == frame_of(payload_type, client_msg_id@, payload@),
{
    let ghost view = payload@;
    let mut members = no_members();
    put(&mut members, "clientMsgId", Json::Text(client_msg_id.to_owned()));
    put(&mut members, "payloadType", Json::Signed(payload_type));
    put(&mut members, "payload", payload);
    assert(json::seen_members(members@) =~= frame_of(payload_type, client_msg_id@, view)->Object_0);
    object(members)
}

/// The message that keeps the connection.
pub fn heartbeat() -> (r: Request)
    ensures
        r@ == (RequestView {
            payload_type: HEARTBEAT_EVENT,
            client_msg_id: "heartbeat"@,
            payload: JsonView::Object(Seq::empty()),
        }),
{
    Request {
        payload_type: HEARTBEAT_EVENT,
        client_msg_id: "heartbeat".to_owned(),
        payload: object(no_members()),
    }
}

/// An account that is to be connected.
#[derive(Debug)]
pub struct HubAccount {
    pub account_id: String,
    pub platform: Platform,
    pub publishes: bool,
    pub ctid: i64,
    pub access_token: String,
}

/// How far the accounts are connected.
#[derive(Debug, Clone, Copy, PartialEq, Eq, Structural)]
pub enum Stage {
    Application,
    Account,
    Symbols,
    Details,
    Reconcile,
    Ready,
}

/// The way from a connection to connected accounts: the application, then each
/// account with its symbols, their details and its positions.
pub struct Startup {
    pub client_id: String,
    pub client_secret: String,
    pub accounts: Vec<HubAccount>,
    pub place: usize,
    pub stage: Stage,
    pub light: Vec<(i64, String)>,
    pub symbols: Symbols,
}

/// What a reply is while another is waited for.
#[derive(Debug, Clone, Copy, PartialEq, Eq, Structural)]
pub enum Reply {
    /// An error, which ends the connection.
    Failed,
    /// Something else, which is passed over.
    Other,
    /// What was waited for.
    Awaited,
}

/// What a reply is while one of a kind, for an account, is waited for.
pub open spec fn reply_of(value: JsonView, expected: i64, account: Option<i64>) -> Reply {
    let payload_type = match value.member("payloadType"@) {
        Some(kind) => match kind.whole() {
            Some(n) => n,
            None => 0,
        },
        None => 0,
    };
    if payload_type == ERROR_RES || payload_type == ORDER_ERROR_EVENT {
        Reply::Failed
    } else if payload_type != expected {
        Reply::Other
    } else if account is Some && json::read_whole_in(
        json::nested(value.member("payload"@), "ctidTraderAccountId"@),
    ) != account {
        Reply::Other
    } else {
        Reply::Awaited
    }
}

/// What a reply is while one of a kind, for an account, is waited for.
pub fn classify_reply(value: &Json, expected: i64, account_id: Option<i64>) -> (r: Reply)
    ensures
        r == reply_of(value@, expected, account_id),
{
    let payload_type: i64 = match value.get("payloadType") {
        Some(kind) => match kind.as_whole() {
            Some(number) => number,
            None => 0,
        },
        None => 0,
    };
    if payload_type == ERROR_RES || payload_type == ORDER_ERROR_EVENT {
        return Reply::Failed;
    }
    if payload_type != expected {
        return Reply::Other;
    }
    if let Some(account) = account_id {
        match read_whole(member_in(value.get("payload"), "ctidTraderAccountId")) {
            Some(given) => {
                if given != account {
                    return Reply::Other;
                }
            },
            None => {
                return Reply::Other;
            },
        }
    }
    Reply::Awaited
}

/// The numbers of symbols.
pub open spec fn ids_of(light: Seq<(i64, String)>) -> Seq<i64> {
    light.map_values(|symbol: (i64, String)| symbol.0)
}

fn light_ids(light: &Vec<(i64, String)>) -> (r: Vec<i64>)
    ensures
        r@ == ids_of(light@),
{
    let mut out: Vec<i64> = Vec::new();
    let mut i: usize = 0;
    while i < light.len()
        invariant
            i <= light.len(),
            out@ == ids_of(light@.take(i as int)),
        decreases light.len() - i,
    {
        out.push(light[i].0);
        assert(ids_of(light@.take(i + 1)) =~= ids_of(light@.take(i as int)).push(
            light@[i as int].0,
        ));
        i = i + 1;
    }
    assert(light@.take(i as int) =~= light@);
    out
}

impl Startup {
    /// Whether there is an account at the place that is reached.
    pub open spec fn sound(&self) -> bool {
        self.stage == Stage::Application || self.stage == Stage::Ready || self.place
            < self.accounts@.len()
    }

    /// The account that is being connected.
    pub open spec fn current(&self) -> HubAccount {
        self.accounts@[self.place as int]
    }

    /// The message that is to be sent, if there is one.
    pub open spec fn request_view(&self) -> Option<RequestView> {
        let ctid = self.current().ctid;
        let number = text::integer_text(ctid as int);
        match self.stage {
            Stage::Application => Some(
                RequestView {
                    payload_type: APPLICATION_AUTH_REQ,
                    client_msg_id: "app-auth"@,
                    payload: JsonView::Object(
                        seq![
                            ("clientId"@, JsonView::Text(self.client_id@)),
                            ("clientSecret"@, JsonView::Text(self.client_secret@)),
                        ],
                    ),
                },
            ),
            Stage::Account => Some(
                RequestView {
                    payload_type: ACCOUNT_AUTH_REQ,
                    client_msg_id: "auth:"@ + number,
                    payload: JsonView::Object(
                        seq![
                            ("ctidTraderAccountId"@, JsonView::Signed(ctid)),
                            ("accessToken"@, JsonView::Text(self.current().access_token@)),
                        ],
                    ),
                },
            ),
            Stage::Symbols => Some(
                RequestView {
                    payload_type: SYMBOLS_LIST_REQ,
                    client_msg_id: "symbols:"@ + number,
                    payload: JsonView::Object(
                        seq![
                            ("ctidTraderAccountId"@, JsonView::Signed(ctid)),
                            ("includeArchivedSymbols"@, JsonView::Bool(false)),
                        ],
                    ),
                },
            ),
            Stage::Details => Some(
                RequestView {
                    payload_type: SYMBOL_BY_ID_REQ,
                    client_msg_id: "symbol-details:"@ + number,
                    payload: JsonView::Object(
                        seq![
                            ("ctidTraderAccountId"@, JsonView::Signed(ctid)),
                            ("symbolId"@, json::whole_list(ids_of(self.light@))),
                        ],
                    ),
                },
            ),
            Stage::Reconcile => Some(
                RequestView {
                    payload_type: RECONCILE_REQ,
                    client_msg_id: "reconcile:"@ + number,
                    payload: JsonView::Object(
                        seq![
                            ("ctidTraderAccountId"@, JsonView::Signed(ctid)),
                            ("returnProtectionOrders"@, JsonView::Bool(false)),
                        ],
                    ),
                },
            ),
            Stage::Ready => None,
        }
    }

    /// The kind of the reply that is waited for, and the account that it must
    /// name.
    pub open spec fn awaited(&self) -> (i64, Option<i64>) {
        let ctid = Some(self.current().ctid);
        match self.stage {
            Stage::Application => (APPLICATION_AUTH_RES, None),
            Stage::Account => (ACCOUNT_AUTH_RES, ctid),
            Stage::Symbols => (SYMBOLS_LIST_RES, ctid),
            Stage::Details => (SYMBOL_BY_ID_RES, ctid),
            Stage::Reconcile => (RECONCILE_RES, ctid),
            Stage::Ready => (0, None),
        }
    }

    /// The beginning of the way.
    pub fn new(client_id: String, client_secret: String, accounts: Vec<HubAccount>) -> (r: Startup)
        ensures
            r.sound(),
            r.client_id == client_id,
            r.client_secret == client_secret,
            r.accounts == accounts,
            r.place == 0,
            r.stage == Stage::Application,
    {
        Startup {
            client_id,
            client_secret,
            accounts,
            place: 0,
            stage: Stage::Application,
            light: Vec::new(),
            symbols: Symbols::new(),
        }
    }

    /// The message that is to be sent, if there is one.
    pub fn request(&self) -> (r: Option<Request>)
        requires
            self.sound(),
        ensures
            match r {
                Some(request) => self.request_view() == Some(request@),
                None => self.request_view() is None,
            },
    {
        let mut members = no_members();
        if self.stage == Stage::Ready {
            return None;
        }
        if self.stage == Stage::Application {
            put(&mut members, "clientId", Json::Text(self.client_id.clone()));
            put(&mut members, "clientSecret", Json::Text(self.client_secret.clone()));
            assert(json::seen_members(members@)
                =~= self.request_view()->Some_0.payload->Object_0);
            return Some(
                Request {
                    payload_type: APPLICATION_AUTH_REQ,
                    client_msg_id: "app-auth".to_owned(),
                    payload: object(members),
                },
            );
        }
        let account = &self.accounts[self.place];
        let number = write_i64(account.ctid);
        put(&mut members, "ctidTraderAccountId", Json::Signed(account.ctid));
        let (payload_type, name): (i64, &str) = match self.stage {
            Stage::Account => {
                put(&mut members, "accessToken", Json::Text(account.access_token.clone()));
                (ACCOUNT_AUTH_REQ, "auth:")
            },
            Stage::Symbols => {
                put(&mut members, "includeArchivedSymbols", Json::Bool(false));
                (SYMBOLS_LIST_REQ, "symbols:")
            },
            Stage::Details => {
                let ids = light_ids(&self.light);
                put(&mut members, "symbolId", list_of(&ids));
                (SYMBOL_BY_ID_REQ, "symbol-details:")
            },
            _ => {
                put(&mut members, "returnProtectionOrders", Json::Bool(false));
                (RECONCILE_REQ, "reconcile:")
            },
        };
        assert(json::seen_members(members@) =~= self.request_view()->Some_0.payload->Object_0);
        Some(
            Request {
                payload_type,
                client_msg_id: joined(name, number.as_str()),
                payload: object(members),
            },
        )
    }

    /// What a reply is at this stage.
    pub fn classify(&self, value: &Json) -> (r: Reply)
        requires
            self.sound(),
        ensures
            r == reply_of(value@, self.awaited().0, self.awaited().1),
    {
        let (expected, account): (i64, Option<i64>) = match self.stage {
            Stage::Application => (APPLICATION_AUTH_RES, None),
            Stage::Account => (ACCOUNT_AUTH_RES, Some(self.accounts[self.place].ctid)),
            Stage::Symbols => (SYMBOLS_LIST_RES, Some(self.accounts[self.place].ctid)),
            Stage::Details => (SYMBOL_BY_ID_RES, Some(self.accounts[self.place].ctid)),
            Stage::Reconcile => (RECONCILE_RES, Some(self.accounts[self.place].ctid)),
            Stage::Ready => (0, None),
        };
        classify_reply(value, expected, account)
    }

    /// The account that a list of positions completes.
    pub open spec fn completed(&self, positions: Map<Seq<char>, PositionView>) -> AccountView {
        AccountView {
            account_id: self.current().account_id@,
            ctid: self.current().ctid,
            platform: self.current().platform,
            publishes: self.current().publishes,
            session_id: 0,
            symbols: self.symbols@,
            positions,
        }
    }

    /// Takes the reply that was waited for, and goes on to the next stage. The
    /// positions of an account complete it.
    pub fn accept(&mut self, value: &Json) -> (r: Result<Option<AccountRuntime>, CTraderError>)
        requires
            old(self).sound(),
        ensures
            final(self).sound(),
            final(self).accounts == old(self).accounts,
            final(self).client_id == old(self).client_id,
            final(self).client_secret == old(self).client_secret,
            r is Err ==> *final(self) == *old(self),
            old(self).stage != Stage::Symbols ==> final(self).light == old(self).light,
            old(self).stage != Stage::Details && old(self).stage != Stage::Reconcile
                ==> final(self).symbols == old(self).symbols,
            match old(self).stage {
                Stage::Application => {
                    &&& r is Ok && r->Ok_0 is None
                    &&& final(self).place == 0
                    &&& final(self).stage == if old(self).accounts@.len() == 0 {
                        Stage::Ready
                    } else {
                        Stage::Account
                    }
                },
                Stage::Account => {
                    &&& r is Ok && r->Ok_0 is None
                    &&& final(self).place == old(self).place
                    &&& final(self).stage == Stage::Symbols
                },
                Stage::Symbols => match light_of(value@) {
                    Ok(light) => {
                        &&& r is Ok && r->Ok_0 is None
                        &&& final(self).place == old(self).place
                        &&& seen_light(final(self).light@) == light
                        &&& final(self).stage == Stage::Details
                    },
                    Err(error) => r is Err && r->Err_0@ == error,
                },
                Stage::Details => match details_of(seen_light(old(self).light@), value@) {
                    Ok(symbols) => {
                        &&& r is Ok && r->Ok_0 is None
                        &&& final(self).place == old(self).place
                        &&& final(self).symbols@ == symbols
                        &&& final(self).stage == Stage::Reconcile
                    },
                    Err(error) => r is Err && r->Err_0@ == error,
                },
                Stage::Reconcile => match reconciled(value@, old(self).symbols@.by_id) {
                    Ok(positions) => {
                        &&& r is Ok && r->Ok_0 is Some
                        &&& r->Ok_0->Some_0@ == old(self).completed(positions)
                        &&& final(self).symbols@ == no_symbols()
                        &&& final(self).place == old(self).place + 1
                        &&& final(self).stage == if old(self).place + 1
                            < old(self).accounts@.len() {
                            Stage::Account
                        } else {
                            Stage::Ready
                        }
                    },
                    Err(error) => r is Err && r->Err_0@ == error,
                },
                Stage::Ready => r is Ok && r->Ok_0 is None && *final(self) == *old(self),
            },
    {
        match self.stage {
            Stage::Application => {
                self.place = 0;
                self.stage =
                if self.accounts.len() == 0 {
                    Stage::Ready
                } else {
                    Stage::Account
                };
                Ok(None)
            },
            Stage::Account => {
                self.stage = Stage::Symbols;
                Ok(None)
            },
            Stage::Symbols => {
                self.light = parse_light_symbols(value)?;
                self.stage = Stage::Details;
                Ok(None)
            },
            Stage::Details => {
                self.symbols = parse_symbol_details(&self.light, value)?;
                self.stage = Stage::Reconcile;
                Ok(None)
            },
            Stage::Reconcile => {
                let positions = parse_reconcile_positions(value, &self.symbols)?;
                let mut symbols = Symbols::new();
                std::mem::swap(&mut symbols, &mut self.symbols);
                let account = &self.accounts[self.place];
                let done = AccountRuntime {
                    account_id: account.account_id.clone(),
                    ctid: account.ctid,
                    platform: account.platform,
                    publishes: account.publishes,
                    session_id: 0,
                    symbols,
                    positions,
                };
                let n: usize = self.accounts.len();
                self.place = self.place + 1;
                self.stage =
                if self.place < n {
                    Stage::Account
                } else {
                    Stage::Ready
                };
                Ok(Some(done))
            },
            Stage::Ready => Ok(None),
        }
    }
}

impl Hub {
    /// Takes a connected account under its session, in the place of one with
    /// the same number.
    pub fn connect(&mut self, account: AccountRuntime, session_id: u64)
        ensures
            ({
                let joined = AccountView { session_id, ..account@ };
                final(self)@ == HubView {
                    accounts: match place_of_ctid(old(self)@.accounts, account@.ctid) {
                        Some(place) => old(self)@.accounts.update(place, joined),
                        None => old(self)@.accounts.push(joined),
                    },
                    ..old(self)@
                }
            }),
    {
        let ghost before = self.accounts@;
        let mut account = account;
        account.session_id = session_id;
        let ghost view = account@;
        match self.find_ctid(account.ctid) {
            Some(place) => {
                self.accounts.set(place, account);
                assert(seen_accounts(self.accounts@) =~= seen_accounts(before).update(
                    place as int,
                    view,
                ));
            },
            None => {
                self.accounts.push(account);
                assert(seen_accounts(self.accounts@) =~= seen_accounts(before).push(view));
            },
        }
    }
}

/// A command that is under way stays: until a report says what became of it,
/// it waits, and nothing is acknowledged.
pub proof fn law_waits_until_final(hub: HubView, id: Seq<char>, payload: JsonView, now: i64)
    requires
        under_way(execution_number(payload)),
    ensures
        ({
            let step = execution_step(hub, id, payload, now);
            &&& step.hub.pending == hub.pending
            &&& step.hub.protections == hub.protections
            &&& forall|i: int|
                0 <= i < step.actions.len() ==> (#[trigger] step.actions[i]) is Event
        }),
{
}

/// An opening with protection is not acknowledged when it is filled: its
/// protection is asked for first, and then waited for.
pub proof fn law_protected_before_acknowledged(
    hub: HubView,
    id: Seq<char>,
    execution_type: i64,
    payload: JsonView,
    now: i64,
)
    requires
        !hub.protections.contains_key(id),
        hub.pending.contains_key(id),
        hub.pending[id].action == TradeAction::Open,
        hub.pending[id].stop_loss is Some || hub.pending[id].take_profit is Some,
        execution_type == 3 || execution_type == 4,
    ensures
        ({
            let step = settle_step(hub, id, execution_type, payload, now);
            forall|i: int|
                0 <= i < step.actions.len() ==> match #[trigger] step.actions[i] {
                    HubActionView::Ack(ack) => ack.status == AckStatus::Unknown,
                    _ => true,
                }
        }),
{
}

/// A fill whose protection was refused is never called filled or rejected: its
/// outcome is unknown.
pub proof fn law_unprotected_fill_is_unknown(
    hub: HubView,
    id: Seq<char>,
    payload: JsonView,
    now: i64,
)
    requires
        !hub.pending.contains_key(id),
        hub.protections.contains_key(id),
    ensures
        ({
            let step = refusal_step(hub, id, payload, now);
            &&& step.actions.len() == 1
            &&& step.actions[0] is Ack
            &&& step.actions[0]->Ack_0.status == AckStatus::Unknown
            &&& step.actions[0]->Ack_0.command_id == hub.protections[id].0.command_id
            &&& !step.hub.protections.contains_key(id)
        }),
{
}

/// A command that is taken either is sent and waits, or is rejected at once,
/// where its account is here.
pub proof fn law_command_is_sent_or_rejected(
    hub: HubView,
    command: ExecutionCommandView,
    now: i64,
)
    requires
        place_of_id(hub.accounts, command.target_account_id) is Some,
    ensures
        ({
            let step = command_step(hub, command, now);
            &&& step.actions.len() == 1
            &&& match step.actions[0] {
                HubActionView::Send { client_msg_id, .. } => client_msg_id == command.command_id
                    && step.hub.pending.contains_key(command.command_id)
                    && step.hub.pending[command.command_id] == command,
                HubActionView::Ack(ack) => ack.status == AckStatus::Rejected && ack.command_id
                    == command.command_id && step.hub == hub,
                HubActionView::Event { .. } => false,
            }
        }),
{
}

/// A position that did not change gives no event.
pub proof fn law_unchanged_gives_nothing(account: AccountView, current: PositionView, now: i64)
    requires
        account.positions.contains_key(current.id),
        account.positions[current.id] == current,
    ensures
        change_of(account, current, now) is None,
{
    venues::lemma_unchanged(current.volume_lots, current.stop_loss);
    venues::lemma_unchanged(current.volume_lots, current.take_profit);
}

/// Lots are sent as the nearest whole number of cTrader's units, halves going
/// up: the size of a lot times the lots, as far as numbers carry that product.
pub proof fn law_lots_in_units(lots: Double, symbol: SymbolInfoView, product: Double)
    requires
        steps::countable(lots),
        steps::countable(symbol.lot_size_cents),
        steps::countable(product) || product.bits == 0,
        double::rounds_to(
            double::units(lots.magnitude() as nat) * double::units(
                symbol.lot_size_cents.magnitude() as nat,
            ),
            pow2(1074),
            product.magnitude() as nat,
        ),
        product.signed_units() < 0x7fff_ffff_ffff_ffff * pow2(1074),
    ensures
        units_of(lots, symbol) >= 0,
        2 * (units_of(lots, symbol) * pow2(1074)) <= 2 * product.signed_units() + pow2(1074),
        2 * product.signed_units() < 2 * (units_of(lots, symbol) * pow2(1074)) + pow2(1074),
{
    let one = pow2(1074) as int;
    lemma_pow2_pos(1074);
    double::lemma_nearest(
        double::units(lots.magnitude() as nat) * double::units(
            symbol.lot_size_cents.magnitude() as nat,
        ),
        pow2(1074),
        product.magnitude(),
    );
    assert(lots.product(symbol.lot_size_cents) == product);
    let near = product.whole();
    steps::law_rounded_is_near(product);
    let u = double::units(product.magnitude() as nat);
    let n = choose|n: nat|
        {
            &&& double::units(near.magnitude() as nat) == #[trigger] (n * pow2(1074))
            &&& 2 * (n * pow2(1074)) <= 2 * u + pow2(1074)
            &&& 2 * u < 2 * (n * pow2(1074)) + pow2(1074)
        };
    assert(near.signed_units() < 0x8000_0000_0000_0000 * one);
    double::law_whole_part(near);
    let k = near.integer_part();
    assert(k == n) by (nonlinear_arith)
        requires
            k * one <= n * one < (k + 1) * one,
            one > 0,
    ;
    assert(n < 0x8000_0000_0000_0000) by (nonlinear_arith)
        requires
            n * one < 0x8000_0000_0000_0000 * one,
            one > 0,
    ;
}

/// The names in an order are different ones.
proof fn lemma_order_names()
    ensures
        "ctidTraderAccountId"@.len() == 19,
        "symbolId"@.len() == 8,
        "orderType"@.len() == 9 && "orderType"@[0] == 'o',
        "tradeSide"@.len() == 9 && "tradeSide"@[0] == 't',
        "volume"@.len() == 6,
        "clientOrderId"@.len() == 13,
        "label"@.len() == 5,
        "positionId"@.len() == 10 && "positionId"@[0] == 'p',
        "stopLoss"@.len() == 8 && "stopLoss"@[1] == 't',
        "takeProfit"@.len() == 10 && "takeProfit"@[0] == 't',
        "clientMsgId"@.len() == 11 && "clientMsgId"@[0] == 'c',
        "payloadType"@.len() == 11 && "payloadType"@[0] == 'p',
        "payload"@.len() == 7,
{
    reveal_strlit("ctidTraderAccountId");
    reveal_strlit("symbolId");
    reveal_strlit("orderType");
    reveal_strlit("tradeSide");
    reveal_strlit("volume");
    reveal_strlit("clientOrderId");
    reveal_strlit("label");
    reveal_strlit("positionId");
    reveal_strlit("stopLoss");
    reveal_strlit("takeProfit");
    reveal_strlit("clientMsgId");
    reveal_strlit("payloadType");
    reveal_strlit("payload");
}

/// An opening is sent as a market order of its account, for the symbol's number,
/// with 1 for a purchase and 2 for a sale, and with the command's volume in
/// units. It carries the command's name, and the label from which a position is
/// later known to be the command's.
pub proof fn law_opening_is_ordered(account: AccountView, command: ExecutionCommandView)
    requires
        command.action == TradeAction::Open,
        account.symbols.by_name.contains_key(command.symbol),
        command.side is Some,
        units_of(command.volume, account.symbols.by_name[command.symbol]) > 0,
    ensures
        ({
            let symbol = account.symbols.by_name[command.symbol];
            &&& request_of(account, command) matches Ok((kind, payload))
            &&& kind == 2106
            &&& payload.member("ctidTraderAccountId"@) == Some(JsonView::Signed(account.ctid))
            &&& payload.member("symbolId"@) == Some(JsonView::Signed(symbol.id))
            &&& payload.member("orderType"@) == Some(JsonView::Signed(1))
            &&& command.side == Some(Side::Buy) ==> payload.member("tradeSide"@) == Some(
                JsonView::Signed(1),
            )
            &&& command.side == Some(Side::Sell) ==> payload.member("tradeSide"@) == Some(
                JsonView::Signed(2),
            )
            &&& payload.member("volume"@) == Some(
                JsonView::Signed(units_of(command.volume, symbol)),
            )
            &&& payload.member("clientOrderId"@) == Some(JsonView::Text(command.command_id))
            &&& origin_of(json::text_in(payload.member("label"@))) == Some(command.command_id)
        }),
{
    let payload = request_of(account, command)->Ok_0.1;
    let members = payload->Object_0;
    let label = "CopierR:"@ + command.command_id;
    lemma_order_names();
    json::lemma_member(members, "ctidTraderAccountId"@, 0);
    json::lemma_member(members, "symbolId"@, 1);
    json::lemma_member(members, "orderType"@, 2);
    json::lemma_member(members, "tradeSide"@, 3);
    json::lemma_member(members, "volume"@, 4);
    json::lemma_member(members, "clientOrderId"@, 5);
    json::lemma_member(members, "label"@, 6);
    assert(label.take("CopierR:"@.len() as int) =~= "CopierR:"@);
    assert(label.skip("CopierR:"@.len() as int) =~= command.command_id);
}

/// The side of an order reads back: a position whose trade has the side of the
/// order that a command was sent as is on the command's side. So orders for
/// different sides differ.
pub proof fn law_side_reads_back(
    account: AccountView,
    command: ExecutionCommandView,
    position: JsonView,
    trade: JsonView,
    symbols: Map<i64, SymbolInfoView>,
)
    requires
        command.action == TradeAction::Open,
        request_of(account, command) is Ok,
        position.member("tradeData"@) == Some(trade),
        trade.member("tradeSide"@) == request_of(account, command)->Ok_0.1.member("tradeSide"@),
    ensures
        command.side is Some,
        position_of(position, symbols) matches Ok(read) ==> Some(read.side) == command.side,
        !(position_of(position, symbols) matches Err(CTraderErrorView::UnknownSide(_))),
{
    law_opening_is_ordered(account, command);
}

/// A position is read on the side that its trade names, by number or by word,
/// and with the lots that its volume makes; what is neither of the two sides is
/// no position.
pub proof fn law_position_is_read(
    value: JsonView,
    trade: JsonView,
    symbols: Map<i64, SymbolInfoView>,
    id: Seq<char>,
    symbol: i64,
)
    requires
        json::read_text_in(value.member("positionId"@)) == Some(id),
        value.member("tradeData"@) == Some(trade),
        json::read_whole_in(trade.member("symbolId"@)) == Some(symbol),
        symbols.contains_key(symbol),
    ensures
        ({
            let side = trade.member("tradeSide"@);
            let info = symbols[symbol];
            let read = position_of(value, symbols);
            let buys = side == Some(JsonView::Text("BUY"@)) || (side is Some
                && side->Some_0.read_whole() == Some(1i64));
            let sells = side == Some(JsonView::Text("SELL"@)) || (side is Some
                && side->Some_0.read_whole() == Some(2i64));
            &&& read is Ok <==> buys || sells
            &&& read matches Ok(position) ==> {
                &&& position.id == id
                &&& position.symbol == info.name
                &&& buys ==> position.side == Side::Buy
                &&& sells ==> position.side == Side::Sell
                &&& position.price == json::read_number_in(value.member("price"@))
                &&& position.stop_loss == json::read_number_in(value.member("stopLoss"@))
                &&& position.take_profit == json::read_number_in(value.member("takeProfit"@))
                &&& json::read_number_in(trade.member("volume"@)) matches Some(volume) ==> (
                volume.finite() && info.lot_size_cents.finite() && info.lot_size_cents.magnitude()
                    > 0 ==> {
                    &&& position.volume_lots.negative() == (volume.negative()
                        != info.lot_size_cents.negative())
                    &&& double::rounds_to(
                        double::units(volume.magnitude() as nat) * pow2(1074),
                        double::units(info.lot_size_cents.magnitude() as nat),
                        position.volume_lots.magnitude() as nat,
                    )
                })
            }
        }),
{
    let side = trade.member("tradeSide"@);
    let names = seq![("BUY", 1i64), ("SELL", 2i64)];
    let info = symbols[symbol];
    reveal_strlit("BUY");
    reveal_strlit("SELL");
    assert("BUY"@.len() == 3 && "SELL"@.len() == 4);
    assert(names.drop_last() =~= seq![("BUY", 1i64)]);
    assert(names.drop_last().drop_last() =~= Seq::empty());
    reveal_with_fuel(json::number_named, 3);
    assert(json::whole_in("BUY"@) is None && json::whole_in("SELL"@) is None) by {
        assert("BUY"@[0] == 'B' && "SELL"@[0] == 'S');
        text::lemma_no_integer("BUY"@);
        text::lemma_no_integer("SELL"@);
    }
    if side is Some && side->Some_0.text() is Some {
        assert(side->Some_0 == JsonView::Text(side->Some_0.text()->Some_0));
    }
    if let Some(volume) = json::read_number_in(trade.member("volume"@)) {
        if volume.finite() && info.lot_size_cents.finite() && info.lot_size_cents.magnitude() > 0 {
            double::law_quotient_is_nearest(volume, info.lot_size_cents);
        }
    }
}

/// A change of protection is sent for the position that the command names, with
/// the prices that the command has and no others.
pub proof fn law_protection_is_sent(
    ctid: i64,
    position: i64,
    stop_loss: Option<Double>,
    take_profit: Option<Double>,
)
    ensures
        ({
            let payload = JsonView::Object(
                protection_members(ctid, position, stop_loss, take_profit),
            );
            &&& payload.member("ctidTraderAccountId"@) == Some(JsonView::Signed(ctid))
            &&& payload.member("positionId"@) == Some(JsonView::Signed(position))
            &&& payload.member("stopLoss"@) == match stop_loss {
                Some(price) => Some(json::number_view(price)),
                None => None,
            }
            &&& payload.member("takeProfit"@) == match take_profit {
                Some(price) => Some(json::number_view(price)),
                None => None,
            }
        }),
{
    let members = protection_members(ctid, position, stop_loss, take_profit);
    lemma_order_names();
    json::lemma_member(members, "ctidTraderAccountId"@, 0);
    json::lemma_member(members, "positionId"@, 1);
    if stop_loss is Some {
        json::lemma_member(members, "stopLoss"@, 2);
        if take_profit is Some {
            json::lemma_member(members, "takeProfit"@, 3);
        } else {
            json::lemma_no_member(members, "takeProfit"@);
        }
    } else {
        json::lemma_no_member(members, "stopLoss"@);
        if take_profit is Some {
            json::lemma_member(members, "takeProfit"@, 2);
        } else {
            json::lemma_no_member(members, "takeProfit"@);
        }
    }
}

/// A command for a position is sent for the one that it names by number: a
/// change of protection with the command's prices, a reduction by the command's
/// volume, and a closing of all that the position holds, or of the command's
/// volume where the position is not known.
pub proof fn law_position_request(account: AccountView, command: ExecutionCommandView, id: i64)
    requires
        command.action != TradeAction::Open,
        command.target_order_id is Some,
        json::whole_in(command.target_order_id->Some_0) == Some(id),
        account.symbols.by_name.contains_key(command.symbol),
    ensures
        ({
            let symbol = account.symbols.by_name[command.symbol];
            let name = text::integer_text(id as int);
            &&& request_of(account, command) matches Ok((kind, payload))
            &&& payload.member("ctidTraderAccountId"@) == Some(JsonView::Signed(account.ctid))
            &&& payload.member("positionId"@) == Some(JsonView::Signed(id))
            &&& command.action == TradeAction::Modify ==> {
                &&& kind == 2110
                &&& payload.member("stopLoss"@) == match command.stop_loss {
                    Some(price) => Some(json::number_view(price)),
                    None => None,
                }
                &&& payload.member("takeProfit"@) == match command.take_profit {
                    Some(price) => Some(json::number_view(price)),
                    None => None,
                }
            }
            &&& command.action != TradeAction::Modify ==> kind == 2111
            &&& command.action == TradeAction::Reduce || (command.action == TradeAction::Close
                && !account.positions.contains_key(name)) ==> payload.member("volume"@) == Some(
                JsonView::Signed(units_of(command.volume, symbol)),
            )
            &&& command.action == TradeAction::Close && account.positions.contains_key(name)
                ==> payload.member("volume"@) == Some(
                JsonView::Signed(units_of(account.positions[name].volume_lots, symbol)),
            )
        }),
{
    lemma_order_names();
    if command.action == TradeAction::Modify {
        law_protection_is_sent(account.ctid, id, command.stop_loss, command.take_profit);
    } else {
        let members = request_of(account, command)->Ok_0.1->Object_0;
        json::lemma_member(members, "ctidTraderAccountId"@, 0);
        json::lemma_member(members, "positionId"@, 1);
        json::lemma_member(members, "volume"@, 2);
    }
}

/// A command cannot be sent just where its symbol is not known, but for a change
/// of protection; where an opening has no side or no volume that counts; or
/// where another command names no position by number.
pub proof fn law_request_is_refused(account: AccountView, command: ExecutionCommandView)
    ensures
        ({
            let known = account.symbols.by_name.contains_key(command.symbol);
            let symbol = account.symbols.by_name[command.symbol];
            let named = command.target_order_id is Some && json::whole_in(
                command.target_order_id->Some_0,
            ) is Some;
            request_of(account, command) is Ok <==> match command.action {
                TradeAction::Open => known && command.side is Some && units_of(
                    command.volume,
                    symbol,
                ) > 0,
                TradeAction::Modify => named,
                TradeAction::Reduce => named && known,
                TradeAction::Close => named && known,
            }
        }),
        request_of(account, command) matches Err(error) ==> match error {
            CTraderErrorView::SymbolNotFound(symbol) => symbol == command.symbol
                && !account.symbols.by_name.contains_key(symbol),
            CTraderErrorView::SideOmitted => command.action == TradeAction::Open
                && command.side is None,
            CTraderErrorView::ZeroVolume => command.action == TradeAction::Open && units_of(
                command.volume,
                account.symbols.by_name[command.symbol],
            ) <= 0,
            CTraderErrorView::TargetRequired => command.action != TradeAction::Open
                && command.target_order_id is None,
            CTraderErrorView::InvalidTarget => command.action != TradeAction::Open
                && command.target_order_id is Some,
            _ => false,
        },
{
}

/// The name of what a report is about is that of its position, or else that of
/// its order.
pub proof fn law_report_names_its_object(payload: JsonView)
    ensures
        ({
            let position = json::read_text_in(
                json::nested(payload.member("position"@), "positionId"@),
            );
            let order = json::read_text_in(json::nested(payload.member("order"@), "orderId"@));
            &&& position is Some ==> external_of(payload) == position
            &&& position is None ==> external_of(payload) == order
        }),
{
}

/// An event tells of its account's position as it is, at the time that it is
/// told, and of what made the position. Its name has the account, the position,
/// the action and the time in it.
pub proof fn law_event_tells_of_position(
    account: AccountView,
    position: PositionView,
    action: TradeAction,
    volume: Double,
    remaining: Double,
    now: i64,
)
    ensures
        ({
            let event = event_of(account, position, action, volume, remaining, now);
            &&& event.source_account_id == account.account_id
            &&& event.platform == account.platform
            &&& event.action == action
            &&& event.source_order_id == position.id
            &&& event.symbol == position.symbol
            &&& event.side == Some(position.side)
            &&& event.volume == volume
            &&& event.remaining_volume == Some(remaining)
            &&& event.price == position.price
            &&& event.stop_loss == position.stop_loss
            &&& event.take_profit == position.take_profit
            &&& event.timestamp_unix_ns == now
            &&& event.origin_command_id == position.origin_command_id
            &&& event.event_id == "ctrader:"@ + account.account_id + ":"@ + position.id + ":"@
                + action.name() + ":"@ + text::integer_text(now as int)
        }),
{
}

/// A new position is told as opened with all of its volume. One that became
/// smaller is told as reduced by the difference, with what is left; one whose
/// protection alone moved is told as modified. One that grew, or that nobody may
/// follow, is not told.
pub proof fn law_change_is_told(account: AccountView, current: PositionView, now: i64)
    ensures
        ({
            let told = change_of(account, current, now);
            let known = account.positions.contains_key(current.id);
            let old = account.positions[current.id];
            let shrunk = current.volume_lots.sum(venues::volume_step()).lt(old.volume_lots);
            let grown = old.volume_lots.sum(venues::volume_step()).lt(current.volume_lots);
            let moved = venues::moved(old.stop_loss, current.stop_loss) || venues::moved(
                old.take_profit,
                current.take_profit,
            );
            &&& !account.publishes ==> told is None
            &&& account.publishes && !known ==> {
                &&& told matches Some(event)
                &&& event.action == TradeAction::Open
                &&& event.volume == current.volume_lots
                &&& event.remaining_volume == Some(current.volume_lots)
            }
            &&& account.publishes && known && shrunk ==> {
                &&& told matches Some(event)
                &&& event.action == TradeAction::Reduce
                &&& event.remaining_volume == Some(current.volume_lots)
                &&& old.volume_lots.finite() && current.volume_lots.finite() ==> {
                    let exact = old.volume_lots.signed_units() - current.volume_lots.signed_units();
                    exact > 0 ==> !event.volume.negative() && double::rounds_to(
                        exact as nat,
                        1,
                        event.volume.magnitude() as nat,
                    )
                }
            }
            &&& account.publishes && known && !shrunk && !grown && moved ==> {
                &&& told matches Some(event)
                &&& event.action == TradeAction::Modify
                &&& event.volume == current.volume_lots
                &&& event.remaining_volume == Some(current.volume_lots)
            }
            &&& known && !shrunk && (grown || !moved) ==> told is None
            &&& told matches Some(event) ==> {
                &&& event.source_order_id == current.id
                &&& event.side == Some(current.side)
                &&& event.stop_loss == current.stop_loss
                &&& event.take_profit == current.take_profit
                &&& event.origin_command_id == current.origin_command_id
            }
        }),
{
    let old = account.positions[current.id];
    if old.volume_lots.finite() && current.volume_lots.finite() {
        double::law_sum_is_nearest(old.volume_lots, current.volume_lots);
    }
}

/// A report of a closed position takes the position away, and tells of its
/// closing with all that it held where the account may be followed. A report of
/// an open one puts the position in its place. No other position changes.
pub proof fn law_report_changes_position(
    account: AccountView,
    payload: JsonView,
    position: JsonView,
    id: Seq<char>,
    now: i64,
    other: Seq<char>,
)
    requires
        payload.member("position"@) == Some(position),
        json::read_text_in(position.member("positionId"@)) == Some(id),
        other != id,
    ensures
        ({
            let step = position_step(account, payload, now);
            let after = step.account.positions;
            &&& after.contains_key(other) == account.positions.contains_key(other)
            &&& account.positions.contains_key(other) ==> after[other] == account.positions[other]
            &&& step.account.symbols == account.symbols
            &&& step.account.ctid == account.ctid
            &&& step.account.account_id == account.account_id
            &&& step.account.session_id == account.session_id
            &&& step.account.publishes == account.publishes
            &&& status_number(position) == 2 ==> {
                &&& !after.contains_key(id)
                &&& account.positions.contains_key(id) && account.publishes && step.fault is None
                    ==> {
                    &&& step.event matches Some(event)
                    &&& event.action == TradeAction::Close
                    &&& event.volume == account.positions[id].volume_lots
                    &&& event.remaining_volume == Some(Double { bits: 0 })
                    &&& event.source_order_id == account.positions[id].id
                    &&& event.side == Some(account.positions[id].side)
                }
                &&& !account.positions.contains_key(id) || !account.publishes ==> step.event is None
                    && step.fault is None
            }
            &&& status_number(position) != 2 ==> match position_of(
                position,
                account.symbols.by_id,
            ) {
                Err(fault) => step.fault == Some(fault) && after == account.positions
                    && step.event is None,
                Ok(current) => {
                    &&& step.fault is None ==> after.contains_key(id) && after[id] == current
                        && step.event == change_of(account, current, now)
                    &&& step.fault is Some ==> after == account.positions && step.event is None
                },
            }
        }),
{
}

/// The kind of a final report says what became of a command: 3 and 4 that it was
/// filled, 5 to 8 that it was rejected, and anything else nothing that is known.
pub proof fn law_final_reports(kind: i64)
    ensures
        final_status(kind) == AckStatus::Filled <==> kind == 3 || kind == 4,
        final_status(kind) == AckStatus::Rejected <==> 5 <= kind <= 8,
        final_status(kind) != AckStatus::Accepted,
        under_way(kind) <==> kind == 2 || kind == 11,
{
}

/// A report that settles a command acknowledges that command, for its own
/// account and at the time of the report, and the command waits no longer. The
/// order is the one that the report names, or else the one that the command was
/// for.
pub proof fn law_settled_is_acknowledged(
    hub: HubView,
    id: Seq<char>,
    kind: i64,
    payload: JsonView,
    now: i64,
)
    ensures
        ({
            let step = settle_step(hub, id, kind, payload, now);
            let command = hub.pending[id];
            let guarded = command.stop_loss is Some || command.take_profit is Some;
            let filled = kind == 3 || kind == 4;
            let asks = command.action == TradeAction::Open && filled && guarded;
            &&& hub.protections.contains_key(id) ==> {
                &&& step.fault is None
                &&& step.actions.len() == 1
                &&& step.actions[0] matches HubActionView::Ack(ack)
                &&& ack.command_id == hub.protections[id].0.command_id
                &&& ack.account_id == hub.protections[id].0.target_account_id
                &&& ack.status == final_status(kind)
                &&& ack.external_id == Some(hub.protections[id].1)
                &&& ack.timestamp_unix_ns == now
                &&& !step.hub.protections.contains_key(id)
                &&& step.hub.pending == hub.pending
            }
            &&& !hub.protections.contains_key(id) && hub.pending.contains_key(id) ==> {
                &&& !step.hub.pending.contains_key(id)
                &&& !asks ==> {
                    &&& step.fault is None
                    &&& step.actions.len() == 1
                    &&& step.actions[0] matches HubActionView::Ack(ack)
                    &&& ack.command_id == command.command_id
                    &&& ack.account_id == command.target_account_id
                    &&& ack.status == final_status(kind)
                    &&& ack.timestamp_unix_ns == now
                    &&& external_of(payload) is Some ==> ack.external_id == external_of(payload)
                    &&& external_of(payload) is None ==> ack.external_id == command.target_order_id
                    &&& ack.message == json::text_in(payload.member("errorCode"@))
                }
            }
            &&& !hub.protections.contains_key(id) && !hub.pending.contains_key(id) ==> step.hub
                == hub && step.actions.len() == 0 && step.fault is None
        }),
{
}

/// A filled opening with protection asks for it under a name of its own, for the
/// position that was filled and with the command's prices, and waits for that.
pub proof fn law_protection_is_asked_for(
    hub: HubView,
    command: ExecutionCommandView,
    position: Seq<char>,
    number: i64,
    place: int,
    now: i64,
)
    requires
        place_of_id(hub.accounts, command.target_account_id) == Some(place),
        json::whole_in(position) == Some(number),
    ensures
        ({
            let step = protect_step(hub, command, Some(position), now);
            let name = "p:"@ + command.command_id;
            &&& step.fault is None
            &&& step.actions.len() == 1
            &&& step.actions[0] matches HubActionView::Send {
                payload_type,
                client_msg_id,
                payload,
            }
            &&& payload_type == 2110
            &&& client_msg_id == name
            &&& payload.member("ctidTraderAccountId"@) == Some(
                JsonView::Signed(hub.accounts[place].ctid),
            )
            &&& payload.member("positionId"@) == Some(JsonView::Signed(number))
            &&& payload.member("stopLoss"@) == match command.stop_loss {
                Some(price) => Some(json::number_view(price)),
                None => None,
            }
            &&& payload.member("takeProfit"@) == match command.take_profit {
                Some(price) => Some(json::number_view(price)),
                None => None,
            }
            &&& step.hub.protections.contains_key(name)
            &&& step.hub.protections[name] == (command, position)
            &&& step.hub.pending == hub.pending
            &&& step.hub.accounts == hub.accounts
        }),
{
    law_protection_is_sent(
        hub.accounts[place].ctid,
        number,
        command.stop_loss,
        command.take_profit,
    );
}

/// A refused command is rejected, for its own account, with the words of the
/// refusal, and waits no longer. What nobody waits for changes nothing.
pub proof fn law_refused_is_rejected(hub: HubView, id: Seq<char>, payload: JsonView, now: i64)
    ensures
        ({
            let step = refusal_step(hub, id, payload, now);
            let described = payload.member("description"@);
            &&& step.fault is None
            &&& hub.pending.contains_key(id) ==> {
                &&& step.actions.len() == 1
                &&& step.actions[0] matches HubActionView::Ack(ack)
                &&& ack.command_id == hub.pending[id].command_id
                &&& ack.account_id == hub.pending[id].target_account_id
                &&& ack.status == AckStatus::Rejected
                &&& ack.external_id is None
                &&& described is Some && described->Some_0.text() is Some ==> ack.message
                    == described->Some_0.text()
                &&& !step.hub.pending.contains_key(id)
                &&& step.hub.protections == hub.protections
            }
            &&& !hub.pending.contains_key(id) && !hub.protections.contains_key(id) ==> step.hub
                == hub && step.actions.len() == 0
        }),
{
}

/// A report is settled before its position is taken in, and what it settles is
/// acknowledged before what it changes is told. One without an account is
/// refused.
pub proof fn law_report_is_taken(hub: HubView, id: Seq<char>, payload: JsonView, ctid: i64, now: i64)
    requires
        json::read_whole_in(payload.member("ctidTraderAccountId"@)) == Some(ctid),
        !under_way(execution_number(payload)),
        settle_step(hub, id, execution_number(payload), payload, now).fault is None,
    ensures
        ({
            let settled = settle_step(hub, id, execution_number(payload), payload, now);
            let step = execution_step(hub, id, payload, now);
            let rest = hub_position_step(settled.hub, ctid, payload, now);
            &&& step.actions.len() == settled.actions.len() + rest.actions.len()
            &&& step.actions.take(settled.actions.len() as int) == settled.actions
            &&& step.actions.skip(settled.actions.len() as int) == rest.actions
            &&& step.hub == rest.hub
            &&& step.fault == rest.fault
        }),
{
    let settled = settle_step(hub, id, execution_number(payload), payload, now);
    let step = execution_step(hub, id, payload, now);
    let rest = hub_position_step(settled.hub, ctid, payload, now);
    assert(step.actions.take(settled.actions.len() as int) =~= settled.actions);
    assert(step.actions.skip(settled.actions.len() as int) =~= rest.actions);
}

/// A message is a report where its kind is 2126, and a refusal where it is 2132
/// or 2142; any other is passed over.
pub proof fn law_message_is_sorted(hub: HubView, value: JsonView, kind: i64, now: i64)
    requires
        value.member("payloadType"@) == Some(JsonView::Signed(kind)),
        value.member("clientMsgId"@) matches Some(JsonView::Text(_)),
        value.member("payload"@) is Some,
    ensures
        ({
            let id = value.member("clientMsgId"@)->Some_0->Text_0;
            let payload = value.member("payload"@)->Some_0;
            let step = message_step(hub, value, now);
            &&& kind == 2126 ==> step == execution_step(hub, id, payload, now)
            &&& kind == 2132 || kind == 2142 ==> step == refusal_step(hub, id, payload, now)
            &&& kind != 2126 && kind != 2132 && kind != 2142 ==> step.hub == hub
                && step.actions.len() == 0 && step.fault is None
        }),
{
}

/// A frame reads back as the message that it carries.
pub proof fn law_frame_reads_back(kind: i64, id: Seq<char>, payload: JsonView)
    ensures
        ({
            let frame = frame_of(kind, id, payload);
            &&& frame.member("payloadType"@) == Some(JsonView::Signed(kind))
            &&& json::text_in(frame.member("clientMsgId"@)) == Some(id)
            &&& frame.member("payload"@) == Some(payload)
        }),
{
    let members = frame_of(kind, id, payload)->Object_0;
    lemma_order_names();
    json::lemma_member(members, "clientMsgId"@, 0);
    json::lemma_member(members, "payloadType"@, 1);
    json::lemma_member(members, "payload"@, 2);
}

/// The account of a number, or of a name, is the first that has it, and there is
/// one just where some account has it.
pub proof fn law_account_is_found(accounts: Seq<AccountView>, ctid: i64, id: Seq<char>)
    ensures
        place_of_ctid(accounts, ctid) matches Some(place) ==> {
            &&& 0 <= place < accounts.len()
            &&& accounts[place].ctid == ctid
            &&& forall|j: int| 0 <= j < place ==> (#[trigger] accounts[j]).ctid != ctid
        },
        place_of_ctid(accounts, ctid) is None ==> forall|j: int|
            0 <= j < accounts.len() ==> (#[trigger] accounts[j]).ctid != ctid,
        place_of_id(accounts, id) matches Some(place) ==> {
            &&& 0 <= place < accounts.len()
            &&& accounts[place].account_id == id
            &&& forall|j: int| 0 <= j < place ==> (#[trigger] accounts[j]).account_id != id
        },
        place_of_id(accounts, id) is None ==> forall|j: int|
            0 <= j < accounts.len() ==> (#[trigger] accounts[j]).account_id != id,
    decreases accounts.len(),
{
    if accounts.len() > 0 {
        let fewer = accounts.drop_last();
        law_account_is_found(fewer, ctid, id);
        assert(forall|j: int| 0 <= j < fewer.len() ==> #[trigger] accounts[j] == fewer[j]);
    }
}

/// The way to connected accounts asks for each thing and waits for the answer to
/// it, which has the number after the question's. All but the first are about
/// the account that is being connected.
pub proof fn law_startup_asks_and_waits(startup: Startup)
    ensures
        startup.request_view() is None <==> startup.stage == Stage::Ready,
        startup.request_view() matches Some(request) ==> {
            &&& startup.awaited().0 == request.payload_type + 1
            &&& request.payload_type == match startup.stage {
                Stage::Application => 2100i64,
                Stage::Account => 2102i64,
                Stage::Symbols => 2114i64,
                Stage::Details => 2116i64,
                _ => 2124i64,
            }
            &&& startup.stage == Stage::Application ==> startup.awaited().1 is None
            &&& startup.stage != Stage::Application ==> {
                &&& startup.awaited().1 == Some(startup.current().ctid)
                &&& request.payload.member("ctidTraderAccountId"@) == Some(
                    JsonView::Signed(startup.current().ctid),
                )
            }
            &&& startup.stage == Stage::Application ==> {
                &&& request.payload.member("clientId"@) == Some(
                    JsonView::Text(startup.client_id@),
                )
                &&& request.payload.member("clientSecret"@) == Some(
                    JsonView::Text(startup.client_secret@),
                )
            }
            &&& startup.stage == Stage::Account ==> request.payload.member("accessToken"@)
                == Some(JsonView::Text(startup.current().access_token@))
        },
{
    reveal_strlit("clientId");
    reveal_strlit("clientSecret");
    reveal_strlit("accessToken");
    reveal_strlit("ctidTraderAccountId");
    assert("clientId"@.len() == 8 && "clientSecret"@.len() == 12);
    assert("accessToken"@.len() == 11 && "ctidTraderAccountId"@.len() == 19);
    if let Some(request) = startup.request_view() {
        let members = request.payload->Object_0;
        if startup.stage == Stage::Application {
            json::lemma_member(members, "clientId"@, 0);
            json::lemma_member(members, "clientSecret"@, 1);
        } else {
            json::lemma_member(members, "ctidTraderAccountId"@, 0);
            if startup.stage == Stage::Account {
                json::lemma_member(members, "accessToken"@, 1);
            }
        }
    }
}

/// A reply is what is waited for just where it has that kind and, where it must
/// name an account, that account; an error is none.
pub proof fn law_reply_is_sorted(value: JsonView, kind: i64, expected: i64, account: Option<i64>)
    requires
        value.member("payloadType"@) == Some(JsonView::Signed(kind)),
        expected != 2132,
        expected != 2142,
    ensures
        reply_of(value, expected, account) == Reply::Failed <==> kind == 2132 || kind == 2142,
        reply_of(value, expected, account) == Reply::Awaited <==> kind == expected && (account is None
            || json::read_whole_in(
            json::nested(value.member("payload"@), "ctidTraderAccountId"@),
        ) == account),
{
}

/// A symbol whose details are given stands under its number and under its name
/// alike, with the size of its lot as given, or else ten million.
pub proof fn law_symbols_agree(light: Seq<(i64, Seq<char>)>, items: Seq<JsonView>, id: i64)
    requires
        detailed_symbols(light, items) is Ok,
        detailed_symbols(light, items)->Ok_0.by_id.contains_key(id),
    ensures
        ({
            let symbols = detailed_symbols(light, items)->Ok_0;
            let info = symbols.by_id[id];
            &&& info.id == id
            &&& name_of(light, id) == Some(info.name)
            &&& symbols.by_name.contains_key(info.name)
            &&& exists|i: int|
                {
                    &&& 0 <= i < items.len()
                    &&& json::read_whole_in((#[trigger] items[i]).member("symbolId"@)) == Some(id)
                    &&& match json::read_number_in(items[i].member("lotSize"@)) {
                        Some(size) => info.lot_size_cents == size,
                        None => info.lot_size_cents.signed_units() == 10_000_000 * pow2(1074),
                    }
                }
        }),
    decreases items.len(),
{
    let fewer = items.drop_last();
    let last = items.len() - 1;
    let before = detailed_symbols(light, fewer)->Ok_0;
    let symbols = detailed_symbols(light, items)->Ok_0;
    steps::lemma_small_number(10_000_000);
    assert(forall|i: int| 0 <= i < fewer.len() ==> #[trigger] items[i] == fewer[i]);
    assert(items[last] == items.last());
    if before.by_id.contains_key(id) {
        law_symbols_agree(light, fewer, id);
    }
    let here = json::read_whole_in(items[last].member("symbolId"@));
    if here == Some(id) && name_of(light, id) is Some {
        assert(symbols.by_id[id].id == id);
    } else {
        assert(before.by_id.contains_key(id) && symbols.by_id[id] == before.by_id[id]);
        let i = choose|i: int|
            {
                &&& 0 <= i < fewer.len()
                &&& json::read_whole_in((#[trigger] fewer[i]).member("symbolId"@)) == Some(id)
                &&& match json::read_number_in(fewer[i].member("lotSize"@)) {
                    Some(size) => before.by_id[id].lot_size_cents == size,
                    None => before.by_id[id].lot_size_cents.signed_units() == 10_000_000 * pow2(
                        1074,
                    ),
                }
            };
        assert(items[i] == fewer[i]);
    }
}

/// The kind of a report is given by number or by name. One that is not given is
/// none of them.
pub proof fn law_kinds_of_reports(payload: JsonView)
    ensures
        ({
            let given = payload.member("executionType"@);
            let kind = execution_number(payload);
            &&& given == Some(JsonView::Text("ORDER_ACCEPTED"@)) ==> kind == 2
            &&& given == Some(JsonView::Text("ORDER_FILLED"@)) ==> kind == 3
            &&& given == Some(JsonView::Text("ORDER_REPLACED"@)) ==> kind == 4
            &&& given == Some(JsonView::Text("ORDER_CANCELLED"@)) ==> kind == 5
            &&& given == Some(JsonView::Text("ORDER_EXPIRED"@)) ==> kind == 6
            &&& given == Some(JsonView::Text("ORDER_REJECTED"@)) ==> kind == 7
            &&& given == Some(JsonView::Text("ORDER_CANCEL_REJECTED"@)) ==> kind == 8
            &&& given == Some(JsonView::Text("ORDER_PARTIAL_FILL"@)) ==> kind == 11
            &&& given matches Some(value) ==> (value.read_whole() matches Some(n) ==> kind == n)
            &&& given is None ==> kind == 0
        }),
{
    let names = seq![
        ("ORDER_ACCEPTED", 2i64),
        ("ORDER_FILLED", 3i64),
        ("ORDER_REPLACED", 4i64),
        ("ORDER_CANCELLED", 5i64),
        ("ORDER_EXPIRED", 6i64),
        ("ORDER_REJECTED", 7i64),
        ("ORDER_CANCEL_REJECTED", 8i64),
        ("ORDER_PARTIAL_FILL", 11i64),
    ];
    reveal_strlit("ORDER_ACCEPTED");
    reveal_strlit("ORDER_FILLED");
    reveal_strlit("ORDER_REPLACED");
    reveal_strlit("ORDER_CANCELLED");
    reveal_strlit("ORDER_EXPIRED");
    reveal_strlit("ORDER_REJECTED");
    reveal_strlit("ORDER_CANCEL_REJECTED");
    reveal_strlit("ORDER_PARTIAL_FILL");
    assert(names[0].0@.len() == 14 && names[1].0@.len() == 12 && names[2].0@.len() == 14
        && names[3].0@.len() == 15 && names[4].0@.len() == 13 && names[5].0@.len() == 14
        && names[6].0@.len() == 21 && names[7].0@.len() == 18);
    assert(names[0].0@[6] == 'A' && names[2].0@[6] == 'R' && names[5].0@[6] == 'R');
    assert(names[2].0@[8] == 'P' && names[5].0@[8] == 'J');
    assert forall|i: int| 0 <= i < 8 implies #[trigger] json::number_of(
        Some(JsonView::Text(names[i].0@)),
        names,
    ) == Some(names[i].1) by {
        assert(names[i].0@[0] == 'O');
        text::lemma_no_integer(names[i].0@);
        assert forall|j: int| 0 <= j < i implies (#[trigger] names[j]).0@ != names[i].0@ by {
            assert(names[j].0@.len() == names[i].0@.len() ==> names[j].0@[8] != names[i].0@[8] || names[j].0@[6]
                != names[i].0@[6]);
        }
        json::lemma_number_named(names, i);
    }
    assert(json::number_of(Some(JsonView::Text(names[0].0@)), names) == Some(2i64));
    assert(json::number_of(Some(JsonView::Text(names[1].0@)), names) == Some(3i64));
    assert(json::number_of(Some(JsonView::Text(names[2].0@)), names) == Some(4i64));
    assert(json::number_of(Some(JsonView::Text(names[3].0@)), names) == Some(5i64));
    assert(json::number_of(Some(JsonView::Text(names[4].0@)), names) == Some(6i64));
    assert(json::number_of(Some(JsonView::Text(names[5].0@)), names) == Some(7i64));
    assert(json::number_of(Some(JsonView::Text(names[6].0@)), names) == Some(8i64));
    assert(json::number_of(Some(JsonView::Text(names[7].0@)), names) == Some(11i64));
}

/// The status of a position is given by number or by name. One that is not given
/// is open.
pub proof fn law_statuses_of_positions(position: JsonView)
    ensures
        ({
            let given = position.member("positionStatus"@);
            let status = status_number(position);
            &&& given == Some(JsonView::Text("POSITION_STATUS_OPEN"@)) ==> status == 1
            &&& given == Some(JsonView::Text("POSITION_STATUS_CLOSED"@)) ==> status == 2
            &&& given == Some(JsonView::Text("POSITION_STATUS_CREATED"@)) ==> status == 3
            &&& given == Some(JsonView::Text("POSITION_STATUS_ERROR"@)) ==> status == 4
            &&& given matches Some(value) ==> (value.read_whole() matches Some(n) ==> status == n)
            &&& given is None ==> status == 1
        }),
{
    let names = seq![
        ("POSITION_STATUS_OPEN", 1i64),
        ("POSITION_STATUS_CLOSED", 2i64),
        ("POSITION_STATUS_CREATED", 3i64),
        ("POSITION_STATUS_ERROR", 4i64),
    ];
    reveal_strlit("POSITION_STATUS_OPEN");
    reveal_strlit("POSITION_STATUS_CLOSED");
    reveal_strlit("POSITION_STATUS_CREATED");
    reveal_strlit("POSITION_STATUS_ERROR");
    assert(names[0].0@.len() == 20 && names[1].0@.len() == 22 && names[2].0@.len() == 23
        && names[3].0@.len() == 21);
    assert forall|i: int| 0 <= i < 4 implies #[trigger] json::number_of(
        Some(JsonView::Text(names[i].0@)),
        names,
    ) == Some(names[i].1) by {
        assert(names[i].0@[0] == 'P');
        text::lemma_no_integer(names[i].0@);
        json::lemma_number_named(names, i);
    }
    assert(json::number_of(Some(JsonView::Text(names[0].0@)), names) == Some(1i64));
    assert(json::number_of(Some(JsonView::Text(names[1].0@)), names) == Some(2i64));
    assert(json::number_of(Some(JsonView::Text(names[2].0@)), names) == Some(3i64));
    assert(json::number_of(Some(JsonView::Text(names[3].0@)), names) == Some(4i64));
}

/// The symbols that are listed are those with a name, all of them and in their
/// order; one without a number makes the list none.
pub proof fn law_symbols_are_listed(items: Seq<JsonView>) -> (places: Seq<int>)
    ensures
        light_symbols(items) is Ok <==> forall|i: int|
            0 <= i < items.len() ==> json::read_whole_in(
                (#[trigger] items[i]).member("symbolId"@),
            ) is Some,
        light_symbols(items) matches Err(error) ==> error is SymbolIdOmitted,
        light_symbols(items) matches Ok(light) ==> {
            &&& places.len() == light.len()
            &&& forall|i: int|
                0 <= i < places.len() ==> {
                    &&& 0 <= #[trigger] places[i] < items.len()
                    &&& json::read_whole_in(items[places[i]].member("symbolId"@)) == Some(
                        light[i].0,
                    )
                    &&& json::text_in(items[places[i]].member("symbolName"@)) == Some(light[i].1)
                    &&& light[i].1.len() > 0
                }
            &&& forall|i: int, j: int| 0 <= i < j < places.len() ==> places[i] < places[j]
            &&& forall|j: int|
                0 <= j < items.len() && (json::text_in((#[trigger] items[j]).member("symbolName"@))
                    matches Some(name) && name.len() > 0) ==> places.contains(j)
        },
    decreases items.len(),
{
    if items.len() == 0 {
        Seq::empty()
    } else {
        let fewer = items.drop_last();
        let last = items.len() - 1;
        let before = law_symbols_are_listed(fewer);
        assert(forall|i: int| 0 <= i < fewer.len() ==> #[trigger] items[i] == fewer[i]);
        assert(forall|i: int| 0 <= i < fewer.len() ==> #[trigger] fewer[i] == items[i]);
        assert(items[last] == items.last());
        let name = json::text_in(items.last().member("symbolName"@));
        let all = if name is Some && name->Some_0.len() > 0 {
            before.push(last)
        } else {
            before
        };
        if let Ok(light) = light_symbols(items) {
            let old = light_symbols(fewer)->Ok_0;
            assert forall|i: int| 0 <= i < all.len() implies {
                &&& 0 <= #[trigger] all[i] < items.len()
                &&& json::read_whole_in(items[all[i]].member("symbolId"@)) == Some(light[i].0)
                &&& json::text_in(items[all[i]].member("symbolName"@)) == Some(light[i].1)
                &&& light[i].1.len() > 0
            } by {
                if i < before.len() {
                    assert(0 <= before[i] < fewer.len());
                    assert(light[i] == old[i]);
                }
            }
            assert forall|j: int|
                0 <= j < items.len() && (json::text_in((#[trigger] items[j]).member("symbolName"@))
                    matches Some(name) && name.len() > 0) implies all.contains(j) by {
                if j < last {
                    assert(before.contains(j));
                    let i = choose|i: int| 0 <= i < before.len() && before[i] == j;
                    assert(all[i] == j);
                } else {
                    assert(all[all.len() - 1] == j);
                }
            }
        }
        all
    }
}

/// The name of a number is the one that was listed with it last, and there is one
/// just where the number was listed.
pub proof fn law_name_of_number(light: Seq<(i64, Seq<char>)>, id: i64)
    ensures
        name_of(light, id) matches Some(name) ==> exists|i: int|
            {
                &&& 0 <= i < light.len()
                &&& #[trigger] light[i] == (id, name)
                &&& forall|j: int| i < j < light.len() ==> (#[trigger] light[j]).0 != id
            },
        name_of(light, id) is None ==> forall|j: int|
            0 <= j < light.len() ==> (#[trigger] light[j]).0 != id,
    decreases light.len(),
{
    if light.len() > 0 {
        let fewer = light.drop_last();
        let last = light.len() - 1;
        law_name_of_number(fewer, id);
        assert(forall|i: int| 0 <= i < fewer.len() ==> #[trigger] light[i] == fewer[i]);
        assert(light[last] == light.last());
        if light.last().0 == id {
            assert(light[last] == (id, light.last().1));
        } else if let Some(name) = name_of(fewer, id) {
            let i = choose|i: int|
                {
                    &&& 0 <= i < fewer.len()
                    &&& #[trigger] fewer[i] == (id, name)
                    &&& forall|j: int| i < j < fewer.len() ==> (#[trigger] fewer[j]).0 != id
                };
            assert(light[i] == (id, name));
        }
    }
}

/// Each symbol with a name is there by its number once its details are; what is
/// there by a name has that name. Details without a number make the symbols
/// none.
pub proof fn law_details_are_complete(
    light: Seq<(i64, Seq<char>)>,
    items: Seq<JsonView>,
    i: int,
    name: Seq<char>,
)
    ensures
        detailed_symbols(light, items) is Ok <==> forall|j: int|
            0 <= j < items.len() ==> json::read_whole_in(
                (#[trigger] items[j]).member("symbolId"@),
            ) is Some,
        detailed_symbols(light, items) matches Err(error) ==> error is FullSymbolIdOmitted,
        detailed_symbols(light, items) matches Ok(symbols) ==> {
            &&& 0 <= i < items.len() && name_of(
                light,
                json::read_whole_in(items[i].member("symbolId"@))->Some_0,
            ) is Some ==> symbols.by_id.contains_key(
                json::read_whole_in(items[i].member("symbolId"@))->Some_0,
            )
            &&& symbols.by_name.contains_key(name) ==> symbols.by_name[name].name == name
                && name_of(light, symbols.by_name[name].id) == Some(name)
        },
    decreases items.len(),
{
    if items.len() > 0 {
        let fewer = items.drop_last();
        let last = items.len() - 1;
        law_details_are_complete(light, fewer, i, name);
        assert(forall|j: int| 0 <= j < fewer.len() ==> #[trigger] items[j] == fewer[j]);
        assert(forall|j: int| 0 <= j < fewer.len() ==> #[trigger] fewer[j] == items[j]);
        assert(items[last] == items.last());
    }
}

/// Where the lists of an answer are: the symbols and their details under
/// `symbol`, the positions under `position`, in what the answer carries.
pub proof fn law_lists_are_found(
    value: JsonView,
    payload: JsonView,
    light: Seq<(i64, Seq<char>)>,
    symbols: Map<i64, SymbolInfoView>,
)
    requires
        value.member("payload"@) == Some(payload),
    ensures
        payload.member("symbol"@) matches Some(JsonView::List(items)) ==> light_of(value)
            == light_symbols(items) && details_of(light, value) == detailed_symbols(light, items),
        !(payload.member("symbol"@) matches Some(JsonView::List(_))) ==> (light_of(value)
            matches Err(error) && error is SymbolsOmitted) && (details_of(light, value)
            matches Err(error) && error is DetailsOmitted),
        payload.member("position"@) matches Some(JsonView::List(items)) ==> reconciled(
            value,
            symbols,
        ) == positions_of(items, symbols),
        !(payload.member("position"@) matches Some(JsonView::List(_))) ==> (reconciled(
            value,
            symbols,
        ) matches Ok(positions) && positions == Map::<Seq<char>, PositionView>::empty()),
{
}

/// All positions of an answer are taken by their names, one that comes later in
/// place of one before; where one cannot be read, none is.
pub proof fn law_positions_are_complete(
    items: Seq<JsonView>,
    symbols: Map<i64, SymbolInfoView>,
    i: int,
    name: Seq<char>,
)
    ensures
        positions_of(items, symbols) is Ok <==> forall|j: int|
            0 <= j < items.len() ==> position_of(#[trigger] items[j], symbols) is Ok,
        positions_of(items, symbols) matches Ok(positions) ==> {
            &&& 0 <= i < items.len() ==> positions.contains_key(
                position_of(items[i], symbols)->Ok_0.id,
            )
            &&& 0 <= i < items.len() && (forall|j: int|
                i < j < items.len() ==> position_of(#[trigger] items[j], symbols)->Ok_0.id
                    != position_of(items[i], symbols)->Ok_0.id) ==> positions[position_of(
                items[i],
                symbols,
            )->Ok_0.id] == position_of(items[i], symbols)->Ok_0
            &&& positions.contains_key(name) ==> positions[name].id == name && exists|j: int|
                0 <= j < items.len() && position_of(#[trigger] items[j], symbols)->Ok_0
                    == positions[name]
        },
    decreases items.len(),
{
    if items.len() > 0 {
        let fewer = items.drop_last();
        let last = items.len() - 1;
        law_positions_are_complete(fewer, symbols, i, name);
        assert(forall|j: int| 0 <= j < fewer.len() ==> #[trigger] items[j] == fewer[j]);
        assert(forall|j: int| 0 <= j < fewer.len() ==> #[trigger] fewer[j] == items[j]);
        assert(items[last] == items.last());
        if let Ok(positions) = positions_of(items, symbols) {
            let before = positions_of(fewer, symbols)->Ok_0;
            let newest = position_of(items[last], symbols)->Ok_0;
            if positions.contains_key(name) && name != newest.id {
                let j = choose|j: int|
                    0 <= j < fewer.len() && position_of(#[trigger] fewer[j], symbols)->Ok_0
                        == before[name];
                assert(items[j] == fewer[j]);
            }
        }
    }
}

/// A report about a position reaches the account that it is for and no other.
/// What it changes there is told for that account. Nothing that waits changes.
pub proof fn law_report_reaches_account(
    hub: HubView,
    ctid: i64,
    payload: JsonView,
    now: i64,
    place: int,
    other: int,
)
    requires
        0 <= place < hub.accounts.len(),
        hub.accounts[place].ctid == ctid,
        forall|j: int| 0 <= j < place ==> (#[trigger] hub.accounts[j]).ctid != ctid,
    ensures
        ({
            let step = hub_position_step(hub, ctid, payload, now);
            let here = position_step(hub.accounts[place], payload, now);
            &&& step.hub.accounts.len() == hub.accounts.len()
            &&& step.hub.accounts[place] == here.account
            &&& 0 <= other < hub.accounts.len() && other != place ==> step.hub.accounts[other]
                == hub.accounts[other]
            &&& step.hub.pending == hub.pending
            &&& step.hub.protections == hub.protections
            &&& step.fault == here.fault
            &&& here.event is None ==> step.actions.len() == 0
            &&& here.event matches Some(told) ==> {
                &&& step.actions.len() == 1
                &&& step.actions[0] matches HubActionView::Event { account_id, event }
                &&& account_id == hub.accounts[place].account_id
                &&& event == told
            }
        }),
{
    law_account_is_found(hub.accounts, ctid, Seq::empty());
}

/// Each question on the way to a connected account has a name of its own with the
/// account's number in it, and asks for what is not archived, for the symbols
/// that were listed, and for positions without the orders that protect them.
pub proof fn law_startup_names_questions(startup: Startup, i: int)
    ensures
        startup.request_view() matches Some(request) ==> {
            let number = text::integer_text(startup.current().ctid as int);
            &&& request.client_msg_id == match startup.stage {
                Stage::Application => "app-auth"@,
                Stage::Account => "auth:"@ + number,
                Stage::Symbols => "symbols:"@ + number,
                Stage::Details => "symbol-details:"@ + number,
                _ => "reconcile:"@ + number,
            }
            &&& startup.stage == Stage::Symbols ==> request.payload.member(
                "includeArchivedSymbols"@,
            ) == Some(JsonView::Bool(false))
            &&& startup.stage == Stage::Reconcile ==> request.payload.member(
                "returnProtectionOrders"@,
            ) == Some(JsonView::Bool(false))
            &&& startup.stage == Stage::Details ==> {
                &&& request.payload.member("symbolId"@) matches Some(JsonView::List(asked))
                &&& asked.len() == startup.light@.len()
                &&& 0 <= i < asked.len() ==> asked[i] == JsonView::Signed(startup.light@[i].0)
            }
        },
{
    reveal_strlit("ctidTraderAccountId");
    reveal_strlit("includeArchivedSymbols");
    reveal_strlit("returnProtectionOrders");
    reveal_strlit("symbolId");
    assert("ctidTraderAccountId"@.len() == 19 && "includeArchivedSymbols"@.len() == 22);
    assert("returnProtectionOrders"@.len() == 22 && "symbolId"@.len() == 8);
    if let Some(request) = startup.request_view() {
        let members = request.payload->Object_0;
        if startup.stage == Stage::Symbols {
            json::lemma_member(members, "includeArchivedSymbols"@, 1);
        } else if startup.stage == Stage::Details {
            json::lemma_member(members, "symbolId"@, 1);
        } else if startup.stage == Stage::Reconcile {
            json::lemma_member(members, "returnProtectionOrders"@, 1);
        }
    }
}

/// An account is connected as what it was configured as, with the symbols that
/// were read and the positions that it has.
pub proof fn law_account_is_connected(startup: Startup, positions: Map<Seq<char>, PositionView>)
    ensures
        ({
            let account = startup.completed(positions);
            &&& account.account_id == startup.accounts@[startup.place as int].account_id@
            &&& account.ctid == startup.accounts@[startup.place as int].ctid
            &&& account.platform == startup.accounts@[startup.place as int].platform
            &&& account.publishes == startup.accounts@[startup.place as int].publishes
            &&& account.symbols == startup.symbols@
            &&& account.positions == positions
        }),
{
}

} // verus!
