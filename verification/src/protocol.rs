//! The wire protocol: one frame a line, its fields between tabs.

use crate::decimal::{read_double, write_double};
use crate::double::Double;
use crate::model::{
    AckStatus, ExecutionAck, ExecutionAckView, ExecutionCommand, ExecutionCommandView, ModelError,
    ModelErrorView, Platform, Side, TradeAction, TradeEvent, TradeEventView,
};
use crate::text::{
    chars_of, join_texts, joined, parse_u16, read_i64, same, slice_text, split_text, write_i64,
    write_u64,
};
use crate::{decimal, double, model, text};
use vstd::prelude::*;
use vstd::string::*;

verus! {

/// The version of the protocol.
pub const WIRE_VERSION: u16 = 1;

/// What a client introduces itself with.
#[derive(Debug, PartialEq, Eq)]
pub struct HelloFrame {
    pub account_id: String,
    pub platform: Platform,
    pub token: String,
}

/// What a greeting holds.
pub struct HelloFrameView {
    pub account_id: Seq<char>,
    pub platform: Platform,
    pub token: Seq<char>,
}

impl View for HelloFrame {
    type V = HelloFrameView;

    open spec fn view(&self) -> HelloFrameView {
        HelloFrameView {
            account_id: self.account_id@,
            platform: self.platform,
            token: self.token@,
        }
    }
}

/// What a client sends.
#[derive(Debug, PartialEq)]
pub enum AgentFrame {
    Hello(HelloFrame),
    Event(TradeEvent),
    Ack(ExecutionAck),
    Ping(i64),
}

/// What a frame of a client holds.
pub enum AgentFrameView {
    Hello(HelloFrameView),
    Event(TradeEventView),
    Ack(ExecutionAckView),
    Ping(i64),
}

impl View for AgentFrame {
    type V = AgentFrameView;

    open spec fn view(&self) -> AgentFrameView {
        match self {
            AgentFrame::Hello(hello) => AgentFrameView::Hello(hello@),
            AgentFrame::Event(event) => AgentFrameView::Event(event@),
            AgentFrame::Ack(ack) => AgentFrameView::Ack(ack@),
            AgentFrame::Ping(time) => AgentFrameView::Ping(*time),
        }
    }
}

/// What the daemon sends.
#[derive(Debug, PartialEq)]
pub enum ServerFrame {
    Welcome { server_time_unix_ns: i64 },
    Command(Box<ExecutionCommand>),
    Error { code: String, message: String },
    Pong { server_time_unix_ns: i64 },
}

/// What a frame of the daemon holds.
pub enum ServerFrameView {
    Welcome(i64),
    Command(ExecutionCommandView),
    Error { code: Seq<char>, message: Seq<char> },
    Pong(i64),
}

impl View for ServerFrame {
    type V = ServerFrameView;

    open spec fn view(&self) -> ServerFrameView {
        match self {
            ServerFrame::Welcome { server_time_unix_ns } => ServerFrameView::Welcome(
                *server_time_unix_ns,
            ),
            ServerFrame::Command(command) => ServerFrameView::Command((**command)@),
            ServerFrame::Error { code, message } => ServerFrameView::Error {
                code: code@,
                message: message@,
            },
            ServerFrame::Pong { server_time_unix_ns } => ServerFrameView::Pong(
                *server_time_unix_ns,
            ),
        }
    }
}

/// What is wrong with a line.
#[derive(Debug)]
pub enum WireError {
    Empty,
    UnknownFrame(String),
    UnsupportedVersion(u16),
    FieldCount { kind: String, expected: usize, actual: usize },
    Missing(&'static str),
    InvalidNumber(&'static str, String),
    Model(ModelError),
}

/// What an error of the protocol holds.
pub enum WireErrorView {
    Empty,
    UnknownFrame(Seq<char>),
    UnsupportedVersion(u16),
    FieldCount { kind: Seq<char>, expected: int, actual: int },
    Missing(Seq<char>),
    InvalidNumber(Seq<char>, Seq<char>),
    Model(ModelErrorView),
}

impl View for WireError {
    type V = WireErrorView;

    open spec fn view(&self) -> WireErrorView {
        match self {
            WireError::Empty => WireErrorView::Empty,
            WireError::UnknownFrame(kind) => WireErrorView::UnknownFrame(kind@),
            WireError::UnsupportedVersion(version) => WireErrorView::UnsupportedVersion(*version),
            WireError::FieldCount { kind, expected, actual } => WireErrorView::FieldCount {
                kind: kind@,
                expected: *expected as int,
                actual: *actual as int,
            },
            WireError::Missing(name) => WireErrorView::Missing(name@),
            WireError::InvalidNumber(name, value) => WireErrorView::InvalidNumber(name@, value@),
            WireError::Model(error) => WireErrorView::Model(error@),
        }
    }
}

impl WireErrorView {
    /// The error in words.
    pub open spec fn words(self) -> Seq<char> {
        match self {
            WireErrorView::Empty => "empty wire frame"@,
            WireErrorView::UnknownFrame(kind) => "unknown wire frame: "@ + kind,
            WireErrorView::UnsupportedVersion(version) => "unsupported wire protocol version: "@
                + text::decimal_digits(version as nat),
            WireErrorView::FieldCount { kind, expected, actual } => kind + " expected "@
                + text::integer_text(expected) + " fields, got "@ + text::integer_text(actual),
            WireErrorView::Missing(name) => "missing required wire field: "@ + name,
            WireErrorView::InvalidNumber(name, value) => "invalid numeric field "@ + name + ": "@
                + value,
            WireErrorView::Model(error) => error.words(),
        }
    }
}

impl WireError {
    /// The error in words.
    pub fn to_string(&self) -> (r: String)
        ensures
            r@ == self@.words(),
    {
        match self {
            WireError::Empty => "empty wire frame".to_owned(),
            WireError::UnknownFrame(kind) => joined("unknown wire frame: ", kind.as_str()),
            WireError::UnsupportedVersion(version) => {
                let number = write_u64(*version as u64);
                joined("unsupported wire protocol version: ", number.as_str())
            },
            WireError::FieldCount { kind, expected, actual } => {
                let mut out = kind.clone();
                out.append(" expected ");
                let number = write_u64(*expected as u64);
                out.append(number.as_str());
                out.append(" fields, got ");
                let number = write_u64(*actual as u64);
                out.append(number.as_str());
                out
            },
            WireError::Missing(name) => joined("missing required wire field: ", name),
            WireError::InvalidNumber(name, value) => {
                let mut out = joined("invalid numeric field ", name);
                out.append(": ");
                out.append(value.as_str());
                out
            },
            WireError::Model(error) => error.to_string(),
        }
    }
}

/// Faults in the order in which they are looked for.
pub trait Faults: Sized {
    /// This fault, or the next where there is none here.
    spec fn or_next(self, next: Self) -> Self;
}

impl Faults for Option<WireErrorView> {
    open spec fn or_next(self, next: Self) -> Self {
        if self is Some {
            self
        } else {
            next
        }
    }
}

/// Whether a character ends a line.
pub open spec fn is_line_end(c: char) -> bool {
    c == '\r' || c == '\n'
}

/// A line without what ends it.
pub open spec fn without_end(line: Seq<char>) -> Seq<char> {
    text::trimmed_end(line, |c: char| is_line_end(c))
}

/// The fields of a line.
pub open spec fn fields_of(line: Seq<char>) -> Seq<Seq<char>> {
    text::split(without_end(line), '\t')
}

/// The fault of a frame that has not as many fields as its kind asks for.
pub open spec fn count_fault(fields: Seq<Seq<char>>, expected: int, kind: Seq<char>) -> Option<
    WireErrorView,
> {
    if fields.len() == expected {
        None
    } else {
        Some(WireErrorView::FieldCount { kind, expected, actual: fields.len() as int })
    }
}

/// The number that a text writes, where it lies in the range of `u16`.
pub open spec fn version_value(value: Seq<char>) -> Option<int> {
    match text::integer_value(value, false) {
        Some(n) if n <= u16::MAX => Some(n),
        _ => None,
    }
}

/// The fault of a field that should hold the protocol's version.
pub open spec fn version_fault(value: Seq<char>) -> Option<WireErrorView> {
    match version_value(value) {
        Some(n) if n == WIRE_VERSION => None,
        Some(n) => Some(WireErrorView::UnsupportedVersion(n as u16)),
        None => Some(WireErrorView::InvalidNumber("version"@, value)),
    }
}

/// The fault of a field that must not be empty.
pub open spec fn missing_fault(value: Seq<char>, name: Seq<char>) -> Option<WireErrorView> {
    if value.len() == 0 {
        Some(WireErrorView::Missing(name))
    } else {
        None
    }
}

/// The fault of a field that should hold one of a set of names.
pub open spec fn name_fault<T>(named: Result<T, ModelErrorView>) -> Option<WireErrorView> {
    match named {
        Ok(_) => None,
        Err(error) => Some(WireErrorView::Model(error)),
    }
}

/// The fault of a field that should hold a side or nothing.
pub open spec fn side_fault(value: Seq<char>) -> Option<WireErrorView> {
    if value.len() == 0 {
        None
    } else {
        name_fault(Side::named(value))
    }
}

/// The side that a field holds.
pub open spec fn side_value(value: Seq<char>) -> Option<Side> {
    if value.len() == 0 {
        None
    } else {
        Some(Side::named(value)->Ok_0)
    }
}

/// The fault of a field that should hold a number.
pub open spec fn number_fault(value: Seq<char>, name: Seq<char>) -> Option<WireErrorView> {
    if decimal::double_value(value) is Some {
        None
    } else {
        Some(WireErrorView::InvalidNumber(name, value))
    }
}

/// The number that a field holds.
pub open spec fn number_value(value: Seq<char>) -> Double {
    decimal::double_value(value)->Some_0
}

/// The fault of a field that should hold a number or nothing.
pub open spec fn optional_fault(value: Seq<char>, name: Seq<char>) -> Option<WireErrorView> {
    if value.len() == 0 {
        None
    } else {
        number_fault(value, name)
    }
}

/// The number that a field holds, if it holds one.
pub open spec fn optional_value(value: Seq<char>) -> Option<Double> {
    if value.len() == 0 {
        None
    } else {
        Some(number_value(value))
    }
}

/// The whole number that a field holds, where it lies in the range of `i64`.
pub open spec fn whole_value(value: Seq<char>) -> Option<int> {
    match text::integer_value(value, true) {
        Some(n) if i64::MIN <= n <= i64::MAX => Some(n),
        _ => None,
    }
}

/// The fault of a field that should hold a whole number.
pub open spec fn whole_fault(value: Seq<char>, name: Seq<char>) -> Option<WireErrorView> {
    if whole_value(value) is Some {
        None
    } else {
        Some(WireErrorView::InvalidNumber(name, value))
    }
}

/// The text that a field holds, if it holds one.
pub open spec fn optional_text(value: Seq<char>) -> Option<Seq<char>> {
    if value.len() == 0 {
        None
    } else {
        Some(value)
    }
}

/// A value, unless there is a fault.
pub open spec fn unless<T>(fault: Option<WireErrorView>, value: T) -> Result<T, WireErrorView> {
    match fault {
        Some(error) => Err(error),
        None => Ok(value),
    }
}

/// The greeting that fields hold.
pub open spec fn hello_frame(f: Seq<Seq<char>>) -> Result<AgentFrameView, WireErrorView> {
    unless(
        count_fault(f, 5, "HELLO"@)
            .or_next(version_fault(f[1]))
            .or_next(missing_fault(f[2], "account_id"@))
            .or_next(name_fault(Platform::named(f[3]))),
        AgentFrameView::Hello(
            HelloFrameView {
                account_id: f[2],
                platform: Platform::named(f[3])->Ok_0,
                token: f[4],
            },
        ),
    )
}

/// The event that fields hold, whether it is valid or not.
pub open spec fn event_value(f: Seq<Seq<char>>) -> TradeEventView {
    TradeEventView {
        event_id: f[2],
        source_account_id: f[3],
        platform: Platform::named(f[4])->Ok_0,
        action: TradeAction::named(f[5])->Ok_0,
        source_order_id: f[6],
        symbol: f[7],
        side: side_value(f[8]),
        volume: number_value(f[9]),
        remaining_volume: optional_value(f[10]),
        price: optional_value(f[11]),
        stop_loss: optional_value(f[12]),
        take_profit: optional_value(f[13]),
        timestamp_unix_ns: whole_value(f[14])->Some_0 as i64,
        origin_command_id: optional_text(f[15]),
    }
}

/// The first fault of the fields of an event.
pub open spec fn event_fault(f: Seq<Seq<char>>) -> Option<WireErrorView> {
    count_fault(f, 16, "EVENT"@)
        .or_next(version_fault(f[1]))
        .or_next(missing_fault(f[2], "event_id"@))
        .or_next(missing_fault(f[3], "source_account_id"@))
        .or_next(name_fault(Platform::named(f[4])))
        .or_next(name_fault(TradeAction::named(f[5])))
        .or_next(missing_fault(f[6], "source_order_id"@))
        .or_next(missing_fault(f[7], "symbol"@))
        .or_next(side_fault(f[8]))
        .or_next(number_fault(f[9], "volume"@))
        .or_next(optional_fault(f[10], "remaining_volume"@))
        .or_next(optional_fault(f[11], "price"@))
        .or_next(optional_fault(f[12], "stop_loss"@))
        .or_next(optional_fault(f[13], "take_profit"@))
        .or_next(whole_fault(f[14], "timestamp_unix_ns"@))
}

/// The event that fields hold.
pub open spec fn event_frame(f: Seq<Seq<char>>) -> Result<AgentFrameView, WireErrorView> {
    let event = event_value(f);
    let invalid = match event.fault() {
        Some(error) => Some(WireErrorView::Model(error)),
        None => None,
    };
    unless(event_fault(f).or_next(invalid), AgentFrameView::Event(event))
}

/// The acknowledgement that fields hold.
pub open spec fn ack_frame(f: Seq<Seq<char>>) -> Result<AgentFrameView, WireErrorView> {
    unless(
        count_fault(f, 8, "ACK"@)
            .or_next(version_fault(f[1]))
            .or_next(missing_fault(f[2], "command_id"@))
            .or_next(missing_fault(f[3], "account_id"@))
            .or_next(name_fault(AckStatus::named(f[4])))
            .or_next(whole_fault(f[6], "timestamp_unix_ns"@)),
        AgentFrameView::Ack(
            ExecutionAckView {
                command_id: f[2],
                account_id: f[3],
                status: AckStatus::named(f[4])->Ok_0,
                external_id: optional_text(f[5]),
                timestamp_unix_ns: whole_value(f[6])->Some_0 as i64,
                message: optional_text(f[7]),
            },
        ),
    )
}

/// The fault of a frame that holds nothing but a time.
pub open spec fn time_fault(f: Seq<Seq<char>>, kind: Seq<char>, name: Seq<char>) -> Option<
    WireErrorView,
> {
    count_fault(f, 3, kind).or_next(version_fault(f[1])).or_next(whole_fault(f[2], name))
}

/// The time that a frame of three fields holds.
pub open spec fn time_value(f: Seq<Seq<char>>) -> i64 {
    whole_value(f[2])->Some_0 as i64
}

/// The frame that the fields of a client's line hold.
pub open spec fn agent_frame(f: Seq<Seq<char>>) -> Result<AgentFrameView, WireErrorView> {
    if f[0] == "HELLO"@ {
        hello_frame(f)
    } else if f[0] == "EVENT"@ {
        event_frame(f)
    } else if f[0] == "ACK"@ {
        ack_frame(f)
    } else if f[0] == "PING"@ {
        unless(
            time_fault(f, "PING"@, "timestamp_unix_ns"@),
            AgentFrameView::Ping(time_value(f)),
        )
    } else {
        Err(WireErrorView::UnknownFrame(f[0]))
    }
}

/// The first fault of the fields of a command.
pub open spec fn command_fault(f: Seq<Seq<char>>) -> Option<WireErrorView> {
    count_fault(f, 18, "COMMAND"@)
        .or_next(version_fault(f[1]))
        .or_next(missing_fault(f[2], "command_id"@))
        .or_next(missing_fault(f[3], "origin_event_id"@))
        .or_next(missing_fault(f[4], "route_id"@))
        .or_next(missing_fault(f[5], "source_account_id"@))
        .or_next(missing_fault(f[6], "source_order_id"@))
        .or_next(missing_fault(f[7], "target_account_id"@))
        .or_next(name_fault(TradeAction::named(f[8])))
        .or_next(missing_fault(f[10], "symbol"@))
        .or_next(side_fault(f[11]))
        .or_next(number_fault(f[12], "volume"@))
        .or_next(number_fault(f[13], "source_volume"@))
        .or_next(optional_fault(f[14], "source_remaining_volume"@))
        .or_next(optional_fault(f[15], "price"@))
        .or_next(optional_fault(f[16], "stop_loss"@))
        .or_next(optional_fault(f[17], "take_profit"@))
}

/// The command that fields hold. The time of its making is not carried.
pub open spec fn command_value(f: Seq<Seq<char>>) -> ExecutionCommandView {
    ExecutionCommandView {
        command_id: f[2],
        origin_event_id: f[3],
        route_id: f[4],
        source_account_id: f[5],
        source_order_id: f[6],
        target_account_id: f[7],
        action: TradeAction::named(f[8])->Ok_0,
        target_order_id: optional_text(f[9]),
        symbol: f[10],
        side: side_value(f[11]),
        volume: number_value(f[12]),
        source_volume: number_value(f[13]),
        source_remaining_volume: optional_value(f[14]),
        price: optional_value(f[15]),
        stop_loss: optional_value(f[16]),
        take_profit: optional_value(f[17]),
        created_unix_ns: 0,
    }
}

/// The frame that the fields of a line of the daemon hold.
pub open spec fn server_frame(f: Seq<Seq<char>>) -> Result<ServerFrameView, WireErrorView> {
    if f[0] == "WELCOME"@ {
        unless(
            time_fault(f, "WELCOME"@, "server_time_unix_ns"@),
            ServerFrameView::Welcome(time_value(f)),
        )
    } else if f[0] == "COMMAND"@ {
        unless(command_fault(f), ServerFrameView::Command(command_value(f)))
    } else if f[0] == "ERROR"@ {
        unless(
            count_fault(f, 4, "ERROR"@).or_next(version_fault(f[1])),
            ServerFrameView::Error { code: f[2], message: f[3] },
        )
    } else if f[0] == "PONG"@ {
        unless(
            time_fault(f, "PONG"@, "server_time_unix_ns"@),
            ServerFrameView::Pong(time_value(f)),
        )
    } else {
        Err(WireErrorView::UnknownFrame(f[0]))
    }
}

/// A text fit for a field: tabs and ends of lines become blanks.
pub open spec fn clean(value: Seq<char>) -> Seq<char> {
    value.map_values(
        |c: char|
            if c == '\t' || is_line_end(c) {
                ' '
            } else {
                c
            },
    )
}

/// The field of a text that may be absent.
pub open spec fn text_field(value: Option<Seq<char>>) -> Seq<char> {
    match value {
        Some(inner) => clean(inner),
        None => Seq::empty(),
    }
}

/// The field of a side that may be absent.
pub open spec fn side_field(value: Option<Side>) -> Seq<char> {
    match value {
        Some(side) => side.name(),
        None => Seq::empty(),
    }
}

/// The field of a number that may be absent.
pub open spec fn number_field(value: Option<Double>) -> Seq<char> {
    match value {
        Some(number) => decimal::double_text(number),
        None => Seq::empty(),
    }
}

/// The field of the protocol's version.
pub open spec fn version_field() -> Seq<char> {
    text::decimal_digits(WIRE_VERSION as nat)
}

/// The fields of an event.
#[verifier::opaque]
pub open spec fn event_fields(event: TradeEventView) -> Seq<Seq<char>> {
    seq![
        "EVENT"@,
        version_field(),
        clean(event.event_id),
        clean(event.source_account_id),
        event.platform.name(),
        event.action.name(),
        clean(event.source_order_id),
        clean(event.symbol),
        side_field(event.side),
        decimal::double_text(event.volume),
        number_field(event.remaining_volume),
        number_field(event.price),
        number_field(event.stop_loss),
        number_field(event.take_profit),
        text::integer_text(event.timestamp_unix_ns as int),
        text_field(event.origin_command_id),
    ]
}

/// The fields of a command.
#[verifier::opaque]
pub open spec fn command_fields(command: ExecutionCommandView) -> Seq<Seq<char>> {
    seq![
        "COMMAND"@,
        version_field(),
        clean(command.command_id),
        clean(command.origin_event_id),
        clean(command.route_id),
        clean(command.source_account_id),
        clean(command.source_order_id),
        clean(command.target_account_id),
        command.action.name(),
        text_field(command.target_order_id),
        clean(command.symbol),
        side_field(command.side),
        decimal::double_text(command.volume),
        decimal::double_text(command.source_volume),
        number_field(command.source_remaining_volume),
        number_field(command.price),
        number_field(command.stop_loss),
        number_field(command.take_profit),
    ]
}

/// The fields of a client's frame.
pub open spec fn agent_fields(frame: AgentFrameView) -> Seq<Seq<char>> {
    match frame {
        AgentFrameView::Hello(hello) => seq![
            "HELLO"@,
            version_field(),
            clean(hello.account_id),
            hello.platform.name(),
            clean(hello.token),
        ],
        AgentFrameView::Event(event) => event_fields(event),
        AgentFrameView::Ack(ack) => seq![
            "ACK"@,
            version_field(),
            clean(ack.command_id),
            clean(ack.account_id),
            ack.status.name(),
            text_field(ack.external_id),
            text::integer_text(ack.timestamp_unix_ns as int),
            text_field(ack.message),
        ],
        AgentFrameView::Ping(time) => seq![
            "PING"@,
            version_field(),
            text::integer_text(time as int),
        ],
    }
}

/// The fields of a frame of the daemon.
pub open spec fn server_fields(frame: ServerFrameView) -> Seq<Seq<char>> {
    match frame {
        ServerFrameView::Welcome(time) => seq![
            "WELCOME"@,
            version_field(),
            text::integer_text(time as int),
        ],
        ServerFrameView::Command(command) => command_fields(command),
        ServerFrameView::Error { code, message } => seq![
            "ERROR"@,
            version_field(),
            clean(code),
            clean(message),
        ],
        ServerFrameView::Pong(time) => seq![
            "PONG"@,
            version_field(),
            text::integer_text(time as int),
        ],
    }
}

/// The line that carries fields.
pub open spec fn line_of(fields: Seq<Seq<char>>) -> Seq<char> {
    text::join(fields, '\t').push('\n')
}

/// A line without what ends it.
pub fn strip_line_end(value: &str) -> (r: String)
    ensures
        r@ == without_end(value@),
{
    let chars = chars_of(value);
    let mut n: usize = chars.len();
    assert(chars@.take(n as int) =~= value@);
    while n > 0 && (chars[n - 1] == '\r' || chars[n - 1] == '\n')
        invariant
            n <= chars.len(),
            without_end(chars@.take(n as int)) == without_end(value@),
        decreases n,
    {
        assert(chars@.take(n as int).drop_last() =~= chars@.take(n - 1));
        n = n - 1;
    }
    assert(chars@.take(n as int) =~= chars@.subrange(0, n as int));
    slice_text(&chars, 0, n)
}

/// A field of a line.
fn at(fields: &Vec<String>, i: usize) -> (r: &str)
    requires
        i < fields.len(),
    ensures
        r@ == fields.deep_view()[i as int],
{
    fields[i].as_str()
}

/// Checks how many fields a frame has.
pub fn require_len(fields: &Vec<String>, expected: usize, kind: &str) -> (r: Result<(), WireError>)
    ensures
        model::outcome(r) == unless(
            count_fault(fields.deep_view(), expected as int, kind@),
            (),
        ),
{
    if fields.len() == expected {
        Ok(())
    } else {
        Err(WireError::FieldCount { kind: kind.to_owned(), expected, actual: fields.len() })
    }
}

/// Checks that a field holds the protocol's version.
pub fn require_version(value: &str) -> (r: Result<(), WireError>)
    ensures
        model::outcome(r) == unless(version_fault(value@), ()),
{
    match parse_u16(value) {
        Some(version) => {
            if version == WIRE_VERSION {
                Ok(())
            } else {
                Err(WireError::UnsupportedVersion(version))
            }
        },
        None => Err(WireError::InvalidNumber("version", value.to_owned())),
    }
}

/// A field that must not be empty.
pub fn required(value: &str, name: &'static str) -> (r: Result<String, WireError>)
    ensures
        model::outcome(r) == unless(missing_fault(value@, name@), value@),
{
    if value.is_empty() {
        Err(WireError::Missing(name))
    } else {
        Ok(value.to_owned())
    }
}

/// A field that may be empty.
pub fn optional_string(value: &str) -> (r: Option<String>)
    ensures
        r.deep_view() == optional_text(value@),
{
    if value.is_empty() {
        None
    } else {
        Some(value.to_owned())
    }
}

fn parse_platform(value: &str) -> (r: Result<Platform, WireError>)
    ensures
        model::outcome(r) == unless(
            name_fault(Platform::named(value@)),
            Platform::named(value@)->Ok_0,
        ),
{
    match Platform::from_str(value) {
        Ok(platform) => Ok(platform),
        Err(error) => Err(WireError::Model(error)),
    }
}

fn parse_action(value: &str) -> (r: Result<TradeAction, WireError>)
    ensures
        model::outcome(r) == unless(
            name_fault(TradeAction::named(value@)),
            TradeAction::named(value@)->Ok_0,
        ),
{
    match TradeAction::from_str(value) {
        Ok(action) => Ok(action),
        Err(error) => Err(WireError::Model(error)),
    }
}

fn parse_status(value: &str) -> (r: Result<AckStatus, WireError>)
    ensures
        model::outcome(r) == unless(
            name_fault(AckStatus::named(value@)),
            AckStatus::named(value@)->Ok_0,
        ),
{
    match AckStatus::from_str(value) {
        Ok(status) => Ok(status),
        Err(error) => Err(WireError::Model(error)),
    }
}

/// A field that holds a side or nothing.
pub fn parse_side(value: &str) -> (r: Result<Option<Side>, WireError>)
    ensures
        model::outcome(r) == unless(side_fault(value@), side_value(value@)),
{
    if value.is_empty() {
        Ok(None)
    } else {
        match Side::from_str(value) {
            Ok(side) => Ok(Some(side)),
            Err(error) => Err(WireError::Model(error)),
        }
    }
}

/// A field that holds a number.
pub fn parse_f64(value: &str, field: &'static str) -> (r: Result<Double, WireError>)
    ensures
        model::outcome(r) == unless(number_fault(value@, field@), number_value(value@)),
{
    match read_double(value) {
        Some(number) => Ok(number),
        None => Err(WireError::InvalidNumber(field, value.to_owned())),
    }
}

/// A field that holds a number or nothing.
pub fn parse_opt_f64(value: &str, field: &'static str) -> (r: Result<Option<Double>, WireError>)
    ensures
        model::outcome(r) == unless(optional_fault(value@, field@), optional_value(value@)),
{
    if value.is_empty() {
        Ok(None)
    } else {
        match parse_f64(value, field) {
            Ok(number) => Ok(Some(number)),
            Err(error) => Err(error),
        }
    }
}

/// A field that holds a whole number.
pub fn parse_i64(value: &str, field: &'static str) -> (r: Result<i64, WireError>)
    ensures
        model::outcome(r) == unless(
            whole_fault(value@, field@),
            whole_value(value@)->Some_0 as i64,
        ),
{
    match read_i64(value) {
        Some(number) => Ok(number),
        None => Err(WireError::InvalidNumber(field, value.to_owned())),
    }
}

fn parse_hello(fields: &Vec<String>) -> (r: Result<AgentFrame, WireError>)
    ensures
        model::outcome(r) == hello_frame(fields.deep_view()),
{
    require_len(fields, 5, "HELLO")?;
    require_version(at(fields, 1))?;
    let account_id = required(at(fields, 2), "account_id")?;
    let platform = parse_platform(at(fields, 3))?;
    let token = at(fields, 4).to_owned();
    Ok(AgentFrame::Hello(HelloFrame { account_id, platform, token }))
}

fn parse_event(fields: &Vec<String>) -> (r: Result<AgentFrame, WireError>)
    ensures
        model::outcome(r) == event_frame(fields.deep_view()),
{
    require_len(fields, 16, "EVENT")?;
    require_version(at(fields, 1))?;
    let event_id = required(at(fields, 2), "event_id")?;
    let source_account_id = required(at(fields, 3), "source_account_id")?;
    let platform = parse_platform(at(fields, 4))?;
    let action = parse_action(at(fields, 5))?;
    let source_order_id = required(at(fields, 6), "source_order_id")?;
    let symbol = required(at(fields, 7), "symbol")?;
    let side = parse_side(at(fields, 8))?;
    let volume = parse_f64(at(fields, 9), "volume")?;
    let remaining_volume = parse_opt_f64(at(fields, 10), "remaining_volume")?;
    let price = parse_opt_f64(at(fields, 11), "price")?;
    let stop_loss = parse_opt_f64(at(fields, 12), "stop_loss")?;
    let take_profit = parse_opt_f64(at(fields, 13), "take_profit")?;
    let timestamp_unix_ns: i64 = parse_i64(at(fields, 14), "timestamp_unix_ns")?;
    let origin_command_id = optional_string(at(fields, 15));
    let event = TradeEvent {
        event_id,
        source_account_id,
        platform,
        action,
        source_order_id,
        symbol,
        side,
        volume,
        remaining_volume,
        price,
        stop_loss,
        take_profit,
        timestamp_unix_ns,
        origin_command_id,
    };
    assert(event@ == event_value(fields.deep_view()));
    match event.validate() {
        Ok(_) => Ok(AgentFrame::Event(event)),
        Err(error) => Err(WireError::Model(error)),
    }
}

fn parse_ack(fields: &Vec<String>) -> (r: Result<AgentFrame, WireError>)
    ensures
        model::outcome(r) == ack_frame(fields.deep_view()),
{
    require_len(fields, 8, "ACK")?;
    require_version(at(fields, 1))?;
    let command_id = required(at(fields, 2), "command_id")?;
    let account_id = required(at(fields, 3), "account_id")?;
    let status = parse_status(at(fields, 4))?;
    let external_id = optional_string(at(fields, 5));
    let timestamp_unix_ns: i64 = parse_i64(at(fields, 6), "timestamp_unix_ns")?;
    let message = optional_string(at(fields, 7));
    Ok(
        AgentFrame::Ack(
            ExecutionAck {
                command_id,
                account_id,
                status,
                external_id,
                timestamp_unix_ns,
                message,
            },
        ),
    )
}

fn parse_time(fields: &Vec<String>, kind: &'static str, name: &'static str) -> (r: Result<
    i64,
    WireError,
>)
    ensures
        model::outcome(r) == unless(
            time_fault(fields.deep_view(), kind@, name@),
            time_value(fields.deep_view()),
        ),
{
    require_len(fields, 3, kind)?;
    require_version(at(fields, 1))?;
    parse_i64(at(fields, 2), name)
}

/// Reads a line of a client.
pub fn parse_agent_line(line: &str) -> (r: Result<AgentFrame, WireError>)
    ensures
        model::outcome(r) == agent_frame(fields_of(line@)),
{
    let stripped = strip_line_end(line);
    let fields = split_text(stripped.as_str(), '\t');
    proof {
        text::lemma_split_some(stripped@, '\t');
    }
    let kind = at(&fields, 0);
    if same(kind, "HELLO") {
        parse_hello(&fields)
    } else if same(kind, "EVENT") {
        parse_event(&fields)
    } else if same(kind, "ACK") {
        parse_ack(&fields)
    } else if same(kind, "PING") {
        match parse_time(&fields, "PING", "timestamp_unix_ns") {
            Ok(time) => Ok(AgentFrame::Ping(time)),
            Err(error) => Err(error),
        }
    } else {
        Err(WireError::UnknownFrame(kind.to_owned()))
    }
}

fn parse_command(fields: &Vec<String>) -> (r: Result<ExecutionCommand, WireError>)
    ensures
        model::outcome(r) == unless(
            command_fault(fields.deep_view()),
            command_value(fields.deep_view()),
        ),
{
    require_len(fields, 18, "COMMAND")?;
    require_version(at(fields, 1))?;
    let command_id = required(at(fields, 2), "command_id")?;
    let origin_event_id = required(at(fields, 3), "origin_event_id")?;
    let route_id = required(at(fields, 4), "route_id")?;
    let source_account_id = required(at(fields, 5), "source_account_id")?;
    let source_order_id = required(at(fields, 6), "source_order_id")?;
    let target_account_id = required(at(fields, 7), "target_account_id")?;
    let action = parse_action(at(fields, 8))?;
    let target_order_id = optional_string(at(fields, 9));
    let symbol = required(at(fields, 10), "symbol")?;
    let side = parse_side(at(fields, 11))?;
    let volume = parse_f64(at(fields, 12), "volume")?;
    let source_volume = parse_f64(at(fields, 13), "source_volume")?;
    let source_remaining_volume = parse_opt_f64(at(fields, 14), "source_remaining_volume")?;
    let price = parse_opt_f64(at(fields, 15), "price")?;
    let stop_loss = parse_opt_f64(at(fields, 16), "stop_loss")?;
    let take_profit = parse_opt_f64(at(fields, 17), "take_profit")?;
    Ok(
        ExecutionCommand {
            command_id,
            origin_event_id,
            route_id,
            source_account_id,
            source_order_id,
            target_account_id,
            action,
            target_order_id,
            symbol,
            side,
            volume,
            source_volume,
            source_remaining_volume,
            price,
            stop_loss,
            take_profit,
            created_unix_ns: 0,
        },
    )
}

fn parse_error(fields: &Vec<String>) -> (r: Result<ServerFrame, WireError>)
    ensures
        model::outcome(r) == unless(
            count_fault(fields.deep_view(), 4, "ERROR"@).or_next(
                version_fault(fields.deep_view()[1]),
            ),
            ServerFrameView::Error {
                code: fields.deep_view()[2],
                message: fields.deep_view()[3],
            },
        ),
{
    require_len(fields, 4, "ERROR")?;
    require_version(at(fields, 1))?;
    let code = at(fields, 2).to_owned();
    let message = at(fields, 3).to_owned();
    Ok(ServerFrame::Error { code, message })
}

/// Reads a line of the daemon.
pub fn parse_server_line(line: &str) -> (r: Result<ServerFrame, WireError>)
    ensures
        model::outcome(r) == server_frame(fields_of(line@)),
{
    let stripped = strip_line_end(line);
    let fields = split_text(stripped.as_str(), '\t');
    proof {
        text::lemma_split_some(stripped@, '\t');
    }
    let kind = at(&fields, 0);
    if same(kind, "WELCOME") {
        match parse_time(&fields, "WELCOME", "server_time_unix_ns") {
            Ok(server_time_unix_ns) => Ok(ServerFrame::Welcome { server_time_unix_ns }),
            Err(error) => Err(error),
        }
    } else if same(kind, "COMMAND") {
        match parse_command(&fields) {
            Ok(command) => Ok(ServerFrame::Command(Box::new(command))),
            Err(error) => Err(error),
        }
    } else if same(kind, "ERROR") {
        parse_error(&fields)
    } else if same(kind, "PONG") {
        match parse_time(&fields, "PONG", "server_time_unix_ns") {
            Ok(server_time_unix_ns) => Ok(ServerFrame::Pong { server_time_unix_ns }),
            Err(error) => Err(error),
        }
    } else {
        Err(WireError::UnknownFrame(kind.to_owned()))
    }
}

/// A text fit for a field.
pub fn field(value: &str) -> (r: String)
    ensures
        r@ == clean(value@),
{
    let mut out = String::new();
    assert(out@ =~= clean(value@.take(0)));
    for c in it: value.chars()
        invariant
            it.seq() == value@,
            out@ == clean(value@.take(it.index() as int)),
    {
        let kept: char = if c == '\t' || c == '\r' || c == '\n' {
            ' '
        } else {
            c
        };
        out.push(kept);
        assert(out@ =~= clean(value@.take(it.index() + 1)));
    }
    assert(value@.take(value@.len() as int) =~= value@);
    out
}

/// The field of a text that may be absent.
pub fn opt_str(value: &Option<String>) -> (r: String)
    ensures
        r@ == text_field(value.deep_view()),
{
    match value {
        Some(inner) => field(inner.as_str()),
        None => {
            let out = String::new();
            assert(out@ =~= Seq::empty());
            out
        },
    }
}

/// The field of a side that may be absent.
pub fn opt_side(value: Option<Side>) -> (r: String)
    ensures
        r@ == side_field(value),
{
    match value {
        Some(side) => side.to_string(),
        None => {
            let out = String::new();
            assert(out@ =~= Seq::empty());
            out
        },
    }
}

/// The field of a number that may be absent.
pub fn opt_f64(value: Option<Double>) -> (r: String)
    ensures
        r@ == number_field(value),
{
    match value {
        Some(number) => write_double(number),
        None => {
            let out = String::new();
            assert(out@ =~= Seq::empty());
            out
        },
    }
}

fn write_line(fields: &Vec<String>) -> (r: String)
    ensures
        r@ == line_of(fields.deep_view()),
{
    let mut out = join_texts(fields, '\t');
    out.push('\n');
    out
}

/// Writes the line of a client's frame.
pub fn encode_agent_frame(frame: &AgentFrame) -> (r: String)
    ensures
        r@ == line_of(agent_fields(frame@)),
{
    reveal(event_fields);
    let version = write_u64(WIRE_VERSION as u64);
    let fields: Vec<String> = match frame {
        AgentFrame::Hello(hello) => vec![
            "HELLO".to_owned(),
            version,
            field(hello.account_id.as_str()),
            hello.platform.to_string(),
            field(hello.token.as_str()),
        ],
        AgentFrame::Event(event) => vec![
            "EVENT".to_owned(),
            version,
            field(event.event_id.as_str()),
            field(event.source_account_id.as_str()),
            event.platform.to_string(),
            event.action.to_string(),
            field(event.source_order_id.as_str()),
            field(event.symbol.as_str()),
            opt_side(event.side),
            write_double(event.volume),
            opt_f64(event.remaining_volume),
            opt_f64(event.price),
            opt_f64(event.stop_loss),
            opt_f64(event.take_profit),
            write_i64(event.timestamp_unix_ns),
            opt_str(&event.origin_command_id),
        ],
        AgentFrame::Ack(ack) => vec![
            "ACK".to_owned(),
            version,
            field(ack.command_id.as_str()),
            field(ack.account_id.as_str()),
            ack.status.to_string(),
            opt_str(&ack.external_id),
            write_i64(ack.timestamp_unix_ns),
            opt_str(&ack.message),
        ],
        AgentFrame::Ping(time) => vec!["PING".to_owned(), version, write_i64(*time)],
    };
    assert(fields.deep_view() =~= agent_fields(frame@));
    write_line(&fields)
}

/// Writes the line of a frame of the daemon.
pub fn encode_server_frame(frame: &ServerFrame) -> (r: String)
    ensures
        r@ == line_of(server_fields(frame@)),
{
    reveal(command_fields);
    let version = write_u64(WIRE_VERSION as u64);
    let fields: Vec<String> = match frame {
        ServerFrame::Welcome { server_time_unix_ns } => vec![
            "WELCOME".to_owned(),
            version,
            write_i64(*server_time_unix_ns),
        ],
        ServerFrame::Command(command) => vec![
            "COMMAND".to_owned(),
            version,
            field(command.command_id.as_str()),
            field(command.origin_event_id.as_str()),
            field(command.route_id.as_str()),
            field(command.source_account_id.as_str()),
            field(command.source_order_id.as_str()),
            field(command.target_account_id.as_str()),
            command.action.to_string(),
            opt_str(&command.target_order_id),
            field(command.symbol.as_str()),
            opt_side(command.side),
            write_double(command.volume),
            write_double(command.source_volume),
            opt_f64(command.source_remaining_volume),
            opt_f64(command.price),
            opt_f64(command.stop_loss),
            opt_f64(command.take_profit),
        ],
        ServerFrame::Error { code, message } => vec![
            "ERROR".to_owned(),
            version,
            field(code.as_str()),
            field(message.as_str()),
        ],
        ServerFrame::Pong { server_time_unix_ns } => vec![
            "PONG".to_owned(),
            version,
            write_i64(*server_time_unix_ns),
        ],
    };
    assert(fields.deep_view() =~= server_fields(frame@));
    write_line(&fields)
}

/// A text that fits in a field as it is.
pub open spec fn plain(value: Seq<char>) -> bool {
    !value.contains('\t') && !value.contains('\r') && !value.contains('\n')
}

/// A number as a field carries it.
pub open spec fn carried_number(value: Double) -> Double {
    if value.nan() {
        double::not_a_number()
    } else {
        value
    }
}

/// A number that may be absent, as a field carries it.
pub open spec fn carried_optional(value: Option<Double>) -> Option<Double> {
    match value {
        Some(number) => Some(carried_number(number)),
        None => None,
    }
}

/// A text that may be absent, as a field carries it.
pub open spec fn carried_text(value: Option<Seq<char>>) -> Option<Seq<char>> {
    optional_text(text_field(value))
}

impl AgentFrameView {
    /// Whether nothing is absent that a frame must hold.
    pub open spec fn complete(self) -> bool {
        match self {
            AgentFrameView::Hello(hello) => hello.account_id.len() > 0,
            AgentFrameView::Event(event) => event.fault() is None,
            AgentFrameView::Ack(ack) => ack.command_id.len() > 0 && ack.account_id.len() > 0,
            AgentFrameView::Ping(_) => true,
        }
    }

    /// The frame as a line carries it.
    pub open spec fn carried(self) -> AgentFrameView {
        match self {
            AgentFrameView::Hello(hello) => AgentFrameView::Hello(
                HelloFrameView {
                    account_id: clean(hello.account_id),
                    platform: hello.platform,
                    token: clean(hello.token),
                },
            ),
            AgentFrameView::Event(event) => AgentFrameView::Event(
                TradeEventView {
                    event_id: clean(event.event_id),
                    source_account_id: clean(event.source_account_id),
                    source_order_id: clean(event.source_order_id),
                    symbol: clean(event.symbol),
                    volume: carried_number(event.volume),
                    remaining_volume: carried_optional(event.remaining_volume),
                    price: carried_optional(event.price),
                    stop_loss: carried_optional(event.stop_loss),
                    take_profit: carried_optional(event.take_profit),
                    origin_command_id: carried_text(event.origin_command_id),
                    ..event
                },
            ),
            AgentFrameView::Ack(ack) => AgentFrameView::Ack(
                ExecutionAckView {
                    command_id: clean(ack.command_id),
                    account_id: clean(ack.account_id),
                    external_id: carried_text(ack.external_id),
                    message: carried_text(ack.message),
                    ..ack
                },
            ),
            AgentFrameView::Ping(time) => AgentFrameView::Ping(time),
        }
    }
}

impl ServerFrameView {
    /// Whether nothing is absent that a frame must hold.
    pub open spec fn complete(self) -> bool {
        match self {
            ServerFrameView::Command(command) => {
                &&& command.command_id.len() > 0
                &&& command.origin_event_id.len() > 0
                &&& command.route_id.len() > 0
                &&& command.source_account_id.len() > 0
                &&& command.source_order_id.len() > 0
                &&& command.target_account_id.len() > 0
                &&& command.symbol.len() > 0
            },
            _ => true,
        }
    }

    /// The frame as a line carries it.
    pub open spec fn carried(self) -> ServerFrameView {
        match self {
            ServerFrameView::Welcome(time) => ServerFrameView::Welcome(time),
            ServerFrameView::Command(command) => ServerFrameView::Command(
                ExecutionCommandView {
                    command_id: clean(command.command_id),
                    origin_event_id: clean(command.origin_event_id),
                    route_id: clean(command.route_id),
                    source_account_id: clean(command.source_account_id),
                    source_order_id: clean(command.source_order_id),
                    target_account_id: clean(command.target_account_id),
                    target_order_id: carried_text(command.target_order_id),
                    symbol: clean(command.symbol),
                    volume: carried_number(command.volume),
                    source_volume: carried_number(command.source_volume),
                    source_remaining_volume: carried_optional(command.source_remaining_volume),
                    price: carried_optional(command.price),
                    stop_loss: carried_optional(command.stop_loss),
                    take_profit: carried_optional(command.take_profit),
                    created_unix_ns: 0,
                    ..command
                },
            ),
            ServerFrameView::Error { code, message } => ServerFrameView::Error {
                code: clean(code),
                message: clean(message),
            },
            ServerFrameView::Pong(time) => ServerFrameView::Pong(time),
        }
    }
}

proof fn lemma_clean_plain(value: Seq<char>)
    ensures
        plain(clean(value)),
        clean(value).len() == value.len(),
{
}

proof fn lemma_digits_plain(digits: Seq<char>)
    requires
        text::all_digits(digits),
    ensures
        plain(digits),
{
    assert forall|c: char| digits.contains(c) implies text::is_digit(c) by {
        let i = choose|i: int| 0 <= i < digits.len() && digits[i] == c;
        assert(text::is_digit(digits[i]));
    }
}

proof fn lemma_plain_add(a: Seq<char>, b: Seq<char>)
    requires
        plain(a),
        plain(b),
    ensures
        plain(a + b),
{
    let whole = a + b;
    assert forall|i: int| 0 <= i < whole.len() implies whole[i] != '\t' && whole[i] != '\r'
        && whole[i] != '\n' by {
        if i < a.len() {
            assert(a.contains(a[i]));
        } else {
            assert(b.contains(b[i - a.len()]));
        }
    }
}

proof fn lemma_integer_plain(n: int)
    ensures
        plain(text::integer_text(n)),
        text::integer_text(n).len() > 0,
{
    let size = if n < 0 {
        (-n) as nat
    } else {
        n as nat
    };
    text::lemma_digits_back(size);
    lemma_digits_plain(text::decimal_digits(size));
    lemma_plain_add(seq!['-'], text::decimal_digits(size));
}

proof fn lemma_positional_plain(c: nat, k: int)
    ensures
        plain(decimal::positional(c, k)),
        decimal::positional(c, k).len() > 0,
{
    let digits = text::decimal_digits(c);
    text::lemma_digits_back(c);
    lemma_digits_plain(digits);
    if k >= 0 {
        lemma_digits_plain(decimal::zeros(k as nat));
        lemma_plain_add(digits, decimal::zeros(k as nat));
    } else if digits.len() > -k {
        let n = digits.len() + k;
        lemma_digits_plain(digits.take(n));
        assert(text::all_digits(digits.skip(n))) by {
            assert forall|i: int| 0 <= i < digits.skip(n).len() implies text::is_digit(
                #[trigger] digits.skip(n)[i],
            ) by {
                assert(digits.skip(n)[i] == digits[n + i]);
            }
        }
        lemma_digits_plain(digits.skip(n));
        lemma_plain_add(digits.take(n), seq!['.']);
        lemma_plain_add(digits.take(n) + seq!['.'], digits.skip(n));
    } else {
        let pad = decimal::zeros((-k - digits.len()) as nat);
        lemma_digits_plain(pad);
        lemma_plain_add(seq!['0', '.'], pad);
        lemma_plain_add(seq!['0', '.'] + pad, digits);
    }
}

proof fn lemma_number_plain(x: Double)
    ensures
        plain(decimal::double_text(x)),
        decimal::double_text(x).len() > 0,
        decimal::double_value(decimal::double_text(x)) == Some(carried_number(x)),
{
    reveal_strlit("inf");
    reveal_strlit("NaN");
    reveal_strlit("0");
    decimal::law_double_text_reads_back(x);
    let m = x.magnitude();
    lemma_positional_plain(decimal::shortest(m).0, decimal::shortest(m).1);
    lemma_plain_add(seq!['-'], decimal::magnitude_text(m));
}

proof fn lemma_optional_field(value: Option<Double>)
    ensures
        plain(number_field(value)),
        forall|name: Seq<char>| optional_fault(number_field(value), name) is None,
        optional_value(number_field(value)) == carried_optional(value),
{
    if value is Some {
        lemma_number_plain(value->Some_0);
    }
}

proof fn lemma_names_plain(platform: Platform, side: Side, action: TradeAction, status: AckStatus)
    ensures
        plain(platform.name()),
        plain(side.name()),
        plain(action.name()),
        plain(status.name()),
        side.name().len() > 0,
{
    reveal_strlit("trinity");
    reveal_strlit("mt4");
    reveal_strlit("mt5");
    reveal_strlit("ctrader");
    reveal_strlit("buy");
    reveal_strlit("sell");
    reveal_strlit("open");
    reveal_strlit("modify");
    reveal_strlit("reduce");
    reveal_strlit("close");
    reveal_strlit("accepted");
    reveal_strlit("filled");
    reveal_strlit("rejected");
    reveal_strlit("unknown");
}

proof fn lemma_side_field(value: Option<Side>)
    ensures
        plain(side_field(value)),
        side_fault(side_field(value)) is None,
        side_value(side_field(value)) == value,
{
    if value is Some {
        let side = value->Some_0;
        lemma_names_plain(Platform::Mt4, side, TradeAction::Open, AckStatus::Filled);
        model::law_names_read_back(Platform::Mt4, side, TradeAction::Open, AckStatus::Filled);
    }
}

proof fn lemma_version_field()
    ensures
        plain(version_field()),
        version_fault(version_field()) is None,
{
    text::lemma_digits_back(1);
    lemma_digits_plain(version_field());
    text::law_integer_text_reads_back(1);
}

proof fn lemma_time_field(time: i64)
    ensures
        plain(text::integer_text(time as int)),
        whole_value(text::integer_text(time as int)) == Some(time as int),
{
    lemma_integer_plain(time as int);
    text::law_integer_text_reads_back(time as int);
}

proof fn lemma_kinds_plain()
    ensures
        plain("HELLO"@),
        plain("EVENT"@),
        plain("ACK"@),
        plain("PING"@),
        plain("WELCOME"@),
        plain("COMMAND"@),
        plain("ERROR"@),
        plain("PONG"@),
        "EVENT"@ != "HELLO"@,
        "ACK"@ != "HELLO"@,
        "ACK"@ != "EVENT"@,
        "PING"@ != "HELLO"@,
        "PING"@ != "EVENT"@,
        "PING"@ != "ACK"@,
        "COMMAND"@ != "WELCOME"@,
        "ERROR"@ != "WELCOME"@,
        "ERROR"@ != "COMMAND"@,
        "PONG"@ != "WELCOME"@,
        "PONG"@ != "COMMAND"@,
        "PONG"@ != "ERROR"@,
{
    reveal_strlit("HELLO");
    reveal_strlit("EVENT");
    reveal_strlit("ACK");
    reveal_strlit("PING");
    reveal_strlit("WELCOME");
    reveal_strlit("COMMAND");
    reveal_strlit("ERROR");
    reveal_strlit("PONG");
    assert("HELLO"@[0] != "EVENT"@[0]);
    assert("WELCOME"@[0] != "COMMAND"@[0]);
    assert("PING"@.len() != "ACK"@.len());
}

/// Whether every field fits as it is.
pub open spec fn all_plain(fields: Seq<Seq<char>>) -> bool {
    forall|i: int| 0 <= i < fields.len() ==> plain(#[trigger] fields[i])
}

/// Fields that fit as they are come back from their line.
pub proof fn law_line_fields(fields: Seq<Seq<char>>)
    requires
        fields.len() > 0,
        all_plain(fields),
    ensures
        fields_of(line_of(fields)) == fields,
{
    let body = text::join(fields, '\t');
    let line = line_of(fields);
    text::lemma_join_lacks(fields, '\t', '\r');
    text::lemma_join_lacks(fields, '\t', '\n');
    assert(line.drop_last() =~= body);
    if body.len() > 0 {
        assert(body.contains(body.last()));
    }
    assert(without_end(body) == body);
    assert(without_end(line) == body);
    text::law_joined_pieces_split(fields, '\t');
}

proof fn lemma_agent_fields_plain(frame: AgentFrameView)
    ensures
        all_plain(agent_fields(frame)),
        agent_fields(frame).len() > 0,
{
    lemma_kinds_plain();
    lemma_version_field();
    let f = agent_fields(frame);
    match frame {
        AgentFrameView::Hello(hello) => {
            lemma_clean_plain(hello.account_id);
            lemma_clean_plain(hello.token);
            lemma_names_plain(hello.platform, Side::Buy, TradeAction::Open, AckStatus::Filled);
        },
        AgentFrameView::Event(event) => {
            reveal(event_fields);
            lemma_clean_plain(event.event_id);
            lemma_clean_plain(event.source_account_id);
            lemma_clean_plain(event.source_order_id);
            lemma_clean_plain(event.symbol);
            lemma_names_plain(event.platform, Side::Buy, event.action, AckStatus::Filled);
            lemma_side_field(event.side);
            lemma_number_plain(event.volume);
            lemma_optional_field(event.remaining_volume);
            lemma_optional_field(event.price);
            lemma_optional_field(event.stop_loss);
            lemma_optional_field(event.take_profit);
            lemma_time_field(event.timestamp_unix_ns);
            if event.origin_command_id is Some {
                lemma_clean_plain(event.origin_command_id->Some_0);
            }
        },
        AgentFrameView::Ack(ack) => {
            lemma_clean_plain(ack.command_id);
            lemma_clean_plain(ack.account_id);
            lemma_names_plain(Platform::Mt4, Side::Buy, TradeAction::Open, ack.status);
            lemma_time_field(ack.timestamp_unix_ns);
            if ack.external_id is Some {
                lemma_clean_plain(ack.external_id->Some_0);
            }
            if ack.message is Some {
                lemma_clean_plain(ack.message->Some_0);
            }
        },
        AgentFrameView::Ping(time) => {
            lemma_time_field(time);
        },
    }
}

proof fn lemma_server_fields_plain(frame: ServerFrameView)
    ensures
        all_plain(server_fields(frame)),
        server_fields(frame).len() > 0,
{
    lemma_kinds_plain();
    lemma_version_field();
    let f = server_fields(frame);
    match frame {
        ServerFrameView::Welcome(time) => {
            lemma_time_field(time);
        },
        ServerFrameView::Command(command) => {
            reveal(command_fields);
            lemma_clean_plain(command.command_id);
            lemma_clean_plain(command.origin_event_id);
            lemma_clean_plain(command.route_id);
            lemma_clean_plain(command.source_account_id);
            lemma_clean_plain(command.source_order_id);
            lemma_clean_plain(command.target_account_id);
            lemma_clean_plain(command.symbol);
            lemma_names_plain(Platform::Mt4, Side::Buy, command.action, AckStatus::Filled);
            lemma_side_field(command.side);
            lemma_number_plain(command.volume);
            lemma_number_plain(command.source_volume);
            lemma_optional_field(command.source_remaining_volume);
            lemma_optional_field(command.price);
            lemma_optional_field(command.stop_loss);
            lemma_optional_field(command.take_profit);
            if command.target_order_id is Some {
                lemma_clean_plain(command.target_order_id->Some_0);
            }
        },
        ServerFrameView::Error { code, message } => {
            lemma_clean_plain(code);
            lemma_clean_plain(message);
        },
        ServerFrameView::Pong(time) => {
            lemma_time_field(time);
        },
    }
}

/// What a client writes is one line: whatever its texts hold, nothing ends a
/// line before the end of it.
pub proof fn law_agent_frame_is_one_line(frame: AgentFrameView)
    ensures
        line_of(agent_fields(frame)).last() == '\n',
        !line_of(agent_fields(frame)).drop_last().contains('\n'),
        !line_of(agent_fields(frame)).drop_last().contains('\r'),
{
    let fields = agent_fields(frame);
    lemma_agent_fields_plain(frame);
    text::lemma_join_lacks(fields, '\t', '\r');
    text::lemma_join_lacks(fields, '\t', '\n');
    assert(line_of(fields).drop_last() =~= text::join(fields, '\t'));
}

/// What the daemon writes is one line.
pub proof fn law_server_frame_is_one_line(frame: ServerFrameView)
    ensures
        line_of(server_fields(frame)).last() == '\n',
        !line_of(server_fields(frame)).drop_last().contains('\n'),
        !line_of(server_fields(frame)).drop_last().contains('\r'),
{
    let fields = server_fields(frame);
    lemma_server_fields_plain(frame);
    text::lemma_join_lacks(fields, '\t', '\r');
    text::lemma_join_lacks(fields, '\t', '\n');
    assert(line_of(fields).drop_last() =~= text::join(fields, '\t'));
}

/// A client's frame that lacks nothing is read as it was written, but for what
/// a line cannot carry.
pub proof fn law_agent_frame_reads_back(frame: AgentFrameView)
    requires
        frame.complete(),
    ensures
        agent_frame(fields_of(line_of(agent_fields(frame)))) == Ok::<_, WireErrorView>(
            frame.carried(),
        ),
{
    let f = agent_fields(frame);
    lemma_agent_fields_plain(frame);
    law_line_fields(f);
    lemma_kinds_plain();
    lemma_version_field();
    match frame {
        AgentFrameView::Hello(hello) => {
            model::law_names_read_back(
                hello.platform,
                Side::Buy,
                TradeAction::Open,
                AckStatus::Filled,
            );
        },
        AgentFrameView::Event(event) => {
            lemma_event_reads_back(event);
        },
        AgentFrameView::Ack(ack) => {
            model::law_names_read_back(Platform::Mt4, Side::Buy, TradeAction::Open, ack.status);
            lemma_time_field(ack.timestamp_unix_ns);
        },
        AgentFrameView::Ping(time) => {
            lemma_time_field(time);
        },
    }
}

/// Fields that hold the parts of a valid event hold that event.
proof fn lemma_event_parts(f: Seq<Seq<char>>, event: TradeEventView)
    requires
        f.len() == 16,
        version_fault(f[1]) is None,
        f[2] == event.event_id,
        f[3] == event.source_account_id,
        Platform::named(f[4]) == Ok::<_, ModelErrorView>(event.platform),
        TradeAction::named(f[5]) == Ok::<_, ModelErrorView>(event.action),
        f[6] == event.source_order_id,
        f[7] == event.symbol,
        side_fault(f[8]) is None,
        side_value(f[8]) == event.side,
        decimal::double_value(f[9]) == Some(event.volume),
        optional_fault(f[10], "remaining_volume"@) is None,
        optional_value(f[10]) == event.remaining_volume,
        optional_fault(f[11], "price"@) is None,
        optional_value(f[11]) == event.price,
        optional_fault(f[12], "stop_loss"@) is None,
        optional_value(f[12]) == event.stop_loss,
        optional_fault(f[13], "take_profit"@) is None,
        optional_value(f[13]) == event.take_profit,
        whole_value(f[14]) == Some(event.timestamp_unix_ns as int),
        optional_text(f[15]) == event.origin_command_id,
        event.fault() is None,
    ensures
        event_frame(f) == Ok::<_, WireErrorView>(AgentFrameView::Event(event)),
{
    assert(event_value(f) == event);
    assert(event_fault(f) is None);
}

/// Where each part of an event stands.
proof fn lemma_event_fields(event: TradeEventView)
    ensures
        ({
            let f = event_fields(event);
            &&& f.len() == 16
            &&& f[0] == "EVENT"@
            &&& f[1] == version_field()
            &&& f[2] == clean(event.event_id)
            &&& f[3] == clean(event.source_account_id)
            &&& f[4] == event.platform.name()
            &&& f[5] == event.action.name()
            &&& f[6] == clean(event.source_order_id)
            &&& f[7] == clean(event.symbol)
            &&& f[8] == side_field(event.side)
            &&& f[9] == decimal::double_text(event.volume)
            &&& f[10] == number_field(event.remaining_volume)
            &&& f[11] == number_field(event.price)
            &&& f[12] == number_field(event.stop_loss)
            &&& f[13] == number_field(event.take_profit)
            &&& f[14] == text::integer_text(event.timestamp_unix_ns as int)
            &&& f[15] == text_field(event.origin_command_id)
        }),
{
    reveal(event_fields);
}

proof fn lemma_event_reads_back(event: TradeEventView)
    requires
        event.fault() is None,
    ensures
        event_fields(event)[0] == "EVENT"@,
        event_frame(event_fields(event)) == Ok::<_, WireErrorView>(
            AgentFrameView::Event(event).carried(),
        ),
{
    let carried = AgentFrameView::Event(event).carried()->Event_0;
    let f = event_fields(event);
    lemma_event_fields(event);
    lemma_version_field();
    model::law_names_read_back(event.platform, Side::Buy, event.action, AckStatus::Filled);
    lemma_side_field(event.side);
    lemma_number_plain(event.volume);
    lemma_optional_field(event.remaining_volume);
    lemma_optional_field(event.price);
    lemma_optional_field(event.stop_loss);
    lemma_optional_field(event.take_profit);
    lemma_time_field(event.timestamp_unix_ns);
    lemma_event_parts(f, carried);
}

/// Where each part of a command stands.
proof fn lemma_command_fields(command: ExecutionCommandView)
    ensures
        ({
            let f = command_fields(command);
            &&& f.len() == 18
            &&& f[0] == "COMMAND"@
            &&& f[1] == version_field()
            &&& f[2] == clean(command.command_id)
            &&& f[3] == clean(command.origin_event_id)
            &&& f[4] == clean(command.route_id)
            &&& f[5] == clean(command.source_account_id)
            &&& f[6] == clean(command.source_order_id)
            &&& f[7] == clean(command.target_account_id)
            &&& f[8] == command.action.name()
            &&& f[9] == text_field(command.target_order_id)
            &&& f[10] == clean(command.symbol)
            &&& f[11] == side_field(command.side)
            &&& f[12] == decimal::double_text(command.volume)
            &&& f[13] == decimal::double_text(command.source_volume)
            &&& f[14] == number_field(command.source_remaining_volume)
            &&& f[15] == number_field(command.price)
            &&& f[16] == number_field(command.stop_loss)
            &&& f[17] == number_field(command.take_profit)
        }),
{
    reveal(command_fields);
}

/// Fields that hold the parts of a command hold that command.
proof fn lemma_command_parts(f: Seq<Seq<char>>, command: ExecutionCommandView)
    requires
        f.len() == 18,
        version_fault(f[1]) is None,
        f[2] == command.command_id,
        f[3] == command.origin_event_id,
        f[4] == command.route_id,
        f[5] == command.source_account_id,
        f[6] == command.source_order_id,
        f[7] == command.target_account_id,
        TradeAction::named(f[8]) == Ok::<_, ModelErrorView>(command.action),
        optional_text(f[9]) == command.target_order_id,
        f[10] == command.symbol,
        side_fault(f[11]) is None,
        side_value(f[11]) == command.side,
        decimal::double_value(f[12]) == Some(command.volume),
        decimal::double_value(f[13]) == Some(command.source_volume),
        optional_fault(f[14], "source_remaining_volume"@) is None,
        optional_value(f[14]) == command.source_remaining_volume,
        optional_fault(f[15], "price"@) is None,
        optional_value(f[15]) == command.price,
        optional_fault(f[16], "stop_loss"@) is None,
        optional_value(f[16]) == command.stop_loss,
        optional_fault(f[17], "take_profit"@) is None,
        optional_value(f[17]) == command.take_profit,
        command.created_unix_ns == 0,
        ServerFrameView::Command(command).complete(),
    ensures
        command_fault(f) is None,
        command_value(f) == command,
{
}

proof fn lemma_command_reads_back(command: ExecutionCommandView)
    requires
        ServerFrameView::Command(command).complete(),
    ensures
        command_fields(command)[0] == "COMMAND"@,
        command_fault(command_fields(command)) is None,
        ServerFrameView::Command(command_value(command_fields(command)))
            == ServerFrameView::Command(command).carried(),
{
    let carried = ServerFrameView::Command(command).carried()->Command_0;
    let f = command_fields(command);
    lemma_command_fields(command);
    lemma_version_field();
    model::law_names_read_back(Platform::Mt4, Side::Buy, command.action, AckStatus::Filled);
    lemma_side_field(command.side);
    lemma_number_plain(command.volume);
    lemma_number_plain(command.source_volume);
    lemma_optional_field(command.source_remaining_volume);
    lemma_optional_field(command.price);
    lemma_optional_field(command.stop_loss);
    lemma_optional_field(command.take_profit);
    lemma_command_parts(f, carried);
}

/// A frame of the daemon that lacks nothing is read as it was written, but for
/// what a line cannot carry.
pub proof fn law_server_frame_reads_back(frame: ServerFrameView)
    requires
        frame.complete(),
    ensures
        server_frame(fields_of(line_of(server_fields(frame)))) == Ok::<_, WireErrorView>(
            frame.carried(),
        ),
{
    let f = server_fields(frame);
    lemma_server_fields_plain(frame);
    law_line_fields(f);
    lemma_kinds_plain();
    lemma_version_field();
    match frame {
        ServerFrameView::Welcome(time) => {
            lemma_time_field(time);
        },
        ServerFrameView::Command(command) => {
            lemma_command_reads_back(command);
        },
        ServerFrameView::Error { code, message } => {},
        ServerFrameView::Pong(time) => {
            lemma_time_field(time);
        },
    }
}

/// A text that fits as it is, is carried as it is.
pub proof fn law_plain_text_is_carried(value: Seq<char>)
    requires
        plain(value),
    ensures
        clean(value) == value,
        value.len() > 0 ==> carried_text(Some(value)) == Some(value),
{
    assert forall|i: int| 0 <= i < value.len() implies clean(value)[i] == value[i] by {
        assert(value.contains(value[i]));
    }
    assert(clean(value) =~= value);
}

/// Where a frame's fields stand: the kind, the version, and then what the frame
/// holds, in a fixed order.
pub proof fn law_agent_fields_in_order(frame: AgentFrameView)
    ensures
        ({
            let f = agent_fields(frame);
            &&& f[1] == "1"@
            &&& match frame {
                AgentFrameView::Hello(hello) => {
                    &&& f.len() == 5
                    &&& f[0] == "HELLO"@
                    &&& f[2] == clean(hello.account_id)
                    &&& f[3] == hello.platform.name()
                    &&& f[4] == clean(hello.token)
                },
                AgentFrameView::Event(event) => {
                    &&& f.len() == 16
                    &&& f[0] == "EVENT"@
                    &&& f[2] == clean(event.event_id)
                    &&& f[3] == clean(event.source_account_id)
                    &&& f[4] == event.platform.name()
                    &&& f[5] == event.action.name()
                    &&& f[6] == clean(event.source_order_id)
                    &&& f[7] == clean(event.symbol)
                    &&& f[8] == side_field(event.side)
                    &&& f[9] == decimal::double_text(event.volume)
                    &&& f[10] == number_field(event.remaining_volume)
                    &&& f[11] == number_field(event.price)
                    &&& f[12] == number_field(event.stop_loss)
                    &&& f[13] == number_field(event.take_profit)
                    &&& f[14] == text::integer_text(event.timestamp_unix_ns as int)
                    &&& f[15] == text_field(event.origin_command_id)
                },
                AgentFrameView::Ack(ack) => {
                    &&& f.len() == 8
                    &&& f[0] == "ACK"@
                    &&& f[2] == clean(ack.command_id)
                    &&& f[3] == clean(ack.account_id)
                    &&& f[4] == ack.status.name()
                    &&& f[5] == text_field(ack.external_id)
                    &&& f[6] == text::integer_text(ack.timestamp_unix_ns as int)
                    &&& f[7] == text_field(ack.message)
                },
                AgentFrameView::Ping(time) => {
                    &&& f.len() == 3
                    &&& f[0] == "PING"@
                    &&& f[2] == text::integer_text(time as int)
                },
            }
        }),
{
    reveal(event_fields);
    lemma_version_one();
}

/// Where the fields of a frame of the daemon stand.
pub proof fn law_server_fields_in_order(frame: ServerFrameView)
    ensures
        ({
            let f = server_fields(frame);
            &&& f[1] == "1"@
            &&& match frame {
                ServerFrameView::Welcome(time) => {
                    &&& f.len() == 3
                    &&& f[0] == "WELCOME"@
                    &&& f[2] == text::integer_text(time as int)
                },
                ServerFrameView::Command(command) => {
                    &&& f.len() == 18
                    &&& f[0] == "COMMAND"@
                    &&& f[2] == clean(command.command_id)
                    &&& f[3] == clean(command.origin_event_id)
                    &&& f[4] == clean(command.route_id)
                    &&& f[5] == clean(command.source_account_id)
                    &&& f[6] == clean(command.source_order_id)
                    &&& f[7] == clean(command.target_account_id)
                    &&& f[8] == command.action.name()
                    &&& f[9] == text_field(command.target_order_id)
                    &&& f[10] == clean(command.symbol)
                    &&& f[11] == side_field(command.side)
                    &&& f[12] == decimal::double_text(command.volume)
                    &&& f[13] == decimal::double_text(command.source_volume)
                    &&& f[14] == number_field(command.source_remaining_volume)
                    &&& f[15] == number_field(command.price)
                    &&& f[16] == number_field(command.stop_loss)
                    &&& f[17] == number_field(command.take_profit)
                },
                ServerFrameView::Error { code, message } => {
                    &&& f.len() == 4
                    &&& f[0] == "ERROR"@
                    &&& f[2] == clean(code)
                    &&& f[3] == clean(message)
                },
                ServerFrameView::Pong(time) => {
                    &&& f.len() == 3
                    &&& f[0] == "PONG"@
                    &&& f[2] == text::integer_text(time as int)
                },
            }
        }),
{
    reveal(command_fields);
    lemma_version_one();
}

proof fn lemma_version_one()
    ensures
        version_field() == "1"@,
{
    reveal_strlit("1");
    assert(version_field() =~= "1"@);
}

/// Whether a text that may be absent is one that a field carries.
pub open spec fn plain_option(value: Option<Seq<char>>) -> bool {
    value matches Some(inner) ==> inner.len() > 0 && plain(inner)
}

/// Whether a number that may be absent is a number.
pub open spec fn number_option(value: Option<Double>) -> bool {
    value matches Some(number) ==> !number.nan()
}

/// An event that can be copied, whose texts are fit for fields and whose numbers
/// are numbers, is read as it was written; so are an acknowledgement, a greeting
/// and a sign of life.
pub proof fn law_plain_agent_frame_reads_back(frame: AgentFrameView)
    requires
        frame.complete(),
        match frame {
            AgentFrameView::Hello(hello) => plain(hello.account_id) && plain(hello.token),
            AgentFrameView::Event(event) => {
                &&& plain(event.event_id) && plain(event.source_account_id)
                &&& plain(event.source_order_id) && plain(event.symbol)
                &&& !event.volume.nan()
                &&& number_option(event.remaining_volume) && number_option(event.price)
                &&& number_option(event.stop_loss) && number_option(event.take_profit)
                &&& plain_option(event.origin_command_id)
            },
            AgentFrameView::Ack(ack) => {
                &&& plain(ack.command_id) && plain(ack.account_id)
                &&& plain_option(ack.external_id) && plain_option(ack.message)
            },
            AgentFrameView::Ping(_) => true,
        },
    ensures
        agent_frame(fields_of(line_of(agent_fields(frame)))) == Ok::<_, WireErrorView>(frame),
{
    law_agent_frame_reads_back(frame);
    match frame {
        AgentFrameView::Hello(hello) => {
            law_plain_text_is_carried(hello.account_id);
            law_plain_text_is_carried(hello.token);
        },
        AgentFrameView::Event(event) => {
            law_plain_text_is_carried(event.event_id);
            law_plain_text_is_carried(event.source_account_id);
            law_plain_text_is_carried(event.source_order_id);
            law_plain_text_is_carried(event.symbol);
            if let Some(id) = event.origin_command_id {
                law_plain_text_is_carried(id);
            }
        },
        AgentFrameView::Ack(ack) => {
            law_plain_text_is_carried(ack.command_id);
            law_plain_text_is_carried(ack.account_id);
            if let Some(id) = ack.external_id {
                law_plain_text_is_carried(id);
            }
            if let Some(words) = ack.message {
                law_plain_text_is_carried(words);
            }
        },
        AgentFrameView::Ping(_) => {},
    }
}

/// A command whose texts are fit for fields and whose numbers are numbers is read
/// as it was written, but for the time at which it was made; so are the other
/// frames of the daemon.
pub proof fn law_plain_server_frame_reads_back(frame: ServerFrameView)
    requires
        frame.complete(),
        match frame {
            ServerFrameView::Command(command) => {
                &&& plain(command.command_id) && plain(command.origin_event_id)
                &&& plain(command.route_id) && plain(command.source_account_id)
                &&& plain(command.source_order_id) && plain(command.target_account_id)
                &&& plain(command.symbol) && plain_option(command.target_order_id)
                &&& !command.volume.nan() && !command.source_volume.nan()
                &&& number_option(command.source_remaining_volume) && number_option(command.price)
                &&& number_option(command.stop_loss) && number_option(command.take_profit)
                &&& command.created_unix_ns == 0
            },
            ServerFrameView::Error { code, message } => {
                &&& plain(code) && plain(message)
            },
            _ => true,
        },
    ensures
        server_frame(fields_of(line_of(server_fields(frame)))) == Ok::<_, WireErrorView>(frame),
{
    law_server_frame_reads_back(frame);
    match frame {
        ServerFrameView::Command(command) => {
            law_plain_text_is_carried(command.command_id);
            law_plain_text_is_carried(command.origin_event_id);
            law_plain_text_is_carried(command.route_id);
            law_plain_text_is_carried(command.source_account_id);
            law_plain_text_is_carried(command.source_order_id);
            law_plain_text_is_carried(command.target_account_id);
            law_plain_text_is_carried(command.symbol);
            if let Some(id) = command.target_order_id {
                law_plain_text_is_carried(id);
            }
        },
        ServerFrameView::Error { code, message } => {
            law_plain_text_is_carried(code);
            law_plain_text_is_carried(message);
        },
        _ => {},
    }
}

/// A tab or an end of a line in a text becomes a blank, and nothing else in it
/// changes.
pub proof fn law_texts_are_cleaned(value: Seq<char>, i: int)
    requires
        0 <= i < value.len(),
    ensures
        clean(value).len() == value.len(),
        value[i] == '\t' || value[i] == '\r' || value[i] == '\n' ==> clean(value)[i] == ' ',
        value[i] != '\t' && value[i] != '\r' && value[i] != '\n' ==> clean(value)[i] == value[i],
{
}

/// Whether a text writes the version of the protocol.
pub open spec fn of_version(value: Seq<char>) -> bool {
    text::integer_value(value, false) == Some(1int)
}

/// Whether a field is empty or holds a number.
pub open spec fn numeric(value: Seq<char>) -> bool {
    value.len() == 0 || decimal::double_value(value) is Some
}

/// Whether a field holds a whole number of 64 bits.
pub open spec fn timed(value: Seq<char>) -> bool {
    text::integer_value(value, true) matches Some(n) && -0x8000_0000_0000_0000 <= n
        <= 0x7fff_ffff_ffff_ffff
}

proof fn lemma_kinds()
    ensures
        "HELLO"@ != "EVENT"@,
        "ACK"@ != "HELLO"@ && "ACK"@ != "EVENT"@ && "ACK"@ != "PING"@,
        "PING"@ != "HELLO"@ && "PING"@ != "EVENT"@,
        "WELCOME"@ != "COMMAND"@ && "ERROR"@ != "WELCOME"@ && "ERROR"@ != "COMMAND"@,
        "PONG"@ != "WELCOME"@ && "PONG"@ != "COMMAND"@ && "PONG"@ != "ERROR"@,
{
    reveal_strlit("HELLO");
    reveal_strlit("EVENT");
    reveal_strlit("ACK");
    reveal_strlit("PING");
    reveal_strlit("WELCOME");
    reveal_strlit("COMMAND");
    reveal_strlit("ERROR");
    reveal_strlit("PONG");
    assert("HELLO"@[0] == 'H' && "EVENT"@[0] == 'E' && "WELCOME"@[0] == 'W' && "COMMAND"@[0]
        == 'C');
    assert("HELLO"@.len() == 5 && "EVENT"@.len() == 5 && "ACK"@.len() == 3 && "PING"@.len() == 4);
    assert("WELCOME"@.len() == 7 && "COMMAND"@.len() == 7 && "ERROR"@.len() == 5 && "PONG"@.len()
        == 4);
}

/// A line of an agent is of the kind that its first field names. A greeting, an
/// acknowledgement or a sign of life is taken just where it has all its fields,
/// the version is the first and each field that must be there can be read; what
/// is taken is what the fields hold.
pub proof fn law_agent_line_is_read(f: Seq<Seq<char>>)
    requires
        f.len() > 0,
    ensures
        ({
            let read = agent_frame(f);
            &&& f[0] != "HELLO"@ && f[0] != "EVENT"@ && f[0] != "ACK"@ && f[0] != "PING"@
                ==> read == Err::<AgentFrameView, _>(WireErrorView::UnknownFrame(f[0]))
            &&& f[0] == "HELLO"@ ==> (read is Ok <==> f.len() == 5 && of_version(f[1])
                && f[2].len() > 0 && Platform::named(f[3]) is Ok)
            &&& f[0] == "ACK"@ ==> (read is Ok <==> f.len() == 8 && of_version(f[1])
                && f[2].len() > 0 && f[3].len() > 0 && AckStatus::named(f[4]) is Ok && timed(f[6]))
            &&& f[0] == "PING"@ ==> (read is Ok <==> f.len() == 3 && of_version(f[1])
                && timed(f[2]))
            &&& read matches Ok(AgentFrameView::Hello(hello)) ==> {
                &&& f[0] == "HELLO"@
                &&& hello.account_id == f[2]
                &&& Platform::named(f[3]) == Ok::<_, ModelErrorView>(hello.platform)
                &&& hello.token == f[4]
            }
            &&& read matches Ok(AgentFrameView::Ack(ack)) ==> {
                &&& f[0] == "ACK"@
                &&& ack.command_id == f[2]
                &&& ack.account_id == f[3]
                &&& AckStatus::named(f[4]) == Ok::<_, ModelErrorView>(ack.status)
                &&& f[5].len() == 0 ==> ack.external_id is None
                &&& f[5].len() > 0 ==> ack.external_id == Some(f[5])
                &&& text::integer_value(f[6], true) == Some(ack.timestamp_unix_ns as int)
                &&& f[7].len() == 0 ==> ack.message is None
                &&& f[7].len() > 0 ==> ack.message == Some(f[7])
            }
            &&& read matches Ok(AgentFrameView::Ping(time)) ==> f[0] == "PING"@
                && text::integer_value(f[2], true) == Some(time as int)
            &&& read matches Ok(AgentFrameView::Event(_)) ==> f[0] == "EVENT"@
            &&& read matches Err(WireErrorView::FieldCount { kind, expected, actual }) ==> kind
                == f[0] && actual == f.len() && actual != expected
            &&& read matches Err(WireErrorView::UnsupportedVersion(n)) ==> n != 1
                && text::integer_value(f[1], false) == Some(n as int)
        }),
{
    lemma_kinds();
}

/// An event is taken just where it has all its fields, the version is the first,
/// its names are there and are known, its numbers are numbers, and a follower
/// could act on it; what is taken is what the fields hold.
pub proof fn law_event_line_is_read(f: Seq<Seq<char>>)
    requires
        f.len() > 0,
        f[0] == "EVENT"@,
    ensures
        agent_frame(f) is Ok <==> {
            &&& f.len() == 16
            &&& of_version(f[1])
            &&& f[2].len() > 0 && f[3].len() > 0 && f[6].len() > 0 && f[7].len() > 0
            &&& Platform::named(f[4]) is Ok
            &&& TradeAction::named(f[5]) matches Ok(action)
            &&& f[8].len() == 0 || Side::named(f[8]) is Ok
            &&& decimal::double_value(f[9]) matches Some(volume)
            &&& numeric(f[10]) && numeric(f[11]) && numeric(f[12]) && numeric(f[13])
            &&& timed(f[14])
            &&& action == TradeAction::Open || action == TradeAction::Reduce ==> !volume.le(
                Double { bits: 0 },
            )
            &&& action == TradeAction::Open ==> f[8].len() > 0
        },
        agent_frame(f) matches Ok(frame) ==> {
            &&& frame matches AgentFrameView::Event(event)
            &&& event.event_id == f[2]
            &&& event.source_account_id == f[3]
            &&& Platform::named(f[4]) == Ok::<_, ModelErrorView>(event.platform)
            &&& TradeAction::named(f[5]) == Ok::<_, ModelErrorView>(event.action)
            &&& event.source_order_id == f[6]
            &&& event.symbol == f[7]
            &&& f[8].len() == 0 ==> event.side is None
            &&& f[8].len() > 0 ==> event.side is Some && Side::named(f[8]) == Ok::<
                _,
                ModelErrorView,
            >(event.side->Some_0)
            &&& decimal::double_value(f[9]) == Some(event.volume)
            &&& read_from(f[10], event.remaining_volume)
            &&& read_from(f[11], event.price)
            &&& read_from(f[12], event.stop_loss)
            &&& read_from(f[13], event.take_profit)
            &&& text::integer_value(f[14], true) == Some(event.timestamp_unix_ns as int)
            &&& f[15].len() == 0 ==> event.origin_command_id is None
            &&& f[15].len() > 0 ==> event.origin_command_id == Some(f[15])
        },
{
    lemma_kinds();
}

/// Whether a number that may be absent is the one in a field.
pub open spec fn read_from(value: Seq<char>, number: Option<Double>) -> bool {
    if value.len() == 0 {
        number is None
    } else {
        number is Some && decimal::double_value(value) == number
    }
}

/// A line of the daemon is of the kind that its first field names, and is taken
/// just where it has all its fields, the version is the first and each field
/// that must be there can be read; what is taken is what the fields hold.
pub proof fn law_server_line_is_read(f: Seq<Seq<char>>)
    requires
        f.len() > 0,
    ensures
        ({
            let read = server_frame(f);
            &&& f[0] != "WELCOME"@ && f[0] != "COMMAND"@ && f[0] != "ERROR"@ && f[0] != "PONG"@
                ==> read == Err::<ServerFrameView, _>(WireErrorView::UnknownFrame(f[0]))
            &&& f[0] == "WELCOME"@ || f[0] == "PONG"@ ==> (read is Ok <==> f.len() == 3
                && of_version(f[1]) && timed(f[2]))
            &&& f[0] == "ERROR"@ ==> (read is Ok <==> f.len() == 4 && of_version(f[1]))
            &&& f[0] == "COMMAND"@ ==> (read is Ok <==> {
                &&& f.len() == 18
                &&& of_version(f[1])
                &&& f[2].len() > 0 && f[3].len() > 0 && f[4].len() > 0 && f[5].len() > 0
                &&& f[6].len() > 0 && f[7].len() > 0 && f[10].len() > 0
                &&& TradeAction::named(f[8]) is Ok
                &&& f[11].len() == 0 || Side::named(f[11]) is Ok
                &&& decimal::double_value(f[12]) is Some && decimal::double_value(f[13]) is Some
                &&& numeric(f[14]) && numeric(f[15]) && numeric(f[16]) && numeric(f[17])
            })
            &&& read matches Ok(ServerFrameView::Welcome(time)) ==> f[0] == "WELCOME"@
                && text::integer_value(f[2], true) == Some(time as int)
            &&& read matches Ok(ServerFrameView::Pong(time)) ==> f[0] == "PONG"@
                && text::integer_value(f[2], true) == Some(time as int)
            &&& read matches Ok(ServerFrameView::Error { code, message }) ==> f[0] == "ERROR"@
                && code == f[2] && message == f[3]
            &&& read matches Ok(ServerFrameView::Command(command)) ==> {
                &&& f[0] == "COMMAND"@
                &&& command.command_id == f[2]
                &&& command.origin_event_id == f[3]
                &&& command.route_id == f[4]
                &&& command.source_account_id == f[5]
                &&& command.source_order_id == f[6]
                &&& command.target_account_id == f[7]
                &&& TradeAction::named(f[8]) == Ok::<_, ModelErrorView>(
                    command.action,
                )
                &&& f[9].len() == 0 ==> command.target_order_id is None
                &&& f[9].len() > 0 ==> command.target_order_id == Some(f[9])
                &&& command.symbol == f[10]
                &&& f[11].len() == 0 ==> command.side is None
                &&& f[11].len() > 0 ==> command.side is Some && Side::named(f[11]) == Ok::<
                    _,
                    ModelErrorView,
                >(command.side->Some_0)
                &&& decimal::double_value(f[12]) == Some(command.volume)
                &&& decimal::double_value(f[13]) == Some(command.source_volume)
                &&& read_from(f[14], command.source_remaining_volume)
                &&& read_from(f[15], command.price)
                &&& read_from(f[16], command.stop_loss)
                &&& read_from(f[17], command.take_profit)
            }
            &&& read matches Err(WireErrorView::FieldCount { kind, expected, actual }) ==> kind
                == f[0] && actual == f.len() && actual != expected
            &&& read matches Err(WireErrorView::UnsupportedVersion(n)) ==> n != 1
                && text::integer_value(f[1], false) == Some(n as int)
        }),
{
    lemma_kinds();
}

} // verus!
