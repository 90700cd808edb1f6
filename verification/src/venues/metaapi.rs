//! MetaTrader accounts at MetaApi.

use crate::config::{AccountConfig, MetaApiAccountConfig, MetaApiGlobalConfig};
use crate::digest::fingerprint;
use crate::double::Double;
use crate::json::{
    no_members, number_json, object, put, read_json, value_to_string, Json, JsonView,
};
use crate::model::{
    copy_text, AckStatus, ExecutionAck, ExecutionAckView, ExecutionCommand, ExecutionCommandView,
    ModelError, ModelErrorView, Platform, Side, TradeAction, TradeEvent, TradeEventView,
};
use crate::table::Table;
use crate::text::{
    after_prefix, chars_of, joined, joined_three, same, slice_text, strip_slashes, write_i64,
};
use crate::venues::{changed_price, least_volume};
use crate::{digest, double, json, model, routing, table, text, venues};
use vstd::prelude::*;
use vstd::string::*;

verus! {

/// What goes wrong with MetaApi.
#[derive(Debug)]
pub enum MetaApiError {
    UnsupportedPlatform,
    InvalidProvisioning,
    AccountIdOmitted,
    ProvisioningFailed { status: String, body: String },
    ProvisioningTimeout,
    PositionsRefused { status: String, body: String },
    UnknownPositionType(String),
    Model(ModelError),
}

/// What an error of MetaApi holds.
pub enum MetaApiErrorView {
    UnsupportedPlatform,
    InvalidProvisioning,
    AccountIdOmitted,
    ProvisioningFailed { status: Seq<char>, body: Seq<char> },
    ProvisioningTimeout,
    PositionsRefused { status: Seq<char>, body: Seq<char> },
    UnknownPositionType(Seq<char>),
    Model(ModelErrorView),
}

impl View for MetaApiError {
    type V = MetaApiErrorView;

    open spec fn view(&self) -> MetaApiErrorView {
        match self {
            MetaApiError::UnsupportedPlatform => MetaApiErrorView::UnsupportedPlatform,
            MetaApiError::InvalidProvisioning => MetaApiErrorView::InvalidProvisioning,
            MetaApiError::AccountIdOmitted => MetaApiErrorView::AccountIdOmitted,
            MetaApiError::ProvisioningFailed { status, body } => {
                MetaApiErrorView::ProvisioningFailed { status: status@, body: body@ }
            },
            MetaApiError::ProvisioningTimeout => MetaApiErrorView::ProvisioningTimeout,
            MetaApiError::PositionsRefused { status, body } => {
                MetaApiErrorView::PositionsRefused { status: status@, body: body@ }
            },
            MetaApiError::UnknownPositionType(kind) => MetaApiErrorView::UnknownPositionType(kind@),
            MetaApiError::Model(error) => MetaApiErrorView::Model(error@),
        }
    }
}

impl MetaApiErrorView {
    /// The error in words.
    pub open spec fn words(self) -> Seq<char> {
        match self {
            MetaApiErrorView::UnsupportedPlatform => "MetaApi provisioning only supports MT4/MT5"@,
            MetaApiErrorView::InvalidProvisioning => "invalid MetaApi provisioning response"@,
            MetaApiErrorView::AccountIdOmitted => "MetaApi provisioning response did not include account id"@,
            MetaApiErrorView::ProvisioningFailed { status, body } => "MetaApi provisioning failed with "@
                + status + ": "@ + body,
            MetaApiErrorView::ProvisioningTimeout => "MetaApi provisioning did not complete after repeated attempts"@,
            MetaApiErrorView::PositionsRefused { status, body } => "MetaApi positions returned "@
                + status + ": "@ + body,
            MetaApiErrorView::UnknownPositionType(kind) => "unknown MetaApi position type "@ + kind,
            MetaApiErrorView::Model(error) => error.words(),
        }
    }
}

impl MetaApiError {
    /// The error in words.
    pub fn to_string(&self) -> (r: String)
        ensures
            r@ == self@.words(),
    {
        match self {
            MetaApiError::UnsupportedPlatform => "MetaApi provisioning only supports MT4/MT5".to_owned(),
            MetaApiError::InvalidProvisioning => "invalid MetaApi provisioning response".to_owned(),
            MetaApiError::AccountIdOmitted => "MetaApi provisioning response did not include account id".to_owned(),
            MetaApiError::ProvisioningFailed { status, body } => {
                let mut out = joined_three(
                    "MetaApi provisioning failed with ",
                    status.as_str(),
                    ": ",
                );
                out.append(body.as_str());
                out
            },
            MetaApiError::ProvisioningTimeout => "MetaApi provisioning did not complete after repeated attempts".to_owned(),
            MetaApiError::PositionsRefused { status, body } => {
                let mut out = joined_three("MetaApi positions returned ", status.as_str(), ": ");
                out.append(body.as_str());
                out
            },
            MetaApiError::UnknownPositionType(kind) => joined(
                "unknown MetaApi position type ",
                kind.as_str(),
            ),
            MetaApiError::Model(error) => error.to_string(),
        }
    }
}

/// Whether a status of HTTP tells of success.
pub open spec fn success(status: u16) -> bool {
    200 <= status <= 299
}

/// Whether a status of HTTP tells of a fault of the server.
pub open spec fn server_fault(status: u16) -> bool {
    500 <= status <= 599
}

/// The server of an account's region, where no other is given.
pub open spec fn base_of(direct: MetaApiAccountConfig) -> Seq<char> {
    match direct.api_base {
        Some(base) => base@,
        None => "https://mt-client-api-v1."@ + direct.region@ + ".agiliumtrade.ai"@,
    }
}

/// The server of an account.
pub fn api_base(direct: &MetaApiAccountConfig) -> (r: String)
    ensures
        r@ == base_of(*direct),
{
    match &direct.api_base {
        Some(base) => base.clone(),
        None => joined_three(
            "https://mt-client-api-v1.",
            direct.region.as_str(),
            ".agiliumtrade.ai",
        ),
    }
}

/// Where the trades of an account are asked for.
pub fn trade_url(api_base: &str, account_id: &str) -> (r: String)
    ensures
        r@ == text::without_slashes(api_base@) + "/users/current/accounts/"@ + account_id@
            + "/trade"@,
{
    let base = strip_slashes(api_base);
    let mut out = joined_three(base.as_str(), "/users/current/accounts/", account_id);
    out.append("/trade");
    out
}

/// Where the positions of an account are asked for.
pub fn positions_url(api_base: &str, account_id: &str) -> (r: String)
    ensures
        r@ == text::without_slashes(api_base@) + "/users/current/accounts/"@ + account_id@
            + "/positions"@,
{
    let base = strip_slashes(api_base);
    let mut out = joined_three(base.as_str(), "/users/current/accounts/", account_id);
    out.append("/positions");
    out
}

/// Where an account is made.
pub fn provisioning_url(global: &MetaApiGlobalConfig) -> (r: String)
    ensures
        r@ == text::without_slashes(global.provisioning_base@) + "/users/current/accounts"@,
{
    let base = strip_slashes(global.provisioning_base.as_str());
    joined(base.as_str(), "/users/current/accounts")
}

/// The name under which an account is made once, however often it is asked
/// for.
pub fn provisioning_transaction_id(account_id: &str, login: &str, server: &str) -> (r: String)
    ensures
        r@ == digest::fingerprint_of(
            "copierr:metaapi:provision:v1"@,
            account_id@,
            login@,
            server@,
        ),
        r@.len() == 32,
{
    fingerprint("copierr:metaapi:provision:v1", account_id, login, server)
}

/// The account at MetaApi that is given, if one is.
pub fn given_account(direct: &MetaApiAccountConfig) -> (r: Option<String>)
    ensures
        match r {
            Some(id) => direct.account_id is Some && id@ == direct.account_id->Some_0@ && id@.len()
                > 0,
            None => direct.account_id is None || direct.account_id->Some_0@.len() == 0,
        },
{
    match &direct.account_id {
        Some(id) => {
            if id.as_str().is_empty() {
                None
            } else {
                Some(id.clone())
            }
        },
        None => None,
    }
}

/// The request that makes an account, and the name that makes it once.
#[derive(Debug)]
pub struct Provisioning {
    pub url: String,
    pub transaction_id: String,
    pub body: Json,
}

/// What the request that makes an account holds. Only MetaTrader accounts can
/// be made.
pub open spec fn provisioning_body(
    account: AccountConfig,
    login: Seq<char>,
    server: Seq<char>,
    password: Seq<char>,
    magic: u64,
) -> Result<JsonView, MetaApiErrorView> {
    if account.platform != Platform::Mt4 && account.platform != Platform::Mt5 {
        Err(MetaApiErrorView::UnsupportedPlatform)
    } else {
        Ok(
            JsonView::Object(
                seq![
                    ("login"@, JsonView::Text(login)),
                    ("password"@, JsonView::Text(password)),
                    ("name"@, JsonView::Text(account.id@)),
                    ("server"@, JsonView::Text(server)),
                    ("platform"@, JsonView::Text(account.platform.name())),
                    ("magic"@, JsonView::Unsigned(magic)),
                    ("type"@, JsonView::Text("cloud-g2"@)),
                ],
            ),
        )
    }
}

/// The request that makes an account.
pub fn plan_provisioning(
    account: &AccountConfig,
    direct: &MetaApiAccountConfig,
    global: &MetaApiGlobalConfig,
    password: &str,
) -> (r: Result<Provisioning, MetaApiError>)
    requires
        direct.login is Some,
        direct.server is Some,
    ensures
        match provisioning_body(
            *account,
            direct.login->Some_0@,
            direct.server->Some_0@,
            password@,
            direct.magic,
        ) {
            Err(error) => r is Err && r->Err_0@ == error,
            Ok(body) => {
                &&& r is Ok
                &&& r->Ok_0.body@ == body
                &&& r->Ok_0.url@ == text::without_slashes(global.provisioning_base@)
                    + "/users/current/accounts"@
                &&& r->Ok_0.transaction_id@ == digest::fingerprint_of(
                    "copierr:metaapi:provision:v1"@,
                    account.id@,
                    direct.login->Some_0@,
                    direct.server->Some_0@,
                )
            },
        },
{
    if account.platform != Platform::Mt4 && account.platform != Platform::Mt5 {
        return Err(MetaApiError::UnsupportedPlatform);
    }
    let login: &String = direct.login.as_ref().unwrap();
    let server: &String = direct.server.as_ref().unwrap();
    let mut members = no_members();
    put(&mut members, "login", Json::Text(login.clone()));
    put(&mut members, "password", Json::Text(password.to_owned()));
    put(&mut members, "name", Json::Text(account.id.clone()));
    put(&mut members, "server", Json::Text(server.clone()));
    put(&mut members, "platform", Json::Text(account.platform.to_string()));
    put(&mut members, "magic", Json::Unsigned(direct.magic));
    put(&mut members, "type", Json::Text("cloud-g2".to_owned()));
    assert(json::seen_members(members@) =~= provisioning_body(
        *account,
        direct.login->Some_0@,
        direct.server->Some_0@,
        password@,
        direct.magic,
    )->Ok_0->Object_0);
    Ok(
        Provisioning {
            url: provisioning_url(global),
            transaction_id: provisioning_transaction_id(
                account.id.as_str(),
                login.as_str(),
                server.as_str(),
            ),
            body: object(members),
        },
    )
}

/// How often an account is asked for before it is given up.
pub const PROVISIONING_ATTEMPTS: u32 = 24;

/// How many seconds pass between two of these.
pub const PROVISIONING_PAUSE_SECONDS: u64 = 5;

/// What came of asking for an account.
#[derive(Debug)]
pub enum ProvisioningStep {
    /// It is being made: ask again after the pause.
    Wait,
    /// The account at MetaApi.
    Made(String),
    /// It is not made.
    Failed(MetaApiError),
}

/// What that holds.
pub enum ProvisioningStepView {
    Wait,
    Made(Seq<char>),
    Failed(MetaApiErrorView),
}

impl View for ProvisioningStep {
    type V = ProvisioningStepView;

    open spec fn view(&self) -> ProvisioningStepView {
        match self {
            ProvisioningStep::Wait => ProvisioningStepView::Wait,
            ProvisioningStep::Made(id) => ProvisioningStepView::Made(id@),
            ProvisioningStep::Failed(error) => ProvisioningStepView::Failed(error@),
        }
    }
}

/// What an answer that tells of success comes to.
pub open spec fn made_of(answer: Result<JsonView, Seq<char>>) -> ProvisioningStepView {
    match answer {
        Err(_) => ProvisioningStepView::Failed(MetaApiErrorView::InvalidProvisioning),
        Ok(value) => match json::text_in(value.member("id"@)) {
            Some(id) => ProvisioningStepView::Made(id),
            None => ProvisioningStepView::Failed(MetaApiErrorView::AccountIdOmitted),
        },
    }
}

/// What an answer to an attempt comes to.
pub open spec fn provisioning_step(
    attempt: u32,
    status: u16,
    status_text: Seq<char>,
    body: Seq<char>,
) -> ProvisioningStepView {
    if status == 202 {
        if attempt >= PROVISIONING_ATTEMPTS {
            ProvisioningStepView::Failed(MetaApiErrorView::ProvisioningTimeout)
        } else {
            ProvisioningStepView::Wait
        }
    } else if success(status) {
        made_of(json::json_value(body))
    } else {
        ProvisioningStepView::Failed(
            MetaApiErrorView::ProvisioningFailed { status: status_text, body },
        )
    }
}

/// What an answer that tells of success comes to.
pub fn read_made(answer: Result<Json, String>) -> (r: ProvisioningStep)
    ensures
        r@ == made_of(
            match answer {
                Ok(value) => Ok(value@),
                Err(words) => Err(words@),
            },
        ),
{
    match answer {
        Err(_) => ProvisioningStep::Failed(MetaApiError::InvalidProvisioning),
        Ok(value) => match value.get("id") {
            Some(inner) => match inner.as_text() {
                Some(id) => ProvisioningStep::Made(id.clone()),
                None => ProvisioningStep::Failed(MetaApiError::AccountIdOmitted),
            },
            None => ProvisioningStep::Failed(MetaApiError::AccountIdOmitted),
        },
    }
}

/// What an answer to an attempt comes to. Attempts are numbered from one.
pub fn take_provisioning_answer(attempt: u32, status: u16, status_text: &str, body: &str) -> (r:
    ProvisioningStep)
    ensures
        r@ == provisioning_step(attempt, status, status_text@, body@),
{
    if status == 202 {
        if attempt >= PROVISIONING_ATTEMPTS {
            ProvisioningStep::Failed(MetaApiError::ProvisioningTimeout)
        } else {
            ProvisioningStep::Wait
        }
    } else if 200 <= status && status <= 299 {
        read_made(read_json(body))
    } else {
        ProvisioningStep::Failed(
            MetaApiError::ProvisioningFailed {
                status: status_text.to_owned(),
                body: body.to_owned(),
            },
        )
    }
}

/// Whether an answer with the positions of an account can be read: its status
/// must tell of success.
pub fn check_positions_answer(status: u16, status_text: &str, body: &str) -> (r: Result<
    (),
    MetaApiError,
>)
    ensures
        if success(status) {
            r is Ok
        } else {
            r is Err && r->Err_0@ == (MetaApiErrorView::PositionsRefused {
                status: status_text@,
                body: body@,
            })
        },
{
    if 200 <= status && status <= 299 {
        Ok(())
    } else {
        Err(
            MetaApiError::PositionsRefused {
                status: status_text.to_owned(),
                body: body.to_owned(),
            },
        )
    }
}

/// Whether a character is an ASCII letter or digit.
pub open spec fn plain_char(c: char) -> bool {
    ('0' <= c <= '9') || ('A' <= c <= 'Z') || ('a' <= c <= 'z')
}

/// The letters and digits of a text.
pub open spec fn compact(inner: Seq<char>) -> Seq<char> {
    inner.filter(|c: char| plain_char(c))
}

/// The first characters of a text, at most `n`.
pub open spec fn at_most(inner: Seq<char>, n: int) -> Seq<char> {
    if inner.len() <= n {
        inner
    } else {
        inner.take(n)
    }
}

/// The name of a command at MetaApi: the first twenty letters and digits of
/// its name, in two parts.
pub open spec fn client_name(command_id: Seq<char>) -> Seq<char> {
    let kept = at_most(compact(command_id), 20);
    let left = at_most(kept, 10);
    let right = kept.skip(left.len() as int);
    "CR_"@ + left + "_"@ + if right.len() == 0 {
        "0"@
    } else {
        right
    }
}

/// The name of a command at MetaApi.
pub fn metaapi_client_id(command_id: &str) -> (r: String)
    ensures
        r@ == client_name(command_id@),
{
    let chars = chars_of(command_id);
    let mut kept: Vec<char> = Vec::new();
    let mut i: usize = 0;
    let ghost fits = |c: char| plain_char(c);
    assert(chars@.take(0).filter(fits) =~= Seq::empty()) by {
        assert(chars@.take(0) =~= Seq::empty());
        reveal(Seq::filter);
    }
    while i < chars.len()
        invariant
            i <= chars.len(),
            fits == (|c: char| plain_char(c)),
            kept@ == chars@.take(i as int).filter(fits),
        decreases chars.len() - i,
    {
        let c: char = chars[i];
        proof {
            assert(chars@.take(i + 1) =~= chars@.take(i as int).push(c));
            assert(chars@.take(i + 1).drop_last() =~= chars@.take(i as int));
            reveal(Seq::filter);
        }
        if ('0' <= c && c <= '9') || ('A' <= c && c <= 'Z') || ('a' <= c && c <= 'z') {
            kept.push(c);
        }
        i = i + 1;
    }
    assert(chars@.take(i as int) =~= chars@);
    let n: usize = if kept.len() <= 20 {
        kept.len()
    } else {
        20
    };
    let split: usize = if n <= 10 {
        n
    } else {
        10
    };
    let left = slice_text(&kept, 0, split);
    let right = slice_text(&kept, split, n);
    proof {
        let all = at_most(compact(command_id@), 20);
        assert(all =~= kept@.take(n as int));
        assert(left@ =~= at_most(all, 10));
        assert(right@ =~= all.skip(left@.len() as int));
    }
    let mut out = joined_three("CR_", left.as_str(), "_");
    if right.as_str().is_empty() {
        out.append("0");
    } else {
        out.append(right.as_str());
    }
    out
}

/// What the request that carries a command out holds.
pub open spec fn trade_members(command: ExecutionCommandView, magic: u64) -> Seq<
    (Seq<char>, JsonView),
> {
    let position = match command.target_order_id {
        Some(id) => JsonView::Text(id),
        None => JsonView::Null,
    };
    let client = JsonView::Text(client_name(command.command_id));
    let volume = json::number_view(command.volume);
    match command.action {
        TradeAction::Open => seq![
            (
                "actionType"@,
                JsonView::Text(
                    if command.side == Some(Side::Buy) {
                        "ORDER_TYPE_BUY"@
                    } else {
                        "ORDER_TYPE_SELL"@
                    },
                ),
            ),
            ("symbol"@, JsonView::Text(command.symbol)),
            ("volume"@, volume),
            ("magic"@, JsonView::Unsigned(magic)),
            ("clientId"@, client),
        ],
        TradeAction::Modify => seq![
            ("actionType"@, JsonView::Text("POSITION_MODIFY"@)),
            ("positionId"@, position),
            ("magic"@, JsonView::Unsigned(magic)),
        ],
        TradeAction::Reduce => seq![
            ("actionType"@, JsonView::Text("POSITION_PARTIAL"@)),
            ("positionId"@, position),
            ("volume"@, volume),
            ("magic"@, JsonView::Unsigned(magic)),
            ("clientId"@, client),
        ],
        TradeAction::Close => seq![
            ("actionType"@, JsonView::Text("POSITION_CLOSE_ID"@)),
            ("positionId"@, position),
            ("magic"@, JsonView::Unsigned(magic)),
            ("clientId"@, client),
        ],
    }
}

/// The members that set a protection, behind others.
pub open spec fn protected(
    members: Seq<(Seq<char>, JsonView)>,
    command: ExecutionCommandView,
) -> Seq<(Seq<char>, JsonView)> {
    if command.action == TradeAction::Open || command.action == TradeAction::Modify {
        let with_stop = match command.stop_loss {
            Some(price) => members.push(("stopLoss"@, json::number_view(price))),
            None => members,
        };
        match command.take_profit {
            Some(price) => with_stop.push(("takeProfit"@, json::number_view(price))),
            None => with_stop,
        }
    } else {
        members
    }
}

/// The request that carries a command out. There is none for an opening
/// without a side.
pub open spec fn trade_of(command: ExecutionCommandView, magic: u64) -> Option<JsonView> {
    if command.action == TradeAction::Open && command.side is None {
        None
    } else {
        Some(JsonView::Object(protected(trade_members(command, magic), command)))
    }
}

fn position_json(command: &ExecutionCommand) -> (r: Json)
    ensures
        r@ == match command@.target_order_id {
            Some(id) => JsonView::Text(id),
            None => JsonView::Null,
        },
{
    match &command.target_order_id {
        Some(id) => Json::Text(id.clone()),
        None => Json::Null,
    }
}

/// The request that carries a command out.
pub fn trade_request(command: &ExecutionCommand, magic: u64) -> (r: Option<Json>)
    ensures
        json::seen(
            match r {
                Some(body) => Some(&body),
                None => None,
            },
        ) == trade_of(command@, magic),
{
    let mut members = no_members();
    let client = Json::Text(metaapi_client_id(command.command_id.as_str()));
    match command.action {
        TradeAction::Open => {
            let kind = match command.side {
                Some(Side::Buy) => "ORDER_TYPE_BUY".to_owned(),
                Some(Side::Sell) => "ORDER_TYPE_SELL".to_owned(),
                None => {
                    return None;
                },
            };
            put(&mut members, "actionType", Json::Text(kind));
            put(&mut members, "symbol", Json::Text(command.symbol.clone()));
            put(&mut members, "volume", number_json(command.volume));
            put(&mut members, "magic", Json::Unsigned(magic));
            put(&mut members, "clientId", client);
        },
        TradeAction::Modify => {
            put(&mut members, "actionType", Json::Text("POSITION_MODIFY".to_owned()));
            put(&mut members, "positionId", position_json(command));
            put(&mut members, "magic", Json::Unsigned(magic));
        },
        TradeAction::Reduce => {
            put(&mut members, "actionType", Json::Text("POSITION_PARTIAL".to_owned()));
            put(&mut members, "positionId", position_json(command));
            put(&mut members, "volume", number_json(command.volume));
            put(&mut members, "magic", Json::Unsigned(magic));
            put(&mut members, "clientId", client);
        },
        TradeAction::Close => {
            put(&mut members, "actionType", Json::Text("POSITION_CLOSE_ID".to_owned()));
            put(&mut members, "positionId", position_json(command));
            put(&mut members, "magic", Json::Unsigned(magic));
            put(&mut members, "clientId", client);
        },
    }
    assert(json::seen_members(members@) =~= trade_members(command@, magic));
    if command.action == TradeAction::Open || command.action == TradeAction::Modify {
        if let Some(price) = command.stop_loss {
            put(&mut members, "stopLoss", number_json(price));
        }
        if let Some(price) = command.take_profit {
            put(&mut members, "takeProfit", number_json(price));
        }
    }
    Some(object(members))
}

/// The acknowledgement of a command.
pub open spec fn ack_of(
    command: ExecutionCommandView,
    status: AckStatus,
    external_id: Option<Seq<char>>,
    message: Option<Seq<char>>,
    now: i64,
) -> ExecutionAckView {
    ExecutionAckView {
        command_id: command.command_id,
        account_id: command.target_account_id,
        status,
        external_id,
        timestamp_unix_ns: now,
        message,
    }
}

fn make_ack(
    command: &ExecutionCommand,
    status: AckStatus,
    external_id: Option<String>,
    message: Option<String>,
    now: i64,
) -> (r: ExecutionAck)
    ensures
        r@ == ack_of(command@, status, external_id.deep_view(), message.deep_view(), now),
{
    ExecutionAck {
        command_id: command.command_id.clone(),
        account_id: command.target_account_id.clone(),
        status,
        external_id,
        timestamp_unix_ns: now,
        message,
    }
}

/// The acknowledgement of a command that is rejected.
pub fn rejected(command: &ExecutionCommand, message: &str, now_unix_ns: i64) -> (r: ExecutionAck)
    ensures
        r@ == ack_of(command@, AckStatus::Rejected, None, Some(message@), now_unix_ns),
{
    make_ack(command, AckStatus::Rejected, None, Some(message.to_owned()), now_unix_ns)
}

/// What came of a request.
#[derive(Debug)]
pub enum TradeReply {
    /// Nobody answered, for the reason that is given.
    Unanswered(String),
    /// An answer: its status, the status in words, and what it holds.
    Answered { status: u16, status_text: String, body: String },
}

/// What that holds.
pub enum TradeReplyView {
    Unanswered(Seq<char>),
    Answered { status: u16, status_text: Seq<char>, body: Seq<char> },
}

impl View for TradeReply {
    type V = TradeReplyView;

    open spec fn view(&self) -> TradeReplyView {
        match self {
            TradeReply::Unanswered(reason) => TradeReplyView::Unanswered(reason@),
            TradeReply::Answered { status, status_text, body } => TradeReplyView::Answered {
                status: *status,
                status_text: status_text@,
                body: body@,
            },
        }
    }
}

/// What the code of an answer says became of a command.
pub open spec fn code_status(code: Seq<char>) -> AckStatus {
    if code == "TRADE_RETCODE_DONE"@ || code == "ERR_NO_ERROR"@ || code
        == "TRADE_RETCODE_NO_CHANGES"@ {
        AckStatus::Filled
    } else if code == "TRADE_RETCODE_PLACED"@ || code == "TRADE_RETCODE_DONE_PARTIAL"@ || code
        == "TRADE_RETCODE_DISCONNECTED_DURING_TRADE"@ || code == "TRADE_RETCODE_TIMEOUT"@ || code
        == "ERR_TRADE_TIMED_OUT"@ || code == "ERR_NO_RESULT"@ || code
        == "TRADE_RETCODE_UNKNOWN"@ {
        AckStatus::Unknown
    } else {
        AckStatus::Rejected
    }
}

fn read_code(code: &str) -> (r: AckStatus)
    ensures
        r == code_status(code@),
{
    if same(code, "TRADE_RETCODE_DONE") || same(code, "ERR_NO_ERROR") || same(
        code,
        "TRADE_RETCODE_NO_CHANGES",
    ) {
        AckStatus::Filled
    } else if same(code, "TRADE_RETCODE_PLACED") || same(code, "TRADE_RETCODE_DONE_PARTIAL")
        || same(code, "TRADE_RETCODE_DISCONNECTED_DURING_TRADE") || same(
        code,
        "TRADE_RETCODE_TIMEOUT",
    ) || same(code, "ERR_TRADE_TIMED_OUT") || same(code, "ERR_NO_RESULT") || same(
        code,
        "TRADE_RETCODE_UNKNOWN",
    ) {
        AckStatus::Unknown
    } else {
        AckStatus::Rejected
    }
}

/// The acknowledgement that an answer which tells of success comes to. Where
/// it cannot be read, the outcome is not known.
pub open spec fn answer_ack(
    command: ExecutionCommandView,
    answer: Result<JsonView, Seq<char>>,
    now: i64,
) -> ExecutionAckView {
    match answer {
        Err(words) => ack_of(
            command,
            AckStatus::Unknown,
            None,
            Some("invalid MetaApi trade response: "@ + words),
            now,
        ),
        Ok(value) => {
            let code = match json::text_in(value.member("stringCode"@)) {
                Some(code) => code,
                None => Seq::empty(),
            };
            let named = match value.member("positionId"@) {
                Some(id) => Some(id),
                None => value.member("orderId"@),
            };
            let external_id = match json::read_text_in(named) {
                Some(id) => Some(id),
                None => command.target_order_id,
            };
            let message = match json::text_in(value.member("message"@)) {
                Some(words) => Some(words),
                None => if code.len() > 0 {
                    Some(code)
                } else {
                    None
                },
            };
            ack_of(command, code_status(code), external_id, message, now)
        },
    }
}

/// The acknowledgement that what came of a request comes to. Without an answer
/// and after a fault of the server the outcome is not known.
pub open spec fn reply_ack(command: ExecutionCommandView, reply: TradeReplyView, now: i64) -> ExecutionAckView {
    match reply {
        TradeReplyView::Unanswered(reason) => ack_of(
            command,
            AckStatus::Unknown,
            None,
            Some("MetaApi transport uncertainty: "@ + reason),
            now,
        ),
        TradeReplyView::Answered { status, status_text, body } => if !success(status) {
            ack_of(
                command,
                if server_fault(status) {
                    AckStatus::Unknown
                } else {
                    AckStatus::Rejected
                },
                None,
                Some("MetaApi HTTP "@ + status_text + ": "@ + body),
                now,
            )
        } else {
            answer_ack(command, json::json_value(body), now)
        },
    }
}

/// The acknowledgement that an answer which tells of success comes to.
pub fn read_answer(command: &ExecutionCommand, answer: Result<Json, String>, now_unix_ns: i64) -> (r:
    ExecutionAck)
    ensures
        r@ == answer_ack(
            command@,
            match answer {
                Ok(value) => Ok(value@),
                Err(words) => Err(words@),
            },
            now_unix_ns,
        ),
{
    let value = match answer {
        Err(words) => {
            return make_ack(
                command,
                AckStatus::Unknown,
                None,
                Some(joined("invalid MetaApi trade response: ", words.as_str())),
                now_unix_ns,
            );
        },
        Ok(value) => value,
    };
    let code = match text_member(&value, "stringCode") {
        Some(code) => code,
        None => {
            let none = String::new();
            assert(none@ =~= Seq::empty());
            none
        },
    };
    let named = match value.get("positionId") {
        Some(id) => Some(id),
        None => value.get("orderId"),
    };
    let given: Option<String> = match named {
        Some(inner) => value_to_string(inner),
        None => None,
    };
    let external_id = match given {
        Some(id) => Some(id),
        None => copy_text(&command.target_order_id),
    };
    let status = read_code(code.as_str());
    let message: Option<String> = match text_member(&value, "message") {
        Some(words) => Some(words),
        None => {
            if code.as_str().is_empty() {
                None
            } else {
                Some(code)
            }
        },
    };
    make_ack(command, status, external_id, message, now_unix_ns)
}

fn text_member(value: &Json, name: &str) -> (r: Option<String>)
    ensures
        r.deep_view() == json::text_in(value@.member(name@)),
{
    match value.get(name) {
        Some(inner) => match inner.as_text() {
            Some(words) => Some(words.clone()),
            None => None,
        },
        None => None,
    }
}

/// The acknowledgement that what came of a request comes to.
pub fn take_reply(command: &ExecutionCommand, reply: TradeReply, now_unix_ns: i64) -> (r:
    ExecutionAck)
    ensures
        r@ == reply_ack(command@, reply@, now_unix_ns),
{
    match reply {
        TradeReply::Unanswered(reason) => make_ack(
            command,
            AckStatus::Unknown,
            None,
            Some(joined("MetaApi transport uncertainty: ", reason.as_str())),
            now_unix_ns,
        ),
        TradeReply::Answered { status, status_text, body } => {
            if 200 <= status && status <= 299 {
                return read_answer(command, read_json(body.as_str()), now_unix_ns);
            }
            let known = if 500 <= status && status <= 599 {
                AckStatus::Unknown
            } else {
                AckStatus::Rejected
            };
            let mut message = joined_three("MetaApi HTTP ", status_text.as_str(), ": ");
            message.append(body.as_str());
            make_ack(command, known, None, Some(message), now_unix_ns)
        },
    }
}

/// The request that carries a command out, or the acknowledgement that rejects
/// one for which there is none.
pub fn execute(command: &ExecutionCommand, magic: u64, now_unix_ns: i64) -> (r: Result<
    Json,
    ExecutionAck,
>)
    ensures
        match trade_of(command@, magic) {
            Some(body) => r is Ok && r->Ok_0@ == body,
            None => r is Err && r->Err_0@ == ack_of(
                command@,
                AckStatus::Rejected,
                None,
                Some("open command omitted side"@),
                now_unix_ns,
            ),
        },
{
    match trade_request(command, magic) {
        Some(body) => Ok(body),
        None => Err(rejected(command, "open command omitted side", now_unix_ns)),
    }
}

/// A position at MetaApi.
#[derive(Debug)]
pub struct PositionSnapshot {
    pub id: String,
    pub position_type: String,
    pub symbol: String,
    pub volume: Double,
    pub open_price: Double,
    pub stop_loss: Option<Double>,
    pub take_profit: Option<Double>,
    pub client_id: Option<String>,
}

/// What a position holds.
pub struct PositionView {
    pub id: Seq<char>,
    pub position_type: Seq<char>,
    pub symbol: Seq<char>,
    pub volume: Double,
    pub open_price: Double,
    pub stop_loss: Option<Double>,
    pub take_profit: Option<Double>,
    pub client_id: Option<Seq<char>>,
}

impl View for PositionSnapshot {
    type V = PositionView;

    open spec fn view(&self) -> PositionView {
        PositionView {
            id: self.id@,
            position_type: self.position_type@,
            symbol: self.symbol@,
            volume: self.volume,
            open_price: self.open_price,
            stop_loss: self.stop_loss,
            take_profit: self.take_profit,
            client_id: self.client_id.deep_view(),
        }
    }
}

/// Positions by their names; of two of one name the later one.
pub open spec fn indexed(positions: Seq<PositionView>) -> Map<Seq<char>, PositionView>
    decreases positions.len(),
{
    if positions.len() == 0 {
        Map::empty()
    } else {
        indexed(positions.drop_last()).insert(positions.last().id, positions.last())
    }
}

/// Positions, seen through their views.
pub open spec fn seen_positions(positions: Seq<PositionSnapshot>) -> Seq<PositionView> {
    positions.map_values(|position: PositionSnapshot| position@)
}

/// Sorts positions by their names.
pub fn index_positions(positions: Vec<PositionSnapshot>) -> (r: Table<PositionSnapshot>)
    ensures
        table::seen(r@) == indexed(seen_positions(positions@)),
{
    let ghost all = seen_positions(positions@);
    let ghost whole = positions@;
    let mut out: Table<PositionSnapshot> = Table::new();
    assert(table::seen(out@) =~= Map::empty());
    for position in it: positions
        invariant
            it.seq() == whole,
            all == seen_positions(whole),
            table::seen(out@) == indexed(all.take(it.index() as int)),
    {
        let ghost before = out@;
        let ghost view = position@;
        proof {
            assert(all.take(it.index() + 1).drop_last() =~= all.take(it.index() as int));
            assert(all[it.index() as int] == view);
        }
        out.insert(position.id.clone(), position);
        assert(table::seen(out@) =~= table::seen(before).insert(view.id, view));
    }
    assert(all.take(all.len() as int) =~= all);
    out
}

/// The side that a kind of position stands for.
pub open spec fn side_of(kind: Seq<char>) -> Option<Side> {
    if kind == "POSITION_TYPE_BUY"@ {
        Some(Side::Buy)
    } else if kind == "POSITION_TYPE_SELL"@ {
        Some(Side::Sell)
    } else {
        None
    }
}

/// The command that made a position, where the copier made it.
pub open spec fn origin_of(client_id: Option<Seq<char>>) -> Option<Seq<char>> {
    match client_id {
        Some(id) => if text::starts(id, "CR_"@) {
            Some(id)
        } else {
            None
        },
        None => None,
    }
}

/// The event that a position of an account gives rise to, whether it is valid
/// or not.
pub open spec fn event_of(
    account: AccountConfig,
    position: PositionView,
    action: TradeAction,
    volume: Double,
    remaining: Option<Double>,
    now: i64,
) -> TradeEventView {
    TradeEventView {
        event_id: "metaapi:"@ + account.id@ + ":"@ + position.id + ":"@ + action.name() + ":"@
            + text::integer_text(now as int),
        source_account_id: account.id@,
        platform: account.platform,
        action,
        source_order_id: position.id,
        symbol: position.symbol,
        side: side_of(position.position_type),
        volume,
        remaining_volume: remaining,
        price: Some(position.open_price),
        stop_loss: position.stop_loss,
        take_profit: position.take_profit,
        timestamp_unix_ns: now,
        origin_command_id: origin_of(position.client_id),
    }
}

/// The event that a position gives rise to, or what is wrong with it.
pub open spec fn given(
    account: AccountConfig,
    position: PositionView,
    action: TradeAction,
    volume: Double,
    remaining: Option<Double>,
    now: i64,
) -> Result<TradeEventView, MetaApiErrorView> {
    let event = event_of(account, position, action, volume, remaining, now);
    if side_of(position.position_type) is None {
        Err(MetaApiErrorView::UnknownPositionType(position.position_type))
    } else {
        match event.fault() {
            Some(fault) => Err(MetaApiErrorView::Model(fault)),
            None => Ok(event),
        }
    }
}

/// The event that a position gives rise to.
pub fn to_event(
    account: &AccountConfig,
    position: &PositionSnapshot,
    action: TradeAction,
    volume: Double,
    remaining_volume: Option<Double>,
    now_unix_ns: i64,
) -> (r: Result<TradeEvent, MetaApiError>)
    ensures
        model::outcome(r) == given(
            *account,
            position@,
            action,
            volume,
            remaining_volume,
            now_unix_ns,
        ),
{
    let side = if same(position.position_type.as_str(), "POSITION_TYPE_BUY") {
        Some(Side::Buy)
    } else if same(position.position_type.as_str(), "POSITION_TYPE_SELL") {
        Some(Side::Sell)
    } else {
        return Err(MetaApiError::UnknownPositionType(position.position_type.clone()));
    };
    let origin_command_id: Option<String> = match &position.client_id {
        Some(id) => match after_prefix(id.as_str(), "CR_") {
            Some(_) => Some(id.clone()),
            None => None,
        },
        None => None,
    };
    let mut event_id = joined_three("metaapi:", account.id.as_str(), ":");
    event_id.append(position.id.as_str());
    event_id.append(":");
    let name = action.to_string();
    event_id.append(name.as_str());
    event_id.append(":");
    let time = write_i64(now_unix_ns);
    event_id.append(time.as_str());
    let event = TradeEvent {
        event_id,
        source_account_id: account.id.clone(),
        platform: account.platform,
        action,
        source_order_id: position.id.clone(),
        symbol: position.symbol.clone(),
        side,
        volume,
        remaining_volume,
        price: Some(position.open_price),
        stop_loss: position.stop_loss,
        take_profit: position.take_profit,
        timestamp_unix_ns: now_unix_ns,
        origin_command_id,
    };
    match event.validate() {
        Ok(_) => Ok(event),
        Err(error) => Err(MetaApiError::Model(error)),
    }
}

/// The event for a position that is there now, if there is one to give: it was
/// not there before, it became smaller, or its protection moved. One that grew
/// gives none.
pub open spec fn change_of(
    account: AccountConfig,
    previous: Map<Seq<char>, PositionView>,
    name: Seq<char>,
    position: PositionView,
    now: i64,
) -> Option<Result<TradeEventView, MetaApiErrorView>> {
    let volume = position.volume;
    if !previous.contains_key(name) {
        Some(given(account, position, TradeAction::Open, volume, Some(volume), now))
    } else {
        let old = previous[name];
        if volume.sum(venues::volume_step()).lt(old.volume) {
            Some(
                given(
                    account,
                    position,
                    TradeAction::Reduce,
                    old.volume.difference(volume),
                    Some(volume),
                    now,
                ),
            )
        } else if old.volume.sum(venues::volume_step()).lt(volume) {
            None
        } else if venues::moved(old.stop_loss, position.stop_loss) || venues::moved(
            old.take_profit,
            position.take_profit,
        ) {
            Some(given(account, position, TradeAction::Modify, volume, Some(volume), now))
        } else {
            None
        }
    }
}

/// Events in their order, and the fault that came after them.
pub struct Diff {
    pub events: Seq<TradeEventView>,
    pub fault: Option<MetaApiErrorView>,
}

/// A difference with one thing more behind it. Nothing follows a fault.
pub open spec fn then_given(
    before: Diff,
    more: Option<Result<TradeEventView, MetaApiErrorView>>,
) -> Diff {
    if before.fault is Some {
        before
    } else {
        match more {
            None => before,
            Some(Ok(event)) => Diff { events: before.events.push(event), fault: None },
            Some(Err(fault)) => Diff { events: before.events, fault: Some(fault) },
        }
    }
}

/// The events for the positions that are there now, in the order of the names.
pub open spec fn changes(
    account: AccountConfig,
    previous: Map<Seq<char>, PositionView>,
    current: Map<Seq<char>, PositionView>,
    names: Seq<Seq<char>>,
    now: i64,
) -> Diff
    decreases names.len(),
{
    if names.len() == 0 {
        Diff { events: Seq::empty(), fault: None }
    } else {
        then_given(
            changes(account, previous, current, names.drop_last(), now),
            change_of(account, previous, names.last(), current[names.last()], now),
        )
    }
}

/// The event for a position that was there before, if it is gone.
pub open spec fn closing_of(
    account: AccountConfig,
    current: Map<Seq<char>, PositionView>,
    name: Seq<char>,
    old: PositionView,
    now: i64,
) -> Option<Result<TradeEventView, MetaApiErrorView>> {
    if current.contains_key(name) {
        None
    } else {
        Some(given(account, old, TradeAction::Close, old.volume, Some(routing::zero()), now))
    }
}

/// Events, and behind them those for the positions that are gone.
pub open spec fn closings(
    account: AccountConfig,
    before: Diff,
    previous: Map<Seq<char>, PositionView>,
    current: Map<Seq<char>, PositionView>,
    names: Seq<Seq<char>>,
    now: i64,
) -> Diff
    decreases names.len(),
{
    if names.len() == 0 {
        before
    } else {
        then_given(
            closings(account, before, previous, current, names.drop_last(), now),
            closing_of(account, current, names.last(), previous[names.last()], now),
        )
    }
}

/// What changed from one view of the positions to the next: first what is
/// there now, then what is gone.
pub open spec fn difference(
    account: AccountConfig,
    previous: Map<Seq<char>, PositionView>,
    previous_names: Seq<Seq<char>>,
    current: Map<Seq<char>, PositionView>,
    current_names: Seq<Seq<char>>,
    now: i64,
) -> Diff {
    closings(
        account,
        changes(account, previous, current, current_names, now),
        previous,
        current,
        previous_names,
        now,
    )
}

/// No change.
pub open spec fn nothing() -> Diff {
    Diff { events: Seq::empty(), fault: None }
}

/// Events, seen through their views.
pub open spec fn seen_events(events: Seq<TradeEvent>) -> Seq<TradeEventView> {
    events.map_values(|event: TradeEvent| event@)
}

/// Events in their order, and the fault that came after them.
#[derive(Debug)]
pub struct PositionDiffs {
    pub events: Vec<TradeEvent>,
    pub fault: Option<MetaApiError>,
}

impl PositionDiffs {
    /// Whether this is a difference.
    pub open spec fn shows(&self, diff: Diff) -> bool {
        &&& seen_events(self.events@) == diff.events
        &&& match self.fault {
            Some(error) => diff.fault == Some(error@),
            None => diff.fault is None,
        }
    }

    fn add(&mut self, more: Option<Result<TradeEvent, MetaApiError>>)
        requires
            old(self).fault is None,
        ensures
            forall|before: Diff| #[trigger]
                old(self).shows(before) ==> final(self).shows(
                    then_given(
                        before,
                        match more {
                            Some(r) => Some(model::outcome(r)),
                            None => None,
                        },
                    ),
                ),
    {
        let ghost held = self.events@;
        match more {
            None => {},
            Some(Ok(event)) => {
                let ghost view = event@;
                self.events.push(event);
                assert(seen_events(self.events@) =~= seen_events(held).push(view));
            },
            Some(Err(error)) => {
                self.fault = Some(error);
            },
        }
    }
}

fn describe_change(
    account: &AccountConfig,
    previous: &Table<PositionSnapshot>,
    name: &str,
    position: &PositionSnapshot,
    now: i64,
) -> (r: Option<Result<TradeEvent, MetaApiError>>)
    ensures
        match r {
            Some(given) => change_of(*account, table::seen(previous@), name@, position@, now)
                == Some(model::outcome(given)),
            None => change_of(*account, table::seen(previous@), name@, position@, now) is None,
        },
{
    let volume = position.volume;
    let old = match previous.get(name) {
        None => {
            return Some(to_event(account, position, TradeAction::Open, volume, Some(volume), now));
        },
        Some(old) => old,
    };
    assert(table::seen(previous@)[name@] == old@);
    if volume.plus(least_volume()).below(old.volume) {
        return Some(
            to_event(
                account,
                position,
                TradeAction::Reduce,
                old.volume.minus(volume),
                Some(volume),
                now,
            ),
        );
    }
    if old.volume.plus(least_volume()).below(volume) {
        return None;
    }
    if changed_price(old.stop_loss, position.stop_loss) || changed_price(
        old.take_profit,
        position.take_profit,
    ) {
        return Some(to_event(account, position, TradeAction::Modify, volume, Some(volume), now));
    }
    None
}

/// A fault stays where more names follow.
proof fn lemma_changes_stop(
    account: AccountConfig,
    previous: Map<Seq<char>, PositionView>,
    current: Map<Seq<char>, PositionView>,
    names: Seq<Seq<char>>,
    now: i64,
    n: int,
)
    requires
        0 <= n <= names.len(),
        changes(account, previous, current, names.take(n), now).fault is Some,
    ensures
        changes(account, previous, current, names, now) == changes(
            account,
            previous,
            current,
            names.take(n),
            now,
        ),
    decreases names.len(),
{
    if n == names.len() {
        assert(names.take(n) =~= names);
    } else {
        assert(names.drop_last().take(n) =~= names.take(n));
        lemma_changes_stop(account, previous, current, names.drop_last(), now, n);
    }
}

/// A fault stays where more names follow.
proof fn lemma_closings_stop(
    account: AccountConfig,
    before: Diff,
    previous: Map<Seq<char>, PositionView>,
    current: Map<Seq<char>, PositionView>,
    names: Seq<Seq<char>>,
    now: i64,
    n: int,
)
    requires
        0 <= n <= names.len(),
        closings(account, before, previous, current, names.take(n), now).fault is Some,
    ensures
        closings(account, before, previous, current, names, now) == closings(
            account,
            before,
            previous,
            current,
            names.take(n),
            now,
        ),
    decreases names.len(),
{
    if n == names.len() {
        assert(names.take(n) =~= names);
    } else {
        assert(names.drop_last().take(n) =~= names.take(n));
        lemma_closings_stop(account, before, previous, current, names.drop_last(), now, n);
    }
}

/// What changed from one view of the positions to the next. Each position is
/// looked at once.
pub fn emit_position_diffs(
    account: &AccountConfig,
    previous: &Table<PositionSnapshot>,
    current: &Table<PositionSnapshot>,
    now_unix_ns: i64,
) -> (r: PositionDiffs)
    ensures
        r.shows(
            difference(
                *account,
                table::seen(previous@),
                previous.keys(),
                table::seen(current@),
                current.keys(),
                now_unix_ns,
            ),
        ),
        previous.walked(),
        current.walked(),
{
    let ghost was = table::seen(previous@);
    let ghost is = table::seen(current@);
    let ghost names = current.keys();
    let ghost gone = previous.keys();
    let mut out = PositionDiffs { events: Vec::new(), fault: None };
    let n: usize = current.len();
    let m: usize = previous.len();
    let mut i: usize = 0;
    assert(seen_events(out.events@) =~= Seq::empty());
    while i < n && out.fault.is_none()
        invariant
            i <= n,
            n == names.len(),
            names == current.keys(),
            current.walked(),
            was == table::seen(previous@),
            is == table::seen(current@),
            out.shows(changes(*account, was, is, names.take(i as int), now_unix_ns)),
        decreases n - i,
    {
        let position = current.value_at(i);
        proof {
            assert(names.take(i + 1).drop_last() =~= names.take(i as int));
            assert(current@.contains_key(names[i as int]));
            assert(is[names[i as int]] == position@);
        }
        let name = current.key_at(i);
        out.add(describe_change(account, previous, name, position, now_unix_ns));
        i = i + 1;
    }
    let ghost first = changes(*account, was, is, names, now_unix_ns);
    proof {
        if out.fault is Some {
            lemma_changes_stop(*account, was, is, names, now_unix_ns, i as int);
        } else {
            assert(names.take(i as int) =~= names);
        }
    }
    let mut j: usize = 0;
    while j < m && out.fault.is_none()
        invariant
            j <= m,
            m == gone.len(),
            gone == previous.keys(),
            previous.walked(),
            was == table::seen(previous@),
            is == table::seen(current@),
            out.shows(closings(*account, first, was, is, gone.take(j as int), now_unix_ns)),
        decreases m - j,
    {
        let old = previous.value_at(j);
        let name = previous.key_at(j);
        proof {
            assert(gone.take(j + 1).drop_last() =~= gone.take(j as int));
            assert(previous@.contains_key(gone[j as int]));
            assert(was[gone[j as int]] == old@);
        }
        let more: Option<Result<TradeEvent, MetaApiError>> = if current.contains(name) {
            None
        } else {
            Some(
                to_event(
                    account,
                    old,
                    TradeAction::Close,
                    old.volume,
                    Some(Double { bits: 0 }),
                    now_unix_ns,
                ),
            )
        };
        out.add(more);
        j = j + 1;
    }
    proof {
        if out.fault is Some {
            lemma_closings_stop(*account, first, was, is, gone, now_unix_ns, j as int);
        } else {
            assert(gone.take(j as int) =~= gone);
        }
    }
    out
}

/// The positions to start from: those that the first look gave, and none where
/// it failed.
pub fn take_first_look(fetched: Option<Vec<PositionSnapshot>>) -> (r: Table<PositionSnapshot>)
    ensures
        table::seen(r@) == match fetched {
            Some(positions) => indexed(seen_positions(positions@)),
            None => Map::empty(),
        },
{
    match fetched {
        Some(positions) => index_positions(positions),
        None => {
            let none: Table<PositionSnapshot> = Table::new();
            assert(table::seen(none@) =~= Map::empty());
            none
        },
    }
}

/// Takes what a look at the positions gave: the positions that are known from
/// then on, and what changed since the look before. A look that failed shows
/// nothing, and what was known stays known. A fault comes with the events that
/// stand before it.
pub fn take_poll(
    account: &AccountConfig,
    known: Table<PositionSnapshot>,
    fetched: Option<Vec<PositionSnapshot>>,
    now_unix_ns: i64,
) -> (r: (Table<PositionSnapshot>, PositionDiffs))
    ensures
        match fetched {
            None => r.0 == known && r.1.shows(nothing()),
            Some(positions) => {
                &&& table::seen(r.0@) == indexed(seen_positions(positions@))
                &&& r.0.walked()
                &&& r.1.shows(
                    difference(
                        *account,
                        table::seen(known@),
                        known.keys(),
                        table::seen(r.0@),
                        r.0.keys(),
                        now_unix_ns,
                    ),
                )
            },
        },
{
    match fetched {
        None => {
            let none = PositionDiffs { events: Vec::new(), fault: None };
            assert(seen_events(none.events@) =~= Seq::empty());
            (known, none)
        },
        Some(positions) => {
            let current = index_positions(positions);
            let changed = emit_position_diffs(account, &known, &current, now_unix_ns);
            (current, changed)
        },
    }
}

/// Two looks that gave the same positions show no change, in whatever order the
/// positions are walked.
pub proof fn law_same_positions_show_nothing(
    account: AccountConfig,
    positions: Map<Seq<char>, PositionView>,
    previous_names: Seq<Seq<char>>,
    current_names: Seq<Seq<char>>,
    now: i64,
)
    requires
        forall|i: int|
            0 <= i < previous_names.len() ==> positions.contains_key(#[trigger] previous_names[i]),
        forall|i: int|
            0 <= i < current_names.len() ==> positions.contains_key(#[trigger] current_names[i]),
    ensures
        difference(account, positions, previous_names, positions, current_names, now) == nothing(),
{
    lemma_no_changes(account, positions, current_names, now);
    lemma_no_closings(account, positions, previous_names, now);
}

proof fn lemma_no_changes(
    account: AccountConfig,
    positions: Map<Seq<char>, PositionView>,
    names: Seq<Seq<char>>,
    now: i64,
)
    requires
        forall|i: int| 0 <= i < names.len() ==> positions.contains_key(#[trigger] names[i]),
    ensures
        changes(account, positions, positions, names, now) == nothing(),
    decreases names.len(),
{
    if names.len() > 0 {
        let fewer = names.drop_last();
        assert forall|i: int| 0 <= i < fewer.len() implies positions.contains_key(
            #[trigger] fewer[i],
        ) by {
            assert(names[i] == fewer[i]);
        }
        lemma_no_changes(account, positions, fewer, now);
        assert(positions.contains_key(names[names.len() - 1]));
        law_unchanged_gives_nothing(
            account,
            positions,
            names.last(),
            positions[names.last()],
            now,
        );
    }
}

proof fn lemma_no_closings(
    account: AccountConfig,
    positions: Map<Seq<char>, PositionView>,
    names: Seq<Seq<char>>,
    now: i64,
)
    requires
        forall|i: int| 0 <= i < names.len() ==> positions.contains_key(#[trigger] names[i]),
    ensures
        closings(account, nothing(), positions, positions, names, now) == nothing(),
    decreases names.len(),
{
    if names.len() > 0 {
        let fewer = names.drop_last();
        assert forall|i: int| 0 <= i < fewer.len() implies positions.contains_key(
            #[trigger] fewer[i],
        ) by {
            assert(names[i] == fewer[i]);
        }
        lemma_no_closings(account, positions, fewer, now);
        assert(positions.contains_key(names[names.len() - 1]));
    }
}

/// An outcome that nobody saw is never called filled or rejected: without an
/// answer, after a fault of the server, and after an answer that cannot be
/// read, it is unknown.
pub proof fn law_uncertain_is_unknown(
    command: ExecutionCommandView,
    reply: TradeReplyView,
    now: i64,
)
    requires
        match reply {
            TradeReplyView::Unanswered(_) => true,
            TradeReplyView::Answered { status, body, .. } => server_fault(status) || (success(
                status,
            ) && json::json_value(body) is Err),
        },
    ensures
        reply_ack(command, reply, now).status == AckStatus::Unknown,
{
}

/// Whatever came of a request, it is the command's own account that
/// acknowledges the command.
pub proof fn law_reply_is_for_command(
    command: ExecutionCommandView,
    reply: TradeReplyView,
    now: i64,
)
    ensures
        reply_ack(command, reply, now).command_id == command.command_id,
        reply_ack(command, reply, now).account_id == command.target_account_id,
        reply_ack(command, reply, now).timestamp_unix_ns == now,
{
}

/// A position that the copier made is told from others: the name that it gives
/// to a command marks the position that the command makes.
pub proof fn law_own_positions_are_marked(command_id: Seq<char>)
    ensures
        origin_of(Some(client_name(command_id))) == Some(client_name(command_id)),
{
    reveal_strlit("CR_");
    assert(client_name(command_id).take("CR_"@.len() as int) =~= "CR_"@);
}

/// A position that did not change gives no event.
pub proof fn law_unchanged_gives_nothing(
    account: AccountConfig,
    previous: Map<Seq<char>, PositionView>,
    name: Seq<char>,
    position: PositionView,
    now: i64,
)
    requires
        previous.contains_key(name),
        previous[name] == position,
    ensures
        change_of(account, previous, name, position, now) is None,
{
    venues::lemma_unchanged(position.volume, position.stop_loss);
    venues::lemma_unchanged(position.volume, position.take_profit);
}

/// The names in a request are different ones.
proof fn lemma_request_names()
    ensures
        "actionType"@.len() == 10 && "actionType"@[0] == 'a',
        "positionId"@.len() == 10 && "positionId"@[0] == 'p',
        "takeProfit"@.len() == 10 && "takeProfit"@[0] == 't',
        "symbol"@.len() == 6 && "symbol"@[0] == 's',
        "volume"@.len() == 6 && "volume"@[0] == 'v',
        "magic"@.len() == 5,
        "clientId"@.len() == 8 && "clientId"@[0] == 'c',
        "stopLoss"@.len() == 8 && "stopLoss"@[0] == 's',
{
    reveal_strlit("actionType");
    reveal_strlit("positionId");
    reveal_strlit("takeProfit");
    reveal_strlit("symbol");
    reveal_strlit("volume");
    reveal_strlit("magic");
    reveal_strlit("clientId");
    reveal_strlit("stopLoss");
}

/// A command is sent as what it is: an opening as a purchase or a sale of its
/// symbol, and anything else for its position; an opening and a reduction with
/// the command's volume, an opening and a change of protection with its prices,
/// and all with the account's mark. What makes or closes a position carries the
/// command's name.
pub proof fn law_trade_is_sent(command: ExecutionCommandView, magic: u64)
    ensures
        trade_of(command, magic) is None <==> command.action == TradeAction::Open
            && command.side is None,
        trade_of(command, magic) matches Some(body) ==> {
            let position = match command.target_order_id {
                Some(id) => Some(JsonView::Text(id)),
                None => Some(JsonView::Null),
            };
            let opens = command.action == TradeAction::Open;
            &&& body.member("actionType"@) == Some(
                JsonView::Text(
                    match command.action {
                        TradeAction::Open => match command.side {
                            Some(Side::Buy) => "ORDER_TYPE_BUY"@,
                            _ => "ORDER_TYPE_SELL"@,
                        },
                        TradeAction::Modify => "POSITION_MODIFY"@,
                        TradeAction::Reduce => "POSITION_PARTIAL"@,
                        TradeAction::Close => "POSITION_CLOSE_ID"@,
                    },
                ),
            )
            &&& body.member("magic"@) == Some(JsonView::Unsigned(magic))
            &&& opens ==> body.member("symbol"@) == Some(JsonView::Text(command.symbol))
            &&& opens ==> body.member("positionId"@) is None
            &&& !opens ==> body.member("positionId"@) == position
            &&& opens || command.action == TradeAction::Reduce ==> body.member("volume"@) == Some(
                json::number_view(command.volume),
            )
            &&& command.action == TradeAction::Modify || command.action == TradeAction::Close
                ==> body.member("volume"@) is None
            &&& command.action != TradeAction::Modify ==> body.member("clientId"@) == Some(
                JsonView::Text(client_name(command.command_id)),
            )
            &&& opens || command.action == TradeAction::Modify ==> body.member("stopLoss"@)
                == match command.stop_loss {
                Some(price) => Some(json::number_view(price)),
                None => None,
            }
            &&& opens || command.action == TradeAction::Modify ==> body.member("takeProfit"@)
                == match command.take_profit {
                Some(price) => Some(json::number_view(price)),
                None => None,
            }
            &&& command.action == TradeAction::Reduce || command.action == TradeAction::Close
                ==> body.member("stopLoss"@) is None && body.member("takeProfit"@) is None
        },
{
    lemma_request_names();
    if let Some(body) = trade_of(command, magic) {
        let members = body->Object_0;
        let n = trade_members(command, magic).len() as int;
        json::lemma_member(members, "actionType"@, 0);
        match command.action {
            TradeAction::Open => {
                json::lemma_member(members, "symbol"@, 1);
                json::lemma_member(members, "volume"@, 2);
                json::lemma_member(members, "magic"@, 3);
                json::lemma_member(members, "clientId"@, 4);
                json::lemma_no_member(members, "positionId"@);
            },
            TradeAction::Modify => {
                json::lemma_member(members, "positionId"@, 1);
                json::lemma_member(members, "magic"@, 2);
                json::lemma_no_member(members, "volume"@);
            },
            TradeAction::Reduce => {
                json::lemma_member(members, "positionId"@, 1);
                json::lemma_member(members, "volume"@, 2);
                json::lemma_member(members, "magic"@, 3);
                json::lemma_member(members, "clientId"@, 4);
            },
            TradeAction::Close => {
                json::lemma_member(members, "positionId"@, 1);
                json::lemma_member(members, "magic"@, 2);
                json::lemma_member(members, "clientId"@, 3);
                json::lemma_no_member(members, "volume"@);
            },
        }
        if command.action == TradeAction::Open || command.action == TradeAction::Modify {
            if command.stop_loss is Some {
                json::lemma_member(members, "stopLoss"@, n);
                if command.take_profit is Some {
                    json::lemma_member(members, "takeProfit"@, n + 1);
                } else {
                    json::lemma_no_member(members, "takeProfit"@);
                }
            } else {
                json::lemma_no_member(members, "stopLoss"@);
                if command.take_profit is Some {
                    json::lemma_member(members, "takeProfit"@, n);
                } else {
                    json::lemma_no_member(members, "takeProfit"@);
                }
            }
        } else {
            json::lemma_no_member(members, "stopLoss"@);
            json::lemma_no_member(members, "takeProfit"@);
        }
    }
}

/// Of a command's name that is made of letters and digits the first twenty are
/// kept, in two halves. So commands whose names differ there have different
/// names at MetaApi too.
pub proof fn law_client_name_keeps(command_id: Seq<char>, other: Seq<char>)
    requires
        command_id.len() >= 20,
        other.len() >= 20,
        forall|i: int|
            0 <= i < command_id.len() ==> {
                let c = #[trigger] command_id[i];
                ('0' <= c <= '9') || ('A' <= c <= 'Z') || ('a' <= c <= 'z')
            },
        forall|i: int|
            0 <= i < other.len() ==> {
                let c = #[trigger] other[i];
                ('0' <= c <= '9') || ('A' <= c <= 'Z') || ('a' <= c <= 'z')
            },
    ensures
        client_name(command_id) == "CR_"@ + command_id.take(10) + "_"@ + command_id.subrange(
            10,
            20,
        ),
        client_name(command_id).len() == 24,
        client_name(command_id) == client_name(other) ==> command_id.take(20) == other.take(20),
{
    lemma_client_name(command_id);
    lemma_client_name(other);
    reveal_strlit("CR_");
    reveal_strlit("_");
    let name = client_name(command_id);
    assert(name.subrange(3, 13) =~= command_id.take(10));
    assert(name.subrange(14, 24) =~= command_id.subrange(10, 20));
    let last = client_name(other);
    assert(last.subrange(3, 13) =~= other.take(10));
    assert(last.subrange(14, 24) =~= other.subrange(10, 20));
    assert(command_id.take(20) =~= command_id.take(10) + command_id.subrange(10, 20));
    assert(other.take(20) =~= other.take(10) + other.subrange(10, 20));
}

proof fn lemma_client_name(command_id: Seq<char>)
    requires
        command_id.len() >= 20,
        forall|i: int| 0 <= i < command_id.len() ==> plain_char(#[trigger] command_id[i]),
    ensures
        client_name(command_id) == "CR_"@ + command_id.take(10) + "_"@ + command_id.subrange(
            10,
            20,
        ),
{
    lemma_all_kept(command_id);
    let kept = at_most(compact(command_id), 20);
    assert(compact(command_id) == command_id);
    assert(at_most(kept, 10) =~= command_id.take(10));
    assert(kept.skip(10) =~= command_id.subrange(10, 20));
}

proof fn lemma_all_kept(inner: Seq<char>)
    requires
        forall|i: int| 0 <= i < inner.len() ==> plain_char(#[trigger] inner[i]),
    ensures
        compact(inner) == inner,
    decreases inner.len(),
{
    reveal(Seq::filter);
    if inner.len() > 0 {
        let fewer = inner.drop_last();
        assert forall|i: int| 0 <= i < fewer.len() implies plain_char(#[trigger] fewer[i]) by {
            assert(fewer[i] == inner[i]);
        }
        lemma_all_kept(fewer);
        assert(plain_char(inner[inner.len() - 1]));
        assert(fewer.push(inner.last()) =~= inner);
    } else {
        assert(compact(inner) =~= inner);
    }
}

/// What the code of an answer says: three codes that a command was carried out,
/// seven that its outcome is not known, and any other that it was not.
pub proof fn law_codes(code: Seq<char>)
    ensures
        code_status(code) == AckStatus::Filled <==> code == "TRADE_RETCODE_DONE"@ || code
            == "ERR_NO_ERROR"@ || code == "TRADE_RETCODE_NO_CHANGES"@,
        code == "TRADE_RETCODE_PLACED"@ || code == "TRADE_RETCODE_DONE_PARTIAL"@ || code
            == "TRADE_RETCODE_DISCONNECTED_DURING_TRADE"@ || code == "TRADE_RETCODE_TIMEOUT"@
            || code == "ERR_TRADE_TIMED_OUT"@ || code == "ERR_NO_RESULT"@ || code
            == "TRADE_RETCODE_UNKNOWN"@ ==> code_status(code) != AckStatus::Rejected
            && code_status(code) != AckStatus::Accepted,
        code_status(code) == AckStatus::Unknown ==> code == "TRADE_RETCODE_PLACED"@ || code
            == "TRADE_RETCODE_DONE_PARTIAL"@ || code == "TRADE_RETCODE_DISCONNECTED_DURING_TRADE"@
            || code == "TRADE_RETCODE_TIMEOUT"@ || code == "ERR_TRADE_TIMED_OUT"@ || code
            == "ERR_NO_RESULT"@ || code == "TRADE_RETCODE_UNKNOWN"@,
{
}

/// An answer acknowledges the command with the status of its code and the words
/// that it gives, or else the code. The order is the one that the answer names,
/// or else the one that the command was for.
pub proof fn law_answer_is_acknowledged(command: ExecutionCommandView, value: JsonView, now: i64)
    ensures
        ({
            let ack = answer_ack(command, Ok(value), now);
            let code = json::text_in(value.member("stringCode"@));
            let named = if value.member("positionId"@) is Some {
                json::read_text_in(value.member("positionId"@))
            } else {
                json::read_text_in(value.member("orderId"@))
            };
            let words = json::text_in(value.member("message"@));
            &&& ack.command_id == command.command_id
            &&& ack.account_id == command.target_account_id
            &&& ack.timestamp_unix_ns == now
            &&& code is Some ==> ack.status == code_status(code->Some_0)
            &&& code is None ==> ack.status == AckStatus::Rejected
            &&& named is Some ==> ack.external_id == named
            &&& named is None ==> ack.external_id == command.target_order_id
            &&& words is Some ==> ack.message == words
            &&& words is None && code is Some && code->Some_0.len() > 0 ==> ack.message == code
            &&& words is None && code is None ==> ack.message is None
        }),
{
    reveal_strlit("TRADE_RETCODE_DONE");
    reveal_strlit("ERR_NO_ERROR");
    reveal_strlit("TRADE_RETCODE_NO_CHANGES");
    reveal_strlit("TRADE_RETCODE_PLACED");
    reveal_strlit("TRADE_RETCODE_DONE_PARTIAL");
    reveal_strlit("TRADE_RETCODE_DISCONNECTED_DURING_TRADE");
    reveal_strlit("TRADE_RETCODE_TIMEOUT");
    reveal_strlit("ERR_TRADE_TIMED_OUT");
    reveal_strlit("ERR_NO_RESULT");
    reveal_strlit("TRADE_RETCODE_UNKNOWN");
    let none = Seq::<char>::empty();
    assert("TRADE_RETCODE_DONE"@.len() > 0 && "ERR_NO_ERROR"@.len() > 0
        && "TRADE_RETCODE_NO_CHANGES"@.len() > 0 && "TRADE_RETCODE_PLACED"@.len() > 0
        && "TRADE_RETCODE_DONE_PARTIAL"@.len() > 0
        && "TRADE_RETCODE_DISCONNECTED_DURING_TRADE"@.len() > 0 && "TRADE_RETCODE_TIMEOUT"@.len()
        > 0 && "ERR_TRADE_TIMED_OUT"@.len() > 0 && "ERR_NO_RESULT"@.len() > 0
        && "TRADE_RETCODE_UNKNOWN"@.len() > 0);
    assert(none.len() == 0);
}

/// What came of a request is told by the status of HTTP: from 200 to 299 the
/// answer tells it; from 500 to 599, and without an answer, it is not known; else
/// the command was rejected.
pub proof fn law_reply_is_sorted(command: ExecutionCommandView, reply: TradeReplyView, now: i64)
    ensures
        match reply {
            TradeReplyView::Unanswered(_) => reply_ack(command, reply, now).status
                == AckStatus::Unknown && reply_ack(command, reply, now).external_id is None,
            TradeReplyView::Answered { status, body, .. } => {
                &&& 200 <= status <= 299 ==> reply_ack(command, reply, now) == answer_ack(
                    command,
                    json::json_value(body),
                    now,
                )
                &&& 500 <= status <= 599 ==> reply_ack(command, reply, now).status
                    == AckStatus::Unknown
                &&& status < 200 || 300 <= status < 500 || status >= 600 ==> reply_ack(
                    command,
                    reply,
                    now,
                ).status == AckStatus::Rejected
                &&& !(200 <= status <= 299) ==> reply_ack(command, reply, now).external_id is None
            },
        },
{
}

/// An event tells of its account's position as it is, at the time that it is
/// told. A position is bought or sold as its kind says, and one of another kind
/// gives no event. A position counts as copied just where its name begins with
/// the copier's mark.
pub proof fn law_event_tells_of_position(
    account: AccountConfig,
    position: PositionView,
    action: TradeAction,
    volume: Double,
    remaining: Option<Double>,
    now: i64,
)
    ensures
        ({
            let told = given(account, position, action, volume, remaining, now);
            let buys = position.position_type == "POSITION_TYPE_BUY"@;
            let sells = position.position_type == "POSITION_TYPE_SELL"@;
            &&& !buys && !sells ==> told == Err::<TradeEventView, _>(
                MetaApiErrorView::UnknownPositionType(position.position_type),
            )
            &&& told matches Ok(event) ==> {
                &&& event.source_account_id == account.id@
                &&& event.platform == account.platform
                &&& event.action == action
                &&& event.source_order_id == position.id
                &&& event.symbol == position.symbol
                &&& buys ==> event.side == Some(Side::Buy)
                &&& sells ==> event.side == Some(Side::Sell)
                &&& event.volume == volume
                &&& event.remaining_volume == remaining
                &&& event.price == Some(position.open_price)
                &&& event.stop_loss == position.stop_loss
                &&& event.take_profit == position.take_profit
                &&& event.timestamp_unix_ns == now
                &&& event.event_id == "metaapi:"@ + account.id@ + ":"@ + position.id + ":"@
                    + action.name() + ":"@ + text::integer_text(now as int)
                &&& position.client_id is None ==> event.origin_command_id is None
                &&& position.client_id matches Some(name) ==> if name.len() >= 3 && name[0] == 'C'
                    && name[1] == 'R' && name[2] == '_' {
                    event.origin_command_id == Some(name)
                } else {
                    event.origin_command_id is None
                }
            }
        }),
{
    reveal_strlit("POSITION_TYPE_BUY");
    reveal_strlit("POSITION_TYPE_SELL");
    reveal_strlit("CR_");
    assert("POSITION_TYPE_BUY"@.len() == 17 && "POSITION_TYPE_SELL"@.len() == 18);
    if let Some(name) = position.client_id {
        if name.len() >= 3 {
            assert("CR_"@[0] == 'C' && "CR_"@[1] == 'R' && "CR_"@[2] == '_');
            assert(name.take(3)[0] == name[0] && name.take(3)[1] == name[1] && name.take(3)[2]
                == name[2]);
            if name[0] == 'C' && name[1] == 'R' && name[2] == '_' {
                assert(name.take(3) =~= "CR_"@);
            }
        }
    }
}

/// A new position is told as opened with all of its volume. One that became
/// smaller is told as reduced by the difference, with what is left; one whose
/// protection alone moved is told as modified. One that grew is not told.
pub proof fn law_change_is_told(
    account: AccountConfig,
    previous: Map<Seq<char>, PositionView>,
    name: Seq<char>,
    position: PositionView,
    now: i64,
)
    ensures
        ({
            let told = change_of(account, previous, name, position, now);
            let known = previous.contains_key(name);
            let old = previous[name];
            let shrunk = position.volume.sum(venues::volume_step()).lt(old.volume);
            let grown = old.volume.sum(venues::volume_step()).lt(position.volume);
            let moved = venues::moved(old.stop_loss, position.stop_loss) || venues::moved(
                old.take_profit,
                position.take_profit,
            );
            &&& told is Some <==> !known || shrunk || (!grown && moved)
            &&& told matches Some(Ok(event)) ==> {
                &&& event.source_order_id == position.id
                &&& event.remaining_volume == Some(position.volume)
                &&& !known ==> event.action == TradeAction::Open && event.volume == position.volume
                &&& known && shrunk ==> event.action == TradeAction::Reduce
                &&& known && shrunk && old.volume.finite() && position.volume.finite() ==> {
                    let exact = old.volume.signed_units() - position.volume.signed_units();
                    exact > 0 ==> !event.volume.negative() && double::rounds_to(
                        exact as nat,
                        1,
                        event.volume.magnitude() as nat,
                    )
                }
                &&& known && !shrunk ==> event.action == TradeAction::Modify && event.volume
                    == position.volume
            }
        }),
{
    let old = previous[name];
    if old.volume.finite() && position.volume.finite() {
        double::law_sum_is_nearest(old.volume, position.volume);
    }
}

/// A position that is gone is told as closed with all that it held, and one that
/// is still there is not.
pub proof fn law_gone_is_closed(
    account: AccountConfig,
    current: Map<Seq<char>, PositionView>,
    name: Seq<char>,
    old: PositionView,
    now: i64,
)
    ensures
        closing_of(account, current, name, old, now) is Some <==> !current.contains_key(name),
        closing_of(account, current, name, old, now) matches Some(Ok(event)) ==> {
            &&& event.action == TradeAction::Close
            &&& event.source_order_id == old.id
            &&& event.volume == old.volume
            &&& event.remaining_volume == Some(Double { bits: 0 })
        },
{
}

/// Where no position stands in the way, every change is told: each of a position
/// that is there, and behind them each of a position that is gone.
pub proof fn law_difference_is_complete(
    account: AccountConfig,
    previous: Map<Seq<char>, PositionView>,
    previous_names: Seq<Seq<char>>,
    current: Map<Seq<char>, PositionView>,
    current_names: Seq<Seq<char>>,
    now: i64,
)
    requires
        difference(account, previous, previous_names, current, current_names, now).fault is None,
    ensures
        ({
            let told = difference(account, previous, previous_names, current, current_names, now);
            &&& forall|j: int|
                0 <= j < current_names.len() ==> match change_of(
                    account,
                    previous,
                    #[trigger] current_names[j],
                    current[current_names[j]],
                    now,
                ) {
                    None => true,
                    Some(Ok(event)) => told.events.contains(event),
                    Some(Err(_)) => false,
                }
            &&& forall|j: int|
                0 <= j < previous_names.len() ==> match closing_of(
                    account,
                    current,
                    #[trigger] previous_names[j],
                    previous[previous_names[j]],
                    now,
                ) {
                    None => true,
                    Some(Ok(event)) => told.events.contains(event),
                    Some(Err(_)) => false,
                }
        }),
{
    let first = changes(account, previous, current, current_names, now);
    lemma_closings_complete(account, first, previous, current, previous_names, now);
    lemma_changes_complete(account, previous, current, current_names, now);
    let told = difference(account, previous, previous_names, current, current_names, now);
    assert forall|j: int| 0 <= j < current_names.len() implies match change_of(
        account,
        previous,
        #[trigger] current_names[j],
        current[current_names[j]],
        now,
    ) {
        None => true,
        Some(Ok(event)) => told.events.contains(event),
        Some(Err(_)) => false,
    } by {
        if let Some(Ok(event)) = change_of(
            account,
            previous,
            current_names[j],
            current[current_names[j]],
            now,
        ) {
            assert(first.events.contains(event));
            let i = choose|i: int| 0 <= i < first.events.len() && first.events[i] == event;
            assert(told.events[i] == event);
        }
    }
}

proof fn lemma_changes_complete(
    account: AccountConfig,
    previous: Map<Seq<char>, PositionView>,
    current: Map<Seq<char>, PositionView>,
    names: Seq<Seq<char>>,
    now: i64,
)
    requires
        changes(account, previous, current, names, now).fault is None,
    ensures
        forall|j: int|
            0 <= j < names.len() ==> match change_of(
                account,
                previous,
                #[trigger] names[j],
                current[names[j]],
                now,
            ) {
                None => true,
                Some(Ok(event)) => changes(account, previous, current, names, now).events.contains(
                    event,
                ),
                Some(Err(_)) => false,
            },
    decreases names.len(),
{
    if names.len() > 0 {
        let fewer = names.drop_last();
        let last = names.len() - 1;
        let before = changes(account, previous, current, fewer, now);
        let all = changes(account, previous, current, names, now);
        lemma_changes_complete(account, previous, current, fewer, now);
        assert forall|j: int| 0 <= j < names.len() implies match change_of(
            account,
            previous,
            #[trigger] names[j],
            current[names[j]],
            now,
        ) {
            None => true,
            Some(Ok(event)) => all.events.contains(event),
            Some(Err(_)) => false,
        } by {
            if j < last {
                assert(fewer[j] == names[j]);
                if let Some(Ok(event)) = change_of(
                    account,
                    previous,
                    names[j],
                    current[names[j]],
                    now,
                ) {
                    assert(before.events.contains(event));
                    let i = choose|i: int|
                        0 <= i < before.events.len() && before.events[i] == event;
                    assert(all.events[i] == event);
                }
            } else {
                if let Some(Ok(event)) = change_of(
                    account,
                    previous,
                    names[j],
                    current[names[j]],
                    now,
                ) {
                    assert(all.events[all.events.len() - 1] == event);
                }
            }
        }
    }
}

proof fn lemma_closings_complete(
    account: AccountConfig,
    before: Diff,
    previous: Map<Seq<char>, PositionView>,
    current: Map<Seq<char>, PositionView>,
    names: Seq<Seq<char>>,
    now: i64,
)
    requires
        closings(account, before, previous, current, names, now).fault is None,
    ensures
        before.fault is None,
        ({
            let all = closings(account, before, previous, current, names, now);
            &&& before.events.len() <= all.events.len()
            &&& forall|i: int|
                0 <= i < before.events.len() ==> #[trigger] all.events[i] == before.events[i]
            &&& forall|j: int|
                0 <= j < names.len() ==> match closing_of(
                    account,
                    current,
                    #[trigger] names[j],
                    previous[names[j]],
                    now,
                ) {
                    None => true,
                    Some(Ok(event)) => all.events.contains(event),
                    Some(Err(_)) => false,
                }
        }),
    decreases names.len(),
{
    if names.len() > 0 {
        let fewer = names.drop_last();
        let last = names.len() - 1;
        let some = closings(account, before, previous, current, fewer, now);
        let all = closings(account, before, previous, current, names, now);
        lemma_closings_complete(account, before, previous, current, fewer, now);
        assert forall|i: int| 0 <= i < before.events.len() implies #[trigger] all.events[i]
            == before.events[i] by {
            assert(some.events[i] == before.events[i]);
        }
        assert forall|j: int| 0 <= j < names.len() implies match closing_of(
            account,
            current,
            #[trigger] names[j],
            previous[names[j]],
            now,
        ) {
            None => true,
            Some(Ok(event)) => all.events.contains(event),
            Some(Err(_)) => false,
        } by {
            if let Some(Ok(event)) = closing_of(account, current, names[j], previous[names[j]], now) {
                if j < last {
                    assert(fewer[j] == names[j]);
                    assert(some.events.contains(event));
                    let i = choose|i: int| 0 <= i < some.events.len() && some.events[i] == event;
                    assert(all.events[i] == event);
                } else {
                    assert(all.events[all.events.len() - 1] == event);
                }
            } else if j < last {
                assert(fewer[j] == names[j]);
            }
        }
    }
}

/// Every position that a look gave stands under its name, the last one of a name
/// counting, and no other does.
pub proof fn law_positions_are_indexed(positions: Seq<PositionView>, id: Seq<char>)
    ensures
        indexed(positions).contains_key(id) <==> exists|i: int|
            0 <= i < positions.len() && (#[trigger] positions[i]).id == id,
        indexed(positions).contains_key(id) ==> exists|i: int|
            {
                &&& 0 <= i < positions.len()
                &&& #[trigger] positions[i] == indexed(positions)[id]
                &&& positions[i].id == id
                &&& forall|j: int|
                    i < j < positions.len() ==> (#[trigger] positions[j]).id != id
            },
    decreases positions.len(),
{
    if positions.len() > 0 {
        let fewer = positions.drop_last();
        let last = positions.len() - 1;
        law_positions_are_indexed(fewer, id);
        assert(forall|i: int| 0 <= i < fewer.len() ==> #[trigger] fewer[i] == positions[i]);
        assert(forall|i: int| 0 <= i < fewer.len() ==> #[trigger] positions[i] == fewer[i]);
        assert(positions[last] == positions.last());
        if positions.last().id != id && indexed(fewer).contains_key(id) {
            let i = choose|i: int|
                {
                    &&& 0 <= i < fewer.len()
                    &&& #[trigger] fewer[i] == indexed(fewer)[id]
                    &&& fewer[i].id == id
                    &&& forall|j: int| i < j < fewer.len() ==> (#[trigger] fewer[j]).id != id
                };
            assert(positions[i] == indexed(positions)[id]);
            assert forall|j: int| i < j < positions.len() implies (
            #[trigger] positions[j]).id != id by {
                if j < last {
                    assert(fewer[j].id != id);
                }
            }
        }
    }
}

/// The request for an account carries the login, the password, the server and
/// the account's name and platform, and there is one for MetaTrader accounts
/// alone.
pub proof fn law_account_is_asked_for(
    account: AccountConfig,
    login: Seq<char>,
    server: Seq<char>,
    password: Seq<char>,
    magic: u64,
)
    ensures
        provisioning_body(account, login, server, password, magic) is Ok <==> account.platform
            == Platform::Mt4 || account.platform == Platform::Mt5,
        provisioning_body(account, login, server, password, magic) matches Ok(body) ==> {
            &&& body.member("login"@) == Some(JsonView::Text(login))
            &&& body.member("password"@) == Some(JsonView::Text(password))
            &&& body.member("name"@) == Some(JsonView::Text(account.id@))
            &&& body.member("server"@) == Some(JsonView::Text(server))
            &&& body.member("platform"@) == Some(
                JsonView::Text(
                    if account.platform == Platform::Mt4 {
                        "mt4"@
                    } else {
                        "mt5"@
                    },
                ),
            )
            &&& body.member("magic"@) == Some(JsonView::Unsigned(magic))
            &&& body.member("type"@) == Some(JsonView::Text("cloud-g2"@))
        },
{
    reveal_strlit("login");
    reveal_strlit("password");
    reveal_strlit("name");
    reveal_strlit("server");
    reveal_strlit("platform");
    reveal_strlit("magic");
    reveal_strlit("type");
    assert("login"@.len() == 5 && "login"@[0] == 'l' && "magic"@.len() == 5 && "magic"@[0] == 'm');
    assert("password"@.len() == 8 && "password"@[1] == 'a' && "platform"@.len() == 8
        && "platform"@[1] == 'l');
    assert("name"@.len() == 4 && "name"@[0] == 'n' && "type"@.len() == 4 && "type"@[0] == 't');
    assert("server"@.len() == 6);
    if let Ok(body) = provisioning_body(account, login, server, password, magic) {
        let members = body->Object_0;
        json::lemma_member(members, "login"@, 0);
        json::lemma_member(members, "password"@, 1);
        json::lemma_member(members, "name"@, 2);
        json::lemma_member(members, "server"@, 3);
        json::lemma_member(members, "platform"@, 4);
        json::lemma_member(members, "magic"@, 5);
        json::lemma_member(members, "type"@, 6);
    }
}

/// An account that is being made is asked for again until the last attempt; one
/// that was made is the one that the answer names; and anything else fails.
pub proof fn law_account_is_waited_for(
    attempt: u32,
    status: u16,
    status_text: Seq<char>,
    body: Seq<char>,
    value: JsonView,
    id: Seq<char>,
)
    ensures
        ({
            let step = provisioning_step(attempt, status, status_text, body);
            &&& status == 202 && attempt < 24 ==> step is Wait
            &&& status == 202 && attempt >= 24 ==> step == ProvisioningStepView::Failed(
                MetaApiErrorView::ProvisioningTimeout,
            )
            &&& status != 202 && 200 <= status <= 299 && json::json_value(body) == Ok::<
                _,
                Seq<char>,
            >(value) && value.member("id"@) == Some(JsonView::Text(id)) ==> step
                == ProvisioningStepView::Made(id)
            &&& step is Wait ==> status == 202
            &&& step is Made ==> 200 <= status <= 299 && status != 202
            &&& !(200 <= status <= 299) ==> step == ProvisioningStepView::Failed(
                MetaApiErrorView::ProvisioningFailed { status: status_text, body },
            )
        }),
{
}

/// The service is reached at the place that is given for an account, or else at
/// the one of its region.
pub proof fn law_service_is_reached(direct: MetaApiAccountConfig)
    ensures
        direct.api_base matches Some(base) ==> base_of(direct) == base@,
        direct.api_base is None ==> base_of(direct) == "https://mt-client-api-v1."@
            + direct.region@ + ".agiliumtrade.ai"@,
{
}

} // verus!
