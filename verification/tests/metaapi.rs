use copierr::config::{AccountBackend, AccountConfig, AccountRole, MetaApiAccountConfig, MetaApiGlobalConfig};
use copierr::double::Double;
use copierr::json::{read_json, Json};
use copierr::model::{AckStatus, ExecutionCommand, Platform, Side, TradeAction};
use copierr::table::Table;
use copierr::venues::metaapi::{
    api_base, check_positions_answer, emit_position_diffs, execute, given_account, index_positions, metaapi_client_id, plan_provisioning, take_first_look, take_poll,
    positions_url, provisioning_transaction_id, provisioning_url, read_answer, read_made, rejected,
    take_provisioning_answer, take_reply, to_event, trade_request, trade_url, MetaApiError, PositionSnapshot,
    ProvisioningStep, TradeReply, PROVISIONING_ATTEMPTS, PROVISIONING_PAUSE_SECONDS,
};
use sha2::{Digest, Sha256};

fn double(x: f64) -> Double {
    Double { bits: x.to_bits() }
}

fn show(json: &Json) -> String {
    match json {
        Json::Null => "null".to_string(),
        Json::Bool(flag) => flag.to_string(),
        Json::Unsigned(number) => number.to_string(),
        Json::Signed(number) => number.to_string(),
        Json::Decimal(number) => number.clone(),
        Json::Text(text) => format!("{text:?}"),
        Json::List(items) => {
            let shown: Vec<String> = items.iter().map(show).collect();
            format!("[{}]", shown.join(","))
        }
        Json::Object(members) => {
            let shown: Vec<String> =
                members.iter().map(|(name, member)| format!("{name:?}:{}", show(member))).collect();
            format!("{{{}}}", shown.join(","))
        }
    }
}

fn direct() -> MetaApiAccountConfig {
    MetaApiAccountConfig {
        account_id: None,
        login: Some("123".into()),
        server: Some("Demo".into()),
        password_env: Some("PW".into()),
        region: "london".into(),
        api_base: None,
        poll_interval_ms: 100,
        magic: 77,
    }
}

fn account() -> AccountConfig {
    AccountConfig {
        id: "acc".into(),
        platform: Platform::Mt5,
        role: AccountRole::Both,
        backend: AccountBackend::MetaApi,
        token: String::new(),
        allow_rebroadcast: false,
        ctrader: None,
        metaapi: Some(direct()),
        terminal: None,
    }
}

fn global() -> MetaApiGlobalConfig {
    MetaApiGlobalConfig { auth_token_env: "AUTH".into(), provisioning_base: "https://p.example//".into() }
}

fn command(action: TradeAction) -> ExecutionCommand {
    ExecutionCommand {
        command_id: "0123456789abcdef-0123456789abcdef".into(),
        origin_event_id: "e".into(),
        route_id: "r".into(),
        source_account_id: "m".into(),
        source_order_id: "1".into(),
        target_account_id: "acc".into(),
        action,
        target_order_id: if action == TradeAction::Open { None } else { Some("55".into()) },
        symbol: "EURUSD".into(),
        side: Some(Side::Buy),
        volume: double(0.25),
        source_volume: double(1.0),
        source_remaining_volume: None,
        price: None,
        stop_loss: Some(double(1.1)),
        take_profit: None,
        created_unix_ns: 1,
    }
}

fn position(id: &str, volume: f64) -> PositionSnapshot {
    PositionSnapshot {
        id: id.into(),
        position_type: "POSITION_TYPE_SELL".into(),
        symbol: "EURUSD".into(),
        volume: double(volume),
        open_price: double(1.2),
        stop_loss: None,
        take_profit: None,
        client_id: None,
    }
}

fn table(positions: Vec<PositionSnapshot>) -> Table<PositionSnapshot> {
    index_positions(positions)
}

#[test]
fn addresses_of_the_service() {
    assert_eq!(api_base(&direct()), "https://mt-client-api-v1.london.agiliumtrade.ai");
    let mut given = direct();
    given.api_base = Some("https://x/".into());
    assert_eq!(api_base(&given), "https://x/");
    assert_eq!(trade_url("https://x//", "id"), "https://x/users/current/accounts/id/trade");
    assert_eq!(positions_url("https://x", "id"), "https://x/users/current/accounts/id/positions");
    assert_eq!(provisioning_url(&global()), "https://p.example/users/current/accounts");
}

#[test]
fn an_account_that_is_given_is_used() {
    assert_eq!(given_account(&direct()), None);
    let mut given = direct();
    given.account_id = Some(String::new());
    assert_eq!(given_account(&given), None);
    given.account_id = Some("id".into());
    assert_eq!(given_account(&given).as_deref(), Some("id"));
}

#[test]
fn a_transaction_is_named_by_a_digest() {
    let digest = Sha256::digest(b"copierr:metaapi:provision:v1\0acc\x00123\0Demo");
    let mut wanted = String::new();
    for byte in &digest[..16] {
        wanted.push_str(&format!("{byte:02x}"));
    }
    assert_eq!(provisioning_transaction_id("acc", "123", "Demo"), wanted);
}

#[test]
fn an_account_is_asked_for() {
    let plan = plan_provisioning(&account(), &direct(), &global(), "pw").expect("a plan");
    assert_eq!(plan.url, "https://p.example/users/current/accounts");
    assert_eq!(plan.transaction_id, provisioning_transaction_id("acc", "123", "Demo"));
    assert_eq!(
        show(&plan.body),
        r#"{"login":"123","password":"pw","name":"acc","server":"Demo","platform":"mt5","magic":77,"type":"cloud-g2"}"#
    );
    let mut other = account();
    other.platform = Platform::CTrader;
    let error = plan_provisioning(&other, &direct(), &global(), "pw").expect_err("an error");
    assert!(matches!(error, MetaApiError::UnsupportedPlatform));
    assert_eq!(error.to_string(), "MetaApi provisioning only supports MT4/MT5");
}

#[test]
fn answers_to_a_request_for_an_account() {
    assert_eq!((PROVISIONING_ATTEMPTS, PROVISIONING_PAUSE_SECONDS), (24, 5));
    assert!(matches!(take_provisioning_answer(1, 202, "202 Accepted", ""), ProvisioningStep::Wait));
    assert!(matches!(take_provisioning_answer(23, 202, "202 Accepted", ""), ProvisioningStep::Wait));
    assert!(matches!(
        take_provisioning_answer(2, 201, "201 Created", r#"{"id":"new"}"#),
        ProvisioningStep::Made(id) if id == "new"
    ));
    let fault = |attempt: u32, status: u16, text: &str, body: &str| {
        match take_provisioning_answer(attempt, status, text, body) {
            ProvisioningStep::Failed(error) => error.to_string(),
            other => panic!("{other:?}"),
        }
    };
    assert_eq!(
        fault(24, 202, "202 Accepted", ""),
        "MetaApi provisioning did not complete after repeated attempts"
    );
    assert_eq!(
        fault(1, 200, "200 OK", "{}"),
        "MetaApi provisioning response did not include account id"
    );
    assert_eq!(fault(1, 200, "200 OK", "?"), "invalid MetaApi provisioning response");
    assert_eq!(
        fault(1, 400, "400 Bad Request", "why"),
        "MetaApi provisioning failed with 400 Bad Request: why"
    );
    assert!(matches!(
        read_made(Err("x".into())),
        ProvisioningStep::Failed(MetaApiError::InvalidProvisioning)
    ));
    assert!(matches!(
        read_made(read_json(r#"{"id":5}"#)),
        ProvisioningStep::Failed(MetaApiError::AccountIdOmitted)
    ));
}

#[test]
fn answers_with_positions() {
    assert!(check_positions_answer(200, "200 OK", "[]").is_ok());
    assert!(check_positions_answer(299, "299", "").is_ok());
    for (status, text) in [(199, "199"), (300, "300 Multiple Choices"), (503, "503 Service Unavailable")] {
        let error = check_positions_answer(status, text, "why").expect_err("an error");
        assert!(matches!(error, MetaApiError::PositionsRefused { .. }));
        assert_eq!(error.to_string(), format!("MetaApi positions returned {text}: why"));
    }
}

#[test]
fn a_command_has_a_short_name() {
    assert_eq!(metaapi_client_id("0123456789abcdef-0123456789abcdef"), "CR_0123456789_abcdef0123");
    assert_eq!(metaapi_client_id("ab-c"), "CR_abc_0");
    assert_eq!(metaapi_client_id("0123456789"), "CR_0123456789_0");
    assert_eq!(metaapi_client_id("é-_"), "CR__0");
}

#[test]
fn trades_are_asked_for() {
    let body = |command: &ExecutionCommand| trade_request(command, 77).map(|body| show(&body));
    assert_eq!(
        body(&command(TradeAction::Open)).as_deref(),
        Some(
            r#"{"actionType":"ORDER_TYPE_BUY","symbol":"EURUSD","volume":0.25,"magic":77,"clientId":"CR_0123456789_abcdef0123","stopLoss":1.1}"#
        )
    );
    assert_eq!(
        body(&command(TradeAction::Modify)).as_deref(),
        Some(r#"{"actionType":"POSITION_MODIFY","positionId":"55","magic":77,"stopLoss":1.1}"#)
    );
    assert_eq!(
        body(&command(TradeAction::Reduce)).as_deref(),
        Some(
            r#"{"actionType":"POSITION_PARTIAL","positionId":"55","volume":0.25,"magic":77,"clientId":"CR_0123456789_abcdef0123"}"#
        )
    );
    assert_eq!(
        body(&command(TradeAction::Close)).as_deref(),
        Some(
            r#"{"actionType":"POSITION_CLOSE_ID","positionId":"55","magic":77,"clientId":"CR_0123456789_abcdef0123"}"#
        )
    );
    let mut unnamed = command(TradeAction::Close);
    unnamed.target_order_id = None;
    assert!(body(&unnamed).expect("a body").contains(r#""positionId":null"#));
    let mut sell = command(TradeAction::Open);
    sell.side = Some(Side::Sell);
    assert!(body(&sell).expect("a body").contains("ORDER_TYPE_SELL"));
}

#[test]
fn an_opening_without_a_side_is_rejected() {
    let mut bad = command(TradeAction::Open);
    bad.side = None;
    assert!(trade_request(&bad, 77).is_none());
    let ack = execute(&bad, 77, 9).expect_err("an acknowledgement");
    assert_eq!(ack.status, AckStatus::Rejected);
    assert_eq!(ack.message.as_deref(), Some("open command omitted side"));
    assert_eq!(ack.timestamp_unix_ns, 9);
    assert_eq!(ack, rejected(&bad, "open command omitted side", 9));
    assert!(execute(&command(TradeAction::Open), 77, 9).is_ok());
}

#[test]
fn what_is_not_certain_is_unknown() {
    let command = command(TradeAction::Open);
    let ack = take_reply(&command, TradeReply::Unanswered("timeout".into()), 9);
    assert_eq!(ack.status, AckStatus::Unknown);
    assert_eq!(ack.message.as_deref(), Some("MetaApi transport uncertainty: timeout"));
    let answer = |status: u16, text: &str, body: &str| {
        take_reply(
            &command,
            TradeReply::Answered { status, status_text: text.into(), body: body.into() },
            9,
        )
    };
    let ack = answer(502, "502 Bad Gateway", "oops");
    assert_eq!(ack.status, AckStatus::Unknown);
    assert_eq!(ack.message.as_deref(), Some("MetaApi HTTP 502 Bad Gateway: oops"));
    let ack = answer(404, "404 Not Found", "");
    assert_eq!(ack.status, AckStatus::Rejected);
    assert_eq!(ack.message.as_deref(), Some("MetaApi HTTP 404 Not Found: "));
    let ack = answer(200, "200 OK", "?");
    assert_eq!(ack.status, AckStatus::Unknown);
    let theirs = serde_json::from_str::<serde_json::Value>("?").expect_err("an error");
    assert_eq!(ack.message, Some(format!("invalid MetaApi trade response: {theirs}")));
    assert_eq!(ack.external_id, None);
}

#[test]
fn codes_of_an_answer() {
    let command = command(TradeAction::Close);
    for (code, status) in [
        ("TRADE_RETCODE_DONE", AckStatus::Filled),
        ("ERR_NO_ERROR", AckStatus::Filled),
        ("TRADE_RETCODE_NO_CHANGES", AckStatus::Filled),
        ("TRADE_RETCODE_PLACED", AckStatus::Unknown),
        ("TRADE_RETCODE_DONE_PARTIAL", AckStatus::Unknown),
        ("TRADE_RETCODE_DISCONNECTED_DURING_TRADE", AckStatus::Unknown),
        ("TRADE_RETCODE_TIMEOUT", AckStatus::Unknown),
        ("ERR_TRADE_TIMED_OUT", AckStatus::Unknown),
        ("ERR_NO_RESULT", AckStatus::Unknown),
        ("TRADE_RETCODE_UNKNOWN", AckStatus::Unknown),
        ("TRADE_RETCODE_REJECT", AckStatus::Rejected),
    ] {
        let body = format!(r#"{{"stringCode":"{code}"}}"#);
        let reply = TradeReply::Answered { status: 200, status_text: "200 OK".into(), body };
        let ack = take_reply(&command, reply, 9);
        assert_eq!(ack.status, status, "{code}");
        assert_eq!(ack.message.as_deref(), Some(code));
        assert_eq!(ack.external_id.as_deref(), Some("55"));
        assert_eq!(ack.command_id, command.command_id);
        assert_eq!(ack.account_id, "acc");
    }
    let ack = read_answer(&command, read_json("{}"), 9);
    assert_eq!((ack.status, ack.message), (AckStatus::Rejected, None));
}

#[test]
fn an_answer_names_what_it_made() {
    let command = command(TradeAction::Open);
    let named = |body: &str| read_answer(&command, read_json(body), 9).external_id;
    assert_eq!(named(r#"{"positionId":"9","orderId":"8"}"#).as_deref(), Some("9"));
    assert_eq!(named(r#"{"orderId":8}"#).as_deref(), Some("8"));
    assert_eq!(named(r#"{"positionId":null,"orderId":"8"}"#), None);
    assert_eq!(named("{}"), None);
    let told = read_answer(&command, read_json(r#"{"message":"hi","stringCode":"X"}"#), 9);
    assert_eq!(told.message.as_deref(), Some("hi"));
}

#[test]
fn a_position_gives_an_event() {
    let mut made = position("5", 0.5);
    made.client_id = Some("CR_abc_0".into());
    let event =
        to_event(&account(), &made, TradeAction::Open, double(0.5), Some(double(0.5)), 42).expect("an event");
    assert_eq!(event.event_id, "metaapi:acc:5:open:42");
    assert_eq!(event.source_account_id, "acc");
    assert_eq!(event.platform, Platform::Mt5);
    assert_eq!(event.side, Some(Side::Sell));
    assert_eq!(event.price, Some(double(1.2)));
    assert_eq!(event.timestamp_unix_ns, 42);
    assert_eq!(event.origin_command_id.as_deref(), Some("CR_abc_0"));
    made.client_id = Some("mine".into());
    made.position_type = "POSITION_TYPE_BUY".into();
    let event =
        to_event(&account(), &made, TradeAction::Close, double(0.5), Some(double(0.0)), 42).expect("an event");
    assert_eq!(event.origin_command_id, None);
    assert_eq!(event.side, Some(Side::Buy));
    made.position_type = "OTHER".into();
    let error = to_event(&account(), &made, TradeAction::Open, double(0.5), None, 42).expect_err("an error");
    assert!(matches!(error, MetaApiError::UnknownPositionType(_)));
    assert_eq!(error.to_string(), "unknown MetaApi position type OTHER");
    let error = to_event(&account(), &position("5", 0.0), TradeAction::Open, double(0.0), None, 42)
        .expect_err("an error");
    assert!(matches!(error, MetaApiError::Model(_)));
    assert_eq!(error.to_string(), "invalid volume: 0");
}

#[test]
fn differences_of_positions_give_events() {
    let mut protected = position("same-size", 1.0);
    protected.stop_loss = Some(double(1.3));
    let known = table(vec![
        position("kept", 1.0),
        position("smaller", 1.0),
        position("larger", 1.0),
        position("same-size", 1.0),
        position("gone", 0.75),
    ]);
    let current = table(vec![
        position("kept", 1.0),
        position("smaller", 0.25),
        position("larger", 2.0),
        protected,
        position("new", 0.5),
    ]);
    let diffs = emit_position_diffs(&account(), &known, &current, 9);
    assert!(diffs.fault.is_none());
    let mut told: Vec<(String, TradeAction, Double, Option<Double>)> = Vec::new();
    for event in &diffs.events {
        told.push((event.source_order_id.clone(), event.action, event.volume, event.remaining_volume));
    }
    told.sort_by(|left, right| left.0.cmp(&right.0));
    assert_eq!(
        told,
        vec![
            ("gone".to_string(), TradeAction::Close, double(0.75), Some(double(0.0))),
            ("new".to_string(), TradeAction::Open, double(0.5), Some(double(0.5))),
            ("same-size".to_string(), TradeAction::Modify, double(1.0), Some(double(1.0))),
            ("smaller".to_string(), TradeAction::Reduce, double(0.75), Some(double(0.25))),
        ]
    );
    assert_eq!(diffs.events.last().map(|event| event.action), Some(TradeAction::Close));
}

#[test]
fn unchanged_positions_give_no_event() {
    let known = table(vec![position("a", 1.0), position("b", 0.3)]);
    let current = table(vec![position("b", 0.3), position("a", 1.0)]);
    let diffs = emit_position_diffs(&account(), &known, &current, 9);
    assert!(diffs.events.is_empty() && diffs.fault.is_none());
}

#[test]
fn a_fault_ends_the_events() {
    let mut odd = position("a", 1.0);
    odd.position_type = "OTHER".into();
    let diffs = emit_position_diffs(&account(), &table(vec![position("b", 1.0)]), &table(vec![odd]), 9);
    assert!(diffs.events.is_empty());
    assert!(matches!(diffs.fault, Some(MetaApiError::UnknownPositionType(_))));
}

#[test]
fn the_first_look_is_what_is_known() {
    assert_eq!(take_first_look(None).len(), 0);
    let known = take_first_look(Some(vec![position("a", 1.0), position("b", 1.0), position("a", 2.0)]));
    assert_eq!(known.len(), 2);
    assert_eq!(known.get("a").map(|position| position.volume), Some(double(2.0)));
}

#[test]
fn a_look_that_failed_keeps_what_is_known() {
    let (known, diffs) = take_poll(&account(), table(vec![position("a", 1.0)]), None, 9);
    assert_eq!(known.len(), 1);
    assert!(known.contains("a"));
    assert!(diffs.events.is_empty() && diffs.fault.is_none());
}

#[test]
fn each_look_is_told_from_the_one_before() {
    let (known, diffs) = take_poll(&account(), take_first_look(None), Some(vec![position("a", 1.0)]), 9);
    assert_eq!(diffs.events.len(), 1);
    assert_eq!(diffs.events[0].action, TradeAction::Open);
    let (known, diffs) = take_poll(&account(), known, Some(vec![position("a", 1.0)]), 10);
    assert!(diffs.events.is_empty() && diffs.fault.is_none());
    let (known, diffs) = take_poll(&account(), known, Some(vec![position("a", 0.5)]), 11);
    assert_eq!(diffs.events[0].action, TradeAction::Reduce);
    assert_eq!(diffs.events[0].volume, double(0.5));
    let (known, diffs) = take_poll(&account(), known, Some(Vec::new()), 12);
    assert_eq!(known.len(), 0);
    assert_eq!(diffs.events[0].action, TradeAction::Close);
    let mut odd = position("a", 1.0);
    odd.position_type = "OTHER".into();
    let (_, diffs) = take_poll(&account(), known, Some(vec![odd]), 13);
    assert!(diffs.events.is_empty());
    assert!(matches!(diffs.fault, Some(MetaApiError::UnknownPositionType(_))));
}
