use copierr::double::Double;
use copierr::json::{read_json, Json};
use copierr::model::{AckStatus, ExecutionAck, ExecutionCommand, Platform, Side, TradeAction, TradeEvent};
use copierr::venues::ctrader::{
    classify_reply, command_message, execution_external_id, heartbeat, parse_light_symbols, parse_position,
    parse_reconcile_positions, parse_symbol_details, parse_target_position, request_frame, unknown_ack,
    update_position_from_execution, AccountRuntime, CTraderError, Hub, HubAccount, HubAction, HubResult, Reply,
    Stage, Startup, Symbols, ACCOUNT_AUTH_REQ, ACCOUNT_AUTH_RES, AMEND_POSITION_SLTP_REQ, APPLICATION_AUTH_REQ,
    APPLICATION_AUTH_RES, CLOSE_POSITION_REQ, ERROR_RES, EXECUTION_EVENT, HEARTBEAT_EVENT, NEW_ORDER_REQ,
    ORDER_ERROR_EVENT, RECONCILE_REQ, RECONCILE_RES, SYMBOLS_LIST_REQ, SYMBOLS_LIST_RES, SYMBOL_BY_ID_REQ,
    SYMBOL_BY_ID_RES,
};
use copierr::venues::{changed_price, least_volume};

fn double(x: f64) -> Double {
    Double { bits: x.to_bits() }
}

fn json(text: &str) -> Json {
    read_json(text).expect("a value")
}

fn show(json: &Json) -> String {
    match json {
        Json::Null => "null".to_string(),
        Json::Bool(flag) => flag.to_string(),
        Json::Unsigned(number) => number.to_string(),
        Json::Signed(number) => number.to_string(),
        Json::Decimal(number) => number.clone(),
        Json::Text(text) => format!("{text:?}"),
        Json::List(items) => {
            let shown: Vec<String> = items.iter().map(show).collect();
            format!("[{}]", shown.join(","))
        }
        Json::Object(members) => {
            let shown: Vec<String> =
                members.iter().map(|(name, member)| format!("{name:?}:{}", show(member))).collect();
            format!("{{{}}}", shown.join(","))
        }
    }
}

fn light() -> Vec<(i64, String)> {
    parse_light_symbols(&json(
        r#"{"payload":{"symbol":[{"symbolId":1,"symbolName":"EURUSD"},{"symbolId":"2","symbolName":"XAUUSD"},
            {"symbolId":3,"symbolName":""},{"symbolId":4}]}}"#,
    ))
    .expect("symbols")
}

fn symbols() -> Symbols {
    let value = json(
        r#"{"payload":{"symbol":[{"symbolId":1,"lotSize":10000000},{"symbolId":2,"lotSize":"10000"},
            {"symbolId":9,"lotSize":5}]}}"#,
    );
    parse_symbol_details(&light(), &value).expect("details")
}

fn account(id: &str, ctid: i64) -> AccountRuntime {
    AccountRuntime {
        account_id: id.into(),
        ctid,
        platform: Platform::CTrader,
        publishes: true,
        session_id: 0,
        symbols: symbols(),
        positions: parse_reconcile_positions(&json("{}"), &symbols()).expect("positions"),
    }
}

fn hub() -> Hub {
    let mut hub = Hub::new();
    hub.connect(account("acc", 7), 11);
    hub
}

fn command(action: TradeAction) -> ExecutionCommand {
    ExecutionCommand {
        command_id: "cmd".into(),
        origin_event_id: "e".into(),
        route_id: "r".into(),
        source_account_id: "m".into(),
        source_order_id: "1".into(),
        target_account_id: "acc".into(),
        action,
        target_order_id: if action == TradeAction::Open { None } else { Some("55".into()) },
        symbol: "EURUSD".into(),
        side: Some(Side::Sell),
        volume: double(0.015),
        source_volume: double(1.0),
        source_remaining_volume: None,
        price: None,
        stop_loss: None,
        take_profit: None,
        created_unix_ns: 1,
    }
}

fn protected(action: TradeAction) -> ExecutionCommand {
    let mut command = command(action);
    command.stop_loss = Some(double(1.1));
    command.take_profit = Some(double(1.25));
    command
}

fn position(id: i64, volume: i64, more: &str) -> String {
    format!(
        r#"{{"positionId":{id},"tradeData":{{"symbolId":1,"volume":{volume},"tradeSide":"BUY"}}{more}}}"#
    )
}

fn report(ctid: i64, id: &str, kind: &str, more: &str) -> Json {
    json(&format!(
        r#"{{"payloadType":2126,"clientMsgId":"{id}","payload":{{"ctidTraderAccountId":{ctid},
            "executionType":{kind}{more}}}}}"#
    ))
}

fn only_ack(result: &HubResult) -> &ExecutionAck {
    assert!(result.fault.is_none());
    assert_eq!(result.actions.len(), 1);
    match &result.actions[0] {
        HubAction::Ack(ack) => ack,
        other => panic!("{other:?}"),
    }
}

fn only_event(result: &HubResult) -> &TradeEvent {
    assert!(result.fault.is_none());
    assert_eq!(result.actions.len(), 1);
    match &result.actions[0] {
        HubAction::Event { event, .. } => event,
        other => panic!("{other:?}"),
    }
}

fn sent(result: &HubResult) -> (i64, String, String) {
    assert!(result.fault.is_none());
    assert_eq!(result.actions.len(), 1);
    match &result.actions[0] {
        HubAction::Send { payload_type, client_msg_id, payload } => {
            (*payload_type, client_msg_id.clone(), show(payload))
        }
        other => panic!("{other:?}"),
    }
}

#[test]
fn symbols_are_read() {
    assert_eq!(light(), vec![(1, "EURUSD".to_string()), (2, "XAUUSD".to_string())]);
    let symbols = symbols();
    assert_eq!(symbols.by_name.len(), 2);
    assert_eq!(symbols.by_name.get("XAUUSD").map(|info| info.lot_size_cents), Some(double(10_000.0)));
    assert_eq!(symbols.numbered(1).map(|info| info.name.as_str()), Some("EURUSD"));
    assert!(symbols.numbered(9).is_none());
    let plain = parse_symbol_details(&light(), &json(r#"{"payload":{"symbol":[{"symbolId":1}]}}"#)).expect("details");
    assert_eq!(plain.numbered(1).map(|info| info.lot_size_cents), Some(double(10_000_000.0)));
}

#[test]
fn faults_of_symbols() {
    let error = parse_light_symbols(&json("{}")).expect_err("an error");
    assert!(matches!(error, CTraderError::SymbolsOmitted));
    assert_eq!(error.to_string(), "cTrader symbols response omitted symbols");
    let error = parse_light_symbols(&json(r#"{"payload":{"symbol":[{}]}}"#)).expect_err("an error");
    assert!(matches!(error, CTraderError::SymbolIdOmitted));
    assert_eq!(error.to_string(), "cTrader symbol omitted id");
    let error = parse_symbol_details(&light(), &json("{}")).err().expect("an error");
    assert!(matches!(error, CTraderError::DetailsOmitted));
    assert_eq!(error.to_string(), "cTrader symbol details response omitted symbols");
    let error = parse_symbol_details(&light(), &json(r#"{"payload":{"symbol":[{}]}}"#)).err().expect("an error");
    assert!(matches!(error, CTraderError::FullSymbolIdOmitted));
    assert_eq!(error.to_string(), "cTrader full symbol omitted id");
}

#[test]
fn a_position_is_read() {
    let value = json(
        r#"{"positionId":55,"price":1.2,"stopLoss":"1.1","tradeData":{"symbolId":1,"volume":"15000000",
            "tradeSide":2,"label":"CopierR:abc"}}"#,
    );
    let position = parse_position(&value, &symbols()).expect("a position");
    assert_eq!(position.id, "55");
    assert_eq!(position.symbol, "EURUSD");
    assert_eq!(position.side, Side::Sell);
    assert_eq!(position.volume_lots, double(1.5));
    assert_eq!(position.price, Some(double(1.2)));
    assert_eq!(position.stop_loss, Some(double(1.1)));
    assert_eq!(position.take_profit, None);
    assert_eq!(position.origin_command_id.as_deref(), Some("abc"));
    let other = parse_position(&json(&self::position(1, 1, "")), &symbols()).expect("a position");
    assert_eq!(other.origin_command_id, None);
    assert_eq!(other.side, Side::Buy);
}

#[test]
fn faults_of_positions() {
    for (text, words) in [
        ("{}", "cTrader position omitted id"),
        (r#"{"positionId":1}"#, "cTrader position omitted tradeData"),
        (r#"{"positionId":1,"tradeData":{}}"#, "cTrader position omitted symbol id"),
        (r#"{"positionId":1,"tradeData":{"symbolId":8}}"#, "unknown cTrader symbol id 8"),
        (r#"{"positionId":1,"tradeData":{"symbolId":1,"tradeSide":5}}"#, "unknown cTrader trade side 5"),
        (r#"{"positionId":1,"tradeData":{"symbolId":1}}"#, "unknown cTrader trade side 0"),
    ] {
        assert_eq!(parse_position(&json(text), &symbols()).expect_err("an error").to_string(), words);
        let list = json(&format!(r#"{{"payload":{{"position":[{text}]}}}}"#));
        assert_eq!(parse_reconcile_positions(&list, &symbols()).err().expect("an error").to_string(), words);
    }
}

#[test]
fn positions_are_known_by_name() {
    let list = json(&format!(
        r#"{{"payload":{{"position":[{},{},{}]}}}}"#,
        position(5, 10_000_000, ""),
        position(6, 20_000_000, ""),
        position(5, 30_000_000, "")
    ));
    let positions = parse_reconcile_positions(&list, &symbols()).expect("positions");
    assert_eq!(positions.len(), 2);
    assert_eq!(positions.get("5").map(|position| position.volume_lots), Some(double(3.0)));
}

#[test]
fn an_order_is_asked_for() {
    let (kind, payload) = command_message(&account("acc", 7), &command(TradeAction::Open)).expect("a message");
    assert_eq!(kind, NEW_ORDER_REQ);
    assert_eq!(
        show(&payload),
        r#"{"ctidTraderAccountId":7,"symbolId":1,"orderType":1,"tradeSide":2,"volume":150000,"clientOrderId":"cmd","label":"CopierR:cmd"}"#
    );
}

#[test]
fn a_change_is_asked_for() {
    let (kind, payload) = command_message(&account("acc", 7), &protected(TradeAction::Modify)).expect("a message");
    assert_eq!(kind, AMEND_POSITION_SLTP_REQ);
    assert_eq!(
        show(&payload),
        r#"{"ctidTraderAccountId":7,"positionId":55,"stopLoss":1.1,"takeProfit":1.25}"#
    );
    let (kind, payload) = command_message(&account("acc", 7), &command(TradeAction::Reduce)).expect("a message");
    assert_eq!(kind, CLOSE_POSITION_REQ);
    assert_eq!(show(&payload), r#"{"ctidTraderAccountId":7,"positionId":55,"volume":150000}"#);
}

#[test]
fn a_close_takes_what_is_there() {
    let mut account = account("acc", 7);
    let (_, payload) = command_message(&account, &command(TradeAction::Close)).expect("a message");
    assert_eq!(show(&payload), r#"{"ctidTraderAccountId":7,"positionId":55,"volume":150000}"#);
    let held = parse_position(&json(&position(55, 40_000_000, "")), &symbols()).expect("a position");
    account.positions.insert("55".into(), held);
    let (_, payload) = command_message(&account, &command(TradeAction::Close)).expect("a message");
    assert_eq!(show(&payload), r#"{"ctidTraderAccountId":7,"positionId":55,"volume":40000000}"#);
}

#[test]
fn commands_that_cannot_be_asked_for() {
    let fault = |command: &ExecutionCommand| {
        command_message(&account("acc", 7), command).err().expect("an error").to_string()
    };
    let mut bad = command(TradeAction::Open);
    bad.symbol = "ABC".into();
    assert_eq!(fault(&bad), "cTrader symbol ABC not found");
    let mut bad = command(TradeAction::Open);
    bad.side = None;
    assert_eq!(fault(&bad), "cTrader open command omitted side");
    let mut bad = command(TradeAction::Open);
    bad.volume = double(1e-9);
    assert_eq!(fault(&bad), "cTrader normalized volume is zero");
    let mut bad = command(TradeAction::Close);
    bad.target_order_id = None;
    assert_eq!(fault(&bad), "cTrader command requires target position id");
    assert!(matches!(parse_target_position(&bad), Err(CTraderError::TargetRequired)));
    let mut bad = command(TradeAction::Modify);
    bad.target_order_id = Some("x".into());
    assert_eq!(fault(&bad), "invalid cTrader target position id");
    assert!(matches!(parse_target_position(&command(TradeAction::Close)), Ok(55)));
}

#[test]
fn a_command_is_sent_and_waits() {
    let mut hub = hub();
    let result = hub.handle_command(command(TradeAction::Open), 9);
    assert_eq!(sent(&result).0, NEW_ORDER_REQ);
    assert_eq!(sent(&result).1, "cmd");
    assert!(hub.pending.contains("cmd"));

    let mut bad = command(TradeAction::Open);
    bad.command_id = "bad".into();
    bad.symbol = "ABC".into();
    let result = hub.handle_command(bad, 9);
    let ack = only_ack(&result);
    assert_eq!(ack.status, AckStatus::Rejected);
    assert_eq!(ack.timestamp_unix_ns, 9);
    assert_eq!(ack.message.as_deref(), Some("cTrader symbol ABC not found"));
    assert!(!hub.pending.contains("bad"));

    let mut elsewhere = command(TradeAction::Open);
    elsewhere.target_account_id = "other".into();
    let result = hub.handle_command(elsewhere, 9);
    assert!(result.actions.is_empty() && result.fault.is_none());
}

#[test]
fn reports_that_are_not_final_change_nothing() {
    let mut hub = hub();
    hub.handle_command(command(TradeAction::Open), 9);
    for kind in ["2", "11", "\"ORDER_ACCEPTED\"", "\"ORDER_PARTIAL_FILL\""] {
        let result = hub.handle_message(&report(7, "cmd", kind, ""), 10);
        assert!(result.actions.is_empty() && result.fault.is_none());
        assert!(hub.pending.contains("cmd"));
    }
}

#[test]
fn final_reports_are_acknowledged() {
    for (kind, status) in [
        ("3", AckStatus::Filled),
        ("\"ORDER_REPLACED\"", AckStatus::Filled),
        ("5", AckStatus::Rejected),
        ("\"ORDER_EXPIRED\"", AckStatus::Rejected),
        ("7", AckStatus::Rejected),
        ("8", AckStatus::Rejected),
        ("9", AckStatus::Unknown),
        ("null", AckStatus::Unknown),
    ] {
        let mut hub = hub();
        hub.handle_command(command(TradeAction::Open), 9);
        let more = r#","order":{"orderId":321},"errorCode":"WHY""#;
        let result = hub.handle_message(&report(7, "cmd", kind, more), 10);
        let ack = only_ack(&result);
        assert_eq!(ack.status, status);
        assert_eq!(ack.command_id, "cmd");
        assert_eq!(ack.account_id, "acc");
        assert_eq!(ack.external_id.as_deref(), Some("321"));
        assert_eq!(ack.message.as_deref(), Some("WHY"));
        assert_eq!(ack.timestamp_unix_ns, 10);
        assert!(!hub.pending.contains("cmd"));
    }
}

#[test]
fn a_filled_order_is_protected_before_it_is_acknowledged() {
    let mut hub = hub();
    hub.handle_command(protected(TradeAction::Open), 9);
    let result = hub.handle_message(&report(7, "cmd", "3", r#","order":{"orderId":321}"#), 10);
    assert_eq!(
        sent(&result),
        (
            AMEND_POSITION_SLTP_REQ,
            "p:cmd".to_string(),
            r#"{"ctidTraderAccountId":7,"positionId":321,"stopLoss":1.1,"takeProfit":1.25}"#.to_string()
        )
    );
    assert!(!hub.pending.contains("cmd"));
    assert!(hub.protections.contains("p:cmd"));
    let result = hub.handle_message(&report(7, "p:cmd", "4", ""), 11);
    let ack = only_ack(&result);
    assert_eq!(ack.command_id, "cmd");
    assert_eq!(ack.status, AckStatus::Filled);
    assert_eq!(ack.external_id.as_deref(), Some("321"));
    assert_eq!(ack.message.as_deref(), Some("cTrader position protection finalized"));
    assert!(!hub.protections.contains("p:cmd"));
}

#[test]
fn a_fill_without_a_name_is_unknown() {
    let mut hub = hub();
    hub.handle_command(protected(TradeAction::Open), 9);
    let result = hub.handle_message(&report(7, "cmd", "3", ""), 10);
    let ack = only_ack(&result);
    assert_eq!(ack.status, AckStatus::Unknown);
    assert_eq!(ack.message.as_deref(), Some("cTrader fill omitted position id"));
}

#[test]
fn a_protection_that_cannot_be_asked_for_is_a_fault() {
    let mut hub = hub();
    hub.handle_command(protected(TradeAction::Open), 9);
    let result = hub.handle_message(&report(7, "cmd", "3", r#","order":{"orderId":"x"}"#), 10);
    assert!(matches!(&result.fault, Some(CTraderError::InvalidPositionId)));
    assert_eq!(result.fault.map(|fault| fault.to_string()).as_deref(), Some("invalid cTrader position id"));

    let mut other = self::hub();
    let mut foreign = protected(TradeAction::Open);
    foreign.target_account_id = "gone".into();
    other.pending.insert("cmd".into(), foreign);
    let result = other.handle_message(&report(7, "cmd", "3", r#","order":{"orderId":5}"#), 10);
    assert!(matches!(&result.fault, Some(CTraderError::NoRuntime)));
    assert_eq!(
        result.fault.map(|fault| fault.to_string()).as_deref(),
        Some("missing cTrader runtime for protection")
    );
}

#[test]
fn refused_requests_are_acknowledged() {
    for kind in [ORDER_ERROR_EVENT, ERROR_RES] {
        for (payload, words) in [
            (r#"{"description":"no money","errorCode":"E"}"#, "no money"),
            (r#"{"errorCode":"E"}"#, "E"),
            (r#"{"description":5,"errorCode":"E"}"#, "cTrader rejected request"),
            ("{}", "cTrader rejected request"),
        ] {
            let mut hub = hub();
            hub.handle_command(command(TradeAction::Open), 9);
            let message =
                json(&format!(r#"{{"payloadType":{kind},"clientMsgId":"cmd","payload":{payload}}}"#));
            let result = hub.handle_message(&message, 10);
            let ack = only_ack(&result);
            assert_eq!(ack.status, AckStatus::Rejected);
            assert_eq!(ack.message.as_deref(), Some(words));
            assert!(hub.handle_message(&message, 10).actions.is_empty());
        }
    }
}

#[test]
fn a_fill_whose_protection_is_refused_is_unknown() {
    let mut hub = hub();
    hub.handle_command(protected(TradeAction::Open), 9);
    hub.handle_message(&report(7, "cmd", "3", r#","order":{"orderId":321}"#), 10);
    let message = json(r#"{"payloadType":2142,"clientMsgId":"p:cmd","payload":{"description":"x"}}"#);
    let result = hub.handle_message(&message, 11);
    let ack = only_ack(&result);
    assert_eq!(ack.status, AckStatus::Unknown);
    assert_eq!(ack.external_id.as_deref(), Some("321"));
    assert_eq!(ack.message.as_deref(), Some("cTrader order filled but SL/TP protection request failed"));
    assert!(!hub.protections.contains("p:cmd"));
}

#[test]
fn a_report_must_name_its_account() {
    let mut hub = hub();
    let result = hub.handle_message(&json(r#"{"payloadType":2126}"#), 10);
    assert!(matches!(&result.fault, Some(CTraderError::AccountOmitted)));
    assert_eq!(
        result.fault.map(|fault| fault.to_string()).as_deref(),
        Some("cTrader execution event omitted account id")
    );
    assert_eq!(EXECUTION_EVENT, 2126);
    let result = hub.handle_message(&json(r#"{"payloadType":51}"#), 10);
    assert!(result.actions.is_empty() && result.fault.is_none());
}

fn moved(volume: i64, more: &str) -> Json {
    report(7, "", "2", &format!(r#","position":{}"#, position(5, volume, more)))
}

#[test]
fn positions_give_events() {
    let mut hub = hub();
    let result = hub.handle_message(&moved(20_000_000, ""), 100);
    let event = only_event(&result);
    assert_eq!(event.event_id, "ctrader:acc:5:open:100");
    assert_eq!(event.source_account_id, "acc");
    assert_eq!(event.platform, Platform::CTrader);
    assert_eq!(event.action, TradeAction::Open);
    assert_eq!(event.source_order_id, "5");
    assert_eq!(event.symbol, "EURUSD");
    assert_eq!(event.side, Some(Side::Buy));
    assert_eq!(event.volume, double(2.0));
    assert_eq!(event.remaining_volume, Some(double(2.0)));
    assert_eq!(event.timestamp_unix_ns, 100);

    let result = hub.handle_message(&moved(20_000_000, ""), 101);
    assert!(result.actions.is_empty());

    let result = hub.handle_message(&moved(5_000_000, ""), 102);
    let event = only_event(&result);
    assert_eq!(event.action, TradeAction::Reduce);
    assert_eq!(event.volume, double(1.5));
    assert_eq!(event.remaining_volume, Some(double(0.5)));

    let result = hub.handle_message(&moved(9_000_000, ""), 103);
    assert!(result.actions.is_empty());

    let result = hub.handle_message(&moved(9_000_000, r#","stopLoss":1.05"#), 104);
    let event = only_event(&result);
    assert_eq!(event.action, TradeAction::Modify);
    assert_eq!(event.volume, double(0.9));
    assert_eq!(event.stop_loss, Some(double(1.05)));

    let result = hub.handle_message(&moved(0, r#","positionStatus":"POSITION_STATUS_CLOSED""#), 105);
    let event = only_event(&result);
    assert_eq!(event.action, TradeAction::Close);
    assert_eq!(event.event_id, "ctrader:acc:5:close:105");
    assert_eq!(event.volume, double(0.9));
    assert_eq!(event.remaining_volume, Some(double(0.0)));
    let result = hub.handle_message(&moved(0, r#","positionStatus":2"#), 106);
    assert!(result.actions.is_empty());
}

#[test]
fn positions_of_a_follower_give_no_events() {
    let mut hub = Hub::new();
    let mut follower = account("acc", 7);
    follower.publishes = false;
    hub.connect(follower, 1);
    for message in [moved(20_000_000, ""), moved(5_000_000, ""), moved(0, r#","positionStatus":2"#)] {
        assert!(hub.handle_message(&message, 1).actions.is_empty());
    }
    assert_eq!(hub.accounts[0].positions.len(), 0);
}

#[test]
fn an_event_that_is_not_valid_is_a_fault() {
    let mut runtime = account("acc", 7);
    let payload = json(&format!(r#"{{"position":{}}}"#, position(5, 0, "")));
    let fault = update_position_from_execution(&mut runtime, &payload, 1).expect_err("a fault");
    assert!(matches!(fault, CTraderError::Model(_)));
    assert_eq!(fault.to_string(), "invalid volume: 0");
    let payload = json(r#"{"position":{}}"#);
    let fault = update_position_from_execution(&mut runtime, &payload, 1).expect_err("a fault");
    assert!(matches!(fault, CTraderError::PositionIdOmitted));
    assert!(matches!(update_position_from_execution(&mut runtime, &json("{}"), 1), Ok(None)));
}

#[test]
fn an_acknowledgement_and_an_event_come_in_turn() {
    let mut hub = hub();
    hub.handle_command(command(TradeAction::Open), 9);
    let more = format!(r#","position":{}"#, position(77, 10_000_000, ""));
    let result = hub.handle_message(&report(7, "cmd", "3", &more), 10);
    assert_eq!(result.actions.len(), 2);
    assert!(matches!(&result.actions[0], HubAction::Ack(ack) if ack.external_id.as_deref() == Some("77")));
    assert!(matches!(&result.actions[1], HubAction::Event { account_id, .. } if account_id == "acc"));
}

#[test]
fn names_of_orders_and_positions() {
    let id = |text: &str| execution_external_id(&json(text));
    assert_eq!(id(r#"{"position":{"positionId":1},"order":{"orderId":2}}"#).as_deref(), Some("1"));
    assert_eq!(id(r#"{"position":{},"order":{"orderId":"2"}}"#).as_deref(), Some("2"));
    assert_eq!(id("{}"), None);
    let ack = unknown_ack(&command(TradeAction::Open), "why", 3);
    assert_eq!(ack.status, AckStatus::Unknown);
    assert_eq!(ack.message.as_deref(), Some("why"));
    assert_eq!(ack.external_id, None);
}

#[test]
fn accounts_are_connected_stage_by_stage() {
    let accounts = vec![
        HubAccount {
            account_id: "acc".into(),
            platform: Platform::CTrader,
            publishes: true,
            ctid: 7,
            access_token: "tok".into(),
        },
        HubAccount {
            account_id: "two".into(),
            platform: Platform::CTrader,
            publishes: false,
            ctid: 8,
            access_token: "tok2".into(),
        },
    ];
    let mut startup = Startup::new("id".into(), "secret".into(), accounts);
    let mut hub = Hub::new();
    let stages = [
        (APPLICATION_AUTH_REQ, "app-auth", r#"{"clientId":"id","clientSecret":"secret"}"#, APPLICATION_AUTH_RES, ""),
        (ACCOUNT_AUTH_REQ, "auth:7", r#"{"ctidTraderAccountId":7,"accessToken":"tok"}"#, ACCOUNT_AUTH_RES, ""),
        (
            SYMBOLS_LIST_REQ,
            "symbols:7",
            r#"{"ctidTraderAccountId":7,"includeArchivedSymbols":false}"#,
            SYMBOLS_LIST_RES,
            r#","symbol":[{"symbolId":1,"symbolName":"EURUSD"}]"#,
        ),
        (
            SYMBOL_BY_ID_REQ,
            "symbol-details:7",
            r#"{"ctidTraderAccountId":7,"symbolId":[1]}"#,
            SYMBOL_BY_ID_RES,
            r#","symbol":[{"symbolId":1,"lotSize":100}]"#,
        ),
        (
            RECONCILE_REQ,
            "reconcile:7",
            r#"{"ctidTraderAccountId":7,"returnProtectionOrders":false}"#,
            RECONCILE_RES,
            r#","position":[{"positionId":5,"tradeData":{"symbolId":1,"volume":50,"tradeSide":1}}]"#,
        ),
    ];
    for (kind, name, payload, reply_kind, more) in stages {
        let request = startup.request().expect("a request");
        assert_eq!((request.payload_type, request.client_msg_id.as_str()), (kind, name));
        assert_eq!(show(&request.payload), payload);
        let reply =
            json(&format!(r#"{{"payloadType":{reply_kind},"payload":{{"ctidTraderAccountId":"7"{more}}}}}"#));
        assert_eq!(startup.classify(&reply), Reply::Awaited);
        if let Some(account) = startup.accept(&reply).expect("accepted") {
            assert_eq!(kind, RECONCILE_REQ);
            hub.connect(account, 21);
        }
    }
    assert_eq!(hub.accounts.len(), 1);
    assert_eq!(hub.accounts[0].session_id, 21);
    assert_eq!(hub.accounts[0].positions.get("5").map(|position| position.volume_lots), Some(double(0.5)));
    assert_eq!(startup.stage, Stage::Account);
    assert_eq!(startup.request().expect("a request").client_msg_id, "auth:8");
}

#[test]
fn without_accounts_nothing_more_is_asked_for() {
    let mut startup = Startup::new("id".into(), "secret".into(), Vec::new());
    assert!(startup.accept(&json("{}")).expect("accepted").is_none());
    assert_eq!(startup.stage, Stage::Ready);
    assert!(startup.request().is_none());
}

#[test]
fn replies_are_told_apart() {
    let reply = |text: &str, expected: i64, account: Option<i64>| classify_reply(&json(text), expected, account);
    assert_eq!(reply(r#"{"payloadType":2142}"#, 2101, None), Reply::Failed);
    assert_eq!(reply(r#"{"payloadType":2132}"#, 2101, None), Reply::Failed);
    assert_eq!(reply(r#"{"payloadType":51}"#, 2101, None), Reply::Other);
    assert_eq!(reply("{}", 2101, None), Reply::Other);
    assert_eq!(reply(r#"{"payloadType":2101}"#, 2101, None), Reply::Awaited);
    assert_eq!(reply(r#"{"payloadType":2103,"payload":{"ctidTraderAccountId":8}}"#, 2103, Some(7)), Reply::Other);
    assert_eq!(reply(r#"{"payloadType":2103}"#, 2103, Some(7)), Reply::Other);
    assert_eq!(reply(r#"{"payloadType":2103,"payload":{"ctidTraderAccountId":7}}"#, 2103, Some(7)), Reply::Awaited);
}

#[test]
fn a_later_account_takes_the_place_of_an_earlier_one() {
    let mut hub = hub();
    hub.connect(account("new", 7), 12);
    hub.connect(account("other", 8), 13);
    assert_eq!(hub.accounts.len(), 2);
    assert_eq!(hub.accounts[0].account_id, "new");
    assert_eq!(hub.accounts[0].session_id, 12);
    assert_eq!(hub.accounts[1].session_id, 13);
}

#[test]
fn messages_are_framed() {
    let beat = heartbeat();
    assert_eq!(beat.payload_type, HEARTBEAT_EVENT);
    assert_eq!(
        show(&request_frame(beat.payload_type, &beat.client_msg_id, beat.payload)),
        r#"{"clientMsgId":"heartbeat","payloadType":51,"payload":{}}"#
    );
}

#[test]
fn prices_change_by_more_than_noise() {
    let changed = |left: Option<f64>, right: Option<f64>| changed_price(left.map(double), right.map(double));
    assert!(!changed(None, None));
    assert!(changed(None, Some(1.0)));
    assert!(changed(Some(1.0), None));
    assert!(!changed(Some(1.0), Some(1.0)));
    assert!(!changed(Some(1.0), Some(1.0 + 1e-11)));
    assert!(changed(Some(1.0), Some(1.0 + 1e-9)));
    assert_eq!(least_volume(), double(f64::EPSILON));
}
