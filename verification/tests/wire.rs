use copierr::double::Double;
use copierr::model::{
    AckStatus, ExecutionAck, ExecutionCommand, MirrorBinding, ModelError, Platform, Side, TradeAction,
    TradeEvent,
};
use copierr::protocol::{
    encode_agent_frame, encode_server_frame, field, parse_agent_line, parse_server_line, strip_line_end,
    AgentFrame, HelloFrame, ServerFrame, WireError,
};

fn double(x: f64) -> Double {
    Double { bits: x.to_bits() }
}

fn sample_event() -> TradeEvent {
    TradeEvent {
        event_id: "evt-1".into(),
        source_account_id: "master".into(),
        platform: Platform::Mt5,
        action: TradeAction::Open,
        source_order_id: "42".into(),
        symbol: "EURUSD".into(),
        side: Some(Side::Buy),
        volume: double(0.25),
        remaining_volume: Some(double(0.25)),
        price: Some(double(1.1)),
        stop_loss: Some(double(1.09)),
        take_profit: Some(double(1.12)),
        timestamp_unix_ns: 123,
        origin_command_id: None,
    }
}

fn sample_command() -> ExecutionCommand {
    ExecutionCommand {
        command_id: "c1".into(),
        origin_event_id: "evt-1".into(),
        route_id: "r1".into(),
        source_account_id: "master".into(),
        source_order_id: "42".into(),
        target_account_id: "follower".into(),
        action: TradeAction::Reduce,
        target_order_id: Some("900".into()),
        symbol: "EURUSD".into(),
        side: Some(Side::Sell),
        volume: double(0.5),
        source_volume: double(1.0),
        source_remaining_volume: Some(double(0.75)),
        price: None,
        stop_loss: Some(double(1.2)),
        take_profit: None,
        created_unix_ns: 0,
    }
}

#[test]
fn event_wire_roundtrip() {
    let event = sample_event();
    let encoded = encode_agent_frame(&AgentFrame::Event(event.clone()));
    let decoded = parse_agent_line(&encoded).expect("wire frame parses");
    assert_eq!(decoded, AgentFrame::Event(event));
}

#[test]
fn ctrader_accepts_documented_config_name_and_legacy_alias() {
    assert_eq!(Platform::from_str("ctrader").unwrap(), Platform::CTrader);
    assert_eq!(Platform::from_str("c_trader").unwrap(), Platform::CTrader);
    assert_eq!(Platform::CTrader.to_string(), "ctrader");
}

#[test]
fn an_event_is_written_field_by_field() {
    let encoded = encode_agent_frame(&AgentFrame::Event(sample_event()));
    assert_eq!(
        encoded,
        "EVENT\t1\tevt-1\tmaster\tmt5\topen\t42\tEURUSD\tbuy\t0.25\t0.25\t1.1\t1.09\t1.12\t123\t\n"
    );
}

#[test]
fn the_other_frames_of_a_client_read_back() {
    let frames = vec![
        AgentFrame::Hello(HelloFrame {
            account_id: "a".into(),
            platform: Platform::Trinity,
            token: "t".into(),
        }),
        AgentFrame::Ack(ExecutionAck {
            command_id: "c".into(),
            account_id: "a".into(),
            status: AckStatus::Filled,
            external_id: Some("77".into()),
            timestamp_unix_ns: -5,
            message: None,
        }),
        AgentFrame::Ping(9),
    ];
    for frame in frames {
        let line = encode_agent_frame(&frame);
        assert_eq!(parse_agent_line(&line).unwrap(), frame);
    }
    assert_eq!(encode_agent_frame(&AgentFrame::Ping(9)), "PING\t1\t9\n");
}

#[test]
fn the_frames_of_the_daemon_read_back() {
    let frames = vec![
        ServerFrame::Welcome { server_time_unix_ns: 11 },
        ServerFrame::Command(Box::new(sample_command())),
        ServerFrame::Error { code: "auth".into(), message: "no".into() },
        ServerFrame::Pong { server_time_unix_ns: -1 },
    ];
    for frame in frames {
        let line = encode_server_frame(&frame);
        assert_eq!(parse_server_line(&line).unwrap(), frame);
    }
}

#[test]
fn the_time_of_a_command_is_not_carried() {
    let mut command = sample_command();
    command.created_unix_ns = 99;
    let line = encode_server_frame(&ServerFrame::Command(Box::new(command)));
    match parse_server_line(&line).unwrap() {
        ServerFrame::Command(back) => assert_eq!(back.created_unix_ns, 0),
        other => panic!("{other:?}"),
    }
}

#[test]
fn separators_in_texts_become_blanks() {
    assert_eq!(field("a\tb\r\nc"), "a b  c");
    let frame = AgentFrame::Hello(HelloFrame {
        account_id: "a\tb".into(),
        platform: Platform::Mt4,
        token: "x\ny".into(),
    });
    let line = encode_agent_frame(&frame);
    assert_eq!(line, "HELLO\t1\ta b\tmt4\tx y\n");
    assert_eq!(line.matches('\n').count(), 1);
}

#[test]
fn an_empty_optional_text_is_carried_as_none() {
    let mut event = sample_event();
    event.origin_command_id = Some(String::new());
    let line = encode_agent_frame(&AgentFrame::Event(event));
    match parse_agent_line(&line).unwrap() {
        AgentFrame::Event(back) => assert_eq!(back.origin_command_id, None),
        other => panic!("{other:?}"),
    }
}

#[test]
fn line_ends_are_stripped() {
    assert_eq!(strip_line_end("PING\t1\t2\r\n\n"), "PING\t1\t2");
    assert_eq!(strip_line_end("\n"), "");
    assert_eq!(parse_agent_line("PING\t1\t2\r\n").unwrap(), AgentFrame::Ping(2));
}

#[test]
fn names_are_read_in_any_case_and_by_their_aliases() {
    assert_eq!(Platform::from_str("TrinityR").unwrap(), Platform::Trinity);
    assert_eq!(Platform::from_str("MT4").unwrap(), Platform::Mt4);
    assert_eq!(Side::from_str("LONG").unwrap(), Side::Buy);
    assert_eq!(Side::from_str("short").unwrap(), Side::Sell);
    assert_eq!(TradeAction::from_str("partial_close").unwrap(), TradeAction::Reduce);
    assert_eq!(AckStatus::from_str("Unknown").unwrap(), AckStatus::Unknown);
    assert_eq!(Platform::from_str("mt6").unwrap_err().to_string(), "invalid platform: mt6");
    assert_eq!(Side::from_str("up").unwrap_err().to_string(), "invalid side: up");
    assert_eq!(TradeAction::from_str("x").unwrap_err().to_string(), "invalid trade action: x");
    assert_eq!(
        AckStatus::from_str("x").unwrap_err().to_string(),
        "invalid acknowledgement status: x"
    );
}

#[test]
fn every_name_reads_back() {
    for platform in [Platform::Trinity, Platform::Mt4, Platform::Mt5, Platform::CTrader] {
        assert_eq!(Platform::from_str(&platform.to_string()).unwrap(), platform);
    }
    for side in [Side::Buy, Side::Sell] {
        assert_eq!(Side::from_str(&side.to_string()).unwrap(), side);
        assert_eq!(side.reversed().reversed(), side);
        assert_ne!(side.reversed(), side);
    }
    for action in [TradeAction::Open, TradeAction::Modify, TradeAction::Reduce, TradeAction::Close] {
        assert_eq!(TradeAction::from_str(&action.to_string()).unwrap(), action);
    }
    for status in [AckStatus::Accepted, AckStatus::Filled, AckStatus::Rejected, AckStatus::Unknown] {
        assert_eq!(AckStatus::from_str(&status.to_string()).unwrap(), status);
    }
}

fn fault(line: &str) -> String {
    parse_agent_line(line).unwrap_err().to_string()
}

#[test]
fn faults_of_a_line_are_told() {
    assert_eq!(fault(""), "unknown wire frame: ");
    assert_eq!(fault("BYE\t1"), "unknown wire frame: BYE");
    assert_eq!(fault("PING\t1"), "PING expected 3 fields, got 2");
    assert_eq!(fault("PING\t2\t3"), "unsupported wire protocol version: 2");
    assert_eq!(fault("PING\tx\t3"), "invalid numeric field version: x");
    assert_eq!(fault("PING\t70000\t3"), "invalid numeric field version: 70000");
    assert_eq!(fault("PING\t1\tx"), "invalid numeric field timestamp_unix_ns: x");
    assert_eq!(fault("HELLO\t1\t\tmt4\t"), "missing required wire field: account_id");
    assert_eq!(fault("HELLO\t1\ta\tmt9\t"), "invalid platform: mt9");
    let event = "EVENT\t1\te\ta\tmt5\topen\t1\tX\tbuy\t0\t\t\t\t\t5\t";
    assert_eq!(fault(event), "invalid volume: 0");
    let event = "EVENT\t1\te\ta\tmt5\topen\t1\tX\t\t1\t\t\t\t\t5\t";
    assert_eq!(fault(event), "missing required field: side");
    let event = "EVENT\t1\te\ta\tmt5\topen\t1\tX\tbuy\tone\t\t\t\t\t5\t";
    assert_eq!(fault(event), "invalid numeric field volume: one");
    assert_eq!(WireError::Empty.to_string(), "empty wire frame");
}

#[test]
fn the_first_fault_of_an_event_is_told() {
    let mut event = sample_event();
    event.symbol = String::new();
    event.source_order_id = String::new();
    match event.validate() {
        Err(ModelError::Missing(name)) => assert_eq!(name, "source_order_id"),
        other => panic!("{other:?}"),
    }
    let mut event = sample_event();
    event.action = TradeAction::Modify;
    event.volume = double(-1.0);
    event.side = None;
    assert!(event.validate().is_ok());
    let mut event = sample_event();
    event.volume = double(f64::NAN);
    assert!(event.validate().is_ok());
    event.volume = double(-0.5);
    assert_eq!(event.validate().unwrap_err().to_string(), "invalid volume: -0.5");
}

#[test]
fn keys_keep_orders_apart() {
    assert_eq!(MirrorBinding::key("a", "1", "b"), "a\u{1f}1\u{1f}b");
    assert_ne!(MirrorBinding::key("a", "12", "b"), MirrorBinding::key("a1", "2", "b"));
}
