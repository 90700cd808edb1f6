use copierr::config::Durability;
use copierr::double::Double;
use copierr::journal::{
    append_plan, record_lines, replay, JournalRecord, MirrorMutation, ReplayState, StoredCommandState,
};
use copierr::model::{
    AckStatus, ExecutionAck, ExecutionCommand, MirrorBinding, Side, TradeAction,
};

fn double(x: f64) -> Double {
    Double { bits: x.to_bits() }
}

fn command(id: &str) -> ExecutionCommand {
    ExecutionCommand {
        command_id: id.into(),
        origin_event_id: "e".into(),
        route_id: "r".into(),
        source_account_id: "a".into(),
        source_order_id: "1".into(),
        target_account_id: "b".into(),
        action: TradeAction::Open,
        target_order_id: None,
        symbol: "EURUSD".into(),
        side: Some(Side::Buy),
        volume: double(1.0),
        source_volume: double(1.0),
        source_remaining_volume: None,
        price: None,
        stop_loss: None,
        take_profit: None,
        created_unix_ns: 5,
    }
}

fn planned(event: &str, commands: &[&str]) -> JournalRecord {
    JournalRecord::EventPlanned {
        event_id: event.into(),
        commands: commands.iter().map(|id| command(id)).collect(),
    }
}

fn dispatched(id: &str) -> JournalRecord {
    JournalRecord::CommandDispatched { command_id: id.into(), timestamp_unix_ns: 1 }
}

fn unknown(id: &str) -> JournalRecord {
    JournalRecord::CommandUnknown { command_id: id.into(), timestamp_unix_ns: 1, reason: "why".into() }
}

fn acknowledged(id: &str, status: AckStatus, mirror: Option<MirrorMutation>) -> JournalRecord {
    JournalRecord::AckApplied {
        ack: ExecutionAck {
            command_id: id.into(),
            account_id: "b".into(),
            status,
            external_id: Some("9".into()),
            timestamp_unix_ns: 1,
            message: None,
        },
        mirror,
    }
}

fn binding() -> MirrorBinding {
    MirrorBinding {
        route_id: "r".into(),
        source_account_id: "a".into(),
        source_order_id: "1".into(),
        target_account_id: "b".into(),
        target_order_id: "9".into(),
        source_open_volume: double(1.0),
        source_remaining_volume: double(1.0),
        target_open_volume: double(2.0),
        target_remaining_volume: double(2.0),
    }
}

fn state_of(state: &ReplayState, id: &str) -> Option<StoredCommandState> {
    state.commands.get(id).map(|stored| stored.state)
}

#[test]
fn an_empty_journal_amounts_to_nothing() {
    let state = ReplayState::default();
    assert_eq!(state.commands.len(), 0);
    assert_eq!(state.mirrors.len(), 0);
    assert!(!state.seen_events.contains("e"));
}

#[test]
fn a_plan_is_seen_and_queued() {
    let mut state = ReplayState::default();
    state.apply(&planned("e", &["x", "y"]));
    assert!(state.seen_events.contains("e"));
    assert_eq!(state_of(&state, "x"), Some(StoredCommandState::Queued));
    assert_eq!(state_of(&state, "y"), Some(StoredCommandState::Queued));
    assert_eq!(state.commands.get("x").map(|stored| &stored.command), Some(&command("x")));
}

#[test]
fn a_command_moves_on_and_is_not_queued_again() {
    let mut state = ReplayState::default();
    state.apply(&planned("e", &["x"]));
    state.apply(&dispatched("x"));
    assert_eq!(state_of(&state, "x"), Some(StoredCommandState::Dispatched));
    state.apply(&planned("e", &["x"]));
    assert_eq!(state_of(&state, "x"), Some(StoredCommandState::Dispatched));
    state.apply(&unknown("x"));
    assert_eq!(state_of(&state, "x"), Some(StoredCommandState::Unknown));
    state.apply(&planned("f", &["x"]));
    assert_eq!(state_of(&state, "x"), Some(StoredCommandState::Unknown));
    state.apply(&dispatched("nothing"));
    state.apply(&unknown("nothing"));
    assert_eq!(state.commands.len(), 1);
}

#[test]
fn an_acknowledgement_ends_a_command() {
    for status in [AckStatus::Accepted, AckStatus::Filled, AckStatus::Rejected] {
        let mut state = ReplayState::default();
        state.apply(&planned("e", &["x", "y"]));
        state.apply(&acknowledged("x", status, None));
        assert_eq!(state_of(&state, "x"), None);
        assert_eq!(state_of(&state, "y"), Some(StoredCommandState::Queued));
    }
    let mut state = ReplayState::default();
    state.apply(&planned("e", &["x"]));
    state.apply(&acknowledged("x", AckStatus::Unknown, None));
    assert_eq!(state_of(&state, "x"), Some(StoredCommandState::Unknown));
}

#[test]
fn bindings_are_put_and_taken_away() {
    let mut state = ReplayState::default();
    state.apply(&acknowledged("x", AckStatus::Filled, Some(MirrorMutation::Upsert { binding: binding() })));
    assert_eq!(state.mirrors.get("a\u{1f}1\u{1f}b"), Some(&binding()));
    state.apply(&acknowledged(
        "y",
        AckStatus::Filled,
        Some(MirrorMutation::Remove { binding_key: "a\u{1f}1\u{1f}b".into() }),
    ));
    assert!(state.mirrors.get("a\u{1f}1\u{1f}b").is_none());
}

#[test]
fn a_record_taken_twice_changes_nothing_more() {
    let records = [
        planned("e", &["x"]),
        dispatched("x"),
        unknown("x"),
        acknowledged("x", AckStatus::Filled, Some(MirrorMutation::Upsert { binding: binding() })),
    ];
    let mut once = ReplayState::default();
    let mut twice = ReplayState::default();
    for record in &records {
        once.apply(record);
        twice.apply(record);
        twice.apply(record);
        assert_eq!(state_of(&once, "x"), state_of(&twice, "x"));
        assert_eq!(once.commands.len(), twice.commands.len());
        assert_eq!(once.mirrors.get("a\u{1f}1\u{1f}b"), twice.mirrors.get("a\u{1f}1\u{1f}b"));
    }
}

#[test]
fn what_was_sent_before_a_restart_is_unknown_after_it() {
    let mut state = replay(&vec![
        planned("e", &["queued", "sent", "lost", "done"]),
        dispatched("sent"),
        unknown("lost"),
        acknowledged("done", AckStatus::Filled, None),
    ]);
    assert_eq!(state_of(&state, "sent"), Some(StoredCommandState::Dispatched));
    state.finalize_after_replay();
    assert_eq!(state_of(&state, "queued"), Some(StoredCommandState::Queued));
    assert_eq!(state_of(&state, "sent"), Some(StoredCommandState::Unknown));
    assert_eq!(state_of(&state, "lost"), Some(StoredCommandState::Unknown));
    assert_eq!(state_of(&state, "done"), None);
    assert!(state.seen_events.contains("e"));
}

#[test]
fn lines_of_a_journal_are_numbered() {
    let lines = record_lines("{\"a\":1}\n\n  \t\r\n{\"b\":2}\r\n{\"c\":3}");
    assert_eq!(
        lines,
        vec![(1, "{\"a\":1}".to_string()), (4, "{\"b\":2}".to_string()), (5, "{\"c\":3}".to_string())]
    );
    assert!(record_lines("").is_empty());
    assert!(record_lines("\n\n").is_empty());
    assert_eq!(record_lines("x\r"), vec![(1, "x\r".to_string())]);
    assert_eq!(record_lines("x\r\r\n"), vec![(1, "x\r".to_string())]);
}

#[test]
fn a_record_is_written_as_durably_as_wanted() {
    assert_eq!(append_plan(Durability::Off, "{}"), None);
    assert_eq!(append_plan(Durability::Flush, "{}"), Some(("{}\n".to_string(), false)));
    assert_eq!(append_plan(Durability::Fsync, "{}"), Some(("{}\n".to_string(), true)));
}

#[test]
fn written_lines_are_read_back() {
    let mut raw = String::new();
    for record in ["{\"a\":1}", "{}", "[]"] {
        let (line, _) = append_plan(Durability::Flush, record).expect("a line");
        raw.push_str(&line);
    }
    assert_eq!(
        record_lines(&raw),
        vec![(1, "{\"a\":1}".to_string()), (2, "{}".to_string()), (3, "[]".to_string())]
    );
}

#[test]
fn a_restart_in_between_is_not_noticed_after_the_next() {
    let early = || vec![planned("e", &["x", "y", "z"]), dispatched("x"), dispatched("y")];
    let late = || vec![acknowledged("x", AckStatus::Filled, None), planned("f", &["y", "w"]), dispatched("z")];
    let mut all = early();
    all.extend(late());
    let mut straight = replay(&all);
    straight.finalize_after_replay();
    let mut twice = replay(&early());
    twice.finalize_after_replay();
    for record in late() {
        twice.apply(&record);
    }
    twice.finalize_after_replay();
    for id in ["x", "y", "z", "w"] {
        assert_eq!(state_of(&straight, id), state_of(&twice, id));
    }
    assert_eq!(state_of(&twice, "x"), None);
    assert_eq!(state_of(&twice, "y"), Some(StoredCommandState::Unknown));
    assert_eq!(state_of(&twice, "z"), Some(StoredCommandState::Unknown));
    assert_eq!(state_of(&twice, "w"), Some(StoredCommandState::Queued));
}
