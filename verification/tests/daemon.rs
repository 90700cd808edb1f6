use copierr::config::{AccountBackend, AccountConfig, AccountRole, DaemonConfig, Durability};
use copierr::double::Double;
use copierr::journal::{JournalRecord, MirrorMutation, ReplayState, StoredCommandState};
use copierr::model::{
    AckStatus, ExecutionAck, ExecutionCommand, MirrorBinding, Platform, Side, TradeAction, TradeEvent,
};
use copierr::protocol::{encode_agent_frame, encode_server_frame, AgentFrame, HelloFrame, ServerFrame, WireError};
use copierr::routing::{RouteError, RouteRule, SizingMode};
use copierr::runtime::{Action, AppState, Job, Outcome, RuntimeError};
use copierr::server::{
    greet, react, receive, take, welcome_line, Connection, Input, Reaction, Received, ServerError,
};
use copierr::table::Table;

fn double(x: f64) -> Double {
    Double { bits: x.to_bits() }
}

fn account(id: &str, role: AccountRole, allow_rebroadcast: bool) -> AccountConfig {
    AccountConfig {
        id: id.into(),
        platform: Platform::Mt5,
        role,
        backend: AccountBackend::Agent,
        token: format!("token-{id}"),
        allow_rebroadcast,
        ctrader: None,
        metaapi: None,
        terminal: None,
    }
}

fn route(id: &str, source: &str, target: &str) -> RouteRule {
    RouteRule {
        id: id.into(),
        source_account_id: source.into(),
        target_account_id: target.into(),
        enabled: true,
        sizing: SizingMode::Multiplier,
        size_value: double(2.0),
        reverse: false,
        copy_sl_tp: true,
        min_volume: double(0.01),
        max_volume: double(100.0),
        volume_step: double(0.01),
        allow_buy: false,
        allow_sell: false,
        allow_symbols: Vec::new(),
        deny_symbols: Vec::new(),
        symbol_map: Table::new(),
        symbol_prefix: String::new(),
        symbol_suffix: String::new(),
        max_event_age_ms: 0,
    }
}

fn config(routes: Vec<RouteRule>) -> DaemonConfig {
    DaemonConfig {
        listen: "127.0.0.1:48100".into(),
        journal_path: "j".into(),
        durability: Durability::Flush,
        queue_capacity: 8,
        accounts: vec![
            account("master", AccountRole::Master, false),
            account("one", AccountRole::Follower, false),
            account("two", AccountRole::Both, false),
            account("loop", AccountRole::Both, true),
        ],
        routes,
        ctrader: None,
        metaapi: None,
        egress_profiles: Table::new(),
    }
}

fn state() -> AppState {
    let routes = vec![route("r1", "master", "one"), route("r2", "master", "two"), route("r3", "loop", "one")];
    AppState::new(config(routes), ReplayState::default()).expect("state")
}

fn event(id: &str, action: TradeAction, volume: f64, remaining: Option<f64>) -> TradeEvent {
    TradeEvent {
        event_id: id.into(),
        source_account_id: "master".into(),
        platform: Platform::Mt5,
        action,
        source_order_id: "100".into(),
        symbol: "EURUSD".into(),
        side: Some(Side::Buy),
        volume: double(volume),
        remaining_volume: remaining.map(double),
        price: None,
        stop_loss: None,
        take_profit: None,
        timestamp_unix_ns: 10,
        origin_command_id: None,
    }
}

fn ack(command: &ExecutionCommand, status: AckStatus, external: Option<&str>) -> ExecutionAck {
    ExecutionAck {
        command_id: command.command_id.clone(),
        account_id: command.target_account_id.clone(),
        status,
        external_id: external.map(String::from),
        timestamp_unix_ns: 20,
        message: None,
    }
}

/// Something that was done for a job.
#[derive(Debug)]
enum Done {
    Planned(String, Vec<ExecutionCommand>),
    Dispatched(String),
    Unknown(String, String),
    Acked(String, Option<String>),
    Sent(u64, ExecutionCommand),
}

/// Does a job to its end; deliveries succeed or not.
fn run(state: &mut AppState, job: Job, delivers: bool) -> Vec<Done> {
    let mut job = job;
    let mut done = Vec::new();
    loop {
        let outcome = match job.action() {
            Action::Done => return done,
            Action::Begin => Outcome::Begin,
            Action::Append => {
                done.push(match job.record().expect("a record") {
                    JournalRecord::EventPlanned { event_id, commands } => {
                        Done::Planned(event_id.clone(), commands.iter().map(|command| command.clone()).collect())
                    }
                    JournalRecord::CommandDispatched { command_id, .. } => Done::Dispatched(command_id.clone()),
                    JournalRecord::CommandUnknown { command_id, reason, .. } => {
                        Done::Unknown(command_id.clone(), reason.clone())
                    }
                    JournalRecord::AckApplied { ack, mirror } => Done::Acked(
                        ack.command_id.clone(),
                        match mirror {
                            None => None,
                            Some(MirrorMutation::Upsert { binding }) => Some(binding.binding_key()),
                            Some(MirrorMutation::Remove { binding_key }) => Some(format!("-{binding_key}")),
                        },
                    ),
                });
                Outcome::Appended
            }
            Action::Deliver => {
                let (session, command) = job.delivery().expect("a delivery");
                done.push(Done::Sent(session, command.clone()));
                if delivers {
                    Outcome::Delivered
                } else {
                    Outcome::Refused
                }
            }
        };
        job = state.proceed(job, outcome, 77);
    }
}

fn publish(state: &mut AppState, event: &TradeEvent, delivers: bool) -> Vec<Done> {
    assert!(!state.is_unbounded(event, 50));
    let job = state.handle_event(event, 50).expect("a job");
    run(state, job, delivers)
}

fn status(state: &AppState, id: &str) -> Option<StoredCommandState> {
    state.runtime.commands.get(id).map(|stored| stored.state)
}

fn sent(done: &[Done]) -> Vec<(u64, ExecutionCommand)> {
    let mut out = Vec::new();
    for step in done {
        if let Done::Sent(session, command) = step {
            out.push((*session, command.clone()));
        }
    }
    out
}

#[test]
fn who_may_connect() {
    let state = state();
    assert!(state.authenticate("one", Platform::Mt5, "token-one").is_ok());
    let unknown = state.authenticate("none", Platform::Mt5, "x").expect_err("unknown");
    assert!(matches!(unknown, RuntimeError::UnknownAccount(_)));
    assert_eq!(unknown.to_string(), "unknown account none");
    let mismatch = state.authenticate("one", Platform::Mt4, "token-one").expect_err("mismatch");
    assert!(matches!(mismatch, RuntimeError::PlatformMismatch(_)));
    assert_eq!(mismatch.to_string(), "platform mismatch for account one");
    let token = state.authenticate("one", Platform::Mt5, "token-two").expect_err("token");
    assert!(matches!(token, RuntimeError::InvalidToken(_)));
    assert_eq!(token.to_string(), "invalid token for account one");
}

#[test]
fn accounts_that_are_reached_directly_do_not_connect() {
    let mut given = config(Vec::new());
    let mut direct = account("f", AccountRole::Both, false);
    direct.backend = AccountBackend::MetaApi;
    direct.token = String::new();
    given.accounts.push(direct);
    let mut open_api = account("g", AccountRole::Both, false);
    open_api.backend = AccountBackend::CTraderOpenApi;
    given.accounts.push(open_api);
    let mut state = AppState::new(given, ReplayState::default()).expect("state");
    let refused = state.authenticate("f", Platform::Mt5, "").expect_err("refused");
    assert!(matches!(refused, RuntimeError::DirectVenue(_)));
    assert_eq!(refused.to_string(), "account f does not use the agent listener");
    assert!(matches!(
        state.authenticate("g", Platform::Mt5, "token-g"),
        Err(RuntimeError::DirectVenue(_))
    ));
    let (connection, reaction) = react(&mut state, Connection::Fresh, Input::Line(hello("f", "")), 5);
    assert!(matches!(connection, Connection::Closed));
    assert!(matches!(reaction, Reaction::Refused(ServerError::Runtime(RuntimeError::DirectVenue(_)))));
    assert_eq!(state.register_session("f".into()), 1);
}

#[test]
fn faulty_rules_give_no_state() {
    let result = AppState::new(config(vec![route("r", "master", "master")]), ReplayState::default());
    assert!(matches!(result.err(), Some(RouteError::SelfRoute(_))));
}

#[test]
fn the_configuration_keeps_its_rules() {
    let state = state();
    assert_eq!(state.config.routes.len(), 3);
    assert_eq!(state.config.routes[2].id, "r3");
    assert!(state.can_size(&event("e", TradeAction::Open, 1.0, None), 50));
}

#[test]
fn sessions_are_numbered_and_replaced() {
    let mut state = state();
    assert_eq!(state.register_session("one".into()), 1);
    assert_eq!(state.register_session("two".into()), 2);
    assert_eq!(state.register_session("one".into()), 3);
    assert_eq!(state.session_of("one"), Some(3));
    let job = state.unregister_session("one", 1);
    assert!(matches!(job.action(), Action::Done));
    assert_eq!(state.session_of("one"), Some(3));
    let job = state.unregister_session("one", 3);
    assert!(matches!(job.action(), Action::Done));
    assert_eq!(state.session_of("one"), None);
    assert_eq!(state.session_of("two"), Some(2));
}

#[test]
fn an_event_is_planned_recorded_and_sent() {
    let mut state = state();
    let session = state.register_session("one".into());
    let done = publish(&mut state, &event("e1", TradeAction::Open, 1.0, Some(1.0)), true);
    assert_eq!(done.len(), 3);
    let Done::Planned(id, commands) = &done[0] else { panic!("{:?}", done[0]) };
    assert_eq!(id, "e1");
    assert_eq!(commands.len(), 2);
    assert_eq!(commands[0].volume, double(2.0));
    assert_eq!(commands[0].created_unix_ns, 50);
    assert!(matches!(&done[1], Done::Dispatched(id) if *id == commands[0].command_id));
    assert!(matches!(&done[2], Done::Sent(to, command) if *to == session && *command == commands[0]));
    assert_eq!(status(&state, &commands[0].command_id), Some(StoredCommandState::Dispatched));
    assert_eq!(status(&state, &commands[1].command_id), Some(StoredCommandState::Queued));
    assert!(state.runtime.seen_events.contains("e1"));
}

#[test]
fn an_event_is_planned_once() {
    let mut state = state();
    assert_eq!(publish(&mut state, &event("e1", TradeAction::Open, 1.0, None), true).len(), 1);
    assert_eq!(publish(&mut state, &event("e1", TradeAction::Open, 1.0, None), true).len(), 0);
    assert_eq!(state.runtime.commands.len(), 2);
}

#[test]
fn queued_commands_wait_for_their_account() {
    let mut state = state();
    publish(&mut state, &event("e1", TradeAction::Open, 1.0, None), true);
    let session = state.register_session("two".into());
    let job = state.dispatch_queued_for("two");
    let done = run(&mut state, job, true);
    assert_eq!(done.len(), 2);
    assert!(matches!(&done[1], Done::Sent(to, command) if *to == session && command.target_account_id == "two"));
    let job = state.dispatch_queued_for("two");
    assert!(run(&mut state, job, true).is_empty());
    let job = state.dispatch_queued_for("one");
    assert!(run(&mut state, job, true).is_empty());
}

#[test]
fn a_command_that_its_session_does_not_take_is_unknown() {
    let mut state = state();
    state.register_session("one".into());
    let done = publish(&mut state, &event("e1", TradeAction::Open, 1.0, None), false);
    let command = sent(&done)[0].1.clone();
    assert!(matches!(
        done.last(),
        Some(Done::Unknown(id, reason))
            if *id == command.command_id && reason == "session queue closed before write"
    ));
    assert_eq!(status(&state, &command.command_id), Some(StoredCommandState::Unknown));
    let job = state.dispatch_queued_for("one");
    assert!(run(&mut state, job, true).is_empty());
}

#[test]
fn what_a_lost_session_had_is_unknown() {
    let mut state = state();
    let session = state.register_session("one".into());
    let done = publish(&mut state, &event("e1", TradeAction::Open, 1.0, None), true);
    let command = sent(&done)[0].1.clone();
    let job = state.unregister_session("one", session);
    let done = run(&mut state, job, true);
    assert_eq!(done.len(), 1);
    assert!(matches!(
        &done[0],
        Done::Unknown(id, reason)
            if *id == command.command_id && reason == "connection lost before terminal acknowledgement"
    ));
    state.register_session("one".into());
    let job = state.dispatch_queued_for("one");
    assert!(run(&mut state, job, true).is_empty());
    assert_eq!(status(&state, &command.command_id), Some(StoredCommandState::Unknown));
}

#[test]
fn copied_trades_are_not_copied_back() {
    let mut state = state();
    let mut feedback = event("e1", TradeAction::Open, 1.0, None);
    feedback.origin_command_id = Some("c".into());
    assert!(publish(&mut state, &feedback, true).is_empty());
    assert!(!state.runtime.seen_events.contains("e1"));
    feedback.source_account_id = "loop".into();
    assert_eq!(publish(&mut state, &feedback, true).len(), 1);
}

#[test]
fn who_may_publish() {
    let state = state();
    let mut foreign = event("e1", TradeAction::Open, 1.0, None);
    foreign.source_account_id = "one".into();
    let refused = state.handle_event(&foreign, 50).expect_err("refused");
    assert!(matches!(refused, RuntimeError::NotPermitted(_)));
    assert_eq!(refused.to_string(), "account one is not permitted to publish");
    foreign.source_account_id = "none".into();
    let refused = state.handle_event(&foreign, 50).expect_err("refused");
    assert!(matches!(refused, RuntimeError::UnknownSource(_)));
    assert_eq!(refused.to_string(), "unknown source account none");
}

/// Opens the order "100" on the account "one", and gives the command.
fn open_one(state: &mut AppState) -> ExecutionCommand {
    state.register_session("one".into());
    let done = publish(state, &event("open", TradeAction::Open, 1.0, Some(1.0)), true);
    let command = sent(&done)[0].1.clone();
    let job = state.handle_ack(ack(&command, AckStatus::Filled, Some("900"))).expect("a job");
    let done = run(state, job, true);
    assert_eq!(done.len(), 1);
    assert!(matches!(&done[0], Done::Acked(_, Some(key)) if key == "master\u{1f}100\u{1f}one"));
    command
}

fn bound(state: &AppState) -> Option<MirrorBinding> {
    state.runtime.mirrors.get("master\u{1f}100\u{1f}one").map(|binding| binding.clone())
}

#[test]
fn an_order_is_bound_reduced_and_closed() {
    let mut state = state();
    let command = open_one(&mut state);
    assert_eq!(status(&state, &command.command_id), None);
    assert_eq!(
        bound(&state),
        Some(MirrorBinding {
            route_id: "r1".into(),
            source_account_id: "master".into(),
            source_order_id: "100".into(),
            target_account_id: "one".into(),
            target_order_id: "900".into(),
            source_open_volume: double(1.0),
            source_remaining_volume: double(1.0),
            target_open_volume: double(2.0),
            target_remaining_volume: double(2.0),
        })
    );

    let done = publish(&mut state, &event("reduce", TradeAction::Reduce, 0.25, Some(0.75)), true);
    let reduce = sent(&done)[0].1.clone();
    assert_eq!(reduce.target_order_id.as_deref(), Some("900"));
    assert_eq!(reduce.volume, double(0.5));
    let job = state.handle_ack(ack(&reduce, AckStatus::Accepted, None)).expect("a job");
    run(&mut state, job, true);
    let binding = bound(&state).expect("bound");
    assert_eq!(binding.source_remaining_volume, double(0.75));
    assert_eq!(binding.target_remaining_volume, double(1.5));

    let done = publish(&mut state, &event("reduce-2", TradeAction::Reduce, 0.25, None), true);
    let reduce = sent(&done)[0].1.clone();
    let job = state.handle_ack(ack(&reduce, AckStatus::Filled, None)).expect("a job");
    run(&mut state, job, true);
    let binding = bound(&state).expect("bound");
    assert_eq!(binding.source_remaining_volume, double(0.5));
    assert_eq!(binding.target_remaining_volume, double(1.0));

    let done = publish(&mut state, &event("modify", TradeAction::Modify, 0.5, None), true);
    let modify = sent(&done)[0].1.clone();
    assert_eq!(modify.volume, double(1.0));
    let job = state.handle_ack(ack(&modify, AckStatus::Filled, None)).expect("a job");
    let done = run(&mut state, job, true);
    assert!(matches!(&done[0], Done::Acked(_, None)));
    assert_eq!(bound(&state), Some(binding));

    let done = publish(&mut state, &event("close", TradeAction::Close, 0.5, Some(0.0)), true);
    let close = sent(&done)[0].1.clone();
    let job = state.handle_ack(ack(&close, AckStatus::Filled, None)).expect("a job");
    let done = run(&mut state, job, true);
    assert!(matches!(&done[0], Done::Acked(_, Some(key)) if key == "-master\u{1f}100\u{1f}one"));
    assert_eq!(bound(&state), None);
}

#[test]
fn what_came_before_its_binding_is_passed_over() {
    let mut state = state();
    state.register_session("one".into());
    let done = publish(&mut state, &event("early", TradeAction::Close, 1.0, None), true);
    assert_eq!(done.len(), 1);
    assert!(matches!(&done[0], Done::Planned(_, commands) if commands.is_empty()));
    assert!(state.runtime.seen_events.contains("early"));
}

#[test]
fn a_broken_binding_stops_an_event() {
    let mut state = state();
    open_one(&mut state);
    let mut broken = bound(&state).expect("bound");
    broken.source_open_volume = double(0.0);
    state.runtime.mirrors.insert("master\u{1f}100\u{1f}one".into(), broken);
    let refused = state.handle_event(&event("r", TradeAction::Reduce, 0.5, None), 50).expect_err("refused");
    assert!(matches!(refused, RuntimeError::Route(RouteError::InvalidMirror(_))));
    assert_eq!(refused.to_string(), "mirror binding is invalid for route: r1");
    assert!(!state.runtime.seen_events.contains("r"));
}

#[test]
fn acknowledgements_are_held_to_their_command() {
    let mut state = state();
    state.register_session("one".into());
    let done = publish(&mut state, &event("open", TradeAction::Open, 1.0, None), true);
    let command = sent(&done)[0].1.clone();

    let mut foreign = ack(&command, AckStatus::Filled, Some("900"));
    foreign.account_id = "two".into();
    let refused = state.handle_ack(foreign).expect_err("refused");
    assert!(matches!(refused, RuntimeError::AckTarget));
    assert_eq!(refused.to_string(), "ack target does not match command target");

    let mut late = ack(&command, AckStatus::Filled, Some("900"));
    late.command_id = "none".into();
    let job = state.handle_ack(late).expect("a job");
    assert!(run(&mut state, job, true).is_empty());

    let job = state.handle_ack(ack(&command, AckStatus::Filled, None)).expect("a job");
    let done = run(&mut state, job, true);
    assert!(matches!(
        &done[0],
        Done::Unknown(id, reason)
            if *id == command.command_id && reason == "open acknowledgement omitted external order id"
    ));
    assert_eq!(bound(&state), None);

    let job = state.handle_ack(ack(&command, AckStatus::Unknown, Some("900"))).expect("a job");
    run(&mut state, job, true);
    assert_eq!(status(&state, &command.command_id), Some(StoredCommandState::Unknown));

    let job = state.handle_ack(ack(&command, AckStatus::Rejected, None)).expect("a job");
    run(&mut state, job, true);
    assert_eq!(status(&state, &command.command_id), None);
    assert_eq!(bound(&state), None);
    let job = state.handle_ack(ack(&command, AckStatus::Filled, Some("900"))).expect("a job");
    assert!(run(&mut state, job, true).is_empty());
}

#[test]
fn a_session_speaks_for_its_own_account() {
    let state = state();
    let frame = AgentFrame::Event(event("e", TradeAction::Open, 1.0, None));
    let refused = state.handle_frame("two", frame, 50).expect_err("refused");
    assert!(matches!(refused, RuntimeError::ForeignEvent));
    assert_eq!(refused.to_string(), "event source account does not match authenticated session");
    let foreign = ExecutionAck {
        command_id: "c".into(),
        account_id: "one".into(),
        status: AckStatus::Filled,
        external_id: None,
        timestamp_unix_ns: 1,
        message: None,
    };
    let refused = state.handle_frame("two", AgentFrame::Ack(foreign), 50).expect_err("refused");
    assert!(matches!(refused, RuntimeError::ForeignAck));
    assert_eq!(refused.to_string(), "ack account does not match authenticated session");
    let hello = HelloFrame { account_id: "two".into(), platform: Platform::Mt5, token: "t".into() };
    let refused = state.handle_frame("two", AgentFrame::Hello(hello), 50).expect_err("refused");
    assert!(matches!(refused, RuntimeError::HelloNotFirst));
    assert_eq!(refused.to_string(), "HELLO is only valid as the first frame");
    let job = state.handle_frame("two", AgentFrame::Ping(1), 50).expect("a job");
    assert!(matches!(job.action(), Action::Done));
}

#[test]
fn volumes_without_bounds_are_noticed() {
    let mut rule = route("r1", "master", "one");
    rule.min_volume = double(5.0);
    rule.max_volume = double(1.0);
    let mut state = AppState::new(config(vec![rule]), ReplayState::default()).expect("state");
    assert!(!state.can_size(&event("e", TradeAction::Open, 1.0, None), 50));
    assert!(state.can_size(&event("e", TradeAction::Close, 1.0, None), 50));
    let received = take(&state, "master", AgentFrame::Event(event("e", TradeAction::Open, 1.0, None)), 50);
    assert!(matches!(received, Received::Unbounded));
    let foreign = take(&state, "two", AgentFrame::Event(event("e", TradeAction::Open, 1.0, None)), 50);
    assert!(matches!(foreign, Received::Refused(RuntimeError::ForeignEvent)));
    let mut feedback = event("e", TradeAction::Open, 1.0, None);
    feedback.origin_command_id = Some("c".into());
    assert!(!state.is_unbounded(&feedback, 50));
    state.runtime.apply(&JournalRecord::EventPlanned { event_id: "e".into(), commands: Vec::new() });
    assert!(!state.is_unbounded(&event("e", TradeAction::Open, 1.0, None), 50));
    let again = take(&state, "master", AgentFrame::Event(event("e", TradeAction::Open, 1.0, None)), 50);
    assert!(matches!(again, Received::Work(job) if matches!(job.action(), Action::Done)));
}

fn hello(account: &str, token: &str) -> String {
    encode_agent_frame(&AgentFrame::Hello(HelloFrame {
        account_id: account.into(),
        platform: Platform::Mt5,
        token: token.into(),
    }))
}

#[test]
fn a_greeting_is_asked_for() {
    let state = state();
    assert_eq!(greet(&state, &hello("one", "token-one")).expect("greeted").account_id, "one");
    let refused = greet(&state, "PING\t1\t5\n").expect_err("refused");
    assert!(matches!(refused, ServerError::NotHello));
    assert_eq!(refused.to_string(), "first frame must be HELLO");
    let refused = greet(&state, "WHAT\t1\n").expect_err("refused");
    assert!(matches!(refused, ServerError::Wire(WireError::UnknownFrame(_))));
    assert_eq!(refused.to_string(), "unknown wire frame: WHAT");
    let refused = greet(&state, &hello("one", "bad")).expect_err("refused");
    assert!(matches!(refused, ServerError::Runtime(RuntimeError::InvalidToken(_))));
    assert_eq!(refused.to_string(), "invalid token for account one");
    assert_eq!(
        welcome_line(42),
        encode_server_frame(&ServerFrame::Welcome { server_time_unix_ns: 42 })
    );
    assert_eq!(welcome_line(42), "WELCOME\t1\t42\n");
}

#[test]
fn lines_of_a_session_are_received() {
    let mut state = state();
    assert!(matches!(receive(&state, "one", "PING\t1\t5\n", 50), Received::Pong { session_id: None }));
    let session = state.register_session("one".into());
    assert!(matches!(
        receive(&state, "one", "PING\t1\t5\n", 50),
        Received::Pong { session_id: Some(id) } if id == session
    ));
    assert!(matches!(receive(&state, "one", "PING\t1\n", 50), Received::Invalid(WireError::FieldCount { .. })));
    assert!(matches!(
        receive(&state, "one", &hello("one", "token-one"), 50),
        Received::Refused(RuntimeError::HelloNotFirst)
    ));
    let line = encode_agent_frame(&AgentFrame::Event(event("e", TradeAction::Open, 1.0, None)));
    assert!(matches!(receive(&state, "one", &line, 50), Received::Refused(RuntimeError::ForeignEvent)));
    let Received::Work(job) = receive(&state, "master", &line, 50) else { panic!("no work") };
    assert!(matches!(&run(&mut state, job, true)[0], Done::Planned(id, _) if id == "e"));
}

#[test]
fn a_connection_goes_through_its_stages() {
    let mut state = state();
    publish(&mut state, &event("e1", TradeAction::Open, 1.0, None), true);

    let (connection, reaction) = react(&mut state, Connection::Fresh, Input::Line(hello("one", "token-one")), 5);
    assert!(matches!(&reaction, Reaction::Welcome(line) if line == "WELCOME\t1\t5\n"));
    assert_eq!(state.session_of("one"), None);

    let (connection, reaction) = react(&mut state, connection, Input::Answered, 6);
    let Reaction::Connected { session_id, job } = reaction else { panic!("not connected") };
    assert_eq!(state.session_of("one"), Some(session_id));
    let done = run(&mut state, job, true);
    assert_eq!(sent(&done).len(), 1);
    let command = sent(&done)[0].1.clone();

    let (connection, reaction) = react(&mut state, connection, Input::Line("nonsense\n".into()), 7);
    assert!(matches!(reaction, Reaction::Line(Received::Invalid(_))));
    assert!(matches!(&connection, Connection::Open { session_id: id, .. } if *id == session_id));

    let (connection, reaction) = react(&mut state, connection, Input::End, 8);
    assert!(matches!(connection, Connection::Closed));
    let Reaction::Ended(job) = reaction else { panic!("not ended") };
    assert_eq!(state.session_of("one"), None);
    run(&mut state, job, true);
    assert_eq!(status(&state, &command.command_id), Some(StoredCommandState::Unknown));
}

#[test]
fn a_connection_that_does_not_greet_gets_nothing() {
    let mut state = state();
    let (connection, reaction) = react(&mut state, Connection::Fresh, Input::Line("PING\t1\t5\n".into()), 5);
    assert!(matches!(connection, Connection::Closed));
    assert!(matches!(reaction, Reaction::Refused(ServerError::NotHello)));
    let (connection, reaction) = react(&mut state, connection, Input::Line(hello("one", "token-one")), 6);
    assert!(matches!(connection, Connection::Closed));
    assert!(matches!(reaction, Reaction::Nothing));
    let (connection, reaction) = react(&mut state, Connection::Fresh, Input::End, 7);
    assert!(matches!(connection, Connection::Closed));
    assert!(matches!(reaction, Reaction::Nothing));
    assert_eq!(state.session_of("one"), None);
}

#[test]
fn a_connection_that_fails_is_unregistered() {
    let mut state = state();
    let (connection, _) = react(&mut state, Connection::Fresh, Input::Line(hello("one", "token-one")), 5);
    let (connection, _) = react(&mut state, connection, Input::Answered, 6);
    assert!(state.session_of("one").is_some());
    let (connection, reaction) = react(&mut state, connection, Input::Failed, 7);
    assert!(matches!(connection, Connection::Closed));
    assert!(matches!(reaction, Reaction::Ended(_)));
    assert_eq!(state.session_of("one"), None);
}
