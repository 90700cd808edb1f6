use copierr::bridge::{
    frame_line, next_handle, take_line, write_step, Polled, WriteOutcome, WriteState, WriteStep, LINE_END,
    SPIN_LIMIT, WIDE_LIMIT, YIELD_SPINS,
};
use copierr::client::{accept_welcome, next_frame, rejected_words, ClientError};
use copierr::clock::{time_stamp, unix_time_ns};
use copierr::config::{AccountBackend, AccountConfig, AccountRole, DaemonConfig, Durability};
use copierr::digest::{build_message, fingerprint, half_in_hex};
use copierr::launcher::{
    build_command, enabled_terminal, plan_launch, restart_delay, EgressMode, EgressProfile, LauncherError,
    TerminalConfig,
};
use copierr::model::Platform;
use copierr::protocol::{ServerFrame, WireError};
use copierr::table::Table;
use copierr::ui::{
    chosen_dir, chosen_path, start_refusal, started_message, stopped_message, usable_secrets, Daemon, Log, LOG_LIMIT,
};
use sha2::{Digest, Sha256};
use std::time::{SystemTime, UNIX_EPOCH};

#[test]
fn a_table_holds_one_value_for_a_key() {
    let mut table = Table::new();
    table.insert("a".into(), 1);
    table.insert("b".into(), 2);
    table.insert("a".into(), 3);
    assert_eq!(table.len(), 2);
    assert_eq!(table.get("a"), Some(&3));
    assert!(table.contains("b"));
    assert!(!table.contains("c"));
    assert_eq!(table.key_at(0), "a");
    assert_eq!(*table.value_at(1), 2);
    assert_eq!(table.remove("a"), Some(3));
    assert_eq!(table.remove("a"), None);
    assert_eq!(table.len(), 1);
    assert_eq!(table.get("b"), Some(&2));
}

#[test]
fn times_are_capped() {
    assert_eq!(time_stamp(Some(17)), 17);
    assert_eq!(time_stamp(Some(i64::MAX as u128)), i64::MAX);
    assert_eq!(time_stamp(Some(i64::MAX as u128 + 1)), i64::MAX);
    assert_eq!(time_stamp(None), 0);
}

#[test]
fn the_clock_is_that_of_the_system() {
    let before = SystemTime::now().duration_since(UNIX_EPOCH).expect("time").as_nanos() as i64;
    let now = unix_time_ns();
    let after = SystemTime::now().duration_since(UNIX_EPOCH).expect("time").as_nanos() as i64;
    assert!(before <= now && now <= after);
}

#[test]
fn messages_of_different_texts_differ() {
    assert_ne!(build_message("p", "a", "bc", "d"), build_message("p", "ab", "c", "d"));
    assert_ne!(build_message("p", "a", "b", "cd"), build_message("p", "a", "bc", "d"));
    assert_eq!(build_message("p", "a\0b", "c", "d"), build_message("p", "a", "b\0c", "d"));
}

#[test]
fn a_fingerprint_is_half_a_digest_in_hex() {
    assert_eq!(build_message("p", "a", "b", "é"), b"p\0a\0b\0\xc3\xa9".to_vec());
    let digest = Sha256::digest(b"p\0a\0b\0c");
    let mut wanted = String::new();
    for byte in &digest[..16] {
        wanted.push_str(&format!("{byte:02x}"));
    }
    assert_eq!(fingerprint("p", "a", "b", "c"), wanted);
    assert_eq!(half_in_hex(&digest.to_vec()), wanted);
    assert_eq!(half_in_hex(&vec![0x0f; 16]), "0f0f0f0f0f0f0f0f0f0f0f0f0f0f0f0f");
}

fn terminal() -> TerminalConfig {
    TerminalConfig {
        enabled: true,
        command: "wine".into(),
        args: vec!["terminal.exe".into(), "/portable".into()],
        working_dir: Some("/opt/mt5".into()),
        egress_profile: Some("eu".into()),
        restart_on_exit: true,
        restart_delay_ms: 1500,
    }
}

fn profile(mode: EgressMode) -> EgressProfile {
    EgressProfile {
        mode,
        proxy_url: Some("socks5://p".into()),
        namespace: Some("ns".into()),
        region: Some("eu-1".into()),
    }
}

fn pairs(list: &[(&str, &str)]) -> Vec<(String, String)> {
    list.iter().map(|(name, value)| (name.to_string(), value.to_string())).collect()
}

#[test]
fn a_terminal_runs_directly() {
    for given in [None, Some(profile(EgressMode::Direct))] {
        let plan = build_command(&terminal(), given.as_ref(), true).expect("a plan");
        assert_eq!(plan.program, "wine");
        assert_eq!(plan.args, vec!["terminal.exe", "/portable"]);
        assert!(plan.env.is_empty());
    }
}

#[test]
fn a_terminal_runs_behind_a_proxy() {
    let plan = build_command(&terminal(), Some(&profile(EgressMode::ProxyEnv)), false).expect("a plan");
    assert_eq!(plan.program, "wine");
    assert_eq!(
        plan.env,
        pairs(&[
            ("ALL_PROXY", "socks5://p"),
            ("HTTP_PROXY", "socks5://p"),
            ("HTTPS_PROXY", "socks5://p"),
            ("COPIERR_EGRESS_REGION", "eu-1"),
        ])
    );
    let mut bare = profile(EgressMode::ProxyEnv);
    bare.proxy_url = None;
    bare.region = None;
    let plan = build_command(&terminal(), Some(&bare), false).expect("a plan");
    assert_eq!(plan.env, pairs(&[("ALL_PROXY", ""), ("HTTP_PROXY", ""), ("HTTPS_PROXY", "")]));
}

#[test]
fn a_terminal_runs_in_a_namespace() {
    let plan = build_command(&terminal(), Some(&profile(EgressMode::NetworkNamespace)), true).expect("a plan");
    assert_eq!(plan.program, "ip");
    assert_eq!(plan.args, vec!["netns", "exec", "ns", "wine", "terminal.exe", "/portable"]);
    assert_eq!(plan.env, pairs(&[("COPIERR_EGRESS_REGION", "eu-1")]));
    let refused = build_command(&terminal(), Some(&profile(EgressMode::NetworkNamespace)), false).expect_err("refused");
    assert_eq!(refused, LauncherError::NamespaceUnavailable);
    assert_eq!(refused.to_string(), "network_namespace egress is only available on Unix-like hosts");
}

#[test]
fn a_launch_knows_its_account() {
    let account = AccountConfig {
        id: "a".into(),
        platform: Platform::CTrader,
        role: AccountRole::Both,
        backend: AccountBackend::Agent,
        token: "t".into(),
        allow_rebroadcast: false,
        ctrader: None,
        metaapi: None,
        terminal: Some(terminal()),
    };
    let mut egress_profiles = Table::new();
    egress_profiles.insert("eu".to_string(), profile(EgressMode::NetworkNamespace));
    let config = DaemonConfig {
        listen: "l".into(),
        journal_path: "j".into(),
        durability: Durability::Flush,
        queue_capacity: 1,
        accounts: vec![account.clone()],
        routes: Vec::new(),
        ctrader: None,
        metaapi: None,
        egress_profiles,
    };
    let found = enabled_terminal(&account).expect("a terminal");
    let plan = plan_launch(&config, &account, found, true).expect("a plan");
    assert_eq!(plan.program, "ip");
    assert_eq!(plan.working_dir.as_deref(), Some("/opt/mt5"));
    assert_eq!(
        plan.env,
        pairs(&[
            ("COPIERR_EGRESS_REGION", "eu-1"),
            ("COPIERR_ACCOUNT_ID", "a"),
            ("COPIERR_PLATFORM", "ctrader"),
        ])
    );
    assert_eq!(restart_delay(found), Some(1500));

    let mut other = account.clone();
    if let Some(terminal) = other.terminal.as_mut() {
        terminal.egress_profile = Some("unknown".into());
        terminal.restart_on_exit = false;
    }
    let found = enabled_terminal(&other).expect("a terminal");
    assert_eq!(plan_launch(&config, &other, found, true).expect("a plan").program, "wine");
    assert_eq!(restart_delay(found), None);
    if let Some(terminal) = other.terminal.as_mut() {
        terminal.enabled = false;
    }
    assert!(enabled_terminal(&other).is_none());
    other.terminal = None;
    assert!(enabled_terminal(&other).is_none());
}

#[test]
fn a_line_is_framed_once() {
    assert_eq!(LINE_END, b'\n');
    assert_eq!(WIDE_LIMIT, 32_768);
    assert_eq!(frame_line(b"x".to_vec()), b"x\n".to_vec());
    assert_eq!(frame_line(b"x\n".to_vec()), b"x\n".to_vec());
    assert_eq!(frame_line(Vec::new()), b"\n".to_vec());
}

#[test]
fn lines_are_taken_one_by_one() {
    let mut received = b"one\ntwo\nthr".to_vec();
    assert!(matches!(take_line(&mut received, 3), Polled::TooLong));
    assert_eq!(received, b"one\ntwo\nthr".to_vec());
    assert!(matches!(take_line(&mut received, 4), Polled::Line(line) if line == b"one\n"));
    assert!(matches!(take_line(&mut received, 100), Polled::Line(line) if line == b"two\n"));
    assert!(matches!(take_line(&mut received, 100), Polled::Nothing));
    assert_eq!(received, b"thr".to_vec());
    received.extend_from_slice(b"ee\n");
    assert!(matches!(take_line(&mut received, 100), Polled::Line(line) if line == b"three\n"));
    assert!(received.is_empty());
}

#[test]
fn a_framed_line_comes_out_as_it_went_in() {
    let mut received = frame_line(b"HELLO".to_vec());
    received.extend_from_slice(&frame_line(b"PING".to_vec()));
    assert!(matches!(take_line(&mut received, 64), Polled::Line(line) if line == b"HELLO\n"));
    assert_eq!(received, b"PING\n".to_vec());
}

#[test]
fn handles_are_positive() {
    assert_eq!(next_handle(1), (1, 2));
    assert_eq!(next_handle(i32::MAX), (i32::MAX, i32::MIN));
    assert_eq!(next_handle(i32::MIN), (1, i32::MIN + 1));
    assert_eq!(next_handle(0), (1, 1));
}

#[test]
fn a_write_goes_on_while_it_can() {
    let start = WriteState { written: 0, spins: 0 };
    assert_eq!(
        write_step(start, WriteOutcome::Taken(4), 10),
        (WriteState { written: 4, spins: 0 }, WriteStep::Again)
    );
    assert_eq!(
        write_step(WriteState { written: 4, spins: 9 }, WriteOutcome::Taken(6), 10),
        (WriteState { written: 10, spins: 0 }, WriteStep::Done)
    );
    assert_eq!(write_step(start, WriteOutcome::Taken(0), 10).1, WriteStep::WriteZero);
    assert_eq!(write_step(start, WriteOutcome::Failed, 10).1, WriteStep::Failed);
    let busy = |spins: usize| write_step(WriteState { written: 4, spins }, WriteOutcome::Busy, 10);
    assert_eq!(busy(0), (WriteState { written: 4, spins: 1 }, WriteStep::Yield));
    assert_eq!(busy(30).1, WriteStep::Yield);
    assert_eq!(busy(31).1, WriteStep::Pause);
    assert_eq!(busy(254).1, WriteStep::Pause);
    assert_eq!(busy(255).1, WriteStep::StillBusy);
    assert_eq!((YIELD_SPINS, SPIN_LIMIT), (32, 256));
}

#[test]
fn a_client_waits_for_a_welcome() {
    assert!(accept_welcome(Some(ServerFrame::Welcome { server_time_unix_ns: 1 })).is_ok());
    assert!(matches!(accept_welcome(None), Err(ClientError::Disconnected)));
    let refused = accept_welcome(Some(ServerFrame::Error { code: "c".into(), message: "m".into() }));
    assert!(matches!(refused, Err(ClientError::Rejected { code, message }) if code == "c" && message == "m"));
    let odd = accept_welcome(Some(ServerFrame::Pong { server_time_unix_ns: 1 }));
    assert!(matches!(odd, Err(ClientError::Unexpected(ServerFrame::Pong { .. }))));
    assert_eq!(rejected_words("c", "m"), "CopierR rejected connection: c: m");
}

#[test]
fn a_client_reads_frames_until_the_end() {
    assert!(matches!(next_frame(0, ""), Ok(None)));
    assert!(matches!(
        next_frame(9, "PONG\t1\t7\n"),
        Ok(Some(ServerFrame::Pong { server_time_unix_ns: 7 }))
    ));
    assert!(matches!(next_frame(4, "BAD\n"), Err(ClientError::Wire(WireError::UnknownFrame(_)))));
}

#[test]
fn the_log_keeps_the_last_lines() {
    let mut log = Log::new();
    assert!(log.lines().is_empty());
    log.push("out", "hello");
    assert_eq!(log.lines(), vec!["[out] hello"]);
    for i in 0..LOG_LIMIT {
        log.push("err", &i.to_string());
    }
    let lines = log.lines();
    assert_eq!(lines.len(), 200);
    assert_eq!(lines[0], "[err] 0");
    assert_eq!(lines[199], "[err] 199");
}

#[test]
fn paths_of_a_start() {
    assert_eq!(chosen_path(""), "copierr.test.toml");
    assert_eq!(chosen_path("x.toml"), "x.toml");
    assert_eq!(chosen_dir(None, "/now".into()), "/now");
    assert_eq!(chosen_dir(Some(String::new()), "/now".into()), "/now");
    assert_eq!(chosen_dir(Some("/there".into()), "/now".into()), "/there");
}

#[test]
fn secrets_of_a_start() {
    let given = pairs(&[("A", "1"), (" ", "2"), ("B", ""), ("C", "3")]);
    assert_eq!(usable_secrets(given), pairs(&[("A", "1"), ("C", "3")]));
}

#[test]
fn words_of_starts_and_stops() {
    assert_eq!(start_refusal(Daemon::Running).as_deref(), Some("CopierR is already running."));
    assert_eq!(start_refusal(Daemon::Exited), None);
    assert_eq!(start_refusal(Daemon::Absent), None);
    assert_eq!(started_message(Some(42)), "CopierR daemon started (pid 42).");
    assert_eq!(started_message(None), "CopierR daemon started.");
    assert_eq!(stopped_message(Daemon::Absent), "CopierR is not running.");
    assert_eq!(stopped_message(Daemon::Exited), "CopierR daemon stopped.");
    assert_eq!(stopped_message(Daemon::Running), "CopierR daemon stopped.");
}
