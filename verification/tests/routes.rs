use copierr::double::Double;
use copierr::model::{MirrorBinding, Platform, Side, TradeAction, TradeEvent};
use copierr::routing::{
    command_id, copy_rules, default_max_volume, default_one, default_true, default_volume_step, normalize_step, CopyEngine,
    RouteError, RouteRule, SizingMode,
};
use copierr::steps::{bring_between, first_between, last_between};
use copierr::table::Table;
use sha2::{Digest, Sha256};

fn double(x: f64) -> Double {
    Double { bits: x.to_bits() }
}

fn native(x: Double) -> f64 {
    f64::from_bits(x.bits)
}

fn route() -> RouteRule {
    let mut symbol_map = Table::new();
    symbol_map.insert("XAUUSD".to_string(), "XAUUSD.a".to_string());
    RouteRule {
        id: "r1".into(),
        source_account_id: "master".into(),
        target_account_id: "follower".into(),
        enabled: true,
        sizing: SizingMode::Multiplier,
        size_value: double(2.0),
        reverse: true,
        copy_sl_tp: true,
        min_volume: double(0.01),
        max_volume: double(10.0),
        volume_step: double(0.01),
        allow_buy: false,
        allow_sell: false,
        allow_symbols: Vec::new(),
        deny_symbols: Vec::new(),
        symbol_map,
        symbol_prefix: String::new(),
        symbol_suffix: String::new(),
        max_event_age_ms: 0,
    }
}

fn event(action: TradeAction, volume: f64) -> TradeEvent {
    TradeEvent {
        event_id: format!("evt-{}-{volume}", action.to_string()),
        source_account_id: "master".into(),
        platform: Platform::Mt5,
        action,
        source_order_id: "100".into(),
        symbol: "XAUUSD".into(),
        side: Some(Side::Buy),
        volume: double(volume),
        remaining_volume: Some(double(0.75)),
        price: None,
        stop_loss: Some(double(2300.0)),
        take_profit: Some(double(2400.0)),
        timestamp_unix_ns: 1,
        origin_command_id: None,
    }
}

fn mirror(route: &RouteRule) -> MirrorBinding {
    MirrorBinding {
        route_id: route.id.clone(),
        source_account_id: "master".into(),
        source_order_id: "100".into(),
        target_account_id: "follower".into(),
        target_order_id: "900".into(),
        source_open_volume: double(1.0),
        source_remaining_volume: double(1.0),
        target_open_volume: double(2.0),
        target_remaining_volume: double(2.0),
    }
}

#[test]
fn open_applies_mapping_reverse_and_multiplier() {
    let route = route();
    let engine = CopyEngine::new(vec![route.clone()]).expect("engine");
    let command = engine
        .build_command(&event(TradeAction::Open, 0.5), &route, None, 2)
        .expect("route")
        .expect("command");
    assert_eq!(command.symbol, "XAUUSD.a");
    assert_eq!(command.side, Some(Side::Sell));
    assert_eq!(native(command.volume), 1.0);
}

#[test]
fn reduce_scales_from_original_mirror_ratio() {
    let route = route();
    let engine = CopyEngine::new(vec![route.clone()]).expect("engine");
    let mirror = mirror(&route);
    let command = engine
        .build_command(&event(TradeAction::Reduce, 0.25), &route, Some(&mirror), 2)
        .expect("route")
        .expect("command");
    assert_eq!(command.target_order_id.as_deref(), Some("900"));
    assert_eq!(native(command.volume), 0.5);
}

#[test]
fn a_command_is_named_by_event_route_and_account() {
    let route = route();
    let id = command_id(&event(TradeAction::Open, 0.5), &route);
    assert_eq!(id.len(), 32);
    assert!(id.chars().all(|c| c.is_ascii_digit() || ('a'..='f').contains(&c)));
    assert_eq!(id, command_id(&event(TradeAction::Open, 0.5), &route));
    let mut other = route.clone();
    other.id = "r2".into();
    assert_ne!(id, command_id(&event(TradeAction::Open, 0.5), &other));
    assert_ne!(id, command_id(&event(TradeAction::Open, 0.25), &route));
}

#[test]
fn the_name_of_a_command_is_half_a_digest() {
    let route = route();
    let event = event(TradeAction::Open, 0.5);
    let mut hasher = Sha256::new();
    hasher.update(b"copierr:v1\0");
    hasher.update(event.event_id.as_bytes());
    hasher.update(b"\0");
    hasher.update(route.id.as_bytes());
    hasher.update(b"\0");
    hasher.update(route.target_account_id.as_bytes());
    let digest = hasher.finalize();
    let mut want = String::new();
    for byte in &digest[..16] {
        want.push_str(&format!("{byte:02x}"));
    }
    assert_eq!(command_id(&event, &route), want);
}

fn theirs(value: f64, step: f64) -> f64 {
    if value <= 0.0 {
        return 0.0;
    }
    ((value / step).round() * step * 100_000_000.0).round() / 100_000_000.0
}

#[test]
fn volumes_come_in_steps() {
    for value in [0.0, -1.0, 0.004, 0.005, 0.015, 0.1 + 0.2, 1.2345, 99999.999, f64::NAN, 1e-9] {
        for step in [0.01, 0.1, 1.0, 0.25, 1e-8] {
            let ours = native(normalize_step(double(value), double(step)));
            let want = theirs(value, step);
            assert!(ours == want || (ours.is_nan() && want.is_nan()), "{value} {step}: {ours} {want}");
        }
    }
}

#[test]
fn defaults_are_those_of_the_configuration() {
    assert!(default_true());
    assert_eq!(native(default_one()), 1.0);
    assert_eq!(native(default_max_volume()), 100_000.0);
    assert_eq!(native(default_volume_step()), 0.01);
    assert_eq!(SizingMode::default(), SizingMode::Mirror);
}

#[test]
fn sizing_modes_and_bounds() {
    let mut route = route();
    route.reverse = false;
    assert_eq!(native(route.open_volume(double(0.5))), 1.0);
    route.sizing = SizingMode::Mirror;
    assert_eq!(native(route.open_volume(double(0.5))), 0.5);
    route.sizing = SizingMode::Fixed;
    assert_eq!(native(route.open_volume(double(0.5))), 2.0);
    route.sizing = SizingMode::Mirror;
    assert_eq!(native(route.open_volume(double(50.0))), 10.0);
    assert_eq!(native(route.open_volume(double(0.0001))), 0.01);
    assert_eq!(native(route.normalize_reduce_volume(double(5.0), double(1.25))), 1.25);
    assert_eq!(native(route.normalize_reduce_volume(double(-5.0), double(1.25))), 0.0);
}

#[test]
fn symbols_are_mapped_or_decorated() {
    let mut route = route();
    route.symbol_prefix = "p.".into();
    route.symbol_suffix = ".s".into();
    assert_eq!(route.target_symbol("XAUUSD"), "XAUUSD.a");
    assert_eq!(route.target_symbol("EURUSD"), "p.EURUSD.s");
}

#[test]
fn filters_hold_events_back() {
    let engine = CopyEngine::new(Vec::new()).expect("engine");
    let open = event(TradeAction::Open, 0.5);
    let mut off = route();
    off.enabled = false;
    assert!(engine.build_command(&open, &off, None, 2).unwrap().is_none());
    let mut only = route();
    only.allow_symbols = vec!["EURUSD".into()];
    assert!(engine.build_command(&open, &only, None, 2).unwrap().is_none());
    let mut denied = route();
    denied.deny_symbols = vec!["XAUUSD".into()];
    assert!(engine.build_command(&open, &denied, None, 2).unwrap().is_none());
    let mut sells = route();
    sells.allow_sell = true;
    assert!(engine.build_command(&open, &sells, None, 2).unwrap().is_none());
    sells.allow_buy = true;
    assert!(engine.build_command(&open, &sells, None, 2).unwrap().is_some());
    let mut fresh = route();
    fresh.max_event_age_ms = 5;
    assert!(engine.build_command(&open, &fresh, None, 5_000_001).unwrap().is_some());
    assert!(engine.build_command(&open, &fresh, None, 5_000_002).unwrap().is_none());
    let mut ancient = event(TradeAction::Open, 0.5);
    ancient.timestamp_unix_ns = i64::MIN;
    assert!(engine.build_command(&ancient, &fresh, None, i64::MAX).unwrap().is_none());
}

#[test]
fn protection_is_held_back() {
    let engine = CopyEngine::new(Vec::new()).expect("engine");
    let mut bare = route();
    bare.copy_sl_tp = false;
    let command = engine
        .build_command(&event(TradeAction::Open, 0.5), &bare, None, 2)
        .unwrap()
        .unwrap();
    assert_eq!(command.stop_loss, None);
    assert_eq!(command.take_profit, None);
}

#[test]
fn later_actions_need_a_binding() {
    let engine = CopyEngine::new(Vec::new()).expect("engine");
    let route = route();
    for action in [TradeAction::Modify, TradeAction::Reduce, TradeAction::Close] {
        match engine.build_command(&event(action, 0.5), &route, None, 2) {
            Err(RouteError::MissingMirror(id)) => assert_eq!(id, "r1"),
            other => panic!("{other:?}"),
        }
    }
    let mut broken = mirror(&route);
    broken.source_open_volume = double(0.0);
    let error = engine
        .build_command(&event(TradeAction::Reduce, 0.5), &route, Some(&broken), 2)
        .unwrap_err();
    assert_eq!(error.to_string(), "mirror binding is invalid for route: r1");
    let close = engine
        .build_command(&event(TradeAction::Close, 0.5), &route, Some(&mirror(&route)), 2)
        .unwrap()
        .unwrap();
    assert_eq!(native(close.volume), 2.0);
    assert_eq!(close.target_order_id.as_deref(), Some("900"));
}

#[test]
fn faulty_rules_are_refused() {
    let refused = |rule: RouteRule| CopyEngine::new(vec![route(), rule]).err().map(|e| e.to_string());
    let mut nameless = route();
    nameless.id = String::new();
    assert_eq!(refused(nameless).unwrap(), "invalid route rule: ");
    let mut own = route();
    own.target_account_id = "master".into();
    assert_eq!(refused(own).unwrap(), "route may not target its own source account: r1");
    let mut stepless = route();
    stepless.volume_step = double(0.0);
    assert_eq!(refused(stepless).unwrap(), "invalid volume policy on route: r1");
    let mut sizeless = route();
    sizeless.size_value = double(0.0);
    assert_eq!(refused(sizeless).unwrap(), "invalid volume policy on route: r1");
    let mut mirrored = route();
    mirrored.size_value = double(0.0);
    mirrored.sizing = SizingMode::Mirror;
    assert!(refused(mirrored).is_none());
    assert_eq!(
        RouteError::MissingMirror("x".into()).to_string(),
        "mirror binding is missing for route: x"
    );
}

#[test]
fn rules_are_sorted_by_source() {
    let mut second = route();
    second.id = "r2".into();
    let mut other = route();
    other.id = "r3".into();
    other.source_account_id = "other".into();
    let engine = CopyEngine::new(vec![route(), other, second]).expect("engine");
    let ids: Vec<&str> = engine.routes_for("master").iter().map(|r| r.id.as_str()).collect();
    assert_eq!(ids, vec!["r1", "r2"]);
    assert_eq!(engine.routes_for("other").len(), 1);
    assert_eq!(engine.routes_for("nobody").len(), 0);
}

#[test]
fn an_opening_stays_within_its_bounds() {
    let mut route = route();
    route.sizing = SizingMode::Mirror;
    route.volume_step = double(1.0);
    route.min_volume = double(0.0);
    route.max_volume = double(2.5);
    assert_eq!(native(route.normalize_open_volume(double(4.0))), 2.0);
    assert_eq!(native(route.normalize_open_volume(double(2.4))), 2.0);
    assert_eq!(native(route.normalize_open_volume(double(0.2))), 0.0);
    route.min_volume = double(0.4);
    assert_eq!(native(route.normalize_open_volume(double(0.1))), 1.0);
    assert_eq!(native(route.normalize_open_volume(double(1.6))), 2.0);
    route.max_volume = double(0.7);
    assert_eq!(native(route.normalize_open_volume(double(0.1))), 0.4);
    assert_eq!(native(route.normalize_open_volume(double(5.0))), 0.7);
    assert!(native(route.normalize_open_volume(double(f64::NAN))).is_nan());
}

#[test]
fn the_command_for_an_opening_stays_within_the_bounds() {
    let mut rule = route();
    rule.sizing = SizingMode::Mirror;
    rule.allow_buy = true;
    rule.volume_step = double(1.0);
    rule.min_volume = double(0.0);
    rule.max_volume = double(2.5);
    let engine = CopyEngine::new(vec![rule]).expect("rules");
    let route = &engine.routes_for("master")[0];
    let command = engine
        .build_command(&event(TradeAction::Open, 4.0), route, None, 1)
        .expect("planned")
        .expect("a command");
    assert_eq!(native(command.volume), 2.0);
}

#[test]
fn openings_of_all_sizes_stay_within_their_bounds() {
    for step in [0.01, 0.1, 0.25, 1.0, 3.0] {
        for (low, high) in [(0.01, 10.0), (0.0, 2.5), (0.4, 1.3), (0.015, 7.77), (2.0, 2.0)] {
            for value in [-1.0, 0.0, 0.004, 0.1 + 0.2, 1.2345, 2.5, 7.775, 1e9, f64::INFINITY] {
                let r = native(bring_between(double(value), double(low), double(high), double(step)));
                assert!(low <= r && r <= high, "{value} {low} {high} {step}: {r}");
                let steps = (0..2000).map(|n| ((f64::from(n) * step) * 1e8).round() / 1e8);
                let inside: Vec<f64> = steps.filter(|volume| low <= *volume && *volume <= high).collect();
                if inside.is_empty() {
                    assert_eq!(r, value.clamp(low, high));
                } else {
                    assert!(inside.contains(&r), "{value} {low} {high} {step}: {r}");
                }
            }
        }
    }
}

#[test]
fn the_first_and_last_steps_between_bounds() {
    let last = |low: f64, high: f64, step: f64| last_between(double(low), double(high), double(step)).map(native);
    let first = |low: f64, high: f64, step: f64| first_between(double(low), double(high), double(step)).map(native);
    assert_eq!(last(0.0, 2.5, 1.0), Some(2.0));
    assert_eq!(first(0.4, 2.5, 1.0), Some(1.0));
    assert_eq!(first(0.0, 2.5, 1.0), Some(0.0));
    assert_eq!(last(0.4, 0.7, 1.0), None);
    assert_eq!(first(0.4, 0.7, 1.0), None);
    assert_eq!(last(0.015, 0.039, 0.01), Some(0.03));
    assert_eq!(first(0.015, 0.039, 0.01), Some(0.02));
    assert_eq!(last(-3.0, -1.0, 1.0), None);
}

#[test]
fn hundredths_are_the_nearest_ones() {
    let step = double(0.01);
    for k in 0..2_000u32 {
        let value = f64::from(k) * 49.737 + 0.0049;
        let r = native(normalize_step(double(value), step));
        let count = (r * 100.0).round();
        assert_eq!(r, count / 100.0);
        assert!((r - value).abs() <= 0.005 + 1e-8);
        assert_eq!(native(normalize_step(double(r), step)), r);
    }
    assert_eq!(native(normalize_step(double(100_000.0), step)), 100_000.0);
    assert_eq!(native(normalize_step(double(0.1 + 0.2), step)), 0.3);
    for step in [0.01, 7.0, 1e-8] {
        assert_eq!(normalize_step(double(-3.0), double(step)).bits, 0);
        assert_eq!(normalize_step(double(-0.0), double(step)).bits, 0);
    }
}

#[test]
fn stepping_keeps_the_order() {
    let mut before = 0.0;
    for k in 0..2000u32 {
        let r = native(normalize_step(double(f64::from(k) * 0.0031), double(0.02)));
        assert!(before <= r);
        before = r;
    }
}

#[test]
fn a_reduction_takes_no_more_than_is_left_in_steps() {
    let route = route();
    for left in [0.0, 0.01, 0.3, 1.25, 77.77] {
        for wanted in [0.004, 0.01, 0.299, 1.0, 50.0, 1e6, f64::INFINITY] {
            let r = native(route.normalize_reduce_volume(double(wanted), double(left)));
            assert!(r <= left, "{wanted} of {left}: {r}");
        }
    }
}

#[test]
fn copied_rules_say_the_same() {
    let rules = vec![route()];
    let copies = copy_rules(&rules);
    assert_eq!(copies.len(), 1);
    assert_eq!(copies[0].id, rules[0].id);
    assert_eq!(copies[0].size_value, rules[0].size_value);
    assert_eq!(copies[0].symbol_map.get("XAUUSD").map(|name| name.as_str()), Some("XAUUSD.a"));
    let event = event(TradeAction::Open, 0.5);
    assert_eq!(command_id(&event, &copies[0]), command_id(&event, &rules[0]));
}
