use copierr::config::{
    accept_secret, default_ctrader_demo_url, default_ctrader_live_url, default_journal_path, default_listen,
    default_magic, default_metaapi_poll_ms, default_metaapi_provisioning_base, default_metaapi_region,
    default_queue_capacity, AccountBackend, AccountConfig, AccountRole, CTraderAccountConfig, CTraderEnvironment,
    CTraderGlobalConfig, ConfigError, DaemonConfig, Durability, MetaApiAccountConfig, MetaApiGlobalConfig,
    SecretError,
};
use copierr::double::Double;
use copierr::model::Platform;
use copierr::routing::{RouteError, RouteRule, SizingMode};
use copierr::table::Table;
use copierr::venues::plan_venues;

fn double(x: f64) -> Double {
    Double { bits: x.to_bits() }
}

fn agent(id: &str) -> AccountConfig {
    AccountConfig {
        id: id.into(),
        platform: Platform::Mt5,
        role: AccountRole::Both,
        backend: AccountBackend::Agent,
        token: "secret".into(),
        allow_rebroadcast: false,
        ctrader: None,
        metaapi: None,
        terminal: None,
    }
}

fn ctrader_account(id: &str, environment: CTraderEnvironment) -> AccountConfig {
    let mut account = agent(id);
    account.platform = Platform::CTrader;
    account.backend = AccountBackend::CTraderOpenApi;
    account.token = String::new();
    account.ctrader = Some(CTraderAccountConfig {
        ctid_trader_account_id: 7,
        access_token_env: "TOKEN".into(),
        environment,
    });
    account
}

fn metaapi_account(id: &str) -> AccountConfig {
    let mut account = agent(id);
    account.backend = AccountBackend::MetaApi;
    account.token = String::new();
    account.metaapi = Some(MetaApiAccountConfig {
        account_id: Some("abc".into()),
        login: None,
        server: None,
        password_env: None,
        region: default_metaapi_region(),
        api_base: None,
        poll_interval_ms: 25,
        magic: default_magic(),
    });
    account
}

fn route(id: &str, source: &str, target: &str) -> RouteRule {
    RouteRule {
        id: id.into(),
        source_account_id: source.into(),
        target_account_id: target.into(),
        enabled: true,
        sizing: SizingMode::Mirror,
        size_value: double(1.0),
        reverse: false,
        copy_sl_tp: true,
        min_volume: double(0.0),
        max_volume: double(100.0),
        volume_step: double(0.01),
        allow_buy: false,
        allow_sell: false,
        allow_symbols: Vec::new(),
        deny_symbols: Vec::new(),
        symbol_map: Table::new(),
        symbol_prefix: String::new(),
        symbol_suffix: String::new(),
        max_event_age_ms: 0,
    }
}

fn ctrader_global() -> CTraderGlobalConfig {
    CTraderGlobalConfig {
        client_id_env: "ID".into(),
        client_secret_env: "SECRET".into(),
        live_url: default_ctrader_live_url(),
        demo_url: default_ctrader_demo_url(),
    }
}

fn metaapi_global() -> MetaApiGlobalConfig {
    MetaApiGlobalConfig { auth_token_env: "AUTH".into(), provisioning_base: default_metaapi_provisioning_base() }
}

fn config() -> DaemonConfig {
    DaemonConfig {
        listen: default_listen(),
        journal_path: default_journal_path(),
        durability: Durability::default(),
        queue_capacity: default_queue_capacity(),
        accounts: vec![
            agent("a"),
            agent("b"),
            ctrader_account("c", CTraderEnvironment::Live),
            metaapi_account("m"),
        ],
        routes: vec![route("r", "a", "b")],
        ctrader: Some(ctrader_global()),
        metaapi: Some(metaapi_global()),
        egress_profiles: Table::new(),
    }
}

fn fault(config: &DaemonConfig) -> ConfigError {
    config.validate().expect_err("a fault")
}

#[test]
fn a_sound_configuration_is_accepted() {
    assert!(config().validate().is_ok());
    let mut empty = config();
    empty.accounts.clear();
    empty.routes.clear();
    assert!(empty.validate().is_ok());
}

#[test]
fn what_is_left_out_of_a_configuration() {
    assert_eq!(default_queue_capacity(), 2048);
    assert_eq!(default_listen(), "127.0.0.1:48100");
    assert_eq!(default_journal_path(), "var/copier.journal.jsonl");
    assert_eq!(default_ctrader_live_url(), "wss://live.ctraderapi.com:5036");
    assert_eq!(default_ctrader_demo_url(), "wss://demo.ctraderapi.com:5036");
    assert_eq!(
        default_metaapi_provisioning_base(),
        "https://mt-provisioning-api-v1.agiliumtrade.agiliumtrade.ai"
    );
    assert_eq!(default_metaapi_region(), "new-york");
    assert_eq!(default_metaapi_poll_ms(), 100);
    assert_eq!(default_magic(), 8_104_811);
    assert_eq!(AccountRole::default(), AccountRole::Both);
    assert_eq!(Durability::default(), Durability::Flush);
    assert_eq!(AccountBackend::default(), AccountBackend::Agent);
    assert_eq!(CTraderEnvironment::default(), CTraderEnvironment::Live);
}

#[test]
fn roles_that_publish() {
    assert!(AccountRole::Master.can_publish());
    assert!(!AccountRole::Follower.can_publish());
    assert!(AccountRole::Both.can_publish());
}

#[test]
fn an_account_is_found_by_its_name() {
    let config = config();
    assert_eq!(config.account("b").map(|account| account.id.as_str()), Some("b"));
    assert!(config.account("z").is_none());
}

#[test]
fn faults_of_the_queue_and_of_names() {
    let mut bad = config();
    bad.queue_capacity = 0;
    assert!(matches!(fault(&bad), ConfigError::QueueCapacity));
    assert_eq!(fault(&bad).to_string(), "queue_capacity must be positive");

    let mut bad = config();
    bad.accounts[1].id = " \t\u{a0}".into();
    assert!(matches!(fault(&bad), ConfigError::EmptyAccountId));

    let mut bad = config();
    bad.accounts[1].id = "a".into();
    assert_eq!(fault(&bad).to_string(), "duplicate account id: a");
    assert!(matches!(fault(&bad), ConfigError::DuplicateAccount(id) if id == "a"));
}

#[test]
fn an_agent_needs_a_token() {
    let mut bad = config();
    bad.accounts[0].token.clear();
    assert!(matches!(fault(&bad), ConfigError::TokenRequired(id) if id == "a"));
    assert_eq!(fault(&bad).to_string(), "agent account a requires token");
}

#[test]
fn faults_of_a_ctrader_account() {
    let mut bad = config();
    bad.accounts[2].platform = Platform::Mt5;
    assert!(matches!(fault(&bad), ConfigError::CTraderPlatform(id) if id == "c"));
    assert_eq!(fault(&bad).to_string(), "cTrader Open API account c must use platform=ctrader");

    let mut bad = config();
    bad.ctrader = None;
    assert!(matches!(fault(&bad), ConfigError::CTraderGlobal(id) if id == "c"));
    assert_eq!(fault(&bad).to_string(), "cTrader Open API account c requires global [ctrader] config");

    let mut bad = config();
    bad.accounts[2].ctrader = None;
    assert!(matches!(fault(&bad), ConfigError::CTraderSettings(id) if id == "c"));
    assert_eq!(fault(&bad).to_string(), "account c requires ctrader settings");

    for (ctid, env) in [(0, "TOKEN"), (-1, "TOKEN"), (1, " ")] {
        let mut bad = config();
        let settings = bad.accounts[2].ctrader.as_mut().expect("settings");
        settings.ctid_trader_account_id = ctid;
        settings.access_token_env = env.into();
        assert!(matches!(fault(&bad), ConfigError::CTraderInvalid(id) if id == "c"));
        assert_eq!(fault(&bad).to_string(), "account c has invalid cTrader direct settings");
    }

    for (id_env, secret_env) in [("", "SECRET"), ("ID", "  ")] {
        let mut bad = config();
        let global = bad.ctrader.as_mut().expect("global");
        global.client_id_env = id_env.into();
        global.client_secret_env = secret_env.into();
        assert!(matches!(fault(&bad), ConfigError::CTraderCredentials));
        assert_eq!(
            fault(&bad).to_string(),
            "ctrader client credential environment variable names may not be empty"
        );
    }
}

#[test]
fn faults_of_a_metaapi_account() {
    let mut bad = config();
    bad.accounts[3].platform = Platform::Trinity;
    assert!(matches!(fault(&bad), ConfigError::MetaApiPlatform(id) if id == "m"));
    assert_eq!(fault(&bad).to_string(), "MetaApi account m must use platform=mt4 or platform=mt5");
    let mut good = config();
    good.accounts[3].platform = Platform::Mt4;
    assert!(good.validate().is_ok());

    let mut bad = config();
    bad.metaapi = None;
    assert!(matches!(fault(&bad), ConfigError::MetaApiGlobal(id) if id == "m"));
    assert_eq!(fault(&bad).to_string(), "MetaApi account m requires global [metaapi] config");

    let mut bad = config();
    bad.accounts[3].metaapi = None;
    assert!(matches!(fault(&bad), ConfigError::MetaApiSettings(id) if id == "m"));
    assert_eq!(fault(&bad).to_string(), "account m requires metaapi settings");

    let mut bad = config();
    bad.accounts[3].metaapi.as_mut().expect("settings").poll_interval_ms = 24;
    assert!(matches!(fault(&bad), ConfigError::MetaApiPoll(id) if id == "m"));
    assert_eq!(fault(&bad).to_string(), "account m metaapi poll_interval_ms must be at least 25");

    let mut bad = config();
    bad.metaapi.as_mut().expect("global").auth_token_env = "\n".into();
    assert!(matches!(fault(&bad), ConfigError::MetaApiToken));
    assert_eq!(fault(&bad).to_string(), "metaapi auth_token_env may not be empty");
}

#[test]
fn a_metaapi_account_is_given_or_can_be_made() {
    for (account_id, login, server, password, sound) in [
        (Some("x"), None, None, None, true),
        (None, Some("l"), Some("s"), Some("p"), true),
        (Some(""), Some("l"), Some("s"), Some("p"), true),
        (None, None, Some("s"), Some("p"), false),
        (None, Some("l"), Some(""), Some("p"), false),
        (Some(""), Some("l"), Some("s"), None, false),
    ] {
        let mut tried = config();
        let settings = tried.accounts[3].metaapi.as_mut().expect("settings");
        settings.account_id = account_id.map(String::from);
        settings.login = login.map(String::from);
        settings.server = server.map(String::from);
        settings.password_env = password.map(String::from);
        assert_eq!(tried.validate().is_ok(), sound);
        if !sound {
            assert!(matches!(fault(&tried), ConfigError::MetaApiProvisioning(_)));
            assert_eq!(
                fault(&tried).to_string(),
                "account m needs metaapi.account_id or login/server/password_env for provisioning"
            );
        }
    }
}

#[test]
fn faults_of_routes_in_a_configuration() {
    let mut bad = config();
    bad.routes.push(route("s", "x", "y"));
    assert!(matches!(fault(&bad), ConfigError::UnknownSource { .. }));
    assert_eq!(fault(&bad).to_string(), "route s references unknown source account x");

    let mut bad = config();
    bad.routes.push(route("s", "a", "y"));
    assert!(matches!(fault(&bad), ConfigError::UnknownTarget { .. }));
    assert_eq!(fault(&bad).to_string(), "route s references unknown target account y");

    let mut bad = config();
    bad.routes.push(route("s", "a", "a"));
    assert!(matches!(fault(&bad), ConfigError::Routing(RouteError::SelfRoute(id)) if id == "s"));
    assert_eq!(fault(&bad).to_string(), "invalid routing configuration");
}

#[test]
fn the_first_fault_of_a_configuration_is_told() {
    let mut bad = config();
    bad.accounts[0].token.clear();
    bad.accounts[2].ctrader = None;
    bad.routes.push(route("s", "x", "y"));
    assert!(matches!(fault(&bad), ConfigError::TokenRequired(_)));
    bad.queue_capacity = 0;
    assert!(matches!(fault(&bad), ConfigError::QueueCapacity));
}

#[test]
fn secrets_are_set_and_hold_something() {
    assert!(matches!(accept_secret("NAME", Some("x".into())), Ok(value) if value == "x"));
    let missing = accept_secret("NAME", None).expect_err("missing");
    assert!(matches!(missing, SecretError::NotSet(_)));
    assert_eq!(missing.to_string(), "required environment variable NAME is not set");
    let empty = accept_secret("NAME", Some(String::new())).expect_err("empty");
    assert!(matches!(empty, SecretError::Empty(_)));
    assert_eq!(empty.to_string(), "required environment variable NAME is empty");
}

#[test]
fn accounts_are_sorted_by_how_they_are_reached() {
    let mut config = config();
    config.accounts.push(ctrader_account("d", CTraderEnvironment::Demo));
    config.accounts.push(ctrader_account("e", CTraderEnvironment::Live));
    assert!(config.validate().is_ok());
    let plan = plan_venues(&config);
    assert_eq!(plan.ctrader_live, vec![2, 5]);
    assert_eq!(plan.ctrader_demo, vec![4]);
    assert_eq!(plan.metaapi, vec![3]);
}
