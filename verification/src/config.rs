//! The daemon's configuration and what makes it valid.

use crate::launcher::{EgressProfile, TerminalConfig};
use crate::model::Platform;
use crate::routing::{RouteError, RouteErrorView, RouteRule};
use crate::table::Table;
use crate::text::{is_blank, joined, joined_three, same};
use crate::{routing, text};
use vstd::hash_set::StringHashSet;
use vstd::prelude::*;
use vstd::string::*;

verus! {

/// What an account may do.
#[derive(Debug, Clone, Copy, PartialEq, Eq, Structural)]
pub enum AccountRole {
    Master,
    Follower,
    Both,
}

impl Default for AccountRole {
    fn default() -> (r: Self)
        ensures
            r == AccountRole::Both,
    {
        AccountRole::Both
    }
}

impl AccountRole {
    /// Whether an account of a role may be followed.
    pub open spec fn publishes(self) -> bool {
        self == AccountRole::Master || self == AccountRole::Both
    }

    /// Whether an account of this role may be followed.
    pub fn can_publish(self) -> (r: bool)
        ensures
            r == self.publishes(),
    {
        match self {
            AccountRole::Master => true,
            AccountRole::Follower => false,
            AccountRole::Both => true,
        }
    }
}

/// How far a record is written before it counts.
#[derive(Debug, Clone, Copy, PartialEq, Eq, Structural)]
pub enum Durability {
    Off,
    Flush,
    Fsync,
}

impl Default for Durability {
    fn default() -> (r: Self)
        ensures
            r == Durability::Flush,
    {
        Durability::Flush
    }
}

/// How an account is reached.
#[derive(Debug, Clone, Copy, PartialEq, Eq, Structural)]
pub enum AccountBackend {
    Agent,
    CTraderOpenApi,
    MetaApi,
}

impl Default for AccountBackend {
    fn default() -> (r: Self)
        ensures
            r == AccountBackend::Agent,
    {
        AccountBackend::Agent
    }
}

/// Which of cTrader's servers holds an account.
#[derive(Debug, Clone, Copy, PartialEq, Eq, Structural)]
pub enum CTraderEnvironment {
    Live,
    Demo,
}

impl Default for CTraderEnvironment {
    fn default() -> (r: Self)
        ensures
            r == CTraderEnvironment::Live,
    {
        CTraderEnvironment::Live
    }
}

/// What all cTrader accounts share.
#[derive(Debug, Clone)]
pub struct CTraderGlobalConfig {
    pub client_id_env: String,
    pub client_secret_env: String,
    pub live_url: String,
    pub demo_url: String,
}

/// The cTrader settings of an account.
#[derive(Debug, Clone)]
pub struct CTraderAccountConfig {
    pub ctid_trader_account_id: i64,
    pub access_token_env: String,
    pub environment: CTraderEnvironment,
}

/// What all MetaApi accounts share.
#[derive(Debug, Clone)]
pub struct MetaApiGlobalConfig {
    pub auth_token_env: String,
    pub provisioning_base: String,
}

/// The MetaApi settings of an account.
#[derive(Debug, Clone)]
pub struct MetaApiAccountConfig {
    pub account_id: Option<String>,
    pub login: Option<String>,
    pub server: Option<String>,
    pub password_env: Option<String>,
    pub region: String,
    pub api_base: Option<String>,
    pub poll_interval_ms: u64,
    pub magic: u64,
}

/// An account.
#[derive(Debug, Clone)]
pub struct AccountConfig {
    pub id: String,
    pub platform: Platform,
    pub role: AccountRole,
    pub backend: AccountBackend,
    pub token: String,
    pub allow_rebroadcast: bool,
    pub ctrader: Option<CTraderAccountConfig>,
    pub metaapi: Option<MetaApiAccountConfig>,
    pub terminal: Option<TerminalConfig>,
}

/// The configuration of the daemon.
pub struct DaemonConfig {
    pub listen: String,
    pub journal_path: String,
    pub durability: Durability,
    pub queue_capacity: usize,
    pub accounts: Vec<AccountConfig>,
    pub routes: Vec<RouteRule>,
    pub ctrader: Option<CTraderGlobalConfig>,
    pub metaapi: Option<MetaApiGlobalConfig>,
    pub egress_profiles: Table<EgressProfile>,
}

/// What is wrong with a configuration.
#[derive(Debug)]
pub enum ConfigError {
    QueueCapacity,
    EmptyAccountId,
    DuplicateAccount(String),
    TokenRequired(String),
    CTraderPlatform(String),
    CTraderGlobal(String),
    CTraderSettings(String),
    CTraderInvalid(String),
    MetaApiPlatform(String),
    MetaApiGlobal(String),
    MetaApiSettings(String),
    MetaApiPoll(String),
    MetaApiProvisioning(String),
    UnknownSource { route: String, account: String },
    UnknownTarget { route: String, account: String },
    Routing(RouteError),
    CTraderCredentials,
    MetaApiToken,
}

/// What an error of the configuration holds.
pub enum ConfigErrorView {
    QueueCapacity,
    EmptyAccountId,
    DuplicateAccount(Seq<char>),
    TokenRequired(Seq<char>),
    CTraderPlatform(Seq<char>),
    CTraderGlobal(Seq<char>),
    CTraderSettings(Seq<char>),
    CTraderInvalid(Seq<char>),
    MetaApiPlatform(Seq<char>),
    MetaApiGlobal(Seq<char>),
    MetaApiSettings(Seq<char>),
    MetaApiPoll(Seq<char>),
    MetaApiProvisioning(Seq<char>),
    UnknownSource { route: Seq<char>, account: Seq<char> },
    UnknownTarget { route: Seq<char>, account: Seq<char> },
    Routing(RouteErrorView),
    CTraderCredentials,
    MetaApiToken,
}

impl View for ConfigError {
    type V = ConfigErrorView;

    open spec fn view(&self) -> ConfigErrorView {
        match self {
            ConfigError::QueueCapacity => ConfigErrorView::QueueCapacity,
            ConfigError::EmptyAccountId => ConfigErrorView::EmptyAccountId,
            ConfigError::DuplicateAccount(id) => ConfigErrorView::DuplicateAccount(id@),
            ConfigError::TokenRequired(id) => ConfigErrorView::TokenRequired(id@),
            ConfigError::CTraderPlatform(id) => ConfigErrorView::CTraderPlatform(id@),
            ConfigError::CTraderGlobal(id) => ConfigErrorView::CTraderGlobal(id@),
            ConfigError::CTraderSettings(id) => ConfigErrorView::CTraderSettings(id@),
            ConfigError::CTraderInvalid(id) => ConfigErrorView::CTraderInvalid(id@),
            ConfigError::MetaApiPlatform(id) => ConfigErrorView::MetaApiPlatform(id@),
            ConfigError::MetaApiGlobal(id) => ConfigErrorView::MetaApiGlobal(id@),
            ConfigError::MetaApiSettings(id) => ConfigErrorView::MetaApiSettings(id@),
            ConfigError::MetaApiPoll(id) => ConfigErrorView::MetaApiPoll(id@),
            ConfigError::MetaApiProvisioning(id) => ConfigErrorView::MetaApiProvisioning(id@),
            ConfigError::UnknownSource { route, account } => ConfigErrorView::UnknownSource {
                route: route@,
                account: account@,
            },
            ConfigError::UnknownTarget { route, account } => ConfigErrorView::UnknownTarget {
                route: route@,
                account: account@,
            },
            ConfigError::Routing(error) => ConfigErrorView::Routing(error@),
            ConfigError::CTraderCredentials => ConfigErrorView::CTraderCredentials,
            ConfigError::MetaApiToken => ConfigErrorView::MetaApiToken,
        }
    }
}

impl ConfigErrorView {
    /// The error in words.
    pub open spec fn words(self) -> Seq<char> {
        match self {
            ConfigErrorView::QueueCapacity => "queue_capacity must be positive"@,
            ConfigErrorView::EmptyAccountId => "account id may not be empty"@,
            ConfigErrorView::DuplicateAccount(id) => "duplicate account id: "@ + id,
            ConfigErrorView::TokenRequired(id) => "agent account "@ + id + " requires token"@,
            ConfigErrorView::CTraderPlatform(id) => "cTrader Open API account "@ + id
                + " must use platform=ctrader"@,
            ConfigErrorView::CTraderGlobal(id) => "cTrader Open API account "@ + id
                + " requires global [ctrader] config"@,
            ConfigErrorView::CTraderSettings(id) => "account "@ + id
                + " requires ctrader settings"@,
            ConfigErrorView::CTraderInvalid(id) => "account "@ + id
                + " has invalid cTrader direct settings"@,
            ConfigErrorView::MetaApiPlatform(id) => "MetaApi account "@ + id
                + " must use platform=mt4 or platform=mt5"@,
            ConfigErrorView::MetaApiGlobal(id) => "MetaApi account "@ + id
                + " requires global [metaapi] config"@,
            ConfigErrorView::MetaApiSettings(id) => "account "@ + id
                + " requires metaapi settings"@,
            ConfigErrorView::MetaApiPoll(id) => "account "@ + id
                + " metaapi poll_interval_ms must be at least 25"@,
            ConfigErrorView::MetaApiProvisioning(id) => "account "@ + id
                + " needs metaapi.account_id or login/server/password_env for provisioning"@,
            ConfigErrorView::UnknownSource { route, account } => "route "@ + route
                + " references unknown source account "@ + account,
            ConfigErrorView::UnknownTarget { route, account } => "route "@ + route
                + " references unknown target account "@ + account,
            ConfigErrorView::Routing(_) => "invalid routing configuration"@,
            ConfigErrorView::CTraderCredentials => "ctrader client credential environment variable names may not be empty"@,
            ConfigErrorView::MetaApiToken => "metaapi auth_token_env may not be empty"@,
        }
    }
}

impl ConfigError {
    /// The error in words.
    pub fn to_string(&self) -> (r: String)
        ensures
            r@ == self@.words(),
    {
        match self {
            ConfigError::QueueCapacity => "queue_capacity must be positive".to_owned(),
            ConfigError::EmptyAccountId => "account id may not be empty".to_owned(),
            ConfigError::DuplicateAccount(id) => joined("duplicate account id: ", id.as_str()),
            ConfigError::TokenRequired(id) => joined_three(
                "agent account ",
                id.as_str(),
                " requires token",
            ),
            ConfigError::CTraderPlatform(id) => joined_three(
                "cTrader Open API account ",
                id.as_str(),
                " must use platform=ctrader",
            ),
            ConfigError::CTraderGlobal(id) => joined_three(
                "cTrader Open API account ",
                id.as_str(),
                " requires global [ctrader] config",
            ),
            ConfigError::CTraderSettings(id) => joined_three(
                "account ",
                id.as_str(),
                " requires ctrader settings",
            ),
            ConfigError::CTraderInvalid(id) => joined_three(
                "account ",
                id.as_str(),
                " has invalid cTrader direct settings",
            ),
            ConfigError::MetaApiPlatform(id) => joined_three(
                "MetaApi account ",
                id.as_str(),
                " must use platform=mt4 or platform=mt5",
            ),
            ConfigError::MetaApiGlobal(id) => joined_three(
                "MetaApi account ",
                id.as_str(),
                " requires global [metaapi] config",
            ),
            ConfigError::MetaApiSettings(id) => joined_three(
                "account ",
                id.as_str(),
                " requires metaapi settings",
            ),
            ConfigError::MetaApiPoll(id) => joined_three(
                "account ",
                id.as_str(),
                " metaapi poll_interval_ms must be at least 25",
            ),
            ConfigError::MetaApiProvisioning(id) => joined_three(
                "account ",
                id.as_str(),
                " needs metaapi.account_id or login/server/password_env for provisioning",
            ),
            ConfigError::UnknownSource { route, account } => {
                let mut out = joined_three(
                    "route ",
                    route.as_str(),
                    " references unknown source account ",
                );
                out.append(account.as_str());
                out
            },
            ConfigError::UnknownTarget { route, account } => {
                let mut out = joined_three(
                    "route ",
                    route.as_str(),
                    " references unknown target account ",
                );
                out.append(account.as_str());
                out
            },
            ConfigError::Routing(_) => "invalid routing configuration".to_owned(),
            ConfigError::CTraderCredentials => "ctrader client credential environment variable names may not be empty".to_owned(),
            ConfigError::MetaApiToken => "metaapi auth_token_env may not be empty".to_owned(),
        }
    }
}

/// Whether a text that may be absent is absent or empty.
pub open spec fn lacking(value: Option<String>) -> bool {
    value is None || value->Some_0@.len() == 0
}

fn is_lacking(value: &Option<String>) -> (r: bool)
    ensures
        r == lacking(*value),
{
    match value {
        Some(inner) => inner.as_str().is_empty(),
        None => true,
    }
}

/// The names of accounts.
pub open spec fn account_ids(accounts: Seq<AccountConfig>) -> Set<Seq<char>> {
    Set::new(
        |id: Seq<char>|
            exists|i: int| 0 <= i < accounts.len() && (#[trigger] accounts[i]).id@ == id,
    )
}

/// The first account of a name.
pub open spec fn account_named(accounts: Seq<AccountConfig>, id: Seq<char>) -> Option<AccountConfig>
    decreases accounts.len(),
{
    if accounts.len() == 0 {
        None
    } else {
        match account_named(accounts.drop_last(), id) {
            Some(account) => Some(account),
            None => if accounts.last().id@ == id {
                Some(accounts.last())
            } else {
                None
            },
        }
    }
}

impl DaemonConfig {
    /// What is wrong with how an account is reached, if anything.
    pub open spec fn backend_fault(&self, account: AccountConfig) -> Option<ConfigErrorView> {
        let id = account.id@;
        match account.backend {
            AccountBackend::Agent => if account.token@.len() == 0 {
                Some(ConfigErrorView::TokenRequired(id))
            } else {
                None
            },
            AccountBackend::CTraderOpenApi => if account.platform != Platform::CTrader {
                Some(ConfigErrorView::CTraderPlatform(id))
            } else if self.ctrader is None {
                Some(ConfigErrorView::CTraderGlobal(id))
            } else if account.ctrader is None {
                Some(ConfigErrorView::CTraderSettings(id))
            } else if account.ctrader->Some_0.ctid_trader_account_id <= 0 || text::blank(
                account.ctrader->Some_0.access_token_env@,
            ) {
                Some(ConfigErrorView::CTraderInvalid(id))
            } else {
                None
            },
            AccountBackend::MetaApi => if account.platform != Platform::Mt4 && account.platform
                != Platform::Mt5 {
                Some(ConfigErrorView::MetaApiPlatform(id))
            } else if self.metaapi is None {
                Some(ConfigErrorView::MetaApiGlobal(id))
            } else if account.metaapi is None {
                Some(ConfigErrorView::MetaApiSettings(id))
            } else if account.metaapi->Some_0.poll_interval_ms < 25 {
                Some(ConfigErrorView::MetaApiPoll(id))
            } else if lacking(account.metaapi->Some_0.account_id) && (lacking(
                account.metaapi->Some_0.login,
            ) || lacking(account.metaapi->Some_0.server) || lacking(
                account.metaapi->Some_0.password_env,
            )) {
                Some(ConfigErrorView::MetaApiProvisioning(id))
            } else {
                None
            },
        }
    }

    /// The fault of the first account that has one: its name is blank or was
    /// taken before, or it cannot be reached as it says.
    pub open spec fn accounts_fault(&self, accounts: Seq<AccountConfig>) -> Option<ConfigErrorView>
        decreases accounts.len(),
    {
        if accounts.len() == 0 {
            None
        } else {
            let account = accounts.last();
            match self.accounts_fault(accounts.drop_last()) {
                Some(fault) => Some(fault),
                None => if text::blank(account.id@) {
                    Some(ConfigErrorView::EmptyAccountId)
                } else if account_ids(accounts.drop_last()).contains(account.id@) {
                    Some(ConfigErrorView::DuplicateAccount(account.id@))
                } else {
                    self.backend_fault(account)
                },
            }
        }
    }

    /// The fault of the first route that names an account that there is not.
    pub open spec fn ends_fault(&self, routes: Seq<RouteRule>) -> Option<ConfigErrorView>
        decreases routes.len(),
    {
        if routes.len() == 0 {
            None
        } else {
            let route = routes.last();
            let ids = account_ids(self.accounts@);
            match self.ends_fault(routes.drop_last()) {
                Some(fault) => Some(fault),
                None => if !ids.contains(route.source_account_id@) {
                    Some(
                        ConfigErrorView::UnknownSource {
                            route: route.id@,
                            account: route.source_account_id@,
                        },
                    )
                } else if !ids.contains(route.target_account_id@) {
                    Some(
                        ConfigErrorView::UnknownTarget {
                            route: route.id@,
                            account: route.target_account_id@,
                        },
                    )
                } else {
                    None
                },
            }
        }
    }

    /// What is wrong with what accounts share, if anything.
    pub open spec fn shared_fault(&self) -> Option<ConfigErrorView> {
        if self.ctrader is Some && (text::blank(self.ctrader->Some_0.client_id_env@)
            || text::blank(self.ctrader->Some_0.client_secret_env@)) {
            Some(ConfigErrorView::CTraderCredentials)
        } else if self.metaapi is Some && text::blank(self.metaapi->Some_0.auth_token_env@) {
            Some(ConfigErrorView::MetaApiToken)
        } else {
            None
        }
    }

    /// What is wrong with a configuration, if anything.
    pub open spec fn fault(&self) -> Option<ConfigErrorView> {
        if self.queue_capacity == 0 {
            Some(ConfigErrorView::QueueCapacity)
        } else if self.accounts_fault(self.accounts@) is Some {
            self.accounts_fault(self.accounts@)
        } else if self.ends_fault(self.routes@) is Some {
            self.ends_fault(self.routes@)
        } else {
            match routing::rules_fault(self.routes@) {
                Some(fault) => Some(ConfigErrorView::Routing(fault)),
                None => self.shared_fault(),
            }
        }
    }

    fn check_backend(&self, account: &AccountConfig) -> (r: Result<(), ConfigError>)
        ensures
            match self.backend_fault(*account) {
                Some(fault) => r is Err && r->Err_0@ == fault,
                None => r is Ok,
            },
    {
        match account.backend {
            AccountBackend::Agent => {
                if account.token.as_str().is_empty() {
                    return Err(ConfigError::TokenRequired(account.id.clone()));
                }
            },
            AccountBackend::CTraderOpenApi => {
                if account.platform != Platform::CTrader {
                    return Err(ConfigError::CTraderPlatform(account.id.clone()));
                }
                if self.ctrader.is_none() {
                    return Err(ConfigError::CTraderGlobal(account.id.clone()));
                }
                match &account.ctrader {
                    None => {
                        return Err(ConfigError::CTraderSettings(account.id.clone()));
                    },
                    Some(direct) => {
                        if direct.ctid_trader_account_id <= 0 || is_blank(
                            direct.access_token_env.as_str(),
                        ) {
                            return Err(ConfigError::CTraderInvalid(account.id.clone()));
                        }
                    },
                }
            },
            AccountBackend::MetaApi => {
                if account.platform != Platform::Mt4 && account.platform != Platform::Mt5 {
                    return Err(ConfigError::MetaApiPlatform(account.id.clone()));
                }
                if self.metaapi.is_none() {
                    return Err(ConfigError::MetaApiGlobal(account.id.clone()));
                }
                match &account.metaapi {
                    None => {
                        return Err(ConfigError::MetaApiSettings(account.id.clone()));
                    },
                    Some(direct) => {
                        if direct.poll_interval_ms < 25 {
                            return Err(ConfigError::MetaApiPoll(account.id.clone()));
                        }
                        if is_lacking(&direct.account_id) && (is_lacking(&direct.login)
                            || is_lacking(&direct.server) || is_lacking(&direct.password_env)) {
                            return Err(ConfigError::MetaApiProvisioning(account.id.clone()));
                        }
                    },
                }
            },
        }
        Ok(())
    }

    /// Checks a configuration.
    pub fn validate(&self) -> (r: Result<(), ConfigError>)
        ensures
            match self.fault() {
                Some(fault) => r is Err && r->Err_0@ == fault,
                None => r is Ok,
            },
    {
        if self.queue_capacity == 0 {
            return Err(ConfigError::QueueCapacity);
        }
        let mut ids = StringHashSet::new();
        let mut i: usize = 0;
        assert(ids@ =~= account_ids(self.accounts@.take(0)));
        while i < self.accounts.len()
            invariant
                i <= self.accounts.len(),
                self.queue_capacity > 0,
                ids@ == account_ids(self.accounts@.take(i as int)),
                self.accounts_fault(self.accounts@.take(i as int)) is None,
            decreases self.accounts.len() - i,
        {
            let account = &self.accounts[i];
            let ghost before = self.accounts@.take(i as int);
            let ghost more = self.accounts@.take(i + 1);
            proof {
                assert(more.drop_last() =~= before);
                assert(more.last() == *account);
                lemma_ids_grow(before, *account);
                assert(more =~= before.push(*account));
                if self.accounts_fault(more) is Some {
                    self.lemma_first_account(self.accounts@, i + 1);
                }
            }
            if is_blank(account.id.as_str()) {
                return Err(ConfigError::EmptyAccountId);
            }
            if !ids.insert(account.id.clone()) {
                return Err(ConfigError::DuplicateAccount(account.id.clone()));
            }
            self.check_backend(account)?;
            i = i + 1;
        }
        assert(self.accounts@.take(i as int) =~= self.accounts@);
        let mut j: usize = 0;
        while j < self.routes.len()
            invariant
                j <= self.routes.len(),
                self.queue_capacity > 0,
                ids@ == account_ids(self.accounts@),
                self.accounts_fault(self.accounts@) is None,
                self.ends_fault(self.routes@.take(j as int)) is None,
            decreases self.routes.len() - j,
        {
            let route = &self.routes[j];
            let ghost more = self.routes@.take(j + 1);
            proof {
                assert(more.drop_last() =~= self.routes@.take(j as int));
                assert(more.last() == *route);
                if self.ends_fault(more) is Some {
                    self.lemma_first_end(self.routes@, j + 1);
                }
            }
            if !ids.contains(route.source_account_id.as_str()) {
                return Err(
                    ConfigError::UnknownSource {
                        route: route.id.clone(),
                        account: route.source_account_id.clone(),
                    },
                );
            }
            if !ids.contains(route.target_account_id.as_str()) {
                return Err(
                    ConfigError::UnknownTarget {
                        route: route.id.clone(),
                        account: route.target_account_id.clone(),
                    },
                );
            }
            j = j + 1;
        }
        assert(self.routes@.take(j as int) =~= self.routes@);
        match routing::check_rules(&self.routes) {
            Ok(_) => {},
            Err(error) => {
                return Err(ConfigError::Routing(error));
            },
        }
        if let Some(ctrader) = &self.ctrader {
            if is_blank(ctrader.client_id_env.as_str()) || is_blank(
                ctrader.client_secret_env.as_str(),
            ) {
                return Err(ConfigError::CTraderCredentials);
            }
        }
        if let Some(metaapi) = &self.metaapi {
            if is_blank(metaapi.auth_token_env.as_str()) {
                return Err(ConfigError::MetaApiToken);
            }
        }
        Ok(())
    }

    proof fn lemma_first_account(&self, accounts: Seq<AccountConfig>, n: int)
        requires
            0 <= n <= accounts.len(),
            self.accounts_fault(accounts.take(n)) is Some,
        ensures
            self.accounts_fault(accounts) == self.accounts_fault(accounts.take(n)),
        decreases accounts.len(),
    {
        if n == accounts.len() {
            assert(accounts.take(n) =~= accounts);
        } else {
            assert(accounts.drop_last().take(n) =~= accounts.take(n));
            self.lemma_first_account(accounts.drop_last(), n);
        }
    }

    proof fn lemma_first_end(&self, routes: Seq<RouteRule>, n: int)
        requires
            0 <= n <= routes.len(),
            self.ends_fault(routes.take(n)) is Some,
        ensures
            self.ends_fault(routes) == self.ends_fault(routes.take(n)),
        decreases routes.len(),
    {
        if n == routes.len() {
            assert(routes.take(n) =~= routes);
        } else {
            assert(routes.drop_last().take(n) =~= routes.take(n));
            self.lemma_first_end(routes.drop_last(), n);
        }
    }

    /// The account of a name.
    pub fn account(&self, id: &str) -> (r: Option<&AccountConfig>)
        ensures
            match r {
                Some(account) => account_named(self.accounts@, id@) == Some(*account),
                None => account_named(self.accounts@, id@) is None,
            },
    {
        let mut i: usize = 0;
        while i < self.accounts.len()
            invariant
                i <= self.accounts.len(),
                account_named(self.accounts@.take(i as int), id@) is None,
            decreases self.accounts.len() - i,
        {
            let ghost more = self.accounts@.take(i + 1);
            proof {
                assert(more.drop_last() =~= self.accounts@.take(i as int));
                assert(more.last() == self.accounts@[i as int]);
            }
            if same(self.accounts[i].id.as_str(), id) {
                proof {
                    lemma_first_named(self.accounts@, id@, i + 1);
                }
                return Some(&self.accounts[i]);
            }
            i = i + 1;
        }
        assert(self.accounts@.take(i as int) =~= self.accounts@);
        None
    }
}

proof fn lemma_ids_grow(accounts: Seq<AccountConfig>, account: AccountConfig)
    ensures
        account_ids(accounts.push(account)) =~= account_ids(accounts).insert(account.id@),
{
    let more = accounts.push(account);
    assert forall|id: Seq<char>| account_ids(more).contains(id) == account_ids(accounts).insert(
        account.id@,
    ).contains(id) by {
        if account_ids(accounts).contains(id) {
            let i = choose|i: int| 0 <= i < accounts.len() && (#[trigger] accounts[i]).id@ == id;
            assert(more[i].id@ == id);
        }
        if id == account.id@ {
            assert(more[accounts.len() as int].id@ == id);
        }
        if account_ids(more).contains(id) {
            let i = choose|i: int| 0 <= i < more.len() && (#[trigger] more[i]).id@ == id;
            if i < accounts.len() {
                assert(accounts[i].id@ == id);
            }
        }
    }
}

proof fn lemma_first_named(accounts: Seq<AccountConfig>, id: Seq<char>, n: int)
    requires
        0 <= n <= accounts.len(),
        account_named(accounts.take(n), id) is Some,
    ensures
        account_named(accounts, id) == account_named(accounts.take(n), id),
    decreases accounts.len(),
{
    if n == accounts.len() {
        assert(accounts.take(n) =~= accounts);
    } else {
        assert(accounts.drop_last().take(n) =~= accounts.take(n));
        lemma_first_named(accounts.drop_last(), id, n);
    }
}

/// What a read of the environment gives where a secret is asked for.
#[derive(Debug)]
pub enum SecretError {
    NotSet(String),
    Empty(String),
}

impl SecretError {
    /// The error in words.
    pub open spec fn words(&self) -> Seq<char> {
        match self {
            SecretError::NotSet(name) => "required environment variable "@ + name@ + " is not set"@,
            SecretError::Empty(name) => "required environment variable "@ + name@ + " is empty"@,
        }
    }

    /// The error in words.
    pub fn to_string(&self) -> (r: String)
        ensures
            r@ == self.words(),
    {
        match self {
            SecretError::NotSet(name) => joined_three(
                "required environment variable ",
                name.as_str(),
                " is not set",
            ),
            SecretError::Empty(name) => joined_three(
                "required environment variable ",
                name.as_str(),
                " is empty",
            ),
        }
    }
}

/// Takes what the environment holds under a name, if it holds anything there.
pub fn accept_secret(env_name: &str, value: Option<String>) -> (r: Result<String, SecretError>)
    ensures
        match value {
            None => r matches Err(SecretError::NotSet(name)) && name@ == env_name@,
            Some(secret) => if secret@.len() == 0 {
                r matches Err(SecretError::Empty(name)) && name@ == env_name@
            } else {
                r == Ok::<_, SecretError>(secret)
            },
        },
{
    match value {
        None => Err(SecretError::NotSet(env_name.to_owned())),
        Some(secret) => {
            if secret.as_str().is_empty() {
                Err(SecretError::Empty(env_name.to_owned()))
            } else {
                Ok(secret)
            }
        },
    }
}

/// How many frames wait for a session where nothing is said.
pub fn default_queue_capacity() -> (r: usize)
    ensures
        r == 2_048,
{
    2_048
}

/// Where the daemon listens where nothing is said.
pub fn default_listen() -> (r: String)
    ensures
        r@ == "127.0.0.1:48100"@,
{
    "127.0.0.1:48100".to_owned()
}

/// Where the journal is kept where nothing is said.
pub fn default_journal_path() -> (r: String)
    ensures
        r@ == "var/copier.journal.jsonl"@,
{
    "var/copier.journal.jsonl".to_owned()
}

/// cTrader's server for live accounts.
pub fn default_ctrader_live_url() -> (r: String)
    ensures
        r@ == "wss://live.ctraderapi.com:5036"@,
{
    "wss://live.ctraderapi.com:5036".to_owned()
}

/// cTrader's server for demo accounts.
pub fn default_ctrader_demo_url() -> (r: String)
    ensures
        r@ == "wss://demo.ctraderapi.com:5036"@,
{
    "wss://demo.ctraderapi.com:5036".to_owned()
}

/// Where MetaApi accounts are made.
pub fn default_metaapi_provisioning_base() -> (r: String)
    ensures
        r@ == "https://mt-provisioning-api-v1.agiliumtrade.agiliumtrade.ai"@,
{
    "https://mt-provisioning-api-v1.agiliumtrade.agiliumtrade.ai".to_owned()
}

/// The region of a MetaApi account where nothing is said.
pub fn default_metaapi_region() -> (r: String)
    ensures
        r@ == "new-york"@,
{
    "new-york".to_owned()
}

/// How often a MetaApi account is looked at, in milliseconds, where nothing is
/// said.
pub fn default_metaapi_poll_ms() -> (r: u64)
    ensures
        r == 100,
{
    100
}

/// The number that marks the copier's orders where nothing is said.
pub fn default_magic() -> (r: u64)
    ensures
        r == 8_104_811,
{
    8_104_811
}

/// The accounts of a valid configuration have names of their own, and each can
/// be reached as it says.
pub proof fn law_valid_accounts(config: DaemonConfig, accounts: Seq<AccountConfig>)
    requires
        config.accounts_fault(accounts) is None,
    ensures
        forall|i: int| 0 <= i < accounts.len() ==> !text::blank((#[trigger] accounts[i]).id@),
        forall|i: int|
            0 <= i < accounts.len() ==> config.backend_fault(#[trigger] accounts[i]) is None,
        forall|i: int, j: int|
            0 <= i < j < accounts.len() ==> (#[trigger] accounts[i]).id@ != (
            #[trigger] accounts[j]).id@,
    decreases accounts.len(),
{
    if accounts.len() > 0 {
        let fewer = accounts.drop_last();
        law_valid_accounts(config, fewer);
        assert forall|i: int| 0 <= i < accounts.len() implies !text::blank(
            (#[trigger] accounts[i]).id@,
        ) && config.backend_fault(accounts[i]) is None by {
            if i < fewer.len() {
                assert(accounts[i] == fewer[i]);
            }
        }
        assert forall|i: int, j: int| 0 <= i < j < accounts.len() implies (
        #[trigger] accounts[i]).id@ != (#[trigger] accounts[j]).id@ by {
            assert(accounts[i] == fewer[i]);
            if j < fewer.len() {
                assert(accounts[j] == fewer[j]);
            } else {
                assert(fewer[i].id@ == accounts[i].id@);
            }
        }
    }
}

/// Each route of a valid configuration copies one of its accounts to another
/// of them.
pub proof fn law_valid_routes(config: DaemonConfig, i: int)
    requires
        config.fault() is None,
        0 <= i < config.routes@.len(),
    ensures
        account_ids(config.accounts@).contains(config.routes@[i].source_account_id@),
        account_ids(config.accounts@).contains(config.routes@[i].target_account_id@),
        config.routes@[i].source_account_id@ != config.routes@[i].target_account_id@,
{
    lemma_valid_ends(config, config.routes@, i);
    routing::lemma_rule_sound(config.routes@, i);
}

proof fn lemma_valid_ends(config: DaemonConfig, routes: Seq<RouteRule>, i: int)
    requires
        config.ends_fault(routes) is None,
        0 <= i < routes.len(),
    ensures
        account_ids(config.accounts@).contains(routes[i].source_account_id@),
        account_ids(config.accounts@).contains(routes[i].target_account_id@),
    decreases routes.len(),
{
    if i < routes.len() - 1 {
        lemma_valid_ends(config, routes.drop_last(), i);
    }
}

/// The account of a name is the first that has it, and there is one just where
/// some account has it.
pub proof fn law_account_of_name(accounts: Seq<AccountConfig>, id: Seq<char>)
    ensures
        account_named(accounts, id) is Some <==> exists|i: int|
            0 <= i < accounts.len() && (#[trigger] accounts[i]).id@ == id,
        account_named(accounts, id) matches Some(account) ==> exists|i: int|
            {
                &&& 0 <= i < accounts.len()
                &&& #[trigger] accounts[i] == account
                &&& account.id@ == id
                &&& forall|j: int| 0 <= j < i ==> (#[trigger] accounts[j]).id@ != id
            },
    decreases accounts.len(),
{
    if accounts.len() > 0 {
        let fewer = accounts.drop_last();
        let last = accounts.len() - 1;
        law_account_of_name(fewer, id);
        assert(forall|i: int| 0 <= i < fewer.len() ==> #[trigger] fewer[i] == accounts[i]);
        assert(accounts[last] == accounts.last());
        if account_named(fewer, id) is Some {
            let account = account_named(fewer, id)->Some_0;
            let i = choose|i: int|
                {
                    &&& 0 <= i < fewer.len()
                    &&& #[trigger] fewer[i] == account
                    &&& account.id@ == id
                    &&& forall|j: int| 0 <= j < i ==> (#[trigger] fewer[j]).id@ != id
                };
            assert(accounts[i] == account);
            assert forall|j: int| 0 <= j < i implies (#[trigger] accounts[j]).id@ != id by {
                assert(fewer[j].id@ != id);
            }
        } else {
            assert forall|j: int| 0 <= j < last implies (#[trigger] accounts[j]).id@ != id by {
                assert(fewer[j].id@ != id);
            }
        }
    }
}

/// An account may be followed just where it is a master or both.
pub proof fn law_followers_do_not_publish(role: AccountRole)
    ensures
        role.publishes() <==> role != AccountRole::Follower,
{
}

/// An account can be reached as it says just where a client has a token; where
/// one at cTrader is a cTrader account with settings of its own and shared ones,
/// a positive number and a named secret; and where one at MetaApi is a
/// MetaTrader account with settings of its own and shared ones that is looked at
/// at most every 25 milliseconds and is given or can be made.
pub proof fn law_account_can_be_reached(config: DaemonConfig, account: AccountConfig)
    ensures
        config.backend_fault(account) is None <==> match account.backend {
            AccountBackend::Agent => account.token@.len() > 0,
            AccountBackend::CTraderOpenApi => {
                &&& account.platform == Platform::CTrader
                &&& config.ctrader is Some
                &&& account.ctrader matches Some(direct)
                &&& direct.ctid_trader_account_id > 0
                &&& !text::blank(direct.access_token_env@)
            },
            AccountBackend::MetaApi => {
                &&& account.platform == Platform::Mt4 || account.platform == Platform::Mt5
                &&& config.metaapi is Some
                &&& account.metaapi matches Some(direct)
                &&& direct.poll_interval_ms >= 25
                &&& {
                    ||| direct.account_id is Some && direct.account_id->Some_0@.len() > 0
                    ||| {
                        &&& direct.login is Some && direct.login->Some_0@.len() > 0
                        &&& direct.server is Some && direct.server->Some_0@.len() > 0
                        &&& direct.password_env is Some && direct.password_env->Some_0@.len() > 0
                    }
                }
            },
        },
{
}

/// A configuration is valid just where commands can wait for a session, where
/// each account has a name of its own and can be reached, where each route is
/// sound and copies one of the accounts to another, and where the secrets that
/// accounts share are named.
pub proof fn law_configuration_is_checked(config: DaemonConfig)
    ensures
        config.fault() is None <==> {
            &&& config.queue_capacity > 0
            &&& forall|i: int|
                0 <= i < config.accounts@.len() ==> !text::blank(
                    (#[trigger] config.accounts@[i]).id@,
                ) && config.backend_fault(config.accounts@[i]) is None
            &&& forall|i: int, j: int|
                0 <= i < j < config.accounts@.len() ==> (#[trigger] config.accounts@[i]).id@ != (
                #[trigger] config.accounts@[j]).id@
            &&& forall|i: int|
                0 <= i < config.routes@.len() ==> {
                    let route = #[trigger] config.routes@[i];
                    &&& route.fault() is None
                    &&& account_ids(config.accounts@).contains(route.source_account_id@)
                    &&& account_ids(config.accounts@).contains(route.target_account_id@)
                }
            &&& config.ctrader matches Some(shared) ==> !text::blank(shared.client_id_env@)
                && !text::blank(shared.client_secret_env@)
            &&& config.metaapi matches Some(shared) ==> !text::blank(shared.auth_token_env@)
        },
{
    lemma_accounts_checked(config, config.accounts@);
    lemma_ends_checked(config, config.routes@);
    routing::law_rules_are_checked(config.routes@);
    if config.accounts_fault(config.accounts@) is None {
        law_valid_accounts(config, config.accounts@);
    }
}

proof fn lemma_accounts_checked(config: DaemonConfig, accounts: Seq<AccountConfig>)
    ensures
        (forall|i: int|
            0 <= i < accounts.len() ==> !text::blank((#[trigger] accounts[i]).id@)
                && config.backend_fault(accounts[i]) is None) && (forall|i: int, j: int|
            0 <= i < j < accounts.len() ==> (#[trigger] accounts[i]).id@ != (
            #[trigger] accounts[j]).id@) ==> config.accounts_fault(accounts) is None,
    decreases accounts.len(),
{
    if accounts.len() > 0 {
        let fewer = accounts.drop_last();
        let last = accounts.len() - 1;
        lemma_accounts_checked(config, fewer);
        assert(forall|i: int| 0 <= i < fewer.len() ==> #[trigger] fewer[i] == accounts[i]);
        assert(accounts[last] == accounts.last());
        if account_ids(fewer).contains(accounts.last().id@) {
            let i = choose|i: int|
                0 <= i < fewer.len() && (#[trigger] fewer[i]).id@ == accounts.last().id@;
            assert(accounts[i].id@ == accounts[last].id@);
        }
    }
}

proof fn lemma_ends_checked(config: DaemonConfig, routes: Seq<RouteRule>)
    ensures
        config.ends_fault(routes) is None <==> forall|i: int|
            0 <= i < routes.len() ==> {
                let route = #[trigger] routes[i];
                &&& account_ids(config.accounts@).contains(route.source_account_id@)
                &&& account_ids(config.accounts@).contains(route.target_account_id@)
            },
    decreases routes.len(),
{
    if routes.len() > 0 {
        let fewer = routes.drop_last();
        let last = routes.len() - 1;
        lemma_ends_checked(config, fewer);
        assert(forall|i: int| 0 <= i < fewer.len() ==> #[trigger] fewer[i] == routes[i]);
        assert(forall|i: int| 0 <= i < fewer.len() ==> #[trigger] routes[i] == fewer[i]);
        assert(routes[last] == routes.last());
    }
}

/// Whether a fault is true of the account at a place.
pub open spec fn faulty_account(
    config: DaemonConfig,
    accounts: Seq<AccountConfig>,
    i: int,
    fault: ConfigErrorView,
) -> bool {
    let account = accounts[i];
    &&& 0 <= i < accounts.len()
    &&& match fault {
        ConfigErrorView::EmptyAccountId => text::blank(account.id@),
        ConfigErrorView::DuplicateAccount(id) => account.id@ == id && exists|j: int|
            0 <= j < i && (#[trigger] accounts[j]).id@ == id,
        ConfigErrorView::TokenRequired(id) => account.id@ == id && account.backend
            == AccountBackend::Agent && account.token@.len() == 0,
        ConfigErrorView::CTraderPlatform(id) => account.id@ == id && account.backend
            == AccountBackend::CTraderOpenApi && account.platform != Platform::CTrader,
        ConfigErrorView::CTraderGlobal(id) => account.id@ == id && account.backend
            == AccountBackend::CTraderOpenApi && config.ctrader is None,
        ConfigErrorView::CTraderSettings(id) => account.id@ == id && account.backend
            == AccountBackend::CTraderOpenApi && account.ctrader is None,
        ConfigErrorView::CTraderInvalid(id) => account.id@ == id && account.backend
            == AccountBackend::CTraderOpenApi && (account.ctrader->Some_0.ctid_trader_account_id
            <= 0 || text::blank(account.ctrader->Some_0.access_token_env@)),
        ConfigErrorView::MetaApiPlatform(id) => account.id@ == id && account.backend
            == AccountBackend::MetaApi && account.platform != Platform::Mt4 && account.platform
            != Platform::Mt5,
        ConfigErrorView::MetaApiGlobal(id) => account.id@ == id && account.backend
            == AccountBackend::MetaApi && config.metaapi is None,
        ConfigErrorView::MetaApiSettings(id) => account.id@ == id && account.backend
            == AccountBackend::MetaApi && account.metaapi is None,
        ConfigErrorView::MetaApiPoll(id) => account.id@ == id && account.backend
            == AccountBackend::MetaApi && account.metaapi->Some_0.poll_interval_ms < 25,
        ConfigErrorView::MetaApiProvisioning(id) => account.id@ == id && account.backend
            == AccountBackend::MetaApi && (account.metaapi->Some_0.account_id is None
            || account.metaapi->Some_0.account_id->Some_0@.len() == 0),
        _ => false,
    }
}

proof fn lemma_faulty_account(config: DaemonConfig, accounts: Seq<AccountConfig>) -> (i: int)
    ensures
        config.accounts_fault(accounts) matches Some(fault) ==> faulty_account(
            config,
            accounts,
            i,
            fault,
        ),
    decreases accounts.len(),
{
    if accounts.len() == 0 {
        0
    } else {
        let fewer = accounts.drop_last();
        let last = accounts.len() - 1;
        let before = lemma_faulty_account(config, fewer);
        assert(accounts[last] == accounts.last());
        if config.accounts_fault(fewer) is Some {
            let fault = config.accounts_fault(fewer)->Some_0;
            assert(accounts[before] == fewer[before]);
            if let ConfigErrorView::DuplicateAccount(id) = fault {
                let j = choose|j: int| 0 <= j < before && (#[trigger] fewer[j]).id@ == id;
                assert(accounts[j].id@ == id);
            }
            before
        } else {
            let id = accounts.last().id@;
            if account_ids(fewer).contains(id) {
                let j = choose|j: int| 0 <= j < fewer.len() && (#[trigger] fewer[j]).id@ == id;
                assert(accounts[j].id@ == id);
            }
            last
        }
    }
}

/// Whether a fault is true of the ends of the route at a place.
pub open spec fn faulty_route(config: DaemonConfig, i: int, fault: ConfigErrorView) -> bool {
    let route = config.routes@[i];
    &&& 0 <= i < config.routes@.len()
    &&& match fault {
        ConfigErrorView::UnknownSource { route: id, account } => route.id@ == id
            && route.source_account_id@ == account && !account_ids(config.accounts@).contains(
            account,
        ),
        ConfigErrorView::UnknownTarget { route: id, account } => route.id@ == id
            && route.target_account_id@ == account && !account_ids(config.accounts@).contains(
            account,
        ),
        ConfigErrorView::Routing(error) => route.fault() == Some(error),
        _ => false,
    }
}

proof fn lemma_faulty_route(config: DaemonConfig, n: nat) -> (i: int)
    requires
        n <= config.routes@.len(),
    ensures
        config.ends_fault(config.routes@.take(n as int)) matches Some(fault) ==> faulty_route(
            config,
            i,
            fault,
        ),
    decreases n,
{
    if n == 0 {
        0
    } else {
        let routes = config.routes@.take(n as int);
        assert(routes.drop_last() =~= config.routes@.take(n - 1));
        let before = lemma_faulty_route(config, (n - 1) as nat);
        if config.ends_fault(routes.drop_last()) is Some {
            before
        } else {
            n - 1
        }
    }
}

/// What is said to be wrong with a configuration is: there is an account or a
/// route of which it is true, or it is true of what accounts share. A queue of
/// no commands is told first.
pub proof fn law_fault_is_true(config: DaemonConfig) -> (i: int)
    ensures
        config.queue_capacity == 0 <==> (config.fault() matches Some(fault)
            && fault is QueueCapacity),
        config.fault() matches Some(fault) ==> match fault {
            ConfigErrorView::QueueCapacity => config.queue_capacity == 0,
            ConfigErrorView::CTraderCredentials => config.ctrader matches Some(shared) && (
            text::blank(shared.client_id_env@) || text::blank(shared.client_secret_env@)),
            ConfigErrorView::MetaApiToken => config.metaapi matches Some(shared) && text::blank(
                shared.auth_token_env@,
            ),
            ConfigErrorView::UnknownSource { .. } => faulty_route(config, i, fault),
            ConfigErrorView::UnknownTarget { .. } => faulty_route(config, i, fault),
            ConfigErrorView::Routing(_) => faulty_route(config, i, fault),
            _ => faulty_account(config, config.accounts@, i, fault),
        },
{
    let account = lemma_faulty_account(config, config.accounts@);
    let route = lemma_faulty_route(config, config.routes@.len());
    assert(config.routes@.take(config.routes@.len() as int) =~= config.routes@);
    routing::law_rules_are_checked(config.routes@);
    if config.accounts_fault(config.accounts@) is Some {
        account
    } else if config.ends_fault(config.routes@) is Some {
        route
    } else if routing::rules_fault(config.routes@) is Some {
        choose|i: int|
            {
                &&& 0 <= i < config.routes@.len()
                &&& (#[trigger] config.routes@[i]).fault() == routing::rules_fault(config.routes@)
                &&& forall|j: int| 0 <= j < i ==> (#[trigger] config.routes@[j]).fault() is None
            }
    } else {
        0
    }
}

} // verus!
