//! How the terminals of accounts are started.

use crate::config::{AccountConfig, DaemonConfig};
use crate::model::copy_text;
use crate::routing::copy_texts;
use vstd::prelude::*;
use vstd::string::*;

verus! {

/// The path that a terminal's traffic takes.
#[derive(Debug, Clone, Copy, PartialEq, Eq, Structural)]
pub enum EgressMode {
    Direct,
    ProxyEnv,
    NetworkNamespace,
}

/// A fixed path out.
#[derive(Debug, Clone)]
pub struct EgressProfile {
    pub mode: EgressMode,
    pub proxy_url: Option<String>,
    pub namespace: Option<String>,
    pub region: Option<String>,
}

/// A terminal that is started for an account.
#[derive(Debug, Clone)]
pub struct TerminalConfig {
    pub enabled: bool,
    pub command: String,
    pub args: Vec<String>,
    pub working_dir: Option<String>,
    pub egress_profile: Option<String>,
    pub restart_on_exit: bool,
    pub restart_delay_ms: u64,
}

/// What is run for a terminal.
#[derive(Debug)]
pub struct LaunchPlan {
    pub program: String,
    pub args: Vec<String>,
    pub env: Vec<(String, String)>,
    pub working_dir: Option<String>,
}

/// What a plan holds.
#[verifier::ext_equal]
pub struct LaunchPlanView {
    pub program: Seq<char>,
    pub args: Seq<Seq<char>>,
    pub env: Seq<(Seq<char>, Seq<char>)>,
    pub working_dir: Option<Seq<char>>,
}

/// Settings of the environment, seen through their views.
pub open spec fn seen_env(env: Seq<(String, String)>) -> Seq<(Seq<char>, Seq<char>)> {
    env.map_values(|pair: (String, String)| (pair.0@, pair.1@))
}

impl View for LaunchPlan {
    type V = LaunchPlanView;

    open spec fn view(&self) -> LaunchPlanView {
        LaunchPlanView {
            program: self.program@,
            args: self.args.deep_view(),
            env: seen_env(self.env@),
            working_dir: self.working_dir.deep_view(),
        }
    }
}

/// Why a terminal cannot be started.
#[derive(Debug, Clone, Copy, PartialEq, Eq, Structural)]
pub enum LauncherError {
    NamespaceUnavailable,
}

impl LauncherError {
    /// The error in words.
    pub fn to_string(&self) -> (r: String)
        ensures
            r@ == "network_namespace egress is only available on Unix-like hosts"@,
    {
        "network_namespace egress is only available on Unix-like hosts".to_owned()
    }
}

/// A text that may be absent, or the empty text.
pub open spec fn or_empty(value: Option<String>) -> Seq<char> {
    match value {
        Some(inner) => inner@,
        None => Seq::empty(),
    }
}

fn text_or_empty(value: &Option<String>) -> (r: String)
    ensures
        r@ == or_empty(*value),
{
    match value {
        Some(inner) => inner.clone(),
        None => {
            let out = String::new();
            assert(out@ =~= Seq::empty());
            out
        },
    }
}

/// The setting that names the region of a path out.
pub open spec fn region_env(region: Option<String>) -> Seq<(Seq<char>, Seq<char>)> {
    match region {
        Some(name) => seq![("COPIERR_EGRESS_REGION"@, name@)],
        None => Seq::empty(),
    }
}

/// The path that a profile asks for; without one it is the direct one.
pub open spec fn mode_of(profile: Option<&EgressProfile>) -> EgressMode {
    match profile {
        Some(inner) => inner.mode,
        None => EgressMode::Direct,
    }
}

/// What is run for a terminal on a path out: the terminal's command as it is;
/// the same with the proxy in its environment; or the command inside a network
/// namespace, which only Unix-like hosts have.
pub open spec fn launch_of(
    terminal: TerminalConfig,
    profile: Option<&EgressProfile>,
    unix: bool,
) -> Result<LaunchPlanView, LauncherError> {
    let direct = LaunchPlanView {
        program: terminal.command@,
        args: terminal.args.deep_view(),
        env: Seq::empty(),
        working_dir: None,
    };
    match mode_of(profile) {
        EgressMode::Direct => Ok(direct),
        EgressMode::ProxyEnv => {
            let proxy = or_empty(profile->Some_0.proxy_url);
            Ok(
                LaunchPlanView {
                    env: seq![
                        ("ALL_PROXY"@, proxy),
                        ("HTTP_PROXY"@, proxy),
                        ("HTTPS_PROXY"@, proxy),
                    ] + region_env(profile->Some_0.region),
                    ..direct
                },
            )
        },
        EgressMode::NetworkNamespace => if unix {
            Ok(
                LaunchPlanView {
                    program: "ip"@,
                    args: seq![
                        "netns"@,
                        "exec"@,
                        or_empty(profile->Some_0.namespace),
                        terminal.command@,
                    ] + terminal.args.deep_view(),
                    env: region_env(profile->Some_0.region),
                    working_dir: None,
                },
            )
        } else {
            Err(LauncherError::NamespaceUnavailable)
        },
    }
}

fn push_env(env: &mut Vec<(String, String)>, name: &str, value: &str)
    ensures
        seen_env(final(env)@) == seen_env(old(env)@).push((name@, value@)),
{
    let ghost before = env@;
    env.push((name.to_owned(), value.to_owned()));
    assert(seen_env(env@) =~= seen_env(before).push((name@, value@)));
}

fn push_args(args: &mut Vec<String>, more: &Vec<String>)
    ensures
        final(args).deep_view() == old(args).deep_view() + more.deep_view(),
{
    let ghost start = args.deep_view();
    let mut i: usize = 0;
    assert(start + more.deep_view().take(0) =~= start);
    while i < more.len()
        invariant
            i <= more.len(),
            args.deep_view() == start + more.deep_view().take(i as int),
        decreases more.len() - i,
    {
        let ghost before = args.deep_view();
        args.push(more[i].clone());
        assert(args.deep_view() =~= before.push(more.deep_view()[i as int]));
        assert(start + more.deep_view().take(i + 1) =~= before.push(more.deep_view()[i as int]));
        i = i + 1;
    }
    assert(more.deep_view().take(i as int) =~= more.deep_view());
}

/// What is run for a terminal on a path out.
pub fn build_command(terminal: &TerminalConfig, profile: Option<&EgressProfile>, unix: bool) -> (r:
    Result<LaunchPlan, LauncherError>)
    ensures
        match launch_of(*terminal, profile, unix) {
            Ok(plan) => r is Ok && r->Ok_0@ == plan,
            Err(error) => r == Err::<LaunchPlan, _>(error),
        },
{
    let mut env: Vec<(String, String)> = Vec::new();
    assert(seen_env(env@) =~= Seq::empty());
    let chosen = match profile {
        Some(chosen) => chosen,
        None => {
            let plan = LaunchPlan {
                program: terminal.command.clone(),
                args: copy_texts(&terminal.args),
                env,
                working_dir: None,
            };
            assert(plan@ =~= launch_of(*terminal, profile, unix)->Ok_0);
            return Ok(plan);
        },
    };
    match chosen.mode {
        EgressMode::Direct => {
            let plan = LaunchPlan {
                program: terminal.command.clone(),
                args: copy_texts(&terminal.args),
                env,
                working_dir: None,
            };
            assert(plan@ =~= launch_of(*terminal, profile, unix)->Ok_0);
            Ok(plan)
        },
        EgressMode::ProxyEnv => {
            let proxy = text_or_empty(&chosen.proxy_url);
            push_env(&mut env, "ALL_PROXY", proxy.as_str());
            push_env(&mut env, "HTTP_PROXY", proxy.as_str());
            push_env(&mut env, "HTTPS_PROXY", proxy.as_str());
            if let Some(region) = &chosen.region {
                push_env(&mut env, "COPIERR_EGRESS_REGION", region.as_str());
            }
            let plan = LaunchPlan {
                program: terminal.command.clone(),
                args: copy_texts(&terminal.args),
                env,
                working_dir: None,
            };
            assert(plan@ =~= launch_of(*terminal, profile, unix)->Ok_0);
            Ok(plan)
        },
        EgressMode::NetworkNamespace => {
            if !unix {
                return Err(LauncherError::NamespaceUnavailable);
            }
            let mut args: Vec<String> = vec![
                "netns".to_owned(),
                "exec".to_owned(),
                text_or_empty(&chosen.namespace),
                terminal.command.clone(),
            ];
            push_args(&mut args, &terminal.args);
            if let Some(region) = &chosen.region {
                push_env(&mut env, "COPIERR_EGRESS_REGION", region.as_str());
            }
            let plan = LaunchPlan { program: "ip".to_owned(), args, env, working_dir: None };
            assert(plan@ =~= launch_of(*terminal, profile, unix)->Ok_0);
            Ok(plan)
        },
    }
}

/// The profile that a terminal names, if there is one of that name.
pub open spec fn profile_of(config: DaemonConfig, terminal: TerminalConfig) -> Option<
    EgressProfile,
> {
    match terminal.egress_profile {
        Some(name) => if config.egress_profiles@.contains_key(name@) {
            Some(config.egress_profiles@[name@])
        } else {
            None
        },
        None => None,
    }
}

/// What is run for the terminal of an account.
pub open spec fn account_launch(
    config: DaemonConfig,
    account: AccountConfig,
    terminal: TerminalConfig,
    unix: bool,
) -> Result<LaunchPlanView, LauncherError> {
    let profile = profile_of(config, terminal);
    match launch_of(
        terminal,
        match profile {
            Some(chosen) => Some(&chosen),
            None => None,
        },
        unix,
    ) {
        Err(error) => Err(error),
        Ok(plan) => Ok(
            LaunchPlanView {
                env: plan.env.push(("COPIERR_ACCOUNT_ID"@, account.id@)).push(
                    ("COPIERR_PLATFORM"@, account.platform.name()),
                ),
                working_dir: terminal.working_dir.deep_view(),
                ..plan
            },
        ),
    }
}

/// What is run for the terminal of an account: the terminal's command on its
/// path out, in its directory, with the account and its platform in its
/// environment.
pub fn plan_launch(
    config: &DaemonConfig,
    account: &AccountConfig,
    terminal: &TerminalConfig,
    unix: bool,
) -> (r: Result<LaunchPlan, LauncherError>)
    ensures
        match account_launch(*config, *account, *terminal, unix) {
            Ok(plan) => r is Ok && r->Ok_0@ == plan,
            Err(error) => r == Err::<LaunchPlan, _>(error),
        },
{
    let profile: Option<&EgressProfile> = match &terminal.egress_profile {
        Some(name) => config.egress_profiles.get(name.as_str()),
        None => None,
    };
    let mut plan = build_command(terminal, profile, unix)?;
    let platform = account.platform.to_string();
    push_env(&mut plan.env, "COPIERR_ACCOUNT_ID", account.id.as_str());
    push_env(&mut plan.env, "COPIERR_PLATFORM", platform.as_str());
    plan.working_dir = copy_text(&terminal.working_dir);
    Ok(plan)
}

/// Whether an account has a terminal that is to be started.
pub open spec fn starts(account: AccountConfig) -> bool {
    account.terminal is Some && account.terminal->Some_0.enabled
}

/// The terminal of an account that is to be started.
pub fn enabled_terminal(account: &AccountConfig) -> (r: Option<&TerminalConfig>)
    ensures
        r is Some <==> starts(*account),
        r is Some ==> *r->Some_0 == account.terminal->Some_0,
{
    match &account.terminal {
        Some(terminal) => {
            if terminal.enabled {
                Some(terminal)
            } else {
                None
            }
        },
        None => None,
    }
}

/// How many milliseconds pass before a terminal that exited is started again,
/// if it is.
pub fn restart_delay(terminal: &TerminalConfig) -> (r: Option<u64>)
    ensures
        r == if terminal.restart_on_exit {
            Some(terminal.restart_delay_ms)
        } else {
            None
        },
{
    if terminal.restart_on_exit {
        Some(terminal.restart_delay_ms)
    } else {
        None
    }
}

/// A terminal is started with its own command and arguments. A proxy is passed
/// on in the environment; a network namespace wraps the command, which follows
/// with its arguments behind the name of the namespace. There is none but on
/// Unix-like hosts.
pub proof fn law_terminal_is_started(
    terminal: TerminalConfig,
    profile: EgressProfile,
    unix: bool,
)
    ensures
        ({
            let args = terminal.args.deep_view();
            let bare = launch_of(terminal, None, unix);
            let chosen = launch_of(terminal, Some(&profile), unix);
            &&& bare matches Ok(plan) && plan.program == terminal.command@ && plan.args == args
                && plan.env.len() == 0
            &&& profile.mode == EgressMode::Direct ==> chosen == bare
            &&& profile.mode == EgressMode::ProxyEnv ==> {
                &&& chosen matches Ok(plan)
                &&& plan.program == terminal.command@
                &&& plan.args == args
                &&& profile.proxy_url matches Some(url) ==> {
                    &&& plan.env.contains(("ALL_PROXY"@, url@))
                    &&& plan.env.contains(("HTTP_PROXY"@, url@))
                    &&& plan.env.contains(("HTTPS_PROXY"@, url@))
                }
                &&& profile.region matches Some(region) ==> plan.env.contains(
                    ("COPIERR_EGRESS_REGION"@, region@),
                )
                &&& plan.env.len() == if profile.region is Some {
                    4int
                } else {
                    3
                }
            }
            &&& profile.mode == EgressMode::NetworkNamespace && !unix ==> chosen is Err
            &&& profile.mode == EgressMode::NetworkNamespace && unix ==> {
                &&& chosen matches Ok(plan)
                &&& plan.program == "ip"@
                &&& plan.args.len() == args.len() + 4
                &&& plan.args[0] == "netns"@ && plan.args[1] == "exec"@
                &&& profile.namespace matches Some(name) ==> plan.args[2] == name@
                &&& plan.args[3] == terminal.command@
                &&& plan.args.skip(4) == args
                &&& profile.region matches Some(region) ==> plan.env.contains(
                    ("COPIERR_EGRESS_REGION"@, region@),
                )
                &&& plan.env.len() <= 1
            }
        }),
{
    let args = terminal.args.deep_view();
    if let Ok(plan) = launch_of(terminal, Some(&profile), unix) {
        if profile.mode == EgressMode::ProxyEnv {
            let proxy = or_empty(profile.proxy_url);
            assert(plan.env[0] == ("ALL_PROXY"@, proxy));
            assert(plan.env[1] == ("HTTP_PROXY"@, proxy));
            assert(plan.env[2] == ("HTTPS_PROXY"@, proxy));
            if let Some(region) = profile.region {
                assert(plan.env[3] == ("COPIERR_EGRESS_REGION"@, region@));
            }
        }
        if profile.mode == EgressMode::NetworkNamespace {
            assert(plan.args.skip(4) =~= args);
            if let Some(region) = profile.region {
                assert(plan.env[0] == ("COPIERR_EGRESS_REGION"@, region@));
            }
        }
    }
}

/// The terminal of an account is started on the path out that it names, if there
/// is one of that name, in its own directory, and knows whose it is.
pub proof fn law_terminal_knows_its_account(
    config: DaemonConfig,
    account: AccountConfig,
    terminal: TerminalConfig,
    unix: bool,
)
    ensures
        ({
            let named = terminal.egress_profile matches Some(name)
                && config.egress_profiles@.contains_key(name@);
            let plan = account_launch(config, account, terminal, unix);
            let base = if named {
                launch_of(
                    terminal,
                    Some(&config.egress_profiles@[terminal.egress_profile->Some_0@]),
                    unix,
                )
            } else {
                launch_of(terminal, None, unix)
            };
            &&& plan is Ok <==> base is Ok
            &&& plan matches Ok(made) ==> {
                &&& made.program == base->Ok_0.program
                &&& made.args == base->Ok_0.args
                &&& made.working_dir == match terminal.working_dir {
                    Some(dir) => Some(dir@),
                    None => None,
                }
                &&& made.env.contains(("COPIERR_ACCOUNT_ID"@, account.id@))
                &&& made.env.contains(("COPIERR_PLATFORM"@, account.platform.name()))
                &&& made.env.len() == base->Ok_0.env.len() + 2
                &&& made.env.take(base->Ok_0.env.len() as int) == base->Ok_0.env
            }
        }),
{
    if let Ok(made) = account_launch(config, account, terminal, unix) {
        let n = made.env.len() as int;
        assert(made.env[n - 2] == ("COPIERR_ACCOUNT_ID"@, account.id@));
        assert(made.env[n - 1] == ("COPIERR_PLATFORM"@, account.platform.name()));
        let profile = profile_of(config, terminal);
        let base = launch_of(
            terminal,
            match profile {
                Some(chosen) => Some(&chosen),
                None => None,
            },
            unix,
        );
        assert(made.env.take(n - 2) =~= base->Ok_0.env);
    }
}

/// A terminal is to be started just where there is one and it is switched on.
pub proof fn law_terminal_is_wanted(account: AccountConfig)
    ensures
        starts(account) <==> (account.terminal matches Some(terminal) && terminal.enabled),
{
}

} // verus!
