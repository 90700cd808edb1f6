//! The daemon's state and its decisions. What it decides is a job: a list of
//! tasks that ask, one step at a time, for a record to be written or for a
//! command to be delivered.

use crate::config::{AccountBackend, AccountConfig, AccountRole, DaemonConfig};
use crate::double::Double;
use crate::journal::{
    JournalRecord, JournalRecordView, MirrorMutation, MirrorMutationView, ReplayState,
    ReplayStateView, StoredCommandState, StoredCommandView,
};
use crate::model::{
    AckStatus, ExecutionAck, ExecutionAckView, ExecutionCommand, ExecutionCommandView,
    MirrorBinding, MirrorBindingView, Platform, TradeAction, TradeEvent, TradeEventView,
};
use crate::protocol::{AgentFrame, AgentFrameView};
use crate::routing::{copy_rules, CopyEngine, RouteError, RouteErrorView, RouteRule};
use crate::table::Table;
use crate::text::{joined, joined_three, same};
use crate::{config, double, journal, model, routing};
use vstd::prelude::*;
use vstd::string::*;

verus! {

/// What the daemon refuses.
#[derive(Debug)]
pub enum RuntimeError {
    UnknownAccount(String),
    DirectVenue(String),
    PlatformMismatch(String),
    InvalidToken(String),
    HelloNotFirst,
    ForeignEvent,
    ForeignAck,
    UnknownSource(String),
    NotPermitted(String),
    AckTarget,
    Route(RouteError),
}

/// What an error of the daemon holds.
pub enum RuntimeErrorView {
    UnknownAccount(Seq<char>),
    DirectVenue(Seq<char>),
    PlatformMismatch(Seq<char>),
    InvalidToken(Seq<char>),
    HelloNotFirst,
    ForeignEvent,
    ForeignAck,
    UnknownSource(Seq<char>),
    NotPermitted(Seq<char>),
    AckTarget,
    Route(RouteErrorView),
}

impl View for RuntimeError {
    type V = RuntimeErrorView;

    open spec fn view(&self) -> RuntimeErrorView {
        match self {
            RuntimeError::UnknownAccount(id) => RuntimeErrorView::UnknownAccount(id@),
            RuntimeError::DirectVenue(id) => RuntimeErrorView::DirectVenue(id@),
            RuntimeError::PlatformMismatch(id) => RuntimeErrorView::PlatformMismatch(id@),
            RuntimeError::InvalidToken(id) => RuntimeErrorView::InvalidToken(id@),
            RuntimeError::HelloNotFirst => RuntimeErrorView::HelloNotFirst,
            RuntimeError::ForeignEvent => RuntimeErrorView::ForeignEvent,
            RuntimeError::ForeignAck => RuntimeErrorView::ForeignAck,
            RuntimeError::UnknownSource(id) => RuntimeErrorView::UnknownSource(id@),
            RuntimeError::NotPermitted(id) => RuntimeErrorView::NotPermitted(id@),
            RuntimeError::AckTarget => RuntimeErrorView::AckTarget,
            RuntimeError::Route(error) => RuntimeErrorView::Route(error@),
        }
    }
}

impl RuntimeErrorView {
    /// The error in words.
    pub open spec fn words(self) -> Seq<char> {
        match self {
            RuntimeErrorView::UnknownAccount(id) => "unknown account "@ + id,
            RuntimeErrorView::DirectVenue(id) => "account "@ + id
                + " does not use the agent listener"@,
            RuntimeErrorView::PlatformMismatch(id) => "platform mismatch for account "@ + id,
            RuntimeErrorView::InvalidToken(id) => "invalid token for account "@ + id,
            RuntimeErrorView::HelloNotFirst => "HELLO is only valid as the first frame"@,
            RuntimeErrorView::ForeignEvent => "event source account does not match authenticated session"@,
            RuntimeErrorView::ForeignAck => "ack account does not match authenticated session"@,
            RuntimeErrorView::UnknownSource(id) => "unknown source account "@ + id,
            RuntimeErrorView::NotPermitted(id) => "account "@ + id
                + " is not permitted to publish"@,
            RuntimeErrorView::AckTarget => "ack target does not match command target"@,
            RuntimeErrorView::Route(error) => error.words(),
        }
    }
}

impl RuntimeError {
    /// The error in words.
    pub fn to_string(&self) -> (r: String)
        ensures
            r@ == self@.words(),
    {
        match self {
            RuntimeError::UnknownAccount(id) => joined("unknown account ", id.as_str()),
            RuntimeError::DirectVenue(id) => joined_three(
                "account ",
                id.as_str(),
                " does not use the agent listener",
            ),
            RuntimeError::PlatformMismatch(id) => joined(
                "platform mismatch for account ",
                id.as_str(),
            ),
            RuntimeError::InvalidToken(id) => joined("invalid token for account ", id.as_str()),
            RuntimeError::HelloNotFirst => "HELLO is only valid as the first frame".to_owned(),
            RuntimeError::ForeignEvent => "event source account does not match authenticated session".to_owned(),
            RuntimeError::ForeignAck => "ack account does not match authenticated session".to_owned(),
            RuntimeError::UnknownSource(id) => joined("unknown source account ", id.as_str()),
            RuntimeError::NotPermitted(id) => joined_three(
                "account ",
                id.as_str(),
                " is not permitted to publish",
            ),
            RuntimeError::AckTarget => "ack target does not match command target".to_owned(),
            RuntimeError::Route(error) => error.to_string(),
        }
    }
}

/// A part of a job.
#[derive(Debug)]
pub enum Task {
    /// Write a record and take it into the state.
    Record(JournalRecord),
    /// Send a command to its account, if that is connected.
    Dispatch(ExecutionCommand),
    /// Note that the outcome of a command is not known.
    MarkUnknown { command_id: String, reason: String },
}

/// What a task holds.
pub enum TaskView {
    Record(JournalRecordView),
    Dispatch(ExecutionCommandView),
    MarkUnknown { command_id: Seq<char>, reason: Seq<char> },
}

impl View for Task {
    type V = TaskView;

    open spec fn view(&self) -> TaskView {
        match self {
            Task::Record(record) => TaskView::Record(record@),
            Task::Dispatch(command) => TaskView::Dispatch(command@),
            Task::MarkUnknown { command_id, reason } => TaskView::MarkUnknown {
                command_id: command_id@,
                reason: reason@,
            },
        }
    }
}

/// Tasks, seen through their views.
pub open spec fn seen_tasks(tasks: Seq<Task>) -> Seq<TaskView> {
    tasks.map_values(|task: Task| task@)
}

/// What a job waits for.
#[derive(Debug)]
pub enum Pending {
    /// Nothing: its next task can begin.
    Idle,
    /// A record that is being written, and the delivery that follows it.
    Append { record: JournalRecord, delivery: Option<(u64, ExecutionCommand)> },
    /// A command that is being delivered.
    Delivery { session_id: u64, command: ExecutionCommand },
}

/// What the thing that a job waits for holds.
pub enum PendingView {
    Idle,
    Append { record: JournalRecordView, delivery: Option<(u64, ExecutionCommandView)> },
    Delivery { session_id: u64, command: ExecutionCommandView },
}

/// A delivery, by its view.
pub open spec fn seen_delivery(delivery: Option<(u64, ExecutionCommand)>) -> Option<
    (u64, ExecutionCommandView),
> {
    match delivery {
        Some((session_id, command)) => Some((session_id, command@)),
        None => None,
    }
}

impl View for Pending {
    type V = PendingView;

    open spec fn view(&self) -> PendingView {
        match self {
            Pending::Idle => PendingView::Idle,
            Pending::Append { record, delivery } => PendingView::Append {
                record: record@,
                delivery: seen_delivery(*delivery),
            },
            Pending::Delivery { session_id, command } => PendingView::Delivery {
                session_id: *session_id,
                command: command@,
            },
        }
    }
}

/// Tasks that are done one after the other. The last of `tasks` comes first.
#[derive(Debug)]
pub struct Job {
    tasks: Vec<Task>,
    pending: Pending,
}

/// What a job holds: what it waits for, and the tasks to come in their order.
#[verifier::ext_equal]
pub struct JobView {
    pub pending: PendingView,
    pub tasks: Seq<TaskView>,
}

impl View for Job {
    type V = JobView;

    closed spec fn view(&self) -> JobView {
        JobView { pending: self.pending@, tasks: seen_tasks(self.tasks@).reverse() }
    }
}

/// What is to be done for a job.
#[derive(Debug)]
pub enum Action {
    /// Begin the next task.
    Begin,
    /// Write the record that the job waits for.
    Append,
    /// Deliver the command that the job waits for.
    Deliver,
    /// Nothing more.
    Done,
}

/// What came of it.
#[derive(Debug, Clone, Copy, PartialEq, Eq, Structural)]
pub enum Outcome {
    /// The job begins.
    Begin,
    /// The record was written.
    Appended,
    /// The command was handed to its session.
    Delivered,
    /// The session takes no more commands.
    Refused,
}

/// Why a command is unknown whose session was lost.
pub open spec fn lost() -> Seq<char> {
    "connection lost before terminal acknowledgement"@
}

/// Why a command is unknown that its session did not take.
pub open spec fn closed() -> Seq<char> {
    "session queue closed before write"@
}

/// Why an opening is unknown that was confirmed without an order.
pub open spec fn unnamed() -> Seq<char> {
    "open acknowledgement omitted external order id"@
}

/// The record that a command's outcome is not known.
pub open spec fn unknown_record(
    command_id: Seq<char>,
    reason: Seq<char>,
    now: i64,
) -> JournalRecordView {
    JournalRecordView::CommandUnknown { command_id, timestamp_unix_ns: now, reason }
}

/// A job at the beginning of tasks: it writes the next record, and passes over
/// commands whose account is not connected.
pub open spec fn begun(tasks: Seq<TaskView>, sessions: Map<Seq<char>, u64>, now: i64) -> JobView
    decreases tasks.len(),
{
    if tasks.len() == 0 {
        JobView { pending: PendingView::Idle, tasks }
    } else {
        let rest = tasks.drop_first();
        match tasks[0] {
            TaskView::Record(record) => JobView {
                pending: PendingView::Append { record, delivery: None },
                tasks: rest,
            },
            TaskView::MarkUnknown { command_id, reason } => JobView {
                pending: PendingView::Append {
                    record: unknown_record(command_id, reason, now),
                    delivery: None,
                },
                tasks: rest,
            },
            TaskView::Dispatch(command) => if sessions.contains_key(command.target_account_id) {
                JobView {
                    pending: PendingView::Append {
                        record: JournalRecordView::CommandDispatched {
                            command_id: command.command_id,
                            timestamp_unix_ns: now,
                        },
                        delivery: Some((sessions[command.target_account_id], command)),
                    },
                    tasks: rest,
                }
            } else {
                begun(rest, sessions, now)
            },
        }
    }
}

/// The state after what came of a job's step: a record that was written is
/// taken into it.
pub open spec fn state_after(state: ReplayStateView, job: JobView, outcome: Outcome) -> ReplayStateView {
    match (job.pending, outcome) {
        (PendingView::Append { record, .. }, Outcome::Appended) => state.after(record),
        _ => state,
    }
}

/// A job after what came of its step. What does not fit what it waits for
/// changes nothing.
pub open spec fn job_after(
    job: JobView,
    outcome: Outcome,
    sessions: Map<Seq<char>, u64>,
    now: i64,
) -> JobView {
    match (job.pending, outcome) {
        (PendingView::Idle, _) => begun(job.tasks, sessions, now),
        (PendingView::Append { record, delivery }, Outcome::Appended) => match delivery {
            Some((session_id, command)) => JobView {
                pending: PendingView::Delivery { session_id, command },
                tasks: job.tasks,
            },
            None => begun(job.tasks, sessions, now),
        },
        (PendingView::Delivery { .. }, Outcome::Delivered) => begun(job.tasks, sessions, now),
        (PendingView::Delivery { command, .. }, Outcome::Refused) => JobView {
            pending: PendingView::Append {
                record: unknown_record(command.command_id, closed(), now),
                delivery: None,
            },
            tasks: job.tasks,
        },
        _ => job,
    }
}

impl Job {
    /// A job for tasks that come in the order of the list.
    fn of(tasks: Vec<Task>) -> (r: Job)
        ensures
            r@ == (JobView { pending: PendingView::Idle, tasks: seen_tasks(tasks@) }),
    {
        let ghost wanted = seen_tasks(tasks@);
        let mut tasks = tasks;
        let mut reversed: Vec<Task> = Vec::new();
        let ghost all = tasks@;
        assert(all.take(all.len() as int) =~= all);
        while tasks.len() > 0
            invariant
                tasks@.len() + reversed@.len() == all.len(),
                tasks@ == all.take(tasks@.len() as int),
                reversed@ == all.skip(tasks@.len() as int).reverse(),
            decreases tasks@.len(),
        {
            let ghost n = tasks@.len();
            let ghost before = reversed@;
            if let Some(task) = tasks.pop() {
                assert(task == all[n - 1]);
                reversed.push(task);
                assert(reversed@ =~= all.skip(n - 1).reverse());
                assert(tasks@ =~= all.take(n - 1));
            }
        }
        let r = Job { tasks: reversed, pending: Pending::Idle };
        assert(r@.tasks =~= wanted);
        r
    }

    /// Takes a task in front of the others.
    fn pop(&mut self) -> (r: Option<Task>)
        ensures
            final(self)@.pending == old(self)@.pending,
            match r {
                Some(task) => {
                    &&& old(self)@.tasks.len() > 0
                    &&& task@ == old(self)@.tasks[0]
                    &&& final(self)@.tasks == old(self)@.tasks.drop_first()
                },
                None => old(self)@.tasks.len() == 0 && final(self)@ == old(self)@,
            },
    {
        let ghost before = self.tasks@;
        let taken = self.tasks.pop();
        proof {
            if before.len() > 0 {
                assert(self@.tasks =~= old(self)@.tasks.drop_first());
            }
        }
        taken
    }

    /// The record that the job waits for.
    pub fn record(&self) -> (r: Option<&JournalRecord>)
        ensures
            match self@.pending {
                PendingView::Append { record, .. } => r is Some && r->Some_0@ == record,
                _ => r is None,
            },
    {
        match &self.pending {
            Pending::Append { record, .. } => Some(record),
            _ => None,
        }
    }

    /// The delivery that the job waits for: the session and the command.
    pub fn delivery(&self) -> (r: Option<(u64, &ExecutionCommand)>)
        ensures
            match self@.pending {
                PendingView::Delivery { session_id, command } => r is Some && r->Some_0.0
                    == session_id && r->Some_0.1@ == command,
                _ => r is None,
            },
    {
        match &self.pending {
            Pending::Delivery { session_id, command } => Some((*session_id, command)),
            _ => None,
        }
    }

    /// What is to be done for the job.
    pub fn action(&self) -> (r: Action)
        ensures
            r == match self@.pending {
                PendingView::Idle => if self@.tasks.len() == 0 {
                    Action::Done
                } else {
                    Action::Begin
                },
                PendingView::Append { .. } => Action::Append,
                PendingView::Delivery { .. } => Action::Deliver,
            },
    {
        match &self.pending {
            Pending::Idle => {
                if self.tasks.len() == 0 {
                    Action::Done
                } else {
                    Action::Begin
                }
            },
            Pending::Append { .. } => Action::Append,
            Pending::Delivery { .. } => Action::Deliver,
        }
    }
}

/// The daemon's state: the configuration, the rules, what the records amount
/// to, and the session of each account that is connected.
pub struct AppState {
    pub config: DaemonConfig,
    pub engine: CopyEngine,
    pub runtime: ReplayState,
    pub sessions: Table<u64>,
    pub next_session_id: u64,
}

/// The commands that rules plan for an event, in the order of the rules. A
/// rule whose binding is not there yet is passed over.
pub open spec fn plan_of(
    routes: Seq<RouteRule>,
    event: TradeEventView,
    mirrors: Map<Seq<char>, MirrorBindingView>,
    now: i64,
) -> Result<Seq<ExecutionCommandView>, RouteErrorView>
    decreases routes.len(),
{
    if routes.len() == 0 {
        Ok(Seq::empty())
    } else {
        match plan_of(routes.drop_last(), event, mirrors, now) {
            Err(error) => Err(error),
            Ok(before) => match routes.last().planned(
                event,
                mirror_for(mirrors, event, routes.last()),
                now,
            ) {
                Ok(Some(command)) => Ok(before.push(command)),
                Ok(None) => Ok(before),
                Err(RouteErrorView::MissingMirror(_)) => Ok(before),
                Err(error) => Err(error),
            },
        }
    }
}

/// The binding of an event's order on the account that a rule copies to.
pub open spec fn mirror_for(
    mirrors: Map<Seq<char>, MirrorBindingView>,
    event: TradeEventView,
    route: RouteRule,
) -> Option<MirrorBindingView> {
    let key = model::mirror_key(
        event.source_account_id,
        event.source_order_id,
        route.target_account_id@,
    );
    if mirrors.contains_key(key) {
        Some(mirrors[key])
    } else {
        None
    }
}

/// The tasks that send commands.
pub open spec fn dispatches(commands: Seq<ExecutionCommandView>) -> Seq<TaskView> {
    commands.map_values(|command: ExecutionCommandView| TaskView::Dispatch(command))
}

/// The open commands of an account in a state, in the order of the names.
pub open spec fn picked(
    names: Seq<Seq<char>>,
    commands: Map<Seq<char>, StoredCommandView>,
    account: Seq<char>,
    state: StoredCommandState,
) -> Seq<ExecutionCommandView>
    decreases names.len(),
{
    if names.len() == 0 {
        Seq::empty()
    } else {
        let before = picked(names.drop_last(), commands, account, state);
        let stored = commands[names.last()];
        if stored.state == state && stored.command.target_account_id == account {
            before.push(stored.command)
        } else {
            before
        }
    }
}

/// The tasks that note that the outcome of commands is not known, as their
/// session was lost.
pub open spec fn losses(commands: Seq<ExecutionCommandView>) -> Seq<TaskView> {
    commands.map_values(
        |command: ExecutionCommandView|
            TaskView::MarkUnknown { command_id: command.command_id, reason: lost() },
    )
}

/// The change of the bindings that a confirmed command brings.
pub open spec fn mutation_of(
    mirrors: Map<Seq<char>, MirrorBindingView>,
    command: ExecutionCommandView,
    ack: ExecutionAckView,
) -> Option<MirrorMutationView> {
    let key = model::mirror_key(
        command.source_account_id,
        command.source_order_id,
        command.target_account_id,
    );
    match command.action {
        TradeAction::Open => Some(
            MirrorMutationView::Upsert {
                binding: MirrorBindingView {
                    route_id: command.route_id,
                    source_account_id: command.source_account_id,
                    source_order_id: command.source_order_id,
                    target_account_id: command.target_account_id,
                    target_order_id: ack.external_id->Some_0,
                    source_open_volume: command.source_volume,
                    source_remaining_volume: match command.source_remaining_volume {
                        Some(volume) => volume,
                        None => command.source_volume,
                    },
                    target_open_volume: command.volume,
                    target_remaining_volume: command.volume,
                },
            },
        ),
        TradeAction::Modify => None,
        TradeAction::Reduce => if mirrors.contains_key(key) {
            let binding = mirrors[key];
            Some(
                MirrorMutationView::Upsert {
                    binding: MirrorBindingView {
                        source_remaining_volume: match command.source_remaining_volume {
                            Some(volume) => volume,
                            None => binding.source_remaining_volume.difference(
                                command.source_volume,
                            ).greater(routing::zero()),
                        },
                        target_remaining_volume: binding.target_remaining_volume.difference(
                            command.volume,
                        ).greater(routing::zero()),
                        ..binding
                    },
                },
            )
        } else {
            None
        },
        TradeAction::Close => Some(MirrorMutationView::Remove { binding_key: key }),
    }
}

/// Whether a status says that a command was carried out.
pub open spec fn confirms(status: AckStatus) -> bool {
    status == AckStatus::Accepted || status == AckStatus::Filled
}

/// The tasks that an acknowledgement brings. One for a command that is not
/// open is late or was given before, and brings none.
pub open spec fn ack_tasks(state: ReplayStateView, ack: ExecutionAckView) -> Result<
    Seq<TaskView>,
    RuntimeErrorView,
> {
    if !state.commands.contains_key(ack.command_id) {
        Ok(Seq::empty())
    } else {
        let command = state.commands[ack.command_id].command;
        if command.target_account_id != ack.account_id {
            Err(RuntimeErrorView::AckTarget)
        } else if confirms(ack.status) && command.action == TradeAction::Open && ack.external_id
            is None {
            Ok(seq![TaskView::MarkUnknown { command_id: command.command_id, reason: unnamed() }])
        } else {
            let mirror = if confirms(ack.status) {
                mutation_of(state.mirrors, command, ack)
            } else {
                None
            };
            Ok(seq![TaskView::Record(JournalRecordView::AckApplied { ack, mirror })])
        }
    }
}

/// The number of the session after another. The numbers begin again where they
/// end.
pub open spec fn number_after(id: u64) -> u64 {
    if id == u64::MAX {
        0
    } else {
        (id + 1) as u64
    }
}

/// A job at its beginning.
pub open spec fn fresh(tasks: Seq<TaskView>) -> JobView {
    JobView { pending: PendingView::Idle, tasks }
}

impl AppState {
    /// What is wrong with what a client introduces itself with, if anything.
    /// An account that is reached directly is no client's.
    pub open spec fn greeting_fault(
        &self,
        account_id: Seq<char>,
        platform: Platform,
        token: Seq<char>,
    ) -> Option<RuntimeErrorView> {
        match config::account_named(self.config.accounts@, account_id) {
            None => Some(RuntimeErrorView::UnknownAccount(account_id)),
            Some(account) => if account.backend != AccountBackend::Agent {
                Some(RuntimeErrorView::DirectVenue(account_id))
            } else if account.platform != platform {
                Some(RuntimeErrorView::PlatformMismatch(account_id))
            } else if account.token@ != token {
                Some(RuntimeErrorView::InvalidToken(account_id))
            } else {
                None
            },
        }
    }

    /// The tasks that an event brings: none where it reports a copied trade of
    /// an account that does not pass those on, or where it was planned before;
    /// else a record of the plan, and the dispatch of each planned command.
    pub open spec fn event_tasks(&self, event: TradeEventView, now: i64) -> Result<
        Seq<TaskView>,
        RuntimeErrorView,
    > {
        match config::account_named(self.config.accounts@, event.source_account_id) {
            None => Err(RuntimeErrorView::UnknownSource(event.source_account_id)),
            Some(account) => if !account.role.publishes() {
                Err(RuntimeErrorView::NotPermitted(event.source_account_id))
            } else if event.origin_command_id is Some && !account.allow_rebroadcast {
                Ok(Seq::empty())
            } else if self.runtime@.seen_events.contains(event.event_id) {
                Ok(Seq::empty())
            } else {
                match plan_of(
                    self.engine.routes(event.source_account_id),
                    event,
                    self.runtime@.mirrors,
                    now,
                ) {
                    Err(error) => Err(RuntimeErrorView::Route(error)),
                    Ok(commands) => Ok(
                        seq![
                            TaskView::Record(
                                JournalRecordView::EventPlanned {
                                    event_id: event.event_id,
                                    commands,
                                },
                            ),
                        ] + dispatches(commands),
                    ),
                }
            },
        }
    }

    /// The tasks that a frame of a connected account brings.
    pub open spec fn frame_tasks(&self, account: Seq<char>, frame: AgentFrameView, now: i64) -> Result<
        Seq<TaskView>,
        RuntimeErrorView,
    > {
        match frame {
            AgentFrameView::Hello(_) => Err(RuntimeErrorView::HelloNotFirst),
            AgentFrameView::Event(event) => if event.source_account_id != account {
                Err(RuntimeErrorView::ForeignEvent)
            } else {
                self.event_tasks(event, now)
            },
            AgentFrameView::Ack(ack) => if ack.account_id != account {
                Err(RuntimeErrorView::ForeignAck)
            } else {
                ack_tasks(self.runtime@, ack)
            },
            AgentFrameView::Ping(_) => Ok(Seq::empty()),
        }
    }

    /// Whether the bounds of each rule that sizes an opening for an event
    /// admit a volume.
    pub open spec fn sizable(&self, event: TradeEventView, now: i64) -> bool {
        forall|i: int|
            0 <= i < self.engine.routes(event.source_account_id).len() ==> {
                let route = #[trigger] self.engine.routes(event.source_account_id)[i];
                route.sizes(event, now) ==> route.min_volume.le(route.max_volume)
            }
    }

    /// Whether rules plan for an event: its account publishes, it reports no
    /// copied trade that is not passed on, and it was not planned before.
    pub open spec fn plans(&self, event: TradeEventView) -> bool {
        match config::account_named(self.config.accounts@, event.source_account_id) {
            None => false,
            Some(account) => {
                &&& account.role.publishes()
                &&& event.origin_command_id is None || account.allow_rebroadcast
                &&& !self.runtime@.seen_events.contains(event.event_id)
            },
        }
    }

    /// Whether rules plan for an event although the bounds of one admit no
    /// volume.
    pub open spec fn unbounded(&self, event: TradeEventView, now: i64) -> bool {
        self.plans(event) && !self.sizable(event, now)
    }

    /// Whether everything but what the records amount to is as it was.
    pub open spec fn unmoved(&self, other: &AppState) -> bool {
        &&& self.config == other.config
        &&& self.engine == other.engine
        &&& self.sessions@ == other.sessions@
        &&& self.next_session_id == other.next_session_id
    }

    /// The state after a restart. The engine has a copy of the rules.
    pub fn new(config: DaemonConfig, replay: ReplayState) -> (r: Result<AppState, RouteError>)
        ensures
            match routing::rules_fault(config.routes@) {
                Some(fault) => r is Err && r->Err_0@ == fault,
                None => {
                    &&& r is Ok
                    &&& r->Ok_0.config == config
                    &&& forall|source: Seq<char>|
                        routing::same_rules(
                            #[trigger] r->Ok_0.engine.routes(source),
                            routing::routes_from(config.routes@, source),
                        )
                    &&& r->Ok_0.runtime == replay
                    &&& r->Ok_0.sessions@ == Map::<Seq<char>, u64>::empty()
                    &&& r->Ok_0.next_session_id == 1
                },
            },
    {
        let routes = copy_rules(&config.routes);
        proof {
            routing::lemma_same_rules(routes@, config.routes@, Seq::empty());
            assert forall|source: Seq<char>|
                routing::same_rules(
                    #[trigger] routing::routes_from(routes@, source),
                    routing::routes_from(config.routes@, source),
                ) by {
                routing::lemma_same_rules(routes@, config.routes@, source);
            }
        }
        match CopyEngine::new(routes) {
            Ok(engine) => Ok(
                AppState {
                    config,
                    engine,
                    runtime: replay,
                    sessions: Table::new(),
                    next_session_id: 1,
                },
            ),
            Err(error) => Err(error),
        }
    }

    /// Checks what a client introduces itself with.
    pub fn authenticate(&self, account_id: &str, platform: Platform, token: &str) -> (r: Result<
        (),
        RuntimeError,
    >)
        ensures
            match self.greeting_fault(account_id@, platform, token@) {
                Some(fault) => r is Err && r->Err_0@ == fault,
                None => r is Ok,
            },
    {
        match self.config.account(account_id) {
            None => Err(RuntimeError::UnknownAccount(account_id.to_owned())),
            Some(account) => {
                if account.backend != AccountBackend::Agent {
                    Err(RuntimeError::DirectVenue(account_id.to_owned()))
                } else if account.platform != platform {
                    Err(RuntimeError::PlatformMismatch(account_id.to_owned()))
                } else if !same(account.token.as_str(), token) {
                    Err(RuntimeError::InvalidToken(account_id.to_owned()))
                } else {
                    Ok(())
                }
            },
        }
    }

    /// The session of an account.
    pub fn session_of(&self, account_id: &str) -> (r: Option<u64>)
        ensures
            r == if self.sessions@.contains_key(account_id@) {
                Some(self.sessions@[account_id@])
            } else {
                None
            },
    {
        match self.sessions.get(account_id) {
            Some(id) => Some(*id),
            None => None,
        }
    }

    /// Notes that an account is connected, and numbers its session. It takes
    /// the place of one that the account had.
    pub fn register_session(&mut self, account_id: String) -> (r: u64)
        ensures
            r == old(self).next_session_id,
            final(self).sessions@ == old(self).sessions@.insert(account_id@, r),
            final(self).next_session_id == number_after(r),
            final(self).runtime == old(self).runtime,
            final(self).config == old(self).config,
            final(self).engine == old(self).engine,
    {
        let id: u64 = self.next_session_id;
        self.next_session_id = if id == 0xffff_ffff_ffff_ffff {
            0
        } else {
            id + 1
        };
        self.sessions.insert(account_id, id);
        id
    }

    fn pick(&self, account_id: &str, state: StoredCommandState) -> (r: Vec<ExecutionCommand>)
        ensures
            journal::seen_commands(r@) == picked(
                self.runtime.commands.keys(),
                self.runtime@.commands,
                account_id@,
                state,
            ),
    {
        let n: usize = self.runtime.commands.len();
        let ghost names = self.runtime.commands.keys();
        let mut out: Vec<ExecutionCommand> = Vec::new();
        let mut i: usize = 0;
        assert(journal::seen_commands(out@) =~= Seq::empty());
        while i < n
            invariant
                i <= n,
                n == names.len(),
                names == self.runtime.commands.keys(),
                self.runtime.commands.walked(),
                journal::seen_commands(out@) == picked(
                    names.take(i as int),
                    self.runtime@.commands,
                    account_id@,
                    state,
                ),
            decreases n - i,
        {
            let ghost before = out@;
            let stored = self.runtime.commands.value_at(i);
            proof {
                assert(names.take(i + 1).drop_last() =~= names.take(i as int));
                assert(self.runtime.commands@.contains_key(names[i as int]));
                assert(self.runtime@.commands[names[i as int]] == stored@);
            }
            if stored.state == state && same(stored.command.target_account_id.as_str(), account_id) {
                out.push(stored.command.clone());
                assert(journal::seen_commands(out@) =~= journal::seen_commands(before).push(
                    stored@.command,
                ));
            }
            i = i + 1;
        }
        assert(names.take(i as int) =~= names);
        out
    }

    /// A job that sends the commands that wait for an account.
    pub fn dispatch_queued_for(&self, account_id: &str) -> (r: Job)
        ensures
            r@ == fresh(
                dispatches(
                    picked(
                        self.runtime.commands.keys(),
                        self.runtime@.commands,
                        account_id@,
                        StoredCommandState::Queued,
                    ),
                ),
            ),
    {
        let commands = self.pick(account_id, StoredCommandState::Queued);
        let ghost views = journal::seen_commands(commands@);
        let mut tasks: Vec<Task> = Vec::new();
        push_dispatches(&mut tasks, commands);
        assert(seen_tasks(tasks@) =~= dispatches(views));
        Job::of(tasks)
    }

    /// Notes that a session ended, and gives a job that notes of each command
    /// that was sent to the account that its outcome is not known. A session
    /// that another has taken the place of changes nothing.
    pub fn unregister_session(&mut self, account_id: &str, session_id: u64) -> (r: Job)
        ensures
            final(self).runtime == old(self).runtime,
            final(self).config == old(self).config,
            final(self).engine == old(self).engine,
            final(self).next_session_id == old(self).next_session_id,
            if old(self).sessions@.contains_key(account_id@) && old(self).sessions@[account_id@]
                == session_id {
                &&& final(self).sessions@ == old(self).sessions@.remove(account_id@)
                &&& r@ == fresh(
                    losses(
                        picked(
                            old(self).runtime.commands.keys(),
                            old(self).runtime@.commands,
                            account_id@,
                            StoredCommandState::Dispatched,
                        ),
                    ),
                )
            } else {
                &&& final(self).sessions@ == old(self).sessions@
                &&& r@ == fresh(Seq::empty())
            },
    {
        let current: bool = match self.sessions.get(account_id) {
            Some(id) => *id == session_id,
            None => false,
        };
        let mut tasks: Vec<Task> = Vec::new();
        if !current {
            assert(seen_tasks(tasks@) =~= Seq::empty());
            return Job::of(tasks);
        }
        let _ = self.sessions.remove(account_id);
        let commands = self.pick(account_id, StoredCommandState::Dispatched);
        let ghost views = journal::seen_commands(commands@);
        let mut i: usize = 0;
        while i < commands.len()
            invariant
                i <= commands.len(),
                views == journal::seen_commands(commands@),
                seen_tasks(tasks@) == losses(views.take(i as int)),
            decreases commands.len() - i,
        {
            let ghost before = tasks@;
            tasks.push(
                Task::MarkUnknown {
                    command_id: commands[i].command_id.clone(),
                    reason: "connection lost before terminal acknowledgement".to_owned(),
                },
            );
            assert(views[i as int] == commands@[i as int]@);
            let ghost lost_one = TaskView::MarkUnknown {
                command_id: views[i as int].command_id,
                reason: lost(),
            };
            assert(seen_tasks(tasks@) =~= seen_tasks(before).push(lost_one));
            assert(losses(views.take(i + 1)) =~= losses(views.take(i as int)).push(lost_one));
            i = i + 1;
        }
        assert(views.take(i as int) =~= views);
        Job::of(tasks)
    }

    /// What is wrong with an event, or what is to be done for it.
    pub fn handle_event(&self, event: &TradeEvent, now_unix_ns: i64) -> (r: Result<
        Job,
        RuntimeError,
    >)
        requires
            !self.unbounded(event@, now_unix_ns),
        ensures
            match self.event_tasks(event@, now_unix_ns) {
                Ok(tasks) => r is Ok && r->Ok_0@ == fresh(tasks),
                Err(error) => r is Err && r->Err_0@ == error,
            },
    {
        let account: &AccountConfig = match self.config.account(event.source_account_id.as_str()) {
            Some(account) => account,
            None => {
                return Err(RuntimeError::UnknownSource(event.source_account_id.clone()));
            },
        };
        if !account.role.can_publish() {
            return Err(RuntimeError::NotPermitted(event.source_account_id.clone()));
        }
        let mut tasks: Vec<Task> = Vec::new();
        assert(seen_tasks(tasks@) =~= Seq::empty());
        if event.origin_command_id.is_some() && !account.allow_rebroadcast {
            return Ok(Job::of(tasks));
        }
        if self.runtime.seen_events.contains(event.event_id.as_str()) {
            return Ok(Job::of(tasks));
        }
        let commands = match self.plan(event, now_unix_ns) {
            Ok(commands) => commands,
            Err(error) => {
                return Err(RuntimeError::Route(error));
            },
        };
        let ghost views = journal::seen_commands(commands@);
        let kept = copy_commands(&commands);
        tasks.push(
            Task::Record(
                JournalRecord::EventPlanned { event_id: event.event_id.clone(), commands: kept },
            ),
        );
        let ghost first = tasks@;
        push_dispatches(&mut tasks, commands);
        assert(seen_tasks(tasks@) =~= self.event_tasks(event@, now_unix_ns)->Ok_0);
        Ok(Job::of(tasks))
    }

    fn plan(&self, event: &TradeEvent, now: i64) -> (r: Result<Vec<ExecutionCommand>, RouteError>)
        requires
            self.sizable(event@, now),
        ensures
            match plan_of(
                self.engine.routes(event.source_account_id@),
                event@,
                self.runtime@.mirrors,
                now,
            ) {
                Ok(commands) => r is Ok && journal::seen_commands(r->Ok_0@) == commands,
                Err(error) => r is Err && r->Err_0@ == error,
            },
    {
        let routes = self.engine.routes_for(event.source_account_id.as_str());
        let mut planned: Vec<ExecutionCommand> = Vec::new();
        let mut i: usize = 0;
        assert(routes@.take(0) =~= Seq::empty());
        assert(journal::seen_commands(planned@) =~= Seq::empty());
        while i < routes.len()
            invariant
                i <= routes.len(),
                routes@ == self.engine.routes(event.source_account_id@),
                self.sizable(event@, now),
                plan_of(routes@.take(i as int), event@, self.runtime@.mirrors, now) == Ok::<
                    _,
                    RouteErrorView,
                >(journal::seen_commands(planned@)),
            decreases routes.len() - i,
        {
            let route = &routes[i];
            let ghost before = planned@;
            let ghost more = routes@.take(i + 1);
            proof {
                assert(more.drop_last() =~= routes@.take(i as int));
                assert(more.last() == *route);
                if plan_of(more, event@, self.runtime@.mirrors, now) is Err {
                    lemma_plan_stops(routes@, event@, self.runtime@.mirrors, now, i + 1);
                }
            }
            let key = MirrorBinding::key(
                event.source_account_id.as_str(),
                event.source_order_id.as_str(),
                route.target_account_id.as_str(),
            );
            let mirror = self.runtime.mirrors.get(key.as_str());
            assert(routing::seen_mirror(mirror) == mirror_for(
                self.runtime@.mirrors,
                event@,
                *route,
            ));
            match self.engine.build_command(event, route, mirror, now) {
                Ok(Some(command)) => {
                    planned.push(command);
                    assert(journal::seen_commands(planned@) =~= journal::seen_commands(
                        before,
                    ).push(command@));
                },
                Ok(None) => {},
                Err(RouteError::MissingMirror(_)) => {},
                Err(error) => {
                    return Err(error);
                },
            }
            i = i + 1;
        }
        assert(routes@.take(i as int) =~= routes@);
        Ok(planned)
    }
}

/// A plan that fails at a rule fails there whatever rules follow.
proof fn lemma_plan_stops(
    routes: Seq<RouteRule>,
    event: TradeEventView,
    mirrors: Map<Seq<char>, MirrorBindingView>,
    now: i64,
    n: int,
)
    requires
        0 <= n <= routes.len(),
        plan_of(routes.take(n), event, mirrors, now) is Err,
    ensures
        plan_of(routes, event, mirrors, now) == plan_of(routes.take(n), event, mirrors, now),
    decreases routes.len(),
{
    if n == routes.len() {
        assert(routes.take(n) =~= routes);
    } else {
        assert(routes.drop_last().take(n) =~= routes.take(n));
        lemma_plan_stops(routes.drop_last(), event, mirrors, now, n);
    }
}

fn copy_commands(commands: &Vec<ExecutionCommand>) -> (r: Vec<ExecutionCommand>)
    ensures
        journal::seen_commands(r@) == journal::seen_commands(commands@),
{
    let mut out: Vec<ExecutionCommand> = Vec::new();
    let mut i: usize = 0;
    while i < commands.len()
        invariant
            i <= commands.len(),
            journal::seen_commands(out@) == journal::seen_commands(commands@.take(i as int)),
        decreases commands.len() - i,
    {
        let ghost before = out@;
        out.push(commands[i].clone());
        let ghost command = commands@[i as int]@;
        assert(journal::seen_commands(out@) =~= journal::seen_commands(before).push(command));
        assert(journal::seen_commands(commands@.take(i + 1)) =~= journal::seen_commands(
            commands@.take(i as int),
        ).push(command));
        i = i + 1;
    }
    assert(commands@.take(i as int) =~= commands@);
    out
}

fn push_dispatches(tasks: &mut Vec<Task>, commands: Vec<ExecutionCommand>)
    ensures
        seen_tasks(final(tasks)@) == seen_tasks(old(tasks)@) + dispatches(
            journal::seen_commands(commands@),
        ),
{
    let ghost start = seen_tasks(tasks@);
    let ghost views = journal::seen_commands(commands@);
    let ghost all = commands@;
    assert(start + dispatches(views.take(0)) =~= start);
    for command in it: commands
        invariant
            it.seq() == all,
            views == journal::seen_commands(all),
            seen_tasks(tasks@) == start + dispatches(views.take(it.index() as int)),
    {
        let ghost before = seen_tasks(tasks@);
        tasks.push(Task::Dispatch(command));
        assert(seen_tasks(tasks@) =~= before.push(TaskView::Dispatch(views[it.index() as int])));
        assert(dispatches(views.take(it.index() + 1)) =~= dispatches(
            views.take(it.index() as int),
        ).push(TaskView::Dispatch(views[it.index() as int])));
    }
    assert(views.take(views.len() as int) =~= views);
}

impl AppState {
    /// What is wrong with an acknowledgement, or what is to be done for it.
    pub fn handle_ack(&self, ack: ExecutionAck) -> (r: Result<Job, RuntimeError>)
        ensures
            match ack_tasks(self.runtime@, ack@) {
                Ok(tasks) => r is Ok && r->Ok_0@ == fresh(tasks),
                Err(error) => r is Err && r->Err_0@ == error,
            },
    {
        let mut tasks: Vec<Task> = Vec::new();
        assert(seen_tasks(tasks@) =~= Seq::empty());
        let stored = match self.runtime.commands.get(ack.command_id.as_str()) {
            Some(stored) => stored,
            None => {
                return Ok(Job::of(tasks));
            },
        };
        assert(self.runtime@.commands[ack.command_id@] == stored@);
        let command = &stored.command;
        if !same(command.target_account_id.as_str(), ack.account_id.as_str()) {
            return Err(RuntimeError::AckTarget);
        }
        let confirmed: bool = ack.status == AckStatus::Accepted || ack.status == AckStatus::Filled;
        if confirmed && command.action == TradeAction::Open && ack.external_id.is_none() {
            tasks.push(
                Task::MarkUnknown {
                    command_id: command.command_id.clone(),
                    reason: "open acknowledgement omitted external order id".to_owned(),
                },
            );
            assert(seen_tasks(tasks@) =~= ack_tasks(self.runtime@, ack@)->Ok_0);
            return Ok(Job::of(tasks));
        }
        let mirror = if confirmed {
            self.mirror_mutation(command, &ack)
        } else {
            None
        };
        tasks.push(Task::Record(JournalRecord::AckApplied { ack, mirror }));
        assert(seen_tasks(tasks@) =~= ack_tasks(self.runtime@, ack@)->Ok_0);
        Ok(Job::of(tasks))
    }

    /// The change of the bindings that a confirmed command brings.
    pub fn mirror_mutation(&self, command: &ExecutionCommand, ack: &ExecutionAck) -> (r: Option<
        MirrorMutation,
    >)
        requires
            command.action == TradeAction::Open ==> ack.external_id is Some,
        ensures
            journal::seen_mutation(r) == mutation_of(self.runtime@.mirrors, command@, ack@),
    {
        let key = MirrorBinding::key(
            command.source_account_id.as_str(),
            command.source_order_id.as_str(),
            command.target_account_id.as_str(),
        );
        match command.action {
            TradeAction::Open => {
                let target_order_id = match &ack.external_id {
                    Some(id) => id.clone(),
                    None => {
                        return None;
                    },
                };
                Some(
                    MirrorMutation::Upsert {
                        binding: MirrorBinding {
                            route_id: command.route_id.clone(),
                            source_account_id: command.source_account_id.clone(),
                            source_order_id: command.source_order_id.clone(),
                            target_account_id: command.target_account_id.clone(),
                            target_order_id,
                            source_open_volume: command.source_volume,
                            source_remaining_volume: match command.source_remaining_volume {
                                Some(volume) => volume,
                                None => command.source_volume,
                            },
                            target_open_volume: command.volume,
                            target_remaining_volume: command.volume,
                        },
                    },
                )
            },
            TradeAction::Modify => None,
            TradeAction::Reduce => {
                match self.runtime.mirrors.get(key.as_str()) {
                    None => None,
                    Some(current) => {
                        let mut binding = current.clone();
                        binding.source_remaining_volume =
                        match command.source_remaining_volume {
                            Some(volume) => volume,
                            None => binding.source_remaining_volume.minus(
                                command.source_volume,
                            ).at_least(Double { bits: 0 }),
                        };
                        binding.target_remaining_volume =
                        binding.target_remaining_volume.minus(command.volume).at_least(
                            Double { bits: 0 },
                        );
                        Some(MirrorMutation::Upsert { binding })
                    },
                }
            },
            TradeAction::Close => Some(MirrorMutation::Remove { binding_key: key }),
        }
    }

    /// What is wrong with a frame of a connected account, or what is to be done
    /// for it.
    pub fn handle_frame(&self, connected_account_id: &str, frame: AgentFrame, now_unix_ns: i64) -> (r:
        Result<Job, RuntimeError>)
        requires
            match frame@ {
                AgentFrameView::Event(event) => event.source_account_id == connected_account_id@
                    ==> !self.unbounded(event, now_unix_ns),
                _ => true,
            },
        ensures
            match self.frame_tasks(connected_account_id@, frame@, now_unix_ns) {
                Ok(tasks) => r is Ok && r->Ok_0@ == fresh(tasks),
                Err(error) => r is Err && r->Err_0@ == error,
            },
    {
        match frame {
            AgentFrame::Hello(_) => Err(RuntimeError::HelloNotFirst),
            AgentFrame::Event(event) => {
                if !same(event.source_account_id.as_str(), connected_account_id) {
                    return Err(RuntimeError::ForeignEvent);
                }
                self.handle_event(&event, now_unix_ns)
            },
            AgentFrame::Ack(ack) => {
                if !same(ack.account_id.as_str(), connected_account_id) {
                    return Err(RuntimeError::ForeignAck);
                }
                self.handle_ack(ack)
            },
            AgentFrame::Ping(_) => {
                let tasks: Vec<Task> = Vec::new();
                assert(seen_tasks(tasks@) =~= Seq::empty());
                Ok(Job::of(tasks))
            },
        }
    }

    /// Whether rules plan for an event although the bounds of one admit no
    /// volume.
    pub fn is_unbounded(&self, event: &TradeEvent, now_unix_ns: i64) -> (r: bool)
        ensures
            r == self.unbounded(event@, now_unix_ns),
    {
        match self.config.account(event.source_account_id.as_str()) {
            None => false,
            Some(account) => {
                if !account.role.can_publish() {
                    return false;
                }
                if event.origin_command_id.is_some() && !account.allow_rebroadcast {
                    return false;
                }
                if self.runtime.seen_events.contains(event.event_id.as_str()) {
                    return false;
                }
                !self.can_size(event, now_unix_ns)
            },
        }
    }

    /// Whether the bounds of each rule that sizes an opening for an event
    /// admit a volume.
    pub fn can_size(&self, event: &TradeEvent, now_unix_ns: i64) -> (r: bool)
        ensures
            r == self.sizable(event@, now_unix_ns),
    {
        let routes = self.engine.routes_for(event.source_account_id.as_str());
        let mut i: usize = 0;
        while i < routes.len()
            invariant
                i <= routes.len(),
                routes@ == self.engine.routes(event.source_account_id@),
                forall|j: int|
                    0 <= j < i ==> {
                        let route = #[trigger] routes@[j];
                        route.sizes(event@, now_unix_ns) ==> route.min_volume.le(route.max_volume)
                    },
            decreases routes.len() - i,
        {
            if !routes[i].can_size(event, now_unix_ns) {
                assert(!self.sizable(event@, now_unix_ns)) by {
                    let route = self.engine.routes(event.source_account_id@)[i as int];
                }
                return false;
            }
            i = i + 1;
        }
        true
    }

    /// Begins the next task of a job that waits for nothing.
    fn begin(&self, job: &mut Job, now: i64)
        requires
            old(job)@.pending is Idle,
        ensures
            final(job)@ == begun(old(job)@.tasks, self.sessions@, now),
    {
        loop
            invariant_except_break
                job@.pending is Idle,
                begun(job@.tasks, self.sessions@, now) == begun(
                    old(job)@.tasks,
                    self.sessions@,
                    now,
                ),
            ensures
                job@ == begun(old(job)@.tasks, self.sessions@, now),
            decreases job@.tasks.len(),
        {
            let task = match job.pop() {
                Some(task) => task,
                None => {
                    break;
                },
            };
            match task {
                Task::Record(record) => {
                    job.pending = Pending::Append { record, delivery: None };
                    break;
                },
                Task::MarkUnknown { command_id, reason } => {
                    job.pending =
                    Pending::Append {
                        record: JournalRecord::CommandUnknown {
                            command_id,
                            timestamp_unix_ns: now,
                            reason,
                        },
                        delivery: None,
                    };
                    break;
                },
                Task::Dispatch(command) => {
                    if let Some(id) = self.sessions.get(command.target_account_id.as_str()) {
                        let record = JournalRecord::CommandDispatched {
                            command_id: command.command_id.clone(),
                            timestamp_unix_ns: now,
                        };
                        job.pending = Pending::Append { record, delivery: Some((*id, command)) };
                        break;
                    }
                },
            }
        }
    }

    /// Takes what came of a job's step: a record that was written is taken
    /// into the state, and the job goes on to its next step.
    pub fn proceed(&mut self, job: Job, outcome: Outcome, now_unix_ns: i64) -> (r: Job)
        ensures
            final(self).unmoved(old(self)),
            final(self).runtime@ == state_after(old(self).runtime@, job@, outcome),
            r@ == job_after(job@, outcome, old(self).sessions@, now_unix_ns),
    {
        let ghost start = job@;
        let mut job = job;
        let mut pending = Pending::Idle;
        std::mem::swap(&mut job.pending, &mut pending);
        match (pending, outcome) {
            (Pending::Idle, _) => {
                self.begin(&mut job, now_unix_ns);
            },
            (Pending::Append { record, delivery }, Outcome::Appended) => {
                self.runtime.apply(&record);
                match delivery {
                    Some((session_id, command)) => {
                        job.pending = Pending::Delivery { session_id, command };
                    },
                    None => {
                        self.begin(&mut job, now_unix_ns);
                    },
                }
            },
            (Pending::Delivery { .. }, Outcome::Delivered) => {
                self.begin(&mut job, now_unix_ns);
            },
            (Pending::Delivery { command, .. }, Outcome::Refused) => {
                job.pending =
                Pending::Append {
                    record: JournalRecord::CommandUnknown {
                        command_id: command.command_id,
                        timestamp_unix_ns: now_unix_ns,
                        reason: "session queue closed before write".to_owned(),
                    },
                    delivery: None,
                };
            },
            (other, _) => {
                job.pending = other;
            },
        }
        job
    }
}

impl JobView {
    /// Whether a delivery follows nothing but the record that its command is
    /// dispatched.
    pub open spec fn sound(self) -> bool {
        match self.pending {
            PendingView::Append { record, delivery: Some((_, command)) } => {
                record matches JournalRecordView::CommandDispatched { command_id, .. }
                    && command_id == command.command_id
            },
            _ => true,
        }
    }
}

proof fn lemma_begun_sound(tasks: Seq<TaskView>, sessions: Map<Seq<char>, u64>, now: i64)
    ensures
        begun(tasks, sessions, now).sound(),
        begun(tasks, sessions, now).pending !is Delivery,
        begun(tasks, sessions, now).pending is Idle ==> begun(tasks, sessions, now).tasks.len()
            == 0,
    decreases tasks.len(),
{
    if tasks.len() > 0 {
        lemma_begun_sound(tasks.drop_first(), sessions, now);
    }
}

/// Every job begins sound and stays so, whatever comes of its steps.
pub proof fn law_jobs_stay_sound(
    job: JobView,
    outcome: Outcome,
    sessions: Map<Seq<char>, u64>,
    now: i64,
    tasks: Seq<TaskView>,
)
    requires
        job.sound(),
    ensures
        fresh(tasks).sound(),
        job_after(job, outcome, sessions, now).sound(),
{
    lemma_begun_sound(job.tasks, sessions, now);
}

/// A command is handed to a session only when the record that it is dispatched
/// was written and taken into the state: when a job comes to a delivery, the
/// command counts as dispatched if it is open.
pub proof fn law_recorded_before_delivered(
    state: ReplayStateView,
    job: JobView,
    outcome: Outcome,
    sessions: Map<Seq<char>, u64>,
    now: i64,
)
    requires
        job.sound(),
        job.pending !is Delivery,
    ensures
        job_after(job, outcome, sessions, now).pending matches PendingView::Delivery {
            command,
            ..
        } ==> {
            let after = state_after(state, job, outcome);
            &&& outcome == Outcome::Appended
            &&& after.commands.contains_key(command.command_id)
                ==> after.commands[command.command_id].state == StoredCommandState::Dispatched
        },
{
    lemma_begun_sound(job.tasks, sessions, now);
}

/// A command that its session did not take is recorded as unknown next; once
/// that was written its outcome counts as unknown if it is open.
pub proof fn law_refused_becomes_unknown(
    state: ReplayStateView,
    job: JobView,
    sessions: Map<Seq<char>, u64>,
    now: i64,
)
    requires
        job.pending is Delivery,
    ensures
        ({
            let command = job.pending->Delivery_command;
            let next = job_after(job, Outcome::Refused, sessions, now);
            let after = state_after(state, next, Outcome::Appended);
            &&& next.pending == (PendingView::Append {
                record: unknown_record(command.command_id, closed(), now),
                delivery: None,
            })
            &&& after.commands.contains_key(command.command_id)
                ==> after.commands[command.command_id].state == StoredCommandState::Unknown
        }),
{
}

/// What a step writes.
pub open spec fn written(job: JobView, outcome: Outcome) -> Seq<JournalRecordView> {
    match (job.pending, outcome) {
        (PendingView::Append { record, .. }, Outcome::Appended) => seq![record],
        _ => Seq::empty(),
    }
}

/// At every step a restart finds the state: what the records that were written
/// amount to is, after a restart, what the state is after one. So it is when
/// the state was found by a restart, and it stays so.
pub proof fn law_restart_finds_the_state(
    records: Seq<JournalRecordView>,
    state: ReplayStateView,
    job: JobView,
    outcome: Outcome,
)
    requires
        state.restarted() == ReplayStateView::initial().after_all(records).restarted(),
    ensures
        state_after(state, job, outcome).restarted() == ReplayStateView::initial().after_all(
            records + written(job, outcome),
        ).restarted(),
        ({
            let found = ReplayStateView::initial().after_all(records).restarted();
            found.restarted() == found
        }),
{
    let before = ReplayStateView::initial().after_all(records);
    let more = written(job, outcome);
    journal::law_records_in_parts(ReplayStateView::initial(), records, more);
    journal::law_restart_in_between(before, more);
    journal::law_restart_in_between(state, more);
    journal::law_restart_in_between(before, Seq::empty());
    match (job.pending, outcome) {
        (PendingView::Append { record, .. }, Outcome::Appended) => {
            assert(more.drop_last() =~= Seq::empty());
            assert(state.after_all(more.drop_last()) == state);
            assert(more.last() == record);
        },
        _ => {},
    }
}

/// How much of a job is left.
pub open spec fn job_left(job: JobView) -> nat {
    4 * job.tasks.len() + match job.pending {
        PendingView::Idle => 0nat,
        PendingView::Append { delivery: None, .. } => 1,
        PendingView::Delivery { .. } => 2,
        PendingView::Append { delivery: Some(_), .. } => 3,
    }
}

/// Whether an outcome is one of the step that a job waits for.
pub open spec fn fits(job: JobView, outcome: Outcome) -> bool {
    match job.pending {
        PendingView::Idle => job.tasks.len() > 0 && outcome == Outcome::Begin,
        PendingView::Append { .. } => outcome == Outcome::Appended,
        PendingView::Delivery { .. } => outcome == Outcome::Delivered || outcome
            == Outcome::Refused,
    }
}

proof fn lemma_begun_left(tasks: Seq<TaskView>, sessions: Map<Seq<char>, u64>, now: i64)
    ensures
        job_left(begun(tasks, sessions, now)) <= 4 * tasks.len(),
        tasks.len() > 0 ==> job_left(begun(tasks, sessions, now)) < 4 * tasks.len(),
    decreases tasks.len(),
{
    if tasks.len() > 0 {
        lemma_begun_left(tasks.drop_first(), sessions, now);
    }
}

/// Every job comes to its end: each step leaves less of it, whatever comes of
/// the step.
pub proof fn law_jobs_end(
    job: JobView,
    outcome: Outcome,
    sessions: Map<Seq<char>, u64>,
    now: i64,
)
    requires
        fits(job, outcome),
    ensures
        job_left(job_after(job, outcome, sessions, now)) < job_left(job),
{
    lemma_begun_left(job.tasks, sessions, now);
}

/// An event that was planned before brings no task.
pub proof fn law_event_is_planned_once(state: AppState, event: TradeEventView, now: i64)
    requires
        state.runtime@.seen_events.contains(event.event_id),
    ensures
        state.event_tasks(event, now) is Ok ==> state.event_tasks(event, now)->Ok_0.len() == 0,
{
}

/// The record of a plan makes the event one that was planned before.
pub proof fn law_plan_is_remembered(
    state: ReplayStateView,
    event_id: Seq<char>,
    commands: Seq<ExecutionCommandView>,
)
    ensures
        state.after(JournalRecordView::EventPlanned { event_id, commands }).seen_events.contains(
            event_id,
        ),
{
}

/// A trade that was copied is not copied on from an account that does not pass
/// those on.
pub proof fn law_no_feedback(state: AppState, event: TradeEventView, now: i64)
    requires
        event.origin_command_id is Some,
        config::account_named(state.config.accounts@, event.source_account_id) matches Some(account)
            ==> !account.allow_rebroadcast,
    ensures
        state.event_tasks(event, now) is Ok ==> state.event_tasks(event, now)->Ok_0.len() == 0,
{
}

/// What is picked is open, of the account, and in the state that is asked for.
pub proof fn law_picked_fits(
    names: Seq<Seq<char>>,
    commands: Map<Seq<char>, StoredCommandView>,
    account: Seq<char>,
    state: StoredCommandState,
    i: int,
)
    requires
        0 <= i < picked(names, commands, account, state).len(),
    ensures
        exists|j: int|
            0 <= j < names.len() && (#[trigger] commands[names[j]]).state == state
                && commands[names[j]].command == picked(names, commands, account, state)[i],
        picked(names, commands, account, state)[i].target_account_id == account,
    decreases names.len(),
{
    let before = picked(names.drop_last(), commands, account, state);
    if i < before.len() {
        law_picked_fits(names.drop_last(), commands, account, state, i);
        let j = choose|j: int|
            0 <= j < names.drop_last().len() && (
            #[trigger] commands[names.drop_last()[j]]).state == state
                && commands[names.drop_last()[j]].command == before[i];
        assert(commands[names[j]].state == state);
    } else {
        assert(commands[names[names.len() - 1]].state == state);
    }
}

/// Nothing that fits is left out.
pub proof fn law_picked_is_complete(
    names: Seq<Seq<char>>,
    commands: Map<Seq<char>, StoredCommandView>,
    account: Seq<char>,
    state: StoredCommandState,
    j: int,
)
    requires
        0 <= j < names.len(),
        commands[names[j]].state == state,
        commands[names[j]].command.target_account_id == account,
    ensures
        picked(names, commands, account, state).contains(commands[names[j]].command),
    decreases names.len(),
{
    let all = picked(names, commands, account, state);
    let before = picked(names.drop_last(), commands, account, state);
    if j < names.len() - 1 {
        law_picked_is_complete(names.drop_last(), commands, account, state, j);
        let i = choose|i: int| 0 <= i < before.len() && before[i] == commands[names[j]].command;
        assert(all[i] == commands[names[j]].command);
    } else {
        assert(all[all.len() - 1] == commands[names[j]].command);
    }
}

/// What is picked is picked once.
pub proof fn law_picked_once(
    names: Seq<Seq<char>>,
    commands: Map<Seq<char>, StoredCommandView>,
    account: Seq<char>,
    state: StoredCommandState,
    i: int,
    j: int,
)
    requires
        forall|k: int|
            0 <= k < names.len() ==> commands[#[trigger] names[k]].command.command_id == names[k],
        forall|k: int, l: int|
            0 <= k < l < names.len() ==> #[trigger] names[k] != #[trigger] names[l],
        0 <= i < j < picked(names, commands, account, state).len(),
    ensures
        picked(names, commands, account, state)[i].command_id != picked(
            names,
            commands,
            account,
            state,
        )[j].command_id,
    decreases names.len(),
{
    let fewer = names.drop_last();
    let before = picked(fewer, commands, account, state);
    assert forall|k: int| 0 <= k < fewer.len() implies commands[
        #[trigger] fewer[k]
    ].command.command_id == fewer[k] by {
        assert(fewer[k] == names[k]);
    }
    if j < before.len() {
        law_picked_once(fewer, commands, account, state, i, j);
    } else {
        law_picked_fits(fewer, commands, account, state, i);
        let k = choose|k: int|
            0 <= k < fewer.len() && (#[trigger] commands[fewer[k]]).state == state
                && commands[fewer[k]].command == before[i];
        assert(names[k] == fewer[k]);
        assert(names[k] != names[names.len() - 1]);
    }
}

/// When an account is connected again, a command whose outcome is not known,
/// or that was sent before, is not sent again.
pub proof fn law_only_queued_is_sent(state: AppState, account: Seq<char>, i: int)
    requires
        state.runtime@.keyed(),
        state.runtime.commands.walked(),
        0 <= i < picked(
            state.runtime.commands.keys(),
            state.runtime@.commands,
            account,
            StoredCommandState::Queued,
        ).len(),
    ensures
        ({
            let command = picked(
                state.runtime.commands.keys(),
                state.runtime@.commands,
                account,
                StoredCommandState::Queued,
            )[i];
            &&& state.runtime@.commands.contains_key(command.command_id)
            &&& state.runtime@.commands[command.command_id].state == StoredCommandState::Queued
            &&& command.target_account_id == account
        }),
{
    let names = state.runtime.commands.keys();
    let commands = state.runtime@.commands;
    law_picked_fits(names, commands, account, StoredCommandState::Queued, i);
    let j = choose|j: int|
        0 <= j < names.len() && (#[trigger] commands[names[j]]).state == StoredCommandState::Queued
            && commands[names[j]].command == picked(
            names,
            commands,
            account,
            StoredCommandState::Queued,
        )[i];
    assert(state.runtime.commands@.contains_key(names[j]));
    assert(commands.contains_key(names[j]));
}

/// Once an acknowledgement that says what became of a command was taken, a
/// further one brings no task.
pub proof fn law_acknowledged_once(
    state: ReplayStateView,
    ack: ExecutionAckView,
    mirror: Option<MirrorMutationView>,
    again: ExecutionAckView,
)
    requires
        ack.status != AckStatus::Unknown,
        again.command_id == ack.command_id,
    ensures
        ack_tasks(state.after(JournalRecordView::AckApplied { ack, mirror }), again) == Ok::<
            _,
            RuntimeErrorView,
        >(Seq::<TaskView>::empty()),
{
}

/// A confirmed opening binds the order that it made: whoever copies the order
/// later finds it there, with the volumes that the master and the follower
/// opened, all of the follower's still open, and of the master's what the
/// command says remains, or else all.
pub proof fn law_opening_binds(
    state: ReplayStateView,
    command: ExecutionCommandView,
    ack: ExecutionAckView,
)
    requires
        command.action == TradeAction::Open,
        ack.external_id is Some,
    ensures
        ({
            let mirror = mutation_of(state.mirrors, command, ack);
            let after = state.after(JournalRecordView::AckApplied { ack, mirror });
            let key = model::mirror_key(
                command.source_account_id,
                command.source_order_id,
                command.target_account_id,
            );
            let binding = after.mirrors[key];
            &&& after.mirrors.contains_key(key)
            &&& Some(binding.target_order_id) == ack.external_id
            &&& binding.route_id == command.route_id
            &&& binding.source_account_id == command.source_account_id
            &&& binding.source_order_id == command.source_order_id
            &&& binding.target_account_id == command.target_account_id
            &&& binding.source_open_volume == command.source_volume
            &&& binding.target_open_volume == command.volume
            &&& binding.target_remaining_volume == command.volume
            &&& command.source_remaining_volume is Some ==> Some(binding.source_remaining_volume)
                == command.source_remaining_volume
            &&& command.source_remaining_volume is None ==> binding.source_remaining_volume
                == command.source_volume
            &&& forall|other: Seq<char>|
                other != key ==> #[trigger] after.mirrors.contains_key(other)
                    == state.mirrors.contains_key(other) && after.mirrors[other]
                    == state.mirrors[other]
        }),
{
}

/// A confirmed closing takes the binding away.
pub proof fn law_closing_unbinds(
    state: ReplayStateView,
    command: ExecutionCommandView,
    ack: ExecutionAckView,
)
    requires
        command.action == TradeAction::Close,
    ensures
        ({
            let mirror = mutation_of(state.mirrors, command, ack);
            let after = state.after(JournalRecordView::AckApplied { ack, mirror });
            !after.mirrors.contains_key(
                model::mirror_key(
                    command.source_account_id,
                    command.source_order_id,
                    command.target_account_id,
                ),
            )
        }),
{
}

/// A confirmed reduction leaves the binding in its place, with the order and the
/// volumes that were opened. Of the order that follows as much less remains as
/// the command took off, and never less than nothing; of the master's order what
/// the command says remains, or else as much less as the master took off.
pub proof fn law_reduction_stays_bound(
    state: ReplayStateView,
    command: ExecutionCommandView,
    ack: ExecutionAckView,
)
    requires
        state.keyed(),
        command.action == TradeAction::Reduce,
        state.mirrors.contains_key(
            model::mirror_key(
                command.source_account_id,
                command.source_order_id,
                command.target_account_id,
            ),
        ),
    ensures
        ({
            let mirror = mutation_of(state.mirrors, command, ack);
            let after = state.after(JournalRecordView::AckApplied { ack, mirror });
            let key = model::mirror_key(
                command.source_account_id,
                command.source_order_id,
                command.target_account_id,
            );
            let was = state.mirrors[key];
            let left = after.mirrors[key];
            &&& after.mirrors.contains_key(key)
            &&& left.target_order_id == was.target_order_id
            &&& left.route_id == was.route_id
            &&& left.source_account_id == was.source_account_id
            &&& left.source_order_id == was.source_order_id
            &&& left.target_account_id == was.target_account_id
            &&& left.source_open_volume == was.source_open_volume
            &&& left.target_open_volume == was.target_open_volume
            &&& !left.target_remaining_volume.lt(routing::zero())
            &&& reduced_by(was.target_remaining_volume, command.volume, left.target_remaining_volume)
            &&& command.source_remaining_volume is Some ==> Some(left.source_remaining_volume)
                == command.source_remaining_volume
            &&& command.source_remaining_volume is None ==> reduced_by(
                was.source_remaining_volume,
                command.source_volume,
                left.source_remaining_volume,
            )
            &&& forall|other: Seq<char>|
                other != key ==> #[trigger] after.mirrors.contains_key(other)
                    == state.mirrors.contains_key(other) && after.mirrors[other]
                    == state.mirrors[other]
        }),
{
    let key = model::mirror_key(
        command.source_account_id,
        command.source_order_id,
        command.target_account_id,
    );
    let was = state.mirrors[key];
    lemma_reduced_by(was.target_remaining_volume, command.volume);
    lemma_reduced_by(was.source_remaining_volume, command.source_volume);
}

/// Whether a volume is what is left of another one: the number nearest to the
/// exact difference, or nothing where more was taken off.
pub open spec fn reduced_by(whole: Double, taken: Double, left: Double) -> bool {
    whole.finite() && taken.finite() ==> {
        let exact = whole.signed_units() - taken.signed_units();
        &&& exact <= 0 ==> left.signed_units() == 0
        &&& exact > 0 ==> !left.negative() && double::rounds_to(
            exact as nat,
            1,
            left.magnitude() as nat,
        )
    }
}

proof fn lemma_reduced_by(whole: Double, taken: Double)
    ensures
        reduced_by(whole, taken, whole.difference(taken).greater(routing::zero())),
{
    if whole.finite() && taken.finite() {
        double::law_sum_is_nearest(whole, taken);
        let left = whole.difference(taken);
        let exact = whole.signed_units() - taken.signed_units();
        if exact == 0 {
            double::lemma_bottom(0, 1);
            double::lemma_nearest(0, 1, left.magnitude());
        }
        if exact > 0 {
            assert(left.signed_units() >= 0);
        }
    }
}

/// A change of protection leaves the bindings as they are, and so does a
/// reduction of an order that is not bound.
pub proof fn law_others_leave_bindings(
    state: ReplayStateView,
    command: ExecutionCommandView,
    ack: ExecutionAckView,
)
    requires
        command.action == TradeAction::Modify || (command.action == TradeAction::Reduce
            && !state.mirrors.contains_key(
            model::mirror_key(
                command.source_account_id,
                command.source_order_id,
                command.target_account_id,
            ),
        )),
    ensures
        ({
            let mirror = mutation_of(state.mirrors, command, ack);
            state.after(JournalRecordView::AckApplied { ack, mirror }).mirrors == state.mirrors
        }),
{
}

/// A command is planned on record before it is sent: the tasks of an event are
/// the record of its plan, and then the dispatch of each planned command.
pub proof fn law_planned_before_sent(state: AppState, event: TradeEventView, now: i64)
    ensures
        state.event_tasks(event, now) matches Ok(tasks) ==> tasks.len() == 0 || {
            &&& tasks[0] matches TaskView::Record(JournalRecordView::EventPlanned {
                event_id,
                commands,
            })
            &&& event_id == event.event_id
            &&& tasks.len() == commands.len() + 1
            &&& forall|i: int|
                0 < i < tasks.len() ==> #[trigger] tasks[i] == TaskView::Dispatch(commands[i - 1])
        },
{
}

/// A rule whose binding is not there yet is passed over, and the others are
/// not.
pub proof fn law_missing_binding_is_passed_over(
    routes: Seq<RouteRule>,
    route: RouteRule,
    event: TradeEventView,
    mirrors: Map<Seq<char>, MirrorBindingView>,
    now: i64,
)
    requires
        mirror_for(mirrors, event, route) is None,
        event.action != TradeAction::Open,
    ensures
        plan_of(routes.push(route), event, mirrors, now) == plan_of(routes, event, mirrors, now),
{
    assert(routes.push(route).drop_last() =~= routes);
    assert(routes.push(route).last() == route);
}

/// Every command of a plan is for the account of one of the rules, and comes
/// from the event.
pub proof fn law_plan_is_from_rules(
    routes: Seq<RouteRule>,
    event: TradeEventView,
    mirrors: Map<Seq<char>, MirrorBindingView>,
    now: i64,
    i: int,
)
    requires
        plan_of(routes, event, mirrors, now) is Ok,
        0 <= i < plan_of(routes, event, mirrors, now)->Ok_0.len(),
    ensures
        ({
            let command = plan_of(routes, event, mirrors, now)->Ok_0[i];
            exists|j: int|
                {
                    &&& 0 <= j < routes.len()
                    &&& (#[trigger] routes[j]).planned(
                        event,
                        mirror_for(mirrors, event, routes[j]),
                        now,
                    ) == Ok::<_, RouteErrorView>(Some(command))
                }
        }),
    decreases routes.len(),
{
    let all = plan_of(routes, event, mirrors, now)->Ok_0;
    let before = plan_of(routes.drop_last(), event, mirrors, now)->Ok_0;
    if i < before.len() {
        law_plan_is_from_rules(routes.drop_last(), event, mirrors, now, i);
        let j = choose|j: int|
            {
                &&& 0 <= j < routes.drop_last().len()
                &&& (#[trigger] routes.drop_last()[j]).planned(
                    event,
                    mirror_for(mirrors, event, routes.drop_last()[j]),
                    now,
                ) == Ok::<_, RouteErrorView>(Some(before[i]))
            };
        assert(routes[j] == routes.drop_last()[j]);
    } else {
        assert(routes[routes.len() - 1].planned(
            event,
            mirror_for(mirrors, event, routes[routes.len() - 1]),
            now,
        ) == Ok::<_, RouteErrorView>(Some(all[i])));
    }
}

/// The records that note that the outcome of commands is not known.
pub open spec fn loss_records(commands: Seq<ExecutionCommandView>, now: i64) -> Seq<
    JournalRecordView,
> {
    commands.map_values(
        |command: ExecutionCommandView| unknown_record(command.command_id, lost(), now),
    )
}

/// Records of unknown outcomes change nothing but the state of the commands
/// that they name.
proof fn lemma_losses(
    state: ReplayStateView,
    commands: Seq<ExecutionCommandView>,
    now: i64,
    id: Seq<char>,
)
    ensures
        ({
            let after = state.after_all(loss_records(commands, now));
            &&& after.commands.contains_key(id) == state.commands.contains_key(id)
            &&& state.commands.contains_key(id) ==> {
                let named = exists|i: int|
                    0 <= i < commands.len() && (#[trigger] commands[i]).command_id == id;
                &&& after.commands[id].command == state.commands[id].command
                &&& named ==> after.commands[id].state == StoredCommandState::Unknown
                &&& !named ==> after.commands[id].state == state.commands[id].state
            }
        }),
    decreases commands.len(),
{
    let records = loss_records(commands, now);
    if commands.len() == 0 {
        assert(records =~= Seq::empty());
    } else {
        let fewer = commands.drop_last();
        lemma_losses(state, fewer, now, id);
        assert(records.drop_last() =~= loss_records(fewer, now));
        assert(records.last() == unknown_record(commands.last().command_id, lost(), now));
        if commands.last().command_id == id {
            assert(commands[commands.len() - 1].command_id == id);
        } else {
            assert forall|i: int| 0 <= i < commands.len() && (
            #[trigger] commands[i]).command_id == id implies 0 <= i < fewer.len()
                && fewer[i].command_id == id by {}
            if exists|i: int| 0 <= i < fewer.len() && (#[trigger] fewer[i]).command_id == id {
                let i = choose|i: int|
                    0 <= i < fewer.len() && (#[trigger] fewer[i]).command_id == id;
                assert(commands[i].command_id == id);
            }
        }
    }
}

/// When a session is lost, and the records that its loss asks for were
/// written, no command of the account counts as sent any more: each that did
/// has an unknown outcome.
pub proof fn law_lost_session_leaves_none_sent(
    state: ReplayStateView,
    names: Seq<Seq<char>>,
    account: Seq<char>,
    now: i64,
    id: Seq<char>,
)
    requires
        state.keyed(),
        forall|key: Seq<char>| #[trigger]
            state.commands.contains_key(key) ==> exists|i: int|
                0 <= i < names.len() && #[trigger] names[i] == key,
        state.commands.contains_key(id),
        state.commands[id].command.target_account_id == account,
        state.commands[id].state == StoredCommandState::Dispatched,
    ensures
        ({
            let commands = picked(
                names,
                state.commands,
                account,
                StoredCommandState::Dispatched,
            );
            let after = state.after_all(loss_records(commands, now));
            &&& after.commands.contains_key(id)
            &&& after.commands[id].state == StoredCommandState::Unknown
        }),
{
    let commands = picked(names, state.commands, account, StoredCommandState::Dispatched);
    let j = choose|j: int| 0 <= j < names.len() && #[trigger] names[j] == id;
    law_picked_is_complete(names, state.commands, account, StoredCommandState::Dispatched, j);
    let i = choose|i: int| 0 <= i < commands.len() && commands[i] == state.commands[id].command;
    assert(commands[i].command_id == id);
    lemma_losses(state, commands, now, id);
}

/// The binding that a rule goes by is that of the event's order on the rule's
/// account.
pub proof fn law_binding_is_of_order(
    mirrors: Map<Seq<char>, MirrorBindingView>,
    event: TradeEventView,
    route: RouteRule,
)
    ensures
        ({
            let key = model::mirror_key(
                event.source_account_id,
                event.source_order_id,
                route.target_account_id@,
            );
            &&& mirrors.contains_key(key) ==> mirror_for(mirrors, event, route) == Some(
                mirrors[key],
            )
            &&& !mirrors.contains_key(key) ==> mirror_for(mirrors, event, route) is None
        }),
{
}

/// What rules answer to an event, in their order.
spec fn answers(
    routes: Seq<RouteRule>,
    event: TradeEventView,
    mirrors: Map<Seq<char>, MirrorBindingView>,
    now: i64,
) -> Seq<Result<Option<ExecutionCommandView>, RouteErrorView>> {
    routes.map_values(
        |route: RouteRule| route.planned(event, mirror_for(mirrors, event, route), now),
    )
}

/// The commands among answers, up to one that stops the plan.
spec fn gathered(given: Seq<Result<Option<ExecutionCommandView>, RouteErrorView>>) -> Result<
    Seq<ExecutionCommandView>,
    RouteErrorView,
>
    decreases given.len(),
{
    if given.len() == 0 {
        Ok(Seq::empty())
    } else {
        match gathered(given.drop_last()) {
            Err(error) => Err(error),
            Ok(before) => match given.last() {
                Ok(Some(command)) => Ok(before.push(command)),
                Ok(None) => Ok(before),
                Err(RouteErrorView::MissingMirror(_)) => Ok(before),
                Err(error) => Err(error),
            },
        }
    }
}

proof fn lemma_plan_gathers(
    routes: Seq<RouteRule>,
    event: TradeEventView,
    mirrors: Map<Seq<char>, MirrorBindingView>,
    now: i64,
)
    ensures
        plan_of(routes, event, mirrors, now) == gathered(answers(routes, event, mirrors, now)),
    decreases routes.len(),
{
    let given = answers(routes, event, mirrors, now);
    if routes.len() > 0 {
        lemma_plan_gathers(routes.drop_last(), event, mirrors, now);
        assert(given.drop_last() =~= answers(routes.drop_last(), event, mirrors, now));
    }
}

proof fn lemma_gathered(given: Seq<Result<Option<ExecutionCommandView>, RouteErrorView>>) -> (places:
    Seq<int>)
    requires
        gathered(given) is Ok,
    ensures
        places.len() == gathered(given)->Ok_0.len(),
        forall|i: int|
            0 <= i < places.len() ==> 0 <= #[trigger] places[i] < given.len() && given[places[i]]
                == Ok::<_, RouteErrorView>(Some(gathered(given)->Ok_0[i])),
        forall|i: int, j: int| 0 <= i < j < places.len() ==> places[i] < places[j],
        forall|j: int|
            0 <= j < given.len() && (#[trigger] given[j] matches Ok(Some(_))) ==> places.contains(j),
    decreases given.len(),
{
    if given.len() == 0 {
        Seq::empty()
    } else {
        let fewer = given.drop_last();
        let before = lemma_gathered(fewer);
        let last = given.len() - 1;
        let all = if given.last() matches Ok(Some(_)) {
            before.push(last)
        } else {
            before
        };
        assert forall|i: int| 0 <= i < all.len() implies 0 <= #[trigger] all[i] < given.len()
            && given[all[i]] == Ok::<_, RouteErrorView>(Some(gathered(given)->Ok_0[i])) by {
            if i < before.len() {
                assert(0 <= before[i] < fewer.len());
                assert(fewer[before[i]] == given[before[i]]);
            }
        }
        assert forall|j: int|
            0 <= j < given.len() && (#[trigger] given[j] matches Ok(Some(_))) implies all.contains(
            j,
        ) by {
            if j < last {
                assert(fewer[j] == given[j]);
                let i = choose|i: int| 0 <= i < before.len() && before[i] == j;
                assert(all[i] == j);
            } else {
                assert(all[all.len() - 1] == j);
            }
        }
        all
    }
}

/// A plan is complete: each rule that makes a command of the event has it in the
/// plan, once, and the commands stand in the order of the rules.
pub proof fn law_plan_is_complete(
    routes: Seq<RouteRule>,
    event: TradeEventView,
    mirrors: Map<Seq<char>, MirrorBindingView>,
    now: i64,
) -> (places: Seq<int>)
    requires
        plan_of(routes, event, mirrors, now) is Ok,
    ensures
        places.len() == plan_of(routes, event, mirrors, now)->Ok_0.len(),
        forall|i: int|
            0 <= i < places.len() ==> 0 <= #[trigger] places[i] < routes.len()
                && routes[places[i]].planned(
                event,
                mirror_for(mirrors, event, routes[places[i]]),
                now,
            ) == Ok::<_, RouteErrorView>(Some(plan_of(routes, event, mirrors, now)->Ok_0[i])),
        forall|i: int, j: int| 0 <= i < j < places.len() ==> places[i] < places[j],
        forall|j: int|
            0 <= j < routes.len() && ((#[trigger] routes[j]).planned(
                event,
                mirror_for(mirrors, event, routes[j]),
                now,
            ) matches Ok(Some(_))) ==> places.contains(j),
{
    let given = answers(routes, event, mirrors, now);
    lemma_plan_gathers(routes, event, mirrors, now);
    let places = lemma_gathered(given);
    assert forall|i: int| 0 <= i < places.len() implies 0 <= #[trigger] places[i] < routes.len()
        && routes[places[i]].planned(event, mirror_for(mirrors, event, routes[places[i]]), now)
        == Ok::<_, RouteErrorView>(Some(plan_of(routes, event, mirrors, now)->Ok_0[i])) by {
        assert(given[places[i]] == routes[places[i]].planned(
            event,
            mirror_for(mirrors, event, routes[places[i]]),
            now,
        ));
    }
    assert forall|j: int|
        0 <= j < routes.len() && ((#[trigger] routes[j]).planned(
            event,
            mirror_for(mirrors, event, routes[j]),
            now,
        ) matches Ok(Some(_))) implies places.contains(j) by {
        assert(given[j] == routes[j].planned(event, mirror_for(mirrors, event, routes[j]), now));
    }
    places
}

proof fn lemma_gathering_fails(given: Seq<Result<Option<ExecutionCommandView>, RouteErrorView>>)
    ensures
        gathered(given) is Ok <==> forall|j: int|
            0 <= j < given.len() ==> match #[trigger] given[j] {
                Ok(_) => true,
                Err(RouteErrorView::MissingMirror(_)) => true,
                Err(_) => false,
            },
        gathered(given) matches Err(error) ==> exists|j: int|
            {
                &&& 0 <= j < given.len()
                &&& #[trigger] given[j] == Err::<Option<ExecutionCommandView>, _>(error)
                &&& error !is MissingMirror
                &&& forall|k: int|
                    0 <= k < j ==> match #[trigger] given[k] {
                        Ok(_) => true,
                        Err(RouteErrorView::MissingMirror(_)) => true,
                        Err(_) => false,
                    }
            },
    decreases given.len(),
{
    if given.len() > 0 {
        let fewer = given.drop_last();
        let last = given.len() - 1;
        lemma_gathering_fails(fewer);
        assert(forall|j: int| 0 <= j < last ==> #[trigger] given[j] == fewer[j]);
        assert(forall|j: int| 0 <= j < last ==> #[trigger] fewer[j] == given[j]);
        assert(given[last] == given.last());
        if gathered(fewer) is Err {
            let error = gathered(fewer)->Err_0;
            let j = choose|j: int|
                {
                    &&& 0 <= j < fewer.len()
                    &&& #[trigger] fewer[j] == Err::<Option<ExecutionCommandView>, _>(error)
                    &&& error !is MissingMirror
                    &&& forall|k: int|
                        0 <= k < j ==> match #[trigger] fewer[k] {
                            Ok(_) => true,
                            Err(RouteErrorView::MissingMirror(_)) => true,
                            Err(_) => false,
                        }
                };
            assert(given[j] == Err::<Option<ExecutionCommandView>, _>(error));
        }
    }
}

/// A plan fails just where a rule meets something other than a binding that is
/// not there yet, and it fails with what the first such rule meets.
pub proof fn law_plan_fails(
    routes: Seq<RouteRule>,
    event: TradeEventView,
    mirrors: Map<Seq<char>, MirrorBindingView>,
    now: i64,
)
    ensures
        plan_of(routes, event, mirrors, now) is Ok <==> forall|j: int|
            0 <= j < routes.len() ==> match (#[trigger] routes[j]).planned(
                event,
                mirror_for(mirrors, event, routes[j]),
                now,
            ) {
                Ok(_) => true,
                Err(RouteErrorView::MissingMirror(_)) => true,
                Err(_) => false,
            },
        plan_of(routes, event, mirrors, now) matches Err(error) ==> exists|j: int|
            {
                &&& 0 <= j < routes.len()
                &&& (#[trigger] routes[j]).planned(
                    event,
                    mirror_for(mirrors, event, routes[j]),
                    now,
                ) == Err::<Option<ExecutionCommandView>, _>(error)
                &&& plan_of(routes.take(j), event, mirrors, now) is Ok
            },
{
    let given = answers(routes, event, mirrors, now);
    lemma_plan_gathers(routes, event, mirrors, now);
    lemma_gathering_fails(given);
    assert(forall|j: int|
        0 <= j < routes.len() ==> #[trigger] given[j] == routes[j].planned(
            event,
            mirror_for(mirrors, event, routes[j]),
            now,
        ));
    if gathered(given) is Ok {
        assert forall|j: int| 0 <= j < routes.len() implies match (#[trigger] routes[j]).planned(
            event,
            mirror_for(mirrors, event, routes[j]),
            now,
        ) {
            Ok(_) => true,
            Err(RouteErrorView::MissingMirror(_)) => true,
            Err(_) => false,
        } by {
            assert(given[j] is Ok || given[j]->Err_0 is MissingMirror);
        }
    } else {
        let error = gathered(given)->Err_0;
        let j = choose|j: int|
            {
                &&& 0 <= j < given.len()
                &&& #[trigger] given[j] == Err::<Option<ExecutionCommandView>, _>(error)
                &&& error !is MissingMirror
                &&& forall|k: int|
                    0 <= k < j ==> match #[trigger] given[k] {
                        Ok(_) => true,
                        Err(RouteErrorView::MissingMirror(_)) => true,
                        Err(_) => false,
                    }
            };
        assert(routes[j].planned(event, mirror_for(mirrors, event, routes[j]), now) == given[j]);
        lemma_plan_gathers(routes.take(j), event, mirrors, now);
        lemma_gathering_fails(given.take(j));
        assert(answers(routes.take(j), event, mirrors, now) =~= given.take(j));
    }
}

/// An event reaches every follower: where its account may be followed, it
/// reports no copied trade that is not passed on, and it was not planned before,
/// the plan is recorded under the event's name, and each command that a rule of
/// the account makes of the event is in the record and is sent.
pub proof fn law_event_reaches_followers(
    state: AppState,
    event: TradeEventView,
    now: i64,
    account: AccountConfig,
    j: int,
)
    requires
        config::account_named(state.config.accounts@, event.source_account_id) == Some(account),
        account.role == AccountRole::Master || account.role == AccountRole::Both,
        event.origin_command_id is None || account.allow_rebroadcast,
        !state.runtime@.seen_events.contains(event.event_id),
        plan_of(
            state.engine.routes(event.source_account_id),
            event,
            state.runtime@.mirrors,
            now,
        ) is Ok,
        0 <= j < state.engine.routes(event.source_account_id).len(),
    ensures
        ({
            let route = state.engine.routes(event.source_account_id)[j];
            let mirror = mirror_for(state.runtime@.mirrors, event, route);
            state.event_tasks(event, now) matches Ok(tasks) && {
                &&& tasks.len() > 0
                &&& tasks[0] matches TaskView::Record(JournalRecordView::EventPlanned {
                    event_id,
                    commands,
                })
                &&& event_id == event.event_id
                &&& tasks.len() == commands.len() + 1
                &&& route.planned(event, mirror, now) matches Ok(Some(command)) ==> {
                    &&& commands.contains(command)
                    &&& tasks.contains(TaskView::Dispatch(command))
                }
            }
        }),
{
    let routes = state.engine.routes(event.source_account_id);
    let mirrors = state.runtime@.mirrors;
    let commands = plan_of(routes, event, mirrors, now)->Ok_0;
    let tasks = state.event_tasks(event, now)->Ok_0;
    let places = law_plan_is_complete(routes, event, mirrors, now);
    assert(tasks[0] == TaskView::Record(
        JournalRecordView::EventPlanned { event_id: event.event_id, commands },
    ));
    if let Ok(Some(command)) = routes[j].planned(event, mirror_for(mirrors, event, routes[j]), now) {
        let i = choose|i: int| 0 <= i < places.len() && places[i] == j;
        assert(0 <= places[i] < routes.len());
        assert(commands[i] == command);
        assert(tasks[i + 1] == TaskView::Dispatch(command));
    }
}

/// An event of an account that is not known, or that may not be followed, is
/// refused. One that fails to be planned is too.
pub proof fn law_event_is_refused(state: AppState, event: TradeEventView, now: i64)
    ensures
        ({
            let tasks = state.event_tasks(event, now);
            match config::account_named(state.config.accounts@, event.source_account_id) {
                None => tasks == Err::<Seq<TaskView>, _>(
                    RuntimeErrorView::UnknownSource(event.source_account_id),
                ),
                Some(account) => {
                    &&& account.role == AccountRole::Follower ==> tasks == Err::<
                        Seq<TaskView>,
                        _,
                    >(RuntimeErrorView::NotPermitted(event.source_account_id))
                    &&& account.role != AccountRole::Follower && event.origin_command_id is Some
                        && !account.allow_rebroadcast ==> tasks == Ok::<_, RuntimeErrorView>(
                        Seq::<TaskView>::empty(),
                    )
                    &&& account.role != AccountRole::Follower && state.runtime@.seen_events.contains(
                        event.event_id,
                    ) ==> tasks == Ok::<_, RuntimeErrorView>(Seq::<TaskView>::empty())
                    &&& tasks matches Err(error) ==> match error {
                        RuntimeErrorView::NotPermitted(_) => account.role == AccountRole::Follower,
                        RuntimeErrorView::Route(_) => account.role != AccountRole::Follower,
                        _ => false,
                    }
                },
            }
        }),
{
}

/// A client is let in just where it names an account that is reached through
/// clients, on the account's platform and with the account's token.
pub proof fn law_greeting_is_checked(
    state: AppState,
    account_id: Seq<char>,
    platform: Platform,
    token: Seq<char>,
)
    ensures
        state.greeting_fault(account_id, platform, token) is None <==> {
            &&& config::account_named(state.config.accounts@, account_id) matches Some(account)
            &&& account.backend == AccountBackend::Agent
            &&& account.platform == platform
            &&& account.token@ == token
        },
        state.greeting_fault(account_id, platform, token) matches Some(fault) ==> match fault {
            RuntimeErrorView::UnknownAccount(id) => id == account_id && config::account_named(
                state.config.accounts@,
                account_id,
            ) is None,
            RuntimeErrorView::DirectVenue(id) => id == account_id && config::account_named(
                state.config.accounts@,
                account_id,
            )->Some_0.backend != AccountBackend::Agent,
            RuntimeErrorView::PlatformMismatch(id) => id == account_id && config::account_named(
                state.config.accounts@,
                account_id,
            )->Some_0.platform != platform,
            RuntimeErrorView::InvalidToken(id) => id == account_id && config::account_named(
                state.config.accounts@,
                account_id,
            )->Some_0.token@ != token,
            _ => false,
        },
{
}

/// An acknowledgement is recorded as it was given, for a command that is open
/// and by the command's own account. Only a confirmed command changes a binding,
/// and a confirmed opening that names no order has an unknown outcome.
pub proof fn law_acknowledgement_is_answered(state: ReplayStateView, ack: ExecutionAckView)
    ensures
        ({
            let known = state.commands.contains_key(ack.command_id);
            let command = state.commands[ack.command_id].command;
            let confirmed = ack.status == AckStatus::Accepted || ack.status == AckStatus::Filled;
            let tasks = ack_tasks(state, ack);
            &&& !known ==> tasks == Ok::<_, RuntimeErrorView>(Seq::<TaskView>::empty())
            &&& known && command.target_account_id != ack.account_id ==> tasks == Err::<
                Seq<TaskView>,
                _,
            >(RuntimeErrorView::AckTarget)
            &&& known && command.target_account_id == ack.account_id ==> {
                &&& tasks is Ok
                &&& tasks->Ok_0.len() == 1
                &&& confirmed && command.action == TradeAction::Open && ack.external_id is None
                    ==> (tasks->Ok_0[0] matches TaskView::MarkUnknown { command_id, .. }
                    && command_id == command.command_id)
                &&& !(confirmed && command.action == TradeAction::Open && ack.external_id is None)
                    ==> {
                    &&& tasks->Ok_0[0] matches TaskView::Record(JournalRecordView::AckApplied {
                        ack: kept,
                        mirror,
                    })
                    &&& kept == ack
                    &&& !confirmed ==> mirror is None
                    &&& confirmed ==> mirror == mutation_of(state.mirrors, command, ack)
                }
            }
        }),
{
}

/// A connected account speaks for itself alone, introduces itself once, and
/// nothing is done for a sign of life.
pub proof fn law_frame_is_answered(
    state: AppState,
    account: Seq<char>,
    frame: AgentFrameView,
    now: i64,
)
    ensures
        match frame {
            AgentFrameView::Hello(_) => state.frame_tasks(account, frame, now) == Err::<
                Seq<TaskView>,
                _,
            >(RuntimeErrorView::HelloNotFirst),
            AgentFrameView::Event(event) => if event.source_account_id == account {
                state.frame_tasks(account, frame, now) == state.event_tasks(event, now)
            } else {
                state.frame_tasks(account, frame, now) == Err::<Seq<TaskView>, _>(
                    RuntimeErrorView::ForeignEvent,
                )
            },
            AgentFrameView::Ack(ack) => if ack.account_id == account {
                state.frame_tasks(account, frame, now) == ack_tasks(state.runtime@, ack)
            } else {
                state.frame_tasks(account, frame, now) == Err::<Seq<TaskView>, _>(
                    RuntimeErrorView::ForeignAck,
                )
            },
            AgentFrameView::Ping(_) => state.frame_tasks(account, frame, now) == Ok::<
                _,
                RuntimeErrorView,
            >(Seq::<TaskView>::empty()),
        },
{
}

/// The tasks of a job are begun one after the other: a record is written as it
/// is, an unknown outcome is recorded for its command, and a command is recorded
/// as dispatched and then handed to the session of its account. A command whose
/// account is not connected is passed over, and the next task begins.
pub proof fn law_next_task(task: TaskView, rest: Seq<TaskView>, sessions: Map<Seq<char>, u64>, now: i64)
    ensures
        ({
            let tasks = seq![task] + rest;
            let job = begun(tasks, sessions, now);
            match task {
                TaskView::Record(record) => {
                    &&& job.tasks == rest
                    &&& job.pending == (PendingView::Append { record, delivery: None })
                },
                TaskView::MarkUnknown { command_id, reason } => {
                    &&& job.tasks == rest
                    &&& job.pending == (PendingView::Append {
                        record: JournalRecordView::CommandUnknown {
                            command_id,
                            timestamp_unix_ns: now,
                            reason,
                        },
                        delivery: None,
                    })
                },
                TaskView::Dispatch(command) => if sessions.contains_key(
                    command.target_account_id,
                ) {
                    &&& job.tasks == rest
                    &&& job.pending == (PendingView::Append {
                        record: JournalRecordView::CommandDispatched {
                            command_id: command.command_id,
                            timestamp_unix_ns: now,
                        },
                        delivery: Some((sessions[command.target_account_id], command)),
                    })
                } else {
                    job == begun(rest, sessions, now)
                },
            }
        }),
        begun(Seq::empty(), sessions, now).pending is Idle,
{
    assert((seq![task] + rest).drop_first() =~= rest);
}

/// A job goes on as its steps come out: what was recorded as dispatched is
/// delivered to the session that was found, and what was delivered or recorded
/// makes room for the next task. Nothing is taken into the state but a record
/// that was written.
pub proof fn law_next_step(
    state: ReplayStateView,
    job: JobView,
    outcome: Outcome,
    sessions: Map<Seq<char>, u64>,
    now: i64,
)
    ensures
        ({
            let next = job_after(job, outcome, sessions, now);
            match (job.pending, outcome) {
                (PendingView::Append { delivery: Some((session, command)), .. }, Outcome::Appended)
                    => {
                    &&& next.tasks == job.tasks
                    &&& next.pending == (PendingView::Delivery { session_id: session, command })
                },
                (PendingView::Append { delivery: None, .. }, Outcome::Appended) => next == begun(
                    job.tasks,
                    sessions,
                    now,
                ),
                (PendingView::Delivery { .. }, Outcome::Delivered) => next == begun(
                    job.tasks,
                    sessions,
                    now,
                ),
                (PendingView::Delivery { command, .. }, Outcome::Refused) => {
                    &&& next.tasks == job.tasks
                    &&& next.pending matches PendingView::Append {
                        record: JournalRecordView::CommandUnknown { command_id, .. },
                        delivery: None,
                    }
                    &&& command_id == command.command_id
                },
                (PendingView::Idle, _) => next == begun(job.tasks, sessions, now),
                _ => next == job,
            }
        }),
        match (job.pending, outcome) {
            (PendingView::Append { record, .. }, Outcome::Appended) => state_after(
                state,
                job,
                outcome,
            ) == state.after(record),
            _ => state_after(state, job, outcome) == state,
        },
{
}

/// The loss of a session, and the commands that wait for an account, are
/// answered command by command: each lost one has an unknown outcome, and each
/// waiting one is sent, in their order.
pub proof fn law_each_command_has_its_task(commands: Seq<ExecutionCommandView>, i: int)
    requires
        0 <= i < commands.len(),
    ensures
        dispatches(commands).len() == commands.len(),
        dispatches(commands)[i] == TaskView::Dispatch(commands[i]),
        losses(commands).len() == commands.len(),
        losses(commands)[i] matches TaskView::MarkUnknown { command_id, .. } && command_id
            == commands[i].command_id,
{
}

/// Sessions that follow one another have different numbers.
pub proof fn law_session_numbers_differ(id: u64)
    ensures
        number_after(id) != id,
        id < u64::MAX ==> number_after(id) == id + 1,
{
}

/// An event cannot be answered just where it is to be planned, and a rule from
/// its account would size an opening for it within bounds that admit nothing.
pub proof fn law_unbounded_event(state: AppState, event: TradeEventView, now: i64)
    ensures
        state.unbounded(event, now) <==> {
            &&& config::account_named(state.config.accounts@, event.source_account_id)
                matches Some(account)
            &&& account.role == AccountRole::Master || account.role == AccountRole::Both
            &&& event.origin_command_id is None || account.allow_rebroadcast
            &&& !state.runtime@.seen_events.contains(event.event_id)
            &&& event.action == TradeAction::Open
            &&& exists|i: int|
                {
                    &&& 0 <= i < state.engine.routes(event.source_account_id).len()
                    &&& (#[trigger] state.engine.routes(event.source_account_id)[i]).takes(event)
                    &&& !state.engine.routes(event.source_account_id)[i].stale(event, now)
                    &&& !state.engine.routes(event.source_account_id)[i].min_volume.le(
                        state.engine.routes(event.source_account_id)[i].max_volume,
                    )
                }
        },
{
}

/// Why a command's outcome is unknown is told as it is.
pub proof fn law_reasons_are_told(command_id: Seq<char>, reason: Seq<char>, now: i64)
    ensures
        lost() == "connection lost before terminal acknowledgement"@,
        closed() == "session queue closed before write"@,
        unnamed() == "open acknowledgement omitted external order id"@,
        unknown_record(command_id, reason, now) == (JournalRecordView::CommandUnknown {
            command_id,
            timestamp_unix_ns: now,
            reason,
        }),
{
}

} // verus!
