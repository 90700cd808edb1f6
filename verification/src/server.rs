//! A client's connection: its greeting and the lines that follow.

use crate::config::AccountBackend;
use crate::journal::StoredCommandState;
use crate::model;
use crate::protocol::{
    encode_server_frame, parse_agent_line, AgentFrame, AgentFrameView, HelloFrame, HelloFrameView,
    ServerFrame, ServerFrameView, WireError, WireErrorView,
};
use crate::runtime::{AppState, Job, JobView, RuntimeError, RuntimeErrorView};
use crate::text::same;
use crate::{protocol, runtime};
use vstd::prelude::*;
use vstd::string::*;

verus! {

/// Why a connection is refused.
#[derive(Debug)]
pub enum ServerError {
    Wire(WireError),
    NotHello,
    Runtime(RuntimeError),
}

/// What an error of a connection holds.
pub enum ServerErrorView {
    Wire(WireErrorView),
    NotHello,
    Runtime(RuntimeErrorView),
}

impl View for ServerError {
    type V = ServerErrorView;

    open spec fn view(&self) -> ServerErrorView {
        match self {
            ServerError::Wire(error) => ServerErrorView::Wire(error@),
            ServerError::NotHello => ServerErrorView::NotHello,
            ServerError::Runtime(error) => ServerErrorView::Runtime(error@),
        }
    }
}

impl ServerErrorView {
    /// The error in words.
    pub open spec fn words(self) -> Seq<char> {
        match self {
            ServerErrorView::Wire(error) => error.words(),
            ServerErrorView::NotHello => "first frame must be HELLO"@,
            ServerErrorView::Runtime(error) => error.words(),
        }
    }
}

impl ServerError {
    /// The error in words.
    pub fn to_string(&self) -> (r: String)
        ensures
            r@ == self@.words(),
    {
        match self {
            ServerError::Wire(error) => error.to_string(),
            ServerError::NotHello => "first frame must be HELLO".to_owned(),
            ServerError::Runtime(error) => error.to_string(),
        }
    }
}

/// The greeting that a first line holds: a frame that introduces an account
/// with its platform and its token.
pub open spec fn greeting(state: AppState, line: Seq<char>) -> Result<
    HelloFrameView,
    ServerErrorView,
> {
    match protocol::agent_frame(protocol::fields_of(line)) {
        Err(error) => Err(ServerErrorView::Wire(error)),
        Ok(AgentFrameView::Hello(hello)) => match state.greeting_fault(
            hello.account_id,
            hello.platform,
            hello.token,
        ) {
            Some(fault) => Err(ServerErrorView::Runtime(fault)),
            None => Ok(hello),
        },
        Ok(_) => Err(ServerErrorView::NotHello),
    }
}

/// Takes the first line of a connection.
pub fn greet(state: &AppState, line: &str) -> (r: Result<HelloFrame, ServerError>)
    ensures
        model::outcome(r) == greeting(*state, line@),
{
    match parse_agent_line(line) {
        Err(error) => Err(ServerError::Wire(error)),
        Ok(AgentFrame::Hello(hello)) => {
            match state.authenticate(
                hello.account_id.as_str(),
                hello.platform,
                hello.token.as_str(),
            ) {
                Ok(_) => Ok(hello),
                Err(error) => Err(ServerError::Runtime(error)),
            }
        },
        Ok(_) => Err(ServerError::NotHello),
    }
}

/// The line that answers a greeting.
pub fn welcome_line(now_unix_ns: i64) -> (r: String)
    ensures
        r@ == protocol::line_of(protocol::server_fields(ServerFrameView::Welcome(now_unix_ns))),
{
    encode_server_frame(&ServerFrame::Welcome { server_time_unix_ns: now_unix_ns })
}

/// What a line of a connected account brings.
#[derive(Debug)]
pub enum Received {
    /// The line holds no frame, and is passed over.
    Invalid(WireError),
    /// The session of the account, if there is one, is to answer.
    Pong { session_id: Option<u64> },
    /// There is something to be done.
    Work(Job),
    /// The connection ends.
    Refused(RuntimeError),
    /// The bounds of a rule that is to size a volume admit none at all.
    Unbounded,
}

/// What that holds.
pub enum ReceivedView {
    Invalid(WireErrorView),
    Pong { session_id: Option<u64> },
    Work(JobView),
    Refused(RuntimeErrorView),
    Unbounded,
}

impl View for Received {
    type V = ReceivedView;

    open spec fn view(&self) -> ReceivedView {
        match self {
            Received::Invalid(error) => ReceivedView::Invalid(error@),
            Received::Pong { session_id } => ReceivedView::Pong { session_id: *session_id },
            Received::Work(job) => ReceivedView::Work(job@),
            Received::Refused(error) => ReceivedView::Refused(error@),
            Received::Unbounded => ReceivedView::Unbounded,
        }
    }
}

/// What a frame of a connected account brings.
pub open spec fn taken(
    state: AppState,
    account: Seq<char>,
    frame: AgentFrameView,
    now: i64,
) -> ReceivedView {
    if frame matches AgentFrameView::Event(event) && event.source_account_id == account
        && state.unbounded(event, now) {
        ReceivedView::Unbounded
    } else {
        match state.frame_tasks(account, frame, now) {
            Ok(tasks) => ReceivedView::Work(runtime::fresh(tasks)),
            Err(error) => ReceivedView::Refused(error),
        }
    }
}

/// What a line of a connected account brings.
pub open spec fn received(
    state: AppState,
    account: Seq<char>,
    line: Seq<char>,
    now: i64,
) -> ReceivedView {
    match protocol::agent_frame(protocol::fields_of(line)) {
        Err(error) => ReceivedView::Invalid(error),
        Ok(AgentFrameView::Ping(_)) => ReceivedView::Pong {
            session_id: if state.sessions@.contains_key(account) {
                Some(state.sessions@[account])
            } else {
                None
            },
        },
        Ok(frame) => taken(state, account, frame, now),
    }
}

/// Takes a frame of a connected account.
pub fn take(state: &AppState, account_id: &str, frame: AgentFrame, now_unix_ns: i64) -> (r:
    Received)
    ensures
        r@ == taken(*state, account_id@, frame@, now_unix_ns),
{
    if let AgentFrame::Event(event) = &frame {
        if same(event.source_account_id.as_str(), account_id) && state.is_unbounded(
            event,
            now_unix_ns,
        ) {
            return Received::Unbounded;
        }
    }
    match state.handle_frame(account_id, frame, now_unix_ns) {
        Ok(job) => Received::Work(job),
        Err(error) => Received::Refused(error),
    }
}

/// Takes a line of a connected account.
pub fn receive(state: &AppState, account_id: &str, line: &str, now_unix_ns: i64) -> (r: Received)
    ensures
        r@ == received(*state, account_id@, line@, now_unix_ns),
{
    match parse_agent_line(line) {
        Err(error) => Received::Invalid(error),
        Ok(AgentFrame::Ping(_)) => Received::Pong { session_id: state.session_of(account_id) },
        Ok(frame) => take(state, account_id, frame, now_unix_ns),
    }
}

/// How far a connection has come.
#[derive(Debug)]
pub enum Connection {
    /// Nothing was read.
    Fresh,
    /// The greeting was taken, and is being answered.
    Greeted { account_id: String },
    /// The account is connected.
    Open { account_id: String, session_id: u64 },
    /// It is over.
    Closed,
}

/// What that holds.
pub enum ConnectionView {
    Fresh,
    Greeted { account_id: Seq<char> },
    Open { account_id: Seq<char>, session_id: u64 },
    Closed,
}

impl View for Connection {
    type V = ConnectionView;

    open spec fn view(&self) -> ConnectionView {
        match self {
            Connection::Fresh => ConnectionView::Fresh,
            Connection::Greeted { account_id } => ConnectionView::Greeted {
                account_id: account_id@,
            },
            Connection::Open { account_id, session_id } => ConnectionView::Open {
                account_id: account_id@,
                session_id: *session_id,
            },
            Connection::Closed => ConnectionView::Closed,
        }
    }
}

/// What happens on a connection.
#[derive(Debug)]
pub enum Input {
    /// A line was read.
    Line(String),
    /// There is nothing more to read, or it cannot be read.
    End,
    /// The answer to the greeting was written.
    Answered,
    /// What had to be done for a line could not be done.
    Failed,
}

/// What that holds.
pub enum InputView {
    Line(Seq<char>),
    End,
    Answered,
    Failed,
}

impl View for Input {
    type V = InputView;

    open spec fn view(&self) -> InputView {
        match self {
            Input::Line(line) => InputView::Line(line@),
            Input::End => InputView::End,
            Input::Answered => InputView::Answered,
            Input::Failed => InputView::Failed,
        }
    }
}

/// What a connection comes to.
#[derive(Debug)]
pub enum Reaction {
    /// Nothing.
    Nothing,
    /// The client is not let in.
    Refused(ServerError),
    /// The answer to the greeting is to be written.
    Welcome(String),
    /// The account is connected, and there are commands that waited for it.
    Connected { session_id: u64, job: Job },
    /// The line brings something.
    Line(Received),
    /// The account is no longer connected, and there is something to be done.
    Ended(Job),
}

/// What that holds.
pub enum ReactionView {
    Nothing,
    Refused(ServerErrorView),
    Welcome(Seq<char>),
    Connected { session_id: u64, job: JobView },
    Line(ReceivedView),
    Ended(JobView),
}

impl View for Reaction {
    type V = ReactionView;

    open spec fn view(&self) -> ReactionView {
        match self {
            Reaction::Nothing => ReactionView::Nothing,
            Reaction::Refused(error) => ReactionView::Refused(error@),
            Reaction::Welcome(line) => ReactionView::Welcome(line@),
            Reaction::Connected { session_id, job } => ReactionView::Connected {
                session_id: *session_id,
                job: job@,
            },
            Reaction::Line(received) => ReactionView::Line(received@),
            Reaction::Ended(job) => ReactionView::Ended(job@),
        }
    }
}

/// The commands that wait for an account.
pub open spec fn waiting_job(state: AppState, account: Seq<char>) -> JobView {
    runtime::fresh(
        runtime::dispatches(
            runtime::picked(
                state.runtime.commands.keys(),
                state.runtime@.commands,
                account,
                StoredCommandState::Queued,
            ),
        ),
    )
}

/// Whether a session is the one that its account is connected by.
pub open spec fn is_current(sessions: Map<Seq<char>, u64>, account: Seq<char>, session_id: u64) -> bool {
    sessions.contains_key(account) && sessions[account] == session_id
}

/// What the end of a session asks for: that nothing is known of the commands
/// that were sent on it. The end of one that another took the place of asks
/// for nothing.
pub open spec fn ending_job(state: AppState, account: Seq<char>, session_id: u64) -> JobView {
    if is_current(state.sessions@, account, session_id) {
        runtime::fresh(
            runtime::losses(
                runtime::picked(
                    state.runtime.commands.keys(),
                    state.runtime@.commands,
                    account,
                    StoredCommandState::Dispatched,
                ),
            ),
        )
    } else {
        runtime::fresh(Seq::empty())
    }
}

/// What a connection comes to when something happens on it.
pub open spec fn reaction_of(
    state: AppState,
    connection: ConnectionView,
    input: InputView,
    now: i64,
) -> ReactionView {
    match (connection, input) {
        (ConnectionView::Fresh, InputView::Line(line)) => match greeting(state, line) {
            Ok(_) => ReactionView::Welcome(
                protocol::line_of(protocol::server_fields(ServerFrameView::Welcome(now))),
            ),
            Err(error) => ReactionView::Refused(error),
        },
        (ConnectionView::Greeted { account_id }, InputView::Answered) => ReactionView::Connected {
            session_id: state.next_session_id,
            job: waiting_job(state, account_id),
        },
        (ConnectionView::Open { account_id, .. }, InputView::Line(line)) => ReactionView::Line(
            received(state, account_id, line, now),
        ),
        (ConnectionView::Open { account_id, session_id }, InputView::End) => ReactionView::Ended(
            ending_job(state, account_id, session_id),
        ),
        (ConnectionView::Open { account_id, session_id }, InputView::Failed) => ReactionView::Ended(
            ending_job(state, account_id, session_id),
        ),
        _ => ReactionView::Nothing,
    }
}

/// How far a connection is after something happened on it.
pub open spec fn connection_after(
    state: AppState,
    connection: ConnectionView,
    input: InputView,
) -> ConnectionView {
    match (connection, input) {
        (ConnectionView::Fresh, InputView::Line(line)) => match greeting(state, line) {
            Ok(hello) => ConnectionView::Greeted { account_id: hello.account_id },
            Err(_) => ConnectionView::Closed,
        },
        (ConnectionView::Greeted { account_id }, InputView::Answered) => ConnectionView::Open {
            account_id,
            session_id: state.next_session_id,
        },
        (ConnectionView::Greeted { account_id }, InputView::Line(_)) => ConnectionView::Greeted {
            account_id,
        },
        (ConnectionView::Open { account_id, session_id }, InputView::Line(_)) => {
            ConnectionView::Open { account_id, session_id }
        },
        (ConnectionView::Open { account_id, session_id }, InputView::Answered) => {
            ConnectionView::Open { account_id, session_id }
        },
        (ConnectionView::Fresh, InputView::Answered) => ConnectionView::Fresh,
        _ => ConnectionView::Closed,
    }
}

/// The sessions after something happened on a connection.
pub open spec fn sessions_after(
    state: AppState,
    connection: ConnectionView,
    input: InputView,
) -> Map<Seq<char>, u64> {
    match (connection, input) {
        (ConnectionView::Greeted { account_id }, InputView::Answered) => state.sessions@.insert(
            account_id,
            state.next_session_id,
        ),
        (
            ConnectionView::Open { account_id, session_id },
            InputView::End | InputView::Failed,
        ) => if is_current(state.sessions@, account_id, session_id) {
            state.sessions@.remove(account_id)
        } else {
            state.sessions@
        },
        _ => state.sessions@,
    }
}

/// The number of the next session after something happened on a connection.
pub open spec fn next_session_after(
    state: AppState,
    connection: ConnectionView,
    input: InputView,
) -> u64 {
    if connection is Greeted && input is Answered {
        runtime::number_after(state.next_session_id)
    } else {
        state.next_session_id
    }
}

/// Takes what happens on a connection.
pub fn react(state: &mut AppState, connection: Connection, input: Input, now_unix_ns: i64) -> (r: (
    Connection,
    Reaction,
))
    ensures
        r.0@ == connection_after(*old(state), connection@, input@),
        r.1@ == reaction_of(*old(state), connection@, input@, now_unix_ns),
        final(state).sessions@ == sessions_after(*old(state), connection@, input@),
        final(state).next_session_id == next_session_after(*old(state), connection@, input@),
        final(state).runtime == old(state).runtime,
        final(state).config == old(state).config,
        final(state).engine == old(state).engine,
{
    match (connection, input) {
        (Connection::Fresh, Input::Line(line)) => {
            match greet(state, line.as_str()) {
                Ok(hello) => (
                    Connection::Greeted { account_id: hello.account_id },
                    Reaction::Welcome(welcome_line(now_unix_ns)),
                ),
                Err(error) => (Connection::Closed, Reaction::Refused(error)),
            }
        },
        (Connection::Greeted { account_id }, Input::Answered) => {
            let job = state.dispatch_queued_for(account_id.as_str());
            let session_id: u64 = state.register_session(account_id.clone());
            (
                Connection::Open { account_id, session_id },
                Reaction::Connected { session_id, job },
            )
        },
        (Connection::Greeted { account_id }, Input::Line(_)) => (
            Connection::Greeted { account_id },
            Reaction::Nothing,
        ),
        (Connection::Open { account_id, session_id }, Input::Line(line)) => {
            let received = receive(state, account_id.as_str(), line.as_str(), now_unix_ns);
            (Connection::Open { account_id, session_id }, Reaction::Line(received))
        },
        (Connection::Open { account_id, session_id }, Input::Answered) => (
            Connection::Open { account_id, session_id },
            Reaction::Nothing,
        ),
        (Connection::Open { account_id, session_id }, Input::End) => {
            let job = state.unregister_session(account_id.as_str(), session_id);
            (Connection::Closed, Reaction::Ended(job))
        },
        (Connection::Open { account_id, session_id }, Input::Failed) => {
            let job = state.unregister_session(account_id.as_str(), session_id);
            (Connection::Closed, Reaction::Ended(job))
        },
        (Connection::Fresh, Input::Answered) => (Connection::Fresh, Reaction::Nothing),
        _ => (Connection::Closed, Reaction::Nothing),
    }
}

/// No line of a client brings anything before the client was greeted: an
/// account is connected by nothing but its greeting and the answer to it.
pub proof fn law_greeting_comes_first(
    state: AppState,
    connection: ConnectionView,
    input: InputView,
    now: i64,
)
    ensures
        reaction_of(state, connection, input, now) is Line ==> connection is Open,
        connection_after(state, connection, input) is Open && !(connection is Open)
            ==> connection is Greeted && input is Answered,
        connection_after(state, connection, input) is Greeted && !(connection is Greeted)
            ==> connection is Fresh && input is Line && greeting(state, input->Line_0) is Ok,
{
}

/// When a connection ends, in whatever way, its account is not connected by it
/// any more; and what it leaves concerns this account alone.
pub proof fn law_end_unregisters(
    state: AppState,
    account: Seq<char>,
    session_id: u64,
    input: InputView,
    other: Seq<char>,
)
    requires
        input is End || input is Failed,
    ensures
        ({
            let connection = ConnectionView::Open { account_id: account, session_id };
            let after = sessions_after(state, connection, input);
            &&& !is_current(after, account, session_id)
            &&& connection_after(state, connection, input) is Closed
            &&& other != account ==> after.contains_key(other) == state.sessions@.contains_key(
                other,
            )
            &&& other != account && after.contains_key(other) ==> after[other]
                == state.sessions@[other]
        }),
{
}

/// Nobody is let in whose first line is not the greeting of a configured
/// account with its platform and its token, and none for an account that is
/// reached directly.
pub proof fn law_only_greeted(state: AppState, line: Seq<char>)
    ensures
        greeting(state, line) matches Ok(hello) ==> {
            &&& protocol::agent_frame(protocol::fields_of(line)) == Ok::<_, WireErrorView>(
                AgentFrameView::Hello(hello),
            )
            &&& crate::config::account_named(state.config.accounts@, hello.account_id) is Some
            &&& crate::config::account_named(
                state.config.accounts@,
                hello.account_id,
            )->Some_0.token@ == hello.token
            &&& crate::config::account_named(
                state.config.accounts@,
                hello.account_id,
            )->Some_0.platform == hello.platform
            &&& crate::config::account_named(
                state.config.accounts@,
                hello.account_id,
            )->Some_0.backend == AccountBackend::Agent
        },
{
}

/// An account speaks for itself alone: a frame that names another is refused.
pub proof fn law_speaks_for_itself(state: AppState, account: Seq<char>, line: Seq<char>, now: i64)
    ensures
        received(state, account, line, now) matches ReceivedView::Work(_) ==> match protocol::agent_frame(
            protocol::fields_of(line),
        ) {
            Ok(AgentFrameView::Event(event)) => event.source_account_id == account,
            Ok(AgentFrameView::Ack(ack)) => ack.account_id == account,
            _ => false,
        },
{
}

/// A greeted client that was answered is connected: its account has a session of
/// a number that no other has, no other account's session changes, and the
/// commands that wait for the account are sent.
pub proof fn law_answer_connects(
    state: AppState,
    account: Seq<char>,
    now: i64,
    other: Seq<char>,
    i: int,
)
    ensures
        ({
            let connection = ConnectionView::Greeted { account_id: account };
            let after = sessions_after(state, connection, InputView::Answered);
            let reaction = reaction_of(state, connection, InputView::Answered, now);
            let waiting = runtime::picked(
                state.runtime.commands.keys(),
                state.runtime@.commands,
                account,
                StoredCommandState::Queued,
            );
            &&& after.contains_key(account) && after[account] == state.next_session_id
            &&& other != account ==> after.contains_key(other) == state.sessions@.contains_key(
                other,
            )
            &&& other != account && after.contains_key(other) ==> after[other]
                == state.sessions@[other]
            &&& connection_after(state, connection, InputView::Answered) == (ConnectionView::Open {
                account_id: account,
                session_id: state.next_session_id,
            })
            &&& next_session_after(state, connection, InputView::Answered) != state.next_session_id
            &&& reaction matches ReactionView::Connected { session_id, job }
            &&& session_id == state.next_session_id
            &&& job.tasks.len() == waiting.len()
            &&& 0 <= i < waiting.len() ==> job.tasks[i] == runtime::TaskView::Dispatch(waiting[i])
        }),
{
}

/// A first line is answered with a welcome that tells the time, or the client is
/// refused and the connection is over.
pub proof fn law_first_line_is_answered(state: AppState, line: Seq<char>, now: i64)
    ensures
        ({
            let input = InputView::Line(line);
            let reaction = reaction_of(state, ConnectionView::Fresh, input, now);
            let after = connection_after(state, ConnectionView::Fresh, input);
            match greeting(state, line) {
                Ok(hello) => {
                    &&& after == (ConnectionView::Greeted { account_id: hello.account_id })
                    &&& reaction == ReactionView::Welcome(
                        protocol::line_of(protocol::server_fields(ServerFrameView::Welcome(now))),
                    )
                },
                Err(error) => after is Closed && reaction == ReactionView::Refused(error),
            }
        }),
        sessions_after(state, ConnectionView::Fresh, InputView::Line(line)) == state.sessions@,
{
}

/// A greeting is taken just where the line is a greeting and nothing is wrong
/// with it; a line that is another frame, or none, is told as what it is.
pub proof fn law_greeting_is_read(state: AppState, line: Seq<char>)
    ensures
        match protocol::agent_frame(protocol::fields_of(line)) {
            Ok(AgentFrameView::Hello(hello)) => match state.greeting_fault(
                hello.account_id,
                hello.platform,
                hello.token,
            ) {
                None => greeting(state, line) == Ok::<_, ServerErrorView>(hello),
                Some(fault) => greeting(state, line) == Err::<HelloFrameView, _>(
                    ServerErrorView::Runtime(fault),
                ),
            },
            Ok(_) => greeting(state, line) == Err::<HelloFrameView, _>(ServerErrorView::NotHello),
            Err(error) => greeting(state, line) == Err::<HelloFrameView, _>(
                ServerErrorView::Wire(error),
            ),
        },
{
}

/// A line of a connected account that is no frame is passed over; a sign of life
/// is answered by the account's session; and any other frame is taken. The
/// connection stays.
pub proof fn law_line_is_received(
    state: AppState,
    account: Seq<char>,
    session_id: u64,
    line: Seq<char>,
    now: i64,
)
    ensures
        ({
            let connection = ConnectionView::Open { account_id: account, session_id };
            let got = received(state, account, line, now);
            &&& connection_after(state, connection, InputView::Line(line)) == connection
            &&& reaction_of(state, connection, InputView::Line(line), now) == ReactionView::Line(
                got,
            )
            &&& match protocol::agent_frame(protocol::fields_of(line)) {
                Err(error) => got == ReceivedView::Invalid(error),
                Ok(AgentFrameView::Ping(_)) => got matches ReceivedView::Pong { session_id: answers }
                    && (state.sessions@.contains_key(account) ==> answers == Some(
                    state.sessions@[account],
                )) && (!state.sessions@.contains_key(account) ==> answers is None),
                Ok(frame) => match state.frame_tasks(account, frame, now) {
                    Err(error) => got == ReceivedView::Refused(error) || got is Unbounded,
                    Ok(tasks) => (got matches ReceivedView::Work(job) && job.tasks == tasks
                        && job.pending is Idle) || got is Unbounded,
                },
            }
        }),
        received(state, account, line, now) is Unbounded ==> {
            &&& protocol::agent_frame(protocol::fields_of(line)) matches Ok(AgentFrameView::Event(
                event,
            ))
            &&& !state.sizable(event, now)
        },
{
}

/// The end of the session that an account is connected by leaves the outcome of
/// each command that was sent on it unknown; the end of one that another took
/// the place of asks for nothing.
pub proof fn law_end_leaves_unknown(state: AppState, account: Seq<char>, session_id: u64, i: int)
    ensures
        ({
            let job = ending_job(state, account, session_id);
            let sent = runtime::picked(
                state.runtime.commands.keys(),
                state.runtime@.commands,
                account,
                StoredCommandState::Dispatched,
            );
            let current = state.sessions@.contains_key(account) && state.sessions@[account]
                == session_id;
            &&& current ==> job.tasks.len() == sent.len()
            &&& current && 0 <= i < sent.len() ==> (job.tasks[i] matches runtime::TaskView::MarkUnknown {
                command_id,
                ..
            } && command_id == sent[i].command_id)
            &&& !current ==> job.tasks.len() == 0
        }),
{
}

/// A number is used up when a greeted client was answered, and at no other time;
/// the next is one more. Sessions come and go only so and with the end of one.
pub proof fn law_numbers_are_used_up(
    state: AppState,
    connection: ConnectionView,
    input: InputView,
    other: Seq<char>,
)
    ensures
        connection is Greeted && input is Answered && state.next_session_id < u64::MAX
            ==> next_session_after(state, connection, input) == state.next_session_id + 1,
        !(connection is Greeted && input is Answered) ==> next_session_after(
            state,
            connection,
            input,
        ) == state.next_session_id,
        !(connection is Greeted && input is Answered) && !(connection is Open && (input is End
            || input is Failed)) ==> sessions_after(state, connection, input) == state.sessions@,
        (connection matches ConnectionView::Open { account_id, session_id } && (input is End
            || input is Failed)) ==> {
            let account = connection->Open_account_id;
            let ended = connection->Open_session_id;
            let after = sessions_after(state, connection, input);
            &&& !(after.contains_key(account) && after[account] == ended)
            &&& state.sessions@.contains_key(account) && state.sessions@[account] != ended
                ==> after.contains_key(account) && after[account] == state.sessions@[account]
            &&& other != account ==> after.contains_key(other) == state.sessions@.contains_key(
                other,
            )
            &&& other != account && after.contains_key(other) ==> after[other]
                == state.sessions@[other]
        },
{
}

/// A connection goes on only from step to step: it is greeted by its first line,
/// opened by the answer to it, and over once it ends.
pub proof fn law_connection_goes_on(state: AppState, connection: ConnectionView, input: InputView)
    ensures
        connection is Closed ==> connection_after(state, connection, input) is Closed,
        input is End || input is Failed ==> connection_after(state, connection, input) is Closed,
        connection_after(state, connection, input) is Open ==> connection is Open || (connection
            is Greeted && input is Answered),
        connection_after(state, connection, input) is Greeted ==> input is Line && (connection
            is Greeted || connection is Fresh),
        connection is Open && (input is Line || input is Answered) ==> connection_after(
            state,
            connection,
            input,
        ) == connection,
        connection_after(state, connection, input) is Fresh ==> connection is Fresh,
{
}

} // verus!
