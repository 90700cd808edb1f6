//! The journal: what is recorded, and the state that the records amount to.

use crate::config::Durability;
use crate::model::{
    AckStatus, ExecutionAck, ExecutionAckView, ExecutionCommand, ExecutionCommandView,
    MirrorBinding, MirrorBindingView,
};
use crate::table::Table;
use crate::text::{chars_of, is_blank, slice_text, split_text};
use crate::{model, table, text};
use vstd::hash_set::StringHashSet;
use vstd::prelude::*;
use vstd::string::*;

verus! {

/// Where a command stands.
#[derive(Debug, Clone, Copy, PartialEq, Eq, Structural)]
pub enum StoredCommandState {
    Queued,
    Dispatched,
    Unknown,
}

/// A command and where it stands.
#[derive(Debug)]
pub struct StoredCommand {
    pub command: ExecutionCommand,
    pub state: StoredCommandState,
}

/// What a stored command holds.
pub struct StoredCommandView {
    pub command: ExecutionCommandView,
    pub state: StoredCommandState,
}

impl View for StoredCommand {
    type V = StoredCommandView;

    open spec fn view(&self) -> StoredCommandView {
        StoredCommandView { command: self.command@, state: self.state }
    }
}

/// A change of the bindings between orders.
#[derive(Debug)]
pub enum MirrorMutation {
    Upsert { binding: MirrorBinding },
    Remove { binding_key: String },
}

/// What a change of the bindings holds.
pub enum MirrorMutationView {
    Upsert { binding: MirrorBindingView },
    Remove { binding_key: Seq<char> },
}

impl View for MirrorMutation {
    type V = MirrorMutationView;

    open spec fn view(&self) -> MirrorMutationView {
        match self {
            MirrorMutation::Upsert { binding } => MirrorMutationView::Upsert { binding: binding@ },
            MirrorMutation::Remove { binding_key } => MirrorMutationView::Remove {
                binding_key: binding_key@,
            },
        }
    }
}

/// A record of the journal.
#[derive(Debug)]
pub enum JournalRecord {
    EventPlanned { event_id: String, commands: Vec<ExecutionCommand> },
    CommandDispatched { command_id: String, timestamp_unix_ns: i64 },
    CommandUnknown { command_id: String, timestamp_unix_ns: i64, reason: String },
    AckApplied { ack: ExecutionAck, mirror: Option<MirrorMutation> },
}

/// What a record holds.
pub enum JournalRecordView {
    EventPlanned { event_id: Seq<char>, commands: Seq<ExecutionCommandView> },
    CommandDispatched { command_id: Seq<char>, timestamp_unix_ns: i64 },
    CommandUnknown { command_id: Seq<char>, timestamp_unix_ns: i64, reason: Seq<char> },
    AckApplied { ack: ExecutionAckView, mirror: Option<MirrorMutationView> },
}

/// Commands, seen through their views.
pub open spec fn seen_commands(commands: Seq<ExecutionCommand>) -> Seq<ExecutionCommandView> {
    commands.map_values(|command: ExecutionCommand| command@)
}

/// A change that may be absent, by its view.
pub open spec fn seen_mutation(mirror: Option<MirrorMutation>) -> Option<MirrorMutationView> {
    match mirror {
        Some(mutation) => Some(mutation@),
        None => None,
    }
}

impl View for JournalRecord {
    type V = JournalRecordView;

    open spec fn view(&self) -> JournalRecordView {
        match self {
            JournalRecord::EventPlanned { event_id, commands } => JournalRecordView::EventPlanned {
                event_id: event_id@,
                commands: seen_commands(commands@),
            },
            JournalRecord::CommandDispatched {
                command_id,
                timestamp_unix_ns,
            } => JournalRecordView::CommandDispatched {
                command_id: command_id@,
                timestamp_unix_ns: *timestamp_unix_ns,
            },
            JournalRecord::CommandUnknown {
                command_id,
                timestamp_unix_ns,
                reason,
            } => JournalRecordView::CommandUnknown {
                command_id: command_id@,
                timestamp_unix_ns: *timestamp_unix_ns,
                reason: reason@,
            },
            JournalRecord::AckApplied { ack, mirror } => JournalRecordView::AckApplied {
                ack: ack@,
                mirror: seen_mutation(*mirror),
            },
        }
    }
}

/// The state that records amount to.
pub struct ReplayState {
    pub seen_events: StringHashSet,
    pub commands: Table<StoredCommand>,
    pub mirrors: Table<MirrorBinding>,
}

/// What a state holds: the events that were planned, the commands that are
/// still open, and the bindings between orders.
#[verifier::ext_equal]
pub struct ReplayStateView {
    pub seen_events: Set<Seq<char>>,
    pub commands: Map<Seq<char>, StoredCommandView>,
    pub mirrors: Map<Seq<char>, MirrorBindingView>,
}

impl View for ReplayState {
    type V = ReplayStateView;

    open spec fn view(&self) -> ReplayStateView {
        ReplayStateView {
            seen_events: self.seen_events@,
            commands: table::seen(self.commands@),
            mirrors: table::seen(self.mirrors@),
        }
    }
}

/// Commands with those of a plan that were not among them, queued.
pub open spec fn with_planned(
    commands: Map<Seq<char>, StoredCommandView>,
    planned: Seq<ExecutionCommandView>,
) -> Map<Seq<char>, StoredCommandView>
    decreases planned.len(),
{
    if planned.len() == 0 {
        commands
    } else {
        let before = with_planned(commands, planned.drop_last());
        let command = planned.last();
        if before.contains_key(command.command_id) {
            before
        } else {
            before.insert(
                command.command_id,
                StoredCommandView { command, state: StoredCommandState::Queued },
            )
        }
    }
}

/// Commands with one of them, if it is there, in another state.
pub open spec fn with_state(
    commands: Map<Seq<char>, StoredCommandView>,
    command_id: Seq<char>,
    state: StoredCommandState,
) -> Map<Seq<char>, StoredCommandView> {
    if commands.contains_key(command_id) {
        commands.insert(
            command_id,
            StoredCommandView { command: commands[command_id].command, state },
        )
    } else {
        commands
    }
}

/// Bindings after a change.
pub open spec fn with_mutation(
    mirrors: Map<Seq<char>, MirrorBindingView>,
    mutation: Option<MirrorMutationView>,
) -> Map<Seq<char>, MirrorBindingView> {
    match mutation {
        Some(MirrorMutationView::Upsert { binding }) => mirrors.insert(binding.key(), binding),
        Some(MirrorMutationView::Remove { binding_key }) => mirrors.remove(binding_key),
        None => mirrors,
    }
}

/// A command after a restart: what became of it is not known where it was
/// sent.
pub open spec fn settled(stored: StoredCommandView) -> StoredCommandView {
    if stored.state == StoredCommandState::Dispatched {
        StoredCommandView { state: StoredCommandState::Unknown, ..stored }
    } else {
        stored
    }
}

impl ReplayStateView {
    /// The state before any record.
    pub open spec fn initial() -> ReplayStateView {
        ReplayStateView {
            seen_events: Set::empty(),
            commands: Map::empty(),
            mirrors: Map::empty(),
        }
    }

    /// The state after a record.
    pub open spec fn after(self, record: JournalRecordView) -> ReplayStateView {
        match record {
            JournalRecordView::EventPlanned { event_id, commands } => ReplayStateView {
                seen_events: self.seen_events.insert(event_id),
                commands: with_planned(self.commands, commands),
                mirrors: self.mirrors,
            },
            JournalRecordView::CommandDispatched { command_id, .. } => ReplayStateView {
                commands: with_state(self.commands, command_id, StoredCommandState::Dispatched),
                ..self
            },
            JournalRecordView::CommandUnknown { command_id, .. } => ReplayStateView {
                commands: with_state(self.commands, command_id, StoredCommandState::Unknown),
                ..self
            },
            JournalRecordView::AckApplied { ack, mirror } => ReplayStateView {
                seen_events: self.seen_events,
                commands: if ack.status == AckStatus::Unknown {
                    with_state(self.commands, ack.command_id, StoredCommandState::Unknown)
                } else {
                    self.commands.remove(ack.command_id)
                },
                mirrors: with_mutation(self.mirrors, mirror),
            },
        }
    }

    /// The state after records.
    pub open spec fn after_all(self, records: Seq<JournalRecordView>) -> ReplayStateView
        decreases records.len(),
    {
        if records.len() == 0 {
            self
        } else {
            self.after_all(records.drop_last()).after(records.last())
        }
    }

    /// The state after a restart: what became of a command that was sent is
    /// not known.
    pub open spec fn restarted(self) -> ReplayStateView {
        ReplayStateView {
            commands: self.commands.map_values(|stored: StoredCommandView| settled(stored)),
            ..self
        }
    }
}

impl Default for ReplayState {
    fn default() -> (r: Self)
        ensures
            r@ == ReplayStateView::initial(),
    {
        let r = ReplayState {
            seen_events: StringHashSet::new(),
            commands: Table::new(),
            mirrors: Table::new(),
        };
        assert(r@ =~= ReplayStateView::initial());
        r
    }
}

impl ReplayState {
    fn plan(&mut self, commands: &Vec<ExecutionCommand>)
        ensures
            final(self)@ == (ReplayStateView {
                commands: with_planned(old(self)@.commands, seen_commands(commands@)),
                ..old(self)@
            }),
    {
        let ghost start = self@;
        let ghost planned = seen_commands(commands@);
        let mut i: usize = 0;
        assert(planned.take(0) =~= Seq::empty());
        while i < commands.len()
            invariant
                i <= commands.len(),
                planned == seen_commands(commands@),
                self@ == (ReplayStateView {
                    commands: with_planned(start.commands, planned.take(i as int)),
                    ..start
                }),
            decreases commands.len() - i,
        {
            let command = &commands[i];
            let ghost before = self.commands@;
            proof {
                assert(planned.take(i + 1).drop_last() =~= planned.take(i as int));
                assert(planned[i as int] == command@);
            }
            if !self.commands.contains(command.command_id.as_str()) {
                let stored = StoredCommand {
                    command: command.clone(),
                    state: StoredCommandState::Queued,
                };
                let ghost view = stored@;
                self.commands.insert(command.command_id.clone(), stored);
                assert(table::seen(self.commands@) =~= table::seen(before).insert(
                    command.command_id@,
                    view,
                ));
            }
            i = i + 1;
        }
        assert(planned.take(i as int) =~= planned);
    }

    fn set_state(&mut self, command_id: &str, state: StoredCommandState)
        ensures
            final(self)@ == (ReplayStateView {
                commands: with_state(old(self)@.commands, command_id@, state),
                ..old(self)@
            }),
    {
        let ghost before = self.commands@;
        match self.commands.remove(command_id) {
            Some(stored) => {
                let changed = StoredCommand { command: stored.command, state };
                let ghost view = changed@;
                self.commands.insert(command_id.to_owned(), changed);
                assert(table::seen(self.commands@) =~= table::seen(before).insert(
                    command_id@,
                    view,
                ));
            },
            None => {
                assert(before.remove(command_id@) =~= before);
            },
        }
    }

    fn mutate(&mut self, mirror: &Option<MirrorMutation>)
        ensures
            final(self)@ == (ReplayStateView {
                mirrors: with_mutation(old(self)@.mirrors, seen_mutation(*mirror)),
                ..old(self)@
            }),
    {
        let ghost before = self.mirrors@;
        match mirror {
            Some(MirrorMutation::Upsert { binding }) => {
                self.mirrors.insert(binding.binding_key(), binding.clone());
                assert(table::seen(self.mirrors@) =~= table::seen(before).insert(
                    binding@.key(),
                    binding@,
                ));
            },
            Some(MirrorMutation::Remove { binding_key }) => {
                let _ = self.mirrors.remove(binding_key.as_str());
                assert(table::seen(self.mirrors@) =~= table::seen(before).remove(binding_key@));
            },
            None => {},
        }
    }

    /// Takes a record into the state.
    pub fn apply(&mut self, record: &JournalRecord)
        ensures
            final(self)@ == old(self)@.after(record@),
    {
        match record {
            JournalRecord::EventPlanned { event_id, commands } => {
                let _ = self.seen_events.insert(event_id.clone());
                self.plan(commands);
            },
            JournalRecord::CommandDispatched { command_id, timestamp_unix_ns: _ } => {
                self.set_state(command_id.as_str(), StoredCommandState::Dispatched);
            },
            JournalRecord::CommandUnknown { command_id, timestamp_unix_ns: _, reason: _ } => {
                self.set_state(command_id.as_str(), StoredCommandState::Unknown);
            },
            JournalRecord::AckApplied { ack, mirror } => {
                if ack.status == AckStatus::Unknown {
                    self.set_state(ack.command_id.as_str(), StoredCommandState::Unknown);
                } else {
                    let ghost before = self.commands@;
                    let _ = self.commands.remove(ack.command_id.as_str());
                    assert(table::seen(self.commands@) =~= table::seen(before).remove(
                        ack.command_id@,
                    ));
                }
                self.mutate(mirror);
            },
        }
    }

    /// Takes a restart into the state.
    pub fn finalize_after_replay(&mut self)
        ensures
            final(self)@ == old(self)@.restarted(),
    {
        let ghost start = self.commands@;
        let ghost keys = self.commands.keys();
        let n: usize = self.commands.len();
        let mut i: usize = 0;
        while i < n
            invariant
                i <= n,
                n == keys.len(),
                self.commands.keys() == keys,
                self.seen_events@ == old(self).seen_events@,
                self.mirrors@ == old(self).mirrors@,
                start == old(self).commands@,
                forall|j: int| 0 <= j < n ==> start.contains_key(#[trigger] keys[j]),
                forall|key: Seq<char>| #[trigger]
                    start.contains_key(key) ==> exists|j: int| 0 <= j < n && #[trigger] keys[j] == key,
                forall|j: int, k: int| 0 <= j < k < n ==> #[trigger] keys[j] != #[trigger] keys[k],
                self.commands@.dom() == start.dom(),
                forall|j: int|
                    0 <= j < n ==> {
                        let now = self.commands@[#[trigger] keys[j]]@;
                        let was = start[keys[j]]@;
                        now == if j < i && was.state == StoredCommandState::Dispatched {
                            StoredCommandView { state: StoredCommandState::Unknown, ..was }
                        } else {
                            was
                        }
                    },
            decreases n - i,
        {
            assert(self.commands@.contains_key(keys[i as int]));
            let key = self.commands.key_at(i).to_owned();
            let dispatched: bool = self.commands.value_at(i).state == StoredCommandState::Dispatched;
            if dispatched {
                let command = self.commands.value_at(i).command.clone();
                self.commands.insert(
                    key,
                    StoredCommand { command, state: StoredCommandState::Unknown },
                );
                assert(self.commands@.dom() =~= start.dom());
            }
            i = i + 1;
        }
        proof {
            let want = old(self)@.restarted().commands;
            assert forall|key: Seq<char>| start.contains_key(key) implies #[trigger] table::seen(
                self.commands@,
            )[key] == want[key] by {
                let j = choose|j: int| 0 <= j < n && #[trigger] keys[j] == key;
                assert(self.commands@.contains_key(keys[j]));
            }
            assert(table::seen(self.commands@) =~= want);
        }
    }
}

/// Takes records into a state that none was taken into before.
pub fn replay(records: &Vec<JournalRecord>) -> (r: ReplayState)
    ensures
        r@ == ReplayStateView::initial().after_all(
            records@.map_values(|record: JournalRecord| record@),
        ),
{
    let mut state = ReplayState::default();
    let ghost all = records@.map_values(|record: JournalRecord| record@);
    let mut i: usize = 0;
    assert(all.take(0) =~= Seq::empty());
    while i < records.len()
        invariant
            i <= records.len(),
            all == records@.map_values(|record: JournalRecord| record@),
            state@ == ReplayStateView::initial().after_all(all.take(i as int)),
        decreases records.len() - i,
    {
        assert(all.take(i + 1).drop_last() =~= all.take(i as int));
        assert(all[i as int] == records@[i as int]@);
        state.apply(&records[i]);
        i = i + 1;
    }
    assert(all.take(i as int) =~= all);
    state
}

/// A line without the carriage return at its end, if it ends in one.
pub open spec fn without_return(line: Seq<char>) -> Seq<char> {
    if line.len() > 0 && line.last() == '\r' {
        line.drop_last()
    } else {
        line
    }
}

/// The lines of a file: a line ends in a line feed, or in a carriage return and
/// a line feed.
pub open spec fn file_lines(raw: Seq<char>) -> Seq<Seq<char>> {
    let pieces = text::split(raw, '\n');
    Seq::new(
        pieces.len(),
        |i: int|
            if i + 1 < pieces.len() {
                without_return(pieces[i])
            } else {
                pieces[i]
            },
    )
}

fn strip_return(line: &str) -> (r: String)
    ensures
        r@ == without_return(line@),
{
    let chars = chars_of(line);
    let n: usize = chars.len();
    if n > 0 && chars[n - 1] == '\r' {
        let r = slice_text(&chars, 0, n - 1);
        assert(r@ =~= line@.drop_last());
        r
    } else {
        line.to_owned()
    }
}

/// The lines that hold something, with their numbers from one on.
pub open spec fn numbered_lines(lines: Seq<Seq<char>>) -> Seq<(int, Seq<char>)>
    decreases lines.len(),
{
    if lines.len() == 0 {
        Seq::empty()
    } else {
        let before = numbered_lines(lines.drop_last());
        if text::blank(lines.last()) {
            before
        } else {
            before.push((lines.len() as int, lines.last()))
        }
    }
}

/// Numbered lines, seen through their views.
pub open spec fn seen_lines(lines: Seq<(usize, String)>) -> Seq<(int, Seq<char>)> {
    lines.map_values(|line: (usize, String)| (line.0 as int, line.1@))
}

/// The lines of a journal that hold something, with their numbers from one on.
pub fn record_lines(raw: &str) -> (r: Vec<(usize, String)>)
    ensures
        seen_lines(r@) == numbered_lines(file_lines(raw@)),
{
    let lines = split_text(raw, '\n');
    let ghost all = file_lines(raw@);
    let mut out: Vec<(usize, String)> = Vec::new();
    let mut i: usize = 0;
    assert(seen_lines(out@) =~= numbered_lines(all.take(0)));
    while i < lines.len()
        invariant
            i <= lines.len(),
            lines.deep_view() == text::split(raw@, '\n'),
            all == file_lines(raw@),
            seen_lines(out@) == numbered_lines(all.take(i as int)),
        decreases lines.len() - i,
    {
        let ghost before = out@;
        proof {
            assert(all.take(i + 1).drop_last() =~= all.take(i as int));
            assert(text::split(raw@, '\n')[i as int] == lines[i as int]@);
        }
        let line = if i + 1 < lines.len() {
            strip_return(lines[i].as_str())
        } else {
            lines[i].clone()
        };
        if !is_blank(line.as_str()) {
            out.push((i + 1, line));
            assert(seen_lines(out@) =~= seen_lines(before).push((i + 1, all[i as int])));
        }
        i = i + 1;
    }
    assert(all.take(i as int) =~= all);
    out
}

/// What is written for a record: its line, and whether the file is brought to
/// the disk after it. Nothing is written where nothing is kept.
pub fn append_plan(durability: Durability, record: &str) -> (r: Option<(String, bool)>)
    ensures
        match r {
            None => durability == Durability::Off,
            Some((line, sync)) => {
                &&& durability != Durability::Off
                &&& line@ == record@.push('\n')
                &&& sync == (durability == Durability::Fsync)
            },
        },
{
    match durability {
        Durability::Off => None,
        Durability::Flush => {
            let mut line = record.to_owned();
            line.push('\n');
            Some((line, false))
        },
        Durability::Fsync => {
            let mut line = record.to_owned();
            line.push('\n');
            Some((line, true))
        },
    }
}

proof fn lemma_planned_keeps(
    commands: Map<Seq<char>, StoredCommandView>,
    planned: Seq<ExecutionCommandView>,
    id: Seq<char>,
)
    requires
        commands.contains_key(id),
    ensures
        with_planned(commands, planned).contains_key(id),
        with_planned(commands, planned)[id] == commands[id],
    decreases planned.len(),
{
    if planned.len() > 0 {
        lemma_planned_keeps(commands, planned.drop_last(), id);
    }
}

proof fn lemma_planned_holds(
    commands: Map<Seq<char>, StoredCommandView>,
    planned: Seq<ExecutionCommandView>,
    i: int,
)
    requires
        0 <= i < planned.len(),
    ensures
        with_planned(commands, planned).contains_key(planned[i].command_id),
    decreases planned.len(),
{
    if i < planned.len() - 1 {
        lemma_planned_holds(commands, planned.drop_last(), i);
    }
}

proof fn lemma_planned_again(
    commands: Map<Seq<char>, StoredCommandView>,
    planned: Seq<ExecutionCommandView>,
)
    requires
        forall|i: int|
            0 <= i < planned.len() ==> commands.contains_key((#[trigger] planned[i]).command_id),
    ensures
        with_planned(commands, planned) == commands,
    decreases planned.len(),
{
    if planned.len() > 0 {
        let fewer = planned.drop_last();
        assert forall|i: int| 0 <= i < fewer.len() implies commands.contains_key(
            (#[trigger] fewer[i]).command_id,
        ) by {
            assert(fewer[i] == planned[i]);
        }
        lemma_planned_again(commands, fewer);
        assert(commands.contains_key(planned[planned.len() - 1].command_id));
    }
}

/// A record that is taken twice in a row changes nothing the second time.
pub proof fn law_record_taken_twice(state: ReplayStateView, record: JournalRecordView)
    ensures
        state.after(record).after(record) == state.after(record),
{
    let once = state.after(record);
    match record {
        JournalRecordView::EventPlanned { event_id, commands } => {
            assert forall|i: int| 0 <= i < commands.len() implies once.commands.contains_key(
                (#[trigger] commands[i]).command_id,
            ) by {
                lemma_planned_holds(state.commands, commands, i);
            }
            lemma_planned_again(once.commands, commands);
        },
        _ => {},
    }
    assert(once.after(record) =~= once);
}

/// A command that was sent, or whose outcome is not known, is never queued
/// again while it is open.
pub proof fn law_never_queued_again(
    state: ReplayStateView,
    record: JournalRecordView,
    id: Seq<char>,
)
    requires
        state.commands.contains_key(id),
        state.commands[id].state != StoredCommandState::Queued,
    ensures
        state.after(record).commands.contains_key(id) ==> state.after(record).commands[id].state
            != StoredCommandState::Queued,
{
    match record {
        JournalRecordView::EventPlanned { event_id, commands } => {
            lemma_planned_keeps(state.commands, commands, id);
        },
        _ => {},
    }
}

/// Once an event was planned it stays so.
pub proof fn law_seen_events_stay(
    state: ReplayStateView,
    records: Seq<JournalRecordView>,
    id: Seq<char>,
)
    requires
        state.seen_events.contains(id),
    ensures
        state.after_all(records).seen_events.contains(id),
    decreases records.len(),
{
    if records.len() > 0 {
        law_seen_events_stay(state, records.drop_last(), id);
    }
}

/// After a restart no command counts as sent: those that were sent have an
/// unknown outcome, those that were queued still are, and none comes or goes.
pub proof fn law_restart(state: ReplayStateView, id: Seq<char>)
    ensures
        state.restarted().commands.contains_key(id) == state.commands.contains_key(id),
        state.commands.contains_key(id) ==> {
            let now = state.restarted().commands[id];
            let was = state.commands[id];
            &&& now.command == was.command
            &&& now.state != StoredCommandState::Dispatched
            &&& now.state == StoredCommandState::Queued <==> was.state
                == StoredCommandState::Queued
        },
        state.restarted().seen_events == state.seen_events,
        state.restarted().mirrors == state.mirrors,
{
}

/// Only a record that dispatches a command, or an acknowledgement, or an
/// unknown outcome ends the time in which the command is queued.
pub proof fn law_queued_stays(state: ReplayStateView, record: JournalRecordView, id: Seq<char>)
    requires
        state.commands.contains_key(id),
        match record {
            JournalRecordView::EventPlanned { .. } => true,
            JournalRecordView::CommandDispatched { command_id, .. } => command_id != id,
            JournalRecordView::CommandUnknown { command_id, .. } => command_id != id,
            JournalRecordView::AckApplied { ack, .. } => ack.command_id != id,
        },
    ensures
        state.after(record).commands.contains_key(id),
        state.after(record).commands[id] == state.commands[id],
{
    match record {
        JournalRecordView::EventPlanned { event_id, commands } => {
            lemma_planned_keeps(state.commands, commands, id);
        },
        _ => {},
    }
}

/// Records taken one after the other amount to all of them taken together.
pub proof fn law_records_in_parts(
    state: ReplayStateView,
    first: Seq<JournalRecordView>,
    second: Seq<JournalRecordView>,
)
    ensures
        state.after_all(first + second) == state.after_all(first).after_all(second),
    decreases second.len(),
{
    if second.len() == 0 {
        assert(first + second =~= first);
    } else {
        assert((first + second).drop_last() =~= first + second.drop_last());
        assert((first + second).last() == second.last());
        law_records_in_parts(state, first, second.drop_last());
    }
}

impl ReplayStateView {
    /// Whether each command and each binding is kept under its own name.
    pub open spec fn keyed(self) -> bool {
        &&& forall|key: Seq<char>| #[trigger]
            self.commands.contains_key(key) ==> self.commands[key].command.command_id == key
        &&& forall|key: Seq<char>| #[trigger]
            self.mirrors.contains_key(key) ==> self.mirrors[key].key() == key
    }
}

proof fn lemma_planned_keyed(
    commands: Map<Seq<char>, StoredCommandView>,
    planned: Seq<ExecutionCommandView>,
)
    requires
        forall|key: Seq<char>| #[trigger]
            commands.contains_key(key) ==> commands[key].command.command_id == key,
    ensures
        forall|key: Seq<char>| #[trigger]
            with_planned(commands, planned).contains_key(key) ==> with_planned(
                commands,
                planned,
            )[key].command.command_id == key,
    decreases planned.len(),
{
    if planned.len() > 0 {
        lemma_planned_keyed(commands, planned.drop_last());
    }
}

/// Whatever is recorded, each command and each binding stays under its own
/// name; so it is at the start and after a restart.
pub proof fn law_kept_under_own_name(state: ReplayStateView, record: JournalRecordView)
    requires
        state.keyed(),
    ensures
        state.after(record).keyed(),
        state.restarted().keyed(),
        ReplayStateView::initial().keyed(),
{
    match record {
        JournalRecordView::EventPlanned { event_id, commands } => {
            lemma_planned_keyed(state.commands, commands);
        },
        _ => {},
    }
}

/// Commands that are planned on top of those after a restart are those after a
/// restart that are planned on top of the commands before it.
proof fn lemma_planned_settled(
    commands: Map<Seq<char>, StoredCommandView>,
    planned: Seq<ExecutionCommandView>,
)
    ensures
        ({
            let settle = |stored: StoredCommandView| settled(stored);
            with_planned(commands.map_values(settle), planned).map_values(settle) == with_planned(
                commands,
                planned,
            ).map_values(settle)
        }),
    decreases planned.len(),
{
    let settle = |stored: StoredCommandView| settled(stored);
    let left = with_planned(commands.map_values(settle), planned);
    let right = with_planned(commands, planned);
    if planned.len() > 0 {
        let fewer = planned.drop_last();
        lemma_planned_settled(commands, fewer);
        let left_fewer = with_planned(commands.map_values(settle), fewer);
        let right_fewer = with_planned(commands, fewer);
        assert(left_fewer.map_values(settle) =~= right_fewer.map_values(settle));
        assert(left_fewer.dom() =~= left_fewer.map_values(settle).dom());
        assert(right_fewer.dom() =~= right_fewer.map_values(settle).dom());
        assert forall|key: Seq<char>| left_fewer.contains_key(key) implies settled(
            #[trigger] left_fewer[key],
        ) == settled(right_fewer[key]) by {
            assert(left_fewer.map_values(settle)[key] == right_fewer.map_values(settle)[key]);
        }
    }
    assert(left.map_values(settle) =~= right.map_values(settle));
}

/// A restart in between is not noticed after a later one: what is recorded
/// after a restart amounts, after the next, to what all the records do.
pub proof fn law_restart_in_between(state: ReplayStateView, records: Seq<JournalRecordView>)
    ensures
        state.restarted().after_all(records).restarted() == state.after_all(records).restarted(),
    decreases records.len(),
{
    if records.len() == 0 {
        assert(state.restarted().restarted() =~= state.restarted());
    } else {
        law_restart_in_between(state, records.drop_last());
        lemma_restart_before(state.restarted().after_all(records.drop_last()), records.last());
        lemma_restart_before(state.after_all(records.drop_last()), records.last());
    }
}

/// A restart before a record is not noticed after a later one.
proof fn lemma_restart_before(state: ReplayStateView, record: JournalRecordView)
    ensures
        state.restarted().after(record).restarted() == state.after(record).restarted(),
{
    match record {
        JournalRecordView::EventPlanned { event_id, commands } => {
            lemma_planned_settled(state.commands, commands);
        },
        _ => {},
    }
    assert(state.restarted().after(record).restarted() =~= state.after(record).restarted());
}

/// What a file holds after the lines of records were written behind each other.
pub open spec fn journal_text(records: Seq<Seq<char>>) -> Seq<char>
    decreases records.len(),
{
    if records.len() == 0 {
        Seq::empty()
    } else {
        journal_text(records.drop_last()) + records.last().push('\n')
    }
}

/// Texts, numbered from one on.
pub open spec fn numbered(records: Seq<Seq<char>>) -> Seq<(int, Seq<char>)> {
    Seq::new(records.len(), |i: int| (i + 1, records[i]))
}

proof fn lemma_journal_joined(records: Seq<Seq<char>>)
    ensures
        journal_text(records) == text::join(records.push(Seq::empty()), '\n'),
    decreases records.len(),
{
    let ended = records.push(Seq::<char>::empty());
    assert(ended.drop_last() =~= records);
    if records.len() == 0 {
        assert(ended[0] =~= Seq::empty());
    } else {
        lemma_journal_joined(records.drop_last());
        lemma_join_last(records.drop_last(), records.last());
        assert(records.drop_last().push(records.last()) =~= records);
        assert(text::join(ended, '\n') =~= text::join(records, '\n') + seq!['\n'] + Seq::empty());
        assert(journal_text(records) =~= text::join(ended, '\n'));
    }
}

/// An empty last piece that is filled lengthens the joined text.
proof fn lemma_join_last(pieces: Seq<Seq<char>>, piece: Seq<char>)
    ensures
        text::join(pieces.push(piece), '\n') == text::join(pieces.push(Seq::empty()), '\n') + piece,
{
    assert(pieces.push(piece).drop_last() =~= pieces);
    assert(pieces.push(Seq::<char>::empty()).drop_last() =~= pieces);
    assert(text::join(pieces.push(piece), '\n') =~= text::join(
        pieces.push(Seq::empty()),
        '\n',
    ) + piece);
}

proof fn lemma_numbered_lines(records: Seq<Seq<char>>)
    requires
        forall|i: int| 0 <= i < records.len() ==> !text::blank(#[trigger] records[i]),
    ensures
        numbered_lines(records) == numbered(records),
    decreases records.len(),
{
    if records.len() > 0 {
        let fewer = records.drop_last();
        assert forall|i: int| 0 <= i < fewer.len() implies !text::blank(#[trigger] fewer[i]) by {
            assert(fewer[i] == records[i]);
        }
        lemma_numbered_lines(fewer);
        assert(!text::blank(records[records.len() - 1]));
    }
    assert(numbered_lines(records) =~= numbered(records));
}

/// What is written line by line is read back line by line, where each record
/// is a text that is not blank, without a line feed, and without a carriage
/// return at its end.
pub proof fn law_journal_reads_back(records: Seq<Seq<char>>)
    requires
        forall|i: int|
            0 <= i < records.len() ==> {
                let record = #[trigger] records[i];
                !text::blank(record) && !record.contains('\n') && record.last() != '\r'
            },
    ensures
        numbered_lines(file_lines(journal_text(records))) == numbered(records),
{
    let raw = journal_text(records);
    let ended = records.push(Seq::<char>::empty());
    lemma_journal_joined(records);
    assert forall|i: int| 0 <= i < ended.len() implies !(#[trigger] ended[i]).contains('\n') by {
        if i < records.len() {
            assert(ended[i] == records[i]);
        }
    }
    text::law_joined_pieces_split(ended, '\n');
    let lines = file_lines(raw);
    assert forall|i: int| 0 <= i < records.len() implies lines[i] == records[i] by {
        assert(text::split(raw, '\n')[i] == ended[i]);
        assert(ended[i] == records[i]);
    }
    assert(lines =~= ended);
    assert(ended.drop_last() =~= records);
    assert(text::blank(ended.last()));
    lemma_numbered_lines(records);
}

/// The record of a plan notes its event, and queues each command of the plan
/// that is not open yet. It changes no other event, no command that is open, and
/// no binding.
pub proof fn law_plan_is_queued(
    state: ReplayStateView,
    event_id: Seq<char>,
    planned: Seq<ExecutionCommandView>,
    id: Seq<char>,
    other: Seq<char>,
)
    ensures
        ({
            let after = state.after(
                JournalRecordView::EventPlanned { event_id, commands: planned },
            );
            let named = exists|i: int|
                0 <= i < planned.len() && (#[trigger] planned[i]).command_id == id;
            &&& after.seen_events.contains(other) <==> other == event_id
                || state.seen_events.contains(other)
            &&& after.mirrors == state.mirrors
            &&& after.commands.contains_key(id) <==> state.commands.contains_key(id) || named
            &&& state.commands.contains_key(id) ==> after.commands[id] == state.commands[id]
            &&& !state.commands.contains_key(id) && named ==> {
                &&& after.commands[id].state == StoredCommandState::Queued
                &&& planned.contains(after.commands[id].command)
                &&& after.commands[id].command.command_id == id
            }
        }),
{
    lemma_planned(state.commands, planned, id);
}

proof fn lemma_planned(
    commands: Map<Seq<char>, StoredCommandView>,
    planned: Seq<ExecutionCommandView>,
    id: Seq<char>,
)
    ensures
        ({
            let after = with_planned(commands, planned);
            let named = exists|i: int|
                0 <= i < planned.len() && (#[trigger] planned[i]).command_id == id;
            &&& after.contains_key(id) <==> commands.contains_key(id) || named
            &&& commands.contains_key(id) ==> after[id] == commands[id]
            &&& !commands.contains_key(id) && named ==> {
                &&& after[id].state == StoredCommandState::Queued
                &&& planned.contains(after[id].command)
                &&& after[id].command.command_id == id
            }
        }),
    decreases planned.len(),
{
    if planned.len() > 0 {
        let fewer = planned.drop_last();
        let last = planned.len() - 1;
        lemma_planned(commands, fewer, id);
        assert(forall|i: int| 0 <= i < fewer.len() ==> #[trigger] fewer[i] == planned[i]);
        assert(forall|i: int| 0 <= i < fewer.len() ==> #[trigger] planned[i] == fewer[i]);
        assert(planned[last] == planned.last());
        let before = with_planned(commands, fewer);
        if exists|i: int| 0 <= i < fewer.len() && (#[trigger] fewer[i]).command_id == id {
            let i = choose|i: int| 0 <= i < fewer.len() && (#[trigger] fewer[i]).command_id == id;
            assert(planned[i].command_id == id);
        }
        if !commands.contains_key(id) && before.contains_key(id) {
            let i = choose|i: int| 0 <= i < fewer.len() && fewer[i] == before[id].command;
            assert(planned[i] == before[id].command);
        }
    }
}

/// A record of a dispatch, or of an unknown outcome, puts its command into that
/// state if it is open, and changes nothing else.
pub proof fn law_state_is_recorded(
    state: ReplayStateView,
    command_id: Seq<char>,
    timestamp_unix_ns: i64,
    reason: Seq<char>,
    id: Seq<char>,
)
    ensures
        ({
            let sent = state.after(
                JournalRecordView::CommandDispatched { command_id, timestamp_unix_ns },
            );
            let unknown = state.after(
                JournalRecordView::CommandUnknown { command_id, timestamp_unix_ns, reason },
            );
            &&& sent.seen_events == state.seen_events && sent.mirrors == state.mirrors
            &&& unknown.seen_events == state.seen_events && unknown.mirrors == state.mirrors
            &&& sent.commands.contains_key(id) == state.commands.contains_key(id)
            &&& unknown.commands.contains_key(id) == state.commands.contains_key(id)
            &&& state.commands.contains_key(id) ==> {
                &&& sent.commands[id].command == state.commands[id].command
                &&& unknown.commands[id].command == state.commands[id].command
                &&& sent.commands[id].state == if id == command_id {
                    StoredCommandState::Dispatched
                } else {
                    state.commands[id].state
                }
                &&& unknown.commands[id].state == if id == command_id {
                    StoredCommandState::Unknown
                } else {
                    state.commands[id].state
                }
            }
        }),
{
}

/// An acknowledgement closes its command, or leaves it open with an unknown
/// outcome where it says so. It changes no other command and no event, and the
/// bindings as it is recorded to: a binding is put under its own key, or the one
/// of a key is taken away.
pub proof fn law_acknowledgement_is_taken(
    state: ReplayStateView,
    ack: ExecutionAckView,
    mirror: Option<MirrorMutationView>,
    id: Seq<char>,
    key: Seq<char>,
)
    ensures
        ({
            let after = state.after(JournalRecordView::AckApplied { ack, mirror });
            &&& after.seen_events == state.seen_events
            &&& id != ack.command_id ==> after.commands.contains_key(id)
                == state.commands.contains_key(id)
            &&& id != ack.command_id && state.commands.contains_key(id) ==> after.commands[id]
                == state.commands[id]
            &&& ack.status != AckStatus::Unknown ==> !after.commands.contains_key(ack.command_id)
            &&& ack.status == AckStatus::Unknown && state.commands.contains_key(ack.command_id)
                ==> {
                &&& after.commands.contains_key(ack.command_id)
                &&& after.commands[ack.command_id].command
                    == state.commands[ack.command_id].command
                &&& after.commands[ack.command_id].state == StoredCommandState::Unknown
            }
            &&& mirror is None ==> after.mirrors == state.mirrors
            &&& mirror matches Some(MirrorMutationView::Upsert { binding }) ==> {
                let own = model::mirror_key(
                    binding.source_account_id,
                    binding.source_order_id,
                    binding.target_account_id,
                );
                &&& after.mirrors.contains_key(own) && after.mirrors[own] == binding
                &&& key != own ==> after.mirrors.contains_key(key) == state.mirrors.contains_key(
                    key,
                )
                &&& key != own && state.mirrors.contains_key(key) ==> after.mirrors[key]
                    == state.mirrors[key]
            }
            &&& mirror matches Some(MirrorMutationView::Remove { binding_key }) ==> {
                &&& !after.mirrors.contains_key(binding_key)
                &&& key != binding_key ==> after.mirrors.contains_key(key)
                    == state.mirrors.contains_key(key)
                &&& key != binding_key && state.mirrors.contains_key(key) ==> after.mirrors[key]
                    == state.mirrors[key]
            }
        }),
{
}

/// Records are taken in their order, from a state without events, commands and
/// bindings.
pub proof fn law_records_are_taken_in_order(
    state: ReplayStateView,
    records: Seq<JournalRecordView>,
    record: JournalRecordView,
    id: Seq<char>,
)
    ensures
        state.after_all(Seq::empty()) == state,
        state.after_all(records.push(record)) == state.after_all(records).after(record),
        !ReplayStateView::initial().seen_events.contains(id),
        !ReplayStateView::initial().commands.contains_key(id),
        !ReplayStateView::initial().mirrors.contains_key(id),
{
    assert(records.push(record).drop_last() =~= records);
}

/// The lines of a file are what stands between the ends of lines, each with or
/// without a return before its end. What follows the last end stays as it is.
pub proof fn law_lines_of_file(lines: Seq<Seq<char>>, marked: Seq<bool>)
    requires
        lines.len() > 0,
        marked.len() == lines.len(),
        forall|i: int| 0 <= i < lines.len() ==> !(#[trigger] lines[i]).contains('\n'),
        forall|i: int|
            0 <= i < lines.len() - 1 && (#[trigger] lines[i]).len() > 0 ==> lines[i].last() != '\r',
    ensures
        ({
            let ended = Seq::new(
                lines.len(),
                |i: int|
                    if marked[i] && i < lines.len() - 1 {
                        lines[i].push('\r')
                    } else {
                        lines[i]
                    },
            );
            file_lines(text::join(ended, '\n')) == lines
        }),
{
    let ended = Seq::new(
        lines.len(),
        |i: int|
            if marked[i] && i < lines.len() - 1 {
                lines[i].push('\r')
            } else {
                lines[i]
            },
    );
    assert forall|i: int| 0 <= i < ended.len() implies !(#[trigger] ended[i]).contains('\n') by {
        assert(!lines[i].contains('\n'));
        if ended[i].contains('\n') {
            let j = choose|j: int| 0 <= j < ended[i].len() && ended[i][j] == '\n';
            assert(lines[i][j] == '\n');
        }
    }
    text::law_joined_pieces_split(ended, '\n');
    assert forall|i: int| 0 <= i < lines.len() implies #[trigger] file_lines(
        text::join(ended, '\n'),
    )[i] == lines[i] by {
        assert(lines[i].push('\r').drop_last() =~= lines[i]);
    }
    assert(file_lines(text::join(ended, '\n')) =~= lines);
}

/// The lines that are read are those that are not blank, all of them, in their
/// order and with their numbers, which count from one.
pub proof fn law_lines_are_numbered(lines: Seq<Seq<char>>, i: int, j: int)
    ensures
        0 <= i < numbered_lines(lines).len() ==> {
            let (number, line) = numbered_lines(lines)[i];
            &&& 1 <= number <= lines.len()
            &&& line == lines[number - 1]
            &&& !text::blank(line)
        },
        0 <= i < j < numbered_lines(lines).len() ==> numbered_lines(lines)[i].0
            < numbered_lines(lines)[j].0,
        0 <= i < lines.len() && !text::blank(lines[i]) ==> numbered_lines(lines).contains(
            (i + 1, lines[i]),
        ),
    decreases lines.len(),
{
    if lines.len() > 0 {
        let fewer = lines.drop_last();
        let before = numbered_lines(fewer);
        let all = numbered_lines(lines);
        let last = lines.len() - 1;
        law_lines_are_numbered(fewer, i, j);
        assert(lines[last] == lines.last());
        if 0 <= i < before.len() {
            assert(all[i] == before[i]);
        }
        if 0 <= i < lines.len() && !text::blank(lines[i]) {
            if i < last {
                assert(fewer[i] == lines[i]);
                let k = choose|k: int| 0 <= k < before.len() && before[k] == (i + 1, lines[i]);
                assert(all[k] == (i + 1, lines[i]));
            } else {
                assert(all[all.len() - 1] == (i + 1, lines[i]));
            }
        }
    }
}

} // verus!
