//! The control page: its log, and what it decides when the daemon is started,
//! stopped or asked for.

use crate::text::{is_blank, joined_three, write_u64};
use crate::text;
use std::collections::VecDeque;
use vstd::prelude::*;
use vstd::string::*;

verus! {

/// How many lines the log keeps.
pub const LOG_LIMIT: usize = 200;

/// The last lines that the daemon wrote.
pub struct Log {
    lines: VecDeque<String>,
}

/// Lines, seen through their views.
pub open spec fn seen_lines(lines: Seq<String>) -> Seq<Seq<char>> {
    lines.map_values(|line: String| line@)
}

/// The last of lines, as many as the log keeps.
pub open spec fn kept(lines: Seq<Seq<char>>) -> Seq<Seq<char>> {
    if lines.len() <= LOG_LIMIT {
        lines
    } else {
        lines.skip(lines.len() - LOG_LIMIT)
    }
}

impl View for Log {
    type V = Seq<Seq<char>>;

    closed spec fn view(&self) -> Seq<Seq<char>> {
        seen_lines(self.lines@)
    }
}

impl Log {
    /// A log without lines.
    pub fn new() -> (r: Log)
        ensures
            r@ == Seq::<Seq<char>>::empty(),
    {
        let r = Log { lines: VecDeque::new() };
        assert(r@ =~= Seq::empty());
        r
    }

    /// Adds a line of a stream, and drops the oldest lines beyond the limit.
    pub fn push(&mut self, stream: &str, line: &str)
        ensures
            final(self)@ == kept(old(self)@.push("["@ + stream@ + "] "@ + line@)),
    {
        let ghost before = self@;
        let mut entry = joined_three("[", stream, "] ");
        entry.append(line);
        let ghost grown = before.push(entry@);
        self.lines.push_back(entry);
        assert(self@ =~= grown);
        let ghost mut dropped: int = 0;
        assert(grown.skip(0) =~= grown);
        while self.lines.len() > LOG_LIMIT
            invariant
                0 <= dropped <= grown.len(),
                self@ == grown.skip(dropped),
                dropped > 0 ==> grown.len() - dropped >= LOG_LIMIT,
            decreases self.lines.len(),
        {
            let ghost held = self.lines@;
            let ghost view = self@;
            assert(view.len() == held.len());
            let _ = self.lines.pop_front();
            proof {
                assert(self.lines@ =~= held.skip(1));
                assert forall|i: int| 0 <= i < self@.len() implies self@[i] == grown.skip(
                    dropped + 1,
                )[i] by {
                    assert(self@[i] == view[i + 1]);
                }
                assert(self@ =~= grown.skip(dropped + 1));
                dropped = dropped + 1;
            }
        }
        assert(self@ =~= kept(grown));
    }

    /// The lines of the log, the oldest first.
    pub fn lines(&self) -> (r: Vec<String>)
        ensures
            r.deep_view() == self@,
    {
        let mut out: Vec<String> = Vec::new();
        let mut i: usize = 0;
        while i < self.lines.len()
            invariant
                i <= self.lines@.len(),
                out.deep_view() == self@.take(i as int),
            decreases self.lines@.len() - i,
        {
            let ghost before = out.deep_view();
            out.push(self.lines[i].clone());
            assert(out.deep_view() =~= before.push(self@[i as int]));
            assert(self@.take(i + 1) =~= before.push(self@[i as int]));
            i = i + 1;
        }
        assert(self@.take(i as int) =~= self@);
        out
    }
}

/// The log never holds more than its limit, and the newest line is in it.
pub proof fn law_log_is_bounded(lines: Seq<Seq<char>>, line: Seq<char>)
    ensures
        kept(lines.push(line)).len() <= LOG_LIMIT,
        kept(lines.push(line)).last() == line,
{
}

/// Where the configuration is written: where the request says, else in a file
/// of a fixed name.
pub fn chosen_path(given: &str) -> (r: String)
    ensures
        r@ == if given@.len() == 0 {
            "copierr.test.toml"@
        } else {
            given@
        },
{
    if given.is_empty() {
        "copierr.test.toml".to_owned()
    } else {
        given.to_owned()
    }
}

/// Where the daemon works: where the request says, else where the page does.
pub fn chosen_dir(given: Option<String>, current: String) -> (r: String)
    ensures
        r == match given {
            Some(dir) => if dir@.len() == 0 {
                current
            } else {
                dir
            },
            None => current,
        },
{
    match given {
        Some(dir) => {
            if dir.as_str().is_empty() {
                current
            } else {
                dir
            }
        },
        None => current,
    }
}

/// The settings of the environment that are passed on: those with a name and a
/// value.
pub open spec fn usable(secrets: Seq<(String, String)>) -> Seq<(String, String)>
    decreases secrets.len(),
{
    if secrets.len() == 0 {
        Seq::empty()
    } else {
        let before = usable(secrets.drop_last());
        let (name, value) = secrets.last();
        if !text::blank(name@) && value@.len() > 0 {
            before.push((name, value))
        } else {
            before
        }
    }
}

/// The settings of the environment that are passed on.
pub fn usable_secrets(secrets: Vec<(String, String)>) -> (r: Vec<(String, String)>)
    ensures
        r@ == usable(secrets@),
{
    let ghost all = secrets@;
    let mut out: Vec<(String, String)> = Vec::new();
    for secret in it: secrets
        invariant
            it.seq() == all,
            out@ == usable(all.take(it.index() as int)),
    {
        assert(all.take(it.index() + 1).drop_last() =~= all.take(it.index() as int));
        if !is_blank(secret.0.as_str()) && !secret.1.as_str().is_empty() {
            out.push(secret);
        }
    }
    assert(all.take(all.len() as int) =~= all);
    out
}

/// What the page knows of the daemon.
#[derive(Debug, Clone, Copy, PartialEq, Eq, Structural)]
pub enum Daemon {
    /// It was not started, or was stopped.
    Absent,
    /// It was started and has exited.
    Exited,
    /// It runs.
    Running,
}

/// Why the daemon is not started, if it is not: one that runs is not started
/// again.
pub fn start_refusal(daemon: Daemon) -> (r: Option<String>)
    ensures
        match r {
            Some(words) => daemon == Daemon::Running && words@ == "CopierR is already running."@,
            None => daemon != Daemon::Running,
        },
{
    match daemon {
        Daemon::Running => Some("CopierR is already running.".to_owned()),
        _ => None,
    }
}

/// What the page says of a daemon that was started.
pub fn started_message(pid: Option<u32>) -> (r: String)
    ensures
        r@ == match pid {
            Some(number) => "CopierR daemon started (pid "@ + text::decimal_digits(number as nat)
                + ")."@,
            None => "CopierR daemon started."@,
        },
{
    match pid {
        Some(number) => {
            let digits = write_u64(number as u64);
            joined_three("CopierR daemon started (pid ", digits.as_str(), ").")
        },
        None => "CopierR daemon started.".to_owned(),
    }
}

/// What the page says when the daemon was to be stopped.
pub fn stopped_message(daemon: Daemon) -> (r: String)
    ensures
        r@ == if daemon == Daemon::Absent {
            "CopierR is not running."@
        } else {
            "CopierR daemon stopped."@
        },
{
    match daemon {
        Daemon::Absent => "CopierR is not running.".to_owned(),
        _ => "CopierR daemon stopped.".to_owned(),
    }
}

/// The log keeps the last lines in their order: all of them up to two hundred,
/// and the last two hundred of more.
pub proof fn law_log_keeps_the_last(lines: Seq<Seq<char>>)
    ensures
        lines.len() <= 200 ==> kept(lines) == lines,
        lines.len() > 200 ==> kept(lines).len() == 200 && forall|i: int|
            0 <= i < 200 ==> #[trigger] kept(lines)[i] == lines[lines.len() - 200 + i],
{
}

/// The settings that are passed on are those with a name and a value, all of
/// them and in their order.
pub proof fn law_usable_is_complete(secrets: Seq<(String, String)>) -> (places: Seq<int>)
    ensures
        places.len() == usable(secrets).len(),
        forall|i: int|
            0 <= i < places.len() ==> 0 <= #[trigger] places[i] < secrets.len()
                && secrets[places[i]] == usable(secrets)[i] && !text::blank(
                secrets[places[i]].0@,
            ) && secrets[places[i]].1@.len() > 0,
        forall|i: int, j: int| 0 <= i < j < places.len() ==> places[i] < places[j],
        forall|j: int|
            0 <= j < secrets.len() && !text::blank((#[trigger] secrets[j]).0@)
                && secrets[j].1@.len() > 0 ==> places.contains(j),
    decreases secrets.len(),
{
    if secrets.len() == 0 {
        Seq::empty()
    } else {
        let fewer = secrets.drop_last();
        let last = secrets.len() - 1;
        let before = law_usable_is_complete(fewer);
        let all = if !text::blank(secrets.last().0@) && secrets.last().1@.len() > 0 {
            before.push(last)
        } else {
            before
        };
        assert forall|i: int| 0 <= i < all.len() implies 0 <= #[trigger] all[i] < secrets.len()
            && secrets[all[i]] == usable(secrets)[i] && !text::blank(secrets[all[i]].0@)
            && secrets[all[i]].1@.len() > 0 by {
            if i < before.len() {
                assert(0 <= before[i] < fewer.len());
                assert(fewer[before[i]] == secrets[before[i]]);
            }
        }
        assert forall|j: int|
            0 <= j < secrets.len() && !text::blank((#[trigger] secrets[j]).0@)
                && secrets[j].1@.len() > 0 implies all.contains(j) by {
            if j < last {
                assert(fewer[j] == secrets[j]);
                let i = choose|i: int| 0 <= i < before.len() && before[i] == j;
                assert(all[i] == j);
            } else {
                assert(all[all.len() - 1] == j);
            }
        }
        all
    }
}

} // verus!
