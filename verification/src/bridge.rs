//! The transport of terminals: lines of bytes over a connection that does not
//! wait.

use vstd::prelude::*;

verus! {

/// How many characters a text from a terminal may have.
pub const WIDE_LIMIT: usize = 32_768;

/// The byte that ends a line.
pub const LINE_END: u8 = 10;

/// A line with its end: one is added where there is none.
pub open spec fn ended(payload: Seq<u8>) -> Seq<u8> {
    if payload.len() > 0 && payload.last() == LINE_END {
        payload
    } else {
        payload.push(LINE_END)
    }
}

/// A line with its end.
pub fn frame_line(payload: Vec<u8>) -> (r: Vec<u8>)
    ensures
        r@ == ended(payload@),
{
    let mut payload = payload;
    let n: usize = payload.len();
    if n == 0 || payload[n - 1] != LINE_END {
        payload.push(LINE_END);
    }
    payload
}

/// Where the first line ends, the end taken with it.
pub open spec fn line_length(bytes: Seq<u8>) -> Option<int>
    decreases bytes.len(),
{
    if bytes.len() == 0 {
        None
    } else {
        match line_length(bytes.drop_last()) {
            Some(n) => Some(n),
            None => if bytes.last() == LINE_END {
                Some(bytes.len() as int)
            } else {
                None
            },
        }
    }
}

/// What a terminal finds.
#[derive(Debug)]
pub enum Polled {
    /// No whole line.
    Nothing,
    /// A line that does not fit.
    TooLong,
    /// A line.
    Line(Vec<u8>),
}

/// Where there is a line, it is the part up to the first end.
pub proof fn law_first_line(bytes: Seq<u8>)
    ensures
        match line_length(bytes) {
            Some(n) => {
                &&& 1 <= n <= bytes.len()
                &&& bytes[n - 1] == LINE_END
                &&& forall|i: int| 0 <= i < n - 1 ==> bytes[i] != LINE_END
            },
            None => forall|i: int| 0 <= i < bytes.len() ==> bytes[i] != LINE_END,
        },
    decreases bytes.len(),
{
    if bytes.len() > 0 {
        law_first_line(bytes.drop_last());
        assert forall|i: int| 0 <= i < bytes.len() - 1 implies bytes[i] == bytes.drop_last()[i] by {}
        assert(bytes[bytes.len() - 1] == bytes.last());
    }
}

proof fn lemma_line_found(bytes: Seq<u8>, n: int)
    requires
        0 <= n <= bytes.len(),
        line_length(bytes.take(n)) is Some,
    ensures
        line_length(bytes) == line_length(bytes.take(n)),
    decreases bytes.len(),
{
    if n == bytes.len() {
        assert(bytes.take(n) =~= bytes);
    } else {
        assert(bytes.drop_last().take(n) =~= bytes.take(n));
        lemma_line_found(bytes.drop_last(), n);
    }
}

fn find_line(bytes: &Vec<u8>) -> (r: Option<usize>)
    ensures
        match r {
            Some(n) => 1 <= n <= bytes.len() && line_length(bytes@) == Some(n as int),
            None => line_length(bytes@) is None,
        },
{
    let mut i: usize = 0;
    while i < bytes.len()
        invariant
            i <= bytes.len(),
            line_length(bytes@.take(i as int)) is None,
        decreases bytes.len() - i,
    {
        assert(bytes@.take(i + 1).drop_last() =~= bytes@.take(i as int));
        if bytes[i] == LINE_END {
            proof {
                lemma_line_found(bytes@, i + 1);
            }
            return Some(i + 1);
        }
        i = i + 1;
    }
    assert(bytes@.take(i as int) =~= bytes@);
    None
}

/// Takes the first line out of what was received. One that is longer than
/// `capacity` stays.
pub fn take_line(received: &mut Vec<u8>, capacity: usize) -> (r: Polled)
    ensures
        match line_length(old(received)@) {
            None => r is Nothing && final(received)@ == old(received)@,
            Some(n) => if n > capacity {
                r is TooLong && final(received)@ == old(received)@
            } else {
                &&& r is Line
                &&& r->Line_0@ == old(received)@.take(n)
                &&& final(received)@ == old(received)@.skip(n)
            },
        },
{
    let ghost before = received@;
    let n: usize = match find_line(received) {
        Some(n) => n,
        None => {
            return Polled::Nothing;
        },
    };
    if n > capacity {
        return Polled::TooLong;
    }
    let rest = received.split_off(n);
    let mut line: Vec<u8> = rest;
    std::mem::swap(received, &mut line);
    assert(line@ =~= before.take(n as int));
    assert(received@ =~= before.skip(n as int));
    Polled::Line(line)
}

/// A connection's number, and the count after it.
pub fn next_handle(count: i32) -> (r: (i32, i32))
    ensures
        r.0 == if count < 1 {
            1
        } else {
            count
        },
        r.1 == if count == i32::MAX {
            i32::MIN as int
        } else {
            count + 1
        },
{
    let handle: i32 = if count < 1 {
        1
    } else {
        count
    };
    let next: i32 = if count == 0x7fff_ffff {
        -0x8000_0000
    } else {
        count + 1
    };
    (handle, next)
}

/// How far a write has come: the bytes that were taken, and how often in a row
/// none was.
#[derive(Debug, Clone, Copy, PartialEq, Eq, Structural)]
pub struct WriteState {
    pub written: usize,
    pub spins: usize,
}

/// What a try to write came to.
#[derive(Debug, Clone, Copy, PartialEq, Eq, Structural)]
pub enum WriteOutcome {
    /// So many bytes were taken.
    Taken(usize),
    /// None could be taken now.
    Busy,
    /// None will be taken.
    Failed,
}

/// What comes next.
#[derive(Debug, Clone, Copy, PartialEq, Eq, Structural)]
pub enum WriteStep {
    /// Everything was taken.
    Done,
    /// Try the rest.
    Again,
    /// Let others run, and try the rest.
    Yield,
    /// Pause, and try the rest.
    Pause,
    /// Give up: the connection takes nothing.
    WriteZero,
    /// Give up: it is busy for too long.
    StillBusy,
    /// Give up: it failed.
    Failed,
}

/// How often in a row others may run.
pub const YIELD_SPINS: usize = 32;

/// How often in a row nothing may be taken.
pub const SPIN_LIMIT: usize = 256;

/// What follows a try: after some bytes the rest is tried at once; while none
/// can be taken, others run at first, then there are pauses, and then it is
/// given up.
pub open spec fn write_after(state: WriteState, outcome: WriteOutcome, total: usize) -> (
    WriteState,
    WriteStep,
) {
    match outcome {
        WriteOutcome::Taken(count) => if count == 0 {
            (state, WriteStep::WriteZero)
        } else {
            let written = (state.written + count) as usize;
            (
                WriteState { written, spins: 0 },
                if written < total {
                    WriteStep::Again
                } else {
                    WriteStep::Done
                },
            )
        },
        WriteOutcome::Busy => {
            let spins = (state.spins + 1) as usize;
            (
                WriteState { written: state.written, spins },
                if spins < YIELD_SPINS {
                    WriteStep::Yield
                } else if spins < SPIN_LIMIT {
                    WriteStep::Pause
                } else {
                    WriteStep::StillBusy
                },
            )
        },
        WriteOutcome::Failed => (state, WriteStep::Failed),
    }
}

/// What follows a try to write what is left of `total` bytes.
pub fn write_step(state: WriteState, outcome: WriteOutcome, total: usize) -> (r: (
    WriteState,
    WriteStep,
))
    requires
        state.written <= total,
        state.spins < SPIN_LIMIT,
        outcome matches WriteOutcome::Taken(count) ==> count <= total - state.written,
    ensures
        r == write_after(state, outcome, total),
        r.0.written <= total,
{
    match outcome {
        WriteOutcome::Taken(count) => {
            if count == 0 {
                return (state, WriteStep::WriteZero);
            }
            let written: usize = state.written + count;
            let step = if written < total {
                WriteStep::Again
            } else {
                WriteStep::Done
            };
            (WriteState { written, spins: 0 }, step)
        },
        WriteOutcome::Busy => {
            let spins: usize = state.spins + 1;
            let step = if spins < YIELD_SPINS {
                WriteStep::Yield
            } else if spins < SPIN_LIMIT {
                WriteStep::Pause
            } else {
                WriteStep::StillBusy
            };
            (WriteState { written: state.written, spins }, step)
        },
        WriteOutcome::Failed => (state, WriteStep::Failed),
    }
}

/// A line that was framed is found whole, and nothing else with it, where it
/// holds no end before its own.
pub proof fn law_framed_line_is_found(payload: Seq<u8>, more: Seq<u8>)
    requires
        !payload.contains(LINE_END),
    ensures
        line_length(ended(payload) + more) == Some(payload.len() as int + 1),
        (ended(payload) + more).take((payload.len() + 1) as int) == ended(payload),
        (ended(payload) + more).skip((payload.len() + 1) as int) == more,
{
    let whole = ended(payload) + more;
    if payload.len() > 0 {
        assert(payload.contains(payload.last()));
    }
    law_first_line(whole);
    assert(whole[payload.len() as int] == LINE_END);
    let n = line_length(whole);
    if n is Some && n->Some_0 - 1 < payload.len() {
        assert(payload.contains(payload[n->Some_0 - 1]));
    }
    assert(whole.take((payload.len() + 1) as int) =~= ended(payload));
    assert(whole.skip((payload.len() + 1) as int) =~= more);
}

/// A line has its end once: one is added to a line without, and nothing to a line
/// with one.
pub proof fn law_line_is_ended(payload: Seq<u8>)
    ensures
        ended(payload).len() > 0,
        ended(payload).last() == 10,
        ended(payload).take(payload.len() as int) == payload,
        ended(payload).len() == payload.len() <==> payload.len() > 0 && payload.last() == 10,
        ended(payload).len() <= payload.len() + 1,
        ended(ended(payload)) == ended(payload),
{
    assert(ended(payload).take(payload.len() as int) =~= payload);
}

/// A write counts what was taken and is done when all was. Others run up to the
/// thirty-first time in a row that nothing could be taken, then it pauses, and
/// at the two hundred and fifty-sixth time it is given up.
pub proof fn law_write_goes_on(state: WriteState, outcome: WriteOutcome, total: usize)
    requires
        state.written <= total,
        state.spins < 256,
        outcome matches WriteOutcome::Taken(count) ==> count <= total - state.written,
    ensures
        ({
            let (next, step) = write_after(state, outcome, total);
            match outcome {
                WriteOutcome::Taken(count) => {
                    &&& next.written == state.written + count
                    &&& count == 0 ==> step == WriteStep::WriteZero
                    &&& count > 0 ==> next.spins == 0
                    &&& count > 0 ==> (step == WriteStep::Done <==> next.written == total)
                    &&& count > 0 ==> (step == WriteStep::Again <==> next.written < total)
                },
                WriteOutcome::Busy => {
                    &&& next.written == state.written
                    &&& next.spins == state.spins + 1
                    &&& step == WriteStep::Yield <==> next.spins < 32
                    &&& step == WriteStep::Pause <==> 32 <= next.spins < 256
                    &&& step == WriteStep::StillBusy <==> next.spins >= 256
                },
                WriteOutcome::Failed => step == WriteStep::Failed && next == state,
            }
        }),
{
}

} // verus!
