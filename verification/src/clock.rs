//! The time of day.

use vstd::prelude::*;

verus! {

/// `SystemTime::now` of the standard library, given as the nanoseconds since
/// the start of 1970, or as nothing where the clock stands before that. What
/// the clock says is not known.
#[verifier::external_body]
fn nanos_since_epoch() -> (r: Option<u128>)
{
    match std::time::SystemTime::now().duration_since(std::time::SystemTime::UNIX_EPOCH) {
        Ok(elapsed) => Some(elapsed.as_nanos()),
        Err(_) => None,
    }
}

/// A reading of the clock as a time stamp: none counts as zero, and one beyond
/// the range of `i64` as the largest in it.
pub fn time_stamp(nanos: Option<u128>) -> (r: i64)
    ensures
        r == match nanos {
            None => 0int,
            Some(n) => if n > i64::MAX {
                i64::MAX as int
            } else {
                n as int
            },
        },
{
    match nanos {
        None => 0,
        Some(n) => {
            if n > 0x7fff_ffff_ffff_ffff {
                0x7fff_ffff_ffff_ffff
            } else {
                n as i64
            }
        },
    }
}

/// The time in nanoseconds since the start of 1970.
pub fn unix_time_ns() -> (r: i64)
    ensures
        r >= 0,
{
    time_stamp(nanos_since_epoch())
}

} // verus!
