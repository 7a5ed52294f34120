//! The wall clock.

use vstd::prelude::*;
use crate::Timestamp;

verus! {

/// `SystemTime::now`, as nanoseconds since the Unix epoch (zero for a clock set
/// before the epoch). Nothing is promised of the value: two readings may come
/// back in any order.
#[verifier::external_body]
pub(crate) fn clock_now() -> (now: Timestamp) {
    std::time::SystemTime::now().duration_since(std::time::UNIX_EPOCH).map(|d| d.as_nanos()).unwrap_or(0)
}

/// The time that passed from `earlier` to `now`, or `None` where `earlier`
/// lies after `now`.
pub open spec fn elapsed_between(now: Timestamp, earlier: Timestamp) -> Option<int> {
    if earlier <= now {
        Some(now - earlier)
    } else {
        None
    }
}

/// Computes `elapsed_between`.
pub fn elapsed(now: Timestamp, earlier: Timestamp) -> (d: Option<u128>)
    ensures
        match d {
            Some(v) => elapsed_between(now, earlier) == Some(v as int),
            None => elapsed_between(now, earlier) is None,
        },
{
    if earlier <= now {
        Some(now - earlier)
    } else {
        None
    }
}

} // verus!
