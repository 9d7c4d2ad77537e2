//! The time of day, read from the machine.
use vstd::prelude::*;

verus! {

/// `chrono::Local::now().timestamp()`: the seconds since the epoch at the
/// moment of the call. Nothing is claimed of the value.
#[verifier::external_body]
pub(crate) fn epoch_seconds() -> (now: i64) {
    chrono::Local::now().timestamp()
}

} // verus!
