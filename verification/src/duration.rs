//! How long a duration lasts.
use std::time::Duration;
use vstd::prelude::*;

verus! {

/// How many nanoseconds a duration lasts.
pub uninterp spec fn duration_nanos(duration: Duration) -> nat;

/// `std::time::Duration::as_nanos`.
///
/// Taken on trust: it returns the number of nanoseconds of the duration.
pub assume_specification[ Duration::as_nanos ](duration: &Duration) -> (nanos: u128)
    ensures
        nanos == duration_nanos(*duration),
;

/// `std::time::Duration::from_secs`.
///
/// Taken on trust: the duration that it returns lasts the given number of
/// whole seconds.
pub assume_specification[ Duration::from_secs ](secs: u64) -> (duration: Duration)
    ensures
        duration_nanos(duration) == secs * 1_000_000_000,
;

} // verus!
