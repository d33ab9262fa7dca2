//! Spans of time, as `std::time::Duration`.

use std::time::Duration;
use vstd::prelude::*;

verus! {

/// The span of time that `Duration::from_secs` makes of a number of seconds.
pub uninterp spec fn duration_of_secs(secs: u64) -> Duration;

/// `std::time::Duration::from_secs`: the span of that many whole seconds. The
/// type is opaque, so the span is named by the number of seconds alone.
pub assume_specification[ Duration::from_secs ](secs: u64) -> (r: Duration)
    ensures
        r == duration_of_secs(secs),
;

} // verus!
