//! The moments that the clock shows.
use vstd::prelude::*;

use crate::timestamp::is_clock_time;

verus! {

/// Whether the clock showed this moment, in whole seconds since the start of 1970 and the
/// nanoseconds that follow them. Which moments these are is kept to this module, where nothing reads
/// the clock: elsewhere a moment is known to be one only where the clock answered it.
pub closed spec fn was_shown(seconds: i64, nanos: u32) -> bool {
    is_clock_time(seconds, nanos)
}

/// The clock shows only moments that a clock can show.
pub proof fn shown_moments_are_clock_times(seconds: i64, nanos: u32)
    requires
        was_shown(seconds, nanos),
    ensures
        is_clock_time(seconds, nanos),
{
}

} // verus!
