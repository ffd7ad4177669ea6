//! Logical time and the frontier operation.
//!
//! Logical time is a `u64` under its usual total order. The one operation the
//! join constructions demand of it is the immediate predecessor, saturating
//! at the domain minimum: it turns an event's own time into the frontier at
//! which the other side's index is read when simultaneous updates must stay
//! invisible.

use vstd::prelude::*;

verus! {

/// Immediate predecessor of `t`, saturating at the minimum time.
pub open spec fn pred_spec(t: int) -> int {
    if t <= 0 {
        0
    } else {
        t - 1
    }
}

/// Executable immediate predecessor: `t - 1`, floored at `0`.
pub fn time_predecessor(t: u64) -> (r: u64)
    ensures
        r as int == pred_spec(t as int),
{
    if t == 0 {
        0
    } else {
        t - 1
    }
}

/// Away from the minimum, reading as of the predecessor frontier is the same
/// as admitting strictly earlier times only; at the minimum no time is
/// strictly earlier at all.
pub proof fn lemma_predecessor_frontier(t_probed: int, t_stream: int)
    requires
        t_probed >= 0,
    ensures
        t_stream > 0 ==> ((t_probed <= pred_spec(t_stream)) <==> (t_probed < t_stream)),
        t_stream == 0 ==> !(t_probed < t_stream),
{
}

} // verus!
