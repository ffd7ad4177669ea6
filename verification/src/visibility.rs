//! Priority order over the joined relations and the visibility rule.
//!
//! Every pairwise tie-break of the delta join is derived from one fixed total
//! order: orders < users < provinces. When a relation's own change at time
//! `t_stream` probes another relation's index, an entry with time `t_probed`
//! is visible if it is strictly earlier, or simultaneous and the probing
//! relation has the higher priority. For any three event times, exactly one
//! of the three per-relation delta paths may emit the combination — the
//! central invariant of the construction.

use vstd::prelude::*;

verus! {

/// The relations of the join chain, named for the purpose of the priority
/// order.
#[derive(Clone, Copy, Debug, PartialEq, Eq, Structural)]
pub enum Rel {
    Orders,
    Users,
    Provinces,
}

/// The fixed priority of a relation: orders < users < provinces.
pub open spec fn priority(r: Rel) -> int {
    match r {
        Rel::Orders => 0,
        Rel::Users => 1,
        Rel::Provinces => 2,
    }
}

/// Executable priority of a relation.
pub fn rel_priority(r: Rel) -> (p: u8)
    ensures
        p as int == priority(r),
{
    match r {
        Rel::Orders => 0,
        Rel::Users => 1,
        Rel::Provinces => 2,
    }
}

/// May `stream_rel` see an update of `probed` landing at the very same time?
pub open spec fn sees_tie(stream_rel: Rel, probed: Rel) -> bool {
    priority(stream_rel) > priority(probed)
}

/// The visibility predicate of one half-join edge: a change of `stream_rel`
/// at time `t_stream` sees an entry of `probed`'s index at time `t_probed`.
pub open spec fn visible_spec(stream_rel: Rel, probed: Rel, t_probed: int, t_stream: int) -> bool {
    t_probed < t_stream || (t_probed == t_stream && sees_tie(stream_rel, probed))
}

/// Executable visibility predicate, derived from the priority order alone.
pub fn visible(stream_rel: Rel, probed: Rel, t_probed: u64, t_stream: u64) -> (b: bool)
    ensures
        b == visible_spec(stream_rel, probed, t_probed as int, t_stream as int),
{
    t_probed < t_stream || (t_probed == t_stream && rel_priority(stream_rel) > rel_priority(
        probed,
    ))
}

/// The order path emits a combination of events at these times.
pub open spec fn order_path_wins(t_o: int, t_u: int, t_p: int) -> bool {
    visible_spec(Rel::Orders, Rel::Users, t_u, t_o) && visible_spec(
        Rel::Orders,
        Rel::Provinces,
        t_p,
        t_o,
    )
}

/// The user path emits a combination of events at these times.
pub open spec fn user_path_wins(t_o: int, t_u: int, t_p: int) -> bool {
    visible_spec(Rel::Users, Rel::Orders, t_o, t_u) && visible_spec(
        Rel::Users,
        Rel::Provinces,
        t_p,
        t_u,
    )
}

/// The province path emits a combination of events at these times.
pub open spec fn province_path_wins(t_o: int, t_u: int, t_p: int) -> bool {
    visible_spec(Rel::Provinces, Rel::Orders, t_o, t_p) && visible_spec(
        Rel::Provinces,
        Rel::Users,
        t_u,
        t_p,
    )
}

/// For any triple of event times, exactly one delta path counts the
/// combination: never zero, never two. This is the tie-break invariant that
/// makes the concatenation of the three paths duplicate-free and complete.
pub proof fn lemma_exactly_one_path(t_o: int, t_u: int, t_p: int)
    ensures
        order_path_wins(t_o, t_u, t_p) || user_path_wins(t_o, t_u, t_p) || province_path_wins(
            t_o,
            t_u,
            t_p,
        ),
        !(order_path_wins(t_o, t_u, t_p) && user_path_wins(t_o, t_u, t_p)),
        !(order_path_wins(t_o, t_u, t_p) && province_path_wins(t_o, t_u, t_p)),
        !(user_path_wins(t_o, t_u, t_p) && province_path_wins(t_o, t_u, t_p)),
{
}

} // verus!
