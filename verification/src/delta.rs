//! The delta-join constructions.
//!
//! For each relation, a delta path: the relation's own change stream,
//! half-joined along the foreign-key chain against the other relations'
//! arrangements, with ties between simultaneous updates resolved by the
//! priority order (orders < users < provinces). The result aggregator is the
//! plain concatenation of the three paths; no deduplication is permitted,
//! because the visibility rule already makes the paths' contributions
//! disjoint.
//!
//! The late-materialization variant replaces the user relation's second,
//! `pid`-keyed arrangement of full records with a key-only secondary index
//! and resolves primary keys back to records with one extra half-join step.

use vstd::prelude::*;

use crate::change::Change;
use crate::change::Evt;
use crate::change::MULT_BOUND;
use crate::change::evts;
use crate::change::weight_at;
use crate::change::lemma_evts_concat;
use crate::change::mults_bounded;
use crate::half_join::half_join_order_user;
use crate::laws::joined_weight;
use crate::laws::theorem_delta_join_correct;
use crate::laws::theorem_late_materialization_equivalent;
use crate::laws::user_key_consistent;
use crate::half_join::half_join_pair_province;
use crate::half_join::half_join_province_secondary;
use crate::half_join::half_join_province_user;
use crate::half_join::half_join_uidprov_user;
use crate::half_join::half_join_user_order;
use crate::half_join::half_join_userprov_order;
use crate::half_join::hj_order_user;
use crate::half_join::hj_pair_province;
use crate::half_join::hj_province_secondary;
use crate::half_join::hj_province_user;
use crate::half_join::hj_uidprov_user;
use crate::half_join::hj_user_order;
use crate::half_join::hj_userprov_order;
use crate::half_join::secondary_index_spec;
use crate::half_join::user_secondary_index;
use crate::records::Order;
use crate::records::Province;
use crate::records::User;
use crate::visibility::Rel;

verus! {

/// The order path: order changes, half-joined against users then provinces,
/// with ties never visible (orders have the lowest priority).
pub open spec fn order_path_spec(
    os: Seq<Evt<Order>>,
    us: Seq<Evt<User>>,
    ps: Seq<Evt<Province>>,
) -> Seq<Evt<(Order, User, Province)>> {
    hj_pair_province(Rel::Orders, hj_order_user(os, us), ps)
}

/// The user path: user changes, half-joined against orders (ties visible)
/// then provinces (ties invisible).
pub open spec fn user_path_spec(
    os: Seq<Evt<Order>>,
    us: Seq<Evt<User>>,
    ps: Seq<Evt<Province>>,
) -> Seq<Evt<(Order, User, Province)>> {
    hj_pair_province(Rel::Users, hj_user_order(us, os), ps)
}

/// The province path: province changes, half-joined against users then
/// orders, ties visible on both edges (provinces have the highest priority).
pub open spec fn province_path_spec(
    os: Seq<Evt<Order>>,
    us: Seq<Evt<User>>,
    ps: Seq<Evt<Province>>,
) -> Seq<Evt<(Order, User, Province)>> {
    hj_userprov_order(hj_province_user(ps, us), os)
}

/// The delta join: the three delta paths, concatenated.
pub open spec fn delta_join_spec(
    os: Seq<Evt<Order>>,
    us: Seq<Evt<User>>,
    ps: Seq<Evt<Province>>,
) -> Seq<Evt<(Order, User, Province)>> {
    order_path_spec(os, us, ps) + user_path_spec(os, us, ps) + province_path_spec(os, us, ps)
}

/// The province path of the late-materialization variant: province changes
/// first meet the key-only secondary index, then resolve the primary key
/// into the full user record, then meet the order arrangement.
pub open spec fn province_path_late_spec(
    os: Seq<Evt<Order>>,
    us: Seq<Evt<User>>,
    ps: Seq<Evt<Province>>,
) -> Seq<Evt<(Order, User, Province)>> {
    hj_userprov_order(
        hj_uidprov_user(hj_province_secondary(ps, secondary_index_spec(us)), us),
        os,
    )
}

/// The delta join with late materialization: the same order and user paths,
/// and the province path routed through the secondary index.
pub open spec fn delta_join_late_spec(
    os: Seq<Evt<Order>>,
    us: Seq<Evt<User>>,
    ps: Seq<Evt<Province>>,
) -> Seq<Evt<(Order, User, Province)>> {
    order_path_spec(os, us, ps) + user_path_spec(os, us, ps) + province_path_late_spec(os, us, ps)
}

/// The delta join of the three change streams: per relation, a chain of
/// half-joins along the foreign-key chain; ties broken by the priority order
/// orders < users < provinces; the three paths concatenated.
pub fn delta_join(
    order: &Vec<Change<Order>>,
    user: &Vec<Change<User>>,
    province: &Vec<Change<Province>>,
) -> (out: Vec<Change<(Order, User, Province)>>)
    requires
        mults_bounded(evts(order@), MULT_BOUND as int),
        mults_bounded(evts(user@), MULT_BOUND as int),
        mults_bounded(evts(province@), MULT_BOUND as int),
    ensures
        evts(out@) == delta_join_spec(evts(order@), evts(user@), evts(province@)),
        forall|o: Order, u: User, p: Province, q: int|
            #[trigger] weight_at(evts(out@), (o, u, p), q) == joined_weight(
                evts(order@),
                evts(user@),
                evts(province@),
                o,
                u,
                p,
                q,
            ),
{
    let order_stage = half_join_order_user(order, user);
    let mut out = half_join_pair_province(Rel::Orders, &order_stage, province);
    let user_stage = half_join_user_order(user, order);
    let mut user_part = half_join_pair_province(Rel::Users, &user_stage, province);
    let province_stage = half_join_province_user(province, user);
    let mut province_part = half_join_userprov_order(&province_stage, order);
    proof {
        lemma_evts_concat(out@, user_part@);
    }
    out.append(&mut user_part);
    proof {
        lemma_evts_concat(out@, province_part@);
    }
    out.append(&mut province_part);
    proof {
        assert forall|o: Order, u: User, p: Province, q: int|
            #[trigger] weight_at(evts(out@), (o, u, p), q) == joined_weight(
                evts(order@),
                evts(user@),
                evts(province@),
                o,
                u,
                p,
                q,
            ) by {
            theorem_delta_join_correct(
                evts(order@),
                evts(user@),
                evts(province@),
                o,
                u,
                p,
                q,
            );
        }
    }
    out
}

/// The delta join with late materialization: identical output to
/// `delta_join` on key-consistent inputs, but the `pid`-keyed index of the
/// user relation holds only `(pid, uid)` key pairs, and the province path
/// takes one extra half-join step to resolve records.
pub fn delta_join_late_materialization(
    order: &Vec<Change<Order>>,
    user: &Vec<Change<User>>,
    province: &Vec<Change<Province>>,
) -> (out: Vec<Change<(Order, User, Province)>>)
    requires
        mults_bounded(evts(order@), MULT_BOUND as int),
        mults_bounded(evts(user@), MULT_BOUND as int),
        mults_bounded(evts(province@), MULT_BOUND as int),
    ensures
        evts(out@) == delta_join_late_spec(evts(order@), evts(user@), evts(province@)),
        user_key_consistent(evts(user@)) ==> forall|o: Order, u: User, p: Province, q: int|
            #[trigger] weight_at(evts(out@), (o, u, p), q) == joined_weight(
                evts(order@),
                evts(user@),
                evts(province@),
                o,
                u,
                p,
                q,
            ),
{
    let order_stage = half_join_order_user(order, user);
    let mut out = half_join_pair_province(Rel::Orders, &order_stage, province);
    let user_stage = half_join_user_order(user, order);
    let mut user_part = half_join_pair_province(Rel::Users, &user_stage, province);
    let secondary = user_secondary_index(user);
    let resolved_keys = half_join_province_secondary(province, &secondary);
    let resolved = half_join_uidprov_user(&resolved_keys, user);
    let mut province_part = half_join_userprov_order(&resolved, order);
    proof {
        lemma_evts_concat(out@, user_part@);
    }
    out.append(&mut user_part);
    proof {
        lemma_evts_concat(out@, province_part@);
    }
    out.append(&mut province_part);
    proof {
        if user_key_consistent(evts(user@)) {
            assert forall|o: Order, u: User, p: Province, q: int|
                #[trigger] weight_at(evts(out@), (o, u, p), q) == joined_weight(
                    evts(order@),
                    evts(user@),
                    evts(province@),
                    o,
                    u,
                    p,
                    q,
                ) by {
                theorem_late_materialization_equivalent(
                    evts(order@),
                    evts(user@),
                    evts(province@),
                    o,
                    u,
                    p,
                    q,
                );
                theorem_delta_join_correct(
                    evts(order@),
                    evts(user@),
                    evts(province@),
                    o,
                    u,
                    p,
                    q,
                );
            }
        }
    }
    out
}

} // verus!
