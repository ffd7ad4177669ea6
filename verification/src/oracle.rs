//! Baseline materializing join, used as a correctness oracle.
//!
//! The baseline arranges each relation by its join key and joins pairwise,
//! materializing the intermediate `(order, user)` result; every output event
//! carries the later of the two matched times, so the output accumulated at
//! any time `t` is exactly the join of the three relations' states at `t`.

use vstd::prelude::*;

use crate::change::Change;
use crate::change::Evt;
use crate::change::MULT_BOUND;
use crate::change::evts;
use crate::change::imax;
use crate::change::lemma_evts_push;
use crate::change::mults_bounded;
use crate::change::weight_at;
use crate::laws::joined_weight;
use crate::laws::theorem_regular_join_correct;
use crate::records::Order;
use crate::records::Province;
use crate::records::User;

verus! {

/// Matches of one order event against all user events, emitted at the later
/// of the two times.
pub open spec fn join_order_user_one(co: Evt<Order>, us: Seq<Evt<User>>) -> Seq<Evt<(Order, User)>>
    decreases us.len(),
{
    if us.len() == 0 {
        Seq::empty()
    } else {
        let rest = join_order_user_one(co, us.drop_last());
        let cu = us.last();
        if cu.val.uid == co.val.uid {
            rest.push(
                Evt {
                    val: (co.val, cu.val),
                    time: imax(co.time, cu.time),
                    mult: co.mult * cu.mult,
                },
            )
        } else {
            rest
        }
    }
}

/// Ordinary incremental join of orders and users on `uid`.
pub open spec fn join_order_user(os: Seq<Evt<Order>>, us: Seq<Evt<User>>) -> Seq<Evt<(Order, User)>>
    decreases os.len(),
{
    if os.len() == 0 {
        Seq::empty()
    } else {
        join_order_user(os.drop_last(), us) + join_order_user_one(os.last(), us)
    }
}

/// Matches of one `(order, user)` event against all province events.
pub open spec fn join_pair_province_one(e: Evt<(Order, User)>, ps: Seq<Evt<Province>>) -> Seq<
    Evt<(Order, User, Province)>,
>
    decreases ps.len(),
{
    if ps.len() == 0 {
        Seq::empty()
    } else {
        let rest = join_pair_province_one(e, ps.drop_last());
        let cp = ps.last();
        if cp.val.pid == e.val.1.pid {
            rest.push(
                Evt {
                    val: (e.val.0, e.val.1, cp.val),
                    time: imax(e.time, cp.time),
                    mult: e.mult * cp.mult,
                },
            )
        } else {
            rest
        }
    }
}

/// Ordinary incremental join of the intermediate pairs and provinces on
/// `pid`.
pub open spec fn join_pair_province(s: Seq<Evt<(Order, User)>>, ps: Seq<Evt<Province>>) -> Seq<
    Evt<(Order, User, Province)>,
>
    decreases s.len(),
{
    if s.len() == 0 {
        Seq::empty()
    } else {
        join_pair_province(s.drop_last(), ps) + join_pair_province_one(s.last(), ps)
    }
}

/// The baseline join of the three relations.
pub open spec fn regular_join_spec(
    os: Seq<Evt<Order>>,
    us: Seq<Evt<User>>,
    ps: Seq<Evt<Province>>,
) -> Seq<Evt<(Order, User, Province)>> {
    join_pair_province(join_order_user(os, us), ps)
}

/// Pairwise incremental join of orders and users on `uid`.
#[verifier::loop_isolation(false)]
pub fn pairwise_join_order_user(os: &Vec<Change<Order>>, us: &Vec<Change<User>>) -> (out: Vec<
    Change<(Order, User)>,
>)
    requires
        mults_bounded(evts(os@), MULT_BOUND as int),
        mults_bounded(evts(us@), MULT_BOUND as int),
    ensures
        evts(out@) == join_order_user(evts(os@), evts(us@)),
        mults_bounded(evts(out@), MULT_BOUND as int * MULT_BOUND as int),
{
    let ghost so = evts(os@);
    let ghost su = evts(us@);
    let mut out: Vec<Change<(Order, User)>> = Vec::new();
    proof {
        assert(so.take(0) =~= Seq::<Evt<Order>>::empty());
        assert(evts(out@) =~= Seq::<Evt<(Order, User)>>::empty());
    }
    let mut i: usize = 0;
    while i < os.len()
        invariant
            i <= os.len(),
            evts(out@) == join_order_user(so.take(i as int), su),
            mults_bounded(evts(out@), MULT_BOUND as int * MULT_BOUND as int),
        decreases os.len() - i,
    {
        let mut j: usize = 0;
        proof {
            assert(su.take(0) =~= Seq::<Evt<User>>::empty());
        }
        while j < us.len()
            invariant
                j <= us.len(),
                i < os.len(),
                evts(out@) == join_order_user(so.take(i as int), su) + join_order_user_one(
                    so[i as int],
                    su.take(j as int),
                ),
                mults_bounded(evts(out@), MULT_BOUND as int * MULT_BOUND as int),
            decreases us.len() - j,
        {
            proof {
                assert(su.take(j as int + 1).drop_last() =~= su.take(j as int));
                assert(su.take(j as int + 1).last() == su[j as int]);
            }
            if us[j].val.uid == os[i].val.uid {
                proof {
                    assert(-(MULT_BOUND as int * MULT_BOUND as int) <= so[i as int].mult * su[j as int].mult
                        <= MULT_BOUND as int * MULT_BOUND as int) by (nonlinear_arith)
                        requires
                            -(MULT_BOUND as int) <= so[i as int].mult <= MULT_BOUND as int,
                            -(MULT_BOUND as int) <= su[j as int].mult <= MULT_BOUND as int,
                    ;
                }
                let m: i64 = os[i].mult * us[j].mult;
                let t: u64 = if os[i].time >= us[j].time {
                    os[i].time
                } else {
                    us[j].time
                };
                let c = Change { val: (os[i].val, us[j].val), time: t, mult: m };
                proof {
                    lemma_evts_push(out@, c);
                    assert(join_order_user(so.take(i as int), su) + join_order_user_one(
                        so[i as int],
                        su.take(j as int),
                    ).push(c@) =~= (join_order_user(so.take(i as int), su) + join_order_user_one(
                        so[i as int],
                        su.take(j as int),
                    )).push(c@));
                }
                out.push(c);
            }
            j += 1;
        }
        proof {
            assert(su.take(us@.len() as int) =~= su);
            assert(so.take(i as int + 1).drop_last() =~= so.take(i as int));
            assert(so.take(i as int + 1).last() == so[i as int]);
        }
        i += 1;
    }
    proof {
        assert(so.take(os@.len() as int) =~= so);
    }
    out
}

/// Pairwise incremental join of the intermediate pairs and provinces on
/// `pid`.
#[verifier::loop_isolation(false)]
pub fn pairwise_join_pair_province(s: &Vec<Change<(Order, User)>>, ps: &Vec<Change<Province>>) -> (
    out: Vec<Change<(Order, User, Province)>>)
    requires
        mults_bounded(evts(s@), MULT_BOUND as int * MULT_BOUND as int),
        mults_bounded(evts(ps@), MULT_BOUND as int),
    ensures
        evts(out@) == join_pair_province(evts(s@), evts(ps@)),
        mults_bounded(evts(out@), MULT_BOUND as int * MULT_BOUND as int * MULT_BOUND as int),
{
    let ghost ss = evts(s@);
    let ghost sp = evts(ps@);
    let mut out: Vec<Change<(Order, User, Province)>> = Vec::new();
    proof {
        assert(ss.take(0) =~= Seq::<Evt<(Order, User)>>::empty());
        assert(evts(out@) =~= Seq::<Evt<(Order, User, Province)>>::empty());
    }
    let mut i: usize = 0;
    while i < s.len()
        invariant
            i <= s.len(),
            evts(out@) == join_pair_province(ss.take(i as int), sp),
            mults_bounded(evts(out@), MULT_BOUND as int * MULT_BOUND as int * MULT_BOUND as int),
        decreases s.len() - i,
    {
        let mut j: usize = 0;
        proof {
            assert(sp.take(0) =~= Seq::<Evt<Province>>::empty());
        }
        while j < ps.len()
            invariant
                j <= ps.len(),
                i < s.len(),
                evts(out@) == join_pair_province(ss.take(i as int), sp) + join_pair_province_one(
                    ss[i as int],
                    sp.take(j as int),
                ),
                mults_bounded(
                    evts(out@),
                    MULT_BOUND as int * MULT_BOUND as int * MULT_BOUND as int,
                ),
            decreases ps.len() - j,
        {
            proof {
                assert(sp.take(j as int + 1).drop_last() =~= sp.take(j as int));
                assert(sp.take(j as int + 1).last() == sp[j as int]);
            }
            if ps[j].val.pid == s[i].val.1.pid {
                proof {
                    assert(-(MULT_BOUND as int * MULT_BOUND as int * MULT_BOUND as int)
                        <= ss[i as int].mult * sp[j as int].mult
                        <= MULT_BOUND as int * MULT_BOUND as int * MULT_BOUND as int)
                        by (nonlinear_arith)
                        requires
                            -(MULT_BOUND as int * MULT_BOUND as int) <= ss[i as int].mult
                                <= MULT_BOUND as int * MULT_BOUND as int,
                            -(MULT_BOUND as int) <= sp[j as int].mult <= MULT_BOUND as int,
                    ;
                }
                let m: i64 = s[i].mult * ps[j].mult;
                let t: u64 = if s[i].time >= ps[j].time {
                    s[i].time
                } else {
                    ps[j].time
                };
                let c = Change {
                    val: (s[i].val.0, s[i].val.1, ps[j].val.duplicate()),
                    time: t,
                    mult: m,
                };
                proof {
                    lemma_evts_push(out@, c);
                    assert(join_pair_province(ss.take(i as int), sp) + join_pair_province_one(
                        ss[i as int],
                        sp.take(j as int),
                    ).push(c@) =~= (join_pair_province(ss.take(i as int), sp)
                        + join_pair_province_one(ss[i as int], sp.take(j as int))).push(c@));
                }
                out.push(c);
            }
            j += 1;
        }
        proof {
            assert(sp.take(ps@.len() as int) =~= sp);
            assert(ss.take(i as int + 1).drop_last() =~= ss.take(i as int));
            assert(ss.take(i as int + 1).last() == ss[i as int]);
        }
        i += 1;
    }
    proof {
        assert(ss.take(s@.len() as int) =~= ss);
    }
    out
}

/// The baseline three-way join: orders joined with users on `uid`, the result
/// joined with provinces on `pid`.
pub fn regular_join(
    order: &Vec<Change<Order>>,
    user: &Vec<Change<User>>,
    province: &Vec<Change<Province>>,
) -> (out: Vec<Change<(Order, User, Province)>>)
    requires
        mults_bounded(evts(order@), MULT_BOUND as int),
        mults_bounded(evts(user@), MULT_BOUND as int),
        mults_bounded(evts(province@), MULT_BOUND as int),
    ensures
        evts(out@) == regular_join_spec(evts(order@), evts(user@), evts(province@)),
        forall|o: Order, u: User, p: Province, q: int|
            #[trigger] weight_at(evts(out@), (o, u, p), q) == joined_weight(
                evts(order@),
                evts(user@),
                evts(province@),
                o,
                u,
                p,
                q,
            ),
{
    let inter = pairwise_join_order_user(order, user);
    let out = pairwise_join_pair_province(&inter, province);
    proof {
        assert forall|o: Order, u: User, p: Province, q: int|
            #[trigger] weight_at(evts(out@), (o, u, p), q) == joined_weight(
                evts(order@),
                evts(user@),
                evts(province@),
                o,
                u,
                p,
                q,
            ) by {
            theorem_regular_join_correct(
                evts(order@),
                evts(user@),
                evts(province@),
                o,
                u,
                p,
                q,
            );
        }
    }
    out
}

/// The baseline join written with its arrangements spelled out: each relation
/// is arranged by its join key and, in addition, the intermediate pairwise
/// result is materialized as an arrangement of its own before the second
/// join. Under this in-memory engine the intermediate is the bound vector;
/// the output is the same as `regular_join`'s.
pub fn regular_join_core(
    order: &Vec<Change<Order>>,
    user: &Vec<Change<User>>,
    province: &Vec<Change<Province>>,
) -> (out: Vec<Change<(Order, User, Province)>>)
    requires
        mults_bounded(evts(order@), MULT_BOUND as int),
        mults_bounded(evts(user@), MULT_BOUND as int),
        mults_bounded(evts(province@), MULT_BOUND as int),
    ensures
        evts(out@) == regular_join_spec(evts(order@), evts(user@), evts(province@)),
        forall|o: Order, u: User, p: Province, q: int|
            #[trigger] weight_at(evts(out@), (o, u, p), q) == joined_weight(
                evts(order@),
                evts(user@),
                evts(province@),
                o,
                u,
                p,
                q,
            ),
{
    let intermediate: Vec<Change<(Order, User)>> = pairwise_join_order_user(order, user);
    let out = pairwise_join_pair_province(&intermediate, province);
    proof {
        assert forall|o: Order, u: User, p: Province, q: int|
            #[trigger] weight_at(evts(out@), (o, u, p), q) == joined_weight(
                evts(order@),
                evts(user@),
                evts(province@),
                o,
                u,
                p,
                q,
            ) by {
            theorem_regular_join_correct(
                evts(order@),
                evts(user@),
                evts(province@),
                o,
                u,
                p,
                q,
            );
        }
    }
    out
}

} // verus!
