//! The half-join primitive, instantiated for every step of the delta paths.
//!
//! A half-join takes one relation's change stream and another relation's
//! arrangement (here: its full change vector, scanned as an index), keeps the
//! matches admitted by the visibility rule, and emits the combined value at
//! the stream event's own time with the product of the two multiplicities.
//! Each public function below is one edge of a delta path; its contract pins
//! the emitted sequence exactly, and bounds on the multiplicities keep every
//! product within `i64`.

use vstd::prelude::*;

use crate::change::Change;
use crate::change::Evt;
use crate::change::MULT_BOUND;
use crate::change::evts;
use crate::change::lemma_evts_push;
use crate::change::mults_bounded;
use crate::records::Order;
use crate::records::Pid;
use crate::records::Province;
use crate::records::Uid;
use crate::records::User;
use crate::visibility::Rel;
use crate::visibility::visible;
use crate::visibility::visible_spec;

verus! {

/// Matches of one order change against the user arrangement.
pub open spec fn hj_order_user_one(co: Evt<Order>, us: Seq<Evt<User>>) -> Seq<Evt<(Order, User)>>
    decreases us.len(),
{
    if us.len() == 0 {
        Seq::empty()
    } else {
        let rest = hj_order_user_one(co, us.drop_last());
        let cu = us.last();
        if cu.val.uid == co.val.uid && visible_spec(Rel::Orders, Rel::Users, cu.time, co.time) {
            rest.push(Evt { val: (co.val, cu.val), time: co.time, mult: co.mult * cu.mult })
        } else {
            rest
        }
    }
}

/// First step of the order path: each order change probes the user
/// arrangement, ties invisible.
pub open spec fn hj_order_user(os: Seq<Evt<Order>>, us: Seq<Evt<User>>) -> Seq<Evt<(Order, User)>>
    decreases os.len(),
{
    if os.len() == 0 {
        Seq::empty()
    } else {
        hj_order_user(os.drop_last(), us) + hj_order_user_one(os.last(), us)
    }
}

/// Half-join of the order change stream against the user arrangement keyed by
/// `uid`; an order's change must not see a user update of the same time.
#[verifier::loop_isolation(false)]
pub fn half_join_order_user(os: &Vec<Change<Order>>, us: &Vec<Change<User>>) -> (out: Vec<
    Change<(Order, User)>,
>)
    requires
        mults_bounded(evts(os@), MULT_BOUND as int),
        mults_bounded(evts(us@), MULT_BOUND as int),
    ensures
        evts(out@) == hj_order_user(evts(os@), evts(us@)),
        mults_bounded(evts(out@), MULT_BOUND as int * MULT_BOUND as int),
{
    let ghost so = evts(os@);
    let ghost su = evts(us@);
    let mut out: Vec<Change<(Order, User)>> = Vec::new();
    proof {
        assert(so.take(0) =~= Seq::<Evt<Order>>::empty());
        assert(evts(out@) =~= Seq::<Evt<(Order, User)>>::empty());
    }
    let mut i: usize = 0;
    while i < os.len()
        invariant
            i <= os.len(),
            evts(out@) == hj_order_user(so.take(i as int), su),
            mults_bounded(evts(out@), MULT_BOUND as int * MULT_BOUND as int),
        decreases os.len() - i,
    {
        let mut j: usize = 0;
        proof {
            assert(su.take(0) =~= Seq::<Evt<User>>::empty());
        }
        while j < us.len()
            invariant
                j <= us.len(),
                i < os.len(),
                evts(out@) == hj_order_user(so.take(i as int), su) + hj_order_user_one(
                    so[i as int],
                    su.take(j as int),
                ),
                mults_bounded(evts(out@), MULT_BOUND as int * MULT_BOUND as int),
            decreases us.len() - j,
        {
            proof {
                assert(su.take(j as int + 1).drop_last() =~= su.take(j as int));
                assert(su.take(j as int + 1).last() == su[j as int]);
            }
            if us[j].val.uid == os[i].val.uid && visible(Rel::Orders, Rel::Users, us[j].time, os[i].time) {
                proof {
                    assert(-(MULT_BOUND as int * MULT_BOUND as int) <= so[i as int].mult * su[j as int].mult
                        <= MULT_BOUND as int * MULT_BOUND as int) by (nonlinear_arith)
                        requires
                            -(MULT_BOUND as int) <= so[i as int].mult <= MULT_BOUND as int,
                            -(MULT_BOUND as int) <= su[j as int].mult <= MULT_BOUND as int,
                    ;
                }
                let m: i64 = os[i].mult * us[j].mult;
                let c = Change { val: (os[i].val, us[j].val), time: os[i].time, mult: m };
                proof {
                    lemma_evts_push(out@, c);
                    assert(hj_order_user(so.take(i as int), su) + hj_order_user_one(
                        so[i as int],
                        su.take(j as int),
                    ).push(c@) =~= (hj_order_user(so.take(i as int), su) + hj_order_user_one(
                        so[i as int],
                        su.take(j as int),
                    )).push(c@));
                }
                out.push(c);
            }
            j += 1;
        }
        proof {
            assert(su.take(us@.len() as int) =~= su);
            assert(so.take(i as int + 1).drop_last() =~= so.take(i as int));
            assert(so.take(i as int + 1).last() == so[i as int]);
        }
        i += 1;
    }
    proof {
        assert(so.take(os@.len() as int) =~= so);
    }
    out
}

} // verus!

verus! {

/// Matches of one combined `(order, user)` change against the province
/// arrangement.
pub open spec fn hj_pair_province_one(
    stream_rel: Rel,
    e: Evt<(Order, User)>,
    ps: Seq<Evt<Province>>,
) -> Seq<Evt<(Order, User, Province)>>
    decreases ps.len(),
{
    if ps.len() == 0 {
        Seq::empty()
    } else {
        let rest = hj_pair_province_one(stream_rel, e, ps.drop_last());
        let cp = ps.last();
        if cp.val.pid == e.val.1.pid && visible_spec(stream_rel, Rel::Provinces, cp.time, e.time) {
            rest.push(
                Evt { val: (e.val.0, e.val.1, cp.val), time: e.time, mult: e.mult * cp.mult },
            )
        } else {
            rest
        }
    }
}

/// Second step of the order and user paths: the partial `(order, user)`
/// stream probes the province arrangement.
pub open spec fn hj_pair_province(
    stream_rel: Rel,
    s: Seq<Evt<(Order, User)>>,
    ps: Seq<Evt<Province>>,
) -> Seq<Evt<(Order, User, Province)>>
    decreases s.len(),
{
    if s.len() == 0 {
        Seq::empty()
    } else {
        hj_pair_province(stream_rel, s.drop_last(), ps) + hj_pair_province_one(
            stream_rel,
            s.last(),
            ps,
        )
    }
}

/// Half-join of a partial `(order, user)` change stream against the province
/// arrangement keyed by `pid`. `stream_rel` names the relation whose changes
/// originated the stream; it decides visibility at ties.
#[verifier::loop_isolation(false)]
pub fn half_join_pair_province(
    stream_rel: Rel,
    s: &Vec<Change<(Order, User)>>,
    ps: &Vec<Change<Province>>,
) -> (out: Vec<Change<(Order, User, Province)>>)
    requires
        mults_bounded(evts(s@), MULT_BOUND as int * MULT_BOUND as int),
        mults_bounded(evts(ps@), MULT_BOUND as int),
    ensures
        evts(out@) == hj_pair_province(stream_rel, evts(s@), evts(ps@)),
        mults_bounded(evts(out@), MULT_BOUND as int * MULT_BOUND as int * MULT_BOUND as int),
{
    let ghost ss = evts(s@);
    let ghost sp = evts(ps@);
    let mut out: Vec<Change<(Order, User, Province)>> = Vec::new();
    proof {
        assert(ss.take(0) =~= Seq::<Evt<(Order, User)>>::empty());
        assert(evts(out@) =~= Seq::<Evt<(Order, User, Province)>>::empty());
    }
    let mut i: usize = 0;
    while i < s.len()
        invariant
            i <= s.len(),
            evts(out@) == hj_pair_province(stream_rel, ss.take(i as int), sp),
            mults_bounded(evts(out@), MULT_BOUND as int * MULT_BOUND as int * MULT_BOUND as int),
        decreases s.len() - i,
    {
        let mut j: usize = 0;
        proof {
            assert(sp.take(0) =~= Seq::<Evt<Province>>::empty());
        }
        while j < ps.len()
            invariant
                j <= ps.len(),
                i < s.len(),
                evts(out@) == hj_pair_province(stream_rel, ss.take(i as int), sp)
                    + hj_pair_province_one(stream_rel, ss[i as int], sp.take(j as int)),
                mults_bounded(
                    evts(out@),
                    MULT_BOUND as int * MULT_BOUND as int * MULT_BOUND as int,
                ),
            decreases ps.len() - j,
        {
            proof {
                assert(sp.take(j as int + 1).drop_last() =~= sp.take(j as int));
                assert(sp.take(j as int + 1).last() == sp[j as int]);
            }
            if ps[j].val.pid == s[i].val.1.pid && visible(stream_rel, Rel::Provinces, ps[j].time, s[i].time) {
                proof {
                    assert(-(MULT_BOUND as int * MULT_BOUND as int * MULT_BOUND as int)
                        <= ss[i as int].mult * sp[j as int].mult
                        <= MULT_BOUND as int * MULT_BOUND as int * MULT_BOUND as int)
                        by (nonlinear_arith)
                        requires
                            -(MULT_BOUND as int * MULT_BOUND as int) <= ss[i as int].mult
                                <= MULT_BOUND as int * MULT_BOUND as int,
                            -(MULT_BOUND as int) <= sp[j as int].mult <= MULT_BOUND as int,
                    ;
                }
                let m: i64 = s[i].mult * ps[j].mult;
                let c = Change {
                    val: (s[i].val.0, s[i].val.1, ps[j].val.duplicate()),
                    time: s[i].time,
                    mult: m,
                };
                proof {
                    lemma_evts_push(out@, c);
                    assert(hj_pair_province(stream_rel, ss.take(i as int), sp)
                        + hj_pair_province_one(stream_rel, ss[i as int], sp.take(j as int)).push(c@)
                        =~= (hj_pair_province(stream_rel, ss.take(i as int), sp)
                        + hj_pair_province_one(stream_rel, ss[i as int], sp.take(j as int))).push(
                        c@,
                    ));
                }
                out.push(c);
            }
            j += 1;
        }
        proof {
            assert(sp.take(ps@.len() as int) =~= sp);
            assert(ss.take(i as int + 1).drop_last() =~= ss.take(i as int));
            assert(ss.take(i as int + 1).last() == ss[i as int]);
        }
        i += 1;
    }
    proof {
        assert(ss.take(s@.len() as int) =~= ss);
    }
    out
}

} // verus!

verus! {

/// Matches of one user change against the order arrangement.
pub open spec fn hj_user_order_one(cu: Evt<User>, os: Seq<Evt<Order>>) -> Seq<Evt<(Order, User)>>
    decreases os.len(),
{
    if os.len() == 0 {
        Seq::empty()
    } else {
        let rest = hj_user_order_one(cu, os.drop_last());
        let co = os.last();
        if co.val.uid == cu.val.uid && visible_spec(Rel::Users, Rel::Orders, co.time, cu.time) {
            rest.push(Evt { val: (co.val, cu.val), time: cu.time, mult: cu.mult * co.mult })
        } else {
            rest
        }
    }
}

/// First step of the user path: each user change probes the order
/// arrangement, ties visible.
pub open spec fn hj_user_order(us: Seq<Evt<User>>, os: Seq<Evt<Order>>) -> Seq<Evt<(Order, User)>>
    decreases us.len(),
{
    if us.len() == 0 {
        Seq::empty()
    } else {
        hj_user_order(us.drop_last(), os) + hj_user_order_one(us.last(), os)
    }
}

/// Half-join of the user change stream against the order arrangement keyed by
/// `uid`; a user's change does see an order update of the same time.
#[verifier::loop_isolation(false)]
pub fn half_join_user_order(us: &Vec<Change<User>>, os: &Vec<Change<Order>>) -> (out: Vec<
    Change<(Order, User)>,
>)
    requires
        mults_bounded(evts(us@), MULT_BOUND as int),
        mults_bounded(evts(os@), MULT_BOUND as int),
    ensures
        evts(out@) == hj_user_order(evts(us@), evts(os@)),
        mults_bounded(evts(out@), MULT_BOUND as int * MULT_BOUND as int),
{
    let ghost su = evts(us@);
    let ghost so = evts(os@);
    let mut out: Vec<Change<(Order, User)>> = Vec::new();
    proof {
        assert(su.take(0) =~= Seq::<Evt<User>>::empty());
        assert(evts(out@) =~= Seq::<Evt<(Order, User)>>::empty());
    }
    let mut i: usize = 0;
    while i < us.len()
        invariant
            i <= us.len(),
            evts(out@) == hj_user_order(su.take(i as int), so),
            mults_bounded(evts(out@), MULT_BOUND as int * MULT_BOUND as int),
        decreases us.len() - i,
    {
        let mut j: usize = 0;
        proof {
            assert(so.take(0) =~= Seq::<Evt<Order>>::empty());
        }
        while j < os.len()
            invariant
                j <= os.len(),
                i < us.len(),
                evts(out@) == hj_user_order(su.take(i as int), so) + hj_user_order_one(
                    su[i as int],
                    so.take(j as int),
                ),
                mults_bounded(evts(out@), MULT_BOUND as int * MULT_BOUND as int),
            decreases os.len() - j,
        {
            proof {
                assert(so.take(j as int + 1).drop_last() =~= so.take(j as int));
                assert(so.take(j as int + 1).last() == so[j as int]);
            }
            if os[j].val.uid == us[i].val.uid && visible(Rel::Users, Rel::Orders, os[j].time, us[i].time) {
                proof {
                    assert(-(MULT_BOUND as int * MULT_BOUND as int) <= su[i as int].mult * so[j as int].mult
                        <= MULT_BOUND as int * MULT_BOUND as int) by (nonlinear_arith)
                        requires
                            -(MULT_BOUND as int) <= su[i as int].mult <= MULT_BOUND as int,
                            -(MULT_BOUND as int) <= so[j as int].mult <= MULT_BOUND as int,
                    ;
                }
                let m: i64 = us[i].mult * os[j].mult;
                let c = Change { val: (os[j].val, us[i].val), time: us[i].time, mult: m };
                proof {
                    lemma_evts_push(out@, c);
                    assert(hj_user_order(su.take(i as int), so) + hj_user_order_one(
                        su[i as int],
                        so.take(j as int),
                    ).push(c@) =~= (hj_user_order(su.take(i as int), so) + hj_user_order_one(
                        su[i as int],
                        so.take(j as int),
                    )).push(c@));
                }
                out.push(c);
            }
            j += 1;
        }
        proof {
            assert(so.take(os@.len() as int) =~= so);
            assert(su.take(i as int + 1).drop_last() =~= su.take(i as int));
            assert(su.take(i as int + 1).last() == su[i as int]);
        }
        i += 1;
    }
    proof {
        assert(su.take(us@.len() as int) =~= su);
    }
    out
}

/// Matches of one province change against the user arrangement keyed by `pid`.
pub open spec fn hj_province_user_one(cp: Evt<Province>, us: Seq<Evt<User>>) -> Seq<
    Evt<(User, Province)>,
>
    decreases us.len(),
{
    if us.len() == 0 {
        Seq::empty()
    } else {
        let rest = hj_province_user_one(cp, us.drop_last());
        let cu = us.last();
        if cu.val.pid == cp.val.pid && visible_spec(Rel::Provinces, Rel::Users, cu.time, cp.time) {
            rest.push(Evt { val: (cu.val, cp.val), time: cp.time, mult: cp.mult * cu.mult })
        } else {
            rest
        }
    }
}

/// First step of the province path: each province change probes the user
/// arrangement keyed by `pid`, ties visible.
pub open spec fn hj_province_user(ps: Seq<Evt<Province>>, us: Seq<Evt<User>>) -> Seq<
    Evt<(User, Province)>,
>
    decreases ps.len(),
{
    if ps.len() == 0 {
        Seq::empty()
    } else {
        hj_province_user(ps.drop_last(), us) + hj_province_user_one(ps.last(), us)
    }
}

/// Half-join of the province change stream against the user arrangement keyed
/// by `pid`; a province's change does see a user update of the same time.
#[verifier::loop_isolation(false)]
pub fn half_join_province_user(ps: &Vec<Change<Province>>, us: &Vec<Change<User>>) -> (out: Vec<
    Change<(User, Province)>,
>)
    requires
        mults_bounded(evts(ps@), MULT_BOUND as int),
        mults_bounded(evts(us@), MULT_BOUND as int),
    ensures
        evts(out@) == hj_province_user(evts(ps@), evts(us@)),
        mults_bounded(evts(out@), MULT_BOUND as int * MULT_BOUND as int),
{
    let ghost sp = evts(ps@);
    let ghost su = evts(us@);
    let mut out: Vec<Change<(User, Province)>> = Vec::new();
    proof {
        assert(sp.take(0) =~= Seq::<Evt<Province>>::empty());
        assert(evts(out@) =~= Seq::<Evt<(User, Province)>>::empty());
    }
    let mut i: usize = 0;
    while i < ps.len()
        invariant
            i <= ps.len(),
            evts(out@) == hj_province_user(sp.take(i as int), su),
            mults_bounded(evts(out@), MULT_BOUND as int * MULT_BOUND as int),
        decreases ps.len() - i,
    {
        let mut j: usize = 0;
        proof {
            assert(su.take(0) =~= Seq::<Evt<User>>::empty());
        }
        while j < us.len()
            invariant
                j <= us.len(),
                i < ps.len(),
                evts(out@) == hj_province_user(sp.take(i as int), su) + hj_province_user_one(
                    sp[i as int],
                    su.take(j as int),
                ),
                mults_bounded(evts(out@), MULT_BOUND as int * MULT_BOUND as int),
            decreases us.len() - j,
        {
            proof {
                assert(su.take(j as int + 1).drop_last() =~= su.take(j as int));
                assert(su.take(j as int + 1).last() == su[j as int]);
            }
            if us[j].val.pid == ps[i].val.pid && visible(Rel::Provinces, Rel::Users, us[j].time, ps[i].time) {
                proof {
                    assert(-(MULT_BOUND as int * MULT_BOUND as int) <= sp[i as int].mult * su[j as int].mult
                        <= MULT_BOUND as int * MULT_BOUND as int) by (nonlinear_arith)
                        requires
                            -(MULT_BOUND as int) <= sp[i as int].mult <= MULT_BOUND as int,
                            -(MULT_BOUND as int) <= su[j as int].mult <= MULT_BOUND as int,
                    ;
                }
                let m: i64 = ps[i].mult * us[j].mult;
                let c = Change {
                    val: (us[j].val, ps[i].val.duplicate()),
                    time: ps[i].time,
                    mult: m,
                };
                proof {
                    lemma_evts_push(out@, c);
                    assert(hj_province_user(sp.take(i as int), su) + hj_province_user_one(
                        sp[i as int],
                        su.take(j as int),
                    ).push(c@) =~= (hj_province_user(sp.take(i as int), su) + hj_province_user_one(
                        sp[i as int],
                        su.take(j as int),
                    )).push(c@));
                }
                out.push(c);
            }
            j += 1;
        }
        proof {
            assert(su.take(us@.len() as int) =~= su);
            assert(sp.take(i as int + 1).drop_last() =~= sp.take(i as int));
            assert(sp.take(i as int + 1).last() == sp[i as int]);
        }
        i += 1;
    }
    proof {
        assert(sp.take(ps@.len() as int) =~= sp);
    }
    out
}

/// Matches of one combined `(user, province)` change against the order
/// arrangement.
pub open spec fn hj_userprov_order_one(e: Evt<(User, Province)>, os: Seq<Evt<Order>>) -> Seq<
    Evt<(Order, User, Province)>,
>
    decreases os.len(),
{
    if os.len() == 0 {
        Seq::empty()
    } else {
        let rest = hj_userprov_order_one(e, os.drop_last());
        let co = os.last();
        if co.val.uid == e.val.0.uid && visible_spec(Rel::Provinces, Rel::Orders, co.time, e.time) {
            rest.push(
                Evt { val: (co.val, e.val.0, e.val.1), time: e.time, mult: e.mult * co.mult },
            )
        } else {
            rest
        }
    }
}

/// Final step of the province path: the partial `(user, province)` stream
/// probes the order arrangement, ties visible.
pub open spec fn hj_userprov_order(s: Seq<Evt<(User, Province)>>, os: Seq<Evt<Order>>) -> Seq<
    Evt<(Order, User, Province)>,
>
    decreases s.len(),
{
    if s.len() == 0 {
        Seq::empty()
    } else {
        hj_userprov_order(s.drop_last(), os) + hj_userprov_order_one(s.last(), os)
    }
}

/// Half-join of a partial `(user, province)` change stream (originating from
/// province changes) against the order arrangement keyed by `uid`.
#[verifier::loop_isolation(false)]
pub fn half_join_userprov_order(s: &Vec<Change<(User, Province)>>, os: &Vec<Change<Order>>) -> (out:
    Vec<Change<(Order, User, Province)>>)
    requires
        mults_bounded(evts(s@), MULT_BOUND as int * MULT_BOUND as int * MULT_BOUND as int),
        mults_bounded(evts(os@), MULT_BOUND as int),
    ensures
        evts(out@) == hj_userprov_order(evts(s@), evts(os@)),
        mults_bounded(
            evts(out@),
            MULT_BOUND as int * MULT_BOUND as int * MULT_BOUND as int * MULT_BOUND as int,
        ),
{
    let ghost ss = evts(s@);
    let ghost so = evts(os@);
    let mut out: Vec<Change<(Order, User, Province)>> = Vec::new();
    proof {
        assert(ss.take(0) =~= Seq::<Evt<(User, Province)>>::empty());
        assert(evts(out@) =~= Seq::<Evt<(Order, User, Province)>>::empty());
    }
    let mut i: usize = 0;
    while i < s.len()
        invariant
            i <= s.len(),
            evts(out@) == hj_userprov_order(ss.take(i as int), so),
            mults_bounded(
                evts(out@),
                MULT_BOUND as int * MULT_BOUND as int * MULT_BOUND as int * MULT_BOUND as int,
            ),
        decreases s.len() - i,
    {
        let mut j: usize = 0;
        proof {
            assert(so.take(0) =~= Seq::<Evt<Order>>::empty());
        }
        while j < os.len()
            invariant
                j <= os.len(),
                i < s.len(),
                evts(out@) == hj_userprov_order(ss.take(i as int), so) + hj_userprov_order_one(
                    ss[i as int],
                    so.take(j as int),
                ),
                mults_bounded(
                    evts(out@),
                    MULT_BOUND as int * MULT_BOUND as int * MULT_BOUND as int * MULT_BOUND as int,
                ),
            decreases os.len() - j,
        {
            proof {
                assert(so.take(j as int + 1).drop_last() =~= so.take(j as int));
                assert(so.take(j as int + 1).last() == so[j as int]);
            }
            if os[j].val.uid == s[i].val.0.uid && visible(Rel::Provinces, Rel::Orders, os[j].time, s[i].time) {
                proof {
                    assert(-(MULT_BOUND as int * MULT_BOUND as int * MULT_BOUND as int
                        * MULT_BOUND as int) <= ss[i as int].mult * so[j as int].mult
                        <= MULT_BOUND as int * MULT_BOUND as int * MULT_BOUND as int
                        * MULT_BOUND as int) by (nonlinear_arith)
                        requires
                            -(MULT_BOUND as int * MULT_BOUND as int * MULT_BOUND as int)
                                <= ss[i as int].mult
                                <= MULT_BOUND as int * MULT_BOUND as int * MULT_BOUND as int,
                            -(MULT_BOUND as int) <= so[j as int].mult <= MULT_BOUND as int,
                    ;
                }
                let m: i64 = s[i].mult * os[j].mult;
                let c = Change {
                    val: (os[j].val, s[i].val.0, s[i].val.1.duplicate()),
                    time: s[i].time,
                    mult: m,
                };
                proof {
                    lemma_evts_push(out@, c);
                    assert(hj_userprov_order(ss.take(i as int), so) + hj_userprov_order_one(
                        ss[i as int],
                        so.take(j as int),
                    ).push(c@) =~= (hj_userprov_order(ss.take(i as int), so)
                        + hj_userprov_order_one(ss[i as int], so.take(j as int))).push(c@));
                }
                out.push(c);
            }
            j += 1;
        }
        proof {
            assert(so.take(os@.len() as int) =~= so);
            assert(ss.take(i as int + 1).drop_last() =~= ss.take(i as int));
            assert(ss.take(i as int + 1).last() == ss[i as int]);
        }
        i += 1;
    }
    proof {
        assert(ss.take(s@.len() as int) =~= ss);
    }
    out
}

} // verus!

verus! {

/// What the key-only secondary index of the user relation holds: for every
/// user change, the pair of its secondary key `pid` and its primary key
/// `uid`, at the same time and multiplicity. Its per-entry footprint is two
/// keys, independent of the user relation's non-key columns.
pub open spec fn secondary_index_spec(us: Seq<Evt<User>>) -> Seq<Evt<(Pid, Uid)>> {
    us.map_values(
        |e: Evt<User>| Evt { val: (e.val.pid, e.val.uid), time: e.time, mult: e.mult },
    )
}

/// Builds the late-materialization secondary index of the user relation:
/// keyed by `pid`, holding only the primary key `uid` instead of the record.
#[verifier::loop_isolation(false)]
pub fn user_secondary_index(us: &Vec<Change<User>>) -> (out: Vec<Change<(Pid, Uid)>>)
    ensures
        evts(out@) == secondary_index_spec(evts(us@)),
        mults_bounded(evts(us@), MULT_BOUND as int) ==> mults_bounded(
            evts(out@),
            MULT_BOUND as int,
        ),
{
    let ghost su = evts(us@);
    let mut out: Vec<Change<(Pid, Uid)>> = Vec::new();
    proof {
        assert(evts(out@) =~= secondary_index_spec(su.take(0)));
    }
    let mut i: usize = 0;
    while i < us.len()
        invariant
            i <= us.len(),
            evts(out@) == secondary_index_spec(su.take(i as int)),
        decreases us.len() - i,
    {
        let c = Change {
            val: (us[i].val.pid, us[i].val.uid),
            time: us[i].time,
            mult: us[i].mult,
        };
        proof {
            lemma_evts_push(out@, c);
            assert(secondary_index_spec(su.take(i as int)).push(c@) =~= secondary_index_spec(
                su.take(i as int + 1),
            ));
        }
        out.push(c);
        i += 1;
    }
    proof {
        assert(su.take(us@.len() as int) =~= su);
        if mults_bounded(su, MULT_BOUND as int) {
            assert forall|k: int| 0 <= k < secondary_index_spec(su).len() implies -(
            MULT_BOUND as int) <= (#[trigger] secondary_index_spec(su)[k]).mult
                && secondary_index_spec(su)[k].mult <= MULT_BOUND as int by {
                assert(su[k].mult == secondary_index_spec(su)[k].mult);
            }
        }
    }
    out
}

/// Matches of one province change against the key-only secondary index.
pub open spec fn hj_province_secondary_one(cp: Evt<Province>, sec: Seq<Evt<(Pid, Uid)>>) -> Seq<
    Evt<(Uid, Province)>,
>
    decreases sec.len(),
{
    if sec.len() == 0 {
        Seq::empty()
    } else {
        let rest = hj_province_secondary_one(cp, sec.drop_last());
        let cs = sec.last();
        if cs.val.0 == cp.val.pid && visible_spec(Rel::Provinces, Rel::Users, cs.time, cp.time) {
            rest.push(Evt { val: (cs.val.1, cp.val), time: cp.time, mult: cp.mult * cs.mult })
        } else {
            rest
        }
    }
}

/// First step of the late-materialization province path: each province change
/// probes the key-only secondary user index, ties visible.
pub open spec fn hj_province_secondary(ps: Seq<Evt<Province>>, sec: Seq<Evt<(Pid, Uid)>>) -> Seq<
    Evt<(Uid, Province)>,
>
    decreases ps.len(),
{
    if ps.len() == 0 {
        Seq::empty()
    } else {
        hj_province_secondary(ps.drop_last(), sec) + hj_province_secondary_one(ps.last(), sec)
    }
}

/// Half-join of the province change stream against the key-only secondary
/// user index keyed by `pid`; it resolves to primary keys only.
#[verifier::loop_isolation(false)]
pub fn half_join_province_secondary(ps: &Vec<Change<Province>>, sec: &Vec<Change<(Pid, Uid)>>) -> (
    out: Vec<Change<(Uid, Province)>>)
    requires
        mults_bounded(evts(ps@), MULT_BOUND as int),
        mults_bounded(evts(sec@), MULT_BOUND as int),
    ensures
        evts(out@) == hj_province_secondary(evts(ps@), evts(sec@)),
        mults_bounded(evts(out@), MULT_BOUND as int * MULT_BOUND as int),
{
    let ghost sp = evts(ps@);
    let ghost sx = evts(sec@);
    let mut out: Vec<Change<(Uid, Province)>> = Vec::new();
    proof {
        assert(sp.take(0) =~= Seq::<Evt<Province>>::empty());
        assert(evts(out@) =~= Seq::<Evt<(Uid, Province)>>::empty());
    }
    let mut i: usize = 0;
    while i < ps.len()
        invariant
            i <= ps.len(),
            evts(out@) == hj_province_secondary(sp.take(i as int), sx),
            mults_bounded(evts(out@), MULT_BOUND as int * MULT_BOUND as int),
        decreases ps.len() - i,
    {
        let mut j: usize = 0;
        proof {
            assert(sx.take(0) =~= Seq::<Evt<(Pid, Uid)>>::empty());
        }
        while j < sec.len()
            invariant
                j <= sec.len(),
                i < ps.len(),
                evts(out@) == hj_province_secondary(sp.take(i as int), sx)
                    + hj_province_secondary_one(sp[i as int], sx.take(j as int)),
                mults_bounded(evts(out@), MULT_BOUND as int * MULT_BOUND as int),
            decreases sec.len() - j,
        {
            proof {
                assert(sx.take(j as int + 1).drop_last() =~= sx.take(j as int));
                assert(sx.take(j as int + 1).last() == sx[j as int]);
            }
            if sec[j].val.0 == ps[i].val.pid && visible(Rel::Provinces, Rel::Users, sec[j].time, ps[i].time) {
                proof {
                    assert(-(MULT_BOUND as int * MULT_BOUND as int) <= sp[i as int].mult * sx[j as int].mult
                        <= MULT_BOUND as int * MULT_BOUND as int) by (nonlinear_arith)
                        requires
                            -(MULT_BOUND as int) <= sp[i as int].mult <= MULT_BOUND as int,
                            -(MULT_BOUND as int) <= sx[j as int].mult <= MULT_BOUND as int,
                    ;
                }
                let m: i64 = ps[i].mult * sec[j].mult;
                let c = Change {
                    val: (sec[j].val.1, ps[i].val.duplicate()),
                    time: ps[i].time,
                    mult: m,
                };
                proof {
                    lemma_evts_push(out@, c);
                    assert(hj_province_secondary(sp.take(i as int), sx) + hj_province_secondary_one(
                        sp[i as int],
                        sx.take(j as int),
                    ).push(c@) =~= (hj_province_secondary(sp.take(i as int), sx)
                        + hj_province_secondary_one(sp[i as int], sx.take(j as int))).push(c@));
                }
                out.push(c);
            }
            j += 1;
        }
        proof {
            assert(sx.take(sec@.len() as int) =~= sx);
            assert(sp.take(i as int + 1).drop_last() =~= sp.take(i as int));
            assert(sp.take(i as int + 1).last() == sp[i as int]);
        }
        i += 1;
    }
    proof {
        assert(sp.take(ps@.len() as int) =~= sp);
    }
    out
}

/// Matches of one `(uid, province)` change against the primary user
/// arrangement: the extra resolution step of late materialization.
pub open spec fn hj_uidprov_user_one(e: Evt<(Uid, Province)>, us: Seq<Evt<User>>) -> Seq<
    Evt<(User, Province)>,
>
    decreases us.len(),
{
    if us.len() == 0 {
        Seq::empty()
    } else {
        let rest = hj_uidprov_user_one(e, us.drop_last());
        let cu = us.last();
        if cu.val.uid == e.val.0 && visible_spec(Rel::Provinces, Rel::Users, cu.time, e.time) {
            rest.push(Evt { val: (cu.val, e.val.1), time: e.time, mult: e.mult * cu.mult })
        } else {
            rest
        }
    }
}

/// The resolution step: a `(uid, province)` stream (originating from province
/// changes) resolves the primary key into the full user record.
pub open spec fn hj_uidprov_user(s: Seq<Evt<(Uid, Province)>>, us: Seq<Evt<User>>) -> Seq<
    Evt<(User, Province)>,
>
    decreases s.len(),
{
    if s.len() == 0 {
        Seq::empty()
    } else {
        hj_uidprov_user(s.drop_last(), us) + hj_uidprov_user_one(s.last(), us)
    }
}

/// Half-join of a `(uid, province)` change stream against the primary user
/// arrangement keyed by `uid`: the record was already time-filtered when it
/// entered the secondary index, so ties stay visible.
#[verifier::loop_isolation(false)]
pub fn half_join_uidprov_user(s: &Vec<Change<(Uid, Province)>>, us: &Vec<Change<User>>) -> (out:
    Vec<Change<(User, Province)>>)
    requires
        mults_bounded(evts(s@), MULT_BOUND as int * MULT_BOUND as int),
        mults_bounded(evts(us@), MULT_BOUND as int),
    ensures
        evts(out@) == hj_uidprov_user(evts(s@), evts(us@)),
        mults_bounded(evts(out@), MULT_BOUND as int * MULT_BOUND as int * MULT_BOUND as int),
{
    let ghost ss = evts(s@);
    let ghost su = evts(us@);
    let mut out: Vec<Change<(User, Province)>> = Vec::new();
    proof {
        assert(ss.take(0) =~= Seq::<Evt<(Uid, Province)>>::empty());
        assert(evts(out@) =~= Seq::<Evt<(User, Province)>>::empty());
    }
    let mut i: usize = 0;
    while i < s.len()
        invariant
            i <= s.len(),
            evts(out@) == hj_uidprov_user(ss.take(i as int), su),
            mults_bounded(evts(out@), MULT_BOUND as int * MULT_BOUND as int * MULT_BOUND as int),
        decreases s.len() - i,
    {
        let mut j: usize = 0;
        proof {
            assert(su.take(0) =~= Seq::<Evt<User>>::empty());
        }
        while j < us.len()
            invariant
                j <= us.len(),
                i < s.len(),
                evts(out@) == hj_uidprov_user(ss.take(i as int), su) + hj_uidprov_user_one(
                    ss[i as int],
                    su.take(j as int),
                ),
                mults_bounded(
                    evts(out@),
                    MULT_BOUND as int * MULT_BOUND as int * MULT_BOUND as int,
                ),
            decreases us.len() - j,
        {
            proof {
                assert(su.take(j as int + 1).drop_last() =~= su.take(j as int));
                assert(su.take(j as int + 1).last() == su[j as int]);
            }
            if us[j].val.uid == s[i].val.0 && visible(Rel::Provinces, Rel::Users, us[j].time, s[i].time) {
                proof {
                    assert(-(MULT_BOUND as int * MULT_BOUND as int * MULT_BOUND as int)
                        <= ss[i as int].mult * su[j as int].mult
                        <= MULT_BOUND as int * MULT_BOUND as int * MULT_BOUND as int)
                        by (nonlinear_arith)
                        requires
                            -(MULT_BOUND as int * MULT_BOUND as int) <= ss[i as int].mult
                                <= MULT_BOUND as int * MULT_BOUND as int,
                            -(MULT_BOUND as int) <= su[j as int].mult <= MULT_BOUND as int,
                    ;
                }
                let m: i64 = s[i].mult * us[j].mult;
                let c = Change {
                    val: (us[j].val, s[i].val.1.duplicate()),
                    time: s[i].time,
                    mult: m,
                };
                proof {
                    lemma_evts_push(out@, c);
                    assert(hj_uidprov_user(ss.take(i as int), su) + hj_uidprov_user_one(
                        ss[i as int],
                        su.take(j as int),
                    ).push(c@) =~= (hj_uidprov_user(ss.take(i as int), su) + hj_uidprov_user_one(
                        ss[i as int],
                        su.take(j as int),
                    )).push(c@));
                }
                out.push(c);
            }
            j += 1;
        }
        proof {
            assert(su.take(us@.len() as int) =~= su);
            assert(ss.take(i as int + 1).drop_last() =~= ss.take(i as int));
            assert(ss.take(i as int + 1).last() == ss[i as int]);
        }
        i += 1;
    }
    proof {
        assert(ss.take(s@.len() as int) =~= ss);
    }
    out
}

} // verus!
