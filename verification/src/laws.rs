//! Correctness of the join constructions.
//!
//! The statements proved here: the output of the delta join, accumulated at
//! any time, equals the join of the three relations' states at that time
//! (and hence the baseline oracle's output); ties are counted exactly once;
//! a retraction cancels everything its insertion contributed; and the
//! late-materialization variant accumulates to the same result whenever the
//! user relation's primary key is consistent.
//!
//! The proofs work over per-path sums: for each relation, the sum over its
//! own change events of the event's multiplicity times the weights the other
//! two relations had when the event looked at them under the visibility rule.
//! The telescoping identity `lemma_delta_total` shows the three sums together
//! rebuild the full product of weights.

use vstd::prelude::*;

use crate::change::Evt;
use crate::change::imax;
use crate::change::lemma_weight_le_concat;
use crate::change::lemma_weight_le_push;
use crate::change::lemma_weight_le_split;
use crate::change::lemma_weight_void;
use crate::change::weight_between;
use crate::change::weight_le;
use crate::change::weight_at;
use crate::delta::delta_join_late_spec;
use crate::delta::delta_join_spec;
use crate::delta::order_path_spec;
use crate::delta::province_path_late_spec;
use crate::delta::province_path_spec;
use crate::delta::user_path_spec;
use crate::half_join::hj_order_user;
use crate::half_join::hj_order_user_one;
use crate::half_join::hj_pair_province;
use crate::half_join::hj_pair_province_one;
use crate::half_join::hj_province_secondary;
use crate::half_join::hj_province_secondary_one;
use crate::half_join::hj_province_user;
use crate::half_join::hj_province_user_one;
use crate::half_join::hj_uidprov_user;
use crate::half_join::hj_uidprov_user_one;
use crate::half_join::hj_userprov_order;
use crate::half_join::hj_userprov_order_one;
use crate::half_join::hj_user_order;
use crate::half_join::hj_user_order_one;
use crate::half_join::secondary_index_spec;
use crate::oracle::join_order_user;
use crate::oracle::join_order_user_one;
use crate::oracle::join_pair_province;
use crate::oracle::join_pair_province_one;
use crate::oracle::regular_join_spec;
use crate::visibility::Rel;
use crate::visibility::priority;
use crate::visibility::visible_spec;
use crate::records::Order;
use crate::records::Pid;
use crate::records::Uid;
use crate::records::Province;
use crate::records::User;

verus! {

/// The foreign-key chain connects the three records.
pub open spec fn keys_match(o: Order, u: User, p: Province) -> bool {
    o.uid == u.uid && u.pid == p.pid
}

/// The weight of the tuple `(o, u, p)` in the full join of the three
/// relations' states as of time `q`.
pub open spec fn joined_weight(
    os: Seq<Evt<Order>>,
    us: Seq<Evt<User>>,
    ps: Seq<Evt<Province>>,
    o: Order,
    u: User,
    p: Province,
    q: int,
) -> int {
    if keys_match(o, u, p) {
        weight_le(os, o, q) * weight_le(us, u, q) * weight_le(ps, p, q)
    } else {
        0
    }
}

/// What the order path contributes to the tuple `(o, u, p)` up to time `q`:
/// each order event sees the other relations strictly before its own time.
pub open spec fn order_path_sum(
    os: Seq<Evt<Order>>,
    us: Seq<Evt<User>>,
    ps: Seq<Evt<Province>>,
    o: Order,
    u: User,
    p: Province,
    q: int,
) -> int
    decreases os.len(),
{
    if os.len() == 0 {
        0
    } else {
        order_path_sum(os.drop_last(), us, ps, o, u, p, q) + {
            let c = os.last();
            if c.val == o && c.time <= q {
                c.mult * weight_le(us, u, c.time - 1) * weight_le(ps, p, c.time - 1)
            } else {
                0
            }
        }
    }
}

/// What the user path contributes: each user event sees orders up to its own
/// time (ties visible) and provinces strictly before.
pub open spec fn user_path_sum(
    os: Seq<Evt<Order>>,
    us: Seq<Evt<User>>,
    ps: Seq<Evt<Province>>,
    o: Order,
    u: User,
    p: Province,
    q: int,
) -> int
    decreases us.len(),
{
    if us.len() == 0 {
        0
    } else {
        user_path_sum(os, us.drop_last(), ps, o, u, p, q) + {
            let c = us.last();
            if c.val == u && c.time <= q {
                c.mult * weight_le(os, o, c.time) * weight_le(ps, p, c.time - 1)
            } else {
                0
            }
        }
    }
}

/// What the province path contributes: each province event sees both other
/// relations up to its own time, ties visible.
pub open spec fn province_path_sum(
    os: Seq<Evt<Order>>,
    us: Seq<Evt<User>>,
    ps: Seq<Evt<Province>>,
    o: Order,
    u: User,
    p: Province,
    q: int,
) -> int
    decreases ps.len(),
{
    if ps.len() == 0 {
        0
    } else {
        province_path_sum(os, us, ps.drop_last(), o, u, p, q) + {
            let c = ps.last();
            if c.val == p && c.time <= q {
                c.mult * weight_le(us, u, c.time) * weight_le(os, o, c.time)
            } else {
                0
            }
        }
    }
}

/// What the late-materialization province path contributes: the secondary
/// index supplies one extra factor, the accumulated weight of the key pair
/// `(p.pid, u.uid)`.
pub open spec fn province_path_late_sum(
    os: Seq<Evt<Order>>,
    us: Seq<Evt<User>>,
    ps: Seq<Evt<Province>>,
    o: Order,
    u: User,
    p: Province,
    q: int,
) -> int
    decreases ps.len(),
{
    if ps.len() == 0 {
        0
    } else {
        province_path_late_sum(os, us, ps.drop_last(), o, u, p, q) + {
            let c = ps.last();
            if c.val == p && c.time <= q {
                c.mult * weight_le(secondary_index_spec(us), (p.pid, u.uid), c.time) * weight_le(
                    us,
                    u,
                    c.time,
                ) * weight_le(os, o, c.time)
            } else {
                0
            }
        }
    }
}

/// Windowed user-path remainder: user events with times in `[lo, q]`, each
/// seeing provinces strictly before itself.
pub open spec fn user_window_sum(
    us: Seq<Evt<User>>,
    ps: Seq<Evt<Province>>,
    u: User,
    p: Province,
    lo: int,
    q: int,
) -> int
    decreases us.len(),
{
    if us.len() == 0 {
        0
    } else {
        user_window_sum(us.drop_last(), ps, u, p, lo, q) + {
            let c = us.last();
            if c.val == u && lo <= c.time && c.time <= q {
                c.mult * weight_le(ps, p, c.time - 1)
            } else {
                0
            }
        }
    }
}

/// Windowed province-path remainder: province events with times in `[lo, q]`,
/// each seeing users up to itself.
pub open spec fn province_window_sum(
    us: Seq<Evt<User>>,
    ps: Seq<Evt<Province>>,
    u: User,
    p: Province,
    lo: int,
    q: int,
) -> int
    decreases ps.len(),
{
    if ps.len() == 0 {
        0
    } else {
        province_window_sum(us, ps.drop_last(), u, p, lo, q) + {
            let c = ps.last();
            if c.val == p && lo <= c.time && c.time <= q {
                c.mult * weight_le(us, u, c.time)
            } else {
                0
            }
        }
    }
}

proof fn lemma_user_window_empty_ps(us: Seq<Evt<User>>, u: User, p: Province, lo: int, q: int)
    ensures
        user_window_sum(us, Seq::<Evt<Province>>::empty(), u, p, lo, q) == 0,
    decreases us.len(),
{
    if us.len() > 0 {
        lemma_user_window_empty_ps(us.drop_last(), u, p, lo, q);
    }
}

proof fn lemma_user_window_void(
    us: Seq<Evt<User>>,
    ps: Seq<Evt<Province>>,
    u: User,
    p: Province,
    lo: int,
    q: int,
)
    requires
        lo > q,
    ensures
        user_window_sum(us, ps, u, p, lo, q) == 0,
    decreases us.len(),
{
    if us.len() > 0 {
        lemma_user_window_void(us.drop_last(), ps, u, p, lo, q);
    }
}

proof fn lemma_province_window_void(
    us: Seq<Evt<User>>,
    ps: Seq<Evt<Province>>,
    u: User,
    p: Province,
    lo: int,
    q: int,
)
    requires
        lo > q,
    ensures
        province_window_sum(us, ps, u, p, lo, q) == 0,
    decreases ps.len(),
{
    if ps.len() > 0 {
        lemma_province_window_void(us, ps.drop_last(), u, p, lo, q);
    }
}

/// One more province event in the index raises the windowed user-path
/// remainder by the window of user events late enough to see it.
proof fn lemma_user_window_push_ps(
    us: Seq<Evt<User>>,
    ps: Seq<Evt<Province>>,
    cp: Evt<Province>,
    u: User,
    p: Province,
    lo: int,
    q: int,
)
    ensures
        user_window_sum(us, ps.push(cp), u, p, lo, q) == user_window_sum(us, ps, u, p, lo, q) + if cp.val
            == p {
            cp.mult * weight_between(us, u, imax(lo, cp.time + 1), q)
        } else {
            0
        },
    decreases us.len(),
{
    let m1 = imax(lo, cp.time + 1);
    if us.len() == 0 {
        assert(weight_between(us, u, m1, q) == 0);
        assert(cp.mult * 0 == 0) by (nonlinear_arith);
    } else {
        let c = us.last();
        let rest = us.drop_last();
        lemma_user_window_push_ps(rest, ps, cp, u, p, lo, q);
        lemma_weight_le_push(ps, cp, p, c.time - 1);
        if cp.val == p {
            let cwb: int = if c.val == u && m1 <= c.time && c.time <= q {
                c.mult
            } else {
                0
            };
            assert(weight_between(us, u, m1, q) == weight_between(rest, u, m1, q) + cwb);
            assert(cp.mult * (weight_between(rest, u, m1, q) + cwb) == cp.mult * weight_between(
                rest,
                u,
                m1,
                q,
            ) + cp.mult * cwb) by (nonlinear_arith);
            let d: int = if cp.time <= c.time - 1 {
                cp.mult
            } else {
                0
            };
            if c.val == u && lo <= c.time && c.time <= q {
                assert(c.mult * (weight_le(ps, p, c.time - 1) + d) == c.mult * weight_le(
                    ps,
                    p,
                    c.time - 1,
                ) + c.mult * d) by (nonlinear_arith);
                if cp.time <= c.time - 1 {
                    assert(m1 <= c.time);
                    assert(c.mult * cp.mult == cp.mult * c.mult) by (nonlinear_arith);
                } else {
                    assert(!(m1 <= c.time));
                    assert(c.mult * 0 == 0) by (nonlinear_arith);
                    assert(cp.mult * 0 == 0) by (nonlinear_arith);
                }
            } else {
                assert(cwb == 0);
                assert(cp.mult * 0 == 0) by (nonlinear_arith);
            }
        }
    }
}

/// One more user event raises the windowed province-path remainder by the
/// window of province events late enough to see it.
proof fn lemma_province_window_push_us(
    us: Seq<Evt<User>>,
    ps: Seq<Evt<Province>>,
    cu: Evt<User>,
    u: User,
    p: Province,
    lo: int,
    q: int,
)
    ensures
        province_window_sum(us.push(cu), ps, u, p, lo, q) == province_window_sum(
            us,
            ps,
            u,
            p,
            lo,
            q,
        ) + if cu.val == u {
            cu.mult * weight_between(ps, p, imax(lo, cu.time), q)
        } else {
            0
        },
    decreases ps.len(),
{
    let m1 = imax(lo, cu.time);
    if ps.len() == 0 {
        assert(weight_between(ps, p, m1, q) == 0);
        assert(cu.mult * 0 == 0) by (nonlinear_arith);
    } else {
        let c = ps.last();
        let rest = ps.drop_last();
        lemma_province_window_push_us(us, rest, cu, u, p, lo, q);
        lemma_weight_le_push(us, cu, u, c.time);
        if cu.val == u {
            let cwb: int = if c.val == p && m1 <= c.time && c.time <= q {
                c.mult
            } else {
                0
            };
            assert(weight_between(ps, p, m1, q) == weight_between(rest, p, m1, q) + cwb);
            assert(cu.mult * (weight_between(rest, p, m1, q) + cwb) == cu.mult * weight_between(
                rest,
                p,
                m1,
                q,
            ) + cu.mult * cwb) by (nonlinear_arith);
            let d: int = if cu.time <= c.time {
                cu.mult
            } else {
                0
            };
            if c.val == p && lo <= c.time && c.time <= q {
                assert(c.mult * (weight_le(us, u, c.time) + d) == c.mult * weight_le(us, u, c.time)
                    + c.mult * d) by (nonlinear_arith);
                if cu.time <= c.time {
                    assert(m1 <= c.time);
                    assert(c.mult * cu.mult == cu.mult * c.mult) by (nonlinear_arith);
                } else {
                    assert(!(m1 <= c.time));
                    assert(c.mult * 0 == 0) by (nonlinear_arith);
                    assert(cu.mult * 0 == 0) by (nonlinear_arith);
                }
            } else {
                assert(cwb == 0);
                assert(cu.mult * 0 == 0) by (nonlinear_arith);
            }
        }
    }
}

/// Summation by parts for two relations: over any window `[lo, q]`, the user
/// remainder (provinces seen strictly before) and the province remainder
/// (users seen up to and including) together rebuild the difference of the
/// weight products at `q` and just before `lo`.
proof fn lemma_two_relations(
    us: Seq<Evt<User>>,
    ps: Seq<Evt<Province>>,
    u: User,
    p: Province,
    lo: int,
    q: int,
)
    requires
        lo <= q + 1,
    ensures
        user_window_sum(us, ps, u, p, lo, q) + province_window_sum(us, ps, u, p, lo, q)
            == weight_le(us, u, q) * weight_le(ps, p, q) - weight_le(us, u, lo - 1) * weight_le(
            ps,
            p,
            lo - 1,
        ),
    decreases ps.len(),
{
    let wq = weight_le(us, u, q);
    let wl = weight_le(us, u, lo - 1);
    if ps.len() == 0 {
        assert(ps =~= Seq::<Evt<Province>>::empty());
        lemma_user_window_empty_ps(us, u, p, lo, q);
        assert(wq * 0 == 0) by (nonlinear_arith);
        assert(wl * 0 == 0) by (nonlinear_arith);
    } else {
        let cp = ps.last();
        let rest = ps.drop_last();
        assert(rest.push(cp) =~= ps);
        lemma_two_relations(us, rest, u, p, lo, q);
        lemma_user_window_push_ps(us, rest, cp, u, p, lo, q);
        lemma_weight_le_push(rest, cp, p, q);
        lemma_weight_le_push(rest, cp, p, lo - 1);
        let wpq = weight_le(rest, p, q);
        let wpl = weight_le(rest, p, lo - 1);
        let d: int = if cp.val == p && cp.time <= q {
            cp.mult
        } else {
            0
        };
        let dl: int = if cp.val == p && cp.time <= lo - 1 {
            cp.mult
        } else {
            0
        };
        let extra_u: int = if cp.val == p {
            cp.mult * weight_between(us, u, imax(lo, cp.time + 1), q)
        } else {
            0
        };
        let extra_p: int = if cp.val == p && lo <= cp.time && cp.time <= q {
            cp.mult * weight_le(us, u, cp.time)
        } else {
            0
        };
        assert(user_window_sum(us, ps, u, p, lo, q) == user_window_sum(us, rest, u, p, lo, q)
            + extra_u);
        assert(province_window_sum(us, ps, u, p, lo, q) == province_window_sum(us, rest, u, p, lo, q)
            + extra_p);
        assert(weight_le(ps, p, q) == wpq + d);
        assert(weight_le(ps, p, lo - 1) == wpl + dl);
        assert(wq * (wpq + d) == wq * wpq + wq * d) by (nonlinear_arith);
        assert(wl * (wpl + dl) == wl * wpl + wl * dl) by (nonlinear_arith);
        if cp.val == p {
            let t = cp.time;
            if t < lo {
                assert(imax(lo, t + 1) == lo);
                lemma_weight_le_split(us, u, lo - 1, q);
                assert(weight_between(us, u, lo, q) == wq - wl);
                assert(d == cp.mult && dl == cp.mult);
                assert(extra_u == cp.mult * (wq - wl));
                assert(cp.mult * (wq - wl) == cp.mult * wq - cp.mult * wl) by (nonlinear_arith);
                assert(wq * d == d * wq) by (nonlinear_arith);
                assert(wl * dl == dl * wl) by (nonlinear_arith);
                assert(extra_u + extra_p == wq * d - wl * dl);
            } else if t <= q {
                assert(imax(lo, t + 1) == t + 1);
                lemma_weight_le_split(us, u, t, q);
                let wt = weight_le(us, u, t);
                assert(weight_between(us, u, t + 1, q) == wq - wt);
                assert(d == cp.mult && dl == 0);
                assert(extra_u == cp.mult * (wq - wt));
                assert(extra_p == cp.mult * wt);
                assert(cp.mult * (wq - wt) + cp.mult * wt == cp.mult * wq) by (nonlinear_arith);
                assert(wq * d == d * wq) by (nonlinear_arith);
                assert(wl * dl == 0) by (nonlinear_arith)
                    requires
                        dl == 0,
                ;
                assert(extra_u + extra_p == wq * d - wl * dl);
            } else {
                lemma_weight_void(us, u, imax(lo, t + 1), q);
                assert(d == 0 && dl == 0);
                assert(cp.mult * 0 == 0) by (nonlinear_arith);
                assert(wq * d == 0) by (nonlinear_arith)
                    requires
                        d == 0,
                ;
                assert(wl * dl == 0) by (nonlinear_arith)
                    requires
                        dl == 0,
                ;
                assert(extra_u + extra_p == wq * d - wl * dl);
            }
        } else {
            assert(d == 0 && dl == 0);
            assert(wq * d == 0) by (nonlinear_arith)
                requires
                    d == 0,
            ;
            assert(wl * dl == 0) by (nonlinear_arith)
                requires
                    dl == 0,
            ;
            assert(extra_u + extra_p == wq * d - wl * dl);
        }
        assert(user_window_sum(us, ps, u, p, lo, q) + province_window_sum(us, ps, u, p, lo, q)
            == (user_window_sum(us, rest, u, p, lo, q) + province_window_sum(us, rest, u, p, lo, q))
            + (wq * d - wl * dl));
        assert(user_window_sum(us, rest, u, p, lo, q) + province_window_sum(us, rest, u, p, lo, q)
            == wq * wpq - wl * wpl);
        assert(wq * weight_le(ps, p, q) == wq * wpq + wq * d);
        assert(wl * weight_le(ps, p, lo - 1) == wl * wpl + wl * dl);
        assert(user_window_sum(us, ps, u, p, lo, q) + province_window_sum(us, ps, u, p, lo, q)
            == wq * weight_le(ps, p, q) - wl * weight_le(ps, p, lo - 1));
    }
}

} // verus!

verus! {

proof fn lemma_user_path_zero_os(
    us: Seq<Evt<User>>,
    ps: Seq<Evt<Province>>,
    o: Order,
    u: User,
    p: Province,
    q: int,
)
    ensures
        user_path_sum(Seq::<Evt<Order>>::empty(), us, ps, o, u, p, q) == 0,
    decreases us.len(),
{
    if us.len() > 0 {
        let c = us.last();
        lemma_user_path_zero_os(us.drop_last(), ps, o, u, p, q);
        assert(weight_le(Seq::<Evt<Order>>::empty(), o, c.time) == 0);
        assert(c.mult * 0 * weight_le(ps, p, c.time - 1) == 0) by (nonlinear_arith);
    }
}

proof fn lemma_province_path_zero_os(
    us: Seq<Evt<User>>,
    ps: Seq<Evt<Province>>,
    o: Order,
    u: User,
    p: Province,
    q: int,
)
    ensures
        province_path_sum(Seq::<Evt<Order>>::empty(), us, ps, o, u, p, q) == 0,
    decreases ps.len(),
{
    if ps.len() > 0 {
        let c = ps.last();
        lemma_province_path_zero_os(us, ps.drop_last(), o, u, p, q);
        assert(weight_le(Seq::<Evt<Order>>::empty(), o, c.time) == 0);
        assert(c.mult * weight_le(us, u, c.time) * 0 == 0) by (nonlinear_arith);
    }
}

/// One more order event raises the user path by the windowed user remainder
/// from that event's time on.
proof fn lemma_user_path_push_os(
    os: Seq<Evt<Order>>,
    co: Evt<Order>,
    us: Seq<Evt<User>>,
    ps: Seq<Evt<Province>>,
    o: Order,
    u: User,
    p: Province,
    q: int,
)
    ensures
        user_path_sum(os.push(co), us, ps, o, u, p, q) == user_path_sum(os, us, ps, o, u, p, q)
            + if co.val == o {
            co.mult * user_window_sum(us, ps, u, p, co.time, q)
        } else {
            0
        },
    decreases us.len(),
{
    if us.len() == 0 {
        assert(co.mult * 0 == 0) by (nonlinear_arith);
    } else {
        let c = us.last();
        let rest = us.drop_last();
        lemma_user_path_push_os(os, co, rest, ps, o, u, p, q);
        lemma_weight_le_push(os, co, o, c.time);
        let w_o = weight_le(os, o, c.time);
        let w_p = weight_le(ps, p, c.time - 1);
        let d: int = if co.val == o && co.time <= c.time {
            co.mult
        } else {
            0
        };
        let cw: int = if c.val == u && co.time <= c.time && c.time <= q {
            c.mult * w_p
        } else {
            0
        };
        if co.val == o {
            assert(user_window_sum(us, ps, u, p, co.time, q) == user_window_sum(
                rest,
                ps,
                u,
                p,
                co.time,
                q,
            ) + cw);
            assert(co.mult * (user_window_sum(rest, ps, u, p, co.time, q) + cw) == co.mult
                * user_window_sum(rest, ps, u, p, co.time, q) + co.mult * cw) by (nonlinear_arith);
        }
        if c.val == u && c.time <= q {
            assert(c.mult * (w_o + d) * w_p == c.mult * w_o * w_p + c.mult * d * w_p)
                by (nonlinear_arith);
            if co.val == o && co.time <= c.time {
                assert(cw == c.mult * w_p);
                assert(c.mult * co.mult * w_p == co.mult * (c.mult * w_p)) by (nonlinear_arith);
            } else {
                assert(d == 0);
                assert(c.mult * 0 * w_p == 0) by (nonlinear_arith);
                if co.val == o {
                    assert(cw == 0);
                    assert(co.mult * 0 == 0) by (nonlinear_arith);
                }
            }
        } else {
            if co.val == o {
                assert(cw == 0);
                assert(co.mult * 0 == 0) by (nonlinear_arith);
            }
        }
    }
}

/// One more order event raises the province path by the windowed province
/// remainder from that event's time on.
proof fn lemma_province_path_push_os(
    os: Seq<Evt<Order>>,
    co: Evt<Order>,
    us: Seq<Evt<User>>,
    ps: Seq<Evt<Province>>,
    o: Order,
    u: User,
    p: Province,
    q: int,
)
    ensures
        province_path_sum(os.push(co), us, ps, o, u, p, q) == province_path_sum(
            os,
            us,
            ps,
            o,
            u,
            p,
            q,
        ) + if co.val == o {
            co.mult * province_window_sum(us, ps, u, p, co.time, q)
        } else {
            0
        },
    decreases ps.len(),
{
    if ps.len() == 0 {
        assert(co.mult * 0 == 0) by (nonlinear_arith);
    } else {
        let c = ps.last();
        let rest = ps.drop_last();
        lemma_province_path_push_os(os, co, us, rest, o, u, p, q);
        lemma_weight_le_push(os, co, o, c.time);
        let w_o = weight_le(os, o, c.time);
        let w_u = weight_le(us, u, c.time);
        let d: int = if co.val == o && co.time <= c.time {
            co.mult
        } else {
            0
        };
        let cw: int = if c.val == p && co.time <= c.time && c.time <= q {
            c.mult * w_u
        } else {
            0
        };
        if co.val == o {
            assert(province_window_sum(us, ps, u, p, co.time, q) == province_window_sum(
                us,
                rest,
                u,
                p,
                co.time,
                q,
            ) + cw);
            assert(co.mult * (province_window_sum(us, rest, u, p, co.time, q) + cw) == co.mult
                * province_window_sum(us, rest, u, p, co.time, q) + co.mult * cw)
                by (nonlinear_arith);
        }
        if c.val == p && c.time <= q {
            assert(c.mult * w_u * (w_o + d) == c.mult * w_u * w_o + c.mult * w_u * d)
                by (nonlinear_arith);
            if co.val == o && co.time <= c.time {
                assert(cw == c.mult * w_u);
                assert(c.mult * w_u * co.mult == co.mult * (c.mult * w_u)) by (nonlinear_arith);
            } else {
                assert(d == 0);
                assert(c.mult * w_u * 0 == 0) by (nonlinear_arith);
                if co.val == o {
                    assert(cw == 0);
                    assert(co.mult * 0 == 0) by (nonlinear_arith);
                }
            }
        } else {
            if co.val == o {
                assert(cw == 0);
                assert(co.mult * 0 == 0) by (nonlinear_arith);
            }
        }
    }
}

/// The telescoping identity of the delta join: the three per-relation path
/// sums together equal the product of the three accumulated weights — each
/// combination of events is counted by exactly one path, the one whose event
/// carries the greatest `(time, priority)`.
pub proof fn lemma_delta_total(
    os: Seq<Evt<Order>>,
    us: Seq<Evt<User>>,
    ps: Seq<Evt<Province>>,
    o: Order,
    u: User,
    p: Province,
    q: int,
)
    ensures
        order_path_sum(os, us, ps, o, u, p, q) + user_path_sum(os, us, ps, o, u, p, q)
            + province_path_sum(os, us, ps, o, u, p, q) == weight_le(os, o, q) * weight_le(us, u, q)
            * weight_le(ps, p, q),
    decreases os.len(),
{
    let w_u = weight_le(us, u, q);
    let w_p = weight_le(ps, p, q);
    if os.len() == 0 {
        assert(os =~= Seq::<Evt<Order>>::empty());
        lemma_user_path_zero_os(us, ps, o, u, p, q);
        lemma_province_path_zero_os(us, ps, o, u, p, q);
        assert(0 * w_u * w_p == 0) by (nonlinear_arith);
    } else {
        let co = os.last();
        let rest = os.drop_last();
        assert(rest.push(co) =~= os);
        lemma_delta_total(rest, us, ps, o, u, p, q);
        lemma_user_path_push_os(rest, co, us, ps, o, u, p, q);
        lemma_province_path_push_os(rest, co, us, ps, o, u, p, q);
        lemma_weight_le_push(rest, co, o, q);
        let w_o_rest = weight_le(rest, o, q);
        let d: int = if co.val == o && co.time <= q {
            co.mult
        } else {
            0
        };
        assert((w_o_rest + d) * w_u * w_p == w_o_rest * w_u * w_p + d * w_u * w_p)
            by (nonlinear_arith);
        if co.val == o {
            let t = co.time;
            if t <= q {
                lemma_two_relations(us, ps, u, p, t, q);
                let wut = weight_le(us, u, t - 1);
                let wpt = weight_le(ps, p, t - 1);
                assert(user_window_sum(us, ps, u, p, t, q) + province_window_sum(us, ps, u, p, t, q)
                    == w_u * w_p - wut * wpt);
                assert(co.mult * user_window_sum(us, ps, u, p, t, q) + co.mult
                    * province_window_sum(us, ps, u, p, t, q) == co.mult * (w_u * w_p - wut * wpt))
                    by (nonlinear_arith)
                    requires
                        user_window_sum(us, ps, u, p, t, q) + province_window_sum(us, ps, u, p, t, q)
                            == w_u * w_p - wut * wpt,
                ;
                assert(co.mult * wut * wpt + co.mult * (w_u * w_p - wut * wpt) == co.mult * (w_u
                    * w_p)) by (nonlinear_arith);
                assert(d * w_u * w_p == co.mult * (w_u * w_p)) by (nonlinear_arith)
                    requires
                        d == co.mult,
                ;
            } else {
                lemma_user_window_void(us, ps, u, p, t, q);
                lemma_province_window_void(us, ps, u, p, t, q);
                assert(co.mult * 0 == 0) by (nonlinear_arith);
                assert(d == 0);
                assert(0 * w_u * w_p == 0) by (nonlinear_arith);
            }
        } else {
            assert(d == 0);
            assert(0 * w_u * w_p == 0) by (nonlinear_arith);
        }
    }
}

} // verus!

verus! {

proof fn lemma_hj_pair_province_concat(
    r: Rel,
    s1: Seq<Evt<(Order, User)>>,
    s2: Seq<Evt<(Order, User)>>,
    ps: Seq<Evt<Province>>,
)
    ensures
        hj_pair_province(r, s1 + s2, ps) == hj_pair_province(r, s1, ps) + hj_pair_province(
            r,
            s2,
            ps,
        ),
    decreases s2.len(),
{
    if s2.len() == 0 {
        assert(s1 + s2 =~= s1);
        assert(hj_pair_province(r, s1, ps) + hj_pair_province(r, s2, ps) =~= hj_pair_province(
            r,
            s1,
            ps,
        ));
    } else {
        assert((s1 + s2).drop_last() =~= s1 + s2.drop_last());
        assert((s1 + s2).last() == s2.last());
        lemma_hj_pair_province_concat(r, s1, s2.drop_last(), ps);
        assert((hj_pair_province(r, s1, ps) + hj_pair_province(r, s2.drop_last(), ps))
            + hj_pair_province_one(r, s2.last(), ps) =~= hj_pair_province(r, s1, ps) + (
        hj_pair_province(r, s2.drop_last(), ps) + hj_pair_province_one(r, s2.last(), ps)));
    }
}

/// Accumulated weight contributed by one `(order, user)` event's matches
/// against the province arrangement, ties invisible.
proof fn lemma_acc_pair_province_one(
    r: Rel,
    e: Evt<(Order, User)>,
    ps: Seq<Evt<Province>>,
    o: Order,
    u: User,
    p: Province,
    q: int,
)
    requires
        priority(r) < priority(Rel::Provinces),
    ensures
        weight_le(hj_pair_province_one(r, e, ps), (o, u, p), q) == if e.val.0 == o && e.val.1 == u
            && p.pid == u.pid && e.time <= q {
            e.mult * weight_le(ps, p, e.time - 1)
        } else {
            0
        },
    decreases ps.len(),
{
    if ps.len() == 0 {
        assert(e.mult * 0 == 0) by (nonlinear_arith);
    } else {
        let cp = ps.last();
        let rest = ps.drop_last();
        lemma_acc_pair_province_one(r, e, rest, o, u, p, q);
        let w = weight_le(rest, p, e.time - 1);
        let dc: int = if cp.val == p && cp.time <= e.time - 1 {
            cp.mult
        } else {
            0
        };
        assert(weight_le(ps, p, e.time - 1) == w + dc);
        if cp.val.pid == e.val.1.pid && visible_spec(r, Rel::Provinces, cp.time, e.time) {
            let pushed = Evt {
                val: (e.val.0, e.val.1, cp.val),
                time: e.time,
                mult: e.mult * cp.mult,
            };
            lemma_weight_le_push(hj_pair_province_one(r, e, rest), pushed, (o, u, p), q);
        }
        if e.val.0 == o && e.val.1 == u && p.pid == u.pid && e.time <= q {
            assert(e.mult * (w + dc) == e.mult * w + e.mult * dc) by (nonlinear_arith);
            assert(e.mult * cp.mult == e.mult * cp.mult);
            if !(cp.val == p && cp.time <= e.time - 1) {
                assert(e.mult * 0 == 0) by (nonlinear_arith);
            }
        }
    }
}

/// Accumulated weight of the triples produced by one order event's matches,
/// completed through the province arrangement.
proof fn lemma_acc_order_mid(
    co: Evt<Order>,
    us: Seq<Evt<User>>,
    ps: Seq<Evt<Province>>,
    o: Order,
    u: User,
    p: Province,
    q: int,
)
    ensures
        weight_le(hj_pair_province(Rel::Orders, hj_order_user_one(co, us), ps), (o, u, p), q)
            == if co.val == o && u.uid == o.uid && p.pid == u.pid && co.time <= q {
            co.mult * weight_le(us, u, co.time - 1) * weight_le(ps, p, co.time - 1)
        } else {
            0
        },
    decreases us.len(),
{
    let wp = weight_le(ps, p, co.time - 1);
    if us.len() == 0 {
        assert(co.mult * 0 * wp == 0) by (nonlinear_arith);
    } else {
        let cu = us.last();
        let rest = us.drop_last();
        lemma_acc_order_mid(co, rest, ps, o, u, p, q);
        let w = weight_le(rest, u, co.time - 1);
        let dc: int = if cu.val == u && cu.time <= co.time - 1 {
            cu.mult
        } else {
            0
        };
        assert(weight_le(us, u, co.time - 1) == w + dc);
        if cu.val.uid == co.val.uid && visible_spec(Rel::Orders, Rel::Users, cu.time, co.time) {
            let e = Evt { val: (co.val, cu.val), time: co.time, mult: co.mult * cu.mult };
            assert(hj_order_user_one(co, us) == hj_order_user_one(co, rest).push(e));
            assert(hj_order_user_one(co, rest).push(e).drop_last() =~= hj_order_user_one(co, rest));
            assert(hj_pair_province(Rel::Orders, hj_order_user_one(co, us), ps) == hj_pair_province(
                Rel::Orders,
                hj_order_user_one(co, rest),
                ps,
            ) + hj_pair_province_one(Rel::Orders, e, ps));
            lemma_weight_le_concat(
                hj_pair_province(Rel::Orders, hj_order_user_one(co, rest), ps),
                hj_pair_province_one(Rel::Orders, e, ps),
                (o, u, p),
                q,
            );
            lemma_acc_pair_province_one(Rel::Orders, e, ps, o, u, p, q);
            if co.val == o && u.uid == o.uid && p.pid == u.pid && co.time <= q {
                assert(co.mult * (w + dc) * wp == co.mult * w * wp + co.mult * dc * wp)
                    by (nonlinear_arith);
                if cu.val == u {
                    assert(dc == cu.mult);
                    assert((co.mult * cu.mult) * wp == co.mult * cu.mult * wp);
                } else {
                    assert(dc == 0);
                    assert(co.mult * 0 * wp == 0) by (nonlinear_arith);
                }
            }
        } else {
            assert(hj_order_user_one(co, us) == hj_order_user_one(co, rest));
            if co.val == o && u.uid == o.uid && p.pid == u.pid && co.time <= q {
                assert(dc == 0);
                assert(co.mult * (w + dc) * wp == co.mult * w * wp) by (nonlinear_arith)
                    requires
                        dc == 0,
                ;
            }
        }
    }
}

/// Accumulated weight of the whole order path equals the order path sum,
/// under matching keys; without them the path contributes nothing.
pub proof fn lemma_acc_order_path(
    os: Seq<Evt<Order>>,
    us: Seq<Evt<User>>,
    ps: Seq<Evt<Province>>,
    o: Order,
    u: User,
    p: Province,
    q: int,
)
    ensures
        weight_le(order_path_spec(os, us, ps), (o, u, p), q) == if keys_match(o, u, p) {
            order_path_sum(os, us, ps, o, u, p, q)
        } else {
            0
        },
    decreases os.len(),
{
    if os.len() == 0 {
    } else {
        let co = os.last();
        let rest = os.drop_last();
        lemma_acc_order_path(rest, us, ps, o, u, p, q);
        assert(hj_order_user(os, us) == hj_order_user(rest, us) + hj_order_user_one(co, us));
        lemma_hj_pair_province_concat(
            Rel::Orders,
            hj_order_user(rest, us),
            hj_order_user_one(co, us),
            ps,
        );
        lemma_weight_le_concat(
            hj_pair_province(Rel::Orders, hj_order_user(rest, us), ps),
            hj_pair_province(Rel::Orders, hj_order_user_one(co, us), ps),
            (o, u, p),
            q,
        );
        lemma_acc_order_mid(co, us, ps, o, u, p, q);
    }
}

/// Accumulated weight contributed by one user event's matches, completed
/// through the province arrangement.
proof fn lemma_acc_user_mid(
    cu: Evt<User>,
    os: Seq<Evt<Order>>,
    ps: Seq<Evt<Province>>,
    o: Order,
    u: User,
    p: Province,
    q: int,
)
    ensures
        weight_le(hj_pair_province(Rel::Users, hj_user_order_one(cu, os), ps), (o, u, p), q)
            == if cu.val == u && o.uid == u.uid && p.pid == u.pid && cu.time <= q {
            cu.mult * weight_le(os, o, cu.time) * weight_le(ps, p, cu.time - 1)
        } else {
            0
        },
    decreases os.len(),
{
    let wp = weight_le(ps, p, cu.time - 1);
    if os.len() == 0 {
        assert(cu.mult * 0 * wp == 0) by (nonlinear_arith);
    } else {
        let co = os.last();
        let rest = os.drop_last();
        lemma_acc_user_mid(cu, rest, ps, o, u, p, q);
        let w = weight_le(rest, o, cu.time);
        let dc: int = if co.val == o && co.time <= cu.time {
            co.mult
        } else {
            0
        };
        assert(weight_le(os, o, cu.time) == w + dc);
        if co.val.uid == cu.val.uid && visible_spec(Rel::Users, Rel::Orders, co.time, cu.time) {
            let e = Evt { val: (co.val, cu.val), time: cu.time, mult: cu.mult * co.mult };
            assert(hj_user_order_one(cu, os) == hj_user_order_one(cu, rest).push(e));
            assert(hj_user_order_one(cu, rest).push(e).drop_last() =~= hj_user_order_one(cu, rest));
            assert(hj_pair_province(Rel::Users, hj_user_order_one(cu, os), ps) == hj_pair_province(
                Rel::Users,
                hj_user_order_one(cu, rest),
                ps,
            ) + hj_pair_province_one(Rel::Users, e, ps));
            lemma_weight_le_concat(
                hj_pair_province(Rel::Users, hj_user_order_one(cu, rest), ps),
                hj_pair_province_one(Rel::Users, e, ps),
                (o, u, p),
                q,
            );
            lemma_acc_pair_province_one(Rel::Users, e, ps, o, u, p, q);
            if cu.val == u && o.uid == u.uid && p.pid == u.pid && cu.time <= q {
                assert(cu.mult * (w + dc) * wp == cu.mult * w * wp + cu.mult * dc * wp)
                    by (nonlinear_arith);
                if co.val == o {
                    assert(dc == co.mult);
                    assert((cu.mult * co.mult) * wp == cu.mult * co.mult * wp);
                } else {
                    assert(dc == 0);
                    assert(cu.mult * 0 * wp == 0) by (nonlinear_arith);
                }
            }
        } else {
            assert(hj_user_order_one(cu, os) == hj_user_order_one(cu, rest));
            if cu.val == u && o.uid == u.uid && p.pid == u.pid && cu.time <= q {
                assert(dc == 0);
                assert(cu.mult * (w + dc) * wp == cu.mult * w * wp) by (nonlinear_arith)
                    requires
                        dc == 0,
                ;
            }
        }
    }
}

/// Accumulated weight of the whole user path equals the user path sum, under
/// matching keys.
pub proof fn lemma_acc_user_path(
    os: Seq<Evt<Order>>,
    us: Seq<Evt<User>>,
    ps: Seq<Evt<Province>>,
    o: Order,
    u: User,
    p: Province,
    q: int,
)
    ensures
        weight_le(user_path_spec(os, us, ps), (o, u, p), q) == if keys_match(o, u, p) {
            user_path_sum(os, us, ps, o, u, p, q)
        } else {
            0
        },
    decreases us.len(),
{
    if us.len() == 0 {
    } else {
        let cu = us.last();
        let rest = us.drop_last();
        lemma_acc_user_path(os, rest, ps, o, u, p, q);
        assert(hj_user_order(us, os) == hj_user_order(rest, os) + hj_user_order_one(cu, os));
        lemma_hj_pair_province_concat(
            Rel::Users,
            hj_user_order(rest, os),
            hj_user_order_one(cu, os),
            ps,
        );
        lemma_weight_le_concat(
            hj_pair_province(Rel::Users, hj_user_order(rest, os), ps),
            hj_pair_province(Rel::Users, hj_user_order_one(cu, os), ps),
            (o, u, p),
            q,
        );
        lemma_acc_user_mid(cu, os, ps, o, u, p, q);
    }
}

} // verus!

verus! {

proof fn lemma_hj_userprov_order_concat(
    s1: Seq<Evt<(User, Province)>>,
    s2: Seq<Evt<(User, Province)>>,
    os: Seq<Evt<Order>>,
)
    ensures
        hj_userprov_order(s1 + s2, os) == hj_userprov_order(s1, os) + hj_userprov_order(s2, os),
    decreases s2.len(),
{
    if s2.len() == 0 {
        assert(s1 + s2 =~= s1);
        assert(hj_userprov_order(s1, os) + hj_userprov_order(s2, os) =~= hj_userprov_order(
            s1,
            os,
        ));
    } else {
        assert((s1 + s2).drop_last() =~= s1 + s2.drop_last());
        assert((s1 + s2).last() == s2.last());
        lemma_hj_userprov_order_concat(s1, s2.drop_last(), os);
        assert((hj_userprov_order(s1, os) + hj_userprov_order(s2.drop_last(), os))
            + hj_userprov_order_one(s2.last(), os) =~= hj_userprov_order(s1, os) + (
        hj_userprov_order(s2.drop_last(), os) + hj_userprov_order_one(s2.last(), os)));
    }
}

/// Accumulated weight contributed by one `(user, province)` event's matches
/// against the order arrangement, ties visible.
proof fn lemma_acc_userprov_order_one(
    e: Evt<(User, Province)>,
    os: Seq<Evt<Order>>,
    o: Order,
    u: User,
    p: Province,
    q: int,
)
    ensures
        weight_le(hj_userprov_order_one(e, os), (o, u, p), q) == if e.val.0 == u && e.val.1 == p
            && o.uid == u.uid && e.time <= q {
            e.mult * weight_le(os, o, e.time)
        } else {
            0
        },
    decreases os.len(),
{
    if os.len() == 0 {
        assert(e.mult * 0 == 0) by (nonlinear_arith);
    } else {
        let co = os.last();
        let rest = os.drop_last();
        lemma_acc_userprov_order_one(e, rest, o, u, p, q);
        let w = weight_le(rest, o, e.time);
        let dc: int = if co.val == o && co.time <= e.time {
            co.mult
        } else {
            0
        };
        assert(weight_le(os, o, e.time) == w + dc);
        if co.val.uid == e.val.0.uid && visible_spec(Rel::Provinces, Rel::Orders, co.time, e.time) {
            let pushed = Evt { val: (co.val, e.val.0, e.val.1), time: e.time, mult: e.mult * co.mult };
            lemma_weight_le_push(hj_userprov_order_one(e, rest), pushed, (o, u, p), q);
        }
        if e.val.0 == u && e.val.1 == p && o.uid == u.uid && e.time <= q {
            assert(e.mult * (w + dc) == e.mult * w + e.mult * dc) by (nonlinear_arith);
            if !(co.val == o && co.time <= e.time) {
                assert(e.mult * 0 == 0) by (nonlinear_arith);
            }
        }
    }
}

/// Accumulated weight of the triples produced by one province event's
/// matches, resolved through the user then order arrangements.
proof fn lemma_acc_prov_mid(
    cp: Evt<Province>,
    us: Seq<Evt<User>>,
    os: Seq<Evt<Order>>,
    o: Order,
    u: User,
    p: Province,
    q: int,
)
    ensures
        weight_le(hj_userprov_order(hj_province_user_one(cp, us), os), (o, u, p), q) == if cp.val
            == p && u.pid == p.pid && o.uid == u.uid && cp.time <= q {
            cp.mult * weight_le(us, u, cp.time) * weight_le(os, o, cp.time)
        } else {
            0
        },
    decreases us.len(),
{
    let wo = weight_le(os, o, cp.time);
    if us.len() == 0 {
        assert(cp.mult * 0 * wo == 0) by (nonlinear_arith);
    } else {
        let cu = us.last();
        let rest = us.drop_last();
        lemma_acc_prov_mid(cp, rest, os, o, u, p, q);
        let w = weight_le(rest, u, cp.time);
        let dc: int = if cu.val == u && cu.time <= cp.time {
            cu.mult
        } else {
            0
        };
        assert(weight_le(us, u, cp.time) == w + dc);
        if cu.val.pid == cp.val.pid && visible_spec(Rel::Provinces, Rel::Users, cu.time, cp.time) {
            let e = Evt { val: (cu.val, cp.val), time: cp.time, mult: cp.mult * cu.mult };
            assert(hj_province_user_one(cp, us) == hj_province_user_one(cp, rest).push(e));
            assert(hj_province_user_one(cp, rest).push(e).drop_last() =~= hj_province_user_one(
                cp,
                rest,
            ));
            assert(hj_userprov_order(hj_province_user_one(cp, us), os) == hj_userprov_order(
                hj_province_user_one(cp, rest),
                os,
            ) + hj_userprov_order_one(e, os));
            lemma_weight_le_concat(
                hj_userprov_order(hj_province_user_one(cp, rest), os),
                hj_userprov_order_one(e, os),
                (o, u, p),
                q,
            );
            lemma_acc_userprov_order_one(e, os, o, u, p, q);
            if cp.val == p && u.pid == p.pid && o.uid == u.uid && cp.time <= q {
                assert(cp.mult * (w + dc) * wo == cp.mult * w * wo + cp.mult * dc * wo)
                    by (nonlinear_arith);
                if cu.val == u {
                    assert(dc == cu.mult);
                    assert((cp.mult * cu.mult) * wo == cp.mult * cu.mult * wo);
                } else {
                    assert(dc == 0);
                    assert(cp.mult * 0 * wo == 0) by (nonlinear_arith);
                }
            }
        } else {
            assert(hj_province_user_one(cp, us) == hj_province_user_one(cp, rest));
            if cp.val == p && u.pid == p.pid && o.uid == u.uid && cp.time <= q {
                assert(dc == 0);
                assert(cp.mult * (w + dc) * wo == cp.mult * w * wo) by (nonlinear_arith)
                    requires
                        dc == 0,
                ;
            }
        }
    }
}

/// Accumulated weight of the whole province path equals the province path
/// sum, under matching keys.
pub proof fn lemma_acc_prov_path(
    os: Seq<Evt<Order>>,
    us: Seq<Evt<User>>,
    ps: Seq<Evt<Province>>,
    o: Order,
    u: User,
    p: Province,
    q: int,
)
    ensures
        weight_le(province_path_spec(os, us, ps), (o, u, p), q) == if keys_match(o, u, p) {
            province_path_sum(os, us, ps, o, u, p, q)
        } else {
            0
        },
    decreases ps.len(),
{
    if ps.len() == 0 {
    } else {
        let cp = ps.last();
        let rest = ps.drop_last();
        lemma_acc_prov_path(os, us, rest, o, u, p, q);
        assert(hj_province_user(ps, us) == hj_province_user(rest, us) + hj_province_user_one(
            cp,
            us,
        ));
        lemma_hj_userprov_order_concat(
            hj_province_user(rest, us),
            hj_province_user_one(cp, us),
            os,
        );
        lemma_weight_le_concat(
            hj_userprov_order(hj_province_user(rest, us), os),
            hj_userprov_order(hj_province_user_one(cp, us), os),
            (o, u, p),
            q,
        );
        lemma_acc_prov_mid(cp, us, os, o, u, p, q);
    }
}

} // verus!

verus! {

proof fn lemma_hj_uidprov_user_concat(
    s1: Seq<Evt<(Uid, Province)>>,
    s2: Seq<Evt<(Uid, Province)>>,
    us: Seq<Evt<User>>,
)
    ensures
        hj_uidprov_user(s1 + s2, us) == hj_uidprov_user(s1, us) + hj_uidprov_user(s2, us),
    decreases s2.len(),
{
    if s2.len() == 0 {
        assert(s1 + s2 =~= s1);
        assert(hj_uidprov_user(s1, us) + hj_uidprov_user(s2, us) =~= hj_uidprov_user(s1, us));
    } else {
        assert((s1 + s2).drop_last() =~= s1 + s2.drop_last());
        assert((s1 + s2).last() == s2.last());
        lemma_hj_uidprov_user_concat(s1, s2.drop_last(), us);
        assert((hj_uidprov_user(s1, us) + hj_uidprov_user(s2.drop_last(), us))
            + hj_uidprov_user_one(s2.last(), us) =~= hj_uidprov_user(s1, us) + (hj_uidprov_user(
            s2.drop_last(),
            us,
        ) + hj_uidprov_user_one(s2.last(), us)));
    }
}

/// Accumulated weight contributed by one `(uid, province)` event, resolved
/// through the user then order arrangements.
proof fn lemma_acc_uidprov_mid(
    e: Evt<(Uid, Province)>,
    us: Seq<Evt<User>>,
    os: Seq<Evt<Order>>,
    o: Order,
    u: User,
    p: Province,
    q: int,
)
    ensures
        weight_le(hj_userprov_order(hj_uidprov_user_one(e, us), os), (o, u, p), q) == if e.val.0
            == u.uid && e.val.1 == p && o.uid == u.uid && e.time <= q {
            e.mult * weight_le(us, u, e.time) * weight_le(os, o, e.time)
        } else {
            0
        },
    decreases us.len(),
{
    let wo = weight_le(os, o, e.time);
    if us.len() == 0 {
        assert(e.mult * 0 * wo == 0) by (nonlinear_arith);
    } else {
        let cu = us.last();
        let rest = us.drop_last();
        lemma_acc_uidprov_mid(e, rest, os, o, u, p, q);
        let w = weight_le(rest, u, e.time);
        let dc: int = if cu.val == u && cu.time <= e.time {
            cu.mult
        } else {
            0
        };
        assert(weight_le(us, u, e.time) == w + dc);
        if cu.val.uid == e.val.0 && visible_spec(Rel::Provinces, Rel::Users, cu.time, e.time) {
            let e2 = Evt { val: (cu.val, e.val.1), time: e.time, mult: e.mult * cu.mult };
            assert(hj_uidprov_user_one(e, us) == hj_uidprov_user_one(e, rest).push(e2));
            assert(hj_uidprov_user_one(e, rest).push(e2).drop_last() =~= hj_uidprov_user_one(
                e,
                rest,
            ));
            assert(hj_userprov_order(hj_uidprov_user_one(e, us), os) == hj_userprov_order(
                hj_uidprov_user_one(e, rest),
                os,
            ) + hj_userprov_order_one(e2, os));
            lemma_weight_le_concat(
                hj_userprov_order(hj_uidprov_user_one(e, rest), os),
                hj_userprov_order_one(e2, os),
                (o, u, p),
                q,
            );
            lemma_acc_userprov_order_one(e2, os, o, u, p, q);
            if e.val.0 == u.uid && e.val.1 == p && o.uid == u.uid && e.time <= q {
                assert(e.mult * (w + dc) * wo == e.mult * w * wo + e.mult * dc * wo)
                    by (nonlinear_arith);
                if cu.val == u {
                    assert(dc == cu.mult);
                    assert((e.mult * cu.mult) * wo == e.mult * cu.mult * wo);
                } else {
                    assert(dc == 0);
                    assert(e.mult * 0 * wo == 0) by (nonlinear_arith);
                }
            }
        } else {
            assert(hj_uidprov_user_one(e, us) == hj_uidprov_user_one(e, rest));
            if e.val.0 == u.uid && e.val.1 == p && o.uid == u.uid && e.time <= q {
                assert(dc == 0);
                assert(e.mult * (w + dc) * wo == e.mult * w * wo) by (nonlinear_arith)
                    requires
                        dc == 0,
                ;
            }
        }
    }
}

/// Accumulated weight of one province event's late-materialization matches:
/// the secondary index contributes the weight of the key pair.
proof fn lemma_acc_late_mid(
    cp: Evt<Province>,
    sec: Seq<Evt<(Pid, Uid)>>,
    us: Seq<Evt<User>>,
    os: Seq<Evt<Order>>,
    o: Order,
    u: User,
    p: Province,
    q: int,
)
    ensures
        weight_le(
            hj_userprov_order(hj_uidprov_user(hj_province_secondary_one(cp, sec), us), os),
            (o, u, p),
            q,
        ) == if cp.val == p && o.uid == u.uid && cp.time <= q {
            cp.mult * weight_le(sec, (p.pid, u.uid), cp.time) * weight_le(us, u, cp.time)
                * weight_le(os, o, cp.time)
        } else {
            0
        },
    decreases sec.len(),
{
    let wu = weight_le(us, u, cp.time);
    let wo = weight_le(os, o, cp.time);
    if sec.len() == 0 {
        assert(cp.mult * 0 * wu * wo == 0) by (nonlinear_arith);
    } else {
        let cs = sec.last();
        let rest = sec.drop_last();
        lemma_acc_late_mid(cp, rest, us, os, o, u, p, q);
        let w = weight_le(rest, (p.pid, u.uid), cp.time);
        let dc: int = if cs.val == (p.pid, u.uid) && cs.time <= cp.time {
            cs.mult
        } else {
            0
        };
        assert(weight_le(sec, (p.pid, u.uid), cp.time) == w + dc);
        if cs.val.0 == cp.val.pid && visible_spec(Rel::Provinces, Rel::Users, cs.time, cp.time) {
            let e = Evt { val: (cs.val.1, cp.val), time: cp.time, mult: cp.mult * cs.mult };
            assert(hj_province_secondary_one(cp, sec) == hj_province_secondary_one(
                cp,
                rest,
            ).push(e));
            assert(hj_province_secondary_one(cp, rest).push(e).drop_last()
                =~= hj_province_secondary_one(cp, rest));
            assert(hj_uidprov_user(hj_province_secondary_one(cp, sec), us) == hj_uidprov_user(
                hj_province_secondary_one(cp, rest),
                us,
            ) + hj_uidprov_user_one(e, us));
            lemma_hj_userprov_order_concat(
                hj_uidprov_user(hj_province_secondary_one(cp, rest), us),
                hj_uidprov_user_one(e, us),
                os,
            );
            lemma_weight_le_concat(
                hj_userprov_order(hj_uidprov_user(hj_province_secondary_one(cp, rest), us), os),
                hj_userprov_order(hj_uidprov_user_one(e, us), os),
                (o, u, p),
                q,
            );
            lemma_acc_uidprov_mid(e, us, os, o, u, p, q);
            if cp.val == p && o.uid == u.uid && cp.time <= q {
                assert(cp.mult * (w + dc) * wu * wo == cp.mult * w * wu * wo + cp.mult * dc * wu
                    * wo) by (nonlinear_arith);
                if cs.val.1 == u.uid {
                    assert(dc == cs.mult);
                    assert((cp.mult * cs.mult) * wu * wo == cp.mult * cs.mult * wu * wo);
                } else {
                    assert(dc == 0);
                    assert(cp.mult * 0 * wu * wo == 0) by (nonlinear_arith);
                }
            }
        } else {
            assert(hj_province_secondary_one(cp, sec) == hj_province_secondary_one(cp, rest));
            if cp.val == p && o.uid == u.uid && cp.time <= q {
                assert(dc == 0);
                assert(cp.mult * (w + dc) * wu * wo == cp.mult * w * wu * wo) by (nonlinear_arith)
                    requires
                        dc == 0,
                ;
            }
        }
    }
}

/// Accumulated weight of the whole late-materialization province path.
pub proof fn lemma_acc_late_path(
    os: Seq<Evt<Order>>,
    us: Seq<Evt<User>>,
    ps: Seq<Evt<Province>>,
    o: Order,
    u: User,
    p: Province,
    q: int,
)
    ensures
        weight_le(province_path_late_spec(os, us, ps), (o, u, p), q) == if o.uid == u.uid {
            province_path_late_sum(os, us, ps, o, u, p, q)
        } else {
            0
        },
    decreases ps.len(),
{
    let sec = secondary_index_spec(us);
    if ps.len() == 0 {
    } else {
        let cp = ps.last();
        let rest = ps.drop_last();
        lemma_acc_late_path(os, us, rest, o, u, p, q);
        assert(hj_province_secondary(ps, sec) == hj_province_secondary(rest, sec)
            + hj_province_secondary_one(cp, sec));
        lemma_hj_uidprov_user_concat(
            hj_province_secondary(rest, sec),
            hj_province_secondary_one(cp, sec),
            us,
        );
        lemma_hj_userprov_order_concat(
            hj_uidprov_user(hj_province_secondary(rest, sec), us),
            hj_uidprov_user(hj_province_secondary_one(cp, sec), us),
            os,
        );
        lemma_weight_le_concat(
            hj_userprov_order(hj_uidprov_user(hj_province_secondary(rest, sec), us), os),
            hj_userprov_order(hj_uidprov_user(hj_province_secondary_one(cp, sec), us), os),
            (o, u, p),
            q,
        );
        lemma_acc_late_mid(cp, sec, us, os, o, u, p, q);
    }
}

proof fn lemma_join_pair_province_concat(
    s1: Seq<Evt<(Order, User)>>,
    s2: Seq<Evt<(Order, User)>>,
    ps: Seq<Evt<Province>>,
)
    ensures
        join_pair_province(s1 + s2, ps) == join_pair_province(s1, ps) + join_pair_province(
            s2,
            ps,
        ),
    decreases s2.len(),
{
    if s2.len() == 0 {
        assert(s1 + s2 =~= s1);
        assert(join_pair_province(s1, ps) + join_pair_province(s2, ps) =~= join_pair_province(
            s1,
            ps,
        ));
    } else {
        assert((s1 + s2).drop_last() =~= s1 + s2.drop_last());
        assert((s1 + s2).last() == s2.last());
        lemma_join_pair_province_concat(s1, s2.drop_last(), ps);
        assert((join_pair_province(s1, ps) + join_pair_province(s2.drop_last(), ps))
            + join_pair_province_one(s2.last(), ps) =~= join_pair_province(s1, ps) + (
        join_pair_province(s2.drop_last(), ps) + join_pair_province_one(s2.last(), ps)));
    }
}

/// Accumulated weight of one intermediate pair's baseline matches: since the
/// output time is the later of the two event times, everything up to `q`
/// counts on both sides.
proof fn lemma_acc_join_pair_one(
    e: Evt<(Order, User)>,
    ps: Seq<Evt<Province>>,
    o: Order,
    u: User,
    p: Province,
    q: int,
)
    ensures
        weight_le(join_pair_province_one(e, ps), (o, u, p), q) == if e.val.0 == o && e.val.1 == u
            && p.pid == u.pid && e.time <= q {
            e.mult * weight_le(ps, p, q)
        } else {
            0
        },
    decreases ps.len(),
{
    if ps.len() == 0 {
        assert(e.mult * 0 == 0) by (nonlinear_arith);
    } else {
        let cp = ps.last();
        let rest = ps.drop_last();
        lemma_acc_join_pair_one(e, rest, o, u, p, q);
        let w = weight_le(rest, p, q);
        let dc: int = if cp.val == p && cp.time <= q {
            cp.mult
        } else {
            0
        };
        assert(weight_le(ps, p, q) == w + dc);
        if cp.val.pid == e.val.1.pid {
            let pushed = Evt {
                val: (e.val.0, e.val.1, cp.val),
                time: imax(e.time, cp.time),
                mult: e.mult * cp.mult,
            };
            lemma_weight_le_push(join_pair_province_one(e, rest), pushed, (o, u, p), q);
        }
        if e.val.0 == o && e.val.1 == u && p.pid == u.pid && e.time <= q {
            assert(e.mult * (w + dc) == e.mult * w + e.mult * dc) by (nonlinear_arith);
            if !(cp.val == p && cp.time <= q) {
                assert(e.mult * 0 == 0) by (nonlinear_arith);
            }
        }
    }
}

/// Accumulated weight of one order event's baseline matches through both
/// joins.
proof fn lemma_acc_oracle_mid(
    co: Evt<Order>,
    us: Seq<Evt<User>>,
    ps: Seq<Evt<Province>>,
    o: Order,
    u: User,
    p: Province,
    q: int,
)
    ensures
        weight_le(join_pair_province(join_order_user_one(co, us), ps), (o, u, p), q) == if co.val
            == o && u.uid == o.uid && p.pid == u.pid && co.time <= q {
            co.mult * weight_le(us, u, q) * weight_le(ps, p, q)
        } else {
            0
        },
    decreases us.len(),
{
    let wp = weight_le(ps, p, q);
    if us.len() == 0 {
        assert(co.mult * 0 * wp == 0) by (nonlinear_arith);
    } else {
        let cu = us.last();
        let rest = us.drop_last();
        lemma_acc_oracle_mid(co, rest, ps, o, u, p, q);
        let w = weight_le(rest, u, q);
        let dc: int = if cu.val == u && cu.time <= q {
            cu.mult
        } else {
            0
        };
        assert(weight_le(us, u, q) == w + dc);
        if cu.val.uid == co.val.uid {
            let e = Evt {
                val: (co.val, cu.val),
                time: imax(co.time, cu.time),
                mult: co.mult * cu.mult,
            };
            assert(join_order_user_one(co, us) == join_order_user_one(co, rest).push(e));
            assert(join_order_user_one(co, rest).push(e).drop_last() =~= join_order_user_one(
                co,
                rest,
            ));
            assert(join_pair_province(join_order_user_one(co, us), ps) == join_pair_province(
                join_order_user_one(co, rest),
                ps,
            ) + join_pair_province_one(e, ps));
            lemma_weight_le_concat(
                join_pair_province(join_order_user_one(co, rest), ps),
                join_pair_province_one(e, ps),
                (o, u, p),
                q,
            );
            lemma_acc_join_pair_one(e, ps, o, u, p, q);
            if co.val == o && u.uid == o.uid && p.pid == u.pid && co.time <= q {
                assert(co.mult * (w + dc) * wp == co.mult * w * wp + co.mult * dc * wp)
                    by (nonlinear_arith);
                if cu.val == u && cu.time <= q {
                    assert(dc == cu.mult);
                    assert((co.mult * cu.mult) * wp == co.mult * cu.mult * wp);
                } else {
                    assert(dc == 0);
                    assert(co.mult * 0 * wp == 0) by (nonlinear_arith);
                }
            }
        } else {
            assert(join_order_user_one(co, us) == join_order_user_one(co, rest));
            if co.val == o && u.uid == o.uid && p.pid == u.pid && co.time <= q {
                assert(dc == 0);
                assert(co.mult * (w + dc) * wp == co.mult * w * wp) by (nonlinear_arith)
                    requires
                        dc == 0,
                ;
            }
        }
    }
}

/// The baseline oracle accumulates to exactly the joined weight: the full
/// join of the three relations' states as of `q`.
pub proof fn lemma_acc_oracle(
    os: Seq<Evt<Order>>,
    us: Seq<Evt<User>>,
    ps: Seq<Evt<Province>>,
    o: Order,
    u: User,
    p: Province,
    q: int,
)
    ensures
        weight_le(regular_join_spec(os, us, ps), (o, u, p), q) == joined_weight(
            os,
            us,
            ps,
            o,
            u,
            p,
            q,
        ),
    decreases os.len(),
{
    let wu = weight_le(us, u, q);
    let wp = weight_le(ps, p, q);
    if os.len() == 0 {
        if keys_match(o, u, p) {
            assert(0 * wu * wp == 0) by (nonlinear_arith);
        }
    } else {
        let co = os.last();
        let rest = os.drop_last();
        lemma_acc_oracle(rest, us, ps, o, u, p, q);
        assert(join_order_user(os, us) == join_order_user(rest, us) + join_order_user_one(
            co,
            us,
        ));
        lemma_join_pair_province_concat(
            join_order_user(rest, us),
            join_order_user_one(co, us),
            ps,
        );
        lemma_weight_le_concat(
            join_pair_province(join_order_user(rest, us), ps),
            join_pair_province(join_order_user_one(co, us), ps),
            (o, u, p),
            q,
        );
        lemma_acc_oracle_mid(co, us, ps, o, u, p, q);
        let w = weight_le(rest, o, q);
        let d: int = if co.val == o && co.time <= q {
            co.mult
        } else {
            0
        };
        assert(weight_le(os, o, q) == w + d);
        if keys_match(o, u, p) {
            assert((w + d) * wu * wp == w * wu * wp + d * wu * wp) by (nonlinear_arith);
            if !(co.val == o && co.time <= q) {
                assert(0 * wu * wp == 0) by (nonlinear_arith);
            }
        }
    }
}

} // verus!

verus! {

/// The delta join is correct: its output, accumulated at any time `q`,
/// carries every joined tuple with exactly the weight of the full join of
/// the three relations' states as of `q`.
pub proof fn theorem_delta_join_correct(
    os: Seq<Evt<Order>>,
    us: Seq<Evt<User>>,
    ps: Seq<Evt<Province>>,
    o: Order,
    u: User,
    p: Province,
    q: int,
)
    ensures
        weight_at(delta_join_spec(os, us, ps), (o, u, p), q) == joined_weight(
            os,
            us,
            ps,
            o,
            u,
            p,
            q,
        ),
{
    lemma_weight_le_concat(
        order_path_spec(os, us, ps) + user_path_spec(os, us, ps),
        province_path_spec(os, us, ps),
        (o, u, p),
        q,
    );
    lemma_weight_le_concat(order_path_spec(os, us, ps), user_path_spec(os, us, ps), (o, u, p), q);
    lemma_acc_order_path(os, us, ps, o, u, p, q);
    lemma_acc_user_path(os, us, ps, o, u, p, q);
    lemma_acc_prov_path(os, us, ps, o, u, p, q);
    if keys_match(o, u, p) {
        lemma_delta_total(os, us, ps, o, u, p, q);
    }
}

/// The baseline join is correct in the same sense.
pub proof fn theorem_regular_join_correct(
    os: Seq<Evt<Order>>,
    us: Seq<Evt<User>>,
    ps: Seq<Evt<Province>>,
    o: Order,
    u: User,
    p: Province,
    q: int,
)
    ensures
        weight_at(regular_join_spec(os, us, ps), (o, u, p), q) == joined_weight(
            os,
            us,
            ps,
            o,
            u,
            p,
            q,
        ),
{
    lemma_acc_oracle(os, us, ps, o, u, p, q);
}

/// Equivalence of the delta join and the baseline oracle: for any finite,
/// arbitrarily interleaved change streams, the two outputs accumulate to the
/// same multiset of joined tuples at every time.
pub proof fn theorem_delta_matches_baseline(
    os: Seq<Evt<Order>>,
    us: Seq<Evt<User>>,
    ps: Seq<Evt<Province>>,
    o: Order,
    u: User,
    p: Province,
    q: int,
)
    ensures
        weight_at(delta_join_spec(os, us, ps), (o, u, p), q) == weight_at(
            regular_join_spec(os, us, ps),
            (o, u, p),
            q,
        ),
{
    theorem_delta_join_correct(os, us, ps, o, u, p, q);
    theorem_regular_join_correct(os, us, ps, o, u, p, q);
}

/// No double counting at ties: whenever the three matching records each have
/// weight one at time `t` — in particular when two of them were inserted
/// simultaneously at `t` — the combined tuple appears with weight exactly
/// one, never zero, never two.
pub proof fn theorem_tie_counted_once(
    os: Seq<Evt<Order>>,
    us: Seq<Evt<User>>,
    ps: Seq<Evt<Province>>,
    o: Order,
    u: User,
    p: Province,
    t: int,
)
    requires
        keys_match(o, u, p),
        weight_le(os, o, t) == 1,
        weight_le(us, u, t) == 1,
        weight_le(ps, p, t) == 1,
    ensures
        weight_at(delta_join_spec(os, us, ps), (o, u, p), t) == 1,
{
    theorem_delta_join_correct(os, us, ps, o, u, p, t);
}

/// Retraction cancellation, order relation: adding an insertion of a record
/// and its later deletion leaves the accumulated output unchanged from the
/// deletion's time on.
pub proof fn theorem_retraction_cancels_order(
    os: Seq<Evt<Order>>,
    us: Seq<Evt<User>>,
    ps: Seq<Evt<Province>>,
    rec: Order,
    t1: int,
    t2: int,
    m: int,
    o: Order,
    u: User,
    p: Province,
    q: int,
)
    requires
        t1 <= t2 <= q,
    ensures
        weight_at(
            delta_join_spec(
                os.push(Evt { val: rec, time: t1, mult: m }).push(
                    Evt { val: rec, time: t2, mult: -m },
                ),
                us,
                ps,
            ),
            (o, u, p),
            q,
        ) == weight_at(delta_join_spec(os, us, ps), (o, u, p), q),
{
    let os1 = os.push(Evt { val: rec, time: t1, mult: m });
    let os2 = os1.push(Evt { val: rec, time: t2, mult: -m });
    lemma_weight_le_push(os, Evt { val: rec, time: t1, mult: m }, o, q);
    lemma_weight_le_push(os1, Evt { val: rec, time: t2, mult: -m }, o, q);
    theorem_delta_join_correct(os2, us, ps, o, u, p, q);
    theorem_delta_join_correct(os, us, ps, o, u, p, q);
}

/// Retraction cancellation, user relation.
pub proof fn theorem_retraction_cancels_user(
    os: Seq<Evt<Order>>,
    us: Seq<Evt<User>>,
    ps: Seq<Evt<Province>>,
    rec: User,
    t1: int,
    t2: int,
    m: int,
    o: Order,
    u: User,
    p: Province,
    q: int,
)
    requires
        t1 <= t2 <= q,
    ensures
        weight_at(
            delta_join_spec(
                os,
                us.push(Evt { val: rec, time: t1, mult: m }).push(
                    Evt { val: rec, time: t2, mult: -m },
                ),
                ps,
            ),
            (o, u, p),
            q,
        ) == weight_at(delta_join_spec(os, us, ps), (o, u, p), q),
{
    let us1 = us.push(Evt { val: rec, time: t1, mult: m });
    let us2 = us1.push(Evt { val: rec, time: t2, mult: -m });
    lemma_weight_le_push(us, Evt { val: rec, time: t1, mult: m }, u, q);
    lemma_weight_le_push(us1, Evt { val: rec, time: t2, mult: -m }, u, q);
    theorem_delta_join_correct(os, us2, ps, o, u, p, q);
    theorem_delta_join_correct(os, us, ps, o, u, p, q);
}

/// Retraction cancellation, province relation.
pub proof fn theorem_retraction_cancels_province(
    os: Seq<Evt<Order>>,
    us: Seq<Evt<User>>,
    ps: Seq<Evt<Province>>,
    rec: Province,
    t1: int,
    t2: int,
    m: int,
    o: Order,
    u: User,
    p: Province,
    q: int,
)
    requires
        t1 <= t2 <= q,
    ensures
        weight_at(
            delta_join_spec(
                os,
                us,
                ps.push(Evt { val: rec, time: t1, mult: m }).push(
                    Evt { val: rec, time: t2, mult: -m },
                ),
            ),
            (o, u, p),
            q,
        ) == weight_at(delta_join_spec(os, us, ps), (o, u, p), q),
{
    let ps1 = ps.push(Evt { val: rec, time: t1, mult: m });
    let ps2 = ps1.push(Evt { val: rec, time: t2, mult: -m });
    lemma_weight_le_push(ps, Evt { val: rec, time: t1, mult: m }, p, q);
    lemma_weight_le_push(ps1, Evt { val: rec, time: t2, mult: -m }, p, q);
    theorem_delta_join_correct(os, us, ps2, o, u, p, q);
    theorem_delta_join_correct(os, us, ps, o, u, p, q);
}

/// The user relation's primary key is consistent: at every time, every user
/// record is present at most once and with nonnegative weight, and no two
/// distinct records present at once share a `uid`.
pub open spec fn user_key_consistent(us: Seq<Evt<User>>) -> bool {
    (forall|u1: User, t: int|
        0 <= #[trigger] weight_le(us, u1, t) && weight_le(us, u1, t) <= 1) && (forall|
        u1: User,
        u2: User,
        t: int,
    |
        u1.uid == u2.uid && u1 != u2 ==> (#[trigger] weight_le(us, u1, t)) * (#[trigger] weight_le(
            us,
            u2,
            t,
        )) == 0)
}

/// The key-only secondary index accumulates, for a key pair, exactly the
/// weight of the user record made of those two keys — a user record is
/// nothing but its two keys.
proof fn lemma_secondary_weight(us: Seq<Evt<User>>, pp: Pid, uu: Uid, t: int)
    ensures
        weight_le(secondary_index_spec(us), (pp, uu), t) == weight_le(
            us,
            User { uid: uu, pid: pp },
            t,
        ),
    decreases us.len(),
{
    let sec = secondary_index_spec(us);
    if us.len() == 0 {
        assert(sec.len() == 0);
    } else {
        assert(sec.drop_last() =~= secondary_index_spec(us.drop_last()));
        assert(sec.last() == Evt {
            val: (us.last().val.pid, us.last().val.uid),
            time: us.last().time,
            mult: us.last().mult,
        });
        lemma_secondary_weight(us.drop_last(), pp, uu, t);
        if us.last().val.pid == pp && us.last().val.uid == uu {
            assert(us.last().val == User { uid: uu, pid: pp });
        }
    }
}

/// Under a consistent user key, the late province path sums to exactly the
/// plain province path: the key-pair weight from the secondary index acts as
/// the indicator of the `pid` match.
proof fn lemma_late_sum_matches(
    os: Seq<Evt<Order>>,
    us: Seq<Evt<User>>,
    ps: Seq<Evt<Province>>,
    o: Order,
    u: User,
    p: Province,
    q: int,
)
    requires
        user_key_consistent(us),
    ensures
        province_path_late_sum(os, us, ps, o, u, p, q) == if u.pid == p.pid {
            province_path_sum(os, us, ps, o, u, p, q)
        } else {
            0
        },
    decreases ps.len(),
{
    if ps.len() == 0 {
    } else {
        let cp = ps.last();
        let rest = ps.drop_last();
        lemma_late_sum_matches(os, us, rest, o, u, p, q);
        if cp.val == p && cp.time <= q {
            lemma_secondary_weight(us, p.pid, u.uid, cp.time);
            let uprime = User { uid: u.uid, pid: p.pid };
            let wprime = weight_le(us, uprime, cp.time);
            let wu = weight_le(us, u, cp.time);
            let wo = weight_le(os, o, cp.time);
            if u.pid == p.pid {
                assert(uprime == u);
                assert(0 <= wu && wu <= 1);
                assert(cp.mult * wu * wu * wo == cp.mult * wu * wo) by (nonlinear_arith)
                    requires
                        0 <= wu && wu <= 1,
                ;
            } else {
                assert(uprime != u);
                assert(wprime * wu == 0);
                assert(cp.mult * wprime * wu * wo == 0) by (nonlinear_arith)
                    requires
                        wprime * wu == 0,
                ;
            }
        }
    }
}

/// Variant interchangeability: on inputs whose user relation keeps `uid` a
/// consistent primary key, the delta join and its late-materialization
/// variant accumulate to identical outputs at every time; only their index
/// footprints differ.
pub proof fn theorem_late_materialization_equivalent(
    os: Seq<Evt<Order>>,
    us: Seq<Evt<User>>,
    ps: Seq<Evt<Province>>,
    o: Order,
    u: User,
    p: Province,
    q: int,
)
    requires
        user_key_consistent(us),
    ensures
        weight_at(delta_join_late_spec(os, us, ps), (o, u, p), q) == weight_at(
            delta_join_spec(os, us, ps),
            (o, u, p),
            q,
        ),
{
    lemma_weight_le_concat(
        order_path_spec(os, us, ps) + user_path_spec(os, us, ps),
        province_path_spec(os, us, ps),
        (o, u, p),
        q,
    );
    lemma_weight_le_concat(
        order_path_spec(os, us, ps) + user_path_spec(os, us, ps),
        province_path_late_spec(os, us, ps),
        (o, u, p),
        q,
    );
    lemma_acc_prov_path(os, us, ps, o, u, p, q);
    lemma_acc_late_path(os, us, ps, o, u, p, q);
    lemma_late_sum_matches(os, us, ps, o, u, p, q);
}

} // verus!
