//! Change events and multiset semantics.
//!
//! A relation is given as a vector of change events `(value, time,
//! multiplicity)`. The state of the relation at a time `t` is the weighted
//! multiset obtained by summing the multiplicities of all events with time at
//! most `t`: the accumulated weight `weight_at`, through which every contract
//! of this crate speaks; `weight_between` is the same summation over a window
//! of times.

use vstd::prelude::*;

verus! {

/// Bound demanded of every input multiplicity, so that the product of up to
/// four multiplicities (the deepest chain of half-join steps) stays within
/// `i64`.
pub const MULT_BOUND: i64 = 32768;

/// A change event: at time `time`, the multiplicity of `val` in its relation
/// changes by `mult` (`+1` insert, `-1` delete, general integer weight).
#[derive(Clone, Debug, PartialEq, Eq)]
pub struct Change<V> {
    pub val: V,
    pub time: u64,
    pub mult: i64,
}

/// The mathematical image of a change event: the same triple over unbounded
/// integers.
pub ghost struct Evt<V> {
    pub val: V,
    pub time: int,
    pub mult: int,
}

impl<V> View for Change<V> {
    type V = Evt<V>;

    open spec fn view(&self) -> Evt<V> {
        Evt { val: self.val, time: self.time as int, mult: self.mult as int }
    }
}

/// The sequence of events that a vector of changes denotes.
pub open spec fn evts<V>(s: Seq<Change<V>>) -> Seq<Evt<V>> {
    s.map_values(|c: Change<V>| c@)
}

/// Sum of the multiplicities of the events for value `v` whose time lies in
/// `[lo, hi]`.
pub open spec fn weight_between<V>(s: Seq<Evt<V>>, v: V, lo: int, hi: int) -> int
    decreases s.len(),
{
    if s.len() == 0 {
        0
    } else {
        weight_between(s.drop_last(), v, lo, hi) + {
            let c = s.last();
            if c.val == v && lo <= c.time && c.time <= hi {
                c.mult
            } else {
                0
            }
        }
    }
}

/// The accumulated weight of `v` at time `t`: the multiset semantics of a
/// change stream.
pub open spec fn weight_at<V>(s: Seq<Evt<V>>, v: V, t: int) -> int {
    weight_le(s, v, t)
}

/// Every multiplicity of `s` lies in `[-b, b]`.
pub open spec fn mults_bounded<V>(s: Seq<Evt<V>>, b: int) -> bool {
    forall|i: int| 0 <= i < s.len() ==> -b <= (#[trigger] s[i]).mult && s[i].mult <= b
}

/// The greater of two integers.
pub open spec fn imax(a: int, b: int) -> int {
    if a >= b {
        a
    } else {
        b
    }
}

pub proof fn lemma_push_drop_last<T>(s: Seq<T>, e: T)
    ensures
        s.push(e).drop_last() == s,
        s.push(e).last() == e,
{
    assert(s.push(e).drop_last() =~= s);
}

pub proof fn lemma_evts_push<V>(s: Seq<Change<V>>, c: Change<V>)
    ensures
        evts(s.push(c)) == evts(s).push(c@),
{
    assert(evts(s.push(c)) =~= evts(s).push(c@));
}

pub proof fn lemma_evts_concat<V>(a: Seq<Change<V>>, b: Seq<Change<V>>)
    ensures
        evts(a + b) == evts(a) + evts(b),
{
    assert(evts(a + b) =~= evts(a) + evts(b));
}

/// A window with no times in it sums to nothing.
pub proof fn lemma_weight_void<V>(s: Seq<Evt<V>>, v: V, lo: int, hi: int)
    requires
        lo > hi,
    ensures
        weight_between(s, v, lo, hi) == 0,
    decreases s.len(),
{
    if s.len() > 0 {
        lemma_weight_void(s.drop_last(), v, lo, hi);
    }
}

} // verus!

verus! {

/// Sum of the multiplicities of the events for value `v` with time at most
/// `hi`: the weight of `v` in the relation's state as of `hi`.
pub open spec fn weight_le<V>(s: Seq<Evt<V>>, v: V, hi: int) -> int
    decreases s.len(),
{
    if s.len() == 0 {
        0
    } else {
        weight_le(s.drop_last(), v, hi) + {
            let c = s.last();
            if c.val == v && c.time <= hi {
                c.mult
            } else {
                0
            }
        }
    }
}

pub proof fn lemma_weight_le_push<V>(s: Seq<Evt<V>>, e: Evt<V>, v: V, hi: int)
    ensures
        weight_le(s.push(e), v, hi) == weight_le(s, v, hi) + if e.val == v && e.time <= hi {
            e.mult
        } else {
            0
        },
{
    lemma_push_drop_last(s, e);
}

pub proof fn lemma_weight_le_concat<V>(a: Seq<Evt<V>>, b: Seq<Evt<V>>, v: V, hi: int)
    ensures
        weight_le(a + b, v, hi) == weight_le(a, v, hi) + weight_le(b, v, hi),
    decreases b.len(),
{
    if b.len() == 0 {
        assert(a + b =~= a);
    } else {
        assert((a + b).drop_last() =~= a + b.drop_last());
        assert((a + b).last() == b.last());
        lemma_weight_le_concat(a, b.drop_last(), v, hi);
    }
}

/// Cutting the prefix weight at `m`: everything up to `hi` is everything up
/// to `m` plus the window `(m, hi]`.
pub proof fn lemma_weight_le_split<V>(s: Seq<Evt<V>>, v: V, m: int, hi: int)
    requires
        m <= hi,
    ensures
        weight_le(s, v, hi) == weight_le(s, v, m) + weight_between(s, v, m + 1, hi),
    decreases s.len(),
{
    if s.len() > 0 {
        lemma_weight_le_split(s.drop_last(), v, m, hi);
    }
}

} // verus!
