//! Why widening ends: every widening that changes an interval lowers a rank
//! that is a natural number, so a chain of widenings is stable after no more
//! steps than the rank of its first interval.

use vstd::prelude::*;
use crate::abstract_domains::abstract_domain::AbstractDomain;
use crate::abstract_domains::ext_int::ExtInt;
use crate::abstract_domains::interval::{lemma_normal_fits, DomainBounds, Interval};
use crate::abstract_domains::range::{
    bounds_fit, lemma_normal_idempotent, lemma_threshold_above_exists,
    lemma_threshold_below_exists, Range,
};

verus! {

/// The number of thresholds strictly below `x`.
pub open spec fn count_below(ts: Seq<i64>, x: ExtInt) -> nat
    decreases ts.len(),
{
    if ts.len() == 0 {
        0
    } else {
        count_below(ts.drop_last(), x) + if ExtInt::Fin(ts.last() as int).lt(x) {
            1nat
        } else {
            0nat
        }
    }
}

/// The number of thresholds strictly above `x`.
pub open spec fn count_above(ts: Seq<i64>, x: ExtInt) -> nat
    decreases ts.len(),
{
    if ts.len() == 0 {
        0
    } else {
        count_above(ts.drop_last(), x) + if x.lt(ExtInt::Fin(ts.last() as int)) {
            1nat
        } else {
            0nat
        }
    }
}

/// The rank of a range: for each endpoint, zero if it is infinite, else one
/// more than the number of thresholds beyond it; for an empty range, more
/// than the rank of any other.
pub open spec fn rank(ts: Seq<i64>, r: Range) -> nat {
    if r.is_empty() {
        2 * ts.len() + 3
    } else {
        (if r.lo is NegInf {
            0nat
        } else {
            1 + count_below(ts, r.lo)
        }) + (if r.hi is PosInf {
            0nat
        } else {
            1 + count_above(ts, r.hi)
        })
    }
}

/// No more thresholds are counted than there are, and a greater bound
/// counts at least as many below it; one more where a threshold lies
/// between the two bounds.
pub proof fn lemma_count_below(ts: Seq<i64>, a: ExtInt, b: ExtInt)
    requires
        a.le(b),
    ensures
        count_below(ts, a) <= count_below(ts, b) <= ts.len(),
        (exists|t: i64| ts.contains(t) && a.le(ExtInt::Fin(t as int)) && ExtInt::Fin(t as int).lt(b))
            ==> count_below(ts, a) < count_below(ts, b),
    decreases ts.len(),
{
    if ts.len() > 0 {
        let rest = ts.drop_last();
        lemma_count_below(rest, a, b);
        if exists|t: i64| ts.contains(t) && a.le(ExtInt::Fin(t as int)) && ExtInt::Fin(t as int).lt(b) {
            let t = choose|t: i64|
                ts.contains(t) && a.le(ExtInt::Fin(t as int)) && ExtInt::Fin(t as int).lt(b);
            let k = choose|k: int| 0 <= k < ts.len() && ts[k] == t;
            if k < rest.len() {
                assert(rest[k] == t);
                assert(rest.contains(t));
            } else {
                assert(ts.last() == t);
            }
        }
    }
}

/// The same for the thresholds above a bound.
pub proof fn lemma_count_above(ts: Seq<i64>, a: ExtInt, b: ExtInt)
    requires
        a.le(b),
    ensures
        count_above(ts, b) <= count_above(ts, a) <= ts.len(),
        (exists|t: i64| ts.contains(t) && a.lt(ExtInt::Fin(t as int)) && ExtInt::Fin(t as int).le(b))
            ==> count_above(ts, b) < count_above(ts, a),
    decreases ts.len(),
{
    if ts.len() > 0 {
        let rest = ts.drop_last();
        lemma_count_above(rest, a, b);
        if exists|t: i64| ts.contains(t) && a.lt(ExtInt::Fin(t as int)) && ExtInt::Fin(t as int).le(b) {
            let t = choose|t: i64|
                ts.contains(t) && a.lt(ExtInt::Fin(t as int)) && ExtInt::Fin(t as int).le(b);
            let k = choose|k: int| 0 <= k < ts.len() && ts[k] == t;
            if k < rest.len() {
                assert(rest[k] == t);
                assert(rest.contains(t));
            } else {
                assert(ts.last() == t);
            }
        }
    }
}

/// A widening of normal forms, put in normal form, is the first operand or
/// has a lower rank.
pub proof fn lemma_widened_rank(x: Range, y: Range, ts: Seq<i64>, m: ExtInt, n: ExtInt)
    requires
        bounds_fit(m, n),
        x.is_normal(m, n),
        y.is_normal(m, n),
    ensures
        x.widened(y, ts.to_set()).normal(m, n) == x || rank(ts, x.widened(y, ts.to_set()).normal(m, n))
            < rank(ts, x),
{
    let set = ts.to_set();
    let w = x.widened(y, set).normal(m, n);
    if x.is_empty() {
        if !y.is_empty() {
            lemma_count_below(ts, y.lo, y.lo);
            lemma_count_above(ts, y.hi, y.hi);
        }
    } else if y.is_empty() {
    } else {
        let raw = x.widened(y, set);
        if !x.lo.le(y.lo) {
            lemma_threshold_below_exists(set, y.lo);
            let t = Range::threshold_below(set, y.lo);
            assert(t.lt(x.lo));
            lemma_count_below(ts, t, x.lo);
            if let ExtInt::Fin(v) = t {
                let u = choose|u: i64| #[trigger] set.contains(u) && t == ExtInt::Fin(u as int);
                assert(ts.contains(u));
                assert(ts.contains(u) && t.le(ExtInt::Fin(u as int)) && ExtInt::Fin(u as int).lt(
                    x.lo,
                ));
            }
        }
        if !y.hi.le(x.hi) {
            lemma_threshold_above_exists(set, y.hi);
            let t = Range::threshold_above(set, y.hi);
            assert(x.hi.lt(t));
            lemma_count_above(ts, x.hi, t);
            if let ExtInt::Fin(v) = t {
                let u = choose|u: i64| #[trigger] set.contains(u) && t == ExtInt::Fin(u as int);
                assert(ts.contains(u));
                assert(ts.contains(u) && x.hi.lt(ExtInt::Fin(u as int)) && ExtInt::Fin(
                    u as int,
                ).le(t));
            }
        }
        lemma_count_below(ts, raw.lo, x.lo);
        lemma_count_above(ts, x.hi, raw.hi);
        if m.le(n) {
            lemma_count_below(ts, w.lo, x.lo);
            lemma_count_above(ts, x.hi, w.hi);
            lemma_count_below(ts, w.lo, raw.lo);
            lemma_count_above(ts, raw.hi, w.hi);
        } else {
            lemma_count_below(ts, x.lo, x.lo);
            lemma_count_above(ts, x.hi, x.hi);
        }
    }
}

/// The rank of an interval: that of its normal form.
pub open spec fn interval_rank(ts: Seq<i64>, v: Interval, bounds: DomainBounds) -> nat {
    rank(ts, v.normal(bounds))
}

/// A widening leaves its first operand as it is, or lowers its rank.
pub proof fn lemma_widening_progress(v: Interval, w: Interval, ts: Seq<i64>, bounds: DomainBounds)
    ensures
        v.spec_widening(w, ts.to_set(), bounds).spec_eq(v, bounds) || interval_rank(
            ts,
            v.spec_widening(w, ts.to_set(), bounds),
            bounds,
        ) < interval_rank(ts, v, bounds),
{
    let (m, n) = (bounds.m@, bounds.n@);
    let (x, y) = (v.normal(bounds), w.normal(bounds));
    lemma_normal_idempotent(v@, m, n);
    lemma_normal_idempotent(w@, m, n);
    lemma_normal_fits(x.widened(y, ts.to_set()), m, n);
    lemma_normal_idempotent(x.widened(y, ts.to_set()), m, n);
    lemma_widened_rank(x, y, ts, m, n);
}

/// The `k`-th element of the chain that starts with `x0` and goes from `x`
/// to `x widen (x lub f(x))`.
pub open spec fn chain(
    x0: Interval,
    f: spec_fn(Interval) -> Interval,
    ts: Seq<i64>,
    bounds: DomainBounds,
    k: nat,
) -> Interval
    decreases k,
{
    if k == 0 {
        x0
    } else {
        let x = chain(x0, f, ts, bounds, (k - 1) as nat);
        x.spec_widening(x.spec_lub(f(x), bounds), ts.to_set(), bounds)
    }
}

/// Whether the chain is stable at `k`: its next element equals the `k`-th.
pub open spec fn stable_at(
    x0: Interval,
    f: spec_fn(Interval) -> Interval,
    ts: Seq<i64>,
    bounds: DomainBounds,
    k: nat,
) -> bool {
    chain(x0, f, ts, bounds, k + 1).spec_eq(chain(x0, f, ts, bounds, k), bounds)
}

/// Before the chain is stable, each step lowers the rank.
proof fn lemma_chain_descends(
    x0: Interval,
    f: spec_fn(Interval) -> Interval,
    ts: Seq<i64>,
    bounds: DomainBounds,
    k: nat,
)
    ensures
        (exists|j: nat| j < k && stable_at(x0, f, ts, bounds, j)) || interval_rank(
            ts,
            chain(x0, f, ts, bounds, k),
            bounds,
        ) + k <= interval_rank(ts, x0, bounds),
    decreases k,
{
    if k > 0 {
        let j = (k - 1) as nat;
        lemma_chain_descends(x0, f, ts, bounds, j);
        let x = chain(x0, f, ts, bounds, j);
        lemma_widening_progress(x, x.spec_lub(f(x), bounds), ts, bounds);
        if !(exists|i: nat| i < j && stable_at(x0, f, ts, bounds, i)) {
            if stable_at(x0, f, ts, bounds, j) {
                assert(j < k && stable_at(x0, f, ts, bounds, j));
            }
        } else {
            let i = choose|i: nat| i < j && stable_at(x0, f, ts, bounds, i);
            assert(i < k && stable_at(x0, f, ts, bounds, i));
        }
    }
}

/// Iterating `x := x widen (x lub f(x))` from `x0` is stable after no more
/// steps than the rank of `x0`, whatever `f` is.
pub proof fn lemma_widening_stabilises(
    x0: Interval,
    f: spec_fn(Interval) -> Interval,
    ts: Seq<i64>,
    bounds: DomainBounds,
)
    ensures
        exists|k: nat| k <= interval_rank(ts, x0, bounds) && stable_at(x0, f, ts, bounds, k),
{
    let k = interval_rank(ts, x0, bounds) + 1;
    lemma_chain_descends(x0, f, ts, bounds, k);
    let j = choose|j: nat| j < k && stable_at(x0, f, ts, bounds, j);
    assert(j <= interval_rank(ts, x0, bounds) && stable_at(x0, f, ts, bounds, j));
}

} // verus!
