//! The mathematical model of the interval domain: pairs of extended integers
//! read as sets of integers, and the operations on them.

use vstd::prelude::*;
use crate::abstract_domains::ext_int::ExtInt;

verus! {

/// The smallest and the largest of four extended integers.
pub open spec fn min4(a: ExtInt, b: ExtInt, c: ExtInt, d: ExtInt) -> ExtInt {
    a.min(b).min(c.min(d))
}

pub open spec fn max4(a: ExtInt, b: ExtInt, c: ExtInt, d: ExtInt) -> ExtInt {
    a.max(b).max(c.max(d))
}

/// The least finite lower bound that a machine interval can carry, given the
/// domain's lower bound `m`.
pub open spec fn floor_bound(m: ExtInt) -> ExtInt {
    m.max(ExtInt::Fin(i64::MIN as int))
}

/// The greatest finite upper bound that a machine interval can carry, given
/// the domain's upper bound `n`.
pub open spec fn ceil_bound(n: ExtInt) -> ExtInt {
    n.min(ExtInt::Fin(i64::MAX as int))
}

/// A pair of endpoints `<lo, hi>`, standing for the integers between them.
pub struct Range {
    pub lo: ExtInt,
    pub hi: ExtInt,
}

impl Range {
    /// Whether the range holds no integer.
    pub open spec fn is_empty(self) -> bool {
        !self.lo.le(self.hi) || self.lo is PosInf || self.hi is NegInf
    }

    /// Membership in the concretization.
    pub open spec fn contains(self, z: int) -> bool {
        self.lo.le(ExtInt::Fin(z)) && ExtInt::Fin(z).le(self.hi)
    }

    /// The canonical empty range.
    pub open spec fn bottom() -> Range {
        Range { lo: ExtInt::Fin(1), hi: ExtInt::Fin(0) }
    }

    pub open spec fn top() -> Range {
        Range { lo: ExtInt::NegInf, hi: ExtInt::PosInf }
    }

    pub open spec fn singleton(c: int) -> Range {
        Range { lo: ExtInt::Fin(c), hi: ExtInt::Fin(c) }
    }

    /// Inclusion of concretizations.
    pub open spec fn subset_of(self, other: Range) -> bool {
        self.is_empty() || (!other.is_empty() && other.lo.le(self.lo) && self.hi.le(other.hi))
    }

    /// The normal form of a range under the domain bounds `m` and `n`.
    ///
    /// An empty range becomes the canonical bottom. With `m > n` only
    /// singletons survive and every other range becomes top. Otherwise each
    /// endpoint is moved outward to the nearest of minus infinity, a value
    /// between the bounds, and plus infinity. The bounds are first cut to the
    /// range of `i64`, so that a normal form always fits machine endpoints.
    pub open spec fn normal(self, m: ExtInt, n: ExtInt) -> Range {
        if self.is_empty() {
            Range::bottom()
        } else if !m.le(n) {
            if self.lo == self.hi && self.lo.fits() {
                self
            } else {
                Range::top()
            }
        } else {
            let lo = if self.lo.lt(floor_bound(m)) {
                ExtInt::NegInf
            } else if ceil_bound(n).lt(self.lo) {
                ceil_bound(n)
            } else {
                self.lo
            };
            let hi = if ceil_bound(n).lt(self.hi) {
                ExtInt::PosInf
            } else if self.hi.lt(floor_bound(m)) {
                floor_bound(m)
            } else {
                self.hi
            };
            Range { lo, hi }
        }
    }

    /// Whether the range is its own normal form.
    pub open spec fn is_normal(self, m: ExtInt, n: ExtInt) -> bool {
        self.normal(m, n) == self
    }

    /// The hull of the union.
    pub open spec fn join(self, other: Range) -> Range {
        if self.is_empty() {
            other
        } else if other.is_empty() {
            self
        } else {
            Range { lo: self.lo.min(other.lo), hi: self.hi.max(other.hi) }
        }
    }

    /// The intersection.
    pub open spec fn meet(self, other: Range) -> Range {
        if self.is_empty() || other.is_empty() {
            Range::bottom()
        } else {
            Range { lo: self.lo.max(other.lo), hi: self.hi.min(other.hi) }
        }
    }

    /// `<a, b> + <c, d> = <a + c, b + d>`; empty if an operand is.
    pub open spec fn sum(self, other: Range) -> Range {
        if self.is_empty() || other.is_empty() {
            Range::bottom()
        } else {
            Range { lo: self.lo.plus(other.lo), hi: self.hi.plus(other.hi) }
        }
    }

    /// `<a, b> - <c, d> = <a - d, b - c>`; empty if an operand is.
    pub open spec fn difference(self, other: Range) -> Range {
        if self.is_empty() || other.is_empty() {
            Range::bottom()
        } else {
            Range { lo: self.lo.minus(other.hi), hi: self.hi.minus(other.lo) }
        }
    }

    /// The least and the greatest of the four products of endpoints; empty if
    /// an operand is.
    pub open spec fn product(self, other: Range) -> Range {
        if self.is_empty() || other.is_empty() {
            Range::bottom()
        } else {
            let (a, b, c, d) = (self.lo, self.hi, other.lo, other.hi);
            Range {
                lo: min4(a.times(c), a.times(d), b.times(c), b.times(d)),
                hi: max4(a.times(c), a.times(d), b.times(c), b.times(d)),
            }
        }
    }

    /// `<-b, -a>`.
    pub open spec fn negated(self) -> Range {
        Range { lo: self.hi.negated(), hi: self.lo.negated() }
    }

    /// The least and the greatest of the four quotients of endpoints.
    pub open spec fn corner_quotient(self, other: Range) -> Range {
        let (a, b, c, d) = (self.lo, self.hi, other.lo, other.hi);
        Range {
            lo: min4(a.over(c), a.over(d), b.over(c), b.over(d)),
            hi: max4(a.over(c), a.over(d), b.over(c), b.over(d)),
        }
    }

    /// Division. Empty if an operand is or if the divisor is `<0, 0>`. With a
    /// divisor at or above zero, the quotients of the endpoints; with one at
    /// or below zero, the same after negating both operands; with zero
    /// strictly inside the divisor, the join of the division by its part
    /// below zero and the division by its part above.
    pub open spec fn quotient(self, other: Range) -> Range {
        let zero = ExtInt::Fin(0);
        if self.is_empty() || other.is_empty() || other == Range::singleton(0) {
            Range::bottom()
        } else if zero.le(other.lo) {
            self.corner_quotient(other)
        } else if other.hi.le(zero) {
            self.negated().corner_quotient(other.negated())
        } else {
            let below = Range { lo: other.lo, hi: zero };
            let above = Range { lo: zero, hi: other.hi };
            self.negated().corner_quotient(below.negated()).join(self.corner_quotient(above))
        }
    }

    /// Whether `t` is the greatest threshold at or below `x`, or minus
    /// infinity where there is none.
    pub open spec fn is_threshold_below(thresholds: Set<i64>, x: ExtInt, t: ExtInt) -> bool {
        &&& t.le(x)
        &&& t is NegInf || exists|v: i64| #[trigger] thresholds.contains(v) && t == ExtInt::Fin(v as int)
        &&& forall|v: i64| #[trigger]
            thresholds.contains(v) && ExtInt::Fin(v as int).le(x) ==> ExtInt::Fin(v as int).le(t)
    }

    /// Whether `t` is the least threshold at or above `x`, or plus infinity
    /// where there is none.
    pub open spec fn is_threshold_above(thresholds: Set<i64>, x: ExtInt, t: ExtInt) -> bool {
        &&& x.le(t)
        &&& t is PosInf || exists|v: i64| #[trigger] thresholds.contains(v) && t == ExtInt::Fin(v as int)
        &&& forall|v: i64| #[trigger]
            thresholds.contains(v) && x.le(ExtInt::Fin(v as int)) ==> t.le(ExtInt::Fin(v as int))
    }

    pub open spec fn threshold_below(thresholds: Set<i64>, x: ExtInt) -> ExtInt {
        choose|t: ExtInt| Range::is_threshold_below(thresholds, x, t)
    }

    pub open spec fn threshold_above(thresholds: Set<i64>, x: ExtInt) -> ExtInt {
        choose|t: ExtInt| Range::is_threshold_above(thresholds, x, t)
    }

    /// Widening with thresholds: an endpoint of `self` that `other` stays
    /// within is kept; a lower endpoint that `other` undercuts drops to the
    /// greatest threshold at or below it, an upper endpoint that `other`
    /// exceeds rises to the least threshold at or above it.
    pub open spec fn widened(self, other: Range, thresholds: Set<i64>) -> Range {
        if self.is_empty() {
            other
        } else if other.is_empty() {
            self
        } else {
            Range {
                lo: if self.lo.le(other.lo) {
                    self.lo
                } else {
                    Range::threshold_below(thresholds, other.lo)
                },
                hi: if other.hi.le(self.hi) {
                    self.hi
                } else {
                    Range::threshold_above(thresholds, other.hi)
                },
            }
        }
    }

    /// Narrowing: an infinite endpoint of `self` is replaced by that of
    /// `other`, a finite one is kept. An empty `other` counts as
    /// `<+inf, -inf>`.
    pub open spec fn narrowed(self, other: Range) -> Range {
        let o = if other.is_empty() {
            Range { lo: ExtInt::PosInf, hi: ExtInt::NegInf }
        } else {
            other
        };
        if self.is_empty() {
            Range::bottom()
        } else {
            Range {
                lo: if self.lo is NegInf { o.lo } else { self.lo },
                hi: if self.hi is PosInf { o.hi } else { self.hi },
            }
        }
    }
}

/// Whether `m` and `n` can be the views of machine bounds.
pub open spec fn bounds_fit(m: ExtInt, n: ExtInt) -> bool {
    m.fits() && n.fits()
}

/// Normalising twice is normalising once.
pub proof fn lemma_normal_idempotent(r: Range, m: ExtInt, n: ExtInt)
    requires
        bounds_fit(m, n),
    ensures
        r.normal(m, n).is_normal(m, n),
{
}

/// A normal form holds every integer of the range it was made from.
pub proof fn lemma_normal_extensive(r: Range, m: ExtInt, n: ExtInt)
    requires
        bounds_fit(m, n),
    ensures
        r.subset_of(r.normal(m, n)),
        forall|z: int| r.contains(z) ==> #[trigger] r.normal(m, n).contains(z),
{
}

/// Normalisation is monotone.
pub proof fn lemma_normal_monotone(r: Range, s: Range, m: ExtInt, n: ExtInt)
    requires
        bounds_fit(m, n),
        r.subset_of(s),
    ensures
        r.normal(m, n).subset_of(s.normal(m, n)),
{
}

/// With ordered bounds, joins and meets of normal forms need no further
/// normalisation, but for an empty meet.
pub proof fn lemma_join_meet_of_normal(x: Range, y: Range, m: ExtInt, n: ExtInt)
    requires
        bounds_fit(m, n),
        m.le(n),
        x.is_normal(m, n),
        y.is_normal(m, n),
    ensures
        x.join(y).is_normal(m, n),
        !x.meet(y).is_empty() ==> x.meet(y).is_normal(m, n),
{
}

/// Normalised joins are associative on normal forms.
pub proof fn lemma_join_associative(x: Range, y: Range, z: Range, m: ExtInt, n: ExtInt)
    requires
        bounds_fit(m, n),
        x.is_normal(m, n),
        y.is_normal(m, n),
        z.is_normal(m, n),
    ensures
        x.join(y).normal(m, n).join(z).normal(m, n) == x.join(y.join(z).normal(m, n)).normal(m, n),
{
    if m.le(n) {
        lemma_join_meet_of_normal(x, y, m, n);
        lemma_join_meet_of_normal(y, z, m, n);
        lemma_join_meet_of_normal(x.join(y), z, m, n);
        lemma_join_meet_of_normal(x, y.join(z), m, n);
    }
}

/// Normalised meets are associative on normal forms.
pub proof fn lemma_meet_associative(x: Range, y: Range, z: Range, m: ExtInt, n: ExtInt)
    requires
        bounds_fit(m, n),
        x.is_normal(m, n),
        y.is_normal(m, n),
        z.is_normal(m, n),
    ensures
        x.meet(y).normal(m, n).meet(z).normal(m, n) == x.meet(y.meet(z).normal(m, n)).normal(m, n),
{
    if m.le(n) {
        lemma_join_meet_of_normal(x, y, m, n);
        lemma_join_meet_of_normal(y, z, m, n);
        if !x.meet(y).is_empty() {
            lemma_join_meet_of_normal(x.meet(y), z, m, n);
        }
        if !y.meet(z).is_empty() {
            lemma_join_meet_of_normal(x, y.meet(z), m, n);
        }
    }
}

/// A normalised join is above both operands, a normalised meet below both.
pub proof fn lemma_join_above_meet_below(x: Range, y: Range, m: ExtInt, n: ExtInt)
    requires
        bounds_fit(m, n),
        x.is_normal(m, n),
        y.is_normal(m, n),
    ensures
        x.subset_of(x.join(y).normal(m, n)),
        y.subset_of(x.join(y).normal(m, n)),
        x.meet(y).normal(m, n).subset_of(x),
        x.meet(y).normal(m, n).subset_of(y),
{
    if m.le(n) {
        lemma_join_meet_of_normal(x, y, m, n);
    }
}

/// Among the thresholds at or below `x` that are at most `k`, there is a
/// greatest one, or there is none.
proof fn lemma_scan_down(thresholds: Set<i64>, x: ExtInt, k: int)
    requires
        i64::MIN - 1 <= k <= i64::MAX,
        forall|v: i64| #[trigger] thresholds.contains(v) && ExtInt::Fin(v as int).le(x) ==> v <= k,
    ensures
        exists|t: ExtInt| Range::is_threshold_below(thresholds, x, t),
    decreases k - (i64::MIN - 1),
{
    if k == i64::MIN - 1 {
        assert(Range::is_threshold_below(thresholds, x, ExtInt::NegInf));
    } else if thresholds.contains(k as i64) && ExtInt::Fin(k).le(x) {
        assert(Range::is_threshold_below(thresholds, x, ExtInt::Fin(k)));
    } else {
        lemma_scan_down(thresholds, x, k - 1);
    }
}

/// Among the thresholds at or above `x` that are at least `k`, there is a
/// least one, or there is none.
proof fn lemma_scan_up(thresholds: Set<i64>, x: ExtInt, k: int)
    requires
        i64::MIN <= k <= i64::MAX + 1,
        forall|v: i64| #[trigger] thresholds.contains(v) && x.le(ExtInt::Fin(v as int)) ==> v >= k,
    ensures
        exists|t: ExtInt| Range::is_threshold_above(thresholds, x, t),
    decreases i64::MAX + 1 - k,
{
    if k == i64::MAX + 1 {
        assert(Range::is_threshold_above(thresholds, x, ExtInt::PosInf));
    } else if thresholds.contains(k as i64) && x.le(ExtInt::Fin(k)) {
        assert(Range::is_threshold_above(thresholds, x, ExtInt::Fin(k)));
    } else {
        lemma_scan_up(thresholds, x, k + 1);
    }
}

/// There is a greatest threshold at or below `x`, or minus infinity stands
/// for it.
pub proof fn lemma_threshold_below_exists(thresholds: Set<i64>, x: ExtInt)
    ensures
        Range::is_threshold_below(thresholds, x, Range::threshold_below(thresholds, x)),
{
    lemma_scan_down(thresholds, x, i64::MAX as int);
}

/// There is a least threshold at or above `x`, or plus infinity stands for
/// it.
pub proof fn lemma_threshold_above_exists(thresholds: Set<i64>, x: ExtInt)
    ensures
        Range::is_threshold_above(thresholds, x, Range::threshold_above(thresholds, x)),
{
    lemma_scan_up(thresholds, x, i64::MIN as int);
}

/// A widened range is above the join of its operands.
pub proof fn lemma_widened_above_join(x: Range, y: Range, thresholds: Set<i64>)
    ensures
        x.join(y).subset_of(x.widened(y, thresholds)),
{
    if !x.is_empty() && !y.is_empty() {
        if !x.lo.le(y.lo) {
            lemma_threshold_below_exists(thresholds, y.lo);
        }
        if !y.hi.le(x.hi) {
            lemma_threshold_above_exists(thresholds, y.hi);
        }
    }
}

/// At most one value is the greatest threshold at or below `x`.
pub proof fn lemma_threshold_below_unique(thresholds: Set<i64>, x: ExtInt, t: ExtInt)
    requires
        Range::is_threshold_below(thresholds, x, t),
    ensures
        Range::threshold_below(thresholds, x) == t,
{
    let u = Range::threshold_below(thresholds, x);
    assert(Range::is_threshold_below(thresholds, x, u));
    if t is Fin {
        let v = choose|v: i64| #[trigger] thresholds.contains(v) && t == ExtInt::Fin(v as int);
        assert(thresholds.contains(v) && ExtInt::Fin(v as int).le(x));
    }
    if u is Fin {
        let w = choose|w: i64| #[trigger] thresholds.contains(w) && u == ExtInt::Fin(w as int);
        assert(thresholds.contains(w) && ExtInt::Fin(w as int).le(x));
    }
}

/// At most one value is the least threshold at or above `x`.
pub proof fn lemma_threshold_above_unique(thresholds: Set<i64>, x: ExtInt, t: ExtInt)
    requires
        Range::is_threshold_above(thresholds, x, t),
    ensures
        Range::threshold_above(thresholds, x) == t,
{
    let u = Range::threshold_above(thresholds, x);
    assert(Range::is_threshold_above(thresholds, x, u));
    if t is Fin {
        let v = choose|v: i64| #[trigger] thresholds.contains(v) && t == ExtInt::Fin(v as int);
        assert(thresholds.contains(v) && x.le(ExtInt::Fin(v as int)));
    }
    if u is Fin {
        let w = choose|w: i64| #[trigger] thresholds.contains(w) && u == ExtInt::Fin(w as int);
        assert(thresholds.contains(w) && x.le(ExtInt::Fin(w as int)));
    }
}

} // verus!
