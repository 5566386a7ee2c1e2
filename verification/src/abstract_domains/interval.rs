//! The interval domain, coarsened by two configurable bounds.
//!
//! An interval is a pair of endpoints. What it stands for is read off its
//! normal form under the bounds of the domain: every operation takes its
//! operands to normal form first and gives its result in normal form, so
//! that intervals with the same normal form are interchangeable.

use vstd::prelude::*;
use vstd::std_specs::convert::{FromSpecImpl, TryFromSpecImpl};
use vstd::string::StringExecFns;
use crate::abstract_domains::abstract_domain::{AbstractDomain, IntervalBound};
use crate::abstract_domains::ext_int::{int_of_text, int_text, small, ExtInt, Int, Wide};
use crate::abstract_domains::range::{
    lemma_threshold_above_unique, lemma_threshold_below_unique, Range,
};
use crate::text::{
    chars_of, pieces, split_ranges, strip_range, texts, trim_range, trimmed,
    without_leading_char, without_trailing_char,
};

verus! {

/// The bounds `M` and `N` of the domain. With `M <= N` finite endpoints are
/// kept between them; with `M > N` only constants are representable.
#[derive(Clone, Copy, Debug, PartialEq, Eq, Structural)]
pub struct DomainBounds {
    pub m: Int,
    pub n: Int,
}

/// An interval `<low, upper>` of extended integers.
#[derive(Clone, Copy, Debug)]
pub struct Interval {
    pub low: Int,
    pub upper: Int,
}

/// The interval with the two finite endpoints, as they are given.
impl From<[i64; 2]> for Interval {
    fn from(value: [i64; 2]) -> (r: Interval) {
        Interval { low: Int::Num(value[0]), upper: Int::Num(value[1]) }
    }
}

impl FromSpecImpl<[i64; 2]> for Interval {
    open spec fn obeys_from_spec() -> bool {
        true
    }

    open spec fn from_spec(value: [i64; 2]) -> Interval {
        Interval { low: Int::Num(value[0]), upper: Int::Num(value[1]) }
    }
}

impl View for Interval {
    type V = Range;

    open spec fn view(&self) -> Range {
        Range { lo: self.low@, hi: self.upper@ }
    }
}

/// The endpoints of a normal form fit machine integers.
pub proof fn lemma_normal_fits(r: Range, m: ExtInt, n: ExtInt)
    requires
        m.fits(),
        n.fits(),
    ensures
        r.normal(m, n).lo.fits(),
        r.normal(m, n).hi.fits(),
        Interval::of(r.normal(m, n))@ == r.normal(m, n),
{
}

/// An interval is the one that its view names.
pub proof fn lemma_of_view(x: Interval)
    ensures
        Interval::of(x@) == x,
{
    crate::abstract_domains::ext_int::lemma_of_view(x.low);
    crate::abstract_domains::ext_int::lemma_of_view(x.upper);
}

/// The normal form of the range `<lo, hi>` under `bounds`.
fn normal_of(lo: Wide, hi: Wide, bounds: &DomainBounds) -> (r: Interval)
    ensures
        r@ == (Range { lo: lo@, hi: hi@ }).normal(bounds.m@, bounds.n@),
{
    let empty = !lo.le(hi) || matches!(lo, Wide::PosInf) || matches!(hi, Wide::NegInf);
    if empty {
        return Interval { low: Int::Num(1), upper: Int::Num(0) };
    }
    if !bounds.m.le(bounds.n) {
        return match (lo, hi) {
            (Wide::Num(a), Wide::Num(b)) if a == b && i64::MIN as i128 <= a && a <= i64::MAX as i128 => {
                Interval { low: Int::Num(a as i64), upper: Int::Num(a as i64) }
            },
            _ => Interval { low: Int::NegInf, upper: Int::PosInf },
        };
    }
    let floor = Wide::of(bounds.m).max(Wide::Num(i64::MIN as i128));
    let ceil = Wide::of(bounds.n).min(Wide::Num(i64::MAX as i128));
    let low = if lo.lt(floor) {
        Wide::NegInf
    } else if ceil.lt(lo) {
        ceil
    } else {
        lo
    };
    let upper = if ceil.lt(hi) {
        Wide::PosInf
    } else if hi.lt(floor) {
        floor
    } else {
        hi
    };
    Interval { low: low.narrow(), upper: upper.narrow() }
}

/// The greatest of `thresholds` at or below `x`, or minus infinity.
fn greatest_threshold_below(thresholds: &Vec<i64>, x: Int) -> (t: Int)
    ensures
        Range::is_threshold_below(thresholds@.to_set(), x@, t@),
{
    let mut t = Int::NegInf;
    let mut i: usize = 0;
    while i < thresholds.len()
        invariant
            i <= thresholds.len(),
            t@.le(x@),
            t is NegInf || exists|j: int| 0 <= j < i && t == Int::Num(#[trigger] thresholds[j]),
            forall|j: int|
                0 <= j < i && ExtInt::Fin(#[trigger] thresholds[j] as int).le(x@) ==> ExtInt::Fin(
                    thresholds[j] as int,
                ).le(t@),
        decreases thresholds.len() - i,
    {
        let c = Int::Num(thresholds[i]);
        if c.le(x) && !c.le(t) {
            t = c;
        }
        i += 1;
    }
    proof {
        let ts = thresholds@.to_set();
        if !(t is NegInf) {
            let j = choose|j: int| 0 <= j < i && t == Int::Num(#[trigger] thresholds[j]);
            assert(thresholds@.contains(thresholds[j]));
            assert(ts.contains(thresholds[j]) && t@ == ExtInt::Fin(thresholds[j] as int));
        }
        assert forall|v: i64| #[trigger] ts.contains(v) && ExtInt::Fin(v as int).le(x@) implies ExtInt::Fin(
            v as int,
        ).le(t@) by {
            let j = choose|j: int| 0 <= j < thresholds@.len() && thresholds@[j] == v;
            assert(ExtInt::Fin(thresholds[j] as int).le(x@));
        }
    }
    t
}

/// The least of `thresholds` at or above `x`, or plus infinity.
fn least_threshold_above(thresholds: &Vec<i64>, x: Int) -> (t: Int)
    ensures
        Range::is_threshold_above(thresholds@.to_set(), x@, t@),
{
    let mut t = Int::PosInf;
    let mut i: usize = 0;
    while i < thresholds.len()
        invariant
            i <= thresholds.len(),
            x@.le(t@),
            t is PosInf || exists|j: int| 0 <= j < i && t == Int::Num(#[trigger] thresholds[j]),
            forall|j: int|
                0 <= j < i && x@.le(ExtInt::Fin(#[trigger] thresholds[j] as int)) ==> t@.le(
                    ExtInt::Fin(thresholds[j] as int),
                ),
        decreases thresholds.len() - i,
    {
        let c = Int::Num(thresholds[i]);
        if x.le(c) && !t.le(c) {
            t = c;
        }
        i += 1;
    }
    proof {
        let ts = thresholds@.to_set();
        if !(t is PosInf) {
            let j = choose|j: int| 0 <= j < i && t == Int::Num(#[trigger] thresholds[j]);
            assert(thresholds@.contains(thresholds[j]));
            assert(ts.contains(thresholds[j]) && t@ == ExtInt::Fin(thresholds[j] as int));
        }
        assert forall|v: i64| #[trigger] ts.contains(v) && x@.le(ExtInt::Fin(v as int)) implies t@.le(
            ExtInt::Fin(v as int),
        ) by {
            let j = choose|j: int| 0 <= j < thresholds@.len() && thresholds@[j] == v;
            assert(x@.le(ExtInt::Fin(thresholds[j] as int)));
        }
    }
    t
}

/// The interval that a text writes: two extended integers between brackets
/// with a comma between them, of which the first is not `inf` and the second
/// not `-inf`, or a single decimal integer for the interval of that integer.
/// White space around the text and around each number is passed over, and
/// the brackets may be missing.
pub open spec fn interval_of_text(s: Seq<char>) -> Option<Interval> {
    let inner = without_trailing_char(without_leading_char(trimmed(s), '['), ']');
    let parts = pieces(inner, ',');
    if parts.len() == 2 {
        match (int_of_text(parts[0]), int_of_text(parts[1])) {
            (Some(low), Some(upper)) => if low != Int::PosInf && upper != Int::NegInf {
                Some(Interval { low, upper })
            } else {
                None
            },
            _ => None,
        }
    } else if parts.len() == 1 {
        match int_of_text(parts[0]) {
            Some(Int::Num(c)) => Some(Interval { low: Int::Num(c), upper: Int::Num(c) }),
            _ => None,
        }
    } else {
        None
    }
}

/// The text of an interval: `[low,upper]`.
pub open spec fn interval_text(x: Interval) -> Seq<char> {
    seq!['['] + int_text(x.low) + seq![','] + int_text(x.upper) + seq![']']
}

/// The error of a text that writes no interval: the text.
#[derive(Debug, Clone, Copy)]
pub struct BadInterval<'a>(pub &'a str);

impl<'a> BadInterval<'a> {
    /// The text of the error.
    pub fn message(&self) -> (r: String)
        ensures
            r@ == "invalid conversion "@ + self.0@ + " -> Interval"@,
    {
        let mut out = String::new();
        out.append("invalid conversion ");
        out.append(self.0);
        out.append(" -> Interval");
        assert(out@ =~= "invalid conversion "@ + self.0@ + " -> Interval"@);
        out
    }
}

impl<'a> TryFrom<&'a str> for Interval {
    type Error = BadInterval<'a>;

    fn try_from(value: &'a str) -> (r: Result<Interval, BadInterval<'a>>) {
        match Interval::parse(value) {
            Some(x) => Ok(x),
            None => Err(BadInterval(value)),
        }
    }
}

impl<'a> TryFromSpecImpl<&'a str> for Interval {
    open spec fn obeys_try_from_spec() -> bool {
        true
    }

    open spec fn try_from_spec(value: &'a str) -> Result<Interval, BadInterval<'a>> {
        match interval_of_text(value@) {
            Some(x) => Ok(x),
            None => Err(BadInterval(value)),
        }
    }
}

/// The extended integer that an endpoint stands for.
pub open spec fn bound_value(b: IntervalBound) -> ExtInt {
    match b {
        IntervalBound::NegInf => ExtInt::NegInf,
        IntervalBound::Num(x) => ExtInt::Fin(x as int),
        IntervalBound::PosInf => ExtInt::PosInf,
    }
}

impl Interval {
    /// The interval with the given endpoints, which must fit machine integers.
    pub open spec fn of(r: Range) -> Interval
        recommends
            r.lo.fits(),
            r.hi.fits(),
    {
        Interval { low: Int::of(r.lo), upper: Int::of(r.hi) }
    }

    /// The normal form of the interval's range under `bounds`.
    pub open spec fn normal(self, bounds: DomainBounds) -> Range {
        self@.normal(bounds.m@, bounds.n@)
    }

    /// Whether the integer `z` is among those that the interval denotes
    /// under `bounds`: the members of its normal form.
    pub open spec fn denotes(self, bounds: DomainBounds, z: int) -> bool {
        self.normal(bounds).contains(z)
    }

    /// The interval in normal form.
    pub fn normalized(&self, bounds: &DomainBounds) -> (r: Interval)
        ensures
            r@ == self.normal(*bounds),
    {
        normal_of(Wide::of(self.low), Wide::of(self.upper), bounds)
    }

    /// The order of two intervals, if they are ordered: equal where they
    /// denote the same integers, less where `self` denotes fewer, greater
    /// where it denotes more.
    pub open spec fn compared(self, other: Interval, bounds: DomainBounds) -> Option<
        core::cmp::Ordering,
    > {
        if self.normal(bounds) == other.normal(bounds) {
            Some(core::cmp::Ordering::Equal)
        } else if self.normal(bounds).subset_of(other.normal(bounds)) {
            Some(core::cmp::Ordering::Less)
        } else if other.normal(bounds).subset_of(self.normal(bounds)) {
            Some(core::cmp::Ordering::Greater)
        } else {
            None
        }
    }

    /// Compares two intervals by inclusion. Intervals of which neither
    /// includes the other are not ordered.
    pub fn partial_cmp(&self, other: &Interval, bounds: &DomainBounds) -> (r: Option<
        core::cmp::Ordering,
    >)
        ensures
            r == self.compared(*other, *bounds),
    {
        if self.eq(other, bounds) {
            Some(core::cmp::Ordering::Equal)
        } else if self.le(other, bounds) {
            Some(core::cmp::Ordering::Less)
        } else if other.le(self, bounds) {
            Some(core::cmp::Ordering::Greater)
        } else {
            None
        }
    }

    /// Whether the interval holds no integer.
    pub fn is_empty(&self) -> (r: bool)
        ensures
            r == self@.is_empty(),
    {
        !self.low.le(self.upper) || self.low == Int::PosInf || self.upper == Int::NegInf
    }

    /// The quotients of the endpoints of `<a, b>` by those of `<c, d>`.
    fn corner_quotient(a: Wide, b: Wide, c: Wide, d: Wide) -> (r: (Wide, Wide))
        requires
            small(a@),
            small(b@),
            small(c@),
            small(d@),
        ensures
            (Range { lo: r.0@, hi: r.1@ }) == (Range { lo: a@, hi: b@ }).corner_quotient(
                Range { lo: c@, hi: d@ },
            ),
            small(r.0@),
            small(r.1@),
    {
        let ac = a.over(c);
        let ad = a.over(d);
        let bc = b.over(c);
        let bd = b.over(d);
        (ac.min(ad).min(bc.min(bd)), ac.max(ad).max(bc.max(bd)))
    }
}

impl AbstractDomain for Interval {
    type Bounds = DomainBounds;

    open spec fn spec_top() -> Interval {
        Interval { low: Int::NegInf, upper: Int::PosInf }
    }

    open spec fn spec_bottom() -> Interval {
        Interval { low: Int::Num(1), upper: Int::Num(0) }
    }

    open spec fn spec_eq(self, other: Interval, bounds: DomainBounds) -> bool {
        self.normal(bounds) == other.normal(bounds)
    }

    open spec fn spec_le(self, other: Interval, bounds: DomainBounds) -> bool {
        self.normal(bounds).subset_of(other.normal(bounds))
    }

    open spec fn spec_lub(self, other: Interval, bounds: DomainBounds) -> Interval {
        Interval::of(self.normal(bounds).join(other.normal(bounds)).normal(bounds.m@, bounds.n@))
    }

    open spec fn spec_glb(self, other: Interval, bounds: DomainBounds) -> Interval {
        Interval::of(self.normal(bounds).meet(other.normal(bounds)).normal(bounds.m@, bounds.n@))
    }

    open spec fn spec_add(self, rhs: Interval, bounds: DomainBounds) -> Interval {
        Interval::of(self.normal(bounds).sum(rhs.normal(bounds)).normal(bounds.m@, bounds.n@))
    }

    open spec fn spec_sub(self, rhs: Interval, bounds: DomainBounds) -> Interval {
        Interval::of(
            self.normal(bounds).difference(rhs.normal(bounds)).normal(bounds.m@, bounds.n@),
        )
    }

    open spec fn spec_mul(self, rhs: Interval, bounds: DomainBounds) -> Interval {
        Interval::of(self.normal(bounds).product(rhs.normal(bounds)).normal(bounds.m@, bounds.n@))
    }

    open spec fn spec_div(self, rhs: Interval, bounds: DomainBounds) -> Interval {
        Interval::of(self.normal(bounds).quotient(rhs.normal(bounds)).normal(bounds.m@, bounds.n@))
    }

    open spec fn spec_constant(c: i64, bounds: DomainBounds) -> Interval {
        Interval::of(Range::singleton(c as int).normal(bounds.m@, bounds.n@))
    }

    open spec fn spec_interval(low: IntervalBound, upper: IntervalBound, bounds: DomainBounds) -> Interval {
        Interval::of(
            (Range { lo: bound_value(low), hi: bound_value(upper) }).normal(bounds.m@, bounds.n@),
        )
    }

    /// The lattice has infinite ascending chains when the bounds are ordered
    /// and one of them is infinite.
    open spec fn spec_needs_widening(bounds: DomainBounds) -> bool {
        bounds.m@.le(bounds.n@) && (bounds.m is NegInf || bounds.n is PosInf)
    }

    open spec fn spec_widening(self, rhs: Interval, thresholds: Set<i64>, bounds: DomainBounds) -> Interval {
        Interval::of(
            self.normal(bounds).widened(rhs.normal(bounds), thresholds).normal(
                bounds.m@,
                bounds.n@,
            ),
        )
    }

    open spec fn spec_narrowing(self, rhs: Interval, bounds: DomainBounds) -> Interval {
        Interval::of(
            self.normal(bounds).narrowed(rhs.normal(bounds)).normal(bounds.m@, bounds.n@),
        )
    }

    open spec fn spec_parse(text: Seq<char>) -> Option<Interval> {
        interval_of_text(text)
    }

    /// The text of the normal form.
    open spec fn spec_text(self, bounds: DomainBounds) -> Seq<char> {
        interval_text(Interval::of(self.normal(bounds)))
    }

    fn top() -> (r: Interval) {
        Interval { low: Int::NegInf, upper: Int::PosInf }
    }

    fn parse(text: &str) -> (r: Option<Interval>) {
        let v = chars_of(text);
        assert(v@.subrange(0, v@.len() as int) == v@);
        let (a, b) = trim_range(&v, 0, v.len());
        let (a, b) = strip_range(&v, a, b, '[', ']');
        let parts = split_ranges(&v, a, b, ',');
        let ghost spec_parts = pieces(v@.subrange(a as int, b as int), ',');
        assert(spec_parts.len() == parts@.len());
        if parts.len() == 2 {
            assert(spec_parts[0] == texts(v@, parts@)[0]);
            assert(spec_parts[1] == texts(v@, parts@)[1]);
            let low = Int::parse_range(&v, parts[0].0, parts[0].1);
            let upper = Int::parse_range(&v, parts[1].0, parts[1].1);
            match (low, upper) {
                (Some(low), Some(upper)) => {
                    if low != Int::PosInf && upper != Int::NegInf {
                        Some(Interval { low, upper })
                    } else {
                        None
                    }
                },
                _ => None,
            }
        } else if parts.len() == 1 {
            assert(spec_parts[0] == texts(v@, parts@)[0]);
            match Int::parse_range(&v, parts[0].0, parts[0].1) {
                Some(Int::Num(c)) => Some(Interval { low: Int::Num(c), upper: Int::Num(c) }),
                _ => None,
            }
        } else {
            None
        }
    }

    fn to_text(&self, bounds: &DomainBounds) -> (r: String) {
        let x = self.normalized(bounds);
        proof {
            lemma_of_view(x);
            reveal_strlit("[");
            reveal_strlit(",");
            reveal_strlit("]");
        }
        let mut out = String::new();
        out.append("[");
        out.append(x.low.to_text().as_str());
        out.append(",");
        out.append(x.upper.to_text().as_str());
        out.append("]");
        assert(out@ =~= interval_text(x));
        out
    }

    fn bottom() -> (r: Interval) {
        Interval { low: Int::Num(1), upper: Int::Num(0) }
    }

    fn eq(&self, other: &Interval, bounds: &DomainBounds) -> (r: bool) {
        let x = self.normalized(bounds);
        let y = other.normalized(bounds);
        proof {
            lemma_of_view(x);
            lemma_of_view(y);
        }
        x.low == y.low && x.upper == y.upper
    }

    fn le(&self, other: &Interval, bounds: &DomainBounds) -> (r: bool) {
        let x = self.normalized(bounds);
        let y = other.normalized(bounds);
        x.is_empty() || (!y.is_empty() && y.low.le(x.low) && x.upper.le(y.upper))
    }

    fn lub(&self, other: &Interval, bounds: &DomainBounds) -> (r: Interval)
        ensures
            r@ == self.normal(*bounds).join(other.normal(*bounds)).normal(bounds.m@, bounds.n@),
    {
        let x = self.normalized(bounds);
        let y = other.normalized(bounds);
        let r = if x.is_empty() {
            y
        } else if y.is_empty() {
            x
        } else {
            Interval { low: x.low.min(y.low), upper: x.upper.max(y.upper) }
        };
        let r = r.normalized(bounds);
        proof {
            lemma_of_view(r);
        }
        r
    }

    fn glb(&self, other: &Interval, bounds: &DomainBounds) -> (r: Interval)
        ensures
            r@ == self.normal(*bounds).meet(other.normal(*bounds)).normal(bounds.m@, bounds.n@),
    {
        let x = self.normalized(bounds);
        let y = other.normalized(bounds);
        let r = if x.is_empty() || y.is_empty() {
            Interval { low: Int::Num(1), upper: Int::Num(0) }
        } else {
            Interval { low: x.low.max(y.low), upper: x.upper.min(y.upper) }
        };
        let r = r.normalized(bounds);
        proof {
            lemma_of_view(r);
        }
        r
    }

    fn add(self, rhs: Interval, bounds: &DomainBounds) -> (r: Interval)
        ensures
            r@ == self.normal(*bounds).sum(rhs.normal(*bounds)).normal(bounds.m@, bounds.n@),
    {
        let x = self.normalized(bounds);
        let y = rhs.normalized(bounds);
        let r = if x.is_empty() || y.is_empty() {
            normal_of(Wide::Num(1), Wide::Num(0), bounds)
        } else {
            let lo = Wide::of(x.low).plus(Wide::of(y.low));
            let hi = Wide::of(x.upper).plus(Wide::of(y.upper));
            normal_of(lo, hi, bounds)
        };
        proof {
            lemma_of_view(r);
        }
        r
    }

    fn sub(self, rhs: Interval, bounds: &DomainBounds) -> (r: Interval)
        ensures
            r@ == self.normal(*bounds).difference(rhs.normal(*bounds)).normal(bounds.m@, bounds.n@),
    {
        let x = self.normalized(bounds);
        let y = rhs.normalized(bounds);
        let r = if x.is_empty() || y.is_empty() {
            normal_of(Wide::Num(1), Wide::Num(0), bounds)
        } else {
            let lo = Wide::of(x.low).minus(Wide::of(y.upper));
            let hi = Wide::of(x.upper).minus(Wide::of(y.low));
            normal_of(lo, hi, bounds)
        };
        proof {
            lemma_of_view(r);
        }
        r
    }

    fn mul(self, rhs: Interval, bounds: &DomainBounds) -> (r: Interval)
        ensures
            r@ == self.normal(*bounds).product(rhs.normal(*bounds)).normal(bounds.m@, bounds.n@),
    {
        let x = self.normalized(bounds);
        let y = rhs.normalized(bounds);
        let r = if x.is_empty() || y.is_empty() {
            normal_of(Wide::Num(1), Wide::Num(0), bounds)
        } else {
            let (a, b, c, d) = (Wide::of(x.low), Wide::of(x.upper), Wide::of(y.low), Wide::of(y.upper));
            let ac = a.times(c);
            let ad = a.times(d);
            let bc = b.times(c);
            let bd = b.times(d);
            normal_of(ac.min(ad).min(bc.min(bd)), ac.max(ad).max(bc.max(bd)), bounds)
        };
        proof {
            lemma_of_view(r);
        }
        r
    }

    fn div(self, rhs: Interval, bounds: &DomainBounds) -> (r: Interval)
        ensures
            r@ == self.normal(*bounds).quotient(rhs.normal(*bounds)).normal(bounds.m@, bounds.n@),
    {
        let x = self.normalized(bounds);
        let y = rhs.normalized(bounds);
        let zero = Int::Num(0);
        let r = if x.is_empty() || y.is_empty() || (y.low == zero && y.upper == zero) {
            normal_of(Wide::Num(1), Wide::Num(0), bounds)
        } else {
            let (a, b, c, d) = (Wide::of(x.low), Wide::of(x.upper), Wide::of(y.low), Wide::of(y.upper));
            if zero.le(y.low) {
                let q = Interval::corner_quotient(a, b, c, d);
                normal_of(q.0, q.1, bounds)
            } else if y.upper.le(zero) {
                let q = Interval::corner_quotient(b.negated(), a.negated(), d.negated(), c.negated());
                normal_of(q.0, q.1, bounds)
            } else {
                let below = Interval::corner_quotient(
                    b.negated(),
                    a.negated(),
                    Wide::Num(0),
                    c.negated(),
                );
                let above = Interval::corner_quotient(a, b, Wide::Num(0), d);
                // Neither part is empty: the join is the hull of both.
                normal_of(below.0.min(above.0), below.1.max(above.1), bounds)
            }
        };
        proof {
            lemma_of_view(r);
        }
        r
    }

    fn constant_abstraction(c: i64, bounds: &DomainBounds) -> (r: Interval)
        ensures
            r@ == Range::singleton(c as int).normal(bounds.m@, bounds.n@),
    {
        let r = normal_of(Wide::Num(c as i128), Wide::Num(c as i128), bounds);
        proof {
            lemma_of_view(r);
        }
        r
    }

    fn interval_abstraction(low: IntervalBound, upper: IntervalBound, bounds: &DomainBounds) -> (r:
        Interval)
        ensures
            r@ == (Range { lo: bound_value(low), hi: bound_value(upper) }).normal(
                bounds.m@,
                bounds.n@,
            ),
    {
        let lo = match low {
            IntervalBound::NegInf => Wide::NegInf,
            IntervalBound::Num(x) => Wide::Num(x as i128),
            IntervalBound::PosInf => Wide::PosInf,
        };
        let hi = match upper {
            IntervalBound::NegInf => Wide::NegInf,
            IntervalBound::Num(x) => Wide::Num(x as i128),
            IntervalBound::PosInf => Wide::PosInf,
        };
        let r = normal_of(lo, hi, bounds);
        proof {
            lemma_of_view(r);
        }
        r
    }

    fn needs_widening(bounds: &DomainBounds) -> (r: bool) {
        bounds.m.le(bounds.n) && (bounds.m == Int::NegInf || bounds.n == Int::PosInf)
    }

    fn widening_operator(&self, rhs: &Interval, thresholds: &Vec<i64>, bounds: &DomainBounds) -> (r:
        Interval)
        ensures
            r@ == self.normal(*bounds).widened(rhs.normal(*bounds), thresholds@.to_set()).normal(
                bounds.m@,
                bounds.n@,
            ),
    {
        let x = self.normalized(bounds);
        let y = rhs.normalized(bounds);
        let r = if x.is_empty() {
            y
        } else if y.is_empty() {
            x
        } else {
            let low = if x.low.le(y.low) {
                x.low
            } else {
                let t = greatest_threshold_below(thresholds, y.low);
                proof {
                    lemma_threshold_below_unique(thresholds@.to_set(), y.low@, t@);
                }
                t
            };
            let upper = if y.upper.le(x.upper) {
                x.upper
            } else {
                let t = least_threshold_above(thresholds, y.upper);
                proof {
                    lemma_threshold_above_unique(thresholds@.to_set(), y.upper@, t@);
                }
                t
            };
            Interval { low, upper }
        };
        let r = r.normalized(bounds);
        proof {
            lemma_of_view(r);
        }
        r
    }

    fn narrowing(&self, rhs: &Interval, bounds: &DomainBounds) -> (r: Interval)
        ensures
            r@ == self.normal(*bounds).narrowed(rhs.normal(*bounds)).normal(bounds.m@, bounds.n@),
    {
        let x = self.normalized(bounds);
        let y = rhs.normalized(bounds);
        let o = if y.is_empty() {
            Interval { low: Int::PosInf, upper: Int::NegInf }
        } else {
            y
        };
        let r = if x.is_empty() {
            Interval { low: Int::Num(1), upper: Int::Num(0) }
        } else {
            Interval {
                low: if x.low == Int::NegInf { o.low } else { x.low },
                upper: if x.upper == Int::PosInf { o.upper } else { x.upper },
            }
        };
        let r = r.normalized(bounds);
        proof {
            lemma_of_view(r);
        }
        r
    }
}

} // verus!
