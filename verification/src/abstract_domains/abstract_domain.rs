//! The interface of a numeric abstract domain.

use vstd::prelude::*;
use crate::parser::ast::Operator;

verus! {

/// An endpoint handed to a domain when an interval is to be abstracted.
#[derive(Clone, Copy, Debug, PartialEq, Eq, Structural)]
pub enum IntervalBound {
    NegInf,
    Num(i64),
    PosInf,
}

/// Whether `<low, upper>` can be abstracted: the lower endpoint is not plus
/// infinity and the upper one is not minus infinity.
pub open spec fn interval_defined(low: IntervalBound, upper: IntervalBound) -> bool {
    !(low is PosInf) && !(upper is NegInf)
}

/// A lattice of abstract numeric values with arithmetic, an optional widening
/// and a narrowing.
///
/// Every operation is a function of its arguments and of the domain's
/// configuration `Bounds`: each executable method returns exactly what the
/// specification function of the same name says.
pub trait AbstractDomain: Sized + Copy {
    /// The configuration that the operations are read under.
    type Bounds;

    /// The greatest element: every integer.
    spec fn spec_top() -> Self;

    /// The least element: no integer.
    spec fn spec_bottom() -> Self;

    /// Whether two values denote the same set under the configuration.
    spec fn spec_eq(self, other: Self, bounds: Self::Bounds) -> bool;

    /// Whether `self` denotes a subset of what `other` denotes.
    spec fn spec_le(self, other: Self, bounds: Self::Bounds) -> bool;

    /// The least upper bound.
    spec fn spec_lub(self, other: Self, bounds: Self::Bounds) -> Self;

    /// The greatest lower bound.
    spec fn spec_glb(self, other: Self, bounds: Self::Bounds) -> Self;

    /// The forward operator of addition.
    spec fn spec_add(self, rhs: Self, bounds: Self::Bounds) -> Self;

    /// The forward operator of subtraction.
    spec fn spec_sub(self, rhs: Self, bounds: Self::Bounds) -> Self;

    /// The forward operator of multiplication.
    spec fn spec_mul(self, rhs: Self, bounds: Self::Bounds) -> Self;

    /// The forward operator of division.
    spec fn spec_div(self, rhs: Self, bounds: Self::Bounds) -> Self;

    /// The abstraction of the single integer `c`.
    spec fn spec_constant(c: i64, bounds: Self::Bounds) -> Self;

    /// The abstraction of the integers from `low` to `upper`.
    spec fn spec_interval(low: IntervalBound, upper: IntervalBound, bounds: Self::Bounds) -> Self;

    /// Whether ascending chains need a widening to stabilise.
    spec fn spec_needs_widening(bounds: Self::Bounds) -> bool;

    /// The widening of `self` by `rhs`, with the given thresholds.
    spec fn spec_widening(self, rhs: Self, thresholds: Set<i64>, bounds: Self::Bounds) -> Self;

    /// The narrowing of `self` by `rhs`.
    spec fn spec_narrowing(self, rhs: Self, bounds: Self::Bounds) -> Self;

    /// The value that a text writes, if it writes one.
    spec fn spec_parse(text: Seq<char>) -> Option<Self>;

    /// The text of a value.
    spec fn spec_text(self, bounds: Self::Bounds) -> Seq<char>;

    /// The greatest element.
    fn top() -> (r: Self)
        ensures
            r == Self::spec_top(),
    ;

    /// The least element.
    fn bottom() -> (r: Self)
        ensures
            r == Self::spec_bottom(),
    ;

    /// Equality of what the two values denote.
    fn eq(&self, other: &Self, bounds: &Self::Bounds) -> (r: bool)
        ensures
            r == self.spec_eq(*other, *bounds),
    ;

    /// The order of the lattice.
    fn le(&self, other: &Self, bounds: &Self::Bounds) -> (r: bool)
        ensures
            r == self.spec_le(*other, *bounds),
    ;

    /// The least upper bound.
    fn lub(&self, other: &Self, bounds: &Self::Bounds) -> (r: Self)
        ensures
            r == self.spec_lub(*other, *bounds),
    ;

    /// The greatest lower bound.
    fn glb(&self, other: &Self, bounds: &Self::Bounds) -> (r: Self)
        ensures
            r == self.spec_glb(*other, *bounds),
    ;

    /// The forward operator of addition.
    fn add(self, rhs: Self, bounds: &Self::Bounds) -> (r: Self)
        ensures
            r == self.spec_add(rhs, *bounds),
    ;

    /// The forward operator of subtraction.
    fn sub(self, rhs: Self, bounds: &Self::Bounds) -> (r: Self)
        ensures
            r == self.spec_sub(rhs, *bounds),
    ;

    /// The forward operator of multiplication.
    fn mul(self, rhs: Self, bounds: &Self::Bounds) -> (r: Self)
        ensures
            r == self.spec_mul(rhs, *bounds),
    ;

    /// The forward operator of division.
    fn div(self, rhs: Self, bounds: &Self::Bounds) -> (r: Self)
        ensures
            r == self.spec_div(rhs, *bounds),
    ;

    /// The abstraction of the single integer `c`.
    fn constant_abstraction(c: i64, bounds: &Self::Bounds) -> (r: Self)
        ensures
            r == Self::spec_constant(c, *bounds),
    ;

    /// The abstraction of the integers from `low` to `upper`.
    fn interval_abstraction(low: IntervalBound, upper: IntervalBound, bounds: &Self::Bounds) -> (r:
        Self)
        requires
            interval_defined(low, upper),
        ensures
            r == Self::spec_interval(low, upper, *bounds),
    ;

    /// Whether ascending chains need a widening to stabilise.
    fn needs_widening(bounds: &Self::Bounds) -> (r: bool)
        ensures
            r == Self::spec_needs_widening(*bounds),
    ;

    /// The widening of `self` by `rhs`, with the given thresholds.
    fn widening_operator(&self, rhs: &Self, thresholds: &Vec<i64>, bounds: &Self::Bounds) -> (r:
        Self)
        ensures
            r == self.spec_widening(*rhs, thresholds@.to_set(), *bounds),
    ;

    /// The narrowing of `self` by `rhs`.
    fn narrowing(&self, rhs: &Self, bounds: &Self::Bounds) -> (r: Self)
        ensures
            r == self.spec_narrowing(*rhs, *bounds),
    ;

    /// Reads a value.
    fn parse(text: &str) -> (r: Option<Self>)
        ensures
            r == Self::spec_parse(text@),
    ;

    /// Writes the value.
    fn to_text(&self, bounds: &Self::Bounds) -> (r: String)
        ensures
            r@ == self.spec_text(*bounds),
    ;
}

/// The refinement of the operands `lhs` and `rhs` of an operation whose
/// result is known to lie in `result`:
///
/// - `+`: `lhs` meets `result - rhs`, `rhs` meets `result - lhs`;
/// - `-`: `lhs` meets `result + rhs`, `rhs` meets `lhs - result`;
/// - `*`: `lhs` meets `result / rhs`, `rhs` meets `result / lhs`;
/// - `/`: with `s = result + <-1, 1>` for the truncation, `lhs` meets
///   `s * rhs`, `rhs` meets the join of `lhs / s` and `<0, 0>`.
pub open spec fn backward<D: AbstractDomain>(
    lhs: D,
    rhs: D,
    result: D,
    operator: Operator,
    bounds: D::Bounds,
) -> (D, D) {
    match operator {
        Operator::Add => (
            lhs.spec_glb(result.spec_sub(rhs, bounds), bounds),
            rhs.spec_glb(result.spec_sub(lhs, bounds), bounds),
        ),
        Operator::Sub => (
            lhs.spec_glb(result.spec_add(rhs, bounds), bounds),
            rhs.spec_glb(lhs.spec_sub(result, bounds), bounds),
        ),
        Operator::Mul => (
            lhs.spec_glb(result.spec_div(rhs, bounds), bounds),
            rhs.spec_glb(result.spec_div(lhs, bounds), bounds),
        ),
        Operator::Div => {
            let unit = D::spec_interval(IntervalBound::Num(-1i64), IntervalBound::Num(1), bounds);
            let zero = D::spec_interval(IntervalBound::Num(0), IntervalBound::Num(0), bounds);
            let s = result.spec_add(unit, bounds);
            (
                lhs.spec_glb(s.spec_mul(rhs, bounds), bounds),
                rhs.spec_glb(lhs.spec_div(s, bounds).spec_lub(zero, bounds), bounds),
            )
        },
    }
}

/// Refines the operands of `lhs operator rhs` from a known `result`.
pub fn backward_arithmetic_operator<D: AbstractDomain>(
    lhs: D,
    rhs: D,
    result: D,
    operator: Operator,
    bounds: &D::Bounds,
) -> (r: [D; 2])
    ensures
        (r[0], r[1]) == backward::<D>(lhs, rhs, result, operator, *bounds),
{
    match operator {
        Operator::Add => {
            let lhs_ref = lhs.glb(&result.sub(rhs, bounds), bounds);
            let rhs_ref = rhs.glb(&result.sub(lhs, bounds), bounds);
            [lhs_ref, rhs_ref]
        },
        Operator::Sub => {
            let lhs_ref = lhs.glb(&result.add(rhs, bounds), bounds);
            let rhs_ref = rhs.glb(&lhs.sub(result, bounds), bounds);
            [lhs_ref, rhs_ref]
        },
        Operator::Mul => {
            let lhs_ref = lhs.glb(&result.div(rhs, bounds), bounds);
            let rhs_ref = rhs.glb(&result.div(lhs, bounds), bounds);
            [lhs_ref, rhs_ref]
        },
        Operator::Div => {
            let unit = D::interval_abstraction(
                IntervalBound::Num(-1),
                IntervalBound::Num(1),
                bounds,
            );
            let zero = D::interval_abstraction(
                IntervalBound::Num(0),
                IntervalBound::Num(0),
                bounds,
            );
            let s = result.add(unit, bounds);
            let lhs_ref = lhs.glb(&s.mul(rhs, bounds), bounds);
            let rhs_ref = rhs.glb(&lhs.div(s, bounds).lub(&zero, bounds), bounds);
            [lhs_ref, rhs_ref]
        },
    }
}

} // verus!
