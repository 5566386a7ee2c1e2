//! Laws of the interval domain: the lattice, the soundness of its arithmetic
//! and of the backward operators, widening and narrowing.

use vstd::prelude::*;
use crate::abstract_domains::abstract_domain::{backward, AbstractDomain, IntervalBound};
use crate::abstract_domains::ext_int::{trunc_div, ExtInt, Int};
use crate::abstract_domains::interval::{DomainBounds, Interval};
use crate::abstract_domains::interval::lemma_normal_fits;
use crate::abstract_domains::range::{
    lemma_join_above_meet_below, lemma_join_associative, lemma_meet_associative,
    lemma_normal_extensive, lemma_normal_idempotent, lemma_normal_monotone,
    lemma_widened_above_join, Range,
};
use crate::abstract_domains::range_laws::{
    lemma_difference_sound, lemma_divisor_between_quotients, lemma_product_monotone,
    lemma_product_sound, lemma_quotient_around_zero, lemma_quotient_monotone,
    lemma_quotient_sound, lemma_sum_sound, lemma_trunc_div_brackets, lemma_trunc_div_of_product,
    sgn,
};
use crate::parser::ast::Operator;

verus! {

/// Join and meet are idempotent: `v lub v = v` and `v glb v = v`.
pub proof fn lemma_idempotent(v: Interval, bounds: DomainBounds)
    ensures
        v.spec_lub(v, bounds).spec_eq(v, bounds),
        v.spec_glb(v, bounds).spec_eq(v, bounds),
{
}

/// Join and meet are commutative.
pub proof fn lemma_commutative(v: Interval, w: Interval, bounds: DomainBounds)
    ensures
        v.spec_lub(w, bounds) == w.spec_lub(v, bounds),
        v.spec_glb(w, bounds) == w.spec_glb(v, bounds),
{
}

/// Join is associative.
pub proof fn lemma_lub_associative(v: Interval, w: Interval, z: Interval, bounds: DomainBounds)
    ensures
        v.spec_lub(w, bounds).spec_lub(z, bounds) == v.spec_lub(w.spec_lub(z, bounds), bounds),
{
    let (m, n) = (bounds.m@, bounds.n@);
    let (x, y, t) = (v.normal(bounds), w.normal(bounds), z.normal(bounds));
    lemma_normal_idempotent(v@, m, n);
    lemma_normal_idempotent(w@, m, n);
    lemma_normal_idempotent(z@, m, n);
    lemma_normal_fits(x.join(y), m, n);
    lemma_normal_fits(y.join(t), m, n);
    lemma_normal_idempotent(x.join(y), m, n);
    lemma_normal_idempotent(y.join(t), m, n);
    lemma_join_associative(x, y, t, m, n);
}

/// Meet is associative.
pub proof fn lemma_glb_associative(v: Interval, w: Interval, z: Interval, bounds: DomainBounds)
    ensures
        v.spec_glb(w, bounds).spec_glb(z, bounds) == v.spec_glb(w.spec_glb(z, bounds), bounds),
{
    let (m, n) = (bounds.m@, bounds.n@);
    let (x, y, t) = (v.normal(bounds), w.normal(bounds), z.normal(bounds));
    lemma_normal_idempotent(v@, m, n);
    lemma_normal_idempotent(w@, m, n);
    lemma_normal_idempotent(z@, m, n);
    lemma_normal_fits(x.meet(y), m, n);
    lemma_normal_fits(y.meet(t), m, n);
    lemma_normal_idempotent(x.meet(y), m, n);
    lemma_normal_idempotent(y.meet(t), m, n);
    lemma_meet_associative(x, y, t, m, n);
}

/// A join is above its operands and a meet below them.
pub proof fn lemma_lub_upper_glb_lower(v: Interval, w: Interval, bounds: DomainBounds)
    ensures
        v.spec_le(v.spec_lub(w, bounds), bounds),
        w.spec_le(v.spec_lub(w, bounds), bounds),
        v.spec_glb(w, bounds).spec_le(v, bounds),
        v.spec_glb(w, bounds).spec_le(w, bounds),
{
    let (m, n) = (bounds.m@, bounds.n@);
    let (x, y) = (v.normal(bounds), w.normal(bounds));
    lemma_normal_idempotent(v@, m, n);
    lemma_normal_idempotent(w@, m, n);
    lemma_normal_fits(x.join(y), m, n);
    lemma_normal_fits(x.meet(y), m, n);
    lemma_normal_idempotent(x.join(y), m, n);
    lemma_normal_idempotent(x.meet(y), m, n);
    lemma_join_above_meet_below(x, y, m, n);
}

/// Bottom is the least and top the greatest value.
pub proof fn lemma_bottom_least_top_greatest(v: Interval, bounds: DomainBounds)
    ensures
        Interval::spec_bottom().spec_le(v, bounds),
        v.spec_le(Interval::spec_top(), bounds),
{
}

/// In the full lattice the join of two finite intervals is their hull:
/// `[a, b] lub [c, d] = [min(a, c), max(b, d)]`.
pub proof fn lemma_join_of_finite_intervals(a: i64, b: i64, c: i64, d: i64)
    requires
        a <= b,
        c <= d,
    ensures
        (Interval { low: Int::Num(a), upper: Int::Num(b) }).spec_lub(
            Interval { low: Int::Num(c), upper: Int::Num(d) },
            DomainBounds { m: Int::NegInf, n: Int::PosInf },
        ) == (Interval {
            low: Int::Num(if a <= c { a } else { c }),
            upper: Int::Num(if b >= d { b } else { d }),
        }),
{
}

/// What a range denotes is kept by every operation that ends in the normal
/// form: a member of `r` is denoted by the interval of `r`'s normal form.
pub proof fn lemma_denoted_after_normal(r: Range, bounds: DomainBounds, z: int)
    requires
        r.contains(z),
    ensures
        Interval::of(r.normal(bounds.m@, bounds.n@)).denotes(bounds, z),
        Interval::of(r.normal(bounds.m@, bounds.n@))@.contains(z),
{
    let (m, n) = (bounds.m@, bounds.n@);
    lemma_normal_fits(r, m, n);
    lemma_normal_idempotent(r, m, n);
    lemma_normal_extensive(r, m, n);
}

/// Addition is sound: the sum of two denoted integers is denoted by the sum.
pub proof fn lemma_add_sound(lhs: Interval, rhs: Interval, bounds: DomainBounds, l: int, r: int)
    requires
        lhs.denotes(bounds, l),
        rhs.denotes(bounds, r),
    ensures
        lhs.spec_add(rhs, bounds).denotes(bounds, l + r),
{
    lemma_sum_sound(lhs.normal(bounds), rhs.normal(bounds), l, r);
    lemma_denoted_after_normal(lhs.normal(bounds).sum(rhs.normal(bounds)), bounds, l + r);
}

/// Subtraction is sound.
pub proof fn lemma_sub_sound(lhs: Interval, rhs: Interval, bounds: DomainBounds, l: int, r: int)
    requires
        lhs.denotes(bounds, l),
        rhs.denotes(bounds, r),
    ensures
        lhs.spec_sub(rhs, bounds).denotes(bounds, l - r),
{
    lemma_difference_sound(lhs.normal(bounds), rhs.normal(bounds), l, r);
    lemma_denoted_after_normal(lhs.normal(bounds).difference(rhs.normal(bounds)), bounds, l - r);
}

/// Multiplication is sound.
pub proof fn lemma_mul_sound(lhs: Interval, rhs: Interval, bounds: DomainBounds, l: int, r: int)
    requires
        lhs.denotes(bounds, l),
        rhs.denotes(bounds, r),
    ensures
        lhs.spec_mul(rhs, bounds).denotes(bounds, l * r),
{
    lemma_product_sound(lhs.normal(bounds), rhs.normal(bounds), l, r);
    lemma_denoted_after_normal(lhs.normal(bounds).product(rhs.normal(bounds)), bounds, l * r);
}

/// Division is sound for every nonzero divisor: the quotient, rounded toward
/// zero, of two denoted integers is denoted by the quotient.
pub proof fn lemma_div_sound(lhs: Interval, rhs: Interval, bounds: DomainBounds, l: int, r: int)
    requires
        lhs.denotes(bounds, l),
        rhs.denotes(bounds, r),
        r != 0,
    ensures
        lhs.spec_div(rhs, bounds).denotes(bounds, trunc_div(l, r)),
{
    lemma_quotient_sound(lhs.normal(bounds), rhs.normal(bounds), l, r);
    lemma_denoted_after_normal(
        lhs.normal(bounds).quotient(rhs.normal(bounds)),
        bounds,
        trunc_div(l, r),
    );
}

/// A meet denotes every integer that both operands denote.
pub proof fn lemma_glb_sound(v: Interval, w: Interval, bounds: DomainBounds, z: int)
    requires
        v.denotes(bounds, z),
        w.denotes(bounds, z),
    ensures
        v.spec_glb(w, bounds).denotes(bounds, z),
{
    lemma_denoted_after_normal(v.normal(bounds).meet(w.normal(bounds)), bounds, z);
}

/// A join denotes every integer that one of the operands denotes.
pub proof fn lemma_lub_sound(v: Interval, w: Interval, bounds: DomainBounds, z: int)
    requires
        v.denotes(bounds, z) || w.denotes(bounds, z),
    ensures
        v.spec_lub(w, bounds).denotes(bounds, z),
{
    lemma_denoted_after_normal(v.normal(bounds).join(w.normal(bounds)), bounds, z);
}

/// The order is inclusion of what the values denote.
pub proof fn lemma_le_is_inclusion(v: Interval, w: Interval, bounds: DomainBounds)
    ensures
        v.spec_le(w, bounds) <==> (forall|z: int| v.denotes(bounds, z) ==> w.denotes(bounds, z)),
{
    let (x, y) = (v.normal(bounds), w.normal(bounds));
    lemma_normal_fits(v@, bounds.m@, bounds.n@);
    lemma_normal_fits(w@, bounds.m@, bounds.n@);
    if forall|z: int| v.denotes(bounds, z) ==> w.denotes(bounds, z) {
        if !x.is_empty() {
            // The endpoints of `x`, or integers far enough out where they are
            // infinite, are denoted by `v` and so by `w`.
            let lo_witness = match (x.lo, x.hi) {
                (ExtInt::Fin(a), _) => a,
                (_, ExtInt::Fin(b)) => match y.lo {
                    ExtInt::Fin(c) => if c <= b { c - 1 } else { b },
                    _ => b,
                },
                _ => match y.lo {
                    ExtInt::Fin(c) => c - 1,
                    _ => 0,
                },
            };
            let hi_witness = match (x.lo, x.hi) {
                (_, ExtInt::Fin(b)) => b,
                (ExtInt::Fin(a), _) => match y.hi {
                    ExtInt::Fin(d) => if d >= a { d + 1 } else { a },
                    _ => a,
                },
                _ => match y.hi {
                    ExtInt::Fin(d) => d + 1,
                    _ => 0,
                },
            };
            assert(v.denotes(bounds, lo_witness));
            assert(v.denotes(bounds, hi_witness));
            assert(w.denotes(bounds, lo_witness));
            assert(w.denotes(bounds, hi_witness));
        }
    }
}

/// Two values are equal exactly where they denote the same integers.
pub proof fn lemma_eq_is_same_denotation(v: Interval, w: Interval, bounds: DomainBounds)
    ensures
        v.spec_eq(w, bounds) <==> (forall|z: int| v.denotes(bounds, z) <==> w.denotes(bounds, z)),
        v.spec_eq(w, bounds) <==> (v.spec_le(w, bounds) && w.spec_le(v, bounds)),
{
    lemma_le_is_inclusion(v, w, bounds);
    lemma_le_is_inclusion(w, v, bounds);
    lemma_normal_idempotent(v@, bounds.m@, bounds.n@);
    lemma_normal_idempotent(w@, bounds.m@, bounds.n@);
}

/// The order is a partial order: reflexive, antisymmetric up to equality,
/// and transitive.
pub proof fn lemma_partial_order(v: Interval, w: Interval, z: Interval, bounds: DomainBounds)
    ensures
        v.spec_le(v, bounds),
        v.spec_le(w, bounds) && w.spec_le(v, bounds) ==> v.spec_eq(w, bounds),
        v.spec_le(w, bounds) && w.spec_le(z, bounds) ==> v.spec_le(z, bounds),
{
    lemma_eq_is_same_denotation(v, w, bounds);
}

/// Join and meet are monotone: greater operands give a greater result.
pub proof fn lemma_lub_glb_monotone(
    v: Interval,
    v2: Interval,
    w: Interval,
    w2: Interval,
    bounds: DomainBounds,
)
    requires
        v.spec_le(v2, bounds),
        w.spec_le(w2, bounds),
    ensures
        v.spec_lub(w, bounds).spec_le(v2.spec_lub(w2, bounds), bounds),
        v.spec_glb(w, bounds).spec_le(v2.spec_glb(w2, bounds), bounds),
{
    let (m, n) = (bounds.m@, bounds.n@);
    let (x, x2, y, y2) = (v.normal(bounds), v2.normal(bounds), w.normal(bounds), w2.normal(bounds));
    lemma_normal_fits(x.join(y), m, n);
    lemma_normal_fits(x2.join(y2), m, n);
    lemma_normal_fits(x.meet(y), m, n);
    lemma_normal_fits(x2.meet(y2), m, n);
    lemma_normal_idempotent(x.join(y), m, n);
    lemma_normal_idempotent(x2.join(y2), m, n);
    lemma_normal_idempotent(x.meet(y), m, n);
    lemma_normal_idempotent(x2.meet(y2), m, n);
    lemma_normal_monotone(x.join(y), x2.join(y2), m, n);
    lemma_normal_monotone(x.meet(y), x2.meet(y2), m, n);
}

/// Addition and subtraction are monotone.
pub proof fn lemma_add_sub_monotone(
    v: Interval,
    v2: Interval,
    w: Interval,
    w2: Interval,
    bounds: DomainBounds,
)
    requires
        v.spec_le(v2, bounds),
        w.spec_le(w2, bounds),
    ensures
        v.spec_add(w, bounds).spec_le(v2.spec_add(w2, bounds), bounds),
        v.spec_sub(w, bounds).spec_le(v2.spec_sub(w2, bounds), bounds),
{
    let (m, n) = (bounds.m@, bounds.n@);
    let (x, x2, y, y2) = (v.normal(bounds), v2.normal(bounds), w.normal(bounds), w2.normal(bounds));
    lemma_normal_fits(x.sum(y), m, n);
    lemma_normal_fits(x2.sum(y2), m, n);
    lemma_normal_fits(x.difference(y), m, n);
    lemma_normal_fits(x2.difference(y2), m, n);
    lemma_normal_idempotent(x.sum(y), m, n);
    lemma_normal_idempotent(x2.sum(y2), m, n);
    lemma_normal_idempotent(x.difference(y), m, n);
    lemma_normal_idempotent(x2.difference(y2), m, n);
    lemma_normal_monotone(x.sum(y), x2.sum(y2), m, n);
    lemma_normal_monotone(x.difference(y), x2.difference(y2), m, n);
}

/// Multiplication and division are monotone.
pub proof fn lemma_mul_div_monotone(
    v: Interval,
    v2: Interval,
    w: Interval,
    w2: Interval,
    bounds: DomainBounds,
)
    requires
        v.spec_le(v2, bounds),
        w.spec_le(w2, bounds),
    ensures
        v.spec_mul(w, bounds).spec_le(v2.spec_mul(w2, bounds), bounds),
        v.spec_div(w, bounds).spec_le(v2.spec_div(w2, bounds), bounds),
{
    let (m, n) = (bounds.m@, bounds.n@);
    let (x, x2, y, y2) = (v.normal(bounds), v2.normal(bounds), w.normal(bounds), w2.normal(bounds));
    lemma_product_monotone(x, x2, y, y2);
    lemma_quotient_monotone(x, x2, y, y2);
    lemma_normal_fits(x.product(y), m, n);
    lemma_normal_fits(x2.product(y2), m, n);
    lemma_normal_fits(x.quotient(y), m, n);
    lemma_normal_fits(x2.quotient(y2), m, n);
    lemma_normal_idempotent(x.product(y), m, n);
    lemma_normal_idempotent(x2.product(y2), m, n);
    lemma_normal_idempotent(x.quotient(y), m, n);
    lemma_normal_idempotent(x2.quotient(y2), m, n);
    lemma_normal_monotone(x.product(y), x2.product(y2), m, n);
    lemma_normal_monotone(x.quotient(y), x2.quotient(y2), m, n);
}

/// Widening is above the join: `v widen w` is above `v lub w`.
pub proof fn lemma_widening_above_lub(
    v: Interval,
    w: Interval,
    thresholds: Set<i64>,
    bounds: DomainBounds,
)
    ensures
        v.spec_lub(w, bounds).spec_le(v.spec_widening(w, thresholds, bounds), bounds),
{
    let (m, n) = (bounds.m@, bounds.n@);
    let (x, y) = (v.normal(bounds), w.normal(bounds));
    lemma_normal_idempotent(v@, m, n);
    lemma_normal_idempotent(w@, m, n);
    lemma_normal_fits(x.join(y), m, n);
    lemma_normal_idempotent(x.join(y), m, n);
    lemma_normal_fits(x.widened(y, thresholds), m, n);
    lemma_normal_idempotent(x.widened(y, thresholds), m, n);
    lemma_widened_above_join(x, y, thresholds);
    lemma_normal_monotone(x.join(y), x.widened(y, thresholds), m, n);
}

/// A widening denotes every integer that one of its operands denotes.
pub proof fn lemma_widening_sound(
    v: Interval,
    w: Interval,
    thresholds: Set<i64>,
    bounds: DomainBounds,
    z: int,
)
    requires
        v.denotes(bounds, z) || w.denotes(bounds, z),
    ensures
        v.spec_widening(w, thresholds, bounds).denotes(bounds, z),
{
    lemma_lub_sound(v, w, bounds, z);
    lemma_widening_above_lub(v, w, thresholds, bounds);
    lemma_le_is_inclusion(v.spec_lub(w, bounds), v.spec_widening(w, thresholds, bounds), bounds);
}

/// A narrowing denotes every integer that both of its operands denote: it
/// is above their meet.
pub proof fn lemma_narrowing_keeps_common(v: Interval, w: Interval, bounds: DomainBounds, z: int)
    requires
        v.denotes(bounds, z),
        w.denotes(bounds, z),
    ensures
        v.spec_narrowing(w, bounds).denotes(bounds, z),
{
    let (x, y) = (v.normal(bounds), w.normal(bounds));
    lemma_denoted_after_normal(x.narrowed(y), bounds, z);
}

/// Narrowing is below its first operand: `v narrow w` is below `v`, so
/// narrowing adds no integer to what `v` denotes.
pub proof fn lemma_narrowing_below(v: Interval, w: Interval, bounds: DomainBounds)
    ensures
        v.spec_narrowing(w, bounds).spec_le(v, bounds),
        forall|z: int| v.spec_narrowing(w, bounds).denotes(bounds, z) ==> v.denotes(bounds, z),
{
    let (m, n) = (bounds.m@, bounds.n@);
    let (x, y) = (v.normal(bounds), w.normal(bounds));
    lemma_normal_idempotent(v@, m, n);
    lemma_normal_fits(x.narrowed(y), m, n);
    lemma_normal_idempotent(x.narrowed(y), m, n);
    lemma_normal_monotone(x.narrowed(y), x, m, n);
    lemma_le_is_inclusion(v.spec_narrowing(w, bounds), v, bounds);
}

/// The backward operators only refine: each refined operand is below the
/// operand it was made from.
pub proof fn lemma_backward_refines(
    lhs: Interval,
    rhs: Interval,
    result: Interval,
    operator: Operator,
    bounds: DomainBounds,
)
    ensures
        backward::<Interval>(lhs, rhs, result, operator, bounds).0.spec_le(lhs, bounds),
        backward::<Interval>(lhs, rhs, result, operator, bounds).1.spec_le(rhs, bounds),
{
    let unit = Interval::spec_interval(IntervalBound::Num(-1i64), IntervalBound::Num(1), bounds);
    let zero = Interval::spec_interval(IntervalBound::Num(0), IntervalBound::Num(0), bounds);
    let s = result.spec_add(unit, bounds);
    match operator {
        Operator::Add => {
            lemma_lub_upper_glb_lower(lhs, result.spec_sub(rhs, bounds), bounds);
            lemma_lub_upper_glb_lower(rhs, result.spec_sub(lhs, bounds), bounds);
        },
        Operator::Sub => {
            lemma_lub_upper_glb_lower(lhs, result.spec_add(rhs, bounds), bounds);
            lemma_lub_upper_glb_lower(rhs, lhs.spec_sub(result, bounds), bounds);
        },
        Operator::Mul => {
            lemma_lub_upper_glb_lower(lhs, result.spec_div(rhs, bounds), bounds);
            lemma_lub_upper_glb_lower(rhs, result.spec_div(lhs, bounds), bounds);
        },
        Operator::Div => {
            lemma_lub_upper_glb_lower(lhs, s.spec_mul(rhs, bounds), bounds);
            lemma_lub_upper_glb_lower(rhs, lhs.spec_div(s, bounds).spec_lub(zero, bounds), bounds);
        },
    }
}

/// Backward addition is sound: operands whose sum the known result denotes
/// are still denoted after the refinement.
pub proof fn lemma_backward_add_sound(
    lhs: Interval,
    rhs: Interval,
    result: Interval,
    bounds: DomainBounds,
    l: int,
    r: int,
)
    requires
        lhs.denotes(bounds, l),
        rhs.denotes(bounds, r),
        result.denotes(bounds, l + r),
    ensures
        backward::<Interval>(lhs, rhs, result, Operator::Add, bounds).0.denotes(bounds, l),
        backward::<Interval>(lhs, rhs, result, Operator::Add, bounds).1.denotes(bounds, r),
{
    lemma_sub_sound(result, rhs, bounds, l + r, r);
    lemma_sub_sound(result, lhs, bounds, l + r, l);
    lemma_glb_sound(lhs, result.spec_sub(rhs, bounds), bounds, l);
    lemma_glb_sound(rhs, result.spec_sub(lhs, bounds), bounds, r);
}

/// Backward subtraction is sound.
pub proof fn lemma_backward_sub_sound(
    lhs: Interval,
    rhs: Interval,
    result: Interval,
    bounds: DomainBounds,
    l: int,
    r: int,
)
    requires
        lhs.denotes(bounds, l),
        rhs.denotes(bounds, r),
        result.denotes(bounds, l - r),
    ensures
        backward::<Interval>(lhs, rhs, result, Operator::Sub, bounds).0.denotes(bounds, l),
        backward::<Interval>(lhs, rhs, result, Operator::Sub, bounds).1.denotes(bounds, r),
{
    lemma_add_sound(result, rhs, bounds, l - r, r);
    lemma_sub_sound(lhs, result, bounds, l, l - r);
    lemma_glb_sound(lhs, result.spec_add(rhs, bounds), bounds, l);
    lemma_glb_sound(rhs, lhs.spec_sub(result, bounds), bounds, r);
}

/// Whether the value is the constant zero: it denotes zero and nothing else.
pub open spec fn is_zero(v: Interval, bounds: DomainBounds) -> bool {
    v.normal(bounds) == Range::singleton(0)
}

/// A value that denotes zero and is not the constant zero denotes 1 or -1.
pub proof fn lemma_beside_zero(v: Interval, bounds: DomainBounds)
    requires
        v.denotes(bounds, 0),
        !is_zero(v, bounds),
    ensures
        v.denotes(bounds, 1) || v.denotes(bounds, -1),
{
}

/// Backward multiplication keeps an operand whose partner is not zero.
proof fn lemma_backward_mul_core(
    lhs: Interval,
    rhs: Interval,
    result: Interval,
    bounds: DomainBounds,
    l: int,
    r: int,
)
    requires
        lhs.denotes(bounds, l),
        rhs.denotes(bounds, r),
        result.denotes(bounds, l * r),
    ensures
        r != 0 ==> backward::<Interval>(lhs, rhs, result, Operator::Mul, bounds).0.denotes(
            bounds,
            l,
        ),
        l != 0 ==> backward::<Interval>(lhs, rhs, result, Operator::Mul, bounds).1.denotes(
            bounds,
            r,
        ),
{
    if r != 0 {
        lemma_trunc_div_of_product(l, r);
        lemma_div_sound(result, rhs, bounds, l * r, r);
        lemma_glb_sound(lhs, result.spec_div(rhs, bounds), bounds, l);
    }
    if l != 0 {
        lemma_trunc_div_of_product(r, l);
        assert(r * l == l * r) by (nonlinear_arith);
        lemma_div_sound(result, lhs, bounds, l * r, l);
        lemma_glb_sound(rhs, result.spec_div(lhs, bounds), bounds, r);
    }
}

/// Backward multiplication is sound: operands whose product the known
/// result denotes are still denoted after the refinement. An operand is
/// kept where its partner is not zero. Where the partner is zero, it is
/// kept if the known result is above the product of the two values and the
/// value of the partner is not the constant zero: the operand is then found
/// again through another member of the partner. (With the constant zero for
/// a partner the product says nothing of the operand, and the refinement
/// divides by zero and loses it.)
pub proof fn lemma_backward_mul_sound(
    lhs: Interval,
    rhs: Interval,
    result: Interval,
    bounds: DomainBounds,
    l: int,
    r: int,
)
    requires
        lhs.denotes(bounds, l),
        rhs.denotes(bounds, r),
        result.denotes(bounds, l * r),
    ensures
        r != 0 || (lhs.spec_mul(rhs, bounds).spec_le(result, bounds) && !is_zero(rhs, bounds))
            ==> backward::<Interval>(lhs, rhs, result, Operator::Mul, bounds).0.denotes(bounds, l),
        l != 0 || (lhs.spec_mul(rhs, bounds).spec_le(result, bounds) && !is_zero(lhs, bounds))
            ==> backward::<Interval>(lhs, rhs, result, Operator::Mul, bounds).1.denotes(bounds, r),
{
    lemma_backward_mul_core(lhs, rhs, result, bounds, l, r);
    lemma_le_is_inclusion(lhs.spec_mul(rhs, bounds), result, bounds);
    if r == 0 && lhs.spec_mul(rhs, bounds).spec_le(result, bounds) && !is_zero(rhs, bounds) {
        lemma_beside_zero(rhs, bounds);
        let other: int = if rhs.denotes(bounds, 1) {
            1
        } else {
            -1
        };
        lemma_mul_sound(lhs, rhs, bounds, l, other);
        assert(result.denotes(bounds, l * other));
        lemma_backward_mul_core(lhs, rhs, result, bounds, l, other);
    }
    if l == 0 && lhs.spec_mul(rhs, bounds).spec_le(result, bounds) && !is_zero(lhs, bounds) {
        lemma_beside_zero(lhs, bounds);
        let other: int = if lhs.denotes(bounds, 1) {
            1
        } else {
            -1
        };
        lemma_mul_sound(lhs, rhs, bounds, other, r);
        assert(result.denotes(bounds, other * r));
        lemma_backward_mul_core(lhs, rhs, result, bounds, other, r);
    }
}

/// Backward division keeps the dividend, and the divisor of a dividend that
/// is not zero.
proof fn lemma_backward_div_core(
    lhs: Interval,
    rhs: Interval,
    result: Interval,
    bounds: DomainBounds,
    l: int,
    r: int,
)
    requires
        lhs.denotes(bounds, l),
        rhs.denotes(bounds, r),
        r != 0,
        result.denotes(bounds, trunc_div(l, r)),
    ensures
        backward::<Interval>(lhs, rhs, result, Operator::Div, bounds).0.denotes(bounds, l),
        l != 0 ==> backward::<Interval>(lhs, rhs, result, Operator::Div, bounds).1.denotes(
            bounds,
            r,
        ),
{
    let unit = Interval::spec_interval(IntervalBound::Num(-1i64), IntervalBound::Num(1), bounds);
    let zero = Interval::spec_interval(IntervalBound::Num(0), IntervalBound::Num(0), bounds);
    let s = result.spec_add(unit, bounds);
    let y = trunc_div(l, r);
    let unit_range = Range { lo: ExtInt::Fin(-1), hi: ExtInt::Fin(1) };
    lemma_denoted_after_normal(unit_range, bounds, -1);
    lemma_denoted_after_normal(unit_range, bounds, 0);
    lemma_denoted_after_normal(unit_range, bounds, 1);
    lemma_add_sound(result, unit, bounds, y, -1);
    lemma_add_sound(result, unit, bounds, y, 0);
    lemma_add_sound(result, unit, bounds, y, 1);
    // The dividend lies between (y - 1) * r and (y + 1) * r.
    lemma_trunc_div_brackets(l, r);
    lemma_mul_sound(s, rhs, bounds, y - 1, r);
    lemma_mul_sound(s, rhs, bounds, y + 1, r);
    assert(s.spec_mul(rhs, bounds).denotes(bounds, l));
    lemma_glb_sound(lhs, s.spec_mul(rhs, bounds), bounds, l);
    if l != 0 {
        let q = lhs.spec_div(s, bounds);
        if y == 0 {
            lemma_quotient_around_zero(lhs.normal(bounds), s.normal(bounds), l);
            lemma_denoted_after_normal(lhs.normal(bounds).quotient(s.normal(bounds)), bounds, r);
        } else {
            lemma_divisor_between_quotients(l, r);
            lemma_div_sound(lhs, s, bounds, l, y);
            lemma_div_sound(lhs, s, bounds, l, y + sgn(y));
            assert(q.denotes(bounds, r));
        }
        lemma_lub_sound(q, zero, bounds, r);
        lemma_glb_sound(rhs, q.spec_lub(zero, bounds), bounds, r);
    }
}

/// Backward division is sound: a dividend and a divisor whose quotient the
/// known result denotes are still denoted after the refinement. The
/// dividend is always kept. The divisor is kept where the dividend is not
/// zero. Where the dividend is zero, the divisor is kept if the known result
/// is above the quotient of the two values and the value of the dividend is
/// not the constant zero. (A dividend of zero has the quotient zero with
/// every divisor, and with the constant zero for a dividend the refinement
/// loses the divisor.)
pub proof fn lemma_backward_div_sound(
    lhs: Interval,
    rhs: Interval,
    result: Interval,
    bounds: DomainBounds,
    l: int,
    r: int,
)
    requires
        lhs.denotes(bounds, l),
        rhs.denotes(bounds, r),
        r != 0,
        result.denotes(bounds, trunc_div(l, r)),
    ensures
        backward::<Interval>(lhs, rhs, result, Operator::Div, bounds).0.denotes(bounds, l),
        l != 0 || (lhs.spec_div(rhs, bounds).spec_le(result, bounds) && !is_zero(lhs, bounds))
            ==> backward::<Interval>(lhs, rhs, result, Operator::Div, bounds).1.denotes(bounds, r),
{
    lemma_backward_div_core(lhs, rhs, result, bounds, l, r);
    lemma_le_is_inclusion(lhs.spec_div(rhs, bounds), result, bounds);
    if l == 0 && lhs.spec_div(rhs, bounds).spec_le(result, bounds) && !is_zero(lhs, bounds) {
        lemma_beside_zero(lhs, bounds);
        let other: int = if lhs.denotes(bounds, 1) {
            1
        } else {
            -1
        };
        lemma_div_sound(lhs, rhs, bounds, other, r);
        assert(result.denotes(bounds, trunc_div(other, r)));
        lemma_backward_div_core(lhs, rhs, result, bounds, other, r);
    }
}

} // verus!
