//! Soundness of the arithmetic on ranges: the result of an operation on two
//! ranges holds the result of the operation on any two of their integers.

use vstd::prelude::*;
use vstd::arithmetic::div_mod::{lemma_div_is_ordered, lemma_div_is_ordered_by_denominator};
use crate::abstract_domains::ext_int::{trunc_div, ExtInt};
use crate::abstract_domains::range::Range;

verus! {

/// The sum of two members is a member of the sum.
pub proof fn lemma_sum_sound(x: Range, y: Range, l: int, r: int)
    requires
        x.contains(l),
        y.contains(r),
    ensures
        x.sum(y).contains(l + r),
{
}

/// The difference of two members is a member of the difference.
pub proof fn lemma_difference_sound(x: Range, y: Range, l: int, r: int)
    requires
        x.contains(l),
        y.contains(r),
    ensures
        x.difference(y).contains(l - r),
{
}

/// Multiplication by a factor is monotone or antitone, so the product with
/// a value between `c` and `d` lies between the products with `c` and `d`.
pub proof fn lemma_times_between(e: ExtInt, c: ExtInt, d: ExtInt, r: int)
    requires
        c.le(ExtInt::Fin(r)),
        ExtInt::Fin(r).le(d),
    ensures
        e.times(c).min(e.times(d)).le(e.times(ExtInt::Fin(r))),
        e.times(ExtInt::Fin(r)).le(e.times(c).max(e.times(d))),
{
    let fr = ExtInt::Fin(r);
    match e {
        ExtInt::Fin(v) => {
            if let ExtInt::Fin(cv) = c {
                assert((v >= 0 ==> v * cv <= v * r) && (v <= 0 ==> v * cv >= v * r))
                    by (nonlinear_arith)
                    requires
                        cv <= r,
                ;
            }
            if let ExtInt::Fin(dv) = d {
                assert((v >= 0 ==> v * r <= v * dv) && (v <= 0 ==> v * r >= v * dv))
                    by (nonlinear_arith)
                    requires
                        r <= dv,
                ;
            }
            assert(e.times(fr) == ExtInt::Fin(v * r));
            if v > 0 {
                assert(e.times(c).le(e.times(fr)) && e.times(fr).le(e.times(d)));
            } else if v < 0 {
                assert(e.times(d).le(e.times(fr)) && e.times(fr).le(e.times(c)));
            } else {
                assert(v * r == 0) by (nonlinear_arith)
                    requires
                        v == 0,
                ;
                assert(e.times(c) == ExtInt::Fin(0) && e.times(d) == ExtInt::Fin(0)) by {
                    if let ExtInt::Fin(cv) = c {
                        assert(v * cv == 0) by (nonlinear_arith)
                            requires
                                v == 0,
                        ;
                    }
                    if let ExtInt::Fin(dv) = d {
                        assert(v * dv == 0) by (nonlinear_arith)
                            requires
                                v == 0,
                        ;
                    }
                }
            }
        },
        _ => {
            let s = e.sign();
            assert(s == 1 || s == -1);
            assert(e.times(fr) == ExtInt::infinity(s * fr.sign()));
            assert(e.times(c) == ExtInt::infinity(s * c.sign()));
            assert(e.times(d) == ExtInt::infinity(s * d.sign()));
            assert(c.sign() <= fr.sign() <= d.sign());
            if s == 1 {
                assert(s * c.sign() == c.sign() && s * fr.sign() == fr.sign() && s * d.sign()
                    == d.sign());
            } else {
                assert(s * c.sign() == -c.sign() && s * fr.sign() == -fr.sign() && s * d.sign()
                    == -d.sign());
            }
        },
    }
}

/// The product of two members is a member of the product.
pub proof fn lemma_product_sound(x: Range, y: Range, l: int, r: int)
    requires
        x.contains(l),
        y.contains(r),
    ensures
        x.product(y).contains(l * r),
{
    let (a, b, c, d) = (x.lo, x.hi, y.lo, y.hi);
    let (fl, fr) = (ExtInt::Fin(l), ExtInt::Fin(r));
    lemma_times_between(fr, a, b, l);
    assert(fr.times(a) == a.times(fr) && fr.times(b) == b.times(fr) && fr.times(fl) == fl.times(fr))
        by (nonlinear_arith);
    assert(fl.times(fr) == ExtInt::Fin(l * r));
    lemma_times_between(a, c, d, r);
    lemma_times_between(b, c, d, r);
}

/// Division that rounds toward zero is monotone in the dividend when the
/// divisor is positive.
pub proof fn lemma_trunc_div_monotone(l1: int, l2: int, r: int)
    requires
        l1 <= l2,
        r > 0,
    ensures
        trunc_div(l1, r) <= trunc_div(l2, r),
{
    if l1 >= 0 {
        lemma_div_is_ordered(l1, l2, r);
    } else if l2 < 0 {
        lemma_div_is_ordered(-l2, -l1, r);
    } else {
        lemma_div_is_ordered(0, -l1, r);
        lemma_div_is_ordered(0, l2, r);
    }
}

/// For a positive divisor, a larger one brings the quotient nearer to zero.
pub proof fn lemma_trunc_div_by_larger(l: int, r1: int, r2: int)
    requires
        1 <= r1 <= r2,
    ensures
        l >= 0 ==> 0 <= trunc_div(l, r2) <= trunc_div(l, r1),
        l <= 0 ==> trunc_div(l, r1) <= trunc_div(l, r2) <= 0,
{
    if l >= 0 {
        lemma_div_is_ordered_by_denominator(l, r1, r2);
        lemma_div_is_ordered(0, l, r2);
    } else {
        lemma_div_is_ordered_by_denominator(-l, r1, r2);
        lemma_div_is_ordered(0, -l, r2);
    }
}

/// Negating both operands leaves the quotient unchanged.
pub proof fn lemma_trunc_div_negated(l: int, r: int)
    requires
        r != 0,
    ensures
        trunc_div(-l, -r) == trunc_div(l, r),
{
    let n = if l >= 0 { l } else { -l };
    let q = n / r;
    let m = n % r;
    let q2 = n / (-r);
    let m2 = n % (-r);
    assert(n == r * q + m && 0 <= m && (r > 0 ==> m < r) && (r < 0 ==> m < -r)) by (nonlinear_arith)
        requires
            r != 0,
            q == n / r,
            m == n % r,
    ;
    assert(n == (-r) * q2 + m2 && 0 <= m2 && (r > 0 ==> m2 < r) && (r < 0 ==> m2 < -r))
        by (nonlinear_arith)
        requires
            r != 0,
            q2 == n / (-r),
            m2 == n % (-r),
    ;
    assert(q2 == -q) by (nonlinear_arith)
        requires
            r != 0,
            n == r * q + m,
            n == (-r) * q2 + m2,
            0 <= m,
            0 <= m2,
            r > 0 ==> m < r && m2 < r,
            r < 0 ==> m < -r && m2 < -r,
    ;
}

/// The absolute value.
pub open spec fn abs(x: int) -> int {
    if x < 0 {
        -x
    } else {
        x
    }
}

/// The sign: -1, 0 or 1.
pub open spec fn sgn(x: int) -> int {
    if x < 0 {
        -1
    } else if x == 0 {
        0
    } else {
        1
    }
}

/// A quotient rounded toward zero is the quotient of the absolute values
/// with the product of the signs.
pub proof fn lemma_trunc_div_abs(l: int, r: int)
    requires
        r != 0,
    ensures
        trunc_div(l, r) == sgn(l) * sgn(r) * (abs(l) / abs(r)),
        0 <= abs(l) / abs(r),
        abs(l) == abs(r) * (abs(l) / abs(r)) + abs(l) % abs(r),
        0 <= abs(l) % abs(r) < abs(r),
{
    lemma_trunc_div_negated(l, r);
    let (n, d) = (abs(l), abs(r));
    let q = n / d;
    assert(n == d * q + n % d && 0 <= n % d < d && 0 <= q) by (nonlinear_arith)
        requires
            d > 0,
            n >= 0,
            q == n / d,
    ;
    if l == 0 {
        assert(0int / r == 0) by (nonlinear_arith)
            requires
                r != 0,
        ;
    }
    assert(sgn(l) * sgn(r) * q == if sgn(l) * sgn(r) == 1 {
        q
    } else if sgn(l) * sgn(r) == -1 {
        -q
    } else {
        0
    }) by (nonlinear_arith);
}

/// The dividend lies strictly between the products of the divisor with the
/// neighbours of the quotient.
pub proof fn lemma_trunc_div_brackets(l: int, r: int)
    requires
        r != 0,
    ensures
        r > 0 ==> (trunc_div(l, r) - 1) * r < l < (trunc_div(l, r) + 1) * r,
        r < 0 ==> (trunc_div(l, r) + 1) * r < l < (trunc_div(l, r) - 1) * r,
{
    lemma_trunc_div_abs(l, r);
    let (n, d) = (abs(l), abs(r));
    let q = n / d;
    let m = n % d;
    let y = trunc_div(l, r);
    assert(y * r == sgn(l) * (d * q)) by (nonlinear_arith)
        requires
            y == sgn(l) * sgn(r) * q,
            r == sgn(r) * d,
            sgn(r) == 1 || sgn(r) == -1,
            sgn(l) == 1 || sgn(l) == -1 || sgn(l) == 0,
    ;
    assert(l == sgn(l) * n) by {
        if l < 0 {
            assert(sgn(l) * n == -n);
        } else if l == 0 {
            assert(sgn(l) * n == 0);
        } else {
            assert(sgn(l) * n == n);
        }
    }
    assert(l - y * r == sgn(l) * m) by (nonlinear_arith)
        requires
            y * r == sgn(l) * (d * q),
            l == sgn(l) * n,
            n == d * q + m,
    ;
    assert((y - 1) * r == y * r - r && (y + 1) * r == y * r + r) by (nonlinear_arith);
    assert(-d < sgn(l) * m < d) by (nonlinear_arith)
        requires
            0 <= m < d,
            sgn(l) == 1 || sgn(l) == -1 || sgn(l) == 0,
    ;
}

/// Dividing a product by one of its nonzero factors gives back the other.
pub proof fn lemma_trunc_div_of_product(l: int, r: int)
    requires
        r != 0,
    ensures
        trunc_div(l * r, r) == l,
{
    lemma_trunc_div_abs(l * r, r);
    let d = abs(r);
    let n = abs(l * r);
    assert(n == abs(l) * d && sgn(l * r) == sgn(l) * sgn(r)) by (nonlinear_arith)
        requires
            n == abs(l * r),
            d == abs(r),
            r != 0,
    ;
    vstd::arithmetic::div_mod::lemma_div_multiples_vanish(abs(l), d);
    assert(sgn(l) * sgn(r) * sgn(r) * abs(l) == l) by (nonlinear_arith)
        requires
            r != 0,
    ;
    assert(sgn(l * r) * sgn(r) * (n / d) == sgn(l) * sgn(r) * sgn(r) * abs(l)) by (nonlinear_arith)
        requires
            n / d == abs(l),
            sgn(l * r) == sgn(l) * sgn(r),
    ;
}

/// The divisor lies between the quotients of the dividend by the quotient
/// and by the quotient's neighbour away from zero, when the quotient is not
/// zero.
pub proof fn lemma_divisor_between_quotients(l: int, r: int)
    requires
        r != 0,
        trunc_div(l, r) != 0,
    ensures
        ({
            let y = trunc_div(l, r);
            let q1 = trunc_div(l, y);
            let q2 = trunc_div(l, y + sgn(y));
            &&& y + sgn(y) != 0
            &&& (q1 <= r <= q2 || q2 <= r <= q1)
        }),
{
    let y = trunc_div(l, r);
    lemma_trunc_div_abs(l, r);
    let (n, d) = (abs(l), abs(r));
    let k = n / d;
    assert(sgn(l) * sgn(r) * k != 0 ==> k >= 1 && sgn(l) != 0) by (nonlinear_arith)
        requires
            k >= 0,
    ;
    assert(abs(y) == k && sgn(y) == sgn(l) * sgn(r)) by (nonlinear_arith)
        requires
            y == sgn(l) * sgn(r) * k,
            k >= 1,
            sgn(l) == 1 || sgn(l) == -1,
            sgn(r) == 1 || sgn(r) == -1,
            abs(y) == if y < 0 { -y } else { y },
            sgn(y) == if y < 0 { -1int } else if y == 0 { 0 } else { 1 },
    ;
    assert(abs(y + sgn(y)) == k + 1 && sgn(y + sgn(y)) == sgn(y));
    lemma_trunc_div_abs(l, y);
    lemma_trunc_div_abs(l, y + sgn(y));
    // n / k >= d and n / (k + 1) <= d.
    assert(n >= d * k);
    vstd::arithmetic::div_mod::lemma_div_is_ordered(d * k, n, k);
    vstd::arithmetic::div_mod::lemma_div_multiples_vanish(d, k);
    assert(d * k == k * d) by (nonlinear_arith);
    assert(n <= d * (k + 1)) by (nonlinear_arith)
        requires
            n == d * k + n % d,
            n % d < d,
    ;
    vstd::arithmetic::div_mod::lemma_div_is_ordered(n, d * (k + 1), k + 1);
    vstd::arithmetic::div_mod::lemma_div_multiples_vanish(d, k + 1);
    assert(d * (k + 1) == (k + 1) * d) by (nonlinear_arith);
    let a1 = n / k;
    let a2 = n / (k + 1);
    assert(a2 <= d <= a1);
    let sg = sgn(l) * sgn(y);
    assert(sg == sgn(r)) by (nonlinear_arith)
        requires
            sg == sgn(l) * sgn(y),
            sgn(y) == sgn(l) * sgn(r),
            sgn(l) == 1 || sgn(l) == -1,
            sgn(r) == 1 || sgn(r) == -1,
    ;
    assert(sgn(r) * a2 <= sgn(r) * d <= sgn(r) * a1 || sgn(r) * a1 <= sgn(r) * d <= sgn(r) * a2)
        by (nonlinear_arith)
        requires
            a2 <= d <= a1,
            sgn(r) == 1 || sgn(r) == -1,
    ;
    assert(r == sgn(r) * d) by (nonlinear_arith)
        requires
            d == abs(r),
            r != 0,
    ;
}

/// With a positive divisor `r`, the quotient of a value between `a` and `b`
/// lies between the quotients of `a` and `b`.
pub proof fn lemma_over_between_dividends(a: ExtInt, b: ExtInt, l: int, r: int)
    requires
        a.le(ExtInt::Fin(l)),
        ExtInt::Fin(l).le(b),
        r > 0,
    ensures
        a.over(ExtInt::Fin(r)).le(ExtInt::Fin(trunc_div(l, r))),
        ExtInt::Fin(trunc_div(l, r)).le(b.over(ExtInt::Fin(r))),
{
    if let ExtInt::Fin(av) = a {
        lemma_trunc_div_monotone(av, l, r);
    }
    if let ExtInt::Fin(bv) = b {
        lemma_trunc_div_monotone(l, bv, r);
    }
}

/// With a divisor `r >= 1` between `c >= 0` and `d`, the quotient by `r`
/// lies between the quotients by `c` and by `d`.
pub proof fn lemma_over_between_divisors(e: ExtInt, c: ExtInt, d: ExtInt, r: int)
    requires
        ExtInt::Fin(0).le(c),
        c.le(ExtInt::Fin(r)),
        ExtInt::Fin(r).le(d),
        r >= 1,
    ensures
        e.over(c).min(e.over(d)).le(e.over(ExtInt::Fin(r))),
        e.over(ExtInt::Fin(r)).le(e.over(c).max(e.over(d))),
{
    if let ExtInt::Fin(v) = e {
        if let ExtInt::Fin(cv) = c {
            if cv >= 1 {
                lemma_trunc_div_by_larger(v, cv, r);
            }
        }
        if let ExtInt::Fin(dv) = d {
            lemma_trunc_div_by_larger(v, r, dv);
        }
        lemma_trunc_div_by_larger(v, 1, r);
    }
}

/// The quotient of a member by a positive member of a divisor at or above
/// zero lies between the quotients of the endpoints.
pub proof fn lemma_corner_quotient_sound(x: Range, y: Range, l: int, r: int)
    requires
        x.contains(l),
        y.contains(r),
        ExtInt::Fin(0).le(y.lo),
        r != 0,
    ensures
        x.corner_quotient(y).contains(trunc_div(l, r)),
{
    let (a, b, c, d) = (x.lo, x.hi, y.lo, y.hi);
    lemma_over_between_dividends(a, b, l, r);
    lemma_over_between_divisors(a, c, d, r);
    lemma_over_between_divisors(b, c, d, r);
}

/// A range with a nonzero member, divided by one that holds both -1 and 1,
/// is the whole line.
pub proof fn lemma_quotient_around_zero(x: Range, y: Range, l: int)
    requires
        x.contains(l),
        l != 0,
        y.contains(-1),
        y.contains(1),
    ensures
        x.quotient(y) == Range::top(),
{
}

/// The quotient of a member by a nonzero member is a member of the quotient.
pub proof fn lemma_quotient_sound(x: Range, y: Range, l: int, r: int)
    requires
        x.contains(l),
        y.contains(r),
        r != 0,
    ensures
        x.quotient(y).contains(trunc_div(l, r)),
{
    let zero = ExtInt::Fin(0);
    if zero.le(y.lo) {
        lemma_corner_quotient_sound(x, y, l, r);
    } else if y.hi.le(zero) {
        lemma_trunc_div_negated(l, r);
        lemma_corner_quotient_sound(x.negated(), y.negated(), -l, -r);
    } else {
        let below = Range { lo: y.lo, hi: zero };
        let above = Range { lo: zero, hi: y.hi };
        if r < 0 {
            lemma_trunc_div_negated(l, r);
            lemma_corner_quotient_sound(x.negated(), below.negated(), -l, -r);
        } else {
            lemma_corner_quotient_sound(x, above, l, r);
        }
    }
}

/// The product with an extended integer between `c` and `d` lies between
/// the products with `c` and `d`.
pub proof fn lemma_times_between_ends(e: ExtInt, c: ExtInt, d: ExtInt, r: ExtInt)
    requires
        c.le(r),
        r.le(d),
    ensures
        e.times(c).min(e.times(d)).le(e.times(r)),
        e.times(r).le(e.times(c).max(e.times(d))),
{
    if let ExtInt::Fin(v) = r {
        lemma_times_between(e, c, d, v);
    }
}

/// The product is monotone: smaller ranges have a smaller product.
pub proof fn lemma_product_monotone(x: Range, x2: Range, y: Range, y2: Range)
    requires
        x.subset_of(x2),
        y.subset_of(y2),
    ensures
        x.product(y).subset_of(x2.product(y2)),
{
    if !x.is_empty() && !y.is_empty() {
        let (a, b, c, d) = (x.lo, x.hi, y.lo, y.hi);
        let (a2, b2, c2, d2) = (x2.lo, x2.hi, y2.lo, y2.hi);
        // Each factor of a corner moves to the larger range in turn.
        lemma_corner_within(a, c, a2, b2, c2, d2);
        lemma_corner_within(a, d, a2, b2, c2, d2);
        lemma_corner_within(b, c, a2, b2, c2, d2);
        lemma_corner_within(b, d, a2, b2, c2, d2);
    }
}

/// The product of two extended integers lies between the least and the
/// greatest product of the endpoints of ranges that hold them.
pub proof fn lemma_corner_within(l: ExtInt, r: ExtInt, a: ExtInt, b: ExtInt, c: ExtInt, d: ExtInt)
    requires
        a.le(l),
        l.le(b),
        c.le(r),
        r.le(d),
    ensures
        crate::abstract_domains::range::min4(a.times(c), a.times(d), b.times(c), b.times(d)).le(
            l.times(r),
        ),
        l.times(r).le(
            crate::abstract_domains::range::max4(a.times(c), a.times(d), b.times(c), b.times(d)),
        ),
{
    lemma_times_between_ends(r, a, b, l);
    assert(r.times(a) == a.times(r) && r.times(b) == b.times(r) && r.times(l) == l.times(r))
        by (nonlinear_arith);
    lemma_times_between_ends(a, c, d, r);
    lemma_times_between_ends(b, c, d, r);
}

/// With a divisor at or above zero, the quotient of an extended integer
/// between `a` and `b` lies between the quotients of `a` and `b`.
pub proof fn lemma_over_between_dividend_ends(a: ExtInt, b: ExtInt, l: ExtInt, r: ExtInt)
    requires
        a.le(l),
        l.le(b),
        ExtInt::Fin(0).le(r),
    ensures
        a.over(r).le(l.over(r)),
        l.over(r).le(b.over(r)),
{
    if let ExtInt::Fin(rv) = r {
        if rv > 0 {
            if let ExtInt::Fin(lv) = l {
                lemma_over_between_dividends(a, b, lv, rv);
            }
        }
    }
}

/// The quotient by an extended integer between `c >= 0` and `d` lies
/// between the quotients by `c` and by `d`.
pub proof fn lemma_over_between_divisor_ends(e: ExtInt, c: ExtInt, d: ExtInt, r: ExtInt)
    requires
        ExtInt::Fin(0).le(c),
        c.le(r),
        r.le(d),
    ensures
        e.over(c).min(e.over(d)).le(e.over(r)),
        e.over(r).le(e.over(c).max(e.over(d))),
{
    if let ExtInt::Fin(rv) = r {
        if rv >= 1 {
            lemma_over_between_divisors(e, c, d, rv);
        }
    }
}

/// The quotient of two extended integers lies between the least and the
/// greatest quotient of the endpoints of ranges that hold them, with a
/// divisor range at or above zero.
pub proof fn lemma_corner_quotient_within(
    l: ExtInt,
    r: ExtInt,
    a: ExtInt,
    b: ExtInt,
    c: ExtInt,
    d: ExtInt,
)
    requires
        a.le(l),
        l.le(b),
        ExtInt::Fin(0).le(c),
        c.le(r),
        r.le(d),
    ensures
        crate::abstract_domains::range::min4(a.over(c), a.over(d), b.over(c), b.over(d)).le(
            l.over(r),
        ),
        l.over(r).le(
            crate::abstract_domains::range::max4(a.over(c), a.over(d), b.over(c), b.over(d)),
        ),
{
    lemma_over_between_dividend_ends(a, b, l, r);
    lemma_over_between_divisor_ends(a, c, d, r);
    lemma_over_between_divisor_ends(b, c, d, r);
}

/// The quotients of endpoints are monotone, with divisors at or above zero.
pub proof fn lemma_corner_quotient_monotone(x: Range, x2: Range, y: Range, y2: Range)
    requires
        !x.is_empty(),
        !y.is_empty(),
        x.subset_of(x2),
        y.subset_of(y2),
        ExtInt::Fin(0).le(y2.lo),
    ensures
        x.corner_quotient(y).subset_of(x2.corner_quotient(y2)),
{
    let (a, b, c, d) = (x.lo, x.hi, y.lo, y.hi);
    let (a2, b2, c2, d2) = (x2.lo, x2.hi, y2.lo, y2.hi);
    lemma_corner_quotient_within(a, c, a2, b2, c2, d2);
    lemma_corner_quotient_within(a, d, a2, b2, c2, d2);
    lemma_corner_quotient_within(b, c, a2, b2, c2, d2);
    lemma_corner_quotient_within(b, d, a2, b2, c2, d2);
}

/// The quotient is monotone: smaller ranges have a smaller quotient.
pub proof fn lemma_quotient_monotone(x: Range, x2: Range, y: Range, y2: Range)
    requires
        x.subset_of(x2),
        y.subset_of(y2),
    ensures
        x.quotient(y).subset_of(x2.quotient(y2)),
{
    let zero = ExtInt::Fin(0);
    if !(x.is_empty() || y.is_empty() || y == Range::singleton(0)) {
        let below2 = Range { lo: y2.lo, hi: zero };
        let above2 = Range { lo: zero, hi: y2.hi };
        if zero.le(y.lo) {
            // The divisor lies at or above zero: it is within the part of
            // the larger divisor at or above zero.
            if zero.le(y2.lo) {
                lemma_corner_quotient_monotone(x, x2, y, y2);
            } else {
                lemma_corner_quotient_monotone(x, x2, y, above2);
            }
        } else if y.hi.le(zero) {
            if y2.hi.le(zero) {
                lemma_corner_quotient_monotone(x.negated(), x2.negated(), y.negated(), y2.negated());
            } else {
                lemma_corner_quotient_monotone(
                    x.negated(),
                    x2.negated(),
                    y.negated(),
                    below2.negated(),
                );
            }
        } else {
            let below = Range { lo: y.lo, hi: zero };
            let above = Range { lo: zero, hi: y.hi };
            lemma_corner_quotient_monotone(
                x.negated(),
                x2.negated(),
                below.negated(),
                below2.negated(),
            );
            lemma_corner_quotient_monotone(x, x2, above, above2);
        }
    }
}

} // verus!
