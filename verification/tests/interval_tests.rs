use abstract_interpreter::abstract_domains::abstract_domain::AbstractDomain;
use abstract_interpreter::abstract_domains::ext_int::Int;
use abstract_interpreter::abstract_domains::interval::{DomainBounds, Interval};

fn constant_domain() -> DomainBounds {
    DomainBounds { m: Int::PosInf, n: Int::NegInf }
}

fn interval_domain() -> DomainBounds {
    DomainBounds { m: Int::NegInf, n: Int::PosInf }
}

fn restricted_domain(low: i64, upper: i64) -> DomainBounds {
    DomainBounds { m: Int::Num(low), n: Int::Num(upper) }
}

fn top() -> Interval {
    Interval::top()
}

fn bottom() -> Interval {
    Interval::bottom()
}

fn zero() -> Interval {
    singleton(0)
}

fn singleton(v: i64) -> Interval {
    Interval { low: Int::Num(v), upper: Int::Num(v) }
}

fn minus_inf_to(x: i64) -> Interval {
    Interval { low: Int::NegInf, upper: Int::Num(x) }
}

fn x_to_inf(x: i64) -> Interval {
    Interval { low: Int::Num(x), upper: Int::PosInf }
}

#[test]
fn intv_abs_domain_cmp() {
    let b = constant_domain();
    assert!(bottom().le(&bottom(), &b));
    assert!(top().le(&top(), &b));
    assert!(singleton(1).le(&singleton(1), &b));
    assert_eq!(singleton(1).le(&singleton(2), &b), false);

    let b = restricted_domain(-5, 5);
    assert!(minus_inf_to(0).le(&[-6, 0].into(), &b));
    assert!(top().le(&[-6, 6].into(), &b));
    assert_eq!(<[i64; 2] as Into<Interval>>::into([1, 4]).le(&[3, 5].into(), &b), false);
}

#[test]
fn intv_abs_domain_eq() {
    let b = constant_domain();
    assert!(bottom().eq(&bottom(), &b));
    assert!(singleton(1).eq(&singleton(1), &b));
    assert!(!singleton(1).eq(&singleton(2), &b));
    assert!(top().eq(&[0, 1].into(), &b));

    let b = restricted_domain(-5, 5);
    assert!(Interval::eq(&[-3, 2].into(), &[-3, 2].into(), &b));
    assert!(minus_inf_to(0).eq(&[-6, 0].into(), &b));
    assert!(top().eq(&[-6, 6].into(), &b));
}

#[test]
fn intv_abs_domain_add() {
    let b = constant_domain();
    assert!(bottom().add(singleton(1), &b).eq(&bottom(), &b));
    assert!(top().add(singleton(1), &b).eq(&top(), &b));
    assert!(top().add(bottom(), &b).eq(&bottom(), &b));
    assert!(singleton(1).add(singleton(2), &b).eq(&singleton(3), &b));

    let b = restricted_domain(-5, 5);
    assert!(Interval::add([-3, 0].into(), [-2, 5].into(), &b).eq(&[-5, 5].into(), &b));
    assert!(singleton(-1).add([-5, 5].into(), &b).le(&[-6, 4].into(), &b));
    assert!(singleton(5).add(singleton(1), &b).le(&[5, 6].into(), &b));

    let b = interval_domain();
    assert!(x_to_inf(0).add([-200, -10].into(), &b).eq(&x_to_inf(-200), &b))
}

#[test]
fn intv_abs_domain_sub() {
    let b = constant_domain();
    assert!(bottom().sub(top(), &b).eq(&bottom(), &b));
    assert!(top().sub(top(), &b).eq(&top(), &b));
    assert!(singleton(0).sub(singleton(10), &b).eq(&singleton(-10), &b));

    let b = restricted_domain(-5, 5);
    assert!(singleton(5).sub([0, 5].into(), &b).eq(&[0, 5].into(), &b));
    assert!(singleton(-5).sub([0, 1].into(), &b).eq(&[-6, -5].into(), &b));
    assert!(singleton(-5).sub(singleton(1), &b).le(&[-6, -5].into(), &b));
    assert!(singleton(-5).sub(singleton(1), &b).le(&[-6, -5].into(), &b));

    let b = restricted_domain(0, 5);
    assert!(singleton(5).sub(singleton(0), &b).eq(&singleton(5), &b));

    let b = interval_domain();
    assert!(minus_inf_to(100).sub(singleton(-10), &b).eq(&minus_inf_to(110), &b));

    assert!(minus_inf_to(10).sub(minus_inf_to(-1), &b).eq(&top(), &b));
}

#[test]
fn intv_abs_domain_mul() {
    let b = constant_domain();
    assert!(zero().mul(top(), &b).eq(&zero(), &b));
    assert!(zero().mul(bottom(), &b).eq(&bottom(), &b));
    assert!(singleton(5).mul(singleton(2), &b).eq(&singleton(10), &b));

    let b = restricted_domain(-5, 5);
    assert!(singleton(5).mul(singleton(2), &b).eq(&x_to_inf(5), &b));
    assert!(Interval::mul([0, 2].into(), [0, 3].into(), &b).eq(&x_to_inf(0), &b));
    assert!(singleton(10).mul([-1, 1].into(), &b).eq(&top(), &b))
}

#[test]
fn intv_abs_domain_div() {
    let b = constant_domain();
    assert!(zero().div(x_to_inf(0), &b).eq(&zero(), &b));
    assert!(zero().div(top(), &b).eq(&zero(), &b));
    assert!(top().div(zero(), &b).eq(&bottom(), &b));
    assert!(singleton(1).div(singleton(2), &b).eq(&zero(), &b));
    assert!(singleton(1).div(singleton(1), &b).eq(&singleton(1), &b));

    let b = restricted_domain(-5, 5);
    assert!(singleton(1).div([0, 3].into(), &b).eq(&x_to_inf(0), &b));
    assert!(Interval::div([-3, -1].into(), [-3, 0].into(), &b).eq(&x_to_inf(0), &b));

    let b = interval_domain();
    assert!(singleton(10).div(x_to_inf(0), &b).eq(&x_to_inf(0), &b))
}
