use abstract_interpreter::abstract_domains::abstract_domain::{
    backward_arithmetic_operator, AbstractDomain, IntervalBound,
};
use abstract_interpreter::abstract_domains::ext_int::Int;
use abstract_interpreter::abstract_domains::interval::{DomainBounds, Interval};
use abstract_interpreter::parser::ast::Operator;
use std::cmp::Ordering;

fn domains() -> Vec<DomainBounds> {
    vec![
        DomainBounds { m: Int::NegInf, n: Int::PosInf },
        DomainBounds { m: Int::PosInf, n: Int::NegInf },
        DomainBounds { m: Int::Num(-2), n: Int::Num(3) },
        DomainBounds { m: Int::NegInf, n: Int::Num(1) },
        DomainBounds { m: Int::Num(0), n: Int::PosInf },
        DomainBounds { m: Int::Num(1), n: Int::Num(1) },
    ]
}

fn samples() -> Vec<Interval> {
    let ends = [Int::NegInf, Int::Num(-4), Int::Num(-1), Int::Num(0), Int::Num(2), Int::Num(5), Int::PosInf];
    let mut all = vec![Interval::bottom()];
    for low in ends {
        for upper in ends {
            if low.le(upper) && low != Int::PosInf && upper != Int::NegInf {
                all.push(Interval { low, upper });
            }
        }
    }
    all
}

fn holds(v: &Interval, bounds: &DomainBounds, z: i64) -> bool {
    let n = v.normalized(bounds);
    !n.is_empty() && n.low.le(Int::Num(z)) && Int::Num(z).le(n.upper)
}

fn members(v: &Interval, bounds: &DomainBounds) -> Vec<i64> {
    (-7..=7).filter(|z| holds(v, bounds, *z)).collect()
}

#[test]
fn lattice_laws_on_samples() {
    for b in domains() {
        for v in samples() {
            assert!(v.lub(&v, &b).eq(&v, &b));
            assert!(v.glb(&v, &b).eq(&v, &b));
            assert!(Interval::bottom().le(&v, &b));
            assert!(v.le(&Interval::top(), &b));
            for w in samples() {
                assert!(v.lub(&w, &b).eq(&w.lub(&v, &b), &b));
                assert!(v.glb(&w, &b).eq(&w.glb(&v, &b), &b));
                assert!(v.le(&v.lub(&w, &b), &b));
                assert!(v.glb(&w, &b).le(&v, &b));
                for z in samples() {
                    assert!(v.lub(&w, &b).lub(&z, &b).eq(&v.lub(&w.lub(&z, &b), &b), &b));
                    assert!(v.glb(&w, &b).glb(&z, &b).eq(&v.glb(&w.glb(&z, &b), &b), &b));
                }
            }
        }
    }
}

#[test]
fn join_of_finite_intervals_is_their_hull() {
    let b = DomainBounds { m: Int::NegInf, n: Int::PosInf };
    let j = Interval::from([-3, 2]).lub(&Interval::from([0, 9]), &b);
    assert_eq!((j.low, j.upper), (Int::Num(-3), Int::Num(9)));
    let j = Interval::from([4, 4]).lub(&Interval::from([-1, 1]), &b);
    assert_eq!((j.low, j.upper), (Int::Num(-1), Int::Num(4)));
}

#[test]
fn arithmetic_is_sound_on_samples() {
    for b in domains() {
        for l in samples() {
            for r in samples() {
                let (sum, diff, prod, quot) =
                    (l.add(r, &b), l.sub(r, &b), l.mul(r, &b), l.div(r, &b));
                for x in members(&l, &b) {
                    for y in members(&r, &b) {
                        assert!(holds(&sum, &b, x + y));
                        assert!(holds(&diff, &b, x - y));
                        assert!(holds(&prod, &b, x * y));
                        if y != 0 {
                            assert!(holds(&quot, &b, x / y));
                        }
                    }
                }
            }
        }
    }
}

#[test]
fn operators_are_monotone_on_samples() {
    for b in domains() {
        for v in samples() {
            for v2 in samples() {
                if !v.le(&v2, &b) {
                    continue;
                }
                for w in samples() {
                    assert!(v.add(w, &b).le(&v2.add(w, &b), &b));
                    assert!(w.sub(v, &b).le(&w.sub(v2, &b), &b));
                    assert!(v.mul(w, &b).le(&v2.mul(w, &b), &b));
                    assert!(v.div(w, &b).le(&v2.div(w, &b), &b));
                    assert!(w.div(v, &b).le(&w.div(v2, &b), &b));
                    assert!(v.lub(&w, &b).le(&v2.lub(&w, &b), &b));
                    assert!(v.glb(&w, &b).le(&v2.glb(&w, &b), &b));
                }
            }
        }
    }
}

#[test]
fn equality_is_the_same_denotation() {
    for b in domains() {
        for v in samples() {
            for w in samples() {
                let same = (-7..=7).all(|z| holds(&v, &b, z) == holds(&w, &b, z));
                if v.eq(&w, &b) {
                    assert!(same);
                    assert!(v.le(&w, &b) && w.le(&v, &b));
                } else {
                    assert!(!(v.le(&w, &b) && w.le(&v, &b)));
                }
            }
        }
    }
}

#[test]
fn backward_operators_refine_and_keep_solutions() {
    for b in domains() {
        for l in samples() {
            for r in samples() {
                for op in [Operator::Add, Operator::Sub, Operator::Mul, Operator::Div] {
                    let forward = match op {
                        Operator::Add => l.add(r, &b),
                        Operator::Sub => l.sub(r, &b),
                        Operator::Mul => l.mul(r, &b),
                        Operator::Div => l.div(r, &b),
                    };
                    for y in [forward, forward.lub(&Interval::from([0, 1]), &b), Interval::top()] {
                        let refined = backward_arithmetic_operator(l, r, y, op, &b);
                        assert!(refined[0].le(&l, &b));
                        assert!(refined[1].le(&r, &b));
                        // The known result is above the forward result:
                        // only an operand beside the constant zero is lost.
                        let zero = Interval::from([0, 0]);
                        let left_is_zero = l.normalized(&b).eq(&zero, &DomainBounds {
                            m: Int::NegInf,
                            n: Int::PosInf,
                        });
                        let right_is_zero = r.normalized(&b).eq(&zero, &DomainBounds {
                            m: Int::NegInf,
                            n: Int::PosInf,
                        });
                        for x in members(&l, &b) {
                            for z in members(&r, &b) {
                                let (result, keeps_left, keeps_right) = match op {
                                    Operator::Add => (Some(x + z), true, true),
                                    Operator::Sub => (Some(x - z), true, true),
                                    Operator::Mul => (Some(x * z), !right_is_zero, !left_is_zero),
                                    Operator::Div => (
                                        if z != 0 { Some(x / z) } else { None },
                                        true,
                                        !left_is_zero,
                                    ),
                                };
                                if let Some(value) = result {
                                    if (-7..=7).contains(&value) && holds(&y, &b, value) {
                                        if keeps_left {
                                            assert!(holds(&refined[0], &b, x));
                                        }
                                        if keeps_right {
                                            assert!(holds(&refined[1], &b, z));
                                        }
                                    }
                                }
                            }
                        }
                    }
                }
            }
        }
    }
}

#[test]
fn backward_formulas() {
    let b = DomainBounds { m: Int::NegInf, n: Int::PosInf };
    let pair = |r: [Interval; 2]| ((r[0].low, r[0].upper), (r[1].low, r[1].upper));
    // x + y = [10,10] with x in [0,20], y in [3,4].
    let r = backward_arithmetic_operator(
        Interval::from([0, 20]),
        Interval::from([3, 4]),
        Interval::from([10, 10]),
        Operator::Add,
        &b,
    );
    assert_eq!(pair(r), ((Int::Num(6), Int::Num(7)), (Int::Num(3), Int::Num(4))));
    // x - y in [-inf,-1] with x in [0,10], y in [0,10].
    let below = Interval::interval_abstraction(IntervalBound::NegInf, IntervalBound::Num(-1), &b);
    let r = backward_arithmetic_operator(
        Interval::from([0, 10]),
        Interval::from([0, 10]),
        below,
        Operator::Sub,
        &b,
    );
    assert_eq!(pair(r), ((Int::Num(0), Int::Num(9)), (Int::Num(1), Int::Num(10))));
    // x * y = [12,12] with x in [1,100], y in [3,4].
    let r = backward_arithmetic_operator(
        Interval::from([1, 100]),
        Interval::from([3, 4]),
        Interval::from([12, 12]),
        Operator::Mul,
        &b,
    );
    assert_eq!(pair(r), ((Int::Num(3), Int::Num(4)), (Int::Num(3), Int::Num(4))));
    // x / y = [3,3] with x in [0,100], y in [2,2]: x in ([3,3] + [-1,1]) * [2,2].
    let r = backward_arithmetic_operator(
        Interval::from([0, 100]),
        Interval::from([2, 2]),
        Interval::from([3, 3]),
        Operator::Div,
        &b,
    );
    assert_eq!(pair(r), ((Int::Num(4), Int::Num(8)), (Int::Num(2), Int::Num(2))));
}

#[test]
fn backward_multiplication_keeps_a_factor_beside_a_zero_that_is_not_constant() {
    let b = DomainBounds { m: Int::NegInf, n: Int::PosInf };
    // 1 * 0 = 0 with the right factor in [0,3]: 1 is found again through
    // the other members of the right factor.
    let r = backward_arithmetic_operator(
        Interval::from([1, 2]),
        Interval::from([0, 3]),
        Interval::from([0, 6]),
        Operator::Mul,
        &b,
    );
    assert!(holds(&r[0], &b, 1));
    assert!(holds(&r[1], &b, 0));
    // Below the forward result the factor is lost.
    let r = backward_arithmetic_operator(
        Interval::from([1, 2]),
        Interval::from([0, 3]),
        Interval::from([0, 0]),
        Operator::Mul,
        &b,
    );
    assert!(!holds(&r[0], &b, 1));
}

#[test]
fn backward_multiplication_may_lose_a_factor_of_zero() {
    let b = DomainBounds { m: Int::NegInf, n: Int::PosInf };
    let zero = Interval::from([0, 0]);
    // 5 * 0 = 0, yet dividing the result by the factor zero leaves nothing.
    let r = backward_arithmetic_operator(Interval::from([5, 5]), zero, zero, Operator::Mul, &b);
    assert!(r[0].eq(&Interval::bottom(), &b));
    // 0 / 5 = 0, yet the divisor is lost.
    let r = backward_arithmetic_operator(zero, Interval::from([5, 5]), zero, Operator::Div, &b);
    assert!(r[1].eq(&Interval::bottom(), &b));
}

#[test]
fn widening_is_above_the_join_and_ends() {
    let thresholds = vec![-3, 0, 2, 10];
    for b in domains() {
        for v in samples() {
            for w in samples() {
                let widened = v.widening_operator(&w, &thresholds, &b);
                assert!(v.lub(&w, &b).le(&widened, &b));
            }
            // x := x widen (x lub (x + [1,1])) is stable after a few steps.
            let mut x = v;
            let mut steps = 0;
            loop {
                let next = x.widening_operator(
                    &x.lub(&x.add(Interval::from([1, 1]), &b), &b),
                    &thresholds,
                    &b,
                );
                if next.eq(&x, &b) {
                    break;
                }
                x = next;
                steps += 1;
                assert!(steps <= 2 * thresholds.len() + 3);
            }
        }
    }
}

#[test]
fn widening_moves_to_thresholds() {
    let b = DomainBounds { m: Int::NegInf, n: Int::PosInf };
    let thresholds = vec![10, -3, 0, 2];
    let w = Interval::from([0, 1]).widening_operator(&Interval::from([-2, 5]), &thresholds, &b);
    assert_eq!((w.low, w.upper), (Int::Num(-3), Int::Num(10)));
    let w = Interval::from([0, 1]).widening_operator(&Interval::from([-4, 11]), &thresholds, &b);
    assert_eq!((w.low, w.upper), (Int::NegInf, Int::PosInf));
    let w = Interval::from([0, 1]).widening_operator(&Interval::from([0, 1]), &thresholds, &b);
    assert_eq!((w.low, w.upper), (Int::Num(0), Int::Num(1)));
    let w = Interval::from([0, 1]).widening_operator(&Interval::from([0, 2]), &thresholds, &b);
    assert_eq!((w.low, w.upper), (Int::Num(0), Int::Num(2)));
    assert!(Interval::needs_widening(&b));
    assert!(Interval::needs_widening(&DomainBounds { m: Int::Num(0), n: Int::PosInf }));
    assert!(!Interval::needs_widening(&DomainBounds { m: Int::Num(0), n: Int::Num(9) }));
    assert!(!Interval::needs_widening(&DomainBounds { m: Int::PosInf, n: Int::NegInf }));
}

#[test]
fn narrowing_is_below_and_replaces_infinite_endpoints() {
    for b in domains() {
        for v in samples() {
            for w in samples() {
                let narrowed = v.narrowing(&w, &b);
                assert!(narrowed.le(&v, &b));
                for z in -7..=7 {
                    if holds(&narrowed, &b, z) {
                        assert!(holds(&v, &b, z));
                    }
                }
            }
        }
    }
    let b = DomainBounds { m: Int::NegInf, n: Int::PosInf };
    let v = Interval { low: Int::Num(0), upper: Int::PosInf };
    let n = v.narrowing(&Interval::from([-5, 10]), &b);
    assert_eq!((n.low, n.upper), (Int::Num(0), Int::Num(10)));
    let n = Interval::top().narrowing(&Interval::from([-5, 10]), &b);
    assert_eq!((n.low, n.upper), (Int::Num(-5), Int::Num(10)));
}

#[test]
fn normal_forms() {
    let b = DomainBounds { m: Int::Num(-5), n: Int::Num(5) };
    let n = |v: Interval, b: &DomainBounds| {
        let x = v.normalized(b);
        (x.low, x.upper)
    };
    assert_eq!(n(Interval::from([3, 2]), &b), (Int::Num(1), Int::Num(0)));
    assert_eq!(n(Interval::from([-9, 9]), &b), (Int::NegInf, Int::PosInf));
    assert_eq!(n(Interval::from([7, 9]), &b), (Int::Num(5), Int::PosInf));
    assert_eq!(n(Interval::from([-9, -7]), &b), (Int::NegInf, Int::Num(-5)));
    assert_eq!(n(Interval::from([-5, 5]), &b), (Int::Num(-5), Int::Num(5)));
    let constants = DomainBounds { m: Int::PosInf, n: Int::NegInf };
    assert_eq!(n(Interval::from([4, 4]), &constants), (Int::Num(4), Int::Num(4)));
    assert_eq!(n(Interval::from([4, 5]), &constants), (Int::NegInf, Int::PosInf));
    assert_eq!(n(Interval::from([5, 4]), &constants), (Int::Num(1), Int::Num(0)));
    let c = Interval::constant_abstraction(13, &DomainBounds { m: Int::Num(0), n: Int::Num(5) });
    assert_eq!((c.low, c.upper), (Int::Num(5), Int::PosInf));
}

#[test]
fn arithmetic_saturates_at_the_machine_range() {
    let b = DomainBounds { m: Int::NegInf, n: Int::PosInf };
    let big = Interval::from([i64::MAX, i64::MAX]);
    let s = big.add(Interval::from([1, 1]), &b);
    assert_eq!((s.low, s.upper), (Int::Num(i64::MAX), Int::PosInf));
    let p = big.mul(Interval::from([-2, 2]), &b);
    assert_eq!((p.low, p.upper), (Int::NegInf, Int::PosInf));
    let small = Interval::from([i64::MIN, i64::MIN]);
    let q = small.div(Interval::from([-1, -1]), &b);
    assert_eq!((q.low, q.upper), (Int::Num(i64::MAX), Int::PosInf));
    let d = small.sub(Interval::from([1, 1]), &b);
    assert_eq!((d.low, d.upper), (Int::NegInf, Int::Num(i64::MIN)));
}

#[test]
fn partial_order_of_intervals() {
    let b = DomainBounds { m: Int::NegInf, n: Int::PosInf };
    let cmp = |a: [i64; 2], c: [i64; 2]| Interval::from(a).partial_cmp(&Interval::from(c), &b);
    assert_eq!(cmp([1, 4], [1, 4]), Some(Ordering::Equal));
    assert_eq!(cmp([2, 3], [1, 4]), Some(Ordering::Less));
    assert_eq!(cmp([1, 4], [1, 3]), Some(Ordering::Greater));
    assert_eq!(cmp([1, 4], [3, 5]), None);
    assert_eq!(Interval::bottom().partial_cmp(&Interval::from([0, 0]), &b), Some(Ordering::Less));
    assert_eq!(Interval::top().partial_cmp(&Interval::from([0, 0]), &b), Some(Ordering::Greater));
}

#[test]
fn extended_integer_arithmetic() {
    assert_eq!(-Int::PosInf, Int::NegInf);
    assert_eq!(-Int::Num(3), Int::Num(-3));
    assert_eq!(Int::Num(3) + Int::Num(4), Int::Num(7));
    assert_eq!(Int::Num(3) + Int::PosInf, Int::PosInf);
    assert_eq!(Int::NegInf + Int::Num(3), Int::NegInf);
    assert_eq!(Int::NegInf - Int::PosInf, Int::NegInf);
    assert_eq!(Int::PosInf - Int::Num(1), Int::PosInf);
    assert_eq!(Int::Num(0) * Int::PosInf, Int::Num(0));
    assert_eq!(Int::Num(-2) * Int::PosInf, Int::NegInf);
    assert_eq!(Int::NegInf * Int::NegInf, Int::PosInf);
    assert_eq!(Int::Num(6) * Int::Num(-7), Int::Num(-42));
    assert_eq!(Int::Num(-7) / Int::Num(2), Int::Num(-3));
    assert_eq!(Int::Num(7) / Int::Num(-2), Int::Num(-3));
    assert_eq!(Int::Num(7) / Int::PosInf, Int::Num(0));
    assert_eq!(Int::Num(0) / Int::Num(0), Int::Num(0));
    assert_eq!(Int::Num(-1) / Int::Num(0), Int::NegInf);
    assert_eq!(Int::PosInf / Int::Num(-3), Int::NegInf);
    assert_eq!(Int::NegInf / Int::Num(-3), Int::PosInf);
    assert!(Int::NegInf.lt(Int::Num(i64::MIN)));
    assert!(Int::Num(i64::MAX).lt(Int::PosInf));
    assert!(!Int::PosInf.lt(Int::PosInf));
    assert_eq!(Int::Num(3).min(Int::NegInf), Int::NegInf);
    assert_eq!(Int::Num(3).max(Int::Num(9)), Int::Num(9));
}
