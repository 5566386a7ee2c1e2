use abstract_interpreter::abstract_domains::ext_int::Int;
use abstract_interpreter::abstract_domains::interval::{DomainBounds, Interval};
use abstract_interpreter::interpreter::Interpreter;
use abstract_interpreter::parser::ast::{
    ArithmeticExp, BooleanExp, ConditionOperator, Operator, Statement,
};
use abstract_interpreter::parser::grammar::parse_source;
use std::collections::HashMap;

type Valuation = HashMap<String, i64>;

fn value(exp: &ArithmeticExp, s: &Valuation) -> Option<i64> {
    match exp {
        ArithmeticExp::Integer(x) => Some(*x),
        ArithmeticExp::Variable(v) => s.get(v).copied(),
        ArithmeticExp::BinaryOperation { lhs, operator, rhs } => {
            let (l, r) = (value(lhs, s)?, value(rhs, s)?);
            match operator {
                Operator::Add => Some(l + r),
                Operator::Sub => Some(l - r),
                Operator::Mul => Some(l * r),
                Operator::Div => {
                    if r == 0 {
                        None
                    } else {
                        Some(l / r)
                    }
                }
            }
        }
    }
}

fn truth(exp: &BooleanExp, s: &Valuation) -> Option<bool> {
    match exp {
        BooleanExp::Boolean(b) => Some(*b),
        BooleanExp::ArithmeticCondition(c) => {
            let z = value(&c.lhs, s)?;
            Some(match c.operator {
                ConditionOperator::Equal => z == 0,
                ConditionOperator::NotEqual => z != 0,
                ConditionOperator::StrictlyLess => z < 0,
                ConditionOperator::GreaterOrEqual => z >= 0,
            })
        }
        BooleanExp::And { lhs, rhs } => Some(truth(lhs, s)? & truth(rhs, s)?),
        BooleanExp::Or { lhs, rhs } => Some(truth(lhs, s)? | truth(rhs, s)?),
    }
}

/// Runs the statement and notes the valuation at every head of every loop.
fn execute(
    stmt: &Statement,
    s: Valuation,
    fuel: &mut usize,
    heads: &mut Vec<(usize, usize, Valuation)>,
) -> Option<Valuation> {
    match stmt {
        Statement::Skip => Some(s),
        Statement::Assignment(a) => {
            let z = value(&a.value, &s)?;
            let mut t = s;
            if t.contains_key(&a.var) {
                t.insert(a.var.clone(), z);
            }
            Some(t)
        }
        Statement::Composition { lhs, rhs } => {
            let mid = execute(lhs, s, fuel, heads)?;
            execute(rhs, mid, fuel, heads)
        }
        Statement::Conditional { guard, true_branch, false_branch } => {
            if truth(guard, &s)? {
                execute(true_branch, s, fuel, heads)
            } else {
                execute(false_branch, s, fuel, heads)
            }
        }
        Statement::While { pos, guard, body } => {
            let mut s = s;
            loop {
                heads.push((pos.line, pos.clm, s.clone()));
                if !truth(guard, &s)? {
                    return Some(s);
                }
                if *fuel == 0 {
                    return None;
                }
                *fuel -= 1;
                s = execute(body, s, fuel, heads)?;
            }
        }
    }
}

fn describes(
    state: &abstract_interpreter::state::State<Interval>,
    s: &Valuation,
    bounds: &DomainBounds,
) -> bool {
    !state.is_bottom()
        && state.vars().iter().all(|name| {
            let v = state.lookup(name).normalized(bounds);
            let z = Int::Num(s[name]);
            v.low.le(z) && z.le(v.upper)
        })
}

fn check(source: &str, assumptions: &[(&str, &str)], starts: &[&[(&str, i64)]]) {
    let program = parse_source(source).unwrap();
    let given: Vec<(String, String)> =
        assumptions.iter().map(|(a, b)| (a.to_string(), b.to_string())).collect();
    let domains = [
        DomainBounds { m: Int::NegInf, n: Int::PosInf },
        DomainBounds { m: Int::Num(-3), n: Int::Num(8) },
        DomainBounds { m: Int::PosInf, n: Int::NegInf },
        DomainBounds { m: Int::Num(0), n: Int::PosInf },
    ];
    for bounds in domains {
        for narrowing_steps in [0usize, 1, 4] {
            for limit in [0usize, 1, 3, 1000] {
                let mut interpreter = Interpreter::<Interval>::build(
                    &program,
                    given.clone(),
                    bounds,
                    narrowing_steps,
                    limit,
                );
                assert!(interpreter.is_runnable());
                let invariants = interpreter.interpret();
                for start in starts {
                    // Every variable of the analysis has a value; those that
                    // the start leaves out begin at zero, which top denotes.
                    let mut s: Valuation = Valuation::new();
                    let mut declared = Vec::new();
                    program.extract_vars(&mut declared);
                    for name in declared {
                        s.insert(name, 0);
                    }
                    for (name, _) in assumptions {
                        s.insert(name.to_string(), 0);
                    }
                    for (name, z) in start.iter() {
                        s.insert(name.to_string(), *z);
                    }
                    let mut fuel = 10_000;
                    let mut heads = Vec::new();
                    let end = execute(&program, s, &mut fuel, &mut heads);
                    for (line, clm, at) in &heads {
                        let index = (0..invariants.len())
                            .find(|i| {
                                let p = invariants.position(*i);
                                p.line == *line && p.clm == *clm
                            })
                            .unwrap();
                        assert!(describes(invariants.state_at(index), at, &bounds));
                    }
                    if let Some(end) = end {
                        assert!(describes(
                            invariants.state_at(invariants.len() - 1),
                            &end,
                            &bounds
                        ));
                    }
                }
            }
        }
    }
}

#[test]
fn runs_stay_within_the_analysis_of_a_counting_loop() {
    check(
        "assume x := [0,10]\ny := 0; while x < 10 do { y := y + 1; x := x + 1 }",
        &[("x", "[0,10]")],
        &[&[("x", 0)], &[("x", 3)], &[("x", 10)]],
    );
}

#[test]
fn runs_stay_within_the_analysis_of_nested_loops() {
    check(
        "i := 0; t := 0;\nwhile i < 4 do {\n  j := 0;\n  while j < i do { j := j + 1; t := t + i * 2 };\n  if t - i - i < 3 then t := t - 5 * (i / 2) else skip;\n  i := i + 1\n}",
        &[],
        &[&[]],
    );
}

#[test]
fn runs_stay_within_the_analysis_of_compound_guards() {
    check(
        "while !(x < 0) & x < 20 & !(x = 7) do {\n  if x + y < 5 & !(y = x) then x := x + 2 else x := x + 1;\n  y := y - 1\n}",
        &[("x", "[-2,9]"), ("y", "[-5,5]")],
        &[
            &[("x", -2), ("y", 5)],
            &[("x", 0), ("y", 0)],
            &[("x", 9), ("y", -5)],
            &[("x", 3), ("y", 4)],
            &[("x", 6), ("y", 1)],
        ],
    );
}

#[test]
fn a_product_with_a_factor_of_zero_in_a_guard_loses_the_run() {
    // 5 * x < 3 holds of x = 0, but the backward operator of the product
    // divides by the factor zero: both branches are found unreachable.
    let program = parse_source("if 5 * x < 3 then y := 1 else y := 2").unwrap();
    let given = vec![("x".to_string(), "[0,0]".to_string())];
    let bounds = DomainBounds { m: Int::NegInf, n: Int::PosInf };
    let mut interpreter = Interpreter::<Interval>::build(&program, given, bounds, 0, 100);
    let invariants = interpreter.interpret();
    assert!(invariants.state_at(0).is_bottom());
}
