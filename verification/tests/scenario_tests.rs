use abstract_interpreter::abstract_domains::abstract_domain::AbstractDomain;
use abstract_interpreter::abstract_domains::ext_int::Int;
use abstract_interpreter::abstract_domains::interval::{DomainBounds, Interval};
use abstract_interpreter::interpreter::Interpreter;
use abstract_interpreter::invariants::ProgramInvariants;
use abstract_interpreter::parser::ast::{
    ArithmeticCondition, ArithmeticExp, Assignment, BooleanExp, ConditionOperator, Operator,
    Position, Statement,
};
use abstract_interpreter::state::State;

fn full() -> DomainBounds {
    DomainBounds { m: Int::NegInf, n: Int::PosInf }
}

fn var(name: &str) -> Box<ArithmeticExp> {
    Box::new(ArithmeticExp::Variable(name.to_string()))
}

fn num(x: i64) -> Box<ArithmeticExp> {
    Box::new(ArithmeticExp::Integer(x))
}

fn bin(lhs: Box<ArithmeticExp>, operator: Operator, rhs: Box<ArithmeticExp>) -> Box<ArithmeticExp> {
    Box::new(ArithmeticExp::BinaryOperation { lhs, operator, rhs })
}

fn assign(name: &str, value: Box<ArithmeticExp>) -> Statement {
    Statement::Assignment(Assignment { var: name.to_string(), value })
}

fn seq(lhs: Statement, rhs: Statement) -> Statement {
    Statement::Composition { lhs: Box::new(lhs), rhs: Box::new(rhs) }
}

fn cond(lhs: Box<ArithmeticExp>, operator: ConditionOperator, rhs: Box<ArithmeticExp>) -> Box<BooleanExp> {
    Box::new(BooleanExp::ArithmeticCondition(ArithmeticCondition::normal_form(lhs, operator, rhs)))
}

fn given(pairs: &[(&str, &str)]) -> Vec<(String, String)> {
    pairs.iter().map(|(a, b)| (a.to_string(), b.to_string())).collect()
}

fn interval(low: Int, upper: Int) -> Interval {
    Interval { low, upper }
}

fn value(state: &State<Interval>, name: &str) -> (Int, Int) {
    let v = state.lookup(name).normalized(&full());
    (v.low, v.upper)
}

fn last(invariants: &ProgramInvariants<Interval>) -> &State<Interval> {
    invariants.state_at(invariants.len() - 1)
}

fn analyse(
    program: &Statement,
    assumptions: &[(&str, &str)],
    bounds: DomainBounds,
    narrowing_steps: usize,
) -> ProgramInvariants<Interval> {
    let mut interpreter =
        Interpreter::<Interval>::build(program, given(assumptions), bounds, narrowing_steps, 1000);
    assert!(interpreter.is_runnable());
    interpreter.interpret()
}

#[test]
fn straight_line_assignments() {
    // x := 3; y := x + 2
    let program = seq(assign("x", num(3)), assign("y", bin(var("x"), Operator::Add, num(2))));
    let invariants = analyse(&program, &[], full(), 0);
    assert_eq!(invariants.len(), 1);
    assert_eq!(invariants.position(0), Position { line: usize::MAX, clm: usize::MAX });
    let end = last(&invariants);
    assert_eq!(value(end, "x"), (Int::Num(3), Int::Num(3)));
    assert_eq!(value(end, "y"), (Int::Num(5), Int::Num(5)));
}

#[test]
fn counting_loop() {
    // assume x := [0,10]
    // y := 0; while x < 10 do { y := y + 1; x := x + 1 }
    let body = seq(
        assign("y", bin(var("y"), Operator::Add, num(1))),
        assign("x", bin(var("x"), Operator::Add, num(1))),
    );
    let pos = Position { line: 1, clm: 8 };
    let program = seq(
        assign("y", num(0)),
        Statement::While {
            pos,
            guard: cond(var("x"), ConditionOperator::StrictlyLess, num(10)),
            body: Box::new(body),
        },
    );
    for steps in [0usize, 1, 3] {
        let invariants = analyse(&program, &[("x", "[0,10]")], full(), steps);
        assert_eq!(invariants.len(), 2);
        assert_eq!(invariants.position(0), pos);
        let at_loop = invariants.state_at(0);
        assert_eq!(value(at_loop, "x"), (Int::Num(0), Int::Num(10)));
        // The interval domain relates no two variables: nothing bounds `y`.
        assert_eq!(value(at_loop, "y"), (Int::Num(0), Int::PosInf));
        let end = last(&invariants);
        assert_eq!(value(end, "x"), (Int::Num(10), Int::Num(10)));
        assert_eq!(value(end, "y"), (Int::Num(0), Int::PosInf));
    }
}

#[test]
fn conditional_joins_branches() {
    // if x = 0 then y := 1 else y := 2, from x in [-5,5]
    let program = Statement::Conditional {
        guard: cond(var("x"), ConditionOperator::Equal, num(0)),
        true_branch: Box::new(assign("y", num(1))),
        false_branch: Box::new(assign("y", num(2))),
    };
    let invariants = analyse(&program, &[("x", "[-5,5]")], full(), 0);
    let end = last(&invariants);
    assert_eq!(value(end, "x"), (Int::Num(-5), Int::Num(5)));
    assert_eq!(value(end, "y"), (Int::Num(1), Int::Num(2)));
}

#[test]
fn endless_loop_leaves_bottom() {
    // assume x := [0,0]
    // while true do x := x + 1
    let pos = Position { line: 1, clm: 0 };
    let program = Statement::While {
        pos,
        guard: Box::new(BooleanExp::Boolean(true)),
        body: Box::new(assign("x", bin(var("x"), Operator::Add, num(1)))),
    };
    let invariants = analyse(&program, &[("x", "[0,0]")], full(), 0);
    assert_eq!(invariants.len(), 2);
    assert_eq!(value(invariants.state_at(0), "x"), (Int::Num(0), Int::PosInf));
    assert!(last(&invariants).is_bottom());
}

#[test]
fn unreachable_branch_is_dropped() {
    // assume x := 42
    // if x < 0 then y := 1 else y := 2
    let program = Statement::Conditional {
        guard: cond(var("x"), ConditionOperator::StrictlyLess, num(0)),
        true_branch: Box::new(assign("y", num(1))),
        false_branch: Box::new(assign("y", num(2))),
    };
    let invariants = analyse(&program, &[("x", "42")], full(), 0);
    let end = last(&invariants);
    assert_eq!(value(end, "x"), (Int::Num(42), Int::Num(42)));
    assert_eq!(value(end, "y"), (Int::Num(2), Int::Num(2)));
}

#[test]
fn bounded_domain_saturates() {
    // Under M = 0, N = 5: x := 3; x := x + 10
    let bounds = DomainBounds { m: Int::Num(0), n: Int::Num(5) };
    let program = seq(assign("x", num(3)), assign("x", bin(var("x"), Operator::Add, num(10))));
    let invariants = analyse(&program, &[], bounds, 0);
    let end = last(&invariants);
    let x = end.lookup("x").normalized(&bounds);
    // 13 lies above N: the lower endpoint falls back to N, the upper one
    // becomes infinite.
    assert_eq!((x.low, x.upper), (Int::Num(5), Int::PosInf));
    assert!(x.le(&interval(Int::Num(0), Int::PosInf), &bounds));
}
