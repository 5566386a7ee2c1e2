use abstract_interpreter::abstract_domains::abstract_domain::AbstractDomain;
use abstract_interpreter::abstract_domains::ext_int::Int;
use abstract_interpreter::abstract_domains::interval::{DomainBounds, Interval};
use abstract_interpreter::interpreter::{Interpreter, Settings};
use abstract_interpreter::invariants::ProgramInvariants;
use abstract_interpreter::parser::ast::{
    insert_constant, insert_name, ArithmeticCondition, ArithmeticExp, Assignment, BooleanExp,
    ConditionOperator, Operator, Position, Statement,
};
use abstract_interpreter::parser::grammar::parse_source;
use abstract_interpreter::propagation_algo::node::{Node, VarLeafs};
use abstract_interpreter::propagation_algo::propagation_algo::PropagationAlgorithm;
use abstract_interpreter::state::State;

fn full() -> DomainBounds {
    DomainBounds { m: Int::NegInf, n: Int::PosInf }
}

fn state(pairs: &[(&str, [i64; 2])]) -> State<Interval> {
    State::new(pairs.iter().map(|(k, v)| (k.to_string(), Interval::from(*v))).collect())
}

fn value(state: &State<Interval>, name: &str) -> (Int, Int) {
    let v = state.lookup(name);
    (v.low, v.upper)
}

fn fin(a: i64, b: i64) -> (Int, Int) {
    (Int::Num(a), Int::Num(b))
}

fn var(name: &str) -> Box<ArithmeticExp> {
    Box::new(ArithmeticExp::Variable(name.to_string()))
}

fn num(x: i64) -> Box<ArithmeticExp> {
    Box::new(ArithmeticExp::Integer(x))
}

fn bin(lhs: Box<ArithmeticExp>, operator: Operator, rhs: Box<ArithmeticExp>) -> Box<ArithmeticExp> {
    Box::new(ArithmeticExp::BinaryOperation { lhs, operator, rhs })
}

#[test]
fn state_new_keeps_the_last_value_of_a_name() {
    let s = state(&[("x", [0, 1]), ("y", [2, 3]), ("x", [4, 5])]);
    assert_eq!(s.vars(), vec!["x".to_string(), "y".to_string()]);
    assert_eq!(value(&s, "x"), fin(4, 5));
    assert_eq!(value(&s, "y"), fin(2, 3));
    assert!(s.declares("x"));
    assert!(!s.declares("z"));
    assert!(!s.is_bottom());
    assert_eq!(s.len(), 2);
    assert!(State::<Interval>::new(vec![]).is_bottom());
    assert!(State::<Interval>::default().is_bottom());
    assert!(State::<Interval>::bottom().is_bottom());
}

#[test]
fn state_update() {
    let b = full();
    let mut s = state(&[("x", [0, 1]), ("y", [2, 3])]);
    s.update("y", Interval::from([7, 8]), &b);
    assert_eq!(value(&s, "y"), fin(7, 8));
    assert_eq!(value(&s, "x"), fin(0, 1));
    // A name that is not declared changes nothing.
    s.update("z", Interval::from([7, 8]), &b);
    assert_eq!(s.vars(), vec!["x".to_string(), "y".to_string()]);
    // A bottom value makes the state bottom.
    s.update("x", Interval::from([3, 2]), &b);
    assert!(s.is_bottom());
    s.update("x", Interval::from([1, 2]), &b);
    assert!(s.is_bottom());
}

#[test]
fn state_join_and_meet() {
    let b = full();
    let s = state(&[("x", [0, 1]), ("y", [2, 3])]);
    let t = state(&[("y", [0, 9]), ("x", [1, 5])]);
    let j = s.lub_var_wise(&t, &b);
    assert_eq!(j.vars(), vec!["x".to_string(), "y".to_string()]);
    assert_eq!(value(&j, "x"), fin(0, 5));
    assert_eq!(value(&j, "y"), fin(0, 9));
    let m = s.glb_var_wise(&t, &b);
    assert_eq!(value(&m, "x"), fin(1, 1));
    assert_eq!(value(&m, "y"), fin(2, 3));
    let bottom = State::<Interval>::bottom();
    assert!(s.lub_var_wise(&bottom, &b).eq(&s, &b));
    assert!(bottom.lub_var_wise(&s, &b).eq(&s, &b));
    assert!(s.glb_var_wise(&bottom, &b).is_bottom());
    assert!(bottom.glb_var_wise(&s, &b).is_bottom());
    // A variable that only the other state has is taken over.
    let u = state(&[("x", [4, 4]), ("z", [6, 6])]);
    let j = s.lub_var_wise(&u, &b);
    assert_eq!(j.vars(), vec!["x".to_string(), "y".to_string(), "z".to_string()]);
    assert_eq!(value(&j, "x"), fin(0, 4));
    assert_eq!(value(&j, "y"), fin(2, 3));
    assert_eq!(value(&j, "z"), fin(6, 6));
}

#[test]
fn state_widening_and_narrowing() {
    let b = full();
    let thresholds = vec![0, 10];
    let s = state(&[("x", [0, 1]), ("y", [2, 3])]);
    let t = state(&[("x", [0, 4]), ("y", [1, 3])]);
    let w = s.widening(&t, &thresholds, &b);
    assert_eq!(value(&w, "x"), fin(0, 10));
    assert_eq!(value(&w, "y"), fin(0, 3));
    let wide = State::new(vec![
        ("x".to_string(), Interval { low: Int::Num(0), upper: Int::PosInf }),
        ("y".to_string(), Interval::from([2, 3])),
    ]);
    let n = wide.narrowing(&t, &b);
    assert_eq!(value(&n, "x"), fin(0, 4));
    assert_eq!(value(&n, "y"), fin(2, 3));
    let bottom = State::<Interval>::bottom();
    assert!(s.widening(&bottom, &thresholds, &b).eq(&s, &b));
    assert!(bottom.widening(&s, &thresholds, &b).eq(&s, &b));
    // Narrowing adds nothing: bottom stays bottom.
    assert!(s.narrowing(&bottom, &b).eq(&s, &b));
    assert!(bottom.narrowing(&s, &b).is_bottom());
    assert!(bottom.narrowing(&bottom, &b).is_bottom());
}

#[test]
fn state_equality_and_text() {
    let bounds = DomainBounds { m: Int::Num(-5), n: Int::Num(5) };
    let s = state(&[("x", [0, 1]), ("y", [-9, 3])]);
    let t = state(&[("y", [-6, 3]), ("x", [0, 1])]);
    assert!(s.eq(&t, &bounds));
    assert!(!s.eq(&t, &full()));
    assert!(!s.eq(&state(&[("x", [0, 1])]), &bounds));
    assert!(!s.eq(&state(&[("x", [0, 1]), ("z", [-9, 3])]), &bounds));
    assert_eq!(s.to_text(&bounds), "{ x := [0,1] y := [-inf,3] }");
    assert_eq!(State::<Interval>::bottom().to_text(&bounds), "{ }");
    assert!(s.clone().eq(&s, &full()));
    let top = s.fill(Interval::top());
    assert_eq!(top.to_text(&full()), "{ x := [-inf,inf] y := [-inf,inf] }");
}

#[test]
fn invariants_are_kept_in_the_order_of_positions() {
    let b = full();
    let mut invariants = ProgramInvariants::<Interval>::new();
    let at = |line, clm| Position { line, clm };
    invariants.insert(at(3, 1), state(&[("x", [3, 3])]));
    invariants.insert(Position::end(), state(&[("x", [9, 9])]));
    invariants.insert(at(1, 7), state(&[("x", [1, 1])]));
    invariants.insert(at(3, 0), state(&[("x", [2, 2])]));
    invariants.insert(at(3, 1), state(&[("x", [4, 4])]));
    assert_eq!(invariants.len(), 4);
    let positions: Vec<Position> = (0..4).map(|i| invariants.position(i)).collect();
    assert_eq!(positions, vec![at(1, 7), at(3, 0), at(3, 1), Position::end()]);
    assert_eq!(value(invariants.state_at(2), "x"), fin(4, 4));
    assert!(at(1, 7).precedes(&at(3, 0)));
    assert!(at(3, 0).precedes(&at(3, 1)));
    assert!(!at(3, 1).precedes(&at(3, 1)));
    let copy = invariants.clone();
    assert_eq!(copy.len(), 4);
    assert!(copy.state_at(0).eq(invariants.state_at(0), &b));
}

#[test]
fn tree_passes() {
    // (x + 1) - y over x in [0,10], y in [5,6]
    let b = full();
    let s = state(&[("x", [0, 10]), ("y", [5, 6])]);
    let exp = bin(bin(var("x"), Operator::Add, num(1)), Operator::Sub, var("y"));
    let mut leafs = VarLeafs::<Interval>::new();
    let mut tree = Node::build(&exp, &s, &mut leafs, &b);
    assert_eq!(leafs.len(), 2);
    assert_eq!(leafs.name(0), "x");
    assert_eq!(leafs.name(1), "y");
    assert!(tree.get_value(&leafs).eq(&Interval::top(), &b));
    tree.forward_analysis(&leafs, &b);
    let root = tree.get_value(&leafs);
    assert_eq!((root.low, root.upper), fin(-5, 6));
    assert_eq!(
        tree.pretty_print(&leafs, &b),
        "- [-5,6]\n   + [1,11]\n   |  Var [0,10]\n   |  Const [1,1]\n   Var [5,6]\n"
    );
    // The whole expression equals zero.
    let ok = tree.backward_analysis(Interval::from([0, 0]), &mut leafs, &b);
    assert!(ok);
    let (x, y) = (leafs.value(0), leafs.value(1));
    assert_eq!((x.low, x.upper), fin(4, 5));
    assert_eq!((y.low, y.upper), fin(5, 6));
    // No value of the expression is above 100.
    tree.forward_analysis(&leafs, &b);
    let ok = tree.backward_analysis(Interval::from([100, 200]), &mut leafs, &b);
    assert!(!ok);
    let leaf = Node::<Interval>::ConstantLeaf { value: Interval::from([2, 2]) };
    assert_eq!(leaf.pretty_print(&leafs, &b), "Const [2,2]\n");
}

#[test]
fn a_variable_has_one_cell() {
    // x - x = 0 keeps x; x - x < 0 is unsatisfiable only through the shared cell.
    let b = full();
    let s = state(&[("x", [0, 10])]);
    let exp = bin(var("x"), Operator::Sub, var("x"));
    let mut leafs = VarLeafs::<Interval>::new();
    let tree = Node::build(&exp, &s, &mut leafs, &b);
    assert_eq!(leafs.len(), 1);
    match tree {
        Node::Internal { left, right, .. } => {
            assert!(matches!(*left, Node::VarLeaf { slot: 0 }));
            assert!(matches!(*right, Node::VarLeaf { slot: 0 }));
        }
        _ => panic!("not an operation"),
    }
}

#[test]
fn local_iterations_refine_both_variables() {
    let b = full();
    let s = state(&[("x", [0, 10]), ("y", [5, 20]), ("z", [1, 1])]);
    // x - y >= 0
    let cond = ArithmeticCondition::normal_form(var("x"), ConditionOperator::GreaterOrEqual, var("y"));
    let r = PropagationAlgorithm::build(&cond, &s, &b).local_iterations(100);
    assert_eq!(value(&r, "x"), fin(5, 10));
    assert_eq!(value(&r, "y"), fin(5, 10));
    assert_eq!(value(&r, "z"), fin(1, 1));
    // x = 11 is unsatisfiable.
    let cond = ArithmeticCondition::normal_form(var("x"), ConditionOperator::Equal, num(11));
    assert!(PropagationAlgorithm::build(&cond, &s, &b).local_iterations(100).is_bottom());
    // x != 0 drops the endpoint zero.
    let cond = ArithmeticCondition::normal_form(var("x"), ConditionOperator::NotEqual, num(0));
    let r = PropagationAlgorithm::build(&cond, &s, &b).local_iterations(100);
    assert_eq!(value(&r, "x"), fin(1, 10));
    // Without a round nothing is refined.
    let r = PropagationAlgorithm::build(&cond, &s, &b).local_iterations(0);
    assert_eq!(value(&r, "x"), fin(0, 10));
}

#[test]
fn local_iterations_stop_at_the_limit() {
    // x = x + 1 has no solution, and each round only raises the lower
    // endpoint of x by one.
    let b = full();
    let s = State::new(vec![("x".to_string(), Interval { low: Int::Num(0), upper: Int::PosInf })]);
    let cond = ArithmeticCondition::normal_form(
        var("x"),
        ConditionOperator::Equal,
        bin(var("x"), Operator::Add, num(1)),
    );
    let r = PropagationAlgorithm::build(&cond, &s, &b).local_iterations(7);
    let x = r.lookup("x");
    assert_eq!(x.upper, Int::PosInf);
    assert!(Int::Num(1).le(x.low) && x.low.le(Int::Num(14)));
}

#[test]
fn guards_of_compound_conditions() {
    let b = full();
    let s = state(&[("x", [0, 10]), ("y", [0, 10])]);
    let less = |l, r| {
        Box::new(BooleanExp::ArithmeticCondition(ArithmeticCondition::normal_form(
            l,
            ConditionOperator::StrictlyLess,
            r,
        )))
    };
    // x < y & y < 5
    let both = BooleanExp::And { lhs: less(var("x"), var("y")), rhs: less(var("y"), num(5)) };
    let r = Interpreter::bexp_eval(&both, &s, &b, 100);
    assert_eq!(value(&r, "x"), fin(0, 3));
    assert_eq!(value(&r, "y"), fin(1, 4));
    // !(x < y & y < 5) is x >= y or y >= 5: nothing is learnt.
    let r = Interpreter::bexp_eval(&both.negation(), &s, &b, 100);
    assert_eq!(value(&r, "x"), fin(0, 10));
    assert_eq!(value(&r, "y"), fin(0, 10));
    assert!(Interpreter::bexp_eval(&BooleanExp::Boolean(false), &s, &b, 100).is_bottom());
    assert!(Interpreter::bexp_eval(&BooleanExp::Boolean(true), &s, &b, 100).eq(&s, &b));
    let e = bin(bin(var("x"), Operator::Mul, num(2)), Operator::Div, bin(var("y"), Operator::Add, num(1)));
    let v = Interpreter::aexp_eval(&e, &s, &b);
    assert_eq!((v.low, v.upper), fin(0, 20));
}

#[test]
fn nested_loops_record_both_invariants() {
    let source = "i := 0;\nwhile i < 3 do {\n  j := 0;\n  while j < i do { j := j + 1 };\n  i := i + 1\n}";
    let program = parse_source(source).unwrap();
    let mut interpreter = Interpreter::<Interval>::build(&program, vec![], full(), 2, 1000);
    assert!(interpreter.is_runnable());
    let invariants = interpreter.interpret();
    assert_eq!(invariants.len(), 3);
    assert_eq!(invariants.position(0), Position { line: 1, clm: 0 });
    assert_eq!(invariants.position(1), Position { line: 3, clm: 2 });
    assert_eq!(value(invariants.state_at(0), "i"), fin(0, 3));
    assert_eq!(value(invariants.state_at(1), "i"), fin(0, 2));
    assert_eq!(value(invariants.state_at(1), "j"), fin(0, 3));
    assert_eq!(value(invariants.state_at(2), "i"), fin(3, 3));
}

#[test]
fn a_search_without_rounds_gives_top() {
    let program = parse_source("x := 0; while x < 5 do x := x + 1").unwrap();
    let mut interpreter = Interpreter::<Interval>::build(&program, vec![], full(), 0, 0);
    let invariants = interpreter.interpret();
    let at_loop = invariants.state_at(0).lookup("x");
    assert_eq!((at_loop.low, at_loop.upper), (Int::NegInf, Int::PosInf));
}

#[test]
fn a_built_analysis_is_runnable() {
    // A variable that is only read begins at top.
    let program = parse_source("y := x + 1").unwrap();
    let mut interpreter = Interpreter::<Interval>::build(&program, vec![], full(), 0, 10);
    assert!(interpreter.is_runnable());
    let invariants = interpreter.interpret();
    assert_eq!(invariants.state_at(0).vars(), vec!["y", "x"]);
    assert_eq!(value(invariants.state_at(0), "x"), (Int::NegInf, Int::PosInf));
    assert_eq!(value(invariants.state_at(0), "y"), (Int::NegInf, Int::PosInf));
    let given = vec![("x".to_string(), "[1,2]".to_string())];
    let mut interpreter = Interpreter::<Interval>::build(&program, given, full(), 0, 10);
    assert!(interpreter.is_runnable());
    let invariants = interpreter.interpret();
    assert_eq!(value(invariants.state_at(0), "y"), fin(2, 3));
    // A state made by hand may lack what the program reads.
    let settings = Settings::<Interval> {
        bounds: full(),
        widening_thresholds: vec![],
        narrowing_steps: 0,
        iteration_limit: 10,
    };
    let without = Interpreter::with_state(&program, state(&[("y", [0, 0])]), settings);
    assert!(!without.is_runnable());
    let settings = Settings::<Interval> {
        bounds: full(),
        widening_thresholds: vec![],
        narrowing_steps: 0,
        iteration_limit: 10,
    };
    let with = Interpreter::with_state(&program, state(&[("x", [0, 0]), ("y", [0, 0])]), settings);
    assert!(with.is_runnable());
}

#[test]
fn variables_and_constants_of_a_program() {
    let program = parse_source("x := 3; if y < x + 7 then z := 1 else while !(w = 3) do x := x * 2").unwrap();
    let mut vars = vec!["q".to_string()];
    program.extract_vars(&mut vars);
    // Every variable that occurs, each once.
    assert_eq!(vars, vec!["q", "x", "y", "z", "w"]);
    let mut consts = vec![7];
    program.extract_constant(&mut consts);
    // The literals of the source, and nothing else.
    assert_eq!(consts, vec![7, 3, 1, 2]);
    // A variable that is only read is a variable of the program.
    let reading = parse_source("x := y + z * 2; if 7 - 10 < 0 then skip else u := v").unwrap();
    let mut vars = vec![];
    reading.extract_vars(&mut vars);
    assert_eq!(vars, vec!["x", "y", "z", "u", "v"]);
    let mut consts = vec![];
    reading.extract_constant(&mut consts);
    assert_eq!(consts, vec![2, 7, 10, 0]);
    let plain = parse_source("while a < b do a := a + b").unwrap();
    let mut consts = vec![];
    plain.extract_constant(&mut consts);
    assert!(consts.is_empty());
    let mut names = vec![];
    insert_name(&mut names, &"a".to_string());
    insert_name(&mut names, &"a".to_string());
    assert_eq!(names, vec!["a"]);
    let mut numbers = vec![];
    insert_constant(&mut numbers, 4);
    insert_constant(&mut numbers, 4);
    assert_eq!(numbers, vec![4]);
    let s = Statement::Assignment(Assignment { var: "v".to_string(), value: num(5) });
    let mut consts = vec![];
    s.extract_constant(&mut consts);
    assert_eq!(consts, vec![5]);
}

#[test]
fn negation_is_pushed_inward() {
    let c = |operator| {
        Box::new(BooleanExp::ArithmeticCondition(ArithmeticCondition { lhs: var("x"), operator }))
    };
    let e = BooleanExp::And {
        lhs: c(ConditionOperator::Equal),
        rhs: Box::new(BooleanExp::Or {
            lhs: c(ConditionOperator::StrictlyLess),
            rhs: Box::new(BooleanExp::Boolean(true)),
        }),
    };
    let expected = BooleanExp::Or {
        lhs: c(ConditionOperator::NotEqual),
        rhs: Box::new(BooleanExp::And {
            lhs: c(ConditionOperator::GreaterOrEqual),
            rhs: Box::new(BooleanExp::Boolean(false)),
        }),
    };
    assert_eq!(e.negation(), expected);
    assert_eq!(!e.clone(), expected);
    assert_eq!(!!e.clone(), e);
    assert_eq!(-ConditionOperator::Equal, ConditionOperator::NotEqual);
    assert_eq!(-ConditionOperator::GreaterOrEqual, ConditionOperator::StrictlyLess);
    // Every comparison becomes a difference against zero, also one with zero.
    let n = ArithmeticCondition::normal_form(var("x"), ConditionOperator::Equal, num(0));
    assert_eq!(
        n,
        ArithmeticCondition {
            lhs: bin(var("x"), Operator::Sub, num(0)),
            operator: ConditionOperator::Equal
        }
    );
    let m = ArithmeticCondition::normal_form(num(5), ConditionOperator::StrictlyLess, num(0));
    assert_eq!(m.lhs, bin(num(5), Operator::Sub, num(0)));
    assert_eq!((!n).operator, ConditionOperator::NotEqual);
}

fn candidates(invariants: &ProgramInvariants<Interval>, search: usize, name: &str) -> Vec<(Int, Int)> {
    invariants.search_iterates(search).iter().map(|s| value(s, name)).collect()
}

#[test]
fn a_search_notes_its_candidates() {
    let program = parse_source("x := 0; while x < 10 do x := x + 1").unwrap();
    let mut interpreter = Interpreter::<Interval>::build(&program, vec![], full(), 0, 1000);
    let invariants = interpreter.interpret();
    assert_eq!(invariants.searches_len(), 1);
    assert_eq!(invariants.search_position(0), invariants.position(0));
    // From the state at the entry of the loop, by the thresholds 1 and 10,
    // to the candidate that a round gives back.
    assert_eq!(candidates(&invariants, 0, "x"), vec![fin(0, 0), fin(0, 1), fin(0, 10), fin(0, 10)]);
    assert_eq!(value(invariants.state_at(0), "x"), fin(0, 10));
}

#[test]
fn a_straight_program_notes_no_search() {
    let program = parse_source("x := 0; if x < 1 then y := 1 else y := 2").unwrap();
    let mut interpreter = Interpreter::<Interval>::build(&program, vec![], full(), 0, 1000);
    let invariants = interpreter.interpret();
    assert_eq!(invariants.searches_len(), 0);
}

#[test]
fn a_loop_that_is_not_reached_notes_no_search() {
    let program = parse_source("x := 0; if x < 0 then while x < 3 do x := x + 1 else skip").unwrap();
    let mut interpreter = Interpreter::<Interval>::build(&program, vec![], full(), 0, 1000);
    let invariants = interpreter.interpret();
    assert_eq!(invariants.searches_len(), 0);
}

#[test]
fn a_search_without_rounds_notes_the_entry_and_top() {
    let program = parse_source("x := 0; while x < 5 do x := x + 1").unwrap();
    let mut interpreter = Interpreter::<Interval>::build(&program, vec![], full(), 0, 0);
    let invariants = interpreter.interpret();
    assert_eq!(invariants.searches_len(), 1);
    assert_eq!(candidates(&invariants, 0, "x"), vec![fin(0, 0), (Int::NegInf, Int::PosInf)]);
}

#[test]
fn an_inner_search_is_noted_for_every_run_of_the_outer_body() {
    let source = "i := 0;\nwhile i < 3 do {\n  j := 0;\n  while j < i do { j := j + 1 };\n  i := i + 1\n}";
    let program = parse_source(source).unwrap();
    let outer = Position { line: 1, clm: 0 };
    let inner = Position { line: 3, clm: 2 };
    let mut interpreter = Interpreter::<Interval>::build(&program, vec![], full(), 0, 1000);
    let invariants = interpreter.interpret();
    let places: Vec<Position> =
        (0..invariants.searches_len()).map(|i| invariants.search_position(i)).collect();
    // One search of the inner loop in each round of the outer search, and
    // the outer search after them.
    let outer_at = places.len() - 1;
    assert_eq!(places[outer_at], outer);
    assert!(places[..outer_at].iter().all(|p| *p == inner));
    let rounds = invariants.search_iterates(outer_at).len() - 1;
    assert_eq!(outer_at, rounds);
    assert_eq!(candidates(&invariants, outer_at, "i").first(), Some(&fin(0, 0)));
    assert_eq!(
        candidates(&invariants, outer_at, "i").last(),
        Some(&value(invariants.state_at(0), "i"))
    );
    // With narrowing, the body runs again after the outer search has ended.
    let mut interpreter = Interpreter::<Interval>::build(&program, vec![], full(), 1, 1000);
    let refined = interpreter.interpret();
    assert_eq!(refined.searches_len(), places.len() + 1);
    assert_eq!(refined.search_position(outer_at), outer);
    assert_eq!(refined.search_position(outer_at + 1), inner);
}

#[test]
fn a_second_run_adds_to_what_was_noted() {
    let program = parse_source("x := 0; while x < 10 do x := x + 1").unwrap();
    let mut interpreter = Interpreter::<Interval>::build(&program, vec![], full(), 0, 1000);
    let first = interpreter.interpret();
    let second = interpreter.interpret();
    assert_eq!(first.searches_len(), 1);
    assert_eq!(second.searches_len(), 2);
    assert_eq!(candidates(&second, 0, "x"), candidates(&second, 1, "x"));
    assert_eq!(second.len(), first.len());
}
