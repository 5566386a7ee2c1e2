//! The statement evaluator: the abstract semantics of a program, with loop
//! invariants found by widening and refined by narrowing.

use vstd::prelude::*;
use crate::abstract_domains::abstract_domain::AbstractDomain;
use crate::invariants::{placed, states_view, ProgramInvariants, Records, Searches};
use crate::parser::ast::{
    lemma_negated_variables, lemma_reads_are_variables, ArithmeticExp, BooleanExp, Position,
    Statement,
};
use crate::propagation_algo::node::{apply, forward};
use crate::propagation_algo::propagation_algo::{refined, PropagationAlgorithm};
use crate::state::{
    equal, filled, from_pairs, has_key, joined, keys_of, last_value, lemma_from_pairs,
    lemma_pointwise_shape, lemma_same_keys, lemma_updated_shape, met, narrowed, pairs_view,
    same_shape, updated, value_of, widened, Entries, State,
};
use crate::text::views;
use crate::utils::pairs_text;

verus! {

/// What an analysis is run with, as specifications see it.
pub struct Setup<D: AbstractDomain> {
    /// The configuration of the domain.
    pub bounds: D::Bounds,
    /// The thresholds of the widening.
    pub thresholds: Set<i64>,
    /// The greatest number of narrowing steps at a loop.
    pub narrowing_steps: nat,
    /// The greatest number of rounds of any other iteration.
    pub limit: nat,
}

/// What an analysis is run with.
pub struct Settings<D: AbstractDomain> {
    /// The configuration of the domain.
    pub bounds: D::Bounds,
    /// The thresholds of the widening: the integer literals of the program.
    pub widening_thresholds: Vec<i64>,
    /// The greatest number of narrowing steps at a loop.
    pub narrowing_steps: usize,
    /// The greatest number of rounds of any other iteration: of the search
    /// for a loop invariant, of the refinement by a condition, and of the
    /// refinement by a conjunction or a disjunction.
    pub iteration_limit: usize,
}

impl<D: AbstractDomain> View for Settings<D> {
    type V = Setup<D>;

    open spec fn view(&self) -> Setup<D> {
        Setup {
            bounds: self.bounds,
            thresholds: self.widening_thresholds@.to_set(),
            narrowing_steps: self.narrowing_steps as nat,
            limit: self.iteration_limit as nat,
        }
    }
}

/// Whether the state declares every variable of `vars`.
pub open spec fn covers<D>(env: Entries<D>, vars: Set<Seq<char>>) -> bool {
    forall|v: Seq<char>| vars.contains(v) ==> has_key(env, v)
}

/// The abstract value of an expression in a state: the value of a variable,
/// the abstraction of a literal, the forward operator on the values of the
/// operands.
pub open spec fn aexp_value<D: AbstractDomain>(exp: ArithmeticExp, env: Entries<D>, bounds: D::Bounds) -> D
    decreases exp,
{
    match exp {
        ArithmeticExp::Variable(var) => value_of(env, var@),
        ArithmeticExp::Integer(x) => D::spec_constant(x, bounds),
        ArithmeticExp::BinaryOperation { lhs, operator, rhs } => forward(
            operator,
            aexp_value(*lhs, env, bounds),
            aexp_value(*rhs, env, bounds),
            bounds,
        ),
    }
}

/// The refinement of a state by a Boolean expression: the state itself for
/// `true`, bottom for `false`, the refinement by local iterations for a
/// condition, and for a conjunction or a disjunction the state that the
/// rounds of `guarded_rounds` end in.
pub open spec fn guarded<D: AbstractDomain>(
    exp: BooleanExp,
    env: Entries<D>,
    bounds: D::Bounds,
    limit: nat,
) -> Entries<D>
    decreases exp, limit + 2,
{
    match exp {
        BooleanExp::Boolean(b) => if b {
            env
        } else {
            Seq::empty()
        },
        BooleanExp::ArithmeticCondition(c) => refined(c, env, bounds, limit),
        _ => guarded_rounds(exp, env, bounds, limit, limit),
    }
}

/// At most `fuel` rounds of refining `x` by both operands of a conjunction
/// and meeting the results, or by both operands of a disjunction and joining
/// them. The rounds end when one gives bottom or a state equal to the one it
/// started from.
pub open spec fn guarded_rounds<D: AbstractDomain>(
    exp: BooleanExp,
    x: Entries<D>,
    bounds: D::Bounds,
    limit: nat,
    fuel: nat,
) -> Entries<D>
    decreases exp, fuel + 1,
{
    if fuel == 0 || fuel > limit || !(exp is And || exp is Or) {
        x
    } else {
        let current = compound(exp, x, bounds, limit);
        if equal(current, x, bounds) || current.len() == 0 {
            current
        } else {
            guarded_rounds(exp, current, bounds, limit, (fuel - 1) as nat)
        }
    }
}

/// One round of the refinement by a conjunction or a disjunction: the meet,
/// or the join, of the refinements of `x` by the two operands.
pub open spec fn compound<D: AbstractDomain>(
    exp: BooleanExp,
    x: Entries<D>,
    bounds: D::Bounds,
    limit: nat,
) -> Entries<D>
    decreases exp, 0nat,
{
    match exp {
        BooleanExp::And { lhs, rhs } => met(
            guarded(*lhs, x, bounds, limit),
            guarded(*rhs, x, bounds, limit),
            bounds,
        ),
        BooleanExp::Or { lhs, rhs } => joined(
            guarded(*lhs, x, bounds, limit),
            guarded(*rhs, x, bounds, limit),
            bounds,
        ),
        _ => x,
    }
}

/// The state after a statement and the invariants recorded so far.
///
/// Bottom stays bottom. `skip` changes nothing. An assignment binds the
/// value of the expression. A composition runs its parts in order. A
/// conditional runs each branch on the state refined by the guard or by its
/// negation, and joins the results. A loop finds an invariant by `ascend`,
/// refines it by `descend`, records it under the position of the loop and
/// leaves through the negation of the guard.
pub open spec fn run<D: AbstractDomain>(
    stmt: Statement,
    env: Entries<D>,
    records: Records<D>,
    setup: Setup<D>,
) -> (Entries<D>, Records<D>)
    decreases stmt, setup.limit + setup.narrowing_steps + 1,
{
    if env.len() == 0 {
        (Seq::empty(), records)
    } else {
        match stmt {
            Statement::Skip => (env, records),
            Statement::Assignment(a) => (
                updated(env, a.var@, aexp_value(*a.value, env, setup.bounds), setup.bounds),
                records,
            ),
            Statement::Composition { lhs, rhs } => {
                let (mid, records1) = run(*lhs, env, records, setup);
                run(*rhs, mid, records1, setup)
            },
            Statement::Conditional { guard, true_branch, false_branch } => {
                let (t, records1) = run(
                    *true_branch,
                    guarded(*guard, env, setup.bounds, setup.limit),
                    records,
                    setup,
                );
                let (f, records2) = run(
                    *false_branch,
                    guarded(guard.negated(), env, setup.bounds, setup.limit),
                    records1,
                    setup,
                );
                (joined(t, f, setup.bounds), records2)
            },
            Statement::While { pos, guard, body } => {
                let (x1, records1) = ascend(stmt, env, env, records, setup, setup.limit);
                let (x2, records2) = descend(
                    stmt,
                    env,
                    x1,
                    records1,
                    setup,
                    setup.narrowing_steps,
                );
                (
                    guarded(guard.negated(), x2, setup.bounds, setup.limit),
                    placed(records2, pos, x2),
                )
            },
        }
    }
}

/// One more candidate for the invariant of the loop `stmt` entered with
/// `input`: the join of `input` with the state after the body run on `x`
/// refined by the guard, widened from `x` where the domain needs it.
pub open spec fn step<D: AbstractDomain>(
    input: Entries<D>,
    x: Entries<D>,
    after_body: Entries<D>,
    setup: Setup<D>,
) -> Entries<D> {
    let next = joined(input, after_body, setup.bounds);
    if D::spec_needs_widening(setup.bounds) {
        widened(x, next, setup.thresholds, setup.bounds)
    } else {
        next
    }
}

/// The search for an invariant of the loop `stmt`, from the candidate `x`,
/// in at most `fuel` rounds. A round that gives a candidate equal to the one
/// it started from ends the search with it. When the rounds are used up the
/// state with top for every variable is taken, which is an invariant of any
/// loop, and the body is run once more on it for the invariants of the loops
/// inside.
pub open spec fn ascend<D: AbstractDomain>(
    stmt: Statement,
    input: Entries<D>,
    x: Entries<D>,
    records: Records<D>,
    setup: Setup<D>,
    fuel: nat,
) -> (Entries<D>, Records<D>)
    decreases stmt, fuel,
{
    match stmt {
        Statement::While { pos, guard, body } => {
            if fuel > setup.limit {
                (x, records)
            } else if fuel == 0 {
                let top = filled(x, D::spec_top());
                let (after_body, records1) = run(
                    *body,
                    guarded(*guard, top, setup.bounds, setup.limit),
                    records,
                    setup,
                );
                (top, records1)
            } else {
                let (after_body, records1) = run(
                    *body,
                    guarded(*guard, x, setup.bounds, setup.limit),
                    records,
                    setup,
                );
                let next = step(input, x, after_body, setup);
                if equal(x, next, setup.bounds) {
                    (next, records1)
                } else {
                    ascend(stmt, input, next, records1, setup, (fuel - 1) as nat)
                }
            }
        },
        _ => (x, records),
    }
}

/// The refinement of the invariant `x` of the loop `stmt` by at most `steps`
/// narrowing steps: each narrows `x` by the join of `input` with the state
/// after the body run on `x` refined by the guard, and a step that gives a
/// state equal to `x` is the last.
pub open spec fn descend<D: AbstractDomain>(
    stmt: Statement,
    input: Entries<D>,
    x: Entries<D>,
    records: Records<D>,
    setup: Setup<D>,
    steps: nat,
) -> (Entries<D>, Records<D>)
    decreases stmt, steps,
{
    match stmt {
        Statement::While { pos, guard, body } => {
            if steps == 0 || steps > setup.narrowing_steps {
                (x, records)
            } else {
                let (after_body, records1) = run(
                    *body,
                    guarded(*guard, x, setup.bounds, setup.limit),
                    records,
                    setup,
                );
                let current = narrowed(x, joined(input, after_body, setup.bounds), setup.bounds);
                if equal(current, x, setup.bounds) {
                    (current, records1)
                } else {
                    descend(stmt, input, current, records1, setup, (steps - 1) as nat)
                }
            }
        },
        _ => (x, records),
    }
}

/// The searches noted after a statement, for diagnosis: `log`, and after it
/// every search for the invariant of a loop that the run of `stmt` on `env`
/// makes, in the order in which the searches end. A loop whose body is run
/// several times has the searches of the loops inside noted once for each
/// run, and its own search after those that its rounds made and before
/// those of its refinement.
pub open spec fn trail<D: AbstractDomain>(
    stmt: Statement,
    env: Entries<D>,
    records: Records<D>,
    log: Searches<D>,
    setup: Setup<D>,
) -> Searches<D>
    decreases stmt, setup.limit + setup.narrowing_steps + 1,
{
    if env.len() == 0 {
        log
    } else {
        match stmt {
            Statement::Skip => log,
            Statement::Assignment(a) => log,
            Statement::Composition { lhs, rhs } => {
                let (mid, records1) = run(*lhs, env, records, setup);
                trail(*rhs, mid, records1, trail(*lhs, env, records, log, setup), setup)
            },
            Statement::Conditional { guard, true_branch, false_branch } => {
                let on_true = guarded(*guard, env, setup.bounds, setup.limit);
                let (t, records1) = run(*true_branch, on_true, records, setup);
                trail(
                    *false_branch,
                    guarded(guard.negated(), env, setup.bounds, setup.limit),
                    records1,
                    trail(*true_branch, on_true, records, log, setup),
                    setup,
                )
            },
            Statement::While { pos, guard, body } => {
                let (x1, records1) = ascend(stmt, env, env, records, setup, setup.limit);
                let (log1, candidates) = ascend_trail(
                    stmt,
                    env,
                    env,
                    records,
                    log,
                    seq![env],
                    setup,
                    setup.limit,
                );
                descend_trail(
                    stmt,
                    env,
                    x1,
                    records1,
                    log1.push((pos, candidates)),
                    setup,
                    setup.narrowing_steps,
                )
            },
        }
    }
}

/// The searches noted and the candidates seen when the search `ascend` ends:
/// `seen`, which ends in `x`, and after it the candidate of every round; the
/// last of them is the invariant that the search gives.
pub open spec fn ascend_trail<D: AbstractDomain>(
    stmt: Statement,
    input: Entries<D>,
    x: Entries<D>,
    records: Records<D>,
    log: Searches<D>,
    seen: Seq<Entries<D>>,
    setup: Setup<D>,
    fuel: nat,
) -> (Searches<D>, Seq<Entries<D>>)
    decreases stmt, fuel,
{
    match stmt {
        Statement::While { pos, guard, body } => {
            if fuel > setup.limit {
                (log, seen)
            } else if fuel == 0 {
                let top = filled(x, D::spec_top());
                (
                    trail(
                        *body,
                        guarded(*guard, top, setup.bounds, setup.limit),
                        records,
                        log,
                        setup,
                    ),
                    seen.push(top),
                )
            } else {
                let entered = guarded(*guard, x, setup.bounds, setup.limit);
                let (after_body, records1) = run(*body, entered, records, setup);
                let log1 = trail(*body, entered, records, log, setup);
                let next = step(input, x, after_body, setup);
                if equal(x, next, setup.bounds) {
                    (log1, seen.push(next))
                } else {
                    ascend_trail(
                        stmt,
                        input,
                        next,
                        records1,
                        log1,
                        seen.push(next),
                        setup,
                        (fuel - 1) as nat,
                    )
                }
            }
        },
        _ => (log, seen),
    }
}

/// The searches noted when the refinement `descend` ends: those that the
/// runs of the body in its steps make.
pub open spec fn descend_trail<D: AbstractDomain>(
    stmt: Statement,
    input: Entries<D>,
    x: Entries<D>,
    records: Records<D>,
    log: Searches<D>,
    setup: Setup<D>,
    steps: nat,
) -> Searches<D>
    decreases stmt, steps,
{
    match stmt {
        Statement::While { pos, guard, body } => {
            if steps == 0 || steps > setup.narrowing_steps {
                log
            } else {
                let entered = guarded(*guard, x, setup.bounds, setup.limit);
                let (after_body, records1) = run(*body, entered, records, setup);
                let log1 = trail(*body, entered, records, log, setup);
                let current = narrowed(x, joined(input, after_body, setup.bounds), setup.bounds);
                if equal(current, x, setup.bounds) {
                    log1
                } else {
                    descend_trail(stmt, input, current, records1, log1, setup, (steps - 1) as nat)
                }
            }
        },
        _ => log,
    }
}

/// The candidates of a search: those seen before it stay, in their order,
/// at least one follows them, and the last is the invariant that the search
/// gives.
pub proof fn lemma_search_candidates<D: AbstractDomain>(
    stmt: Statement,
    input: Entries<D>,
    x: Entries<D>,
    records: Records<D>,
    log: Searches<D>,
    seen: Seq<Entries<D>>,
    setup: Setup<D>,
    fuel: nat,
)
    requires
        stmt is While,
        fuel <= setup.limit,
    ensures
        ({
            let candidates = ascend_trail(stmt, input, x, records, log, seen, setup, fuel).1;
            &&& seen.len() < candidates.len()
            &&& seen.is_prefix_of(candidates)
            &&& candidates.last() == ascend(stmt, input, x, records, setup, fuel).0
        }),
    decreases fuel,
{
    if fuel > 0 {
        let entered = guarded(*stmt->While_guard, x, setup.bounds, setup.limit);
        let (after_body, records1) = run(*stmt->While_body, entered, records, setup);
        let log1 = trail(*stmt->While_body, entered, records, log, setup);
        let next = step(input, x, after_body, setup);
        if !equal(x, next, setup.bounds) {
            lemma_search_candidates(
                stmt,
                input,
                next,
                records1,
                log1,
                seen.push(next),
                setup,
                (fuel - 1) as nat,
            );
        }
    }
}

/// A statement takes no search out of the log: what was noted before it
/// stays, in its order, before what the statement adds.
pub proof fn lemma_trail_extends<D: AbstractDomain>(
    stmt: Statement,
    env: Entries<D>,
    records: Records<D>,
    log: Searches<D>,
    setup: Setup<D>,
)
    ensures
        log.is_prefix_of(trail(stmt, env, records, log, setup)),
    decreases stmt, setup.limit + setup.narrowing_steps + 2,
{
    if env.len() > 0 {
        match stmt {
            Statement::Skip => {},
            Statement::Assignment(a) => {},
            Statement::Composition { lhs, rhs } => {
                let (mid, records1) = run(*lhs, env, records, setup);
                let log1 = trail(*lhs, env, records, log, setup);
                lemma_trail_extends(*lhs, env, records, log, setup);
                lemma_trail_extends(*rhs, mid, records1, log1, setup);
            },
            Statement::Conditional { guard, true_branch, false_branch } => {
                let on_true = guarded(*guard, env, setup.bounds, setup.limit);
                let on_false = guarded(guard.negated(), env, setup.bounds, setup.limit);
                let (t, records1) = run(*true_branch, on_true, records, setup);
                let log1 = trail(*true_branch, on_true, records, log, setup);
                lemma_trail_extends(*true_branch, on_true, records, log, setup);
                lemma_trail_extends(*false_branch, on_false, records1, log1, setup);
            },
            Statement::While { pos, guard, body } => {
                lemma_loop_is_noted(stmt, env, records, log, setup);
            },
        }
    }
}

/// The search of a loop keeps what was noted before it.
pub proof fn lemma_ascend_trail_extends<D: AbstractDomain>(
    stmt: Statement,
    input: Entries<D>,
    x: Entries<D>,
    records: Records<D>,
    log: Searches<D>,
    seen: Seq<Entries<D>>,
    setup: Setup<D>,
    fuel: nat,
)
    ensures
        log.is_prefix_of(ascend_trail(stmt, input, x, records, log, seen, setup, fuel).0),
    decreases stmt, fuel,
{
    match stmt {
        Statement::While { pos, guard, body } => {
            if fuel > setup.limit {
            } else if fuel == 0 {
                let top = filled(x, D::spec_top());
                lemma_trail_extends(
                    *body,
                    guarded(*guard, top, setup.bounds, setup.limit),
                    records,
                    log,
                    setup,
                );
            } else {
                let entered = guarded(*guard, x, setup.bounds, setup.limit);
                let (after_body, records1) = run(*body, entered, records, setup);
                let log1 = trail(*body, entered, records, log, setup);
                let next = step(input, x, after_body, setup);
                lemma_trail_extends(*body, entered, records, log, setup);
                if !equal(x, next, setup.bounds) {
                    lemma_ascend_trail_extends(
                        stmt,
                        input,
                        next,
                        records1,
                        log1,
                        seen.push(next),
                        setup,
                        (fuel - 1) as nat,
                    );
                }
            }
        },
        _ => {},
    }
}

/// The refinement of a loop keeps what was noted before it.
pub proof fn lemma_descend_trail_extends<D: AbstractDomain>(
    stmt: Statement,
    input: Entries<D>,
    x: Entries<D>,
    records: Records<D>,
    log: Searches<D>,
    setup: Setup<D>,
    steps: nat,
)
    ensures
        log.is_prefix_of(descend_trail(stmt, input, x, records, log, setup, steps)),
    decreases stmt, steps,
{
    match stmt {
        Statement::While { pos, guard, body } => {
            if steps == 0 || steps > setup.narrowing_steps {
            } else {
                let entered = guarded(*guard, x, setup.bounds, setup.limit);
                let (after_body, records1) = run(*body, entered, records, setup);
                let log1 = trail(*body, entered, records, log, setup);
                let current = narrowed(x, joined(input, after_body, setup.bounds), setup.bounds);
                lemma_trail_extends(*body, entered, records, log, setup);
                if !equal(current, x, setup.bounds) {
                    lemma_descend_trail_extends(
                        stmt,
                        input,
                        current,
                        records1,
                        log1,
                        setup,
                        (steps - 1) as nat,
                    );
                }
            }
        },
        _ => {},
    }
}

/// A loop that is entered has its search noted, after what was noted
/// before the loop: under the position of the loop stand the candidates,
/// the first of them the state that the loop was entered with, the last the
/// invariant that the search gave.
pub proof fn lemma_loop_is_noted<D: AbstractDomain>(
    stmt: Statement,
    env: Entries<D>,
    records: Records<D>,
    log: Searches<D>,
    setup: Setup<D>,
)
    requires
        stmt is While,
        env.len() > 0,
    ensures
        ({
            let after = trail(stmt, env, records, log, setup);
            &&& log.is_prefix_of(after)
            &&& exists|i: int|
                log.len() <= i < after.len() && (#[trigger] after[i]).0 == stmt->While_pos
                    && after[i].1.len() >= 2 && after[i].1.first() == env && after[i].1.last()
                    == ascend(stmt, env, env, records, setup, setup.limit).0
        }),
    decreases stmt, setup.limit + setup.narrowing_steps + 1,
{
    let (x1, records1) = ascend(stmt, env, env, records, setup, setup.limit);
    let (log1, candidates) = ascend_trail(
        stmt,
        env,
        env,
        records,
        log,
        seq![env],
        setup,
        setup.limit,
    );
    let noted = log1.push((stmt->While_pos, candidates));
    let after = trail(stmt, env, records, log, setup);
    lemma_search_candidates(stmt, env, env, records, log, seq![env], setup, setup.limit);
    lemma_ascend_trail_extends(stmt, env, env, records, log, seq![env], setup, setup.limit);
    lemma_descend_trail_extends(stmt, env, x1, records1, noted, setup, setup.narrowing_steps);
    assert(seq![env][0] == candidates[0]);
    assert(noted[log1.len() as int] == after[log1.len() as int]);
}

/// A state with the names of another one declares what the other declares.
pub proof fn lemma_covers_by_shape<D>(x: Entries<D>, env: Entries<D>, vars: Set<Seq<char>>)
    requires
        x.len() > 0,
        same_shape(x, env),
        covers(env, vars),
    ensures
        covers(x, vars),
{
    lemma_same_keys(x, env);
}

/// The value that a text writes, or top where it writes none.
pub open spec fn parsed_or_top<D: AbstractDomain>(text: Seq<char>) -> D {
    match D::spec_parse(text) {
        Some(x) => x,
        None => D::spec_top(),
    }
}

/// The value that a variable has when the program is entered: the value
/// that the last assumption on the variable writes, if there is one and it
/// writes a value, else top.
pub open spec fn assumed<D: AbstractDomain>(given: Seq<(Seq<char>, Seq<char>)>, var: Seq<char>) -> D
    decreases given.len(),
{
    if given.len() == 0 {
        D::spec_top()
    } else if given.last().0 == var {
        parsed_or_top::<D>(given.last().1)
    } else {
        assumed::<D>(given.drop_last(), var)
    }
}

/// The pairs of the initial state: every variable of the program with top,
/// then every assumption with its value.
pub open spec fn initial_pairs<D: AbstractDomain>(
    vars: Seq<Seq<char>>,
    given: Seq<(Seq<char>, Seq<char>)>,
) -> Entries<D> {
    Seq::new(vars.len(), |i: int| (vars[i], D::spec_top())) + Seq::new(
        given.len(),
        |i: int| (given[i].0, parsed_or_top::<D>(given[i].1)),
    )
}

/// The last value of a name among the initial pairs is its assumed value.
pub proof fn lemma_initial_pairs<D: AbstractDomain>(
    vars: Seq<Seq<char>>,
    given: Seq<(Seq<char>, Seq<char>)>,
    var: Seq<char>,
)
    requires
        has_key(initial_pairs::<D>(vars, given), var),
    ensures
        last_value(initial_pairs::<D>(vars, given), var) == assumed::<D>(given, var),
        vars.contains(var) || has_key(given, var),
    decreases given.len() + vars.len(),
{
    let p = initial_pairs::<D>(vars, given);
    let i = choose|i: int| 0 <= i < p.len() && (#[trigger] p[i]).0 == var;
    if given.len() > 0 {
        let rest = given.drop_last();
        let q = initial_pairs::<D>(vars, rest);
        assert(p.drop_last() =~= q);
        assert(p.last() == (given.last().0, parsed_or_top::<D>(given.last().1)));
        assert(given[given.len() - 1] == given.last());
        if given.last().0 != var {
            assert(i < p.len() - 1);
            assert(q[i] == p[i]);
            lemma_initial_pairs::<D>(vars, rest, var);
            if has_key(rest, var) {
                let j = choose|j: int| 0 <= j < rest.len() && (#[trigger] rest[j]).0 == var;
                assert(given[j] == rest[j]);
            }
        }
    } else if vars.len() > 0 {
        let rest = vars.drop_last();
        let q = initial_pairs::<D>(rest, given);
        assert(p.drop_last() =~= q);
        assert(p.last() == (vars.last(), D::spec_top()));
        assert(vars[vars.len() - 1] == vars.last());
        if vars.last() != var {
            assert(i < p.len() - 1);
            assert(q[i] == p[i]);
            lemma_initial_pairs::<D>(rest, given, var);
            let j = choose|j: int| 0 <= j < rest.len() && rest[j] == var;
            assert(vars[j] == var);
        }
    }
}

/// An analysis of one program.
pub struct Interpreter<'a, D: AbstractDomain> {
    program: &'a Statement,
    initial_state: State<D>,
    settings: Settings<D>,
    invariants: ProgramInvariants<D>,
}

impl<'a, D: AbstractDomain> Interpreter<'a, D> {
    /// The program under analysis.
    pub closed spec fn program(&self) -> Statement {
        *self.program
    }

    /// The state that the program is entered with.
    pub closed spec fn initial_state(&self) -> Entries<D> {
        self.initial_state@
    }

    /// What the analysis is run with.
    pub closed spec fn setup(&self) -> Setup<D> {
        self.settings@
    }

    /// The invariants recorded so far.
    pub closed spec fn recorded(&self) -> Records<D> {
        self.invariants@
    }

    /// The searches for loop invariants noted so far.
    pub closed spec fn searched(&self) -> Searches<D> {
        self.invariants.searches()
    }

    /// Whether the analysis can be run: the initial state is bottom or
    /// declares every variable that the program reads.
    pub open spec fn runnable(&self) -> bool {
        self.initial_state().len() == 0 || covers(self.initial_state(), self.program().reads())
    }

    /// An analysis of `program` from `initial_state`, with nothing recorded.
    pub fn with_state(program: &'a Statement, initial_state: State<D>, settings: Settings<D>) -> (r:
        Self)
        ensures
            r.program() == *program,
            r.initial_state() == initial_state@,
            r.setup() == settings@,
            r.recorded().len() == 0,
            r.searched().len() == 0,
    {
        Interpreter { program, initial_state, settings, invariants: ProgramInvariants::new() }
    }

    /// An analysis of `program`. The initial state holds the variables of
    /// the program and those of the assumptions `given_vars`, each with its
    /// assumed value, so that the analysis can be run. The thresholds of the
    /// widening are the integer literals of the program.
    pub fn build(
        program: &'a Statement,
        given_vars: Vec<(String, String)>,
        bounds: D::Bounds,
        narrowing_steps: usize,
        iteration_limit: usize,
    ) -> (r: Self)
        ensures
            r.program() == *program,
            r.setup() == (Setup::<D> {
                bounds,
                thresholds: program.constants(),
                narrowing_steps: narrowing_steps as nat,
                limit: iteration_limit as nat,
            }),
            r.recorded().len() == 0,
            r.searched().len() == 0,
            r.runnable(),
            r.initial_state() == from_pairs(
                initial_pairs::<D>(
                    program.listed_variables(Seq::empty()),
                    pairs_text(given_vars@),
                ),
            ),
            forall|v: Seq<char>|
                has_key(r.initial_state(), v) <==> (program.variables().contains(v) || has_key(
                    pairs_text(given_vars@),
                    v,
                )),
            forall|v: Seq<char>|
                has_key(r.initial_state(), v) ==> value_of(r.initial_state(), v) == assumed::<D>(
                    pairs_text(given_vars@),
                    v,
                ),
    {
        let mut consts: Vec<i64> = Vec::new();
        program.extract_constant(&mut consts);
        assert(consts@.to_set() =~= program.constants()) by {
            assert(Seq::<i64>::empty().to_set() =~= Set::<i64>::empty());
        }
        let mut vars: Vec<String> = Vec::new();
        program.extract_vars(&mut vars);
        assert(views(Seq::<String>::empty()) =~= Seq::<Seq<char>>::empty());
        assert(views(vars@) == program.listed_variables(Seq::empty()));
        assert(views(vars@).to_set() =~= program.variables()) by {
            assert(Seq::<Seq<char>>::empty().to_set() =~= Set::<Seq<char>>::empty());
        }
        let ghost given = pairs_text(given_vars@);
        let ghost goal = initial_pairs::<D>(views(vars@), given);
        let mut pairs: Vec<(String, D)> = Vec::new();
        let mut i: usize = 0;
        assert(pairs_view(pairs@) =~= goal.take(0));
        while i < vars.len()
            invariant
                i <= vars.len(),
                goal == initial_pairs::<D>(views(vars@), given),
                pairs_view(pairs@) == goal.take(i as int),
            decreases vars.len() - i,
        {
            let ghost before = pairs_view(pairs@);
            pairs.push((vars[i].clone(), D::top()));
            assert(goal[i as int] == (views(vars@)[i as int], D::spec_top()));
            assert(pairs_view(pairs@) =~= before.push(goal[i as int]));
            assert(goal.take(i + 1) == goal.take(i as int).push(goal[i as int]));
            i += 1;
        }
        let n = vars.len();
        let mut j: usize = 0;
        while j < given_vars.len()
            invariant
                j <= given_vars.len(),
                n == vars.len(),
                given == pairs_text(given_vars@),
                goal == initial_pairs::<D>(views(vars@), given),
                pairs_view(pairs@) == goal.take(n + j),
            decreases given_vars.len() - j,
        {
            let ghost before = pairs_view(pairs@);
            let value = match D::parse(given_vars[j].1.as_str()) {
                Some(x) => x,
                None => D::top(),
            };
            pairs.push((given_vars[j].0.clone(), value));
            assert(goal[n + j] == (given[j as int].0, parsed_or_top::<D>(given[j as int].1)));
            assert(pairs_view(pairs@) =~= before.push(goal[n + j]));
            assert(goal.take(n + j + 1) == goal.take(n + j).push(goal[n + j]));
            j += 1;
        }
        assert(goal.take(n + j) == goal);
        let initial_state = State::new(pairs);
        let ghost init = initial_state@;
        proof {
            lemma_from_pairs(goal);
            assert(init == from_pairs(goal));
            assert(views(vars@).to_set() == program.variables());
        }
        let settings = Settings {
            bounds,
            widening_thresholds: consts,
            narrowing_steps,
            iteration_limit,
        };
        let r = Interpreter {
            program,
            initial_state,
            settings,
            invariants: ProgramInvariants::new(),
        };
        assert(r.initial_state() == init);
        assert(given == pairs_text(given_vars@));
        assert forall|v: Seq<char>|
            has_key(r.initial_state(), v) <==> (program.variables().contains(v) || has_key(
                pairs_text(given_vars@),
                v,
            )) by {
            if has_key(init, v) {
                assert(has_key(goal, v));
                lemma_initial_pairs::<D>(views(vars@), given, v);
                if views(vars@).contains(v) {
                    assert(views(vars@).to_set().contains(v));
                }
            }
            if has_key(given, v) {
                let k = choose|k: int| 0 <= k < given.len() && (#[trigger] given[k]).0 == v;
                assert(goal[n + k].0 == v);
                assert(has_key(goal, v));
            }
            if program.variables().contains(v) {
                assert(views(vars@).to_set().contains(v));
                assert(views(vars@).contains(v));
                let k = choose|k: int| 0 <= k < views(vars@).len() && views(vars@)[k] == v;
                assert(goal[k].0 == v);
                assert(has_key(goal, v));
            }
        }
        assert forall|v: Seq<char>| has_key(r.initial_state(), v) implies value_of(
            r.initial_state(),
            v,
        ) == assumed::<D>(pairs_text(given_vars@), v) by {
            assert(has_key(goal, v));
            lemma_initial_pairs::<D>(views(vars@), given, v);
            assert(value_of(init, v) == last_value(goal, v));
        }
        assert(r.runnable()) by {
            lemma_reads_are_variables(*program);
            assert forall|v: Seq<char>| program.reads().contains(v) implies has_key(
                r.initial_state(),
                v,
            ) by {
                assert(program.variables().contains(v));
            }
        }
        r
    }

    /// Whether `state` declares every variable of `exp`.
    fn declares_all(exp: &ArithmeticExp, state: &State<D>) -> (r: bool)
        ensures
            r == covers(state@, exp.variables()),
        decreases *exp,
    {
        match exp {
            ArithmeticExp::Integer(_) => true,
            ArithmeticExp::Variable(var) => {
                let r = state.declares(var.as_str());
                assert(exp.variables().contains(var@));
                r
            },
            ArithmeticExp::BinaryOperation { lhs, operator: _, rhs } => {
                let l = Self::declares_all(lhs, state);
                let r = Self::declares_all(rhs, state);
                proof {
                    if l && r {
                        assert forall|v: Seq<char>| exp.variables().contains(v) implies has_key(
                            state@,
                            v,
                        ) by {
                            assert(lhs.variables().contains(v) || rhs.variables().contains(v));
                        }
                    } else if !l {
                        let v = choose|v: Seq<char>|
                            lhs.variables().contains(v) && !has_key(state@, v);
                        assert(exp.variables().contains(v));
                    } else {
                        let v = choose|v: Seq<char>|
                            rhs.variables().contains(v) && !has_key(state@, v);
                        assert(exp.variables().contains(v));
                    }
                }
                l && r
            },
        }
    }

    /// Whether `state` declares every variable of `exp`.
    fn declares_guard(exp: &BooleanExp, state: &State<D>) -> (r: bool)
        ensures
            r == covers(state@, exp.variables()),
        decreases *exp,
    {
        match exp {
            BooleanExp::Boolean(_) => true,
            BooleanExp::ArithmeticCondition(c) => Self::declares_all(&*c.lhs, state),
            BooleanExp::And { lhs, rhs } | BooleanExp::Or { lhs, rhs } => {
                let l = Self::declares_guard(lhs, state);
                let r = Self::declares_guard(rhs, state);
                proof {
                    if l && r {
                        assert forall|v: Seq<char>| exp.variables().contains(v) implies has_key(
                            state@,
                            v,
                        ) by {
                            assert(lhs.variables().contains(v) || rhs.variables().contains(v));
                        }
                    } else if !l {
                        let v = choose|v: Seq<char>|
                            lhs.variables().contains(v) && !has_key(state@, v);
                        assert(exp.variables().contains(v));
                    } else {
                        let v = choose|v: Seq<char>|
                            rhs.variables().contains(v) && !has_key(state@, v);
                        assert(exp.variables().contains(v));
                    }
                }
                l && r
            },
        }
    }

    /// Whether `state` declares every variable that `stmt` reads.
    fn declares_reads(stmt: &Statement, state: &State<D>) -> (r: bool)
        ensures
            r == covers(state@, stmt.reads()),
        decreases *stmt,
    {
        match stmt {
            Statement::Skip => true,
            Statement::Assignment(a) => Self::declares_all(&*a.value, state),
            Statement::Composition { lhs, rhs } => {
                let l = Self::declares_reads(lhs, state);
                let r = Self::declares_reads(rhs, state);
                proof {
                    if l && r {
                        assert forall|v: Seq<char>| stmt.reads().contains(v) implies has_key(
                            state@,
                            v,
                        ) by {
                            assert(lhs.reads().contains(v) || rhs.reads().contains(v));
                        }
                    } else if !l {
                        let v = choose|v: Seq<char>| lhs.reads().contains(v) && !has_key(state@, v);
                        assert(stmt.reads().contains(v));
                    } else {
                        let v = choose|v: Seq<char>| rhs.reads().contains(v) && !has_key(state@, v);
                        assert(stmt.reads().contains(v));
                    }
                }
                l && r
            },
            Statement::Conditional { guard, true_branch, false_branch } => {
                let g = Self::declares_guard(guard, state);
                let t = Self::declares_reads(true_branch, state);
                let f = Self::declares_reads(false_branch, state);
                proof {
                    if g && t && f {
                        assert forall|v: Seq<char>| stmt.reads().contains(v) implies has_key(
                            state@,
                            v,
                        ) by {
                            assert(guard.variables().contains(v) || true_branch.reads().contains(v)
                                || false_branch.reads().contains(v));
                        }
                    } else if !g {
                        let v = choose|v: Seq<char>|
                            guard.variables().contains(v) && !has_key(state@, v);
                        assert(stmt.reads().contains(v));
                    } else if !t {
                        let v = choose|v: Seq<char>|
                            true_branch.reads().contains(v) && !has_key(state@, v);
                        assert(stmt.reads().contains(v));
                    } else {
                        let v = choose|v: Seq<char>|
                            false_branch.reads().contains(v) && !has_key(state@, v);
                        assert(stmt.reads().contains(v));
                    }
                }
                g && t && f
            },
            Statement::While { pos: _, guard, body } => {
                let g = Self::declares_guard(guard, state);
                let b = Self::declares_reads(body, state);
                proof {
                    if g && b {
                        assert forall|v: Seq<char>| stmt.reads().contains(v) implies has_key(
                            state@,
                            v,
                        ) by {
                            assert(guard.variables().contains(v) || body.reads().contains(v));
                        }
                    } else if !g {
                        let v = choose|v: Seq<char>|
                            guard.variables().contains(v) && !has_key(state@, v);
                        assert(stmt.reads().contains(v));
                    } else {
                        let v = choose|v: Seq<char>| body.reads().contains(v) && !has_key(state@, v);
                        assert(stmt.reads().contains(v));
                    }
                }
                g && b
            },
        }
    }

    /// Whether the analysis can be run.
    pub fn is_runnable(&self) -> (r: bool)
        ensures
            r == self.runnable(),
    {
        self.initial_state.is_bottom() || Self::declares_reads(self.program, &self.initial_state)
    }

    /// The abstract value of `exp` in `state`.
    pub fn aexp_eval(exp: &ArithmeticExp, state: &State<D>, bounds: &D::Bounds) -> (r: D)
        requires
            covers(state@, exp.variables()),
        ensures
            r == aexp_value(*exp, state@, *bounds),
        decreases *exp,
    {
        match exp {
            ArithmeticExp::Variable(var) => {
                assert(exp.variables().contains(var@));
                *state.lookup(var.as_str())
            },
            ArithmeticExp::Integer(x) => D::constant_abstraction(*x, bounds),
            ArithmeticExp::BinaryOperation { lhs, operator, rhs } => {
                assert forall|v: Seq<char>| lhs.variables().contains(v) implies has_key(
                    state@,
                    v,
                ) by {
                    assert(exp.variables().contains(v));
                }
                assert forall|v: Seq<char>| rhs.variables().contains(v) implies has_key(
                    state@,
                    v,
                ) by {
                    assert(exp.variables().contains(v));
                }
                let lhs_value = Self::aexp_eval(lhs, state, bounds);
                let rhs_value = Self::aexp_eval(rhs, state, bounds);
                apply(*operator, lhs_value, rhs_value, bounds)
            },
        }
    }

    /// One round of the refinement by a conjunction or a disjunction: the
    /// meet, or the join, of the refinements of `x` by the two operands.
    fn compound_round(exp: &BooleanExp, x: &State<D>, bounds: &D::Bounds, limit: usize) -> (r:
        State<D>)
        requires
            *exp is And || *exp is Or,
            covers(x@, exp.variables()),
        ensures
            r@ == compound(*exp, x@, *bounds, limit as nat),
            same_shape(r@, x@),
        decreases *exp, 0nat,
    {
        match exp {
            BooleanExp::And { lhs, rhs } | BooleanExp::Or { lhs, rhs } => {
                assert(covers(x@, lhs.variables()) && covers(x@, rhs.variables())) by {
                    assert forall|v: Seq<char>| lhs.variables().contains(v) implies has_key(
                        x@,
                        v,
                    ) by {
                        assert(exp.variables().contains(v));
                    }
                    assert forall|v: Seq<char>| rhs.variables().contains(v) implies has_key(
                        x@,
                        v,
                    ) by {
                        assert(exp.variables().contains(v));
                    }
                }
                let l = Self::bexp_eval(lhs, x, bounds, limit);
                let r = Self::bexp_eval(rhs, x, bounds, limit);
                proof {
                    lemma_pointwise_shape(l@, r@, x@, Set::empty(), *bounds);
                }
                if matches!(exp, BooleanExp::And { .. }) {
                    l.glb_var_wise(&r, bounds)
                } else {
                    l.lub_var_wise(&r, bounds)
                }
            },
            _ => State::bottom(),
        }
    }

    /// The refinement of `state` by `exp`, with at most `limit` rounds in
    /// each iteration.
    pub fn bexp_eval(exp: &BooleanExp, state: &State<D>, bounds: &D::Bounds, limit: usize) -> (r:
        State<D>)
        requires
            covers(state@, exp.variables()),
        ensures
            r@ == guarded(*exp, state@, *bounds, limit as nat),
            same_shape(r@, state@),
        decreases *exp, 1nat,
    {
        match exp {
            BooleanExp::Boolean(b) => {
                if *b {
                    state.clone()
                } else {
                    State::bottom()
                }
            },
            BooleanExp::ArithmeticCondition(cond) => {
                let algo = PropagationAlgorithm::build(cond, state, bounds);
                algo.local_iterations(limit)
            },
            _ => {
                let mut fixpoint = false;
                let mut x = state.clone();
                let mut steps: usize = 0;
                while !fixpoint && steps < limit
                    invariant
                        steps <= limit,
                        *exp is And || *exp is Or,
                        same_shape(x@, state@),
                        covers(state@, exp.variables()),
                        fixpoint || covers(x@, exp.variables()),
                        guarded_rounds(*exp, state@, *bounds, limit as nat, limit as nat)
                            == if fixpoint {
                            x@
                        } else {
                            guarded_rounds(
                                *exp,
                                x@,
                                *bounds,
                                limit as nat,
                                (limit - steps) as nat,
                            )
                        },
                    decreases limit - steps,
                {
                    let current = Self::compound_round(exp, &x, bounds, limit);
                    fixpoint = current.eq(&x, bounds) || current.is_bottom();
                    proof {
                        if current@.len() > 0 {
                            lemma_same_keys(current@, x@);
                            lemma_same_keys(x@, state@);
                            lemma_same_keys(current@, state@);
                        }
                    }
                    x = current;
                    steps += 1;
                }
                x
            },
        }
    }

    /// The state after `stmt` run on `state`. The invariants of the loops of
    /// `stmt` are recorded in `invariants`.
    pub fn statement_eval(
        settings: &Settings<D>,
        stmt: &Statement,
        state: &State<D>,
        invariants: &mut ProgramInvariants<D>,
    ) -> (r: State<D>)
        requires
            state@.len() == 0 || covers(state@, stmt.reads()),
        ensures
            (r@, final(invariants)@) == run(*stmt, state@, old(invariants)@, settings@),
            final(invariants).searches() == trail(
                *stmt,
                state@,
                old(invariants)@,
                old(invariants).searches(),
                settings@,
            ),
            same_shape(r@, state@),
        decreases *stmt, 2nat,
    {
        if state.is_bottom() {
            return State::bottom();
        }
        let bounds = &settings.bounds;
        let limit = settings.iteration_limit;
        match stmt {
            Statement::Skip => state.clone(),
            Statement::Assignment(a) => {
                let mut updated_state = state.clone();
                let value = Self::aexp_eval(&*a.value, state, bounds);
                updated_state.update(a.var.as_str(), value, bounds);
                proof {
                    lemma_updated_shape(state@, a.var@, value, *bounds);
                }
                updated_state
            },
            Statement::Composition { lhs, rhs } => {
                assert(covers(state@, lhs.reads()) && covers(state@, rhs.reads())) by {
                    assert forall|v: Seq<char>| lhs.reads().contains(v) implies has_key(
                        state@,
                        v,
                    ) by {
                        assert(stmt.reads().contains(v));
                    }
                    assert forall|v: Seq<char>| rhs.reads().contains(v) implies has_key(
                        state@,
                        v,
                    ) by {
                        assert(stmt.reads().contains(v));
                    }
                }
                let mid = Self::statement_eval(settings, lhs, state, invariants);
                proof {
                    if mid@.len() > 0 {
                        lemma_covers_by_shape(mid@, state@, rhs.reads());
                        lemma_same_keys(mid@, state@);
                    }
                }
                let r = Self::statement_eval(settings, rhs, &mid, invariants);
                proof {
                    if r@.len() > 0 {
                        lemma_same_keys(r@, mid@);
                    }
                }
                r
            },
            Statement::Conditional { guard, true_branch, false_branch } => {
                assert(covers(state@, guard.variables()) && covers(state@, true_branch.reads())
                    && covers(state@, false_branch.reads())) by {
                    assert forall|v: Seq<char>| guard.variables().contains(v) implies has_key(
                        state@,
                        v,
                    ) by {
                        assert(stmt.reads().contains(v));
                    }
                    assert forall|v: Seq<char>| true_branch.reads().contains(v) implies has_key(
                        state@,
                        v,
                    ) by {
                        assert(stmt.reads().contains(v));
                    }
                    assert forall|v: Seq<char>| false_branch.reads().contains(v) implies has_key(
                        state@,
                        v,
                    ) by {
                        assert(stmt.reads().contains(v));
                    }
                }
                let negated = guard.negation();
                proof {
                    lemma_negated_variables(**guard);
                }
                let on_true = Self::bexp_eval(guard, state, bounds, limit);
                proof {
                    if on_true@.len() > 0 {
                        lemma_covers_by_shape(on_true@, state@, true_branch.reads());
                    }
                }
                let t = Self::statement_eval(settings, true_branch, &on_true, invariants);
                let on_false = Self::bexp_eval(&negated, state, bounds, limit);
                proof {
                    if on_false@.len() > 0 {
                        lemma_covers_by_shape(on_false@, state@, false_branch.reads());
                    }
                }
                let f = Self::statement_eval(settings, false_branch, &on_false, invariants);
                proof {
                    if t@.len() > 0 {
                        lemma_same_keys(t@, on_true@);
                    }
                    if f@.len() > 0 {
                        lemma_same_keys(f@, on_false@);
                    }
                    lemma_pointwise_shape(t@, f@, state@, Set::empty(), *bounds);
                }
                t.lub_var_wise(&f, bounds)
            },
            Statement::While { pos, guard, body } => {
                assert(covers(state@, guard.variables()) && covers(state@, body.reads())) by {
                    assert forall|v: Seq<char>| guard.variables().contains(v) implies has_key(
                        state@,
                        v,
                    ) by {
                        assert(stmt.reads().contains(v));
                    }
                    assert forall|v: Seq<char>| body.reads().contains(v) implies has_key(
                        state@,
                        v,
                    ) by {
                        assert(stmt.reads().contains(v));
                    }
                }
                let (x, candidates) = Self::seek_invariant(settings, stmt, state, invariants);
                invariants.note_search(*pos, candidates);
                let x = Self::refine_invariant(settings, stmt, state, x, invariants);
                let negated = guard.negation();
                proof {
                    lemma_negated_variables(**guard);
                    lemma_covers_by_shape(x@, state@, guard.variables());
                    lemma_same_keys(x@, state@);
                }
                invariants.insert(*pos, x.clone());
                let r = Self::bexp_eval(&negated, &x, bounds, limit);
                r
            },
        }
    }

    /// One round: the join of `input` with the state after the body of the
    /// loop run on `x` refined by the guard.
    fn round(
        settings: &Settings<D>,
        stmt: &Statement,
        input: &State<D>,
        x: &State<D>,
        invariants: &mut ProgramInvariants<D>,
    ) -> (r: State<D>)
        requires
            stmt is While,
            input@.len() > 0,
            x@.len() > 0,
            keys_of(x@) == keys_of(input@),
            covers(input@, stmt.reads()),
        ensures
            ({
                let (after_body, records) = run(
                    *stmt->While_body,
                    guarded(*stmt->While_guard, x@, settings.bounds, settings.iteration_limit as nat),
                    old(invariants)@,
                    settings@,
                );
                &&& r@ == joined(input@, after_body, settings.bounds)
                &&& final(invariants)@ == records
            }),
            final(invariants).searches() == trail(
                *stmt->While_body,
                guarded(*stmt->While_guard, x@, settings.bounds, settings.iteration_limit as nat),
                old(invariants)@,
                old(invariants).searches(),
                settings@,
            ),
            r@.len() > 0,
            keys_of(r@) == keys_of(input@),
        decreases *stmt, 0nat,
    {
        match stmt {
            Statement::While { pos: _, guard, body } => {
                proof {
                    assert forall|v: Seq<char>| guard.variables().contains(v) implies has_key(
                        input@,
                        v,
                    ) by {
                        assert(stmt.reads().contains(v));
                    }
                    assert forall|v: Seq<char>| body.reads().contains(v) implies has_key(
                        input@,
                        v,
                    ) by {
                        assert(stmt.reads().contains(v));
                    }
                    lemma_covers_by_shape(x@, input@, guard.variables());
                    lemma_covers_by_shape(x@, input@, body.reads());
                }
                let entered = Self::bexp_eval(
                    guard,
                    x,
                    &settings.bounds,
                    settings.iteration_limit,
                );
                proof {
                    if entered@.len() > 0 {
                        lemma_covers_by_shape(entered@, x@, body.reads());
                    }
                }
                let after_body = Self::statement_eval(settings, body, &entered, invariants);
                proof {
                    if after_body@.len() > 0 {
                        lemma_same_keys(after_body@, entered@);
                        lemma_same_keys(entered@, x@);
                    }
                    lemma_pointwise_shape(
                        input@,
                        after_body@,
                        input@,
                        Set::empty(),
                        settings.bounds,
                    );
                }
                input.lub_var_wise(&after_body, &settings.bounds)
            },
            _ => State::bottom(),
        }
    }

    /// The search for an invariant of the loop `stmt` entered with `state`:
    /// the invariant, and the candidates in their order.
    fn seek_invariant(
        settings: &Settings<D>,
        stmt: &Statement,
        state: &State<D>,
        invariants: &mut ProgramInvariants<D>,
    ) -> (r: (State<D>, Vec<State<D>>))
        requires
            stmt is While,
            state@.len() > 0,
            covers(state@, stmt.reads()),
        ensures
            (r.0@, final(invariants)@) == ascend(
                *stmt,
                state@,
                state@,
                old(invariants)@,
                settings@,
                settings.iteration_limit as nat,
            ),
            (final(invariants).searches(), states_view(r.1@)) == ascend_trail(
                *stmt,
                state@,
                state@,
                old(invariants)@,
                old(invariants).searches(),
                seq![state@],
                settings@,
                settings.iteration_limit as nat,
            ),
            r.0@.len() > 0,
            keys_of(r.0@) == keys_of(state@),
        decreases *stmt, 1nat,
    {
        let bounds = &settings.bounds;
        let limit = settings.iteration_limit;
        let widening = D::needs_widening(bounds);
        let mut fixpoint = false;
        let mut x = state.clone();
        let mut candidates: Vec<State<D>> = Vec::new();
        candidates.push(state.clone());
        assert(states_view(candidates@) == seq![state@]);
        let mut steps: usize = 0;
        let ghost start = invariants@;
        let ghost start_log = invariants.searches();
        while !fixpoint && steps < limit
            invariant
                stmt is While,
                steps <= limit,
                limit == settings.iteration_limit,
                *bounds == settings.bounds,
                widening == D::spec_needs_widening(settings.bounds),
                state@.len() > 0,
                covers(state@, stmt.reads()),
                x@.len() > 0,
                keys_of(x@) == keys_of(state@),
                ascend(*stmt, state@, state@, start, settings@, limit as nat) == if fixpoint {
                    (x@, invariants@)
                } else {
                    ascend(*stmt, state@, x@, invariants@, settings@, (limit - steps) as nat)
                },
                ascend_trail(
                    *stmt,
                    state@,
                    state@,
                    start,
                    start_log,
                    seq![state@],
                    settings@,
                    limit as nat,
                ) == if fixpoint {
                    (invariants.searches(), states_view(candidates@))
                } else {
                    ascend_trail(
                        *stmt,
                        state@,
                        x@,
                        invariants@,
                        invariants.searches(),
                        states_view(candidates@),
                        settings@,
                        (limit - steps) as nat,
                    )
                },
            decreases limit - steps,
        {
            let ghost seen = states_view(candidates@);
            let mut next = Self::round(settings, stmt, state, &x, invariants);
            if widening {
                proof {
                    lemma_pointwise_shape(
                        x@,
                        next@,
                        state@,
                        settings.widening_thresholds@.to_set(),
                        *bounds,
                    );
                    lemma_same_keys(x@, state@);
                }
                next = x.widening(&next, &settings.widening_thresholds, bounds);
            }
            fixpoint = x.eq(&next, bounds);
            candidates.push(next.clone());
            assert(states_view(candidates@) == seen.push(next@));
            x = next;
            steps += 1;
        }
        if !fixpoint {
            let ghost seen = states_view(candidates@);
            let top = x.fill(D::top());
            proof {
                assert(keys_of(top@) =~= keys_of(x@));
            }
            let _ = Self::round(settings, stmt, state, &top, invariants);
            candidates.push(top.clone());
            assert(states_view(candidates@) == seen.push(top@));
            x = top;
        }
        (x, candidates)
    }

    /// The refinement by narrowing of the invariant `found` of the loop
    /// `stmt` entered with `state`.
    fn refine_invariant(
        settings: &Settings<D>,
        stmt: &Statement,
        state: &State<D>,
        found: State<D>,
        invariants: &mut ProgramInvariants<D>,
    ) -> (r: State<D>)
        requires
            stmt is While,
            state@.len() > 0,
            covers(state@, stmt.reads()),
            found@.len() > 0,
            keys_of(found@) == keys_of(state@),
        ensures
            (r@, final(invariants)@) == descend(
                *stmt,
                state@,
                found@,
                old(invariants)@,
                settings@,
                settings.narrowing_steps as nat,
            ),
            final(invariants).searches() == descend_trail(
                *stmt,
                state@,
                found@,
                old(invariants)@,
                old(invariants).searches(),
                settings@,
                settings.narrowing_steps as nat,
            ),
            r@.len() > 0,
            keys_of(r@) == keys_of(state@),
        decreases *stmt, 1nat,
    {
        let bounds = &settings.bounds;
        let mut fixpoint = false;
        let mut x = found;
        let mut steps: usize = 0;
        let ghost start = invariants@;
        let ghost start_log = invariants.searches();
        while !fixpoint && steps < settings.narrowing_steps
            invariant
                stmt is While,
                steps <= settings.narrowing_steps,
                *bounds == settings.bounds,
                state@.len() > 0,
                covers(state@, stmt.reads()),
                x@.len() > 0,
                keys_of(x@) == keys_of(state@),
                descend(
                    *stmt,
                    state@,
                    found@,
                    start,
                    settings@,
                    settings.narrowing_steps as nat,
                ) == if fixpoint {
                    (x@, invariants@)
                } else {
                    descend(
                        *stmt,
                        state@,
                        x@,
                        invariants@,
                        settings@,
                        (settings.narrowing_steps - steps) as nat,
                    )
                },
                descend_trail(
                    *stmt,
                    state@,
                    found@,
                    start,
                    start_log,
                    settings@,
                    settings.narrowing_steps as nat,
                ) == if fixpoint {
                    invariants.searches()
                } else {
                    descend_trail(
                        *stmt,
                        state@,
                        x@,
                        invariants@,
                        invariants.searches(),
                        settings@,
                        (settings.narrowing_steps - steps) as nat,
                    )
                },
            decreases settings.narrowing_steps - steps,
        {
            let target = Self::round(settings, stmt, state, &x, invariants);
            proof {
                lemma_pointwise_shape(x@, target@, state@, Set::empty(), *bounds);
                lemma_same_keys(x@, state@);
            }
            let current = x.narrowing(&target, bounds);
            fixpoint = current.eq(&x, bounds);
            x = current;
            steps += 1;
        }
        x
    }

    /// Runs the analysis: the invariant of every loop under the position of
    /// the loop, and the state at the end of the program under the greatest
    /// position. With them come, for diagnosis, the candidates of every
    /// search for an invariant.
    pub fn interpret(&mut self) -> (r: ProgramInvariants<D>)
        requires
            old(self).runnable(),
        ensures
            ({
                let (last, records) = run(
                    old(self).program(),
                    old(self).initial_state(),
                    old(self).recorded(),
                    old(self).setup(),
                );
                r@ == placed(records, Position { line: usize::MAX, clm: usize::MAX }, last)
            }),
            r.searches() == trail(
                old(self).program(),
                old(self).initial_state(),
                old(self).recorded(),
                old(self).searched(),
                old(self).setup(),
            ),
            final(self).recorded() == r@,
            final(self).searched() == r.searches(),
            final(self).program() == old(self).program(),
            final(self).initial_state() == old(self).initial_state(),
            final(self).setup() == old(self).setup(),
    {
        let initial_state = self.initial_state.clone();
        let last_state = Self::statement_eval(
            &self.settings,
            self.program,
            &initial_state,
            &mut self.invariants,
        );
        self.invariants.insert(Position::end(), last_state);
        self.invariants.clone()
    }
}

} // verus!
