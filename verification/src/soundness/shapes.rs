//! The variables of a state stay as they are: what the analysis makes of a
//! state is bottom or has the variables of the state, in the same order.

use vstd::prelude::*;
use crate::abstract_domains::abstract_domain::AbstractDomain;
use crate::interpreter::{
    ascend, compound, descend, guarded, guarded_rounds, run, step, Setup,
};
use crate::invariants::Records;
use crate::parser::ast::{BooleanExp, Statement};
use crate::propagation_algo::propagation_algo::lemma_refined_shape;
use crate::state::{
    filled, joined, keys_of, lemma_pointwise_shape, lemma_same_keys, lemma_updated_shape,
    narrowed, same_shape, Entries,
};

verus! {

/// One round of a compound condition gives bottom or the variables of the
/// state.
pub proof fn lemma_compound_shape<D: AbstractDomain>(
    exp: BooleanExp,
    x: Entries<D>,
    bounds: D::Bounds,
    limit: nat,
)
    ensures
        same_shape(compound(exp, x, bounds, limit), x),
    decreases exp, 0nat,
{
    match exp {
        BooleanExp::And { lhs, rhs } => {
            lemma_guarded_shape(*lhs, x, bounds, limit);
            lemma_guarded_shape(*rhs, x, bounds, limit);
            lemma_pointwise_shape(
                guarded(*lhs, x, bounds, limit),
                guarded(*rhs, x, bounds, limit),
                x,
                Set::empty(),
                bounds,
            );
        },
        BooleanExp::Or { lhs, rhs } => {
            lemma_guarded_shape(*lhs, x, bounds, limit);
            lemma_guarded_shape(*rhs, x, bounds, limit);
            lemma_pointwise_shape(
                guarded(*lhs, x, bounds, limit),
                guarded(*rhs, x, bounds, limit),
                x,
                Set::empty(),
                bounds,
            );
        },
        _ => {},
    }
}

/// The rounds of a compound condition give bottom or the variables of the
/// state.
pub proof fn lemma_rounds_shape<D: AbstractDomain>(
    exp: BooleanExp,
    x: Entries<D>,
    bounds: D::Bounds,
    limit: nat,
    fuel: nat,
)
    ensures
        same_shape(guarded_rounds(exp, x, bounds, limit, fuel), x),
    decreases exp, fuel + 1,
{
    if !(fuel == 0 || fuel > limit || !(exp is And || exp is Or)) {
        lemma_compound_shape(exp, x, bounds, limit);
        let current = compound(exp, x, bounds, limit);
        lemma_rounds_shape(exp, current, bounds, limit, (fuel - 1) as nat);
    }
}

/// The refinement by a Boolean expression gives bottom or the variables of
/// the state.
pub proof fn lemma_guarded_shape<D: AbstractDomain>(
    exp: BooleanExp,
    env: Entries<D>,
    bounds: D::Bounds,
    limit: nat,
)
    ensures
        same_shape(guarded(exp, env, bounds, limit), env),
    decreases exp, limit + 2,
{
    match exp {
        BooleanExp::Boolean(b) => {},
        BooleanExp::ArithmeticCondition(c) => {
            lemma_refined_shape(c, env, bounds, limit);
        },
        _ => {
            lemma_rounds_shape(exp, env, bounds, limit, limit);
        },
    }
}

/// A candidate for the invariant of a loop has the variables of the state
/// that the loop is entered with.
pub proof fn lemma_step_shape<D: AbstractDomain>(
    input: Entries<D>,
    x: Entries<D>,
    after_body: Entries<D>,
    setup: Setup<D>,
)
    requires
        input.len() > 0,
        x.len() > 0,
        keys_of(x) == keys_of(input),
        same_shape(after_body, input),
    ensures
        step(input, x, after_body, setup).len() > 0,
        keys_of(step(input, x, after_body, setup)) == keys_of(input),
        joined(input, after_body, setup.bounds).len() > 0,
        keys_of(joined(input, after_body, setup.bounds)) == keys_of(input),
{
    lemma_pointwise_shape(input, after_body, input, Set::empty(), setup.bounds);
    let next = joined(input, after_body, setup.bounds);
    lemma_pointwise_shape(x, next, input, setup.thresholds, setup.bounds);
    lemma_same_keys(x, input);
}

/// A statement gives bottom or the variables of the state.
pub proof fn lemma_run_shape<D: AbstractDomain>(
    stmt: Statement,
    env: Entries<D>,
    records: Records<D>,
    setup: Setup<D>,
)
    ensures
        same_shape(run(stmt, env, records, setup).0, env),
    decreases stmt, 1nat, 0nat,
{
    if env.len() > 0 {
        match stmt {
            Statement::Skip => {},
            Statement::Assignment(a) => {
                lemma_updated_shape(
                    env,
                    a.var@,
                    crate::interpreter::aexp_value(*a.value, env, setup.bounds),
                    setup.bounds,
                );
            },
            Statement::Composition { lhs, rhs } => {
                lemma_run_shape(*lhs, env, records, setup);
                let (mid, records1) = run(*lhs, env, records, setup);
                lemma_run_shape(*rhs, mid, records1, setup);
            },
            Statement::Conditional { guard, true_branch, false_branch } => {
                let on_true = guarded(*guard, env, setup.bounds, setup.limit);
                let on_false = guarded(guard.negated(), env, setup.bounds, setup.limit);
                lemma_guarded_shape(*guard, env, setup.bounds, setup.limit);
                lemma_guarded_shape(guard.negated(), env, setup.bounds, setup.limit);
                lemma_run_shape(*true_branch, on_true, records, setup);
                let (t, records1) = run(*true_branch, on_true, records, setup);
                lemma_run_shape(*false_branch, on_false, records1, setup);
                let (f, records2) = run(*false_branch, on_false, records1, setup);
                lemma_pointwise_shape(t, f, env, Set::empty(), setup.bounds);
            },
            Statement::While { pos, guard, body } => {
                lemma_ascend_shape(stmt, env, env, records, setup, setup.limit);
                let (x1, records1) = ascend(stmt, env, env, records, setup, setup.limit);
                lemma_descend_shape(stmt, env, x1, records1, setup, setup.narrowing_steps);
                let (x2, records2) = descend(
                    stmt,
                    env,
                    x1,
                    records1,
                    setup,
                    setup.narrowing_steps,
                );
                lemma_guarded_shape(guard.negated(), x2, setup.bounds, setup.limit);
            },
        }
    }
}

/// The state after the body of a loop, run on a candidate refined by the
/// guard, is bottom or has the variables of the candidate.
pub proof fn lemma_body_shape<D: AbstractDomain>(
    stmt: Statement,
    x: Entries<D>,
    records: Records<D>,
    setup: Setup<D>,
)
    requires
        stmt is While,
    ensures
        same_shape(
            run(
                *stmt->body,
                guarded(*stmt->While_guard, x, setup.bounds, setup.limit),
                records,
                setup,
            ).0,
            x,
        ),
    decreases stmt, 0nat, 0nat,
{
    let entered = guarded(*stmt->While_guard, x, setup.bounds, setup.limit);
    lemma_guarded_shape(*stmt->While_guard, x, setup.bounds, setup.limit);
    lemma_run_shape(*stmt->body, entered, records, setup);
}

/// The search for an invariant gives a state with the variables of the state
/// that the loop is entered with.
pub proof fn lemma_ascend_shape<D: AbstractDomain>(
    stmt: Statement,
    input: Entries<D>,
    x: Entries<D>,
    records: Records<D>,
    setup: Setup<D>,
    fuel: nat,
)
    requires
        stmt is While,
        input.len() > 0,
        x.len() > 0,
        keys_of(x) == keys_of(input),
    ensures
        ascend(stmt, input, x, records, setup, fuel).0.len() > 0,
        keys_of(ascend(stmt, input, x, records, setup, fuel).0) == keys_of(input),
    decreases stmt, 0nat, fuel + 1,
{
    if fuel > setup.limit {
    } else if fuel == 0 {
        assert(keys_of(filled(x, D::spec_top())) =~= keys_of(x));
    } else {
        lemma_body_shape(stmt, x, records, setup);
        let (after_body, records1) = run(
            *stmt->body,
            guarded(*stmt->While_guard, x, setup.bounds, setup.limit),
            records,
            setup,
        );
        lemma_step_shape(input, x, after_body, setup);
        let next = step(input, x, after_body, setup);
        lemma_ascend_shape(stmt, input, next, records1, setup, (fuel - 1) as nat);
    }
}

/// The narrowing of an invariant gives a state with the variables of the
/// state that the loop is entered with.
pub proof fn lemma_descend_shape<D: AbstractDomain>(
    stmt: Statement,
    input: Entries<D>,
    x: Entries<D>,
    records: Records<D>,
    setup: Setup<D>,
    steps: nat,
)
    requires
        stmt is While,
        input.len() > 0,
        x.len() > 0,
        keys_of(x) == keys_of(input),
    ensures
        descend(stmt, input, x, records, setup, steps).0.len() > 0,
        keys_of(descend(stmt, input, x, records, setup, steps).0) == keys_of(input),
    decreases stmt, 0nat, steps + 1,
{
    if !(steps == 0 || steps > setup.narrowing_steps) {
        lemma_body_shape(stmt, x, records, setup);
        let (after_body, records1) = run(
            *stmt->body,
            guarded(*stmt->While_guard, x, setup.bounds, setup.limit),
            records,
            setup,
        );
        lemma_step_shape(input, x, after_body, setup);
        let target = joined(input, after_body, setup.bounds);
        lemma_pointwise_shape(x, target, input, Set::empty(), setup.bounds);
        lemma_same_keys(x, input);
        let current = narrowed(x, target, setup.bounds);
        lemma_descend_shape(stmt, input, current, records1, setup, (steps - 1) as nat);
    }
}

} // verus!
