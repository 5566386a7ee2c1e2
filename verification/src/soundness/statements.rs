//! Soundness of statements: the state that the analysis computes for the
//! end of a statement describes the valuation at the end of every run, and
//! the state that it finds for the head of a loop describes the valuation
//! at the head in every turn of every run.
//!
//! The guards must be free of multiplication and division: the backward
//! operators for these lose the operands of a product or a quotient that is
//! zero.

use vstd::prelude::*;
use crate::abstract_domains::abstract_domain::AbstractDomain;
use crate::abstract_domains::interval::{DomainBounds, Interval};
use crate::abstract_domains::interval_laws::{
    lemma_narrowing_below, lemma_narrowing_keeps_common, lemma_widening_sound,
};
use crate::interpreter::{aexp_value, ascend, covers, descend, guarded, run, step, Setup};
use crate::invariants::Records;
use crate::parser::ast::{
    lemma_negated_variables, ArithmeticExp, BooleanExp, Operator, Statement,
};
use crate::semantics::{
    at_head, executed, lemma_executed_domain, lemma_loop_exit, lemma_truth_of_negation, truth,
    value, Valuation,
};
use crate::soundness::conditions::{
    describes, lemma_expression_sound, lemma_update_sound, tame,
};
use crate::soundness::guards::{
    lemma_equal_describes, lemma_guarded_sound, lemma_joined_sound, lemma_tame_negation,
    tame_guard,
};
use crate::soundness::shapes::{
    lemma_ascend_shape, lemma_body_shape, lemma_descend_shape, lemma_guarded_shape,
    lemma_run_shape, lemma_step_shape,
};
use crate::state::{
    distinct_keys, equal, filled, has_key, joined, keys_of, lemma_index_of, lemma_same_keys,
    narrowed, widened, zipped, Entries, Pointwise,
};

verus! {

/// Whether the expression is free of multiplication and division.
pub open spec fn additive(exp: ArithmeticExp) -> bool
    decreases exp,
{
    match exp {
        ArithmeticExp::BinaryOperation { lhs, operator, rhs } => {
            &&& operator == Operator::Add || operator == Operator::Sub
            &&& additive(*lhs)
            &&& additive(*rhs)
        },
        _ => true,
    }
}

/// Whether the conditions of the expression are free of multiplication and
/// division.
pub open spec fn additive_guard(exp: BooleanExp) -> bool
    decreases exp,
{
    match exp {
        BooleanExp::Boolean(_) => true,
        BooleanExp::ArithmeticCondition(c) => additive(*c.lhs),
        BooleanExp::And { lhs, rhs } => additive_guard(*lhs) && additive_guard(*rhs),
        BooleanExp::Or { lhs, rhs } => additive_guard(*lhs) && additive_guard(*rhs),
    }
}

/// Whether the guards of the statement are free of multiplication and
/// division.
pub open spec fn additive_guards(stmt: Statement) -> bool
    decreases stmt,
{
    match stmt {
        Statement::Skip => true,
        Statement::Assignment(_) => true,
        Statement::Composition { lhs, rhs } => additive_guards(*lhs) && additive_guards(*rhs),
        Statement::Conditional { guard, true_branch, false_branch } => additive_guard(*guard)
            && additive_guards(*true_branch) && additive_guards(*false_branch),
        Statement::While { pos, guard, body } => additive_guard(*guard) && additive_guards(*body),
    }
}

/// An expression without multiplication and division that has a value is
/// tame.
pub proof fn lemma_additive_is_tame(exp: ArithmeticExp, s: Valuation)
    requires
        additive(exp),
        value(exp, s) is Some,
    ensures
        tame(exp, s),
    decreases exp,
{
    match exp {
        ArithmeticExp::BinaryOperation { lhs, operator, rhs } => {
            lemma_additive_is_tame(*lhs, s);
            lemma_additive_is_tame(*rhs, s);
        },
        _ => {},
    }
}

/// A guard without multiplication and division that has a truth is tame.
pub proof fn lemma_additive_guard_is_tame(exp: BooleanExp, s: Valuation)
    requires
        additive_guard(exp),
        truth(exp, s) is Some,
    ensures
        tame_guard(exp, s),
    decreases exp,
{
    match exp {
        BooleanExp::ArithmeticCondition(c) => {
            lemma_additive_is_tame(*c.lhs, s);
        },
        BooleanExp::And { lhs, rhs } => {
            lemma_additive_guard_is_tame(*lhs, s);
            lemma_additive_guard_is_tame(*rhs, s);
        },
        BooleanExp::Or { lhs, rhs } => {
            lemma_additive_guard_is_tame(*lhs, s);
            lemma_additive_guard_is_tame(*rhs, s);
        },
        _ => {},
    }
}

/// What the analysis asks of a state that it runs a statement on.
pub open spec fn ready(stmt: Statement, env: Entries<Interval>) -> bool {
    &&& distinct_keys(env)
    &&& env.len() <= usize::MAX
    &&& covers(env, stmt.reads())
    &&& additive_guards(stmt)
}

/// A state with the same variables is as ready as the state.
pub proof fn lemma_ready_by_keys(stmt: Statement, x: Entries<Interval>, env: Entries<Interval>)
    requires
        ready(stmt, env),
        keys_of(x) == keys_of(env),
    ensures
        ready(stmt, x),
{
    lemma_same_keys(x, env);
}

/// The parts of a statement are ready where the statement is.
pub proof fn lemma_ready_parts(stmt: Statement, env: Entries<Interval>)
    requires
        ready(stmt, env),
    ensures
        match stmt {
            Statement::Composition { lhs, rhs } => ready(*lhs, env) && ready(*rhs, env),
            Statement::Conditional { guard, true_branch, false_branch } => {
                &&& ready(*true_branch, env)
                &&& ready(*false_branch, env)
                &&& covers(env, guard.variables())
                &&& covers(env, guard.negated().variables())
            },
            Statement::While { pos, guard, body } => {
                &&& ready(*body, env)
                &&& covers(env, guard.variables())
                &&& covers(env, guard.negated().variables())
            },
            Statement::Assignment(a) => covers(env, a.value.variables()),
            Statement::Skip => true,
        },
{
    match stmt {
        Statement::Composition { lhs, rhs } => {
            assert forall|v: Seq<char>| lhs.reads().contains(v) implies has_key(env, v) by {
                assert(stmt.reads().contains(v));
            }
            assert forall|v: Seq<char>| rhs.reads().contains(v) implies has_key(env, v) by {
                assert(stmt.reads().contains(v));
            }
        },
        Statement::Conditional { guard, true_branch, false_branch } => {
            lemma_negated_variables(*guard);
            assert forall|v: Seq<char>| guard.variables().contains(v) implies has_key(env, v) by {
                assert(stmt.reads().contains(v));
            }
            assert forall|v: Seq<char>| true_branch.reads().contains(v) implies has_key(
                env,
                v,
            ) by {
                assert(stmt.reads().contains(v));
            }
            assert forall|v: Seq<char>| false_branch.reads().contains(v) implies has_key(
                env,
                v,
            ) by {
                assert(stmt.reads().contains(v));
            }
        },
        Statement::While { pos, guard, body } => {
            lemma_negated_variables(*guard);
            assert forall|v: Seq<char>| guard.variables().contains(v) implies has_key(env, v) by {
                assert(stmt.reads().contains(v));
            }
            assert forall|v: Seq<char>| body.reads().contains(v) implies has_key(env, v) by {
                assert(stmt.reads().contains(v));
            }
        },
        _ => {},
    }
}

/// The widening of a state by one that describes a valuation describes it.
pub proof fn lemma_widened_sound(
    x: Entries<Interval>,
    c: Entries<Interval>,
    thresholds: Set<i64>,
    s: Valuation,
    bounds: DomainBounds,
)
    requires
        describes(c, s, bounds),
        distinct_keys(c),
        x.len() > 0,
        keys_of(x) == keys_of(c),
    ensures
        describes(widened(x, c, thresholds, bounds), s, bounds),
{
    lemma_same_keys(x, c);
    let z = zipped(Pointwise::Widening, x, c, thresholds, bounds);
    assert forall|i: int| 0 <= i < z.len() implies s.dom().contains((#[trigger] z[i]).0)
        && z[i].1.denotes(bounds, s[z[i].0]) by {
        assert(keys_of(x)[i] == keys_of(c)[i]);
        assert(c[i].0 == x[i].0);
        lemma_index_of(c, i);
        lemma_widening_sound(x[i].1, c[i].1, thresholds, bounds, s[x[i].0]);
    }
}

/// The narrowing of a state by another describes the valuations that both
/// describe.
pub proof fn lemma_narrowed_sound(
    x: Entries<Interval>,
    c: Entries<Interval>,
    s: Valuation,
    bounds: DomainBounds,
)
    requires
        describes(x, s, bounds),
        describes(c, s, bounds),
        distinct_keys(c),
        keys_of(x) == keys_of(c),
    ensures
        describes(narrowed(x, c, bounds), s, bounds),
{
    lemma_same_keys(x, c);
    let z = zipped(Pointwise::Narrowing, x, c, Set::empty(), bounds);
    assert forall|i: int| 0 <= i < z.len() implies s.dom().contains((#[trigger] z[i]).0)
        && z[i].1.denotes(bounds, s[z[i].0]) by {
        assert(keys_of(x)[i] == keys_of(c)[i]);
        assert(c[i].0 == x[i].0);
        lemma_index_of(c, i);
        lemma_narrowing_keeps_common(x[i].1, c[i].1, bounds, s[x[i].0]);
    }
}

/// Narrowing adds nothing: a narrowed state describes only valuations that
/// the state itself describes. A bottom state stays bottom.
pub proof fn lemma_narrowed_below(
    x: Entries<Interval>,
    c: Entries<Interval>,
    s: Valuation,
    bounds: DomainBounds,
)
    requires
        distinct_keys(c),
        x.len() == 0 || c.len() == 0 || keys_of(x) == keys_of(c),
        describes(narrowed(x, c, bounds), s, bounds),
    ensures
        describes(x, s, bounds),
        x.len() == 0 ==> narrowed(x, c, bounds).len() == 0,
{
    if x.len() > 0 && c.len() > 0 {
        lemma_same_keys(x, c);
        let z = zipped(Pointwise::Narrowing, x, c, Set::empty(), bounds);
        assert forall|i: int| 0 <= i < x.len() implies s.dom().contains((#[trigger] x[i]).0)
            && x[i].1.denotes(bounds, s[x[i].0]) by {
            assert(keys_of(x)[i] == keys_of(c)[i]);
            assert(c[i].0 == x[i].0);
            lemma_index_of(c, i);
            assert(z[i].0 == x[i].0);
            lemma_narrowing_below(x[i].1, c[i].1, bounds);
        }
    }
}

/// The state with top for every variable describes every valuation of its
/// variables.
pub proof fn lemma_top_describes(x: Entries<Interval>, s: Valuation, bounds: DomainBounds)
    requires
        x.len() > 0,
        forall|i: int| 0 <= i < x.len() ==> s.dom().contains((#[trigger] x[i]).0),
    ensures
        describes(filled(x, Interval::spec_top()), s, bounds),
{
    let t = filled(x, Interval::spec_top());
    assert forall|i: int| 0 <= i < t.len() implies s.dom().contains((#[trigger] t[i]).0)
        && t[i].1.denotes(bounds, s[t[i].0]) by {
        assert(t[i].0 == x[i].0);
    }
}

/// Whether the state describes the valuation at the head of the loop in
/// every turn of every run that enters the loop with a valuation that
/// `input` describes.
pub open spec fn holds_at_head(
    stmt: Statement,
    input: Entries<Interval>,
    x: Entries<Interval>,
    bounds: DomainBounds,
) -> bool {
    forall|s: Valuation, fuel: nat, k: nat|
        describes(input, s, bounds) && (#[trigger] at_head(stmt, s, fuel, k)) is Some
            ==> describes(x, at_head(stmt, s, fuel, k)->0, bounds)
}

/// The state after the body of the loop `stmt`, run on the candidate `x`
/// refined by the guard.
#[verifier::opaque]
pub open spec fn after_body(
    stmt: Statement,
    x: Entries<Interval>,
    records: Records<Interval>,
    setup: Setup<Interval>,
) -> Entries<Interval> {
    run(*stmt->body, guarded(*stmt->While_guard, x, setup.bounds, setup.limit), records, setup).0
}

/// The state after the body is bottom or has the variables of the
/// candidate.
proof fn lemma_after_body_same_shape(
    stmt: Statement,
    x: Entries<Interval>,
    records: Records<Interval>,
    setup: Setup<Interval>,
)
    requires
        stmt is While,
    ensures
        crate::state::same_shape(after_body(stmt, x, records, setup), x),
{
    reveal(after_body);
    lemma_body_shape(stmt, x, records, setup);
}

/// The candidates that are made of the state after the body have the
/// variables of the state that the loop is entered with.
proof fn lemma_after_body_shape(
    stmt: Statement,
    input: Entries<Interval>,
    x: Entries<Interval>,
    records: Records<Interval>,
    setup: Setup<Interval>,
)
    requires
        stmt is While,
        ready(stmt, input),
        input.len() > 0,
        x.len() > 0,
        keys_of(x) == keys_of(input),
    ensures
        ({
            let b = after_body(stmt, x, records, setup);
            let target = joined(input, b, setup.bounds);
            let next = step(input, x, b, setup);
            &&& b.len() == 0 || keys_of(b) == keys_of(input)
            &&& distinct_keys(b)
            &&& target.len() > 0
            &&& keys_of(target) == keys_of(input)
            &&& distinct_keys(target)
            &&& next.len() > 0
            &&& keys_of(next) == keys_of(input)
            &&& distinct_keys(next)
            &&& narrowed(x, target, setup.bounds).len() > 0
            &&& keys_of(narrowed(x, target, setup.bounds)) == keys_of(input)
        }),
{
    let b = after_body(stmt, x, records, setup);
    lemma_after_body_same_shape(stmt, x, records, setup);
    assert(distinct_keys(b)) by {
        if b.len() > 0 {
            lemma_same_keys(b, input);
        }
    }
    lemma_step_shape(input, x, b, setup);
    let target = joined(input, b, setup.bounds);
    assert(distinct_keys(target)) by {
        lemma_same_keys(target, input);
    }
    assert(distinct_keys(step(input, x, b, setup))) by {
        lemma_same_keys(step(input, x, b, setup), input);
    }
    assert(narrowed(x, target, setup.bounds).len() > 0 && keys_of(
        narrowed(x, target, setup.bounds),
    ) == keys_of(input)) by {
        crate::state::lemma_pointwise_shape(x, target, input, Set::empty(), setup.bounds);
        lemma_same_keys(x, input);
    }
}

/// The state after the body of a loop describes the valuation at the head
/// of the next turn, where the candidate describes the valuation at the
/// head of this turn.
proof fn lemma_turn(
    stmt: Statement,
    input: Entries<Interval>,
    x: Entries<Interval>,
    records: Records<Interval>,
    setup: Setup<Interval>,
    s: Valuation,
    fuel: nat,
    k: nat,
)
    requires
        stmt is While,
        ready(stmt, input),
        x.len() > 0,
        keys_of(x) == keys_of(input),
        at_head(stmt, s, fuel, k + 1) is Some,
        describes(x, at_head(stmt, s, fuel, k)->0, setup.bounds),
    ensures
        describes(
            after_body(stmt, x, records, setup),
            at_head(stmt, s, fuel, k + 1)->0,
            setup.bounds,
        ),
    decreases stmt, 0nat, 0nat,
{
    reveal(after_body);
    let guard = *stmt->While_guard;
    let body = *stmt->body;
    let before = at_head(stmt, s, fuel, k)->0;
    lemma_ready_by_keys(stmt, x, input);
    lemma_ready_parts(stmt, x);
    lemma_additive_guard_is_tame(guard, before);
    lemma_guarded_sound(guard, x, before, setup.bounds, setup.limit);
    let entered = guarded(guard, x, setup.bounds, setup.limit);
    lemma_ready_by_keys(body, entered, x);
    lemma_run_sound(body, entered, records, setup, before, (fuel - k) as nat);
}

/// The join of the state that a loop is entered with and the state after
/// its body describes the valuation at every head, where the candidate
/// that the body was run on describes the valuation at the head before.
proof fn lemma_target(
    stmt: Statement,
    input: Entries<Interval>,
    x: Entries<Interval>,
    records: Records<Interval>,
    setup: Setup<Interval>,
    s: Valuation,
    fuel: nat,
    k: nat,
)
    requires
        stmt is While,
        ready(stmt, input),
        input.len() > 0,
        x.len() > 0,
        keys_of(x) == keys_of(input),
        describes(input, s, setup.bounds),
        at_head(stmt, s, fuel, k) is Some,
        k > 0 ==> describes(x, at_head(stmt, s, fuel, (k - 1) as nat)->0, setup.bounds),
    ensures
        describes(
            joined(input, after_body(stmt, x, records, setup), setup.bounds),
            at_head(stmt, s, fuel, k)->0,
            setup.bounds,
        ),
    decreases stmt, 0nat, 1nat,
{
    lemma_after_body_shape(stmt, input, x, records, setup);
    if k > 0 {
        lemma_turn(stmt, input, x, records, setup, s, fuel, (k - 1) as nat);
    }
    lemma_joined_sound(
        input,
        after_body(stmt, x, records, setup),
        at_head(stmt, s, fuel, k)->0,
        setup.bounds,
    );
}

/// The next candidate describes what the join of the entry state and the
/// state after the body describes.
proof fn lemma_step_sound(
    input: Entries<Interval>,
    x: Entries<Interval>,
    b: Entries<Interval>,
    setup: Setup<Interval>,
    s: Valuation,
)
    requires
        x.len() > 0,
        keys_of(x) == keys_of(joined(input, b, setup.bounds)),
        distinct_keys(joined(input, b, setup.bounds)),
        describes(joined(input, b, setup.bounds), s, setup.bounds),
    ensures
        describes(step(input, x, b, setup), s, setup.bounds),
{
    if Interval::spec_needs_widening(setup.bounds) {
        lemma_widened_sound(
            x,
            joined(input, b, setup.bounds),
            setup.thresholds,
            s,
            setup.bounds,
        );
    }
}

/// A candidate that equals the next candidate describes the valuation at
/// every head.
proof fn lemma_fixpoint(
    stmt: Statement,
    input: Entries<Interval>,
    x: Entries<Interval>,
    records: Records<Interval>,
    setup: Setup<Interval>,
    s: Valuation,
    fuel: nat,
    k: nat,
)
    requires
        stmt is While,
        ready(stmt, input),
        input.len() > 0,
        x.len() > 0,
        keys_of(x) == keys_of(input),
        describes(input, s, setup.bounds),
        at_head(stmt, s, fuel, k) is Some,
        equal(x, step(input, x, after_body(stmt, x, records, setup), setup), setup.bounds),
    ensures
        describes(
            step(input, x, after_body(stmt, x, records, setup), setup),
            at_head(stmt, s, fuel, k)->0,
            setup.bounds,
        ),
    decreases stmt, 1nat, k,
{
    let next = step(input, x, after_body(stmt, x, records, setup), setup);
    lemma_after_body_shape(stmt, input, x, records, setup);
    if k > 0 {
        assert(at_head(stmt, s, fuel, (k - 1) as nat) is Some);
        lemma_fixpoint(stmt, input, x, records, setup, s, fuel, (k - 1) as nat);
        lemma_equal_describes(x, next, at_head(stmt, s, fuel, (k - 1) as nat)->0, setup.bounds);
    }
    lemma_target(stmt, input, x, records, setup, s, fuel, k);
    lemma_step_sound(
        input,
        x,
        after_body(stmt, x, records, setup),
        setup,
        at_head(stmt, s, fuel, k)->0,
    );
}

/// A narrowing step keeps a state that describes the valuation at every
/// head.
proof fn lemma_narrowing_step(
    stmt: Statement,
    input: Entries<Interval>,
    x: Entries<Interval>,
    records: Records<Interval>,
    setup: Setup<Interval>,
    s: Valuation,
    fuel: nat,
    k: nat,
)
    requires
        stmt is While,
        ready(stmt, input),
        input.len() > 0,
        x.len() > 0,
        keys_of(x) == keys_of(input),
        holds_at_head(stmt, input, x, setup.bounds),
        describes(input, s, setup.bounds),
        at_head(stmt, s, fuel, k) is Some,
    ensures
        describes(
            narrowed(
                x,
                joined(input, after_body(stmt, x, records, setup), setup.bounds),
                setup.bounds,
            ),
            at_head(stmt, s, fuel, k)->0,
            setup.bounds,
        ),
    decreases stmt, 1nat, 0nat,
{
    lemma_after_body_shape(stmt, input, x, records, setup);
    if k > 0 {
        assert(at_head(stmt, s, fuel, (k - 1) as nat) is Some);
    }
    lemma_target(stmt, input, x, records, setup, s, fuel, k);
    lemma_narrowed_sound(
        x,
        joined(input, after_body(stmt, x, records, setup), setup.bounds),
        at_head(stmt, s, fuel, k)->0,
        setup.bounds,
    );
}

/// The search for an invariant finds a state that describes the valuation
/// at every head.
proof fn lemma_ascend_sound(
    stmt: Statement,
    input: Entries<Interval>,
    x: Entries<Interval>,
    records: Records<Interval>,
    setup: Setup<Interval>,
    fuel: nat,
)
    requires
        stmt is While,
        ready(stmt, input),
        input.len() > 0,
        x.len() > 0,
        keys_of(x) == keys_of(input),
        fuel <= setup.limit,
    ensures
        holds_at_head(stmt, input, ascend(stmt, input, x, records, setup, fuel).0, setup.bounds),
    decreases stmt, 2nat, fuel,
{
    let bounds = setup.bounds;
    let found = ascend(stmt, input, x, records, setup, fuel).0;
    if fuel == 0 {
        assert forall|s: Valuation, run_fuel: nat, k: nat|
            describes(input, s, bounds) && (#[trigger] at_head(stmt, s, run_fuel, k)) is Some
            implies describes(found, at_head(stmt, s, run_fuel, k)->0, bounds) by {
            lemma_head_domain(stmt, s, run_fuel, k);
            lemma_same_keys(x, input);
            let here = at_head(stmt, s, run_fuel, k)->0;
            assert forall|i: int| 0 <= i < x.len() implies here.dom().contains(
                (#[trigger] x[i]).0,
            ) by {
                assert(keys_of(x)[i] == keys_of(input)[i]);
                assert(input[i].0 == x[i].0);
            }
            lemma_top_describes(x, here, bounds);
        }
    } else {
        reveal(after_body);
        let b = after_body(stmt, x, records, setup);
        let records1 = run(
            *stmt->body,
            guarded(*stmt->While_guard, x, bounds, setup.limit),
            records,
            setup,
        ).1;
        let next = step(input, x, b, setup);
        lemma_after_body_shape(stmt, input, x, records, setup);
        if equal(x, next, bounds) {
            assert(found == next);
            assert forall|s: Valuation, run_fuel: nat, k: nat|
                describes(input, s, bounds) && (#[trigger] at_head(stmt, s, run_fuel, k)) is Some
                implies describes(found, at_head(stmt, s, run_fuel, k)->0, bounds) by {
                lemma_fixpoint(stmt, input, x, records, setup, s, run_fuel, k);
            }
        } else {
            lemma_ascend_sound(stmt, input, next, records1, setup, (fuel - 1) as nat);
        }
    }
}

/// The valuation at a head has the variables of the valuation that the loop
/// was entered with.
pub proof fn lemma_head_domain(stmt: Statement, s: Valuation, fuel: nat, k: nat)
    requires
        at_head(stmt, s, fuel, k) is Some,
    ensures
        at_head(stmt, s, fuel, k)->0.dom() == s.dom(),
    decreases k,
{
    if k > 0 {
        lemma_head_domain(stmt, s, fuel, (k - 1) as nat);
        if let Statement::While { pos, guard, body } = stmt {
            let before = at_head(stmt, s, fuel, (k - 1) as nat)->0;
            lemma_executed_domain(*body, before, (fuel - (k - 1)) as nat);
        }
    }
}

/// Soundness of statements: where a state describes a valuation, the state
/// that the analysis computes for the end of a statement describes the
/// valuation at the end of every run of the statement from that valuation.
pub proof fn lemma_run_sound(
    stmt: Statement,
    env: Entries<Interval>,
    records: Records<Interval>,
    setup: Setup<Interval>,
    s: Valuation,
    fuel: nat,
)
    requires
        ready(stmt, env),
        describes(env, s, setup.bounds),
        executed(stmt, s, fuel) is Some,
    ensures
        describes(run(stmt, env, records, setup).0, executed(stmt, s, fuel)->0, setup.bounds),
        keys_of(run(stmt, env, records, setup).0) == keys_of(env),
    decreases stmt, 3nat, 0nat,
{
    let bounds = setup.bounds;
    let end = executed(stmt, s, fuel)->0;
    lemma_ready_parts(stmt, env);
    lemma_run_shape(stmt, env, records, setup);
    match stmt {
        Statement::Skip => {},
        Statement::Assignment(a) => {
            lemma_expression_sound(*a.value, env, s, bounds);
            lemma_update_sound(
                env,
                s,
                bounds,
                a.var@,
                aexp_value::<Interval>(*a.value, env, bounds),
                value(*a.value, s)->0,
            );
        },
        Statement::Composition { lhs, rhs } => {
            lemma_run_sound(*lhs, env, records, setup, s, fuel);
            let (mid, records1) = run(*lhs, env, records, setup);
            lemma_ready_by_keys(*rhs, mid, env);
            lemma_run_sound(*rhs, mid, records1, setup, executed(*lhs, s, fuel)->0, fuel);
        },
        Statement::Conditional { guard, true_branch, false_branch } => {
            let on_true = guarded(*guard, env, bounds, setup.limit);
            let on_false = guarded(guard.negated(), env, bounds, setup.limit);
            lemma_guarded_shape(*guard, env, bounds, setup.limit);
            lemma_guarded_shape(guard.negated(), env, bounds, setup.limit);
            let (t, records1) = run(*true_branch, on_true, records, setup);
            let (f, records2) = run(*false_branch, on_false, records1, setup);
            lemma_run_shape(*true_branch, on_true, records, setup);
            lemma_run_shape(*false_branch, on_false, records1, setup);
            lemma_additive_guard_is_tame(*guard, s);
            lemma_truth_of_negation(*guard, s);
            lemma_tame_negation(*guard, s);
            if truth(*guard, s) == Some(true) {
                lemma_guarded_sound(*guard, env, s, bounds, setup.limit);
                lemma_ready_by_keys(*true_branch, on_true, env);
                lemma_run_sound(*true_branch, on_true, records, setup, s, fuel);
            } else {
                lemma_guarded_sound(guard.negated(), env, s, bounds, setup.limit);
                lemma_ready_by_keys(*false_branch, on_false, env);
                lemma_run_sound(*false_branch, on_false, records1, setup, s, fuel);
            }
            if t.len() > 0 {
                lemma_same_keys(t, on_true);
                lemma_same_keys(on_true, env);
            }
            if f.len() > 0 {
                lemma_same_keys(f, on_false);
                lemma_same_keys(on_false, env);
                lemma_same_keys(f, env);
            }
            lemma_joined_sound(t, f, end, bounds);
        },
        Statement::While { pos, guard, body } => {
            lemma_invariant_sound(stmt, env, records, setup);
            lemma_ascend_shape(stmt, env, env, records, setup, setup.limit);
            let (x1, records1) = ascend(stmt, env, env, records, setup, setup.limit);
            lemma_descend_shape(stmt, env, x1, records1, setup, setup.narrowing_steps);
            let (x2, records2) = descend(stmt, env, x1, records1, setup, setup.narrowing_steps);
            lemma_loop_exit(stmt, s, fuel);
            let k = choose|k: nat| #[trigger]
                at_head(stmt, s, fuel, k) == executed(stmt, s, fuel) && truth(*guard, end)
                    == Some(false);
            assert(at_head(stmt, s, fuel, k) is Some);
            assert(describes(x2, end, bounds));
            lemma_truth_of_negation(*guard, end);
            lemma_additive_guard_is_tame(*guard, end);
            lemma_tame_negation(*guard, end);
            lemma_ready_by_keys(stmt, x2, env);
            lemma_ready_parts(stmt, x2);
            lemma_guarded_sound(guard.negated(), x2, end, bounds, setup.limit);
        },
    }
}

/// Soundness of loop invariants: the state that the analysis records for
/// the head of a loop describes the valuation at the head in every turn of
/// every run that enters the loop with a valuation that the state at the
/// entry describes.
pub proof fn lemma_invariant_sound(
    stmt: Statement,
    env: Entries<Interval>,
    records: Records<Interval>,
    setup: Setup<Interval>,
)
    requires
        stmt is While,
        ready(stmt, env),
        env.len() > 0,
    ensures
        ({
            let (x1, records1) = ascend(stmt, env, env, records, setup, setup.limit);
            let (x2, records2) = descend(stmt, env, x1, records1, setup, setup.narrowing_steps);
            let recorded = run(stmt, env, records, setup).1;
            let at = crate::invariants::rank(records2, stmt->pos);
            &&& holds_at_head(stmt, env, x2, setup.bounds)
            &&& 0 <= at < recorded.len()
            &&& recorded[at] == (stmt->pos, x2)
        }),
    decreases stmt, 2nat, setup.limit + setup.narrowing_steps + 1,
{
    lemma_ascend_sound(stmt, env, env, records, setup, setup.limit);
    lemma_ascend_shape(stmt, env, env, records, setup, setup.limit);
    let (x1, records1) = ascend(stmt, env, env, records, setup, setup.limit);
    lemma_descend_sound(stmt, env, x1, records1, setup, setup.narrowing_steps);
    let (x2, records2) = descend(stmt, env, x1, records1, setup, setup.narrowing_steps);
    crate::invariants::lemma_placed_is_recorded(records2, stmt->pos, x2);
}

/// The narrowing of a state that describes the valuation at every head
/// describes the valuation at every head.
proof fn lemma_descend_sound(
    stmt: Statement,
    input: Entries<Interval>,
    x: Entries<Interval>,
    records: Records<Interval>,
    setup: Setup<Interval>,
    steps: nat,
)
    requires
        stmt is While,
        ready(stmt, input),
        input.len() > 0,
        x.len() > 0,
        keys_of(x) == keys_of(input),
        holds_at_head(stmt, input, x, setup.bounds),
    ensures
        holds_at_head(stmt, input, descend(stmt, input, x, records, setup, steps).0, setup.bounds),
    decreases stmt, 2nat, steps,
{
    let bounds = setup.bounds;
    if !(steps == 0 || steps > setup.narrowing_steps) {
        reveal(after_body);
        let b = after_body(stmt, x, records, setup);
        let records1 = run(
            *stmt->body,
            guarded(*stmt->While_guard, x, bounds, setup.limit),
            records,
            setup,
        ).1;
        let current = narrowed(x, joined(input, b, bounds), bounds);
        lemma_after_body_shape(stmt, input, x, records, setup);
        assert forall|s: Valuation, run_fuel: nat, k: nat|
            describes(input, s, bounds) && (#[trigger] at_head(stmt, s, run_fuel, k)) is Some
            implies describes(current, at_head(stmt, s, run_fuel, k)->0, bounds) by {
            lemma_narrowing_step(stmt, input, x, records, setup, s, run_fuel, k);
        }
        assert(holds_at_head(stmt, input, current, bounds));
        if !equal(current, x, bounds) {
            lemma_descend_sound(stmt, input, current, records1, setup, (steps - 1) as nat);
        }
    }
}

} // verus!
