//! Soundness of guards: the refinement of a state by a Boolean expression
//! keeps every valuation of which the expression is true.

use vstd::prelude::*;
use crate::abstract_domains::abstract_domain::AbstractDomain;
use crate::abstract_domains::interval::{DomainBounds, Interval};
use crate::abstract_domains::interval_laws::{lemma_glb_sound, lemma_lub_sound};
use crate::interpreter::{compound, covers, guarded, guarded_rounds};
use crate::parser::ast::BooleanExp;
use crate::semantics::{truth, Valuation};
use crate::soundness::conditions::{describes, lemma_refined_sound, tame};
use crate::soundness::shapes::{lemma_compound_shape, lemma_guarded_shape};
use crate::state::{
    distinct_keys, equal, extras, has_key, joined, keys_of, lemma_index_of, lemma_no_extras,
    lemma_same_keys, met, zipped, Entries, Pointwise,
};

verus! {

/// Whether the backward operators lose nothing on the conditions of the
/// expression under the valuation.
pub open spec fn tame_guard(exp: BooleanExp, s: Valuation) -> bool
    decreases exp,
{
    match exp {
        BooleanExp::Boolean(_) => true,
        BooleanExp::ArithmeticCondition(c) => tame(*c.lhs, s),
        BooleanExp::And { lhs, rhs } => tame_guard(*lhs, s) && tame_guard(*rhs, s),
        BooleanExp::Or { lhs, rhs } => tame_guard(*lhs, s) && tame_guard(*rhs, s),
    }
}

/// The negation of a tame guard is tame.
pub proof fn lemma_tame_negation(exp: BooleanExp, s: Valuation)
    ensures
        tame_guard(exp.negated(), s) == tame_guard(exp, s),
    decreases exp,
{
    match exp {
        BooleanExp::And { lhs, rhs } => {
            lemma_tame_negation(*lhs, s);
            lemma_tame_negation(*rhs, s);
        },
        BooleanExp::Or { lhs, rhs } => {
            lemma_tame_negation(*lhs, s);
            lemma_tame_negation(*rhs, s);
        },
        _ => {},
    }
}

/// The meet of two states that describe a valuation describes it.
pub proof fn lemma_met_sound(
    a: Entries<Interval>,
    c: Entries<Interval>,
    s: Valuation,
    bounds: DomainBounds,
)
    requires
        describes(a, s, bounds),
        describes(c, s, bounds),
        distinct_keys(c),
        keys_of(a) == keys_of(c),
    ensures
        describes(met(a, c, bounds), s, bounds),
        keys_of(met(a, c, bounds)) == keys_of(a),
{
    lemma_same_keys(a, c);
    lemma_no_extras(a, c);
    let z = zipped(Pointwise::Glb, a, c, Set::empty(), bounds);
    assert(z + extras(a, c) == z);
    assert(keys_of(z) =~= keys_of(a));
    assert forall|i: int| 0 <= i < z.len() implies s.dom().contains((#[trigger] z[i]).0)
        && z[i].1.denotes(bounds, s[z[i].0]) by {
        assert(keys_of(a)[i] == keys_of(c)[i]);
        assert(c[i].0 == a[i].0);
        lemma_index_of(c, i);
        lemma_glb_sound(a[i].1, c[i].1, bounds, s[a[i].0]);
    }
}

/// The join of two states of which one describes a valuation describes it,
/// where the other one is bottom or has the same variables.
pub proof fn lemma_joined_sound(
    a: Entries<Interval>,
    c: Entries<Interval>,
    s: Valuation,
    bounds: DomainBounds,
)
    requires
        describes(a, s, bounds) || describes(c, s, bounds),
        distinct_keys(c),
        a.len() == 0 || c.len() == 0 || keys_of(a) == keys_of(c),
    ensures
        describes(joined(a, c, bounds), s, bounds),
        a.len() > 0 ==> keys_of(joined(a, c, bounds)) == keys_of(a),
        a.len() == 0 ==> joined(a, c, bounds) == c,
{
    if a.len() > 0 && c.len() > 0 {
        lemma_same_keys(a, c);
        lemma_no_extras(a, c);
        let z = zipped(Pointwise::Lub, a, c, Set::empty(), bounds);
        assert(z + extras(a, c) == z);
        assert(keys_of(z) =~= keys_of(a));
        assert forall|i: int| 0 <= i < z.len() implies s.dom().contains((#[trigger] z[i]).0)
            && z[i].1.denotes(bounds, s[z[i].0]) by {
            assert(keys_of(a)[i] == keys_of(c)[i]);
            assert(c[i].0 == a[i].0);
            lemma_index_of(c, i);
            lemma_lub_sound(a[i].1, c[i].1, bounds, s[a[i].0]);
        }
    }
}

/// States that are equal describe the same valuations.
pub proof fn lemma_equal_describes(
    a: Entries<Interval>,
    c: Entries<Interval>,
    s: Valuation,
    bounds: DomainBounds,
)
    requires
        equal(a, c, bounds),
        describes(c, s, bounds),
        distinct_keys(c),
    ensures
        describes(a, s, bounds),
{
    assert forall|i: int| 0 <= i < a.len() implies s.dom().contains((#[trigger] a[i]).0)
        && a[i].1.denotes(bounds, s[a[i].0]) by {
        let k = crate::state::index_of(c, a[i].0);
        assert(c[k].0 == a[i].0);
    }
}

/// One round of a compound condition is sound.
pub proof fn lemma_compound_sound(
    exp: BooleanExp,
    x: Entries<Interval>,
    s: Valuation,
    bounds: DomainBounds,
    limit: nat,
)
    requires
        exp is And || exp is Or,
        distinct_keys(x),
        x.len() <= usize::MAX,
        describes(x, s, bounds),
        covers(x, exp.variables()),
        tame_guard(exp, s),
        truth(exp, s) == Some(true),
    ensures
        describes(compound(exp, x, bounds, limit), s, bounds),
        keys_of(compound(exp, x, bounds, limit)) == keys_of(x),
    decreases exp, 0nat,
{
    match exp {
        BooleanExp::And { lhs, rhs } => {
            assert(covers(x, lhs.variables()) && covers(x, rhs.variables())) by {
                assert forall|v: Seq<char>| lhs.variables().contains(v) implies has_key(x, v) by {
                    assert(exp.variables().contains(v));
                }
                assert forall|v: Seq<char>| rhs.variables().contains(v) implies has_key(x, v) by {
                    assert(exp.variables().contains(v));
                }
            }
            lemma_guarded_sound(*lhs, x, s, bounds, limit);
            lemma_guarded_sound(*rhs, x, s, bounds, limit);
            let a = guarded(*lhs, x, bounds, limit);
            let c = guarded(*rhs, x, bounds, limit);
            lemma_same_keys(c, x);
            lemma_met_sound(a, c, s, bounds);
        },
        BooleanExp::Or { lhs, rhs } => {
            assert(covers(x, lhs.variables()) && covers(x, rhs.variables())) by {
                assert forall|v: Seq<char>| lhs.variables().contains(v) implies has_key(x, v) by {
                    assert(exp.variables().contains(v));
                }
                assert forall|v: Seq<char>| rhs.variables().contains(v) implies has_key(x, v) by {
                    assert(exp.variables().contains(v));
                }
            }
            let a = guarded(*lhs, x, bounds, limit);
            let c = guarded(*rhs, x, bounds, limit);
            lemma_guarded_shape(*lhs, x, bounds, limit);
            lemma_guarded_shape(*rhs, x, bounds, limit);
            if truth(*lhs, s) == Some(true) {
                lemma_guarded_sound(*lhs, x, s, bounds, limit);
            } else {
                lemma_guarded_sound(*rhs, x, s, bounds, limit);
            }
            if c.len() > 0 {
                lemma_same_keys(c, x);
            }
            lemma_joined_sound(a, c, s, bounds);
            lemma_compound_shape(exp, x, bounds, limit);
        },
        _ => {},
    }
}

/// The rounds of a compound condition are sound.
pub proof fn lemma_rounds_sound(
    exp: BooleanExp,
    x: Entries<Interval>,
    s: Valuation,
    bounds: DomainBounds,
    limit: nat,
    fuel: nat,
)
    requires
        exp is And || exp is Or,
        distinct_keys(x),
        x.len() <= usize::MAX,
        describes(x, s, bounds),
        covers(x, exp.variables()),
        tame_guard(exp, s),
        truth(exp, s) == Some(true),
    ensures
        describes(guarded_rounds(exp, x, bounds, limit, fuel), s, bounds),
        keys_of(guarded_rounds(exp, x, bounds, limit, fuel)) == keys_of(x),
    decreases exp, fuel + 1,
{
    if !(fuel == 0 || fuel > limit) {
        lemma_compound_sound(exp, x, s, bounds, limit);
        let current = compound(exp, x, bounds, limit);
        lemma_same_keys(current, x);
        if !(equal(current, x, bounds) || current.len() == 0) {
            lemma_rounds_sound(exp, current, s, bounds, limit, (fuel - 1) as nat);
        }
    }
}

/// The refinement by a guard is sound: a state that describes a valuation
/// of which the guard is true is refined to a state that still describes
/// the valuation, where the guard is tame.
pub proof fn lemma_guarded_sound(
    exp: BooleanExp,
    env: Entries<Interval>,
    s: Valuation,
    bounds: DomainBounds,
    limit: nat,
)
    requires
        distinct_keys(env),
        env.len() <= usize::MAX,
        describes(env, s, bounds),
        covers(env, exp.variables()),
        tame_guard(exp, s),
        truth(exp, s) == Some(true),
    ensures
        describes(guarded(exp, env, bounds, limit), s, bounds),
        keys_of(guarded(exp, env, bounds, limit)) == keys_of(env),
    decreases exp, limit + 2,
{
    match exp {
        BooleanExp::Boolean(b) => {},
        BooleanExp::ArithmeticCondition(c) => {
            lemma_refined_sound(c, env, s, bounds, limit);
        },
        _ => {
            lemma_rounds_sound(exp, env, s, bounds, limit, limit);
        },
    }
}

} // verus!
