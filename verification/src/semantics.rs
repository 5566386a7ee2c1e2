//! The concrete semantics of the language: what expressions evaluate to and
//! what statements do on valuations of the variables by integers.

use vstd::prelude::*;
use crate::abstract_domains::ext_int::trunc_div;
use crate::parser::ast::{ArithmeticExp, BooleanExp, Operator, Statement};

verus! {

/// The values of the variables.
pub type Valuation = Map<Seq<char>, int>;

/// The result of an operation on integers. Division rounds toward zero and
/// has no result for a divisor of zero.
pub open spec fn operate(operator: Operator, l: int, r: int) -> Option<int> {
    match operator {
        Operator::Add => Some(l + r),
        Operator::Sub => Some(l - r),
        Operator::Mul => Some(l * r),
        Operator::Div => if r == 0 {
            None
        } else {
            Some(trunc_div(l, r))
        },
    }
}

/// The value of an expression, if it has one: every variable has a value
/// and no division is by zero.
pub open spec fn value(exp: ArithmeticExp, s: Valuation) -> Option<int>
    decreases exp,
{
    match exp {
        ArithmeticExp::Integer(x) => Some(x as int),
        ArithmeticExp::Variable(v) => if s.dom().contains(v@) {
            Some(s[v@])
        } else {
            None
        },
        ArithmeticExp::BinaryOperation { lhs, operator, rhs } => match (
            value(*lhs, s),
            value(*rhs, s),
        ) {
            (Some(l), Some(r)) => operate(operator, l, r),
            _ => None,
        },
    }
}

/// The truth of a Boolean expression, if all its expressions have values.
pub open spec fn truth(exp: BooleanExp, s: Valuation) -> Option<bool>
    decreases exp,
{
    match exp {
        BooleanExp::Boolean(b) => Some(b),
        BooleanExp::ArithmeticCondition(c) => match value(*c.lhs, s) {
            Some(z) => Some(c.operator.holds(z)),
            None => None,
        },
        BooleanExp::And { lhs, rhs } => match (truth(*lhs, s), truth(*rhs, s)) {
            (Some(l), Some(r)) => Some(l && r),
            _ => None,
        },
        BooleanExp::Or { lhs, rhs } => match (truth(*lhs, s), truth(*rhs, s)) {
            (Some(l), Some(r)) => Some(l || r),
            _ => None,
        },
    }
}

/// The valuation after the statement, if it ends within `fuel` steps of
/// every loop and every expression on the way has a value. An assignment to
/// a variable without a value changes nothing.
pub open spec fn executed(stmt: Statement, s: Valuation, fuel: nat) -> Option<Valuation>
    decreases stmt, fuel,
{
    match stmt {
        Statement::Skip => Some(s),
        Statement::Assignment(a) => match value(*a.value, s) {
            Some(z) => if s.dom().contains(a.var@) {
                Some(s.insert(a.var@, z))
            } else {
                Some(s)
            },
            None => None,
        },
        Statement::Composition { lhs, rhs } => match executed(*lhs, s, fuel) {
            Some(mid) => executed(*rhs, mid, fuel),
            None => None,
        },
        Statement::Conditional { guard, true_branch, false_branch } => match truth(*guard, s) {
            Some(true) => executed(*true_branch, s, fuel),
            Some(false) => executed(*false_branch, s, fuel),
            None => None,
        },
        Statement::While { pos, guard, body } => match truth(*guard, s) {
            Some(true) => if fuel == 0 {
                None
            } else {
                match executed(*body, s, fuel) {
                    Some(next) => executed(stmt, next, (fuel - 1) as nat),
                    None => None,
                }
            },
            Some(false) => Some(s),
            None => None,
        },
    }
}

/// A statement gives no variable a value that had none, and takes none
/// away.
pub proof fn lemma_executed_domain(stmt: Statement, s: Valuation, fuel: nat)
    requires
        executed(stmt, s, fuel) is Some,
    ensures
        executed(stmt, s, fuel)->0.dom() == s.dom(),
    decreases stmt, fuel,
{
    match stmt {
        Statement::Skip => {},
        Statement::Assignment(a) => {
            if s.dom().contains(a.var@) {
                assert(s.insert(a.var@, value(*a.value, s)->0).dom() =~= s.dom());
            }
        },
        Statement::Composition { lhs, rhs } => {
            lemma_executed_domain(*lhs, s, fuel);
            lemma_executed_domain(*rhs, executed(*lhs, s, fuel)->0, fuel);
        },
        Statement::Conditional { guard, true_branch, false_branch } => {
            if truth(*guard, s) == Some(true) {
                lemma_executed_domain(*true_branch, s, fuel);
            } else {
                lemma_executed_domain(*false_branch, s, fuel);
            }
        },
        Statement::While { pos, guard, body } => {
            if truth(*guard, s) == Some(true) {
                lemma_executed_domain(*body, s, fuel);
                lemma_executed_domain(stmt, executed(*body, s, fuel)->0, (fuel - 1) as nat);
            }
        },
    }
}

/// The valuation at the head of a loop after `k` turns of a run from `s`
/// with `fuel` steps, if the run gets so far.
pub open spec fn at_head(stmt: Statement, s: Valuation, fuel: nat, k: nat) -> Option<Valuation>
    decreases k,
{
    if k == 0 {
        Some(s)
    } else {
        match (stmt, at_head(stmt, s, fuel, (k - 1) as nat)) {
            (Statement::While { pos, guard, body }, Some(before)) => if truth(*guard, before)
                == Some(true) && fuel >= k {
                executed(*body, before, (fuel - (k - 1)) as nat)
            } else {
                None
            },
            _ => None,
        }
    }
}

/// The heads of a run after its first turn are the heads of the run that
/// begins after the first turn.
pub proof fn lemma_head_shift(stmt: Statement, s: Valuation, fuel: nat, k: nat)
    requires
        stmt is While,
        fuel > 0,
        truth(*stmt->While_guard, s) == Some(true),
        executed(*stmt->body, s, fuel) is Some,
    ensures
        at_head(stmt, s, fuel, k + 1) == at_head(
            stmt,
            executed(*stmt->body, s, fuel)->0,
            (fuel - 1) as nat,
            k,
        ),
    decreases k,
{
    if k > 0 {
        lemma_head_shift(stmt, s, fuel, (k - 1) as nat);
    } else {
        assert(at_head(stmt, s, fuel, 0) == Some(s));
    }
}

/// A loop that ends, ends at one of its heads, where the guard is false.
pub proof fn lemma_loop_exit(stmt: Statement, s: Valuation, fuel: nat)
    requires
        stmt is While,
        executed(stmt, s, fuel) is Some,
    ensures
        exists|k: nat| #[trigger]
            at_head(stmt, s, fuel, k) == executed(stmt, s, fuel) && truth(
                *stmt->While_guard,
                executed(stmt, s, fuel)->0,
            ) == Some(false),
    decreases fuel,
{
    if truth(*stmt->While_guard, s) == Some(true) {
        let next = executed(*stmt->body, s, fuel)->0;
        lemma_loop_exit(stmt, next, (fuel - 1) as nat);
        let k = choose|k: nat| #[trigger]
            at_head(stmt, next, (fuel - 1) as nat, k) == executed(stmt, next, (fuel - 1) as nat)
                && truth(*stmt->While_guard, executed(stmt, next, (fuel - 1) as nat)->0) == Some(
                false,
            );
        lemma_head_shift(stmt, s, fuel, k);
        assert(at_head(stmt, s, fuel, k + 1) == executed(stmt, s, fuel));
    } else {
        assert(at_head(stmt, s, fuel, 0) == executed(stmt, s, fuel));
    }
}

/// Negation is the opposite truth.
pub proof fn lemma_truth_of_negation(exp: BooleanExp, s: Valuation)
    ensures
        truth(exp.negated(), s) == match truth(exp, s) {
            Some(b) => Some(!b),
            None => None,
        },
    decreases exp,
{
    match exp {
        BooleanExp::And { lhs, rhs } => {
            lemma_truth_of_negation(*lhs, s);
            lemma_truth_of_negation(*rhs, s);
        },
        BooleanExp::Or { lhs, rhs } => {
            lemma_truth_of_negation(*lhs, s);
            lemma_truth_of_negation(*rhs, s);
        },
        _ => {},
    }
}

} // verus!
