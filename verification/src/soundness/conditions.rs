//! Soundness of expressions, assignments and conditions: abstract values
//! denote the values of expressions, and the refinement by a condition keeps
//! every valuation of which the condition holds.

use vstd::prelude::*;
use crate::abstract_domains::abstract_domain::AbstractDomain;
use crate::abstract_domains::interval::{DomainBounds, Interval};
use crate::abstract_domains::abstract_domain::{backward, IntervalBound};
use crate::abstract_domains::ext_int::ExtInt;
use crate::abstract_domains::interval_laws::{
    is_zero, lemma_add_sound, lemma_backward_add_sound, lemma_backward_div_sound,
    lemma_backward_mul_sound, lemma_backward_sub_sound, lemma_denoted_after_normal,
    lemma_div_sound, lemma_glb_sound, lemma_lub_sound, lemma_mul_sound, lemma_sub_sound,
};
use crate::parser::ast::{ArithmeticCondition, ConditionOperator};
use crate::propagation_algo::node::{cells_equal, lemma_passes_keep_slots};
use crate::propagation_algo::propagation_algo::{iterate, refined, slice, written_back};
use crate::abstract_domains::range::Range;
use crate::interpreter::{aexp_value, covers};
use crate::parser::ast::{ArithmeticExp, Operator};
use crate::propagation_algo::node::{forward, Node};
use crate::semantics::{operate, value, Valuation};
use crate::state::{
    distinct_keys, has_key, index_of, keys_of, lemma_same_keys, lemma_updated_shape, updated,
    value_of, Entries,
};

verus! {

/// Whether the state describes the valuation: it is not bottom, and each of
/// its variables has a value that the interval of the variable denotes.
pub open spec fn describes(env: Entries<Interval>, s: Valuation, bounds: DomainBounds) -> bool {
    &&& env.len() > 0
    &&& forall|i: int|
        0 <= i < env.len() ==> s.dom().contains((#[trigger] env[i]).0) && env[i].1.denotes(
            bounds,
            s[env[i].0],
        )
}

/// The forward operators are sound: the result of an operation on denoted
/// integers is denoted by the result of the operator.
pub proof fn lemma_forward_sound(
    operator: Operator,
    lhs: Interval,
    rhs: Interval,
    bounds: DomainBounds,
    l: int,
    r: int,
)
    requires
        lhs.denotes(bounds, l),
        rhs.denotes(bounds, r),
        operate(operator, l, r) is Some,
    ensures
        forward(operator, lhs, rhs, bounds).denotes(bounds, operate(operator, l, r)->0),
{
    match operator {
        Operator::Add => lemma_add_sound(lhs, rhs, bounds, l, r),
        Operator::Sub => lemma_sub_sound(lhs, rhs, bounds, l, r),
        Operator::Mul => lemma_mul_sound(lhs, rhs, bounds, l, r),
        Operator::Div => lemma_div_sound(lhs, rhs, bounds, l, r),
    }
}

/// The abstraction of a constant denotes the constant.
pub proof fn lemma_constant_sound(c: i64, bounds: DomainBounds)
    ensures
        Interval::spec_constant(c, bounds).denotes(bounds, c as int),
{
    lemma_denoted_after_normal(Range::singleton(c as int), bounds, c as int);
}

/// The abstract value of an expression denotes its value: in a state that
/// describes the valuation, an expression that has the value `z` has an
/// abstract value that denotes `z`.
pub proof fn lemma_expression_sound(
    exp: ArithmeticExp,
    env: Entries<Interval>,
    s: Valuation,
    bounds: DomainBounds,
)
    requires
        distinct_keys(env),
        describes(env, s, bounds),
        covers(env, exp.variables()),
        value(exp, s) is Some,
    ensures
        aexp_value::<Interval>(exp, env, bounds).denotes(bounds, value(exp, s)->0),
    decreases exp,
{
    match exp {
        ArithmeticExp::Integer(x) => {
            lemma_constant_sound(x, bounds);
        },
        ArithmeticExp::Variable(v) => {
            assert(exp.variables().contains(v@));
            let i = index_of(env, v@);
            assert(env[i].0 == v@);
        },
        ArithmeticExp::BinaryOperation { lhs, operator, rhs } => {
            assert forall|v: Seq<char>| lhs.variables().contains(v) implies has_key(env, v) by {
                assert(exp.variables().contains(v));
            }
            assert forall|v: Seq<char>| rhs.variables().contains(v) implies has_key(env, v) by {
                assert(exp.variables().contains(v));
            }
            lemma_expression_sound(*lhs, env, s, bounds);
            lemma_expression_sound(*rhs, env, s, bounds);
            lemma_forward_sound(
                operator,
                aexp_value::<Interval>(*lhs, env, bounds),
                aexp_value::<Interval>(*rhs, env, bounds),
                bounds,
                value(*lhs, s)->0,
                value(*rhs, s)->0,
            );
        },
    }
}

/// An assignment is sound: binding a variable to an abstract value that
/// denotes its new value gives a state that describes the new valuation.
pub proof fn lemma_update_sound(
    env: Entries<Interval>,
    s: Valuation,
    bounds: DomainBounds,
    var: Seq<char>,
    abstract_value: Interval,
    z: int,
)
    requires
        distinct_keys(env),
        describes(env, s, bounds),
        abstract_value.denotes(bounds, z),
    ensures
        describes(
            updated(env, var, abstract_value, bounds),
            if s.dom().contains(var) {
                s.insert(var, z)
            } else {
                s
            },
            bounds,
        ),
{
    let r = updated(env, var, abstract_value, bounds);
    let t = if s.dom().contains(var) {
        s.insert(var, z)
    } else {
        s
    };
    assert(!abstract_value.spec_eq(Interval::spec_bottom(), bounds));
    if has_key(env, var) {
        let k = index_of(env, var);
        assert(env[k].0 == var);
        assert forall|i: int| 0 <= i < r.len() implies t.dom().contains((#[trigger] r[i]).0)
            && r[i].1.denotes(bounds, t[r[i].0]) by {
            if i != k {
                assert(r[i] == env[i]);
                assert(env[i].0 != var);
            }
        }
    } else {
        assert forall|i: int| 0 <= i < r.len() implies t.dom().contains((#[trigger] r[i]).0)
            && r[i].1.denotes(bounds, t[r[i].0]) by {
            assert(has_key(env, env[i].0));
        }
    }
}

/// Whether every cell holds an interval that denotes the value of its
/// variable.
pub open spec fn cells_describe(cells: Entries<Interval>, s: Valuation, bounds: DomainBounds) -> bool {
    forall|i: int|
        0 <= i < cells.len() ==> s.dom().contains((#[trigger] cells[i]).0) && cells[i].1.denotes(
            bounds,
            s[cells[i].0],
        )
}

/// Whether the tree is the tree of the expression, over cells with the
/// names `names`: an operation for an operation, with the same operator, a
/// leaf on the cell of the variable for a variable, and a constant leaf with
/// the abstraction of the literal for a literal.
pub open spec fn mirrors(
    node: Node<Interval>,
    exp: ArithmeticExp,
    names: Seq<Seq<char>>,
    bounds: DomainBounds,
) -> bool
    decreases node,
{
    match node {
        Node::Internal { value, operator, left, right } => {
            &&& exp matches ArithmeticExp::BinaryOperation { lhs, operator: op, rhs }
            &&& op == operator
            &&& mirrors(*left, *lhs, names, bounds)
            &&& mirrors(*right, *rhs, names, bounds)
        },
        Node::VarLeaf { slot } => {
            &&& exp matches ArithmeticExp::Variable(v)
            &&& slot < names.len()
            &&& names[slot as int] == v@
        },
        Node::ConstantLeaf { value } => {
            &&& exp matches ArithmeticExp::Integer(c)
            &&& value == Interval::spec_constant(c, bounds)
        },
    }
}

/// Whether the values stored at the operations of the tree denote the
/// values of their expressions.
pub open spec fn stored_values_denote(
    node: Node<Interval>,
    exp: ArithmeticExp,
    s: Valuation,
    bounds: DomainBounds,
) -> bool
    decreases node,
{
    match (node, exp) {
        (
            Node::Internal { value: stored, operator, left, right },
            ArithmeticExp::BinaryOperation { lhs, operator: op, rhs },
        ) => {
            &&& value(exp, s) is Some
            &&& stored.denotes(bounds, value(exp, s)->0)
            &&& stored_values_denote(*left, *lhs, s, bounds)
            &&& stored_values_denote(*right, *rhs, s, bounds)
        },
        _ => true,
    }
}

/// A tree over some cells is a tree over more cells.
pub proof fn lemma_mirrors_more(
    node: Node<Interval>,
    exp: ArithmeticExp,
    names: Seq<Seq<char>>,
    more: Seq<Seq<char>>,
    bounds: DomainBounds,
)
    requires
        mirrors(node, exp, names, bounds),
        names.len() <= more.len(),
        forall|i: int| 0 <= i < names.len() ==> names[i] == more[i],
    ensures
        mirrors(node, exp, more, bounds),
    decreases node,
{
    match node {
        Node::Internal { value, operator, left, right } => {
            if let ArithmeticExp::BinaryOperation { lhs, operator: op, rhs } = exp {
                lemma_mirrors_more(*left, *lhs, names, more, bounds);
                lemma_mirrors_more(*right, *rhs, names, more, bounds);
            }
        },
        _ => {},
    }
}

/// Building a tree adds cells and takes none away.
pub proof fn lemma_build_grows(
    exp: ArithmeticExp,
    env: Entries<Interval>,
    cells: Entries<Interval>,
    bounds: DomainBounds,
)
    ensures
        cells.len() <= Node::<Interval>::spec_build(exp, env, cells, bounds).1.len(),
    decreases exp,
{
    match exp {
        ArithmeticExp::BinaryOperation { lhs, operator, rhs } => {
            lemma_build_grows(*lhs, env, cells, bounds);
            let (left, cells1) = Node::<Interval>::spec_build(*lhs, env, cells, bounds);
            lemma_build_grows(*rhs, env, cells1, bounds);
        },
        _ => {},
    }
}

/// Building the tree of an expression gives a tree of the expression. The
/// cells that were there stay as they are, and the new ones hold the values
/// that the variables have in the state.
pub proof fn lemma_build(
    exp: ArithmeticExp,
    env: Entries<Interval>,
    cells: Entries<Interval>,
    bounds: DomainBounds,
)
    requires
        distinct_keys(cells),
        covers(env, exp.variables()),
        forall|i: int|
            0 <= i < cells.len() ==> has_key(env, (#[trigger] cells[i]).0) && cells[i].1
                == value_of(env, cells[i].0),
        Node::<Interval>::spec_build(exp, env, cells, bounds).1.len() <= usize::MAX,
    ensures
        ({
            let (tree, after) = Node::<Interval>::spec_build(exp, env, cells, bounds);
            &&& mirrors(tree, exp, keys_of(after), bounds)
            &&& tree.slots_below(after.len() as int)
            &&& distinct_keys(after)
            &&& cells.len() <= after.len()
            &&& forall|i: int| 0 <= i < cells.len() ==> after[i] == cells[i]
            &&& forall|i: int|
                0 <= i < after.len() ==> has_key(env, (#[trigger] after[i]).0) && after[i].1
                    == value_of(env, after[i].0)
        }),
    decreases exp,
{
    let (tree, after) = Node::<Interval>::spec_build(exp, env, cells, bounds);
    match exp {
        ArithmeticExp::Integer(c) => {},
        ArithmeticExp::Variable(var) => {
            assert(exp.variables().contains(var@));
            if has_key(cells, var@) {
                let k = index_of(cells, var@);
                assert(cells[k].0 == var@);
                assert(keys_of(cells)[k] == var@);
            } else {
                assert(after[cells.len() as int].0 == var@);
                assert(keys_of(after)[cells.len() as int] == var@);
                assert forall|i: int, j: int|
                    0 <= i < after.len() && 0 <= j < after.len() && (#[trigger] after[i]).0 == (
                    #[trigger] after[j]).0 implies i == j by {
                    if i < cells.len() {
                        assert(after[i] == cells[i]);
                    }
                    if j < cells.len() {
                        assert(after[j] == cells[j]);
                    }
                }
            }
        },
        ArithmeticExp::BinaryOperation { lhs, operator, rhs } => {
            assert forall|v: Seq<char>| lhs.variables().contains(v) implies has_key(env, v) by {
                assert(exp.variables().contains(v));
            }
            assert forall|v: Seq<char>| rhs.variables().contains(v) implies has_key(env, v) by {
                assert(exp.variables().contains(v));
            }
            let (left, cells1) = Node::<Interval>::spec_build(*lhs, env, cells, bounds);
            lemma_build_grows(*rhs, env, cells1, bounds);
            lemma_build(*lhs, env, cells, bounds);
            lemma_build(*rhs, env, cells1, bounds);
            let (right, cells2) = Node::<Interval>::spec_build(*rhs, env, cells1, bounds);
            assert forall|i: int| 0 <= i < keys_of(cells1).len() implies keys_of(cells1)[i]
                == keys_of(cells2)[i] by {
                assert(cells2[i] == cells1[i]);
            }
            lemma_mirrors_more(left, *lhs, keys_of(cells1), keys_of(cells2), bounds);
            crate::propagation_algo::node::lemma_slots_below_more(
                left,
                cells1.len() as int,
                cells2.len() as int,
            );
            assert forall|i: int| 0 <= i < cells.len() implies after[i] == cells[i] by {
                assert(cells1[i] == cells[i]);
                assert(cells2[i] == cells1[i]);
            }
        },
    }
}

/// The value at the root of a tree whose cells and stored values denote
/// denotes the value of the expression.
pub proof fn lemma_root_value(
    node: Node<Interval>,
    exp: ArithmeticExp,
    cells: Entries<Interval>,
    s: Valuation,
    bounds: DomainBounds,
)
    requires
        mirrors(node, exp, keys_of(cells), bounds),
        cells_describe(cells, s, bounds),
        stored_values_denote(node, exp, s, bounds),
        value(exp, s) is Some,
    ensures
        node.spec_get_value(cells).denotes(bounds, value(exp, s)->0),
{
    match node {
        Node::VarLeaf { slot } => {
            assert(keys_of(cells)[slot as int] == cells[slot as int].0);
        },
        Node::ConstantLeaf { value } => {
            if let ArithmeticExp::Integer(c) = exp {
                lemma_constant_sound(c, bounds);
            }
        },
        _ => {},
    }
}

/// The forward pass is sound: over cells that denote the values of the
/// variables, it stores at every operation a value that denotes the value of
/// the operation's expression.
pub proof fn lemma_forward_pass(
    node: Node<Interval>,
    exp: ArithmeticExp,
    cells: Entries<Interval>,
    s: Valuation,
    bounds: DomainBounds,
)
    requires
        mirrors(node, exp, keys_of(cells), bounds),
        cells_describe(cells, s, bounds),
        value(exp, s) is Some,
    ensures
        mirrors(node.spec_forward(cells, bounds), exp, keys_of(cells), bounds),
        stored_values_denote(node.spec_forward(cells, bounds), exp, s, bounds),
        node.spec_forward(cells, bounds).spec_get_value(cells).denotes(bounds, value(exp, s)->0),
    decreases node,
{
    match node {
        Node::Internal { value: stored, operator, left, right } => {
            if let ArithmeticExp::BinaryOperation { lhs, operator: op, rhs } = exp {
                lemma_forward_pass(*left, *lhs, cells, s, bounds);
                lemma_forward_pass(*right, *rhs, cells, s, bounds);
                let l = left.spec_forward(cells, bounds);
                let r = right.spec_forward(cells, bounds);
                lemma_forward_sound(
                    operator,
                    l.spec_get_value(cells),
                    r.spec_get_value(cells),
                    bounds,
                    value(*lhs, s)->0,
                    value(*rhs, s)->0,
                );
            }
        },
        _ => {
            lemma_root_value(node, exp, cells, s, bounds);
        },
    }
}

/// Whether the backward operators lose nothing on the expression under the
/// valuation: every subexpression has a value, no factor of a product is
/// zero and no dividend is zero.
pub open spec fn tame(exp: ArithmeticExp, s: Valuation) -> bool
    decreases exp,
{
    match exp {
        ArithmeticExp::BinaryOperation { lhs, operator, rhs } => {
            &&& tame(*lhs, s)
            &&& tame(*rhs, s)
            &&& value(exp, s) is Some
            &&& operator == Operator::Mul ==> value(*lhs, s) != Some(0int) && value(*rhs, s)
                != Some(0int)
            &&& operator == Operator::Div ==> value(*lhs, s) != Some(0int)
        },
        _ => value(exp, s) is Some,
    }
}

/// Whether the backward operator keeps the left operand `l` beside the
/// right operand `r`: always for `+`, `-` and `/`; for `*` where `r` is not
/// zero, or where the known result is above the forward result and the value
/// of the right operand is not the constant zero.
pub open spec fn keeps_left(
    lhs: Interval,
    rhs: Interval,
    result: Interval,
    operator: Operator,
    bounds: DomainBounds,
    r: int,
) -> bool {
    operator == Operator::Mul ==> r != 0 || (forward(operator, lhs, rhs, bounds).spec_le(
        result,
        bounds,
    ) && !is_zero(rhs, bounds))
}

/// Whether the backward operator keeps the right operand beside the left
/// operand `l`: always for `+` and `-`; for `*` and `/` where `l` is not
/// zero, or where the known result is above the forward result and the value
/// of the left operand is not the constant zero.
pub open spec fn keeps_right(
    lhs: Interval,
    rhs: Interval,
    result: Interval,
    operator: Operator,
    bounds: DomainBounds,
    l: int,
) -> bool {
    operator == Operator::Mul || operator == Operator::Div ==> l != 0 || (forward(
        operator,
        lhs,
        rhs,
        bounds,
    ).spec_le(result, bounds) && !is_zero(lhs, bounds))
}

/// The backward operators are sound: where the known result denotes the
/// result of the operation on two denoted operands, the refined operands
/// still denote them. The one exception is a product or a dividend of zero:
/// there the partner is kept only if the known result is above the forward
/// result and the operand that is zero has a value that is not the constant
/// zero.
pub proof fn lemma_backward_sound(
    lhs: Interval,
    rhs: Interval,
    result: Interval,
    operator: Operator,
    bounds: DomainBounds,
    l: int,
    r: int,
)
    requires
        lhs.denotes(bounds, l),
        rhs.denotes(bounds, r),
        operate(operator, l, r) is Some,
        result.denotes(bounds, operate(operator, l, r)->0),
    ensures
        keeps_left(lhs, rhs, result, operator, bounds, r) ==> backward::<Interval>(
            lhs,
            rhs,
            result,
            operator,
            bounds,
        ).0.denotes(bounds, l),
        keeps_right(lhs, rhs, result, operator, bounds, l) ==> backward::<Interval>(
            lhs,
            rhs,
            result,
            operator,
            bounds,
        ).1.denotes(bounds, r),
{
    match operator {
        Operator::Add => lemma_backward_add_sound(lhs, rhs, result, bounds, l, r),
        Operator::Sub => lemma_backward_sub_sound(lhs, rhs, result, bounds, l, r),
        Operator::Mul => lemma_backward_mul_sound(lhs, rhs, result, bounds, l, r),
        Operator::Div => lemma_backward_div_sound(lhs, rhs, result, bounds, l, r),
    }
}

/// A value that denotes an integer is not bottom.
pub proof fn lemma_denoting_is_not_bottom(v: Interval, bounds: DomainBounds, z: int)
    requires
        v.denotes(bounds, z),
    ensures
        !v.spec_eq(Interval::spec_bottom(), bounds),
{
}

/// The backward pass is sound on a tame expression: where the refinement
/// denotes the value of the expression, the pass finds the refinement
/// satisfiable and leaves cells that still denote the values of the
/// variables.
pub proof fn lemma_backward_pass(
    node: Node<Interval>,
    exp: ArithmeticExp,
    refinement: Interval,
    cells: Entries<Interval>,
    s: Valuation,
    bounds: DomainBounds,
)
    requires
        mirrors(node, exp, keys_of(cells), bounds),
        node.slots_below(cells.len() as int),
        cells_describe(cells, s, bounds),
        stored_values_denote(node, exp, s, bounds),
        tame(exp, s),
        refinement.denotes(bounds, value(exp, s)->0),
    ensures
        ({
            let (after, cells2, satisfiable) = node.spec_backward(refinement, cells, bounds);
            &&& satisfiable
            &&& cells_describe(cells2, s, bounds)
            &&& keys_of(cells2) == keys_of(cells)
            &&& cells2.len() == cells.len()
            &&& mirrors(after, exp, keys_of(cells), bounds)
            &&& after.slots_below(cells.len() as int)
        }),
    decreases node,
{
    let z = value(exp, s)->0;
    lemma_passes_keep_slots(node, refinement, cells, bounds, cells.len() as int);
    match node {
        Node::Internal { value: stored, operator, left, right } => {
            if let ArithmeticExp::BinaryOperation { lhs, operator: op, rhs } = exp {
                let (l, r) = (value(*lhs, s)->0, value(*rhs, s)->0);
                lemma_root_value(*left, *lhs, cells, s, bounds);
                lemma_root_value(*right, *rhs, cells, s, bounds);
                let (lv, rv) = (left.spec_get_value(cells), right.spec_get_value(cells));
                lemma_backward_sound(lv, rv, refinement, operator, bounds, l, r);
                let refs = backward::<Interval>(lv, rv, refinement, operator, bounds);
                lemma_backward_pass(*left, *lhs, refs.0, cells, s, bounds);
                let (l2, cells1, ok1) = left.spec_backward(refs.0, cells, bounds);
                lemma_backward_pass(*right, *rhs, refs.1, cells1, s, bounds);
            }
        },
        Node::ConstantLeaf { value: constant } => {
            if let ArithmeticExp::Integer(c) = exp {
                lemma_constant_sound(c, bounds);
                lemma_glb_sound(refinement, constant, bounds, z);
                lemma_denoting_is_not_bottom(refinement.spec_glb(constant, bounds), bounds, z);
            }
        },
        Node::VarLeaf { slot } => {
            let i = slot as int;
            assert(keys_of(cells)[i] == cells[i].0);
            let n = refinement.spec_glb(cells[i].1, bounds);
            lemma_glb_sound(refinement, cells[i].1, bounds, z);
            lemma_denoting_is_not_bottom(n, bounds, z);
            let cells2 = cells.update(i, (cells[i].0, n));
            assert forall|k: int| 0 <= k < cells2.len() implies s.dom().contains(
                (#[trigger] cells2[k]).0,
            ) && cells2[k].1.denotes(bounds, s[cells2[k].0]) by {
                if k != i {
                    assert(cells2[k] == cells[k]);
                }
            }
        },
    }
}

/// The slice of a condition that holds of `z` denotes `z`, where the root
/// value does.
pub proof fn lemma_slice_sound(
    operator: ConditionOperator,
    root: Interval,
    bounds: DomainBounds,
    z: int,
)
    requires
        operator.holds(z),
        root.denotes(bounds, z),
    ensures
        root.spec_glb(slice(operator, root, bounds), bounds).denotes(bounds, z),
{
    let below = Interval::spec_interval(IntervalBound::NegInf, IntervalBound::Num(-1i64), bounds);
    let from_zero = Interval::spec_interval(IntervalBound::Num(0), IntervalBound::PosInf, bounds);
    let above = Interval::spec_interval(IntervalBound::Num(1), IntervalBound::PosInf, bounds);
    match operator {
        ConditionOperator::Equal => {
            lemma_constant_sound(0, bounds);
        },
        ConditionOperator::NotEqual => {
            if z < 0 {
                lemma_denoted_after_normal(
                    Range { lo: ExtInt::NegInf, hi: ExtInt::Fin(-1) },
                    bounds,
                    z,
                );
                lemma_glb_sound(below, root, bounds, z);
            } else {
                lemma_denoted_after_normal(
                    Range { lo: ExtInt::Fin(1), hi: ExtInt::PosInf },
                    bounds,
                    z,
                );
                lemma_glb_sound(above, root, bounds, z);
            }
            lemma_lub_sound(below.spec_glb(root, bounds), above.spec_glb(root, bounds), bounds, z);
        },
        ConditionOperator::StrictlyLess => {
            lemma_denoted_after_normal(Range { lo: ExtInt::NegInf, hi: ExtInt::Fin(-1) }, bounds, z);
        },
        ConditionOperator::GreaterOrEqual => {
            lemma_denoted_after_normal(Range { lo: ExtInt::Fin(0), hi: ExtInt::PosInf }, bounds, z);
        },
    }
    lemma_glb_sound(root, slice(operator, root, bounds), bounds, z);
}

/// The rounds of forward and backward passes are sound: for a condition
/// that holds, on a tame expression, they find the condition satisfiable and
/// leave cells that denote the values of the variables.
pub proof fn lemma_iterate_sound(
    tree: Node<Interval>,
    exp: ArithmeticExp,
    cells: Entries<Interval>,
    operator: ConditionOperator,
    s: Valuation,
    bounds: DomainBounds,
    fuel: nat,
)
    requires
        mirrors(tree, exp, keys_of(cells), bounds),
        tree.slots_below(cells.len() as int),
        cells_describe(cells, s, bounds),
        tame(exp, s),
        operator.holds(value(exp, s)->0),
    ensures
        iterate(tree, cells, operator, bounds, fuel).1,
        cells_describe(iterate(tree, cells, operator, bounds, fuel).0, s, bounds),
        keys_of(iterate(tree, cells, operator, bounds, fuel).0) == keys_of(cells),
    decreases fuel,
{
    if fuel > 0 {
        let z = value(exp, s)->0;
        lemma_forward_pass(tree, exp, cells, s, bounds);
        lemma_passes_keep_slots(tree, Interval::spec_top(), cells, bounds, cells.len() as int);
        let forwarded = tree.spec_forward(cells, bounds);
        let root = forwarded.spec_get_value(cells);
        lemma_slice_sound(operator, root, bounds, z);
        let target = root.spec_glb(slice(operator, root, bounds), bounds);
        lemma_backward_pass(forwarded, exp, target, cells, s, bounds);
        let (after, cells2, satisfiable) = forwarded.spec_backward(target, cells, bounds);
        if !cells_equal(cells, cells2, bounds) {
            lemma_iterate_sound(after, exp, cells2, operator, s, bounds, (fuel - 1) as nat);
        }
    }
}

/// Building a tree keeps the cells that were there, and makes cells of
/// distinct names, each with the value that its variable has in the state.
pub proof fn lemma_build_cells(
    exp: ArithmeticExp,
    env: Entries<Interval>,
    cells: Entries<Interval>,
    bounds: DomainBounds,
)
    requires
        distinct_keys(cells),
        covers(env, exp.variables()),
        forall|i: int|
            0 <= i < cells.len() ==> has_key(env, (#[trigger] cells[i]).0) && cells[i].1
                == value_of(env, cells[i].0),
    ensures
        ({
            let after = Node::<Interval>::spec_build(exp, env, cells, bounds).1;
            &&& distinct_keys(after)
            &&& cells.len() <= after.len()
            &&& forall|i: int| 0 <= i < cells.len() ==> after[i] == cells[i]
            &&& forall|i: int|
                0 <= i < after.len() ==> has_key(env, (#[trigger] after[i]).0) && after[i].1
                    == value_of(env, after[i].0)
        }),
    decreases exp,
{
    let after = Node::<Interval>::spec_build(exp, env, cells, bounds).1;
    match exp {
        ArithmeticExp::Integer(c) => {},
        ArithmeticExp::Variable(var) => {
            assert(exp.variables().contains(var@));
            if !has_key(cells, var@) {
                assert forall|i: int, j: int|
                    0 <= i < after.len() && 0 <= j < after.len() && (#[trigger] after[i]).0 == (
                    #[trigger] after[j]).0 implies i == j by {
                    if i < cells.len() {
                        assert(after[i] == cells[i]);
                    }
                    if j < cells.len() {
                        assert(after[j] == cells[j]);
                    }
                }
            }
        },
        ArithmeticExp::BinaryOperation { lhs, operator, rhs } => {
            assert forall|v: Seq<char>| lhs.variables().contains(v) implies has_key(env, v) by {
                assert(exp.variables().contains(v));
            }
            assert forall|v: Seq<char>| rhs.variables().contains(v) implies has_key(env, v) by {
                assert(exp.variables().contains(v));
            }
            lemma_build_cells(*lhs, env, cells, bounds);
            let cells1 = Node::<Interval>::spec_build(*lhs, env, cells, bounds).1;
            lemma_build_cells(*rhs, env, cells1, bounds);
            let cells2 = Node::<Interval>::spec_build(*rhs, env, cells1, bounds).1;
            assert forall|i: int| 0 <= i < cells.len() implies after[i] == cells[i] by {
                assert(cells1[i] == cells[i]);
                assert(cells2[i] == cells1[i]);
            }
        },
    }
}

/// Cells of distinct names that are names of the state are no more than the
/// variables of the state.
pub proof fn lemma_cells_fit(cells: Entries<Interval>, env: Entries<Interval>)
    requires
        distinct_keys(cells),
        forall|i: int| 0 <= i < cells.len() ==> has_key(env, (#[trigger] cells[i]).0),
    ensures
        cells.len() <= env.len(),
{
    let a = keys_of(cells);
    let b = keys_of(env);
    assert(a.no_duplicates()) by {
        assert forall|i: int, j: int| 0 <= i < a.len() && 0 <= j < a.len() && i != j implies a[i]
            != a[j] by {
            assert(cells[i].0 == a[i] && cells[j].0 == a[j]);
        }
    }
    a.unique_seq_to_set();
    b.lemma_cardinality_of_set();
    vstd::seq_lib::seq_to_set_is_finite(b);
    assert(a.to_set().subset_of(b.to_set())) by {
        assert forall|k: Seq<char>| a.to_set().contains(k) implies b.to_set().contains(k) by {
            let i = choose|i: int| 0 <= i < a.len() && a[i] == k;
            assert(has_key(env, cells[i].0));
            let j = choose|j: int| 0 <= j < env.len() && (#[trigger] env[j]).0 == cells[i].0;
            assert(b[j] == k);
        }
    }
    vstd::set_lib::lemma_len_subset(a.to_set(), b.to_set());
}

/// Writing back cells that denote the values of the variables gives a state
/// that describes the valuation.
pub proof fn lemma_written_back_sound(
    env: Entries<Interval>,
    cells: Entries<Interval>,
    s: Valuation,
    bounds: DomainBounds,
)
    requires
        distinct_keys(env),
        describes(env, s, bounds),
        cells_describe(cells, s, bounds),
    ensures
        describes(written_back(env, cells, bounds), s, bounds),
        keys_of(written_back(env, cells, bounds)) == keys_of(env),
    decreases cells.len(),
{
    if cells.len() > 0 {
        let rest = written_back(env, cells.drop_last(), bounds);
        let (name, v) = cells.last();
        assert forall|i: int| 0 <= i < cells.drop_last().len() implies s.dom().contains(
            (#[trigger] cells.drop_last()[i]).0,
        ) && cells.drop_last()[i].1.denotes(bounds, s[cells.drop_last()[i].0]) by {
            assert(cells.drop_last()[i] == cells[i]);
        }
        lemma_written_back_sound(env, cells.drop_last(), s, bounds);
        lemma_same_keys(rest, env);
        assert(cells[cells.len() - 1] == cells.last());
        lemma_update_sound(rest, s, bounds, name, v, s[name]);
        assert(s.insert(name, s[name]) =~= s);
        lemma_updated_shape(rest, name, v, bounds);
    }
}

/// The refinement by a condition is sound: a state that describes a
/// valuation of which the condition holds is refined to a state that still
/// describes the valuation, where the expression of the condition is tame.
pub proof fn lemma_refined_sound(
    condition: ArithmeticCondition,
    env: Entries<Interval>,
    s: Valuation,
    bounds: DomainBounds,
    limit: nat,
)
    requires
        distinct_keys(env),
        env.len() <= usize::MAX,
        describes(env, s, bounds),
        covers(env, condition.lhs.variables()),
        tame(*condition.lhs, s),
        condition.operator.holds(value(*condition.lhs, s)->0),
    ensures
        describes(refined(condition, env, bounds, limit), s, bounds),
        keys_of(refined(condition, env, bounds, limit)) == keys_of(env),
{
    let exp = *condition.lhs;
    let none = Seq::<(Seq<char>, Interval)>::empty();
    lemma_build_cells(exp, env, none, bounds);
    let (tree, cells) = Node::<Interval>::spec_build(exp, env, none, bounds);
    lemma_cells_fit(cells, env);
    lemma_build(exp, env, none, bounds);
    assert forall|i: int| 0 <= i < cells.len() implies s.dom().contains((#[trigger] cells[i]).0)
        && cells[i].1.denotes(bounds, s[cells[i].0]) by {
        let k = index_of(env, cells[i].0);
        assert(env[k].0 == cells[i].0);
    }
    lemma_iterate_sound(tree, exp, cells, condition.operator, s, bounds, limit);
    let (cells2, satisfiable) = iterate(tree, cells, condition.operator, bounds, limit);
    lemma_written_back_sound(env, cells2, s, bounds);
}

} // verus!
