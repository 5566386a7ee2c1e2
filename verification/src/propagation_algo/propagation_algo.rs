//! Local iterations: the refinement of a state by one arithmetic condition.

use vstd::prelude::*;
use crate::abstract_domains::abstract_domain::{AbstractDomain, IntervalBound};
use crate::parser::ast::{ArithmeticCondition, ArithmeticExp, ConditionOperator};
use crate::propagation_algo::node::{cells_equal, Node, VarLeafs};
use crate::state::{has_key, lemma_updated_shape, same_shape, updated, Entries, State};

verus! {

/// The values that the condition `e operator 0` leaves to `e`, given the
/// value `root` computed for `e`:
///
/// - `=`: `<0, 0>`;
/// - `!=`: the join of what `root` has below zero and what it has above;
/// - `<`: `<-inf, -1>`;
/// - `>=`: `<0, +inf>`.
pub open spec fn slice<D: AbstractDomain>(operator: ConditionOperator, root: D, bounds: D::Bounds) -> D {
    let below = D::spec_interval(IntervalBound::NegInf, IntervalBound::Num(-1i64), bounds);
    let from_zero = D::spec_interval(IntervalBound::Num(0), IntervalBound::PosInf, bounds);
    let above = D::spec_interval(IntervalBound::Num(1), IntervalBound::PosInf, bounds);
    match operator {
        ConditionOperator::Equal => D::spec_constant(0, bounds),
        ConditionOperator::NotEqual => below.spec_glb(root, bounds).spec_lub(
            above.spec_glb(root, bounds),
            bounds,
        ),
        ConditionOperator::StrictlyLess => below,
        ConditionOperator::GreaterOrEqual => from_zero,
    }
}

/// The cells after at most `fuel` rounds of a forward pass, the meet of the
/// root with the slice of the condition and a backward pass, and whether the
/// condition is satisfiable. The rounds end when one is unsatisfiable or
/// leaves every cell equal to what it was.
pub open spec fn iterate<D: AbstractDomain>(
    tree: Node<D>,
    cells: Entries<D>,
    operator: ConditionOperator,
    bounds: D::Bounds,
    fuel: nat,
) -> (Entries<D>, bool)
    decreases fuel,
{
    if fuel == 0 {
        (cells, true)
    } else {
        let forwarded = tree.spec_forward(cells, bounds);
        let root = forwarded.spec_get_value(cells);
        let target = root.spec_glb(slice(operator, root, bounds), bounds);
        let (refined, cells2, satisfiable) = forwarded.spec_backward(target, cells, bounds);
        if !satisfiable {
            (cells2, false)
        } else if cells_equal(cells, cells2, bounds) {
            (cells2, true)
        } else {
            iterate(refined, cells2, operator, bounds, (fuel - 1) as nat)
        }
    }
}

/// The state after the value of every cell was assigned to its variable, in
/// the order of the cells.
pub open spec fn written_back<D: AbstractDomain>(
    env: Entries<D>,
    cells: Entries<D>,
    bounds: D::Bounds,
) -> Entries<D>
    decreases cells.len(),
{
    if cells.len() == 0 {
        env
    } else {
        updated(
            written_back(env, cells.drop_last(), bounds),
            cells.last().0,
            cells.last().1,
            bounds,
        )
    }
}

/// The refinement of the state `env` by the condition: bottom if the
/// condition is found unsatisfiable, else `env` with the refined values of
/// the variables of the condition.
pub open spec fn refined<D: AbstractDomain>(
    condition: ArithmeticCondition,
    env: Entries<D>,
    bounds: D::Bounds,
    limit: nat,
) -> Entries<D> {
    let (tree, cells) = Node::<D>::spec_build(*condition.lhs, env, Seq::empty(), bounds);
    let (cells2, satisfiable) = iterate(tree, cells, condition.operator, bounds, limit);
    if satisfiable {
        written_back(env, cells2, bounds)
    } else {
        Seq::empty()
    }
}

/// Writing values back leaves the names as they are, or gives bottom.
pub proof fn lemma_written_back_shape<D: AbstractDomain>(
    env: Entries<D>,
    cells: Entries<D>,
    bounds: D::Bounds,
)
    ensures
        same_shape(written_back(env, cells, bounds), env),
    decreases cells.len(),
{
    if cells.len() > 0 {
        let rest = written_back(env, cells.drop_last(), bounds);
        lemma_written_back_shape(env, cells.drop_last(), bounds);
        lemma_updated_shape(rest, cells.last().0, cells.last().1, bounds);
    }
}

/// A refined state is bottom or has the names of the state it was made from.
pub proof fn lemma_refined_shape<D: AbstractDomain>(
    condition: ArithmeticCondition,
    env: Entries<D>,
    bounds: D::Bounds,
    limit: nat,
)
    ensures
        same_shape(refined(condition, env, bounds, limit), env),
{
    let (tree, cells) = Node::<D>::spec_build(*condition.lhs, env, Seq::empty(), bounds);
    let (cells2, satisfiable) = iterate(tree, cells, condition.operator, bounds, limit);
    lemma_written_back_shape(env, cells2, bounds);
}

/// The tree of one condition over a state, ready to be refined.
pub struct PropagationAlgorithm<'a, D: AbstractDomain> {
    tree: Node<D>,
    state: &'a State<D>,
    var_leafs: VarLeafs<D>,
    cond: ConditionOperator,
    bounds: &'a D::Bounds,
    exp: Ghost<ArithmeticExp>,
}

impl<'a, D: AbstractDomain> PropagationAlgorithm<'a, D> {
    #[verifier::type_invariant]
    spec fn well_formed(&self) -> bool {
        &&& (self.tree, self.var_leafs@) == Node::<D>::spec_build(
            self.exp@,
            self.state@,
            Seq::empty(),
            *self.bounds,
        )
        &&& self.tree.slots_below(self.var_leafs@.len() as int)
    }

    /// The condition that the tree was built for.
    pub closed spec fn condition(&self) -> ArithmeticCondition {
        ArithmeticCondition { lhs: Box::new(self.exp@), operator: self.cond }
    }

    /// The state that the tree was built over.
    pub closed spec fn input(&self) -> Entries<D> {
        self.state@
    }

    /// The configuration of the domain that the tree was built under.
    pub closed spec fn configuration(&self) -> D::Bounds {
        *self.bounds
    }

    /// Builds the tree of the condition `exp` over `state`.
    pub fn build(exp: &ArithmeticCondition, state: &'a State<D>, bounds: &'a D::Bounds) -> (r: Self)
        requires
            forall|v: Seq<char>| exp.lhs.variables().contains(v) ==> has_key(state@, v),
        ensures
            r.condition() == *exp,
            r.input() == state@,
            r.configuration() == *bounds,
    {
        let mut var_leafs = VarLeafs::new();
        assert(var_leafs@ == Seq::<(Seq<char>, D)>::empty());
        let tree = Node::build(&*exp.lhs, state, &mut var_leafs, bounds);
        PropagationAlgorithm {
            tree,
            state,
            var_leafs,
            cond: exp.operator,
            bounds,
            exp: Ghost(*exp.lhs),
        }
    }

    /// The slice of the condition for the root value `root`.
    fn slice_of(operator: ConditionOperator, root: D, bounds: &D::Bounds) -> (r: D)
        ensures
            r == slice(operator, root, *bounds),
    {
        match operator {
            ConditionOperator::Equal => D::constant_abstraction(0, bounds),
            ConditionOperator::NotEqual => {
                let below = D::interval_abstraction(
                    IntervalBound::NegInf,
                    IntervalBound::Num(-1),
                    bounds,
                );
                let above = D::interval_abstraction(
                    IntervalBound::Num(1),
                    IntervalBound::PosInf,
                    bounds,
                );
                below.glb(&root, bounds).lub(&above.glb(&root, bounds), bounds)
            },
            ConditionOperator::StrictlyLess => D::interval_abstraction(
                IntervalBound::NegInf,
                IntervalBound::Num(-1),
                bounds,
            ),
            ConditionOperator::GreaterOrEqual => D::interval_abstraction(
                IntervalBound::Num(0),
                IntervalBound::PosInf,
                bounds,
            ),
        }
    }

    /// Refines the state by the condition, in at most `limit` rounds.
    pub fn local_iterations(self, limit: usize) -> (r: State<D>)
        ensures
            r@ == refined(self.condition(), self.input(), self.configuration(), limit as nat),
            same_shape(r@, self.input()),
    {
        proof {
            lemma_refined_shape(
                self.condition(),
                self.input(),
                self.configuration(),
                limit as nat,
            );
        }
        proof {
            use_type_invariant(&self);
        }
        let PropagationAlgorithm { tree, state, var_leafs, cond, bounds, exp } = self;
        let mut tree = tree;
        let mut var_leafs = var_leafs;
        let ghost tree0 = tree;
        let ghost cells0 = var_leafs@;
        let mut fixpoint = false;
        let mut satisfiable = true;
        let mut steps: usize = 0;
        while satisfiable && !fixpoint && steps < limit
            invariant
                steps <= limit,
                tree.slots_below(var_leafs@.len() as int),
                iterate(tree0, cells0, cond, *bounds, limit as nat) == if !satisfiable {
                    (var_leafs@, false)
                } else if fixpoint {
                    (var_leafs@, true)
                } else {
                    iterate(tree, var_leafs@, cond, *bounds, (limit - steps) as nat)
                },
            decreases limit - steps,
        {
            tree.forward_analysis(&var_leafs, bounds);
            let prev = var_leafs.clone();
            let root = tree.get_value(&var_leafs);
            let target = root.glb(&Self::slice_of(cond, root, bounds), bounds);
            satisfiable = tree.backward_analysis(target, &mut var_leafs, bounds);
            fixpoint = prev.same_values(&var_leafs, bounds);
            steps += 1;
        }
        if !satisfiable {
            return State::bottom();
        }
        let mut result = state.clone();
        let mut i: usize = 0;
        let n = var_leafs.len();
        while i < n
            invariant
                i <= n,
                n == var_leafs@.len(),
                result@ == written_back(state@, var_leafs@.take(i as int), *bounds),
            decreases n - i,
        {
            let ghost prefix = var_leafs@.take(i + 1);
            assert(prefix.drop_last() == var_leafs@.take(i as int));
            assert(prefix.last() == var_leafs@[i as int]);
            result.update(var_leafs.name(i).as_str(), var_leafs.value(i), bounds);
            i += 1;
        }
        assert(var_leafs@.take(i as int) == var_leafs@);
        result
    }
}

} // verus!
