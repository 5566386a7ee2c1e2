//! The tree of an arithmetic expression, with a value at every node. The
//! values of the variables live in cells outside the tree, one cell for each
//! variable, shared by all its occurrences.

use vstd::prelude::*;
use vstd::string::StringExecFns;
use crate::abstract_domains::abstract_domain::{backward, backward_arithmetic_operator, AbstractDomain};
use crate::parser::ast::{ArithmeticExp, Operator};
use crate::state::{distinct_keys, has_key, index_of, lemma_index_of, value_of, Entries, State};

verus! {

/// A node of the tree.
pub enum Node<D: AbstractDomain> {
    /// An operation, with the value computed for it.
    Internal { value: D, operator: Operator, left: Box<Node<D>>, right: Box<Node<D>> },
    /// An occurrence of a variable: the index of the variable's cell.
    VarLeaf { slot: usize },
    /// A literal, with its abstraction.
    ConstantLeaf { value: D },
}

/// The forward operator of the domain for `operator`.
pub open spec fn forward<D: AbstractDomain>(operator: Operator, lhs: D, rhs: D, bounds: D::Bounds) -> D {
    match operator {
        Operator::Add => lhs.spec_add(rhs, bounds),
        Operator::Sub => lhs.spec_sub(rhs, bounds),
        Operator::Mul => lhs.spec_mul(rhs, bounds),
        Operator::Div => lhs.spec_div(rhs, bounds),
    }
}

/// Applies the forward operator of the domain for `operator`.
pub fn apply<D: AbstractDomain>(operator: Operator, lhs: D, rhs: D, bounds: &D::Bounds) -> (r: D)
    ensures
        r == forward(operator, lhs, rhs, *bounds),
{
    match operator {
        Operator::Add => lhs.add(rhs, bounds),
        Operator::Sub => lhs.sub(rhs, bounds),
        Operator::Mul => lhs.mul(rhs, bounds),
        Operator::Div => lhs.div(rhs, bounds),
    }
}

/// The cells of the variable leaves: each variable of the condition with its
/// current value.
pub struct VarLeafs<D: AbstractDomain> {
    cells: Vec<(String, D)>,
}

impl<D: AbstractDomain> View for VarLeafs<D> {
    type V = Entries<D>;

    closed spec fn view(&self) -> Entries<D> {
        crate::state::pairs_view(self.cells@)
    }
}

impl<D: AbstractDomain> Clone for VarLeafs<D> {
    fn clone(&self) -> (r: VarLeafs<D>)
        ensures
            r@ == self@,
    {
        proof {
            use_type_invariant(self);
        }
        let mut cells: Vec<(String, D)> = Vec::new();
        let mut i: usize = 0;
        while i < self.cells.len()
            invariant
                i <= self.cells.len(),
                crate::state::pairs_view(cells@) == self@.take(i as int),
                self@ == crate::state::pairs_view(self.cells@),
            decreases self.cells.len() - i,
        {
            let ghost before = crate::state::pairs_view(cells@);
            cells.push((self.cells[i].0.clone(), self.cells[i].1));
            assert(crate::state::pairs_view(cells@) == before.push(self@[i as int]));
            assert(self@.take(i + 1) == self@.take(i as int).push(self@[i as int]));
            i += 1;
        }
        assert(self@.take(i as int) == self@);
        VarLeafs { cells }
    }
}

/// Whether two sequences of cells hold, one by one, equal values.
pub open spec fn cells_equal<D: AbstractDomain>(a: Entries<D>, b: Entries<D>, bounds: D::Bounds) -> bool {
    &&& a.len() == b.len()
    &&& forall|i: int| 0 <= i < a.len() ==> (#[trigger] a[i]).1.spec_eq(b[i].1, bounds)
}

impl<D: AbstractDomain> VarLeafs<D> {
    #[verifier::type_invariant]
    spec fn well_formed(&self) -> bool {
        distinct_keys(self@)
    }

    /// No cells.
    pub fn new() -> (r: VarLeafs<D>)
        ensures
            r@.len() == 0,
    {
        VarLeafs { cells: Vec::new() }
    }

    /// The number of cells.
    pub fn len(&self) -> (r: usize)
        ensures
            r == self@.len(),
            distinct_keys(self@),
    {
        proof {
            use_type_invariant(self);
        }
        self.cells.len()
    }

    /// The name of the variable of the cell `slot`.
    pub fn name(&self, slot: usize) -> (r: &String)
        requires
            slot < self@.len(),
        ensures
            r@ == self@[slot as int].0,
    {
        &self.cells[slot].0
    }

    /// The value in the cell `slot`.
    pub fn value(&self, slot: usize) -> (r: D)
        requires
            slot < self@.len(),
        ensures
            r == self@[slot as int].1,
    {
        self.cells[slot].1
    }

    /// Puts `value` into the cell `slot`.
    pub fn set(&mut self, slot: usize, value: D)
        requires
            slot < old(self)@.len(),
        ensures
            final(self)@ == old(self)@.update(
                slot as int,
                (old(self)@[slot as int].0, value),
            ),
    {
        proof {
            use_type_invariant(&*self);
        }
        let ghost before = self@;
        let mut taken = VarLeafs { cells: Vec::new() };
        core::mem::swap(self, &mut taken);
        let mut cells = taken.cells;
        let name = cells[slot].0.clone();
        cells.set(slot, (name, value));
        let ghost after = crate::state::pairs_view(cells@);
        assert(after == before.update(slot as int, (before[slot as int].0, value)));
        assert forall|i: int, j: int|
            0 <= i < after.len() && 0 <= j < after.len() && (#[trigger] after[i]).0 == (
            #[trigger] after[j]).0 implies i == j by {
            assert(after[i].0 == before[i].0 && after[j].0 == before[j].0);
        }
        *self = VarLeafs { cells };
    }

    /// Whether the cells hold, one by one, values equal to those of `other`.
    pub fn same_values(&self, other: &VarLeafs<D>, bounds: &D::Bounds) -> (r: bool)
        ensures
            r == cells_equal(self@, other@, *bounds),
    {
        if self.cells.len() != other.cells.len() {
            return false;
        }
        let mut i: usize = 0;
        while i < self.cells.len()
            invariant
                i <= self.cells.len(),
                self.cells@.len() == self@.len(),
                self@.len() == other@.len(),
                other.cells@.len() == other@.len(),
                forall|k: int| 0 <= k < i ==> (#[trigger] self@[k]).1.spec_eq(other@[k].1, *bounds),
            decreases self.cells.len() - i,
        {
            if !self.cells[i].1.eq(&other.cells[i].1, bounds) {
                assert(self@[i as int].1 == self.cells@[i as int].1);
                assert(other@[i as int].1 == other.cells@[i as int].1);
                return false;
            }
            i += 1;
        }
        true
    }

    /// The cell of the variable `var`, if there is one.
    pub fn find(&self, var: &String) -> (r: Option<usize>)
        ensures
            match r {
                Some(i) => i < self@.len() && self@[i as int].0 == var@ && has_key(self@, var@)
                    && index_of(self@, var@) == i,
                None => !has_key(self@, var@),
            },
    {
        proof {
            use_type_invariant(self);
        }
        let mut i: usize = 0;
        while i < self.cells.len()
            invariant
                i <= self.cells.len(),
                distinct_keys(self@),
                forall|j: int| 0 <= j < i ==> (#[trigger] self@[j]).0 != var@,
            decreases self.cells.len() - i,
        {
            if self.cells[i].0 == *var {
                proof {
                    lemma_index_of(self@, i as int);
                }
                return Some(i);
            }
            i += 1;
        }
        None
    }

    /// Adds a cell for a variable that has none yet, and gives its index.
    pub fn push(&mut self, var: String, value: D) -> (slot: usize)
        requires
            !has_key(old(self)@, var@),
        ensures
            slot == old(self)@.len(),
            final(self)@ == old(self)@.push((var@, value)),
    {
        proof {
            use_type_invariant(&*self);
        }
        let ghost before = self@;
        let mut taken = VarLeafs { cells: Vec::new() };
        core::mem::swap(self, &mut taken);
        let mut cells = taken.cells;
        let slot = cells.len();
        cells.push((var, value));
        let ghost after = crate::state::pairs_view(cells@);
        assert(after == before.push((var@, value)));
        assert forall|i: int, j: int|
            0 <= i < after.len() && 0 <= j < after.len() && (#[trigger] after[i]).0 == (
            #[trigger] after[j]).0 implies i == j by {
            if i < before.len() {
                assert(after[i] == before[i]);
            }
            if j < before.len() {
                assert(after[j] == before[j]);
            }
        }
        *self = VarLeafs { cells };
        slot
    }
}

/// A tree whose cells are among the first `n` has them among the first `m`
/// for every `m` from `n` on.
pub proof fn lemma_slots_below_more<D: AbstractDomain>(node: Node<D>, n: int, m: int)
    requires
        node.slots_below(n),
        n <= m,
    ensures
        node.slots_below(m),
    decreases node,
{
    match node {
        Node::Internal { value, operator, left, right } => {
            lemma_slots_below_more(*left, n, m);
            lemma_slots_below_more(*right, n, m);
        },
        _ => {},
    }
}

/// A forward pass changes no leaf, and a backward pass changes neither a
/// leaf nor the number or the names of the cells.
pub proof fn lemma_passes_keep_slots<D: AbstractDomain>(
    node: Node<D>,
    refinement: D,
    cells: Entries<D>,
    bounds: D::Bounds,
    n: int,
)
    requires
        node.slots_below(n),
        n <= cells.len(),
    ensures
        node.spec_forward(cells, bounds).slots_below(n),
        node.spec_backward(refinement, cells, bounds).0.slots_below(n),
        node.spec_backward(refinement, cells, bounds).1.len() == cells.len(),
        crate::state::keys_of(node.spec_backward(refinement, cells, bounds).1)
            == crate::state::keys_of(cells),
    decreases node,
{
    match node {
        Node::Internal { value, operator, left, right } => {
            let refs = backward(
                left.spec_get_value(cells),
                right.spec_get_value(cells),
                refinement,
                operator,
                bounds,
            );
            lemma_passes_keep_slots(*left, refs.0, cells, bounds, n);
            lemma_passes_keep_slots(*right, refs.0, cells, bounds, n);
            let (l, cells1, ok1) = left.spec_backward(refs.0, cells, bounds);
            if ok1 {
                lemma_passes_keep_slots(*right, refs.1, cells1, bounds, n);
            }
        },
        Node::VarLeaf { slot } => {
            let r = node.spec_backward(refinement, cells, bounds).1;
            assert(crate::state::keys_of(r) =~= crate::state::keys_of(cells));
        },
        _ => {},
    }
}

impl<D: AbstractDomain> Node<D> {
    /// Whether every variable leaf of the tree has its cell among the
    /// first `n`.
    pub open spec fn slots_below(self, n: int) -> bool
        decreases self,
    {
        match self {
            Node::Internal { value, operator, left, right } => left.slots_below(n)
                && right.slots_below(n),
            Node::VarLeaf { slot } => slot < n,
            Node::ConstantLeaf { value } => true,
        }
    }

    /// The tree of `exp` and the cells after it was built: a literal becomes
    /// a constant leaf, an operation an internal node with the value top, and
    /// a variable a leaf on the cell of that variable, which is made with the
    /// variable's value in `env` where the variable occurs for the first time.
    pub open spec fn spec_build(
        exp: ArithmeticExp,
        env: Entries<D>,
        cells: Entries<D>,
        bounds: D::Bounds,
    ) -> (Node<D>, Entries<D>)
        decreases exp,
    {
        match exp {
            ArithmeticExp::Integer(c) => (
                Node::ConstantLeaf { value: D::spec_constant(c, bounds) },
                cells,
            ),
            ArithmeticExp::Variable(var) => if has_key(cells, var@) {
                (Node::VarLeaf { slot: index_of(cells, var@) as usize }, cells)
            } else {
                (
                    Node::VarLeaf { slot: cells.len() as usize },
                    cells.push((var@, value_of(env, var@))),
                )
            },
            ArithmeticExp::BinaryOperation { lhs, operator, rhs } => {
                let (left, cells1) = Node::<D>::spec_build(*lhs, env, cells, bounds);
                let (right, cells2) = Node::<D>::spec_build(*rhs, env, cells1, bounds);
                (
                    Node::Internal {
                        value: D::spec_top(),
                        operator,
                        left: Box::new(left),
                        right: Box::new(right),
                    },
                    cells2,
                )
            },
        }
    }

    /// The value at the root: the stored one, or the cell's for a variable.
    pub open spec fn spec_get_value(self, cells: Entries<D>) -> D {
        match self {
            Node::Internal { value, operator, left, right } => value,
            Node::VarLeaf { slot } => cells[slot as int].1,
            Node::ConstantLeaf { value } => value,
        }
    }

    /// The tree after a forward pass: every internal node holds the result of
    /// its operator on the values of its children, computed bottom-up.
    pub open spec fn spec_forward(self, cells: Entries<D>, bounds: D::Bounds) -> Node<D>
        decreases self,
    {
        match self {
            Node::Internal { value, operator, left, right } => {
                let l = left.spec_forward(cells, bounds);
                let r = right.spec_forward(cells, bounds);
                Node::Internal {
                    value: forward(
                        operator,
                        l.spec_get_value(cells),
                        r.spec_get_value(cells),
                        bounds,
                    ),
                    operator,
                    left: Box::new(l),
                    right: Box::new(r),
                }
            },
            _ => self,
        }
    }

    /// The tree and the cells after a backward pass with `refinement` for
    /// the root, and whether the refinement is satisfiable.
    ///
    /// An internal node takes the refinement as its value, refines the
    /// values of its children by the backward operator and passes them down,
    /// left child first; the right child is not visited when the left one
    /// is unsatisfiable. A variable leaf meets its cell with the refinement
    /// and keeps the meet unless it is bottom. A constant leaf only checks
    /// that its meet with the refinement is not bottom.
    pub open spec fn spec_backward(
        self,
        refinement: D,
        cells: Entries<D>,
        bounds: D::Bounds,
    ) -> (Node<D>, Entries<D>, bool)
        decreases self,
    {
        match self {
            Node::Internal { value, operator, left, right } => {
                let refs = backward(
                    left.spec_get_value(cells),
                    right.spec_get_value(cells),
                    refinement,
                    operator,
                    bounds,
                );
                let (l, cells1, ok1) = left.spec_backward(refs.0, cells, bounds);
                if ok1 {
                    let (r, cells2, ok2) = right.spec_backward(refs.1, cells1, bounds);
                    (
                        Node::Internal {
                            value: refinement,
                            operator,
                            left: Box::new(l),
                            right: Box::new(r),
                        },
                        cells2,
                        ok2,
                    )
                } else {
                    (
                        Node::Internal { value: refinement, operator, left: Box::new(l), right },
                        cells1,
                        false,
                    )
                }
            },
            Node::ConstantLeaf { value } => (
                self,
                cells,
                !refinement.spec_glb(value, bounds).spec_eq(D::spec_bottom(), bounds),
            ),
            Node::VarLeaf { slot } => {
                let n = refinement.spec_glb(cells[slot as int].1, bounds);
                if n.spec_eq(D::spec_bottom(), bounds) {
                    (self, cells, false)
                } else {
                    (self, cells.update(slot as int, (cells[slot as int].0, n)), true)
                }
            },
        }
    }

    /// Builds the tree of `exp`. The variables that occur in it take their
    /// first values from `state` and their cells in `var_leafs`.
    pub fn build(
        exp: &ArithmeticExp,
        state: &State<D>,
        var_leafs: &mut VarLeafs<D>,
        bounds: &D::Bounds,
    ) -> (r: Node<D>)
        requires
            forall|v: Seq<char>| exp.variables().contains(v) ==> has_key(state@, v),
        ensures
            (r, final(var_leafs)@) == Node::<D>::spec_build(*exp, state@, old(var_leafs)@, *bounds),
            r.slots_below(final(var_leafs)@.len() as int),
            final(var_leafs)@.len() >= old(var_leafs)@.len(),
        decreases *exp,
    {
        match exp {
            ArithmeticExp::Integer(c) => Node::ConstantLeaf {
                value: D::constant_abstraction(*c, bounds),
            },
            ArithmeticExp::Variable(var) => {
                match var_leafs.find(var) {
                    Some(slot) => Node::VarLeaf { slot },
                    None => {
                        assert(exp.variables().contains(var@));
                        let value = *state.lookup(var.as_str());
                        let slot = var_leafs.push(var.clone(), value);
                        Node::VarLeaf { slot }
                    },
                }
            },
            ArithmeticExp::BinaryOperation { lhs, operator, rhs } => {
                assert forall|v: Seq<char>| lhs.variables().contains(v) implies has_key(
                    state@,
                    v,
                ) by {
                    assert(exp.variables().contains(v));
                }
                assert forall|v: Seq<char>| rhs.variables().contains(v) implies has_key(
                    state@,
                    v,
                ) by {
                    assert(exp.variables().contains(v));
                }
                let left = Node::build(lhs, state, var_leafs, bounds);
                let ghost n1 = var_leafs@.len() as int;
                let right = Node::build(rhs, state, var_leafs, bounds);
                proof {
                    lemma_slots_below_more(left, n1, var_leafs@.len() as int);
                }
                Node::Internal {
                    value: D::top(),
                    operator: *operator,
                    left: Box::new(left),
                    right: Box::new(right),
                }
            },
        }
    }

    /// The forward pass: computes the value of every internal node from the
    /// values of its children, bottom-up.
    pub fn forward_analysis(&mut self, var_leafs: &VarLeafs<D>, bounds: &D::Bounds)
        requires
            old(self).slots_below(var_leafs@.len() as int),
        ensures
            *final(self) == old(self).spec_forward(var_leafs@, *bounds),
            final(self).slots_below(var_leafs@.len() as int),
        decreases *old(self),
    {
        proof {
            lemma_passes_keep_slots(
                *self,
                D::spec_top(),
                var_leafs@,
                *bounds,
                var_leafs@.len() as int,
            );
        }
        match self {
            Node::Internal { value, operator, left, right } => {
                left.forward_analysis(var_leafs, bounds);
                right.forward_analysis(var_leafs, bounds);
                *value = apply(
                    *operator,
                    left.get_value(var_leafs),
                    right.get_value(var_leafs),
                    bounds,
                );
            },
            _ => {},
        }
    }

    /// The backward pass: pushes `refinement` down from the root and refines
    /// the cells of the variables. The result tells whether the refinement
    /// is satisfiable.
    pub fn backward_analysis(
        &mut self,
        refinement: D,
        var_leafs: &mut VarLeafs<D>,
        bounds: &D::Bounds,
    ) -> (r: bool)
        requires
            old(self).slots_below(old(var_leafs)@.len() as int),
        ensures
            (*final(self), final(var_leafs)@, r) == old(self).spec_backward(
                refinement,
                old(var_leafs)@,
                *bounds,
            ),
            final(self).slots_below(final(var_leafs)@.len() as int),
            final(var_leafs)@.len() == old(var_leafs)@.len(),
        decreases *old(self),
    {
        proof {
            lemma_passes_keep_slots(
                *self,
                refinement,
                var_leafs@,
                *bounds,
                var_leafs@.len() as int,
            );
        }
        match self {
            Node::Internal { value, operator, left, right } => {
                *value = refinement;
                let refs = backward_arithmetic_operator(
                    left.get_value(var_leafs),
                    right.get_value(var_leafs),
                    refinement,
                    *operator,
                    bounds,
                );
                if left.backward_analysis(refs[0], var_leafs, bounds) {
                    right.backward_analysis(refs[1], var_leafs, bounds)
                } else {
                    false
                }
            },
            Node::ConstantLeaf { value } => {
                let bottom = D::bottom();
                !refinement.glb(value, bounds).eq(&bottom, bounds)
            },
            Node::VarLeaf { slot } => {
                let bottom = D::bottom();
                let n = refinement.glb(&var_leafs.value(*slot), bounds);
                if n.eq(&bottom, bounds) {
                    false
                } else {
                    var_leafs.set(*slot, n);
                    true
                }
            },
        }
    }

    /// The word for the kind of the node: the sign of its operator, `Const`
    /// or `Var`.
    pub open spec fn label(self) -> Seq<char> {
        match self {
            Node::Internal { value, operator, left, right } => match operator {
                Operator::Add => seq!['+'],
                Operator::Sub => seq!['-'],
                Operator::Mul => seq!['*'],
                Operator::Div => seq!['/'],
            },
            Node::ConstantLeaf { value } => seq!['C', 'o', 'n', 's', 't'],
            Node::VarLeaf { slot } => seq!['V', 'a', 'r'],
        }
    }

    /// The picture of the tree: a line for each node, with the indentation,
    /// the word for the node and its value, the lines of the children below
    /// it. The children are indented by three more characters: a bar and two
    /// blanks below a node that is not the last child of its parent, three
    /// blanks below one that is.
    pub open spec fn picture(
        self,
        indent: Seq<char>,
        last: bool,
        cells: Entries<D>,
        bounds: D::Bounds,
    ) -> Seq<char>
        decreases self,
    {
        let line = indent + self.label() + seq![' '] + self.spec_get_value(cells).spec_text(bounds)
            + seq!['\n'];
        let deeper = indent + if last {
            seq![' ', ' ', ' ']
        } else {
            seq!['|', ' ', ' ']
        };
        match self {
            Node::Internal { value, operator, left, right } => line + left.picture(
                deeper,
                false,
                cells,
                bounds,
            ) + right.picture(deeper, true, cells, bounds),
            _ => line,
        }
    }

    /// Writes the picture of the tree at the end of `out`.
    fn inner_pretty_print(
        &self,
        out: &mut String,
        indent: &str,
        last: bool,
        var_leafs: &VarLeafs<D>,
        bounds: &D::Bounds,
    )
        requires
            self.slots_below(var_leafs@.len() as int),
        ensures
            final(out)@ == old(out)@ + self.picture(indent@, last, var_leafs@, *bounds),
        decreases *self,
    {
        proof {
            reveal_strlit("+");
            reveal_strlit("-");
            reveal_strlit("*");
            reveal_strlit("/");
            reveal_strlit("Const");
            reveal_strlit("Var");
            reveal_strlit(" ");
            reveal_strlit("\n");
            reveal_strlit("   ");
            reveal_strlit("|  ");
        }
        let ghost start = out@;
        let node_type = match self {
            Node::Internal { value: _, operator, left: _, right: _ } => match operator {
                Operator::Add => "+",
                Operator::Sub => "-",
                Operator::Mul => "*",
                Operator::Div => "/",
            },
            Node::ConstantLeaf { value: _ } => "Const",
            Node::VarLeaf { slot: _ } => "Var",
        };
        assert(node_type@ =~= self.label());
        out.append(indent);
        out.append(node_type);
        out.append(" ");
        out.append(self.get_value(var_leafs).to_text(bounds).as_str());
        out.append("\n");
        let ghost line = indent@ + self.label() + seq![' '] + self.spec_get_value(
            var_leafs@,
        ).spec_text(*bounds) + seq!['\n'];
        assert(out@ =~= start + line);
        let mut new_indent = String::new();
        new_indent.append(indent);
        if last {
            new_indent.append("   ");
        } else {
            new_indent.append("|  ");
        }
        let ghost deeper = indent@ + if last {
            seq![' ', ' ', ' ']
        } else {
            seq!['|', ' ', ' ']
        };
        assert(new_indent@ =~= deeper);
        match self {
            Node::Internal { value: _, operator: _, left, right } => {
                left.inner_pretty_print(out, new_indent.as_str(), false, var_leafs, bounds);
                right.inner_pretty_print(out, new_indent.as_str(), true, var_leafs, bounds);
                assert(out@ =~= start + (line + left.picture(deeper, false, var_leafs@, *bounds)
                    + right.picture(deeper, true, var_leafs@, *bounds)));
            },
            _ => {},
        }
    }

    /// The picture of the tree.
    pub fn pretty_print(&self, var_leafs: &VarLeafs<D>, bounds: &D::Bounds) -> (r: String)
        requires
            self.slots_below(var_leafs@.len() as int),
        ensures
            r@ == self.picture(Seq::empty(), self is Internal, var_leafs@, *bounds),
    {
        let mut out = String::new();
        let last = matches!(self, Node::Internal { .. });
        proof {
            reveal_strlit("");
            assert(""@ =~= Seq::<char>::empty());
        }
        self.inner_pretty_print(&mut out, "", last, var_leafs, bounds);
        assert(Seq::<char>::empty() + self.picture(
            Seq::empty(),
            self is Internal,
            var_leafs@,
            *bounds,
        ) =~= self.picture(Seq::empty(), self is Internal, var_leafs@, *bounds));
        out
    }

    /// The value at the root.
    pub fn get_value(&self, var_leafs: &VarLeafs<D>) -> (r: D)
        requires
            self.slots_below(var_leafs@.len() as int),
        ensures
            r == self.spec_get_value(var_leafs@),
    {
        match self {
            Node::ConstantLeaf { value } => *value,
            Node::Internal { value, operator: _, left: _, right: _ } => *value,
            Node::VarLeaf { slot } => var_leafs.value(*slot),
        }
    }
}

} // verus!
