//! The abstract syntax tree of the analysed language.

use vstd::prelude::*;
use vstd::std_specs::ops::{NegSpecImpl, NotSpecImpl};
use crate::text::views;

verus! {

/// A place in the source text: a line and a column, both counted from zero.
#[derive(Hash, PartialOrd, Ord, Eq, Debug, Clone, Copy, PartialEq, Structural)]
pub struct Position {
    pub line: usize,
    pub clm: usize,
}

impl Position {
    /// The lexicographic order on lines, then columns.
    pub open spec fn before(self, other: Position) -> bool {
        self.line < other.line || (self.line == other.line && self.clm < other.clm)
    }

    /// Whether `self` comes strictly before `other`.
    pub fn precedes(&self, other: &Position) -> (r: bool)
        ensures
            r == self.before(*other),
    {
        self.line < other.line || (self.line == other.line && self.clm < other.clm)
    }

    /// The greatest position, under which the state at the end of the
    /// program is kept.
    pub fn end() -> (r: Position)
        ensures
            r == (Position { line: usize::MAX, clm: usize::MAX }),
    {
        Position { line: usize::MAX, clm: usize::MAX }
    }
}

/// The four arithmetic operators.
#[derive(Clone, Copy, Debug, PartialEq, Eq, Structural)]
pub enum Operator {
    Add,
    Sub,
    Mul,
    Div,
}

/// The comparisons of an expression against zero.
#[derive(Clone, Copy, Debug, PartialEq, Eq, Structural)]
pub enum ConditionOperator {
    Equal,
    NotEqual,
    StrictlyLess,
    GreaterOrEqual,
}

impl ConditionOperator {
    /// The comparison that holds exactly where `self` fails.
    pub open spec fn complement(self) -> ConditionOperator {
        match self {
            ConditionOperator::Equal => ConditionOperator::NotEqual,
            ConditionOperator::NotEqual => ConditionOperator::Equal,
            ConditionOperator::StrictlyLess => ConditionOperator::GreaterOrEqual,
            ConditionOperator::GreaterOrEqual => ConditionOperator::StrictlyLess,
        }
    }

    /// Whether the integer `z` compares to zero as the operator says.
    pub open spec fn holds(self, z: int) -> bool {
        match self {
            ConditionOperator::Equal => z == 0,
            ConditionOperator::NotEqual => z != 0,
            ConditionOperator::StrictlyLess => z < 0,
            ConditionOperator::GreaterOrEqual => z >= 0,
        }
    }
}

impl core::ops::Neg for ConditionOperator {
    type Output = ConditionOperator;

    fn neg(self) -> (r: ConditionOperator) {
        match self {
            ConditionOperator::Equal => ConditionOperator::NotEqual,
            ConditionOperator::NotEqual => ConditionOperator::Equal,
            ConditionOperator::StrictlyLess => ConditionOperator::GreaterOrEqual,
            ConditionOperator::GreaterOrEqual => ConditionOperator::StrictlyLess,
        }
    }
}

impl NegSpecImpl for ConditionOperator {
    open spec fn obeys_neg_spec() -> bool {
        true
    }

    open spec fn neg_req(self) -> bool {
        true
    }

    open spec fn neg_spec(self) -> ConditionOperator {
        self.complement()
    }
}

/// An arithmetic expression over integer literals and variables.
#[derive(Debug, PartialEq)]
pub enum ArithmeticExp {
    Integer(i64),
    Variable(String),
    BinaryOperation { lhs: Box<ArithmeticExp>, operator: Operator, rhs: Box<ArithmeticExp> },
}

impl Clone for ArithmeticExp {
    fn clone(&self) -> (r: ArithmeticExp)
        ensures
            r == *self,
        decreases *self,
    {
        match self {
            ArithmeticExp::Integer(x) => ArithmeticExp::Integer(*x),
            ArithmeticExp::Variable(v) => ArithmeticExp::Variable(v.clone()),
            ArithmeticExp::BinaryOperation { lhs, operator, rhs } => ArithmeticExp::BinaryOperation {
                lhs: Box::new((&**lhs).clone()),
                operator: *operator,
                rhs: Box::new((&**rhs).clone()),
            },
        }
    }
}

impl ArithmeticExp {
    /// The integer literals that occur in the expression.
    pub open spec fn constants(self) -> Set<i64>
        decreases self,
    {
        match self {
            ArithmeticExp::Integer(x) => set![x],
            ArithmeticExp::Variable(_) => Set::empty(),
            ArithmeticExp::BinaryOperation { lhs, operator, rhs } => lhs.constants().union(
                rhs.constants(),
            ),
        }
    }

    /// The list after the integer literals of the expression were noted in
    /// it, from left to right.
    pub open spec fn listed_constants(self, list: Seq<i64>) -> Seq<i64>
        decreases self,
    {
        match self {
            ArithmeticExp::Integer(x) => noted(list, x),
            ArithmeticExp::Variable(_) => list,
            ArithmeticExp::BinaryOperation { lhs, operator, rhs } => rhs.listed_constants(
                lhs.listed_constants(list),
            ),
        }
    }

    /// The list after the names of the variables of the expression were
    /// noted in it, from left to right.
    pub open spec fn listed_variables(self, list: Seq<Seq<char>>) -> Seq<Seq<char>>
        decreases self,
    {
        match self {
            ArithmeticExp::Integer(_) => list,
            ArithmeticExp::Variable(v) => noted(list, v@),
            ArithmeticExp::BinaryOperation { lhs, operator, rhs } => rhs.listed_variables(
                lhs.listed_variables(list),
            ),
        }
    }

    /// The names of the variables that occur in the expression.
    pub open spec fn variables(self) -> Set<Seq<char>>
        decreases self,
    {
        match self {
            ArithmeticExp::Integer(_) => Set::empty(),
            ArithmeticExp::Variable(v) => set![v@],
            ArithmeticExp::BinaryOperation { lhs, operator, rhs } => lhs.variables().union(
                rhs.variables(),
            ),
        }
    }
}

/// The list with `x` at its end, unless `x` is in the list.
pub open spec fn noted<T>(list: Seq<T>, x: T) -> Seq<T> {
    if list.contains(x) {
        list
    } else {
        list.push(x)
    }
}

/// Adds `x` at the end of `v`, unless it is there.
pub fn insert_constant(v: &mut Vec<i64>, x: i64)
    ensures
        final(v)@ == noted(old(v)@, x),
        final(v)@.to_set() == old(v)@.to_set().insert(x),
        old(v)@.no_duplicates() ==> final(v)@.no_duplicates(),
        old(v)@.is_prefix_of(final(v)@),
{
    let mut i: usize = 0;
    while i < v.len()
        invariant
            i <= v.len(),
            *v == *old(v),
            forall|j: int| 0 <= j < i ==> v@[j] != x,
        decreases v.len() - i,
    {
        if v[i] == x {
            assert(v@.contains(x));
            assert(v@.to_set().insert(x) =~= v@.to_set());
            return ;
        }
        i += 1;
    }
    let ghost before = v@;
    v.push(x);
    assert(v@.to_set() =~= before.to_set().insert(x)) by {
        assert forall|y: i64| v@.to_set().contains(y) <==> before.to_set().insert(x).contains(
            y,
        ) by {
            if v@.contains(y) {
                let j = choose|j: int| 0 <= j < v@.len() && v@[j] == y;
                if j < before.len() {
                    assert(before[j] == y);
                }
            }
            if before.contains(y) {
                let j = choose|j: int| 0 <= j < before.len() && before[j] == y;
                assert(v@[j] == y);
            }
            if y == x {
                assert(v@[before.len() as int] == x);
            }
        }
    }
}

/// Adds `name` at the end of `v`, unless it is there.
pub fn insert_name(v: &mut Vec<String>, name: &String)
    ensures
        views(final(v)@) == noted(views(old(v)@), name@),
        views(final(v)@).to_set() == views(old(v)@).to_set().insert(name@),
        views(old(v)@).no_duplicates() ==> views(final(v)@).no_duplicates(),
        views(old(v)@).is_prefix_of(views(final(v)@)),
{
    let mut i: usize = 0;
    while i < v.len()
        invariant
            i <= v.len(),
            *v == *old(v),
            forall|j: int| 0 <= j < i ==> v@[j]@ != name@,
        decreases v.len() - i,
    {
        if v[i] == *name {
            assert(views(v@)[i as int] == name@);
            assert(views(v@).contains(name@));
            assert(views(v@).to_set().insert(name@) =~= views(v@).to_set());
            return ;
        }
        i += 1;
    }
    let ghost before = views(v@);
    v.push(name.clone());
    let ghost after = views(v@);
    assert(after == before.push(name@));
    assert(after.to_set() =~= before.to_set().insert(name@)) by {
        assert forall|y: Seq<char>| after.to_set().contains(y) <==> before.to_set().insert(
            name@,
        ).contains(y) by {
            if after.contains(y) {
                let j = choose|j: int| 0 <= j < after.len() && after[j] == y;
                if j < before.len() {
                    assert(before[j] == y);
                }
            }
            if before.contains(y) {
                let j = choose|j: int| 0 <= j < before.len() && before[j] == y;
                assert(after[j] == y);
            }
            if y == name@ {
                assert(after[before.len() as int] == name@);
            }
        }
    }
    assert(views(old(v)@) == before);
}

impl ArithmeticExp {
    /// Adds the integer literals of the expression to `consts`.
    pub fn extract_constants(&self, consts: &mut Vec<i64>)
        ensures
            final(consts)@ == self.listed_constants(old(consts)@),
            final(consts)@.to_set() == old(consts)@.to_set().union(self.constants()),
            old(consts)@.no_duplicates() ==> final(consts)@.no_duplicates(),
            old(consts)@.is_prefix_of(final(consts)@),
        decreases *self,
    {
        match self {
            ArithmeticExp::Integer(x) => {
                insert_constant(consts, *x);
                assert(old(consts)@.to_set().insert(*x) =~= old(consts)@.to_set().union(set![*x]));
            },
            ArithmeticExp::BinaryOperation { lhs, operator: _, rhs } => {
                lhs.extract_constants(consts);
                let ghost mid = consts@;
                rhs.extract_constants(consts);
                assert(old(consts)@.to_set().union(lhs.constants()).union(rhs.constants())
                    =~= old(consts)@.to_set().union(lhs.constants().union(rhs.constants())));
            },
            ArithmeticExp::Variable(_) => {
                assert(old(consts)@.to_set().union(Set::empty()) =~= old(consts)@.to_set());
            },
        }
    }

    /// Adds the names of the variables of the expression to `vars`.
    pub fn extract_vars(&self, vars: &mut Vec<String>)
        ensures
            views(final(vars)@) == self.listed_variables(views(old(vars)@)),
            views(final(vars)@).to_set() == views(old(vars)@).to_set().union(self.variables()),
            views(old(vars)@).no_duplicates() ==> views(final(vars)@).no_duplicates(),
            views(old(vars)@).is_prefix_of(views(final(vars)@)),
        decreases *self,
    {
        let ghost start = views(vars@).to_set();
        match self {
            ArithmeticExp::Variable(x) => {
                insert_name(vars, x);
                assert(start.insert(x@) =~= start.union(set![x@]));
            },
            ArithmeticExp::Integer(_) => {
                assert(start.union(Set::empty()) =~= start);
            },
            ArithmeticExp::BinaryOperation { lhs, operator: _, rhs } => {
                lhs.extract_vars(vars);
                rhs.extract_vars(vars);
                assert(start.union(lhs.variables()).union(rhs.variables()) =~= start.union(
                    lhs.variables().union(rhs.variables()),
                ));
            },
        }
    }
}

/// The condition `lhs operator 0`.
#[derive(Debug, PartialEq)]
pub struct ArithmeticCondition {
    pub lhs: Box<ArithmeticExp>,
    pub operator: ConditionOperator,
}

impl Clone for ArithmeticCondition {
    fn clone(&self) -> (r: ArithmeticCondition)
        ensures
            r == *self,
    {
        ArithmeticCondition { lhs: Box::new((&*self.lhs).clone()), operator: self.operator }
    }
}

impl ArithmeticCondition {
    /// The condition with the complementary operator.
    pub open spec fn negated(self) -> ArithmeticCondition {
        ArithmeticCondition { lhs: self.lhs, operator: self.operator.complement() }
    }

    /// The normal form of `lhs operator rhs`: `lhs - rhs operator 0`.
    pub open spec fn spec_normal_form(
        lhs: ArithmeticExp,
        operator: ConditionOperator,
        rhs: ArithmeticExp,
    ) -> ArithmeticCondition {
        ArithmeticCondition {
            lhs: Box::new(
                ArithmeticExp::BinaryOperation {
                    lhs: Box::new(lhs),
                    operator: Operator::Sub,
                    rhs: Box::new(rhs),
                },
            ),
            operator,
        }
    }

    /// Rewrites a comparison of two expressions into a comparison of their
    /// difference against zero.
    pub fn normal_form(
        lhs: Box<ArithmeticExp>,
        operator: ConditionOperator,
        rhs: Box<ArithmeticExp>,
    ) -> (r: ArithmeticCondition)
        ensures
            r == ArithmeticCondition::spec_normal_form(*lhs, operator, *rhs),
    {
        let lhs = Box::new(ArithmeticExp::BinaryOperation { lhs, operator: Operator::Sub, rhs });
        ArithmeticCondition { lhs, operator }
    }

    /// The negation, by reference.
    pub fn negation(&self) -> (r: ArithmeticCondition)
        ensures
            r == self.negated(),
    {
        ArithmeticCondition { lhs: Box::new((&*self.lhs).clone()), operator: core::ops::Neg::neg(self.operator) }
    }
}

impl core::ops::Not for ArithmeticCondition {
    type Output = ArithmeticCondition;

    fn not(self) -> (r: ArithmeticCondition) {
        ArithmeticCondition { lhs: self.lhs, operator: core::ops::Neg::neg(self.operator) }
    }
}

impl NotSpecImpl for ArithmeticCondition {
    open spec fn obeys_not_spec() -> bool {
        true
    }

    open spec fn not_req(self) -> bool {
        true
    }

    open spec fn not_spec(self) -> ArithmeticCondition {
        self.negated()
    }
}

/// A Boolean expression in which negation has been pushed into the atoms.
#[derive(Debug, PartialEq)]
pub enum BooleanExp {
    Boolean(bool),
    ArithmeticCondition(ArithmeticCondition),
    And { lhs: Box<BooleanExp>, rhs: Box<BooleanExp> },
    Or { lhs: Box<BooleanExp>, rhs: Box<BooleanExp> },
}

impl Clone for BooleanExp {
    fn clone(&self) -> (r: BooleanExp)
        ensures
            r == *self,
        decreases *self,
    {
        match self {
            BooleanExp::Boolean(b) => BooleanExp::Boolean(*b),
            BooleanExp::ArithmeticCondition(c) => BooleanExp::ArithmeticCondition(c.clone()),
            BooleanExp::And { lhs, rhs } => BooleanExp::And {
                lhs: Box::new((&**lhs).clone()),
                rhs: Box::new((&**rhs).clone()),
            },
            BooleanExp::Or { lhs, rhs } => BooleanExp::Or {
                lhs: Box::new((&**lhs).clone()),
                rhs: Box::new((&**rhs).clone()),
            },
        }
    }
}

impl BooleanExp {
    /// The negation, pushed inward: the constants are swapped, a condition
    /// gets the complementary operator, and conjunction and disjunction
    /// change places over the negated operands.
    pub open spec fn negated(self) -> BooleanExp
        decreases self,
    {
        match self {
            BooleanExp::Boolean(b) => BooleanExp::Boolean(!b),
            BooleanExp::ArithmeticCondition(c) => BooleanExp::ArithmeticCondition(c.negated()),
            BooleanExp::And { lhs, rhs } => BooleanExp::Or {
                lhs: Box::new(lhs.negated()),
                rhs: Box::new(rhs.negated()),
            },
            BooleanExp::Or { lhs, rhs } => BooleanExp::And {
                lhs: Box::new(lhs.negated()),
                rhs: Box::new(rhs.negated()),
            },
        }
    }

    /// The list after the integer literals of the expression were noted in
    /// it, from left to right.
    pub open spec fn listed_constants(self, list: Seq<i64>) -> Seq<i64>
        decreases self,
    {
        match self {
            BooleanExp::Boolean(_) => list,
            BooleanExp::ArithmeticCondition(c) => c.lhs.listed_constants(list),
            BooleanExp::And { lhs, rhs } => rhs.listed_constants(lhs.listed_constants(list)),
            BooleanExp::Or { lhs, rhs } => rhs.listed_constants(lhs.listed_constants(list)),
        }
    }

    /// The list after the names of the variables of the expression were
    /// noted in it, from left to right.
    pub open spec fn listed_variables(self, list: Seq<Seq<char>>) -> Seq<Seq<char>>
        decreases self,
    {
        match self {
            BooleanExp::Boolean(_) => list,
            BooleanExp::ArithmeticCondition(c) => c.lhs.listed_variables(list),
            BooleanExp::And { lhs, rhs } => rhs.listed_variables(lhs.listed_variables(list)),
            BooleanExp::Or { lhs, rhs } => rhs.listed_variables(lhs.listed_variables(list)),
        }
    }

    /// The integer literals that occur in the expression.
    pub open spec fn constants(self) -> Set<i64>
        decreases self,
    {
        match self {
            BooleanExp::Boolean(_) => Set::empty(),
            BooleanExp::ArithmeticCondition(c) => c.lhs.constants(),
            BooleanExp::And { lhs, rhs } => lhs.constants().union(rhs.constants()),
            BooleanExp::Or { lhs, rhs } => lhs.constants().union(rhs.constants()),
        }
    }

    /// The names of the variables that occur in the expression.
    pub open spec fn variables(self) -> Set<Seq<char>>
        decreases self,
    {
        match self {
            BooleanExp::Boolean(_) => Set::empty(),
            BooleanExp::ArithmeticCondition(c) => c.lhs.variables(),
            BooleanExp::And { lhs, rhs } => lhs.variables().union(rhs.variables()),
            BooleanExp::Or { lhs, rhs } => lhs.variables().union(rhs.variables()),
        }
    }

    /// The negation, by reference.
    pub fn negation(&self) -> (r: BooleanExp)
        ensures
            r == self.negated(),
        decreases *self,
    {
        match self {
            BooleanExp::Boolean(b) => BooleanExp::Boolean(!*b),
            BooleanExp::ArithmeticCondition(c) => BooleanExp::ArithmeticCondition(c.negation()),
            BooleanExp::And { lhs, rhs } => BooleanExp::Or {
                lhs: Box::new(lhs.negation()),
                rhs: Box::new(rhs.negation()),
            },
            BooleanExp::Or { lhs, rhs } => BooleanExp::And {
                lhs: Box::new(lhs.negation()),
                rhs: Box::new(rhs.negation()),
            },
        }
    }

    /// Adds the integer literals of the expression to `consts`.
    pub fn extract_constant(&self, consts: &mut Vec<i64>)
        ensures
            final(consts)@ == self.listed_constants(old(consts)@),
            final(consts)@.to_set() == old(consts)@.to_set().union(self.constants()),
            old(consts)@.no_duplicates() ==> final(consts)@.no_duplicates(),
            old(consts)@.is_prefix_of(final(consts)@),
        decreases *self,
    {
        let ghost start = consts@.to_set();
        match self {
            BooleanExp::ArithmeticCondition(c) => {
                c.lhs.extract_constants(consts);
            },
            BooleanExp::And { lhs, rhs } => {
                lhs.extract_constant(consts);
                rhs.extract_constant(consts);
                assert(start.union(lhs.constants()).union(rhs.constants()) =~= start.union(
                    lhs.constants().union(rhs.constants()),
                ));
            },
            BooleanExp::Or { lhs, rhs } => {
                lhs.extract_constant(consts);
                rhs.extract_constant(consts);
                assert(start.union(lhs.constants()).union(rhs.constants()) =~= start.union(
                    lhs.constants().union(rhs.constants()),
                ));
            },
            BooleanExp::Boolean(_) => {
                assert(start.union(Set::empty()) =~= start);
            },
        }
    }

    /// Adds the names of the variables of the expression to `vars`.
    pub fn extract_vars(&self, vars: &mut Vec<String>)
        ensures
            views(final(vars)@) == self.listed_variables(views(old(vars)@)),
            views(final(vars)@).to_set() == views(old(vars)@).to_set().union(self.variables()),
            views(old(vars)@).no_duplicates() ==> views(final(vars)@).no_duplicates(),
            views(old(vars)@).is_prefix_of(views(final(vars)@)),
        decreases *self,
    {
        let ghost start = views(vars@).to_set();
        match self {
            BooleanExp::Boolean(_) => {
                assert(start.union(Set::empty()) =~= start);
            },
            BooleanExp::ArithmeticCondition(c) => {
                c.lhs.extract_vars(vars);
            },
            BooleanExp::And { lhs, rhs } => {
                lhs.extract_vars(vars);
                rhs.extract_vars(vars);
                assert(start.union(lhs.variables()).union(rhs.variables()) =~= start.union(
                    lhs.variables().union(rhs.variables()),
                ));
            },
            BooleanExp::Or { lhs, rhs } => {
                lhs.extract_vars(vars);
                rhs.extract_vars(vars);
                assert(start.union(lhs.variables()).union(rhs.variables()) =~= start.union(
                    lhs.variables().union(rhs.variables()),
                ));
            },
        }
    }
}

impl core::ops::Not for BooleanExp {
    type Output = BooleanExp;

    fn not(self) -> (r: BooleanExp) {
        self.negation()
    }
}

impl NotSpecImpl for BooleanExp {
    open spec fn obeys_not_spec() -> bool {
        true
    }

    open spec fn not_req(self) -> bool {
        true
    }

    open spec fn not_spec(self) -> BooleanExp {
        self.negated()
    }
}

/// A negation reads the variables that the expression reads.
pub proof fn lemma_negated_variables(b: BooleanExp)
    ensures
        b.negated().variables() == b.variables(),
    decreases b,
{
    match b {
        BooleanExp::And { lhs, rhs } => {
            lemma_negated_variables(*lhs);
            lemma_negated_variables(*rhs);
        },
        BooleanExp::Or { lhs, rhs } => {
            lemma_negated_variables(*lhs);
            lemma_negated_variables(*rhs);
        },
        _ => {},
    }
}

/// Every variable that a statement reads is one of its variables.
pub proof fn lemma_reads_are_variables(stmt: Statement)
    ensures
        stmt.reads().subset_of(stmt.variables()),
    decreases stmt,
{
    match stmt {
        Statement::Composition { lhs, rhs } => {
            lemma_reads_are_variables(*lhs);
            lemma_reads_are_variables(*rhs);
        },
        Statement::Conditional { guard, true_branch, false_branch } => {
            lemma_reads_are_variables(*true_branch);
            lemma_reads_are_variables(*false_branch);
        },
        Statement::While { pos, guard, body } => {
            lemma_reads_are_variables(*body);
        },
        _ => {},
    }
}

/// Negating twice gives the expression back.
pub proof fn lemma_double_negation(b: BooleanExp)
    ensures
        b.negated().negated() == b,
    decreases b,
{
    match b {
        BooleanExp::And { lhs, rhs } => {
            lemma_double_negation(*lhs);
            lemma_double_negation(*rhs);
        },
        BooleanExp::Or { lhs, rhs } => {
            lemma_double_negation(*lhs);
            lemma_double_negation(*rhs);
        },
        _ => {},
    }
}

/// An assignment `var := value`.
#[derive(Debug, PartialEq)]
pub struct Assignment {
    pub var: String,
    pub value: Box<ArithmeticExp>,
}

/// A statement of the language.
#[derive(Debug, PartialEq)]
pub enum Statement {
    Assignment(Assignment),
    Skip,
    Composition { lhs: Box<Statement>, rhs: Box<Statement> },
    Conditional { guard: Box<BooleanExp>, true_branch: Box<Statement>, false_branch: Box<Statement> },
    While { pos: Position, guard: Box<BooleanExp>, body: Box<Statement> },
}

impl Statement {
    /// The integer literals that occur in the statement.
    pub open spec fn constants(self) -> Set<i64>
        decreases self,
    {
        match self {
            Statement::Skip => Set::empty(),
            Statement::Assignment(a) => a.value.constants(),
            Statement::Composition { lhs, rhs } => lhs.constants().union(rhs.constants()),
            Statement::Conditional { guard, true_branch, false_branch } => guard.constants().union(
                true_branch.constants(),
            ).union(false_branch.constants()),
            Statement::While { pos, guard, body } => guard.constants().union(body.constants()),
        }
    }

    /// The names of the variables that occur in the statement: those it
    /// assigns to and those that its expressions and its guards read.
    pub open spec fn variables(self) -> Set<Seq<char>>
        decreases self,
    {
        match self {
            Statement::Skip => Set::empty(),
            Statement::Assignment(a) => a.value.variables().insert(a.var@),
            Statement::Composition { lhs, rhs } => lhs.variables().union(rhs.variables()),
            Statement::Conditional { guard, true_branch, false_branch } => guard.variables().union(
                true_branch.variables(),
            ).union(false_branch.variables()),
            Statement::While { pos, guard, body } => guard.variables().union(body.variables()),
        }
    }

    /// The list after the integer literals of the statement were noted in
    /// it, in the order of the text.
    pub open spec fn listed_constants(self, list: Seq<i64>) -> Seq<i64>
        decreases self,
    {
        match self {
            Statement::Skip => list,
            Statement::Assignment(a) => a.value.listed_constants(list),
            Statement::Composition { lhs, rhs } => rhs.listed_constants(lhs.listed_constants(list)),
            Statement::Conditional { guard, true_branch, false_branch } =>
                false_branch.listed_constants(
                true_branch.listed_constants(guard.listed_constants(list)),
            ),
            Statement::While { pos, guard, body } => body.listed_constants(
                guard.listed_constants(list),
            ),
        }
    }

    /// The list after the names of the variables of the statement were
    /// noted in it, in the order of the text.
    pub open spec fn listed_variables(self, list: Seq<Seq<char>>) -> Seq<Seq<char>>
        decreases self,
    {
        match self {
            Statement::Skip => list,
            Statement::Assignment(a) => a.value.listed_variables(noted(list, a.var@)),
            Statement::Composition { lhs, rhs } => rhs.listed_variables(lhs.listed_variables(list)),
            Statement::Conditional { guard, true_branch, false_branch } =>
                false_branch.listed_variables(
                true_branch.listed_variables(guard.listed_variables(list)),
            ),
            Statement::While { pos, guard, body } => body.listed_variables(
                guard.listed_variables(list),
            ),
        }
    }

    /// The names of the variables whose values the statement reads: those in
    /// the assigned expressions and in the guards.
    pub open spec fn reads(self) -> Set<Seq<char>>
        decreases self,
    {
        match self {
            Statement::Skip => Set::empty(),
            Statement::Assignment(a) => a.value.variables(),
            Statement::Composition { lhs, rhs } => lhs.reads().union(rhs.reads()),
            Statement::Conditional { guard, true_branch, false_branch } => guard.variables().union(
                true_branch.reads(),
            ).union(false_branch.reads()),
            Statement::While { pos, guard, body } => guard.variables().union(body.reads()),
        }
    }

    /// Adds the names of the variables of the statement to `vars`.
    pub fn extract_vars(&self, vars: &mut Vec<String>)
        ensures
            views(final(vars)@) == self.listed_variables(views(old(vars)@)),
            views(final(vars)@).to_set() == views(old(vars)@).to_set().union(self.variables()),
            views(old(vars)@).no_duplicates() ==> views(final(vars)@).no_duplicates(),
            views(old(vars)@).is_prefix_of(views(final(vars)@)),
        decreases *self,
    {
        let ghost start = views(vars@).to_set();
        match self {
            Statement::Skip => {
                assert(start.union(Set::empty()) =~= start);
            },
            Statement::Assignment(a) => {
                insert_name(vars, &a.var);
                a.value.extract_vars(vars);
                assert(start.insert(a.var@).union(a.value.variables()) =~= start.union(
                    a.value.variables().insert(a.var@),
                ));
            },
            Statement::Composition { lhs, rhs } => {
                lhs.extract_vars(vars);
                rhs.extract_vars(vars);
                assert(start.union(lhs.variables()).union(rhs.variables()) =~= start.union(
                    lhs.variables().union(rhs.variables()),
                ));
            },
            Statement::Conditional { guard, true_branch, false_branch } => {
                guard.extract_vars(vars);
                true_branch.extract_vars(vars);
                false_branch.extract_vars(vars);
                assert(start.union(guard.variables()).union(true_branch.variables()).union(
                    false_branch.variables(),
                ) =~= start.union(
                    guard.variables().union(true_branch.variables()).union(
                        false_branch.variables(),
                    ),
                ));
            },
            Statement::While { pos: _, guard, body } => {
                guard.extract_vars(vars);
                body.extract_vars(vars);
                assert(start.union(guard.variables()).union(body.variables()) =~= start.union(
                    guard.variables().union(body.variables()),
                ));
            },
        }
    }

    /// Adds the integer literals of the statement to `consts`.
    pub fn extract_constant(&self, consts: &mut Vec<i64>)
        ensures
            final(consts)@ == self.listed_constants(old(consts)@),
            final(consts)@.to_set() == old(consts)@.to_set().union(self.constants()),
            old(consts)@.no_duplicates() ==> final(consts)@.no_duplicates(),
            old(consts)@.is_prefix_of(final(consts)@),
        decreases *self,
    {
        let ghost start = consts@.to_set();
        match self {
            Statement::Skip => {
                assert(start.union(Set::empty()) =~= start);
            },
            Statement::Assignment(a) => {
                a.value.extract_constants(consts);
            },
            Statement::Conditional { guard, true_branch, false_branch } => {
                guard.extract_constant(consts);
                true_branch.extract_constant(consts);
                false_branch.extract_constant(consts);
                assert(start.union(guard.constants()).union(true_branch.constants()).union(
                    false_branch.constants(),
                ) =~= start.union(
                    guard.constants().union(true_branch.constants()).union(
                        false_branch.constants(),
                    ),
                ));
            },
            Statement::Composition { lhs, rhs } => {
                lhs.extract_constant(consts);
                rhs.extract_constant(consts);
                assert(start.union(lhs.constants()).union(rhs.constants()) =~= start.union(
                    lhs.constants().union(rhs.constants()),
                ));
            },
            Statement::While { pos: _, guard, body } => {
                guard.extract_constant(consts);
                body.extract_constant(consts);
                assert(start.union(guard.constants()).union(body.constants()) =~= start.union(
                    guard.constants().union(body.constants()),
                ));
            },
        }
    }
}

} // verus!
