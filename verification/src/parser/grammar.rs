//! From tokens to the syntax tree.
//!
//! ```text
//! statement := atom (';' atom)*
//! atom      := 'skip' | name ':=' sum
//!            | 'if' conjunction 'then' block 'else' block
//!            | 'while' conjunction 'do' block
//! block     := '{' statement '}' | atom
//! sum       := product (('+' | '-') product)*
//! product   := factor (('*' | '/') factor)*
//! factor    := integer | name | '(' sum ')' | '-' factor
//! conjunction := literal ('&' literal)*
//! literal   := 'true' | 'false' | '!' literal | sum ('=' | '<') sum
//!            | '(' conjunction ')'
//! ```

use vstd::prelude::*;
use crate::parser::ast::{
    ArithmeticCondition, ArithmeticExp, Assignment, BooleanExp, ConditionOperator, Operator,
    Statement,
};
use crate::parser::lexer::{tokenize, tokens_of};
use crate::parser::tokens::{lexemes, LexicalError, Token};

verus! {

/// What can be wrong with a source text.
#[derive(Debug, Clone, Copy, PartialEq, Eq, Structural)]
pub enum ParseError {
    /// The characters are not those of tokens.
    Lexical(LexicalError),
    /// The tokens are not those of a program.
    Syntax,
}

/// A piece of syntax and the index of the token after it.
pub type Parsed<T> = Option<(T, int)>;

/// The operator of a sum that the token `i` is, if it is one.
pub open spec fn sum_operator(t: Seq<Token>, i: int) -> Option<Operator> {
    if 0 <= i < t.len() && t[i] is OperatorAdd {
        Some(Operator::Add)
    } else if 0 <= i < t.len() && t[i] is OperatorSub {
        Some(Operator::Sub)
    } else {
        None
    }
}

/// The operator of a product that the token `i` is, if it is one.
pub open spec fn product_operator(t: Seq<Token>, i: int) -> Option<Operator> {
    if 0 <= i < t.len() && t[i] is OperatorMul {
        Some(Operator::Mul)
    } else if 0 <= i < t.len() && t[i] is OperatorDiv {
        Some(Operator::Div)
    } else {
        None
    }
}

/// The comparison that the token `i` is, if it is one.
pub open spec fn comparison_operator(t: Seq<Token>, i: int) -> Option<ConditionOperator> {
    if 0 <= i < t.len() && t[i] is Equal {
        Some(ConditionOperator::Equal)
    } else if 0 <= i < t.len() && t[i] is StrictlyLess {
        Some(ConditionOperator::StrictlyLess)
    } else {
        None
    }
}

/// The operation `lhs operator rhs`.
pub open spec fn operation(lhs: ArithmeticExp, operator: Operator, rhs: ArithmeticExp) -> ArithmeticExp {
    ArithmeticExp::BinaryOperation { lhs: Box::new(lhs), operator, rhs: Box::new(rhs) }
}

/// The opposite of a factor: the negated literal for an integer literal,
/// else zero minus the factor.
pub open spec fn opposite(f: ArithmeticExp) -> ArithmeticExp {
    match f {
        ArithmeticExp::Integer(x) => if x > i64::MIN {
            ArithmeticExp::Integer((-x) as i64)
        } else {
            operation(ArithmeticExp::Integer(0), Operator::Sub, f)
        },
        _ => operation(ArithmeticExp::Integer(0), Operator::Sub, f),
    }
}

/// The factor that begins at the token `i`.
pub open spec fn factor(t: Seq<Token>, i: int) -> Parsed<ArithmeticExp>
    decreases t.len() - i, 0nat,
{
    if i < 0 || i >= t.len() {
        None
    } else {
        match t[i] {
            Token::Integer(x) => Some((ArithmeticExp::Integer(x), i + 1)),
            Token::Identifier(name) => Some((ArithmeticExp::Variable(name), i + 1)),
            Token::LParen => match sum(t, i + 1) {
                Some((e, j)) => if i < j < t.len() && t[j] is RParen {
                    Some((e, j + 1))
                } else {
                    None
                },
                None => None,
            },
            Token::OperatorSub => match factor(t, i + 1) {
                Some((f, j)) => Some((opposite(f), j)),
                None => None,
            },
            _ => None,
        }
    }
}

/// The product that begins at the token `i`.
pub open spec fn product(t: Seq<Token>, i: int) -> Parsed<ArithmeticExp>
    decreases t.len() - i, 1nat,
{
    if i < 0 || i >= t.len() {
        None
    } else {
        match factor(t, i) {
            Some((f, j)) => if i < j <= t.len() {
                product_rest(t, j, f)
            } else {
                None
            },
            None => None,
        }
    }
}

/// The product whose first factors make `acc` and whose next operator, if
/// there is one, is the token `i`.
pub open spec fn product_rest(t: Seq<Token>, i: int, acc: ArithmeticExp) -> Parsed<ArithmeticExp>
    decreases t.len() - i, 2nat,
{
    match product_operator(t, i) {
        Some(operator) => match factor(t, i + 1) {
            Some((f, j)) => if i < j <= t.len() {
                product_rest(t, j, operation(acc, operator, f))
            } else {
                None
            },
            None => None,
        },
        None => Some((acc, i)),
    }
}

/// The sum that begins at the token `i`.
pub open spec fn sum(t: Seq<Token>, i: int) -> Parsed<ArithmeticExp>
    decreases t.len() - i, 3nat,
{
    if i < 0 || i >= t.len() {
        None
    } else {
        match product(t, i) {
            Some((p, j)) => if i < j <= t.len() {
                sum_rest(t, j, p)
            } else {
                None
            },
            None => None,
        }
    }
}

/// The sum whose first products make `acc` and whose next operator, if there
/// is one, is the token `i`.
pub open spec fn sum_rest(t: Seq<Token>, i: int, acc: ArithmeticExp) -> Parsed<ArithmeticExp>
    decreases t.len() - i, 4nat,
{
    match sum_operator(t, i) {
        Some(operator) => match product(t, i + 1) {
            Some((p, j)) => if i < j <= t.len() {
                sum_rest(t, j, operation(acc, operator, p))
            } else {
                None
            },
            None => None,
        },
        None => Some((acc, i)),
    }
}

/// The comparison that begins at the token `i`, in normal form.
pub open spec fn comparison(t: Seq<Token>, i: int) -> Parsed<BooleanExp>
    decreases t.len() - i, 5nat,
{
    if i < 0 || i >= t.len() {
        None
    } else {
        match sum(t, i) {
            Some((lhs, j)) => match comparison_operator(t, j) {
                Some(operator) => if i < j <= t.len() {
                    match sum(t, j + 1) {
                        Some((rhs, k)) => Some(
                            (
                                BooleanExp::ArithmeticCondition(
                                    ArithmeticCondition::spec_normal_form(lhs, operator, rhs),
                                ),
                                k,
                            ),
                        ),
                        None => None,
                    }
                } else {
                    None
                },
                None => None,
            },
            None => None,
        }
    }
}

/// The literal that begins at the token `i`. Where a parenthesis opens
/// both a comparison and a conjunction, the comparison is taken.
pub open spec fn literal(t: Seq<Token>, i: int) -> Parsed<BooleanExp>
    decreases t.len() - i, 6nat,
{
    if i < 0 || i >= t.len() {
        None
    } else {
        match t[i] {
            Token::Boolean(b) => Some((BooleanExp::Boolean(b), i + 1)),
            Token::Not => match literal(t, i + 1) {
                Some((b, j)) => Some((b.negated(), j)),
                None => None,
            },
            Token::LParen => match comparison(t, i) {
                Some(r) => Some(r),
                None => match conjunction(t, i + 1) {
                    Some((b, j)) => if i < j < t.len() && t[j] is RParen {
                        Some((b, j + 1))
                    } else {
                        None
                    },
                    None => None,
                },
            },
            _ => comparison(t, i),
        }
    }
}

/// The conjunction that begins at the token `i`.
pub open spec fn conjunction(t: Seq<Token>, i: int) -> Parsed<BooleanExp>
    decreases t.len() - i, 7nat,
{
    if i < 0 || i >= t.len() {
        None
    } else {
        match literal(t, i) {
            Some((b, j)) => if i < j <= t.len() {
                conjunction_rest(t, j, b)
            } else {
                None
            },
            None => None,
        }
    }
}

/// The conjunction whose first literals make `acc` and whose next `&`, if
/// there is one, is the token `i`.
pub open spec fn conjunction_rest(t: Seq<Token>, i: int, acc: BooleanExp) -> Parsed<BooleanExp>
    decreases t.len() - i, 8nat,
{
    if 0 <= i < t.len() && t[i] is And {
        match literal(t, i + 1) {
            Some((b, j)) => if i < j <= t.len() {
                conjunction_rest(t, j, BooleanExp::And { lhs: Box::new(acc), rhs: Box::new(b) })
            } else {
                None
            },
            None => None,
        }
    } else {
        Some((acc, i))
    }
}

/// Whether the token `i` is `expected`, by its kind.
pub open spec fn is_at(t: Seq<Token>, i: int, expected: Token) -> bool {
    0 <= i < t.len() && match (t[i], expected) {
        (Token::Then, Token::Then) => true,
        (Token::Else, Token::Else) => true,
        (Token::Do, Token::Do) => true,
        (Token::Assign, Token::Assign) => true,
        (Token::LCurlyBracket, Token::LCurlyBracket) => true,
        (Token::RCurlyBracket, Token::RCurlyBracket) => true,
        (Token::Semicolon, Token::Semicolon) => true,
        _ => false,
    }
}

/// The atomic statement that begins at the token `i`.
pub open spec fn atom(t: Seq<Token>, i: int) -> Parsed<Statement>
    decreases t.len() - i, 9nat,
{
    if i < 0 || i >= t.len() {
        None
    } else {
        match t[i] {
            Token::Skip => Some((Statement::Skip, i + 1)),
            Token::Identifier(name) => if is_at(t, i + 1, Token::Assign) {
                match sum(t, i + 2) {
                    Some((value, j)) => Some(
                        (Statement::Assignment(Assignment { var: name, value: Box::new(value) }), j),
                    ),
                    None => None,
                }
            } else {
                None
            },
            Token::If => match conjunction(t, i + 1) {
                Some((guard, j)) => if i < j && is_at(t, j, Token::Then) {
                    match block(t, j + 1) {
                        Some((true_branch, k)) => if j < k && is_at(t, k, Token::Else) {
                            match block(t, k + 1) {
                                Some((false_branch, l)) => Some(
                                    (
                                        Statement::Conditional {
                                            guard: Box::new(guard),
                                            true_branch: Box::new(true_branch),
                                            false_branch: Box::new(false_branch),
                                        },
                                        l,
                                    ),
                                ),
                                None => None,
                            }
                        } else {
                            None
                        },
                        None => None,
                    }
                } else {
                    None
                },
                None => None,
            },
            Token::While(pos) => match conjunction(t, i + 1) {
                Some((guard, j)) => if i < j && is_at(t, j, Token::Do) {
                    match block(t, j + 1) {
                        Some((body, k)) => Some(
                            (
                                Statement::While {
                                    pos,
                                    guard: Box::new(guard),
                                    body: Box::new(body),
                                },
                                k,
                            ),
                        ),
                        None => None,
                    }
                } else {
                    None
                },
                None => None,
            },
            _ => None,
        }
    }
}

/// The block that begins at the token `i`: a statement between braces, or
/// an atomic statement.
pub open spec fn block(t: Seq<Token>, i: int) -> Parsed<Statement>
    decreases t.len() - i, 10nat,
{
    if i < 0 || i >= t.len() {
        None
    } else if t[i] is LCurlyBracket {
        match statement(t, i + 1) {
            Some((s, j)) => if i < j && is_at(t, j, Token::RCurlyBracket) {
                Some((s, j + 1))
            } else {
                None
            },
            None => None,
        }
    } else {
        atom(t, i)
    }
}

/// The statement that begins at the token `i`.
pub open spec fn statement(t: Seq<Token>, i: int) -> Parsed<Statement>
    decreases t.len() - i, 11nat,
{
    if i < 0 || i >= t.len() {
        None
    } else {
        match atom(t, i) {
            Some((s, j)) => if i < j <= t.len() {
                statement_rest(t, j, s)
            } else {
                None
            },
            None => None,
        }
    }
}

/// The statement whose first atomic statements make `acc` and whose next
/// `;`, if there is one, is the token `i`.
pub open spec fn statement_rest(t: Seq<Token>, i: int, acc: Statement) -> Parsed<Statement>
    decreases t.len() - i, 12nat,
{
    if is_at(t, i, Token::Semicolon) {
        match atom(t, i + 1) {
            Some((s, j)) => if i < j <= t.len() {
                statement_rest(t, j, Statement::Composition { lhs: Box::new(acc), rhs: Box::new(s) })
            } else {
                None
            },
            None => None,
        }
    } else {
        Some((acc, i))
    }
}

/// The program that the tokens write: a statement that takes all of them.
pub open spec fn program(t: Seq<Token>) -> Option<Statement> {
    match statement(t, 0) {
        Some((s, j)) => if j == t.len() {
            Some(s)
        } else {
            None
        },
        None => None,
    }
}

/// Whether an executable result is the specified one, with an index that
/// lies after `i` and within the tokens.
pub open spec fn agrees<T>(r: Option<(T, usize)>, expected: Parsed<T>, i: usize, len: nat) -> bool {
    match r {
        Some((x, j)) => expected == Some((x, j as int)) && i < j <= len,
        None => expected is None,
    }
}

/// The parser of statements.
pub struct StatementParser {}

impl StatementParser {
    /// A parser.
    pub fn new() -> Self {
        StatementParser {  }
    }

    fn parse_factor(tokens: &Vec<Token>, i: usize) -> (r: Option<(ArithmeticExp, usize)>)
        ensures
            agrees(r, factor(tokens@, i as int), i, tokens@.len()),
        decreases tokens.len() - i, 0nat,
    {
        if i >= tokens.len() {
            return None;
        }
        match &tokens[i] {
            Token::Integer(x) => Some((ArithmeticExp::Integer(*x), i + 1)),
            Token::Identifier(name) => Some((ArithmeticExp::Variable(name.clone()), i + 1)),
            Token::LParen => match Self::parse_sum(tokens, i + 1) {
                Some((e, j)) => {
                    if j < tokens.len() && matches!(tokens[j], Token::RParen) {
                        Some((e, j + 1))
                    } else {
                        None
                    }
                },
                None => None,
            },
            Token::OperatorSub => match Self::parse_factor(tokens, i + 1) {
                Some((f, j)) => {
                    let negated = match f {
                        ArithmeticExp::Integer(x) => {
                            if x > i64::MIN {
                                ArithmeticExp::Integer(-x)
                            } else {
                                ArithmeticExp::BinaryOperation {
                                    lhs: Box::new(ArithmeticExp::Integer(0)),
                                    operator: Operator::Sub,
                                    rhs: Box::new(ArithmeticExp::Integer(x)),
                                }
                            }
                        },
                        other => ArithmeticExp::BinaryOperation {
                            lhs: Box::new(ArithmeticExp::Integer(0)),
                            operator: Operator::Sub,
                            rhs: Box::new(other),
                        },
                    };
                    Some((negated, j))
                },
                None => None,
            },
            _ => None,
        }
    }

    fn parse_product(tokens: &Vec<Token>, i: usize) -> (r: Option<(ArithmeticExp, usize)>)
        ensures
            agrees(r, product(tokens@, i as int), i, tokens@.len()),
        decreases tokens.len() - i, 1nat,
    {
        if i >= tokens.len() {
            return None;
        }
        match Self::parse_factor(tokens, i) {
            Some((f, j)) => Self::parse_product_rest(tokens, j, f, Ghost(i)),
            None => None,
        }
    }

    fn parse_product_rest(
        tokens: &Vec<Token>,
        i: usize,
        acc: ArithmeticExp,
        Ghost(from): Ghost<usize>,
    ) -> (r: Option<(ArithmeticExp, usize)>)
        requires
            from < i <= tokens.len(),
        ensures
            agrees(r, product_rest(tokens@, i as int, acc), from, tokens@.len()),
        decreases tokens.len() - i, 2nat,
    {
        let operator = if i < tokens.len() && matches!(tokens[i], Token::OperatorMul) {
            Operator::Mul
        } else if i < tokens.len() && matches!(tokens[i], Token::OperatorDiv) {
            Operator::Div
        } else {
            return Some((acc, i));
        };
        match Self::parse_factor(tokens, i + 1) {
            Some((f, j)) => {
                let next = ArithmeticExp::BinaryOperation {
                    lhs: Box::new(acc),
                    operator,
                    rhs: Box::new(f),
                };
                Self::parse_product_rest(tokens, j, next, Ghost(from))
            },
            None => None,
        }
    }

    fn parse_sum(tokens: &Vec<Token>, i: usize) -> (r: Option<(ArithmeticExp, usize)>)
        ensures
            agrees(r, sum(tokens@, i as int), i, tokens@.len()),
        decreases tokens.len() - i, 3nat,
    {
        if i >= tokens.len() {
            return None;
        }
        match Self::parse_product(tokens, i) {
            Some((p, j)) => Self::parse_sum_rest(tokens, j, p, Ghost(i)),
            None => None,
        }
    }

    fn parse_sum_rest(
        tokens: &Vec<Token>,
        i: usize,
        acc: ArithmeticExp,
        Ghost(from): Ghost<usize>,
    ) -> (r: Option<(ArithmeticExp, usize)>)
        requires
            from < i <= tokens.len(),
        ensures
            agrees(r, sum_rest(tokens@, i as int, acc), from, tokens@.len()),
        decreases tokens.len() - i, 4nat,
    {
        let operator = if i < tokens.len() && matches!(tokens[i], Token::OperatorAdd) {
            Operator::Add
        } else if i < tokens.len() && matches!(tokens[i], Token::OperatorSub) {
            Operator::Sub
        } else {
            return Some((acc, i));
        };
        match Self::parse_product(tokens, i + 1) {
            Some((p, j)) => {
                let next = ArithmeticExp::BinaryOperation {
                    lhs: Box::new(acc),
                    operator,
                    rhs: Box::new(p),
                };
                Self::parse_sum_rest(tokens, j, next, Ghost(from))
            },
            None => None,
        }
    }

    fn parse_comparison(tokens: &Vec<Token>, i: usize) -> (r: Option<(BooleanExp, usize)>)
        ensures
            agrees(r, comparison(tokens@, i as int), i, tokens@.len()),
        decreases tokens.len() - i, 5nat,
    {
        if i >= tokens.len() {
            return None;
        }
        match Self::parse_sum(tokens, i) {
            Some((lhs, j)) => {
                let operator = if j < tokens.len() && matches!(tokens[j], Token::Equal) {
                    ConditionOperator::Equal
                } else if j < tokens.len() && matches!(tokens[j], Token::StrictlyLess) {
                    ConditionOperator::StrictlyLess
                } else {
                    return None;
                };
                match Self::parse_sum(tokens, j + 1) {
                    Some((rhs, k)) => Some(
                        (
                            BooleanExp::ArithmeticCondition(
                                ArithmeticCondition::normal_form(
                                    Box::new(lhs),
                                    operator,
                                    Box::new(rhs),
                                ),
                            ),
                            k,
                        ),
                    ),
                    None => None,
                }
            },
            None => None,
        }
    }

    fn parse_literal(tokens: &Vec<Token>, i: usize) -> (r: Option<(BooleanExp, usize)>)
        ensures
            agrees(r, literal(tokens@, i as int), i, tokens@.len()),
        decreases tokens.len() - i, 6nat,
    {
        if i >= tokens.len() {
            return None;
        }
        match &tokens[i] {
            Token::Boolean(b) => Some((BooleanExp::Boolean(*b), i + 1)),
            Token::Not => match Self::parse_literal(tokens, i + 1) {
                Some((b, j)) => Some((b.negation(), j)),
                None => None,
            },
            Token::LParen => match Self::parse_comparison(tokens, i) {
                Some(r) => Some(r),
                None => match Self::parse_conjunction(tokens, i + 1) {
                    Some((b, j)) => {
                        if j < tokens.len() && matches!(tokens[j], Token::RParen) {
                            Some((b, j + 1))
                        } else {
                            None
                        }
                    },
                    None => None,
                },
            },
            _ => Self::parse_comparison(tokens, i),
        }
    }

    fn parse_conjunction(tokens: &Vec<Token>, i: usize) -> (r: Option<(BooleanExp, usize)>)
        ensures
            agrees(r, conjunction(tokens@, i as int), i, tokens@.len()),
        decreases tokens.len() - i, 7nat,
    {
        if i >= tokens.len() {
            return None;
        }
        match Self::parse_literal(tokens, i) {
            Some((b, j)) => Self::parse_conjunction_rest(tokens, j, b, Ghost(i)),
            None => None,
        }
    }

    fn parse_conjunction_rest(
        tokens: &Vec<Token>,
        i: usize,
        acc: BooleanExp,
        Ghost(from): Ghost<usize>,
    ) -> (r: Option<(BooleanExp, usize)>)
        requires
            from < i <= tokens.len(),
        ensures
            agrees(r, conjunction_rest(tokens@, i as int, acc), from, tokens@.len()),
        decreases tokens.len() - i, 8nat,
    {
        if i < tokens.len() && matches!(tokens[i], Token::And) {
            match Self::parse_literal(tokens, i + 1) {
                Some((b, j)) => {
                    let next = BooleanExp::And { lhs: Box::new(acc), rhs: Box::new(b) };
                    Self::parse_conjunction_rest(tokens, j, next, Ghost(from))
                },
                None => None,
            }
        } else {
            Some((acc, i))
        }
    }

    fn parse_atom(tokens: &Vec<Token>, i: usize) -> (r: Option<(Statement, usize)>)
        ensures
            agrees(r, atom(tokens@, i as int), i, tokens@.len()),
        decreases tokens.len() - i, 9nat,
    {
        if i >= tokens.len() {
            return None;
        }
        match &tokens[i] {
            Token::Skip => Some((Statement::Skip, i + 1)),
            Token::Identifier(name) => {
                if i + 1 < tokens.len() && matches!(tokens[i + 1], Token::Assign) {
                    match Self::parse_sum(tokens, i + 2) {
                        Some((value, j)) => Some(
                            (
                                Statement::Assignment(
                                    Assignment { var: name.clone(), value: Box::new(value) },
                                ),
                                j,
                            ),
                        ),
                        None => None,
                    }
                } else {
                    None
                }
            },
            Token::If => match Self::parse_conjunction(tokens, i + 1) {
                Some((guard, j)) => {
                    if !(j < tokens.len() && matches!(tokens[j], Token::Then)) {
                        return None;
                    }
                    match Self::parse_block(tokens, j + 1) {
                        Some((true_branch, k)) => {
                            if !(k < tokens.len() && matches!(tokens[k], Token::Else)) {
                                return None;
                            }
                            match Self::parse_block(tokens, k + 1) {
                                Some((false_branch, l)) => Some(
                                    (
                                        Statement::Conditional {
                                            guard: Box::new(guard),
                                            true_branch: Box::new(true_branch),
                                            false_branch: Box::new(false_branch),
                                        },
                                        l,
                                    ),
                                ),
                                None => None,
                            }
                        },
                        None => None,
                    }
                },
                None => None,
            },
            Token::While(pos) => match Self::parse_conjunction(tokens, i + 1) {
                Some((guard, j)) => {
                    if !(j < tokens.len() && matches!(tokens[j], Token::Do)) {
                        return None;
                    }
                    match Self::parse_block(tokens, j + 1) {
                        Some((body, k)) => Some(
                            (
                                Statement::While {
                                    pos: *pos,
                                    guard: Box::new(guard),
                                    body: Box::new(body),
                                },
                                k,
                            ),
                        ),
                        None => None,
                    }
                },
                None => None,
            },
            _ => None,
        }
    }

    fn parse_block(tokens: &Vec<Token>, i: usize) -> (r: Option<(Statement, usize)>)
        ensures
            agrees(r, block(tokens@, i as int), i, tokens@.len()),
        decreases tokens.len() - i, 10nat,
    {
        if i >= tokens.len() {
            return None;
        }
        if matches!(tokens[i], Token::LCurlyBracket) {
            match Self::parse_statement(tokens, i + 1) {
                Some((s, j)) => {
                    if j < tokens.len() && matches!(tokens[j], Token::RCurlyBracket) {
                        Some((s, j + 1))
                    } else {
                        None
                    }
                },
                None => None,
            }
        } else {
            Self::parse_atom(tokens, i)
        }
    }

    fn parse_statement(tokens: &Vec<Token>, i: usize) -> (r: Option<(Statement, usize)>)
        ensures
            agrees(r, statement(tokens@, i as int), i, tokens@.len()),
        decreases tokens.len() - i, 11nat,
    {
        if i >= tokens.len() {
            return None;
        }
        match Self::parse_atom(tokens, i) {
            Some((s, j)) => Self::parse_statement_rest(tokens, j, s, Ghost(i)),
            None => None,
        }
    }

    fn parse_statement_rest(
        tokens: &Vec<Token>,
        i: usize,
        acc: Statement,
        Ghost(from): Ghost<usize>,
    ) -> (r: Option<(Statement, usize)>)
        requires
            from < i <= tokens.len(),
        ensures
            agrees(r, statement_rest(tokens@, i as int, acc), from, tokens@.len()),
        decreases tokens.len() - i, 12nat,
    {
        if i < tokens.len() && matches!(tokens[i], Token::Semicolon) {
            match Self::parse_atom(tokens, i + 1) {
                Some((s, j)) => {
                    let next = Statement::Composition { lhs: Box::new(acc), rhs: Box::new(s) };
                    Self::parse_statement_rest(tokens, j, next, Ghost(from))
                },
                None => None,
            }
        } else {
            Some((acc, i))
        }
    }

    /// The program that the tokens write.
    pub fn parse(&self, tokens: &Vec<Token>) -> (r: Result<Statement, ParseError>)
        ensures
            match r {
                Ok(s) => program(tokens@) == Some(s),
                Err(e) => e == ParseError::Syntax && program(tokens@) is None,
            },
    {
        match Self::parse_statement(tokens, 0) {
            Some((s, j)) => {
                if j == tokens.len() {
                    Ok(s)
                } else {
                    Err(ParseError::Syntax)
                }
            },
            None => Err(ParseError::Syntax),
        }
    }
}

/// Reads the program that a source text writes.
pub fn parse_source(source: &str) -> (r: Result<Statement, ParseError>)
    ensures
        match r {
            Ok(s) => exists|tokens: Seq<Token>|
                tokens_of(source@) == Ok::<Seq<crate::parser::tokens::Lexeme>, LexicalError>(
                    lexemes(tokens),
                ) && #[trigger] program(tokens) == Some(s),
            Err(ParseError::Lexical(e)) => tokens_of(source@) == Err::<
                Seq<crate::parser::tokens::Lexeme>,
                LexicalError,
            >(e),
            Err(ParseError::Syntax) => exists|tokens: Seq<Token>|
                tokens_of(source@) == Ok::<Seq<crate::parser::tokens::Lexeme>, LexicalError>(
                    lexemes(tokens),
                ) && #[trigger] program(tokens) is None,
        },
{
    match tokenize(source) {
        Ok(tokens) => StatementParser::new().parse(&tokens),
        Err(e) => Err(ParseError::Lexical(e)),
    }
}

} // verus!
