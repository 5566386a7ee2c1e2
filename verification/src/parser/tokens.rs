//! The tokens of the source language.

use vstd::prelude::*;
use crate::parser::ast::Position;

verus! {

/// What can be wrong with the characters of a source text.
#[derive(Default, Debug, Clone, Copy, PartialEq, Eq, Structural)]
pub enum LexicalError {
    /// An integer literal that does not fit 64 bits.
    InvalidInteger,
    /// A character that begins no token.
    #[default]
    InvalidToken,
}

/// A token. The lexer gives neither `Newline`, which it counts and passes
/// over, nor `Error`, in whose place it reports a `LexicalError`; the parser
/// takes both for errors.
#[derive(Clone, Debug, PartialEq)]
pub enum Token {
    Identifier(String),
    Integer(i64),
    If,
    Then,
    Else,
    /// `while`, with the place where it stands.
    While(Position),
    Do,
    Skip,
    LCurlyBracket,
    RCurlyBracket,
    LParen,
    RParen,
    Assign,
    Semicolon,
    OperatorAdd,
    OperatorSub,
    OperatorMul,
    OperatorDiv,
    Boolean(bool),
    Equal,
    StrictlyLess,
    Not,
    And,
    Newline,
    Error,
}

/// A token as specifications see it: with the characters of a name.
pub enum Lexeme {
    Identifier(Seq<char>),
    Integer(i64),
    If,
    Then,
    Else,
    While(Position),
    Do,
    Skip,
    LCurlyBracket,
    RCurlyBracket,
    LParen,
    RParen,
    Assign,
    Semicolon,
    OperatorAdd,
    OperatorSub,
    OperatorMul,
    OperatorDiv,
    Boolean(bool),
    Equal,
    StrictlyLess,
    Not,
    And,
    Newline,
    Error,
}

impl View for Token {
    type V = Lexeme;

    open spec fn view(&self) -> Lexeme {
        match *self {
            Token::Identifier(s) => Lexeme::Identifier(s@),
            Token::Integer(x) => Lexeme::Integer(x),
            Token::If => Lexeme::If,
            Token::Then => Lexeme::Then,
            Token::Else => Lexeme::Else,
            Token::While(p) => Lexeme::While(p),
            Token::Do => Lexeme::Do,
            Token::Skip => Lexeme::Skip,
            Token::LCurlyBracket => Lexeme::LCurlyBracket,
            Token::RCurlyBracket => Lexeme::RCurlyBracket,
            Token::LParen => Lexeme::LParen,
            Token::RParen => Lexeme::RParen,
            Token::Assign => Lexeme::Assign,
            Token::Semicolon => Lexeme::Semicolon,
            Token::OperatorAdd => Lexeme::OperatorAdd,
            Token::OperatorSub => Lexeme::OperatorSub,
            Token::OperatorMul => Lexeme::OperatorMul,
            Token::OperatorDiv => Lexeme::OperatorDiv,
            Token::Boolean(b) => Lexeme::Boolean(b),
            Token::Equal => Lexeme::Equal,
            Token::StrictlyLess => Lexeme::StrictlyLess,
            Token::Not => Lexeme::Not,
            Token::And => Lexeme::And,
            Token::Newline => Lexeme::Newline,
            Token::Error => Lexeme::Error,
        }
    }
}

/// The views of a sequence of tokens.
pub open spec fn lexemes(tokens: Seq<Token>) -> Seq<Lexeme> {
    Seq::new(tokens.len(), |i: int| tokens[i]@)
}

} // verus!
