//! The token vocabulary of the language.

use vstd::prelude::*;

verus! {

/// A classified token: `length` characters starting at offset `start`.
#[derive(PartialEq, Clone, Debug)]
pub struct Token {
    pub start: usize,
    pub length: usize,
    pub kind: TokenType,
}

/// The kinds of token. A floating-point literal is kept as the text that
/// spells it, digits and decimal point.
#[derive(PartialEq, Clone, Debug)]
pub enum TokenType {
    // Data types
    I64,
    U64,
    U8,
    F64,
    Bool,
    Char,
    Type,
    Enum,
    // Keywords
    Let,
    Mut,
    Function,
    Return,
    Yield,
    // Control flow
    While,
    For,
    If,
    Else,
    Match,
    // Grouping
    LParen,
    RParen,
    LSquare,
    RSquare,
    LCurly,
    RCurly,
    // Arithmetic operators
    Plus,
    Minus,
    Multiply,
    Divide,
    Modulus,
    // Bitwise operators
    LeftShift,
    RightShift,
    BitwiseAnd,
    BitwiseOr,
    // Comparisons
    LT,
    LE,
    EQ,
    GE,
    GT,
    Not,
    NE,
    And,
    Or,
    // Symbols
    Assign,
    Colon,
    Semicolon,
    Comma,
    Pound,
    Dot,
    // Literals
    Integer(i128),
    Double(String),
    Character(char),
    StringLiteral(String),
    // Identifier
    Identifier(String),
    // Comments
    MultiLineComment(String),
    LineComment(String),
    Whitespace,
}

/// Two kinds are the same token kind with payloads of equal contents.
pub open spec fn same_kind(a: TokenType, b: TokenType) -> bool {
    match (a, b) {
        (TokenType::Double(x), TokenType::Double(y)) => x@ == y@,
        (TokenType::StringLiteral(x), TokenType::StringLiteral(y)) => x@ == y@,
        (TokenType::Identifier(x), TokenType::Identifier(y)) => x@ == y@,
        (TokenType::MultiLineComment(x), TokenType::MultiLineComment(y)) => x@ == y@,
        (TokenType::LineComment(x), TokenType::LineComment(y)) => x@ == y@,
        _ => a == b,
    }
}

/// Two tokens cover the same span with the same kind.
pub open spec fn same_token(a: Token, b: Token) -> bool {
    a.start == b.start && a.length == b.length && same_kind(a.kind, b.kind)
}

} // verus!
