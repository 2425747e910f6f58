//! An arithmetic-expression front end: a scanner that turns text into tokens,
//! a precedence-climbing parser that turns tokens into a syntax tree, and the
//! tree's fully parenthesized rendering. Every function is verified against a
//! mathematical model of tokens, token sequences and trees.
//!
//! The modules, leaf first: this root holds the token model; `lexer` the
//! scanner; `expression` the syntax tree; `evaluate` the protocol by which a
//! tree is reduced to a value; `parser` the grammar and the parser; `binding`
//! what the grammar yields on expressions of given shapes; `roundtrip` the
//! proof that a tree's rendering reads back as the tree; `texts` the laws of
//! `binding` once more, stated of texts and renderings.

use vstd::prelude::*;

pub mod binding;
pub mod evaluate;
pub mod expression;
pub mod lexer;
pub mod parser;
pub mod roundtrip;
pub mod texts;

verus! {

/// Binding strength of a token in infix position, from weakest to strongest.
#[derive(Debug, Clone, Copy, PartialEq, Eq, Structural, PartialOrd, Ord)]
pub enum Precedence {
    Lowest,
    /// `+` and `-`
    Sum,
    /// `*`, `/` and `%`
    Product,
    /// `-` ahead of an operand
    Prefix,
    /// `^`
    Pow,
    /// `(...)`
    Grouping,
}

impl Precedence {
    /// Position of the level in the total order, `Lowest` being 0.
    pub open spec fn rank(self) -> nat {
        match self {
            Precedence::Lowest => 0,
            Precedence::Sum => 1,
            Precedence::Product => 2,
            Precedence::Prefix => 3,
            Precedence::Pow => 4,
            Precedence::Grouping => 5,
        }
    }

    /// The level's position in the total order as a machine integer.
    pub fn level(&self) -> (r: u8)
        ensures
            r as nat == self.rank(),
    {
        match self {
            Precedence::Lowest => 0,
            Precedence::Sum => 1,
            Precedence::Product => 2,
            Precedence::Prefix => 3,
            Precedence::Pow => 4,
            Precedence::Grouping => 5,
        }
    }
}

/// Lexical category of a token.
#[derive(Debug, PartialEq, Eq, Structural, Hash, Clone, Copy)]
pub enum TokenType {
    Int,
    Plus,
    Minus,
    Multiply,
    Divide,
    Mod,
    Pow,
    LeftParen,
    RightParen,
    EOF,
    Illegal,
}

/// The precedence that a token of the given category has in infix position.
/// Categories that are not infix operators bind at the lowest level.
pub open spec fn precedence_of(kind: TokenType) -> Precedence {
    match kind {
        TokenType::Plus | TokenType::Minus => Precedence::Sum,
        TokenType::Multiply | TokenType::Divide | TokenType::Mod => Precedence::Product,
        TokenType::Pow => Precedence::Pow,
        TokenType::LeftParen => Precedence::Grouping,
        _ => Precedence::Lowest,
    }
}

/// Whether the category is one of the six binary operators.
pub open spec fn is_binary_operator(kind: TokenType) -> bool {
    kind == TokenType::Plus || kind == TokenType::Minus || kind == TokenType::Multiply || kind
        == TokenType::Divide || kind == TokenType::Pow || kind == TokenType::Mod
}

/// Mathematical value of a token: its category and its text as a sequence of
/// characters.
pub struct SpecToken {
    pub kind: TokenType,
    pub text: Seq<char>,
}

/// A lexical unit: its category and the exact source text it was read from.
#[derive(Debug, PartialEq)]
pub struct Token(pub TokenType, pub String);

impl View for Token {
    type V = SpecToken;

    open spec fn view(&self) -> SpecToken {
        SpecToken { kind: self.0, text: self.1@ }
    }
}

impl Token {
    /// A token of the given category with the given text.
    pub fn new(token_type: TokenType, literal: String) -> (token: Self)
        ensures
            token.0 == token_type,
            token.1 == literal,
            token@ == (SpecToken { kind: token_type, text: literal@ }),
    {
        Token(token_type, literal)
    }

    /// The token's category.
    pub fn token_type(&self) -> (kind: TokenType)
        ensures
            kind == self.0,
    {
        self.0
    }

    /// A copy of the token's text.
    pub fn literal(&self) -> (text: String)
        ensures
            text@ == self@.text,
    {
        self.1.clone()
    }

    /// The precedence that the token has in infix position.
    pub fn precedence(&self) -> (level: Precedence)
        ensures
            level == precedence_of(self.0),
    {
        match self.0 {
            TokenType::Plus | TokenType::Minus => Precedence::Sum,
            TokenType::Multiply | TokenType::Divide | TokenType::Mod => Precedence::Product,
            TokenType::Pow => Precedence::Pow,
            TokenType::LeftParen => Precedence::Grouping,
            _ => Precedence::Lowest,
        }
    }
}

impl Clone for Token {
    fn clone(&self) -> (token: Self)
        ensures
            token == *self,
    {
        Token(self.0, self.1.clone())
    }
}

} // verus!
