//! The syntax tree: its mathematical model, its three kinds of node, and its
//! fully parenthesized rendering.

use crate::evaluate::Visitor;
use crate::{SpecToken, Token};
use vstd::prelude::*;

verus! {

/// Mathematical value of a syntax tree.
pub enum SpecExpr {
    /// An integer literal: the token it was read from and its value.
    IntegerLiteral { token: SpecToken, value: int },
    /// A unary operator applied to one operand.
    Prefix { token: SpecToken, right: Box<SpecExpr> },
    /// A binary operator applied to two operands.
    Infix { left: Box<SpecExpr>, token: SpecToken, right: Box<SpecExpr> },
}

/// The fully parenthesized text of a tree: a literal is its own text, a unary
/// node is `(op right)`, a binary node is `(left op right)`.
pub open spec fn render(e: SpecExpr) -> Seq<char>
    decreases e,
{
    match e {
        SpecExpr::IntegerLiteral { token, .. } => token.text,
        SpecExpr::Prefix { token, right } => seq!['('] + token.text + seq![' '] + render(*right)
            + seq![')'],
        SpecExpr::Infix { left, token, right } => seq!['('] + render(*left) + seq![' ']
            + token.text + seq![' '] + render(*right) + seq![')'],
    }
}

/// The number of nodes of a tree. No path from the root to a leaf is longer.
pub open spec fn node_count(e: SpecExpr) -> nat
    decreases e,
{
    match e {
        SpecExpr::IntegerLiteral { .. } => 1,
        SpecExpr::Prefix { right, .. } => 1 + node_count(*right),
        SpecExpr::Infix { left, right, .. } => 1 + node_count(*left) + node_count(*right),
    }
}

/// An integer literal: the token it was read from and the value of its text.
#[derive(Debug, PartialEq)]
pub struct IntegerLiteralExpression {
    pub token: Token,
    pub value: i64,
}

/// A binary operator with its two operands.
#[derive(Debug, PartialEq)]
pub struct InfixExpression {
    pub left: Box<Expression>,
    pub token: Token,
    pub right: Box<Expression>,
}

/// A unary operator with its operand.
#[derive(Debug, PartialEq)]
pub struct PrefixExpression {
    pub token: Token,
    pub right: Box<Expression>,
}

/// A syntax tree: one of the three kinds of node. A node owns its operands.
#[derive(Debug, PartialEq)]
pub enum Expression {
    IntegerLiteral(IntegerLiteralExpression),
    Prefix(PrefixExpression),
    Infix(InfixExpression),
}

/// A node that can hand itself to a visitor whose results are of type `T`.
pub trait Visitable<T> {
    /// Calls the visitor's method for this kind of node on this node and
    /// returns what the method returns.
    fn accept<V: Visitor<Result = T>>(&self, visitor: &V) -> (result: T);
}

impl Clone for IntegerLiteralExpression {
    fn clone(&self) -> (copy: Self)
        ensures
            copy == *self,
    {
        IntegerLiteralExpression { token: self.token.clone(), value: self.value }
    }
}

impl IntegerLiteralExpression {
    /// The node's mathematical value.
    pub open spec fn model(&self) -> SpecExpr {
        SpecExpr::IntegerLiteral { token: self.token@, value: self.value as int }
    }

    /// The text of the node's token.
    pub fn token_literal(&self) -> (text: String)
        ensures
            text@ == self.token@.text,
    {
        self.token.1.clone()
    }

    /// The literal's text.
    pub fn to_string(&self) -> (text: String)
        ensures
            text@ == render(self@),
    {
        self.token.1.clone()
    }
}

impl PrefixExpression {
    /// The node's mathematical value.
    pub open spec fn model(&self) -> SpecExpr
        decreases self,
    {
        SpecExpr::Prefix { token: self.token@, right: Box::new(self.right.model()) }
    }

    /// The text of the node's token.
    pub fn token_literal(&self) -> (text: String)
        ensures
            text@ == self.token@.text,
    {
        self.token.1.clone()
    }

    /// The node as `(op right)`, the operand rendered in the same way.
    pub fn to_string(&self) -> (text: String)
        ensures
            text@ == render(self@),
        decreases self,
    {
        let right = self.right.to_string();
        let mut text = String::new();
        text.append("(");
        text.append(self.token.1.as_str());
        text.append(" ");
        text.append(right.as_str());
        text.append(")");
        proof {
            reveal_strlit("(");
            reveal_strlit(" ");
            reveal_strlit(")");
            assert("("@ =~= seq!['(']);
            assert(" "@ =~= seq![' ']);
            assert(")"@ =~= seq![')']);
            assert(text@ =~= render(self@));
        }
        text
    }
}

impl InfixExpression {
    /// The node's mathematical value.
    pub open spec fn model(&self) -> SpecExpr
        decreases self,
    {
        SpecExpr::Infix {
            left: Box::new(self.left.model()),
            token: self.token@,
            right: Box::new(self.right.model()),
        }
    }

    /// The text of the node's token.
    pub fn token_literal(&self) -> (text: String)
        ensures
            text@ == self.token@.text,
    {
        self.token.1.clone()
    }

    /// The node as `(left op right)`, the operands rendered in the same way.
    pub fn to_string(&self) -> (text: String)
        ensures
            text@ == render(self@),
        decreases self,
    {
        let left = self.left.to_string();
        let right = self.right.to_string();
        let mut text = String::new();
        text.append("(");
        text.append(left.as_str());
        text.append(" ");
        text.append(self.token.1.as_str());
        text.append(" ");
        text.append(right.as_str());
        text.append(")");
        proof {
            reveal_strlit("(");
            reveal_strlit(" ");
            reveal_strlit(")");
            assert("("@ =~= seq!['(']);
            assert(" "@ =~= seq![' ']);
            assert(")"@ =~= seq![')']);
            assert(text@ =~= render(self@));
        }
        text
    }
}

impl Expression {
    /// The tree's mathematical value.
    pub open spec fn model(&self) -> SpecExpr
        decreases self,
    {
        match self {
            Expression::IntegerLiteral(e) => e.model(),
            Expression::Prefix(e) => e.model(),
            Expression::Infix(e) => e.model(),
        }
    }

    /// The text of the token of the tree's root.
    pub fn token_literal(&self) -> (text: String)
        ensures
            text@ == root_token(self@).text,
    {
        match self {
            Expression::IntegerLiteral(e) => e.token_literal(),
            Expression::Prefix(e) => e.token_literal(),
            Expression::Infix(e) => e.token_literal(),
        }
    }

    /// The fully parenthesized text of the tree.
    pub fn to_string(&self) -> (text: String)
        ensures
            text@ == render(self@),
        decreases self,
    {
        match self {
            Expression::IntegerLiteral(e) => e.to_string(),
            Expression::Prefix(e) => e.to_string(),
            Expression::Infix(e) => e.to_string(),
        }
    }
}

/// The token of the root of a tree.
pub open spec fn root_token(e: SpecExpr) -> SpecToken {
    match e {
        SpecExpr::IntegerLiteral { token, .. } => token,
        SpecExpr::Prefix { token, .. } => token,
        SpecExpr::Infix { token, .. } => token,
    }
}

impl View for IntegerLiteralExpression {
    type V = SpecExpr;

    open spec fn view(&self) -> SpecExpr {
        self.model()
    }
}

impl View for PrefixExpression {
    type V = SpecExpr;

    open spec fn view(&self) -> SpecExpr {
        self.model()
    }
}

impl View for InfixExpression {
    type V = SpecExpr;

    open spec fn view(&self) -> SpecExpr {
        self.model()
    }
}

impl View for Expression {
    type V = SpecExpr;

    open spec fn view(&self) -> SpecExpr {
        self.model()
    }
}

impl<T> Visitable<T> for IntegerLiteralExpression {
    fn accept<V: Visitor<Result = T>>(&self, visitor: &V) -> (result: T)
        ensures
            call_ensures(V::visit_integer_literal, (visitor, self), result),
    {
        visitor.visit_integer_literal(self)
    }
}

impl<T> Visitable<T> for PrefixExpression {
    fn accept<V: Visitor<Result = T>>(&self, visitor: &V) -> (result: T)
        ensures
            call_ensures(V::visit_prefix_expression, (visitor, self), result),
    {
        visitor.visit_prefix_expression(self)
    }
}

impl<T> Visitable<T> for InfixExpression {
    fn accept<V: Visitor<Result = T>>(&self, visitor: &V) -> (result: T)
        ensures
            call_ensures(V::visit_infix_expression, (visitor, self), result),
    {
        visitor.visit_infix_expression(self)
    }
}

impl<T> Visitable<T> for Expression {
    fn accept<V: Visitor<Result = T>>(&self, visitor: &V) -> (result: T)
        ensures
            match self {
                Expression::IntegerLiteral(e) => call_ensures(
                    V::visit_integer_literal,
                    (visitor, e),
                    result,
                ),
                Expression::Prefix(e) => call_ensures(
                    V::visit_prefix_expression,
                    (visitor, e),
                    result,
                ),
                Expression::Infix(e) => call_ensures(
                    V::visit_infix_expression,
                    (visitor, e),
                    result,
                ),
            },
    {
        match self {
            Expression::IntegerLiteral(e) => visitor.visit_integer_literal(e),
            Expression::Prefix(e) => visitor.visit_prefix_expression(e),
            Expression::Infix(e) => visitor.visit_infix_expression(e),
        }
    }
}

} // verus!
