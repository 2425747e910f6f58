//! The protocol by which a tree is reduced to a value: each node hands itself
//! to the method of a visitor that belongs to its kind.

use crate::expression::{InfixExpression, IntegerLiteralExpression, PrefixExpression};
use vstd::prelude::*;

verus! {

/// A reduction of syntax trees to values of type `Result`, with one method for
/// each kind of node. A method that needs the value of a sub-tree asks the
/// sub-tree to accept the visitor in turn.
pub trait Visitor {
    type Result;

    fn visit_integer_literal(&self, expr: &IntegerLiteralExpression) -> Self::Result;

    fn visit_infix_expression(&self, expr: &InfixExpression) -> Self::Result;

    fn visit_prefix_expression(&self, expr: &PrefixExpression) -> Self::Result;
}

} // verus!
