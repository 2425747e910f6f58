//! How texts of a given shape are read: the laws of `binding`, stated of the
//! characters that `parse` is given and of the rendering of the tree that it
//! returns.

use crate::binding::{
    begins_operand, infix, is_literal, lemma_minus_behind_operator,
    lemma_minus_binds_before_weaker_operator, lemma_no_operand_at_front, lemma_two_operators,
    literal, prefix,
};
use crate::expression::{render, SpecExpr};
use crate::lexer::{is_digit, lemma_spaces_end, scan, spaces_end, symbol_kind, tokens_from};
use crate::parser::{integer_value, parsed_text, ParseError};
use crate::roundtrip::{lemma_digits_at_front, lemma_space_at_front, lemma_symbol_at_front};
use crate::{is_binary_operator, precedence_of, Precedence, SpecToken, TokenType};
use vstd::prelude::*;

verus! {

/// Whether `digits` is the text of an integer literal that has a value.
pub open spec fn is_number(digits: Seq<char>) -> bool {
    integer_value(digits) is Some
}

/// The token of the integer literal with the text `digits`.
pub open spec fn number_token(digits: Seq<char>) -> SpecToken {
    SpecToken { kind: TokenType::Int, text: digits }
}

/// Whether `c` is one of the six binary operators.
pub open spec fn is_operator(c: char) -> bool {
    is_binary_operator(symbol_kind(c))
}

/// The token of the operator `c`.
pub open spec fn operator_token(c: char) -> SpecToken {
    SpecToken { kind: symbol_kind(c), text: seq![c] }
}

/// The rendering of a literal is its text.
pub proof fn lemma_rendered_literal(token: SpecToken)
    ensures
        render(literal(token)) == token.text,
{
}

/// The rendering of a binary node is `(left op right)`.
pub proof fn lemma_rendered_infix(left: SpecExpr, token: SpecToken, right: SpecExpr)
    ensures
        render(infix(left, token, right)) == seq!['('] + render(left) + seq![' '] + token.text
            + seq![' '] + render(right) + seq![')'],
{
}

/// The rendering of a unary node is `(op right)`.
pub proof fn lemma_rendered_prefix(token: SpecToken, right: SpecExpr)
    ensures
        render(prefix(token, right)) == seq!['('] + token.text + seq![' '] + render(right)
            + seq![')'],
{
}

/// A number alone is scanned as its one token.
pub proof fn lemma_number_is_scanned(digits: Seq<char>)
    requires
        is_number(digits),
    ensures
        tokens_from(digits, 0) == seq![number_token(digits)],
{
    let nothing = Seq::<char>::empty();
    assert(digits + nothing =~= digits);
    lemma_digits_at_front(digits, nothing);
    assert(tokens_from(nothing, 0) =~= Seq::<SpecToken>::empty());
    assert(seq![number_token(digits)] + Seq::<SpecToken>::empty() =~= seq![
        number_token(digits),
    ]);
}

/// A number, a space, an operator and a space before a text are scanned as
/// the number's token and the operator's token before the tokens of the text.
pub proof fn lemma_number_and_operator_are_scanned(digits: Seq<char>, c: char, back: Seq<char>)
    requires
        is_number(digits),
        is_operator(c),
    ensures
        tokens_from(digits + seq![' ', c, ' '] + back, 0) == seq![
            number_token(digits),
            operator_token(c),
        ] + tokens_from(back, 0),
{
    let after_operator = seq![' '] + back;
    let from_operator = seq![c] + after_operator;
    let from_space = seq![' '] + from_operator;
    assert(digits + seq![' ', c, ' '] + back =~= digits + from_space);
    assert(from_space[0] == ' ');
    lemma_digits_at_front(digits, from_space);
    lemma_space_at_front(' ', from_operator);
    lemma_symbol_at_front(c, after_operator);
    lemma_space_at_front(' ', back);
    assert(seq![number_token(digits)] + (seq![operator_token(c)] + tokens_from(back, 0))
        =~= seq![number_token(digits), operator_token(c)] + tokens_from(back, 0));
}

/// The text `a x b y c` of three numbers and two operators is read as one
/// tree. Where the second operator binds strictly more strongly than the
/// first, the tree renders as `(a x (b y c))`; otherwise, and so for two
/// operators of one level, the power operator among them, as
/// `((a x b) y c)`.
pub proof fn lemma_text_of_two_operators(
    a: Seq<char>,
    x: char,
    b: Seq<char>,
    y: char,
    c: Seq<char>,
)
    requires
        is_number(a),
        is_number(b),
        is_number(c),
        is_operator(x),
        is_operator(y),
    ensures
        parsed_text(a + seq![' ', x, ' '] + b + seq![' ', y, ' '] + c) matches Ok(tree) && render(
            tree,
        ) == if precedence_of(symbol_kind(x)).rank() < precedence_of(symbol_kind(y)).rank() {
            seq!['('] + a + seq![' ', x, ' ', '('] + b + seq![' ', y, ' '] + c + seq![')', ')']
        } else {
            seq!['(', '('] + a + seq![' ', x, ' '] + b + seq![')', ' ', y, ' '] + c + seq![')']
        },
{
    let text = a + seq![' ', x, ' '] + b + seq![' ', y, ' '] + c;
    let second_half = b + seq![' ', y, ' '] + c;
    let ta = number_token(a);
    let tx = operator_token(x);
    let tb = number_token(b);
    let ty = operator_token(y);
    let tc = number_token(c);
    assert(text =~= a + seq![' ', x, ' '] + second_half);
    lemma_number_and_operator_are_scanned(a, x, second_half);
    lemma_number_and_operator_are_scanned(b, y, c);
    lemma_number_is_scanned(c);
    assert(tokens_from(text, 0) =~= seq![ta, tx, tb, ty, tc]);
    lemma_two_operators(ta, tx, tb, ty, tc);
    if precedence_of(tx.kind).rank() < precedence_of(ty.kind).rank() {
        let inner = infix(literal(tb), ty, literal(tc));
        let tree = infix(literal(ta), tx, inner);
        lemma_rendered_literal(ta);
        lemma_rendered_literal(tb);
        lemma_rendered_literal(tc);
        lemma_rendered_infix(literal(tb), ty, literal(tc));
        lemma_rendered_infix(literal(ta), tx, inner);
        assert(render(inner) =~= seq!['('] + b + seq![' ', y, ' '] + c + seq![')']);
        assert(render(tree) =~= seq!['('] + a + seq![' ', x, ' ', '('] + b + seq![' ', y, ' ']
            + c + seq![')', ')']);
    } else {
        let inner = infix(literal(ta), tx, literal(tb));
        let tree = infix(inner, ty, literal(tc));
        lemma_rendered_literal(ta);
        lemma_rendered_literal(tb);
        lemma_rendered_literal(tc);
        lemma_rendered_infix(literal(ta), tx, literal(tb));
        lemma_rendered_infix(inner, ty, literal(tc));
        assert(render(inner) =~= seq!['('] + a + seq![' ', x, ' '] + b + seq![')']);
        assert(render(tree) =~= seq!['(', '('] + a + seq![' ', x, ' '] + b + seq![
            ')',
            ' ',
            y,
            ' ',
        ] + c + seq![')']);
    }
}

/// The text `-a x b`, where the operator `x` is of a level below that of the
/// minus sign before an operand, is read as a tree that renders as
/// `((- a) x b)`: the minus sign takes `a` first.
pub proof fn lemma_text_of_minus_before_operator(a: Seq<char>, x: char, b: Seq<char>)
    requires
        is_number(a),
        is_number(b),
        is_operator(x),
        precedence_of(symbol_kind(x)).rank() < Precedence::Prefix.rank(),
    ensures
        parsed_text(seq!['-'] + a + seq![' ', x, ' '] + b) matches Ok(tree) && render(tree)
            == seq!['(', '(', '-', ' '] + a + seq![')', ' ', x, ' '] + b + seq![')'],
{
    let text = seq!['-'] + a + seq![' ', x, ' '] + b;
    let behind = a + seq![' ', x, ' '] + b;
    let minus = operator_token('-');
    let ta = number_token(a);
    let tx = operator_token(x);
    let tb = number_token(b);
    assert(text =~= seq!['-'] + behind);
    lemma_symbol_at_front('-', behind);
    lemma_number_and_operator_are_scanned(a, x, b);
    lemma_number_is_scanned(b);
    assert(tokens_from(text, 0) =~= seq![minus, ta, tx, tb]);
    lemma_minus_binds_before_weaker_operator(minus, ta, tx, tb);
    let inner = prefix(minus, literal(ta));
    let tree = infix(inner, tx, literal(tb));
    lemma_rendered_literal(ta);
    lemma_rendered_literal(tb);
    lemma_rendered_prefix(minus, literal(ta));
    lemma_rendered_infix(inner, tx, literal(tb));
    assert(render(inner) =~= seq!['(', '-', ' '] + a + seq![')']);
    assert(render(tree) =~= seq!['(', '(', '-', ' '] + a + seq![')', ' ', x, ' '] + b + seq![
        ')',
    ]);
}

/// The text `a x -b` is read as a tree that renders as `(a x (- b))`,
/// whatever operator `x` is.
pub proof fn lemma_text_of_minus_behind_operator(a: Seq<char>, x: char, b: Seq<char>)
    requires
        is_number(a),
        is_number(b),
        is_operator(x),
    ensures
        parsed_text(a + seq![' ', x, ' '] + (seq!['-'] + b)) matches Ok(tree) && render(tree)
            == seq!['('] + a + seq![' ', x, ' ', '(', '-', ' '] + b + seq![')', ')'],
{
    let signed = seq!['-'] + b;
    let text = a + seq![' ', x, ' '] + signed;
    let minus = operator_token('-');
    let ta = number_token(a);
    let tx = operator_token(x);
    let tb = number_token(b);
    lemma_number_and_operator_are_scanned(a, x, signed);
    lemma_symbol_at_front('-', b);
    lemma_number_is_scanned(b);
    assert(tokens_from(text, 0) =~= seq![ta, tx, minus, tb]);
    lemma_minus_behind_operator(ta, tx, minus, tb);
    let inner = prefix(minus, literal(tb));
    let tree = infix(literal(ta), tx, inner);
    lemma_rendered_literal(ta);
    lemma_rendered_literal(tb);
    lemma_rendered_prefix(minus, literal(tb));
    lemma_rendered_infix(literal(ta), tx, inner);
    assert(render(inner) =~= seq!['(', '-', ' '] + b + seq![')']);
    assert(render(tree) =~= seq!['('] + a + seq![' ', x, ' ', '(', '-', ' '] + b + seq![
        ')',
        ')',
    ]);
}

/// A text that is blank, or whose first character after the white space is no
/// digit, no minus sign and no opening parenthesis, is no expression.
pub proof fn lemma_text_without_operand_at_front(text: Seq<char>)
    requires
        spaces_end(text, 0) >= text.len() || !(is_digit(text[spaces_end(text, 0)])
            || text[spaces_end(text, 0)] == '-' || text[spaces_end(text, 0)] == '('),
    ensures
        parsed_text(text) is Err,
{
    lemma_spaces_end(text, 0);
    let toks = tokens_from(text, 0);
    if toks.len() > 0 {
        assert(toks[0] == scan(text, 0).token);
        assert(!begins_operand(toks[0].kind));
    }
    lemma_no_operand_at_front(toks);
}

/// A text that begins, after white space, with a digit, a minus sign or an
/// opening parenthesis does not fail for want of an operand at its front: its
/// first token begins an operand.
pub proof fn lemma_text_with_operand_at_front(text: Seq<char>)
    requires
        spaces_end(text, 0) < text.len(),
        is_digit(text[spaces_end(text, 0)]) || text[spaces_end(text, 0)] == '-'
            || text[spaces_end(text, 0)] == '(',
    ensures
        tokens_from(text, 0).len() > 0,
        begins_operand(tokens_from(text, 0)[0].kind),
{
    lemma_spaces_end(text, 0);
    assert(tokens_from(text, 0)[0] == scan(text, 0).token);
}

} // verus!
