//! The rendering of a tree reads back as the tree: how scanning a text that
//! is put together from parts follows from scanning the parts, and what that
//! gives for the fully parenthesized text of a tree.

use crate::binding::{
    left_paren, lemma_parenthesized_reads_back, parenthesized, right_paren,
};
use crate::expression::{render, SpecExpr};
use crate::lexer::{
    digits_end, is_digit, is_space, lemma_digits_end, lemma_scan_advances, lemma_spaces_end, scan,
    spaces_end, symbol_kind, tokens_from, Lexeme,
};
use crate::parser::{
    all_digits, continues, is_suffix, lemma_parsed_expression_consumes,
    lemma_parsed_operand_consumes, lemma_parsed_expression_well_formed, parsed_continuation,
    parsed_expression, parsed_operand, parsed_text, well_formed, ParseError,
};
use crate::{is_binary_operator, precedence_of, Precedence, SpecToken, TokenType};
use vstd::prelude::*;

verus! {

/// A run of white space in the second of two texts put together ends where it
/// ends in the second text alone.
pub proof fn lemma_spaces_end_behind(front: Seq<char>, back: Seq<char>, pos: int)
    requires
        0 <= pos,
    ensures
        spaces_end(front + back, front.len() + pos) == front.len() + spaces_end(back, pos),
    decreases back.len() - pos,
{
    let whole = front + back;
    if pos < back.len() {
        assert(whole[front.len() + pos] == back[pos]);
        if is_space(back[pos]) {
            lemma_spaces_end_behind(front, back, pos + 1);
        }
    }
}

/// A run of digits in the second of two texts put together ends where it ends
/// in the second text alone.
pub proof fn lemma_digits_end_behind(front: Seq<char>, back: Seq<char>, pos: int)
    requires
        0 <= pos,
    ensures
        digits_end(front + back, front.len() + pos) == front.len() + digits_end(back, pos),
    decreases back.len() - pos,
{
    let whole = front + back;
    if pos < back.len() {
        assert(whole[front.len() + pos] == back[pos]);
        if is_digit(back[pos]) {
            lemma_digits_end_behind(front, back, pos + 1);
        }
    }
}

/// A scanner that stands in the second of two texts put together reads the
/// token that it reads in the second text alone.
pub proof fn lemma_scan_behind(front: Seq<char>, back: Seq<char>, pos: int)
    requires
        0 <= pos,
    ensures
        scan(front + back, front.len() + pos) == (Lexeme {
            token: scan(back, pos).token,
            end: front.len() + scan(back, pos).end,
        }),
{
    let whole = front + back;
    lemma_spaces_end_behind(front, back, pos);
    lemma_spaces_end(back, pos);
    let start = spaces_end(back, pos);
    if start < back.len() {
        assert(whole[front.len() + start] == back[start]);
        if is_digit(back[start]) {
            lemma_digits_end_behind(front, back, start);
            lemma_digits_end(back, start);
            let end = digits_end(back, start);
            assert(whole.subrange(front.len() + start, front.len() + end) =~= back.subrange(
                start,
                end,
            ));
        } else {
            assert(whole.subrange(front.len() + start, front.len() + start + 1)
                =~= back.subrange(start, start + 1));
        }
    }
}

/// The tokens that are to come in the second of two texts put together are
/// those of the second text alone.
pub proof fn lemma_tokens_behind(front: Seq<char>, back: Seq<char>, pos: int)
    requires
        0 <= pos,
    ensures
        tokens_from(front + back, front.len() + pos) == tokens_from(back, pos),
    decreases back.len() - pos,
{
    lemma_scan_behind(front, back, pos);
    lemma_scan_advances(back, pos);
    if scan(back, pos).token.kind != TokenType::EOF {
        lemma_tokens_behind(front, back, scan(back, pos).end);
    }
}

/// A character that is neither white space nor a digit, at the front of a
/// text, is a token by itself, and the tokens of the rest follow it.
pub proof fn lemma_symbol_at_front(c: char, back: Seq<char>)
    requires
        !is_space(c),
        !is_digit(c),
    ensures
        tokens_from(seq![c] + back, 0) == seq![
            SpecToken { kind: symbol_kind(c), text: seq![c] },
        ] + tokens_from(back, 0),
{
    let front = seq![c];
    let whole = front + back;
    assert(whole[0] == c);
    assert(whole.subrange(0, 1) =~= front);
    lemma_tokens_behind(front, back, 0);
}

/// White space at the front of a text changes nothing in its tokens.
pub proof fn lemma_space_at_front(c: char, back: Seq<char>)
    requires
        is_space(c),
    ensures
        tokens_from(seq![c] + back, 0) == tokens_from(back, 0),
{
    let front = seq![c];
    let whole = front + back;
    assert(whole[0] == c);
    lemma_scan_behind(front, back, 0);
    lemma_scan_advances(back, 0);
    assert(spaces_end(whole, 0) == spaces_end(whole, 1));
    assert(scan(whole, 0) == scan(whole, 1));
    if scan(back, 0).token.kind != TokenType::EOF {
        lemma_tokens_behind(front, back, scan(back, 0).end);
    }
}

/// A run of digits at the front of a text, with no digit behind it, is one
/// integer token, and the tokens of the rest follow it.
pub proof fn lemma_digits_at_front(digits: Seq<char>, back: Seq<char>)
    requires
        digits.len() > 0,
        forall|i: int| 0 <= i < digits.len() ==> is_digit(#[trigger] digits[i]),
        back.len() == 0 || !is_digit(back[0]),
    ensures
        tokens_from(digits + back, 0) == seq![SpecToken { kind: TokenType::Int, text: digits }]
            + tokens_from(back, 0),
{
    let whole = digits + back;
    assert(whole[0] == digits[0]);
    assert(is_digit(digits[0]));
    lemma_run_of_digits(digits, back, 0);
    assert(whole.subrange(0, digits.len() as int) =~= digits);
    lemma_tokens_behind(digits, back, 0);
}

proof fn lemma_run_of_digits(digits: Seq<char>, back: Seq<char>, pos: int)
    requires
        0 <= pos <= digits.len(),
        forall|i: int| 0 <= i < digits.len() ==> is_digit(#[trigger] digits[i]),
        back.len() == 0 || !is_digit(back[0]),
    ensures
        digits_end(digits + back, pos) == digits.len(),
    decreases digits.len() - pos,
{
    let whole = digits + back;
    if pos < digits.len() {
        assert(whole[pos] == digits[pos]);
        lemma_run_of_digits(digits, back, pos + 1);
    } else if back.len() > 0 {
        assert(whole[pos] == back[0]);
    }
}

/// The character that is the text of an operator or a parenthesis.
pub open spec fn symbol_of(kind: TokenType) -> char {
    match kind {
        TokenType::Plus => '+',
        TokenType::Minus => '-',
        TokenType::Multiply => '*',
        TokenType::Divide => '/',
        TokenType::Pow => '^',
        TokenType::Mod => '%',
        TokenType::LeftParen => '(',
        _ => ')',
    }
}

/// Whether the token's text is a text that the scanner reads as this very
/// token: digits for an integer, the one character of an operator or a
/// parenthesis, one character outside the language for an illegal token, and
/// no text for end-of-input.
pub open spec fn has_own_text(token: SpecToken) -> bool {
    match token.kind {
        TokenType::Int => token.text.len() > 0 && all_digits(token.text),
        TokenType::EOF => token.text.len() == 0,
        TokenType::Illegal => token.text.len() == 1 && !is_space(token.text[0]) && !is_digit(
            token.text[0],
        ) && symbol_kind(token.text[0]) == TokenType::Illegal,
        _ => token.text == seq![symbol_of(token.kind)],
    }
}

/// Whether every token of a sequence has its own text.
pub open spec fn have_own_text(toks: Seq<SpecToken>) -> bool {
    forall|i: int| 0 <= i < toks.len() ==> has_own_text(#[trigger] toks[i])
}

/// Whether every token in a tree has its own text.
pub open spec fn written_out(e: SpecExpr) -> bool
    decreases e,
{
    match e {
        SpecExpr::IntegerLiteral { token, .. } => has_own_text(token),
        SpecExpr::Prefix { token, right } => has_own_text(token) && written_out(*right),
        SpecExpr::Infix { left, token, right } => has_own_text(token) && written_out(*left)
            && written_out(*right),
    }
}

/// Every token that the scanner reads has its own text.
pub proof fn lemma_scanned_token_has_own_text(s: Seq<char>, pos: int)
    requires
        0 <= pos <= s.len(),
    ensures
        has_own_text(scan(s, pos).token),
{
    lemma_spaces_end(s, pos);
    let start = spaces_end(s, pos);
    if start < s.len() {
        if is_digit(s[start]) {
            lemma_digits_end(s, start);
            let end = digits_end(s, start);
            let text = s.subrange(start, end);
            assert forall|i: int| 0 <= i < text.len() implies is_digit(#[trigger] text[i]) by {
                assert(text[i] == s[start + i]);
            }
        } else {
            assert(s.subrange(start, start + 1) =~= seq![s[start]]);
        }
    }
}

/// Every token of a text has its own text.
pub proof fn lemma_tokens_have_own_text(s: Seq<char>, pos: int)
    requires
        0 <= pos <= s.len(),
    ensures
        have_own_text(tokens_from(s, pos)),
    decreases s.len() - pos,
{
    lemma_scanned_token_has_own_text(s, pos);
    lemma_scan_advances(s, pos);
    if scan(s, pos).token.kind != TokenType::EOF {
        lemma_tokens_have_own_text(s, scan(s, pos).end);
    }
}

/// What is left of tokens that have their own text has it too.
pub proof fn lemma_suffix_has_own_text(rest: Seq<SpecToken>, toks: Seq<SpecToken>)
    requires
        have_own_text(toks),
        is_suffix(rest, toks),
    ensures
        have_own_text(rest),
{
    assert forall|i: int| 0 <= i < rest.len() implies has_own_text(#[trigger] rest[i]) by {
        assert(rest[i] == toks[toks.len() - rest.len() + i]);
    }
}

/// An operand that is read from tokens with their own text is written out.
pub proof fn lemma_parsed_operand_written_out(toks: Seq<SpecToken>)
    requires
        have_own_text(toks),
    ensures
        parsed_operand(toks) matches Ok(parsed) ==> written_out(parsed.expr),
    decreases toks.len(), 0nat,
{
    if toks.len() > 0 {
        let tail = toks.skip(1);
        assert(is_suffix(tail, toks));
        lemma_suffix_has_own_text(tail, toks);
        match toks[0].kind {
            TokenType::Minus => {
                lemma_parsed_expression_written_out(tail, Precedence::Prefix);
            },
            TokenType::LeftParen => {
                lemma_parsed_expression_written_out(tail, Precedence::Lowest);
            },
            _ => {},
        }
    }
}

/// An expression that is read from tokens with their own text is written
/// out.
pub proof fn lemma_parsed_expression_written_out(toks: Seq<SpecToken>, precedence: Precedence)
    requires
        have_own_text(toks),
    ensures
        parsed_expression(toks, precedence) matches Ok(parsed) ==> written_out(parsed.expr),
    decreases toks.len(), 1nat,
{
    lemma_parsed_operand_written_out(toks);
    lemma_parsed_operand_consumes(toks);
    if let Ok(operand) = parsed_operand(toks) {
        lemma_suffix_has_own_text(operand.rest, toks);
        lemma_parsed_continuation_written_out(operand.expr, operand.rest, precedence);
    }
}

/// What goes on behind a written-out expression, read from tokens with their
/// own text, is written out.
pub proof fn lemma_parsed_continuation_written_out(
    left: SpecExpr,
    rest: Seq<SpecToken>,
    precedence: Precedence,
)
    requires
        written_out(left),
        have_own_text(rest),
    ensures
        parsed_continuation(left, rest, precedence) matches Ok(parsed) ==> written_out(
            parsed.expr,
        ),
    decreases rest.len(), 2nat,
{
    if continues(rest, precedence) {
        let tail = rest.skip(1);
        let level = precedence_of(rest[0].kind);
        assert(is_suffix(tail, rest));
        lemma_suffix_has_own_text(tail, rest);
        lemma_parsed_expression_written_out(tail, level);
        lemma_parsed_expression_consumes(tail, level);
        if let Ok(right) = parsed_expression(tail, level) {
            lemma_suffix_has_own_text(right.rest, tail);
            let joined = SpecExpr::Infix {
                left: Box::new(left),
                token: rest[0],
                right: Box::new(right.expr),
            };
            lemma_parsed_continuation_written_out(joined, right.rest, precedence);
        }
    }
}

/// A text in parentheses is scanned as its tokens between the two
/// parentheses.
pub proof fn lemma_parentheses_are_scanned(
    inside: Seq<char>,
    back: Seq<char>,
    inside_tokens: Seq<SpecToken>,
)
    requires
        tokens_from(inside + (seq![')'] + back), 0) == inside_tokens + tokens_from(
            seq![')'] + back,
            0,
        ),
    ensures
        tokens_from(seq!['('] + inside + seq![')'] + back, 0) == seq![left_paren()]
            + inside_tokens + seq![right_paren()] + tokens_from(back, 0),
{
    let closing = seq![')'] + back;
    let body = inside + closing;
    assert(seq!['('] + inside + seq![')'] + back =~= seq!['('] + body);
    lemma_symbol_at_front('(', body);
    lemma_symbol_at_front(')', back);
    assert(seq![left_paren()] + (inside_tokens + (seq![right_paren()] + tokens_from(back, 0)))
        =~= seq![left_paren()] + inside_tokens + seq![right_paren()] + tokens_from(back, 0));
}

/// An operator with a space and a text behind it is scanned as the operator's
/// token and the tokens of that text.
pub proof fn lemma_operator_is_scanned(token: SpecToken, back: Seq<char>)
    requires
        is_binary_operator(token.kind),
        has_own_text(token),
    ensures
        tokens_from(token.text + seq![' '] + back, 0) == seq![token] + tokens_from(back, 0),
{
    let c = symbol_of(token.kind);
    let spaced = seq![' '] + back;
    assert(token.text + seq![' '] + back =~= seq![c] + spaced);
    lemma_symbol_at_front(c, spaced);
    lemma_space_at_front(' ', back);
    assert(SpecToken { kind: symbol_kind(c), text: seq![c] } == token);
}

/// A minus sign with its operand, in parentheses, is scanned as the tokens
/// of its parts in their order.
pub proof fn lemma_prefix_is_scanned(
    token: SpecToken,
    operand: Seq<char>,
    back: Seq<char>,
    operand_tokens: Seq<SpecToken>,
)
    requires
        is_binary_operator(token.kind),
        has_own_text(token),
        tokens_from(operand + (seq![')'] + back), 0) == operand_tokens + tokens_from(
            seq![')'] + back,
            0,
        ),
    ensures
        tokens_from(seq!['('] + token.text + seq![' '] + operand + seq![')'] + back, 0) == seq![
            left_paren(),
            token,
        ] + operand_tokens + seq![right_paren()] + tokens_from(back, 0),
{
    let closing = seq![')'] + back;
    let inside = token.text + seq![' '] + operand;
    let inside_tokens = seq![token] + operand_tokens;
    lemma_operator_is_scanned(token, operand + closing);
    assert(inside + closing =~= token.text + seq![' '] + (operand + closing));
    assert(seq![token] + (operand_tokens + tokens_from(closing, 0)) =~= inside_tokens
        + tokens_from(closing, 0));
    lemma_parentheses_are_scanned(inside, back, inside_tokens);
    assert(seq!['('] + token.text + seq![' '] + operand + seq![')'] + back =~= seq!['(']
        + inside + seq![')'] + back);
    assert(seq![left_paren(), token] + operand_tokens + seq![right_paren()] + tokens_from(back, 0)
        =~= seq![left_paren()] + inside_tokens + seq![right_paren()] + tokens_from(back, 0));
}

/// The text behind the left-hand side of a binary operator in parentheses:
/// a space, the operator, a space, the right-hand side, and what follows.
pub open spec fn behind_left_side(token: SpecToken, right: Seq<char>, back: Seq<char>) -> Seq<
    char,
> {
    seq![' '] + (token.text + seq![' '] + (right + (seq![')'] + back)))
}

/// A binary operator with its two sides, in parentheses, is scanned as the
/// tokens of its parts in their order.
pub proof fn lemma_infix_is_scanned(
    left: Seq<char>,
    token: SpecToken,
    right: Seq<char>,
    back: Seq<char>,
    left_tokens: Seq<SpecToken>,
    right_tokens: Seq<SpecToken>,
)
    requires
        is_binary_operator(token.kind),
        has_own_text(token),
        tokens_from(right + (seq![')'] + back), 0) == right_tokens + tokens_from(
            seq![')'] + back,
            0,
        ),
        tokens_from(left + behind_left_side(token, right, back), 0) == left_tokens
            + tokens_from(behind_left_side(token, right, back), 0),
    ensures
        tokens_from(
            seq!['('] + left + seq![' '] + token.text + seq![' '] + right + seq![')'] + back,
            0,
        ) == seq![left_paren()] + left_tokens + seq![token] + right_tokens + seq![right_paren()]
            + tokens_from(back, 0),
{
    let closing = seq![')'] + back;
    let operand = right + closing;
    let joined = token.text + seq![' '] + operand;
    let behind = behind_left_side(token, right, back);
    let inside = left + seq![' '] + token.text + seq![' '] + right;
    let inside_tokens = left_tokens + seq![token] + right_tokens;
    lemma_operator_is_scanned(token, operand);
    lemma_space_at_front(' ', joined);
    assert(behind == seq![' '] + joined);
    assert(tokens_from(behind, 0) == seq![token] + (right_tokens + tokens_from(closing, 0)));
    assert(inside + closing =~= left + behind);
    assert(left_tokens + (seq![token] + (right_tokens + tokens_from(closing, 0)))
        =~= inside_tokens + tokens_from(closing, 0));
    assert(tokens_from(inside + closing, 0) == inside_tokens + tokens_from(closing, 0));
    lemma_parentheses_are_scanned(inside, back, inside_tokens);
    assert(seq!['('] + left + seq![' '] + token.text + seq![' '] + right + seq![')'] + back
        =~= seq!['('] + inside + seq![')'] + back);
    assert(seq![left_paren()] + left_tokens + seq![token] + right_tokens + seq![right_paren()]
        + tokens_from(back, 0) =~= seq![left_paren()] + inside_tokens + seq![right_paren()]
        + tokens_from(back, 0));
}

/// The rendering of a tree, with a text behind it that does not begin with a
/// digit, is scanned as the tokens of the tree's fully parenthesized form,
/// followed by the tokens of that text.
pub proof fn lemma_rendering_is_scanned(e: SpecExpr, back: Seq<char>)
    requires
        well_formed(e),
        written_out(e),
        back.len() == 0 || !is_digit(back[0]),
    ensures
        tokens_from(render(e) + back, 0) == parenthesized(e) + tokens_from(back, 0),
    decreases e,
{
    let closing = seq![')'] + back;
    assert(closing[0] == ')');
    match e {
        SpecExpr::IntegerLiteral { token, value } => {
            lemma_digits_at_front(token.text, back);
        },
        SpecExpr::Prefix { token, right } => {
            lemma_rendering_is_scanned(*right, closing);
            lemma_prefix_is_scanned(token, render(*right), back, parenthesized(*right));
        },
        SpecExpr::Infix { left, token, right } => {
            let behind = behind_left_side(token, render(*right), back);
            assert(behind[0] == ' ');
            lemma_rendering_is_scanned(*right, closing);
            lemma_rendering_is_scanned(*left, behind);
            lemma_infix_is_scanned(
                render(*left),
                token,
                render(*right),
                back,
                parenthesized(*left),
                parenthesized(*right),
            );
        },
    }
}

/// The rendering of a well-formed tree that is written out reads back as the
/// tree.
pub proof fn lemma_rendering_reads_back(e: SpecExpr)
    requires
        well_formed(e),
        written_out(e),
    ensures
        parsed_text(render(e)) == Ok::<SpecExpr, ParseError>(e),
{
    let nothing = Seq::<char>::empty();
    assert(render(e) + nothing =~= render(e));
    lemma_rendering_is_scanned(e, nothing);
    assert(tokens_from(nothing, 0) =~= Seq::<SpecToken>::empty());
    assert(parenthesized(e) + Seq::<SpecToken>::empty() =~= parenthesized(e));
    lemma_parenthesized_reads_back(e);
}

/// Whatever tree a text is read as, the tree's rendering is read as the same
/// tree: the fully parenthesized text says all that the tree says.
pub proof fn lemma_parse_of_rendering(text: Seq<char>)
    ensures
        parsed_text(text) matches Ok(tree) ==> parsed_text(render(tree)) == Ok::<
            SpecExpr,
            ParseError,
        >(tree),
{
    let toks = tokens_from(text, 0);
    lemma_tokens_have_own_text(text, 0);
    lemma_parsed_expression_written_out(toks, Precedence::Lowest);
    lemma_parsed_expression_well_formed(toks, Precedence::Lowest);
    if let Ok(tree) = parsed_text(text) {
        lemma_rendering_reads_back(tree);
    }
}

} // verus!
