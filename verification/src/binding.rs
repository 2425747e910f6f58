//! How operators bind: what the grammar yields on token sequences of a given
//! shape, stated for all literals and operators of that shape.

use crate::expression::SpecExpr;
use crate::parser::{
    continues, integer_value, is_suffix, lemma_parsed_continuation_unfolds,
    lemma_parsed_expression_consumes, lemma_parsed_expression_unfolds,
    lemma_parsed_operand_consumes, parsed_continuation,
    parsed_expression, parsed_operand, parsed_tokens, starts_illegal, well_formed, ParseError,
    Parsed,
};
use crate::{is_binary_operator, precedence_of, Precedence, SpecToken, TokenType};
use vstd::prelude::*;

verus! {

/// Whether the token is an integer literal whose text has a value.
pub open spec fn is_literal(token: SpecToken) -> bool {
    token.kind == TokenType::Int && integer_value(token.text) is Some
}

/// The tree of an integer literal.
pub open spec fn literal(token: SpecToken) -> SpecExpr {
    SpecExpr::IntegerLiteral { token, value: integer_value(token.text)->0 }
}

/// The tree of a binary operator with its two sides.
pub open spec fn infix(left: SpecExpr, token: SpecToken, right: SpecExpr) -> SpecExpr {
    SpecExpr::Infix { left: Box::new(left), token, right: Box::new(right) }
}

/// The tree of a unary operator with its operand.
pub open spec fn prefix(token: SpecToken, right: SpecExpr) -> SpecExpr {
    SpecExpr::Prefix { token, right: Box::new(right) }
}

/// A literal at the front of a sequence is an operand, and the expression
/// that begins with it goes on with what follows the literal.
pub proof fn lemma_literal_first(toks: Seq<SpecToken>, precedence: Precedence)
    requires
        toks.len() > 0,
        is_literal(toks[0]),
    ensures
        parsed_operand(toks) == Ok::<Parsed, ParseError>(
            Parsed { expr: literal(toks[0]), rest: toks.skip(1) },
        ),
        parsed_expression(toks, precedence) == parsed_continuation(
            literal(toks[0]),
            toks.skip(1),
            precedence,
        ),
{
    lemma_parsed_expression_unfolds(toks, precedence);
}

/// Of two operators in a row between three literals, the second takes the
/// literal between them only where it binds strictly more strongly than the
/// first. Otherwise the first takes it: operators of one level group to the
/// left, the power operator among them.
pub proof fn lemma_two_operators(
    a: SpecToken,
    first: SpecToken,
    b: SpecToken,
    second: SpecToken,
    c: SpecToken,
)
    requires
        is_literal(a),
        is_literal(b),
        is_literal(c),
        is_binary_operator(first.kind),
        is_binary_operator(second.kind),
    ensures
        parsed_tokens(seq![a, first, b, second, c]) == Ok::<SpecExpr, ParseError>(
            if precedence_of(first.kind).rank() < precedence_of(second.kind).rank() {
                infix(literal(a), first, infix(literal(b), second, literal(c)))
            } else {
                infix(infix(literal(a), first, literal(b)), second, literal(c))
            },
        ),
{
    let t0 = seq![a, first, b, second, c];
    let t1 = seq![first, b, second, c];
    let t2 = seq![b, second, c];
    let t3 = seq![second, c];
    let t4 = seq![c];
    let t5 = Seq::<SpecToken>::empty();
    assert(t0.skip(1) =~= t1);
    assert(t1.skip(1) =~= t2);
    assert(t2.skip(1) =~= t3);
    assert(t3.skip(1) =~= t4);
    assert(t4.skip(1) =~= t5);
    let lowest = Precedence::Lowest;
    let first_level = precedence_of(first.kind);
    let second_level = precedence_of(second.kind);
    lemma_literal_first(t0, lowest);
    lemma_parsed_continuation_unfolds(literal(a), t1, lowest);
    lemma_literal_first(t2, first_level);
    lemma_literal_first(t4, second_level);
    assert(parsed_expression(t4, second_level) == Ok::<Parsed, ParseError>(
        Parsed { expr: literal(c), rest: t5 },
    ));
    if first_level.rank() < second_level.rank() {
        lemma_parsed_continuation_unfolds(literal(b), t3, first_level);
        let inner = infix(literal(b), second, literal(c));
        assert(parsed_continuation(inner, t5, first_level) == Ok::<Parsed, ParseError>(
            Parsed { expr: inner, rest: t5 },
        ));
        assert(parsed_expression(t2, first_level) == Ok::<Parsed, ParseError>(
            Parsed { expr: inner, rest: t5 },
        ));
        let whole = infix(literal(a), first, inner);
        assert(parsed_continuation(whole, t5, lowest) == Ok::<Parsed, ParseError>(
            Parsed { expr: whole, rest: t5 },
        ));
    } else {
        assert(!continues(t3, first_level));
        assert(parsed_expression(t2, first_level) == Ok::<Parsed, ParseError>(
            Parsed { expr: literal(b), rest: t3 },
        ));
        let inner = infix(literal(a), first, literal(b));
        lemma_parsed_continuation_unfolds(inner, t3, lowest);
        let whole = infix(inner, second, literal(c));
        assert(parsed_continuation(whole, t5, lowest) == Ok::<Parsed, ParseError>(
            Parsed { expr: whole, rest: t5 },
        ));
    }
    assert(!starts_illegal(t0));
}

/// Whether `rest` is a sequence of operators of the level `level`, each
/// followed by a literal.
pub open spec fn is_chain(rest: Seq<SpecToken>, level: Precedence) -> bool {
    &&& rest.len() % 2 == 0
    &&& forall|i: int|
        0 <= i < rest.len() && i % 2 == 0 ==> is_binary_operator((#[trigger] rest[i]).kind)
            && precedence_of(rest[i].kind) == level
    &&& forall|i: int| 0 <= i < rest.len() && i % 2 == 1 ==> is_literal(#[trigger] rest[i])
}

/// The tree that groups a chain of operators and literals to the left,
/// beginning with `left`.
pub open spec fn grouped_left(left: SpecExpr, rest: Seq<SpecToken>) -> SpecExpr
    decreases rest.len(),
{
    if rest.len() < 2 {
        left
    } else {
        grouped_left(infix(left, rest[0], literal(rest[1])), rest.skip(2))
    }
}

/// An expression that goes on with a chain of operators of one level groups
/// them to the left, however long the chain is.
pub proof fn lemma_chain_continues(
    left: SpecExpr,
    rest: Seq<SpecToken>,
    level: Precedence,
    precedence: Precedence,
)
    requires
        is_chain(rest, level),
        precedence.rank() < level.rank(),
    ensures
        parsed_continuation(left, rest, precedence) == Ok::<Parsed, ParseError>(
            Parsed { expr: grouped_left(left, rest), rest: Seq::empty() },
        ),
    decreases rest.len(),
{
    if rest.len() == 0 {
        assert(rest =~= Seq::<SpecToken>::empty());
    } else {
        let tail = rest.skip(1);
        let after = rest.skip(2);
        assert(tail.skip(1) =~= after);
        assert(tail[0] == rest[1]);
        assert(is_chain(after, level)) by {
            assert forall|i: int| 0 <= i < after.len() && i % 2 == 0 implies is_binary_operator(
                (#[trigger] after[i]).kind,
            ) && precedence_of(after[i].kind) == level by {
                assert(after[i] == rest[i + 2]);
            }
            assert forall|i: int| 0 <= i < after.len() && i % 2 == 1 implies is_literal(
                #[trigger] after[i],
            ) by {
                assert(after[i] == rest[i + 2]);
            }
        }
        lemma_parsed_continuation_unfolds(left, rest, precedence);
        lemma_literal_first(tail, level);
        if after.len() > 0 {
            assert(after[0] == rest[2]);
            assert(!continues(after, level));
        }
        assert(parsed_expression(tail, level) == Ok::<Parsed, ParseError>(
            Parsed { expr: literal(rest[1]), rest: after },
        ));
        lemma_chain_continues(infix(left, rest[0], literal(rest[1])), after, level, precedence);
    }
}

/// A literal followed by operators of one level, each with a literal behind
/// it, is read as a tree that groups the operators to the left:
/// `a - b - c` is `((a - b) - c)`.
pub proof fn lemma_one_level_groups_left(a: SpecToken, rest: Seq<SpecToken>, level: Precedence)
    requires
        is_literal(a),
        is_chain(rest, level),
        Precedence::Lowest.rank() < level.rank(),
    ensures
        parsed_tokens(seq![a] + rest) == Ok::<SpecExpr, ParseError>(
            grouped_left(literal(a), rest),
        ),
{
    let toks = seq![a] + rest;
    assert(toks.skip(1) =~= rest);
    lemma_literal_first(toks, Precedence::Lowest);
    lemma_chain_continues(literal(a), rest, level, Precedence::Lowest);
    if rest.len() > 0 {
        assert(toks[1] == rest[0]);
    }
}

/// The opening parenthesis as a token.
pub open spec fn left_paren() -> SpecToken {
    SpecToken { kind: TokenType::LeftParen, text: seq!['('] }
}

/// The closing parenthesis as a token.
pub open spec fn right_paren() -> SpecToken {
    SpecToken { kind: TokenType::RightParen, text: seq![')'] }
}

/// The tokens of the fully parenthesized form of a tree: a literal is its
/// token, and every other node stands between parentheses of its own.
pub open spec fn parenthesized(e: SpecExpr) -> Seq<SpecToken>
    decreases e,
{
    match e {
        SpecExpr::IntegerLiteral { token, .. } => seq![token],
        SpecExpr::Prefix { token, right } => seq![left_paren(), token] + parenthesized(*right)
            + seq![right_paren()],
        SpecExpr::Infix { left, token, right } => seq![left_paren()] + parenthesized(*left)
            + seq![token] + parenthesized(*right) + seq![right_paren()],
    }
}

/// The fully parenthesized form of a well-formed tree, whatever follows it,
/// is read as one operand, and the operand is the tree itself.
pub proof fn lemma_parenthesized_is_operand(e: SpecExpr, rest: Seq<SpecToken>)
    requires
        well_formed(e),
    ensures
        parsed_operand(parenthesized(e) + rest) == Ok::<Parsed, ParseError>(
            Parsed { expr: e, rest },
        ),
    decreases e,
{
    let toks = parenthesized(e) + rest;
    let closing = seq![right_paren()] + rest;
    assert(closing.skip(1) =~= rest);
    assert(!continues(closing, Precedence::Lowest));
    match e {
        SpecExpr::IntegerLiteral { token, value } => {
            assert(toks.skip(1) =~= rest);
        },
        SpecExpr::Prefix { token, right } => {
            let inner = seq![token] + parenthesized(*right) + closing;
            let operand = parenthesized(*right) + closing;
            assert(toks.skip(1) =~= inner);
            assert(inner.skip(1) =~= operand);
            lemma_parenthesized_is_operand(*right, closing);
            lemma_parsed_expression_unfolds(operand, Precedence::Prefix);
            assert(!continues(closing, Precedence::Prefix));
            assert(parsed_expression(operand, Precedence::Prefix) == Ok::<Parsed, ParseError>(
                Parsed { expr: *right, rest: closing },
            ));
            assert(parsed_operand(inner) == Ok::<Parsed, ParseError>(
                Parsed { expr: e, rest: closing },
            ));
            lemma_parsed_expression_unfolds(inner, Precedence::Lowest);
        },
        SpecExpr::Infix { left, token, right } => {
            let level = precedence_of(token.kind);
            let inner = parenthesized(*left) + seq![token] + parenthesized(*right) + closing;
            let behind = seq![token] + parenthesized(*right) + closing;
            let operand = parenthesized(*right) + closing;
            assert(toks.skip(1) =~= inner);
            assert(inner =~= parenthesized(*left) + behind);
            assert(behind.skip(1) =~= operand);
            lemma_parenthesized_is_operand(*left, behind);
            lemma_parsed_expression_unfolds(inner, Precedence::Lowest);
            assert(continues(behind, Precedence::Lowest));
            lemma_parsed_continuation_unfolds(*left, behind, Precedence::Lowest);
            lemma_parenthesized_is_operand(*right, closing);
            lemma_parsed_expression_unfolds(operand, level);
            assert(!continues(closing, level));
            assert(parsed_expression(operand, level) == Ok::<Parsed, ParseError>(
                Parsed { expr: *right, rest: closing },
            ));
            assert(parsed_continuation(e, closing, Precedence::Lowest) == Ok::<
                Parsed,
                ParseError,
            >(Parsed { expr: e, rest: closing }));
        },
    }
}

/// Reading the fully parenthesized form of a well-formed tree gives the tree
/// back: the form shows how the tree is built, with nothing left to
/// precedence.
pub proof fn lemma_parenthesized_reads_back(e: SpecExpr)
    requires
        well_formed(e),
    ensures
        parsed_tokens(parenthesized(e)) == Ok::<SpecExpr, ParseError>(e),
{
    let toks = parenthesized(e);
    let nothing = Seq::<SpecToken>::empty();
    assert(toks + nothing =~= toks);
    lemma_parenthesized_is_operand(e, nothing);
    lemma_parsed_expression_unfolds(toks, Precedence::Lowest);
    match e {
        SpecExpr::IntegerLiteral { token, value } => {},
        SpecExpr::Prefix { token, right } => {
            assert(toks[0] == left_paren());
            assert(toks[1] == token);
        },
        SpecExpr::Infix { left, token, right } => {
            assert(toks[0] == left_paren());
            lemma_parenthesized_starts_legal(*left);
            assert(toks[1] == parenthesized(*left)[0]);
        },
    }
}

/// The fully parenthesized form of a well-formed tree is not empty and
/// begins with a token of the language.
pub proof fn lemma_parenthesized_starts_legal(e: SpecExpr)
    requires
        well_formed(e),
    ensures
        parenthesized(e).len() > 0,
        parenthesized(e)[0].kind != TokenType::Illegal,
{
}

/// A minus sign before a literal takes the literal before any binary
/// operator of a level below its own does: `-a * b` is `((- a) * b)`.
pub proof fn lemma_minus_binds_before_weaker_operator(
    minus: SpecToken,
    a: SpecToken,
    operator: SpecToken,
    b: SpecToken,
)
    requires
        minus.kind == TokenType::Minus,
        is_literal(a),
        is_literal(b),
        is_binary_operator(operator.kind),
        precedence_of(operator.kind).rank() < Precedence::Prefix.rank(),
    ensures
        parsed_tokens(seq![minus, a, operator, b]) == Ok::<SpecExpr, ParseError>(
            infix(prefix(minus, literal(a)), operator, literal(b)),
        ),
{
    let t0 = seq![minus, a, operator, b];
    let t1 = seq![a, operator, b];
    let t2 = seq![operator, b];
    let t3 = seq![b];
    let t4 = Seq::<SpecToken>::empty();
    assert(t0.skip(1) =~= t1);
    assert(t1.skip(1) =~= t2);
    assert(t2.skip(1) =~= t3);
    assert(t3.skip(1) =~= t4);
    let level = precedence_of(operator.kind);
    lemma_literal_first(t1, Precedence::Prefix);
    assert(!continues(t2, Precedence::Prefix));
    assert(parsed_operand(t0) == Ok::<Parsed, ParseError>(
        Parsed { expr: prefix(minus, literal(a)), rest: t2 },
    ));
    lemma_parsed_expression_unfolds(t0, Precedence::Lowest);
    lemma_parsed_continuation_unfolds(prefix(minus, literal(a)), t2, Precedence::Lowest);
    lemma_literal_first(t3, level);
    let whole = infix(prefix(minus, literal(a)), operator, literal(b));
    assert(parsed_continuation(whole, t4, Precedence::Lowest) == Ok::<Parsed, ParseError>(
        Parsed { expr: whole, rest: t4 },
    ));
}

/// The power operator binds more strongly than a minus sign before its left
/// side: `-a ^ b` is `(- (a ^ b))`.
pub proof fn lemma_power_binds_before_minus(
    minus: SpecToken,
    a: SpecToken,
    operator: SpecToken,
    b: SpecToken,
)
    requires
        minus.kind == TokenType::Minus,
        is_literal(a),
        is_literal(b),
        operator.kind == TokenType::Pow,
    ensures
        parsed_tokens(seq![minus, a, operator, b]) == Ok::<SpecExpr, ParseError>(
            prefix(minus, infix(literal(a), operator, literal(b))),
        ),
{
    let t0 = seq![minus, a, operator, b];
    let t1 = seq![a, operator, b];
    let t2 = seq![operator, b];
    let t3 = seq![b];
    let t4 = Seq::<SpecToken>::empty();
    assert(t0.skip(1) =~= t1);
    assert(t1.skip(1) =~= t2);
    assert(t2.skip(1) =~= t3);
    assert(t3.skip(1) =~= t4);
    lemma_literal_first(t1, Precedence::Prefix);
    lemma_parsed_continuation_unfolds(literal(a), t2, Precedence::Prefix);
    lemma_literal_first(t3, Precedence::Pow);
    let power = infix(literal(a), operator, literal(b));
    assert(parsed_continuation(power, t4, Precedence::Prefix) == Ok::<Parsed, ParseError>(
        Parsed { expr: power, rest: t4 },
    ));
    assert(parsed_operand(t0) == Ok::<Parsed, ParseError>(
        Parsed { expr: prefix(minus, power), rest: t4 },
    ));
    lemma_parsed_expression_unfolds(t0, Precedence::Lowest);
}

/// A minus sign behind a binary operator belongs to the operator's right-hand
/// side: `a + -b` is `(a + (- b))`.
pub proof fn lemma_minus_behind_operator(
    a: SpecToken,
    operator: SpecToken,
    minus: SpecToken,
    b: SpecToken,
)
    requires
        minus.kind == TokenType::Minus,
        is_literal(a),
        is_literal(b),
        is_binary_operator(operator.kind),
    ensures
        parsed_tokens(seq![a, operator, minus, b]) == Ok::<SpecExpr, ParseError>(
            infix(literal(a), operator, prefix(minus, literal(b))),
        ),
{
    let t0 = seq![a, operator, minus, b];
    let t1 = seq![operator, minus, b];
    let t2 = seq![minus, b];
    let t3 = seq![b];
    let t4 = Seq::<SpecToken>::empty();
    assert(t0.skip(1) =~= t1);
    assert(t1.skip(1) =~= t2);
    assert(t2.skip(1) =~= t3);
    assert(t3.skip(1) =~= t4);
    let level = precedence_of(operator.kind);
    lemma_literal_first(t0, Precedence::Lowest);
    lemma_parsed_continuation_unfolds(literal(a), t1, Precedence::Lowest);
    lemma_literal_first(t3, Precedence::Prefix);
    assert(parsed_operand(t2) == Ok::<Parsed, ParseError>(
        Parsed { expr: prefix(minus, literal(b)), rest: t4 },
    ));
    lemma_parsed_expression_unfolds(t2, level);
    let whole = infix(literal(a), operator, prefix(minus, literal(b)));
    assert(parsed_continuation(whole, t4, Precedence::Lowest) == Ok::<Parsed, ParseError>(
        Parsed { expr: whole, rest: t4 },
    ));
}

/// Parentheses override precedence: an expression in parentheses is one
/// operand of the operator behind it, however strongly the operator binds:
/// `(a - b) * c` is `((a - b) * c)`.
pub proof fn lemma_parentheses_make_an_operand(
    a: SpecToken,
    inner: SpecToken,
    b: SpecToken,
    outer: SpecToken,
    c: SpecToken,
)
    requires
        is_literal(a),
        is_literal(b),
        is_literal(c),
        is_binary_operator(inner.kind),
        is_binary_operator(outer.kind),
    ensures
        parsed_tokens(seq![left_paren(), a, inner, b, right_paren(), outer, c]) == Ok::<
            SpecExpr,
            ParseError,
        >(infix(infix(literal(a), inner, literal(b)), outer, literal(c))),
{
    let group = infix(literal(a), inner, literal(b));
    let behind = seq![outer, c];
    let toks = seq![left_paren(), a, inner, b, right_paren(), outer, c];
    assert(well_formed(literal(a)) && well_formed(literal(b)));
    assert(well_formed(group));
    assert(parenthesized(literal(a)) =~= seq![a]);
    assert(parenthesized(literal(b)) =~= seq![b]);
    assert(parenthesized(group) =~= seq![left_paren(), a, inner, b, right_paren()]);
    assert(parenthesized(group) + behind =~= toks);
    lemma_parenthesized_is_operand(group, behind);
    lemma_parsed_expression_unfolds(toks, Precedence::Lowest);
    lemma_parsed_continuation_unfolds(group, behind, Precedence::Lowest);
    let last = seq![c];
    assert(behind.skip(1) =~= last);
    assert(last.skip(1) =~= Seq::<SpecToken>::empty());
    lemma_literal_first(last, precedence_of(outer.kind));
    let whole = infix(group, outer, literal(c));
    assert(parsed_continuation(whole, Seq::<SpecToken>::empty(), Precedence::Lowest) == Ok::<
        Parsed,
        ParseError,
    >(Parsed { expr: whole, rest: Seq::<SpecToken>::empty() }));
}

/// Whether an operand can begin with a token of this category.
pub open spec fn begins_operand(kind: TokenType) -> bool {
    kind == TokenType::Int || kind == TokenType::Minus || kind == TokenType::LeftParen
}

/// A text that does not begin with the beginning of an operand is no
/// expression: an empty text, a text that begins with a binary operator other
/// than the minus sign, with a closing parenthesis or with a character that
/// belongs to no token.
pub proof fn lemma_no_operand_at_front(toks: Seq<SpecToken>)
    requires
        toks.len() == 0 || !begins_operand(toks[0].kind),
    ensures
        parsed_tokens(toks) == Err::<SpecExpr, ParseError>(
            if starts_illegal(toks) {
                ParseError::IllegalToken
            } else {
                ParseError::NoPrefixRule
            },
        ),
        parsed_expression(toks, Precedence::Lowest) == Err::<Parsed, ParseError>(
            ParseError::NoPrefixRule,
        ),
{
}

/// A binary operator with nothing behind it is no expression: its right-hand
/// side is missing.
pub proof fn lemma_operator_without_right_side(a: SpecToken, operator: SpecToken)
    requires
        is_literal(a),
        is_binary_operator(operator.kind),
    ensures
        parsed_tokens(seq![a, operator]) == Err::<SpecExpr, ParseError>(ParseError::NoPrefixRule),
{
    let t0 = seq![a, operator];
    let t1 = seq![operator];
    let t2 = Seq::<SpecToken>::empty();
    assert(t0.skip(1) =~= t1);
    assert(t1.skip(1) =~= t2);
    lemma_literal_first(t0, Precedence::Lowest);
    lemma_parsed_continuation_unfolds(literal(a), t1, Precedence::Lowest);
}

/// A text that begins with an opening parenthesis and holds no closing one is
/// no expression.
pub proof fn lemma_unclosed_parenthesis(toks: Seq<SpecToken>)
    requires
        toks.len() > 0,
        toks[0].kind == TokenType::LeftParen,
        forall|i: int| 0 <= i < toks.len() ==> (#[trigger] toks[i]).kind != TokenType::RightParen,
    ensures
        parsed_tokens(toks) is Err,
        parsed_expression(toks, Precedence::Lowest) is Err,
{
    let tail = toks.skip(1);
    lemma_parsed_expression_consumes(tail, Precedence::Lowest);
    if let Ok(inner) = parsed_expression(tail, Precedence::Lowest) {
        if inner.rest.len() > 0 {
            assert(is_suffix(inner.rest, tail));
            let at = tail.len() - inner.rest.len();
            assert(inner.rest[0] == tail[at]);
            assert(tail[at] == toks[at + 1]);
        }
    }
}

/// Whether no expression goes on with `extra`: it is empty, or its first
/// token is no binary operator.
pub open spec fn ends_expression(extra: Seq<SpecToken>) -> bool {
    extra.len() == 0 || !is_binary_operator(extra[0].kind)
}

/// An operand is read in the same way whatever is put behind the tokens,
/// and what is put behind them is left unread.
pub proof fn lemma_operand_before_more(toks: Seq<SpecToken>, extra: Seq<SpecToken>)
    requires
        parsed_operand(toks) is Ok,
        ends_expression(extra),
    ensures
        parsed_operand(toks + extra) == Ok::<Parsed, ParseError>(
            Parsed {
                expr: parsed_operand(toks)->Ok_0.expr,
                rest: parsed_operand(toks)->Ok_0.rest + extra,
            },
        ),
    decreases toks.len(), 0nat,
{
    let more = toks + extra;
    let tail = toks.skip(1);
    assert(more.skip(1) =~= tail + extra);
    match toks[0].kind {
        TokenType::Minus => {
            lemma_expression_before_more(tail, extra, Precedence::Prefix);
        },
        TokenType::LeftParen => {
            lemma_expression_before_more(tail, extra, Precedence::Lowest);
            let inner = parsed_expression(tail, Precedence::Lowest)->Ok_0;
            assert((inner.rest + extra).skip(1) =~= inner.rest.skip(1) + extra);
        },
        _ => {},
    }
}

/// An expression that is complete is read in the same way whatever is put
/// behind the tokens, as long as no expression goes on with it: what is put
/// behind them, a stray closing parenthesis for one, is left unread and
/// raises no error.
pub proof fn lemma_expression_before_more(
    toks: Seq<SpecToken>,
    extra: Seq<SpecToken>,
    precedence: Precedence,
)
    requires
        parsed_expression(toks, precedence) is Ok,
        ends_expression(extra),
    ensures
        parsed_expression(toks + extra, precedence) == Ok::<Parsed, ParseError>(
            Parsed {
                expr: parsed_expression(toks, precedence)->Ok_0.expr,
                rest: parsed_expression(toks, precedence)->Ok_0.rest + extra,
            },
        ),
    decreases toks.len(), 1nat,
{
    lemma_parsed_expression_unfolds(toks, precedence);
    lemma_parsed_expression_unfolds(toks + extra, precedence);
    lemma_parsed_operand_consumes(toks);
    lemma_operand_before_more(toks, extra);
    let operand = parsed_operand(toks)->Ok_0;
    lemma_continuation_before_more(operand.expr, operand.rest, extra, precedence);
}

/// What goes on behind an expression is read in the same way whatever is put
/// behind the tokens, as long as no expression goes on with it.
pub proof fn lemma_continuation_before_more(
    left: SpecExpr,
    rest: Seq<SpecToken>,
    extra: Seq<SpecToken>,
    precedence: Precedence,
)
    requires
        parsed_continuation(left, rest, precedence) is Ok,
        ends_expression(extra),
    ensures
        parsed_continuation(left, rest + extra, precedence) == Ok::<Parsed, ParseError>(
            Parsed {
                expr: parsed_continuation(left, rest, precedence)->Ok_0.expr,
                rest: parsed_continuation(left, rest, precedence)->Ok_0.rest + extra,
            },
        ),
    decreases rest.len(), 2nat,
{
    let more = rest + extra;
    if continues(rest, precedence) {
        let tail = rest.skip(1);
        let level = precedence_of(rest[0].kind);
        assert(more[0] == rest[0]);
        assert(more.skip(1) =~= tail + extra);
        lemma_parsed_continuation_unfolds(left, rest, precedence);
        lemma_parsed_continuation_unfolds(left, more, precedence);
        lemma_parsed_expression_consumes(tail, level);
        lemma_expression_before_more(tail, extra, level);
        let right = parsed_expression(tail, level)->Ok_0;
        lemma_continuation_before_more(infix(left, rest[0], right.expr), right.rest, extra, precedence);
    } else {
        if rest.len() > 0 {
            assert(more[0] == rest[0]);
        } else {
            assert(more =~= extra);
        }
        assert(!continues(more, precedence));
    }
}

} // verus!
