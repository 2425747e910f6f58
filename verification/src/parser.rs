//! The parser: the grammar as a function on token sequences, and the `Parser`
//! that computes it by precedence climbing with two tokens of lookahead.

use crate::expression::{
    node_count, Expression, InfixExpression, IntegerLiteralExpression, PrefixExpression, SpecExpr,
};
use crate::lexer::{
    char_is_digit, is_digit, lemma_scan_advances, lemma_scan_at_end_repeats, scan, tokens_from,
    Lexer,
};
use crate::{is_binary_operator, precedence_of, Precedence, SpecToken, Token, TokenType};
use vstd::prelude::*;

verus! {

/// Why a text is not an expression.
#[derive(Debug, Clone, Copy, PartialEq, Eq, Structural)]
pub enum ParseError {
    /// One of the first two tokens is not a token of the language.
    IllegalToken,
    /// Where an operand must begin stands a token that begins none, or the
    /// text has ended.
    NoPrefixRule,
    /// A parenthesis was opened, and where it must be closed stands something
    /// else.
    MissingRightParen,
    /// An integer literal does not fit into a 64-bit signed integer.
    InvalidInteger,
}

/// The number that the digit `c` stands for.
pub open spec fn digit_value(c: char) -> int {
    c as int - '0' as int
}

/// Whether every character of `text` is a digit.
pub open spec fn all_digits(text: Seq<char>) -> bool {
    forall|i: int| 0 <= i < text.len() ==> is_digit(#[trigger] text[i])
}

/// The number that a sequence of digits denotes in base ten, the empty
/// sequence denoting zero.
pub open spec fn decimal_value(digits: Seq<char>) -> int
    decreases digits.len(),
{
    if digits.len() == 0 {
        0
    } else {
        decimal_value(digits.drop_last()) * 10 + digit_value(digits.last())
    }
}

/// The value of an integer literal: the number that its digits denote, if
/// there is at least one digit, nothing but digits, and the number fits into
/// a 64-bit signed integer.
pub open spec fn integer_value(text: Seq<char>) -> Option<int> {
    if text.len() > 0 && all_digits(text) && decimal_value(text) <= i64::MAX {
        Some(decimal_value(text))
    } else {
        None
    }
}

/// A number in base ten is not negative and does not get smaller when digits
/// are appended to it.
pub proof fn lemma_decimal_value_grows(digits: Seq<char>, k: int)
    requires
        all_digits(digits),
        0 <= k <= digits.len(),
    ensures
        0 <= decimal_value(digits.take(k)) <= decimal_value(digits),
    decreases digits.len() - k,
{
    if k == digits.len() {
        assert(digits.take(k) =~= digits);
        lemma_decimal_value_nonnegative(digits);
    } else {
        lemma_decimal_value_grows(digits, k + 1);
        let longer = digits.take(k + 1);
        assert(longer.drop_last() =~= digits.take(k));
        assert(is_digit(digits[k]));
        assert(longer.last() == digits[k]);
        assert(all_digits(digits.take(k))) by {
            assert forall|i: int| 0 <= i < digits.take(k).len() implies is_digit(
                #[trigger] digits.take(k)[i],
            ) by {
                assert(digits.take(k)[i] == digits[i]);
            }
        }
        lemma_decimal_value_nonnegative(digits.take(k));
    }
}

proof fn lemma_decimal_value_nonnegative(digits: Seq<char>)
    requires
        all_digits(digits),
    ensures
        0 <= decimal_value(digits),
    decreases digits.len(),
{
    if digits.len() > 0 {
        assert(all_digits(digits.drop_last())) by {
            assert forall|i: int| 0 <= i < digits.drop_last().len() implies is_digit(
                #[trigger] digits.drop_last()[i],
            ) by {
                assert(digits.drop_last()[i] == digits[i]);
            }
        }
        lemma_decimal_value_nonnegative(digits.drop_last());
        assert(is_digit(digits[digits.len() - 1]));
    }
}

/// Reads `text` as an integer literal.
pub fn parse_integer(text: &str) -> (value: Option<i64>)
    ensures
        match integer_value(text@) {
            Some(number) => value matches Some(v) && v == number,
            None => value.is_none(),
        },
{
    let length = text.unicode_len();
    if length == 0 {
        return None;
    }
    let mut value: i64 = 0;
    let mut index: usize = 0;
    while index < length
        invariant
            length == text@.len(),
            0 <= index <= length,
            all_digits(text@.take(index as int)),
            value == decimal_value(text@.take(index as int)),
            0 <= value,
        decreases length - index,
    {
        let c = text.get_char(index);
        if !char_is_digit(c) {
            return None;
        }
        let digit = (c as u32 - '0' as u32) as i64;
        proof {
            let longer = text@.take(index + 1);
            assert(longer.drop_last() =~= text@.take(index as int));
            assert(longer.last() == c);
            assert(all_digits(longer)) by {
                assert forall|i: int| 0 <= i < longer.len() implies is_digit(
                    #[trigger] longer[i],
                ) by {
                    if i < index {
                        assert(text@.take(index as int)[i] == longer[i]);
                    }
                }
            }
            assert(decimal_value(longer) == value * 10 + digit);
            if all_digits(text@) {
                lemma_decimal_value_grows(text@, index + 1);
            }
        }
        if value > (i64::MAX - digit) / 10 {
            return None;
        }
        value = value * 10 + digit;
        index = index + 1;
    }
    proof {
        assert(text@.take(length as int) =~= text@);
    }
    Some(value)
}

/// An expression that was read from the front of a token sequence, and the
/// tokens that follow it.
pub struct Parsed {
    pub expr: SpecExpr,
    pub rest: Seq<SpecToken>,
}

/// Whether `rest` is what remains of `toks` when tokens are taken from its
/// front.
pub open spec fn is_suffix(rest: Seq<SpecToken>, toks: Seq<SpecToken>) -> bool {
    rest.len() <= toks.len() && rest == toks.skip(toks.len() - rest.len())
}

/// Whether one of the first two tokens is not a token of the language.
pub open spec fn starts_illegal(toks: Seq<SpecToken>) -> bool {
    (toks.len() > 0 && toks[0].kind == TokenType::Illegal) || (toks.len() > 1 && toks[1].kind
        == TokenType::Illegal)
}

/// Whether an expression that was read at the level `precedence` goes on with
/// the first token of `rest`: the token is a binary operator that binds more
/// strongly than `precedence`.
pub open spec fn continues(rest: Seq<SpecToken>, precedence: Precedence) -> bool {
    rest.len() > 0 && precedence.rank() < precedence_of(rest[0].kind).rank()
        && is_binary_operator(rest[0].kind)
}

/// The operand at the front of `toks`: an integer literal, a minus sign with
/// the operand it negates, or an expression in parentheses, which stands for
/// itself without a node of its own.
pub open spec fn parsed_operand(toks: Seq<SpecToken>) -> Result<Parsed, ParseError>
    decreases toks.len(), 0nat,
{
    if toks.len() == 0 {
        Err(ParseError::NoPrefixRule)
    } else {
        match toks[0].kind {
            TokenType::Int => match integer_value(toks[0].text) {
                Some(value) => Ok(
                    Parsed {
                        expr: SpecExpr::IntegerLiteral { token: toks[0], value },
                        rest: toks.skip(1),
                    },
                ),
                None => Err(ParseError::InvalidInteger),
            },
            TokenType::Minus => match parsed_expression(toks.skip(1), Precedence::Prefix) {
                Ok(operand) => Ok(
                    Parsed {
                        expr: SpecExpr::Prefix { token: toks[0], right: Box::new(operand.expr) },
                        rest: operand.rest,
                    },
                ),
                Err(error) => Err(error),
            },
            TokenType::LeftParen => match parsed_expression(toks.skip(1), Precedence::Lowest) {
                Ok(inner) => if inner.rest.len() > 0 && inner.rest[0].kind
                    == TokenType::RightParen {
                    Ok(Parsed { expr: inner.expr, rest: inner.rest.skip(1) })
                } else {
                    Err(ParseError::MissingRightParen)
                },
                Err(error) => Err(error),
            },
            _ => Err(ParseError::NoPrefixRule),
        }
    }
}

/// The expression at the front of `toks` that is read at the level
/// `precedence`: an operand, followed by every binary operator that binds more
/// strongly than `precedence`, each with its right-hand side.
///
/// An operand always takes at least one token, so the test on the lengths
/// never fails: see `lemma_parsed_expression_consumes`.
pub open spec fn parsed_expression(toks: Seq<SpecToken>, precedence: Precedence) -> Result<
    Parsed,
    ParseError,
>
    decreases toks.len(), 1nat,
{
    match parsed_operand(toks) {
        Ok(operand) => if operand.rest.len() < toks.len() {
            parsed_continuation(operand.expr, operand.rest, precedence)
        } else {
            arbitrary()
        },
        Err(error) => Err(error),
    }
}

/// The expression that begins with `left`, already read at the level
/// `precedence`, and goes on with `rest`. While the next token is a binary
/// operator that binds more strongly than `precedence`, the operator's
/// right-hand side is read at the operator's own level, and the two sides
/// become the left-hand side of what follows: operators of one level group to
/// the left.
pub open spec fn parsed_continuation(
    left: SpecExpr,
    rest: Seq<SpecToken>,
    precedence: Precedence,
) -> Result<Parsed, ParseError>
    decreases rest.len(), 2nat,
{
    if continues(rest, precedence) {
        match parsed_expression(rest.skip(1), precedence_of(rest[0].kind)) {
            Ok(right) => if right.rest.len() < rest.len() {
                parsed_continuation(
                    SpecExpr::Infix {
                        left: Box::new(left),
                        token: rest[0],
                        right: Box::new(right.expr),
                    },
                    right.rest,
                    precedence,
                )
            } else {
                arbitrary()
            },
            Err(error) => Err(error),
        }
    } else {
        Ok(Parsed { expr: left, rest })
    }
}

/// What parsing a whole token sequence yields: the expression at its front,
/// unless one of the first two tokens is not a token of the language.
pub open spec fn parsed_tokens(toks: Seq<SpecToken>) -> Result<SpecExpr, ParseError> {
    if starts_illegal(toks) {
        Err(ParseError::IllegalToken)
    } else {
        match parsed_expression(toks, Precedence::Lowest) {
            Ok(parsed) => Ok(parsed.expr),
            Err(error) => Err(error),
        }
    }
}

/// What parsing a text yields.
pub open spec fn parsed_text(text: Seq<char>) -> Result<SpecExpr, ParseError> {
    parsed_tokens(tokens_from(text, 0))
}

/// Whether a tree is one that the grammar can yield: a literal's token is an
/// integer whose text has the literal's value, a unary node's operator is the
/// minus sign, and a binary node's operator is one of the six binary
/// operators.
pub open spec fn well_formed(e: SpecExpr) -> bool
    decreases e,
{
    match e {
        SpecExpr::IntegerLiteral { token, value } => token.kind == TokenType::Int
            && integer_value(token.text) == Some(value),
        SpecExpr::Prefix { token, right } => token.kind == TokenType::Minus && well_formed(
            *right,
        ),
        SpecExpr::Infix { left, token, right } => is_binary_operator(token.kind) && well_formed(
            *left,
        ) && well_formed(*right),
    }
}

/// What remains of what remains of a sequence remains of the sequence.
pub proof fn lemma_suffix_transitive(a: Seq<SpecToken>, b: Seq<SpecToken>, c: Seq<SpecToken>)
    requires
        is_suffix(a, b),
        is_suffix(b, c),
    ensures
        is_suffix(a, c),
{
    assert(a =~= c.skip(c.len() - a.len()));
}

/// An operand takes at least one token from the front of the sequence and
/// leaves the rest as it is.
pub proof fn lemma_parsed_operand_consumes(toks: Seq<SpecToken>)
    ensures
        parsed_operand(toks) matches Ok(parsed) ==> is_suffix(parsed.rest, toks)
            && parsed.rest.len() < toks.len(),
    decreases toks.len(), 0nat,
{
    if toks.len() > 0 {
        let tail = toks.skip(1);
        assert(is_suffix(tail, toks));
        match toks[0].kind {
            TokenType::Minus => {
                lemma_parsed_expression_consumes(tail, Precedence::Prefix);
                if let Ok(operand) = parsed_expression(tail, Precedence::Prefix) {
                    lemma_suffix_transitive(operand.rest, tail, toks);
                }
            },
            TokenType::LeftParen => {
                lemma_parsed_expression_consumes(tail, Precedence::Lowest);
                if let Ok(inner) = parsed_expression(tail, Precedence::Lowest) {
                    if inner.rest.len() > 0 {
                        assert(is_suffix(inner.rest.skip(1), inner.rest));
                        lemma_suffix_transitive(inner.rest.skip(1), inner.rest, tail);
                        lemma_suffix_transitive(inner.rest.skip(1), tail, toks);
                    }
                }
            },
            _ => {},
        }
    }
}

/// An expression takes at least one token from the front of the sequence and
/// leaves the rest as it is.
pub proof fn lemma_parsed_expression_consumes(toks: Seq<SpecToken>, precedence: Precedence)
    ensures
        parsed_expression(toks, precedence) matches Ok(parsed) ==> is_suffix(parsed.rest, toks)
            && parsed.rest.len() < toks.len(),
    decreases toks.len(), 1nat,
{
    lemma_parsed_operand_consumes(toks);
    if let Ok(operand) = parsed_operand(toks) {
        lemma_parsed_continuation_consumes(operand.expr, operand.rest, precedence);
        if let Ok(parsed) = parsed_continuation(operand.expr, operand.rest, precedence) {
            lemma_suffix_transitive(parsed.rest, operand.rest, toks);
        }
    }
}

/// The operators and right-hand sides that follow an operand are taken from
/// the front of the sequence, and the rest is left as it is.
pub proof fn lemma_parsed_continuation_consumes(
    left: SpecExpr,
    rest: Seq<SpecToken>,
    precedence: Precedence,
)
    ensures
        parsed_continuation(left, rest, precedence) matches Ok(parsed) ==> is_suffix(
            parsed.rest,
            rest,
        ),
    decreases rest.len(), 2nat,
{
    if continues(rest, precedence) {
        let tail = rest.skip(1);
        assert(is_suffix(tail, rest));
        lemma_parsed_expression_consumes(tail, precedence_of(rest[0].kind));
        if let Ok(right) = parsed_expression(tail, precedence_of(rest[0].kind)) {
            let joined = SpecExpr::Infix {
                left: Box::new(left),
                token: rest[0],
                right: Box::new(right.expr),
            };
            lemma_parsed_continuation_consumes(joined, right.rest, precedence);
            if let Ok(parsed) = parsed_continuation(joined, right.rest, precedence) {
                lemma_suffix_transitive(parsed.rest, right.rest, tail);
                lemma_suffix_transitive(parsed.rest, tail, rest);
            }
        }
    } else {
        assert(rest =~= rest.skip(0));
    }
}

/// Every operand that the grammar yields is well formed.
pub proof fn lemma_parsed_operand_well_formed(toks: Seq<SpecToken>)
    ensures
        parsed_operand(toks) matches Ok(parsed) ==> well_formed(parsed.expr),
    decreases toks.len(), 0nat,
{
    if toks.len() > 0 {
        match toks[0].kind {
            TokenType::Minus => {
                lemma_parsed_expression_well_formed(toks.skip(1), Precedence::Prefix);
            },
            TokenType::LeftParen => {
                lemma_parsed_expression_well_formed(toks.skip(1), Precedence::Lowest);
            },
            _ => {},
        }
    }
}

/// Every expression that the grammar yields is well formed: no tree holds an
/// operator that an evaluator would not know.
pub proof fn lemma_parsed_expression_well_formed(toks: Seq<SpecToken>, precedence: Precedence)
    ensures
        parsed_expression(toks, precedence) matches Ok(parsed) ==> well_formed(parsed.expr),
    decreases toks.len(), 1nat,
{
    lemma_parsed_operand_well_formed(toks);
    lemma_parsed_operand_consumes(toks);
    if let Ok(operand) = parsed_operand(toks) {
        lemma_parsed_continuation_well_formed(operand.expr, operand.rest, precedence);
    }
}

/// What goes on behind a well-formed expression makes a well-formed
/// expression.
pub proof fn lemma_parsed_continuation_well_formed(
    left: SpecExpr,
    rest: Seq<SpecToken>,
    precedence: Precedence,
)
    requires
        well_formed(left),
    ensures
        parsed_continuation(left, rest, precedence) matches Ok(parsed) ==> well_formed(
            parsed.expr,
        ),
    decreases rest.len(), 2nat,
{
    if continues(rest, precedence) {
        let tail = rest.skip(1);
        lemma_parsed_expression_well_formed(tail, precedence_of(rest[0].kind));
        lemma_parsed_expression_consumes(tail, precedence_of(rest[0].kind));
        if let Ok(right) = parsed_expression(tail, precedence_of(rest[0].kind)) {
            let joined = SpecExpr::Infix {
                left: Box::new(left),
                token: rest[0],
                right: Box::new(right.expr),
            };
            lemma_parsed_continuation_well_formed(joined, right.rest, precedence);
        }
    }
}

/// An operand has no more nodes than tokens were taken for it.
pub proof fn lemma_parsed_operand_size(toks: Seq<SpecToken>)
    ensures
        parsed_operand(toks) matches Ok(parsed) ==> node_count(parsed.expr) + parsed.rest.len()
            <= toks.len(),
    decreases toks.len(), 0nat,
{
    if toks.len() > 0 {
        match toks[0].kind {
            TokenType::Minus => {
                lemma_parsed_expression_size(toks.skip(1), Precedence::Prefix);
            },
            TokenType::LeftParen => {
                lemma_parsed_expression_size(toks.skip(1), Precedence::Lowest);
            },
            _ => {},
        }
    }
}

/// A tree has no more nodes than tokens were taken for it: it is finite, and
/// its height is bounded by the length of the input.
pub proof fn lemma_parsed_expression_size(toks: Seq<SpecToken>, precedence: Precedence)
    ensures
        parsed_expression(toks, precedence) matches Ok(parsed) ==> node_count(parsed.expr)
            + parsed.rest.len() <= toks.len(),
    decreases toks.len(), 1nat,
{
    lemma_parsed_operand_size(toks);
    lemma_parsed_operand_consumes(toks);
    if let Ok(operand) = parsed_operand(toks) {
        lemma_parsed_continuation_size(operand.expr, operand.rest, precedence);
    }
}

/// What goes on behind an expression adds no more nodes than tokens are
/// taken for it.
pub proof fn lemma_parsed_continuation_size(
    left: SpecExpr,
    rest: Seq<SpecToken>,
    precedence: Precedence,
)
    ensures
        parsed_continuation(left, rest, precedence) matches Ok(parsed) ==> node_count(
            parsed.expr,
        ) + parsed.rest.len() <= node_count(left) + rest.len(),
    decreases rest.len(), 2nat,
{
    if continues(rest, precedence) {
        let tail = rest.skip(1);
        lemma_parsed_expression_size(tail, precedence_of(rest[0].kind));
        lemma_parsed_expression_consumes(tail, precedence_of(rest[0].kind));
        if let Ok(right) = parsed_expression(tail, precedence_of(rest[0].kind)) {
            let joined = SpecExpr::Infix {
                left: Box::new(left),
                token: rest[0],
                right: Box::new(right.expr),
            };
            lemma_parsed_continuation_size(joined, right.rest, precedence);
        }
    }
}

/// An expression is its operand together with what goes on behind it: the
/// test on the lengths in `parsed_expression` always succeeds.
pub proof fn lemma_parsed_expression_unfolds(toks: Seq<SpecToken>, precedence: Precedence)
    ensures
        parsed_expression(toks, precedence) == match parsed_operand(toks) {
            Ok(operand) => parsed_continuation(operand.expr, operand.rest, precedence),
            Err(error) => Err(error),
        },
{
    lemma_parsed_operand_consumes(toks);
}

/// Where an expression goes on with an operator, the operator's right-hand
/// side is read at the operator's level, and the two sides together go on
/// with what follows the right-hand side: the test on the lengths in
/// `parsed_continuation` always succeeds.
pub proof fn lemma_parsed_continuation_unfolds(
    left: SpecExpr,
    rest: Seq<SpecToken>,
    precedence: Precedence,
)
    requires
        continues(rest, precedence),
    ensures
        parsed_continuation(left, rest, precedence) == match parsed_expression(
            rest.skip(1),
            precedence_of(rest[0].kind),
        ) {
            Ok(right) => parsed_continuation(
                SpecExpr::Infix {
                    left: Box::new(left),
                    token: rest[0],
                    right: Box::new(right.expr),
                },
                right.rest,
                precedence,
            ),
            Err(error) => Err(error),
        },
{
    lemma_parsed_expression_consumes(rest.skip(1), precedence_of(rest[0].kind));
}

/// The sequence that holds `token`, or no token where it is end-of-input.
pub open spec fn unless_end(token: SpecToken) -> Seq<SpecToken> {
    if token.kind == TokenType::EOF {
        Seq::empty()
    } else {
        seq![token]
    }
}

/// A parser over the tokens of a scanner. It holds two tokens of lookahead:
/// the current token and the one after it.
pub struct Parser {
    lexer: Lexer,
    token_current: Token,
    token_next: Token,
}

impl Parser {
    /// The lookahead is consistent: once the end of the input has been
    /// reached, every later token is end-of-input too. Every parser that `new`
    /// returns is well formed, and every method keeps it so.
    pub closed spec fn wf(&self) -> bool {
        &&& self.token_current@.kind == TokenType::EOF ==> self.token_next@.kind
            == TokenType::EOF
        &&& self.token_next@.kind == TokenType::EOF ==> self.lexer.pending().len() == 0
    }

    /// The tokens that follow the current token.
    pub closed spec fn lookahead(&self) -> Seq<SpecToken> {
        unless_end(self.token_next@) + self.lexer.pending()
    }

    /// The tokens that the parser has not yet gone past: the current token
    /// and those that follow it.
    pub closed spec fn stream(&self) -> Seq<SpecToken> {
        unless_end(self.token_current@) + self.lookahead()
    }

    /// Reads the first two tokens from the scanner. Fails where one of them
    /// is not a token of the language.
    pub fn new(lexer: Lexer) -> (result: Result<Parser, ParseError>)
        ensures
            match result {
                Ok(parser) => parser.wf() && !starts_illegal(lexer.pending())
                    && parser.stream() == lexer.pending(),
                Err(error) => starts_illegal(lexer.pending()) && error
                    == ParseError::IllegalToken,
            },
    {
        let ghost source = lexer.source();
        let ghost start = lexer.offset();
        let mut lexer = lexer;
        let token_current = lexer.next_token();
        let ghost middle = lexer.offset();
        let token_next = lexer.next_token();
        proof {
            lemma_scan_advances(source, start);
            lemma_scan_advances(source, middle);
            if scan(source, start).token.kind == TokenType::EOF {
                lemma_scan_at_end_repeats(source, start);
            }
            if scan(source, middle).token.kind == TokenType::EOF {
                lemma_scan_at_end_repeats(source, middle);
            }
            let end = lexer.offset();
            if scan(source, middle).token.kind == TokenType::EOF {
                assert(tokens_from(source, end).len() == 0);
            }
            assert(tokens_from(source, middle) =~= unless_end(token_next@) + tokens_from(
                source,
                end,
            ));
            assert(tokens_from(source, start) =~= unless_end(token_current@) + tokens_from(
                source,
                middle,
            ));
        }
        if token_current.token_type() == TokenType::Illegal || token_next.token_type()
            == TokenType::Illegal {
            return Err(ParseError::IllegalToken);
        }
        Ok(Parser { lexer, token_current, token_next })
    }

    /// Whether the parser, having started on the tokens `before`, has done
    /// what `expected` asks for: on success it returns the expected tree,
    /// stands on the last token of the expression and has the expected tokens
    /// ahead; on failure it returns the expected error.
    spec fn delivers(
        &self,
        before: Seq<SpecToken>,
        result: Result<Expression, ParseError>,
        expected: Result<Parsed, ParseError>,
    ) -> bool {
        &&& self.wf()
        &&& is_suffix(self.stream(), before)
        &&& match expected {
            Ok(parsed) => {
                &&& result matches Ok(tree)
                &&& tree@ == parsed.expr
                &&& self.lookahead() == parsed.rest
                &&& self.stream().len() == parsed.rest.len() + 1
            },
            Err(error) => result matches Err(e) && e == error,
        }
    }

    /// Parses one expression from the tokens that the parser has not yet gone
    /// past. On success the parser stands on the last token of the
    /// expression.
    pub fn parse(&mut self) -> (result: Result<Expression, ParseError>)
        requires
            old(self).wf(),
        ensures
            final(self).wf(),
            is_suffix(final(self).stream(), old(self).stream()),
            match parsed_expression(old(self).stream(), Precedence::Lowest) {
                Ok(parsed) => {
                    &&& result matches Ok(tree)
                    &&& tree@ == parsed.expr
                    &&& final(self).lookahead() == parsed.rest
                    &&& final(self).stream().len() == parsed.rest.len() + 1
                },
                Err(error) => result matches Err(e) && e == error,
            },
            result matches Ok(tree) ==> well_formed(tree@),
    {
        proof {
            lemma_parsed_expression_well_formed(self.stream(), Precedence::Lowest);
        }
        self.parse_expression(Precedence::Lowest)
    }

    /// Parses the expression that begins with the current token, at the level
    /// `precedence`: an operand, then every binary operator that binds more
    /// strongly than `precedence`, each with its right-hand side.
    fn parse_expression(&mut self, precedence: Precedence) -> (result: Result<
        Expression,
        ParseError,
    >)
        requires
            old(self).wf(),
        ensures
            final(self).delivers(
                old(self).stream(),
                result,
                parsed_expression(old(self).stream(), precedence),
            ),
        decreases old(self).stream().len(), 1nat,
    {
        let ghost toks = self.stream();
        let ghost target = parsed_expression(toks, precedence);
        proof {
            assert(toks =~= toks.skip(0));
            assert(toks.len() > 0 ==> toks[0] == self.token_current@);
        }
        let operand = match self.token_current.token_type() {
            TokenType::Int => self.parse_integer_literal(),
            TokenType::Minus => self.parse_prefix_expression(),
            TokenType::LeftParen => self.parse_grouped_expression(),
            _ => Err(ParseError::NoPrefixRule),
        };
        let mut left_expr = match operand {
            Ok(tree) => tree,
            Err(error) => {
                return Err(error);
            },
        };
        while self.token_next.token_type() != TokenType::EOF && precedence.level()
            < self.token_next.precedence().level()
            invariant
                toks == old(self).stream(),
                target == parsed_expression(toks, precedence),
                self.wf(),
                is_suffix(self.stream(), toks),
                self.stream().len() == self.lookahead().len() + 1,
                self.lookahead().len() < toks.len(),
                parsed_continuation(left_expr@, self.lookahead(), precedence) == target,
            decreases self.lookahead().len(),
        {
            let ghost ahead = self.lookahead();
            proof {
                assert(ahead[0] == self.token_next@);
            }
            match self.token_next.token_type() {
                TokenType::Plus
                | TokenType::Minus
                | TokenType::Multiply
                | TokenType::Divide
                | TokenType::Pow
                | TokenType::Mod => {
                    proof {
                        assert(ahead =~= self.stream().skip(1));
                        assert(is_suffix(ahead, self.stream()));
                        lemma_suffix_transitive(ahead, self.stream(), toks);
                    }
                    self.read_next_token();
                    match self.parse_infix_expression(left_expr) {
                        Ok(tree) => {
                            proof {
                                lemma_suffix_transitive(self.stream(), ahead, toks);
                            }
                            left_expr = tree;
                        },
                        Err(error) => {
                            proof {
                                lemma_suffix_transitive(self.stream(), ahead, toks);
                            }
                            return Err(error);
                        },
                    }
                },
                _ => {
                    return Ok(left_expr);
                },
            };
        }
        Ok(left_expr)
    }

    /// The literal of the current token, which is an integer.
    fn parse_integer_literal(&self) -> (result: Result<Expression, ParseError>)
        requires
            self.wf(),
            self.token_current@.kind == TokenType::Int,
        ensures
            self.delivers(self.stream(), result, parsed_operand(self.stream())),
    {
        proof {
            assert(self.lookahead() =~= self.stream().skip(1));
            assert(self.stream() =~= self.stream().skip(0));
        }
        match parse_integer(self.token_current.1.as_str()) {
            Some(value) => Ok(
                Expression::IntegerLiteral(
                    IntegerLiteralExpression { token: self.token_current.clone(), value },
                ),
            ),
            None => Err(ParseError::InvalidInteger),
        }
    }

    /// Parses the operand behind the current token, which is a minus sign,
    /// and negates it.
    fn parse_prefix_expression(&mut self) -> (result: Result<Expression, ParseError>)
        requires
            old(self).wf(),
            old(self).token_current@.kind == TokenType::Minus,
        ensures
            final(self).delivers(old(self).stream(), result, parsed_operand(old(self).stream())),
        decreases old(self).stream().len(), 0nat,
    {
        let ghost toks = self.stream();
        let token = self.token_current.clone();
        proof {
            assert(self.lookahead() =~= toks.skip(1));
            assert(is_suffix(toks.skip(1), toks));
        }
        self.read_next_token();
        match self.parse_expression(Precedence::Prefix) {
            Ok(right) => {
                proof {
                    lemma_suffix_transitive(self.stream(), toks.skip(1), toks);
                }
                Ok(Expression::Prefix(PrefixExpression { token, right: Box::new(right) }))
            },
            Err(error) => {
                proof {
                    lemma_suffix_transitive(self.stream(), toks.skip(1), toks);
                }
                Err(error)
            },
        }
    }

    /// Parses the right-hand side of the current token, which is a binary
    /// operator, at the operator's own level, and joins it to `left`.
    fn parse_infix_expression(&mut self, left: Expression) -> (result: Result<
        Expression,
        ParseError,
    >)
        requires
            old(self).wf(),
            is_binary_operator(old(self).token_current@.kind),
        ensures
            final(self).wf(),
            is_suffix(final(self).stream(), old(self).stream()),
            match parsed_expression(
                old(self).stream().skip(1),
                precedence_of(old(self).token_current@.kind),
            ) {
                Ok(right) => {
                    &&& result matches Ok(tree)
                    &&& tree@ == SpecExpr::Infix {
                        left: Box::new(left@),
                        token: old(self).token_current@,
                        right: Box::new(right.expr),
                    }
                    &&& final(self).lookahead() == right.rest
                    &&& final(self).stream().len() == right.rest.len() + 1
                },
                Err(error) => result matches Err(e) && e == error,
            },
        decreases old(self).stream().len(), 0nat,
    {
        let ghost toks = self.stream();
        let token = self.token_current.clone();
        let precedence = self.token_current.precedence();
        proof {
            assert(self.lookahead() =~= toks.skip(1));
            assert(is_suffix(toks.skip(1), toks));
        }
        self.read_next_token();
        match self.parse_expression(precedence) {
            Ok(right) => {
                proof {
                    lemma_suffix_transitive(self.stream(), toks.skip(1), toks);
                }
                Ok(
                    Expression::Infix(
                        InfixExpression { left: Box::new(left), token, right: Box::new(right) },
                    ),
                )
            },
            Err(error) => {
                proof {
                    lemma_suffix_transitive(self.stream(), toks.skip(1), toks);
                }
                Err(error)
            },
        }
    }

    /// Parses the expression behind the current token, which is an opening
    /// parenthesis, at the lowest level, and moves onto the closing
    /// parenthesis that must follow it.
    fn parse_grouped_expression(&mut self) -> (result: Result<Expression, ParseError>)
        requires
            old(self).wf(),
            old(self).token_current@.kind == TokenType::LeftParen,
        ensures
            final(self).delivers(old(self).stream(), result, parsed_operand(old(self).stream())),
        decreases old(self).stream().len(), 0nat,
    {
        let ghost toks = self.stream();
        proof {
            assert(self.lookahead() =~= toks.skip(1));
            assert(is_suffix(toks.skip(1), toks));
        }
        self.read_next_token();
        let inner = match self.parse_expression(Precedence::Lowest) {
            Ok(tree) => tree,
            Err(error) => {
                proof {
                    lemma_suffix_transitive(self.stream(), toks.skip(1), toks);
                }
                return Err(error);
            },
        };
        proof {
            lemma_suffix_transitive(self.stream(), toks.skip(1), toks);
        }
        if self.token_next.token_type() != TokenType::RightParen {
            return Err(ParseError::MissingRightParen);
        }
        let ghost ahead = self.lookahead();
        proof {
            assert(ahead =~= self.stream().skip(1));
            assert(is_suffix(ahead, self.stream()));
            lemma_suffix_transitive(ahead, self.stream(), toks);
        }
        self.read_next_token();
        proof {
            assert(self.lookahead() =~= ahead.skip(1));
        }
        Ok(inner)
    }

    /// Moves on by one token: the next token becomes the current one, and a
    /// new next token is read from the scanner.
    fn read_next_token(&mut self)
        requires
            old(self).wf(),
        ensures
            final(self).wf(),
            final(self).stream() == old(self).lookahead(),
            final(self).token_current@ == old(self).token_next@,
    {
        proof {
            self.lexer.lemma_offset_nonnegative();
            lemma_scan_advances(self.lexer.source(), self.lexer.offset());
            if scan(self.lexer.source(), self.lexer.offset()).token.kind == TokenType::EOF {
                lemma_scan_at_end_repeats(self.lexer.source(), self.lexer.offset());
            }
        }
        let token = self.lexer.next_token();
        self.token_current = self.token_next.clone();
        self.token_next = token;
        proof {
            assert(self.stream() =~= old(self).lookahead());
        }
    }
}

/// Parses a text as one expression. Tokens that follow a complete expression
/// are left unread.
pub fn parse(text: &str) -> (result: Result<Expression, ParseError>)
    ensures
        match parsed_text(text@) {
            Ok(expr) => result matches Ok(tree) && tree@ == expr,
            Err(error) => result matches Err(e) && e == error,
        },
        result matches Ok(tree) ==> well_formed(tree@),
{
    let lexer = Lexer::new(text.to_owned());
    match Parser::new(lexer) {
        Ok(parser) => {
            let mut parser = parser;
            parser.parse()
        },
        Err(error) => Err(error),
    }
}

} // verus!
