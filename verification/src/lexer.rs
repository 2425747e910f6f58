//! The scanner: character classes, the mathematical definition of the token
//! that starts at a position of a text, and the `Lexer` that produces it.

use crate::{SpecToken, Token, TokenType};
use vstd::prelude::*;

verus! {

/// Whether `c` is a decimal digit, `0` to `9`.
pub open spec fn is_digit(c: char) -> bool {
    '0' <= c <= '9'
}

/// Whether `c` is white space: one of the code points that carry the Unicode
/// property `White_Space`.
pub open spec fn is_space(c: char) -> bool {
    ||| '\u{9}' <= c <= '\u{d}'
    ||| c == ' '
    ||| c == '\u{85}'
    ||| c == '\u{a0}'
    ||| c == '\u{1680}'
    ||| '\u{2000}' <= c <= '\u{200a}'
    ||| c == '\u{2028}'
    ||| c == '\u{2029}'
    ||| c == '\u{202f}'
    ||| c == '\u{205f}'
    ||| c == '\u{3000}'
}

/// The category of a token that consists of the single character `c`, where
/// `c` is neither white space nor a digit.
pub open spec fn symbol_kind(c: char) -> TokenType {
    if c == '+' {
        TokenType::Plus
    } else if c == '-' {
        TokenType::Minus
    } else if c == '*' {
        TokenType::Multiply
    } else if c == '/' {
        TokenType::Divide
    } else if c == '^' {
        TokenType::Pow
    } else if c == '(' {
        TokenType::LeftParen
    } else if c == ')' {
        TokenType::RightParen
    } else if c == '%' {
        TokenType::Mod
    } else {
        TokenType::Illegal
    }
}

/// The end of the longest run of white space in `s` that starts at `from`.
pub open spec fn spaces_end(s: Seq<char>, from: int) -> int
    decreases s.len() - from,
{
    if 0 <= from < s.len() && is_space(s[from]) {
        spaces_end(s, from + 1)
    } else {
        from
    }
}

/// The end of the longest run of digits in `s` that starts at `from`.
pub open spec fn digits_end(s: Seq<char>, from: int) -> int
    decreases s.len() - from,
{
    if 0 <= from < s.len() && is_digit(s[from]) {
        digits_end(s, from + 1)
    } else {
        from
    }
}

/// A token together with the position in the text just behind it.
pub struct Lexeme {
    pub token: SpecToken,
    pub end: int,
}

/// The token that a scanner standing at `pos` in `s` produces next, and where
/// the scanner stands afterwards. White space before the token is skipped; at
/// the end of the text the token is the end-of-input token with empty text.
pub open spec fn scan(s: Seq<char>, pos: int) -> Lexeme {
    let start = spaces_end(s, pos);
    if !(0 <= start < s.len()) {
        Lexeme { token: SpecToken { kind: TokenType::EOF, text: Seq::empty() }, end: start }
    } else if is_digit(s[start]) {
        let end = digits_end(s, start);
        Lexeme { token: SpecToken { kind: TokenType::Int, text: s.subrange(start, end) }, end }
    } else {
        Lexeme {
            token: SpecToken { kind: symbol_kind(s[start]), text: s.subrange(start, start + 1) },
            end: start + 1,
        }
    }
}

/// The tokens that a scanner standing at `pos` in `s` produces before it
/// reaches the end of the text, in order. The end-of-input token is not part
/// of the sequence.
pub open spec fn tokens_from(s: Seq<char>, pos: int) -> Seq<SpecToken>
    decreases s.len() - pos,
    via tokens_from_decreases
{
    if pos < 0 || scan(s, pos).token.kind == TokenType::EOF {
        Seq::empty()
    } else {
        seq![scan(s, pos).token] + tokens_from(s, scan(s, pos).end)
    }
}

#[via_fn]
proof fn tokens_from_decreases(s: Seq<char>, pos: int) {
    if pos >= 0 {
        lemma_scan_advances(s, pos);
    }
}

/// The run of white space that starts at `from` ends inside the text, holds
/// white space only, and cannot be made longer.
pub proof fn lemma_spaces_end(s: Seq<char>, from: int)
    requires
        0 <= from,
    ensures
        from <= spaces_end(s, from),
        from <= s.len() ==> spaces_end(s, from) <= s.len(),
        forall|i: int| from <= i < spaces_end(s, from) ==> is_space(#[trigger] s[i]),
        spaces_end(s, from) < s.len() ==> !is_space(s[spaces_end(s, from)]),
    decreases s.len() - from,
{
    if from < s.len() && is_space(s[from]) {
        lemma_spaces_end(s, from + 1);
    }
}

/// The run of digits that starts at `from` ends inside the text, holds digits
/// only, and cannot be made longer.
pub proof fn lemma_digits_end(s: Seq<char>, from: int)
    requires
        0 <= from,
    ensures
        from <= digits_end(s, from),
        from <= s.len() ==> digits_end(s, from) <= s.len(),
        forall|i: int| from <= i < digits_end(s, from) ==> is_digit(#[trigger] s[i]),
        digits_end(s, from) < s.len() ==> !is_digit(s[digits_end(s, from)]),
    decreases s.len() - from,
{
    if from < s.len() && is_digit(s[from]) {
        lemma_digits_end(s, from + 1);
    }
}

/// Scanning never moves backwards and never leaves the text. A token other
/// than end-of-input has at least one character, which the scanner moves
/// past, and its text is the very part of the source that was consumed after
/// the white space. The end-of-input token is produced only at the end of the
/// text.
pub proof fn lemma_scan_advances(s: Seq<char>, pos: int)
    requires
        0 <= pos,
    ensures
        pos <= spaces_end(s, pos) <= scan(s, pos).end,
        pos <= s.len() ==> scan(s, pos).end <= s.len(),
        scan(s, pos).token.kind != TokenType::EOF ==> pos < scan(s, pos).end,
        scan(s, pos).token.kind != TokenType::EOF ==> 0 < scan(s, pos).token.text.len(),
        pos <= s.len() ==> scan(s, pos).token.text == s.subrange(
            spaces_end(s, pos),
            scan(s, pos).end,
        ),
        scan(s, pos).token.kind == TokenType::EOF ==> scan(s, pos).end >= s.len(),
{
    lemma_spaces_end(s, pos);
    let start = spaces_end(s, pos);
    if start < s.len() {
        if is_digit(s[start]) {
            lemma_digits_end(s, start);
        }
    } else if pos <= s.len() {
        assert(s.subrange(start, start) =~= Seq::<char>::empty());
    }
}

/// A text has no more tokens than characters.
pub proof fn lemma_tokens_are_bounded(s: Seq<char>, pos: int)
    requires
        0 <= pos <= s.len(),
    ensures
        tokens_from(s, pos).len() <= s.len() - pos,
    decreases s.len() - pos,
{
    lemma_scan_advances(s, pos);
    if scan(s, pos).token.kind != TokenType::EOF {
        lemma_tokens_are_bounded(s, scan(s, pos).end);
    }
}

/// Once the scanner has produced the end-of-input token it stays where it is
/// and produces that token again.
pub proof fn lemma_scan_at_end_repeats(s: Seq<char>, pos: int)
    requires
        0 <= pos,
        scan(s, pos).token.kind == TokenType::EOF,
    ensures
        scan(s, scan(s, pos).end) == scan(s, pos),
{
    lemma_spaces_end(s, pos);
}

/// Whether `c` is a decimal digit.
pub fn char_is_digit(c: char) -> (r: bool)
    ensures
        r == is_digit(c),
{
    '0' <= c && c <= '9'
}

/// Whether `c` is white space.
pub fn char_is_space(c: char) -> (r: bool)
    ensures
        r == is_space(c),
{
    ('\u{9}' <= c && c <= '\u{d}') || c == ' ' || c == '\u{85}' || c == '\u{a0}' || c
        == '\u{1680}' || ('\u{2000}' <= c && c <= '\u{200a}') || c == '\u{2028}' || c
        == '\u{2029}' || c == '\u{202f}' || c == '\u{205f}' || c == '\u{3000}'
}

/// A scanner over a text. It stands at an offset into the text, counted in
/// characters, and moves forward one token per call.
pub struct Lexer {
    input: String,
    position: usize,
    length: usize,
}

impl Lexer {
    #[verifier::type_invariant]
    spec fn in_bounds(self) -> bool {
        self.position <= self.length && self.length == self.input@.len()
    }

    /// The text being scanned.
    pub closed spec fn source(&self) -> Seq<char> {
        self.input@
    }

    /// The number of characters of the text that lie behind the scanner.
    pub closed spec fn offset(&self) -> int {
        self.position as int
    }

    /// The scanner never stands before the beginning of the text.
    pub proof fn lemma_offset_nonnegative(&self)
        ensures
            0 <= self.offset(),
    {
    }

    /// The tokens that are still to come.
    pub open spec fn pending(&self) -> Seq<SpecToken> {
        tokens_from(self.source(), self.offset())
    }

    /// A scanner that stands at the beginning of `input`.
    pub fn new(input: String) -> (lexer: Lexer)
        ensures
            lexer.source() == input@,
            lexer.offset() == 0,
    {
        let length = input.as_str().unicode_len();
        Lexer { input, position: 0, length }
    }

    /// Skips white space, then reads one token and moves behind it. At the end
    /// of the text the token is end-of-input and the scanner stays there.
    pub fn next_token(&mut self) -> (token: Token)
        ensures
            final(self).source() == old(self).source(),
            token@ == scan(old(self).source(), old(self).offset()).token,
            final(self).offset() == scan(old(self).source(), old(self).offset()).end,
            0 <= old(self).offset() <= final(self).offset() <= final(self).source().len(),
    {
        proof {
            use_type_invariant(&*self);
            lemma_scan_advances(self.input@, self.position as int);
        }
        self.skip_whitespace();
        proof {
            use_type_invariant(&*self);
        }
        if self.position >= self.length {
            return Token(TokenType::EOF, String::new());
        }
        let ch = self.input.as_str().get_char(self.position);
        let token = if char_is_digit(ch) {
            let literal = self.read_number();
            Token(TokenType::Int, literal)
        } else {
            let kind = match ch {
                '+' => TokenType::Plus,
                '-' => TokenType::Minus,
                '*' => TokenType::Multiply,
                '/' => TokenType::Divide,
                '^' => TokenType::Pow,
                '(' => TokenType::LeftParen,
                ')' => TokenType::RightParen,
                '%' => TokenType::Mod,
                _ => TokenType::Illegal,
            };
            Token(
                kind,
                self.input.as_str().substring_char(self.position, self.position + 1).to_owned(),
            )
        };
        proof {
            use_type_invariant(&*self);
        }
        self.position = self.position + 1;
        token
    }

    /// Reads the longest run of digits that starts where the scanner stands,
    /// which must be on a digit, and leaves the scanner on the last digit of
    /// the run: the step behind it is `next_token`'s, as for every token.
    pub fn read_number(&mut self) -> (text: String)
        requires
            0 <= old(self).offset() < old(self).source().len(),
            is_digit(old(self).source()[old(self).offset()]),
        ensures
            final(self).source() == old(self).source(),
            text@ == old(self).source().subrange(
                old(self).offset(),
                digits_end(old(self).source(), old(self).offset()),
            ),
            final(self).offset() == digits_end(old(self).source(), old(self).offset()) - 1,
            old(self).offset() <= final(self).offset() < final(self).source().len(),
    {
        proof {
            use_type_invariant(&*self);
            lemma_digits_end(self.input@, self.position as int);
        }
        let start = self.position;
        while self.position < self.length && char_is_digit(
            self.input.as_str().get_char(self.position),
        )
            invariant
                self.input@ == old(self).input@,
                self.length == self.input@.len(),
                start <= self.position <= self.length,
                digits_end(self.input@, self.position as int) == digits_end(
                    self.input@,
                    start as int,
                ),
            decreases self.length - self.position,
        {
            self.position = self.position + 1;
        }
        let text = self.input.as_str().substring_char(start, self.position).to_owned();
        self.position = self.position - 1;
        text
    }

    /// Moves past the longest run of white space that starts where the
    /// scanner stands.
    pub fn skip_whitespace(&mut self)
        ensures
            final(self).source() == old(self).source(),
            final(self).offset() == spaces_end(old(self).source(), old(self).offset()),
            0 <= old(self).offset() <= final(self).offset() <= final(self).source().len(),
    {
        proof {
            use_type_invariant(&*self);
        }
        let ghost start = self.position;
        while self.position < self.length && char_is_space(
            self.input.as_str().get_char(self.position),
        )
            invariant
                self.input@ == old(self).input@,
                self.length == self.input@.len(),
                start <= self.position <= self.length,
                spaces_end(self.input@, self.position as int) == spaces_end(
                    self.input@,
                    start as int,
                ),
            decreases self.length - self.position,
        {
            self.position = self.position + 1;
        }
    }
}

} // verus!
