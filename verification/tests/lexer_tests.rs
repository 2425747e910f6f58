use ast_calculator::lexer::{char_is_digit, char_is_space, Lexer};
use ast_calculator::{Precedence, Token, TokenType};

fn tokens_of(input: &str) -> Vec<Token> {
    let mut lexer = Lexer::new(input.to_string());
    let mut tokens = Vec::new();
    loop {
        let token = lexer.next_token();
        let done = token.token_type() == TokenType::EOF;
        tokens.push(token);
        if done {
            return tokens;
        }
    }
}

fn kinds_of(input: &str) -> Vec<TokenType> {
    tokens_of(input).iter().map(|token| token.token_type()).collect()
}

#[test]
fn next_token_test() {
    let input = "1 + 2 * (12 - 6) / 3 + 2 ^ 3";
    let expected_seq = vec![
        Token(TokenType::Int, "1".to_string()),
        Token(TokenType::Plus, "+".to_string()),
        Token(TokenType::Int, "2".to_string()),
        Token(TokenType::Multiply, "*".to_string()),
        Token(TokenType::LeftParen, "(".to_string()),
        Token(TokenType::Int, "12".to_string()),
        Token(TokenType::Minus, "-".to_string()),
        Token(TokenType::Int, "6".to_string()),
        Token(TokenType::RightParen, ")".to_string()),
        Token(TokenType::Divide, "/".to_string()),
        Token(TokenType::Int, "3".to_string()),
        Token(TokenType::Plus, "+".to_string()),
        Token(TokenType::Int, "2".to_string()),
        Token(TokenType::Pow, "^".to_string()),
        Token(TokenType::Int, "3".to_string()),
        Token(TokenType::EOF, "".to_string()),
    ];

    let mut lexer = Lexer::new(input.to_string());
    for expected in expected_seq.iter() {
        let actual = lexer.next_token();
        assert_eq!(actual, *expected);
    }
}

#[test]
fn end_of_input_repeats() {
    let mut lexer = Lexer::new("7".to_string());
    assert_eq!(lexer.next_token(), Token(TokenType::Int, "7".to_string()));
    for _ in 0..5 {
        assert_eq!(lexer.next_token(), Token(TokenType::EOF, String::new()));
    }
}

#[test]
fn empty_and_blank_texts_are_end_of_input() {
    assert_eq!(tokens_of(""), vec![Token(TokenType::EOF, String::new())]);
    assert_eq!(tokens_of("   \t\r\n "), vec![Token(TokenType::EOF, String::new())]);
}

#[test]
fn every_symbol_is_one_token_of_one_character() {
    let expected = vec![
        Token(TokenType::Plus, "+".to_string()),
        Token(TokenType::Minus, "-".to_string()),
        Token(TokenType::Multiply, "*".to_string()),
        Token(TokenType::Divide, "/".to_string()),
        Token(TokenType::Pow, "^".to_string()),
        Token(TokenType::Mod, "%".to_string()),
        Token(TokenType::LeftParen, "(".to_string()),
        Token(TokenType::RightParen, ")".to_string()),
        Token(TokenType::EOF, String::new()),
    ];
    assert_eq!(tokens_of("+-*/^%()"), expected);
}

#[test]
fn digit_run_ends_exactly_behind_its_last_digit() {
    let expected = vec![
        Token(TokenType::Int, "12".to_string()),
        Token(TokenType::Plus, "+".to_string()),
        Token(TokenType::Int, "345".to_string()),
        Token(TokenType::RightParen, ")".to_string()),
        Token(TokenType::Int, "6".to_string()),
        Token(TokenType::EOF, String::new()),
    ];
    assert_eq!(tokens_of("12+345)6"), expected);
}

#[test]
fn digit_runs_are_split_by_white_space_only() {
    assert_eq!(
        tokens_of("007 42"),
        vec![
            Token(TokenType::Int, "007".to_string()),
            Token(TokenType::Int, "42".to_string()),
            Token(TokenType::EOF, String::new()),
        ]
    );
}

#[test]
fn unknown_character_is_an_illegal_token_with_that_character() {
    assert_eq!(
        tokens_of("1 $ x"),
        vec![
            Token(TokenType::Int, "1".to_string()),
            Token(TokenType::Illegal, "$".to_string()),
            Token(TokenType::Illegal, "x".to_string()),
            Token(TokenType::EOF, String::new()),
        ]
    );
}

#[test]
fn characters_outside_ascii_are_counted_as_characters() {
    assert_eq!(
        tokens_of("é12\u{3000}+π"),
        vec![
            Token(TokenType::Illegal, "é".to_string()),
            Token(TokenType::Int, "12".to_string()),
            Token(TokenType::Plus, "+".to_string()),
            Token(TokenType::Illegal, "π".to_string()),
            Token(TokenType::EOF, String::new()),
        ]
    );
}

#[test]
fn digits_of_other_scripts_are_not_digits() {
    assert_eq!(kinds_of("٣"), vec![TokenType::Illegal, TokenType::EOF]);
    assert_eq!(kinds_of("²"), vec![TokenType::Illegal, TokenType::EOF]);
}

#[test]
fn white_space_is_what_the_standard_library_calls_white_space() {
    for code in 0..=0x10FFFFu32 {
        if let Some(c) = char::from_u32(code) {
            assert_eq!(char_is_space(c), c.is_whitespace(), "U+{:04X}", code);
        }
    }
}

#[test]
fn digits_are_the_ten_ascii_digits() {
    for code in 0..=0x10FFFFu32 {
        if let Some(c) = char::from_u32(code) {
            assert_eq!(char_is_digit(c), c.is_ascii_digit(), "U+{:04X}", code);
        }
    }
}

#[test]
fn skip_whitespace_stops_at_the_first_other_character() {
    let mut lexer = Lexer::new(" \t\n 9 ".to_string());
    lexer.skip_whitespace();
    assert_eq!(lexer.read_number(), "9");
    assert_eq!(lexer.next_token(), Token(TokenType::Int, "9".to_string()));
    lexer.skip_whitespace();
    lexer.skip_whitespace();
    assert_eq!(lexer.next_token(), Token(TokenType::EOF, String::new()));
}

#[test]
fn read_number_reads_the_longest_run_and_stays_on_its_last_digit() {
    let mut lexer = Lexer::new("2024-1".to_string());
    assert_eq!(lexer.read_number(), "2024");
    assert_eq!(lexer.read_number(), "4");
    assert_eq!(lexer.next_token(), Token(TokenType::Int, "4".to_string()));
    assert_eq!(lexer.next_token(), Token(TokenType::Minus, "-".to_string()));
    assert_eq!(lexer.read_number(), "1");
    assert_eq!(lexer.next_token(), Token(TokenType::Int, "1".to_string()));
    assert_eq!(lexer.next_token(), Token(TokenType::EOF, String::new()));
}

#[test]
fn next_token_makes_the_step_behind_a_number() {
    let mut lexer = Lexer::new("12 345".to_string());
    assert_eq!(lexer.next_token(), Token(TokenType::Int, "12".to_string()));
    lexer.skip_whitespace();
    assert_eq!(lexer.read_number(), "345");
    assert_eq!(lexer.next_token(), Token(TokenType::Int, "5".to_string()));
    assert_eq!(lexer.next_token(), Token(TokenType::EOF, String::new()));
}

#[test]
fn token_accessors_return_the_parts() {
    let token = Token::new(TokenType::Multiply, "*".to_string());
    assert_eq!(token.token_type(), TokenType::Multiply);
    assert_eq!(token.literal(), "*");
    assert_eq!(token.0, TokenType::Multiply);
    assert_eq!(token.1, "*");
    assert_eq!(token.clone(), token);
}

#[test]
fn precedence_of_each_kind_of_token() {
    let cases = vec![
        (TokenType::Int, Precedence::Lowest),
        (TokenType::Plus, Precedence::Sum),
        (TokenType::Minus, Precedence::Sum),
        (TokenType::Multiply, Precedence::Product),
        (TokenType::Divide, Precedence::Product),
        (TokenType::Mod, Precedence::Product),
        (TokenType::Pow, Precedence::Pow),
        (TokenType::LeftParen, Precedence::Grouping),
        (TokenType::RightParen, Precedence::Lowest),
        (TokenType::EOF, Precedence::Lowest),
        (TokenType::Illegal, Precedence::Lowest),
    ];
    for (kind, expected) in cases {
        assert_eq!(Token::new(kind, String::new()).precedence(), expected);
    }
}

#[test]
fn precedence_levels_are_totally_ordered() {
    let levels = vec![
        Precedence::Lowest,
        Precedence::Sum,
        Precedence::Product,
        Precedence::Prefix,
        Precedence::Pow,
        Precedence::Grouping,
    ];
    for (i, a) in levels.iter().enumerate() {
        assert_eq!(a.level() as usize, i);
        for (j, b) in levels.iter().enumerate() {
            assert_eq!(a < b, i < j);
            assert_eq!(a.level() < b.level(), i < j);
            assert_eq!(a == b, i == j);
        }
    }
}
