use ast_calculator::expression::{
    Expression, InfixExpression, IntegerLiteralExpression, PrefixExpression,
};
use ast_calculator::lexer::Lexer;
use ast_calculator::parser::{parse, parse_integer, ParseError, Parser};
use ast_calculator::{Token, TokenType};

fn rendered(input: &str) -> String {
    parse(input).unwrap().to_string()
}

fn failure(input: &str) -> ParseError {
    parse(input).unwrap_err()
}

fn number(text: &str, value: i64) -> Expression {
    Expression::IntegerLiteral(IntegerLiteralExpression {
        token: Token(TokenType::Int, text.to_string()),
        value,
    })
}

fn infix(left: Expression, kind: TokenType, text: &str, right: Expression) -> Expression {
    Expression::Infix(InfixExpression {
        left: Box::new(left),
        token: Token(kind, text.to_string()),
        right: Box::new(right),
    })
}

fn negated(right: Expression) -> Expression {
    Expression::Prefix(PrefixExpression {
        token: Token(TokenType::Minus, "-".to_string()),
        right: Box::new(right),
    })
}

#[test]
fn parser_test() {
    let test_cases = vec![
        ("5+ 5", "(5 + 5)"),
        ("1 + 2 - 3", "((1 + 2) - 3)"),
        ("10 - 12 * 12", "(10 - (12 * 12))"),
        ("16 / 4 ^ 2", "(16 / (4 ^ 2))"),
        ("(5 - 2) * 3", "((5 - 2) * 3)"),
        (" 5 +((12 + 8) / 4))", "(5 + ((12 + 8) / 4))"),
        ("-4 * 5 + 2", "(((- 4) * 5) + 2)"),
        ("5 + -3", "(5 + (- 3))"),
    ];

    for (input, expected) in test_cases {
        let lexer = Lexer::new(input.to_string());
        let mut parser = Parser::new(lexer).unwrap();
        let expr = parser.parse().unwrap();
        assert_eq!(expr.to_string(), expected);
    }
}

#[test]
fn parse_builds_the_tree_that_the_rendering_shows() {
    assert_eq!(parse("42").unwrap(), number("42", 42));
    assert_eq!(
        parse("10 - 12 * 12").unwrap(),
        infix(
            number("10", 10),
            TokenType::Minus,
            "-",
            infix(number("12", 12), TokenType::Multiply, "*", number("12", 12)),
        )
    );
    assert_eq!(
        parse("-4 % 5").unwrap(),
        infix(negated(number("4", 4)), TokenType::Mod, "%", number("5", 5))
    );
    assert_eq!(parse("((7))").unwrap(), number("7", 7));
}

#[test]
fn operators_of_one_level_group_to_the_left() {
    assert_eq!(rendered("1 - 2 - 3 - 4"), "(((1 - 2) - 3) - 4)");
    assert_eq!(rendered("8 / 4 % 3 * 2"), "(((8 / 4) % 3) * 2)");
    assert_eq!(rendered("1 + 2 - 3 + 4"), "(((1 + 2) - 3) + 4)");
}

#[test]
fn power_groups_to_the_left() {
    assert_eq!(rendered("2 ^ 3 ^ 2"), "((2 ^ 3) ^ 2)");
}

#[test]
fn stronger_operator_takes_the_operand_between() {
    assert_eq!(rendered("1 + 2 * 3"), "(1 + (2 * 3))");
    assert_eq!(rendered("1 * 2 + 3"), "((1 * 2) + 3)");
    assert_eq!(rendered("1 * 2 ^ 3"), "(1 * (2 ^ 3))");
    assert_eq!(rendered("1 ^ 2 * 3"), "((1 ^ 2) * 3)");
    assert_eq!(rendered("1 + 2 * 3 ^ 4 - 5"), "((1 + (2 * (3 ^ 4))) - 5)");
}

#[test]
fn minus_sign_binds_before_sum_and_product_but_behind_power() {
    assert_eq!(rendered("-4 * 5"), "((- 4) * 5)");
    assert_eq!(rendered("-4 + 5"), "((- 4) + 5)");
    assert_eq!(rendered("-2 ^ 2"), "(- (2 ^ 2))");
    assert_eq!(rendered("--3"), "(- (- 3))");
    assert_eq!(rendered("2 * -3"), "(2 * (- 3))");
    assert_eq!(rendered("-(1 + 2)"), "(- (1 + 2))");
}

#[test]
fn parentheses_leave_no_node() {
    assert_eq!(rendered("(1)"), "1");
    assert_eq!(rendered("((1 + 2))"), "(1 + 2)");
    assert_eq!(rendered("2 * (3 + 4)"), "(2 * (3 + 4))");
    assert_eq!(rendered("(2 ^ (3 ^ 2))"), "(2 ^ (3 ^ 2))");
}

#[test]
fn tokens_behind_a_complete_expression_are_left_unread() {
    assert_eq!(rendered("1 + 2 )"), "(1 + 2)");
    assert_eq!(rendered("1 + 2 ("), "(1 + 2)");
    assert_eq!(rendered("1 2"), "1");
    assert_eq!(rendered("1 + 2 $"), "(1 + 2)");

    let mut parser = Parser::new(Lexer::new("1 + 2 ) 7".to_string())).unwrap();
    assert_eq!(parser.parse().unwrap().to_string(), "(1 + 2)");
    assert_eq!(parser.parse().unwrap().to_string(), "2");
}

#[test]
fn rendering_reads_back_as_the_same_tree() {
    let inputs = vec![
        "5",
        "1 + 2 - 3",
        "10 - 12 * 12",
        "16 / 4 ^ 2",
        "(5 - 2) * 3",
        "-4 * 5 + 2",
        "5 + -3",
        "-2 ^ 2",
        "2 ^ 3 ^ 2 % 7 - -(8 / (4 - 2))",
    ];
    for input in inputs {
        let tree = parse(input).unwrap();
        let again = parse(&tree.to_string()).unwrap();
        assert_eq!(again, tree);
        assert_eq!(again.to_string(), tree.to_string());
    }
}

#[test]
fn token_literal_is_the_text_of_the_root() {
    assert_eq!(parse("12").unwrap().token_literal(), "12");
    assert_eq!(parse("1 + 2 * 3").unwrap().token_literal(), "+");
    assert_eq!(parse("-(1 * 3)").unwrap().token_literal(), "-");
    match parse("6 / 2").unwrap() {
        Expression::Infix(node) => {
            assert_eq!(node.token_literal(), "/");
            assert_eq!(node.to_string(), "(6 / 2)");
            assert_eq!(node.left.token_literal(), "6");
        }
        other => panic!("{:?}", other),
    }
    match parse("-9").unwrap() {
        Expression::Prefix(node) => {
            assert_eq!(node.token_literal(), "-");
            assert_eq!(node.to_string(), "(- 9)");
        }
        other => panic!("{:?}", other),
    }
    match parse("31").unwrap() {
        Expression::IntegerLiteral(node) => {
            assert_eq!(node.token_literal(), "31");
            assert_eq!(node.to_string(), "31");
            assert_eq!(node.value, 31);
            assert_eq!(node.clone(), node);
        }
        other => panic!("{:?}", other),
    }
}

#[test]
fn text_without_an_operand_at_its_front_fails() {
    assert_eq!(failure(""), ParseError::NoPrefixRule);
    assert_eq!(failure("   "), ParseError::NoPrefixRule);
    assert_eq!(failure("+"), ParseError::NoPrefixRule);
    assert_eq!(failure("* 2"), ParseError::NoPrefixRule);
    assert_eq!(failure(")"), ParseError::NoPrefixRule);
    assert_eq!(failure("^ 1 + 2"), ParseError::NoPrefixRule);
}

#[test]
fn operator_without_operand_fails() {
    assert_eq!(failure("1 +"), ParseError::NoPrefixRule);
    assert_eq!(failure("-"), ParseError::NoPrefixRule);
    assert_eq!(failure("1 + * 2"), ParseError::NoPrefixRule);
    assert_eq!(failure("(1 + )"), ParseError::NoPrefixRule);
    assert_eq!(failure("()"), ParseError::NoPrefixRule);
}

#[test]
fn unclosed_parenthesis_fails() {
    assert_eq!(failure("(1 + 2"), ParseError::MissingRightParen);
    assert_eq!(failure("(1"), ParseError::MissingRightParen);
    assert_eq!(failure("((1 + 2) * 3"), ParseError::MissingRightParen);
    assert_eq!(failure("(1 2)"), ParseError::MissingRightParen);
    assert_eq!(failure("("), ParseError::NoPrefixRule);
}

#[test]
fn illegal_token_among_the_first_two_fails_at_once() {
    assert_eq!(failure("$"), ParseError::IllegalToken);
    assert_eq!(failure("1 $"), ParseError::IllegalToken);
    assert_eq!(failure("a + 1"), ParseError::IllegalToken);
    assert_eq!(failure("+ ?"), ParseError::IllegalToken);
    assert!(matches!(
        Parser::new(Lexer::new("1 $ 2".to_string())),
        Err(ParseError::IllegalToken)
    ));
    assert!(Parser::new(Lexer::new("1 + $".to_string())).is_ok());
}

#[test]
fn illegal_token_later_fails_only_where_an_operand_must_begin() {
    assert_eq!(failure("1 + $"), ParseError::NoPrefixRule);
    assert_eq!(failure("(1 + 2 $"), ParseError::MissingRightParen);
    assert_eq!(rendered("1 + 2 $ 3"), "(1 + 2)");
}

#[test]
fn integer_literal_must_fit_into_64_bits() {
    assert_eq!(parse("9223372036854775807").unwrap(), number("9223372036854775807", i64::MAX));
    assert_eq!(failure("9223372036854775808"), ParseError::InvalidInteger);
    assert_eq!(failure("1 + 99999999999999999999"), ParseError::InvalidInteger);
    assert_eq!(parse("0000000000000000000000012").unwrap().to_string(), "0000000000000000000000012");
    assert_eq!(
        parse("0000000000000000000000012").unwrap(),
        number("0000000000000000000000012", 12)
    );
}

#[test]
fn parse_integer_reads_decimal_digits() {
    assert_eq!(parse_integer("0"), Some(0));
    assert_eq!(parse_integer("7"), Some(7));
    assert_eq!(parse_integer("120"), Some(120));
    assert_eq!(parse_integer("007"), Some(7));
    assert_eq!(parse_integer("9223372036854775807"), Some(i64::MAX));
    assert_eq!(parse_integer("9223372036854775808"), None);
    assert_eq!(parse_integer("92233720368547758070"), None);
    assert_eq!(parse_integer(""), None);
    assert_eq!(parse_integer("-5"), None);
    assert_eq!(parse_integer("+5"), None);
    assert_eq!(parse_integer("12a"), None);
    assert_eq!(parse_integer("1 2"), None);
    assert_eq!(parse_integer("٣"), None);
}

#[test]
fn parse_integer_agrees_with_the_standard_library_on_digit_runs() {
    let texts = vec![
        "0",
        "1",
        "10",
        "99",
        "12345678901234567",
        "9223372036854775806",
        "9223372036854775807",
        "9223372036854775808",
        "9223372036854775810",
        "18446744073709551616",
        "000000000000000000000000000000",
    ];
    for text in texts {
        assert_eq!(parse_integer(text), text.parse::<i64>().ok(), "{}", text);
    }
}

#[test]
fn parser_can_be_fed_by_a_scanner_that_has_moved() {
    let mut lexer = Lexer::new("9 9 * 2 + 1".to_string());
    lexer.next_token();
    let mut parser = Parser::new(lexer).unwrap();
    assert_eq!(parser.parse().unwrap().to_string(), "((9 * 2) + 1)");
}

fn nodes(tree: &Expression) -> usize {
    match tree {
        Expression::IntegerLiteral(_) => 1,
        Expression::Prefix(node) => 1 + nodes(&node.right),
        Expression::Infix(node) => 1 + nodes(&node.left) + nodes(&node.right),
    }
}

fn token_count(input: &str) -> usize {
    let mut lexer = Lexer::new(input.to_string());
    let mut count = 0;
    while lexer.next_token().token_type() != TokenType::EOF {
        count += 1;
    }
    count
}

#[test]
fn tree_has_no_more_nodes_than_the_text_has_tokens() {
    let inputs = vec![
        ("7", 1),
        ("-7", 2),
        ("1 + 2", 3),
        ("(1 + 2)", 3),
        ("((1)) * -(2 ^ 3)", 6),
        ("1 + 2 ) 3 4 5", 3),
    ];
    for (input, expected) in inputs {
        let tree = parse(input).unwrap();
        assert_eq!(nodes(&tree), expected);
        assert!(nodes(&tree) <= token_count(input));
        assert!(token_count(input) <= input.chars().count());
    }
}
