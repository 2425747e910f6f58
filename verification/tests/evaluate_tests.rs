use ast_calculator::evaluate::Visitor;
use ast_calculator::expression::{
    Expression, InfixExpression, IntegerLiteralExpression, PrefixExpression, Visitable,
};
use ast_calculator::lexer::Lexer;
use ast_calculator::parser::{parse, Parser};
use ast_calculator::TokenType;

struct AstVisitor;

impl Visitor for AstVisitor {
    type Result = f64;

    fn visit_integer_literal(&self, expr: &IntegerLiteralExpression) -> f64 {
        expr.value as f64
    }

    fn visit_infix_expression(&self, expr: &InfixExpression) -> f64 {
        let left = expr.left.accept(self);
        let right = expr.right.accept(self);

        match expr.token.token_type() {
            TokenType::Plus => left + right,
            TokenType::Minus => left - right,
            TokenType::Multiply => left * right,
            TokenType::Divide => left / right,
            TokenType::Pow => left.powf(right),
            TokenType::Mod => left % right,
            _ => panic!("Unknown operator: {}", expr.token.literal()),
        }
    }

    fn visit_prefix_expression(&self, expr: &PrefixExpression) -> f64 {
        let right = expr.right.accept(self);

        match expr.token.token_type() {
            TokenType::Minus => -right,
            _ => panic!("Unknown operator: {}", expr.token.literal()),
        }
    }
}

struct Kinds;

impl Visitor for Kinds {
    type Result = &'static str;

    fn visit_integer_literal(&self, _expr: &IntegerLiteralExpression) -> &'static str {
        "literal"
    }

    fn visit_infix_expression(&self, _expr: &InfixExpression) -> &'static str {
        "infix"
    }

    fn visit_prefix_expression(&self, _expr: &PrefixExpression) -> &'static str {
        "prefix"
    }
}

#[test]
fn eval_test() {
    let test_cases = vec![
        ("5+ 5", 10.0),
        ("1 + 2 - 3", 0.0),
        ("10 - 12 * 12", -134.0),
        ("16 / 4 ^ 2", 1.0),
        ("(5 - 2) * 3", 9.0),
        (" 5 +((12 + 8) / 4))", 10.0),
        ("-4 * 5 + 2", -18.0),
        ("5 + -3", 2.0),
        ("5/4", 1.25),
    ];

    for (input, expected) in test_cases {
        let lexer = Lexer::new(input.to_string());
        let mut parser = Parser::new(lexer).unwrap();
        let expr = parser.parse().unwrap();
        let result = expr.accept(&AstVisitor);
        assert_eq!(result, expected);
    }
}

#[test]
fn accept_calls_the_method_of_the_node_kind() {
    assert_eq!(parse("1").unwrap().accept(&Kinds), "literal");
    assert_eq!(parse("-1").unwrap().accept(&Kinds), "prefix");
    assert_eq!(parse("1 + 1").unwrap().accept(&Kinds), "infix");
    match parse("1 * 2").unwrap() {
        Expression::Infix(node) => {
            assert_eq!(node.accept(&Kinds), "infix");
            assert_eq!(node.left.accept(&Kinds), "literal");
        }
        other => panic!("{:?}", other),
    }
    match parse("-(2)").unwrap() {
        Expression::Prefix(node) => {
            assert_eq!(node.accept(&Kinds), "prefix");
            assert_eq!(node.right.accept(&Kinds), "literal");
        }
        other => panic!("{:?}", other),
    }
    match parse("3").unwrap() {
        Expression::IntegerLiteral(node) => assert_eq!(node.accept(&Kinds), "literal"),
        other => panic!("{:?}", other),
    }
}

#[test]
fn evaluating_a_tree_twice_gives_the_same_number() {
    let tree = parse("2 ^ 3 ^ 2 - 7 % 4 / 8").unwrap();
    let first = tree.accept(&AstVisitor);
    for _ in 0..10 {
        assert_eq!(tree.accept(&AstVisitor), first);
    }
    assert_eq!(first, 63.625);
}

#[test]
fn power_is_evaluated_from_the_left() {
    assert_eq!(parse("2 ^ 3 ^ 2").unwrap().accept(&AstVisitor), 64.0);
    assert_eq!(parse("-2 ^ 2").unwrap().accept(&AstVisitor), -4.0);
}

#[test]
fn division_by_zero_is_no_error() {
    assert_eq!(parse("1 / 0").unwrap().accept(&AstVisitor), f64::INFINITY);
    assert!(parse("0 / 0").unwrap().accept(&AstVisitor).is_nan());
    assert!(parse("5 % 0").unwrap().accept(&AstVisitor).is_nan());
    assert_eq!(parse("-7 % 4").unwrap().accept(&AstVisitor), -3.0);
}
