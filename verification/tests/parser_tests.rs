use scala_rust::expr::Expr;
use scala_rust::lexer::{Lexer, TranslateError};
use scala_rust::parser::{parse_input, Parser};

#[test]
fn assignment_yields_one_binding_statement() {
    let parsed = parse_input("val x = 10").expect("parse failed");
    assert_eq!(
        parsed,
        vec![Expr::Assignment(
            "x".to_string(),
            Box::new(Expr::Number(10))
        )]
    );
}

#[test]
fn binary_expression_yields_one_operation() {
    let parsed = parse_input("1 + 2").expect("parse failed");
    assert_eq!(
        parsed,
        vec![Expr::BinaryOp(
            Box::new(Expr::Number(1)),
            "+".to_string(),
            Box::new(Expr::Number(2))
        )]
    );
}

#[test]
fn operators_associate_left_without_precedence() {
    let parsed = parse_input("1 + 2 * 3").expect("parse failed");
    assert_eq!(
        parsed,
        vec![Expr::BinaryOp(
            Box::new(Expr::BinaryOp(
                Box::new(Expr::Number(1)),
                "+".to_string(),
                Box::new(Expr::Number(2))
            )),
            "*".to_string(),
            Box::new(Expr::Number(3))
        )]
    );
}

#[test]
fn missing_identifier_aborts_translation() {
    assert_eq!(
        parse_input("val = 5"),
        Err(TranslateError::ExpectedIdentifier)
    );
}

#[test]
fn missing_equals_aborts_translation() {
    assert_eq!(
        parse_input("val x 5"),
        Err(TranslateError::ExpectedAssignment)
    );
}

#[test]
fn operator_without_term_aborts_translation() {
    assert_eq!(parse_input("+"), Err(TranslateError::UnexpectedToken));
}

#[test]
fn keyword_at_term_position_aborts_translation() {
    assert_eq!(parse_input("if"), Err(TranslateError::UnexpectedToken));
}

#[test]
fn number_overflow_aborts_translation() {
    assert_eq!(
        parse_input("99999999999999999999"),
        Err(TranslateError::NumberOverflow)
    );
}

#[test]
fn whitespace_only_input_has_no_statements() {
    assert_eq!(parse_input("   \n\t  "), Ok(vec![]));
}

#[test]
fn statement_loop_swallows_one_token_after_an_expression() {
    let parsed = parse_input("1 2").expect("parse failed");
    assert_eq!(parsed, vec![Expr::Number(1)]);
}

#[test]
fn equals_mid_expression_is_an_ordinary_operator() {
    let parsed = parse_input("x = 1").expect("parse failed");
    assert_eq!(
        parsed,
        vec![Expr::BinaryOp(
            Box::new(Expr::Identifier("x".to_string())),
            "=".to_string(),
            Box::new(Expr::Number(1))
        )]
    );
}

#[test]
fn semicolon_mid_expression_is_an_ordinary_operator() {
    let parsed = parse_input("x ; y").expect("parse failed");
    assert_eq!(
        parsed,
        vec![Expr::BinaryOp(
            Box::new(Expr::Identifier("x".to_string())),
            ";".to_string(),
            Box::new(Expr::Identifier("y".to_string()))
        )]
    );
}

#[test]
fn two_assignments_keep_source_order() {
    let parsed = parse_input("val a = 1\nval b = 2").expect("parse failed");
    assert_eq!(
        parsed,
        vec![
            Expr::Assignment("a".to_string(), Box::new(Expr::Number(1))),
            Expr::Assignment("b".to_string(), Box::new(Expr::Number(2))),
        ]
    );
}

#[test]
fn assignment_binds_a_whole_expression() {
    let parsed = parse_input("val y = a + 2").expect("parse failed");
    assert_eq!(
        parsed,
        vec![Expr::Assignment(
            "y".to_string(),
            Box::new(Expr::BinaryOp(
                Box::new(Expr::Identifier("a".to_string())),
                "+".to_string(),
                Box::new(Expr::Number(2))
            ))
        )]
    );
}

#[test]
fn parser_new_reports_an_overflowing_first_token() {
    let lexer = Lexer::new("99999999999999999999");
    assert!(matches!(
        Parser::new(lexer),
        Err(TranslateError::NumberOverflow)
    ));
}

#[test]
fn parser_new_accepts_ordinary_input() {
    let lexer = Lexer::new("val x = 10");
    assert!(Parser::new(lexer).is_ok());
}
