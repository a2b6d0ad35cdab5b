use scala_rust::expr::Expr;
use scala_rust::gen::generate_rust_source;
use scala_rust::parser::parse_input;

#[test]
fn empty_statement_sequence_gives_bare_wrapper() {
    assert_eq!(generate_rust_source(&[]), "fn main() {\n}\n");
}

#[test]
fn assignment_renders_as_let_declaration() {
    let parsed = parse_input("val x = 10").expect("parse failed");
    assert_eq!(parsed[0].generate_rust_code(), "let x = 10;");
    assert_eq!(
        generate_rust_source(&parsed),
        "fn main() {\n    let x = 10;\n}\n"
    );
}

#[test]
fn binary_operation_renders_parenthesized() {
    let parsed = parse_input("1 + 2").expect("parse failed");
    assert_eq!(parsed[0].generate_rust_code(), "(1 + 2)");
}

#[test]
fn nested_operations_render_nested_parentheses() {
    let parsed = parse_input("1 + 2 * 3").expect("parse failed");
    assert_eq!(parsed[0].generate_rust_code(), "((1 + 2) * 3)");
}

#[test]
fn identifier_renders_unchanged() {
    assert_eq!(
        Expr::Identifier("count".to_string()).generate_rust_code(),
        "count"
    );
}

#[test]
fn zero_renders_as_single_digit() {
    assert_eq!(Expr::Number(0).generate_rust_code(), "0");
}

#[test]
fn negative_number_renders_with_sign() {
    assert_eq!(Expr::Number(-5).generate_rust_code(), "-5");
}

#[test]
fn extreme_numbers_render_exactly() {
    assert_eq!(
        Expr::Number(i64::MAX).generate_rust_code(),
        "9223372036854775807"
    );
    assert_eq!(
        Expr::Number(i64::MIN).generate_rust_code(),
        "-9223372036854775808"
    );
}

#[test]
fn generation_is_idempotent_over_reruns() {
    let parsed = parse_input("val x = 1 + 2\ny * 3").expect("parse failed");
    let first = generate_rust_source(&parsed);
    let second = generate_rust_source(&parsed);
    assert_eq!(first.as_bytes(), second.as_bytes());
}

#[test]
fn whole_pipeline_renders_a_small_program() {
    let parsed = parse_input("val x = 1 + 2").expect("parse failed");
    assert_eq!(
        generate_rust_source(&parsed),
        "fn main() {\n    let x = (1 + 2);\n}\n"
    );
}
