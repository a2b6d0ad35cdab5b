use scala_rust::lexer::{Lexer, Token, TranslateError};

fn tokens_of(source: &str) -> Vec<Token> {
    let mut lexer = Lexer::new(source);
    lexer.tokenize().expect("tokenize failed")
}

#[test]
fn number_literal_round_trips() {
    assert_eq!(tokens_of("12345"), vec![Token::Number(12345)]);
}

#[test]
fn leading_zeros_do_not_alter_value() {
    assert_eq!(tokens_of("007"), vec![Token::Number(7)]);
}

#[test]
fn largest_number_fits() {
    assert_eq!(
        tokens_of("9223372036854775807"),
        vec![Token::Number(9223372036854775807)]
    );
}

#[test]
fn number_overflow_is_fatal() {
    let mut lexer = Lexer::new("9223372036854775808");
    assert_eq!(lexer.tokenize(), Err(TranslateError::NumberOverflow));
}

#[test]
fn whitespace_only_input_has_no_tokens() {
    assert_eq!(tokens_of("  \t\r\n  "), vec![]);
}

#[test]
fn empty_input_has_no_tokens() {
    assert_eq!(tokens_of(""), vec![]);
}

#[test]
fn reserved_words_are_keywords() {
    assert_eq!(
        tokens_of("if else while val"),
        vec![
            Token::Keyword("if".to_string()),
            Token::Keyword("else".to_string()),
            Token::Keyword("while".to_string()),
            Token::Keyword("val".to_string()),
        ]
    );
}

#[test]
fn non_reserved_words_are_identifiers() {
    assert_eq!(
        tokens_of("foo iffy val2 a_1b"),
        vec![
            Token::Identifier("foo".to_string()),
            Token::Identifier("iffy".to_string()),
            Token::Identifier("val2".to_string()),
            Token::Identifier("a_1b".to_string()),
        ]
    );
}

#[test]
fn string_literal_keeps_text_between_quotes() {
    assert_eq!(
        tokens_of("\"hi there\""),
        vec![Token::StringLiteral("hi there".to_string())]
    );
}

#[test]
fn unterminated_string_stops_at_input_end() {
    assert_eq!(
        tokens_of("\"abc"),
        vec![Token::StringLiteral("abc".to_string())]
    );
}

#[test]
fn every_punctuation_symbol_is_lexed() {
    assert_eq!(
        tokens_of("+-*/=;(){}"),
        vec![
            Token::Punctuation('+'),
            Token::Punctuation('-'),
            Token::Punctuation('*'),
            Token::Punctuation('/'),
            Token::Punctuation('='),
            Token::Punctuation(';'),
            Token::Punctuation('('),
            Token::Punctuation(')'),
            Token::Punctuation('{'),
            Token::Punctuation('}'),
        ]
    );
}

#[test]
fn unrecognized_character_truncates_silently() {
    assert_eq!(tokens_of("x # y"), vec![Token::Identifier("x".to_string())]);
}

#[test]
fn empty_string_literal_is_kept() {
    assert_eq!(
        tokens_of("\"\""),
        vec![Token::StringLiteral(String::new())]
    );
}

#[test]
fn closing_quote_is_consumed_before_the_next_token() {
    assert_eq!(
        tokens_of("\"a\"b"),
        vec![
            Token::StringLiteral("a".to_string()),
            Token::Identifier("b".to_string()),
        ]
    );
}

#[test]
fn next_token_steps_through_and_eof_repeats() {
    let mut lexer = Lexer::new("val x");
    assert_eq!(lexer.next_token(), Ok(Token::Keyword("val".to_string())));
    assert_eq!(lexer.next_token(), Ok(Token::Identifier("x".to_string())));
    assert_eq!(lexer.next_token(), Ok(Token::EndOfFile));
    assert_eq!(lexer.next_token(), Ok(Token::EndOfFile));
}
