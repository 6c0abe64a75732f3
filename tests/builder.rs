use astrolang::parser::{BuildError, Expr, Parser};
use astrolang::tokeniser::{Token, Tokeniser};

fn tokens(text: &str) -> Vec<Token> {
    Tokeniser::new(String::from(text)).run().unwrap()
}

fn build(text: &str) -> Result<Expr, BuildError> {
    Parser::new(tokens(text)).parse()
}

fn body(items: Vec<Expr>) -> Expr {
    Expr::Body { expressions: items.into_iter().map(Box::new).collect() }
}

#[test]
fn number_builds_single_int_leaf() {
    assert_eq!(build("42"), Ok(body(vec![Expr::Int(42)])));
}

#[test]
fn empty_input_builds_empty_body() {
    assert_eq!(build(""), Ok(body(vec![])));
}

#[test]
fn literals_build_leaves_in_order() {
    assert_eq!(
        build("1 \"a\" true 007 false"),
        Ok(body(vec![
            Expr::Int(1),
            Expr::Str(String::from("a")),
            Expr::Bool(true),
            Expr::Int(7),
            Expr::Bool(false),
        ]))
    );
}

#[test]
fn largest_number_fits() {
    assert_eq!(
        build("170141183460469231731687303715884105727"),
        Ok(body(vec![Expr::Int(i128::MAX)]))
    );
}

#[test]
fn malformed_numbers_fail() {
    assert_eq!(build("170141183460469231731687303715884105728"), Err(BuildError::MalformedNumber));
    assert_eq!(build("1.5"), Err(BuildError::MalformedNumber));
    assert_eq!(
        Parser::new(vec![Token::Number(String::new())]).parse(),
        Err(BuildError::MalformedNumber)
    );
}

#[test]
fn grouping_is_transparent() {
    let inner = build("1 \"a\" { true }").unwrap();
    assert_eq!(build("( 1 \"a\" { true } )"), Ok(body(vec![inner])));
    assert_eq!(
        build("[1]<2>"),
        Ok(body(vec![body(vec![Expr::Int(1)]), body(vec![Expr::Int(2)])]))
    );
}

#[test]
fn missing_or_wrong_closer_fails() {
    assert_eq!(build("(1"), Err(BuildError::ExpectedClosingBracket));
    assert_eq!(build("(1]"), Err(BuildError::ExpectedClosingBracket));
    assert_eq!(build("{(1})"), Err(BuildError::ExpectedClosingBracket));
}

#[test]
fn stray_tokens_fail() {
    assert_eq!(build("1)"), Err(BuildError::UnexpectedToken));
    assert_eq!(build("x"), Err(BuildError::UnexpectedToken));
    assert_eq!(build("1 + 2"), Err(BuildError::UnexpectedToken));
    assert_eq!(build("else"), Err(BuildError::UnexpectedToken));
}

#[test]
fn keyword_constructs_are_unsupported() {
    for text in ["let x = 5;", "fn f", "if", "while", "match", "for", "return 1"] {
        assert_eq!(build(text), Err(BuildError::UnsupportedConstruct));
    }
}

#[test]
fn first_failure_wins() {
    assert_eq!(build("1 (2 let"), Err(BuildError::UnsupportedConstruct));
    assert_eq!(build("(x"), Err(BuildError::UnexpectedToken));
}
