use astrolang::tokeniser::{ScanError, Token, Tokeniser};

fn scan(text: &str) -> Result<Vec<Token>, ScanError> {
    Tokeniser::new(String::from(text)).run()
}

fn ident(s: &str) -> Token {
    Token::Identifier(String::from(s))
}

#[test]
fn whitespace_only_scans_to_nothing() {
    assert_eq!(scan(""), Ok(vec![]));
    assert_eq!(scan("   \t\n\r  "), Ok(vec![]));
    assert_eq!(scan("\u{3000}\u{a0}\u{2028}"), Ok(vec![]));
}

#[test]
fn let_statement_tokens_in_order() {
    assert_eq!(
        scan("let x = 5;"),
        Ok(vec![
            Token::Let,
            ident("x"),
            Token::Equals,
            Token::Number(String::from("5")),
            Token::Semicolon,
        ])
    );
}

#[test]
fn number_is_one_token() {
    assert_eq!(scan("42"), Ok(vec![Token::Number(String::from("42"))]));
}

#[test]
fn number_takes_digits_and_dots_greedily() {
    assert_eq!(
        scan("1.2.3+4"),
        Ok(vec![
            Token::Number(String::from("1.2.3")),
            Token::Plus,
            Token::Number(String::from("4")),
        ])
    );
}

#[test]
fn hyphen_arrow_is_one_token() {
    assert_eq!(scan("x->y"), Ok(vec![ident("x"), Token::HyphenArrow, ident("y")]));
    assert_eq!(scan("x>y"), Ok(vec![ident("x"), Token::RightAngleBracket, ident("y")]));
    assert_eq!(scan("x-y"), Ok(vec![ident("x"), Token::Hyphen, ident("y")]));
    assert_eq!(scan("a=>b=c"), Ok(vec![ident("a"), Token::EqualArrow, ident("b"), Token::Equals, ident("c")]));
}

#[test]
fn doubled_ampersand_and_bar() {
    assert_eq!(scan("&&"), Ok(vec![Token::LogAnd]));
    assert_eq!(scan("||"), Ok(vec![Token::LogOr]));
    assert_eq!(scan("&&&&"), Ok(vec![Token::LogAnd, Token::LogAnd]));
}

#[test]
fn single_ampersand_or_bar_fails() {
    assert_eq!(scan("& x"), Err(ScanError::UnknownCharacter('&')));
    assert_eq!(scan("a |b"), Err(ScanError::UnknownCharacter('|')));
    assert_eq!(scan("&|"), Err(ScanError::UnknownCharacter('&')));
}

#[test]
fn unterminated_string_fails() {
    assert_eq!(scan("\"unterminated"), Err(ScanError::UnterminatedLiteral));
    assert_eq!(scan("'abc\""), Err(ScanError::UnterminatedLiteral));
}

#[test]
fn strings_end_at_the_same_quote() {
    assert_eq!(
        scan("\"it's\" 'say \"hi\"' \"\""),
        Ok(vec![
            Token::String(String::from("it's")),
            Token::String(String::from("say \"hi\"")),
            Token::String(String::new()),
        ])
    );
}

#[test]
fn unknown_character_fails() {
    assert_eq!(scan("a # b"), Err(ScanError::UnknownCharacter('#')));
    assert_eq!(scan("_x"), Err(ScanError::UnknownCharacter('_')));
}

#[test]
fn keywords_types_and_booleans() {
    assert_eq!(
        scan("let while for fn if else match return"),
        Ok(vec![
            Token::Let,
            Token::While,
            Token::For,
            Token::Fn,
            Token::If,
            Token::Else,
            Token::Match,
            Token::Return,
        ])
    );
    assert_eq!(
        scan("i8 i16 i32 i64 u8 u16 u32 u64 usize isize string bool f32 f64"),
        Ok(vec![
            Token::I8,
            Token::I16,
            Token::I32,
            Token::I64,
            Token::U8,
            Token::U16,
            Token::U32,
            Token::U64,
            Token::Usize,
            Token::Isize,
            Token::Str,
            Token::Bool,
            Token::F32,
            Token::F64,
        ])
    );
    assert_eq!(scan("true false"), Ok(vec![Token::Boolean(true), Token::Boolean(false)]));
}

#[test]
fn keywords_are_case_sensitive_and_whole_words() {
    assert_eq!(
        scan("Let lets let_x true1"),
        Ok(vec![ident("Let"), ident("lets"), ident("let_x"), ident("true1")])
    );
}

#[test]
fn unicode_letters_and_whitespace() {
    assert_eq!(scan("héllo\u{3000}京x"), Ok(vec![ident("héllo"), ident("京x")]));
    assert_eq!(scan("x\u{85}y"), Ok(vec![ident("x"), ident("y")]));
}

#[test]
fn punctuation_tokens() {
    assert_eq!(
        scan("+*/;:.,!(){}<>[]\\"),
        Ok(vec![
            Token::Plus,
            Token::Asterisk,
            Token::ForSlash,
            Token::Semicolon,
            Token::Colon,
            Token::Period,
            Token::Comma,
            Token::LogNot,
            Token::LeftParen,
            Token::RightParen,
            Token::LeftCurlyBracket,
            Token::RightCurlyBracket,
            Token::LeftAngleBracket,
            Token::RightAngleBracket,
            Token::LeftSqreBracket,
            Token::RightSqreBracket,
            Token::BackSlash,
        ])
    );
}

#[test]
fn rescanning_token_text_gives_same_tokens() {
    let first = scan("let x = 5; fn f(a, b) -> 'q' && true").unwrap();
    let text = "let x = 5 ; fn f ( a , b ) -> \"q\" && true ";
    assert_eq!(scan(text), Ok(first));
}
