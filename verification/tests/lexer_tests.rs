use logformat::lexer::Lexer;
use logformat::lexer::Token;

#[test]
fn lex_number() {
    let input = "0123.034";
    let mut sut = Lexer::create(input);
    sut.next();
    let result = sut.get_next_token();
    assert_eq!(result, Some(Token::Number(123.034f32.to_string())));
}

#[test]
fn lex_text() {
    let input = "This is a super nice str1ng 1234";
    let mut sut = Lexer::create(input);
    sut.next();
    let result = sut.get_next_token();
    assert_eq!(result, Some(Token::Text(String::from(input))));
}

#[test]
fn lex_object() {
    let input = "MyClass(name=Hans, next_attribute=123)";
    let expected = vec![
        Token::Text(String::from("MyClass")),
        Token::OpenBracket,
        Token::Text(String::from("name")),
        Token::Equals,
        Token::Text(String::from("Hans")),
        Token::Comma,
        Token::Text(String::from("next_attribute")),
        Token::Equals,
        Token::Number(123.0f32.to_string()),
        Token::CloseBracket,
    ];
    let mut sut = Lexer::create(input);
    sut.next();
    let mut result = vec![];
    while let Some(token) = sut.get_next_token() {
        result.push(token);
        sut.next();
    }
    assert_eq!(result, expected);
}

#[test]
fn lex_text_stops_at_structural_character() {
    let input = "This is text 123   (rest)";
    let mut sut = Lexer::create(input);
    sut.next();
    let result = sut.get_next_token();
    assert_eq!(result, Some(Token::Text(String::from("This is text 123"))));
}

#[test]
fn lex_number_trailing_dot() {
    let mut sut = Lexer::create("123.");
    sut.next();
    assert_eq!(sut.get_next_token(), Some(Token::Number(String::from("123"))));
}

#[test]
fn lex_number_with_letters_fails() {
    let mut sut = Lexer::create("12abc");
    sut.next();
    assert_eq!(sut.get_next_token(), None);
}

#[test]
fn lex_number_two_dots_fails() {
    let mut sut = Lexer::create("1.2.3");
    sut.next();
    assert_eq!(sut.get_next_token(), None);
}

#[test]
fn lex_unrecognized_character_fails() {
    let mut sut = Lexer::create("@foo");
    sut.next();
    assert_eq!(sut.get_next_token(), None);
}

#[test]
fn lex_skips_leading_whitespace() {
    let mut sut = Lexer::create("   \t\n  name");
    sut.next();
    assert_eq!(sut.get_next_token(), Some(Token::Text(String::from("name"))));
}

#[test]
fn lex_structural_tokens() {
    let mut sut = Lexer::create("( ) , =");
    let mut result = vec![];
    sut.next();
    while let Some(token) = sut.get_next_token() {
        result.push(token);
        sut.next();
    }
    assert_eq!(
        result,
        vec![Token::OpenBracket, Token::CloseBracket, Token::Comma, Token::Equals]
    );
}
