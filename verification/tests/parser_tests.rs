use logformat::ast::Attribute;
use logformat::ast::AttributeList;
use logformat::ast::LogEntity;
use logformat::parser::Parser;

fn object(name: &str, attributes: Vec<Attribute>) -> LogEntity {
    LogEntity::Object(String::from(name), AttributeList { attributes })
}

fn attribute(key: &str, value: LogEntity) -> Attribute {
    Attribute { key: String::from(key), value }
}

#[test]
fn empty_object_parses_to_zero_attributes() {
    let mut parser = Parser::create("X()");
    let message = parser.parse_log_message().unwrap();
    assert_eq!(message.log_entity.len(), 1);
    assert_eq!(message.log_entity[0], object("X", vec![]));
    assert_eq!(message.message, "{{ Log Entity 1 }}");
}

#[test]
fn omitted_value_before_comma_is_null() {
    let mut parser = Parser::create("A(k = , j = 2)");
    let message = parser.parse_log_message().unwrap();
    assert_eq!(message.log_entity.len(), 1);
    assert_eq!(
        message.log_entity[0],
        object(
            "A",
            vec![
                attribute("k", LogEntity::Null),
                attribute("j", LogEntity::Number(String::from("2"))),
            ]
        )
    );
}

#[test]
fn omitted_value_before_bracket_is_null() {
    let mut parser = Parser::create("A(k = )");
    let message = parser.parse_log_message().unwrap();
    assert_eq!(message.log_entity.len(), 1);
    assert_eq!(message.log_entity[0], object("A", vec![attribute("k", LogEntity::Null)]));
}

#[test]
fn nested_objects_parse_to_two_level_tree() {
    let mut parser = Parser::create("A(b = B(c = 1))");
    let message = parser.parse_log_message().unwrap();
    assert_eq!(message.log_entity.len(), 1);
    assert_eq!(
        message.log_entity[0],
        object(
            "A",
            vec![attribute(
                "b",
                object("B", vec![attribute("c", LogEntity::Number(String::from("1")))])
            )]
        )
    );
}

#[test]
fn two_spans_in_one_message() {
    let mut parser = Parser::create("hello X(a=1) world Y(b=2) bye");
    let message = parser.parse_log_message().unwrap();
    assert_eq!(message.log_entity.len(), 2);
    assert_eq!(
        message.message,
        "hello {{ Log Entity 1 }} world {{ Log Entity 2 }} bye"
    );
    assert_eq!(
        message.log_entity[0],
        object("X", vec![attribute("a", LogEntity::Number(String::from("1")))])
    );
    assert_eq!(
        message.log_entity[1],
        object("Y", vec![attribute("b", LogEntity::Number(String::from("2")))])
    );
}

#[test]
fn malformed_span_falls_back_to_literal_text() {
    let mut parser = Parser::create("hello X(a = = 1) world Y(b=2) bye");
    let message = parser.parse_log_message().unwrap();
    assert_eq!(message.log_entity.len(), 1);
    assert_eq!(
        message.message,
        "hello X(a = = 1) world {{ Log Entity 1 }} bye"
    );
    assert_eq!(
        message.log_entity[0],
        object("Y", vec![attribute("b", LogEntity::Number(String::from("2")))])
    );
}

#[test]
fn span_with_bad_number_falls_back() {
    let mut parser = Parser::create("value X(n=12abc) end");
    let message = parser.parse_log_message().unwrap();
    assert_eq!(message.log_entity.len(), 0);
    assert_eq!(message.message, "value X(n=12abc) end");
}

#[test]
fn number_run_is_normalised() {
    let mut parser = Parser::create("X(n=0123.034)");
    let message = parser.parse_log_message().unwrap();
    assert_eq!(
        message.log_entity[0],
        object("X", vec![attribute("n", LogEntity::Number(String::from("123.034")))])
    );
}

#[test]
fn duplicate_keys_are_preserved_in_order() {
    let mut parser = Parser::create("X(a=1, a=2)");
    let message = parser.parse_log_message().unwrap();
    assert_eq!(
        message.log_entity[0],
        object(
            "X",
            vec![
                attribute("a", LogEntity::Number(String::from("1"))),
                attribute("a", LogEntity::Number(String::from("2"))),
            ]
        )
    );
}

#[test]
fn multi_word_text_value_is_trimmed() {
    let mut parser = Parser::create("X(msg = hello there world , n=1)");
    let message = parser.parse_log_message().unwrap();
    assert_eq!(
        message.log_entity[0],
        object(
            "X",
            vec![
                attribute("msg", LogEntity::Text(String::from("hello there world"))),
                attribute("n", LogEntity::Number(String::from("1"))),
            ]
        )
    );
}

#[test]
fn paren_free_message_is_kept_verbatim() {
    let mut parser = Parser::create("just some plain prose");
    let message = parser.parse_log_message().unwrap();
    assert_eq!(message.log_entity.len(), 0);
    assert_eq!(message.message, "just some plain prose");
}

#[test]
fn unclosed_span_is_kept_verbatim() {
    let mut parser = Parser::create("foo X(a=1");
    let message = parser.parse_log_message().unwrap();
    assert_eq!(message.log_entity.len(), 0);
    assert_eq!(message.message, "foo X(a=1");
}

#[test]
fn parse_log_entity_without_tokens_errors() {
    let mut parser = Parser::create("X()");
    let result = parser.parse_log_entity();
    assert!(result.is_err());
    assert_eq!(
        result.unwrap_err().message(),
        "No token remaining to parse LogEntity"
    );
}

#[test]
fn whitespace_before_a_span_is_kept_verbatim() {
    let mut parser = Parser::create("a\tb X(c=1)");
    let message = parser.parse_log_message().unwrap();
    assert_eq!(message.message, "a\tb {{ Log Entity 1 }}");
    assert_eq!(message.log_entity.len(), 1);
}

#[test]
fn ten_spans_number_placeholders_in_decimal() {
    let mut input = String::new();
    for _ in 0..10 {
        input.push_str("X(a=1) ");
    }
    let mut parser = Parser::create(&input);
    let message = parser.parse_log_message().unwrap();
    assert_eq!(message.log_entity.len(), 10);
    assert!(message.message.contains("{{ Log Entity 10 }}"));
}

#[test]
fn unicode_text_is_kept_whole() {
    let mut parser = Parser::create("Ärger(grüße = schöne Wörter)");
    let message = parser.parse_log_message().unwrap();
    assert_eq!(message.log_entity.len(), 1);
    assert_eq!(
        message.log_entity[0],
        object(
            "Ärger",
            vec![attribute("grüße", LogEntity::Text(String::from("schöne Wörter")))]
        )
    );
}
