use logformat::ast::Attribute;
use logformat::ast::AttributeList;
use logformat::ast::LogEntity;
use logformat::parser::Parser;
use logformat::visitor::JsonPrinterVisitor;

fn object(name: &str, attributes: Vec<Attribute>) -> LogEntity {
    LogEntity::Object(String::from(name), AttributeList { attributes })
}

fn attribute(key: &str, value: LogEntity) -> Attribute {
    Attribute { key: String::from(key), value }
}

fn render_json(entity: &LogEntity) -> String {
    let mut visitor = JsonPrinterVisitor::create(2);
    entity.accept(&mut visitor);
    visitor.output()
}

#[test]
fn empty_object_renders_without_interior_content() {
    let entity = object("X", vec![]);
    assert_eq!(render_json(&entity), "{\n\n}");
    assert_eq!(entity.render_pretty(2), "X(\n\n)");
}

#[test]
fn nested_object_indents_one_more_level() {
    let mut parser = Parser::create("A(b = B(c = 1))");
    let message = parser.parse_log_message().unwrap();
    assert_eq!(
        render_json(&message.log_entity[0]),
        "{\n  \"b\": {\n    \"c\": 1\n  }\n}"
    );
}

#[test]
fn json_quotes_text_and_writes_null() {
    let entity = object(
        "X",
        vec![
            attribute("a", LogEntity::Text(String::from("hi there"))),
            attribute("b", LogEntity::Null),
        ],
    );
    assert_eq!(render_json(&entity), "{\n  \"a\": \"hi there\", \n  \"b\": null\n}");
}

#[test]
fn pretty_quotes_text_and_writes_nothing_for_null() {
    let entity = object(
        "X",
        vec![
            attribute("a", LogEntity::Text(String::from("hi there"))),
            attribute("b", LogEntity::Null),
        ],
    );
    assert_eq!(entity.render_pretty(2), "X(\n  a = \"hi there\",\n  b = \n)");
}

#[test]
fn write_json_numbers_entities_when_several() {
    let mut parser = Parser::create("hello X(a=1) world Y(b=2) bye");
    let message = parser.parse_log_message().unwrap();
    assert_eq!(
        message.write_json(),
        "Log Entity 1 = {\n  \"a\": 1\n}\nLog Entity 2 = {\n  \"b\": 2\n}\n"
    );
}

#[test]
fn write_json_bare_prefix_for_single_entity() {
    let mut parser = Parser::create("X(a=1)");
    let message = parser.parse_log_message().unwrap();
    assert_eq!(message.write_json(), "Log Entity{\n  \"a\": 1\n}\n");
}

#[test]
fn surface_rendering_re_parses_to_the_same_tree() {
    let entity = object(
        "A",
        vec![
            attribute(
                "b",
                object("B", vec![attribute("c", LogEntity::Number(String::from("1")))]),
            ),
            attribute("t", LogEntity::Text(String::from("hello world"))),
            attribute("n", LogEntity::Null),
        ],
    );
    let surface = entity.render_surface();
    assert_eq!(surface, "A(b = B(c = 1), t = hello world, n = )");
    let mut parser = Parser::create(&surface);
    let message = parser.parse_log_message().unwrap();
    assert_eq!(message.log_entity.len(), 1);
    assert_eq!(message.log_entity[0], entity);
    assert_eq!(render_json(&message.log_entity[0]), render_json(&entity));
}

#[test]
fn surface_rendering_of_leaves() {
    assert_eq!(LogEntity::Text(String::from("plain words")).render_surface(), "plain words");
    assert_eq!(LogEntity::Number(String::from("12.5")).render_surface(), "12.5");
    assert_eq!(LogEntity::Null.render_surface(), "");
}

#[test]
fn visitor_callbacks_compose_with_custom_indent() {
    let entity = object("X", vec![attribute("a", LogEntity::Number(String::from("7")))]);
    let mut visitor = JsonPrinterVisitor::create(4);
    entity.accept(&mut visitor);
    assert_eq!(visitor.output(), "{\n    \"a\": 7\n}");
}

#[test]
fn pretty_indents_nested_objects() {
    let mut parser = Parser::create("A(b = B(c = 1))");
    let message = parser.parse_log_message().unwrap();
    assert_eq!(
        message.log_entity[0].render_pretty(2),
        "A(\n  b = B(\n    c = 1\n  )\n)"
    );
}
