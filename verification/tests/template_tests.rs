//! Tests of the renderer: templates compiled and executed against a concrete
//! context value, a template registry and a formatter registry.

use tinytemplate::render::{FormatterRegistry, TemplateRegistry, WrapFormatter};
use tinytemplate::template::Template;
use tinytemplate::value::Value;

fn compile(text: &'static str) -> Template {
    Template::compile(text).unwrap()
}

fn entry(key: &str, value: Value) -> (String, Value) {
    (key.to_string(), value)
}

fn context() -> Value {
    Value::Object(vec![
        entry("number", Value::Int(5)),
        entry("string", Value::Str("test".to_string())),
        entry("boolean", Value::Bool(true)),
        entry("null", Value::Null),
        entry(
            "array",
            Value::Array(vec![Value::Int(1), Value::Int(2), Value::Int(3)]),
        ),
        entry(
            "nested",
            Value::Object(vec![entry("value", Value::Int(10))]),
        ),
    ])
}

fn other_templates() -> TemplateRegistry {
    let mut registry = TemplateRegistry::new();
    registry.insert("my_macro", compile("{{value}}"));
    registry
}

fn formatters() -> FormatterRegistry<WrapFormatter> {
    let mut registry = FormatterRegistry::new();
    registry.insert(
        "my_formatter",
        WrapFormatter {
            prefix: "{".to_string(),
            suffix: "}".to_string(),
        },
    );
    registry
}

#[test]
fn test_literal() {
    let template = compile("Hello!");
    let context = context();
    let template_registry = other_templates();
    let formatter_registry = formatters();
    let string = template
        .render(&context, &template_registry, &formatter_registry)
        .unwrap();
    assert_eq!("Hello!", &string);
}

#[test]
fn test_value() {
    let template = compile("{{ number }}");
    let context = context();
    let template_registry = other_templates();
    let formatter_registry = formatters();
    let string = template
        .render(&context, &template_registry, &formatter_registry)
        .unwrap();
    assert_eq!("5", &string);
}

#[test]
fn test_path() {
    let template = compile("The number of the day is {{ nested.value }}.");
    let context = context();
    let template_registry = other_templates();
    let formatter_registry = formatters();
    let string = template
        .render(&context, &template_registry, &formatter_registry)
        .unwrap();
    assert_eq!("The number of the day is 10.", &string);
}

#[test]
fn test_if_taken() {
    let template = compile("{% if boolean %}Hello!{% endif %}");
    let context = context();
    let template_registry = other_templates();
    let formatter_registry = formatters();
    let string = template
        .render(&context, &template_registry, &formatter_registry)
        .unwrap();
    assert_eq!("Hello!", &string);
}

#[test]
fn test_if_not_taken() {
    let template = compile("{% if null %}Hello!{% endif %}");
    let context = context();
    let template_registry = other_templates();
    let formatter_registry = formatters();
    let string = template
        .render(&context, &template_registry, &formatter_registry)
        .unwrap();
    assert_eq!("", &string);
}

#[test]
fn test_if_else_taken() {
    let template = compile("{% if boolean %}Hello!{% else %}Goodbye!{% endif %}");
    let context = context();
    let template_registry = other_templates();
    let formatter_registry = formatters();
    let string = template
        .render(&context, &template_registry, &formatter_registry)
        .unwrap();
    assert_eq!("Hello!", &string);
}

#[test]
fn test_if_else_not_taken() {
    let template = compile("{% if null %}Hello!{% else %}Goodbye!{% endif %}");
    let context = context();
    let template_registry = other_templates();
    let formatter_registry = formatters();
    let string = template
        .render(&context, &template_registry, &formatter_registry)
        .unwrap();
    assert_eq!("Goodbye!", &string);
}

#[test]
fn test_nested_ifs() {
    let template =
        compile("{% if boolean %}Hi, {% if null %}there!{% else %}Hello!{% endif %}{% endif %}");
    let context = context();
    let template_registry = other_templates();
    let formatter_registry = formatters();
    let string = template
        .render(&context, &template_registry, &formatter_registry)
        .unwrap();
    assert_eq!("Hi, Hello!", &string);
}

#[test]
fn template_test_with() {
    let template = compile("{% with nested %}{{value}}{%endwith%}");
    let context = context();
    let template_registry = other_templates();
    let formatter_registry = formatters();
    let string = template
        .render(&context, &template_registry, &formatter_registry)
        .unwrap();
    assert_eq!("10", &string);
}

#[test]
fn template_test_named_with() {
    let template = compile("{% with nested as n %}{{ n.value }} {{ number }}{%endwith%}");
    let context = context();
    let template_registry = other_templates();
    let formatter_registry = formatters();
    let string = template
        .render(&context, &template_registry, &formatter_registry)
        .unwrap();
    assert_eq!("10 5", &string);
}

#[test]
fn test_for_loop() {
    let template = compile("{% for a in array %}{{ a }}{% endfor %}");
    let context = context();
    let template_registry = other_templates();
    let formatter_registry = formatters();
    let string = template
        .render(&context, &template_registry, &formatter_registry)
        .unwrap();
    assert_eq!("123", &string);
}

#[test]
fn test_for_loop_index() {
    let template = compile("{% for a in array %}{{ @index }}{% endfor %}");
    let context = context();
    let template_registry = other_templates();
    let formatter_registry = formatters();
    let string = template
        .render(&context, &template_registry, &formatter_registry)
        .unwrap();
    assert_eq!("012", &string);
}

#[test]
fn test_whitespace_stripping_value() {
    let template = compile("1  \n\t   {{- number -}}  \n   1");
    let context = context();
    let template_registry = other_templates();
    let formatter_registry = formatters();
    let string = template
        .render(&context, &template_registry, &formatter_registry)
        .unwrap();
    assert_eq!("151", &string);
}

#[test]
fn template_test_call() {
    let template = compile("{% call my_macro with nested %}");
    let context = context();
    let template_registry = other_templates();
    let formatter_registry = formatters();
    let string = template
        .render(&context, &template_registry, &formatter_registry)
        .unwrap();
    assert_eq!("10", &string);
}

#[test]
fn test_formatter() {
    let template = compile("{{ nested.value | my_formatter }}");
    let context = context();
    let template_registry = other_templates();
    let formatter_registry = formatters();
    let string = template
        .render(&context, &template_registry, &formatter_registry)
        .unwrap();
    assert_eq!("{10}", &string);
}

#[test]
fn test_unknown() {
    let template = compile("{{ foobar }}");
    let context = context();
    let template_registry = other_templates();
    let formatter_registry = formatters();
    template
        .render(&context, &template_registry, &formatter_registry)
        .unwrap_err();
}
