//! Behavioral tests of the whole pipeline: truthiness across the primitive
//! value kinds, iteration edge cases, value emission, and each render-error
//! variant.

use tinytemplate::error::RenderError;
use tinytemplate::render::{FormatterRegistry, PlainFormatter, TemplateRegistry};
use tinytemplate::template::Template;
use tinytemplate::value::Value;

fn compile(text: &'static str) -> Template {
    Template::compile(text).unwrap()
}

fn entry(key: &str, value: Value) -> (String, Value) {
    (key.to_string(), value)
}

fn no_templates() -> TemplateRegistry {
    TemplateRegistry::new()
}

fn no_formatters() -> FormatterRegistry<PlainFormatter> {
    FormatterRegistry::new()
}

fn render_with(template: &Template, context: &Value) -> Result<String, RenderError> {
    template.render(context, &no_templates(), &no_formatters())
}

#[test]
fn test_plain_text_is_unchanged() {
    let text = "no tags here, just text.\nAnd a second line.";
    let template = compile(text);
    let context = Value::Object(vec![]);
    assert_eq!(text, &render_with(&template, &context).unwrap());
}

#[test]
fn test_hello_world_round_trip() {
    let template = compile("Hello {{ name }}!");
    let context = Value::Object(vec![entry("name", Value::Str("World".to_string()))]);
    assert_eq!("Hello World!", &render_with(&template, &context).unwrap());
}

#[test]
fn test_truthiness_cases() {
    let template = compile("{% if cond %}A{% else %}B{% endif %}");
    let cases: Vec<(Value, &str)> = vec![
        (Value::Null, "B"),
        (Value::Bool(true), "A"),
        (Value::Bool(false), "B"),
        (Value::Int(0), "B"),
        (Value::Int(7), "A"),
        (Value::Int(-1), "A"),
        (Value::Str("".to_string()), "B"),
        (Value::Str("x".to_string()), "A"),
        (Value::Array(vec![]), "B"),
        (Value::Array(vec![Value::Int(1)]), "A"),
    ];
    for (cond, expected) in cases {
        let context = Value::Object(vec![entry("cond", cond)]);
        assert_eq!(expected, &render_with(&template, &context).unwrap());
    }
}

#[test]
fn test_for_loop_over_empty_array() {
    let template = compile("{% for x in arr %}{{x}}{% endfor %}");
    let context = Value::Object(vec![entry("arr", Value::Array(vec![]))]);
    assert_eq!("", &render_with(&template, &context).unwrap());
}

#[test]
fn test_value_emission_forms() {
    let template = compile("{{ t }}|{{ f }}|{{ n }}|{{ neg }}|{{ z }}|{{ s }}|{{ nil }}");
    let context = Value::Object(vec![
        entry("t", Value::Bool(true)),
        entry("f", Value::Bool(false)),
        entry("n", Value::Int(42)),
        entry("neg", Value::Int(-9007)),
        entry("z", Value::Int(0)),
        entry("s", Value::Str("raw <text>".to_string())),
        entry("nil", Value::Null),
    ]);
    assert_eq!(
        "true|false|42|-9007|0|raw <text>|",
        &render_with(&template, &context).unwrap()
    );
}

#[test]
fn test_extreme_numbers() {
    let template = compile("{{ min }} {{ max }}");
    let context = Value::Object(vec![
        entry("min", Value::Int(i64::MIN)),
        entry("max", Value::Int(i64::MAX)),
    ]);
    assert_eq!(
        "-9223372036854775808 9223372036854775807",
        &render_with(&template, &context).unwrap()
    );
}

#[test]
fn test_named_scope_does_not_shadow_outer_fields() {
    let template = compile("{% with inner as n %}{{ n.value }}/{{ value }}{% endwith %}");
    let context = Value::Object(vec![
        entry("value", Value::Int(1)),
        entry(
            "inner",
            Value::Object(vec![entry("value", Value::Int(2))]),
        ),
    ]);
    assert_eq!("2/1", &render_with(&template, &context).unwrap());
}

#[test]
fn test_nested_for_loops_and_index() {
    let template =
        compile("{% for row in rows %}{% for x in row %}{{ x }}{{ @index }}{% endfor %};{% endfor %}");
    let context = Value::Object(vec![entry(
        "rows",
        Value::Array(vec![
            Value::Array(vec![Value::Str("a".to_string()), Value::Str("b".to_string())]),
            Value::Array(vec![Value::Str("c".to_string())]),
        ]),
    )]);
    assert_eq!("a0b1;c0;", &render_with(&template, &context).unwrap());
}

#[test]
fn test_unknown_path_is_lookup_error() {
    let template = compile("{{ missing }}");
    let context = Value::Object(vec![entry("present", Value::Int(1))]);
    let err = render_with(&template, &context).unwrap_err();
    match err {
        RenderError::Lookup { step, path, available } => {
            assert_eq!("missing", &step);
            assert_eq!(vec!["missing".to_string()], path);
            assert_eq!(Some(vec!["present".to_string()]), available);
        }
        other => panic!("expected a lookup error, got {:?}", other),
    }
}

#[test]
fn test_unknown_deep_path_reports_failing_step() {
    let template = compile("{{ nested.wrong }}");
    let context = Value::Object(vec![entry(
        "nested",
        Value::Object(vec![entry("value", Value::Int(10))]),
    )]);
    let err = render_with(&template, &context).unwrap_err();
    match err {
        RenderError::Lookup { step, available, .. } => {
            assert_eq!("wrong", &step);
            assert_eq!(Some(vec!["value".to_string()]), available);
        }
        other => panic!("expected a lookup error, got {:?}", other),
    }
}

#[test]
fn test_unknown_formatter_is_error() {
    let template = compile("{{ x | nope }}");
    let context = Value::Object(vec![entry("x", Value::Int(1))]);
    let err = render_with(&template, &context).unwrap_err();
    assert!(matches!(err, RenderError::UnknownFormatter { name } if name == "nope"));
}

#[test]
fn test_unknown_template_is_error() {
    let template = compile("{% call nope with x %}");
    let context = Value::Object(vec![entry("x", Value::Int(1))]);
    let err = render_with(&template, &context).unwrap_err();
    assert!(matches!(err, RenderError::UnknownTemplate { name } if name == "nope"));
}

#[test]
fn test_iterating_non_array_is_error() {
    let template = compile("{% for x in number %}{{x}}{% endfor %}");
    let context = Value::Object(vec![entry("number", Value::Int(5))]);
    let err = render_with(&template, &context).unwrap_err();
    assert!(matches!(err, RenderError::NotIterable { .. }));
}

#[test]
fn test_object_has_no_truthiness() {
    let template = compile("{% if obj %}yes{% endif %}");
    let context = Value::Object(vec![entry("obj", Value::Object(vec![]))]);
    let err = render_with(&template, &context).unwrap_err();
    assert!(matches!(err, RenderError::NotTruthy { .. }));
}

#[test]
fn test_printing_array_or_object_is_error() {
    let context = Value::Object(vec![
        entry("arr", Value::Array(vec![])),
        entry("obj", Value::Object(vec![])),
    ]);
    let err = render_with(&compile("{{ arr }}"), &context).unwrap_err();
    assert!(matches!(err, RenderError::Unprintable));
    let err = render_with(&compile("{{ obj }}"), &context).unwrap_err();
    assert!(matches!(err, RenderError::Unprintable));
}

#[test]
fn test_index_outside_loop_is_error() {
    let template = compile("{{ @index }}");
    let context = Value::Object(vec![]);
    let err = render_with(&template, &context).unwrap_err();
    assert!(matches!(err, RenderError::IndexOutsideLoop));
}

#[test]
fn test_call_renders_sub_template_inline() {
    let template = compile("[{% call item with inner %}]");
    let mut registry = TemplateRegistry::new();
    registry.insert("item", compile("{{ a }}-{{ b }}"));
    let context = Value::Object(vec![entry(
        "inner",
        Value::Object(vec![entry("a", Value::Int(1)), entry("b", Value::Int(2))]),
    )]);
    let string = template
        .render(&context, &registry, &no_formatters())
        .unwrap();
    assert_eq!("[1-2]", &string);
}

#[test]
fn test_anonymous_with_scope_pops() {
    let template = compile("{% with inner %}{{ v }}{% endwith %}{{ v }}");
    let context = Value::Object(vec![
        entry("v", Value::Int(1)),
        entry("inner", Value::Object(vec![entry("v", Value::Int(2))])),
    ]);
    assert_eq!("21", &render_with(&template, &context).unwrap());
}

#[test]
fn test_comment_emits_nothing() {
    let template = compile("a{# this comment disappears #}b");
    let context = Value::Object(vec![]);
    assert_eq!("ab", &render_with(&template, &context).unwrap());
}

#[test]
fn test_plain_formatter_matches_plain_emission() {
    let template = compile("{{ x | plain }}={{ x }}");
    let mut formatters: FormatterRegistry<PlainFormatter> = FormatterRegistry::new();
    formatters.insert("plain", PlainFormatter);
    let context = Value::Object(vec![entry("x", Value::Int(-31))]);
    let string = template
        .render(&context, &no_templates(), &formatters)
        .unwrap();
    assert_eq!("-31=-31", &string);
}

#[test]
fn test_formatter_on_unprintable_value_is_error() {
    let template = compile("{{ arr | plain }}");
    let mut formatters: FormatterRegistry<PlainFormatter> = FormatterRegistry::new();
    formatters.insert("plain", PlainFormatter);
    let context = Value::Object(vec![entry("arr", Value::Array(vec![]))]);
    let err = template
        .render(&context, &no_templates(), &formatters)
        .unwrap_err();
    assert!(matches!(err, RenderError::Unprintable));
}
