//! Tests of the compiler: the exact instruction sequences (including
//! resolved jump targets) that template sources compile to, and the parse
//! errors that malformed sources produce.

use tinytemplate::compiler::TemplateCompiler;
use tinytemplate::error::ParseError;
use tinytemplate::instruction::Instruction;
use tinytemplate::instruction::Instruction::{
    Branch, Call, FormattedValue, Goto, Iterate, Literal, PopContext, PushContext,
    PushIterationContext, PushNamedContext, Value,
};

fn compile(text: &'static str) -> Result<Vec<Instruction>, ParseError> {
    TemplateCompiler::new(text).compile()
}

fn path(segments: &[&str]) -> Vec<String> {
    segments.iter().map(|s| s.to_string()).collect()
}

#[test]
fn test_compile_literal() {
    let text = "Test String";
    let instructions = compile(text).unwrap();
    assert_eq!(1, instructions.len());
    assert_eq!(&Literal(text.to_string()), &instructions[0]);
}

#[test]
fn test_compile_value() {
    let text = "{{ foobar }}";
    let instructions = compile(text).unwrap();
    assert_eq!(1, instructions.len());
    assert_eq!(&Value(path(&["foobar"])), &instructions[0]);
}

#[test]
fn test_compile_value_with_formatter() {
    let text = "{{ foobar | my_formatter }}";
    let instructions = compile(text).unwrap();
    assert_eq!(1, instructions.len());
    assert_eq!(
        &FormattedValue(path(&["foobar"]), "my_formatter".to_string()),
        &instructions[0]
    );
}

#[test]
fn test_dotted_path() {
    let text = "{{ foo.bar }}";
    let instructions = compile(text).unwrap();
    assert_eq!(1, instructions.len());
    assert_eq!(&Value(path(&["foo", "bar"])), &instructions[0]);
}

#[test]
fn test_mixture() {
    let text = "Hello {{ name }}, how are you?";
    let instructions = compile(text).unwrap();
    assert_eq!(3, instructions.len());
    assert_eq!(&Literal("Hello ".to_string()), &instructions[0]);
    assert_eq!(&Value(path(&["name"])), &instructions[1]);
    assert_eq!(&Literal(", how are you?".to_string()), &instructions[2]);
}

#[test]
fn test_if_endif() {
    let text = "{% if foo %}Hello!{% endif %}";
    let instructions = compile(text).unwrap();
    assert_eq!(2, instructions.len());
    assert_eq!(&Branch(path(&["foo"]), 2), &instructions[0]);
    assert_eq!(&Literal("Hello!".to_string()), &instructions[1]);
}

#[test]
fn test_if_else_endif() {
    let text = "{% if foo %}Hello!{% else %}Goodbye!{% endif %}";
    let instructions = compile(text).unwrap();
    assert_eq!(4, instructions.len());
    assert_eq!(&Branch(path(&["foo"]), 3), &instructions[0]);
    assert_eq!(&Literal("Hello!".to_string()), &instructions[1]);
    assert_eq!(&Goto(4), &instructions[2]);
    assert_eq!(&Literal("Goodbye!".to_string()), &instructions[3]);
}

#[test]
fn compiler_test_with() {
    let text = "{% with foo %}Hello!{% endwith %}";
    let instructions = compile(text).unwrap();
    assert_eq!(3, instructions.len());
    assert_eq!(&PushContext(path(&["foo"])), &instructions[0]);
    assert_eq!(&Literal("Hello!".to_string()), &instructions[1]);
    assert_eq!(&PopContext, &instructions[2]);
}

#[test]
fn compiler_test_named_with() {
    let text = "{% with foo as bar %}Hello!{% endwith %}";
    let instructions = compile(text).unwrap();
    assert_eq!(3, instructions.len());
    assert_eq!(
        &PushNamedContext(path(&["foo"]), "bar".to_string()),
        &instructions[0]
    );
    assert_eq!(&Literal("Hello!".to_string()), &instructions[1]);
    assert_eq!(&PopContext, &instructions[2]);
}

#[test]
fn test_foreach() {
    let text = "{% for foo in bar.baz %}{{ foo }}{% endfor %}";
    let instructions = compile(text).unwrap();
    assert_eq!(5, instructions.len());
    assert_eq!(
        &PushIterationContext(path(&["bar", "baz"]), "foo".to_string()),
        &instructions[0]
    );
    assert_eq!(&Iterate(4), &instructions[1]);
    assert_eq!(&Value(path(&["foo"])), &instructions[2]);
    assert_eq!(&Goto(1), &instructions[3]);
    assert_eq!(&PopContext, &instructions[4]);
}

#[test]
fn test_strip_whitespace_value() {
    let text = "Hello,     {{- name -}}   , how are you?";
    let instructions = compile(text).unwrap();
    assert_eq!(3, instructions.len());
    assert_eq!(&Literal("Hello,".to_string()), &instructions[0]);
    assert_eq!(&Value(path(&["name"])), &instructions[1]);
    assert_eq!(&Literal(", how are you?".to_string()), &instructions[2]);
}

#[test]
fn test_strip_whitespace_block() {
    let text = "Hello,     {%- if name -%}    {{name}}    {%- endif -%}   , how are you?";
    let instructions = compile(text).unwrap();
    assert_eq!(6, instructions.len());
    assert_eq!(&Literal("Hello,".to_string()), &instructions[0]);
    assert_eq!(&Branch(path(&["name"]), 5), &instructions[1]);
    assert_eq!(&Literal("".to_string()), &instructions[2]);
    assert_eq!(&Value(path(&["name"])), &instructions[3]);
    assert_eq!(&Literal("".to_string()), &instructions[4]);
    assert_eq!(&Literal(", how are you?".to_string()), &instructions[5]);
}

#[test]
fn test_comment() {
    let text = "Hello, {# foo bar baz #} there!";
    let instructions = compile(text).unwrap();
    assert_eq!(2, instructions.len());
    assert_eq!(&Literal("Hello, ".to_string()), &instructions[0]);
    assert_eq!(&Literal(" there!".to_string()), &instructions[1]);
}

#[test]
fn test_strip_whitespace_comment() {
    let text = "Hello, \t\n    {#- foo bar baz -#} \t  there!";
    let instructions = compile(text).unwrap();
    assert_eq!(2, instructions.len());
    assert_eq!(&Literal("Hello,".to_string()), &instructions[0]);
    assert_eq!(&Literal("there!".to_string()), &instructions[1]);
}

#[test]
fn compiler_test_call() {
    let text = "{% call my_macro with foo.bar %}";
    let instructions = compile(text).unwrap();
    assert_eq!(1, instructions.len());
    assert_eq!(
        &Call("my_macro".to_string(), path(&["foo", "bar"])),
        &instructions[0]
    );
}

#[test]
fn test_unclosed_tags() {
    let tags = vec![
        "{{",
        "{{ foo.bar",
        "{{ foo.bar\n }}",
        "{%",
        "{% if foo.bar",
        "{% if foo.bar \n%}",
        "{#",
        "{# if foo.bar",
        "{# if foo.bar \n#}",
    ];
    for tag in tags {
        compile(tag).unwrap_err();
    }
}

#[test]
fn test_mismatched_blocks() {
    let text = "{% if foo %}{% with bar %}{% endif %} {% endwith %}";
    compile(text).unwrap_err();
}

#[test]
fn test_disallows_invalid_keywords() {
    let text = "{{ @foo }}";
    compile(text).unwrap_err();
}

#[test]
fn test_compile_is_deterministic() {
    let text = "a{% if x %}b{% else %}c{% endif %}{% for i in xs %}{{ @index }}{% endfor %}";
    let first = compile(text).unwrap();
    let second = compile(text).unwrap();
    assert_eq!(first, second);
}

#[test]
fn test_parse_error_variants() {
    assert!(matches!(
        compile("hello { world").unwrap_err(),
        ParseError::UnexpectedCharacter
    ));
    assert!(matches!(
        compile("{{ name").unwrap_err(),
        ParseError::UnclosedTag { .. }
    ));
    assert!(matches!(
        compile("{% if x %}{% endif now %}").unwrap_err(),
        ParseError::UnexpectedText { .. }
    ));
    assert!(matches!(
        compile("{% frobnicate x %}").unwrap_err(),
        ParseError::UnknownBlock { .. }
    ));
    assert!(matches!(
        compile("{% endif %}").unwrap_err(),
        ParseError::MismatchedEndIf
    ));
    assert!(matches!(
        compile("{% else %}").unwrap_err(),
        ParseError::MismatchedEndIf
    ));
    assert!(matches!(
        compile("{% endwith %}").unwrap_err(),
        ParseError::MismatchedEndWith
    ));
    assert!(matches!(
        compile("{% endfor %}").unwrap_err(),
        ParseError::MismatchedEndFor
    ));
    assert!(matches!(
        compile("{{ @frob }}").unwrap_err(),
        ParseError::InvalidKeyword { .. }
    ));
    assert!(matches!(
        compile("{% for x %}{% endfor %}").unwrap_err(),
        ParseError::MalformedFor { .. }
    ));
    assert!(matches!(
        compile("{% call x %}").unwrap_err(),
        ParseError::MalformedCall { .. }
    ));
}

#[test]
fn test_overlapping_opener_and_closer_is_unclosed() {
    assert!(matches!(
        compile("{%}").unwrap_err(),
        ParseError::UnclosedTag { .. }
    ));
    assert!(matches!(
        compile("{#}").unwrap_err(),
        ParseError::UnclosedTag { .. }
    ));
}

#[test]
fn test_unclosed_block_is_error() {
    assert!(matches!(
        compile("{% if foo %}Hello!").unwrap_err(),
        ParseError::UnclosedBlock
    ));
    assert!(matches!(
        compile("{% for a in b %}x").unwrap_err(),
        ParseError::UnclosedBlock
    ));
    assert!(matches!(
        compile("{% with foo %}").unwrap_err(),
        ParseError::UnclosedBlock
    ));
    assert!(matches!(
        compile("{% if foo %}a{% else %}b").unwrap_err(),
        ParseError::UnclosedBlock
    ));
}

#[test]
fn test_unicode_whitespace_is_trimmed_like_ascii() {
    let text = "a \u{00A0} {{- name -}} \u{2003} b";
    let instructions = compile(text).unwrap();
    assert_eq!(3, instructions.len());
    assert_eq!(&Literal("a".to_string()), &instructions[0]);
    assert_eq!(&Value(path(&["name"])), &instructions[1]);
    assert_eq!(&Literal("b".to_string()), &instructions[2]);
    let tag = "{{\u{00A0}name\u{2009}}}";
    let instructions = compile(tag).unwrap();
    assert_eq!(vec![Value(path(&["name"]))], instructions);
}
