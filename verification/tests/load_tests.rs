use value_resolver::load::{
    get_value_files_as_refs, is_inline_override, load_yaml_files, merge_loaded,
    parse_yaml_string, LoadError, Source,
};
use value_resolver::resolver::ResolveError;
use value_resolver::value::{Mapping, Number, Value};

fn text(s: &str) -> Value {
    Value::String(s.to_string())
}

fn mapping(entries: Vec<(&str, Value)>) -> Value {
    let mut m = Mapping::new();
    for (key, value) in entries {
        m.insert(key.to_string(), value);
    }
    Value::Mapping(m)
}

fn list(items: Vec<Value>) -> Value {
    Value::Sequence(items)
}

fn document(identifier: &str, content: Value) -> Source {
    Source::Document { identifier: identifier.to_string(), content }
}

fn inline(text: &str) -> Source {
    Source::Inline(text.to_string())
}

fn values_file() -> Source {
    document(
        "values.yaml",
        mapping(vec![
            ("hello", Value::Bool(true)),
            ("world", text("string")),
            (
                "foo",
                mapping(vec![("bar", text("hi")), ("nested", mapping(vec![("map", text("here"))]))]),
            ),
        ]),
    )
}

fn override_file() -> Source {
    document("override.yaml", mapping(vec![("world", text("notString"))]))
}

fn override_complex_file() -> Source {
    document(
        "override_complex.yaml",
        mapping(vec![
            ("world", text("overwritten")),
            (
                "foo",
                mapping(vec![("bar", text("hi2")), ("nested", mapping(vec![("new", text("value"))]))]),
            ),
        ]),
    )
}

#[test]
fn later_documents_win() {
    let output = load_yaml_files(vec![values_file(), override_file()]).unwrap();
    assert_eq!(
        output,
        mapping(vec![
            ("hello", Value::Bool(true)),
            ("world", text("notString")),
            (
                "foo",
                mapping(vec![("bar", text("hi")), ("nested", mapping(vec![("map", text("here"))]))]),
            ),
        ])
    );
}

#[test]
fn nested_documents_merge() {
    let output =
        load_yaml_files(vec![values_file(), override_file(), override_complex_file()]).unwrap();
    assert_eq!(
        output,
        mapping(vec![
            ("hello", Value::Bool(true)),
            ("world", text("overwritten")),
            (
                "foo",
                mapping(vec![
                    ("bar", text("hi2")),
                    ("nested", mapping(vec![("map", text("here")), ("new", text("value"))])),
                ]),
            ),
        ])
    );
}

#[test]
fn inline_override_wins_when_it_comes_last() {
    let output = load_yaml_files(vec![
        values_file(),
        override_file(),
        override_complex_file(),
        inline("foo.bar=manual"),
    ])
    .unwrap();
    assert_eq!(output.get("foo").unwrap().get("bar").unwrap(), &text("manual"));
    assert_eq!(output.get("world").unwrap(), &text("overwritten"));

    let output = load_yaml_files(vec![
        values_file(),
        override_file(),
        override_complex_file(),
        inline("foo.bar=manual"),
        inline("world=world"),
        inline("foo.nested.map=wow"),
    ])
    .unwrap();
    assert_eq!(
        output,
        mapping(vec![
            ("hello", Value::Bool(true)),
            ("world", text("world")),
            (
                "foo",
                mapping(vec![
                    ("bar", text("manual")),
                    ("nested", mapping(vec![("map", text("wow")), ("new", text("value"))])),
                ]),
            ),
        ])
    );
}

#[test]
fn inline_override_replaces_whatever_stood_there() {
    for before in [
        mapping(vec![]),
        mapping(vec![("foo", text("scalar"))]),
        mapping(vec![("foo", list(vec![text("x")]))]),
        mapping(vec![("foo", mapping(vec![("bar", mapping(vec![("deep", text("x"))]))]))]),
        mapping(vec![("foo", mapping(vec![("bar", list(vec![]))])), ("other", text("o"))]),
    ] {
        let output =
            load_yaml_files(vec![document("file.yaml", before), inline("foo.bar=manual")]).unwrap();
        assert_eq!(output.get("foo").unwrap().get("bar").unwrap(), &text("manual"));
    }
}

#[test]
fn lists_of_documents_are_joined() {
    let output = load_yaml_files(vec![
        document(
            "first.yaml",
            mapping(vec![
                ("items", list(vec![text("apple"), text("banana")])),
                ("world", text("hello")),
            ]),
        ),
        document(
            "second.yaml",
            mapping(vec![
                ("items", list(vec![text("orange"), text("cherry")])),
                ("world", text("goodbye")),
            ]),
        ),
        inline("fruit.color=red"),
    ])
    .unwrap();
    assert_eq!(
        output,
        mapping(vec![
            ("items", list(vec![text("apple"), text("banana"), text("orange"), text("cherry")])),
            ("world", text("goodbye")),
            ("fruit", mapping(vec![("color", text("red"))])),
        ])
    );
}

#[test]
fn references_are_resolved_after_the_merge() {
    let output = load_yaml_files(vec![document(
        "value_refs.yaml",
        mapping(vec![
            ("greeting", text("hello")),
            ("target", text("world")),
            ("message", text("{{ greeting }} {{ target }}")),
            (
                "config",
                mapping(vec![
                    ("greeting", text("{{ message }}")),
                    ("upper_greeting", text("{{ config.greeting | upper }}")),
                    (
                        "complex",
                        text("{{ config.greeting }} and {{ config.upper_greeting }} and {{ target }}"),
                    ),
                ]),
            ),
        ]),
    )])
    .unwrap();
    assert_eq!(output.get("message").unwrap(), &text("hello world"));
    let config = output.get("config").unwrap();
    assert_eq!(config.get("greeting").unwrap(), &text("hello world"));
    assert_eq!(config.get("upper_greeting").unwrap(), &text("HELLO WORLD"));
    assert_eq!(
        config.get("complex").unwrap(),
        &text("hello world and HELLO WORLD and world")
    );
}

#[test]
fn references_reach_across_sources() {
    let output = load_yaml_files(vec![values_file(), inline("greeting={{ world }}")]).unwrap();
    assert_eq!(output.get("greeting").unwrap(), &text("string"));
}

#[test]
fn circular_references_fail_the_load() {
    let result = load_yaml_files(vec![document(
        "circular.yaml",
        mapping(vec![("a", text("{{ b }}")), ("b", text("{{ c }}")), ("c", text("{{ a }}"))]),
    )]);
    let error = result.unwrap_err();
    let err_msg = error.message();
    assert!(
        err_msg.contains("Circular dependency") && err_msg.contains("value references"),
        "Error should mention circular dependency: {}",
        err_msg
    );
    match error {
        LoadError::Resolution(ResolveError::CircularDependency { chain }) => {
            assert_eq!(chain.len(), 4);
            assert_eq!(
                err_msg,
                format!(
                    "Failed to resolve value references in YAML files: Circular dependency detected in values. Cycle involves: {}",
                    chain.join(" -> ")
                )
            );
        }
        other => panic!("no cycle: {:?}", other),
    }
}

#[test]
fn documents_without_references_pass_through() {
    let output = load_yaml_files(vec![values_file()]).unwrap();
    assert_eq!(output.get("hello").unwrap(), &Value::Bool(true));
    assert_eq!(output.get("world").unwrap(), &text("string"));
}

#[test]
fn the_first_bad_source_stops_the_load() {
    let unreadable = Source::Unreadable {
        identifier: "invalid/path.yaml".to_string(),
        cause: "No such file or directory".to_string(),
    };
    let error = load_yaml_files(vec![values_file(), unreadable, document("list.yaml", list(vec![]))])
        .unwrap_err();
    assert_eq!(
        error,
        LoadError::SourceLoad {
            source_identifier: "invalid/path.yaml".to_string(),
            cause: "No such file or directory".to_string(),
        }
    );
    assert_eq!(
        error.message(),
        "Failed to read values YAML file: invalid/path.yaml"
    );

    let error = load_yaml_files(vec![
        values_file(),
        document("list.yaml", list(vec![])),
        Source::Unreadable { identifier: "x".to_string(), cause: "y".to_string() },
    ])
    .unwrap_err();
    assert_eq!(error, LoadError::InvalidRootShape { source_identifier: "list.yaml".to_string() });
    assert_eq!(
        error.message(),
        "Expected top-level YAML structure to be a mapping."
    );
    assert_eq!(
        merge_loaded(vec![document("scalar.yaml", text("x"))]),
        Err(LoadError::InvalidRootShape { source_identifier: "scalar.yaml".to_string() })
    );
    assert_eq!(merge_loaded(vec![]), Ok(mapping(vec![])));
}

#[test]
fn inline_overrides_are_nested_mappings() {
    assert_eq!(
        parse_yaml_string("a.b=x"),
        mapping(vec![("a", mapping(vec![("b", text("x"))]))])
    );
    assert_eq!(parse_yaml_string("a=x"), mapping(vec![("a", text("x"))]));
    assert_eq!(
        parse_yaml_string("abc.def.ghi=jkl"),
        mapping(vec![("abc", mapping(vec![("def", mapping(vec![("ghi", text("jkl"))]))]))])
    );
}

#[test]
fn the_literal_of_an_override_is_always_a_string() {
    assert_eq!(parse_yaml_string("count=42"), mapping(vec![("count", text("42"))]));
    assert_eq!(parse_yaml_string("flag=true"), mapping(vec![("flag", text("true"))]));
    assert_eq!(parse_yaml_string("empty="), mapping(vec![("empty", text(""))]));
    assert_eq!(parse_yaml_string("eq=a=b.c"), mapping(vec![("eq", text("a=b.c"))]));
    assert_eq!(parse_yaml_string("bare"), mapping(vec![("bare", text(""))]));
    assert_eq!(
        parse_yaml_string(".=v"),
        mapping(vec![("", mapping(vec![("", text("v"))]))])
    );
    let merged = load_yaml_files(vec![
        document("n.yaml", mapping(vec![("count", Value::Number(Number::new("1").unwrap()))])),
        inline("count=42"),
    ])
    .unwrap();
    assert_eq!(merged, mapping(vec![("count", text("42"))]));
}

#[test]
fn an_equals_sign_marks_an_override() {
    assert!(is_inline_override("foo.bar=manual"));
    assert!(is_inline_override("="));
    assert!(!is_inline_override("resources/test/test_values/values.yaml"));
    assert!(!is_inline_override(""));
}

#[test]
fn value_files_as_refs_keeps_the_strings() {
    let strings = vec!["a.yaml".to_string(), "b=c".to_string(), String::new()];
    assert_eq!(get_value_files_as_refs(&strings), vec!["a.yaml", "b=c", ""]);
    assert!(get_value_files_as_refs(&Vec::new()).is_empty());
}
