use value_resolver::resolver::{
    apply_rendered, build_dependency_graph, collect_template_values, dependency_graph_of,
    extract_template_references, record_template, resolve_in_order, resolve_value_references,
    resolve_with, ResolveError,
};
use value_resolver::extractor::MiniJinjaReferenceExtractor;
use value_resolver::graph::ValuePath;
use value_resolver::path::PathError;
use value_resolver::renderer::MiniJinjaRenderer;
use value_resolver::traits::{ReferenceExtractor, RenderError, TemplateRenderer};
use value_resolver::value::{Mapping, Number, Value};

fn text(s: &str) -> Value {
    Value::String(s.to_string())
}

fn number(s: &str) -> Value {
    Value::Number(Number::new(s).unwrap())
}

fn fields(entries: Vec<(&str, Value)>) -> Mapping {
    let mut m = Mapping::new();
    for (key, value) in entries {
        m.insert(key.to_string(), value);
    }
    m
}

fn mapping(entries: Vec<(&str, Value)>) -> Value {
    Value::Mapping(fields(entries))
}

fn list(items: Vec<Value>) -> Value {
    Value::Sequence(items)
}

#[test]
fn test_simple_reference_resolution() {
    let values = mapping(vec![
        ("greeting", text("hello")),
        ("message", text("{{ greeting }} world")),
    ]);
    let resolved = resolve_value_references(values).unwrap();

    assert_eq!(
        resolved.get("message").unwrap(),
        &Value::String("hello world".to_string())
    );
}

#[test]
fn test_nested_value_reference() {
    let values = mapping(vec![
        (
            "parent",
            mapping(vec![("child", mapping(vec![("value", text("nested"))]))]),
        ),
        ("result", text("{{ parent.child.value }}")),
    ]);
    let resolved = resolve_value_references(values).unwrap();

    assert_eq!(
        resolved.get("result").unwrap(),
        &Value::String("nested".to_string())
    );
}

#[test]
fn test_chained_references() {
    let values = mapping(vec![
        ("a", text("base")),
        ("b", text("{{ a }}-extended")),
        ("c", text("{{ b }}-final")),
    ]);
    let resolved = resolve_value_references(values).unwrap();

    assert_eq!(
        resolved.get("c").unwrap(),
        &Value::String("base-extended-final".to_string())
    );
}

#[test]
fn test_filter_support_upper() {
    let values = mapping(vec![
        ("name", text("world")),
        ("greeting", text("{{ name | upper }}")),
    ]);
    let resolved = resolve_value_references(values).unwrap();

    assert_eq!(
        resolved.get("greeting").unwrap(),
        &Value::String("WORLD".to_string())
    );
}

#[test]
fn test_filter_support_lower() {
    let values = mapping(vec![
        ("name", text("HELLO")),
        ("greeting", text("{{ name | lower }}")),
    ]);
    let resolved = resolve_value_references(values).unwrap();

    assert_eq!(
        resolved.get("greeting").unwrap(),
        &Value::String("hello".to_string())
    );
}

#[test]
fn test_default_filter() {
    let values = mapping(vec![(
        "message",
        text("{{ undefined_var | default('fallback') }}"),
    )]);
    let resolved = resolve_value_references(values).unwrap();

    assert_eq!(
        resolved.get("message").unwrap(),
        &Value::String("fallback".to_string())
    );
}

#[test]
fn test_circular_dependency_error() {
    let values = mapping(vec![
        ("a", text("{{ b }}")),
        ("b", text("{{ c }}")),
        ("c", text("{{ a }}")),
    ]);
    let result = resolve_value_references(values);

    assert!(result.is_err());
    let err = result.unwrap_err().message();
    assert!(
        err.contains("Circular dependency"),
        "Error should mention circular dependency: {}",
        err
    );
}

#[test]
fn test_self_reference_error() {
    let values = mapping(vec![("a", text("{{ a }}"))]);
    let result = resolve_value_references(values);

    assert!(result.is_err());
}

#[test]
fn test_non_string_values_unchanged() {
    let values = mapping(vec![
        ("number", number("42")),
        ("boolean", Value::Bool(true)),
        ("list", list(vec![text("item1"), text("item2")])),
    ]);
    let resolved = resolve_value_references(values.clone()).unwrap();

    assert_eq!(
        resolved.get("number").unwrap(),
        values.get("number").unwrap()
    );
    assert_eq!(
        resolved.get("boolean").unwrap(),
        values.get("boolean").unwrap()
    );
    assert_eq!(resolved.get("list").unwrap(), values.get("list").unwrap());
}

#[test]
fn test_multiple_references_in_one_value() {
    let values = mapping(vec![
        ("part1", text("world")),
        ("part2", text("hello")),
        ("message", text("{{ part2 }} {{ part1 }}")),
    ]);
    let resolved = resolve_value_references(values).unwrap();

    assert_eq!(
        resolved.get("message").unwrap(),
        &Value::String("hello world".to_string())
    );
}

#[test]
fn test_no_templates_passthrough() {
    let values = mapping(vec![
        ("simple", text("value")),
        ("another", text("plain text")),
    ]);
    let resolved = resolve_value_references(values.clone()).unwrap();

    assert_eq!(resolved, values);
}

#[test]
fn test_nested_target_value() {
    let values = mapping(vec![
        ("source", text("hello")),
        (
            "target",
            mapping(vec![(
                "nested",
                mapping(vec![("value", text("{{ source }} world"))]),
            )]),
        ),
    ]);
    let resolved = resolve_value_references(values).unwrap();

    let target = resolved.get("target").unwrap();
    let nested = target.get("nested").unwrap();
    let value = nested.get("value").unwrap();

    assert_eq!(value, &Value::String("hello world".to_string()));
}

#[test]
fn test_deeply_nested_reference() {
    let values = mapping(vec![
        (
            "level1",
            mapping(vec![(
                "level2",
                mapping(vec![("level3", mapping(vec![("source", text("deep"))]))]),
            )]),
        ),
        ("result", text("{{ level1.level2.level3.source }}")),
    ]);
    let resolved = resolve_value_references(values).unwrap();

    assert_eq!(
        resolved.get("result").unwrap(),
        &Value::String("deep".to_string())
    );
}

#[test]
fn test_mixed_static_and_dynamic_text() {
    let values = mapping(vec![
        ("name", text("Alice")),
        ("greeting", text("Hello, {{ name }}! Welcome to the system.")),
    ]);
    let resolved = resolve_value_references(values).unwrap();

    assert_eq!(
        resolved.get("greeting").unwrap(),
        &Value::String("Hello, Alice! Welcome to the system.".to_string())
    );
}

#[test]
fn test_complex_dependency_chain() {
    let values = mapping(vec![
        ("base", text("foundation")),
        ("layer1", text("{{ base }}-layer1")),
        ("layer2", text("{{ layer1 }}-layer2")),
        ("final", text("{{ layer2 }}-complete")),
    ]);
    let resolved = resolve_value_references(values).unwrap();

    assert_eq!(
        resolved.get("final").unwrap(),
        &Value::String("foundation-layer1-layer2-complete".to_string())
    );
}

#[test]
fn test_diamond_dependency() {
    // Both branch1 and branch2 depend on root
    // final depends on both branches
    let values = mapping(vec![
        ("root", text("base")),
        ("branch1", text("{{ root }}-b1")),
        ("branch2", text("{{ root }}-b2")),
        ("final", text("{{ branch1 }} and {{ branch2 }}")),
    ]);
    let resolved = resolve_value_references(values).unwrap();

    assert_eq!(
        resolved.get("final").unwrap(),
        &Value::String("base-b1 and base-b2".to_string())
    );
}

struct MockReferenceExtractor {
    references: Vec<String>,
}

impl ReferenceExtractor for MockReferenceExtractor {
    fn extract_references(&self, _template_str: &str) -> Vec<String> {
        self.references.clone()
    }

    fn contains_template(&self, s: &str) -> bool {
        s.contains("{{")
    }
}

struct MockTemplateRenderer {
    answer: Result<String, String>,
}

impl TemplateRenderer for MockTemplateRenderer {
    fn render(&self, _template_str: &str, _context: &Value) -> Result<String, RenderError> {
        match &self.answer {
            Ok(text) => Ok(text.clone()),
            Err(message) => Err(RenderError {
                message: message.clone(),
            }),
        }
    }
}

#[test]
fn test_resolver_with_mock_extractor() {
    let mock_extractor = MockReferenceExtractor {
        references: vec!["foo".to_string()],
    };
    let mock_renderer = MockTemplateRenderer {
        answer: Ok("rendered".to_string()),
    };

    let values = mapping(vec![("foo", text("value")), ("bar", text("{{ foo }}"))]);
    let result = resolve_with(values, &mock_extractor, &mock_renderer);

    assert!(result.is_ok());
    assert_eq!(
        result.unwrap(),
        mapping(vec![("foo", text("value")), ("bar", text("rendered"))])
    );
}

#[test]
fn test_renderer_error_propagates() {
    let mock_extractor = MockReferenceExtractor { references: vec![] };
    let mock_renderer = MockTemplateRenderer {
        answer: Err("Render error".to_string()),
    };

    let values = mapping(vec![("bar", text("{{ foo }}"))]);
    let result = resolve_with(values, &mock_extractor, &mock_renderer);

    assert!(result.is_err());
    assert!(result.unwrap_err().message().contains("Render error"));
}

#[test]
fn transitive_references_resolve() {
    let values = mapping(vec![
        ("c", text("{{b}}-y")),
        ("b", text("{{a}}-x")),
        ("a", text("base")),
    ]);
    let resolved = resolve_value_references(values).unwrap();
    assert_eq!(
        resolved,
        mapping(vec![
            ("c", text("base-x-y")),
            ("b", text("base-x")),
            ("a", text("base")),
        ])
    );
}

#[test]
fn diamond_resolves_each_branch() {
    let values = mapping(vec![
        ("f", text("{{b1}} {{b2}}")),
        ("b2", text("{{root}}-2")),
        ("root", text("r")),
        ("b1", text("{{root}}-1")),
    ]);
    let resolved = resolve_value_references(values).unwrap();
    assert_eq!(resolved.get("f").unwrap(), &text("r-1 r-2"));
    assert_eq!(resolved.get("b1").unwrap(), &text("r-1"));
    assert_eq!(resolved.get("b2").unwrap(), &text("r-2"));
    assert_eq!(resolved.get("root").unwrap(), &text("r"));
}

#[test]
fn multiple_references_in_one_template() {
    let values = mapping(vec![
        ("tail", text("world")),
        ("head", text("hello")),
        ("m", text("{{head}} {{tail}}")),
    ]);
    let resolved = resolve_value_references(values).unwrap();
    assert_eq!(resolved.get("m").unwrap(), &text("hello world"));
}

#[test]
fn filter_counts_only_its_base_for_the_graph() {
    let extractor = MiniJinjaReferenceExtractor::new();
    assert_eq!(extractor.extract_references("{{ name | upper }}"), vec!["name"]);
    let values = mapping(vec![
        ("upper", text("never used")),
        ("shout", text("{{ name | upper }}!")),
        ("name", text("{{ first }} {{ last }}")),
        ("first", text("ada")),
        ("last", text("lovelace")),
    ]);
    let resolved = resolve_value_references(values).unwrap();
    assert_eq!(resolved.get("shout").unwrap(), &text("ADA LOVELACE!"));
    assert_eq!(resolved.get("name").unwrap(), &text("ada lovelace"));
}

fn cycle_of(error: ResolveError) -> Vec<String> {
    match error {
        ResolveError::CircularDependency { chain } => chain,
        other => panic!("no cycle: {:?}", other),
    }
}

#[test]
fn cycles_are_named_and_nothing_is_returned() {
    let values = mapping(vec![("a", text("{{a}}")), ("b", text("plain"))]);
    let error = resolve_value_references(values).unwrap_err();
    assert_eq!(
        error.message(),
        "Circular dependency detected in values. Cycle involves: a -> a"
    );
    assert_eq!(cycle_of(error), vec!["a", "a"]);

    let values = mapping(vec![
        ("a", text("{{ b }}")),
        ("b", text("{{ c }}")),
        ("c", text("{{ a }}")),
        ("d", text("{{ a }}")),
    ]);
    let chain = cycle_of(resolve_value_references(values).unwrap_err());
    assert_eq!(chain.len(), 4);
    assert_eq!(chain.first(), chain.last());
    for name in ["a", "b", "c"] {
        assert!(chain.iter().any(|n| n == name), "{:?}", chain);
    }
    assert!(!chain.iter().any(|n| n == "d"));
}

#[test]
fn templates_in_sequences_are_recorded_by_index() {
    let extractor = MiniJinjaReferenceExtractor::new();
    let values = mapping(vec![
        ("name", text("x")),
        (
            "items",
            list(vec![text("plain"), text("{{ name }}"), list(vec![text("{{ name }}!")])]),
        ),
        ("nested", mapping(vec![("deep", text("{{ items }}"))])),
        ("count", number("3")),
    ]);
    let mut templates = Mapping::new();
    collect_template_values(&values, "", &mut templates, &extractor);
    assert_eq!(
        templates,
        fields(vec![
            ("items[1]", text("{{ name }}")),
            ("items[2][0]", text("{{ name }}!")),
            ("nested.deep", text("{{ items }}")),
        ])
    );
    let references = extract_template_references(&templates, &extractor);
    assert_eq!(
        references,
        vec![
            ("items[1]".to_string(), vec!["name".to_string()]),
            ("items[2][0]".to_string(), vec!["name".to_string()]),
            ("nested.deep".to_string(), vec!["items".to_string()]),
        ]
    );
    let graph = build_dependency_graph(&templates, &extractor).unwrap();
    assert_eq!(graph.node_count(), 5);
    assert_eq!(graph.dependency_count(), 3);
    let graph = dependency_graph_of(&references).unwrap();
    assert_eq!(graph.node_count(), 5);
}

#[test]
fn a_template_in_a_sequence_is_written_as_a_field() {
    let values = mapping(vec![("name", text("x")), ("items", list(vec![text("{{ name }}")]))]);
    let resolved = resolve_value_references(values).unwrap();
    assert_eq!(
        resolved,
        mapping(vec![
            ("name", text("x")),
            ("items", list(vec![text("{{ name }}")])),
            ("items[0]", text("x")),
        ])
    );
}

#[test]
fn a_later_leaf_with_the_same_path_replaces_the_earlier() {
    let extractor = MiniJinjaReferenceExtractor::new();
    let values = mapping(vec![
        ("a.b", text("{{ first }}")),
        ("a", mapping(vec![("b", text("{{ second }}"))])),
    ]);
    let mut templates = Mapping::new();
    collect_template_values(&values, "", &mut templates, &extractor);
    assert_eq!(templates, fields(vec![("a.b", text("{{ second }}"))]));
}

#[test]
fn empty_braces_are_rendered_though_they_refer_to_nothing() {
    let extractor = MiniJinjaReferenceExtractor::new();
    assert!(extractor.contains_template("{{}}"));
    assert!(extractor.extract_references("{{}}").is_empty());
    let values = mapping(vec![("broken", text("a {{}} b"))]);
    let error = resolve_value_references(values).unwrap_err();
    match &error {
        ResolveError::Render { template, cause } => {
            assert_eq!(template, "a {{}} b");
            assert_eq!(cause, "Failed to parse template: a {{}} b");
            assert_eq!(error.message(), "Failed to parse template: a {{}} b");
        }
        other => panic!("no render error: {:?}", other),
    }
}

#[test]
fn apply_rendered_writes_or_reports() {
    let mut values = mapping(vec![("a", mapping(vec![("b", text("{{ x }}"))])), ("s", text("t"))]);
    assert_eq!(
        apply_rendered(&mut values, "a.b", "{{ x }}", Ok("done".to_string())),
        Ok(())
    );
    assert_eq!(
        values,
        mapping(vec![("a", mapping(vec![("b", text("done"))])), ("s", text("t"))])
    );
    let before = values.clone();
    assert_eq!(
        apply_rendered(
            &mut values,
            "a.b",
            "{{ x }}",
            Err(RenderError { message: "boom".to_string() })
        ),
        Err(ResolveError::Render { template: "{{ x }}".to_string(), cause: "boom".to_string() })
    );
    assert_eq!(
        apply_rendered(&mut values, "missing.b", "{{ x }}", Ok("done".to_string())),
        Err(ResolveError::Path { path: "missing.b".to_string(), error: PathError::PathNotFound })
    );
    assert_eq!(
        apply_rendered(&mut values, "s.b", "{{ x }}", Ok("done".to_string())),
        Err(ResolveError::Path { path: "s.b".to_string(), error: PathError::NotAMapping { on_the_way: false } })
    );
    assert_eq!(values, before);
    assert_eq!(
        ResolveError::Path { path: "s.b".to_string(), error: PathError::NotAMapping { on_the_way: false } }.message(),
        "Cannot set value at path 's.b': parent is not a mapping"
    );
    assert_eq!(
        ResolveError::Path {
            path: "s".to_string(),
            error: PathError::NotAMapping { on_the_way: false }
        }
        .message(),
        "Cannot set value at path 's': not a mapping"
    );
    assert_eq!(
        ResolveError::Path {
            path: "s.b.c".to_string(),
            error: PathError::NotAMapping { on_the_way: true }
        }
        .message(),
        "Cannot navigate path 's.b.c': not a mapping"
    );
    assert_eq!(
        ResolveError::Path { path: "m.b".to_string(), error: PathError::PathNotFound }.message(),
        "Path not found: m.b"
    );
    assert_eq!(
        ResolveError::TooManyReferences.message(),
        "Too many value references to resolve"
    );
}

#[test]
fn resolve_in_order_follows_the_order() {
    let renderer = MiniJinjaRenderer::new();
    let values = mapping(vec![("a", text("base")), ("b", text("{{ a }}-x")), ("c", text("{{ b }}-y"))]);
    let templates = fields(vec![("b", text("{{ a }}-x")), ("c", text("{{ b }}-y"))]);
    let in_order = vec![ValuePath::new("a"), ValuePath::new("b"), ValuePath::new("c")];
    assert_eq!(
        resolve_in_order(values.clone(), &templates, &in_order, &renderer).unwrap(),
        mapping(vec![("a", text("base")), ("b", text("base-x")), ("c", text("base-x-y"))])
    );
    let against = vec![ValuePath::new("c"), ValuePath::new("b")];
    assert_eq!(
        resolve_in_order(values, &templates, &against, &renderer).unwrap(),
        mapping(vec![("a", text("base")), ("b", text("base-x")), ("c", text("{{ a }}-x-y"))])
    );
}

#[test]
fn a_top_level_that_is_no_mapping_cannot_take_the_text() {
    assert_eq!(
        resolve_value_references(text("{{ x }}")),
        Err(ResolveError::Path { path: "".to_string(), error: PathError::NotAMapping { on_the_way: false } })
    );
    assert_eq!(resolve_value_references(text("plain")), Ok(text("plain")));
    assert_eq!(resolve_value_references(Value::Null), Ok(Value::Null));
}

#[test]
fn record_template_keeps_what_is_no_template() {
    let mut templates = Mapping::new();
    record_template(&mut templates, "a", "{{ x }}", true);
    record_template(&mut templates, "b", "plain", false);
    record_template(&mut templates, "c", "{{ y }}", true);
    record_template(&mut templates, "a", "{{ z }}", true);
    assert_eq!(templates, fields(vec![("a", text("{{ z }}")), ("c", text("{{ y }}"))]));
}

#[test]
fn a_named_cycle_repeats_only_its_first_path() {
    let values = mapping(vec![
        ("start", text("{{ a }}")),
        ("a", text("{{ b }} {{ start }}")),
        ("b", text("{{ c }}")),
        ("c", text("{{ d }} {{ a }}")),
        ("d", text("{{ b }}")),
    ]);
    let chain = cycle_of(resolve_value_references(values).unwrap_err());
    assert!(chain.len() >= 3);
    assert_eq!(chain.first(), chain.last());
    let mut inner: Vec<&String> = chain[..chain.len() - 1].iter().collect();
    inner.sort();
    inner.dedup();
    assert_eq!(inner.len(), chain.len() - 1);
}

#[test]
fn a_document_without_strings_needs_no_extractor() {
    struct Never;
    impl ReferenceExtractor for Never {
        fn extract_references(&self, _template_str: &str) -> Vec<String> {
            panic!("nothing to extract from")
        }
        fn contains_template(&self, _s: &str) -> bool {
            panic!("nothing to look at")
        }
    }
    impl TemplateRenderer for Never {
        fn render(&self, _template_str: &str, _context: &Value) -> Result<String, RenderError> {
            panic!("nothing to render")
        }
    }
    let values = mapping(vec![
        ("n", number("1")),
        ("flags", list(vec![Value::Bool(false), Value::Null])),
        ("m", mapping(vec![("deep", list(vec![]))])),
    ]);
    assert_eq!(resolve_with(values.clone(), &Never, &Never), Ok(values));
}

#[test]
fn the_text_of_a_render_error_is_what_the_renderer_said() {
    let error = ResolveError::Render { template: "{{ x }}".to_string(), cause: "boom".to_string() };
    assert_eq!(error.message(), "boom");
    let values = mapping(vec![("a", text("{{ b.c.d }}"))]);
    let error = resolve_value_references(values).unwrap_err();
    assert!(
        error.message().starts_with("Failed to render value reference '{{ b.c.d }}': "),
        "{}",
        error.message()
    );
}

#[test]
fn what_is_no_template_stays_as_it_is() {
    let values = mapping(vec![
        ("name", text("x")),
        ("count", number("3")),
        ("flag", Value::Bool(false)),
        ("nothing", Value::Null),
        ("items", list(vec![text("plain"), number("1"), mapping(vec![("k", text("v"))])])),
        (
            "nested",
            mapping(vec![
                ("plain", text("stays")),
                ("made", text("{{ name }}-{{ count }}")),
                ("deep", mapping(vec![("leaf", text("{{ nested.made }}!"))])),
            ]),
        ),
    ]);
    let resolved = resolve_value_references(values.clone()).unwrap();
    for key in ["name", "count", "flag", "nothing", "items"] {
        assert_eq!(resolved.get(key), values.get(key), "{}", key);
    }
    let nested = resolved.get("nested").unwrap();
    assert_eq!(nested.get("plain").unwrap(), &text("stays"));
    assert_eq!(nested.get("made").unwrap(), &text("x-3"));
    assert_eq!(nested.get("deep").unwrap().get("leaf").unwrap(), &text("x-3!"));
}
