use value_resolver::renderer::{encode, MiniJinjaRenderer};
use value_resolver::traits::TemplateRenderer;
use value_resolver::value::{Mapping, Number, Value};

fn text(s: &str) -> Value {
    Value::String(s.to_string())
}

fn mapping(fields: Vec<(&str, Value)>) -> Value {
    let mut m = Mapping::new();
    for (key, value) in fields {
        m.insert(key.to_string(), value);
    }
    Value::Mapping(m)
}

#[test]
fn encode_writes_flow_style() {
    let doc = mapping(vec![
        ("name", text("wor\"ld")),
        ("count", Value::Number(Number::new("42").unwrap())),
        ("flags", Value::Sequence(vec![Value::Bool(true), Value::Null, Value::Bool(false)])),
        ("nested", mapping(vec![("k", text("é\n"))])),
    ]);
    assert_eq!(
        encode(&doc),
        "{\"name\": \"wor\\U00000022ld\",\"count\": 42,\"flags\": [true,null,false],\"nested\": {\"k\": \"\\U000000E9\\U0000000A\"}}"
    );
    assert_eq!(encode(&mapping(vec![])), "{}");
    assert_eq!(encode(&Value::Sequence(vec![])), "[]");
}

#[test]
fn render_reads_the_context() {
    let renderer = MiniJinjaRenderer::new();
    let doc = mapping(vec![
        ("name", text("wor\"ld é")),
        ("count", Value::Number(Number::new("42").unwrap())),
        ("ratio", Value::Number(Number::new("1.5").unwrap())),
        ("items", Value::Sequence(vec![text("a"), text("b")])),
        ("nested", mapping(vec![("deep", mapping(vec![("value", text("x"))]))])),
        ("nothing", Value::Null),
        ("yes", Value::Bool(true)),
    ]);
    assert_eq!(renderer.render("{{ name | upper }}", &doc).unwrap(), "WOR\"LD É");
    assert_eq!(renderer.render("{{ count + 1 }}", &doc).unwrap(), "43");
    assert_eq!(renderer.render("{{ ratio }}", &doc).unwrap(), "1.5");
    assert_eq!(renderer.render("{{ items[1] }}-{{ nested.deep.value }}", &doc).unwrap(), "b-x");
    assert_eq!(renderer.render("{{ nothing }}|{{ yes }}", &doc).unwrap(), "none|true");
    assert_eq!(renderer.render("{{ missing | default('fallback') }}", &doc).unwrap(), "fallback");
}

#[test]
fn render_reports_a_broken_template() {
    let renderer = MiniJinjaRenderer::new();
    let doc = mapping(vec![]);
    let error = renderer.render("{{ name", &doc).unwrap_err();
    assert_eq!(error.message, "Failed to parse template: {{ name");
}

#[test]
fn render_reports_what_failed_while_rendering() {
    let renderer = MiniJinjaRenderer::new();
    let doc = mapping(vec![]);
    let error = renderer.render("{{ a.b.c }}", &doc).unwrap_err();
    assert!(
        error.message.starts_with("Failed to render value reference '{{ a.b.c }}': undefined value"),
        "{}",
        error.message
    );
}

#[test]
fn number_takes_literals_only() {
    for literal in [
        "42", "0", "-7", "+7", "1.5", "-0.5", "0.0", "-1.5e10", "1e30", "1E-7", "2.5e+3",
        "1.7976931348623157e308", "18446744073709551615", ".inf", "-.inf", ".nan",
    ] {
        assert_eq!(Number::new(literal).unwrap().as_str(), literal);
    }
    for other in [
        "", "true", "null", "abc", "~", "007", "00", "-01", "1.", ".5", "1e", "1e+", "e5", "1.5.2",
        "1 ", " 1", "1, 2", "[1]", "0x1F", "1_000", "+", "-", "--1", "+.inf", ".Inf", "inf", "nan",
        "1e5x", "٣",
    ] {
        assert!(Number::new(other).is_none(), "{:?}", other);
    }
}

#[test]
fn every_character_reaches_the_template() {
    let renderer = MiniJinjaRenderer::new();
    let samples = [
        "",
        " ",
        "plain",
        "\u{0}",
        "\t\r\n",
        "\u{7f}\u{85}\u{a0}",
        "\u{2028}\u{2029}\u{feff}",
        "\u{10ffff}\u{1f600}",
        "'single' \"double\" \\back\\",
        "# : { } [ ] , & * ! | > % @ `",
        "- not a list",
        "? key",
        "null",
        "true",
        "42",
        "~",
        "{{ not rendered twice }}",
    ];
    for sample in samples {
        let doc = mapping(vec![("v", text(sample)), (sample, text("by key"))]);
        assert_eq!(renderer.render("{{ v }}", &doc).unwrap(), sample, "{:?}", sample);
        assert_eq!(
            renderer.render("{{ v | length }}", &doc).unwrap(),
            sample.chars().count().to_string(),
            "{:?}",
            sample
        );
    }
}

#[test]
fn numbers_keep_their_kind() {
    let renderer = MiniJinjaRenderer::new();
    for (literal, twice) in [("21", "42"), ("-4", "-8"), ("1.5", "3.0"), ("0", "0")] {
        let doc = mapping(vec![("n", Value::Number(Number::new(literal).unwrap()))]);
        assert_eq!(renderer.render("{{ n * 2 }}", &doc).unwrap(), twice);
    }
    let doc = mapping(vec![("n", Value::Number(Number::new("18446744073709551615").unwrap()))]);
    assert_eq!(renderer.render("{{ n }}", &doc).unwrap(), "18446744073709551615");
}

#[test]
fn deep_documents_are_written_out() {
    let mut doc = text("leaf");
    for _ in 0..40 {
        doc = mapping(vec![("k", Value::Sequence(vec![doc]))]);
    }
    let renderer = MiniJinjaRenderer::new();
    let mut path = String::from("k[0]");
    for _ in 1..40 {
        path.push_str(".k[0]");
    }
    let template = format!("{{{{ {} }}}}", path);
    assert_eq!(renderer.render(&template, &doc).unwrap(), "leaf");
}

#[test]
fn every_number_literal_is_a_number_to_the_template() {
    let renderer = MiniJinjaRenderer::new();
    for literal in ["42", "0", "-7", "+7", "1.5", "-0.5", "1e3", "1E-2", "2.5e+3", ".inf", "-.inf"] {
        let doc = mapping(vec![("n", Value::Number(Number::new(literal).unwrap()))]);
        assert_eq!(renderer.render("{{ n is number }}", &doc).unwrap(), "true", "{:?}", literal);
    }
}
