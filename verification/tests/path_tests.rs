use value_resolver::path::{get_value_at_path, set_value_at_path, PathError};
use value_resolver::text::{contains_char, decimal_text, join_text, split_text};
use value_resolver::value::{Mapping, Number, Value};

fn text(s: &str) -> Value {
    Value::String(s.to_string())
}

fn mapping(entries: Vec<(&str, Value)>) -> Value {
    let mut m = Mapping::new();
    for (key, value) in entries {
        m.insert(key.to_string(), value);
    }
    Value::Mapping(m)
}

fn list(items: Vec<Value>) -> Value {
    Value::Sequence(items)
}

fn sample() -> Value {
    mapping(vec![
        ("name", text("n")),
        (
            "servers",
            list(vec![
                mapping(vec![("host", text("a")), ("ports", list(vec![text("80"), text("443")]))]),
                mapping(vec![("host", text("b"))]),
            ]),
        ),
        ("a", mapping(vec![("b", mapping(vec![("c", text("deep"))]))])),
        ("grid", list(vec![list(vec![text("00"), text("01")]), list(vec![text("10")])])),
        ("", text("empty key")),
    ])
}

#[test]
fn get_follows_fields_and_indices() {
    let doc = sample();
    assert_eq!(get_value_at_path(&doc, "name"), Some(&text("n")));
    assert_eq!(get_value_at_path(&doc, "a.b.c"), Some(&text("deep")));
    assert_eq!(get_value_at_path(&doc, "servers[0].host"), Some(&text("a")));
    assert_eq!(get_value_at_path(&doc, "servers[1].host"), Some(&text("b")));
    assert_eq!(get_value_at_path(&doc, "servers[0].ports[1]"), Some(&text("443")));
    assert_eq!(get_value_at_path(&doc, "grid[0][1]"), Some(&text("01")));
    assert_eq!(get_value_at_path(&doc, "grid[1][0]"), Some(&text("10")));
    assert_eq!(get_value_at_path(&doc, "grid[01][0]"), Some(&text("10")));
    assert_eq!(get_value_at_path(&doc, ""), Some(&text("empty key")));
    assert_eq!(
        get_value_at_path(&doc, "a.b"),
        Some(&mapping(vec![("c", text("deep"))]))
    );
}

#[test]
fn get_makes_nothing_up() {
    let doc = sample();
    assert_eq!(get_value_at_path(&doc, "missing"), None);
    assert_eq!(get_value_at_path(&doc, "a.missing.c"), None);
    assert_eq!(get_value_at_path(&doc, "name.more"), None);
    assert_eq!(get_value_at_path(&doc, "servers[2].host"), None);
    assert_eq!(get_value_at_path(&doc, "servers[99999999999999999999999999].host"), None);
    assert_eq!(get_value_at_path(&doc, "name[0]"), None);
    assert_eq!(get_value_at_path(&doc, "servers[]"), None);
    assert_eq!(get_value_at_path(&doc, "servers[x]"), None);
    assert_eq!(get_value_at_path(&doc, "servers[0"), None);
    assert_eq!(get_value_at_path(&doc, "servers[0]x"), None);
    assert_eq!(get_value_at_path(&doc, "servers[-1]"), None);
    assert_eq!(get_value_at_path(&doc, "grid[0][2]"), None);
    assert_eq!(get_value_at_path(&doc, "a..c"), None);
    assert_eq!(get_value_at_path(&text("scalar"), "a"), None);
}

#[test]
fn set_replaces_or_adds_the_last_field() {
    let mut doc = sample();
    assert_eq!(set_value_at_path(&mut doc, "a.b.c", text("new")), Ok(()));
    assert_eq!(get_value_at_path(&doc, "a.b.c"), Some(&text("new")));
    assert_eq!(set_value_at_path(&mut doc, "a.b.d", text("added")), Ok(()));
    assert_eq!(
        get_value_at_path(&doc, "a.b"),
        Some(&mapping(vec![("c", text("new")), ("d", text("added"))]))
    );
    assert_eq!(set_value_at_path(&mut doc, "top", Value::Null), Ok(()));
    assert_eq!(get_value_at_path(&doc, "top"), Some(&Value::Null));
    assert_eq!(set_value_at_path(&mut doc, "name", list(vec![])), Ok(()));
    assert_eq!(get_value_at_path(&doc, "name"), Some(&list(vec![])));
    assert_eq!(get_value_at_path(&doc, "servers[1].host"), Some(&text("b")));
}

#[test]
fn set_creates_nothing_on_the_way() {
    let mut doc = sample();
    let before = doc.clone();
    assert_eq!(
        set_value_at_path(&mut doc, "missing.field", text("x")),
        Err(PathError::PathNotFound)
    );
    assert_eq!(
        set_value_at_path(&mut doc, "a.missing.field", text("x")),
        Err(PathError::PathNotFound)
    );
    assert_eq!(
        set_value_at_path(&mut doc, "name.field", text("x")),
        Err(PathError::NotAMapping { on_the_way: false })
    );
    assert_eq!(
        set_value_at_path(&mut doc, "a.b.c.d", text("x")),
        Err(PathError::NotAMapping { on_the_way: false })
    );
    assert_eq!(
        set_value_at_path(&mut doc, "servers.host", text("x")),
        Err(PathError::NotAMapping { on_the_way: false })
    );
    assert_eq!(
        set_value_at_path(&mut doc, "name.field.more", text("x")),
        Err(PathError::NotAMapping { on_the_way: true })
    );
    assert_eq!(
        set_value_at_path(&mut doc, "servers.host.name", text("x")),
        Err(PathError::NotAMapping { on_the_way: true })
    );
    assert_eq!(doc, before);
    let mut scalar = text("s");
    assert_eq!(set_value_at_path(&mut scalar, "a", text("x")), Err(PathError::NotAMapping { on_the_way: false }));
    assert_eq!(
        set_value_at_path(&mut scalar, "a.b", text("x")),
        Err(PathError::NotAMapping { on_the_way: true })
    );
    assert_eq!(scalar, text("s"));
}

#[test]
fn set_takes_brackets_as_part_of_the_name() {
    let mut doc = mapping(vec![("items", list(vec![text("a")]))]);
    assert_eq!(set_value_at_path(&mut doc, "items[0]", text("x")), Ok(()));
    assert_eq!(
        doc,
        mapping(vec![("items", list(vec![text("a")])), ("items[0]", text("x"))])
    );
}

#[test]
fn split_gives_the_pieces_between_separators() {
    assert_eq!(split_text("a.b.c", '.'), vec!["a", "b", "c"]);
    assert_eq!(split_text("abc", '.'), vec!["abc"]);
    assert_eq!(split_text("", '.'), vec![""]);
    assert_eq!(split_text(".", '.'), vec!["", ""]);
    assert_eq!(split_text("a..b.", '.'), vec!["a", "", "b", ""]);
    assert_eq!(split_text("é.ü", '.'), vec!["é", "ü"]);
    for sample in ["a.b.c", "", ".", "..", "a..b.", "no dots", ".lead", "é.ü.€"] {
        let expected: Vec<String> = sample.split('.').map(|p| p.to_string()).collect();
        assert_eq!(split_text(sample, '.'), expected);
    }
}

#[test]
fn join_puts_the_separator_between() {
    let parts = vec!["a".to_string(), "b".to_string(), "a".to_string()];
    assert_eq!(join_text(&parts, " -> "), "a -> b -> a");
    assert_eq!(join_text(&parts[..1].to_vec(), " -> "), "a");
    assert_eq!(join_text(&Vec::new(), " -> "), "");
    assert_eq!(join_text(&vec![String::new(), String::new()], ","), ",");
}

#[test]
fn decimal_text_writes_the_numeral() {
    assert_eq!(decimal_text(0), "0");
    assert_eq!(decimal_text(7), "7");
    assert_eq!(decimal_text(10), "10");
    assert_eq!(decimal_text(1234567890), "1234567890");
    assert_eq!(decimal_text(usize::MAX), usize::MAX.to_string());
    for n in [9usize, 11, 99, 100, 101, 4096, 65535] {
        assert_eq!(decimal_text(n), n.to_string());
    }
}

#[test]
fn contains_char_looks_for_one_character() {
    assert!(contains_char("a=b", '='));
    assert!(!contains_char("ab", '='));
    assert!(!contains_char("", '='));
    assert!(contains_char("é=ü", 'ü'));
}

#[test]
fn numbers_compare_by_their_literal() {
    let one = Number::new("1").unwrap();
    assert_eq!(one.clone(), one);
    assert_ne!(Number::new("1.0").unwrap(), one);
    assert_eq!(one.as_str(), "1");
}
