use mustache_processor::error::{Error, RenderErrorKind};
use mustache_processor::partial::PartialResolver;
use mustache_processor::value::{Value, ValueMap};
use mustache_processor::Mustache;

fn unescape_html(s: &str) -> String {
    s.replace("&lt;", "<")
        .replace("&gt;", ">")
        .replace("&quot;", "\"")
        .replace("&#39;", "'")
        .replace("&amp;", "&")
}

fn map_of(key: &str, v: Value) -> Value {
    let mut map = ValueMap::new();
    map.insert(key, v);
    Value::Object(map)
}

#[test]
fn text_without_tags_passes_through() {
    let mustache = Mustache::new();
    for s in [
        "",
        "plain text",
        "line one\nline two\r\n",
        "a single { brace and } another",
        "}}{ not a tag",
        "  \t indented\n",
        "日本語のテキスト",
    ] {
        assert_eq!(mustache.render_str(s, &Value::Null).unwrap(), s);
    }
}

#[test]
fn text_passes_through_in_strict_mode_too() {
    let mustache = Mustache::new().with_strict(true);
    let s = "no tags at all";
    assert_eq!(mustache.render_str(s, &Value::Null).unwrap(), s);
}

#[test]
fn nested_sections_render_exactly_once() {
    for depth in 1usize..12 {
        let mut template = String::new();
        for i in 0..depth {
            template.push_str("{{#s");
            template.push_str(&i.to_string());
            template.push_str("}}");
        }
        template.push_str("INNER");
        for i in (0..depth).rev() {
            template.push_str("{{/s");
            template.push_str(&i.to_string());
            template.push_str("}}");
        }

        let mut value = Value::Bool(true);
        for i in (0..depth).rev() {
            let mut m = ValueMap::new();
            m.insert(&format!("s{i}"), value);
            value = Value::Object(m);
        }

        let mustache = Mustache::new();
        let out = mustache.render_str(&template, &value).unwrap();
        assert_eq!(out, "INNER");
    }
}

#[test]
fn escape_then_unescape_round_trips() {
    let mustache = Mustache::new();
    for s in [
        "",
        "plain",
        "&",
        "&amp;",
        "<tag attr=\"v\">",
        "it's & <ok>",
        "&lt;&gt;",
        "'\"'\"",
        "a-b c 0 9",
    ] {
        let escaped = mustache
            .render_str("{{v}}", &map_of("v", Value::String(s.to_string())))
            .unwrap();
        assert!(!escaped.contains('<') && !escaped.contains('>'));
        assert!(!escaped.contains('"') && !escaped.contains('\''));
        assert_eq!(unescape_html(&escaped), s);
    }
}

#[test]
fn different_strings_escape_differently() {
    let mustache = Mustache::new();
    let a = mustache
        .render_str("{{v}}", &map_of("v", Value::String("&lt;".to_string())))
        .unwrap();
    let b = mustache
        .render_str("{{v}}", &map_of("v", Value::String("<".to_string())))
        .unwrap();
    assert_eq!(a, "&amp;lt;");
    assert_eq!(b, "&lt;");
    assert_ne!(a, b);
}

fn complement_values() -> Vec<(Value, &'static str)> {
    vec![
        (Value::Null, "B"),
        (Value::Bool(false), "B"),
        (Value::Bool(true), "A"),
        (Value::Integer(0), "A"),
        (Value::Integer(-7), "A"),
        (Value::Float("0.0".to_string()), "A"),
        (Value::String(String::new()), "A"),
        (Value::String("x".to_string()), "A"),
        (Value::Array(vec![]), "B"),
        (Value::Array(vec![Value::Null]), "A"),
        (Value::Array(vec![Value::Integer(1), Value::Integer(2), Value::Integer(3)]), "AAA"),
        (Value::Object(ValueMap::new()), "A"),
    ]
}

#[test]
fn section_and_inverted_are_complementary() {
    let mustache = Mustache::new();
    for (v, expected) in complement_values() {
        let out = mustache
            .render_str("{{#key}}A{{/key}}{{^key}}B{{/key}}", &map_of("key", v))
            .unwrap();
        assert_eq!(out, expected);
        assert!(out.contains('A') ^ out.contains('B'));
    }
}

#[test]
fn section_and_inverted_on_a_missing_key() {
    let mustache = Mustache::new().with_strict(true);
    let out = mustache
        .render_str("{{#key}}A{{/key}}{{^key}}B{{/key}}", &Value::Object(ValueMap::new()))
        .unwrap();
    assert_eq!(out, "B");
}

struct AlwaysSelfResolver;

impl PartialResolver for AlwaysSelfResolver {
    fn resolve(&self, name: &str) -> Option<String> {
        let mut s = String::from("{{> ");
        s.push_str(name);
        s.push_str("}}");
        Some(s)
    }
}

struct PingPongResolver;

impl PartialResolver for PingPongResolver {
    fn resolve(&self, name: &str) -> Option<String> {
        if name == "ping" {
            Some("{{>pong}}".to_string())
        } else {
            Some("{{>ping}}".to_string())
        }
    }
}

#[test]
fn infinite_partial_recursion_terminates() {
    for name in ["a", "abc", "zzzzzzzz", "self"] {
        let mustache = Mustache::new().with_partial_resolver(Box::new(AlwaysSelfResolver));
        let mut template = String::from("{{> ");
        template.push_str(name);
        template.push_str("}}");

        let result = mustache.render_str(&template, &Value::Object(ValueMap::new()));
        match result {
            Err(Error::Render(e)) => {
                assert!(matches!(e.kind, RenderErrorKind::MaxNestingDepthExceeded { depth: 101 }));
            }
            other => panic!("expected a nesting error, got {other:?}"),
        }
    }
}

#[test]
fn mutual_partial_recursion_terminates() {
    let mustache = Mustache::new().with_partial_resolver(Box::new(PingPongResolver));
    let result = mustache.render_str("{{>ping}}", &Value::Null);
    assert!(matches!(result, Err(Error::Render(_))));
}

#[test]
fn lenient_mode_never_reports_missing_things() {
    let lenient = Mustache::new();
    let out = lenient
        .render_str("[{{a}}|{{>p}}|{{#s}}{{b}}{{/s}}]", &map_of("s", Value::Bool(true)))
        .unwrap();
    assert_eq!(out, "[||]");
}

#[test]
fn strict_success_renders_the_same_leniently() {
    let mut map = ValueMap::new();
    map.insert("name", Value::String("<World>".to_string()));
    map.insert(
        "items",
        Value::Array(vec![Value::Integer(1), Value::Integer(2)]),
    );
    let data = Value::Object(map);
    let template = "Hi {{name}}: {{#items}}{{.}},{{/items}}{{^none}}!{{/none}}";
    let strict = Mustache::new().with_strict(true).render_str(template, &data).unwrap();
    let lenient = Mustache::new().render_str(template, &data).unwrap();
    assert_eq!(strict, "Hi &lt;World&gt;: 1,2,!");
    assert_eq!(strict, lenient);
}

#[test]
fn get_after_insert_sees_the_value() {
    let mut map = ValueMap::new();
    map.insert("a", Value::Integer(1));
    map.insert("b", Value::Integer(2));
    assert_eq!(map.insert("c", Value::Integer(3)), None);
    assert_eq!(map.get("c"), Some(&Value::Integer(3)));
    assert_eq!(map.get("a"), Some(&Value::Integer(1)));
    assert_eq!(map.get("b"), Some(&Value::Integer(2)));

    assert_eq!(map.insert("b", Value::Null), Some(Value::Integer(2)));
    assert_eq!(map.get("b"), Some(&Value::Null));
    assert_eq!(map.get("a"), Some(&Value::Integer(1)));
    assert_eq!(map.get("c"), Some(&Value::Integer(3)));
    let keys: Vec<&str> = map.iter().iter().map(|(k, _)| k.as_str()).collect();
    assert_eq!(keys, vec!["a", "b", "c"]);
}
