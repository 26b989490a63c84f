use mustache_processor::error::Error;
use mustache_processor::value::{Value, ValueMap};
use mustache_processor::Mustache;

#[test]
fn render_str_parses_and_renders() {
    let mustache = Mustache::new();
    let mut data = ValueMap::new();
    data.insert("name", Value::String("World".to_string()));
    let out = mustache
        .render_str("Hello, {{name}}!", &Value::Object(data))
        .unwrap();
    assert_eq!(out, "Hello, World!");
}

#[test]
fn parse_then_render_reuses_template() {
    let mustache = Mustache::new();
    let template = mustache.parse("{{a}}-{{b}}").unwrap();

    let mut data1 = ValueMap::new();
    data1.insert("a", Value::Integer(1));
    data1.insert("b", Value::Integer(2));
    assert_eq!(
        mustache.render(&template, &Value::Object(data1)).unwrap(),
        "1-2"
    );

    let mut data2 = ValueMap::new();
    data2.insert("a", Value::Integer(9));
    data2.insert("b", Value::Integer(8));
    assert_eq!(
        mustache.render(&template, &Value::Object(data2)).unwrap(),
        "9-8"
    );
}

#[test]
fn render_str_propagates_parse_error() {
    let mustache = Mustache::new();
    let err = mustache
        .render_str("{{#a}}unclosed", &Value::Object(ValueMap::new()))
        .unwrap_err();
    assert!(matches!(err, Error::Parse(_)));
}

#[test]
fn render_str_propagates_render_error() {
    let mustache = Mustache::new().with_strict(true);
    let err = mustache
        .render_str("{{missing}}", &Value::Object(ValueMap::new()))
        .unwrap_err();
    assert!(matches!(err, Error::Render(_)));
}

struct FixedResolver(&'static str);
impl mustache_processor::partial::PartialResolver for FixedResolver {
    fn resolve(&self, _name: &str) -> Option<String> {
        Some(self.0.to_string())
    }
}

#[test]
fn with_partial_resolver_replaces_the_resolver() {
    let mustache = Mustache::new()
        .with_partial_resolver(Box::new(FixedResolver("first")))
        .with_partial_resolver(Box::new(FixedResolver("second")));
    assert_eq!(mustache.render_str("{{>p}}", &Value::Null).unwrap(), "second");
}

#[test]
fn with_strict_keeps_the_resolver() {
    let mustache = Mustache::new()
        .with_partial_resolver(Box::new(FixedResolver("kept")))
        .with_strict(true);
    assert_eq!(mustache.render_str("{{>p}}", &Value::Null).unwrap(), "kept");
}
