use std::collections::HashMap;

use mustache_processor::error::{Error, ParseErrorKind, RenderErrorKind};
use mustache_processor::partial::PartialResolver;
use mustache_processor::value::{finish_map, finish_seq, Value, ValueError, ValueMap};
use mustache_processor::Mustache;

struct MapResolver(HashMap<&'static str, &'static str>);
impl PartialResolver for MapResolver {
    fn resolve(&self, name: &str) -> Option<String> {
        self.0.get(name).map(|s| s.to_string())
    }
}

#[test]
fn parse_error_text_has_position_and_message() {
    let err = Mustache::new()
        .render_str("ab\n  {{#sec}}x", &Value::Null)
        .unwrap_err();
    match &err {
        Error::Parse(e) => {
            assert_eq!(e.kind, ParseErrorKind::UnbalancedSection { name: "sec".to_string() });
            assert_eq!((e.line, e.column), (2, 3));
            assert_eq!(
                e.to_string(),
                "parse error at line 2, column 3: unbalanced section: sec"
            );
        }
        other => panic!("expected a parse error, got {other:?}"),
    }
    assert_eq!(
        err.to_string(),
        "parse error at line 2, column 3: unbalanced section: sec"
    );
}

#[test]
fn parse_error_texts_of_each_kind() {
    let m = Mustache::new();
    let cases = [
        ("{{name", "parse error at line 1, column 1: unexpected end of template while scanning a tag"),
        ("x{{=<% %>", "parse error at line 1, column 2: unexpected end of template while scanning a tag"),
        ("{{=<%%>=}}", "parse error at line 1, column 1: invalid delimiter change syntax"),
        ("{{ }}", "parse error at line 1, column 1: tag name must not be empty"),
    ];
    for (template, text) in cases {
        let err = m.render_str(template, &Value::Null).unwrap_err();
        assert!(matches!(err, Error::Parse(_)));
        assert_eq!(err.to_string(), text);
    }
}

#[test]
fn render_error_texts_of_each_kind() {
    let strict = Mustache::new().with_strict(true);
    let err = strict.render_str("\n {{missing}}", &Value::Null).unwrap_err();
    assert_eq!(
        err.to_string(),
        "render error at line 2, column 2: undefined variable: missing"
    );

    let err = strict.render_str("{{>nowhere}}", &Value::Null).unwrap_err();
    assert_eq!(
        err.to_string(),
        "render error at line 1, column 1: partial not found: nowhere"
    );

    let mut partials = HashMap::new();
    partials.insert("broken", "ok\n{{#open}}");
    let with_partials =
        Mustache::new().with_partial_resolver(Box::new(MapResolver(partials)));
    let err = with_partials.render_str("{{>broken}}", &Value::Null).unwrap_err();
    match &err {
        Error::Render(e) => {
            assert_eq!(
                e.kind,
                RenderErrorKind::PartialParseError {
                    name: "broken".to_string(),
                    message: "unbalanced section: open".to_string()
                }
            );
            assert_eq!((e.line, e.column), (2, 1));
        }
        other => panic!("expected a render error, got {other:?}"),
    }
    assert_eq!(
        err.to_string(),
        "render error at line 2, column 1: failed to parse partial 'broken': unbalanced section: open"
    );
}

#[test]
fn nesting_depth_error_text() {
    let mut template = String::new();
    for _ in 0..101 {
        template.push_str("{{#t}}");
    }
    for _ in 0..101 {
        template.push_str("{{/t}}");
    }
    let mut map = ValueMap::new();
    map.insert("t", Value::Bool(true));
    let err = Mustache::new()
        .render_str(&template, &Value::Object(map))
        .unwrap_err();
    match &err {
        Error::Render(e) => {
            assert_eq!(e.kind, RenderErrorKind::MaxNestingDepthExceeded { depth: 101 });
            assert_eq!(e.message, "maximum nesting depth (101) exceeded");
        }
        other => panic!("expected a render error, got {other:?}"),
    }
}

#[test]
fn errors_convert_into_error() {
    let parse_err = match Mustache::new().parse("{{#a}}") {
        Err(e) => e,
        Ok(_) => panic!("expected a parse error"),
    };
    let e: Error = Error::from(parse_err.clone());
    assert_eq!(e, Error::Parse(parse_err));

    let render_err = {
        let m = Mustache::new().with_strict(true);
        let t = m.parse("{{x}}").unwrap();
        m.render(&t, &Value::Null).unwrap_err()
    };
    let e: Error = render_err.clone().into();
    assert_eq!(e, Error::Render(render_err));
}

fn two_items() -> Vec<Value> {
    vec![Value::Integer(1), Value::Integer(2)]
}

fn one_entry() -> ValueMap {
    let mut inner = ValueMap::new();
    inner.insert("x", Value::Integer(1));
    inner
}

#[test]
fn finish_seq_wraps_variants() {
    assert_eq!(finish_seq(two_items(), None), Value::Array(two_items()));
    match finish_seq(two_items(), Some("Pair")) {
        Value::Object(m) => {
            assert_eq!(m.len(), 1);
            assert_eq!(m.get("Pair"), Some(&Value::Array(two_items())));
        }
        other => panic!("expected a map, got {other:?}"),
    }
}

#[test]
fn finish_map_wraps_variants() {
    assert_eq!(finish_map(one_entry(), None), Value::Object(one_entry()));
    match finish_map(one_entry(), Some("Point")) {
        Value::Object(m) => {
            assert_eq!(m.len(), 1);
            assert_eq!(m.get("Point"), Some(&Value::Object(one_entry())));
        }
        other => panic!("expected a map, got {other:?}"),
    }
}

#[test]
fn value_error_text_is_its_message() {
    let e = ValueError::new("integer out of range".to_string());
    assert_eq!(e.to_string(), "integer out of range");
}
