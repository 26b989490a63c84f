use std::collections::HashMap;

use mustache_processor::error::{RenderError, RenderErrorKind};
use mustache_processor::partial::PartialResolver;
use mustache_processor::renderer::MAX_NESTING_DEPTH;
use mustache_processor::value::{Value, ValueMap};
use mustache_processor::Mustache;

struct NoopResolver;
impl PartialResolver for NoopResolver {
    fn resolve(&self, _name: &str) -> Option<String> {
        None
    }
}

struct MapResolver(HashMap<&'static str, &'static str>);
impl PartialResolver for MapResolver {
    fn resolve(&self, name: &str) -> Option<String> {
        self.0.get(name).map(|s| s.to_string())
    }
}

fn render(template: &str, data: &Value, strict: bool) -> Result<String, RenderError> {
    let mustache = Mustache::new().with_strict(strict);
    let parsed = mustache.parse(template).unwrap();
    mustache.render(&parsed, data)
}

fn render_with_resolver(
    template: &str,
    data: &Value,
    strict: bool,
    resolver: Box<dyn PartialResolver>,
) -> Result<String, RenderError> {
    let mustache = Mustache::new().with_strict(strict).with_partial_resolver(resolver);
    let parsed = mustache.parse(template).unwrap();
    mustache.render(&parsed, data)
}

#[test]
fn escapes_html_by_default() {
    let mut map = ValueMap::new();
    map.insert("name", Value::String("<b>&'\"".to_string()));
    let out = render("{{name}}", &Value::Object(map), false).unwrap();
    assert_eq!(out, "&lt;b&gt;&amp;&#39;&quot;");
}

#[test]
fn unescaped_variable_passes_through() {
    let mut map = ValueMap::new();
    map.insert("name", Value::String("<b>".to_string()));
    let out = render("{{{name}}}", &Value::Object(map), false).unwrap();
    assert_eq!(out, "<b>");
}

#[test]
fn undefined_variable_default_empty() {
    let out = render("[{{missing}}]", &Value::Object(ValueMap::new()), false).unwrap();
    assert_eq!(out, "[]");
}

#[test]
fn undefined_variable_strict_errors() {
    let err = render("[{{missing}}]", &Value::Object(ValueMap::new()), true).unwrap_err();
    assert!(matches!(err.kind, RenderErrorKind::UndefinedVariable { .. }));
}

#[test]
fn undefined_section_key_is_falsy_even_in_strict_mode() {
    let out = render("[{{#missing}}x{{/missing}}]", &Value::Object(ValueMap::new()), true).unwrap();
    assert_eq!(out, "[]");
}

#[test]
fn integer_and_float_rendering() {
    let mut map = ValueMap::new();
    map.insert("i", Value::Integer(-3));
    map.insert("f", Value::Float("2.0".to_string()));
    map.insert("g", Value::Float("1.5".to_string()));
    let out = render("{{i}} {{f}} {{g}}", &Value::Object(map), false).unwrap();
    assert_eq!(out, "-3 2.0 1.5");
}

#[test]
fn bool_and_null_rendering() {
    let mut map = ValueMap::new();
    map.insert("t", Value::Bool(true));
    map.insert("f", Value::Bool(false));
    map.insert("n", Value::Null);
    let out = render("{{t}}/{{f}}/[{{n}}]", &Value::Object(map), false).unwrap();
    assert_eq!(out, "true/false/[]");
}

#[test]
fn falsy_section_bool_false() {
    let mut map = ValueMap::new();
    map.insert("a", Value::Bool(false));
    let out = render("[{{#a}}x{{/a}}]", &Value::Object(map), false).unwrap();
    assert_eq!(out, "[]");
}

#[test]
fn falsy_section_empty_array() {
    let mut map = ValueMap::new();
    map.insert("a", Value::Array(vec![]));
    let out = render("[{{#a}}x{{/a}}]", &Value::Object(map), false).unwrap();
    assert_eq!(out, "[]");
}

#[test]
fn truthy_section_empty_string_and_empty_map() {
    let mut map = ValueMap::new();
    map.insert("s", Value::String(String::new()));
    map.insert("m", Value::Object(ValueMap::new()));
    let out = render("[{{#s}}x{{/s}}][{{#m}}y{{/m}}]", &Value::Object(map), false).unwrap();
    assert_eq!(out, "[x][y]");
}

#[test]
fn array_section_repeats_and_pushes_context() {
    let mut item1 = ValueMap::new();
    item1.insert("n", Value::Integer(1));
    let mut item2 = ValueMap::new();
    item2.insert("n", Value::Integer(2));
    let mut root = ValueMap::new();
    root.insert(
        "items",
        Value::Array(vec![Value::Object(item1), Value::Object(item2)]),
    );
    let out = render("{{#items}}({{n}}){{/items}}", &Value::Object(root), false).unwrap();
    assert_eq!(out, "(1)(2)");
}

#[test]
fn map_section_pushes_context_once() {
    let mut inner = ValueMap::new();
    inner.insert("n", Value::Integer(42));
    let mut root = ValueMap::new();
    root.insert("obj", Value::Object(inner));
    let out = render("{{#obj}}{{n}}{{/obj}}", &Value::Object(root), false).unwrap();
    assert_eq!(out, "42");
}

#[test]
fn context_stack_inner_shadows_outer() {
    let mut inner = ValueMap::new();
    inner.insert("n", Value::Integer(2));
    let mut root = ValueMap::new();
    root.insert("n", Value::Integer(1));
    root.insert("obj", Value::Object(inner));
    let out = render("{{n}}{{#obj}}{{n}}{{/obj}}{{n}}", &Value::Object(root), false).unwrap();
    assert_eq!(out, "121");
}

#[test]
fn inverted_section_renders_when_falsy() {
    let out = render("[{{^missing}}x{{/missing}}]", &Value::Object(ValueMap::new()), false).unwrap();
    assert_eq!(out, "[x]");
}

#[test]
fn inverted_section_skips_when_truthy() {
    let mut map = ValueMap::new();
    map.insert("a", Value::Bool(true));
    let out = render("[{{^a}}x{{/a}}]", &Value::Object(map), false).unwrap();
    assert_eq!(out, "[]");
}

#[test]
fn partial_without_resolver_renders_empty_by_default() {
    let out = render("[{{> p}}]", &Value::Object(ValueMap::new()), false).unwrap();
    assert_eq!(out, "[]");
}

#[test]
fn partial_missing_renders_empty_by_default() {
    let out = render_with_resolver(
        "[{{> p}}]",
        &Value::Object(ValueMap::new()),
        false,
        Box::new(NoopResolver),
    )
    .unwrap();
    assert_eq!(out, "[]");
}

#[test]
fn partial_missing_errors_in_strict_mode() {
    let err = render_with_resolver(
        "{{> p}}",
        &Value::Object(ValueMap::new()),
        true,
        Box::new(NoopResolver),
    )
    .unwrap_err();
    assert!(matches!(err.kind, RenderErrorKind::PartialNotFound { .. }));
}

#[test]
fn partial_resolves_and_renders_with_current_context() {
    let mut resolver = HashMap::new();
    resolver.insert("p", "Hello, {{name}}!");
    let mut data = ValueMap::new();
    data.insert("name", Value::String("World".to_string()));
    let out = render_with_resolver(
        "{{> p}}",
        &Value::Object(data),
        false,
        Box::new(MapResolver(resolver)),
    )
    .unwrap();
    assert_eq!(out, "Hello, World!");
}

#[test]
fn partial_self_recursion_terminates_via_data() {
    let mut resolver = HashMap::new();
    resolver.insert("node", "{{content}}<{{#nodes}}{{>node}}{{/nodes}}>");
    let mut leaf = ValueMap::new();
    leaf.insert("content", Value::String("Y".to_string()));
    leaf.insert("nodes", Value::Array(vec![]));
    let mut root = ValueMap::new();
    root.insert("content", Value::String("X".to_string()));
    root.insert("nodes", Value::Array(vec![Value::Object(leaf)]));

    let out = render_with_resolver(
        "{{>node}}",
        &Value::Object(root),
        false,
        Box::new(MapResolver(resolver)),
    )
    .unwrap();
    assert_eq!(out, "X<Y<>>");
}

#[test]
fn partial_infinite_recursion_hits_depth_guard() {
    let mut resolver = HashMap::new();
    resolver.insert("a", "{{> a}}");
    let err = render_with_resolver(
        "{{> a}}",
        &Value::Object(ValueMap::new()),
        false,
        Box::new(MapResolver(resolver)),
    )
    .unwrap_err();
    assert!(matches!(
        err.kind,
        RenderErrorKind::MaxNestingDepthExceeded { .. }
    ));
}

#[test]
fn partial_indent_applied_to_each_line() {
    let mut resolver = HashMap::new();
    resolver.insert("p", "a\nb\n");
    let out = render_with_resolver(
        "  {{> p}}\n",
        &Value::Object(ValueMap::new()),
        false,
        Box::new(MapResolver(resolver)),
    )
    .unwrap();
    assert_eq!(out, "  a\n  b\n");
}

#[test]
fn max_nesting_depth_exceeded() {
    let depth = MAX_NESTING_DEPTH + 1;
    let mut template = String::new();
    for _ in 0..depth {
        template.push_str("{{#a}}");
    }
    for _ in 0..depth {
        template.push_str("{{/a}}");
    }
    let mut inner = Value::Bool(true);
    for _ in 0..depth {
        let mut m = ValueMap::new();
        m.insert("a", inner);
        inner = Value::Object(m);
    }
    let err = render(&template, &inner, false).unwrap_err();
    assert!(matches!(
        err.kind,
        RenderErrorKind::MaxNestingDepthExceeded { .. }
    ));
}

#[test]
fn implicit_iterator_variable() {
    let out = render("Hello, {{.}}!", &Value::String("world".to_string()), false).unwrap();
    assert_eq!(out, "Hello, world!");
}

#[test]
fn implicit_iterator_in_array_section() {
    let list = Value::Array(vec![
        Value::String("a".to_string()),
        Value::String("b".to_string()),
    ]);
    let mut root = ValueMap::new();
    root.insert("list", list);
    let out = render("{{#list}}({{.}}){{/list}}", &Value::Object(root), false).unwrap();
    assert_eq!(out, "(a)(b)");
}

#[test]
fn implicit_iterator_root_level_array() {
    let mut item1 = ValueMap::new();
    item1.insert("value", Value::String("a".to_string()));
    let mut item2 = ValueMap::new();
    item2.insert("value", Value::String("b".to_string()));
    let root = Value::Array(vec![Value::Object(item1), Value::Object(item2)]);
    let out = render("{{#.}}({{value}}){{/.}}", &root, false).unwrap();
    assert_eq!(out, "(a)(b)");
}

#[test]
fn dotted_name_basic() {
    let mut person = ValueMap::new();
    person.insert("name", Value::String("Joe".to_string()));
    let mut root = ValueMap::new();
    root.insert("person", Value::Object(person));
    let out = render("{{person.name}}", &Value::Object(root), false).unwrap();
    assert_eq!(out, "Joe");
}

#[test]
fn dotted_name_never_treated_as_flat_key() {
    let mut root = ValueMap::new();
    root.insert("a.b", Value::String("c".to_string()));
    let out = render("[{{a.b}}]", &Value::Object(root), false).unwrap();
    assert_eq!(out, "[]");
}

#[test]
fn dotted_name_no_masking_by_flat_key() {
    let mut nested = ValueMap::new();
    nested.insert("b", Value::String("d".to_string()));
    let mut root = ValueMap::new();
    root.insert("a.b", Value::String("c".to_string()));
    root.insert("a", Value::Object(nested));
    let out = render("{{a.b}}", &Value::Object(root), false).unwrap();
    assert_eq!(out, "d");
}

#[test]
fn dotted_name_in_section() {
    let mut c = ValueMap::new();
    c.insert("d", Value::Bool(true));
    let mut b = ValueMap::new();
    b.insert("c", Value::Object(c));
    let mut a = ValueMap::new();
    a.insert("b", Value::Object(b));
    let mut root = ValueMap::new();
    root.insert("a", Value::Object(a));
    let out = render("{{#a.b.c.d}}Here{{/a.b.c.d}}", &Value::Object(root), false).unwrap();
    assert_eq!(out, "Here");
}

#[test]
fn partial_indent_not_applied_to_interpolated_value_newlines() {
    let mut resolver = HashMap::new();
    resolver.insert("partial", "|\n{{{content}}}\n|\n");
    let mut data = ValueMap::new();
    data.insert("content", Value::String("<\n->".to_string()));
    let out = render_with_resolver(
        "\\\n {{>partial}}\n/\n",
        &Value::Object(data),
        false,
        Box::new(MapResolver(resolver)),
    )
    .unwrap();
    assert_eq!(out, "\\\n |\n <\n->\n |\n/\n");
}
