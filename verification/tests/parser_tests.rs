use mustache_processor::ast::{Node, SourcePosition};
use mustache_processor::error::ParseErrorKind;
use mustache_processor::parser::parse;

fn parse_ok(template: &str) -> Vec<Node> {
    parse(template).unwrap_or_else(|e| panic!("parse failed: {e:?}"))
}

#[test]
fn plain_text_only() {
    let nodes = parse_ok("hello world");
    assert_eq!(nodes, vec![Node::Text("hello world".to_string())]);
}

#[test]
fn escaped_variable() {
    let nodes = parse_ok("Hello, {{name}}!");
    assert_eq!(nodes.len(), 3);
    assert!(matches!(&nodes[1], Node::Variable { name, escape: true, .. } if name == "name"));
}

#[test]
fn unescaped_variable_triple() {
    let nodes = parse_ok("{{{raw}}}");
    assert!(matches!(&nodes[0], Node::Variable { name, escape: false, .. } if name == "raw"));
}

#[test]
fn unescaped_variable_amp() {
    let nodes = parse_ok("{{&raw}}");
    assert!(matches!(&nodes[0], Node::Variable { name, escape: false, .. } if name == "raw"));
}

#[test]
fn section_nesting() {
    let nodes = parse_ok("{{#a}}{{#b}}x{{/b}}{{/a}}");
    assert_eq!(nodes.len(), 1);
    match &nodes[0] {
        Node::Section { name, children, inverted, .. } => {
            assert_eq!(name, "a");
            assert!(!inverted);
            assert_eq!(children.len(), 1);
            match &children[0] {
                Node::Section { name, children, .. } => {
                    assert_eq!(name, "b");
                    assert_eq!(children, &vec![Node::Text("x".to_string())]);
                }
                other => panic!("unexpected node: {other:?}"),
            }
        }
        other => panic!("unexpected node: {other:?}"),
    }
}

#[test]
fn inverted_section() {
    let nodes = parse_ok("{{^a}}x{{/a}}");
    assert!(matches!(&nodes[0], Node::Section { inverted: true, .. }));
}

#[test]
fn unbalanced_section_missing_end() {
    let err = parse("{{#a}}x").unwrap_err();
    assert!(matches!(err.kind, ParseErrorKind::UnbalancedSection { .. }));
}

#[test]
fn unbalanced_section_mismatched_end() {
    let err = parse("{{#a}}x{{/b}}").unwrap_err();
    assert!(matches!(err.kind, ParseErrorKind::UnbalancedSection { .. }));
}

#[test]
fn unexpected_eof_in_tag() {
    let err = parse("{{name").unwrap_err();
    assert!(matches!(err.kind, ParseErrorKind::UnexpectedEof));
}

#[test]
fn comment_standalone_removed() {
    let nodes = parse_ok("before\n{{! comment }}\nafter");
    assert_eq!(
        nodes,
        vec![
            Node::Text("before\n".to_string()),
            Node::Text("after".to_string()),
        ]
    );
}

#[test]
fn comment_inline_not_trimmed() {
    let nodes = parse_ok("a {{! c }} b");
    assert_eq!(
        nodes,
        vec![Node::Text("a ".to_string()), Node::Text(" b".to_string())]
    );
}

#[test]
fn section_standalone_trims_whitespace_lines() {
    let nodes = parse_ok("{{#a}}\nx\n{{/a}}\n");
    match &nodes[0] {
        Node::Section { children, .. } => {
            assert_eq!(children, &vec![Node::Text("x\n".to_string())]);
        }
        other => panic!("unexpected node: {other:?}"),
    }
}

#[test]
fn delimiter_change() {
    let nodes = parse_ok("{{=<% %>=}}<%name%>{{literal}}");
    assert!(matches!(&nodes[0], Node::Variable { name, .. } if name == "name"));
    assert_eq!(nodes[1], Node::Text("{{literal}}".to_string()));
}

#[test]
fn delimiter_change_invalid_syntax() {
    let err = parse("{{=only=}}").unwrap_err();
    assert!(matches!(err.kind, ParseErrorKind::UnknownDelimiterSyntax));
}

#[test]
fn partial_standalone_captures_indent() {
    let nodes = parse_ok("  {{> p}}\n");
    assert!(matches!(&nodes[0], Node::Partial { name, indent, .. } if name == "p" && indent == "  "));
}

#[test]
fn empty_tag_name_errors() {
    let err = parse("{{}}").unwrap_err();
    assert!(matches!(err.kind, ParseErrorKind::EmptyTagName));
}

#[test]
fn position_tracking() {
    let nodes = parse_ok("a\nb{{name}}");
    match &nodes[1] {
        Node::Variable { pos, .. } => {
            assert_eq!(pos.line, 2);
            assert_eq!(pos.column, 2);
        }
        other => panic!("unexpected node: {other:?}"),
    }
}

#[test]
fn tag_after_another_tag_on_its_line_is_not_standalone() {
    let nodes = parse_ok("  {{data}}  {{> partial}}\n");
    assert_eq!(
        nodes,
        vec![
            Node::Text("  ".to_string()),
            Node::Variable {
                name: "data".to_string(),
                escape: true,
                pos: SourcePosition { line: 1, column: 3 }
            },
            Node::Text("  ".to_string()),
            Node::Partial {
                name: "partial".to_string(),
                indent: String::new(),
                pos: SourcePosition { line: 1, column: 13 }
            },
            Node::Text("\n".to_string()),
        ]
    );
}

#[test]
fn crlf_ends_a_standalone_line() {
    let nodes = parse_ok("|\r\n{{#b}}\r\n{{/b}}\r\n|");
    assert_eq!(nodes.len(), 3);
    assert_eq!(nodes[0], Node::Text("|\r\n".to_string()));
    assert!(matches!(&nodes[1], Node::Section { name, children, inverted: false, .. }
        if name == "b" && children.is_empty()));
    assert_eq!(nodes[2], Node::Text("|".to_string()));
}

#[test]
fn standalone_after_a_standalone_line() {
    let nodes = parse_ok("{{#a}}\n{{/a}}\nx");
    assert_eq!(nodes.len(), 2);
    assert_eq!(nodes[1], Node::Text("x".to_string()));
}

#[test]
fn two_tags_on_one_line_keep_the_line() {
    let nodes = parse_ok("{{#a}}{{/a}}\n");
    assert_eq!(nodes.len(), 2);
    assert_eq!(nodes[1], Node::Text("\n".to_string()));
}

#[test]
fn blank_plain_tag_is_an_empty_name() {
    let err = parse("{{  }}").unwrap_err();
    assert_eq!(err.kind, ParseErrorKind::EmptyTagName);
    let nodes = parse_ok("{{ \t name \t }}");
    assert!(matches!(&nodes[0], Node::Variable { name, escape: true, .. } if name == "name"));
}

#[test]
fn lone_cr_does_not_end_a_line() {
    let nodes = parse_ok("{{#a}}\rx{{/a}}");
    match &nodes[0] {
        Node::Section { children, .. } => {
            assert_eq!(children, &vec![Node::Text("\rx".to_string())]);
        }
        other => panic!("expected a section, got {other:?}"),
    }
}
