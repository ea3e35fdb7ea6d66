use pccc::ast::{Node, NodeKind, Span};
use pccc::errors::ParseError;
use pccc::Value;

#[test]
fn value_renders_as_text() {
    assert_eq!(Value::Str("hello".to_string()).render(), "hello");
    assert_eq!(Value::Char('é').render(), "é");
    assert_eq!(Value::Char('🦀').render(), "🦀");
    assert_eq!(Value::Nothing.render(), "None");
    let list = Value::List(vec![
        Value::Char('a'),
        Value::Str("bc".to_string()),
        Value::List(vec![Value::Char('d'), Value::Nothing]),
    ]);
    assert_eq!(list.render(), "abcdNone");
    assert_eq!(Value::List(vec![]).render(), "");
}

#[test]
fn value_kinds() {
    assert_eq!(Value::Str(String::new()).kind(), "Str");
    assert_eq!(Value::Char('x').kind(), "Char");
    assert_eq!(Value::List(vec![]).kind(), "List");
    assert_eq!(Value::Nothing.kind(), "None");
}

#[test]
fn value_unwrap_list() {
    let list = Value::List(vec![Value::Char('a'), Value::Str("bc".to_string())]);
    assert_eq!(list.unwrap_list(), vec![Value::Char('a'), Value::Str("bc".to_string())]);
    assert!(Value::Char('a').unwrap_list().is_empty());
    assert!(Value::Nothing.unwrap_list().is_empty());
    let copy = list.clone();
    assert_eq!(copy, list);
}

#[test]
fn node_construction() {
    let leaf = Node::new(NodeKind::Terminal("a".to_string()), Span { start: 0, end: 1 }, "a".to_string());
    assert!(leaf.is_terminal());
    assert!(!leaf.is_non_terminal());
    assert!(leaf.children.is_empty());
    let parent = Node::new(NodeKind::NonTerminal("R".to_string()), Span { start: 0, end: 1 }, "a".to_string())
        .with_children(vec![leaf.clone()]);
    assert!(parent.is_non_terminal());
    assert_eq!(parent.children.len(), 1);
    assert_eq!(parent.children[0], leaf);
    assert_eq!(parent.clone(), parent);
}

#[test]
fn parse_error_collects_expected() {
    let mut e = ParseError::new("expected 'a'".to_string(), 3);
    assert_eq!(e.position, 3);
    assert!(e.expected.is_empty());
    e.add_expected("a".to_string());
    e.add_expected("b".to_string());
    assert_eq!(e.expected, vec!["a", "b"]);
    assert_eq!(e.message, "expected 'a'");
    let c = e.clone();
    assert_eq!(c.expected, e.expected);
}
