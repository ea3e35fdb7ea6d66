use pccc::ast::{NodeKind, Span};
use pccc::expr::{lit_, ref_, satisfy_, ParserExpr};
use pccc::{alt, digit, letter, lit, many, opt, rule_ref, satisfy, space, CharClass, Grammar};

#[test]
fn parse_consumes_a_prefix() {
    let mut g = Grammar::new();
    g.define("Number", pccc::parser::seq(vec![digit(), many(digit())]));
    let text = "12345xyz";
    let r = g.parse("Number", text).unwrap();
    assert_eq!(format!("{}{}", r.node.value, r.rest), text);
    assert_eq!(r.node.value, "12345");
    assert_eq!(r.rest, "xyz");
    assert_eq!(r.node.span, Span { start: 0, end: 5 });
}

#[test]
fn parse_spans_count_bytes() {
    let mut g = Grammar::new();
    g.define("Word", many(satisfy(CharClass::IsNot(' '))));
    let r = g.parse("Word", "테스트 문자열").unwrap();
    assert_eq!(r.node.value, "테스트");
    assert_eq!(r.rest, " 문자열");
    assert_eq!(r.node.span, Span { start: 0, end: 9 });
}

#[test]
fn parse_caches_its_success() {
    let mut g = Grammar::new();
    g.define("A", lit("a"));
    assert_eq!(g.memo_size(), 0);
    assert!(g.parse("A", "abc").is_ok());
    assert_eq!(g.memo_size(), 1);
}

#[test]
fn parse_resets_the_cache() {
    let mut g = Grammar::new();
    g.define("Term", digit());
    g.define(
        "Expr",
        pccc::parser::seq(vec![rule_ref("Term".to_string()), many(pccc::parser::seq(vec![lit("+"), rule_ref("Term".to_string())]))]),
    );
    assert!(g.parse("Expr", "1+2+3").is_ok());
    let first = g.memo_size();
    assert_eq!(first, 4);
    assert!(g.parse("Expr", "1+2+3").is_ok());
    assert_eq!(g.memo_size(), first);
    assert!(g.parse("Term", "x").is_err());
    assert_eq!(g.memo_size(), 0);
}

#[test]
fn undefined_rule_is_an_error() {
    let mut g = Grammar::new();
    let err = g.parse("Nope", "abc").unwrap_err();
    assert_eq!(err.message, "rule 'Nope' not defined");
    assert_eq!(err.position, 0);
    assert!(err.expected.is_empty());
    assert_eq!(g.memo_size(), 0);
}

#[test]
fn left_recursion_is_reported() {
    let mut g = Grammar::new();
    g.define("A", pccc::parser::seq(vec![rule_ref("A".to_string()), lit("a")]));
    let err = g.parse("A", "aaa").unwrap_err();
    assert_eq!(err.message, "rule 'A' recurses without consuming input");
    assert_eq!(err.position, 0);
}

#[test]
fn repetition_without_progress_is_reported() {
    let mut g = Grammar::new();
    g.define("R", many(opt(lit("x"))));
    let err = g.parse("R", "xxy").unwrap_err();
    assert_eq!(err.message, "repetition does not consume input");
    assert_eq!(err.position, 2);
}

#[test]
fn alternative_takes_the_first_match() {
    let mut g = Grammar::new();
    let r = alt(lit("ab"), lit("a")).run(&mut g, "abc").unwrap();
    assert_eq!(r.node.value, "ab");
    assert_eq!(r.rest, "c");
    let r = alt(lit("a"), lit("ab")).run(&mut g, "abc").unwrap();
    assert_eq!(r.node.value, "a");
    assert_eq!(r.rest, "bc");
}

#[test]
fn alternative_order_decides_greed() {
    let mut g = Grammar::new();
    g.define("Lazy", alt(lit("a"), pccc::parser::seq(vec![lit("a"), rule_ref("Lazy".to_string())])));
    g.define("Greedy", alt(pccc::parser::seq(vec![lit("a"), rule_ref("Greedy".to_string())]), lit("a")));
    let r = g.parse("Lazy", "aaaa").unwrap();
    assert_eq!(r.rest, "aaa");
    let r = g.parse("Greedy", "aaaa").unwrap();
    assert_eq!(r.rest, "");
    assert_eq!(r.node.value, "aaaa");
}

#[test]
fn alternative_merges_expected_tokens() {
    let mut g = Grammar::new();
    let err = alt(lit("x"), alt(lit("y"), lit("z"))).run(&mut g, "w").unwrap_err();
    assert_eq!(err.message, "expected 'x'");
    assert_eq!(err.expected, vec!["x", "y", "z"]);
}

#[test]
fn many_never_fails() {
    let mut g = Grammar::new();
    let r = many(lit("x")).run(&mut g, "abc").unwrap();
    assert_eq!(r.rest, "abc");
    assert_eq!(r.node.value, "");
    assert!(r.node.children.is_empty());
    assert_eq!(r.node.span.start, r.node.span.end);
    let r = many(lit("ab")).run(&mut g, "ababa").unwrap();
    assert_eq!(r.rest, "a");
    assert_eq!(r.node.children.len(), 2);
}

#[test]
fn optional_never_fails() {
    let mut g = Grammar::new();
    let r = opt(lit("x")).run(&mut g, "abc").unwrap();
    assert_eq!(r.rest, "abc");
    assert_eq!(r.node.value, "");
    assert_eq!(r.node.span.start, r.node.span.end);
    let r = opt(lit("ab")).run(&mut g, "abc").unwrap();
    assert_eq!(r.rest, "c");
    assert_eq!(r.node.value, "ab");
}

#[test]
fn literal_error_names_the_literal() {
    let mut g = Grammar::new();
    let err = lit("hello").run(&mut g, "help").unwrap_err();
    assert_eq!(err.message, "expected 'hello'");
    assert_eq!(err.position, 0);
    assert_eq!(err.expected, vec!["hello"]);
    let err = lit("ab").run(&mut g, "a").unwrap_err();
    assert_eq!(err.message, "expected 'ab'");
}

#[test]
fn satisfy_takes_one_multibyte_char() {
    let mut g = Grammar::new();
    let r = satisfy(CharClass::Any).run(&mut g, "🦀 crab").unwrap();
    assert_eq!(r.rest, " crab");
    assert_eq!(r.node.value, "🦀");
    assert_eq!(r.node.span.end - r.node.span.start, 4);
    let err = satisfy(CharClass::Any).run(&mut g, "").unwrap_err();
    assert_eq!(err.message, "unexpected end of input");
}

#[test]
fn satisfy_error_names_the_char() {
    let mut g = Grammar::new();
    let err = digit().run(&mut g, "é1").unwrap_err();
    assert_eq!(err.message, "unexpected char 'é'");
    assert_eq!(err.expected, vec!["character satisfying predicate"]);
}

#[test]
fn unicode_classes() {
    let mut g = Grammar::new();
    assert!(letter().run(&mut g, "é").is_ok());
    assert!(letter().run(&mut g, "中").is_ok());
    assert!(letter().run(&mut g, "-").is_err());
    assert!(space().run(&mut g, "\u{3000}x").is_ok());
    assert!(space().run(&mut g, "x").is_err());
    assert!(satisfy(CharClass::Uppercase).run(&mut g, "Ä").is_ok());
    assert!(satisfy(CharClass::Uppercase).run(&mut g, "ä").is_err());
    assert!(satisfy(CharClass::Is('q')).run(&mut g, "q").is_ok());
    assert!(satisfy(CharClass::IsNot('q')).run(&mut g, "q").is_err());
}

#[test]
fn sequence_has_one_child_per_part() {
    let mut g = Grammar::new();
    let r = pccc::parser::seq(vec![lit("a"), opt(lit("z")), many(lit("b"))]).run(&mut g, "abbc").unwrap();
    assert_eq!(r.node.children.len(), 3);
    assert_eq!(r.node.value, "abb");
    assert_eq!(r.rest, "c");
    let err = pccc::parser::seq(vec![lit("a"), lit("b")]).run(&mut g, "ac").unwrap_err();
    assert_eq!(err.message, "expected 'b'");
}

#[test]
fn define_replaces_a_rule() {
    let mut g = Grammar::new();
    g.define("A", lit("a"));
    g.define("B", lit("b"));
    g.define("A", lit("c"));
    assert!(g.parse("A", "a").is_err());
    assert!(g.parse("A", "c").is_ok());
    assert!(g.parse("B", "b").is_ok());
}

#[test]
fn rule_reference_wraps_its_rule() {
    let mut g = Grammar::new();
    g.define("D", digit());
    let r = rule_ref("D".to_string()).run(&mut g, "7x").unwrap();
    assert_eq!(r.node.kind, NodeKind::NonTerminal("D".to_string()));
    assert_eq!(r.node.children.len(), 1);
    assert_eq!(r.node.value, "7");
    assert_eq!(r.rest, "x");
}

#[test]
fn parse_all_requires_the_whole_input() {
    let mut g = Grammar::new();
    g.define("N", many(digit()));
    let n = g.parse_all("N", "123").unwrap();
    assert_eq!(n.value, "123");
    let err = g.parse_all("N", "12ab").unwrap_err();
    assert_eq!(err.message, "input not fully consumed");
    assert_eq!(err.position, 2);
    let err = g.parse_all("M", "12").unwrap_err();
    assert_eq!(err.message, "rule 'M' not defined");
}

#[test]
fn optimize_is_idempotent() {
    let e = ParserExpr::Sequence(vec![
        lit_("a"),
        ParserExpr::Sequence(vec![lit_("b"), ParserExpr::Alt(vec![ref_("c"), ParserExpr::Alt(vec![lit_("d")])])]),
        ParserExpr::Opt(Box::new(ParserExpr::Sequence(vec![satisfy_(CharClass::Any)]))),
    ]);
    let once = e.optimize();
    let text = once.describe();
    assert_eq!(text, "Seq([Literal(a), Literal(b), Alt([Ref(c), Literal(d)]), Opt(Satisfy)])");
    let twice = once.optimize();
    assert_eq!(twice.describe(), text);
}

#[test]
fn describe_nested_expression() {
    let e = ParserExpr::Many(Box::new(ParserExpr::Alt(vec![lit_("x"), ParserExpr::Sequence(vec![])])));
    assert_eq!(e.describe(), "Many(Alt([Literal(x), Seq([])]))");
}

#[test]
fn define_expr_compiles_alternatives_in_order() {
    let mut g = Grammar::new();
    g.define_expr("K", ParserExpr::Alt(vec![lit_("if"), lit_("in"), lit_("i")]));
    let r = g.parse("K", "int").unwrap();
    assert_eq!(r.node.value, "in");
    assert_eq!(r.rest, "t");
    let err = g.parse("K", "x").unwrap_err();
    assert_eq!(err.expected, vec!["if", "in", "i"]);
}

#[test]
fn pseudo_json_value() {
    let mut g = Grammar::new();
    g.define("Number", pccc::parser::seq(vec![opt(lit("-")), many(digit())]));
    g.define("String", pccc::parser::seq(vec![lit("\""), many(satisfy(CharClass::IsNot('"'))), lit("\"")]));
    g.define(
        "Array",
        pccc::parser::seq(vec![
            lit("["),
            opt(rule_ref("Value".to_string())),
            many(pccc::parser::seq(vec![lit(","), rule_ref("Value".to_string())])),
            lit("]"),
        ]),
    );
    g.define(
        "Object",
        pccc::parser::seq(vec![
            lit("{"),
            opt(pccc::parser::seq(vec![rule_ref("String".to_string()), lit(":"), rule_ref("Value".to_string())])),
            many(pccc::parser::seq(vec![lit(","), rule_ref("String".to_string()), lit(":"), rule_ref("Value".to_string())])),
            lit("}"),
        ]),
    );
    g.define(
        "Value",
        alt(
            rule_ref("Object".to_string()),
            alt(rule_ref("Array".to_string()), alt(rule_ref("String".to_string()), rule_ref("Number".to_string()))),
        ),
    );
    let r = g.parse("Value", "{\"name\":\"John\",\"age\":[30,-1]}").unwrap();
    assert_eq!(r.rest, "");
    assert_eq!(r.node.span, Span { start: 0, end: 29 });
    assert!(g.parse("Value", "{\"name\":\"John\", \"age\":30, \"active\":true}").is_ok());
}

#[test]
fn direct_run_resets_the_cache() {
    let mut g = Grammar::new();
    g.define("W", many(letter()));
    assert!(g.parse("W", "abcdef ghi").is_ok());
    assert_eq!(g.memo_size(), 1);
    let r = pccc::parser::seq(vec![opt(lit("x")), many(digit())]).run(&mut g, "x12").unwrap();
    assert_eq!(r.rest, "");
    assert_eq!(r.node.value, "x12");
    assert_eq!(g.memo_size(), 0);
    let r = rule_ref("W".to_string()).run(&mut g, "ab1").unwrap();
    assert_eq!(r.node.value, "ab");
    assert_eq!(g.memo_size(), 1);
}

#[test]
fn cloned_parser_behaves_the_same() {
    let mut g = Grammar::new();
    let p = pccc::parser::seq(vec![lit("a"), many(digit()), opt(alt(lit("x"), space()))]);
    let q = p.clone();
    let r1 = p.run(&mut g, "a12 z").unwrap();
    let r2 = q.run(&mut g, "a12 z").unwrap();
    assert_eq!(r1.node, r2.node);
    assert_eq!(r1.rest, r2.rest);
    assert_eq!(r1.node.value, "a12 ");
    assert_eq!(r1.rest, "z");
    g.define("P", p);
    g.define("Q", q);
    let r1 = g.parse("P", "a7x!").unwrap();
    let r2 = g.parse("Q", "a7x!").unwrap();
    assert_eq!(r1.node, r2.node);
    assert_eq!(r2.rest, "!");
}

#[test]
fn direct_run_counts_positions_in_its_input() {
    let mut g = Grammar::new();
    g.define("D", digit());
    let p = pccc::parser::seq(vec![rule_ref("D".to_string()), rule_ref("D".to_string())]);
    let r = p.run(&mut g, "12").unwrap();
    assert_eq!(r.node.value, "12");
    assert_eq!(r.rest, "");
    assert_eq!(r.node.children[1].span, Span { start: 1, end: 2 });
    let r = many(rule_ref("D".to_string())).run(&mut g, "123x").unwrap();
    assert_eq!(r.node.value, "123");
    assert_eq!(r.rest, "x");
    assert_eq!(g.memo_size(), 3);
    let err = pccc::parser::seq(vec![lit("ab"), digit()]).run(&mut g, "abc").unwrap_err();
    assert_eq!(err.position, 2);
}

fn check_tree(text: &str, n: &pccc::ast::Node) {
    assert!(n.span.start <= n.span.end && n.span.end <= text.len());
    assert_eq!(&text[n.span.start..n.span.end], n.value);
    for c in &n.children {
        check_tree(text, c);
    }
    match &n.kind {
        NodeKind::Sequence(ns) | NodeKind::Many(ns) | NodeKind::Alternative(ns) => {
            for c in ns {
                check_tree(text, c);
            }
        }
        NodeKind::Optional(b) => check_tree(text, b),
        _ => {}
    }
}

#[test]
fn every_node_spans_its_text() {
    let mut g = Grammar::new();
    g.define("Num", pccc::parser::seq(vec![opt(lit("-")), digit(), many(digit())]));
    g.define(
        "Sum",
        pccc::parser::seq(vec![
            rule_ref("Num".to_string()),
            many(pccc::parser::seq(vec![alt(lit("+"), lit("−")), rule_ref("Num".to_string())])),
        ]),
    );
    let text = "12−-3+é";
    let r = g.parse("Sum", text).unwrap();
    assert_eq!(r.rest, "+é");
    check_tree(text, &r.node);
    let r = rule_ref("Sum".to_string()).run(&mut g, text).unwrap();
    check_tree(text, &r.node);
}

#[test]
fn define_then_parse_matches_direct_run() {
    let mut g = Grammar::new();
    let body = pccc::parser::seq(vec![letter(), many(alt(letter(), digit()))]);
    g.define("Id", body.clone());
    for text in ["abc1 x", "9a", "", "é2"] {
        let by_rule = g.parse("Id", text);
        let direct = body.run(&mut g, text);
        match (by_rule, direct) {
            (Ok(a), Ok(b)) => {
                assert_eq!(a.node, b.node);
                assert_eq!(a.rest, b.rest);
            }
            (Err(a), Err(b)) => {
                assert_eq!(a.message, b.message);
                assert_eq!(a.position, b.position);
                assert_eq!(a.expected, b.expected);
            }
            _ => panic!("parse and direct run disagree"),
        }
    }
}

#[test]
fn direct_run_on_a_suffix_uses_the_parse() {
    let mut g = Grammar::new();
    g.define("Term", digit());
    g.define(
        "Expr",
        pccc::parser::seq(vec![
            rule_ref("Term".to_string()),
            many(pccc::parser::seq(vec![lit("+"), rule_ref("Term".to_string())])),
        ]),
    );
    assert!(g.parse("Expr", "1+2+3").is_ok());
    assert_eq!(g.memo_size(), 4);
    let r = rule_ref("Term".to_string()).run(&mut g, "2+3").unwrap();
    assert_eq!(r.node.span, Span { start: 2, end: 3 });
    assert_eq!(r.node.value, "2");
    assert_eq!(r.rest, "+3");
    assert_eq!(g.memo_size(), 4);
    let err = lit("x").run(&mut g, "+3").unwrap_err();
    assert_eq!(err.position, 3);
    let r = lit("1").run(&mut g, "1+2").unwrap();
    assert_eq!(r.node.span, Span { start: 0, end: 1 });
    assert_eq!(g.memo_size(), 0);
}
