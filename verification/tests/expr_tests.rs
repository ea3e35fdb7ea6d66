use pccc::expr::{lit_, ref_, ParserExpr};
use pccc::{satisfy, satisfy_dyn, CharClass, Grammar, ParseResult};

#[test]
fn test_satisfy_dyn_matches_digit() {
    let pred = CharClass::AsciiDigit;
    let parser = satisfy_dyn(pred);
    let mut g = Grammar::new();

    let result = parser.run(&mut g, "3abc");
    assert!(result.is_ok());

    let ParseResult { node, rest } = result.unwrap();
    assert_eq!(node.value, "3");
    assert_eq!(rest, "abc");
}

#[test]
fn test_ref_expr_compile() {
    let mut g = Grammar::new();
    g.define("digit", satisfy(CharClass::AsciiDigit));

    let expr = ref_("digit").compile();
    let result = expr.run(&mut g, "7x");
    assert!(result.is_ok());

    let ParseResult { node, rest } = result.unwrap();
    assert_eq!(node.value, "7");
    assert_eq!(rest, "x");
}

#[test]
fn test_lit_expr_compile() {
    let mut g = Grammar::new();
    let expr = ParserExpr::Literal("hi".into()).compile();

    let result = expr.run(&mut g, "hi!");
    assert!(result.is_ok());

    let ParseResult { node, rest } = result.unwrap();
    assert_eq!(node.value, "hi");
    assert_eq!(rest, "!");
}

#[test]
fn test_seq_macro_compile() {
    let mut g = Grammar::new();
    let expr = ParserExpr::Sequence(vec![
        ParserExpr::Literal("a".into()),
        ParserExpr::Literal("b".into()),
    ]);
    let parser = expr.compile();
    let result = parser.run(&mut g, "abc");
    assert!(result.is_ok());

    let ParseResult { node, rest } = result.unwrap();
    assert_eq!(rest, "c");
    assert_eq!(node.value, "ab");
}

#[test]
fn test_alt_macro_compile() {
    let mut g = Grammar::new();
    let expr = ParserExpr::Alt(vec![
        ParserExpr::Literal("a".into()),
        ParserExpr::Literal("b".into()),
    ]);
    let parser = expr.compile();

    let result = parser.run(&mut g, "bcd");
    assert!(result.is_ok());

    let ParseResult { node, rest } = result.unwrap();
    assert_eq!(rest, "cd");
    assert_eq!(node.value, "b");
}

#[test]
fn test_optimize_flattens_nested_seq() {
    let nested = ParserExpr::Sequence(vec![
        lit_("a"),
        ParserExpr::Sequence(vec![lit_("b"), lit_("c")]),
        lit_("d"),
    ]);
    let optimized = nested.optimize();

    if let ParserExpr::Sequence(exprs) = optimized {
        assert_eq!(exprs.len(), 4); // Should be flattened to a,b,c,d
    } else {
        panic!("Expected Seq");
    }
}

#[test]
fn test_optimize_flattens_nested_alt() {
    let nested = ParserExpr::Alt(vec![
        lit_("a"),
        ParserExpr::Alt(vec![lit_("b"), lit_("c")]),
        lit_("d"),
    ]);
    let optimized = nested.optimize();

    if let ParserExpr::Alt(exprs) = optimized {
        assert_eq!(exprs.len(), 4); // Should be flattened to a|b|c|d
    } else {
        panic!("Expected Alt");
    }
}

#[test]
fn test_optimize_removes_trivial_layers() {
    let trivial = ParserExpr::Sequence(vec![lit_("a")]);
    let optimized = trivial.optimize();

    match optimized {
        ParserExpr::Literal(_) => (), // Success
        _ => panic!("Expected trivial Seq to be removed"),
    }
}

#[test]
fn optimize_flattens_inside_opt_and_many() {
    // Even inside Opt/Many we recurse
    let expr = ParserExpr::Opt(Box::new(ParserExpr::Sequence(vec![
        lit_("x"),
        ParserExpr::Sequence(vec![lit_("y"), lit_("z")]),
    ])));
    let optimized = expr.optimize();
    if let ParserExpr::Opt(inner) = optimized {
        // inner should have been flattened to Seq([x,y,z])
        if let ParserExpr::Sequence(v) = *inner {
            assert_eq!(v.len(), 3);
        } else {
            panic!("Expected inner Seq");
        }
    } else {
        panic!("Expected Opt");
    }

    let expr = ParserExpr::Many(Box::new(ParserExpr::Alt(vec![
        lit_("a"),
        ParserExpr::Alt(vec![lit_("b"), lit_("c")]),
    ])));
    let optimized = expr.optimize();
    if let ParserExpr::Many(inner) = optimized {
        if let ParserExpr::Alt(v) = *inner {
            assert_eq!(v.len(), 3);
        } else {
            panic!("Expected inner Alt");
        }
    } else {
        panic!("Expected Many");
    }
}
