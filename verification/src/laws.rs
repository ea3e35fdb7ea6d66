//! What the library promises as a whole, stated over the semantics of
//! `semantics.rs` and proved.
use vstd::prelude::*;
use crate::ast::{SpecNode, SpecKind};
use vstd::utf8::encode_utf8;
use crate::parser::Parser;
use crate::semantics::{Ctx, Outcome, Outcomes, pos, concat_values};
use crate::peg::{peg, peg_seq, peg_many, peg_rule};
use crate::text::{utf8_len, lemma_utf8_len_add, lemma_encode_utf8_add};
use crate::grammar::{parse_ctx, parse_spec, fresh_run_spec};
use crate::packrat::{memo_peg_ok, stuck_below, lemma_parse_rule_peg, lemma_run_peg};
use crate::regime::{is_suffix, memo_sane, lemma_suffix_refl, lemma_suffix_skip, lemma_suffix_trans, lemma_parse_rule_regime,
    lemma_run_regime};
use crate::errors::SpecError;
use crate::expr::{SpecExpr, no_empty, normal, optimize_expr, lemma_optimize_normal, lemma_normal_fixed,
    lemma_all_no_empty, lemma_seq_parts_normal, lemma_alt_parts_normal};
use crate::grammar::defined;
use crate::parser::{Rule, same_parser, lemma_same_parsers};
use crate::semantics::{find_rule, lemma_find_rule_from_exact};
use crate::semantics::{Memo, Active, run, run_seq, run_many, parse_rule, cons_outcome, no_progress_error};

verus! {

/// `n` and `r` are what a parser that consumed a prefix of `s` produces:
/// the node's text is that prefix, `r` is what follows it, and the node's
/// span is the prefix's byte range in the text.
pub open spec fn consumes(ctx: Ctx, s: Seq<char>, n: SpecNode, r: Seq<char>) -> bool {
    &&& n.value + r == s
    &&& n.start == pos(ctx, s)
    &&& n.end == pos(ctx, r)
}

/// A list of nodes whose texts, followed by `r`, make up `s`.
pub open spec fn consumes_all(s: Seq<char>, ns: Seq<SpecNode>, r: Seq<char>) -> bool {
    concat_values(ns) + r == s
}

/// Positions of a text split in two.
pub(crate) proof fn lemma_pos_split(ctx: Ctx, a: Seq<char>, b: Seq<char>)
    requires
        utf8_len(a + b) <= ctx.total,
    ensures
        utf8_len(b) <= utf8_len(a + b),
        pos(ctx, a + b) + utf8_len(a) == pos(ctx, b),
{
    lemma_utf8_len_add(a, b);
}

pub(crate) proof fn lemma_concat_cons(n: SpecNode, ns: Seq<SpecNode>)
    ensures
        concat_values(seq![n] + ns) == n.value + concat_values(ns),
    decreases ns.len(),
{
    if ns.len() == 0 {
        assert((seq![n] + ns).drop_last() =~= Seq::<SpecNode>::empty());
        assert(seq![n] + ns =~= seq![n]);
        assert(concat_values(Seq::<SpecNode>::empty()) + n.value =~= n.value + concat_values(ns));
    } else {
        assert((seq![n] + ns).drop_last() =~= seq![n] + ns.drop_last());
        lemma_concat_cons(n, ns.drop_last());
        assert((seq![n] + ns).last() == ns.last());
        assert(n.value + concat_values(ns.drop_last()) + ns.last().value
            =~= n.value + (concat_values(ns.drop_last()) + ns.last().value));
    }
}

/// Within the text, a success of the cache-free semantics consumes a prefix
/// of its input and builds a node of exactly that prefix.
pub proof fn lemma_peg_consumes(ctx: Ctx, p: Parser, s: Seq<char>, f: nat)
    requires
        utf8_len(s) <= ctx.total,
    ensures
        peg(ctx, p, s, f) matches Outcome::Done(n, r) ==> consumes(ctx, s, n, r),
    decreases f, 1nat, p, 0nat,
{
    match p {
        Parser::Literal(lit) => {
            let k = lit@.len() as int;
            if k <= s.len() && s.take(k) == lit@ {
                assert(s.take(k) + s.skip(k) =~= s);
                lemma_pos_split(ctx, s.take(k), s.skip(k));
            }
        },
        Parser::Satisfy(_) => {
            if s.len() > 0 {
                assert(seq![s[0]] + s.skip(1) =~= s);
                lemma_pos_split(ctx, seq![s[0]], s.skip(1));
            }
        },
        Parser::Sequence(ps) => {
            lemma_peg_seq_consumes(ctx, ps@, 0, s, f);
        },
        Parser::Alternative(a, b) => {
            lemma_peg_consumes(ctx, *a, s, f);
            lemma_peg_consumes(ctx, *b, s, f);
        },
        Parser::Many(b) => {
            lemma_peg_many_consumes(ctx, *b, s, f);
            if let Outcomes::Done(ns, r) = peg_many(ctx, *b, s, f) {
                lemma_pos_split(ctx, concat_values(ns), r);
            }
        },
        Parser::Optional(b) => {
            lemma_peg_consumes(ctx, *b, s, f);
            if let Outcome::Done(n, r) = peg(ctx, *b, s, f) {
                lemma_pos_split(ctx, n.value, r);
            } else {
                assert(Seq::<char>::empty() + s =~= s);
            }
        },
        Parser::Ref(name) => {
            lemma_peg_rule_consumes(ctx, name@, s, f);
            if let Outcome::Done(n, r) = peg_rule(ctx, name@, s, f) {
                lemma_pos_split(ctx, n.value, r);
            }
        },
    }
}

pub proof fn lemma_peg_seq_consumes(ctx: Ctx, ps: Seq<Parser>, i: int, s: Seq<char>, f: nat)
    requires
        utf8_len(s) <= ctx.total,
    ensures
        peg_seq(ctx, ps, i, s, f) matches Outcomes::Done(ns, r) ==> consumes_all(s, ns, r),
    decreases f, 1nat, ps, ps.len() - i,
{
    if i < 0 || i >= ps.len() {
        assert(concat_values(Seq::<SpecNode>::empty()) + s =~= s);
    } else {
        lemma_peg_consumes(ctx, ps[i], s, f);
        if let Outcome::Done(n, rest) = peg(ctx, ps[i], s, f) {
            lemma_pos_split(ctx, n.value, rest);
            lemma_peg_seq_consumes(ctx, ps, i + 1, rest, f);
            if let Outcomes::Done(ns, r) = peg_seq(ctx, ps, i + 1, rest, f) {
                lemma_concat_cons(n, ns);
                assert(n.value + concat_values(ns) + r =~= n.value + (concat_values(ns) + r));
            }
        }
    }
}

pub proof fn lemma_peg_many_consumes(ctx: Ctx, b: Parser, s: Seq<char>, f: nat)
    requires
        utf8_len(s) <= ctx.total,
    ensures
        peg_many(ctx, b, s, f) matches Outcomes::Done(ns, r) ==> consumes_all(s, ns, r),
    decreases f, 1nat, b, s.len() + 1,
{
    lemma_peg_consumes(ctx, b, s, f);
    match peg(ctx, b, s, f) {
        Outcome::Done(n, rest) => {
            if rest.len() < s.len() {
                lemma_pos_split(ctx, n.value, rest);
                lemma_peg_many_consumes(ctx, b, rest, f);
                if let Outcomes::Done(ns, r) = peg_many(ctx, b, rest, f) {
                    lemma_concat_cons(n, ns);
                    assert(n.value + concat_values(ns) + r =~= n.value + (concat_values(ns) + r));
                }
            }
        },
        Outcome::Fail(_) => {
            assert(concat_values(Seq::<SpecNode>::empty()) + s =~= s);
        },
        _ => {},
    }
}

pub proof fn lemma_peg_rule_consumes(ctx: Ctx, name: Seq<char>, s: Seq<char>, f: nat)
    requires
        utf8_len(s) <= ctx.total,
    ensures
        peg_rule(ctx, name, s, f) matches Outcome::Done(n, r) ==> consumes(ctx, s, n, r),
    decreases f, 0nat, vstd::pervasive::arbitrary::<Parser>(), 0nat,
{
    if let Some(i) = crate::semantics::find_rule(ctx.rules, name) {
        if f > 0 {
            lemma_peg_consumes(ctx, ctx.rules[i].body, s, (f - 1) as nat);
        }
    }
}

/// The cache does not change what a parse gives: `Grammar::parse` of a rule
/// never faults; an outcome that is not `Stuck` is the outcome of the
/// cache-free semantics at some fuel; and a `Stuck` outcome means that the
/// cache-free evaluation is `Stuck` at every fuel, that is, it never ends.
pub proof fn law_parse_is_peg(rules: Seq<crate::parser::Rule>, name: Seq<char>, text: Seq<char>)
    ensures
        !(parse_spec(rules, name, text).0 is Fault),
        !(parse_spec(rules, name, text).0 is Stuck) ==> exists|f: nat|
            peg_rule(parse_ctx(rules, text), name, text, f) == parse_spec(rules, name, text).0,
        parse_spec(rules, name, text).0 is Stuck ==> forall|f: nat|
            (#[trigger] peg_rule(parse_ctx(rules, text), name, text, f)) is Stuck,
        forall|key: (Seq<char>, nat)| #[trigger] parse_spec(rules, name, text).1.contains_key(key) ==>
            exists|k: int, f: nat| 0 <= k <= text.len() && pos(parse_ctx(rules, text), text.skip(k)) == key.1
                && peg_rule(parse_ctx(rules, text), key.0, text.skip(k), f) == Outcome::Done(
                    parse_spec(rules, name, text).1[key].0,
                    parse_spec(rules, name, text).1[key].1,
                ),
{
    let ctx = parse_ctx(rules, text);
    let memo = Memo::empty();
    let active = Active::empty();
    reveal(memo_peg_ok);
    reveal(stuck_below);
    lemma_suffix_refl(text);
    assert(memo_sane(ctx, text, memo));
    assert(memo_peg_ok(ctx, text, memo));
    assert(active.subset_of(crate::univ::universe(ctx.rules, seq![text]).to_set()));
    lemma_parse_rule_regime(ctx, text, name, text, memo, active);
    lemma_parse_rule_peg(ctx, text, name, text, memo, active);
    assert forall|f: nat| stuck_below(ctx, active, f) by {}
}

/// A successful parse of a rule consumes a prefix of the text: the node's
/// text is that prefix, the rest is what follows it, and the node spans the
/// prefix's bytes, from 0.
pub proof fn law_parse_consumes_prefix(rules: Seq<crate::parser::Rule>, name: Seq<char>, text: Seq<char>)
    ensures
        parse_spec(rules, name, text).0 matches Outcome::Done(n, rest) ==> {
            &&& n.value + rest == text
            &&& n.start == 0
            &&& n.end == utf8_len(text) - utf8_len(rest)
        },
{
    let ctx = parse_ctx(rules, text);
    law_parse_is_peg(rules, name, text);
    if let Outcome::Done(n, rest) = parse_spec(rules, name, text).0 {
        let f = choose|f: nat| peg_rule(ctx, name, text, f) == parse_spec(rules, name, text).0;
        lemma_peg_rule_consumes(ctx, name, text, f);
        lemma_pos_split(ctx, n.value, rest);
    }
}

/// A successful parse of a rule leaves its result in the cache, under the
/// rule's name at position 0.
pub proof fn law_parse_caches_success(rules: Seq<crate::parser::Rule>, name: Seq<char>, text: Seq<char>)
    ensures
        parse_spec(rules, name, text).0 matches Outcome::Done(n, rest) ==> {
            &&& parse_spec(rules, name, text).1.contains_key((name, 0nat))
            &&& parse_spec(rules, name, text).1[(name, 0nat)] == (n, rest)
        },
{
    let ctx = parse_ctx(rules, text);
    assert(pos(ctx, text) == 0);
}

/// Running a parser directly is a parse of its input: it never faults; an
/// outcome that is not `Stuck` is the outcome of the cache-free semantics at
/// some fuel; a `Stuck` outcome means that the cache-free evaluation never
/// ends; every cache entry is the cache-free result of its rule at its
/// position in the input.
pub proof fn law_run_is_peg(rules: Seq<crate::parser::Rule>, p: Parser, text: Seq<char>)
    ensures
        !(fresh_run_spec(rules, p, text).0 is Fault),
        !(fresh_run_spec(rules, p, text).0 is Stuck) ==> exists|f: nat| peg(parse_ctx(rules, text), p, text, f)
            == fresh_run_spec(rules, p, text).0,
        fresh_run_spec(rules, p, text).0 is Stuck ==> forall|f: nat|
            (#[trigger] peg(parse_ctx(rules, text), p, text, f)) is Stuck,
        forall|key: (Seq<char>, nat)| #[trigger] fresh_run_spec(rules, p, text).1.contains_key(key) ==>
            exists|k: int, f: nat| 0 <= k <= text.len() && pos(parse_ctx(rules, text), text.skip(k)) == key.1
                && peg_rule(parse_ctx(rules, text), key.0, text.skip(k), f) == Outcome::Done(
                    fresh_run_spec(rules, p, text).1[key].0,
                    fresh_run_spec(rules, p, text).1[key].1,
                ),
{
    let ctx = parse_ctx(rules, text);
    let memo = Memo::empty();
    let active = Active::empty();
    reveal(memo_peg_ok);
    reveal(stuck_below);
    lemma_suffix_refl(text);
    assert(memo_sane(ctx, text, memo));
    assert(memo_peg_ok(ctx, text, memo));
    assert(active.subset_of(crate::univ::universe(ctx.rules, seq![text]).to_set()));
    lemma_run_regime(ctx, text, p, text, memo, active);
    lemma_run_peg(ctx, text, p, text, memo, active);
    assert forall|f: nat| stuck_below(ctx, active, f) by {}
}

/// A successful direct run consumes a prefix of its input: the node's text
/// is that prefix, the rest is what follows it, and the node spans the
/// prefix's bytes, from 0.
pub proof fn law_run_consumes_prefix(rules: Seq<crate::parser::Rule>, p: Parser, text: Seq<char>)
    ensures
        fresh_run_spec(rules, p, text).0 matches Outcome::Done(n, rest) ==> {
            &&& n.value + rest == text
            &&& n.start == 0
            &&& n.end == utf8_len(text) - utf8_len(rest)
        },
{
    let ctx = parse_ctx(rules, text);
    law_run_is_peg(rules, p, text);
    if let Outcome::Done(n, rest) = fresh_run_spec(rules, p, text).0 {
        let f = choose|f: nat| peg(ctx, p, text, f) == fresh_run_spec(rules, p, text).0;
        lemma_peg_consumes(ctx, p, text, f);
        lemma_pos_split(ctx, n.value, rest);
    }
}

/// A literal matches exactly when the input starts with it; it then
/// consumes it and yields it as the node's text, and it never touches the
/// cache.
pub proof fn law_literal(ctx: Ctx, lit: String, input: Seq<char>, memo: Memo, active: Active)
    ensures
        run(ctx, Parser::Literal(lit), input, memo, active).1 == memo,
        (run(ctx, Parser::Literal(lit), input, memo, active).0 is Done) <==> (lit@.len() <= input.len()
            && input.take(lit@.len() as int) == lit@),
        run(ctx, Parser::Literal(lit), input, memo, active).0 matches Outcome::Done(n, rest) ==> {
            &&& lit@ + rest == input
            &&& n.value == lit@
            &&& n.end == n.start + utf8_len(lit@)
        },
        run(ctx, Parser::Literal(lit), input, memo, active).0 matches Outcome::Fail(e) ==> {
            &&& e.position == pos(ctx, input)
            &&& e.expected == seq![lit@]
        },
{
    let k = lit@.len() as int;
    if k <= input.len() && input.take(k) == lit@ {
        assert(input.take(k) + input.skip(k) =~= input);
    }
}

/// A character class consumes exactly one character, whatever its width in
/// bytes, when the input starts with a member of the class.
pub proof fn law_satisfy(ctx: Ctx, class: crate::chars::CharClass, input: Seq<char>, memo: Memo, active: Active)
    ensures
        run(ctx, Parser::Satisfy(class), input, memo, active).1 == memo,
        (run(ctx, Parser::Satisfy(class), input, memo, active).0 is Done) <==> (input.len() > 0
            && class.holds(input[0])),
        run(ctx, Parser::Satisfy(class), input, memo, active).0 matches Outcome::Done(n, rest) ==> {
            &&& seq![input[0]] + rest == input
            &&& n.value == seq![input[0]]
            &&& n.end == n.start + utf8_len(seq![input[0]])
        },
{
    if input.len() > 0 {
        assert(seq![input[0]] + input.skip(1) =~= input);
    }
}

/// The first alternative that matches is chosen; only when the first fails
/// is the second tried, on the same input and with the cache the first left;
/// when both fail, the error is the first one's with the tokens both expected.
pub proof fn law_alternative(ctx: Ctx, a: Parser, b: Parser, input: Seq<char>, memo: Memo, active: Active)
    ensures
        !(run(ctx, a, input, memo, active).0 is Fail) ==>
            run(ctx, Parser::Alternative(Box::new(a), Box::new(b)), input, memo, active)
                == run(ctx, a, input, memo, active),
        run(ctx, a, input, memo, active).0 matches Outcome::Fail(e1) ==> {
            let m1 = run(ctx, a, input, memo, active).1;
            let (o2, m2) = run(ctx, b, input, m1, active);
            let (o, m) = run(ctx, Parser::Alternative(Box::new(a), Box::new(b)), input, memo, active);
            &&& m == m2
            &&& !(o2 is Fail) ==> o == o2
            &&& o2 matches Outcome::Fail(e2) ==> o == Outcome::Fail(SpecError {
                message: e1.message,
                position: e1.position,
                expected: e1.expected + e2.expected,
            })
        },
{
}

/// A run of a list of parsers that succeeds has one node per parser.
proof fn lemma_run_seq_count(ctx: Ctx, ps: Seq<Parser>, i: int, input: Seq<char>, memo: Memo, active: Active)
    requires
        0 <= i <= ps.len(),
    ensures
        run_seq(ctx, ps, i, input, memo, active).0 matches Outcomes::Done(ns, _) ==> ns.len() == ps.len() - i,
    decreases ps.len() - i,
{
    if i < ps.len() {
        let (o, m1) = run(ctx, ps[i], input, memo, active);
        if let Outcome::Done(n, rest) = o {
            lemma_run_seq_count(ctx, ps, i + 1, rest, m1, active);
        }
    }
}

/// A sequence succeeds only when each of its parsers does, one after the
/// other; its node has one child per parser and the children's texts,
/// concatenated, as its text.
pub proof fn law_sequence(ctx: Ctx, ps: Vec<Parser>, input: Seq<char>, memo: Memo, active: Active)
    ensures
        run(ctx, Parser::Sequence(ps), input, memo, active).0 matches Outcome::Done(n, rest) ==> {
            &&& n.children.len() == ps@.len()
            &&& n.value == concat_values(n.children)
            &&& n.start == pos(ctx, input)
            &&& n.end == pos(ctx, rest)
        },
{
    lemma_run_seq_count(ctx, ps@, 0, input, memo, active);
}

/// A repetition never fails.
proof fn lemma_run_many_not_fail(ctx: Ctx, b: Parser, input: Seq<char>, memo: Memo, active: Active)
    ensures
        !(run_many(ctx, b, input, memo, active).0 is Fail),
    decreases input.len(),
{
    let (o, m1) = run(ctx, b, input, memo, active);
    if let Outcome::Done(n, rest) = o {
        if rest.len() < input.len() {
            lemma_run_many_not_fail(ctx, b, rest, m1, active);
        }
    }
}

/// `many` never fails: when its parser does not match at all, it succeeds
/// with an empty node and consumes nothing.
pub proof fn law_many(ctx: Ctx, b: Parser, input: Seq<char>, memo: Memo, active: Active)
    ensures
        !(run(ctx, Parser::Many(Box::new(b)), input, memo, active).0 is Fail),
        run(ctx, b, input, memo, active).0 is Fail ==> (run(ctx, Parser::Many(Box::new(b)), input, memo, active).0
            matches Outcome::Done(n, rest) && rest == input && n.value.len() == 0 && n.children.len() == 0
            && n.start == n.end),
{
    lemma_run_many_not_fail(ctx, b, input, memo, active);
}

/// `opt` never fails: when its parser fails, it succeeds with an empty node
/// and consumes nothing; otherwise it yields the parser's text and rest.
pub proof fn law_optional(ctx: Ctx, b: Parser, input: Seq<char>, memo: Memo, active: Active)
    ensures
        !(run(ctx, Parser::Optional(Box::new(b)), input, memo, active).0 is Fail),
        run(ctx, Parser::Optional(Box::new(b)), input, memo, active).1 == run(ctx, b, input, memo, active).1,
        run(ctx, b, input, memo, active).0 is Fail ==> (run(ctx, Parser::Optional(Box::new(b)), input, memo, active).0
            matches Outcome::Done(n, rest) && rest == input && n.value.len() == 0 && n.start == n.end),
        match run(ctx, b, input, memo, active).0 {
            Outcome::Done(m, r) => utf8_len(r) <= utf8_len(input) ==> (run(
                ctx,
                Parser::Optional(Box::new(b)),
                input,
                memo,
                active,
            ).0 matches Outcome::Done(n, rest) && rest == r && n.value == m.value),
            _ => true,
        },
{
}

/// The search finds the rule at `j` when it is the first with the name.
proof fn lemma_find_rule_at(rules: Seq<Rule>, name: Seq<char>, j: int)
    requires
        0 <= j < rules.len(),
        rules[j].name@ == name,
        forall|k: int| 0 <= k < j ==> rules[k].name@ != name,
    ensures
        find_rule(rules, name) == Some(j),
{
    lemma_find_rule_from_exact(rules, name, 0);
}

/// The search finds nothing when no rule has the name.
proof fn lemma_find_rule_none(rules: Seq<Rule>, name: Seq<char>)
    requires
        forall|k: int| 0 <= k < rules.len() ==> rules[k].name@ != name,
    ensures
        find_rule(rules, name) is None,
{
    lemma_find_rule_from_exact(rules, name, 0);
}

/// After `define(name, p)`, the rule `name` is `p`, so that applying the rule
/// applies `p`; every other name finds the rule it found before.
pub proof fn law_define(before: Seq<Rule>, after: Seq<Rule>, name: Seq<char>, p: Parser)
    requires
        defined(before, after, name, p),
    ensures
        find_rule(after, name) matches Some(i) && after[i].body == p,
        forall|ctx: Ctx, text: Seq<char>, f: nat| ctx.rules == after ==> #[trigger] peg_rule(ctx, name, text, f + 1)
            == peg(ctx, p, text, f),
        forall|other: Seq<char>| other != name ==> {
            &&& #[trigger] find_rule(after, other) == find_rule(before, other)
            &&& find_rule(before, other) matches Some(j) ==> after[j] == before[j]
        },
{
    lemma_find_rule_from_exact(before, name, 0);
    match find_rule(before, name) {
        Some(i) => {
            lemma_find_rule_at(after, name, i);
            assert forall|other: Seq<char>| other != name implies {
                &&& #[trigger] find_rule(after, other) == find_rule(before, other)
                &&& find_rule(before, other) matches Some(j) ==> after[j] == before[j]
            } by {
                lemma_find_rule_from_exact(before, other, 0);
                match find_rule(before, other) {
                    Some(j) => {
                        lemma_find_rule_at(after, other, j);
                    },
                    None => {
                        lemma_find_rule_none(after, other);
                    },
                }
            }
        },
        None => {
            lemma_find_rule_at(after, name, before.len() as int);
            assert forall|other: Seq<char>| other != name implies {
                &&& #[trigger] find_rule(after, other) == find_rule(before, other)
                &&& find_rule(before, other) matches Some(j) ==> after[j] == before[j]
            } by {
                lemma_find_rule_from_exact(before, other, 0);
                match find_rule(before, other) {
                    Some(j) => {
                        lemma_find_rule_at(after, other, j);
                    },
                    None => {
                        lemma_find_rule_none(after, other);
                    },
                }
            }
        },
    }
}

/// The normal form has no empty sequence or alternative.
proof fn lemma_normal_no_empty(e: SpecExpr)
    requires
        normal(e),
    ensures
        no_empty(e),
    decreases e,
{
    match e {
        SpecExpr::Sequence(v) => {
            lemma_seq_parts_normal(v);
            assert forall|i: int| 0 <= i < v.len() implies no_empty(#[trigger] v[i]) by {
                lemma_normal_no_empty(v[i]);
            }
            lemma_all_no_empty(v);
        },
        SpecExpr::Alt(v) => {
            lemma_alt_parts_normal(v);
            assert forall|i: int| 0 <= i < v.len() implies no_empty(#[trigger] v[i]) by {
                lemma_normal_no_empty(v[i]);
            }
            lemma_all_no_empty(v);
        },
        SpecExpr::Opt(b) => {
            lemma_normal_no_empty(*b);
        },
        SpecExpr::Many(b) => {
            lemma_normal_no_empty(*b);
        },
        _ => {},
    }
}

/// `optimize` leaves no sequence directly inside a sequence, no alternative
/// directly inside an alternative, and no sequence or alternative of fewer
/// than two parts; its result can be optimized again, and is left as it is.
pub proof fn law_optimize(e: SpecExpr)
    requires
        no_empty(e),
    ensures
        normal(optimize_expr(e)),
        no_empty(optimize_expr(e)),
        optimize_expr(optimize_expr(e)) == optimize_expr(e),
{
    lemma_optimize_normal(e);
    lemma_normal_no_empty(optimize_expr(e));
    lemma_normal_fixed(optimize_expr(e));
}

/// `p` refers to no rule.
pub open spec fn ref_free(p: Parser) -> bool
    decreases p,
{
    match p {
        Parser::Sequence(ps) => ref_free_all(ps@),
        Parser::Alternative(a, b) => ref_free(*a) && ref_free(*b),
        Parser::Many(b) => ref_free(*b),
        Parser::Optional(b) => ref_free(*b),
        Parser::Ref(_) => false,
        _ => true,
    }
}

/// None of `ps` refers to a rule.
pub open spec fn ref_free_all(ps: Seq<Parser>) -> bool
    decreases ps,
{
    if ps.len() == 0 {
        true
    } else {
        ref_free_all(ps.drop_last()) && ref_free(ps.last())
    }
}

proof fn lemma_ref_free_all(ps: Seq<Parser>)
    ensures
        ref_free_all(ps) ==> forall|i: int| 0 <= i < ps.len() ==> ref_free(#[trigger] ps[i]),
    decreases ps.len(),
{
    if ps.len() > 0 {
        lemma_ref_free_all(ps.drop_last());
        if ref_free_all(ps) {
            assert forall|i: int| 0 <= i < ps.len() implies ref_free(#[trigger] ps[i]) by {
                if i < ps.len() - 1 {
                    assert(ps.drop_last()[i] == ps[i]);
                }
            }
        }
    }
}

/// The claim of `law_ref_free` for one parser.
pub open spec fn ref_free_claim(ctx: Ctx, p: Parser, input: Seq<char>, memo: Memo, active: Active) -> bool {
    &&& !(run(ctx, p, input, memo, active).0 is Fault)
    &&& run(ctx, p, input, memo, active).1 == memo
    &&& run(ctx, p, input, memo, active).0 matches Outcome::Done(_, r) ==> is_suffix(r, input)
}

proof fn lemma_ref_free_seq(ctx: Ctx, ps: Seq<Parser>, i: int, input: Seq<char>, memo: Memo, active: Active)
    requires
        forall|j: int| 0 <= j < ps.len() ==> ref_free(#[trigger] ps[j]),
    ensures
        !(run_seq(ctx, ps, i, input, memo, active).0 is Fault),
        run_seq(ctx, ps, i, input, memo, active).1 == memo,
        run_seq(ctx, ps, i, input, memo, active).0 matches Outcomes::Done(_, r) ==> is_suffix(r, input),
    decreases ps, ps.len() - i,
{
    if i < 0 || i >= ps.len() {
        lemma_suffix_refl(input);
    } else {
        law_ref_free(ctx, ps[i], input, memo, active);
        if let Outcome::Done(n, rest) = run(ctx, ps[i], input, memo, active).0 {
            lemma_ref_free_seq(ctx, ps, i + 1, rest, memo, active);
            if let Outcomes::Done(ns, r) = run_seq(ctx, ps, i + 1, rest, memo, active).0 {
                lemma_suffix_trans(r, rest, input);
            }
        }
    }
}

proof fn lemma_ref_free_many(ctx: Ctx, b: Parser, input: Seq<char>, memo: Memo, active: Active)
    requires
        ref_free(b),
    ensures
        !(run_many(ctx, b, input, memo, active).0 is Fault),
        run_many(ctx, b, input, memo, active).1 == memo,
        run_many(ctx, b, input, memo, active).0 matches Outcomes::Done(_, r) ==> is_suffix(r, input),
    decreases b, input.len() + 1,
{
    law_ref_free(ctx, b, input, memo, active);
    match run(ctx, b, input, memo, active).0 {
        Outcome::Done(n, rest) => {
            if rest.len() < input.len() {
                lemma_ref_free_many(ctx, b, rest, memo, active);
                if let Outcomes::Done(ns, r) = run_many(ctx, b, rest, memo, active).0 {
                    lemma_suffix_trans(r, rest, input);
                }
            }
        },
        Outcome::Fail(_) => {
            lemma_suffix_refl(input);
        },
        _ => {},
    }
}

/// A parser that refers to no rule never faults, whatever the cache holds,
/// leaves the cache as it is, and consumes a prefix of its input.
pub proof fn law_ref_free(ctx: Ctx, p: Parser, input: Seq<char>, memo: Memo, active: Active)
    requires
        ref_free(p),
    ensures
        ref_free_claim(ctx, p, input, memo, active),
    decreases p, 0nat,
{
    match p {
        Parser::Literal(lit) => {
            if lit@.len() <= input.len() {
                lemma_suffix_skip(input, lit@.len() as int);
            }
        },
        Parser::Satisfy(_) => {
            if input.len() > 0 {
                lemma_suffix_skip(input, 1);
            }
        },
        Parser::Sequence(ps) => {
            lemma_ref_free_all(ps@);
            lemma_ref_free_seq(ctx, ps@, 0, input, memo, active);
        },
        Parser::Alternative(a, b) => {
            law_ref_free(ctx, *a, input, memo, active);
            law_ref_free(ctx, *b, input, memo, active);
        },
        Parser::Many(b) => {
            lemma_ref_free_many(ctx, *b, input, memo, active);
        },
        Parser::Optional(b) => {
            law_ref_free(ctx, *b, input, memo, active);
            lemma_suffix_refl(input);
            if let Outcome::Done(n, r) = run(ctx, *b, input, memo, active).0 {
                crate::regime::lemma_suffix_shorter(r, input);
            }
        },
        Parser::Ref(_) => {},
    }
}

proof fn lemma_same_seq(
    ctx: Ctx,
    ps: Seq<Parser>,
    qs: Seq<Parser>,
    i: int,
    input: Seq<char>,
    memo: Memo,
    active: Active,
)
    requires
        ps.len() == qs.len(),
        forall|j: int| 0 <= j < ps.len() ==> same_parser(#[trigger] ps[j], qs[j]),
    ensures
        run_seq(ctx, ps, i, input, memo, active) == run_seq(ctx, qs, i, input, memo, active),
    decreases ps, ps.len() - i,
{
    if 0 <= i < ps.len() {
        law_same_parser(ctx, ps[i], qs[i], input, memo, active);
        if let Outcome::Done(n, rest) = run(ctx, ps[i], input, memo, active).0 {
            lemma_same_seq(ctx, ps, qs, i + 1, rest, run(ctx, ps[i], input, memo, active).1, active);
        }
    }
}

proof fn lemma_same_many(ctx: Ctx, b: Parser, c: Parser, input: Seq<char>, memo: Memo, active: Active)
    requires
        same_parser(b, c),
    ensures
        run_many(ctx, b, input, memo, active) == run_many(ctx, c, input, memo, active),
    decreases b, input.len() + 1,
{
    law_same_parser(ctx, b, c, input, memo, active);
    if let Outcome::Done(n, rest) = run(ctx, b, input, memo, active).0 {
        if rest.len() < input.len() {
            lemma_same_many(ctx, b, c, rest, run(ctx, b, input, memo, active).1, active);
        }
    }
}

/// Parsers that are the same expression (a parser and its `clone`) give the
/// same outcome and leave the same cache.
pub proof fn law_same_parser(ctx: Ctx, p: Parser, q: Parser, input: Seq<char>, memo: Memo, active: Active)
    requires
        same_parser(p, q),
    ensures
        run(ctx, p, input, memo, active) == run(ctx, q, input, memo, active),
    decreases p, 0nat,
{
    match p {
        Parser::Sequence(ps) => {
            let qs = q->Sequence_0;
            lemma_same_parsers(ps@, qs@);
            lemma_same_seq(ctx, ps@, qs@, 0, input, memo, active);
        },
        Parser::Alternative(a, b) => {
            law_same_parser(ctx, *a, *q->Alternative_0, input, memo, active);
            law_same_parser(
                ctx,
                *b,
                *q->Alternative_1,
                input,
                run(ctx, *a, input, memo, active).1,
                active,
            );
        },
        Parser::Many(b) => {
            lemma_same_many(ctx, *b, *q->Many_0, input, memo, active);
        },
        Parser::Optional(b) => {
            law_same_parser(ctx, *b, *q->Optional_0, input, memo, active);
        },
        _ => {},
    }
}

/// The node's span is the byte range, within `bytes`, of the node's text.
pub open spec fn spans(bytes: Seq<u8>, n: SpecNode) -> bool {
    &&& n.start <= n.end <= bytes.len()
    &&& bytes.subrange(n.start as int, n.end as int) == encode_utf8(n.value)
}

/// Every node of the tree under `n`, reached through kinds and children,
/// spans its text within `bytes`.
pub open spec fn tree_spans(bytes: Seq<u8>, n: SpecNode) -> bool
    decreases n,
{
    &&& spans(bytes, n)
    &&& trees_span(bytes, n.children)
    &&& match n.kind {
        SpecKind::Sequence(ns) => trees_span(bytes, ns),
        SpecKind::Alternative(ns) => trees_span(bytes, ns),
        SpecKind::Many(ns) => trees_span(bytes, ns),
        SpecKind::Optional(b) => tree_spans(bytes, *b),
        _ => true,
    }
}

/// Every tree of the list spans its text.
pub open spec fn trees_span(bytes: Seq<u8>, ns: Seq<SpecNode>) -> bool
    decreases ns,
{
    if ns.len() == 0 {
        true
    } else {
        trees_span(bytes, ns.drop_last()) && tree_spans(bytes, ns.last())
    }
}

pub(crate) proof fn lemma_trees_span(bytes: Seq<u8>, ns: Seq<SpecNode>)
    ensures
        trees_span(bytes, ns) <==> forall|i: int| 0 <= i < ns.len() ==> tree_spans(bytes, #[trigger] ns[i]),
    decreases ns.len(),
{
    if ns.len() > 0 {
        lemma_trees_span(bytes, ns.drop_last());
        if forall|i: int| 0 <= i < ns.len() ==> tree_spans(bytes, #[trigger] ns[i]) {
            assert forall|i: int| 0 <= i < ns.drop_last().len() implies tree_spans(bytes, #[trigger] ns.drop_last()[i]) by {
                assert(ns.drop_last()[i] == ns[i]);
            }
        }
        if trees_span(bytes, ns) {
            assert forall|i: int| 0 <= i < ns.len() implies tree_spans(bytes, #[trigger] ns[i]) by {
                if i < ns.len() - 1 {
                    assert(ns.drop_last()[i] == ns[i]);
                }
            }
        }
    }
}

/// A node that consumed a prefix of a suffix of the text spans its text.
pub(crate) proof fn lemma_span_of(ctx: Ctx, text: Seq<char>, s: Seq<char>, n: SpecNode, r: Seq<char>)
    requires
        ctx.total == utf8_len(text),
        is_suffix(s, text),
        consumes(ctx, s, n, r),
    ensures
        spans(encode_utf8(text), n),
{
    let k = choose|k: int| 0 <= k <= text.len() && s == text.skip(k);
    let pre = text.take(k);
    assert(pre + s =~= text);
    lemma_encode_utf8_add(pre, s);
    lemma_encode_utf8_add(n.value, r);
    lemma_utf8_len_add(pre, s);
    lemma_utf8_len_add(n.value, r);
    let b = encode_utf8(text);
    assert(b =~= encode_utf8(pre) + encode_utf8(n.value) + encode_utf8(r));
    assert(b.subrange(n.start as int, n.end as int) =~= encode_utf8(n.value));
}

/// A node with no text at position `pos(ctx, s)` spans its (empty) text.
pub(crate) proof fn lemma_span_empty(ctx: Ctx, text: Seq<char>, s: Seq<char>, n: SpecNode)
    requires
        ctx.total == utf8_len(text),
        is_suffix(s, text),
        n.value.len() == 0,
        n.start == pos(ctx, s),
        n.end == pos(ctx, s),
    ensures
        spans(encode_utf8(text), n),
{
    crate::regime::lemma_suffix_shorter(s, text);
    assert(n.value =~= Seq::<char>::empty());
    assert(encode_utf8(n.value) =~= Seq::<u8>::empty());
    assert(encode_utf8(text).subrange(n.start as int, n.end as int) =~= Seq::<u8>::empty());
}

/// Within the text, every node of a success of the cache-free semantics
/// spans its text.
pub proof fn lemma_peg_tree(ctx: Ctx, text: Seq<char>, p: Parser, s: Seq<char>, f: nat)
    requires
        ctx.total == utf8_len(text),
        is_suffix(s, text),
    ensures
        peg(ctx, p, s, f) matches Outcome::Done(n, r) ==> tree_spans(encode_utf8(text), n),
    decreases f, 1nat, p, 1nat,
{
    crate::regime::lemma_suffix_shorter(s, text);
    lemma_peg_consumes(ctx, p, s, f);
    if let Outcome::Done(n, r) = peg(ctx, p, s, f) {
        lemma_span_of(ctx, text, s, n, r);
    }
    match p {
        Parser::Sequence(_) => lemma_seq_tree(ctx, text, p, s, f),
        Parser::Alternative(_, _) => lemma_alt_tree(ctx, text, p, s, f),
        Parser::Many(_) => lemma_many_tree(ctx, text, p, s, f),
        Parser::Optional(_) => lemma_opt_tree(ctx, text, p, s, f),
        Parser::Ref(_) => lemma_ref_tree(ctx, text, p, s, f),
        _ => {
            if let Outcome::Done(n, r) = peg(ctx, p, s, f) {
                assert(trees_span(encode_utf8(text), n.children));
            }
        },
    }
}

proof fn lemma_seq_tree(ctx: Ctx, text: Seq<char>, p: Parser, s: Seq<char>, f: nat)
    requires
        ctx.total == utf8_len(text),
        is_suffix(s, text),
        p is Sequence,
        peg(ctx, p, s, f) matches Outcome::Done(n, r) ==> spans(encode_utf8(text), n),
    ensures
        peg(ctx, p, s, f) matches Outcome::Done(n, r) ==> tree_spans(encode_utf8(text), n),
    decreases f, 1nat, p, 0nat,
{
    let ps = p->Sequence_0@;
    lemma_peg_seq_tree(ctx, text, ps, 0, s, f);
    if let Outcomes::Done(ns, r) = peg_seq(ctx, ps, 0, s, f) {
        lemma_trees_span(encode_utf8(text), ns);
    }
}

proof fn lemma_many_tree(ctx: Ctx, text: Seq<char>, p: Parser, s: Seq<char>, f: nat)
    requires
        ctx.total == utf8_len(text),
        is_suffix(s, text),
        p is Many,
        peg(ctx, p, s, f) matches Outcome::Done(n, r) ==> spans(encode_utf8(text), n),
    ensures
        peg(ctx, p, s, f) matches Outcome::Done(n, r) ==> tree_spans(encode_utf8(text), n),
    decreases f, 1nat, p, 0nat,
{
    let c = *p->Many_0;
    lemma_peg_many_tree(ctx, text, c, s, f);
    if let Outcomes::Done(ns, r) = peg_many(ctx, c, s, f) {
        lemma_trees_span(encode_utf8(text), ns);
    }
}

proof fn lemma_alt_tree(ctx: Ctx, text: Seq<char>, p: Parser, s: Seq<char>, f: nat)
    requires
        ctx.total == utf8_len(text),
        is_suffix(s, text),
        p is Alternative,
    ensures
        peg(ctx, p, s, f) matches Outcome::Done(n, r) ==> tree_spans(encode_utf8(text), n),
    decreases f, 1nat, p, 0nat,
{
    lemma_peg_tree(ctx, text, *p->Alternative_0, s, f);
    lemma_peg_tree(ctx, text, *p->Alternative_1, s, f);
}

proof fn lemma_opt_tree(ctx: Ctx, text: Seq<char>, p: Parser, s: Seq<char>, f: nat)
    requires
        ctx.total == utf8_len(text),
        is_suffix(s, text),
        p is Optional,
        peg(ctx, p, s, f) matches Outcome::Done(n, r) ==> spans(encode_utf8(text), n),
    ensures
        peg(ctx, p, s, f) matches Outcome::Done(n, r) ==> tree_spans(encode_utf8(text), n),
    decreases f, 1nat, p, 0nat,
{
    let c = *p->Optional_0;
    let b = encode_utf8(text);
    lemma_peg_tree(ctx, text, c, s, f);
    let q = pos(ctx, s);
    match peg(ctx, c, s, f) {
        Outcome::Done(m, r2) => {
            if let Outcome::Done(n, r) = peg(ctx, p, s, f) {
                assert(n.kind == SpecKind::Optional(Box::new(m)));
                assert(n.children.len() == 0);
                assert(trees_span(b, n.children));
                assert(tree_spans(b, m));
            }
        },
        Outcome::Fail(_) => {
            let inner = crate::semantics::leaf(SpecKind::Terminal(Seq::empty()), q, q, Seq::empty());
            lemma_span_empty(ctx, text, s, inner);
            assert(inner.children.len() == 0);
            assert(trees_span(b, inner.children));
            assert(spans(b, inner));
            assert(tree_spans(b, inner));
            if let Outcome::Done(n, r) = peg(ctx, p, s, f) {
                assert(n.kind == SpecKind::Optional(Box::new(inner)));
                assert(n.children.len() == 0);
                assert(trees_span(b, n.children));
            }
        },
        _ => {},
    }
}

proof fn lemma_ref_tree(ctx: Ctx, text: Seq<char>, p: Parser, s: Seq<char>, f: nat)
    requires
        ctx.total == utf8_len(text),
        is_suffix(s, text),
        p is Ref,
        peg(ctx, p, s, f) matches Outcome::Done(n, r) ==> spans(encode_utf8(text), n),
    ensures
        peg(ctx, p, s, f) matches Outcome::Done(n, r) ==> tree_spans(encode_utf8(text), n),
    decreases f, 1nat, p, 0nat,
{
    let name = p->Ref_0@;
    let b = encode_utf8(text);
    lemma_peg_rule_tree(ctx, text, name, s, f);
    if let Outcome::Done(m, r2) = peg_rule(ctx, name, s, f) {
        if let Outcome::Done(n, r) = peg(ctx, p, s, f) {
            assert(n.children == seq![m]);
            assert(seq![m].drop_last() =~= Seq::<SpecNode>::empty());
            assert(seq![m].last() == m);
            assert(trees_span(b, Seq::<SpecNode>::empty()));
            assert(trees_span(b, n.children));
            assert(n.kind == SpecKind::NonTerminal(name));
        }
    }
}

pub proof fn lemma_peg_seq_tree(ctx: Ctx, text: Seq<char>, ps: Seq<Parser>, i: int, s: Seq<char>, f: nat)
    requires
        ctx.total == utf8_len(text),
        is_suffix(s, text),
    ensures
        peg_seq(ctx, ps, i, s, f) matches Outcomes::Done(ns, r) ==> forall|j: int| 0 <= j < ns.len()
            ==> tree_spans(encode_utf8(text), #[trigger] ns[j]),
    decreases f, 1nat, ps, ps.len() - i,
{
    if 0 <= i < ps.len() {
        crate::regime::lemma_suffix_shorter(s, text);
        lemma_peg_tree(ctx, text, ps[i], s, f);
        lemma_peg_consumes(ctx, ps[i], s, f);
        if let Outcome::Done(n, rest) = peg(ctx, ps[i], s, f) {
            assert(rest == s.skip(n.value.len() as int));
            lemma_suffix_trans(rest, s, text);
            lemma_peg_seq_tree(ctx, text, ps, i + 1, rest, f);
            if let Outcomes::Done(ns, r) = peg_seq(ctx, ps, i + 1, rest, f) {
                let all = seq![n] + ns;
                assert forall|j: int| 0 <= j < all.len() implies tree_spans(encode_utf8(text), #[trigger] all[j]) by {
                    if j > 0 {
                        assert(all[j] == ns[j - 1]);
                    }
                }
            }
        }
    }
}

pub proof fn lemma_peg_many_tree(ctx: Ctx, text: Seq<char>, c: Parser, s: Seq<char>, f: nat)
    requires
        ctx.total == utf8_len(text),
        is_suffix(s, text),
    ensures
        peg_many(ctx, c, s, f) matches Outcomes::Done(ns, r) ==> forall|j: int| 0 <= j < ns.len()
            ==> tree_spans(encode_utf8(text), #[trigger] ns[j]),
    decreases f, 1nat, c, s.len() + 2,
{
    crate::regime::lemma_suffix_shorter(s, text);
    lemma_peg_tree(ctx, text, c, s, f);
    lemma_peg_consumes(ctx, c, s, f);
    if let Outcome::Done(n, rest) = peg(ctx, c, s, f) {
        if rest.len() < s.len() {
            assert(rest == s.skip(n.value.len() as int));
            lemma_suffix_trans(rest, s, text);
            lemma_peg_many_tree(ctx, text, c, rest, f);
            if let Outcomes::Done(ns, r) = peg_many(ctx, c, rest, f) {
                let all = seq![n] + ns;
                assert forall|j: int| 0 <= j < all.len() implies tree_spans(encode_utf8(text), #[trigger] all[j]) by {
                    if j > 0 {
                        assert(all[j] == ns[j - 1]);
                    }
                }
            }
        }
    }
}

pub proof fn lemma_peg_rule_tree(ctx: Ctx, text: Seq<char>, name: Seq<char>, s: Seq<char>, f: nat)
    requires
        ctx.total == utf8_len(text),
        is_suffix(s, text),
    ensures
        peg_rule(ctx, name, s, f) matches Outcome::Done(n, r) ==> tree_spans(encode_utf8(text), n),
    decreases f, 0nat, vstd::pervasive::arbitrary::<Parser>(), 0nat,
{
    if let Some(i) = find_rule(ctx.rules, name) {
        if f > 0 {
            lemma_peg_tree(ctx, text, ctx.rules[i].body, s, (f - 1) as nat);
        }
    }
}

/// Every node of the tree that a successful parse builds spans its own
/// text: its span is the byte range of its text within the parsed text.
pub proof fn law_parse_tree(rules: Seq<Rule>, name: Seq<char>, text: Seq<char>)
    ensures
        parse_spec(rules, name, text).0 matches Outcome::Done(n, rest) ==> tree_spans(encode_utf8(text), n),
{
    let ctx = parse_ctx(rules, text);
    law_parse_is_peg(rules, name, text);
    if let Outcome::Done(n, rest) = parse_spec(rules, name, text).0 {
        let f = choose|f: nat| peg_rule(ctx, name, text, f) == parse_spec(rules, name, text).0;
        lemma_suffix_refl(text);
        lemma_peg_rule_tree(ctx, text, name, text, f);
    }
}

/// Every node of the tree that a successful direct run builds spans its
/// own text within the input.
pub proof fn law_run_tree(rules: Seq<Rule>, p: Parser, text: Seq<char>)
    ensures
        fresh_run_spec(rules, p, text).0 matches Outcome::Done(n, rest) ==> tree_spans(encode_utf8(text), n),
{
    let ctx = parse_ctx(rules, text);
    law_run_is_peg(rules, p, text);
    if let Outcome::Done(n, rest) = fresh_run_spec(rules, p, text).0 {
        let f = choose|f: nat| peg(ctx, p, text, f) == fresh_run_spec(rules, p, text).0;
        lemma_suffix_refl(text);
        lemma_peg_tree(ctx, text, p, text, f);
    }
}

/// A sequence applies its parsers in order, each to the rest the previous
/// one left and with the cache it left; the first that does not succeed
/// gives the sequence's outcome unchanged, and the later ones are not applied.
pub proof fn law_sequence_steps(ctx: Ctx, ps: Seq<Parser>, i: int, input: Seq<char>, memo: Memo, active: Active)
    requires
        0 <= i < ps.len(),
    ensures
        ({
            let (o, m1) = run(ctx, ps[i], input, memo, active);
            match o {
                Outcome::Done(n, rest) => run_seq(ctx, ps, i, input, memo, active) == (
                    cons_outcome(n, run_seq(ctx, ps, i + 1, rest, m1, active).0),
                    run_seq(ctx, ps, i + 1, rest, m1, active).1,
                ),
                Outcome::Fail(e) => run_seq(ctx, ps, i, input, memo, active) == (Outcomes::Fail(e), m1),
                Outcome::Stuck(e) => run_seq(ctx, ps, i, input, memo, active) == (Outcomes::Stuck(e), m1),
                Outcome::Fault => run_seq(ctx, ps, i, input, memo, active) == (Outcomes::Fault, m1),
            }
        }),
        run_seq(ctx, ps, ps.len() as int, input, memo, active) == (Outcomes::Done(Seq::empty(), input), memo),
{
}

/// A repetition applies its parser to the input and then to each rest, as
/// long as it matches and consumes input; the first failure ends it with
/// the matches so far and the rest at which it failed; a match that consumes
/// nothing would repeat forever and ends it as `Stuck`.
pub proof fn law_many_steps(ctx: Ctx, b: Parser, input: Seq<char>, memo: Memo, active: Active)
    ensures
        ({
            let (o, m1) = run(ctx, b, input, memo, active);
            match o {
                Outcome::Done(n, rest) => if rest.len() < input.len() {
                    run_many(ctx, b, input, memo, active) == (
                        cons_outcome(n, run_many(ctx, b, rest, m1, active).0),
                        run_many(ctx, b, rest, m1, active).1,
                    )
                } else {
                    run_many(ctx, b, input, memo, active) == (
                        Outcomes::Stuck(no_progress_error(pos(ctx, input))),
                        m1,
                    )
                },
                Outcome::Fail(_) => run_many(ctx, b, input, memo, active) == (Outcomes::Done(Seq::empty(), input), m1),
                Outcome::Stuck(e) => run_many(ctx, b, input, memo, active) == (Outcomes::Stuck(e), m1),
                Outcome::Fault => run_many(ctx, b, input, memo, active) == (Outcomes::Fault, m1),
            }
        }),
{
}

/// A rule applied at a position whose result is cached gives the cached
/// result without applying the rule's parser, and leaves the cache as it
/// is; a rule applied at an uncached position that succeeds leaves its
/// result cached there.
pub proof fn law_rule_cache(ctx: Ctx, name: Seq<char>, input: Seq<char>, memo: Memo, active: Active)
    ensures
        memo.contains_key((name, pos(ctx, input))) ==> parse_rule(ctx, name, input, memo, active) == (
            Outcome::Done(memo[(name, pos(ctx, input))].0, memo[(name, pos(ctx, input))].1),
            memo,
        ),
        !memo.contains_key((name, pos(ctx, input))) ==> (parse_rule(ctx, name, input, memo, active).0 matches Outcome::Done(
            n,
            r,
        ) ==> parse_rule(ctx, name, input, memo, active).1.contains_key((name, pos(ctx, input)))
            && parse_rule(ctx, name, input, memo, active).1[(name, pos(ctx, input))] == (n, r)),
{
}

/// What a parse gives depends on the rules, the rule's name and the text
/// alone: two grammars with the same rules give the same result and cache,
/// whatever they held before.
pub proof fn law_parse_forgets_state(g1: crate::grammar::Grammar, g2: crate::grammar::Grammar, name: Seq<char>, text: Seq<char>)
    requires
        g1.rules_view() == g2.rules_view(),
    ensures
        parse_spec(g1.rules_view(), name, text) == parse_spec(g2.rules_view(), name, text),
{
}

/// After `define(name, p)`, parsing the rule `name` on a text gives what
/// running `p` directly on the text gives; only the error of a parse that
/// would never end may differ, and then both are `Stuck`.
pub proof fn law_define_then_parse(before: Seq<Rule>, after: Seq<Rule>, name: Seq<char>, p: Parser, text: Seq<char>)
    requires
        defined(before, after, name, p),
    ensures
        (parse_spec(after, name, text).0 is Stuck) <==> (fresh_run_spec(after, p, text).0 is Stuck),
        !(parse_spec(after, name, text).0 is Stuck) ==> parse_spec(after, name, text).0 == fresh_run_spec(after, p, text).0,
{
    let ctx = parse_ctx(after, text);
    law_define(before, after, name, p);
    law_parse_is_peg(after, name, text);
    law_run_is_peg(after, p, text);
    let o1 = parse_spec(after, name, text).0;
    let o2 = fresh_run_spec(after, p, text).0;
    if !(o1 is Stuck) {
        let f0 = choose|f: nat| peg_rule(ctx, name, text, f) == o1;
        assert(f0 > 0);
        assert(peg_rule(ctx, name, text, ((f0 - 1) as nat + 1) as nat) == peg(ctx, p, text, (f0 - 1) as nat));
        if o2 is Stuck {
            assert(peg(ctx, p, text, (f0 - 1) as nat) is Stuck);
        } else {
            let f1 = choose|f: nat| peg(ctx, p, text, f) == o2;
            crate::packrat::lemma_peg_unique(ctx, p, text, (f0 - 1) as nat, f1);
        }
    } else if !(o2 is Stuck) {
        let f1 = choose|f: nat| peg(ctx, p, text, f) == o2;
        assert(peg_rule(ctx, name, text, f1 + 1) == peg(ctx, p, text, f1));
        assert(peg_rule(ctx, name, text, f1 + 1) is Stuck);
    }
}

} // verus!
