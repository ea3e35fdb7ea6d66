//! Within a text, a cache whose entries each hold the node of the prefix
//! they consumed keeps that property under any application of a parser,
//! whatever the rules: every node an application builds holds the text it
//! consumed and spans it.
use vstd::prelude::*;
use vstd::utf8::encode_utf8;
use crate::ast::{SpecNode, SpecKind};
use crate::parser::Parser;
use crate::semantics::{
    Ctx, Memo, Active, Outcome, Outcomes, run, run_seq, run_many, parse_rule, pos, find_rule, concat_values,
    sequence_outcome, many_outcome, optional_outcome, ref_outcome, leaf,
};
use crate::regime::{
    is_suffix, memo_sane, lemma_suffix_trans, lemma_suffix_shorter, lemma_pos_injective, lemma_run_regime,
};
use crate::laws::{
    consumes, consumes_all, tree_spans, trees_span, lemma_pos_split, lemma_concat_cons, lemma_trees_span,
    lemma_span_of, lemma_span_empty,
};
use crate::text::utf8_len;

verus! {

/// The node consumed a prefix of `s`, leaving `r`, and every node of its
/// tree spans its text within `text`.
pub open spec fn good(ctx: Ctx, text: Seq<char>, s: Seq<char>, n: SpecNode, r: Seq<char>) -> bool {
    &&& consumes(ctx, s, n, r)
    &&& tree_spans(encode_utf8(text), n)
}

/// Every cache entry is good at the suffix of `text` at its position.
pub open spec fn memo_good(ctx: Ctx, text: Seq<char>, memo: Memo) -> bool {
    forall|key: (Seq<char>, nat)| #[trigger] memo.contains_key(key) ==> exists|k: int|
        0 <= k <= text.len() && pos(ctx, text.skip(k)) == key.1 && good(ctx, text, text.skip(k), memo[key].0, memo[key].1)
}

/// The hypotheses of the lemmas below.
pub open spec fn good_pre(ctx: Ctx, text: Seq<char>, s: Seq<char>, memo: Memo) -> bool {
    &&& ctx.total == utf8_len(text)
    &&& is_suffix(s, text)
    &&& memo_sane(ctx, text, memo)
    &&& memo_good(ctx, text, memo)
}

/// The conclusion of the lemmas below for one parser.
pub open spec fn good_claim(ctx: Ctx, text: Seq<char>, p: Parser, s: Seq<char>, memo: Memo, active: Active) -> bool {
    &&& memo_good(ctx, text, run(ctx, p, s, memo, active).1)
    &&& run(ctx, p, s, memo, active).0 matches Outcome::Done(n, r) ==> good(ctx, text, s, n, r)
}

/// Goodness depends on the context only through the text's length.
pub proof fn lemma_memo_good_total(c1: Ctx, c2: Ctx, text: Seq<char>, memo: Memo)
    requires
        c1.total == c2.total,
        memo_good(c1, text, memo),
    ensures
        memo_good(c2, text, memo),
{
    assert forall|key: (Seq<char>, nat)| #[trigger] memo.contains_key(key) implies exists|k: int|
        0 <= k <= text.len() && pos(c2, text.skip(k)) == key.1 && good(c2, text, text.skip(k), memo[key].0, memo[key].1) by {
        let k = choose|k: int|
            0 <= k <= text.len() && pos(c1, text.skip(k)) == key.1 && good(c1, text, text.skip(k), memo[key].0, memo[key].1);
        assert(pos(c2, text.skip(k)) == pos(c1, text.skip(k)));
        assert(pos(c2, memo[key].1) == pos(c1, memo[key].1));
    }
}

proof fn lemma_seq_node(ctx: Ctx, text: Seq<char>, s: Seq<char>, ns: Seq<SpecNode>, r: Seq<char>)
    requires
        ctx.total == utf8_len(text),
        is_suffix(s, text),
        consumes_all(s, ns, r),
        forall|j: int| 0 <= j < ns.len() ==> tree_spans(encode_utf8(text), #[trigger] ns[j]),
    ensures
        sequence_outcome(ctx, s, Outcomes::Done(ns, r)) matches Outcome::Done(n, r2) && good(ctx, text, s, n, r2),
{
    let n = sequence_outcome(ctx, s, Outcomes::Done(ns, r))->Done_0;
    lemma_suffix_shorter(s, text);
    lemma_pos_split(ctx, concat_values(ns), r);
    lemma_span_of(ctx, text, s, n, r);
    lemma_trees_span(encode_utf8(text), ns);
}

proof fn lemma_many_node(ctx: Ctx, text: Seq<char>, s: Seq<char>, ns: Seq<SpecNode>, r: Seq<char>)
    requires
        ctx.total == utf8_len(text),
        is_suffix(s, text),
        consumes_all(s, ns, r),
        forall|j: int| 0 <= j < ns.len() ==> tree_spans(encode_utf8(text), #[trigger] ns[j]),
    ensures
        many_outcome(ctx, s, Outcomes::Done(ns, r)) matches Outcome::Done(n, r2) && good(ctx, text, s, n, r2),
{
    let n = many_outcome(ctx, s, Outcomes::Done(ns, r))->Done_0;
    lemma_suffix_shorter(s, text);
    lemma_pos_split(ctx, concat_values(ns), r);
    lemma_span_of(ctx, text, s, n, r);
    lemma_trees_span(encode_utf8(text), ns);
}

proof fn lemma_opt_node(ctx: Ctx, text: Seq<char>, s: Seq<char>, o: Outcome)
    requires
        ctx.total == utf8_len(text),
        is_suffix(s, text),
        o matches Outcome::Done(m, r) ==> good(ctx, text, s, m, r),
    ensures
        optional_outcome(ctx, s, o) matches Outcome::Done(n, r2) ==> good(ctx, text, s, n, r2),
{
    let b = encode_utf8(text);
    let q = pos(ctx, s);
    lemma_suffix_shorter(s, text);
    match o {
        Outcome::Done(m, r) => {
            lemma_pos_split(ctx, m.value, r);
            let n = optional_outcome(ctx, s, o)->Done_0;
            lemma_span_of(ctx, text, s, n, r);
            assert(n.children.len() == 0);
            assert(trees_span(b, n.children));
        },
        Outcome::Fail(_) => {
            let inner = leaf(SpecKind::Terminal(Seq::empty()), q, q, Seq::empty());
            lemma_span_empty(ctx, text, s, inner);
            assert(trees_span(b, inner.children));
            assert(tree_spans(b, inner));
            let n = optional_outcome(ctx, s, o)->Done_0;
            lemma_span_empty(ctx, text, s, n);
            assert(trees_span(b, n.children));
            assert(Seq::<char>::empty() + s =~= s);
        },
        _ => {},
    }
}

proof fn lemma_ref_node(ctx: Ctx, text: Seq<char>, name: Seq<char>, s: Seq<char>, o: Outcome)
    requires
        ctx.total == utf8_len(text),
        is_suffix(s, text),
        o matches Outcome::Done(m, r) ==> good(ctx, text, s, m, r),
    ensures
        ref_outcome(ctx, name, s, o) matches Outcome::Done(n, r2) ==> good(ctx, text, s, n, r2),
{
    let b = encode_utf8(text);
    lemma_suffix_shorter(s, text);
    if let Outcome::Done(m, r) = o {
        lemma_pos_split(ctx, m.value, r);
        let n = ref_outcome(ctx, name, s, o)->Done_0;
        lemma_span_of(ctx, text, s, n, r);
        assert(n.children == seq![m]);
        assert(seq![m].drop_last() =~= Seq::<SpecNode>::empty());
        assert(trees_span(b, Seq::<SpecNode>::empty()));
        assert(trees_span(b, n.children));
    }
}

pub proof fn lemma_run_good(ctx: Ctx, text: Seq<char>, p: Parser, s: Seq<char>, memo: Memo, active: Active)
    requires
        good_pre(ctx, text, s, memo),
    ensures
        good_claim(ctx, text, p, s, memo, active),
    decreases ctx.limit - active.len(), 1nat, p, 1nat,
{
    match p {
        Parser::Literal(_) => {
            lemma_suffix_shorter(s, text);
            crate::laws::lemma_peg_consumes(ctx, p, s, 0);
            crate::laws::lemma_peg_tree(ctx, text, p, s, 0);
        },
        Parser::Satisfy(_) => {
            lemma_suffix_shorter(s, text);
            crate::laws::lemma_peg_consumes(ctx, p, s, 0);
            crate::laws::lemma_peg_tree(ctx, text, p, s, 0);
        },
        Parser::Sequence(ps) => {
            lemma_run_seq_good(ctx, text, ps@, 0, s, memo, active);
            if let Outcomes::Done(ns, r) = run_seq(ctx, ps@, 0, s, memo, active).0 {
                lemma_seq_node(ctx, text, s, ns, r);
            }
        },
        Parser::Alternative(_, _) => lemma_alt_good(ctx, text, p, s, memo, active),
        Parser::Many(b) => {
            lemma_run_many_good(ctx, text, *b, s, memo, active);
            if let Outcomes::Done(ns, r) = run_many(ctx, *b, s, memo, active).0 {
                lemma_many_node(ctx, text, s, ns, r);
            }
        },
        Parser::Optional(_) => lemma_opt_good(ctx, text, p, s, memo, active),
        Parser::Ref(_) => lemma_ref_good(ctx, text, p, s, memo, active),
    }
}

proof fn lemma_alt_good(ctx: Ctx, text: Seq<char>, p: Parser, s: Seq<char>, memo: Memo, active: Active)
    requires
        good_pre(ctx, text, s, memo),
        p is Alternative,
    ensures
        good_claim(ctx, text, p, s, memo, active),
    decreases ctx.limit - active.len(), 1nat, p, 0nat,
{
    let a = *p->Alternative_0;
    let b = *p->Alternative_1;
    lemma_run_good(ctx, text, a, s, memo, active);
    lemma_run_regime(ctx, text, a, s, memo, active);
    let (o1, m1) = run(ctx, a, s, memo, active);
    if o1 is Fail {
        lemma_run_good(ctx, text, b, s, m1, active);
    }
}

proof fn lemma_opt_good(ctx: Ctx, text: Seq<char>, p: Parser, s: Seq<char>, memo: Memo, active: Active)
    requires
        good_pre(ctx, text, s, memo),
        p is Optional,
    ensures
        good_claim(ctx, text, p, s, memo, active),
    decreases ctx.limit - active.len(), 1nat, p, 0nat,
{
    let b = *p->Optional_0;
    lemma_run_good(ctx, text, b, s, memo, active);
    lemma_opt_node(ctx, text, s, run(ctx, b, s, memo, active).0);
}

proof fn lemma_ref_good(ctx: Ctx, text: Seq<char>, p: Parser, s: Seq<char>, memo: Memo, active: Active)
    requires
        good_pre(ctx, text, s, memo),
        p is Ref,
    ensures
        good_claim(ctx, text, p, s, memo, active),
    decreases ctx.limit - active.len(), 1nat, p, 0nat,
{
    let name = p->Ref_0@;
    lemma_parse_rule_good(ctx, text, name, s, memo, active);
    lemma_ref_node(ctx, text, name, s, parse_rule(ctx, name, s, memo, active).0);
}

pub proof fn lemma_run_seq_good(ctx: Ctx, text: Seq<char>, ps: Seq<Parser>, i: int, s: Seq<char>, memo: Memo, active: Active)
    requires
        good_pre(ctx, text, s, memo),
    ensures
        memo_good(ctx, text, run_seq(ctx, ps, i, s, memo, active).1),
        run_seq(ctx, ps, i, s, memo, active).0 matches Outcomes::Done(ns, r) ==> consumes_all(s, ns, r)
            && forall|j: int| 0 <= j < ns.len() ==> tree_spans(encode_utf8(text), #[trigger] ns[j]),
    decreases ctx.limit - active.len(), 1nat, ps, ps.len() - i,
{
    if i < 0 || i >= ps.len() {
        assert(concat_values(Seq::<SpecNode>::empty()) + s =~= s);
    } else {
        lemma_run_good(ctx, text, ps[i], s, memo, active);
        lemma_run_regime(ctx, text, ps[i], s, memo, active);
        let (o, m1) = run(ctx, ps[i], s, memo, active);
        if let Outcome::Done(n, rest) = o {
            lemma_suffix_trans(rest, s, text);
            lemma_run_seq_good(ctx, text, ps, i + 1, rest, m1, active);
            if let Outcomes::Done(ns, r) = run_seq(ctx, ps, i + 1, rest, m1, active).0 {
                lemma_concat_cons(n, ns);
                assert(n.value + concat_values(ns) + r =~= n.value + (concat_values(ns) + r));
                let all = seq![n] + ns;
                assert forall|j: int| 0 <= j < all.len() implies tree_spans(encode_utf8(text), #[trigger] all[j]) by {
                    if j > 0 {
                        assert(all[j] == ns[j - 1]);
                    }
                }
            }
        }
    }
}

pub proof fn lemma_run_many_good(ctx: Ctx, text: Seq<char>, b: Parser, s: Seq<char>, memo: Memo, active: Active)
    requires
        good_pre(ctx, text, s, memo),
    ensures
        memo_good(ctx, text, run_many(ctx, b, s, memo, active).1),
        run_many(ctx, b, s, memo, active).0 matches Outcomes::Done(ns, r) ==> consumes_all(s, ns, r)
            && forall|j: int| 0 <= j < ns.len() ==> tree_spans(encode_utf8(text), #[trigger] ns[j]),
    decreases ctx.limit - active.len(), 1nat, b, s.len() + 2,
{
    lemma_run_good(ctx, text, b, s, memo, active);
    lemma_run_regime(ctx, text, b, s, memo, active);
    let (o, m1) = run(ctx, b, s, memo, active);
    match o {
        Outcome::Done(n, rest) => {
            if rest.len() < s.len() {
                lemma_suffix_trans(rest, s, text);
                lemma_run_many_good(ctx, text, b, rest, m1, active);
                if let Outcomes::Done(ns, r) = run_many(ctx, b, rest, m1, active).0 {
                    lemma_concat_cons(n, ns);
                    assert(n.value + concat_values(ns) + r =~= n.value + (concat_values(ns) + r));
                    let all = seq![n] + ns;
                    assert forall|j: int| 0 <= j < all.len() implies tree_spans(encode_utf8(text), #[trigger] all[j]) by {
                        if j > 0 {
                            assert(all[j] == ns[j - 1]);
                        }
                    }
                }
            }
        },
        Outcome::Fail(_) => {
            assert(concat_values(Seq::<SpecNode>::empty()) + s =~= s);
        },
        _ => {},
    }
}

pub proof fn lemma_parse_rule_good(ctx: Ctx, text: Seq<char>, name: Seq<char>, s: Seq<char>, memo: Memo, active: Active)
    requires
        good_pre(ctx, text, s, memo),
    ensures
        memo_good(ctx, text, parse_rule(ctx, name, s, memo, active).1),
        parse_rule(ctx, name, s, memo, active).0 matches Outcome::Done(n, r) ==> good(ctx, text, s, n, r),
    decreases ctx.limit - active.len(), 0nat, vstd::pervasive::arbitrary::<Parser>(), 0nat,
{
    let key = (name, pos(ctx, s));
    let k0 = choose|j: int| 0 <= j <= text.len() && s == text.skip(j);
    if memo.contains_key(key) {
        let k = choose|k: int|
            0 <= k <= text.len() && pos(ctx, text.skip(k)) == key.1 && good(ctx, text, text.skip(k), memo[key].0, memo[key].1);
        lemma_pos_injective(ctx, text, k, k0);
    } else {
        match find_rule(ctx.rules, name) {
            None => {},
            Some(i) => {
                if !(active.contains((name, s)) || !active.finite() || active.len() >= ctx.limit) {
                    let deeper = active.insert((name, s));
                    let body = ctx.rules[i].body;
                    lemma_run_good(ctx, text, body, s, memo, deeper);
                    let (o, m) = run(ctx, body, s, memo, deeper);
                    if let Outcome::Done(n, r) = o {
                        let m2 = m.insert(key, (n, r));
                        assert forall|kk: (Seq<char>, nat)| #[trigger] m2.contains_key(kk) implies exists|k: int|
                            0 <= k <= text.len() && pos(ctx, text.skip(k)) == kk.1
                                && good(ctx, text, text.skip(k), m2[kk].0, m2[kk].1) by {
                            if kk == key {
                                assert(pos(ctx, text.skip(k0)) == kk.1 && good(ctx, text, text.skip(k0), m2[kk].0, m2[kk].1));
                            } else {
                                assert(m.contains_key(kk));
                            }
                        }
                    }
                }
            },
        }
    }
}

} // verus!
