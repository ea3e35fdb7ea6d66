//! The packrat interpreter computes the grammar's meaning: within a parse of
//! a text, whatever the cache holds, an outcome that is not `Stuck` is the
//! outcome of the cache-free semantics `peg` at some fuel, and a `Stuck`
//! outcome means that the cache-free semantics is `Stuck` at every fuel
//! (the parse would never end).
use vstd::prelude::*;
use crate::parser::Parser;
use crate::semantics::{
    Ctx, Memo, Active, Outcome, Outcomes, run, run_seq, run_many, parse_rule, pos, find_rule,
    lemma_find_rule,
};
use crate::peg::{peg, peg_seq, peg_many, peg_rule, lemma_peg_mono, lemma_peg_seq_mono, lemma_peg_many_mono,
    lemma_peg_rule_mono,
};
use crate::regime::{
    is_suffix, memo_sane, lemma_suffix_trans, lemma_pos_injective, lemma_run_regime, lemma_run_seq_regime,
    lemma_run_many_regime, lemma_parse_rule_regime,
};
use crate::text::utf8_len;
use crate::univ::{universe, nesting_limit, lemma_in_universe, lemma_fresh_within_limit};

verus! {

/// Every cache entry is the cache-free outcome of its rule at the suffix of
/// `text` at its position, for some fuel.
#[verifier::opaque]
pub open spec fn memo_peg_ok(ctx: Ctx, text: Seq<char>, memo: Memo) -> bool {
    forall|key: (Seq<char>, nat)| #[trigger] memo.contains_key(key) ==> exists|k: int, f: nat|
        0 <= k <= text.len() && pos(ctx, text.skip(k)) == key.1
            && peg_rule(ctx, key.0, text.skip(k), f) == Outcome::Done(memo[key].0, memo[key].1)
}

/// Every rule evaluation in progress is `Stuck` at every fuel up to `f`.
#[verifier::opaque]
pub open spec fn stuck_below(ctx: Ctx, active: Active, f: nat) -> bool {
    forall|y: (Seq<char>, Seq<char>), g: nat|
        active.contains(y) && g <= f ==> (#[trigger] peg_rule(ctx, y.0, y.1, g)) is Stuck
}

/// The context of a parse of `text`, with evaluations in progress drawn from
/// the pairs that the parse can meet.
pub open spec fn packrat_env(ctx: Ctx, text: Seq<char>, active: Active) -> bool {
    &&& ctx.total == utf8_len(text)
    &&& ctx.limit == nesting_limit(ctx.rules, seq![text])
    &&& active.subset_of(universe(ctx.rules, seq![text]).to_set())
}

/// Two outcomes of `peg` that are not `Stuck` agree.
pub proof fn lemma_peg_unique(ctx: Ctx, p: Parser, input: Seq<char>, f1: nat, f2: nat)
    requires
        !(peg(ctx, p, input, f1) is Stuck),
        !(peg(ctx, p, input, f2) is Stuck),
    ensures
        peg(ctx, p, input, f1) == peg(ctx, p, input, f2),
{
    let m = if f1 <= f2 { f2 } else { f1 };
    lemma_peg_mono(ctx, p, input, f1, m);
    lemma_peg_mono(ctx, p, input, f2, m);
}

/// A rule whose body is `Stuck` at every fuel at which the evaluations in
/// progress and the rule itself are `Stuck` is itself `Stuck` at every fuel
/// at which the evaluations in progress are.
proof fn lemma_frame_stuck(ctx: Ctx, active: Active, name: Seq<char>, input: Seq<char>, i: int, f: nat)
    requires
        find_rule(ctx.rules, name) == Some(i),
        forall|g: nat| stuck_below(ctx, active.insert((name, input)), g)
            ==> (#[trigger] peg(ctx, ctx.rules[i].body, input, g)) is Stuck,
        stuck_below(ctx, active, f),
    ensures
        forall|g: nat| g <= f ==> (#[trigger] peg_rule(ctx, name, input, g)) is Stuck,
    decreases f,
{
    reveal(stuck_below);
    if f > 0 {
        assert(stuck_below(ctx, active, (f - 1) as nat));
        lemma_frame_stuck(ctx, active, name, input, i, (f - 1) as nat);
        assert(stuck_below(ctx, active.insert((name, input)), (f - 1) as nat));
        assert(peg(ctx, ctx.rules[i].body, input, (f - 1) as nat) is Stuck);
    }
    assert forall|g: nat| g <= f implies (#[trigger] peg_rule(ctx, name, input, g)) is Stuck by {
        if g == f && f > 0 {
            assert(peg_rule(ctx, name, input, f) == peg(ctx, ctx.rules[i].body, input, (f - 1) as nat));
        }
    }
}

/// The conclusion of the correctness lemmas for one parser.
pub open spec fn run_peg_claim(ctx: Ctx, text: Seq<char>, p: Parser, s: Seq<char>, memo: Memo, active: Active) -> bool {
    &&& memo_peg_ok(ctx, text, run(ctx, p, s, memo, active).1)
    &&& !(run(ctx, p, s, memo, active).0 is Stuck) ==> exists|f: nat| peg(ctx, p, s, f) == run(ctx, p, s, memo, active).0
    &&& run(ctx, p, s, memo, active).0 is Stuck ==> forall|f: nat|
        stuck_below(ctx, active, f) ==> (#[trigger] peg(ctx, p, s, f)) is Stuck
}

/// The hypotheses of the correctness lemmas.
pub open spec fn run_peg_pre(ctx: Ctx, text: Seq<char>, s: Seq<char>, memo: Memo, active: Active) -> bool {
    &&& packrat_env(ctx, text, active)
    &&& is_suffix(s, text)
    &&& memo_sane(ctx, text, memo)
    &&& memo_peg_ok(ctx, text, memo)
}

pub proof fn lemma_run_peg(ctx: Ctx, text: Seq<char>, p: Parser, s: Seq<char>, memo: Memo, active: Active)
    requires
        run_peg_pre(ctx, text, s, memo, active),
    ensures
        run_peg_claim(ctx, text, p, s, memo, active),
    decreases ctx.limit - active.len(), 1nat, p, 1nat,
{
    match p {
        Parser::Literal(_) => {
            assert(peg(ctx, p, s, 0) == run(ctx, p, s, memo, active).0);
        },
        Parser::Satisfy(_) => {
            assert(peg(ctx, p, s, 0) == run(ctx, p, s, memo, active).0);
        },
        Parser::Sequence(_) => {
            lemma_seq_peg(ctx, text, p, s, memo, active);
        },
        Parser::Alternative(_, _) => {
            lemma_alt_peg(ctx, text, p, s, memo, active);
        },
        Parser::Many(_) => {
            lemma_many_peg(ctx, text, p, s, memo, active);
        },
        Parser::Optional(_) => {
            lemma_opt_peg(ctx, text, p, s, memo, active);
        },
        Parser::Ref(_) => {
            lemma_ref_peg(ctx, text, p, s, memo, active);
        },
    }
}

proof fn lemma_seq_peg(ctx: Ctx, text: Seq<char>, p: Parser, s: Seq<char>, memo: Memo, active: Active)
    requires
        run_peg_pre(ctx, text, s, memo, active),
        p is Sequence,
    ensures
        run_peg_claim(ctx, text, p, s, memo, active),
    decreases ctx.limit - active.len(), 1nat, p, 0nat,
{
    let ps = p->Sequence_0@;
    lemma_run_seq_peg(ctx, text, ps, 0, s, memo, active);
    if !(run(ctx, p, s, memo, active).0 is Stuck) {
        let f = choose|f: nat| peg_seq(ctx, ps, 0, s, f) == run_seq(ctx, ps, 0, s, memo, active).0;
        assert(peg(ctx, p, s, f) == run(ctx, p, s, memo, active).0);
    } else {
        assert forall|f: nat| stuck_below(ctx, active, f) implies (#[trigger] peg(ctx, p, s, f)) is Stuck by {
            assert(peg_seq(ctx, ps, 0, s, f) is Stuck);
        }
    }
}

proof fn lemma_many_peg(ctx: Ctx, text: Seq<char>, p: Parser, s: Seq<char>, memo: Memo, active: Active)
    requires
        run_peg_pre(ctx, text, s, memo, active),
        p is Many,
    ensures
        run_peg_claim(ctx, text, p, s, memo, active),
    decreases ctx.limit - active.len(), 1nat, p, 0nat,
{
    let b = *p->Many_0;
    lemma_run_many_peg(ctx, text, b, s, memo, active);
    if !(run(ctx, p, s, memo, active).0 is Stuck) {
        let f = choose|f: nat| peg_many(ctx, b, s, f) == run_many(ctx, b, s, memo, active).0;
        assert(peg(ctx, p, s, f) == run(ctx, p, s, memo, active).0);
    } else {
        assert forall|f: nat| stuck_below(ctx, active, f) implies (#[trigger] peg(ctx, p, s, f)) is Stuck by {
            assert(peg_many(ctx, b, s, f) is Stuck);
        }
    }
}

proof fn lemma_opt_peg(ctx: Ctx, text: Seq<char>, p: Parser, s: Seq<char>, memo: Memo, active: Active)
    requires
        run_peg_pre(ctx, text, s, memo, active),
        p is Optional,
    ensures
        run_peg_claim(ctx, text, p, s, memo, active),
    decreases ctx.limit - active.len(), 1nat, p, 0nat,
{
    let b = *p->Optional_0;
    lemma_run_peg(ctx, text, b, s, memo, active);
    let o = run(ctx, b, s, memo, active).0;
    if !(o is Stuck) {
        let f = choose|f: nat| peg(ctx, b, s, f) == o;
        assert(peg(ctx, p, s, f) == run(ctx, p, s, memo, active).0);
    } else {
        assert forall|f: nat| stuck_below(ctx, active, f) implies (#[trigger] peg(ctx, p, s, f)) is Stuck by {
            assert(peg(ctx, b, s, f) is Stuck);
        }
    }
}

proof fn lemma_ref_peg(ctx: Ctx, text: Seq<char>, p: Parser, s: Seq<char>, memo: Memo, active: Active)
    requires
        run_peg_pre(ctx, text, s, memo, active),
        p is Ref,
    ensures
        run_peg_claim(ctx, text, p, s, memo, active),
    decreases ctx.limit - active.len(), 1nat, p, 0nat,
{
    let name = p->Ref_0@;
    lemma_parse_rule_peg(ctx, text, name, s, memo, active);
    let o = parse_rule(ctx, name, s, memo, active).0;
    if !(o is Stuck) {
        let f = choose|f: nat| peg_rule(ctx, name, s, f) == o;
        assert(peg(ctx, p, s, f) == run(ctx, p, s, memo, active).0);
    } else {
        assert forall|f: nat| stuck_below(ctx, active, f) implies (#[trigger] peg(ctx, p, s, f)) is Stuck by {
            assert(peg_rule(ctx, name, s, f) is Stuck);
        }
    }
}

/// If the first branch is not `Stuck` at some fuel and the second is `Stuck`
/// at fuel `f`, so is the alternative at `f`.
proof fn lemma_alt_stuck_step(ctx: Ctx, p: Parser, s: Seq<char>, f1: nat, f: nat)
    requires
        p is Alternative,
        peg(ctx, *p->Alternative_0, s, f1) is Fail,
        peg(ctx, *p->Alternative_1, s, f) is Stuck,
    ensures
        peg(ctx, p, s, f) is Stuck,
{
    if !(peg(ctx, *p->Alternative_0, s, f) is Stuck) {
        lemma_peg_unique(ctx, *p->Alternative_0, s, f, f1);
    }
}

proof fn lemma_alt_peg(ctx: Ctx, text: Seq<char>, p: Parser, s: Seq<char>, memo: Memo, active: Active)
    requires
        run_peg_pre(ctx, text, s, memo, active),
        p is Alternative,
    ensures
        run_peg_claim(ctx, text, p, s, memo, active),
    decreases ctx.limit - active.len(), 1nat, p, 0nat,
{
    let a = *p->Alternative_0;
    let b = *p->Alternative_1;
    lemma_run_peg(ctx, text, a, s, memo, active);
    let (o1, m1) = run(ctx, a, s, memo, active);
    if o1 is Fail {
        lemma_run_regime(ctx, text, a, s, memo, active);
        lemma_run_peg(ctx, text, b, s, m1, active);
        let f1 = choose|f: nat| peg(ctx, a, s, f) == o1;
        let o2 = run(ctx, b, s, m1, active).0;
        if !(o2 is Stuck) {
            let f2 = choose|f: nat| peg(ctx, b, s, f) == o2;
            let m = if f1 <= f2 { f2 } else { f1 };
            lemma_peg_mono(ctx, a, s, f1, m);
            lemma_peg_mono(ctx, b, s, f2, m);
            assert(peg(ctx, p, s, m) == run(ctx, p, s, memo, active).0);
        } else {
            assert forall|f: nat| stuck_below(ctx, active, f) implies (#[trigger] peg(ctx, p, s, f)) is Stuck by {
                assert(peg(ctx, b, s, f) is Stuck);
                lemma_alt_stuck_step(ctx, p, s, f1, f);
            }
        }
    } else if !(o1 is Stuck) {
        let f1 = choose|f: nat| peg(ctx, a, s, f) == o1;
        assert(peg(ctx, p, s, f1) == run(ctx, p, s, memo, active).0);
    } else {
        assert forall|f: nat| stuck_below(ctx, active, f) implies (#[trigger] peg(ctx, p, s, f)) is Stuck by {
            assert(peg(ctx, a, s, f) is Stuck);
        }
    }
}

/// If a part matches at some fuel and the rest of the sequence is `Stuck`
/// at fuel `f`, so is the sequence from that part at `f`.
proof fn lemma_seq_stuck_step(ctx: Ctx, ps: Seq<Parser>, i: int, s: Seq<char>, n: crate::ast::SpecNode, r: Seq<char>, f1: nat, f: nat)
    requires
        0 <= i < ps.len(),
        peg(ctx, ps[i], s, f1) == Outcome::Done(n, r),
        peg_seq(ctx, ps, i + 1, r, f) is Stuck,
    ensures
        peg_seq(ctx, ps, i, s, f) is Stuck,
{
    if !(peg(ctx, ps[i], s, f) is Stuck) {
        lemma_peg_unique(ctx, ps[i], s, f, f1);
    }
}

#[verifier::rlimit(30)]
pub proof fn lemma_run_seq_peg(
    ctx: Ctx,
    text: Seq<char>,
    ps: Seq<Parser>,
    i: int,
    s: Seq<char>,
    memo: Memo,
    active: Active,
)
    requires
        run_peg_pre(ctx, text, s, memo, active),
    ensures
        memo_peg_ok(ctx, text, run_seq(ctx, ps, i, s, memo, active).1),
        !(run_seq(ctx, ps, i, s, memo, active).0 is Stuck) ==> exists|f: nat|
            peg_seq(ctx, ps, i, s, f) == run_seq(ctx, ps, i, s, memo, active).0,
        run_seq(ctx, ps, i, s, memo, active).0 is Stuck ==> forall|f: nat|
            stuck_below(ctx, active, f) ==> (#[trigger] peg_seq(ctx, ps, i, s, f)) is Stuck,
    decreases ctx.limit - active.len(), 1nat, ps, ps.len() - i,
{
    if i < 0 || i >= ps.len() {
        assert(peg_seq(ctx, ps, i, s, 0) == run_seq(ctx, ps, i, s, memo, active).0);
    } else {
        lemma_run_seq_regime(ctx, text, ps, i, s, memo, active);
        lemma_run_peg(ctx, text, ps[i], s, memo, active);
        lemma_run_regime(ctx, text, ps[i], s, memo, active);
        let (o, m1) = run(ctx, ps[i], s, memo, active);
        match o {
            Outcome::Done(n, r) => {
                let f1 = choose|f: nat| peg(ctx, ps[i], s, f) == o;
                lemma_suffix_trans(r, s, text);
                lemma_run_seq_peg(ctx, text, ps, i + 1, r, m1, active);
                let j = i + 1;
                let os2 = run_seq(ctx, ps, j, r, m1, active).0;
                if !(os2 is Stuck) {
                    let f2 = choose|f: nat| peg_seq(ctx, ps, j, r, f) == os2;
                    let m = if f1 <= f2 { f2 } else { f1 };
                    lemma_peg_mono(ctx, ps[i], s, f1, m);
                    lemma_peg_seq_mono(ctx, ps, j, r, f2, m);
                    assert(peg_seq(ctx, ps, i, s, m) == run_seq(ctx, ps, i, s, memo, active).0);
                } else {
                    assert forall|f: nat| stuck_below(ctx, active, f) implies (#[trigger] peg_seq(ctx, ps, i, s, f)) is Stuck by {
                        assert(peg_seq(ctx, ps, j, r, f) is Stuck);
                        lemma_seq_stuck_step(ctx, ps, i, s, n, r, f1, f);
                    }
                }
            },
            Outcome::Fail(_) => {
                let f1 = choose|f: nat| peg(ctx, ps[i], s, f) == o;
                assert(peg_seq(ctx, ps, i, s, f1) == run_seq(ctx, ps, i, s, memo, active).0);
            },
            Outcome::Stuck(_) => {
                assert forall|f: nat| stuck_below(ctx, active, f) implies (#[trigger] peg_seq(ctx, ps, i, s, f)) is Stuck by {
                    assert(peg(ctx, ps[i], s, f) is Stuck);
                }
            },
            Outcome::Fault => {},
        }
    }
}

/// If the repeated parser matches at some fuel, consuming input, and the
/// rest of the repetition is `Stuck` at fuel `f` (or it does not consume
/// input), the repetition is `Stuck` at `f`.
proof fn lemma_many_stuck_step(ctx: Ctx, b: Parser, s: Seq<char>, n: crate::ast::SpecNode, r: Seq<char>, f1: nat, f: nat)
    requires
        peg(ctx, b, s, f1) == Outcome::Done(n, r),
        r.len() < s.len() ==> peg_many(ctx, b, r, f) is Stuck,
    ensures
        peg_many(ctx, b, s, f) is Stuck,
{
    if !(peg(ctx, b, s, f) is Stuck) {
        lemma_peg_unique(ctx, b, s, f, f1);
    }
}

#[verifier::rlimit(30)]
pub proof fn lemma_run_many_peg(ctx: Ctx, text: Seq<char>, b: Parser, s: Seq<char>, memo: Memo, active: Active)
    requires
        run_peg_pre(ctx, text, s, memo, active),
    ensures
        memo_peg_ok(ctx, text, run_many(ctx, b, s, memo, active).1),
        !(run_many(ctx, b, s, memo, active).0 is Stuck) ==> exists|f: nat|
            peg_many(ctx, b, s, f) == run_many(ctx, b, s, memo, active).0,
        run_many(ctx, b, s, memo, active).0 is Stuck ==> forall|f: nat|
            stuck_below(ctx, active, f) ==> (#[trigger] peg_many(ctx, b, s, f)) is Stuck,
    decreases ctx.limit - active.len(), 1nat, b, s.len() + 2,
{
    lemma_run_many_regime(ctx, text, b, s, memo, active);
    lemma_run_peg(ctx, text, b, s, memo, active);
    lemma_run_regime(ctx, text, b, s, memo, active);
    let (o, m1) = run(ctx, b, s, memo, active);
    match o {
        Outcome::Done(n, r) => {
            let f1 = choose|f: nat| peg(ctx, b, s, f) == o;
            if r.len() < s.len() {
                lemma_suffix_trans(r, s, text);
                lemma_run_many_peg(ctx, text, b, r, m1, active);
                let os2 = run_many(ctx, b, r, m1, active).0;
                if !(os2 is Stuck) {
                    let f2 = choose|f: nat| peg_many(ctx, b, r, f) == os2;
                    let m = if f1 <= f2 { f2 } else { f1 };
                    lemma_peg_mono(ctx, b, s, f1, m);
                    lemma_peg_many_mono(ctx, b, r, f2, m);
                    assert(peg_many(ctx, b, s, m) == run_many(ctx, b, s, memo, active).0);
                } else {
                    assert forall|f: nat| stuck_below(ctx, active, f) implies (#[trigger] peg_many(ctx, b, s, f)) is Stuck by {
                        assert(peg_many(ctx, b, r, f) is Stuck);
                        lemma_many_stuck_step(ctx, b, s, n, r, f1, f);
                    }
                }
            } else {
                assert forall|f: nat| stuck_below(ctx, active, f) implies (#[trigger] peg_many(ctx, b, s, f)) is Stuck by {
                    lemma_many_stuck_step(ctx, b, s, n, r, f1, f);
                }
            }
        },
        Outcome::Fail(_) => {
            let f1 = choose|f: nat| peg(ctx, b, s, f) == o;
            assert(peg_many(ctx, b, s, f1) == run_many(ctx, b, s, memo, active).0);
        },
        Outcome::Stuck(_) => {
            assert forall|f: nat| stuck_below(ctx, active, f) implies (#[trigger] peg_many(ctx, b, s, f)) is Stuck by {
                assert(peg(ctx, b, s, f) is Stuck);
            }
        },
        Outcome::Fault => {},
    }
}

pub proof fn lemma_parse_rule_peg(
    ctx: Ctx,
    text: Seq<char>,
    name: Seq<char>,
    s: Seq<char>,
    memo: Memo,
    active: Active,
)
    requires
        run_peg_pre(ctx, text, s, memo, active),
    ensures
        memo_peg_ok(ctx, text, parse_rule(ctx, name, s, memo, active).1),
        !(parse_rule(ctx, name, s, memo, active).0 is Stuck) ==> exists|f: nat|
            peg_rule(ctx, name, s, f) == parse_rule(ctx, name, s, memo, active).0,
        parse_rule(ctx, name, s, memo, active).0 is Stuck ==> forall|f: nat|
            stuck_below(ctx, active, f) ==> (#[trigger] peg_rule(ctx, name, s, f)) is Stuck,
    decreases ctx.limit - active.len(), 0nat, vstd::pervasive::arbitrary::<Parser>(), 0nat,
{
    reveal(memo_peg_ok);
    reveal(stuck_below);
    let key = (name, pos(ctx, s));
    let k0 = choose|j: int| 0 <= j <= text.len() && s == text.skip(j);
    if memo.contains_key(key) {
        let (k, f) = choose|k: int, f: nat|
            0 <= k <= text.len() && pos(ctx, text.skip(k)) == key.1
                && peg_rule(ctx, key.0, text.skip(k), f) == Outcome::Done(memo[key].0, memo[key].1);
        lemma_pos_injective(ctx, text, k, k0);
        assert(peg_rule(ctx, name, s, f) == parse_rule(ctx, name, s, memo, active).0);
    } else {
        match find_rule(ctx.rules, name) {
            None => {
                assert(peg_rule(ctx, name, s, 0) == parse_rule(ctx, name, s, memo, active).0);
            },
            Some(i) => {
                let x = (name, s);
                lemma_find_rule(ctx.rules, name);
                assert(text == seq![text][0]);
                assert(crate::univ::reachable(seq![text], s)) by {
                    assert(s == seq![text][0].skip(k0));
                }
                lemma_in_universe(ctx.rules, seq![text], i, s);
                if active.contains(x) {
                    assert forall|f: nat| stuck_below(ctx, active, f) implies (#[trigger] peg_rule(ctx, name, s, f)) is Stuck by {
                        assert(peg_rule(ctx, x.0, x.1, f) is Stuck);
                    }
                } else {
                    lemma_fresh_within_limit(ctx.rules, seq![text], active, x);
                    let deeper = active.insert(x);
                    assert(deeper.subset_of(universe(ctx.rules, seq![text]).to_set()));
                    let body = ctx.rules[i].body;
                    lemma_run_peg(ctx, text, body, s, memo, deeper);
                    lemma_run_regime(ctx, text, body, s, memo, deeper);
                    let (o, m) = run(ctx, body, s, memo, deeper);
                    if o is Stuck {
                        assert forall|f: nat| stuck_below(ctx, active, f) implies (#[trigger] peg_rule(ctx, name, s, f)) is Stuck by {
                            lemma_frame_stuck(ctx, active, name, s, i, f);
                        }
                    } else {
                        let f = choose|f: nat| peg(ctx, body, s, f) == o;
                        assert(peg_rule(ctx, name, s, f + 1) == o);
                        if let Outcome::Done(n, r) = o {
                            let m2 = m.insert(key, (n, r));
                            assert forall|kk: (Seq<char>, nat)| #[trigger] m2.contains_key(kk) implies exists|k: int, g: nat|
                                0 <= k <= text.len() && pos(ctx, text.skip(k)) == kk.1
                                    && peg_rule(ctx, kk.0, text.skip(k), g) == Outcome::Done(m2[kk].0, m2[kk].1) by {
                                if kk == key {
                                    assert(pos(ctx, text.skip(k0)) == kk.1 && peg_rule(ctx, kk.0, text.skip(k0), f + 1)
                                        == Outcome::Done(m2[kk].0, m2[kk].1));
                                } else {
                                    assert(m.contains_key(kk));
                                }
                            }
                        }
                    }
                }
            },
        }
    }
}

} // verus!
