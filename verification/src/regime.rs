//! Within one parse of a text, every input is a suffix of the text, byte
//! positions identify those suffixes, and the cache therefore holds, for a
//! rule at a position, a rest that is a suffix of the input at that
//! position.  Then no rest is ever longer than its input.
use vstd::prelude::*;
use crate::parser::Parser;
use crate::semantics::{Ctx, Memo, Active, Outcome, Outcomes, run, run_seq, run_many, parse_rule, pos, find_rule};
use crate::text::{utf8_len, lemma_utf8_len_skip};

verus! {

/// `r` is what is left of `s` after dropping a prefix.
pub open spec fn is_suffix(r: Seq<char>, s: Seq<char>) -> bool {
    exists|j: int| 0 <= j <= s.len() && r == s.skip(j)
}

/// Every cache entry belongs to a suffix of `text` (the one at its
/// position) and its rest is a suffix of that suffix.
pub open spec fn memo_sane(ctx: Ctx, text: Seq<char>, memo: Memo) -> bool {
    forall|key: (Seq<char>, nat)| #[trigger] memo.contains_key(key) ==> exists|k: int|
        0 <= k <= text.len() && pos(ctx, text.skip(k)) == key.1 && is_suffix(memo[key].1, text.skip(k))
}

/// Sanity depends on the context only through the text's length.
pub proof fn lemma_memo_sane_total(c1: Ctx, c2: Ctx, text: Seq<char>, memo: Memo)
    requires
        c1.total == c2.total,
        memo_sane(c1, text, memo),
    ensures
        memo_sane(c2, text, memo),
{
    assert forall|key: (Seq<char>, nat)| #[trigger] memo.contains_key(key) implies exists|k: int|
        0 <= k <= text.len() && pos(c2, text.skip(k)) == key.1 && is_suffix(memo[key].1, text.skip(k)) by {
        let k = choose|k: int|
            0 <= k <= text.len() && pos(c1, text.skip(k)) == key.1 && is_suffix(memo[key].1, text.skip(k));
        assert(pos(c2, text.skip(k)) == pos(c1, text.skip(k)));
    }
}

pub proof fn lemma_suffix_refl(s: Seq<char>)
    ensures
        is_suffix(s, s),
{
    assert(s == s.skip(0));
}

pub proof fn lemma_suffix_trans(a: Seq<char>, b: Seq<char>, c: Seq<char>)
    requires
        is_suffix(a, b),
        is_suffix(b, c),
    ensures
        is_suffix(a, c),
{
    let j1 = choose|j: int| 0 <= j <= b.len() && a == b.skip(j);
    let j2 = choose|j: int| 0 <= j <= c.len() && b == c.skip(j);
    assert(a =~= c.skip(j1 + j2));
}

pub proof fn lemma_suffix_skip(s: Seq<char>, k: int)
    requires
        0 <= k <= s.len(),
    ensures
        is_suffix(s.skip(k), s),
{
}

pub proof fn lemma_suffix_shorter(r: Seq<char>, s: Seq<char>)
    requires
        is_suffix(r, s),
    ensures
        utf8_len(r) <= utf8_len(s),
        r.len() <= s.len(),
{
    let j = choose|j: int| 0 <= j <= s.len() && r == s.skip(j);
    lemma_utf8_len_skip(s, j);
}

/// Distinct suffixes of the text have distinct positions.
pub proof fn lemma_pos_injective(ctx: Ctx, text: Seq<char>, k1: int, k2: int)
    requires
        ctx.total == utf8_len(text),
        0 <= k1 <= text.len(),
        0 <= k2 <= text.len(),
        pos(ctx, text.skip(k1)) == pos(ctx, text.skip(k2)),
    ensures
        k1 == k2,
{
    lemma_utf8_len_skip(text, k1);
    lemma_utf8_len_skip(text, k2);
    if k1 < k2 {
        assert(text.skip(k1).skip(k2 - k1) =~= text.skip(k2));
        lemma_utf8_len_skip(text.skip(k1), k2 - k1);
    } else if k2 < k1 {
        assert(text.skip(k2).skip(k1 - k2) =~= text.skip(k1));
        lemma_utf8_len_skip(text.skip(k2), k1 - k2);
    }
}

/// Applying a parser to a suffix of the text, with a sane cache: no fault,
/// the rest is a suffix of the input, and the cache stays sane.
pub proof fn lemma_run_regime(ctx: Ctx, text: Seq<char>, p: Parser, input: Seq<char>, memo: Memo, active: Active)
    requires
        ctx.total == utf8_len(text),
        is_suffix(input, text),
        memo_sane(ctx, text, memo),
    ensures
        !(run(ctx, p, input, memo, active).0 is Fault),
        run(ctx, p, input, memo, active).0 matches Outcome::Done(_, r) ==> is_suffix(r, input),
        memo_sane(ctx, text, run(ctx, p, input, memo, active).1),
    decreases ctx.limit - active.len(), 1nat, p, 0nat,
{
    match p {
        Parser::Literal(s) => {
            if s@.len() <= input.len() {
                lemma_suffix_skip(input, s@.len() as int);
            }
        },
        Parser::Satisfy(_) => {
            if input.len() > 0 {
                lemma_suffix_skip(input, 1);
            }
        },
        Parser::Sequence(ps) => {
            lemma_run_seq_regime(ctx, text, ps@, 0, input, memo, active);
        },
        Parser::Alternative(a, b) => {
            lemma_run_regime(ctx, text, *a, input, memo, active);
            let (o1, m1) = run(ctx, *a, input, memo, active);
            if o1 is Fail {
                lemma_run_regime(ctx, text, *b, input, m1, active);
            }
        },
        Parser::Many(b) => {
            lemma_run_many_regime(ctx, text, *b, input, memo, active);
        },
        Parser::Optional(b) => {
            lemma_run_regime(ctx, text, *b, input, memo, active);
            lemma_suffix_refl(input);
            if let Outcome::Done(_, r) = run(ctx, *b, input, memo, active).0 {
                lemma_suffix_shorter(r, input);
            }
        },
        Parser::Ref(name) => {
            lemma_parse_rule_regime(ctx, text, name@, input, memo, active);
            if let Outcome::Done(_, r) = parse_rule(ctx, name@, input, memo, active).0 {
                lemma_suffix_shorter(r, input);
            }
        },
    }
}

pub proof fn lemma_run_seq_regime(
    ctx: Ctx,
    text: Seq<char>,
    ps: Seq<Parser>,
    i: int,
    input: Seq<char>,
    memo: Memo,
    active: Active,
)
    requires
        ctx.total == utf8_len(text),
        is_suffix(input, text),
        memo_sane(ctx, text, memo),
    ensures
        !(run_seq(ctx, ps, i, input, memo, active).0 is Fault),
        run_seq(ctx, ps, i, input, memo, active).0 matches Outcomes::Done(_, r) ==> is_suffix(r, input),
        memo_sane(ctx, text, run_seq(ctx, ps, i, input, memo, active).1),
    decreases ctx.limit - active.len(), 1nat, ps, ps.len() - i,
{
    if i < 0 || i >= ps.len() {
        lemma_suffix_refl(input);
    } else {
        lemma_run_regime(ctx, text, ps[i], input, memo, active);
        let (o, m1) = run(ctx, ps[i], input, memo, active);
        if let Outcome::Done(_, r) = o {
            lemma_suffix_trans(r, input, text);
            lemma_run_seq_regime(ctx, text, ps, i + 1, r, m1, active);
            if let Outcomes::Done(_, r2) = run_seq(ctx, ps, i + 1, r, m1, active).0 {
                lemma_suffix_trans(r2, r, input);
            }
        }
    }
}

pub proof fn lemma_run_many_regime(ctx: Ctx, text: Seq<char>, b: Parser, input: Seq<char>, memo: Memo, active: Active)
    requires
        ctx.total == utf8_len(text),
        is_suffix(input, text),
        memo_sane(ctx, text, memo),
    ensures
        !(run_many(ctx, b, input, memo, active).0 is Fault),
        run_many(ctx, b, input, memo, active).0 matches Outcomes::Done(_, r) ==> is_suffix(r, input),
        memo_sane(ctx, text, run_many(ctx, b, input, memo, active).1),
    decreases ctx.limit - active.len(), 1nat, b, input.len() + 1,
{
    lemma_run_regime(ctx, text, b, input, memo, active);
    lemma_suffix_refl(input);
    let (o, m1) = run(ctx, b, input, memo, active);
    if let Outcome::Done(_, r) = o {
        if r.len() < input.len() {
            lemma_suffix_trans(r, input, text);
            lemma_run_many_regime(ctx, text, b, r, m1, active);
            if let Outcomes::Done(_, r2) = run_many(ctx, b, r, m1, active).0 {
                lemma_suffix_trans(r2, r, input);
            }
        }
    }
}

pub proof fn lemma_parse_rule_regime(
    ctx: Ctx,
    text: Seq<char>,
    name: Seq<char>,
    input: Seq<char>,
    memo: Memo,
    active: Active,
)
    requires
        ctx.total == utf8_len(text),
        is_suffix(input, text),
        memo_sane(ctx, text, memo),
    ensures
        !(parse_rule(ctx, name, input, memo, active).0 is Fault),
        parse_rule(ctx, name, input, memo, active).0 matches Outcome::Done(_, r) ==> is_suffix(r, input),
        memo_sane(ctx, text, parse_rule(ctx, name, input, memo, active).1),
    decreases ctx.limit - active.len(), 0nat, vstd::pervasive::arbitrary::<Parser>(), 0nat,
{
    let key = (name, pos(ctx, input));
    let k0 = choose|j: int| 0 <= j <= text.len() && input == text.skip(j);
    if memo.contains_key(key) {
        let k = choose|k: int|
            0 <= k <= text.len() && pos(ctx, text.skip(k)) == key.1 && is_suffix(memo[key].1, text.skip(k));
        lemma_pos_injective(ctx, text, k, k0);
    } else {
        match find_rule(ctx.rules, name) {
            None => {},
            Some(i) => {
                if !(active.contains((name, input)) || !active.finite() || active.len() >= ctx.limit) {
                    let deeper = active.insert((name, input));
                    lemma_run_regime(ctx, text, ctx.rules[i].body, input, memo, deeper);
                    let (o, m) = run(ctx, ctx.rules[i].body, input, memo, deeper);
                    if let Outcome::Done(n, r) = o {
                        let m2 = m.insert(key, (n, r));
                        assert forall|kk: (Seq<char>, nat)| #[trigger] m2.contains_key(kk) implies exists|k: int|
                            0 <= k <= text.len() && pos(ctx, text.skip(k)) == kk.1 && is_suffix(m2[kk].1, text.skip(k)) by {
                            if kk == key {
                                assert(pos(ctx, text.skip(k0)) == kk.1 && is_suffix(m2[kk].1, text.skip(k0)));
                            } else {
                                assert(m.contains_key(kk));
                            }
                        }
                    }
                }
            },
        }
    }
}

} // verus!
