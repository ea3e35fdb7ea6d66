//! The meaning of a grammar without a cache: parsing expression grammar
//! semantics, with a fuel that bounds how deeply rules may be nested.  A
//! grammar whose evaluation never ends is `Stuck` at every fuel.
use vstd::prelude::*;
use crate::parser::Parser;
use crate::semantics::{
    Ctx, Outcome, Outcomes, literal_outcome, satisfy_outcome, sequence_outcome, many_outcome,
    alternative_outcome, optional_outcome, ref_outcome, cons_outcome, find_rule, pos,
    undefined_error, recursion_error, no_progress_error,
};

verus! {

/// Apply `p` to `input`, allowing `fuel` nested rule applications.
pub open spec fn peg(ctx: Ctx, p: Parser, input: Seq<char>, fuel: nat) -> Outcome
    decreases fuel, 1nat, p, 0nat,
{
    match p {
        Parser::Literal(s) => literal_outcome(ctx, s@, input),
        Parser::Satisfy(c) => satisfy_outcome(ctx, c, input),
        Parser::Sequence(ps) => sequence_outcome(ctx, input, peg_seq(ctx, ps@, 0, input, fuel)),
        Parser::Alternative(a, b) => match peg(ctx, *a, input, fuel) {
            Outcome::Fail(e1) => alternative_outcome(e1, peg(ctx, *b, input, fuel)),
            o => o,
        },
        Parser::Many(b) => many_outcome(ctx, input, peg_many(ctx, *b, input, fuel)),
        Parser::Optional(b) => optional_outcome(ctx, input, peg(ctx, *b, input, fuel)),
        Parser::Ref(name) => ref_outcome(ctx, name@, input, peg_rule(ctx, name@, input, fuel)),
    }
}

/// Apply `ps[i..]` one after another.
pub open spec fn peg_seq(ctx: Ctx, ps: Seq<Parser>, i: int, input: Seq<char>, fuel: nat) -> Outcomes
    decreases fuel, 1nat, ps, ps.len() - i,
{
    if i < 0 || i >= ps.len() {
        Outcomes::Done(Seq::empty(), input)
    } else {
        match peg(ctx, ps[i], input, fuel) {
            Outcome::Done(n, rest) => cons_outcome(n, peg_seq(ctx, ps, i + 1, rest, fuel)),
            Outcome::Fail(e) => Outcomes::Fail(e),
            Outcome::Stuck(e) => Outcomes::Stuck(e),
            Outcome::Fault => Outcomes::Fault,
        }
    }
}

/// Apply `b` as many times as it matches.
pub open spec fn peg_many(ctx: Ctx, b: Parser, input: Seq<char>, fuel: nat) -> Outcomes
    decreases fuel, 1nat, b, input.len() + 1,
{
    match peg(ctx, b, input, fuel) {
        Outcome::Done(n, rest) => if rest.len() < input.len() {
            cons_outcome(n, peg_many(ctx, b, rest, fuel))
        } else {
            Outcomes::Stuck(no_progress_error(pos(ctx, input)))
        },
        Outcome::Fail(_) => Outcomes::Done(Seq::empty(), input),
        Outcome::Stuck(e) => Outcomes::Stuck(e),
        Outcome::Fault => Outcomes::Fault,
    }
}

/// Apply the rule named `name`; each rule application uses one unit of fuel.
pub open spec fn peg_rule(ctx: Ctx, name: Seq<char>, input: Seq<char>, fuel: nat) -> Outcome
    decreases fuel, 0nat, vstd::pervasive::arbitrary::<Parser>(), 0nat,
{
    match find_rule(ctx.rules, name) {
        None => Outcome::Fail(undefined_error(name, pos(ctx, input))),
        Some(i) => if fuel == 0 {
            Outcome::Stuck(recursion_error(name, pos(ctx, input)))
        } else {
            peg(ctx, ctx.rules[i].body, input, (fuel - 1) as nat)
        },
    }
}

/// More fuel does not change an outcome that is not `Stuck`.
pub proof fn lemma_peg_mono(ctx: Ctx, p: Parser, input: Seq<char>, f1: nat, f2: nat)
    requires
        f1 <= f2,
        !(peg(ctx, p, input, f1) is Stuck),
    ensures
        peg(ctx, p, input, f2) == peg(ctx, p, input, f1),
    decreases f1, 1nat, p, 0nat,
{
    match p {
        Parser::Sequence(ps) => {
            lemma_peg_seq_mono(ctx, ps@, 0, input, f1, f2);
        },
        Parser::Alternative(a, b) => {
            lemma_peg_mono(ctx, *a, input, f1, f2);
            if peg(ctx, *a, input, f1) is Fail {
                lemma_peg_mono(ctx, *b, input, f1, f2);
            }
        },
        Parser::Many(b) => {
            lemma_peg_many_mono(ctx, *b, input, f1, f2);
        },
        Parser::Optional(b) => {
            lemma_peg_mono(ctx, *b, input, f1, f2);
        },
        Parser::Ref(name) => {
            lemma_peg_rule_mono(ctx, name@, input, f1, f2);
        },
        _ => {},
    }
}

pub proof fn lemma_peg_seq_mono(ctx: Ctx, ps: Seq<Parser>, i: int, input: Seq<char>, f1: nat, f2: nat)
    requires
        f1 <= f2,
        !(peg_seq(ctx, ps, i, input, f1) is Stuck),
    ensures
        peg_seq(ctx, ps, i, input, f2) == peg_seq(ctx, ps, i, input, f1),
    decreases f1, 1nat, ps, ps.len() - i,
{
    if 0 <= i < ps.len() {
        lemma_peg_mono(ctx, ps[i], input, f1, f2);
        if let Outcome::Done(n, rest) = peg(ctx, ps[i], input, f1) {
            lemma_peg_seq_mono(ctx, ps, i + 1, rest, f1, f2);
        }
    }
}

pub proof fn lemma_peg_many_mono(ctx: Ctx, b: Parser, input: Seq<char>, f1: nat, f2: nat)
    requires
        f1 <= f2,
        !(peg_many(ctx, b, input, f1) is Stuck),
    ensures
        peg_many(ctx, b, input, f2) == peg_many(ctx, b, input, f1),
    decreases f1, 1nat, b, input.len() + 1,
{
    lemma_peg_mono(ctx, b, input, f1, f2);
    if let Outcome::Done(n, rest) = peg(ctx, b, input, f1) {
        if rest.len() < input.len() {
            lemma_peg_many_mono(ctx, b, rest, f1, f2);
        }
    }
}

pub proof fn lemma_peg_rule_mono(ctx: Ctx, name: Seq<char>, input: Seq<char>, f1: nat, f2: nat)
    requires
        f1 <= f2,
        !(peg_rule(ctx, name, input, f1) is Stuck),
    ensures
        peg_rule(ctx, name, input, f2) == peg_rule(ctx, name, input, f1),
    decreases f1, 0nat, vstd::pervasive::arbitrary::<Parser>(), 0nat,
{
    if let Some(i) = find_rule(ctx.rules, name) {
        lemma_peg_mono(ctx, ctx.rules[i].body, input, (f1 - 1) as nat, (f2 - 1) as nat);
    }
}

} // verus!
