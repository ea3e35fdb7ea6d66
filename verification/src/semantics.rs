//! What applying a parser to text produces: a mathematical statement of the
//! packrat interpreter, including its memo table.
use vstd::prelude::*;
use crate::ast::{SpecKind, SpecNode};
use crate::errors::SpecError;
use crate::parser::{Parser, Rule};
use crate::text::utf8_len;

verus! {

/// Cached results of rules: (rule name, byte position) -> (node, rest).
pub type Memo = Map<(Seq<char>, nat), (SpecNode, Seq<char>)>;

/// The (rule name, input) pairs whose evaluation is in progress.
pub type Active = Set<(Seq<char>, Seq<char>)>;

/// What an evaluation sees besides its input: the rules, the byte length of
/// the text last given to `Grammar::parse`, and a bound on how many rule
/// evaluations can be nested.  `Grammar::parse` and `Parser::run` choose the
/// bound as the number of (rule, suffix) pairs they can meet, so that it is
/// never reached (see `univ.rs`).
pub struct Ctx {
    pub rules: Seq<Rule>,
    pub total: nat,
    pub limit: nat,
}

/// The outcome of applying one parser.
pub enum Outcome {
    /// Success: the node built and the input left over.
    Done(SpecNode, Seq<char>),
    /// An ordinary failure, which alternatives, options and repetitions absorb.
    Fail(SpecError),
    /// The evaluation would never end (a rule re-entered on the same input
    /// while still being evaluated, or a repetition whose parser consumed
    /// nothing); it ends the whole evaluation.
    Stuck(SpecError),
    /// The evaluation would compute a span end from a rest longer than its
    /// input (possible only with stale cache entries); the arithmetic
    /// underflows.
    Fault,
}

/// The outcome of applying a list of parsers, or one parser repeatedly.
pub enum Outcomes {
    Done(Seq<SpecNode>, Seq<char>),
    Fail(SpecError),
    Stuck(SpecError),
    Fault,
}

/// `usize::saturating_sub`.
pub open spec fn sat_sub(a: nat, b: nat) -> nat {
    if a >= b {
        (a - b) as nat
    } else {
        0
    }
}

/// The byte position of `input`: how far it lies from the end of the text.
pub open spec fn pos(ctx: Ctx, input: Seq<char>) -> nat {
    sat_sub(ctx.total, utf8_len(input))
}

/// The concatenated values of a list of nodes.
pub open spec fn concat_values(ns: Seq<SpecNode>) -> Seq<char>
    decreases ns.len(),
{
    if ns.len() == 0 {
        Seq::empty()
    } else {
        concat_values(ns.drop_last()) + ns.last().value
    }
}

/// The index of the first rule named `name`, searching from `i`.
pub open spec fn find_rule_from(rules: Seq<Rule>, name: Seq<char>, i: int) -> Option<int>
    decreases rules.len() - i,
{
    if i < 0 || i >= rules.len() {
        None
    } else if rules[i].name@ == name {
        Some(i)
    } else {
        find_rule_from(rules, name, i + 1)
    }
}

/// The index of the first rule named `name`.
pub open spec fn find_rule(rules: Seq<Rule>, name: Seq<char>) -> Option<int> {
    find_rule_from(rules, name, 0)
}

pub proof fn lemma_find_rule_from(rules: Seq<Rule>, name: Seq<char>, i: int)
    ensures
        find_rule_from(rules, name, i) matches Some(j) ==> 0 <= j < rules.len() && rules[j].name@ == name,
    decreases rules.len() - i,
{
    if 0 <= i < rules.len() && rules[i].name@ != name {
        lemma_find_rule_from(rules, name, i + 1);
    }
}

/// The search finds the first rule with the name, and nothing where no rule has it.
pub proof fn lemma_find_rule_from_exact(rules: Seq<Rule>, name: Seq<char>, i: int)
    requires
        0 <= i,
    ensures
        find_rule_from(rules, name, i) matches Some(j) ==> i <= j < rules.len() && rules[j].name@ == name
            && forall|k: int| i <= k < j ==> rules[k].name@ != name,
        find_rule_from(rules, name, i) is None ==> forall|k: int| i <= k < rules.len() ==> rules[k].name@ != name,
    decreases rules.len() - i,
{
    if i < rules.len() && rules[i].name@ != name {
        lemma_find_rule_from_exact(rules, name, i + 1);
    }
}

pub proof fn lemma_find_rule(rules: Seq<Rule>, name: Seq<char>)
    ensures
        find_rule(rules, name) matches Some(j) ==> 0 <= j < rules.len() && rules[j].name@ == name,
{
    lemma_find_rule_from(rules, name, 0);
}

/// The description that single-character nodes and errors carry.
pub open spec fn predicate_text() -> Seq<char> {
    "character satisfying predicate"@
}

/// A node without children.
pub open spec fn leaf(kind: SpecKind, start: nat, end: nat, value: Seq<char>) -> SpecNode {
    SpecNode { kind, start, end, value, children: Seq::empty() }
}

/// An error without expected tokens.
pub open spec fn bare_error(message: Seq<char>, position: nat) -> SpecError {
    SpecError { message, position, expected: Seq::empty() }
}

/// The error of a literal that does not match.
pub open spec fn literal_error(s: Seq<char>, position: nat) -> SpecError {
    SpecError { message: "expected '"@ + s + "'"@, position, expected: seq![s] }
}

/// The error of a character outside the class.
pub open spec fn char_error(c: char, position: nat) -> SpecError {
    SpecError {
        message: "unexpected char '"@ + seq![c] + "'"@,
        position,
        expected: seq![predicate_text()],
    }
}

/// The error of a rule that is not defined.
pub open spec fn undefined_error(name: Seq<char>, position: nat) -> SpecError {
    bare_error("rule '"@ + name + "' not defined"@, position)
}

/// The error of a rule re-entered on the same input.
pub open spec fn recursion_error(name: Seq<char>, position: nat) -> SpecError {
    bare_error("rule '"@ + name + "' recurses without consuming input"@, position)
}

/// The error of a repetition whose parser consumed nothing.
pub open spec fn no_progress_error(position: nat) -> SpecError {
    bare_error("repetition does not consume input"@, position)
}

/// Matching a literal.
pub open spec fn literal_outcome(ctx: Ctx, s: Seq<char>, input: Seq<char>) -> Outcome {
    let p = pos(ctx, input);
    if s.len() <= input.len() && input.take(s.len() as int) == s {
        Outcome::Done(
            leaf(SpecKind::Terminal(s), p, p + utf8_len(s), s),
            input.skip(s.len() as int),
        )
    } else {
        Outcome::Fail(literal_error(s, p))
    }
}

/// Matching a single character of a class.
pub open spec fn satisfy_outcome(ctx: Ctx, class: crate::chars::CharClass, input: Seq<char>) -> Outcome {
    let p = pos(ctx, input);
    if input.len() == 0 {
        Outcome::Fail(bare_error("unexpected end of input"@, p))
    } else if class.holds(input[0]) {
        Outcome::Done(
            leaf(SpecKind::Satisfy(predicate_text()), p, p + utf8_len(seq![input[0]]), seq![input[0]]),
            input.skip(1),
        )
    } else {
        Outcome::Fail(char_error(input[0], p))
    }
}

/// The node of a sequence, from the nodes of its parts.
pub open spec fn sequence_outcome(ctx: Ctx, input: Seq<char>, os: Outcomes) -> Outcome {
    match os {
        Outcomes::Done(ns, rest) => Outcome::Done(
            SpecNode {
                kind: SpecKind::Sequence(ns),
                start: pos(ctx, input),
                end: pos(ctx, rest),
                value: concat_values(ns),
                children: ns,
            },
            rest,
        ),
        Outcomes::Fail(e) => Outcome::Fail(e),
        Outcomes::Stuck(e) => Outcome::Stuck(e),
        Outcomes::Fault => Outcome::Fault,
    }
}

/// The node of a repetition, from the nodes of its matches.
pub open spec fn many_outcome(ctx: Ctx, input: Seq<char>, os: Outcomes) -> Outcome {
    match os {
        Outcomes::Done(ns, rest) => {
            let p = pos(ctx, input);
            Outcome::Done(
                SpecNode {
                    kind: SpecKind::Many(ns),
                    start: p,
                    end: p + sat_sub(utf8_len(input), utf8_len(rest)),
                    value: concat_values(ns),
                    children: ns,
                },
                rest,
            )
        },
        Outcomes::Fail(e) => Outcome::Fail(e),
        Outcomes::Stuck(e) => Outcome::Stuck(e),
        Outcomes::Fault => Outcome::Fault,
    }
}

/// The outcome of an alternative whose first branch failed with `e1`.
pub open spec fn alternative_outcome(e1: SpecError, o2: Outcome) -> Outcome {
    match o2 {
        Outcome::Fail(e2) => Outcome::Fail(
            SpecError { expected: e1.expected + e2.expected, ..e1 },
        ),
        _ => o2,
    }
}

/// The node of an optional parser.
pub open spec fn optional_outcome(ctx: Ctx, input: Seq<char>, o: Outcome) -> Outcome {
    let p = pos(ctx, input);
    match o {
        Outcome::Done(n, rest) => if utf8_len(rest) <= utf8_len(input) {
            Outcome::Done(
                leaf(
                    SpecKind::Optional(Box::new(n)),
                    p,
                    p + (utf8_len(input) - utf8_len(rest)) as nat,
                    n.value,
                ),
                rest,
            )
        } else {
            Outcome::Fault
        },
        Outcome::Fail(_) => Outcome::Done(
            leaf(
                SpecKind::Optional(Box::new(leaf(SpecKind::Terminal(Seq::empty()), p, p, Seq::empty()))),
                p,
                p,
                Seq::empty(),
            ),
            input,
        ),
        _ => o,
    }
}

/// The node of a rule reference, from the outcome of the rule.
pub open spec fn ref_outcome(ctx: Ctx, name: Seq<char>, input: Seq<char>, o: Outcome) -> Outcome {
    let p = pos(ctx, input);
    match o {
        Outcome::Done(n, rest) => if utf8_len(rest) <= utf8_len(input) {
            Outcome::Done(
                SpecNode {
                    kind: SpecKind::NonTerminal(name),
                    start: p,
                    end: p + (utf8_len(input) - utf8_len(rest)) as nat,
                    value: n.value,
                    children: seq![n],
                },
                rest,
            )
        } else {
            Outcome::Fault
        },
        _ => o,
    }
}

/// Put a node in front of a list outcome.
pub open spec fn cons_outcome(n: SpecNode, os: Outcomes) -> Outcomes {
    match os {
        Outcomes::Done(ns, rest) => Outcomes::Done(seq![n] + ns, rest),
        _ => os,
    }
}

/// Apply parser `p` to `input`, with cache `memo` and the evaluations in
/// progress `active`; gives the outcome and the cache afterwards.
pub open spec fn run(ctx: Ctx, p: Parser, input: Seq<char>, memo: Memo, active: Active) -> (Outcome, Memo)
    decreases ctx.limit - active.len(), 1nat, p, 0nat,
{
    match p {
        Parser::Literal(s) => (literal_outcome(ctx, s@, input), memo),
        Parser::Satisfy(c) => (satisfy_outcome(ctx, c, input), memo),
        Parser::Sequence(ps) => {
            let (os, m) = run_seq(ctx, ps@, 0, input, memo, active);
            (sequence_outcome(ctx, input, os), m)
        },
        Parser::Alternative(a, b) => {
            let (o1, m1) = run(ctx, *a, input, memo, active);
            match o1 {
                Outcome::Fail(e1) => {
                    let (o2, m2) = run(ctx, *b, input, m1, active);
                    (alternative_outcome(e1, o2), m2)
                },
                _ => (o1, m1),
            }
        },
        Parser::Many(b) => {
            let (os, m) = run_many(ctx, *b, input, memo, active);
            (many_outcome(ctx, input, os), m)
        },
        Parser::Optional(b) => {
            let (o, m) = run(ctx, *b, input, memo, active);
            (optional_outcome(ctx, input, o), m)
        },
        Parser::Ref(name) => {
            let (o, m) = parse_rule(ctx, name@, input, memo, active);
            (ref_outcome(ctx, name@, input, o), m)
        },
    }
}

/// Apply the parsers `ps[i..]` one after another.
pub open spec fn run_seq(
    ctx: Ctx,
    ps: Seq<Parser>,
    i: int,
    input: Seq<char>,
    memo: Memo,
    active: Active,
) -> (Outcomes, Memo)
    decreases ctx.limit - active.len(), 1nat, ps, ps.len() - i,
{
    if i < 0 || i >= ps.len() {
        (Outcomes::Done(Seq::empty(), input), memo)
    } else {
        let (o, m1) = run(ctx, ps[i], input, memo, active);
        match o {
            Outcome::Done(n, rest) => {
                let (os, m2) = run_seq(ctx, ps, i + 1, rest, m1, active);
                (cons_outcome(n, os), m2)
            },
            Outcome::Fail(e) => (Outcomes::Fail(e), m1),
            Outcome::Stuck(e) => (Outcomes::Stuck(e), m1),
            Outcome::Fault => (Outcomes::Fault, m1),
        }
    }
}

/// Apply `b` as many times as it matches.
pub open spec fn run_many(ctx: Ctx, b: Parser, input: Seq<char>, memo: Memo, active: Active) -> (Outcomes, Memo)
    decreases ctx.limit - active.len(), 1nat, b, input.len() + 1,
{
    let (o, m1) = run(ctx, b, input, memo, active);
    match o {
        Outcome::Done(n, rest) => if rest.len() < input.len() {
            let (os, m2) = run_many(ctx, b, rest, m1, active);
            (cons_outcome(n, os), m2)
        } else {
            (Outcomes::Stuck(no_progress_error(pos(ctx, input))), m1)
        },
        Outcome::Fail(_) => (Outcomes::Done(Seq::empty(), input), m1),
        Outcome::Stuck(e) => (Outcomes::Stuck(e), m1),
        Outcome::Fault => (Outcomes::Fault, m1),
    }
}

/// Apply the rule named `name` to `input`, through the cache: a cached
/// success is returned as it is; otherwise the rule's parser is applied and
/// a success is cached under (name, position).
pub open spec fn parse_rule(ctx: Ctx, name: Seq<char>, input: Seq<char>, memo: Memo, active: Active) -> (Outcome, Memo)
    decreases ctx.limit - active.len(), 0nat, vstd::pervasive::arbitrary::<Parser>(), 0nat,
{
    let key = (name, pos(ctx, input));
    if memo.contains_key(key) {
        (Outcome::Done(memo[key].0, memo[key].1), memo)
    } else {
        match find_rule(ctx.rules, name) {
            None => (Outcome::Fail(undefined_error(name, pos(ctx, input))), memo),
            Some(i) => {
                if active.contains((name, input)) || !active.finite() || active.len() >= ctx.limit {
                    (Outcome::Stuck(recursion_error(name, pos(ctx, input))), memo)
                } else {
                    let (o, m) = run(ctx, ctx.rules[i].body, input, memo, active.insert((name, input)));
                    match o {
                        Outcome::Done(n, rest) => (o, m.insert(key, (n, rest))),
                        _ => (o, m),
                    }
                }
            },
        }
    }
}

} // verus!
