//! The packrat interpreter: applies a parser to text, caching the successes
//! of rules by (name, byte position).
use vstd::prelude::*;
use crate::ast::{
    Node, NodeKind, Span, SpecNode, copy_node, copy_nodes, node_views, lemma_node_views,
    lemma_node_views_push,
};
use crate::errors::{ParseError, SpecError};
use crate::chars::CharClass;
use crate::parser::{Parser, Rule};
use crate::semantics::{
    Active, Ctx, Outcome, Outcomes, run, run_seq, run_many, parse_rule, concat_values, pos,
    sat_sub, find_rule, find_rule_from, cons_outcome, literal_outcome, satisfy_outcome,
    sequence_outcome, many_outcome, optional_outcome, ref_outcome, literal_error, char_error, bare_error,
    undefined_error, recursion_error, no_progress_error, predicate_text,
};
use crate::memo::{MemoEntry, memo_map, keys_unique, memo_find, memo_store, lemma_memo_map_get};
use crate::text::{
    utf8_len, lemma_utf8_len_skip, byte_len, char_len_utf8, char_string, starts_with, suffix_from,
    char_count,
};
use crate::univ::{reachable, universe, nesting_limit, lemma_reachable_skip, lemma_in_universe,
    lemma_fresh_within_limit,
};

verus! {

/// The outcome of applying a parser.
pub enum Out {
    Done(Node, String),
    Fail(ParseError),
    Stuck(ParseError),
    Fault,
}

impl Out {
    pub open spec fn view(&self) -> Outcome {
        match self {
            Out::Done(n, r) => Outcome::Done(n.view(), r@),
            Out::Fail(e) => Outcome::Fail(e.view()),
            Out::Stuck(e) => Outcome::Stuck(e.view()),
            Out::Fault => Outcome::Fault,
        }
    }
}

/// The pairs (rule name, input) of a stack of evaluations in progress.
pub open spec fn active_set(v: Seq<(String, String)>) -> Active {
    v.map_values(|e: (String, String)| (e.0@, e.1@)).to_set()
}

/// The evaluation environment is coherent: the bound comes from the base
/// strings, and every base string fits in memory.
pub open spec fn env_ok(rules: Seq<Rule>, ctx: Ctx, base: Seq<Seq<char>>) -> bool {
    &&& ctx.rules == rules
    &&& ctx.limit == nesting_limit(rules, base)
    &&& ctx.total <= usize::MAX
    &&& forall|i: int| 0 <= i < base.len() ==> utf8_len(#[trigger] base[i]) <= usize::MAX
}

/// The cache is well formed and holds only reachable rests.
pub open spec fn memo_ok(v: Seq<MemoEntry>, base: Seq<Seq<char>>) -> bool {
    &&& keys_unique(v)
    &&& forall|k: (Seq<char>, nat)| #[trigger] memo_map(v).contains_key(k) ==> reachable(base, memo_map(v)[k].1)
}

/// Put nodes in front of a list outcome.
pub open spec fn prepend(ns: Seq<SpecNode>, r: (Outcomes, crate::semantics::Memo)) -> (Outcomes, crate::semantics::Memo) {
    (match r.0 {
        Outcomes::Done(ms, rest) => Outcomes::Done(ns + ms, rest),
        other => other,
    }, r.1)
}

proof fn lemma_prepend_cons(ns: Seq<SpecNode>, n: SpecNode, os: Outcomes, m: crate::semantics::Memo)
    ensures
        prepend(ns, (cons_outcome(n, os), m)) == prepend(ns.push(n), (os, m)),
{
    match os {
        Outcomes::Done(ms, rest) => {
            assert(ns + (seq![n] + ms) =~= ns.push(n) + ms);
        },
        _ => {},
    }
}

pub proof fn lemma_reachable_bounded(base: Seq<Seq<char>>, s: Seq<char>)
    requires
        reachable(base, s),
        forall|i: int| 0 <= i < base.len() ==> utf8_len(#[trigger] base[i]) <= usize::MAX,
    ensures
        utf8_len(s) <= usize::MAX,
{
    let (i, k) = choose|i: int, k: int| 0 <= i < base.len() && 0 <= k <= base[i].len() && s == base[i].skip(k);
    lemma_utf8_len_skip(base[i], k);
}

proof fn lemma_concat_push(ns: Seq<SpecNode>, n: SpecNode)
    ensures
        concat_values(ns.push(n)) == concat_values(ns) + n.value,
{
    assert(ns.push(n).drop_last() =~= ns);
}

/// The byte position of `input`.
fn position(total: usize, input: &str, Ghost(ctx): Ghost<Ctx>) -> (r: usize)
    requires
        ctx.total == total,
        utf8_len(input@) <= usize::MAX,
    ensures
        r as nat == pos(ctx, input@),
{
    total.saturating_sub(byte_len(input))
}

/// The first rule with the given name.
pub fn find_rule_exec(rules: &Vec<Rule>, name: &String) -> (r: Option<usize>)
    ensures
        match r {
            Some(i) => find_rule(rules@, name@) == Some(i as int) && i < rules@.len(),
            None => find_rule(rules@, name@) is None,
        },
{
    let mut i: usize = 0;
    while i < rules.len()
        invariant
            i <= rules@.len(),
            find_rule(rules@, name@) == find_rule_from(rules@, name@, i as int),
        decreases rules@.len() - i,
    {
        if rules[i].name.eq(name) {
            return Some(i);
        }
        i = i + 1;
    }
    None
}

pub proof fn lemma_active_set(v: Seq<(String, String)>)
    ensures
        active_set(v).finite(),
        forall|x: (Seq<char>, Seq<char>)|
            #[trigger] active_set(v).contains(x) <==> exists|i: int| 0 <= i < v.len() && (v[i].0@, v[i].1@) == x,
{
    broadcast use vstd::seq_lib::seq_to_set_is_finite;
    let s = v.map_values(|e: (String, String)| (e.0@, e.1@));
    assert forall|x: (Seq<char>, Seq<char>)|
        #[trigger] active_set(v).contains(x) <==> exists|i: int| 0 <= i < v.len() && (v[i].0@, v[i].1@) == x by {
        if active_set(v).contains(x) {
            let i = choose|i: int| 0 <= i < s.len() && s[i] == x;
            assert((v[i].0@, v[i].1@) == x);
        }
        if exists|i: int| 0 <= i < v.len() && (v[i].0@, v[i].1@) == x {
            let i = choose|i: int| 0 <= i < v.len() && (v[i].0@, v[i].1@) == x;
            assert(s[i] == x);
        }
    }
}

pub proof fn lemma_active_set_empty()
    ensures
        active_set(Seq::empty()) == Active::empty(),
        Active::empty().subset_of(Set::empty()),
{
    lemma_active_set(Seq::empty());
    assert(active_set(Seq::empty()) =~= Active::empty());
}

/// Whether the pair (name, input) is on the stack.
fn active_contains(active: &Vec<(String, String)>, name: &String, input: &String) -> (r: bool)
    ensures
        r == active_set(active@).contains((name@, input@)),
{
    proof {
        lemma_active_set(active@);
    }
    let mut i: usize = 0;
    while i < active.len()
        invariant
            i <= active@.len(),
            forall|j: int| 0 <= j < i ==> (active@[j].0@, active@[j].1@) != (name@, input@),
        decreases active@.len() - i,
    {
        if active[i].0.eq(name) && active[i].1.eq(input) {
            proof {
                lemma_active_set(active@);
                assert((active@[i as int].0@, active@[i as int].1@) == (name@, input@));
            }
            return true;
        }
        i = i + 1;
    }
    false
}

/// The stack with one more pair on top.
fn push_active(active: &Vec<(String, String)>, name: &String, input: &String) -> (r: Vec<(String, String)>)
    ensures
        active_set(r@) == active_set(active@).insert((name@, input@)),
{
    let mut r: Vec<(String, String)> = Vec::new();
    let mut i: usize = 0;
    while i < active.len()
        invariant
            i <= active@.len(),
            r@.len() == i,
            forall|j: int| 0 <= j < i ==> r@[j].0@ == active@[j].0@ && r@[j].1@ == active@[j].1@,
        decreases active@.len() - i,
    {
        let e = (active[i].0.clone(), active[i].1.clone());
        r.push(e);
        i = i + 1;
    }
    r.push((name.clone(), input.clone()));
    proof {
        lemma_active_set(r@);
        lemma_active_set(active@);
        assert forall|x: (Seq<char>, Seq<char>)|
            active_set(r@).contains(x) <==> active_set(active@).insert((name@, input@)).contains(x) by {
            if active_set(r@).contains(x) {
                let j = choose|j: int| 0 <= j < r@.len() && (r@[j].0@, r@[j].1@) == x;
                if j < active@.len() {
                    assert((active@[j].0@, active@[j].1@) == x);
                }
            }
            if active_set(active@).contains(x) {
                let j = choose|j: int| 0 <= j < active@.len() && (active@[j].0@, active@[j].1@) == x;
                assert((r@[j].0@, r@[j].1@) == x);
            }
            if x == (name@, input@) {
                assert((r@[active@.len() as int].0@, r@[active@.len() as int].1@) == x);
            }
        }
        assert(active_set(r@) =~= active_set(active@).insert((name@, input@)));
    }
    r
}

/// Build the string `a` followed by `b` followed by `c`.
fn concat3(a: &str, b: &str, c: &str) -> (r: String)
    ensures
        r@ == a@ + b@ + c@,
{
    let mut r = String::from_str(a);
    r.append(b);
    r.append(c);
    r
}

/// Match a literal.
fn eval_literal(total: usize, s: &String, input: &str, Ghost(ctx): Ghost<Ctx>, Ghost(base): Ghost<Seq<Seq<char>>>) -> (out: Out)
    requires
        ctx.total == total,
        reachable(base, input@),
        utf8_len(input@) <= usize::MAX,
    ensures
        out.view() == literal_outcome(ctx, s@, input@),
        out is Done ==> reachable(base, out->Done_1@),
{
    let at = position(total, input, Ghost(ctx));
    if starts_with(input, s.as_str()) {
        let n = char_count(s.as_str());
        proof {
            assert(input@.take(n as int) == s@);
            lemma_utf8_len_skip(input@, n as int);
            lemma_reachable_skip(base, input@, n as int);
        }
        let end = at + byte_len(s.as_str());
        let node = Node::new(NodeKind::Terminal(s.clone()), Span { start: at, end }, s.clone());
        Out::Done(node, suffix_from(input, n))
    } else {
        let mut err = ParseError::new(concat3("expected '", s.as_str(), "'"), at);
        err.add_expected(s.clone());
        Out::Fail(err)
    }
}

/// Match one character of a class.
fn eval_satisfy(total: usize, class: CharClass, input: &str, Ghost(ctx): Ghost<Ctx>, Ghost(base): Ghost<Seq<Seq<char>>>) -> (out: Out)
    requires
        ctx.total == total,
        reachable(base, input@),
        utf8_len(input@) <= usize::MAX,
    ensures
        out.view() == satisfy_outcome(ctx, class, input@),
        out is Done ==> reachable(base, out->Done_1@),
{
    let at = position(total, input, Ghost(ctx));
    if input.is_empty() {
        Out::Fail(ParseError::new(String::from_str("unexpected end of input"), at))
    } else {
        let c = input.get_char(0);
        if class.test(c) {
            proof {
                lemma_utf8_len_skip(input@, 1);
                assert(input@.take(1) =~= seq![c]);
                lemma_reachable_skip(base, input@, 1);
            }
            let end = at + char_len_utf8(c);
            let node = Node::new(
                NodeKind::Satisfy(String::from_str("character satisfying predicate")),
                Span { start: at, end },
                char_string(c),
            );
            Out::Done(node, suffix_from(input, 1))
        } else {
            let mut err = ParseError::new(concat3("unexpected char '", char_string(c).as_str(), "'"), at);
            err.add_expected(String::from_str("character satisfying predicate"));
            Out::Fail(err)
        }
    }
}

/// The error of an alternative whose branches both failed.
fn merge_errors(e1: ParseError, e2: &ParseError) -> (r: ParseError)
    ensures
        r.view() == (SpecError { expected: e1.view().expected + e2.view().expected, ..e1.view() }),
{
    let mut err = e1;
    let mut j: usize = 0;
    let ghost x1 = err.view();
    while j < e2.expected.len()
        invariant
            j <= e2.expected@.len(),
            err.view() == (SpecError { expected: x1.expected + e2.view().expected.take(j as int), ..x1 }),
        decreases e2.expected@.len() - j,
    {
        proof {
            assert(x1.expected + e2.view().expected.take(j + 1) =~= (x1.expected
                + e2.view().expected.take(j as int)).push(e2.expected@[j as int]@));
        }
        err.add_expected(e2.expected[j].clone());
        j = j + 1;
    }
    assert(e2.view().expected.take(j as int) =~= e2.view().expected);
    err
}

/// Wrap the outcome of an optional parser.
fn wrap_optional(total: usize, input: &str, o: Out, Ghost(ctx): Ghost<Ctx>, Ghost(base): Ghost<Seq<Seq<char>>>) -> (out: Out)
    requires
        ctx.total == total,
        reachable(base, input@),
        forall|i: int| 0 <= i < base.len() ==> utf8_len(#[trigger] base[i]) <= usize::MAX,
        o is Done ==> reachable(base, o->Done_1@),
    ensures
        out.view() == optional_outcome(ctx, input@, o.view()),
        out is Done ==> reachable(base, out->Done_1@),
{
    proof {
        lemma_reachable_bounded(base, input@);
    }
    let at = position(total, input, Ghost(ctx));
    match o {
        Out::Done(n, r) => {
            proof {
                lemma_reachable_bounded(base, r@);
            }
            let len_in = byte_len(input);
            let len_rest = byte_len(r.as_str());
            if len_rest <= len_in {
                let value = n.value.clone();
                let node = Node::new(
                    NodeKind::Optional(Box::new(n)),
                    Span { start: at, end: at + (len_in - len_rest) },
                    value,
                );
                Out::Done(node, r)
            } else {
                Out::Fault
            }
        },
        Out::Fail(_) => {
            let inner = Node::new(NodeKind::Terminal(String::new()), Span { start: at, end: at }, String::new());
            let node = Node::new(NodeKind::Optional(Box::new(inner)), Span { start: at, end: at }, String::new());
            Out::Done(node, String::from_str(input))
        },
        other => other,
    }
}

/// Wrap the outcome of a rule in a node of the rule reference.
fn wrap_ref(total: usize, name: &String, input: &str, o: Out, Ghost(ctx): Ghost<Ctx>, Ghost(base): Ghost<Seq<Seq<char>>>) -> (out: Out)
    requires
        ctx.total == total,
        reachable(base, input@),
        forall|i: int| 0 <= i < base.len() ==> utf8_len(#[trigger] base[i]) <= usize::MAX,
        o is Done ==> reachable(base, o->Done_1@),
    ensures
        out.view() == ref_outcome(ctx, name@, input@, o.view()),
        out is Done ==> reachable(base, out->Done_1@),
{
    proof {
        lemma_reachable_bounded(base, input@);
    }
    let at = position(total, input, Ghost(ctx));
    match o {
        Out::Done(n, r) => {
            proof {
                lemma_reachable_bounded(base, r@);
            }
            let len_in = byte_len(input);
            let len_rest = byte_len(r.as_str());
            if len_rest <= len_in {
                let value = n.value.clone();
                let mut children: Vec<Node> = Vec::new();
                children.push(n);
                proof {
                    lemma_node_views_push(Seq::<Node>::empty(), children@[0]);
                    assert(children@ =~= Seq::<Node>::empty().push(children@[0]));
                }
                let node = Node::new(
                    NodeKind::NonTerminal(name.clone()),
                    Span { start: at, end: at + (len_in - len_rest) },
                    value,
                ).with_children(children);
                Out::Done(node, r)
            } else {
                Out::Fault
            }
        },
        other => other,
    }
}

/// Apply parser `p` to `input`.
pub(crate) fn eval(
    rules: &Vec<Rule>,
    memo: &mut Vec<MemoEntry>,
    total: usize,
    p: &Parser,
    input: &str,
    active: &Vec<(String, String)>,
    Ghost(ctx): Ghost<Ctx>,
    Ghost(base): Ghost<Seq<Seq<char>>>,
) -> (out: Out)
    requires
        env_ok(rules@, ctx, base),
        ctx.total == total,
        reachable(base, input@),
        memo_ok(old(memo)@, base),
        active_set(active@).subset_of(universe(rules@, base).to_set()),
    ensures
        memo_ok(final(memo)@, base),
        (out.view(), memo_map(final(memo)@)) == run(ctx, *p, input@, memo_map(old(memo)@), active_set(active@)),
        out is Done ==> reachable(base, out->Done_1@),
    decreases ctx.limit - active_set(active@).len(), 1nat, *p, 0nat,
{
    proof {
        lemma_reachable_bounded(base, input@);
    }
    match p {
        Parser::Literal(s) => eval_literal(total, s, input, Ghost(ctx), Ghost(base)),
        Parser::Satisfy(class) => eval_satisfy(total, *class, input, Ghost(ctx), Ghost(base)),
        Parser::Sequence(v) => eval_seq(rules, memo, total, v, input, active, Ghost(ctx), Ghost(base)),
        Parser::Alternative(left, right) => {
            let o1 = eval(rules, memo, total, left, input, active, Ghost(ctx), Ghost(base));
            match o1 {
                Out::Fail(e1) => {
                    let o2 = eval(rules, memo, total, right, input, active, Ghost(ctx), Ghost(base));
                    match o2 {
                        Out::Fail(e2) => Out::Fail(merge_errors(e1, &e2)),
                        other => other,
                    }
                },
                other => other,
            }
        },
        Parser::Many(b) => eval_many(rules, memo, total, b, input, active, Ghost(ctx), Ghost(base)),
        Parser::Optional(b) => {
            let o = eval(rules, memo, total, b, input, active, Ghost(ctx), Ghost(base));
            wrap_optional(total, input, o, Ghost(ctx), Ghost(base))
        },
        Parser::Ref(name) => {
            let o = eval_rule(rules, memo, total, name, input, active, Ghost(ctx), Ghost(base));
            wrap_ref(total, name, input, o, Ghost(ctx), Ghost(base))
        },
    }
}

/// Apply the parsers of a sequence one after another.
fn eval_seq(
    rules: &Vec<Rule>,
    memo: &mut Vec<MemoEntry>,
    total: usize,
    v: &Vec<Parser>,
    input: &str,
    active: &Vec<(String, String)>,
    Ghost(ctx): Ghost<Ctx>,
    Ghost(base): Ghost<Seq<Seq<char>>>,
) -> (out: Out)
    requires
        env_ok(rules@, ctx, base),
        ctx.total == total,
        reachable(base, input@),
        memo_ok(old(memo)@, base),
        active_set(active@).subset_of(universe(rules@, base).to_set()),
    ensures
        memo_ok(final(memo)@, base),
        (out.view(), memo_map(final(memo)@)) == ({
            let (os, m) = run_seq(ctx, v@, 0, input@, memo_map(old(memo)@), active_set(active@));
            (sequence_outcome(ctx, input@, os), m)
        }),
        out is Done ==> reachable(base, out->Done_1@),
    decreases ctx.limit - active_set(active@).len(), 1nat, *v, 1nat,
{
    proof {
        lemma_reachable_bounded(base, input@);
    }
    let ghost a = active_set(active@);
    let ghost ps = v@;
    let ghost m0 = memo_map(memo@);
    let at = position(total, input, Ghost(ctx));
    let mut rest = String::from_str(input);
    let mut children: Vec<Node> = Vec::new();
    let mut value = String::new();
    let mut i: usize = 0;
    while i < v.len()
        invariant
            env_ok(rules@, ctx, base),
            ctx.total == total,
            ps == v@,
            m0 == memo_map(old(memo)@),
            i <= v@.len(),
            reachable(base, rest@),
            memo_ok(memo@, base),
            a == active_set(active@),
            a.subset_of(universe(rules@, base).to_set()),
            value@ == concat_values(node_views(children@)),
            run_seq(ctx, ps, 0, input@, m0, a)
                == prepend(node_views(children@), run_seq(ctx, ps, i as int, rest@, memo_map(memo@), a)),
        decreases v@.len() - i,
    {
        assert(decreases_to!(v => v@[i as int]));
        let ghost before = memo_map(memo@);
        let o = eval(rules, memo, total, &v[i], rest.as_str(), active, Ghost(ctx), Ghost(base));
        match o {
            Out::Done(n, r) => {
                proof {
                    lemma_node_views_push(children@, n);
                    lemma_concat_push(node_views(children@), n.view());
                    let (os2, m2) = run_seq(ctx, ps, i + 1, r@, memo_map(memo@), a);
                    lemma_prepend_cons(node_views(children@), n.view(), os2, m2);
                }
                value.append(n.value.as_str());
                children.push(n);
                rest = r;
            },
            Out::Fail(e) => {
                assert(run_seq(ctx, ps, i as int, rest@, before, a) == (Outcomes::Fail(e.view()), memo_map(memo@)));
                return Out::Fail(e);
            },
            Out::Stuck(e) => {
                assert(run_seq(ctx, ps, i as int, rest@, before, a) == (Outcomes::Stuck(e.view()), memo_map(memo@)));
                return Out::Stuck(e);
            },
            Out::Fault => {
                assert(run_seq(ctx, ps, i as int, rest@, before, a) == (Outcomes::Fault, memo_map(memo@)));
                return Out::Fault;
            },
        }
        i = i + 1;
    }
    proof {
        lemma_reachable_bounded(base, rest@);
        assert(node_views(children@) + Seq::<SpecNode>::empty() =~= node_views(children@));
    }
    let end = position(total, rest.as_str(), Ghost(ctx));
    let node = Node::new(NodeKind::Sequence(copy_nodes(&children)), Span { start: at, end }, value)
        .with_children(children);
    Out::Done(node, rest)
}

/// Apply `b` as many times as it matches.
fn eval_many(
    rules: &Vec<Rule>,
    memo: &mut Vec<MemoEntry>,
    total: usize,
    b: &Parser,
    input: &str,
    active: &Vec<(String, String)>,
    Ghost(ctx): Ghost<Ctx>,
    Ghost(base): Ghost<Seq<Seq<char>>>,
) -> (out: Out)
    requires
        env_ok(rules@, ctx, base),
        ctx.total == total,
        reachable(base, input@),
        memo_ok(old(memo)@, base),
        active_set(active@).subset_of(universe(rules@, base).to_set()),
    ensures
        memo_ok(final(memo)@, base),
        (out.view(), memo_map(final(memo)@)) == ({
            let (os, m) = run_many(ctx, *b, input@, memo_map(old(memo)@), active_set(active@));
            (many_outcome(ctx, input@, os), m)
        }),
        out is Done ==> reachable(base, out->Done_1@),
    decreases ctx.limit - active_set(active@).len(), 1nat, *b, 1nat,
{
    proof {
        lemma_reachable_bounded(base, input@);
    }
    let ghost a = active_set(active@);
    let ghost m0 = memo_map(memo@);
    let at = position(total, input, Ghost(ctx));
    let mut rest = String::from_str(input);
    let mut children: Vec<Node> = Vec::new();
    let mut value = String::new();
    loop
        invariant_except_break
            m0 == memo_map(old(memo)@),
            env_ok(rules@, ctx, base),
            ctx.total == total,
            reachable(base, rest@),
            memo_ok(memo@, base),
            a == active_set(active@),
            a.subset_of(universe(rules@, base).to_set()),
            value@ == concat_values(node_views(children@)),
            run_many(ctx, *b, input@, m0, a)
                == prepend(node_views(children@), run_many(ctx, *b, rest@, memo_map(memo@), a)),
        ensures
            memo_ok(memo@, base),
            reachable(base, rest@),
            value@ == concat_values(node_views(children@)),
            run_many(ctx, *b, input@, m0, a) == (Outcomes::Done(node_views(children@), rest@), memo_map(memo@)),
        decreases rest@.len(),
    {
        let ghost before = memo_map(memo@);
        let o = eval(rules, memo, total, b, rest.as_str(), active, Ghost(ctx), Ghost(base));
        match o {
            Out::Done(n, r) => {
                if char_count(r.as_str()) < char_count(rest.as_str()) {
                    proof {
                        lemma_node_views_push(children@, n);
                        lemma_concat_push(node_views(children@), n.view());
                        let (os2, m2) = run_many(ctx, *b, r@, memo_map(memo@), a);
                        lemma_prepend_cons(node_views(children@), n.view(), os2, m2);
                    }
                    value.append(n.value.as_str());
                    children.push(n);
                    rest = r;
                } else {
                    proof {
                        lemma_reachable_bounded(base, rest@);
                    }
                    let here = position(total, rest.as_str(), Ghost(ctx));
                    let err = ParseError::new(String::from_str("repetition does not consume input"), here);
                    assert(run_many(ctx, *b, rest@, before, a) == (Outcomes::Stuck(err.view()), memo_map(memo@)));
                    return Out::Stuck(err);
                }
            },
            Out::Fail(_) => {
                assert(node_views(children@) + Seq::<SpecNode>::empty() =~= node_views(children@));
                break;
            },
            Out::Stuck(e) => {
                assert(run_many(ctx, *b, rest@, before, a) == (Outcomes::Stuck(e.view()), memo_map(memo@)));
                return Out::Stuck(e);
            },
            Out::Fault => {
                assert(run_many(ctx, *b, rest@, before, a) == (Outcomes::Fault, memo_map(memo@)));
                return Out::Fault;
            },
        }
    }
    proof {
        lemma_reachable_bounded(base, rest@);
        let (i, k) = choose|i: int, k: int| 0 <= i < base.len() && 0 <= k <= base[i].len() && input@ == base[i].skip(k);
        lemma_utf8_len_skip(base[i], k);
    }
    let consumed = byte_len(input).saturating_sub(byte_len(rest.as_str()));
    let node = Node::new(NodeKind::Many(copy_nodes(&children)), Span { start: at, end: at + consumed }, value)
        .with_children(children);
    Out::Done(node, rest)
}

/// Apply the rule named `name` to `input`, through the cache.
pub(crate) fn eval_rule(
    rules: &Vec<Rule>,
    memo: &mut Vec<MemoEntry>,
    total: usize,
    name: &String,
    input: &str,
    active: &Vec<(String, String)>,
    Ghost(ctx): Ghost<Ctx>,
    Ghost(base): Ghost<Seq<Seq<char>>>,
) -> (out: Out)
    requires
        env_ok(rules@, ctx, base),
        ctx.total == total,
        reachable(base, input@),
        memo_ok(old(memo)@, base),
        active_set(active@).subset_of(universe(rules@, base).to_set()),
    ensures
        memo_ok(final(memo)@, base),
        (out.view(), memo_map(final(memo)@)) == parse_rule(ctx, name@, input@, memo_map(old(memo)@), active_set(active@)),
        out is Done ==> reachable(base, out->Done_1@),
    decreases ctx.limit - active_set(active@).len(), 0nat, vstd::pervasive::arbitrary::<Parser>(), 0nat,
{
    proof {
        lemma_reachable_bounded(base, input@);
    }
    let at = position(total, input, Ghost(ctx));
    match memo_find(memo, name, at) {
        Some(i) => {
            proof {
                lemma_memo_map_get(memo@, i as int);
            }
            let e = &memo[i];
            Out::Done(copy_node(&e.node), e.rest.clone())
        },
        None => {
            proof {
                crate::memo::lemma_memo_map_dom(memo@);
            }
            match find_rule_exec(rules, name) {
                None => Out::Fail(ParseError::new(concat3("rule '", name.as_str(), "' not defined"), at)),
                Some(i) => {
                    let text = String::from_str(input);
                    if active_contains(active, name, &text) {
                        Out::Stuck(ParseError::new(
                            concat3("rule '", name.as_str(), "' recurses without consuming input"),
                            at,
                        ))
                    } else {
                        proof {
                            crate::semantics::lemma_find_rule(rules@, name@);
                            lemma_in_universe(rules@, base, i as int, input@);
                            lemma_fresh_within_limit(rules@, base, active_set(active@), (name@, input@));
                        }
                        let deeper = push_active(active, name, &text);
                        proof {
                            lemma_active_set(deeper@);
                            vstd::set::axiom_set_insert_len(active_set(active@), (name@, input@));
                        }
                        let o = eval(rules, memo, total, &rules[i].body, input, &deeper, Ghost(ctx), Ghost(base));
                        match o {
                            Out::Done(n, r) => {
                                let entry = MemoEntry { name: name.clone(), pos: at, node: copy_node(&n), rest: r.clone() };
                                memo_store(memo, entry);
                                Out::Done(n, r)
                            },
                            other => other,
                        }
                    }
                },
            }
        },
    }
}

} // verus!
