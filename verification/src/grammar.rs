use vstd::prelude::*;
use crate::ast::Node;
use crate::errors::ParseError;
use crate::parser::{Parser, Rule};
use crate::semantics::{Ctx, Memo, Outcome, pos, bare_error, run, parse_rule, find_rule, lemma_find_rule_from_exact};
use crate::memo::{MemoEntry, memo_map, keys_unique, lemma_memo_map_len};
use crate::regime::{is_suffix, memo_sane, lemma_suffix_refl, lemma_suffix_shorter, lemma_parse_rule_regime, lemma_run_regime,
    lemma_memo_sane_total};
use crate::text::{utf8_len, byte_len, char_count, suffix_from};
use crate::univ::{reachable, nesting_limit};
use crate::interp::{Out, eval, eval_rule, find_rule_exec, memo_ok, lemma_active_set_empty};
use crate::semantics::Active;
use crate::laws::tree_spans;
use crate::cached::{memo_good, lemma_memo_good_total, lemma_run_good, lemma_parse_rule_good};
use vstd::utf8::encode_utf8;

verus! {

/// The result of a parse: a Node and the remaining input.
///
/// A `ParseResult` contains both the parsed value and any remaining unparsed input.
/// This enables parsers to be chained together, with each consuming part of the input.
#[derive(Debug)]
pub struct ParseResult {
    pub node: Node,
    pub rest: String,
}

/// Grammar holds named parsing rules and a packrat memo cache.
///
/// A Grammar is the central container for parsing rules and memoization state.
/// It allows:
/// - Defining named rules that can refer to each other (even recursively)
/// - Parsing input using those rules
/// - Automatically memoizing results (packrat parsing) for efficiency
pub struct Grammar {
    input: String,
    rules: Vec<Rule>,
    memo: Vec<MemoEntry>,
}

/// `r` is what the outcome `o` stands for.
pub open spec fn result_matches(r: Result<ParseResult, ParseError>, o: Outcome) -> bool {
    match (r, o) {
        (Ok(pr), Outcome::Done(n, rest)) => pr.node.view() == n && pr.rest@ == rest,
        (Err(e), Outcome::Fail(se)) => e.view() == se,
        (Err(e), Outcome::Stuck(se)) => e.view() == se,
        _ => false,
    }
}

/// `after` is `before` with the rule `name` defined as `p`: a rule of that
/// name is replaced in place, otherwise the rule is added at the end.
pub open spec fn defined(before: Seq<Rule>, after: Seq<Rule>, name: Seq<char>, p: Parser) -> bool {
    match find_rule(before, name) {
        Some(i) => {
            &&& after.len() == before.len()
            &&& after[i].name@ == name
            &&& after[i].body == p
            &&& forall|j: int| 0 <= j < before.len() && j != i ==> after[j] == before[j]
        },
        None => {
            &&& after.len() == before.len() + 1
            &&& after[before.len() as int].name@ == name
            &&& after[before.len() as int].body == p
            &&& forall|j: int| 0 <= j < before.len() ==> after[j] == before[j]
        },
    }
}

/// The context of `Grammar::parse(name, text)` over `rules`.
pub open spec fn parse_ctx(rules: Seq<Rule>, text: Seq<char>) -> Ctx {
    Ctx { rules, total: utf8_len(text), limit: nesting_limit(rules, seq![text]) }
}

/// Applying `p` to `text` as a parse of `text`, from an empty cache: the
/// outcome and the cache.
pub open spec fn fresh_run_spec(rules: Seq<Rule>, p: Parser, text: Seq<char>) -> (Outcome, Memo) {
    run(parse_ctx(rules, text), p, text, Map::empty(), Set::empty())
}

/// The text that `Parser::run` counts positions in, when the grammar holds
/// `text` and the input is `input`: `text` itself when the input is a suffix
/// of it, else the input.
pub open spec fn run_text(text: Seq<char>, input: Seq<char>) -> Seq<char> {
    if is_suffix(input, text) {
        text
    } else {
        input
    }
}

/// What `Parser::run(p, input)` computes, when the grammar holds the rules
/// `rules`, the text `text` and the cache `memo`: the outcome and the cache.
/// On a suffix of `text`, positions count within `text` and the cache is
/// used; on any other input, the input is parsed afresh.
pub open spec fn run_spec(rules: Seq<Rule>, text: Seq<char>, memo: Memo, p: Parser, input: Seq<char>) -> (Outcome, Memo) {
    if is_suffix(input, text) {
        run(parse_ctx(rules, text), p, input, memo, Set::empty())
    } else {
        fresh_run_spec(rules, p, input)
    }
}

/// What `Grammar::parse(name, text)` computes over `rules`: the outcome and the cache.
pub open spec fn parse_spec(rules: Seq<Rule>, name: Seq<char>, text: Seq<char>) -> (Outcome, Memo) {
    parse_rule(parse_ctx(rules, text), name, text, Map::empty(), Set::empty())
}

/// A context that counts positions in `t` (only its byte length matters).
pub open spec fn text_ctx(t: Seq<char>) -> Ctx {
    Ctx { rules: Seq::empty(), total: utf8_len(t), limit: 0 }
}

/// The invariant of a grammar's cache `v` over its text `t`.
pub open spec fn cache_inv(v: Seq<MemoEntry>, t: Seq<char>) -> bool {
    &&& keys_unique(v)
    &&& utf8_len(t) <= usize::MAX
    &&& memo_sane(text_ctx(t), t, memo_map(v))
    &&& memo_good(text_ctx(t), t, memo_map(v))
}

/// An empty cache meets the invariant over any text that fits in memory.
proof fn lemma_empty_cache(t: Seq<char>)
    requires
        utf8_len(t) <= usize::MAX,
    ensures
        cache_inv(Seq::<MemoEntry>::empty(), t),
        memo_map(Seq::<MemoEntry>::empty()) == Memo::empty(),
{
    assert(memo_map(Seq::<MemoEntry>::empty()) =~= Memo::empty());
}

/// A cache left by an application of a parser within a parse of `t`.
proof fn lemma_cache_after(v: Seq<MemoEntry>, t: Seq<char>, ctx: Ctx)
    requires
        keys_unique(v),
        utf8_len(t) <= usize::MAX,
        ctx.total == utf8_len(t),
        memo_sane(ctx, t, memo_map(v)),
        memo_good(ctx, t, memo_map(v)),
    ensures
        cache_inv(v, t),
{
    lemma_memo_sane_total(ctx, text_ctx(t), t, memo_map(v));
    lemma_memo_good_total(ctx, text_ctx(t), t, memo_map(v));
}

/// The invariant gives the facts that an application within `t` needs.
proof fn lemma_cache_before(v: Seq<MemoEntry>, t: Seq<char>, ctx: Ctx)
    requires
        cache_inv(v, t),
        ctx.total == utf8_len(t),
    ensures
        memo_sane(ctx, t, memo_map(v)),
        memo_good(ctx, t, memo_map(v)),
{
    lemma_memo_sane_total(text_ctx(t), ctx, t, memo_map(v));
    lemma_memo_good_total(text_ctx(t), ctx, t, memo_map(v));
}

/// A cache that meets the invariant holds only rests reachable from the text.
proof fn lemma_memo_ok_of(v: Seq<MemoEntry>, t: Seq<char>)
    requires
        cache_inv(v, t),
    ensures
        memo_ok(v, seq![t]),
{
    let base = seq![t];
    let ctx = text_ctx(t);
    assert forall|key: (Seq<char>, nat)| #[trigger] memo_map(v).contains_key(key)
        implies reachable(base, memo_map(v)[key].1) by {
        let m = memo_map(v);
        let k = choose|k: int| 0 <= k <= t.len() && pos(ctx, t.skip(k)) == key.1 && is_suffix(m[key].1, t.skip(k));
        let j = choose|j: int| 0 <= j <= t.skip(k).len() && m[key].1 == t.skip(k).skip(j);
        assert(m[key].1 =~= base[0].skip(k + j));
    }
}

impl Grammar {
    /// The rules, in the order they were first defined.
    pub closed spec fn rules_view(&self) -> Seq<Rule> {
        self.rules@
    }

    /// The cache.
    pub closed spec fn memo_view(&self) -> Memo {
        memo_map(self.memo@)
    }

    /// The text that positions count in: the text last given to `parse`
    /// (or taken up by `Parser::run`).
    pub closed spec fn text(&self) -> Seq<char> {
        self.input@
    }

    /// The grammar is well formed: the cache has one entry per key, and
    /// every entry belongs to a suffix of the text, with a rest that is a
    /// suffix of that suffix and a node that holds what it consumed.
    #[verifier::type_invariant]
    spec fn wf(&self) -> bool {
        cache_inv(self.memo@, self.input@)
    }

    /// Define a rule by name, taking a `Parser`: a rule of that name is
    /// replaced in place, otherwise the rule is added at the end.
    pub fn define(&mut self, name: &str, p: Parser)
        ensures
            final(self).memo_view() == old(self).memo_view(),
            final(self).text() == old(self).text(),
            defined(old(self).rules_view(), final(self).rules_view(), name@, p),
    {
        proof {
            use_type_invariant(&*self);
        }
        let key = String::from_str(name);
        let mut rules: Vec<Rule> = Vec::new();
        std::mem::swap(&mut rules, &mut self.rules);
        proof {
            lemma_find_rule_from_exact(rules@, name@, 0);
        }
        match find_rule_exec(&rules, &key) {
            Some(i) => {
                rules.set(i, Rule { name: key, body: p });
            },
            None => {
                rules.push(Rule { name: key, body: p });
            },
        }
        self.rules = rules;
    }

    /// Parse the named rule over the given text, resetting the cache.
    pub fn parse(&mut self, name: &str, text: &str) -> (r: Result<ParseResult, ParseError>)
        requires
            utf8_len(text@) <= usize::MAX,
        ensures
            final(self).rules_view() == old(self).rules_view(),
            final(self).text() == text@,
            final(self).memo_view() == parse_spec(old(self).rules_view(), name@, text@).1,
            result_matches(r, parse_spec(old(self).rules_view(), name@, text@).0),
            !(parse_spec(old(self).rules_view(), name@, text@).0 is Fault),
            r matches Ok(pr) ==> is_suffix(pr.rest@, text@) && pr.node.value@ + pr.rest@ == text@
                && pr.node.span.start == 0 && tree_spans(encode_utf8(text@), pr.node.view()),
    {
        let ghost ctx = parse_ctx(self.rules@, text@);
        let ghost base = seq![text@];
        let mut memo: Vec<MemoEntry> = Vec::new();
        proof {
            use_type_invariant(&*self);
            lemma_empty_cache(self.input@);
            lemma_empty_cache(text@);
        }
        std::mem::swap(&mut memo, &mut self.memo);
        self.input = String::from_str(text);
        memo = Vec::new();
        let total = byte_len(text);
        let key = String::from_str(name);
        let active: Vec<(String, String)> = Vec::new();
        proof {
            assert(base[0].skip(0) == text@);
            lemma_active_set_empty();
            assert(active@ =~= Seq::<(String, String)>::empty());
            lemma_suffix_refl(text@);
            lemma_parse_rule_regime(ctx, text@, name@, text@, Memo::empty(), Active::empty());
            lemma_parse_rule_good(ctx, text@, name@, text@, Memo::empty(), Active::empty());
            crate::laws::law_parse_consumes_prefix(self.rules@, name@, text@);
            crate::laws::law_parse_tree(self.rules@, name@, text@);
        }
        let o = eval_rule(&self.rules, &mut memo, total, &key, text, &active, Ghost(ctx), Ghost(base));
        proof {
            lemma_cache_after(memo@, text@, ctx);
        }
        self.memo = memo;
        to_result(o)
    }

    /// Parse the named rule and check that there is no input left after parsing.
    pub fn parse_all(&mut self, rule: &str, input: &str) -> (r: Result<Node, ParseError>)
        requires
            utf8_len(input@) <= usize::MAX,
        ensures
            final(self).rules_view() == old(self).rules_view(),
            final(self).text() == input@,
            final(self).memo_view() == parse_spec(old(self).rules_view(), rule@, input@).1,
            match parse_spec(old(self).rules_view(), rule@, input@).0 {
                Outcome::Done(n, rest) => if rest.len() == 0 {
                    r matches Ok(node) && node.view() == n
                } else {
                    r matches Err(e) && e.view() == bare_error(
                        "input not fully consumed"@,
                        (utf8_len(input@) - utf8_len(rest)) as nat,
                    )
                },
                Outcome::Fail(se) => r matches Err(e) && e.view() == se,
                Outcome::Stuck(se) => r matches Err(e) && e.view() == se,
                Outcome::Fault => false,
            },
    {
        let result = self.parse(rule, input)?;
        if result.rest.as_str().is_empty() {
            Ok(result.node)
        } else {
            proof {
                lemma_suffix_shorter(result.rest@, input@);
            }
            let at = byte_len(input) - byte_len(result.rest.as_str());
            Err(ParseError::new(String::from_str("input not fully consumed"), at))
        }
    }

    /// The number of cached rule results.
    pub fn memo_size(&self) -> (r: usize)
        ensures
            self.memo_view().dom().finite(),
            r == self.memo_view().dom().len(),
    {
        proof {
            use_type_invariant(self);
            lemma_memo_map_len(self.memo@);
        }
        self.memo.len()
    }

    /// Create a new empty Grammar.
    pub fn new() -> (g: Self)
        ensures
            g.rules_view().len() == 0,
            g.memo_view() == Memo::empty(),
            g.text() == Seq::<char>::empty(),
    {
        let input = String::new();
        let memo: Vec<MemoEntry> = Vec::new();
        proof {
            assert(input@ =~= Seq::<char>::empty());
            assert(utf8_len(input@) == 0);
            lemma_empty_cache(input@);
        }
        Grammar { input, rules: Vec::new(), memo }
    }
}

/// Turn an outcome into the result that the public functions return.
fn to_result(o: Out) -> (r: Result<ParseResult, ParseError>)
    requires
        !(o.view() is Fault),
    ensures
        result_matches(r, o.view()),
{
    match o {
        Out::Done(node, rest) => Ok(ParseResult { node, rest }),
        Out::Fail(e) => Err(e),
        Out::Stuck(e) => Err(e),
        Out::Fault => Err(ParseError::new(String::new(), 0)),
    }
}

/// Whether `input` is a suffix of `text`.
fn ends_with(text: &str, input: &str) -> (b: bool)
    ensures
        b == is_suffix(input@, text@),
{
    let n = char_count(text);
    let m = char_count(input);
    if m > n {
        proof {
            if is_suffix(input@, text@) {
                let j = choose|j: int| 0 <= j <= text@.len() && input@ == text@.skip(j);
            }
        }
        return false;
    }
    let tail = suffix_from(text, n - m);
    let whole = String::from_str(input);
    let b = tail == whole;
    proof {
        if is_suffix(input@, text@) {
            let j = choose|j: int| 0 <= j <= text@.len() && input@ == text@.skip(j);
            assert(j == n - m);
        }
    }
    b
}

impl Parser {
    /// Apply the parser to `input` with the rules of `g`.  When `input` is a
    /// suffix of the text that `g` holds (the text last given to `parse`),
    /// byte positions count within that text and its cache is used; for any
    /// other input, `input` becomes the text and the cache is reset, so that
    /// no entry made for another text is ever handed back.
    pub fn run(&self, g: &mut Grammar, input: &str) -> (r: Result<ParseResult, ParseError>)
        requires
            utf8_len(input@) <= usize::MAX,
        ensures
            final(g).rules_view() == old(g).rules_view(),
            final(g).text() == run_text(old(g).text(), input@),
            final(g).memo_view() == run_spec(old(g).rules_view(), old(g).text(), old(g).memo_view(), *self, input@).1,
            result_matches(r, run_spec(old(g).rules_view(), old(g).text(), old(g).memo_view(), *self, input@).0),
            !(run_spec(old(g).rules_view(), old(g).text(), old(g).memo_view(), *self, input@).0 is Fault),
            r matches Ok(pr) ==> is_suffix(pr.rest@, input@) && pr.node.value@ + pr.rest@ == input@
                && pr.node.span.start == utf8_len(run_text(old(g).text(), input@)) - utf8_len(input@)
                && tree_spans(encode_utf8(run_text(old(g).text(), input@)), pr.node.view()),
    {
        let active: Vec<(String, String)> = Vec::new();
        proof {
            use_type_invariant(&*g);
            lemma_active_set_empty();
            assert(active@ =~= Seq::<(String, String)>::empty());
            lemma_empty_cache(g.input@);
            lemma_empty_cache(input@);
        }
        let mut memo: Vec<MemoEntry> = Vec::new();
        std::mem::swap(&mut memo, &mut g.memo);
        if ends_with(g.input.as_str(), input) {
            let ghost t = g.input@;
            let ghost ctx = parse_ctx(g.rules@, t);
            let ghost base = seq![t];
            let ghost memo0 = memo_map(memo@);
            proof {
                lemma_cache_before(memo@, t, ctx);
                lemma_memo_ok_of(memo@, t);
                let j = choose|j: int| 0 <= j <= t.len() && input@ == t.skip(j);
                assert(input@ == base[0].skip(j));
                lemma_run_regime(ctx, t, *self, input@, memo0, Active::empty());
                lemma_run_good(ctx, t, *self, input@, memo0, Active::empty());
                lemma_suffix_shorter(input@, t);
            }
            let total = byte_len(g.input.as_str());
            let o = eval(&g.rules, &mut memo, total, self, input, &active, Ghost(ctx), Ghost(base));
            proof {
                lemma_cache_after(memo@, t, ctx);
            }
            g.memo = memo;
            to_result(o)
        } else {
            let ghost ctx = parse_ctx(g.rules@, input@);
            let ghost base = seq![input@];
            g.input = String::from_str(input);
            let mut memo: Vec<MemoEntry> = Vec::new();
            proof {
                assert(base[0].skip(0) == input@);
                lemma_suffix_refl(input@);
                lemma_run_regime(ctx, input@, *self, input@, Memo::empty(), Active::empty());
                lemma_run_good(ctx, input@, *self, input@, Memo::empty(), Active::empty());
                crate::laws::law_run_consumes_prefix(g.rules@, *self, input@);
                crate::laws::law_run_tree(g.rules@, *self, input@);
            }
            let total = byte_len(input);
            let o = eval(&g.rules, &mut memo, total, self, input, &active, Ghost(ctx), Ghost(base));
            proof {
                lemma_cache_after(memo@, input@, ctx);
            }
            g.memo = memo;
            to_result(o)
        }
    }
}

} // verus!
