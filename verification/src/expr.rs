use vstd::prelude::*;
use crate::chars::CharClass;
use crate::parser::{Parser, lit, satisfy_dyn, alt, many, opt, rule_ref};
use crate::grammar::{Grammar, defined};

verus! {

/// An expression representation for parser combinators.
/// Enables building parser ASTs that can be compiled into actual parsers.
#[derive(Debug)]
pub enum ParserExpr {
    Literal(String),
    Satisfy(CharClass),
    Sequence(Vec<ParserExpr>),
    Alt(Vec<ParserExpr>),
    Opt(Box<ParserExpr>),
    Many(Box<ParserExpr>),
    Ref(String),
}

/// The mathematical model of a `ParserExpr`.
pub enum SpecExpr {
    Literal(Seq<char>),
    Satisfy(CharClass),
    Sequence(Seq<SpecExpr>),
    Alt(Seq<SpecExpr>),
    Opt(Box<SpecExpr>),
    Many(Box<SpecExpr>),
    Ref(Seq<char>),
}

impl ParserExpr {
    pub open spec fn view(&self) -> SpecExpr
        decreases self,
    {
        match self {
            ParserExpr::Literal(s) => SpecExpr::Literal(s@),
            ParserExpr::Satisfy(c) => SpecExpr::Satisfy(*c),
            ParserExpr::Sequence(v) => SpecExpr::Sequence(expr_views(v@)),
            ParserExpr::Alt(v) => SpecExpr::Alt(expr_views(v@)),
            ParserExpr::Opt(b) => SpecExpr::Opt(Box::new(b.view())),
            ParserExpr::Many(b) => SpecExpr::Many(Box::new(b.view())),
            ParserExpr::Ref(s) => SpecExpr::Ref(s@),
        }
    }
}

/// The models of a sequence of expressions, element by element.
pub open spec fn expr_views(s: Seq<ParserExpr>) -> Seq<SpecExpr>
    decreases s,
{
    if s.len() == 0 {
        Seq::empty()
    } else {
        expr_views(s.drop_last()).push(s.last().view())
    }
}

pub proof fn lemma_expr_views(s: Seq<ParserExpr>)
    ensures
        expr_views(s).len() == s.len(),
        forall|i: int| 0 <= i < s.len() ==> #[trigger] expr_views(s)[i] == s[i].view(),
    decreases s.len(),
{
    if s.len() > 0 {
        lemma_expr_views(s.drop_last());
    }
}

pub proof fn lemma_expr_views_add(a: Seq<ParserExpr>, b: Seq<ParserExpr>)
    ensures
        expr_views(a + b) == expr_views(a) + expr_views(b),
{
    lemma_expr_views(a);
    lemma_expr_views(b);
    lemma_expr_views(a + b);
    assert(expr_views(a + b) =~= expr_views(a) + expr_views(b));
}

/// Every sequence and alternative in `e` has at least one part.
pub open spec fn no_empty(e: SpecExpr) -> bool
    decreases e,
{
    match e {
        SpecExpr::Sequence(es) => es.len() > 0 && all_no_empty(es),
        SpecExpr::Alt(es) => es.len() > 0 && all_no_empty(es),
        SpecExpr::Opt(b) => no_empty(*b),
        SpecExpr::Many(b) => no_empty(*b),
        _ => true,
    }
}

pub open spec fn all_no_empty(es: Seq<SpecExpr>) -> bool
    decreases es,
{
    if es.len() == 0 {
        true
    } else {
        all_no_empty(es.drop_last()) && no_empty(es.last())
    }
}

/// What flattening contributes for one optimized part of a sequence.
pub open spec fn seq_piece(e: SpecExpr) -> Seq<SpecExpr> {
    match e {
        SpecExpr::Sequence(nested) => nested,
        _ => seq![e],
    }
}

/// What flattening contributes for one optimized part of an alternative.
pub open spec fn alt_piece(e: SpecExpr) -> Seq<SpecExpr> {
    match e {
        SpecExpr::Alt(nested) => nested,
        _ => seq![e],
    }
}

/// `optimize`: parts of a sequence are optimized and nested sequences are
/// spliced in; the same for alternatives; a sequence or alternative of one
/// part becomes that part; options and repetitions are optimized inside.
pub open spec fn optimize_expr(e: SpecExpr) -> SpecExpr
    decreases e,
{
    match e {
        SpecExpr::Sequence(es) => {
            let flat = flatten_seq(es);
            if flat.len() == 1 {
                flat[0]
            } else {
                SpecExpr::Sequence(flat)
            }
        },
        SpecExpr::Alt(es) => {
            let flat = flatten_alt(es);
            if flat.len() == 1 {
                flat[0]
            } else {
                SpecExpr::Alt(flat)
            }
        },
        SpecExpr::Opt(b) => SpecExpr::Opt(Box::new(optimize_expr(*b))),
        SpecExpr::Many(b) => SpecExpr::Many(Box::new(optimize_expr(*b))),
        _ => e,
    }
}

pub open spec fn flatten_seq(es: Seq<SpecExpr>) -> Seq<SpecExpr>
    decreases es,
{
    if es.len() == 0 {
        Seq::empty()
    } else {
        flatten_seq(es.drop_last()) + seq_piece(optimize_expr(es.last()))
    }
}

pub open spec fn flatten_alt(es: Seq<SpecExpr>) -> Seq<SpecExpr>
    decreases es,
{
    if es.len() == 0 {
        Seq::empty()
    } else {
        flatten_alt(es.drop_last()) + alt_piece(optimize_expr(es.last()))
    }
}

proof fn lemma_flatten_seq_take(es: Seq<SpecExpr>, i: int)
    requires
        0 <= i < es.len(),
    ensures
        flatten_seq(es.take(i + 1)) == flatten_seq(es.take(i)) + seq_piece(optimize_expr(es[i])),
{
    assert(es.take(i + 1).drop_last() =~= es.take(i));
}

proof fn lemma_flatten_alt_take(es: Seq<SpecExpr>, i: int)
    requires
        0 <= i < es.len(),
    ensures
        flatten_alt(es.take(i + 1)) == flatten_alt(es.take(i)) + alt_piece(optimize_expr(es[i])),
{
    assert(es.take(i + 1).drop_last() =~= es.take(i));
}

pub proof fn lemma_all_no_empty(es: Seq<SpecExpr>)
    ensures
        all_no_empty(es) <==> forall|i: int| 0 <= i < es.len() ==> no_empty(#[trigger] es[i]),
    decreases es.len(),
{
    if es.len() > 0 {
        lemma_all_no_empty(es.drop_last());
        if forall|i: int| 0 <= i < es.len() ==> no_empty(#[trigger] es[i]) {
            assert forall|i: int| 0 <= i < es.drop_last().len() implies no_empty(#[trigger] es.drop_last()[i]) by {
                assert(es.drop_last()[i] == es[i]);
            }
        }
        if all_no_empty(es) {
            assert forall|i: int| 0 <= i < es.len() implies no_empty(#[trigger] es[i]) by {
                if i < es.len() - 1 {
                    assert(es.drop_last()[i] == es[i]);
                }
            }
        }
    }
}

/// `e` is in the form that `optimize` produces: every sequence and every
/// alternative has at least two parts, no part of a sequence is a sequence,
/// no part of an alternative is an alternative.
pub open spec fn normal(e: SpecExpr) -> bool
    decreases e,
{
    match e {
        SpecExpr::Sequence(v) => v.len() >= 2 && seq_parts_normal(v),
        SpecExpr::Alt(v) => v.len() >= 2 && alt_parts_normal(v),
        SpecExpr::Opt(b) => normal(*b),
        SpecExpr::Many(b) => normal(*b),
        _ => true,
    }
}

pub open spec fn seq_parts_normal(v: Seq<SpecExpr>) -> bool
    decreases v,
{
    if v.len() == 0 {
        true
    } else {
        seq_parts_normal(v.drop_last()) && normal(v.last()) && !(v.last() is Sequence)
    }
}

pub open spec fn alt_parts_normal(v: Seq<SpecExpr>) -> bool
    decreases v,
{
    if v.len() == 0 {
        true
    } else {
        alt_parts_normal(v.drop_last()) && normal(v.last()) && !(v.last() is Alt)
    }
}

pub proof fn lemma_seq_parts_normal(v: Seq<SpecExpr>)
    ensures
        seq_parts_normal(v) <==> forall|i: int| 0 <= i < v.len() ==> normal(#[trigger] v[i]) && !(v[i] is Sequence),
    decreases v.len(),
{
    if v.len() > 0 {
        lemma_seq_parts_normal(v.drop_last());
        if forall|i: int| 0 <= i < v.len() ==> normal(#[trigger] v[i]) && !(v[i] is Sequence) {
            assert forall|i: int| 0 <= i < v.drop_last().len() implies normal(#[trigger] v.drop_last()[i])
                && !(v.drop_last()[i] is Sequence) by {
                assert(v.drop_last()[i] == v[i]);
            }
        }
        if seq_parts_normal(v) {
            assert forall|i: int| 0 <= i < v.len() implies normal(#[trigger] v[i]) && !(v[i] is Sequence) by {
                if i < v.len() - 1 {
                    assert(v.drop_last()[i] == v[i]);
                }
            }
        }
    }
}

pub proof fn lemma_alt_parts_normal(v: Seq<SpecExpr>)
    ensures
        alt_parts_normal(v) <==> forall|i: int| 0 <= i < v.len() ==> normal(#[trigger] v[i]) && !(v[i] is Alt),
    decreases v.len(),
{
    if v.len() > 0 {
        lemma_alt_parts_normal(v.drop_last());
        if forall|i: int| 0 <= i < v.len() ==> normal(#[trigger] v[i]) && !(v[i] is Alt) {
            assert forall|i: int| 0 <= i < v.drop_last().len() implies normal(#[trigger] v.drop_last()[i])
                && !(v.drop_last()[i] is Alt) by {
                assert(v.drop_last()[i] == v[i]);
            }
        }
        if alt_parts_normal(v) {
            assert forall|i: int| 0 <= i < v.len() implies normal(#[trigger] v[i]) && !(v[i] is Alt) by {
                if i < v.len() - 1 {
                    assert(v.drop_last()[i] == v[i]);
                }
            }
        }
    }
}

/// `optimize` produces the normal form.
pub proof fn lemma_optimize_normal(e: SpecExpr)
    requires
        no_empty(e),
    ensures
        normal(optimize_expr(e)),
    decreases e,
{
    match e {
        SpecExpr::Sequence(es) => {
            lemma_flatten_seq_normal(es);
            let flat = flatten_seq(es);
            lemma_seq_parts_normal(flat);
        },
        SpecExpr::Alt(es) => {
            lemma_flatten_alt_normal(es);
            let flat = flatten_alt(es);
            lemma_alt_parts_normal(flat);
        },
        SpecExpr::Opt(b) => {
            lemma_optimize_normal(*b);
        },
        SpecExpr::Many(b) => {
            lemma_optimize_normal(*b);
        },
        _ => {},
    }
}

proof fn lemma_flatten_seq_normal(es: Seq<SpecExpr>)
    requires
        all_no_empty(es),
    ensures
        flatten_seq(es).len() >= es.len(),
        seq_parts_normal(flatten_seq(es)),
    decreases es,
{
    if es.len() > 0 {
        lemma_flatten_seq_normal(es.drop_last());
        lemma_optimize_normal(es.last());
        let o = optimize_expr(es.last());
        let left = flatten_seq(es.drop_last());
        let piece = seq_piece(o);
        lemma_seq_parts_normal(left);
        lemma_seq_parts_normal(left + piece);
        match o {
            SpecExpr::Sequence(nested) => {
                lemma_seq_parts_normal(nested);
                assert forall|i: int| 0 <= i < (left + piece).len() implies normal(#[trigger] (left + piece)[i])
                    && !((left + piece)[i] is Sequence) by {
                    if i >= left.len() {
                        assert((left + piece)[i] == nested[i - left.len()]);
                    }
                }
            },
            _ => {
                assert forall|i: int| 0 <= i < (left + piece).len() implies normal(#[trigger] (left + piece)[i])
                    && !((left + piece)[i] is Sequence) by {
                    if i >= left.len() {
                        assert((left + piece)[i] == o);
                    }
                }
            },
        }
    }
}

proof fn lemma_flatten_alt_normal(es: Seq<SpecExpr>)
    requires
        all_no_empty(es),
    ensures
        flatten_alt(es).len() >= es.len(),
        alt_parts_normal(flatten_alt(es)),
    decreases es,
{
    if es.len() > 0 {
        lemma_flatten_alt_normal(es.drop_last());
        lemma_optimize_normal(es.last());
        let o = optimize_expr(es.last());
        let left = flatten_alt(es.drop_last());
        let piece = alt_piece(o);
        lemma_alt_parts_normal(left);
        lemma_alt_parts_normal(left + piece);
        match o {
            SpecExpr::Alt(nested) => {
                lemma_alt_parts_normal(nested);
                assert forall|i: int| 0 <= i < (left + piece).len() implies normal(#[trigger] (left + piece)[i])
                    && !((left + piece)[i] is Alt) by {
                    if i >= left.len() {
                        assert((left + piece)[i] == nested[i - left.len()]);
                    }
                }
            },
            _ => {
                assert forall|i: int| 0 <= i < (left + piece).len() implies normal(#[trigger] (left + piece)[i])
                    && !((left + piece)[i] is Alt) by {
                    if i >= left.len() {
                        assert((left + piece)[i] == o);
                    }
                }
            },
        }
    }
}

/// The normal form is left as it is by `optimize`.
pub proof fn lemma_normal_fixed(e: SpecExpr)
    requires
        normal(e),
    ensures
        optimize_expr(e) == e,
    decreases e,
{
    match e {
        SpecExpr::Sequence(v) => {
            lemma_flatten_seq_fixed(v);
        },
        SpecExpr::Alt(v) => {
            lemma_flatten_alt_fixed(v);
        },
        SpecExpr::Opt(b) => {
            lemma_normal_fixed(*b);
        },
        SpecExpr::Many(b) => {
            lemma_normal_fixed(*b);
        },
        _ => {},
    }
}

proof fn lemma_flatten_seq_fixed(v: Seq<SpecExpr>)
    requires
        seq_parts_normal(v),
    ensures
        flatten_seq(v) == v,
    decreases v,
{
    if v.len() > 0 {
        lemma_flatten_seq_fixed(v.drop_last());
        lemma_normal_fixed(v.last());
        assert(v.drop_last() + seq![v.last()] =~= v);
    }
}

proof fn lemma_flatten_alt_fixed(v: Seq<SpecExpr>)
    requires
        alt_parts_normal(v),
    ensures
        flatten_alt(v) == v,
    decreases v,
{
    if v.len() > 0 {
        lemma_flatten_alt_fixed(v.drop_last());
        lemma_normal_fixed(v.last());
        assert(v.drop_last() + seq![v.last()] =~= v);
    }
}

/// `p` is the parser that `compile` builds from the optimized expression `e`:
/// the same shape, with an alternative of n parts folded from the left into
/// n - 1 binary alternatives.
pub open spec fn compiles_to(e: SpecExpr, p: Parser) -> bool
    decreases e,
{
    match e {
        SpecExpr::Literal(s) => p is Literal && p->Literal_0@ == s,
        SpecExpr::Satisfy(c) => p == Parser::Satisfy(c),
        SpecExpr::Sequence(es) => p is Sequence && compiles_all(es, p->Sequence_0@),
        SpecExpr::Alt(es) => alt_chain(es, p),
        SpecExpr::Opt(b) => p is Optional && compiles_to(*b, *p->Optional_0),
        SpecExpr::Many(b) => p is Many && compiles_to(*b, *p->Many_0),
        SpecExpr::Ref(s) => p is Ref && p->Ref_0@ == s,
    }
}

/// Each expression compiles to the parser at the same index.
pub open spec fn compiles_all(es: Seq<SpecExpr>, ps: Seq<Parser>) -> bool
    decreases es,
{
    es.len() == ps.len() && (es.len() == 0 || (compiles_all(es.drop_last(), ps.drop_last())
        && compiles_to(es.last(), ps.last())))
}

/// `p` is the left fold of `alt` over the compiled expressions.
pub open spec fn alt_chain(es: Seq<SpecExpr>, p: Parser) -> bool
    decreases es,
{
    if es.len() <= 1 {
        es.len() == 1 && compiles_to(es[0], p)
    } else {
        p is Alternative && alt_chain(es.drop_last(), *p->Alternative_0) && compiles_to(
            es.last(),
            *p->Alternative_1,
        )
    }
}

impl ParserExpr {
    /// Compile the expression into a parser (after optimizing it).
    pub fn compile(self) -> (r: Parser)
        requires
            no_empty(self.view()),
        ensures
            compiles_to(optimize_expr(self.view()), r),
    {
        let o = self.optimize();
        proof {
            lemma_optimize_normal(self.view());
        }
        convert(&o)
    }
}

/// Build the parser of an optimized expression.
fn convert(e: &ParserExpr) -> (r: Parser)
    requires
        normal(e.view()),
    ensures
        compiles_to(e.view(), r),
    decreases e,
{
    match e {
        ParserExpr::Literal(s) => lit(s.as_str()),
        ParserExpr::Satisfy(f) => satisfy_dyn(*f),
        ParserExpr::Sequence(exprs) => {
            proof {
                lemma_seq_parts_normal(expr_views(exprs@));
            }
            crate::parser::seq(convert_list(exprs))
        },
        ParserExpr::Alt(exprs) => {
            proof {
                lemma_alt_parts_normal(expr_views(exprs@));
            }
            convert_alt(exprs)
        },
        ParserExpr::Opt(b) => opt(convert(b)),
        ParserExpr::Many(b) => many(convert(b)),
        ParserExpr::Ref(name) => rule_ref(name.clone()),
    }
}

proof fn lemma_compiles_all_push(es: Seq<SpecExpr>, ps: Seq<Parser>, e: SpecExpr, p: Parser)
    requires
        compiles_all(es, ps),
        compiles_to(e, p),
    ensures
        compiles_all(es.push(e), ps.push(p)),
{
    assert(es.push(e).drop_last() =~= es);
    assert(ps.push(p).drop_last() =~= ps);
}

/// Build the parsers of the parts of a sequence.
fn convert_list(exprs: &Vec<ParserExpr>) -> (r: Vec<Parser>)
    requires
        forall|i: int| 0 <= i < expr_views(exprs@).len() ==> normal(#[trigger] expr_views(exprs@)[i]),
    ensures
        compiles_all(expr_views(exprs@), r@),
    decreases exprs,
{
    let ghost es = expr_views(exprs@);
    proof {
        lemma_expr_views(exprs@);
    }
    let mut out: Vec<Parser> = Vec::new();
    let mut i: usize = 0;
    while i < exprs.len()
        invariant
            es == expr_views(exprs@),
            es.len() == exprs@.len(),
            forall|j: int| 0 <= j < es.len() ==> #[trigger] es[j] == exprs@[j].view(),
            forall|j: int| 0 <= j < es.len() ==> normal(#[trigger] es[j]),
            i <= exprs@.len(),
            compiles_all(es.take(i as int), out@),
        decreases exprs@.len() - i,
    {
        assert(decreases_to!(exprs => exprs@[i as int]));
        assert(es[i as int] == exprs@[i as int].view());
        let p = convert(&exprs[i]);
        proof {
            lemma_compiles_all_push(es.take(i as int), out@, es[i as int], p);
            assert(es.take(i as int).push(es[i as int]) =~= es.take(i + 1));
        }
        out.push(p);
        i = i + 1;
    }
    assert(es.take(es.len() as int) =~= es);
    out
}

/// Fold `alt` from the left over the parsers of the parts of an alternative.
fn convert_alt(exprs: &Vec<ParserExpr>) -> (r: Parser)
    requires
        exprs@.len() >= 1,
        forall|i: int| 0 <= i < expr_views(exprs@).len() ==> normal(#[trigger] expr_views(exprs@)[i]),
    ensures
        alt_chain(expr_views(exprs@), r),
    decreases exprs,
{
    let ghost es = expr_views(exprs@);
    proof {
        lemma_expr_views(exprs@);
    }
    assert(decreases_to!(exprs => exprs@[0]));
    assert(es[0] == exprs@[0].view());
    let mut acc = convert(&exprs[0]);
    assert(es.take(1).len() == 1 && es.take(1)[0] == es[0]);
    let mut i: usize = 1;
    while i < exprs.len()
        invariant
            es == expr_views(exprs@),
            es.len() == exprs@.len(),
            forall|j: int| 0 <= j < es.len() ==> #[trigger] es[j] == exprs@[j].view(),
            forall|j: int| 0 <= j < es.len() ==> normal(#[trigger] es[j]),
            1 <= i <= exprs@.len(),
            alt_chain(es.take(i as int), acc),
        decreases exprs@.len() - i,
    {
        assert(decreases_to!(exprs => exprs@[i as int]));
        assert(es[i as int] == exprs@[i as int].view());
        let p = convert(&exprs[i]);
        proof {
            assert(es.take(i + 1).drop_last() =~= es.take(i as int));
            assert(es.take(i + 1).last() == es[i as int]);
        }
        acc = alt(acc, p);
        i = i + 1;
    }
    assert(es.take(es.len() as int) =~= es);
    acc
}

impl Grammar {
    /// Define a grammar rule directly from a [`ParserExpr`].
    pub fn define_expr(&mut self, name: &str, expr: ParserExpr)
        requires
            no_empty(expr.view()),
        ensures
            final(self).memo_view() == old(self).memo_view(),
            final(self).text() == old(self).text(),
            exists|p: Parser| compiles_to(optimize_expr(expr.view()), p)
                && defined(old(self).rules_view(), final(self).rules_view(), name@, p),
    {
        let parser = expr.compile();
        let ghost q = parser;
        self.define(name, parser);
        assert(compiles_to(optimize_expr(expr.view()), q) && defined(old(self).rules_view(), self.rules_view(), name@, q));
    }
}

impl ParserExpr {
    /// Optimize the parser expression tree by:
    /// 1. Flattening nested [ParserExpr::Sequence] and [ParserExpr::Alt] nodes
    /// 2. Removing trivial layers
    pub fn optimize(self) -> (r: ParserExpr)
        requires
            no_empty(self.view()),
        ensures
            r.view() == optimize_expr(self.view()),
    {
        optimize_ref(&self)
    }
}

/// The optimized form of an expression.
fn optimize_ref(e: &ParserExpr) -> (r: ParserExpr)
    requires
        no_empty(e.view()),
    ensures
        r.view() == optimize_expr(e.view()),
    decreases e,
{
    match e {
        ParserExpr::Sequence(exprs) => {
            proof {
                lemma_all_no_empty(expr_views(exprs@));
                lemma_flatten_seq_normal(expr_views(exprs@));
            }
            let mut optimized = flatten_list(exprs, true);
            proof {
                lemma_expr_views(optimized@);
            }
            if optimized.len() == 1 {
                optimized.pop().unwrap()
            } else {
                ParserExpr::Sequence(optimized)
            }
        },
        ParserExpr::Alt(exprs) => {
            proof {
                lemma_all_no_empty(expr_views(exprs@));
                lemma_flatten_alt_normal(expr_views(exprs@));
            }
            let mut optimized = flatten_list(exprs, false);
            proof {
                lemma_expr_views(optimized@);
            }
            if optimized.len() == 1 {
                optimized.pop().unwrap()
            } else {
                ParserExpr::Alt(optimized)
            }
        },
        ParserExpr::Opt(b) => ParserExpr::Opt(Box::new(optimize_ref(b))),
        ParserExpr::Many(b) => ParserExpr::Many(Box::new(optimize_ref(b))),
        ParserExpr::Literal(s) => ParserExpr::Literal(s.clone()),
        ParserExpr::Satisfy(c) => ParserExpr::Satisfy(*c),
        ParserExpr::Ref(s) => ParserExpr::Ref(s.clone()),
    }
}

/// Optimize the parts of a sequence (`in_seq`) or an alternative, splicing
/// in the parts of nested sequences (or alternatives).
fn flatten_list(exprs: &Vec<ParserExpr>, in_seq: bool) -> (r: Vec<ParserExpr>)
    requires
        all_no_empty(expr_views(exprs@)),
    ensures
        expr_views(r@) == if in_seq {
            flatten_seq(expr_views(exprs@))
        } else {
            flatten_alt(expr_views(exprs@))
        },
    decreases exprs,
{
    let ghost es = expr_views(exprs@);
    proof {
        lemma_expr_views(exprs@);
        lemma_all_no_empty(es);
    }
    let mut optimized: Vec<ParserExpr> = Vec::new();
    let mut i: usize = 0;
    while i < exprs.len()
        invariant
            es == expr_views(exprs@),
            es.len() == exprs@.len(),
            forall|j: int| 0 <= j < es.len() ==> #[trigger] es[j] == exprs@[j].view(),
            forall|j: int| 0 <= j < es.len() ==> no_empty(#[trigger] es[j]),
            i <= exprs@.len(),
            expr_views(optimized@) == if in_seq {
                flatten_seq(es.take(i as int))
            } else {
                flatten_alt(es.take(i as int))
            },
        decreases exprs@.len() - i,
    {
        assert(decreases_to!(exprs => exprs@[i as int]));
        assert(es[i as int] == exprs@[i as int].view());
        let o = optimize_ref(&exprs[i]);
        proof {
            lemma_flatten_seq_take(es, i as int);
            lemma_flatten_alt_take(es, i as int);
        }
        let splice = match &o {
            ParserExpr::Sequence(_) => in_seq,
            ParserExpr::Alt(_) => !in_seq,
            _ => false,
        };
        if splice {
            match o {
                ParserExpr::Sequence(nested) | ParserExpr::Alt(nested) => {
                    let mut nested = nested;
                    proof {
                        lemma_expr_views_add(optimized@, nested@);
                    }
                    optimized.append(&mut nested);
                },
                _ => {},
            }
        } else {
            proof {
                assert(optimized@.push(o) =~= optimized@ + seq![o]);
                lemma_expr_views(seq![o]);
                assert(expr_views(seq![o]) =~= seq![o.view()]);
                lemma_expr_views_add(optimized@, seq![o]);
            }
            optimized.push(o);
        }
        i = i + 1;
    }
    assert(es.take(es.len() as int) =~= es);
    optimized
}

/// Creates a ParserExpr that references a named rule.
pub fn ref_(name: &str) -> (r: ParserExpr)
    ensures
        r.view() == SpecExpr::Ref(name@),
{
    ParserExpr::Ref(String::from_str(name))
}

/// Creates a ParserExpr that matches a literal string.
pub fn lit_(s: &str) -> (r: ParserExpr)
    ensures
        r.view() == SpecExpr::Literal(s@),
{
    ParserExpr::Literal(String::from_str(s))
}

/// Creates a ParserExpr that matches a character of the given class.
pub fn satisfy_(f: CharClass) -> (r: ParserExpr)
    ensures
        r.view() == SpecExpr::Satisfy(f),
{
    ParserExpr::Satisfy(f)
}

/// The text that describes an expression: each variant by its name with its
/// contents in brackets, a list of parts as `[a, b, ..]`, a character class
/// as `Satisfy` alone.
pub open spec fn describe_expr(e: SpecExpr) -> Seq<char>
    decreases e,
{
    match e {
        SpecExpr::Literal(s) => "Literal("@ + s + ")"@,
        SpecExpr::Satisfy(_) => "Satisfy"@,
        SpecExpr::Sequence(es) => "Seq(["@ + describe_items(es) + "])"@,
        SpecExpr::Alt(es) => "Alt(["@ + describe_items(es) + "])"@,
        SpecExpr::Opt(b) => "Opt("@ + describe_expr(*b) + ")"@,
        SpecExpr::Many(b) => "Many("@ + describe_expr(*b) + ")"@,
        SpecExpr::Ref(name) => "Ref("@ + name + ")"@,
    }
}

/// The descriptions of the parts, separated by ", ".
pub open spec fn describe_items(es: Seq<SpecExpr>) -> Seq<char>
    decreases es,
{
    if es.len() == 0 {
        Seq::empty()
    } else if es.len() == 1 {
        describe_expr(es[0])
    } else {
        describe_items(es.drop_last()) + ", "@ + describe_expr(es.last())
    }
}

impl ParserExpr {
    /// A text that describes the expression, such as
    /// `Seq([Literal(a), Opt(Ref(b))])`.
    pub fn describe(&self) -> (r: String)
        ensures
            r@ == describe_expr(self.view()),
        decreases self,
    {
        match self {
            ParserExpr::Literal(s) => {
                let mut r = String::from_str("Literal(");
                r.append(s.as_str());
                r.append(")");
                r
            },
            ParserExpr::Satisfy(_) => String::from_str("Satisfy"),
            ParserExpr::Sequence(es) => {
                let mut r = String::from_str("Seq([");
                let items = describe_list(es);
                r.append(items.as_str());
                r.append("])");
                r
            },
            ParserExpr::Alt(es) => {
                let mut r = String::from_str("Alt([");
                let items = describe_list(es);
                r.append(items.as_str());
                r.append("])");
                r
            },
            ParserExpr::Opt(b) => {
                let mut r = String::from_str("Opt(");
                let inner = b.describe();
                r.append(inner.as_str());
                r.append(")");
                r
            },
            ParserExpr::Many(b) => {
                let mut r = String::from_str("Many(");
                let inner = b.describe();
                r.append(inner.as_str());
                r.append(")");
                r
            },
            ParserExpr::Ref(name) => {
                let mut r = String::from_str("Ref(");
                r.append(name.as_str());
                r.append(")");
                r
            },
        }
    }
}

/// The descriptions of a list of expressions, separated by ", ".
fn describe_list(es: &Vec<ParserExpr>) -> (r: String)
    ensures
        r@ == describe_items(expr_views(es@)),
    decreases es,
{
    proof {
        lemma_expr_views(es@);
    }
    let mut result = String::new();
    let mut i: usize = 0;
    while i < es.len()
        invariant
            i <= es@.len(),
            expr_views(es@).len() == es@.len(),
            forall|j: int| 0 <= j < es@.len() ==> #[trigger] expr_views(es@)[j] == es@[j].view(),
            result@ == describe_items(expr_views(es@).take(i as int)),
        decreases es@.len() - i,
    {
        assert(decreases_to!(es => es@[i as int]));
        let piece = es[i].describe();
        proof {
            let vs = expr_views(es@);
            assert(vs.take(i + 1).drop_last() =~= vs.take(i as int));
            assert(vs.take(i + 1).last() == vs[i as int]);
        }
        if i > 0 {
            result.append(", ");
            result.append(piece.as_str());
        } else {
            proof {
                let vs = expr_views(es@);
                assert(vs.take(1)[0] == vs[0]);
            }
            result = piece;
        }
        i = i + 1;
    }
    assert(expr_views(es@).take(es@.len() as int) =~= expr_views(es@));
    proof {
        if es@.len() == 0 {
            assert(expr_views(es@).take(0) =~= Seq::<SpecExpr>::empty());
        }
    }
    result
}

} // verus!
