//! Laws that pin down what the character classes, repetitions, compilation
//! and optimization mean, stated in terms of their inputs and results.
use vstd::prelude::*;
use crate::chars::CharClass;
use crate::parser::{Parser, same_parser, same_parsers};
use crate::semantics::{Ctx, Memo, Active, Outcome, run, concat_values};
use crate::expr::{SpecExpr, compiles_to, compiles_all, alt_chain, optimize_expr, flatten_seq, flatten_alt, seq_piece,
    alt_piece};
use crate::laws::law_same_parser;
use crate::expr::{no_empty, all_no_empty, normal, lemma_optimize_normal, lemma_all_no_empty};

verus! {

/// A single-character parser of a class succeeds exactly when the input's
/// first character `c` passes `member(c)`, and then consumes that one
/// character and yields it as its text; it never touches the cache.
pub open spec fn matches_first(ctx: Ctx, class: CharClass, input: Seq<char>, memo: Memo, active: Active,
    member: bool) -> bool {
    let (o, m) = run(ctx, Parser::Satisfy(class), input, memo, active);
    &&& m == memo
    &&& (o is Done) <==> (input.len() > 0 && member)
    &&& o matches Outcome::Done(n, rest) ==> n.value == seq![input[0]] && rest == input.skip(1)
}

/// `digit()` accepts exactly a first character among '0' ..= '9'.
pub proof fn law_digit(ctx: Ctx, input: Seq<char>, memo: Memo, active: Active)
    ensures
        matches_first(ctx, CharClass::AsciiDigit, input, memo, active,
            input.len() > 0 && '0' <= input[0] && input[0] <= '9'),
{
}

/// `CharClass::Is(x)` accepts exactly `x`, `CharClass::IsNot(x)` every
/// character but `x`, and `CharClass::Any` every character.
pub proof fn law_char_is(ctx: Ctx, x: char, input: Seq<char>, memo: Memo, active: Active)
    ensures
        matches_first(ctx, CharClass::Is(x), input, memo, active, input.len() > 0 && input[0] == x),
        matches_first(ctx, CharClass::IsNot(x), input, memo, active, input.len() > 0 && input[0] != x),
        matches_first(ctx, CharClass::Any, input, memo, active, true),
{
}

/// `letter()` accepts every ASCII letter, capital or small, and no other
/// ASCII character.
pub proof fn law_letter(ctx: Ctx, input: Seq<char>, memo: Memo, active: Active)
    requires
        input.len() > 0,
        input[0] <= '\u{7F}',
    ensures
        matches_first(ctx, CharClass::Alphabetic, input, memo, active,
            ('A' <= input[0] && input[0] <= 'Z') || ('a' <= input[0] && input[0] <= 'z')),
{
}

/// `space()` accepts tab, line feed, vertical tab, form feed, carriage
/// return and space, and no other ASCII character.
pub proof fn law_space(ctx: Ctx, input: Seq<char>, memo: Memo, active: Active)
    requires
        input.len() > 0,
        input[0] <= '\u{7F}',
    ensures
        matches_first(ctx, CharClass::Whitespace, input, memo, active,
            ('\u{9}' <= input[0] && input[0] <= '\u{D}') || input[0] == ' '),
{
}

/// The uppercase class accepts the ASCII capitals and no other ASCII
/// character.
pub proof fn law_uppercase(ctx: Ctx, input: Seq<char>, memo: Memo, active: Active)
    requires
        input.len() > 0,
        input[0] <= '\u{7F}',
    ensures
        matches_first(ctx, CharClass::Uppercase, input, memo, active, 'A' <= input[0] && input[0] <= 'Z'),
{
}

/// A repetition that succeeds has as text the concatenated texts of its
/// children, in order; its first child is what its parser gives on the
/// input, and the rest of its children are what the repetition gives on the
/// rest after that first match; with no children, its parser failed on the
/// input and nothing was consumed.
pub proof fn law_many_children(ctx: Ctx, b: Parser, input: Seq<char>, memo: Memo, active: Active)
    ensures
        run(ctx, Parser::Many(Box::new(b)), input, memo, active).0 matches Outcome::Done(n, rest) ==> {
            &&& n.value == concat_values(n.children)
            &&& n.children.len() == 0 ==> run(ctx, b, input, memo, active).0 is Fail && rest == input
            &&& n.children.len() > 0 ==> (run(ctx, b, input, memo, active).0 matches Outcome::Done(m, r1)
                && m == n.children[0] && (run(ctx, Parser::Many(Box::new(b)), r1, run(ctx, b, input, memo, active).1, active).0
                matches Outcome::Done(n2, rest2) && n2.children == n.children.drop_first() && rest2 == rest))
        },
{
    let (o, m1) = run(ctx, b, input, memo, active);
    let big = run(ctx, Parser::Many(Box::new(b)), input, memo, active).0;
    let rm = crate::semantics::run_many(ctx, b, input, memo, active);
    assert(big == crate::semantics::many_outcome(ctx, input, rm.0));
    match o {
        Outcome::Done(m, r1) => {
            if r1.len() < input.len() {
                let ns2 = crate::semantics::run_many(ctx, b, r1, m1, active).0;
                assert(rm.0 == crate::semantics::cons_outcome(m, ns2));
                if let crate::semantics::Outcomes::Done(ns, r) = ns2 {
                    assert((seq![m] + ns).drop_first() =~= ns);
                    assert((seq![m] + ns).len() > 0);
                    assert((seq![m] + ns)[0] == m);
                }
            } else {
                assert(rm.0 is Stuck);
            }
        },
        Outcome::Fail(_) => {
            assert(rm.0 == crate::semantics::Outcomes::Done(Seq::empty(), input));
        },
        _ => {
            assert(!(rm.0 is Done));
        },
    }
}

/// Two parsers compiled from one expression are the same parser.
pub proof fn lemma_compiles_same(e: SpecExpr, p: Parser, q: Parser)
    requires
        compiles_to(e, p),
        compiles_to(e, q),
    ensures
        same_parser(p, q),
    decreases e,
{
    match e {
        SpecExpr::Sequence(es) => {
            lemma_compiles_all_same(es, p->Sequence_0@, q->Sequence_0@);
        },
        SpecExpr::Alt(es) => {
            lemma_alt_chain_same(es, p, q);
        },
        SpecExpr::Opt(b) => {
            lemma_compiles_same(*b, *p->Optional_0, *q->Optional_0);
        },
        SpecExpr::Many(b) => {
            lemma_compiles_same(*b, *p->Many_0, *q->Many_0);
        },
        _ => {},
    }
}

proof fn lemma_compiles_all_same(es: Seq<SpecExpr>, ps: Seq<Parser>, qs: Seq<Parser>)
    requires
        compiles_all(es, ps),
        compiles_all(es, qs),
    ensures
        same_parsers(ps, qs),
    decreases es,
{
    if es.len() > 0 {
        lemma_compiles_all_same(es.drop_last(), ps.drop_last(), qs.drop_last());
        lemma_compiles_same(es.last(), ps.last(), qs.last());
    }
}

proof fn lemma_alt_chain_same(es: Seq<SpecExpr>, p: Parser, q: Parser)
    requires
        alt_chain(es, p),
        alt_chain(es, q),
    ensures
        same_parser(p, q),
    decreases es,
{
    if es.len() <= 1 {
        lemma_compiles_same(es[0], p, q);
    } else {
        lemma_alt_chain_same(es.drop_last(), *p->Alternative_0, *q->Alternative_0);
        lemma_compiles_same(es.last(), *p->Alternative_1, *q->Alternative_1);
    }
}

/// The parser compiled from a repetition parses as `many` of the parser
/// compiled from its part.
pub proof fn law_compile_many(ctx: Ctx, b: SpecExpr, p: Parser, q: Parser, input: Seq<char>, memo: Memo, active: Active)
    requires
        compiles_to(SpecExpr::Many(Box::new(b)), p),
        compiles_to(b, q),
    ensures
        run(ctx, p, input, memo, active) == run(ctx, Parser::Many(Box::new(q)), input, memo, active),
{
    lemma_compiles_same(b, *p->Many_0, q);
    law_same_parser(ctx, p, Parser::Many(Box::new(q)), input, memo, active);
}

/// The parser compiled from an option parses as `opt` of the parser
/// compiled from its part.
pub proof fn law_compile_opt(ctx: Ctx, b: SpecExpr, p: Parser, q: Parser, input: Seq<char>, memo: Memo, active: Active)
    requires
        compiles_to(SpecExpr::Opt(Box::new(b)), p),
        compiles_to(b, q),
    ensures
        run(ctx, p, input, memo, active) == run(ctx, Parser::Optional(Box::new(q)), input, memo, active),
{
    lemma_compiles_same(b, *p->Optional_0, q);
    law_same_parser(ctx, p, Parser::Optional(Box::new(q)), input, memo, active);
}

/// The parser compiled from a sequence parses as `seq` of the parsers
/// compiled from its parts, in order.
pub proof fn law_compile_seq(ctx: Ctx, es: Seq<SpecExpr>, p: Parser, qs: Vec<Parser>, input: Seq<char>, memo: Memo,
    active: Active)
    requires
        compiles_to(SpecExpr::Sequence(es), p),
        compiles_all(es, qs@),
    ensures
        run(ctx, p, input, memo, active) == run(ctx, Parser::Sequence(qs), input, memo, active),
{
    lemma_compiles_all_same(es, p->Sequence_0@, qs@);
    law_same_parser(ctx, p, Parser::Sequence(qs), input, memo, active);
}

/// The parser compiled from an alternative of two or more parts parses as
/// `alt` of the parser compiled from all parts but the last and the parser
/// compiled from the last part: the parts are tried in order.
pub proof fn law_compile_alt(ctx: Ctx, es: Seq<SpecExpr>, p: Parser, p1: Parser, q: Parser, input: Seq<char>,
    memo: Memo, active: Active)
    requires
        es.len() >= 2,
        compiles_to(SpecExpr::Alt(es), p),
        compiles_to(SpecExpr::Alt(es.drop_last()), p1),
        compiles_to(es.last(), q),
    ensures
        run(ctx, p, input, memo, active) == run(
            ctx,
            Parser::Alternative(Box::new(p1), Box::new(q)),
            input,
            memo,
            active,
        ),
{
    assert(alt_chain(es, p));
    assert(alt_chain(es.drop_last(), p1));
    assert(p is Alternative && alt_chain(es.drop_last(), *p->Alternative_0) && compiles_to(es.last(), *p->Alternative_1));
    lemma_alt_chain_same(es.drop_last(), *p->Alternative_0, p1);
    lemma_compiles_same(es.last(), *p->Alternative_1, q);
    law_same_parser(ctx, p, Parser::Alternative(Box::new(p1), Box::new(q)), input, memo, active);
}

/// The parser compiled from a literal, a character class or a rule
/// reference is that literal, class or reference.
pub proof fn law_compile_atom(ctx: Ctx, e: SpecExpr, p: Parser, q: Parser, input: Seq<char>, memo: Memo, active: Active)
    requires
        compiles_to(e, p),
        match e {
            SpecExpr::Literal(s) => q is Literal && q->Literal_0@ == s,
            SpecExpr::Satisfy(c) => q == Parser::Satisfy(c),
            SpecExpr::Ref(name) => q is Ref && q->Ref_0@ == name,
            _ => false,
        },
    ensures
        run(ctx, p, input, memo, active) == run(ctx, q, input, memo, active),
{
    law_same_parser(ctx, p, q, input, memo, active);
}

/// The literals, character classes and rule references of an expression,
/// from left to right.
pub open spec fn atoms(e: SpecExpr) -> Seq<SpecExpr>
    decreases e,
{
    match e {
        SpecExpr::Sequence(es) => atoms_all(es),
        SpecExpr::Alt(es) => atoms_all(es),
        SpecExpr::Opt(b) => atoms(*b),
        SpecExpr::Many(b) => atoms(*b),
        _ => seq![e],
    }
}

/// The atoms of a list of expressions, from left to right.
pub open spec fn atoms_all(es: Seq<SpecExpr>) -> Seq<SpecExpr>
    decreases es,
{
    if es.len() == 0 {
        Seq::empty()
    } else {
        atoms_all(es.drop_last()) + atoms(es.last())
    }
}

proof fn lemma_atoms_all_add(a: Seq<SpecExpr>, b: Seq<SpecExpr>)
    ensures
        atoms_all(a + b) == atoms_all(a) + atoms_all(b),
    decreases b.len(),
{
    if b.len() == 0 {
        assert(a + b =~= a);
        assert(atoms_all(a) + atoms_all(b) =~= atoms_all(a));
    } else {
        assert((a + b).drop_last() =~= a + b.drop_last());
        assert((a + b).last() == b.last());
        lemma_atoms_all_add(a, b.drop_last());
        assert(atoms_all(a) + atoms_all(b.drop_last()) + atoms(b.last())
            =~= atoms_all(a) + (atoms_all(b.drop_last()) + atoms(b.last())));
    }
}

proof fn lemma_atoms_single(e: SpecExpr)
    ensures
        atoms_all(seq![e]) == atoms(e),
{
    assert(seq![e].drop_last() =~= Seq::<SpecExpr>::empty());
    assert(seq![e].last() == e);
    assert(atoms_all(Seq::<SpecExpr>::empty()) == Seq::<SpecExpr>::empty());
    assert(Seq::<SpecExpr>::empty() + atoms(e) =~= atoms(e));
}

/// Optimizing keeps the literals, classes and references of an expression,
/// and their left-to-right order: nested sequences and alternatives are
/// spliced in where they stood.
pub proof fn law_optimize_keeps_order(e: SpecExpr)
    ensures
        atoms(optimize_expr(e)) == atoms(e),
    decreases e,
{
    match e {
        SpecExpr::Sequence(es) => {
            lemma_flatten_seq_atoms(es);
            let flat = flatten_seq(es);
            if flat.len() == 1 {
                lemma_atoms_single(flat[0]);
                assert(flat =~= seq![flat[0]]);
            }
        },
        SpecExpr::Alt(es) => {
            lemma_flatten_alt_atoms(es);
            let flat = flatten_alt(es);
            if flat.len() == 1 {
                lemma_atoms_single(flat[0]);
                assert(flat =~= seq![flat[0]]);
            }
        },
        SpecExpr::Opt(b) => {
            law_optimize_keeps_order(*b);
        },
        SpecExpr::Many(b) => {
            law_optimize_keeps_order(*b);
        },
        _ => {},
    }
}

proof fn lemma_flatten_seq_atoms(es: Seq<SpecExpr>)
    ensures
        atoms_all(flatten_seq(es)) == atoms_all(es),
    decreases es,
{
    if es.len() > 0 {
        lemma_flatten_seq_atoms(es.drop_last());
        law_optimize_keeps_order(es.last());
        let o = optimize_expr(es.last());
        lemma_atoms_all_add(flatten_seq(es.drop_last()), seq_piece(o));
        if !(o is Sequence) {
            lemma_atoms_single(o);
        }
    }
}

proof fn lemma_flatten_alt_atoms(es: Seq<SpecExpr>)
    ensures
        atoms_all(flatten_alt(es)) == atoms_all(es),
    decreases es,
{
    if es.len() > 0 {
        lemma_flatten_alt_atoms(es.drop_last());
        law_optimize_keeps_order(es.last());
        let o = optimize_expr(es.last());
        lemma_atoms_all_add(flatten_alt(es.drop_last()), alt_piece(o));
        if !(o is Alt) {
            lemma_atoms_single(o);
        }
    }
}

/// A symbol of the written form of an expression.
pub enum Token {
    Atom(SpecExpr),
    OptOpen,
    ManyOpen,
    AltOpen,
    Bar,
    Close,
}

/// The written form of an expression, as a list of symbols: options and
/// repetitions in brackets, alternatives of two or more parts in brackets
/// with their parts separated by bars (an alternative that is a part of an
/// alternative needs no brackets of its own, `in_alt`), the parts of a
/// sequence side by side, and a sequence or alternative of one part as that
/// part.  Regrouping nested sequences, or nested alternatives, leaves it as
/// it is; changing the order or the kind of any part does not.
pub open spec fn toks(e: SpecExpr, in_alt: bool) -> Seq<Token>
    decreases e,
{
    match e {
        SpecExpr::Sequence(es) => if es.len() == 1 {
            toks(es[0], in_alt)
        } else {
            toks_seq(es)
        },
        SpecExpr::Alt(es) => if es.len() == 1 {
            toks(es[0], in_alt)
        } else if in_alt {
            toks_alt(es)
        } else {
            seq![Token::AltOpen] + toks_alt(es) + seq![Token::Close]
        },
        SpecExpr::Opt(b) => seq![Token::OptOpen] + toks(*b, false) + seq![Token::Close],
        SpecExpr::Many(b) => seq![Token::ManyOpen] + toks(*b, false) + seq![Token::Close],
        _ => seq![Token::Atom(e)],
    }
}

/// The written forms of the parts of a sequence, side by side.
pub open spec fn toks_seq(es: Seq<SpecExpr>) -> Seq<Token>
    decreases es,
{
    if es.len() == 0 {
        Seq::empty()
    } else {
        toks_seq(es.drop_last()) + toks(es.last(), false)
    }
}

/// The written forms of the parts of an alternative, separated by bars.
pub open spec fn toks_alt(es: Seq<SpecExpr>) -> Seq<Token>
    decreases es,
{
    if es.len() == 0 {
        Seq::empty()
    } else if es.len() == 1 {
        toks(es[0], true)
    } else {
        toks_alt(es.drop_last()) + seq![Token::Bar] + toks(es.last(), true)
    }
}

proof fn lemma_toks_seq_add(a: Seq<SpecExpr>, b: Seq<SpecExpr>)
    ensures
        toks_seq(a + b) == toks_seq(a) + toks_seq(b),
    decreases b.len(),
{
    if b.len() == 0 {
        assert(a + b =~= a);
        assert(toks_seq(a) + toks_seq(b) =~= toks_seq(a));
    } else {
        assert((a + b).drop_last() =~= a + b.drop_last());
        assert((a + b).last() == b.last());
        lemma_toks_seq_add(a, b.drop_last());
        assert(toks_seq(a) + toks_seq(b.drop_last()) + toks(b.last(), false)
            =~= toks_seq(a) + (toks_seq(b.drop_last()) + toks(b.last(), false)));
    }
}

proof fn lemma_toks_alt_add(a: Seq<SpecExpr>, b: Seq<SpecExpr>)
    requires
        a.len() > 0,
        b.len() > 0,
    ensures
        toks_alt(a + b) == toks_alt(a) + seq![Token::Bar] + toks_alt(b),
    decreases b.len(),
{
    assert((a + b).drop_last() =~= a + b.drop_last());
    assert((a + b).last() == b.last());
    if b.len() == 1 {
        assert(a + b.drop_last() =~= a);
    } else {
        lemma_toks_alt_add(a, b.drop_last());
        assert(toks_alt(a) + seq![Token::Bar] + toks_alt(b.drop_last()) + seq![Token::Bar] + toks(b.last(), true)
            =~= toks_alt(a) + seq![Token::Bar] + (toks_alt(b.drop_last()) + seq![Token::Bar] + toks(b.last(), true)));
    }
}

proof fn lemma_toks_seq_single(e: SpecExpr)
    ensures
        toks_seq(seq![e]) == toks(e, false),
{
    assert(seq![e].drop_last() =~= Seq::<SpecExpr>::empty());
    assert(seq![e].last() == e);
    assert(toks_seq(Seq::<SpecExpr>::empty()) == Seq::<Token>::empty());
    assert(Seq::<Token>::empty() + toks(e, false) =~= toks(e, false));
}

/// Flattening contributes at least one part per part.
proof fn lemma_flatten_seq_len(es: Seq<SpecExpr>)
    requires
        all_no_empty(es),
    ensures
        flatten_seq(es).len() >= es.len(),
    decreases es,
{
    if es.len() > 0 {
        lemma_all_no_empty(es);
        lemma_all_no_empty(es.drop_last());
        assert forall|i: int| 0 <= i < es.drop_last().len() implies no_empty(#[trigger] es.drop_last()[i]) by {
            assert(es.drop_last()[i] == es[i]);
        }
        lemma_flatten_seq_len(es.drop_last());
        lemma_optimize_normal(es.last());
    }
}

proof fn lemma_flatten_alt_len(es: Seq<SpecExpr>)
    requires
        all_no_empty(es),
    ensures
        flatten_alt(es).len() >= es.len(),
    decreases es,
{
    if es.len() > 0 {
        lemma_all_no_empty(es);
        lemma_all_no_empty(es.drop_last());
        assert forall|i: int| 0 <= i < es.drop_last().len() implies no_empty(#[trigger] es.drop_last()[i]) by {
            assert(es.drop_last()[i] == es[i]);
        }
        lemma_flatten_alt_len(es.drop_last());
        lemma_optimize_normal(es.last());
    }
}

proof fn lemma_flatten_seq_toks(es: Seq<SpecExpr>)
    requires
        all_no_empty(es),
    ensures
        toks_seq(flatten_seq(es)) == toks_seq(es),
    decreases es,
{
    if es.len() > 0 {
        lemma_all_no_empty(es);
        lemma_all_no_empty(es.drop_last());
        assert forall|i: int| 0 <= i < es.drop_last().len() implies no_empty(#[trigger] es.drop_last()[i]) by {
            assert(es.drop_last()[i] == es[i]);
        }
        lemma_flatten_seq_toks(es.drop_last());
        law_optimize_keeps_form(es.last(), false);
        lemma_optimize_normal(es.last());
        let o = optimize_expr(es.last());
        lemma_toks_seq_add(flatten_seq(es.drop_last()), seq_piece(o));
        if !(o is Sequence) {
            lemma_toks_seq_single(o);
        }
    }
}

proof fn lemma_flatten_alt_toks(es: Seq<SpecExpr>)
    requires
        all_no_empty(es),
        es.len() > 0,
    ensures
        toks_alt(flatten_alt(es)) == toks_alt(es),
    decreases es,
{
    lemma_all_no_empty(es);
    lemma_all_no_empty(es.drop_last());
    assert forall|i: int| 0 <= i < es.drop_last().len() implies no_empty(#[trigger] es.drop_last()[i]) by {
        assert(es.drop_last()[i] == es[i]);
    }
    law_optimize_keeps_form(es.last(), true);
    lemma_optimize_normal(es.last());
    let o = optimize_expr(es.last());
    let piece = alt_piece(o);
    assert(toks_alt(piece) == toks(es.last(), true)) by {
        if o is Alt {
            assert(piece.len() >= 2);
        }
    }
    if es.len() == 1 {
        assert(es.drop_last() =~= Seq::<SpecExpr>::empty());
        assert(flatten_alt(es.drop_last()) =~= Seq::<SpecExpr>::empty());
        assert(flatten_alt(es) =~= piece);
        assert(es.last() == es[0]);
    } else {
        lemma_flatten_alt_toks(es.drop_last());
        lemma_flatten_alt_len(es.drop_last());
        lemma_toks_alt_add(flatten_alt(es.drop_last()), piece);
    }
}

/// Optimizing keeps the written form of an expression: the same atoms in
/// the same order, under the same options, repetitions and alternatives;
/// only the grouping of nested sequences and of nested alternatives, and
/// layers of one part, change.
pub proof fn law_optimize_keeps_form(e: SpecExpr, in_alt: bool)
    requires
        no_empty(e),
    ensures
        toks(optimize_expr(e), in_alt) == toks(e, in_alt),
    decreases e,
{
    match e {
        SpecExpr::Sequence(es) => {
            lemma_all_no_empty(es);
            lemma_flatten_seq_toks(es);
            lemma_flatten_seq_len(es);
            let flat = flatten_seq(es);
            if es.len() == 1 {
                law_optimize_keeps_form(es[0], in_alt);
                lemma_optimize_normal(es[0]);
                assert(es.drop_last() =~= Seq::<SpecExpr>::empty());
                assert(es.last() == es[0]);
                assert(flatten_seq(es.drop_last()) == Seq::<SpecExpr>::empty());
                assert(flat =~= seq_piece(optimize_expr(es[0])));
            }
        },
        SpecExpr::Alt(es) => {
            lemma_all_no_empty(es);
            lemma_flatten_alt_toks(es);
            lemma_flatten_alt_len(es);
            let flat = flatten_alt(es);
            if es.len() == 1 {
                law_optimize_keeps_form(es[0], in_alt);
                lemma_optimize_normal(es[0]);
                assert(es.drop_last() =~= Seq::<SpecExpr>::empty());
                assert(es.last() == es[0]);
                assert(flatten_alt(es.drop_last()) == Seq::<SpecExpr>::empty());
                assert(flat =~= alt_piece(optimize_expr(es[0])));
            }
        },
        SpecExpr::Opt(b) => {
            law_optimize_keeps_form(*b, false);
        },
        SpecExpr::Many(b) => {
            law_optimize_keeps_form(*b, false);
        },
        _ => {},
    }
}

} // verus!
