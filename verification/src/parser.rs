use vstd::prelude::*;
use crate::chars::CharClass;

verus! {

/// A parser: a grammar expression that `Grammar` interprets over input text.
///
/// Each combinator function below builds one of these values; applying a
/// parser to input text (see `Parser::run` and `Grammar::parse`) transforms
/// the text according to the expression.
#[derive(Debug)]
pub enum Parser {
    /// Match a literal string.
    Literal(String),
    /// Match a single character of a class.
    Satisfy(CharClass),
    /// Apply each parser in turn.
    Sequence(Vec<Parser>),
    /// Try the first parser, else the second.
    Alternative(Box<Parser>, Box<Parser>),
    /// Zero or more repetitions.
    Many(Box<Parser>),
    /// Zero or one occurrence.
    Optional(Box<Parser>),
    /// A named rule of the grammar.
    Ref(String),
}

/// A named rule of a grammar.
pub struct Rule {
    pub name: String,
    pub body: Parser,
}

/// Refer to a named rule, enabling recursion.
///
/// When using `rule_ref` in recursive grammars, be mindful of the order of alternatives:
///
/// 1. For **greedy matching** (consuming as much input as possible), put the recursive pattern first.
/// 2. For **non-greedy matching** (consuming as little input as possible), put the recursive pattern last.
pub fn rule_ref(name: String) -> (r: Parser)
    ensures
        r == Parser::Ref(name),
{
    Parser::Ref(name)
}

/// Sequence: apply the parsers one after another.
pub fn seq(parsers: Vec<Parser>) -> (r: Parser)
    ensures
        r == Parser::Sequence(parsers),
{
    Parser::Sequence(parsers)
}

/// Alternative: try p1, else p2.
pub fn alt(p1: Parser, p2: Parser) -> (r: Parser)
    ensures
        r == Parser::Alternative(Box::new(p1), Box::new(p2)),
{
    Parser::Alternative(Box::new(p1), Box::new(p2))
}

/// Zero or more repetitions of a parser.
pub fn many(p: Parser) -> (r: Parser)
    ensures
        r == Parser::Many(Box::new(p)),
{
    Parser::Many(Box::new(p))
}

/// Optional: try once, else succeed without consuming input.
pub fn opt(p: Parser) -> (r: Parser)
    ensures
        r == Parser::Optional(Box::new(p)),
{
    Parser::Optional(Box::new(p))
}

/// Match a literal string.
pub fn lit(s: &str) -> (r: Parser)
    ensures
        r is Literal && r->Literal_0@ == s@,
{
    Parser::Literal(String::from_str(s))
}

/// Match a single character of the given class.
pub fn satisfy(pred: CharClass) -> (r: Parser)
    ensures
        r == Parser::Satisfy(pred),
{
    Parser::Satisfy(pred)
}

/// Match a single character of the given class (the form used when the
/// class is chosen at run time, as by `ParserExpr::compile`).
pub fn satisfy_dyn(pred: CharClass) -> (r: Parser)
    ensures
        r == Parser::Satisfy(pred),
{
    Parser::Satisfy(pred)
}

/// Match a single digit character (0-9).
pub fn digit() -> (r: Parser)
    ensures
        r == Parser::Satisfy(CharClass::AsciiDigit),
{
    satisfy(CharClass::AsciiDigit)
}

/// Match a single letter (alphabetic character).
pub fn letter() -> (r: Parser)
    ensures
        r == Parser::Satisfy(CharClass::Alphabetic),
{
    satisfy(CharClass::Alphabetic)
}

/// Match a single whitespace character.
pub fn space() -> (r: Parser)
    ensures
        r == Parser::Satisfy(CharClass::Whitespace),
{
    satisfy(CharClass::Whitespace)
}

/// `p` and `q` are the same expression: strings and lists of parts are
/// compared by their contents.
pub open spec fn same_parser(p: Parser, q: Parser) -> bool
    decreases p,
{
    match p {
        Parser::Literal(a) => q is Literal && q->Literal_0@ == a@,
        Parser::Satisfy(a) => q == Parser::Satisfy(a),
        Parser::Sequence(a) => q is Sequence && same_parsers(a@, q->Sequence_0@),
        Parser::Alternative(a1, a2) => q is Alternative && same_parser(*a1, *q->Alternative_0) && same_parser(
            *a2,
            *q->Alternative_1,
        ),
        Parser::Many(a) => q is Many && same_parser(*a, *q->Many_0),
        Parser::Optional(a) => q is Optional && same_parser(*a, *q->Optional_0),
        Parser::Ref(a) => q is Ref && q->Ref_0@ == a@,
    }
}

/// The lists have the same length and the same expression at each index.
pub open spec fn same_parsers(a: Seq<Parser>, b: Seq<Parser>) -> bool
    decreases a,
{
    a.len() == b.len() && (a.len() == 0 || (same_parsers(a.drop_last(), b.drop_last()) && same_parser(
        a.last(),
        b.last(),
    )))
}

pub proof fn lemma_same_parsers(a: Seq<Parser>, b: Seq<Parser>)
    ensures
        same_parsers(a, b) <==> (a.len() == b.len() && forall|i: int| 0 <= i < a.len() ==> same_parser(
            #[trigger] a[i],
            b[i],
        )),
    decreases a.len(),
{
    if a.len() > 0 && a.len() == b.len() {
        lemma_same_parsers(a.drop_last(), b.drop_last());
        if forall|i: int| 0 <= i < a.len() ==> same_parser(#[trigger] a[i], b[i]) {
            assert forall|i: int| 0 <= i < a.drop_last().len() implies same_parser(
                #[trigger] a.drop_last()[i],
                b.drop_last()[i],
            ) by {
                assert(a.drop_last()[i] == a[i]);
                assert(b.drop_last()[i] == b[i]);
            }
        }
        if same_parsers(a, b) {
            assert forall|i: int| 0 <= i < a.len() implies same_parser(#[trigger] a[i], b[i]) by {
                if i < a.len() - 1 {
                    assert(a.drop_last()[i] == a[i]);
                    assert(b.drop_last()[i] == b[i]);
                }
            }
        }
    }
}

/// A copy of a parser.
pub fn copy_parser(p: &Parser) -> (r: Parser)
    ensures
        same_parser(*p, r),
    decreases p,
{
    match p {
        Parser::Literal(s) => Parser::Literal(s.clone()),
        Parser::Satisfy(c) => Parser::Satisfy(*c),
        Parser::Sequence(v) => Parser::Sequence(copy_parsers(v)),
        Parser::Alternative(a, b) => Parser::Alternative(Box::new(copy_parser(a)), Box::new(copy_parser(b))),
        Parser::Many(b) => Parser::Many(Box::new(copy_parser(b))),
        Parser::Optional(b) => Parser::Optional(Box::new(copy_parser(b))),
        Parser::Ref(s) => Parser::Ref(s.clone()),
    }
}

/// A copy of a list of parsers.
pub fn copy_parsers(v: &Vec<Parser>) -> (r: Vec<Parser>)
    ensures
        same_parsers(v@, r@),
    decreases v,
{
    let mut r: Vec<Parser> = Vec::new();
    let mut i: usize = 0;
    while i < v.len()
        invariant
            i <= v@.len(),
            r@.len() == i,
            forall|j: int| 0 <= j < i ==> same_parser(#[trigger] v@[j], r@[j]),
        decreases v@.len() - i,
    {
        assert(decreases_to!(v => v@[i as int]));
        r.push(copy_parser(&v[i]));
        i = i + 1;
    }
    proof {
        lemma_same_parsers(v@, r@);
    }
    r
}

impl Clone for Parser {
    fn clone(&self) -> (r: Self)
        ensures
            same_parser(*self, r),
    {
        copy_parser(self)
    }
}

} // verus!
