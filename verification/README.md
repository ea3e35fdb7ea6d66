# pccc

A packrat parser-combinator library, verified with Verus.

Parsers are values of the enum `Parser`, built with the combinators `lit`,
`satisfy` (over a `CharClass`), `seq`, `alt`, `many`, `opt` and `rule_ref`, or
compiled from a `ParserExpr`.  A `Grammar` holds named rules and a cache of
rule results keyed by (rule name, byte position); `Grammar::parse` applies a
rule to a text, and `Parser::run` applies a parser directly.

## Layout of `src/`

- `ast.rs`, `errors.rs`, `value.rs`: parse nodes, errors and values, with
  their mathematical models.
- `parser.rs`, `chars.rs`: the combinators and character classes.
- `semantics.rs`: what applying a parser produces, as a spec function over
  the cache (`run`, `parse_rule`); `interp.rs` implements it and is proved
  equal to it; `grammar.rs` is the public `Grammar`.
- `memo.rs`, `text.rs`: the cache as a vector of entries, and UTF-8 lengths.
- `peg.rs`: the same semantics without a cache; `regime.rs`, `univ.rs` and
  `packrat.rs` prove that within a parse the cache changes nothing.
- `expr.rs`: `ParserExpr`, its optimization and compilation.
- `cached.rs`: every cache entry, and every node built, holds the text it
  consumed and spans it.
- `laws.rs`: the properties the library promises as a whole.

`Parser::run` on a suffix of the text last parsed counts byte positions
within that text and uses its cache; on any other input it takes the input
as the text and resets the cache, so that no cached result made for another
text is ever handed back.  The grammar keeps, as a type invariant, that every
cache entry belongs to a suffix of its text and holds the node of the prefix
it consumed (`cached.rs`).

The rules and the cache are vectors (`Vec<Rule>`, `Vec<MemoEntry>`) with the
invariant that no key occurs twice, rather than hash maps: their keys are
strings, and for string keys Verus's specification of `HashMap` gives no
usable facts about lookups, while a vector's contents are fully specified.
Character predicates are the values of the enum `CharClass` rather than
closures, so that a parser is plain data whose meaning can be stated.

A rule that re-enters itself on the same input, or a repetition whose parser
consumes nothing, would never finish; such a parse ends with an error that
says so.
