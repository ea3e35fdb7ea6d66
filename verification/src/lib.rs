//! PCCC: a packrat parser-combinator library.
//!
//! Parsers are grammar expressions (`Parser`) built with combinators (`lit`,
//! `satisfy`, `seq`, `alt`, `many`, `opt`, `rule_ref`); a `Grammar` holds named
//! rules and a cache of rule results by position, and applies parsers to text.
pub mod ast;
pub mod errors;
pub mod chars;
pub mod text;
pub mod parser;
pub mod semantics;
pub mod memo;
pub mod univ;
pub mod interp;
pub mod grammar;
pub mod regime;
pub mod peg;
pub mod packrat;
pub mod expr;
pub mod value;
pub mod laws;
pub mod cached;
pub mod meaning;

pub use crate::chars::CharClass;
pub use crate::grammar::{Grammar, ParseResult};
pub use crate::parser::{
    Parser, Rule, alt, digit, letter, lit, many, opt, rule_ref, satisfy, satisfy_dyn, space,
};
pub use crate::value::Value;
