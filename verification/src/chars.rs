use vstd::prelude::*;

verus! {

/// Character classes that a single-character parser can test for.
#[derive(Debug, Clone, Copy, PartialEq, Eq)]
pub enum CharClass {
    /// `'0'..='9'`
    AsciiDigit,
    /// Unicode `Alphabetic`
    Alphabetic,
    /// Unicode `White_Space`
    Whitespace,
    /// Unicode `Uppercase`
    Uppercase,
    /// Every character
    Any,
    /// Exactly the given character
    Is(char),
    /// Every character but the given one
    IsNot(char),
}

/// What `char::is_alphabetic` returns for a character outside ASCII.
pub uninterp spec fn unicode_alphabetic(c: char) -> bool;

/// What `char::is_whitespace` returns for a character outside ASCII.
pub uninterp spec fn unicode_whitespace(c: char) -> bool;

/// What `char::is_uppercase` returns for a character outside ASCII.
pub uninterp spec fn unicode_uppercase(c: char) -> bool;

/// `c` is an ASCII character (U+0000 ..= U+007F).
pub open spec fn is_ascii(c: char) -> bool {
    c <= '\u{7F}'
}

/// The Unicode `Alphabetic` property: among ASCII characters, the letters
/// A-Z and a-z; beyond ASCII, named by `unicode_alphabetic`.
pub open spec fn alphabetic(c: char) -> bool {
    if is_ascii(c) {
        ('a' <= c && c <= 'z') || ('A' <= c && c <= 'Z')
    } else {
        unicode_alphabetic(c)
    }
}

/// The Unicode `White_Space` property: among ASCII characters, U+0009 ..=
/// U+000D (tab, line feed, vertical tab, form feed, carriage return) and
/// U+0020 (space); beyond ASCII, named by `unicode_whitespace`.
pub open spec fn whitespace(c: char) -> bool {
    if is_ascii(c) {
        ('\u{9}' <= c && c <= '\u{D}') || c == ' '
    } else {
        unicode_whitespace(c)
    }
}

/// The Unicode `Uppercase` property: among ASCII characters, the letters
/// A-Z; beyond ASCII, named by `unicode_uppercase`.
pub open spec fn uppercase(c: char) -> bool {
    if is_ascii(c) {
        'A' <= c && c <= 'Z'
    } else {
        unicode_uppercase(c)
    }
}

/// Calls `char::is_alphabetic`, which tells whether `c` has the Unicode
/// `Alphabetic` property. Of ASCII characters that property holds exactly
/// of the letters, which is stated; beyond ASCII the result is named by
/// `unicode_alphabetic`, and nothing more is claimed of it.
#[verifier::external_body]
fn is_alphabetic(c: char) -> (r: bool)
    ensures
        is_ascii(c) ==> r == (('a' <= c && c <= 'z') || ('A' <= c && c <= 'Z')),
        !is_ascii(c) ==> r == unicode_alphabetic(c),
{
    c.is_alphabetic()
}

/// Calls `char::is_whitespace`, which tells whether `c` has the Unicode
/// `White_Space` property. Of ASCII characters that property holds exactly
/// of tab, line feed, vertical tab, form feed, carriage return and space,
/// which is stated; beyond ASCII the result is named by
/// `unicode_whitespace`, and nothing more is claimed of it.
#[verifier::external_body]
fn is_whitespace(c: char) -> (r: bool)
    ensures
        is_ascii(c) ==> r == (('\u{9}' <= c && c <= '\u{D}') || c == ' '),
        !is_ascii(c) ==> r == unicode_whitespace(c),
{
    c.is_whitespace()
}

/// Calls `char::is_uppercase`, which tells whether `c` has the Unicode
/// `Uppercase` property. Of ASCII characters that property holds exactly
/// of the letters A-Z, which is stated; beyond ASCII the result is named
/// by `unicode_uppercase`, and nothing more is claimed of it.
#[verifier::external_body]
fn is_uppercase(c: char) -> (r: bool)
    ensures
        is_ascii(c) ==> r == ('A' <= c && c <= 'Z'),
        !is_ascii(c) ==> r == unicode_uppercase(c),
{
    c.is_uppercase()
}

/// `char::is_ascii_digit`: U+0030 '0' ..= U+0039 '9'.
pub open spec fn ascii_digit(c: char) -> bool {
    '0' <= c && c <= '9'
}

impl CharClass {
    /// Whether `c` belongs to the class.
    pub open spec fn holds(&self, c: char) -> bool {
        match *self {
            CharClass::AsciiDigit => ascii_digit(c),
            CharClass::Alphabetic => alphabetic(c),
            CharClass::Whitespace => whitespace(c),
            CharClass::Uppercase => uppercase(c),
            CharClass::Any => true,
            CharClass::Is(x) => c == x,
            CharClass::IsNot(x) => c != x,
        }
    }

    /// Test whether `c` belongs to the class.
    pub fn test(&self, c: char) -> (r: bool)
        ensures
            r == self.holds(c),
    {
        match *self {
            CharClass::AsciiDigit => '0' <= c && c <= '9',
            CharClass::Alphabetic => is_alphabetic(c),
            CharClass::Whitespace => is_whitespace(c),
            CharClass::Uppercase => is_uppercase(c),
            CharClass::Any => true,
            CharClass::Is(x) => c == x,
            CharClass::IsNot(x) => c != x,
        }
    }
}

} // verus!
