use vstd::prelude::*;

verus! {

/// A structured error type for parsing failures.
///
/// Contains detailed information about where and why parsing failed.
#[derive(Debug)]
pub struct ParseError {
    pub message: String,
    pub position: usize,
    pub expected: Vec<String>,
}

/// The mathematical model of a `ParseError`.
pub struct SpecError {
    pub message: Seq<char>,
    pub position: nat,
    pub expected: Seq<Seq<char>>,
}

/// The character sequences of a vector of strings.
pub open spec fn string_views(v: Seq<String>) -> Seq<Seq<char>> {
    v.map_values(|s: String| s@)
}

impl ParseError {
    pub open spec fn view(&self) -> SpecError {
        SpecError {
            message: self.message@,
            position: self.position as nat,
            expected: string_views(self.expected@),
        }
    }

    /// Create a new ParseError with a message and position.
    pub fn new(message: String, position: usize) -> (r: Self)
        ensures
            r.view() == (SpecError {
                message: message@,
                position: position as nat,
                expected: Seq::empty(),
            }),
    {
        let r = ParseError { message, position, expected: Vec::new() };
        assert(string_views(r.expected@) =~= Seq::empty());
        r
    }

    /// Add an expected token to the error.
    pub fn add_expected(&mut self, token: String)
        ensures
            final(self).view() == (SpecError {
                expected: old(self).view().expected.push(token@),
                ..old(self).view()
            }),
    {
        let ghost t = token@;
        self.expected.push(token);
        assert(string_views(self.expected@) =~= string_views(old(self).expected@).push(t));
    }
}

impl Clone for ParseError {
    fn clone(&self) -> (r: Self)
        ensures
            r.view() == self.view(),
    {
        ParseError {
            message: self.message.clone(),
            position: self.position,
            expected: copy_strings(&self.expected),
        }
    }
}

/// A copy of a vector of strings.
pub fn copy_strings(v: &Vec<String>) -> (r: Vec<String>)
    ensures
        string_views(r@) == string_views(v@),
{
    let mut r: Vec<String> = Vec::new();
    let mut i: usize = 0;
    while i < v.len()
        invariant
            i <= v@.len(),
            r@.len() == i,
            forall|j: int| 0 <= j < i ==> r@[j]@ == v@[j]@,
        decreases v@.len() - i,
    {
        r.push(v[i].clone());
        i = i + 1;
    }
    assert(string_views(r@) =~= string_views(v@));
    r
}

} // verus!
