use vstd::prelude::*;

verus! {

/// Whether a character counts as alphanumeric under Unicode.
/// The table is far too large to write out, but the answer depends on the
/// character alone, so it is given a name that the trusted specification
/// below ties to `char::is_alphanumeric`.
pub uninterp spec fn alphanumeric(c: char) -> bool;

/// Whether a character counts as whitespace under Unicode; named for the
/// same reason as `alphanumeric`, and tied to `char::is_whitespace`.
pub uninterp spec fn whitespace(c: char) -> bool;

/// Relies on char::is_alphanumeric: the result depends on the character alone.
pub assume_specification[ char::is_alphanumeric ](c: char) -> (r: bool)
    ensures
        r == alphanumeric(c),
;

/// Relies on char::is_whitespace: the result depends on the character alone.
pub assume_specification[ char::is_whitespace ](c: char) -> (r: bool)
    ensures
        r == whitespace(c),
;

/// A character classification. The boundary scans are parameterized by one
/// of these rather than by an arbitrary predicate, so that their contracts
/// can name exactly which characters match.
#[derive(PartialEq, Eq, Structural, Debug, Clone, Copy)]
pub enum CharClass {
    /// Alphanumeric characters: the characters a keyword is made of.
    Keyword,
    /// Characters that are neither alphanumeric nor whitespace.
    Symbol,
    /// Whitespace characters.
    Blank,
    /// Exactly the one given character.
    Exactly(char),
}

impl CharClass {
    /// Which characters the classification matches.
    pub open spec fn matches(self, c: char) -> bool {
        match self {
            CharClass::Keyword => alphanumeric(c),
            CharClass::Symbol => !alphanumeric(c) && !whitespace(c),
            CharClass::Blank => whitespace(c),
            CharClass::Exactly(x) => c == x,
        }
    }

    /// Decides whether `c` matches the classification.
    pub fn applies(&self, c: char) -> (r: bool)
        ensures
            r == self.matches(c),
    {
        match self {
            CharClass::Keyword => c.is_alphanumeric(),
            CharClass::Symbol => !c.is_alphanumeric() && !c.is_whitespace(),
            CharClass::Blank => c.is_whitespace(),
            CharClass::Exactly(x) => c == *x,
        }
    }
}

} // verus!
