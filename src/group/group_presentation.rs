//! A group given by generator symbols and rewriting rules.
use vstd::prelude::*;

verus! {

/// Builder for a group presentation.
pub struct GroupPresentation {
    pub symbols: Vec<char>,
    pub rules: Vec<(String, String)>,
}

/// A group presented by generator symbols and equalities between words.
pub struct Group {
    pub symbols: Vec<char>,
    pub rules: Vec<(String, String)>,
}

impl GroupPresentation {
    /// A presentation with no symbols and no rules.
    pub fn new() -> (r: Self)
        ensures
            r.symbols@ == Seq::<char>::empty(),
            r.rules@.len() == 0,
    {
        GroupPresentation { symbols: Vec::new(), rules: Vec::new() }
    }

    /// Adds a generator symbol.
    pub fn with_symbol(self, symbol: char) -> (r: Self)
        ensures
            r.symbols@ == self.symbols@.push(symbol),
            r.rules@ == self.rules@,
    {
        let mut next = self;
        next.symbols.push(symbol);
        next
    }

    /// Adds the rule that the word `lhs` equals the word `rhs`.
    pub fn with_equality(self, lhs: String, rhs: String) -> (r: Self)
        ensures
            r.symbols@ == self.symbols@,
            r.rules@ == self.rules@.push((lhs, rhs)),
    {
        let mut next = self;
        next.rules.push((lhs, rhs));
        next
    }

    /// The presented group.
    pub fn build(self) -> (r: Group)
        ensures
            r.symbols@ == self.symbols@,
            r.rules@ == self.rules@,
    {
        Group { symbols: self.symbols, rules: self.rules }
    }
}

} // verus!
