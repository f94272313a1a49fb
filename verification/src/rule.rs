//! Production rules for L-system rewriting.
//!
//! A production rule maps a predecessor symbol to a successor string.
use vstd::prelude::*;

verus! {

/// A deterministic production rule: `predecessor -> successor`.
#[derive(Debug, Clone, PartialEq, Eq)]
pub struct ProductionRule {
    /// The symbol that this rule replaces.
    pub predecessor: char,
    /// The string that replaces the predecessor.
    pub successor: String,
}

impl ProductionRule {
    /// Create a new production rule.
    pub fn new(predecessor: char, successor: &str) -> (rule: Self)
        ensures
            rule.predecessor == predecessor,
            rule.successor@ == successor@,
    {
        proof {
            broadcast use vstd::string::group_string_axioms;
        }
        Self { predecessor, successor: successor.to_string() }
    }

    /// Check if this rule applies to the given symbol.
    pub fn matches(&self, symbol: char) -> (r: bool)
        ensures
            r == (self.predecessor == symbol),
    {
        self.predecessor == symbol
    }
}

} // verus!
