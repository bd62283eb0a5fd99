use vstd::prelude::*;

verus! {

/// A recognizer of a language of character strings.
pub trait Automata {
    /// The representation invariant.
    spec fn well_formed(&self) -> bool;

    /// Whether the automaton accepts the word `w`.
    spec fn accepts(&self, w: Seq<char>) -> bool;

    /// Whether `input` belongs to the language.
    fn test(&self, input: &str) -> (r: bool)
        requires
            self.well_formed(),
        ensures
            r == self.accepts(input@),
    ;
}

} // verus!
