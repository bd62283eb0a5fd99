use vstd::prelude::*;
use crate::language::in_language;
use crate::dfa::DFAutomata;
use crate::nfa::{eps, is_determinization, new_states, thompson, NFAutomata};
use crate::nfa_language::{lemma_nfa_accepts_language, lemma_nfa_only_language};
use crate::optimize::is_minimization;
use crate::tree::LexTree;

verus! {

/// The two routes from a Thompson NFA to a minimal DFA agree with the NFA:
/// determinizing it and then minimizing the result accepts exactly the
/// words the NFA accepts.
pub proof fn lemma_round_trip_through_nfa(nfa: NFAutomata, d: DFAutomata, m: DFAutomata)
    requires
        is_determinization(nfa, d),
        is_minimization(d, m),
    ensures
        forall|w: Seq<char>| #[trigger] m.accepts(w) == nfa.accepts(w),
        forall|w: Seq<char>| #[trigger] m.accepts(w) == d.accepts(w),
{
}

/// Building the DFA of a tree directly and then minimizing it accepts
/// exactly the words the tree matches, as the unminimized DFA does.
pub proof fn lemma_round_trip_direct(t: LexTree, d: DFAutomata, m: DFAutomata)
    requires
        d.well_formed(),
        forall|w: Seq<char>| #[trigger] d.accepts(w) == in_language(t, w),
        is_minimization(d, m),
    ensures
        forall|w: Seq<char>| #[trigger] m.accepts(w) == in_language(t, w),
        m.state_count() <= d.state_count(),
{
}

/// The three constructions of a tree agree: the NFA, its subset DFA and
/// the direct DFA each accept exactly the words the tree matches.
pub proof fn lemma_constructions_agree(t: LexTree, nfa: NFAutomata, subset: DFAutomata, direct: DFAutomata, w: Seq<char>)
    requires
        nfa.edges() == thompson(t, 0, seq![eps(0, 0)], 0).0,
        nfa.accepting() == thompson(t, 0, seq![eps(0, 0)], 0).2,
        new_states(t) < usize::MAX,
        is_determinization(nfa, subset),
        forall|v: Seq<char>| #[trigger] direct.accepts(v) == in_language(t, v),
    ensures
        nfa.accepts(w) == in_language(t, w),
        subset.accepts(w) == in_language(t, w),
        direct.accepts(w) == in_language(t, w),
{
    if in_language(t, w) {
        lemma_nfa_accepts_language(t, nfa, w);
    }
    if nfa.accepts(w) {
        lemma_nfa_only_language(t, nfa, w);
    }
}

/// The NFA route ends where the direct one does: determinizing the NFA of a
/// tree and minimizing accepts exactly the words the tree matches.
pub proof fn lemma_round_trip_nfa_language(t: LexTree, nfa: NFAutomata, d: DFAutomata, m: DFAutomata, w: Seq<char>)
    requires
        nfa.edges() == thompson(t, 0, seq![eps(0, 0)], 0).0,
        nfa.accepting() == thompson(t, 0, seq![eps(0, 0)], 0).2,
        new_states(t) < usize::MAX,
        is_determinization(nfa, d),
        is_minimization(d, m),
    ensures
        m.accepts(w) == in_language(t, w),
{
    if in_language(t, w) {
        lemma_nfa_accepts_language(t, nfa, w);
    }
    if nfa.accepts(w) {
        lemma_nfa_only_language(t, nfa, w);
    }
}

} // verus!
