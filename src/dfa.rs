use vstd::prelude::*;
use crate::symbols::State;
use crate::tokenize::chars_of;

verus! {

/// A transition `(from, character, to)`.
pub type Transition = (State, char, State);

/// No two transitions leave one state on one character.
pub open spec fn deterministic(t: Seq<Transition>) -> bool {
    forall|i: int, j: int|
        0 <= i < t.len() && 0 <= j < t.len() && i != j ==> (#[trigger] t[i]).0 != (#[trigger] t[j]).0 || t[i].1 != t[j].1
}

/// Every transition stays among states `0..=last`.
pub open spec fn transitions_within(t: Seq<Transition>, last: State) -> bool {
    forall|i: int| 0 <= i < t.len() ==> (#[trigger] t[i]).0 <= last && t[i].2 <= last
}

pub open spec fn has_transition_in(t: Seq<Transition>, s: State, c: char) -> bool {
    exists|i: int| 0 <= i < t.len() && t[i].0 == s && t[i].1 == c
}

/// Where the transition on `c` from `s` leads, if there is one.
pub open spec fn delta_of(t: Seq<Transition>, s: State, c: char) -> Option<State> {
    if has_transition_in(t, s, c) {
        let i = choose|i: int| 0 <= i < t.len() && t[i].0 == s && t[i].1 == c;
        Some(t[i].2)
    } else {
        None
    }
}

/// The state reached after reading `w` from state 0, if every step has a
/// transition.
pub open spec fn run_of(t: Seq<Transition>, w: Seq<char>) -> Option<State>
    decreases w.len(),
{
    if w.len() == 0 {
        Some(0)
    } else {
        match run_of(t, w.drop_last()) {
            Some(s) => delta_of(t, s, w.last()),
            None => None,
        }
    }
}

pub proof fn lemma_delta_of_unique(t: Seq<Transition>, s: State, c: char, i: int)
    requires
        deterministic(t),
        0 <= i < t.len(),
        t[i].0 == s,
        t[i].1 == c,
    ensures
        delta_of(t, s, c) == Some(t[i].2),
{
    let j = choose|j: int| 0 <= j < t.len() && t[j].0 == s && t[j].1 == c;
    assert(has_transition_in(t, s, c));
    if i != j {
        assert(t[i].0 != t[j].0 || t[i].1 != t[j].1);
    }
}

pub proof fn lemma_run_of_within(t: Seq<Transition>, last: State, w: Seq<char>)
    requires
        transitions_within(t, last),
    ensures
        run_of(t, w) matches Some(s) ==> s <= last,
    decreases w.len(),
{
    if w.len() > 0 {
        lemma_run_of_within(t, last, w.drop_last());
        if let Some(s) = run_of(t, w.drop_last()) {
            if has_transition_in(t, s, w.last()) {
                let i = choose|i: int| 0 <= i < t.len() && t[i].0 == s && t[i].1 == w.last();
                assert(t[i].2 <= last);
            }
        }
    }
}

/// The state reached after reading `w` from `s`, if every step has a
/// transition.
pub open spec fn run_from(t: Seq<Transition>, s: State, w: Seq<char>) -> Option<State>
    decreases w.len(),
{
    if w.len() == 0 {
        Some(s)
    } else {
        match run_from(t, s, w.drop_last()) {
            Some(x) => delta_of(t, x, w.last()),
            None => None,
        }
    }
}

pub proof fn lemma_run_from_zero(t: Seq<Transition>, w: Seq<char>)
    ensures
        run_of(t, w) == run_from(t, 0, w),
    decreases w.len(),
{
    if w.len() > 0 {
        lemma_run_from_zero(t, w.drop_last());
    }
}

/// Reading `w` then `u` from state 0 continues from where `w` leads.
pub proof fn lemma_run_concat(t: Seq<Transition>, w: Seq<char>, u: Seq<char>)
    ensures
        run_of(t, w + u) == match run_of(t, w) {
            Some(x) => run_from(t, x, u),
            None => None,
        },
    decreases u.len(),
{
    if u.len() == 0 {
        assert(w + u =~= w);
    } else {
        lemma_run_concat(t, w, u.drop_last());
        assert((w + u).drop_last() =~= w + u.drop_last());
        assert((w + u).last() == u.last());
    }
}

/// Reading `c` then `w` from `s` goes through the transition on `c`.
pub proof fn lemma_run_from_prepend(t: Seq<Transition>, s: State, c: char, w: Seq<char>)
    ensures
        run_from(t, s, seq![c] + w) == match delta_of(t, s, c) {
            Some(d) => run_from(t, d, w),
            None => None,
        },
    decreases w.len(),
{
    let cw = seq![c] + w;
    if w.len() == 0 {
        assert(cw.drop_last() =~= Seq::<char>::empty());
        assert(cw.last() == c);
        assert(run_from(t, s, cw.drop_last()) == Some(s));
        if let Some(d) = delta_of(t, s, c) {
            assert(w =~= Seq::<char>::empty());
            assert(run_from(t, d, w) == Some(d));
        }
    } else {
        assert(cw.drop_last() =~= seq![c] + w.drop_last());
        assert(cw.last() == w.last());
        lemma_run_from_prepend(t, s, c, w.drop_last());
    }
}

/// Appending transitions, keeping determinism, keeps every run that was
/// there.
pub proof fn lemma_run_of_extend(t1: Seq<Transition>, t2: Seq<Transition>, w: Seq<char>)
    requires
        t1.len() <= t2.len(),
        forall|i: int| 0 <= i < t1.len() ==> t2[i] == t1[i],
        deterministic(t2),
        run_of(t1, w) is Some,
    ensures
        run_of(t2, w) == run_of(t1, w),
    decreases w.len(),
{
    if w.len() > 0 {
        let v = w.drop_last();
        lemma_run_of_extend(t1, t2, v);
        let s = run_of(t1, v)->Some_0;
        let c = w.last();
        let i = choose|i: int| 0 <= i < t1.len() && t1[i].0 == s && t1[i].1 == c;
        assert(t2[i] == t1[i]);
        lemma_delta_of_unique(t2, s, c, i);
    }
}

/// The transition on `c` from `state` in a deterministic list.
pub fn lookup(transitions: &Vec<Transition>, state: State, c: char) -> (r: Option<State>)
    requires
        deterministic(transitions@),
    ensures
        r == delta_of(transitions@, state, c),
{
    let mut i: usize = 0;
    while i < transitions.len()
        invariant
            deterministic(transitions@),
            i <= transitions@.len(),
            forall|k: int| 0 <= k < i ==> !(transitions@[k].0 == state && transitions@[k].1 == c),
        decreases transitions@.len() - i,
    {
        let (from, x, to) = transitions[i];
        if from == state && x == c {
            proof { lemma_delta_of_unique(transitions@, state, c, i as int); }
            return Some(to);
        }
        i += 1;
    }
    None
}

/// A deterministic automaton: state 0 is initial, states are
/// `0..=last_state`, and a missing transition rejects. Transitions are a list
/// of `(from, character, to)` with at most one entry per `(from, character)`,
/// and acceptance a bitmap over the states: Verus gives no contract to hash
/// maps and sets keyed by tuples, and with these every lookup is proved.
pub struct DFAutomata {
    transitions: Vec<Transition>,
    acceptance_states: Vec<bool>,
    last_state: State,
}

impl DFAutomata {
    pub closed spec fn trans(&self) -> Seq<Transition> {
        self.transitions@
    }

    /// Entry `s` tells whether state `s` accepts.
    pub closed spec fn accepting_map(&self) -> Seq<bool> {
        self.acceptance_states@
    }

    pub closed spec fn last(&self) -> State {
        self.last_state
    }

    pub open spec fn well_formed(&self) -> bool {
        &&& self.last() < usize::MAX
        &&& self.accepting_map().len() == self.last() + 1
        &&& transitions_within(self.trans(), self.last())
        &&& deterministic(self.trans())
    }

    pub open spec fn is_accepting(&self, s: State) -> bool {
        s <= self.last() && self.accepting_map()[s as int]
    }

    pub open spec fn state_count(&self) -> nat {
        (self.last() + 1) as nat
    }

    pub open spec fn has_transition(&self, s: State, c: char) -> bool {
        has_transition_in(self.trans(), s, c)
    }

    /// Where the transition on `c` from `s` leads, if there is one.
    pub open spec fn delta(&self, s: State, c: char) -> Option<State> {
        delta_of(self.trans(), s, c)
    }

    /// The state reached after reading `w` from state 0, if every step has
    /// a transition.
    pub open spec fn run(&self, w: Seq<char>) -> Option<State> {
        run_of(self.trans(), w)
    }

    /// Reading `w` from state `s` ends in an accepting state.
    pub open spec fn accepts_from(&self, s: State, w: Seq<char>) -> bool {
        match run_from(self.trans(), s, w) {
            Some(x) => self.is_accepting(x),
            None => false,
        }
    }

    /// Some word leads from `s` to an accepting state.
    pub open spec fn live(&self, s: State) -> bool {
        exists|w: Seq<char>| self.accepts_from(s, w)
    }

    /// Some word is accepted from one of `p`, `q` and not from the other.
    pub open spec fn distinguishable(&self, p: State, q: State) -> bool {
        exists|w: Seq<char>| self.accepts_from(p, w) != self.accepts_from(q, w)
    }

    /// Some word leads from state 0 to `k`.
    pub open spec fn reachable(&self, k: State) -> bool {
        exists|w: Seq<char>| self.run(w) == Some(k)
    }

    pub open spec fn accepts(&self, w: Seq<char>) -> bool {
        match self.run(w) {
            Some(s) => self.is_accepting(s),
            None => false,
        }
    }

    /// Under determinism, `delta` names the one transition there is.
    pub proof fn lemma_delta_unique(&self, s: State, c: char, i: int)
        requires
            self.well_formed(),
            0 <= i < self.trans().len(),
            self.trans()[i].0 == s,
            self.trans()[i].1 == c,
        ensures
            self.delta(s, c) == Some(self.trans()[i].2),
    {
        lemma_delta_of_unique(self.trans(), s, c, i);
    }

    pub proof fn lemma_run_within(&self, w: Seq<char>)
        requires
            self.well_formed(),
        ensures
            self.run(w) matches Some(s) ==> s <= self.last(),
    {
        lemma_run_of_within(self.trans(), self.last(), w);
    }

    pub(crate) fn new(transitions: Vec<Transition>, acceptance_states: Vec<bool>, last_state: State) -> (r: DFAutomata)
        requires
            last_state < usize::MAX,
            acceptance_states@.len() == last_state + 1,
            transitions_within(transitions@, last_state),
            deterministic(transitions@),
        ensures
            r.well_formed(),
            r.trans() == transitions@,
            r.accepting_map() == acceptance_states@,
            r.last() == last_state,
    {
        DFAutomata { transitions, acceptance_states, last_state }
    }

    /// The transitions `(from, character, to)`.
    pub fn transitions(&self) -> (r: &Vec<Transition>)
        ensures
            r@ == self.trans(),
    {
        &self.transitions
    }

    /// Entry `s` tells whether state `s` accepts.
    pub fn acceptance_states(&self) -> (r: &Vec<bool>)
        ensures
            r@ == self.accepting_map(),
    {
        &self.acceptance_states
    }

    pub fn last_state(&self) -> (r: State)
        ensures
            r == self.last(),
    {
        self.last_state
    }

    /// The transition on `c` from `state`.
    fn movement(&self, state: State, c: char) -> (r: Option<State>)
        requires
            self.well_formed(),
        ensures
            r == self.delta(state, c),
    {
        lookup(&self.transitions, state, c)
    }
}

impl crate::Automata for DFAutomata {
    open spec fn well_formed(&self) -> bool {
        self.well_formed()
    }

    open spec fn accepts(&self, w: Seq<char>) -> bool {
        self.accepts(w)
    }

    /// Follows the input from state 0; rejects as soon as a transition is
    /// missing.
    fn test(&self, input: &str) -> (r: bool) {
        let chars = chars_of(input);
        let mut state: State = 0;
        let mut i: usize = 0;
        assert(chars@.subrange(0, 0) =~= Seq::<char>::empty());
        while i < chars.len()
            invariant
                self.well_formed(),
                chars@ == input@,
                i <= chars@.len(),
                self.run(chars@.subrange(0, i as int)) == Some(state),
            decreases chars@.len() - i,
        {
            let ghost w = chars@.subrange(0, i + 1);
            assert(w.drop_last() =~= chars@.subrange(0, i as int));
            match self.movement(state, chars[i]) {
                Some(next) => state = next,
                None => {
                    proof { lemma_reject_persists(self, input@, (i + 1) as nat); }
                    return false;
                },
            }
            i += 1;
        }
        assert(chars@.subrange(0, i as int) =~= input@);
        proof { self.lemma_run_within(input@); }
        self.acceptance_states[state]
    }
}

/// Once a prefix has no run, no longer prefix has one.
proof fn lemma_reject_persists(d: &DFAutomata, w: Seq<char>, n: nat)
    requires
        n <= w.len(),
        d.run(w.subrange(0, n as int)) is None,
    ensures
        d.run(w) is None,
    decreases w.len() - n,
{
    if n < w.len() {
        let p = w.subrange(0, n + 1 as int);
        assert(p.drop_last() =~= w.subrange(0, n as int));
        assert(d.run(p) == run_of(d.trans(), p));
        lemma_reject_persists(d, w, n + 1);
    } else {
        assert(w.subrange(0, n as int) =~= w);
    }
}

} // verus!
