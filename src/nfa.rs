use vstd::prelude::*;
use crate::bitset::{
    count_true, empty_bitmap, lemma_count_bounded, lemma_count_set, lemma_distinct_bitmaps_bounded,
    index_of_bitmap, lemma_set_of_injective, none_set, pow2, set_of,
};
use crate::dfa::{deterministic, transitions_within, DFAutomata, Transition};
use crate::symbols::{BinaryOperator, State, Symbol, UnaryOperator};
use crate::err::{Failure, LexError};
use crate::tokenize::chars_of;
use crate::language::in_language;
use crate::nfa_language::{lemma_nfa_accepts_language, lemma_nfa_only_language};
use crate::tree::{lemma_parse_spec_size, parse_spec, tree_size, LexTree};

verus! {

/// An edge `(from, symbol, to)`.
pub type Edge = (State, Symbol, State);

/// How many states the construction adds for a tree.
pub open spec fn new_states(t: LexTree) -> nat
    decreases t,
{
    match t {
        LexTree::Leaf { .. } => 1,
        LexTree::Binary { value: BinaryOperator::Concat, left_child, right_child } =>
            new_states(*left_child) + new_states(*right_child),
        LexTree::Binary { value: BinaryOperator::Or, left_child, right_child } =>
            new_states(*left_child) + new_states(*right_child) + 3,
        LexTree::Unary { value: UnaryOperator::Kleene, child } => new_states(*child) + 2,
        LexTree::Unary { value: UnaryOperator::Many, child } => new_states(*child) + 2,
        LexTree::Unary { value: UnaryOperator::Maybe, child } => new_states(*child),
    }
}

/// A fresh state gets an epsilon loop to itself.
pub open spec fn with_state(edges: Seq<Edge>, s: State) -> Seq<Edge> {
    edges.push((s, Symbol::Epsilon, s))
}

pub open spec fn eps(from: State, to: State) -> Edge {
    (from, Symbol::Epsilon, to)
}

/// Thompson's construction of `t` entered at `start`, given the edges so far
/// and the highest state so far: the new edges, the new highest state, and
/// the state where `t` exits.
pub open spec fn thompson(t: LexTree, start: State, edges: Seq<Edge>, last: State) -> (Seq<Edge>, State, State)
    decreases t,
{
    match t {
        LexTree::Leaf { value } => {
            let s = (last + 1) as State;
            (with_state(edges, s).push((start, value, s)), s, s)
        },
        LexTree::Binary { value: BinaryOperator::Concat, left_child, right_child } => {
            let (e1, l1, x1) = thompson(*left_child, start, edges, last);
            thompson(*right_child, x1, e1, l1)
        },
        LexTree::Binary { value: BinaryOperator::Or, left_child, right_child } => {
            let top = (last + 1) as State;
            let (e1, l1, x1) = thompson(*left_child, top, with_state(edges, top), top);
            let bottom = (l1 + 1) as State;
            let (e2, l2, x2) = thompson(*right_child, bottom, with_state(e1, bottom), bottom);
            let end = (l2 + 1) as State;
            (
                with_state(e2.push(eps(start, top)).push(eps(start, bottom)), end).push(eps(x1, end)).push(
                    eps(x2, end),
                ),
                end,
                end,
            )
        },
        LexTree::Unary { value: UnaryOperator::Kleene, child } => {
            let next_start = (last + 1) as State;
            let (e1, l1, x1) = thompson(*child, next_start, with_state(edges, next_start), next_start);
            let end = (l1 + 1) as State;
            (
                with_state(e1, end).push(eps(start, end)).push(eps(start, next_start)).push(
                    eps(x1, next_start),
                ).push(eps(x1, end)),
                end,
                end,
            )
        },
        LexTree::Unary { value: UnaryOperator::Maybe, child } => {
            let (e1, l1, x1) = thompson(*child, start, edges, last);
            (e1.push(eps(start, x1)), l1, x1)
        },
        // one or more: the repeated part gets fresh entry and exit states, so
        // its repeat edge cannot be taken from a neighbouring fragment that
        // shares the state it enters at or leaves from (with a bare edge from
        // exit back to entry, `a+b+` would accept `abab`)
        LexTree::Unary { value: UnaryOperator::Many, child } => {
            let next_start = (last + 1) as State;
            let (e1, l1, x1) = thompson(*child, next_start, with_state(edges, next_start), next_start);
            let end = (l1 + 1) as State;
            (with_state(e1, end).push(eps(start, next_start)).push(eps(x1, next_start)).push(eps(x1, end)), end, end)
        },
    }
}

/// The construction adds at most three states per node.
pub proof fn lemma_new_states_bounded(t: LexTree)
    ensures
        new_states(t) <= 3 * tree_size(t),
    decreases t,
{
    match t {
        LexTree::Leaf { .. } => {},
        LexTree::Binary { left_child, right_child, .. } => {
            lemma_new_states_bounded(*left_child);
            lemma_new_states_bounded(*right_child);
        },
        LexTree::Unary { child, .. } => {
            lemma_new_states_bounded(*child);
        },
    }
}

/// Every edge stays among states `0..=last`.
pub open spec fn edges_within(edges: Seq<Edge>, last: State) -> bool {
    forall|i: int| 0 <= i < edges.len() ==> (#[trigger] edges[i]).0 <= last && edges[i].2 <= last
}

/// The construction adds exactly `new_states(t)` states, keeps every edge
/// among them and exits at its last state.
pub proof fn lemma_thompson_bounds(t: LexTree, start: State, edges: Seq<Edge>, last: State)
    requires
        start <= last,
        last + new_states(t) <= usize::MAX,
        edges_within(edges, last),
    ensures
        thompson(t, start, edges, last).1 == last + new_states(t),
        thompson(t, start, edges, last).2 == thompson(t, start, edges, last).1,
        thompson(t, start, edges, last).2 > last,
        edges_within(thompson(t, start, edges, last).0, thompson(t, start, edges, last).1),
    decreases t,
{
    match t {
        LexTree::Leaf { value } => {},
        LexTree::Binary { value: BinaryOperator::Concat, left_child, right_child } => {
            lemma_thompson_bounds(*left_child, start, edges, last);
            let (e1, l1, x1) = thompson(*left_child, start, edges, last);
            lemma_thompson_bounds(*right_child, x1, e1, l1);
        },
        LexTree::Binary { value: BinaryOperator::Or, left_child, right_child } => {
            let top = (last + 1) as State;
            lemma_thompson_bounds(*left_child, top, with_state(edges, top), top);
            let (e1, l1, x1) = thompson(*left_child, top, with_state(edges, top), top);
            let bottom = (l1 + 1) as State;
            assert(edges_within(with_state(e1, bottom), bottom));
            lemma_thompson_bounds(*right_child, bottom, with_state(e1, bottom), bottom);
            let (e2, l2, x2) = thompson(*right_child, bottom, with_state(e1, bottom), bottom);
            let end = (l2 + 1) as State;
            let e = with_state(e2.push(eps(start, top)).push(eps(start, bottom)), end).push(eps(x1, end)).push(eps(x2, end));
            assert(edges_within(e, end));
        },
        LexTree::Unary { value: UnaryOperator::Kleene, child } => {
            let next_start = (last + 1) as State;
            lemma_thompson_bounds(*child, next_start, with_state(edges, next_start), next_start);
            let (e1, l1, x1) = thompson(*child, next_start, with_state(edges, next_start), next_start);
            let end = (l1 + 1) as State;
            let e = with_state(e1, end).push(eps(start, end)).push(eps(start, next_start)).push(eps(x1, next_start)).push(eps(x1, end));
            assert(edges_within(e, end));
        },
        LexTree::Unary { value: UnaryOperator::Maybe, child } => {
            lemma_thompson_bounds(*child, start, edges, last);
            let (e1, l1, x1) = thompson(*child, start, edges, last);
            assert(edges_within(e1.push(eps(start, x1)), l1));
        },
        LexTree::Unary { value: UnaryOperator::Many, child } => {
            let next_start = (last + 1) as State;
            lemma_thompson_bounds(*child, next_start, with_state(edges, next_start), next_start);
            let (e1, l1, x1) = thompson(*child, next_start, with_state(edges, next_start), next_start);
            let end = (l1 + 1) as State;
            assert(edges_within(with_state(e1, end).push(eps(start, next_start)).push(eps(x1, next_start)).push(eps(x1, end)), end));
        },
    }
}

/// Thompson's construction in progress: the highest state so far and the
/// edges so far.
pub struct NFABuilder {
    pub last_state: State,
    pub transitions: Vec<Edge>,
}

impl NFABuilder {
    /// Runs the construction of `node` from the initial state 0.
    pub fn build(node: &LexTree) -> (r: NFABuilder)
        requires
            new_states(*node) < usize::MAX,
        ensures
            (r.transitions@, r.last_state, r.last_state) == thompson(*node, 0, seq![eps(0, 0)], 0),
            r.last_state == new_states(*node),
    {
        let mut builder = NFABuilder { transitions: Vec::new(), last_state: 0 };
        let root_state = builder.create_root();
        assert(builder.transitions@ =~= seq![eps(0, 0)]);
        proof { lemma_thompson_bounds(*node, 0, builder.transitions@, 0); }
        builder.build_automata(node, root_state);
        builder
    }

    fn connect(&mut self, from: State, to: State, symbol: Symbol)
        ensures
            final(self).transitions@ == old(self).transitions@.push((from, symbol, to)),
            final(self).last_state == old(self).last_state,
    {
        self.transitions.push((from, symbol, to));
    }

    fn create_state(&mut self) -> (r: State)
        requires
            old(self).last_state < usize::MAX,
        ensures
            r == old(self).last_state + 1,
            final(self).last_state == r,
            final(self).transitions@ == with_state(old(self).transitions@, r),
    {
        self.last_state += 1;
        self.connect(self.last_state, self.last_state, Symbol::Epsilon);
        self.last_state
    }

    fn create_root(&mut self) -> (r: State)
        ensures
            r == old(self).last_state,
            final(self).last_state == r,
            final(self).transitions@ == with_state(old(self).transitions@, r),
    {
        self.connect(self.last_state, self.last_state, Symbol::Epsilon);
        self.last_state
    }

    fn build_automata(&mut self, node: &LexTree, starting_state: State) -> (r: State)
        requires
            old(self).last_state + new_states(*node) <= usize::MAX,
        ensures
            (final(self).transitions@, final(self).last_state, r) == thompson(
                *node,
                starting_state,
                old(self).transitions@,
                old(self).last_state,
            ),
            final(self).last_state == old(self).last_state + new_states(*node),
        decreases node,
    {
        match node {
            LexTree::Leaf { value } => {
                let next_state = self.create_state();
                self.connect(starting_state, next_state, *value);
                next_state
            },
            LexTree::Binary { value: operator, left_child: left_node, right_child: right_node } => {
                match operator {
                    BinaryOperator::Concat => {
                        let connection_state = self.build_automata(left_node, starting_state);
                        self.build_automata(right_node, connection_state)
                    },
                    BinaryOperator::Or => {
                        let top_start = self.create_state();
                        let top_end = self.build_automata(left_node, top_start);
                        let bottom_start = self.create_state();
                        let bottom_end = self.build_automata(right_node, bottom_start);
                        self.connect(starting_state, top_start, Symbol::Epsilon);
                        self.connect(starting_state, bottom_start, Symbol::Epsilon);
                        let end_state = self.create_state();
                        self.connect(top_end, end_state, Symbol::Epsilon);
                        self.connect(bottom_end, end_state, Symbol::Epsilon);
                        end_state
                    },
                }
            },
            LexTree::Unary { value: operator, child } => {
                match operator {
                    UnaryOperator::Kleene => {
                        let next_start = self.create_state();
                        let next_end = self.build_automata(child, next_start);
                        let end = self.create_state();
                        self.connect(starting_state, end, Symbol::Epsilon);
                        self.connect(starting_state, next_start, Symbol::Epsilon);
                        self.connect(next_end, next_start, Symbol::Epsilon);
                        self.connect(next_end, end, Symbol::Epsilon);
                        end
                    },
                    UnaryOperator::Maybe => {
                        let end = self.build_automata(child, starting_state);
                        self.connect(starting_state, end, Symbol::Epsilon);
                        end
                    },
                    UnaryOperator::Many => {
                        let next_start = self.create_state();
                        let next_end = self.build_automata(child, next_start);
                        let end = self.create_state();
                        self.connect(starting_state, next_start, Symbol::Epsilon);
                        self.connect(next_end, next_start, Symbol::Epsilon);
                        self.connect(next_end, end, Symbol::Epsilon);
                        end
                    },
                }
            },
        }
    }
}

/// What the subset construction guarantees: a well-formed DFA accepting
/// exactly the words the NFA accepts.
pub open spec fn is_determinization(nfa: NFAutomata, dfa: DFAutomata) -> bool {
    &&& dfa.well_formed()
    &&& forall|w: Seq<char>| #[trigger] dfa.accepts(w) == nfa.accepts(w)
}

/// A non-deterministic automaton with epsilon edges and one accepting
/// state; state 0 is initial and states are `0..=last_state`. The edges are
/// kept as a list of `(from, symbol, to)` rather than a map keyed by
/// `(state, symbol)`: Verus gives no contract to a hash map keyed by such a
/// tuple, and a list lets every lookup be proved.
pub struct NFAutomata {
    transitions: Vec<Edge>,
    acceptance_state: State,
    last_state: State,
}

impl NFAutomata {
    pub closed spec fn edges(&self) -> Seq<Edge> {
        self.transitions@
    }

    pub closed spec fn accepting(&self) -> State {
        self.acceptance_state
    }

    pub closed spec fn last(&self) -> State {
        self.last_state
    }

    pub open spec fn well_formed(&self) -> bool {
        &&& self.accepting() <= self.last()
        &&& self.last() < usize::MAX
        &&& edges_within(self.edges(), self.last())
    }

    pub open spec fn has_edge(&self, p: State, sym: Symbol, q: State) -> bool {
        exists|i: int| 0 <= i < self.edges().len() && self.edges()[i] == (p, sym, q)
    }

    /// The states one `sym` edge away from `s`.
    pub open spec fn post(&self, s: Set<State>, sym: Symbol) -> Set<State> {
        Set::new(|q: State| exists|p: State| s.contains(p) && #[trigger] self.has_edge(p, sym, q))
    }

    /// No epsilon edge leaves `s`.
    pub open spec fn eps_closed(&self, s: Set<State>) -> bool {
        forall|p: State, q: State| s.contains(p) && #[trigger] self.has_edge(p, Symbol::Epsilon, q) ==> s.contains(q)
    }

    /// The epsilon closure of `s`: the least set holding `s` that no epsilon
    /// edge leaves.
    pub open spec fn closure(&self, s: Set<State>) -> Set<State> {
        Set::new(|q: State| forall|t: Set<State>| #[trigger] self.eps_closed(t) && s.subset_of(t) ==> t.contains(q))
    }

    /// The states the automaton can be in after reading `w`.
    pub open spec fn run(&self, w: Seq<char>) -> Set<State>
        decreases w.len(),
    {
        if w.len() == 0 {
            self.closure(set![0usize])
        } else {
            self.step(self.run(w.drop_last()), w.last())
        }
    }

    /// The states reached from `s` on `c`, epsilon edges included.
    pub open spec fn step(&self, s: Set<State>, c: char) -> Set<State> {
        self.closure(self.post(s, Symbol::Character(c)))
    }

    /// Some edge carries character `c`.
    pub open spec fn labels(&self, c: char) -> bool {
        exists|i: int| 0 <= i < self.edges().len() && self.edges()[i].1 == Symbol::Character(c)
    }

    /// `dfa` follows this automaton: its state `k` stands for the set of
    /// states marked in `known[k]`.
    pub open spec fn simulated_by(&self, dfa: DFAutomata, known: Seq<Seq<bool>>) -> bool {
        &&& dfa.well_formed()
        &&& known.len() == dfa.last() + 1
        &&& set_of(known[0]) == self.closure(set![0usize])
        &&& forall|k: State| k <= dfa.last() ==> dfa.accepting_map()[k as int] == #[trigger] set_of(known[k as int]).contains(self.accepting())
        &&& forall|k: State, c: char| k <= dfa.last() ==> match #[trigger] dfa.delta(k, c) {
            Some(j) => j <= dfa.last() && set_of(known[j as int]) == self.step(set_of(known[k as int]), c),
            None => self.step(set_of(known[k as int]), c) == Set::<State>::empty(),
        }
    }

    proof fn lemma_closure_empty(&self)
        ensures
            self.closure(Set::<State>::empty()) == Set::<State>::empty(),
    {
        assert(self.eps_closed(Set::<State>::empty()));
        assert(self.closure(Set::<State>::empty()) =~= Set::<State>::empty());
    }

    proof fn lemma_simulation(&self, dfa: DFAutomata, known: Seq<Seq<bool>>, w: Seq<char>)
        requires
            self.simulated_by(dfa, known),
        ensures
            match dfa.run(w) {
                Some(k) => k <= dfa.last() && set_of(known[k as int]) == self.run(w),
                None => self.run(w) == Set::<State>::empty(),
            },
        decreases w.len(),
    {
        if w.len() > 0 {
            self.lemma_simulation(dfa, known, w.drop_last());
            match dfa.run(w.drop_last()) {
                Some(k) => {
                    assert(match dfa.delta(k, w.last()) {
                        Some(j) => j <= dfa.last() && set_of(known[j as int]) == self.step(set_of(known[k as int]), w.last()),
                        None => self.step(set_of(known[k as int]), w.last()) == Set::<State>::empty(),
                    });
                },
                None => {
                    assert(self.post(Set::<State>::empty(), Symbol::Character(w.last())) =~= Set::<State>::empty());
                    self.lemma_closure_empty();
                },
            }
        }
    }

    pub open spec fn accepts(&self, w: Seq<char>) -> bool {
        self.run(w).contains(self.accepting())
    }

    /// The edges `(from, symbol, to)`.
    pub fn transitions(&self) -> (r: &Vec<Edge>)
        ensures
            r@ == self.edges(),
    {
        &self.transitions
    }

    pub fn acceptance_state(&self) -> (r: State)
        ensures
            r == self.accepting(),
    {
        self.acceptance_state
    }

    pub fn last_state(&self) -> (r: State)
        ensures
            r == self.last(),
    {
        self.last_state
    }

    proof fn lemma_closure_step(&self, s: Set<State>, v: Set<State>)
        requires
            v.subset_of(self.closure(s)),
        ensures
            self.post(v, Symbol::Epsilon).subset_of(self.closure(s)),
    {
        assert forall|q: State| self.post(v, Symbol::Epsilon).contains(q) implies self.closure(s).contains(q) by {
            let p = choose|p: State| v.contains(p) && #[trigger] self.has_edge(p, Symbol::Epsilon, q);
            assert forall|t: Set<State>| #[trigger] self.eps_closed(t) && s.subset_of(t) implies t.contains(q) by {
                assert(self.closure(s).contains(p));
                assert(t.contains(p));
            }
        }
    }

    /// The states one `symbol` edge away from the marked ones.
    fn movement(&self, states: &Vec<bool>, symbol: Symbol) -> (r: Vec<bool>)
        requires
            self.well_formed(),
            states@.len() == self.last() + 1,
        ensures
            r@.len() == self.last() + 1,
            set_of(r@) == self.post(set_of(states@), symbol),
    {
        let n = self.last_state + 1;
        let mut result = empty_bitmap(n);
        let mut i: usize = 0;
        while i < self.transitions.len()
            invariant
                self.well_formed(),
                n == self.last() + 1,
                states@.len() == n,
                result@.len() == n,
                i <= self.edges().len(),
                forall|q: int| 0 <= q < n ==> (result@[q] <==> exists|k: int|
                    0 <= k < i && states@[self.edges()[k].0 as int] && self.edges()[k].1 == symbol
                        && #[trigger] (self.edges()[k].2 as int) == q),
            decreases self.edges().len() - i,
        {
            let (from, sym, to) = self.transitions[i];
            assert(self.edges()[i as int].0 <= self.last() && self.edges()[i as int].2 <= self.last());
            if sym == symbol && states[from] {
                result.set(to, true);
            }
            i += 1;
        }
        assert forall|q: State| set_of(result@).contains(q) <==> self.post(set_of(states@), symbol).contains(q) by {
            if set_of(result@).contains(q) {
                let k = choose|k: int| 0 <= k < i && states@[self.edges()[k].0 as int] && self.edges()[k].1 == symbol
                    && #[trigger] (self.edges()[k].2 as int) == q as int;
                let p = self.edges()[k].0;
                assert(self.has_edge(p, symbol, q));
                assert(set_of(states@).contains(p));
            }
            if self.post(set_of(states@), symbol).contains(q) {
                let p = choose|p: State| set_of(states@).contains(p) && #[trigger] self.has_edge(p, symbol, q);
                let k = choose|k: int| 0 <= k < self.edges().len() && self.edges()[k] == (p, symbol, q);
                assert(self.edges()[k].2 <= self.last());
                assert((self.edges()[k].2 as int) == q as int);
            }
        }
        assert(set_of(result@) =~= self.post(set_of(states@), symbol));
        result
    }

    /// Extends the marked states to their epsilon closure.
    fn epsilon_closure(&self, states: Vec<bool>) -> (r: Vec<bool>)
        requires
            self.well_formed(),
            states@.len() == self.last() + 1,
        ensures
            r@.len() == self.last() + 1,
            set_of(r@) == self.closure(set_of(states@)),
    {
        let n = self.last_state + 1;
        let ghost seeds = set_of(states@);
        let mut visited = states;
        assert(seeds.subset_of(self.closure(seeds)));
        loop
            invariant
                self.well_formed(),
                n == self.last() + 1,
                visited@.len() == n,
                seeds.subset_of(set_of(visited@)),
                set_of(visited@).subset_of(self.closure(seeds)),
            ensures
                visited@.len() == n,
                seeds.subset_of(set_of(visited@)),
                set_of(visited@).subset_of(self.closure(seeds)),
                self.eps_closed(set_of(visited@)),
            decreases n - count_true(visited@),
        {
            proof {
                lemma_count_bounded(visited@);
                self.lemma_closure_step(seeds, set_of(visited@));
            }
            let next = self.movement(&visited, Symbol::Epsilon);
            let ghost before = visited@;
            let mut changed = false;
            let mut q: usize = 0;
            while q < n
                invariant
                    n == self.last() + 1,
                    q <= n,
                    next@.len() == n,
                    visited@.len() == n,
                    set_of(next@).subset_of(self.closure(seeds)),
                    seeds.subset_of(set_of(visited@)),
                    set_of(visited@).subset_of(self.closure(seeds)),
                    forall|k: int| 0 <= k < n && before[k] ==> visited@[k],
                    forall|k: int| 0 <= k < q && next@[k] ==> visited@[k],
                    !changed ==> visited@ == before,
                    changed ==> count_true(visited@) > count_true(before),
                decreases n - q,
            {
                if next[q] && !visited[q] {
                    proof {
                        lemma_count_set(visited@, q as int);
                        assert(set_of(next@).contains(q));
                        assert(set_of(visited@.update(q as int, true)) =~= set_of(visited@).insert(q));
                    }
                    visited.set(q, true);
                    changed = true;
                }
                q += 1;
            }
            if !changed {
                assert forall|a: State, b: State| set_of(visited@).contains(a) && #[trigger] self.has_edge(a, Symbol::Epsilon, b)
                    implies set_of(visited@).contains(b) by {
                    assert(self.post(set_of(visited@), Symbol::Epsilon).contains(b));
                    assert(set_of(next@).contains(b));
                }
                break;
            }
            proof { lemma_count_bounded(visited@); }
        }
        assert(self.closure(seeds).subset_of(set_of(visited@)));
        assert(set_of(visited@) =~= self.closure(seeds));
        visited
    }

    /// The closure of the initial state.
    fn initial_states(&self) -> (r: Vec<bool>)
        requires
            self.well_formed(),
        ensures
            r@.len() == self.last() + 1,
            set_of(r@) == self.closure(set![0usize]),
    {
        let mut start = empty_bitmap(self.last_state + 1);
        start.set(0, true);
        assert(set_of(start@) =~= set![0usize]);
        self.epsilon_closure(start)
    }

    /// The characters on the edges, each once.
    fn alphabet(&self) -> (r: Vec<char>)
        ensures
            r@.no_duplicates(),
            forall|c: char| r@.contains(c) <==> self.labels(c),
    {
        let mut r: Vec<char> = Vec::new();
        let mut i: usize = 0;
        while i < self.transitions.len()
            invariant
                i <= self.edges().len(),
                r@.no_duplicates(),
                forall|c: char| r@.contains(c) <==> exists|k: int| 0 <= k < i && self.edges()[k].1 == Symbol::Character(c),
            decreases self.edges().len() - i,
        {
            let ghost r0 = r@;
            let ghost mut added: Option<char> = None;
            if let Symbol::Character(c) = self.transitions[i].1 {
                proof { added = Some(c); }
                let mut found = false;
                let mut j: usize = 0;
                while j < r.len()
                    invariant
                        r@ == r0,
                        r@.no_duplicates(),
                        j <= r@.len(),
                        found == exists|k: int| 0 <= k < j && r@[k] == c,
                    decreases r@.len() - j,
                {
                    if r[j] == c {
                        found = true;
                    }
                    j += 1;
                }
                if !found {
                    r.push(c);
                    proof {
                        assert forall|x: char| r@.contains(x) <==> (r0.contains(x) || x == c) by {
                            if r@.contains(x) {
                                let k = choose|k: int| 0 <= k < r@.len() && r@[k] == x;
                                if k < r0.len() {
                                    assert(r0[k] == x);
                                }
                            }
                            if r0.contains(x) {
                                let k = choose|k: int| 0 <= k < r0.len() && r0[k] == x;
                                assert(r@[k] == x);
                            }
                            if x == c {
                                assert(r@[r0.len() as int] == c);
                            }
                        }
                    }
                } else {
                    proof {
                        let k = choose|k: int| 0 <= k < j && r@[k] == c;
                        assert(r0[k] == c);
                        assert(r0.contains(c));
                        assert forall|x: char| r@.contains(x) <==> (r0.contains(x) || x == c) by {
                            if x == c {
                                assert(r@.contains(c));
                            }
                        }
                    }
                }
                assert(self.edges()[i as int].1 == Symbol::Character(c));
            } else {
                assert(r@ == r0);
            }
            assert(forall|x: char| r@.contains(x) <==> (r0.contains(x) || added == Some(x)));
            assert(forall|x: char| added == Some(x) <==> self.edges()[i as int].1 == Symbol::Character(x));
            proof {
                assert forall|x: char| r@.contains(x) <==> exists|k: int| 0 <= k < i + 1 && self.edges()[k].1 == Symbol::Character(x) by {
                    if r@.contains(x) {
                        if r0.contains(x) {
                            let k = choose|k: int| 0 <= k < i && self.edges()[k].1 == Symbol::Character(x);
                            assert(0 <= k < i + 1 && self.edges()[k].1 == Symbol::Character(x));
                        } else {
                            assert(self.edges()[i as int].1 == Symbol::Character(x));
                        }
                    }
                    if exists|k: int| 0 <= k < i + 1 && self.edges()[k].1 == Symbol::Character(x) {
                        let k = choose|k: int| 0 <= k < i + 1 && self.edges()[k].1 == Symbol::Character(x);
                        if k < i {
                            assert(r0.contains(x));
                        }
                    }
                }
            }
            i += 1;
        }
        r
    }

    /// The equivalent deterministic automaton, by the subset construction:
    /// each of its states is a set of this automaton's states, the first
    /// one the closure of state 0.
    #[verifier::spinoff_prover]
    pub fn into_determinate(self) -> (r: DFAutomata)
        requires
            self.well_formed(),
        ensures
            is_determinization(self, r),
            exists|known: Seq<Seq<bool>>| self.simulated_by(r, known) && known.no_duplicates(),
            forall|i: int| 0 <= i < r.trans().len() ==> self.labels(#[trigger] r.trans()[i].1),
            forall|k: State| k <= r.last() ==> #[trigger] r.reachable(k),
    {
        let n = self.last_state + 1;
        let alphabet = self.alphabet();
        let mut known: Vec<Vec<bool>> = Vec::new();
        known.push(self.initial_states());
        let mut transitions: Vec<Transition> = Vec::new();
        let mut accepting: Vec<bool> = Vec::new();
        let mut current: usize = 0;
        let ghost mut words: Seq<Seq<char>> = seq![Seq::<char>::empty()];
        proof {
            assert(self.closure(set![0usize]).contains(0)) by {
                assert forall|t: Set<State>| #[trigger] self.eps_closed(t) && set![0usize].subset_of(t) implies t.contains(0) by {}
            }
            assert(known@.map_values(|v: Vec<bool>| v@) =~= seq![known@[0]@]);
            lemma_distinct_bitmaps_bounded(known@.map_values(|v: Vec<bool>| v@), n as nat);
        }
        while current < known.len()
            invariant
                self.well_formed(),
                n == self.last() + 1,
                forall|c: char| alphabet@.contains(c) <==> self.labels(c),
                alphabet@.no_duplicates(),
                1 <= known@.len() <= pow2(n as nat),
                current <= known@.len(),
                forall|k: int| 0 <= k < known@.len() ==> (#[trigger] known@[k])@.len() == n,
                known@.map_values(|v: Vec<bool>| v@).no_duplicates(),
                set_of(known@[0]@) == self.closure(set![0usize]),
                words.len() == known@.len(),
                forall|k: int| 0 <= k < known@.len() ==> self.run(#[trigger] words[k]) == set_of(known@[k]@),
                forall|k: int| 0 <= k < known@.len() ==> set_of(#[trigger] known@[k]@) != Set::<State>::empty(),
                accepting@.len() == current,
                forall|k: int| 0 <= k < current ==> #[trigger] accepting@[k] == known@[k]@[self.accepting() as int],
                deterministic(transitions@),
                forall|i: int| 0 <= i < transitions@.len() ==> alphabet@.contains(#[trigger] transitions@[i].1),
                forall|i: int| 0 <= i < transitions@.len() ==> {
                    let t = #[trigger] transitions@[i];
                    &&& t.0 < current
                    &&& t.2 < known@.len()
                    &&& set_of(known@[t.2 as int]@) == self.step(set_of(known@[t.0 as int]@), t.1)
                },
                forall|k: State, c: char| k < current && #[trigger] self.step(set_of(known@[k as int]@), c) != Set::<State>::empty()
                    ==> exists|i: int| 0 <= i < transitions@.len() && transitions@[i].0 == k && transitions@[i].1 == c,
            decreases pow2(n as nat) - current,
        {
            let current_set = known[current].clone();
            accepting.push(current_set[self.acceptance_state]);
            let ghost known_start = known@;
            let mut a: usize = 0;
            while a < alphabet.len()
                invariant
                    self.well_formed(),
                    n == self.last() + 1,
                    forall|c: char| alphabet@.contains(c) <==> self.labels(c),
                    alphabet@.no_duplicates(),
                    a <= alphabet@.len(),
                    1 <= known@.len() <= pow2(n as nat),
                    current < known@.len(),
                    current_set@ == known@[current as int]@,
                    known_start.len() <= known@.len(),
                    forall|k: int| 0 <= k < known_start.len() ==> #[trigger] known@[k] == known_start[k],
                    accepting@.len() == current + 1,
                    forall|k: int| 0 <= k <= current ==> #[trigger] accepting@[k] == known@[k]@[self.accepting() as int],
                    forall|k: int| 0 <= k < known@.len() ==> (#[trigger] known@[k])@.len() == n,
                    known@.map_values(|v: Vec<bool>| v@).no_duplicates(),
                    set_of(known@[0]@) == self.closure(set![0usize]),
                    words.len() == known@.len(),
                    forall|k: int| 0 <= k < known@.len() ==> self.run(#[trigger] words[k]) == set_of(known@[k]@),
                    forall|k: int| 0 <= k < known@.len() ==> set_of(#[trigger] known@[k]@) != Set::<State>::empty(),
                    deterministic(transitions@),
                    forall|i: int| 0 <= i < transitions@.len() ==> alphabet@.contains(#[trigger] transitions@[i].1),
                    forall|i: int| 0 <= i < transitions@.len() ==> {
                        let t = #[trigger] transitions@[i];
                        &&& t.0 <= current
                        &&& t.2 < known@.len()
                        &&& set_of(known@[t.2 as int]@) == self.step(set_of(known@[t.0 as int]@), t.1)
                        &&& t.0 == current ==> exists|b: int| 0 <= b < a && alphabet@[b] == t.1
                    },
                    forall|k: State, c: char| k < current && #[trigger] self.step(set_of(known@[k as int]@), c) != Set::<State>::empty()
                        ==> exists|i: int| 0 <= i < transitions@.len() && transitions@[i].0 == k && transitions@[i].1 == c,
                    forall|b: int| 0 <= b < a && self.step(set_of(known@[current as int]@), #[trigger] alphabet@[b]) != Set::<State>::empty()
                        ==> exists|i: int| 0 <= i < transitions@.len() && transitions@[i].0 == current && transitions@[i].1 == alphabet@[b],
                decreases alphabet@.len() - a,
            {
                let c = alphabet[a];
                let moved = self.movement(&current_set, Symbol::Character(c));
                let new_state = self.epsilon_closure(moved);
                if none_set(&new_state) {
                    a += 1;
                    continue;
                }
                let ghost before = known@;
                let ghost before_t = transitions@;
                let ghost new_set = set_of(new_state@);
                let to = index_of_bitmap(&mut known, new_state, n);
                transitions.push((current, c, to));
                proof {
                    let wc = words[current as int].push(c);
                    assert(wc.drop_last() =~= words[current as int]);
                    assert(self.run(wc) == new_set);
                    if known@.len() > before.len() {
                        words = words.push(wc);
                    }
                    assert forall|k: int| 0 <= k < known@.len() implies self.run(#[trigger] words[k]) == set_of(known@[k]@)
                        && set_of(known@[k]@) != Set::<State>::empty() by {
                        if k < before.len() {
                            assert(known@[k] == before[k]);
                        }
                    }
                    assert forall|i: int| 0 <= i < transitions@.len() implies alphabet@.contains(#[trigger] transitions@[i].1) by {
                        if i < before_t.len() {
                            assert(transitions@[i] == before_t[i]);
                        } else {
                            assert(alphabet@[a as int] == c);
                        }
                    }
                    assert forall|i: int, j: int| 0 <= i < transitions@.len() && 0 <= j < transitions@.len() && i != j
                        implies (#[trigger] transitions@[i]).0 != (#[trigger] transitions@[j]).0 || transitions@[i].1 != transitions@[j].1 by {
                        if j == transitions@.len() - 1 && transitions@[i].0 == current {
                            let b = choose|b: int| 0 <= b < a && alphabet@[b] == before_t[i].1;
                            assert(alphabet@[b] != alphabet@[a as int]);
                        }
                        if i == transitions@.len() - 1 && transitions@[j].0 == current {
                            let b = choose|b: int| 0 <= b < a && alphabet@[b] == before_t[j].1;
                            assert(alphabet@[b] != alphabet@[a as int]);
                        }
                    }
                    assert forall|i: int| 0 <= i < transitions@.len() implies {
                        let t = #[trigger] transitions@[i];
                        &&& t.0 <= current
                        &&& t.2 < known@.len()
                        &&& set_of(known@[t.2 as int]@) == self.step(set_of(known@[t.0 as int]@), t.1)
                        &&& t.0 == current ==> exists|b: int| 0 <= b < a + 1 && alphabet@[b] == t.1
                    } by {
                        if i < transitions@.len() - 1 {
                            assert(before_t[i] == transitions@[i]);
                            assert(known@[before_t[i].2 as int] == before[before_t[i].2 as int]);
                            assert(known@[before_t[i].0 as int] == before[before_t[i].0 as int]);
                            if transitions@[i].0 == current {
                                let b = choose|b: int| 0 <= b < a && alphabet@[b] == before_t[i].1;
                            }
                        } else {
                            assert(alphabet@[a as int] == c);
                        }
                    }
                    assert forall|k: State, d: char| k < current && #[trigger] self.step(set_of(known@[k as int]@), d) != Set::<State>::empty()
                        implies exists|i: int| 0 <= i < transitions@.len() && transitions@[i].0 == k && transitions@[i].1 == d by {
                        assert(known@[k as int] == before[k as int]);
                        let i = choose|i: int| 0 <= i < before_t.len() && before_t[i].0 == k && before_t[i].1 == d;
                        assert(transitions@[i] == before_t[i]);
                    }
                    assert forall|b: int| 0 <= b < a + 1 && self.step(set_of(known@[current as int]@), #[trigger] alphabet@[b]) != Set::<State>::empty()
                        implies exists|i: int| 0 <= i < transitions@.len() && transitions@[i].0 == current && transitions@[i].1 == alphabet@[b] by {
                        if b < a {
                            assert(known@[current as int] == before[current as int]);
                            let i = choose|i: int| 0 <= i < before_t.len() && before_t[i].0 == current && before_t[i].1 == alphabet@[b];
                            assert(transitions@[i] == before_t[i]);
                        } else {
                            assert(transitions@[transitions@.len() - 1].0 == current);
                        }
                    }
                    assert(known@[0] == before[0]);
                    assert forall|k: int| 0 <= k < known_start.len() implies #[trigger] known@[k] == known_start[k] by {
                        assert(known@[k] == before[k]);
                    }
                    assert forall|k: int| 0 <= k <= current implies #[trigger] accepting@[k] == known@[k]@[self.accepting() as int] by {
                        assert(known@[k] == before[k]);
                    }
                }
                a += 1;
            }
            proof {
                assert forall|k: State, c: char| k < current + 1 && #[trigger] self.step(set_of(known@[k as int]@), c) != Set::<State>::empty()
                    implies exists|i: int| 0 <= i < transitions@.len() && transitions@[i].0 == k && transitions@[i].1 == c by {
                    if k == current {
                        if !alphabet@.contains(c) {
                            assert(self.post(set_of(known@[k as int]@), Symbol::Character(c)) =~= Set::<State>::empty()) by {
                                if exists|q: State| self.post(set_of(known@[k as int]@), Symbol::Character(c)).contains(q) {
                                    let q = choose|q: State| self.post(set_of(known@[k as int]@), Symbol::Character(c)).contains(q);
                                    let p = choose|p: State| set_of(known@[k as int]@).contains(p) && #[trigger] self.has_edge(p, Symbol::Character(c), q);
                                    let e = choose|e: int| 0 <= e < self.edges().len() && self.edges()[e] == (p, Symbol::Character(c), q);
                                    assert(self.labels(c));
                                }
                            }
                            self.lemma_closure_empty();
                        } else {
                            let b = choose|b: int| 0 <= b < alphabet@.len() && alphabet@[b] == c;
                        }
                    }
                }
            }
            current += 1;
        }
        let last = current - 1;
        proof {
            assert forall|i: int| 0 <= i < transitions@.len() implies (#[trigger] transitions@[i]).0 <= last && transitions@[i].2 <= last by {}
        }
        let r = DFAutomata::new(transitions, accepting, last);
        proof {
            let kn = known@.map_values(|v: Vec<bool>| v@);
            assert forall|k: State| k <= r.last() implies r.accepting_map()[k as int] == #[trigger] set_of(kn[k as int]).contains(self.accepting()) by {
                assert(known@[k as int]@[self.accepting() as int] == set_of(known@[k as int]@).contains(self.accepting()));
            }
            assert forall|k: State, c: char| k <= r.last() implies match #[trigger] r.delta(k, c) {
                Some(j) => j <= r.last() && set_of(kn[j as int]) == self.step(set_of(kn[k as int]), c),
                None => self.step(set_of(kn[k as int]), c) == Set::<State>::empty(),
            } by {
                if r.has_transition(k, c) {
                    let i = choose|i: int| 0 <= i < r.trans().len() && r.trans()[i].0 == k && r.trans()[i].1 == c;
                    r.lemma_delta_unique(k, c, i);
                    let t = transitions@[i];
                } else {
                    if self.step(set_of(kn[k as int]), c) != Set::<State>::empty() {
                        let i = choose|i: int| 0 <= i < transitions@.len() && transitions@[i].0 == k && transitions@[i].1 == c;
                        assert(r.has_transition(k, c));
                    }
                }
            }
            assert(self.simulated_by(r, kn));
            assert(self.simulated_by(r, kn) && kn.no_duplicates());
            assert forall|k: State| k <= r.last() implies #[trigger] r.reachable(k) by {
                let w = words[k as int];
                self.lemma_simulation(r, kn, w);
                assert(kn[k as int] == known@[k as int]@);
                if let Some(j) = r.run(w) {
                    assert(kn[j as int] == known@[j as int]@);
                    lemma_set_of_injective(kn[j as int], kn[k as int]);
                    assert(kn.no_duplicates());
                } else {
                    assert(set_of(known@[k as int]@) != Set::<State>::empty());
                }
                assert(r.run(w) == Some(k));
            }
            assert forall|w: Seq<char>| r.accepts(w) == self.accepts(w) by {
                self.lemma_simulation(r, kn, w);
                if let Some(k) = r.run(w) {
                    assert(r.is_accepting(k) == set_of(kn[k as int]).contains(self.accepting()));
                }
            }
        }
        r
    }

    /// The NFA of a syntax tree, by Thompson's construction.
    pub fn from(value: &LexTree) -> (r: NFAutomata)
        requires
            new_states(*value) < usize::MAX,
        ensures
            r.well_formed(),
            r.edges() == thompson(*value, 0, seq![eps(0, 0)], 0).0,
            r.accepting() == thompson(*value, 0, seq![eps(0, 0)], 0).2,
            r.last() == new_states(*value),
            forall|w: Seq<char>| #[trigger] r.accepts(w) == in_language(*value, w),
    {
        let builder = NFABuilder::build(value);
        proof { lemma_thompson_bounds(*value, 0, seq![eps(0, 0)], 0); }
        let r = NFAutomata { transitions: builder.transitions, acceptance_state: builder.last_state, last_state: builder.last_state };
        proof {
            assert forall|w: Seq<char>| #[trigger] r.accepts(w) == in_language(*value, w) by {
                if in_language(*value, w) {
                    lemma_nfa_accepts_language(*value, r, w);
                }
                if r.accepts(w) {
                    lemma_nfa_only_language(*value, r, w);
                }
            }
        }
        r
    }
}

impl NFAutomata {
    /// The NFA of a pattern: parse it, then build by Thompson's construction.
    pub fn try_from(value: &str) -> (r: Result<NFAutomata, LexError>)
        requires
            value@.len() <= crate::MAX_PATTERN_LEN,
        ensures
            match r {
                Ok(a) => parse_spec(value@) matches Ok(t) && a.well_formed() && a.edges() == thompson(t, 0, seq![eps(0, 0)], 0).0
                    && a.accepting() == thompson(t, 0, seq![eps(0, 0)], 0).2 && forall|w: Seq<char>| #[trigger] a.accepts(w)
                    == in_language(t, w),
                Err(e) => parse_spec(value@) == Err::<LexTree, Failure>(e.failure()) && e.source() == value@,
            },
    {
        let node = LexTree::try_from(value)?;
        proof {
            lemma_parse_spec_size(value@);
            lemma_new_states_bounded(node);
        }
        Ok(NFAutomata::from(&node))
    }
}

impl crate::Automata for NFAutomata {
    open spec fn well_formed(&self) -> bool {
        self.well_formed()
    }

    open spec fn accepts(&self, w: Seq<char>) -> bool {
        self.accepts(w)
    }

    /// Whether the whole input leads to the accepting state.
    fn test(&self, input: &str) -> (r: bool) {
        let chars = chars_of(input);
        let mut current = self.initial_states();
        let mut i: usize = 0;
        assert(chars@.subrange(0, 0) =~= Seq::<char>::empty());
        while i < chars.len()
            invariant
                self.well_formed(),
                chars@ == input@,
                i <= chars@.len(),
                current@.len() == self.last() + 1,
                set_of(current@) == self.run(chars@.subrange(0, i as int)),
            decreases chars@.len() - i,
        {
            let moved = self.movement(&current, Symbol::Character(chars[i]));
            current = self.epsilon_closure(moved);
            let ghost w = chars@.subrange(0, i + 1);
            assert(w.drop_last() =~= chars@.subrange(0, i as int));
            i += 1;
        }
        assert(chars@.subrange(0, i as int) =~= input@);
        assert(set_of(current@).contains(self.accepting()) == current@[self.accepting() as int]);
        current[self.acceptance_state]
    }
}

} // verus!
