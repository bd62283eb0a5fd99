use vstd::prelude::*;
use crate::language::in_language;
use crate::nfa::{edges_within, eps, lemma_thompson_bounds, new_states, thompson, with_state, Edge, NFAutomata};
use crate::symbols::{BinaryOperator, State, Symbol, UnaryOperator};
use crate::tree::LexTree;

verus! {

/// `q` is reached from `p` over exactly `n` epsilon edges.
pub open spec fn eps_path(edges: Seq<Edge>, p: State, q: State, n: nat) -> bool
    decreases n,
{
    if n == 0 {
        p == q
    } else {
        exists|m: State| eps_path(edges, p, m, (n - 1) as nat) && edges.contains((m, Symbol::Epsilon, q))
    }
}

/// `q` is reached from `p` over epsilon edges.
pub open spec fn eps_reach(edges: Seq<Edge>, p: State, q: State) -> bool {
    exists|n: nat| eps_path(edges, p, q, n)
}

/// Some path of edges leads from `p` to `q` reading `w`.
pub open spec fn word_path(edges: Seq<Edge>, p: State, w: Seq<char>, q: State) -> bool
    decreases w.len(),
{
    if w.len() == 0 {
        eps_reach(edges, p, q)
    } else {
        exists|m1: State, m2: State|
            word_path(edges, p, w.drop_last(), m1) && edges.contains((m1, Symbol::Character(w.last()), m2)) && eps_reach(
                edges,
                m2,
                q,
            )
    }
}

proof fn lemma_eps_path_join(edges: Seq<Edge>, p: State, m: State, q: State, n1: nat, n2: nat)
    requires
        eps_path(edges, p, m, n1),
        eps_path(edges, m, q, n2),
    ensures
        eps_path(edges, p, q, n1 + n2),
    decreases n2,
{
    if n2 > 0 {
        let k = choose|k: State| eps_path(edges, m, k, (n2 - 1) as nat) && edges.contains((k, Symbol::Epsilon, q));
        lemma_eps_path_join(edges, p, m, k, n1, (n2 - 1) as nat);
        assert(eps_path(edges, p, k, (n1 + n2 - 1) as nat));
    }
}

proof fn lemma_eps_reach_join(edges: Seq<Edge>, p: State, m: State, q: State)
    requires
        eps_reach(edges, p, m),
        eps_reach(edges, m, q),
    ensures
        eps_reach(edges, p, q),
{
    let n1 = choose|n: nat| eps_path(edges, p, m, n);
    let n2 = choose|n: nat| eps_path(edges, m, q, n);
    lemma_eps_path_join(edges, p, m, q, n1, n2);
}

proof fn lemma_eps_edge(edges: Seq<Edge>, p: State, q: State)
    requires
        edges.contains((p, Symbol::Epsilon, q)),
    ensures
        eps_reach(edges, p, q),
{
    assert(eps_path(edges, p, p, 0));
    assert(eps_path(edges, p, q, 1));
}

proof fn lemma_eps_self(edges: Seq<Edge>, p: State)
    ensures
        eps_reach(edges, p, p),
{
    assert(eps_path(edges, p, p, 0));
}

/// Epsilon steps after a path keep it a path.
proof fn lemma_path_then_eps(edges: Seq<Edge>, p: State, w: Seq<char>, m: State, q: State)
    requires
        word_path(edges, p, w, m),
        eps_reach(edges, m, q),
    ensures
        word_path(edges, p, w, q),
{
    if w.len() == 0 {
        lemma_eps_reach_join(edges, p, m, q);
    } else {
        let (m1, m2) = choose|m1: State, m2: State|
            word_path(edges, p, w.drop_last(), m1) && edges.contains((m1, Symbol::Character(w.last()), m2)) && eps_reach(edges, m2, m);
        lemma_eps_reach_join(edges, m2, m, q);
    }
}

/// Epsilon steps before a path keep it a path.
proof fn lemma_eps_then_path(edges: Seq<Edge>, p: State, m: State, w: Seq<char>, q: State)
    requires
        eps_reach(edges, p, m),
        word_path(edges, m, w, q),
    ensures
        word_path(edges, p, w, q),
    decreases w.len(),
{
    if w.len() == 0 {
        lemma_eps_reach_join(edges, p, m, q);
    } else {
        let (m1, m2) = choose|m1: State, m2: State|
            word_path(edges, m, w.drop_last(), m1) && edges.contains((m1, Symbol::Character(w.last()), m2)) && eps_reach(edges, m2, q);
        lemma_eps_then_path(edges, p, m, w.drop_last(), m1);
    }
}

/// Paths chain: reading `u` then `v`.
proof fn lemma_path_concat(edges: Seq<Edge>, p: State, u: Seq<char>, m: State, v: Seq<char>, q: State)
    requires
        word_path(edges, p, u, m),
        word_path(edges, m, v, q),
    ensures
        word_path(edges, p, u + v, q),
    decreases v.len(),
{
    if v.len() == 0 {
        assert(u + v =~= u);
        lemma_path_then_eps(edges, p, u, m, q);
    } else {
        let (m1, m2) = choose|m1: State, m2: State|
            word_path(edges, m, v.drop_last(), m1) && edges.contains((m1, Symbol::Character(v.last()), m2)) && eps_reach(edges, m2, q);
        lemma_path_concat(edges, p, u, m, v.drop_last(), m1);
        assert((u + v).drop_last() =~= u + v.drop_last());
        assert((u + v).last() == v.last());
    }
}

/// More edges keep every path.
proof fn lemma_eps_path_more(edges: Seq<Edge>, more: Seq<Edge>, p: State, q: State, n: nat)
    requires
        eps_path(edges, p, q, n),
        forall|e: Edge| edges.contains(e) ==> more.contains(e),
    ensures
        eps_path(more, p, q, n),
    decreases n,
{
    if n > 0 {
        let m = choose|m: State| eps_path(edges, p, m, (n - 1) as nat) && edges.contains((m, Symbol::Epsilon, q));
        lemma_eps_path_more(edges, more, p, m, (n - 1) as nat);
    }
}

proof fn lemma_path_more(edges: Seq<Edge>, more: Seq<Edge>, p: State, w: Seq<char>, q: State)
    requires
        word_path(edges, p, w, q),
        forall|e: Edge| edges.contains(e) ==> more.contains(e),
    ensures
        word_path(more, p, w, q),
    decreases w.len(),
{
    if w.len() == 0 {
        let n = choose|n: nat| eps_path(edges, p, q, n);
        lemma_eps_path_more(edges, more, p, q, n);
    } else {
        let (m1, m2) = choose|m1: State, m2: State|
            word_path(edges, p, w.drop_last(), m1) && edges.contains((m1, Symbol::Character(w.last()), m2)) && eps_reach(edges, m2, q);
        lemma_path_more(edges, more, p, w.drop_last(), m1);
        let n = choose|n: nat| eps_path(edges, m2, q, n);
        lemma_eps_path_more(edges, more, m2, q, n);
    }
}

/// The construction only appends edges.
proof fn lemma_thompson_prefix(t: LexTree, start: State, edges: Seq<Edge>, last: State)
    ensures
        edges.len() <= thompson(t, start, edges, last).0.len(),
        forall|i: int| 0 <= i < edges.len() ==> #[trigger] thompson(t, start, edges, last).0[i] == edges[i],
    decreases t,
{
    match t {
        LexTree::Leaf { .. } => {},
        LexTree::Binary { value: BinaryOperator::Concat, left_child, right_child } => {
            lemma_thompson_prefix(*left_child, start, edges, last);
            let (e1, l1, x1) = thompson(*left_child, start, edges, last);
            lemma_thompson_prefix(*right_child, x1, e1, l1);
        },
        LexTree::Binary { value: BinaryOperator::Or, left_child, right_child } => {
            let top = (last + 1) as State;
            let e0 = with_state(edges, top);
            lemma_thompson_prefix(*left_child, top, e0, top);
            let (e1, l1, x1) = thompson(*left_child, top, e0, top);
            let bottom = (l1 + 1) as State;
            lemma_thompson_prefix(*right_child, bottom, with_state(e1, bottom), bottom);
        },
        LexTree::Unary { value: UnaryOperator::Kleene, child } => {
            let ns = (last + 1) as State;
            lemma_thompson_prefix(*child, ns, with_state(edges, ns), ns);
        },
        LexTree::Unary { value: UnaryOperator::Many, child } => {
            let ns = (last + 1) as State;
            lemma_thompson_prefix(*child, ns, with_state(edges, ns), ns);
        },
        LexTree::Unary { child, .. } => {
            lemma_thompson_prefix(*child, start, edges, last);
        },
    }
}

/// The construction keeps every edge it was given.
proof fn lemma_thompson_extends(t: LexTree, start: State, edges: Seq<Edge>, last: State)
    ensures
        forall|e: Edge| edges.contains(e) ==> #[trigger] thompson(t, start, edges, last).0.contains(e),
{
    lemma_thompson_prefix(t, start, edges, last);
    let r = thompson(t, start, edges, last).0;
    assert forall|e: Edge| edges.contains(e) implies #[trigger] r.contains(e) by {
        let k = choose|k: int| 0 <= k < edges.len() && edges[k] == e;
        assert(r[k] == e);
    }
}

proof fn lemma_closed_keeps(nfa: NFAutomata, t: Set<State>, p: State, q: State, n: nat)
    requires
        nfa.eps_closed(t),
        t.contains(p),
        eps_path(nfa.edges(), p, q, n),
    ensures
        t.contains(q),
    decreases n,
{
    if n > 0 {
        let m = choose|m: State| eps_path(nfa.edges(), p, m, (n - 1) as nat) && nfa.edges().contains((m, Symbol::Epsilon, q));
        lemma_closed_keeps(nfa, t, p, m, (n - 1) as nat);
        let i = choose|i: int| 0 <= i < nfa.edges().len() && nfa.edges()[i] == (m, Symbol::Epsilon, q);
        assert(nfa.has_edge(m, Symbol::Epsilon, q));
    }
}

proof fn lemma_eps_in_closure(nfa: NFAutomata, s: Set<State>, p: State, q: State)
    requires
        s.contains(p),
        eps_reach(nfa.edges(), p, q),
    ensures
        nfa.closure(s).contains(q),
{
    let n = choose|n: nat| eps_path(nfa.edges(), p, q, n);
    assert forall|t: Set<State>| #[trigger] nfa.eps_closed(t) && s.subset_of(t) implies t.contains(q) by {
        lemma_closed_keeps(nfa, t, p, q, n);
    }
}

/// A path from state 0 reading `w` ends in a state the NFA can be in after `w`.
proof fn lemma_path_in_run(nfa: NFAutomata, w: Seq<char>, q: State)
    requires
        word_path(nfa.edges(), 0, w, q),
    ensures
        nfa.run(w).contains(q),
    decreases w.len(),
{
    if w.len() == 0 {
        lemma_eps_in_closure(nfa, set![0usize], 0, q);
    } else {
        let (m1, m2) = choose|m1: State, m2: State|
            word_path(nfa.edges(), 0, w.drop_last(), m1) && nfa.edges().contains((m1, Symbol::Character(w.last()), m2)) && eps_reach(
                nfa.edges(),
                m2,
                q,
            );
        lemma_path_in_run(nfa, w.drop_last(), m1);
        let i = choose|i: int| 0 <= i < nfa.edges().len() && nfa.edges()[i] == (m1, Symbol::Character(w.last()), m2);
        assert(nfa.has_edge(m1, Symbol::Character(w.last()), m2));
        assert(nfa.post(nfa.run(w.drop_last()), Symbol::Character(w.last())).contains(m2));
        lemma_eps_in_closure(nfa, nfa.post(nfa.run(w.drop_last()), Symbol::Character(w.last())), m2, q);
    }
}

/// An edge added after the construction of a fragment.
proof fn lemma_pushed(edges: Seq<Edge>, e: Edge)
    ensures
        edges.push(e).contains(e),
        forall|x: Edge| edges.contains(x) ==> #[trigger] edges.push(e).contains(x),
{
    assert(edges.push(e)[edges.len() as int] == e);
    assert forall|x: Edge| edges.contains(x) implies #[trigger] edges.push(e).contains(x) by {
        let k = choose|k: int| 0 <= k < edges.len() && edges[k] == x;
        assert(edges.push(e)[k] == x);
    }
}

/// Every word the tree matches leads, over the constructed edges, from the
/// fragment's entry to its exit.
#[verifier::spinoff_prover]
proof fn lemma_thompson_sound(t: LexTree, start: State, edges: Seq<Edge>, last: State, w: Seq<char>)
    requires
        in_language(t, w),
    ensures
        word_path(thompson(t, start, edges, last).0, start, w, thompson(t, start, edges, last).2),
    decreases t, w.len(), 1nat,
{
    let (r, l, x) = thompson(t, start, edges, last);
    match t {
        LexTree::Leaf { value: Symbol::Character(c) } => {
            let s0 = (last + 1) as State;
            lemma_pushed(with_state(edges, s0), (start, Symbol::Character(c), s0));
            lemma_eps_self(r, start);
            lemma_eps_self(r, s0);
            assert(w.drop_last() =~= Seq::<char>::empty());
            assert(word_path(r, start, w.drop_last(), start));
            assert(w.last() == c);
            assert(r.contains((start, Symbol::Character(w.last()), s0)));
            assert(word_path(r, start, w.drop_last(), start) && r.contains((start, Symbol::Character(w.last()), s0)) && eps_reach(r, s0, s0));
        },
        LexTree::Leaf { value: Symbol::Epsilon } => {
            let s0 = (last + 1) as State;
            lemma_pushed(with_state(edges, s0), (start, Symbol::Epsilon, s0));
            lemma_eps_edge(r, start, s0);
        },
        LexTree::Binary { value: BinaryOperator::Concat, left_child, right_child } => {
            let i = choose|i: int| 0 <= i <= w.len() && in_language(*left_child, w.take(i)) && in_language(*right_child, w.skip(i));
            let (e1, l1, x1) = thompson(*left_child, start, edges, last);
            lemma_thompson_sound(*left_child, start, edges, last, w.take(i));
            lemma_thompson_sound(*right_child, x1, e1, l1, w.skip(i));
            lemma_thompson_extends(*right_child, x1, e1, l1);
            lemma_path_more(e1, r, start, w.take(i), x1);
            lemma_path_concat(r, start, w.take(i), x1, w.skip(i), x);
            assert(w.take(i) + w.skip(i) =~= w);
        },
        LexTree::Binary { value: BinaryOperator::Or, left_child, right_child } => {
            let top = (last + 1) as State;
            let e0 = with_state(edges, top);
            let (e1, l1, x1) = thompson(*left_child, top, e0, top);
            let bottom = (l1 + 1) as State;
            let e1b = with_state(e1, bottom);
            let (e2, l2, x2) = thompson(*right_child, bottom, e1b, bottom);
            let end = (l2 + 1) as State;
            let a = e2.push(eps(start, top));
            let b = a.push(eps(start, bottom));
            let c = with_state(b, end);
            let d = c.push(eps(x1, end));
            lemma_pushed(e1, (bottom, Symbol::Epsilon, bottom));
            lemma_thompson_extends(*right_child, bottom, e1b, bottom);
            lemma_pushed(e2, eps(start, top));
            lemma_pushed(a, eps(start, bottom));
            lemma_pushed(b, (end, Symbol::Epsilon, end));
            lemma_pushed(c, eps(x1, end));
            lemma_pushed(d, eps(x2, end));
            assert(r == d.push(eps(x2, end)));
            assert(forall|e: Edge| e1.contains(e) ==> r.contains(e));
            assert(forall|e: Edge| e2.contains(e) ==> r.contains(e));
            if in_language(*left_child, w) {
                lemma_thompson_sound(*left_child, top, e0, top, w);
                lemma_path_more(e1, r, top, w, x1);
                lemma_eps_edge(r, start, top);
                lemma_eps_then_path(r, start, top, w, x1);
                lemma_eps_edge(r, x1, end);
                lemma_path_then_eps(r, start, w, x1, end);
            } else {
                lemma_thompson_sound(*right_child, bottom, e1b, bottom, w);
                lemma_path_more(e2, r, bottom, w, x2);
                lemma_eps_edge(r, start, bottom);
                lemma_eps_then_path(r, start, bottom, w, x2);
                lemma_eps_edge(r, x2, end);
                lemma_path_then_eps(r, start, w, x2, end);
            }
        },
        LexTree::Unary { value: UnaryOperator::Kleene, child } => {
            let ns = (last + 1) as State;
            let (e1, l1, x1) = thompson(*child, ns, with_state(edges, ns), ns);
            let end = (l1 + 1) as State;
            let a = with_state(e1, end);
            let b = a.push(eps(start, end));
            let c = b.push(eps(start, ns));
            let d = c.push(eps(x1, ns));
            lemma_pushed(e1, (end, Symbol::Epsilon, end));
            lemma_pushed(a, eps(start, end));
            lemma_pushed(b, eps(start, ns));
            lemma_pushed(c, eps(x1, ns));
            lemma_pushed(d, eps(x1, end));
            assert(r == d.push(eps(x1, end)));
            if w.len() == 0 {
                lemma_eps_edge(r, start, end);
            } else {
                lemma_kleene_loop(t, start, edges, last, w);
                lemma_eps_edge(r, start, ns);
                lemma_eps_then_path(r, start, ns, w, x1);
                lemma_eps_edge(r, x1, end);
                lemma_path_then_eps(r, start, w, x1, end);
            }
        },
        LexTree::Unary { value: UnaryOperator::Maybe, child } => {
            let (e1, l1, x1) = thompson(*child, start, edges, last);
            lemma_pushed(e1, eps(start, x1));
            if w.len() == 0 {
                lemma_eps_edge(r, start, x1);
            } else {
                lemma_thompson_sound(*child, start, edges, last, w);
                lemma_path_more(e1, r, start, w, x1);
            }
        },
        LexTree::Unary { value: UnaryOperator::Many, child } => {
            let ns = (last + 1) as State;
            let (e1, l1, x1) = thompson(*child, ns, with_state(edges, ns), ns);
            let end = (l1 + 1) as State;
            let a0 = with_state(e1, end);
            let a = a0.push(eps(start, ns));
            let b = a.push(eps(x1, ns));
            lemma_pushed(e1, (end, Symbol::Epsilon, end));
            lemma_pushed(a0, eps(start, ns));
            lemma_pushed(a, eps(x1, ns));
            lemma_pushed(b, eps(x1, end));
            assert(r == b.push(eps(x1, end)));
            lemma_many_loop(t, start, edges, last, w);
            lemma_eps_edge(r, start, ns);
            lemma_eps_then_path(r, start, ns, w, x1);
            lemma_eps_edge(r, x1, end);
            lemma_path_then_eps(r, start, w, x1, end);
        },
    }
}

/// Inside a one-or-more fragment, every word of the repetition leads from
/// the repeated part's entry to its exit.
proof fn lemma_many_loop(t: LexTree, start: State, edges: Seq<Edge>, last: State, w: Seq<char>)
    requires
        t matches LexTree::Unary { value: UnaryOperator::Many, .. },
        in_language(t, w),
    ensures
        t matches LexTree::Unary { child, .. } ==> {
            let ns = (last + 1) as State;
            word_path(
                thompson(t, start, edges, last).0,
                ns,
                w,
                thompson(*child, ns, with_state(edges, ns), ns).2,
            )
        },
    decreases t, w.len(), 0nat,
{
    if let LexTree::Unary { child, .. } = t {
        let r = thompson(t, start, edges, last).0;
        let ns = (last + 1) as State;
        let (e1, l1, x1) = thompson(*child, ns, with_state(edges, ns), ns);
        let end = (l1 + 1) as State;
        let a0 = with_state(e1, end);
        let a = a0.push(eps(start, ns));
        let b = a.push(eps(x1, ns));
        lemma_pushed(e1, (end, Symbol::Epsilon, end));
        lemma_pushed(a0, eps(start, ns));
        lemma_pushed(a, eps(x1, ns));
        lemma_pushed(b, eps(x1, end));
        assert(r == b.push(eps(x1, end)));
        if w.len() == 0 {
            lemma_thompson_sound(*child, ns, with_state(edges, ns), ns, w);
            lemma_path_more(e1, r, ns, w, x1);
        } else {
            let i = choose|i: int| 1 <= i <= w.len() && in_language(*child, w.take(i)) && (i == w.len() || in_language(t, w.skip(i)));
            lemma_thompson_sound(*child, ns, with_state(edges, ns), ns, w.take(i));
            lemma_path_more(e1, r, ns, w.take(i), x1);
            if i == w.len() {
                assert(w.take(i) =~= w);
            } else {
                lemma_many_loop(t, start, edges, last, w.skip(i));
                lemma_eps_edge(r, x1, ns);
                lemma_path_then_eps(r, ns, w.take(i), x1, ns);
                lemma_path_concat(r, ns, w.take(i), ns, w.skip(i), x1);
                assert(w.take(i) + w.skip(i) =~= w);
            }
        }
    }
}

/// Inside a Kleene fragment, every nonempty word of the star leads from the
/// repeated part's entry to its exit.
proof fn lemma_kleene_loop(t: LexTree, start: State, edges: Seq<Edge>, last: State, w: Seq<char>)
    requires
        t matches LexTree::Unary { value: UnaryOperator::Kleene, .. },
        in_language(t, w),
        w.len() > 0,
    ensures
        t matches LexTree::Unary { child, .. } ==> {
            let ns = (last + 1) as State;
            word_path(
                thompson(t, start, edges, last).0,
                ns,
                w,
                thompson(*child, ns, with_state(edges, ns), ns).2,
            )
        },
    decreases t, w.len(), 0nat,
{
    if let LexTree::Unary { child, .. } = t {
        let r = thompson(t, start, edges, last).0;
        let ns = (last + 1) as State;
        let (e1, l1, x1) = thompson(*child, ns, with_state(edges, ns), ns);
        let end = (l1 + 1) as State;
        let a = with_state(e1, end);
        let b = a.push(eps(start, end));
        let c = b.push(eps(start, ns));
        let d = c.push(eps(x1, ns));
        lemma_pushed(e1, (end, Symbol::Epsilon, end));
        lemma_pushed(a, eps(start, end));
        lemma_pushed(b, eps(start, ns));
        lemma_pushed(c, eps(x1, ns));
        lemma_pushed(d, eps(x1, end));
        assert(r == d.push(eps(x1, end)));
        let i = choose|i: int| 1 <= i <= w.len() && in_language(*child, w.take(i)) && in_language(t, w.skip(i));
        lemma_thompson_sound(*child, ns, with_state(edges, ns), ns, w.take(i));
        lemma_path_more(e1, r, ns, w.take(i), x1);
        if i == w.len() {
            assert(w.take(i) =~= w);
        } else {
            lemma_kleene_loop(t, start, edges, last, w.skip(i));
            lemma_eps_edge(r, x1, ns);
            lemma_path_then_eps(r, ns, w.take(i), x1, ns);
            lemma_path_concat(r, ns, w.take(i), ns, w.skip(i), x1);
            assert(w.take(i) + w.skip(i) =~= w);
        }
    }
}

/// The NFA of a tree accepts every word the tree matches.
pub proof fn lemma_nfa_accepts_language(t: LexTree, nfa: NFAutomata, w: Seq<char>)
    requires
        nfa.edges() == thompson(t, 0, seq![eps(0, 0)], 0).0,
        nfa.accepting() == thompson(t, 0, seq![eps(0, 0)], 0).2,
        in_language(t, w),
    ensures
        nfa.accepts(w),
{
    lemma_thompson_sound(t, 0, seq![eps(0, 0)], 0, w);
    lemma_path_in_run(nfa, w, nfa.accepting());
}

/// A prefix of `w` is in the tree's language and the rest satisfies `k`.
pub open spec fn after(t: LexTree, k: spec_fn(Seq<char>) -> bool, w: Seq<char>) -> bool {
    exists|i: int| 0 <= i <= w.len() && in_language(t, w.take(i)) && k(w.skip(i))
}

pub open spec fn star_of(c: LexTree) -> LexTree {
    LexTree::Unary { value: UnaryOperator::Kleene, child: Box::new(c) }
}

/// What may still be read from a state the fragment of `t` adds, to finish
/// the fragment and then satisfy `k`.
pub open spec fn resid(
    t: LexTree,
    start: State,
    edges: Seq<Edge>,
    last: State,
    k: spec_fn(Seq<char>) -> bool,
    q: State,
    w: Seq<char>,
) -> bool
    decreases t,
{
    match t {
        LexTree::Leaf { .. } => k(w),
        LexTree::Binary { value: BinaryOperator::Concat, left_child, right_child } => {
            let (e1, l1, x1) = thompson(*left_child, start, edges, last);
            if q <= l1 {
                resid(*left_child, start, edges, last, |v: Seq<char>| after(*right_child, k, v), q, w)
            } else {
                resid(*right_child, x1, e1, l1, k, q, w)
            }
        },
        LexTree::Binary { value: BinaryOperator::Or, left_child, right_child } => {
            let top = (last + 1) as State;
            let (e1, l1, x1) = thompson(*left_child, top, with_state(edges, top), top);
            let bottom = (l1 + 1) as State;
            let (e2, l2, x2) = thompson(*right_child, bottom, with_state(e1, bottom), bottom);
            if q == top {
                after(*left_child, k, w)
            } else if q <= l1 {
                resid(*left_child, top, with_state(edges, top), top, k, q, w)
            } else if q == bottom {
                after(*right_child, k, w)
            } else if q <= l2 {
                resid(*right_child, bottom, with_state(e1, bottom), bottom, k, q, w)
            } else {
                k(w)
            }
        },
        LexTree::Unary { value: UnaryOperator::Maybe, child } => resid(*child, start, edges, last, k, q, w),
        LexTree::Unary { child, .. } => {
            let ns = (last + 1) as State;
            let (e1, l1, x1) = thompson(*child, ns, with_state(edges, ns), ns);
            let kc = |v: Seq<char>| after(star_of(*child), k, v);
            if q == ns {
                after(*child, kc, w)
            } else if q <= l1 {
                resid(*child, ns, with_state(edges, ns), ns, kc, q, w)
            } else {
                k(w)
            }
        },
    }
}

/// The fragment's exit has the continuation itself as residual.
proof fn lemma_exit_resid(t: LexTree, start: State, edges: Seq<Edge>, last: State, k: spec_fn(Seq<char>) -> bool, w: Seq<char>)
    requires
        start <= last,
        last + new_states(t) <= usize::MAX,
        edges_within(edges, last),
    ensures
        resid(t, start, edges, last, k, thompson(t, start, edges, last).2, w) == k(w),
    decreases t,
{
    lemma_thompson_bounds(t, start, edges, last);
    match t {
        LexTree::Leaf { .. } => {},
        LexTree::Binary { value: BinaryOperator::Concat, left_child, right_child } => {
            lemma_thompson_bounds(*left_child, start, edges, last);
            let (e1, l1, x1) = thompson(*left_child, start, edges, last);
            lemma_thompson_bounds(*right_child, x1, e1, l1);
            lemma_exit_resid(*right_child, x1, e1, l1, k, w);
        },
        LexTree::Binary { value: BinaryOperator::Or, left_child, right_child } => {
            let top = (last + 1) as State;
            lemma_thompson_bounds(*left_child, top, with_state(edges, top), top);
            let (e1, l1, x1) = thompson(*left_child, top, with_state(edges, top), top);
            let bottom = (l1 + 1) as State;
            assert(edges_within(with_state(e1, bottom), bottom));
            lemma_thompson_bounds(*right_child, bottom, with_state(e1, bottom), bottom);
        },
        LexTree::Unary { value: UnaryOperator::Maybe, child } => {
            lemma_exit_resid(*child, start, edges, last, k, w);
        },
        LexTree::Unary { child, .. } => {
            let ns = (last + 1) as State;
            lemma_thompson_bounds(*child, ns, with_state(edges, ns), ns);
        },
    }
}

/// An edge agrees with the residuals: what remains after taking it can
/// also be read from its source.
pub open spec fn edge_ok(r: spec_fn(State, Seq<char>) -> bool, e: Edge) -> bool {
    edge_fits(r, e.0, e.1, e.2)
}

pub open spec fn edge_fits(r: spec_fn(State, Seq<char>) -> bool, p: State, sym: Symbol, q: State) -> bool {
    match sym {
        Symbol::Epsilon => forall|w: Seq<char>| #[trigger] r(q, w) ==> r(p, w),
        Symbol::Character(c) => forall|w: Seq<char>| #[trigger] r(q, w) ==> r(p, seq![c] + w),
    }
}

/// One repetition followed by a star is a star.
proof fn lemma_star_absorbs(c: LexTree, k: spec_fn(Seq<char>) -> bool, w: Seq<char>)
    requires
        after(c, |v: Seq<char>| after(star_of(c), k, v), w),
    ensures
        after(star_of(c), k, w),
{
    let kc = |v: Seq<char>| after(star_of(c), k, v);
    let i = choose|i: int| 0 <= i <= w.len() && in_language(c, w.take(i)) && kc(w.skip(i));
    let rest = w.skip(i);
    let j = choose|j: int| 0 <= j <= rest.len() && in_language(star_of(c), rest.take(j)) && k(rest.skip(j));
    let u = w.take(i);
    let v = rest.take(j);
    assert(w.skip(i + j) =~= rest.skip(j));
    if i == 0 {
        assert(w.take(j) =~= v);
    } else {
        let uv = w.take(i + j);
        assert(uv.take(i) =~= u);
        assert(uv.skip(i) =~= v);
        assert(in_language(star_of(c), uv));
    }
}

/// A nonempty word of a star is one of the one-or-more repetition.
proof fn lemma_star_to_many(c: LexTree, w: Seq<char>)
    requires
        in_language(star_of(c), w),
        w.len() > 0,
    ensures
        in_language(LexTree::Unary { value: UnaryOperator::Many, child: Box::new(c) }, w),
    decreases w.len(),
{
    let i = choose|i: int| 1 <= i <= w.len() && in_language(c, w.take(i)) && in_language(star_of(c), w.skip(i));
    if i < w.len() {
        lemma_star_to_many(c, w.skip(i));
    }
}

/// The requirements on a residual map for the fragment of `t`: its entry
/// reads at least the fragment then the continuation, and the states it adds
/// have their residuals.
pub open spec fn resid_fits(
    t: LexTree,
    start: State,
    edges: Seq<Edge>,
    last: State,
    k: spec_fn(Seq<char>) -> bool,
    r: spec_fn(State, Seq<char>) -> bool,
) -> bool {
    &&& start <= last
    &&& last + new_states(t) <= usize::MAX
    &&& edges_within(edges, last)
    &&& forall|w: Seq<char>| #[trigger] after(t, k, w) ==> r(start, w)
    &&& forall|q: State, w: Seq<char>|
        last < q <= thompson(t, start, edges, last).1 ==> #[trigger] r(q, w) == resid(t, start, edges, last, k, q, w)
}

/// Every edge the fragment adds agrees with the residuals.
proof fn lemma_fragment_edges(
    t: LexTree,
    start: State,
    edges: Seq<Edge>,
    last: State,
    k: spec_fn(Seq<char>) -> bool,
    r: spec_fn(State, Seq<char>) -> bool,
)
    requires
        resid_fits(t, start, edges, last, k, r),
    ensures
        forall|i: int| edges.len() <= i < thompson(t, start, edges, last).0.len() ==> edge_ok(r, #[trigger] thompson(t, start, edges, last).0[i]),
    decreases t, 1nat,
{
    lemma_thompson_bounds(t, start, edges, last);
    match t {
        LexTree::Leaf { value } => {
            let s0 = (last + 1) as State;
            let e = thompson(t, start, edges, last).0;
            assert(forall|w: Seq<char>| #[trigger] r(s0, w) == k(w));
            match value {
                Symbol::Character(c) => {
                    assert forall|w: Seq<char>| #[trigger] r(s0, w) implies r(start, seq![c] + w) by {
                        let x = seq![c] + w;
                        assert(x.take(1) =~= seq![c]);
                        assert(x.skip(1) =~= w);
                        assert(after(t, k, x));
                    }
                },
                Symbol::Epsilon => {
                    assert forall|w: Seq<char>| #[trigger] r(s0, w) implies r(start, w) by {
                        assert(w.take(0) =~= Seq::<char>::empty());
                        assert(w.skip(0) =~= w);
                        assert(after(t, k, w));
                    }
                },
            }
            assert forall|i: int| edges.len() <= i < e.len() implies edge_ok(r, #[trigger] e[i]) by {
                if i == edges.len() {
                    assert(e[i] == (s0, Symbol::Epsilon, s0));
                }
            }
        },
        LexTree::Binary { value: BinaryOperator::Concat, .. } => lemma_concat_edges(t, start, edges, last, k, r),
        LexTree::Binary { value: BinaryOperator::Or, .. } => lemma_or_edges(t, start, edges, last, k, r),
        LexTree::Unary { value: UnaryOperator::Maybe, child } => {
            let c = *child;
            let (e1, l1, x1) = thompson(c, start, edges, last);
            lemma_thompson_bounds(c, start, edges, last);
            assert forall|w: Seq<char>| #[trigger] after(c, k, w) implies r(start, w) by {
                let i = choose|i: int| 0 <= i <= w.len() && in_language(c, w.take(i)) && k(w.skip(i));
                assert(after(t, k, w));
            }
            lemma_fragment_edges(c, start, edges, last, k, r);
            let e = thompson(t, start, edges, last).0;
            assert forall|w: Seq<char>| #[trigger] r(x1, w) implies r(start, w) by {
                lemma_exit_resid(c, start, edges, last, k, w);
                assert(w.take(0) =~= Seq::<char>::empty());
                assert(w.skip(0) =~= w);
                assert(after(t, k, w));
            }
            assert forall|i: int| edges.len() <= i < e.len() implies edge_ok(r, #[trigger] e[i]) by {
                if i < e1.len() {
                    assert(e[i] == e1[i]);
                }
            }
        },
        LexTree::Unary { .. } => lemma_loop_edges(t, start, edges, last, k, r),
    }
}

proof fn lemma_concat_edges(
    t: LexTree,
    start: State,
    edges: Seq<Edge>,
    last: State,
    k: spec_fn(Seq<char>) -> bool,
    r: spec_fn(State, Seq<char>) -> bool,
)
    requires
        t matches LexTree::Binary { value: BinaryOperator::Concat, .. },
        resid_fits(t, start, edges, last, k, r),
    ensures
        forall|i: int| edges.len() <= i < thompson(t, start, edges, last).0.len() ==> edge_ok(r, #[trigger] thompson(t, start, edges, last).0[i]),
    decreases t, 0nat,
{
    if let LexTree::Binary { left_child, right_child, .. } = t {
        let l = *left_child;
        let rc = *right_child;
        let kl = |v: Seq<char>| after(*right_child, k, v);
        lemma_thompson_bounds(l, start, edges, last);
        let (e1, l1, x1) = thompson(l, start, edges, last);
        lemma_thompson_bounds(rc, x1, e1, l1);
        assert forall|w: Seq<char>| #[trigger] after(l, kl, w) implies r(start, w) by {
            let i = choose|i: int| 0 <= i <= w.len() && in_language(l, w.take(i)) && kl(w.skip(i));
            let rest = w.skip(i);
            let j = choose|j: int| 0 <= j <= rest.len() && in_language(rc, rest.take(j)) && k(rest.skip(j));
            let uv = w.take(i + j);
            assert(uv.take(i) =~= w.take(i));
            assert(uv.skip(i) =~= rest.take(j));
            assert(w.skip(i + j) =~= rest.skip(j));
            assert(in_language(t, uv));
            assert(after(t, k, w));
        }
        assert forall|q: State, w: Seq<char>| last < q <= l1 implies #[trigger] r(q, w) == resid(l, start, edges, last, kl, q, w) by {
            assert(r(q, w) == resid(t, start, edges, last, k, q, w));
        }
        lemma_fragment_edges(l, start, edges, last, kl, r);
        assert forall|w: Seq<char>| #[trigger] after(rc, k, w) implies r(x1, w) by {
            assert(r(x1, w) == resid(t, start, edges, last, k, x1, w));
            lemma_exit_resid(l, start, edges, last, kl, w);
        }
        assert forall|q: State, w: Seq<char>| l1 < q <= thompson(rc, x1, e1, l1).1 implies #[trigger] r(q, w) == resid(rc, x1, e1, l1, k, q, w) by {
            assert(r(q, w) == resid(t, start, edges, last, k, q, w));
        }
        lemma_fragment_edges(rc, x1, e1, l1, k, r);
        lemma_thompson_prefix(rc, x1, e1, l1);
        let e = thompson(t, start, edges, last).0;
        assert forall|i: int| edges.len() <= i < e.len() implies edge_ok(r, #[trigger] e[i]) by {
            if i < e1.len() {
                assert(e[i] == e1[i]);
            }
        }
    }
}

proof fn lemma_or_edges(
    t: LexTree,
    start: State,
    edges: Seq<Edge>,
    last: State,
    k: spec_fn(Seq<char>) -> bool,
    r: spec_fn(State, Seq<char>) -> bool,
)
    requires
        t matches LexTree::Binary { value: BinaryOperator::Or, .. },
        resid_fits(t, start, edges, last, k, r),
    ensures
        forall|i: int| edges.len() <= i < thompson(t, start, edges, last).0.len() ==> edge_ok(r, #[trigger] thompson(t, start, edges, last).0[i]),
    decreases t, 0nat,
{
    if let LexTree::Binary { left_child, right_child, .. } = t {
        let l = *left_child;
        let rc = *right_child;
        let top = (last + 1) as State;
        let ws = with_state(edges, top);
        lemma_thompson_bounds(l, top, ws, top);
        let (e1, l1, x1) = thompson(l, top, ws, top);
        let bottom = (l1 + 1) as State;
        let ws2 = with_state(e1, bottom);
        assert(edges_within(ws2, bottom));
        lemma_thompson_bounds(rc, bottom, ws2, bottom);
        let (e2, l2, x2) = thompson(rc, bottom, ws2, bottom);
        let end = (l2 + 1) as State;
        assert forall|w: Seq<char>| #[trigger] after(l, k, w) implies r(top, w) by {
            assert(r(top, w) == resid(t, start, edges, last, k, top, w));
        }
        assert forall|q: State, w: Seq<char>| top < q <= l1 implies #[trigger] r(q, w) == resid(l, top, ws, top, k, q, w) by {
            assert(r(q, w) == resid(t, start, edges, last, k, q, w));
        }
        lemma_fragment_edges(l, top, ws, top, k, r);
        lemma_thompson_prefix(l, top, ws, top);
        assert forall|w: Seq<char>| #[trigger] after(rc, k, w) implies r(bottom, w) by {
            assert(r(bottom, w) == resid(t, start, edges, last, k, bottom, w));
        }
        assert forall|q: State, w: Seq<char>| bottom < q <= l2 implies #[trigger] r(q, w) == resid(rc, bottom, ws2, bottom, k, q, w) by {
            assert(r(q, w) == resid(t, start, edges, last, k, q, w));
        }
        lemma_fragment_edges(rc, bottom, ws2, bottom, k, r);
        lemma_thompson_prefix(rc, bottom, ws2, bottom);
        assert forall|w: Seq<char>| #[trigger] r(top, w) implies r(start, w) by {
            assert(r(top, w) == resid(t, start, edges, last, k, top, w));
            let i = choose|i: int| 0 <= i <= w.len() && in_language(l, w.take(i)) && k(w.skip(i));
            assert(after(t, k, w));
        }
        assert forall|w: Seq<char>| #[trigger] r(bottom, w) implies r(start, w) by {
            assert(r(bottom, w) == resid(t, start, edges, last, k, bottom, w));
            let i = choose|i: int| 0 <= i <= w.len() && in_language(rc, w.take(i)) && k(w.skip(i));
            assert(after(t, k, w));
        }
        assert forall|w: Seq<char>| #[trigger] r(end, w) implies r(x1, w) && r(x2, w) by {
            assert(r(end, w) == resid(t, start, edges, last, k, end, w));
            assert(r(x1, w) == resid(t, start, edges, last, k, x1, w));
            assert(r(x2, w) == resid(t, start, edges, last, k, x2, w));
            lemma_exit_resid(l, top, ws, top, k, w);
            lemma_exit_resid(rc, bottom, ws2, bottom, k, w);
        }
        let e = thompson(t, start, edges, last).0;
        assert forall|i: int| edges.len() <= i < e.len() implies edge_ok(r, #[trigger] e[i]) by {
            if i < e1.len() {
                assert(e[i] == e1[i]);
                if i == edges.len() {
                    assert(e1[i] == ws[i]);
                }
            } else if i < e2.len() {
                assert(e[i] == e2[i]);
                if i == e1.len() {
                    assert(e2[i] == ws2[i]);
                }
            }
        }
    }
}

proof fn lemma_loop_edges(
    t: LexTree,
    start: State,
    edges: Seq<Edge>,
    last: State,
    k: spec_fn(Seq<char>) -> bool,
    r: spec_fn(State, Seq<char>) -> bool,
)
    requires
        t matches LexTree::Unary { value, .. } && value != UnaryOperator::Maybe,
        resid_fits(t, start, edges, last, k, r),
    ensures
        forall|i: int| edges.len() <= i < thompson(t, start, edges, last).0.len() ==> edge_ok(r, #[trigger] thompson(t, start, edges, last).0[i]),
    decreases t, 0nat,
{
    if let LexTree::Unary { value, child } = t {
        let c = *child;
        let ns = (last + 1) as State;
        let ws = with_state(edges, ns);
        lemma_thompson_bounds(c, ns, ws, ns);
        let (e1, l1, x1) = thompson(c, ns, ws, ns);
        let end = (l1 + 1) as State;
        let kc = |v: Seq<char>| after(star_of(*child), k, v);
        assert forall|w: Seq<char>| #[trigger] after(c, kc, w) implies r(ns, w) by {
            assert(r(ns, w) == resid(t, start, edges, last, k, ns, w));
        }
        assert forall|q: State, w: Seq<char>| ns < q <= l1 implies #[trigger] r(q, w) == resid(c, ns, ws, ns, kc, q, w) by {
            assert(r(q, w) == resid(t, start, edges, last, k, q, w));
        }
        lemma_fragment_edges(c, ns, ws, ns, kc, r);
        lemma_thompson_prefix(c, ns, ws, ns);
        assert forall|w: Seq<char>| #[trigger] r(ns, w) implies r(start, w) && r(x1, w) by {
            assert(r(ns, w) == resid(t, start, edges, last, k, ns, w));
            assert(r(x1, w) == resid(t, start, edges, last, k, x1, w));
            lemma_exit_resid(c, ns, ws, ns, kc, w);
            lemma_star_absorbs(c, k, w);
            if value == UnaryOperator::Kleene {
                assert(star_of(c) == t);
            } else {
                lemma_cat_many(c, k, w);
            }
        }
        assert forall|w: Seq<char>| #[trigger] r(end, w) implies r(x1, w) && (value == UnaryOperator::Kleene ==> r(start, w)) by {
            assert(r(end, w) == resid(t, start, edges, last, k, end, w));
            assert(r(x1, w) == resid(t, start, edges, last, k, x1, w));
            lemma_exit_resid(c, ns, ws, ns, kc, w);
            assert(w.take(0) =~= Seq::<char>::empty());
            assert(w.skip(0) =~= w);
            assert(in_language(star_of(c), w.take(0)));
            assert(after(star_of(c), k, w));
            if value == UnaryOperator::Kleene {
                assert(star_of(c) == t);
            }
        }
        let e = thompson(t, start, edges, last).0;
        assert forall|i: int| edges.len() <= i < e.len() implies edge_ok(r, #[trigger] e[i]) by {
            if i < e1.len() {
                assert(e[i] == e1[i]);
                if i == edges.len() {
                    assert(e1[i] == ws[i]);
                }
            }
        }
    }
}

/// One repetition followed by a star, then the continuation, is a
/// one-or-more repetition then the continuation.
proof fn lemma_cat_many(c: LexTree, k: spec_fn(Seq<char>) -> bool, w: Seq<char>)
    requires
        after(c, |v: Seq<char>| after(star_of(c), k, v), w),
    ensures
        after(LexTree::Unary { value: UnaryOperator::Many, child: Box::new(c) }, k, w),
{
    let m = LexTree::Unary { value: UnaryOperator::Many, child: Box::new(c) };
    let kc = |v: Seq<char>| after(star_of(c), k, v);
    let i = choose|i: int| 0 <= i <= w.len() && in_language(c, w.take(i)) && kc(w.skip(i));
    let rest = w.skip(i);
    let j = choose|j: int| 0 <= j <= rest.len() && in_language(star_of(c), rest.take(j)) && k(rest.skip(j));
    let uv = w.take(i + j);
    assert(uv.take(i) =~= w.take(i));
    assert(uv.skip(i) =~= rest.take(j));
    assert(w.skip(i + j) =~= rest.skip(j));
    if uv.len() == 0 {
        assert(uv =~= w.take(i));
    } else if i == 0 {
        assert(uv =~= rest.take(j));
        lemma_star_to_many(c, uv);
    } else if j == 0 {
        assert(uv.take(i) =~= uv);
        assert(in_language(m, uv));
    } else {
        lemma_star_to_many(c, rest.take(j));
        assert(in_language(m, uv));
    }
    assert(in_language(m, uv));
}

proof fn lemma_eps_path_resid(g: Seq<Edge>, r: spec_fn(State, Seq<char>) -> bool, p: State, q: State, n: nat, v: Seq<char>)
    requires
        forall|i: int| 0 <= i < g.len() ==> edge_ok(r, #[trigger] g[i]),
        eps_path(g, p, q, n),
        r(q, v),
    ensures
        r(p, v),
    decreases n,
{
    if n > 0 {
        let m = choose|m: State| eps_path(g, p, m, (n - 1) as nat) && g.contains((m, Symbol::Epsilon, q));
        let i = choose|i: int| 0 <= i < g.len() && g[i] == (m, Symbol::Epsilon, q);
        assert(edge_ok(r, g[i]));
        assert(edge_fits(r, m, Symbol::Epsilon, q));
        assert(forall|x: Seq<char>| #[trigger] r(q, x) ==> r(m, x));
        assert(r(m, v));
        lemma_eps_path_resid(g, r, p, m, (n - 1) as nat, v);
    }
}

/// Reading `w` along a path and then anything left at its end is
/// something left at its start.
proof fn lemma_path_resid(g: Seq<Edge>, r: spec_fn(State, Seq<char>) -> bool, p: State, w: Seq<char>, q: State, v: Seq<char>)
    requires
        forall|i: int| 0 <= i < g.len() ==> edge_ok(r, #[trigger] g[i]),
        word_path(g, p, w, q),
        r(q, v),
    ensures
        r(p, w + v),
    decreases w.len(),
{
    if w.len() == 0 {
        let n = choose|n: nat| eps_path(g, p, q, n);
        lemma_eps_path_resid(g, r, p, q, n, v);
        assert(w + v =~= v);
    } else {
        let (m1, m2) = choose|m1: State, m2: State|
            word_path(g, p, w.drop_last(), m1) && g.contains((m1, Symbol::Character(w.last()), m2)) && eps_reach(g, m2, q);
        let n = choose|n: nat| eps_path(g, m2, q, n);
        lemma_eps_path_resid(g, r, m2, q, n, v);
        let i = choose|i: int| 0 <= i < g.len() && g[i] == (m1, Symbol::Character(w.last()), m2);
        assert(edge_ok(r, g[i]));
        let c = w.last();
        assert(edge_fits(r, m1, Symbol::Character(c), m2));
        assert(forall|x: Seq<char>| #[trigger] r(m2, x) ==> r(m1, seq![c] + x));
        assert(r(m1, seq![w.last()] + v));
        lemma_path_resid(g, r, p, w.drop_last(), m1, seq![w.last()] + v);
        assert(w.drop_last() + (seq![w.last()] + v) =~= w + v);
    }
}

/// The states epsilon-reachable from `s` form a closed set holding `s`.
proof fn lemma_closure_reached(nfa: NFAutomata, s: Set<State>, q: State)
    requires
        nfa.closure(s).contains(q),
    ensures
        exists|p: State| s.contains(p) && eps_reach(nfa.edges(), p, q),
{
    let reached = Set::new(|x: State| exists|p: State| s.contains(p) && eps_reach(nfa.edges(), p, x));
    assert forall|x: State| s.contains(x) implies reached.contains(x) by {
        assert(eps_path(nfa.edges(), x, x, 0));
    }
    assert forall|a: State, b: State| reached.contains(a) && #[trigger] nfa.has_edge(a, Symbol::Epsilon, b) implies reached.contains(b) by {
        let p = choose|p: State| s.contains(p) && eps_reach(nfa.edges(), p, a);
        let n = choose|n: nat| eps_path(nfa.edges(), p, a, n);
        let i = choose|i: int| 0 <= i < nfa.edges().len() && nfa.edges()[i] == (a, Symbol::Epsilon, b);
        assert(nfa.edges().contains((a, Symbol::Epsilon, b)));
        assert(eps_path(nfa.edges(), p, b, n + 1));
    }
    assert(nfa.eps_closed(reached));
    assert(s.subset_of(reached));
}

/// A state the NFA can be in after `w` ends a path from state 0 reading `w`.
proof fn lemma_run_path(nfa: NFAutomata, w: Seq<char>, q: State)
    requires
        nfa.run(w).contains(q),
    ensures
        word_path(nfa.edges(), 0, w, q),
    decreases w.len(),
{
    if w.len() == 0 {
        lemma_closure_reached(nfa, set![0usize], q);
    } else {
        let v = w.drop_last();
        let c = w.last();
        let post = nfa.post(nfa.run(v), Symbol::Character(c));
        lemma_closure_reached(nfa, post, q);
        let m2 = choose|p: State| post.contains(p) && eps_reach(nfa.edges(), p, q);
        let m1 = choose|p: State| nfa.run(v).contains(p) && #[trigger] nfa.has_edge(p, Symbol::Character(c), m2);
        lemma_run_path(nfa, v, m1);
        let i = choose|i: int| 0 <= i < nfa.edges().len() && nfa.edges()[i] == (m1, Symbol::Character(c), m2);
        assert(nfa.edges().contains((m1, Symbol::Character(c), m2)));
    }
}

/// The NFA of a tree accepts only words the tree matches.
pub proof fn lemma_nfa_only_language(t: LexTree, nfa: NFAutomata, w: Seq<char>)
    requires
        nfa.edges() == thompson(t, 0, seq![eps(0, 0)], 0).0,
        nfa.accepting() == thompson(t, 0, seq![eps(0, 0)], 0).2,
        new_states(t) < usize::MAX,
        nfa.accepts(w),
    ensures
        in_language(t, w),
{
    let e0 = seq![eps(0, 0)];
    let k = |v: Seq<char>| v.len() == 0;
    let r = |q: State, v: Seq<char>| if q == 0 { after(t, k, v) } else { resid(t, 0, e0, 0, k, q, v) };
    lemma_thompson_bounds(t, 0, e0, 0);
    assert(resid_fits(t, 0, e0, 0, k, r));
    lemma_fragment_edges(t, 0, e0, 0, k, r);
    lemma_thompson_prefix(t, 0, e0, 0);
    let g = nfa.edges();
    assert forall|i: int| 0 <= i < g.len() implies edge_ok(r, #[trigger] g[i]) by {
        if i == 0 {
            assert(g[0] == e0[0]);
        }
    }
    let x = nfa.accepting();
    lemma_exit_resid(t, 0, e0, 0, k, Seq::<char>::empty());
    assert(r(x, Seq::<char>::empty()));
    lemma_run_path(nfa, w, x);
    lemma_path_resid(g, r, 0, w, x, Seq::<char>::empty());
    assert(w + Seq::<char>::empty() =~= w);
    let i = choose|i: int| 0 <= i <= w.len() && in_language(t, w.take(i)) && k(w.skip(i));
    assert(w.take(i) =~= w);
}

} // verus!
