use vstd::prelude::*;
use crate::bitset::{
    empty_bitmap, index_of_bitmap, lemma_bit, lemma_distinct_bitmaps_bounded, none_set, pow2, set_of,
};
use crate::dfa::{deterministic, lemma_delta_of_unique, lemma_run_concat, lemma_run_of_extend, run_of, DFAutomata, Transition};
use crate::symbols::{BinaryOperator, State, Symbol, UnaryOperator};
use crate::err::{Failure, LexError};
use crate::language::{in_language, lemma_first_nonempty, lemma_position_automaton_matches, lemma_prefix_completes, lemma_step_nonempty};
use crate::nfa::{is_determinization, NFAutomata};
use crate::optimize::is_minimization;
use crate::tree::{lemma_parse_spec_size, parse_spec, tree_size, LexTree};

verus! {

/// The characters of a tree's leaves, left to right; the leaf of the `p`-th
/// one is position `p`.
pub open spec fn leaves(t: LexTree) -> Seq<char>
    decreases t,
{
    match t {
        LexTree::Leaf { value: Symbol::Character(c) } => seq![c],
        LexTree::Leaf { value: Symbol::Epsilon } => seq![],
        LexTree::Binary { left_child, right_child, .. } => leaves(*left_child) + leaves(*right_child),
        LexTree::Unary { child, .. } => leaves(*child),
    }
}

/// The tree matches the empty word.
pub open spec fn nullable(t: LexTree) -> bool
    decreases t,
{
    match t {
        LexTree::Leaf { value } => value == Symbol::Epsilon,
        LexTree::Binary { value: BinaryOperator::Concat, left_child, right_child } =>
            nullable(*left_child) && nullable(*right_child),
        LexTree::Binary { value: BinaryOperator::Or, left_child, right_child } =>
            nullable(*left_child) || nullable(*right_child),
        LexTree::Unary { value: UnaryOperator::Many, child } => nullable(*child),
        LexTree::Unary { .. } => true,
    }
}

/// Positions that can match the first character, for a tree whose first
/// position is `off`.
pub open spec fn firstpos(t: LexTree, off: nat) -> Set<usize>
    decreases t,
{
    match t {
        LexTree::Leaf { value: Symbol::Character(_) } => set![off as usize],
        LexTree::Leaf { value: Symbol::Epsilon } => Set::empty(),
        LexTree::Binary { value: BinaryOperator::Concat, left_child, right_child } => if nullable(*left_child) {
            firstpos(*left_child, off).union(firstpos(*right_child, off + leaves(*left_child).len()))
        } else {
            firstpos(*left_child, off)
        },
        LexTree::Binary { value: BinaryOperator::Or, left_child, right_child } =>
            firstpos(*left_child, off).union(firstpos(*right_child, off + leaves(*left_child).len())),
        LexTree::Unary { child, .. } => firstpos(*child, off),
    }
}

/// Positions that can match the last character.
pub open spec fn lastpos(t: LexTree, off: nat) -> Set<usize>
    decreases t,
{
    match t {
        LexTree::Leaf { value: Symbol::Character(_) } => set![off as usize],
        LexTree::Leaf { value: Symbol::Epsilon } => Set::empty(),
        LexTree::Binary { value: BinaryOperator::Concat, left_child, right_child } => if nullable(*right_child) {
            lastpos(*left_child, off).union(lastpos(*right_child, off + leaves(*left_child).len()))
        } else {
            lastpos(*right_child, off + leaves(*left_child).len())
        },
        LexTree::Binary { value: BinaryOperator::Or, left_child, right_child } =>
            lastpos(*left_child, off).union(lastpos(*right_child, off + leaves(*left_child).len())),
        LexTree::Unary { child, .. } => lastpos(*child, off),
    }
}

/// Position `q` can follow position `p` inside the tree.
pub open spec fn follows(t: LexTree, off: nat, p: usize, q: usize) -> bool
    decreases t,
{
    match t {
        LexTree::Leaf { .. } => false,
        LexTree::Binary { value: BinaryOperator::Concat, left_child, right_child } => {
            let mid = off + leaves(*left_child).len();
            follows(*left_child, off, p, q) || follows(*right_child, mid, p, q) || (lastpos(*left_child, off).contains(p)
                && firstpos(*right_child, mid).contains(q))
        },
        LexTree::Binary { value: BinaryOperator::Or, left_child, right_child } =>
            follows(*left_child, off, p, q) || follows(*right_child, off + leaves(*left_child).len(), p, q),
        LexTree::Unary { value: UnaryOperator::Maybe, child } => follows(*child, off, p, q),
        LexTree::Unary { child, .. } => follows(*child, off, p, q) || (lastpos(*child, off).contains(p)
            && firstpos(*child, off).contains(q)),
    }
}

/// A tree has at most one leaf per node.
pub proof fn lemma_leaves_bounded(t: LexTree)
    ensures
        leaves(t).len() <= tree_size(t),
    decreases t,
{
    match t {
        LexTree::Leaf { .. } => {},
        LexTree::Binary { left_child, right_child, .. } => {
            lemma_leaves_bounded(*left_child);
            lemma_leaves_bounded(*right_child);
        },
        LexTree::Unary { child, .. } => {
            lemma_leaves_bounded(*child);
        },
    }
}

/// Positions of a tree stay within its own range.
pub proof fn lemma_positions_in_range(t: LexTree, off: nat)
    requires
        off + leaves(t).len() <= usize::MAX,
    ensures
        forall|p: usize| #[trigger] firstpos(t, off).contains(p) ==> off <= p < off + leaves(t).len(),
        forall|p: usize| #[trigger] lastpos(t, off).contains(p) ==> off <= p < off + leaves(t).len(),
        forall|p: usize, q: usize| #[trigger] follows(t, off, p, q) ==> off <= p < off + leaves(t).len() && off <= q < off
            + leaves(t).len(),
    decreases t,
{
    match t {
        LexTree::Leaf { value: Symbol::Character(c) } => {
            assert(leaves(t) == seq![c]);
            assert((off as usize) as int == off);
            assert(firstpos(t, off) == set![off as usize]);
            assert(lastpos(t, off) == set![off as usize]);
            assert(leaves(t).len() == 1);
            assert forall|p: usize| #[trigger] firstpos(t, off).contains(p) implies off <= p < off + leaves(t).len() by {
                assert(p == off as usize);
            }
            assert forall|p: usize| #[trigger] lastpos(t, off).contains(p) implies off <= p < off + leaves(t).len() by {
                assert(p == off as usize);
            }
        },
        LexTree::Leaf { value: Symbol::Epsilon } => {},
        LexTree::Binary { left_child, right_child, .. } => {
            let l = *left_child;
            let r = *right_child;
            let mid = off + leaves(l).len();
            lemma_positions_in_range(l, off);
            lemma_positions_in_range(r, mid);
            assert(leaves(t).len() == leaves(l).len() + leaves(r).len());
            assert forall|p: usize| #[trigger] firstpos(t, off).contains(p) implies off <= p < off + leaves(t).len() by {
                assert(firstpos(l, off).contains(p) || firstpos(r, mid).contains(p));
            }
            assert forall|p: usize| #[trigger] lastpos(t, off).contains(p) implies off <= p < off + leaves(t).len() by {
                assert(lastpos(l, off).contains(p) || lastpos(r, mid).contains(p));
            }
            assert forall|p: usize, q: usize| #[trigger] follows(t, off, p, q) implies off <= p < off + leaves(t).len() && off <= q < off
                + leaves(t).len() by {
                if follows(l, off, p, q) {
                } else if follows(r, mid, p, q) {
                } else {
                    assert(lastpos(l, off).contains(p) && firstpos(r, mid).contains(q));
                }
            }
        },
        LexTree::Unary { child, .. } => {
            let c = *child;
            lemma_positions_in_range(c, off);
            assert(leaves(t) == leaves(c));
            assert forall|p: usize| #[trigger] firstpos(t, off).contains(p) implies off <= p < off + leaves(t).len() by {
                assert(firstpos(c, off).contains(p));
            }
            assert forall|p: usize| #[trigger] lastpos(t, off).contains(p) implies off <= p < off + leaves(t).len() by {
                assert(lastpos(c, off).contains(p));
            }
            assert forall|p: usize, q: usize| #[trigger] follows(t, off, p, q) implies off <= p < off + leaves(t).len() && off <= q < off
                + leaves(t).len() by {
                if !follows(c, off, p, q) {
                    assert(lastpos(c, off).contains(p) && firstpos(c, off).contains(q));
                }
            }
        },
    }
}

/// The nullability and first and last positions of a subtree, as bitmaps
/// over all positions.
struct NodeValues {
    first_positions: Vec<bool>,
    last_positions: Vec<bool>,
    nullable: bool,
}

/// The direct construction of a DFA from a tree in progress: the
/// follow-position table and the character of each position numbered so
/// far.
pub struct DFABuilder {
    follow_positions: Vec<Vec<bool>>,
    position_chars: Vec<char>,
}

/// The marks of `a` and `b` together.
fn union_of(a: &Vec<bool>, b: &Vec<bool>) -> (r: Vec<bool>)
    requires
        a@.len() == b@.len(),
    ensures
        r@.len() == a@.len(),
        forall|i: int| 0 <= i < b@.len() ==> r@[i] == (a@[i] || b@[i]),
        set_of(r@) == set_of(a@).union(set_of(b@)),
{
    let mut r: Vec<bool> = Vec::new();
    let mut i: usize = 0;
    while i < b.len()
        invariant
            a@.len() == b@.len(),
            r@.len() == i,
            i <= b@.len(),
            forall|k: int| 0 <= k < i ==> r@[k] == (a@[k] || b@[k]),
        decreases b@.len() - i,
    {
        r.push(a[i] || b[i]);
        i += 1;
    }
    assert(set_of(r@) =~= set_of(a@).union(set_of(b@)));
    r
}

/// The number of character leaves.
fn count_positions(node: &LexTree) -> (r: usize)
    requires
        leaves(*node).len() <= usize::MAX,
    ensures
        r == leaves(*node).len(),
    decreases node,
{
    match node {
        LexTree::Leaf { value: Symbol::Character(_) } => 1,
        LexTree::Leaf { value: Symbol::Epsilon } => 0,
        LexTree::Binary { left_child, right_child, .. } => count_positions(left_child) + count_positions(right_child),
        LexTree::Unary { child, .. } => count_positions(child),
    }
}

impl DFABuilder {
    pub closed spec fn follow(&self) -> Seq<Seq<bool>> {
        self.follow_positions@.map_values(|v: Vec<bool>| v@)
    }

    pub closed spec fn chars(&self) -> Seq<char> {
        self.position_chars@
    }

    /// The table has `width` rows of `width` entries.
    pub open spec fn shaped(&self, width: nat) -> bool {
        &&& self.follow().len() == width
        &&& forall|p: int| 0 <= p < width ==> (#[trigger] self.follow()[p]).len() == width
    }

    /// Adds `to` to the follow positions of every position in `from`.
    fn connect_positions(&mut self, from: &Vec<bool>, to: &Vec<bool>, Ghost(width): Ghost<nat>)
        requires
            old(self).shaped(width),
            from@.len() == width,
            to@.len() == width,
        ensures
            final(self).shaped(width),
            final(self).chars() == old(self).chars(),
            forall|p: int, q: int| 0 <= p < width && 0 <= q < width ==> (#[trigger] final(self).follow()[p][q]) == (
            old(self).follow()[p][q] || (from@[p] && to@[q])),
    {
        let ghost f0 = self.follow();
        let mut p: usize = 0;
        while p < from.len()
            invariant
                self.shaped(width),
                from@.len() == width,
                to@.len() == width,
                self.chars() == old(self).chars(),
                f0 == old(self).follow(),
                f0.len() == width,
                forall|x: int| 0 <= x < width ==> (#[trigger] f0[x]).len() == width,
                p <= width,
                forall|x: int, q: int| 0 <= x < p && 0 <= q < width ==> (#[trigger] self.follow()[x][q]) == (
                f0[x][q] || (from@[x] && to@[q])),
                forall|x: int| p <= x < width ==> (#[trigger] self.follow()[x]) == f0[x],
            decreases width - p,
        {
            if from[p] {
                let ghost before = self.follow();
                let ghost before_rows = self.follow_positions@;
                assert(self.follow()[p as int] == self.follow_positions@[p as int]@);
                let row = union_of(&self.follow_positions[p], to);
                self.follow_positions.set(p, row);
                proof {
                    assert(self.follow_positions@ == before_rows.update(p as int, row));
                    assert forall|x: int| 0 <= x < width && x != p implies #[trigger] self.follow()[x] == before[x] by {
                        assert(self.follow_positions@[x] == before_rows[x]);
                    }
                    assert(self.follow()[p as int] == row@);
                    assert forall|x: int, q: int| 0 <= x < p + 1 && 0 <= q < width implies (#[trigger] self.follow()[x][q]) == (
                        f0[x][q] || (from@[x] && to@[q])) by {
                        if x == p {
                            assert(before[x] == f0[x]);
                        }
                    }
                }
            }
            p += 1;
        }
    }
}

impl DFABuilder {
    /// Numbers the character leaves of `node` from the next free position
    /// and records its follow positions; returns its nullability and first
    /// and last positions.
    fn initialize_values(&mut self, node: &LexTree, Ghost(width): Ghost<nat>) -> (r: NodeValues)
        requires
            old(self).shaped(width),
            width <= usize::MAX,
            old(self).chars().len() + leaves(*node).len() < width,
        ensures
            final(self).shaped(width),
            final(self).chars() == old(self).chars() + leaves(*node),
            r.first_positions@.len() == width,
            r.last_positions@.len() == width,
            set_of(r.first_positions@) == firstpos(*node, old(self).chars().len()),
            set_of(r.last_positions@) == lastpos(*node, old(self).chars().len()),
            r.nullable == nullable(*node),
            forall|p: int, q: int| 0 <= p < width && 0 <= q < width ==> (#[trigger] final(self).follow()[p][q]) == (
            old(self).follow()[p][q] || follows(*node, old(self).chars().len(), p as usize, q as usize)),
        decreases node,
    {
        let ghost off = self.chars().len();
        let ghost f0 = self.follow();
        let w = self.follow_positions.len();
        proof { lemma_positions_in_range(*node, off); }
        match node {
            LexTree::Leaf { value: Symbol::Epsilon } => {
                NodeValues { first_positions: empty_bitmap(w), last_positions: empty_bitmap(w), nullable: true }
            },
            LexTree::Leaf { value: Symbol::Character(x) } => {
                let position = self.position_chars.len();
                self.position_chars.push(*x);
                let mut first_positions = empty_bitmap(w);
                first_positions.set(position, true);
                let mut last_positions = empty_bitmap(w);
                last_positions.set(position, true);
                proof {
                    assert(set_of(first_positions@) =~= set![position]);
                    assert(set_of(last_positions@) =~= set![position]);
                    assert(self.chars() =~= old(self).chars() + leaves(*node));
                }
                NodeValues { first_positions, last_positions, nullable: false }
            },
            LexTree::Unary { value, child } => {
                let v = self.initialize_values(child, Ghost(width));
                let ghost f1 = self.follow();
                match value {
                    UnaryOperator::Maybe => {
                        NodeValues { nullable: true, ..v }
                    },
                    _ => {
                        self.connect_positions(&v.last_positions, &v.first_positions, Ghost(width));
                        proof {
                            assert forall|p: int, q: int| 0 <= p < width && 0 <= q < width implies (#[trigger] self.follow()[p][q]) == (
                                f0[p][q] || follows(*node, off, p as usize, q as usize)) by {
                                lemma_bit(v.last_positions@, p);
                                lemma_bit(v.first_positions@, q);
                                assert(f1[p][q] == (f0[p][q] || follows(**child, off, p as usize, q as usize)));
                            }
                        }
                        if let UnaryOperator::Kleene = value {
                            NodeValues { nullable: true, ..v }
                        } else {
                            v
                        }
                    },
                }
            },
            LexTree::Binary { value, left_child, right_child } => {
                let left = self.initialize_values(left_child, Ghost(width));
                let ghost f1 = self.follow();
                let ghost mid = self.chars().len();
                proof { lemma_positions_in_range(**right_child, mid); }
                let right = self.initialize_values(right_child, Ghost(width));
                let ghost f2 = self.follow();
                proof {
                    assert(self.chars() =~= old(self).chars() + leaves(*node));
                    assert(mid == off + leaves(**left_child).len());
                }
                match value {
                    BinaryOperator::Concat => {
                        self.connect_positions(&left.last_positions, &right.first_positions, Ghost(width));
                        proof {
                            assert forall|p: int, q: int| 0 <= p < width && 0 <= q < width implies (#[trigger] self.follow()[p][q]) == (
                                f0[p][q] || follows(*node, off, p as usize, q as usize)) by {
                                lemma_bit(left.last_positions@, p);
                                lemma_bit(right.first_positions@, q);
                                assert(f1[p][q] == (f0[p][q] || follows(**left_child, off, p as usize, q as usize)));
                                assert(f2[p][q] == (f1[p][q] || follows(**right_child, mid, p as usize, q as usize)));
                            }
                        }
                        let first_positions = if left.nullable {
                            union_of(&left.first_positions, &right.first_positions)
                        } else {
                            left.first_positions
                        };
                        let last_positions = if right.nullable {
                            union_of(&left.last_positions, &right.last_positions)
                        } else {
                            right.last_positions
                        };
                        NodeValues { first_positions, last_positions, nullable: left.nullable && right.nullable }
                    },
                    BinaryOperator::Or => {
                        proof {
                            assert forall|p: int, q: int| 0 <= p < width && 0 <= q < width implies (#[trigger] self.follow()[p][q]) == (
                                f0[p][q] || follows(*node, off, p as usize, q as usize)) by {
                                assert(f1[p][q] == (f0[p][q] || follows(**left_child, off, p as usize, q as usize)));
                            }
                        }
                        NodeValues {
                            first_positions: union_of(&left.first_positions, &right.first_positions),
                            last_positions: union_of(&left.last_positions, &right.last_positions),
                            nullable: left.nullable || right.nullable,
                        }
                    },
                }
            },
        }
    }
}

/// Position `q` follows position `p` in the whole tree; the position after
/// the last leaf is the end marker, which follows every last position.
pub open spec fn follow_rel(t: LexTree, p: usize, q: usize) -> bool {
    follows(t, 0, p, q) || (lastpos(t, 0).contains(p) && q == leaves(t).len())
}

/// The first state of the position automaton: the first positions, and the
/// end marker when the tree matches the empty word.
pub open spec fn start_positions(t: LexTree) -> Set<usize> {
    if nullable(t) {
        firstpos(t, 0).insert(leaves(t).len() as usize)
    } else {
        firstpos(t, 0)
    }
}

/// The positions that follow a position of `s` whose character is `c`.
pub open spec fn pos_step(t: LexTree, s: Set<usize>, c: char) -> Set<usize> {
    Set::new(
        |q: usize|
            exists|p: usize| #[trigger] s.contains(p) && p < leaves(t).len() && leaves(t)[p as int] == c && follow_rel(t, p, q),
    )
}

/// The positions reached after reading `w`.
pub open spec fn pos_run(t: LexTree, w: Seq<char>) -> Set<usize>
    decreases w.len(),
{
    if w.len() == 0 {
        start_positions(t)
    } else {
        pos_step(t, pos_run(t, w.drop_last()), w.last())
    }
}

/// The position automaton of `t` accepts `w`: reading `w` can reach the
/// end marker.
pub open spec fn pos_accepts(t: LexTree, w: Seq<char>) -> bool {
    pos_run(t, w).contains(leaves(t).len() as usize)
}

/// `dfa` follows the position automaton of `t`: its state `k` stands for
/// the positions marked in `known[k]`.
pub open spec fn simulates_positions(t: LexTree, dfa: DFAutomata, known: Seq<Seq<bool>>) -> bool {
    &&& dfa.well_formed()
    &&& known.len() == dfa.last() + 1
    &&& set_of(known[0]) == start_positions(t)
    &&& forall|k: State| k <= dfa.last() ==> dfa.accepting_map()[k as int] == #[trigger] set_of(known[k as int]).contains(leaves(t).len() as usize)
    &&& forall|k: State, c: char| k <= dfa.last() ==> match #[trigger] dfa.delta(k, c) {
        Some(j) => j <= dfa.last() && set_of(known[j as int]) == pos_step(t, set_of(known[k as int]), c),
        None => pos_step(t, set_of(known[k as int]), c) == Set::<usize>::empty(),
    }
}

proof fn lemma_position_simulation(t: LexTree, dfa: DFAutomata, known: Seq<Seq<bool>>, w: Seq<char>)
    requires
        simulates_positions(t, dfa, known),
    ensures
        match dfa.run(w) {
            Some(k) => k <= dfa.last() && set_of(known[k as int]) == pos_run(t, w),
            None => pos_run(t, w) == Set::<usize>::empty(),
        },
    decreases w.len(),
{
    if w.len() > 0 {
        lemma_position_simulation(t, dfa, known, w.drop_last());
        match dfa.run(w.drop_last()) {
            Some(k) => {
                assert(match dfa.delta(k, w.last()) {
                    Some(j) => j <= dfa.last() && set_of(known[j as int]) == pos_step(t, set_of(known[k as int]), w.last()),
                    None => pos_step(t, set_of(known[k as int]), w.last()) == Set::<usize>::empty(),
                });
            },
            None => {
                assert(pos_step(t, Set::<usize>::empty(), w.last()) =~= Set::<usize>::empty());
            },
        }
    }
}

/// The characters of `v`, each once.
pub(crate) fn distinct_chars(v: &Vec<char>) -> (r: Vec<char>)
    ensures
        r@.no_duplicates(),
        forall|c: char| r@.contains(c) <==> v@.contains(c),
{
    let mut r: Vec<char> = Vec::new();
    let mut i: usize = 0;
    while i < v.len()
        invariant
            i <= v@.len(),
            r@.no_duplicates(),
            forall|c: char| r@.contains(c) <==> v@.subrange(0, i as int).contains(c),
        decreases v@.len() - i,
    {
        let c = v[i];
        let ghost r0 = r@;
        assert(forall|x: char| #[trigger] r0.contains(x) <==> v@.subrange(0, i as int).contains(x));
        let mut found = false;
        let mut j: usize = 0;
        while j < r.len()
            invariant
                r@ == r0,
                j <= r@.len(),
                found == exists|k: int| 0 <= k < j && r@[k] == c,
            decreases r@.len() - j,
        {
            if r[j] == c {
                found = true;
            }
            j += 1;
        }
        if !found {
            r.push(c);
            proof {
                assert forall|a: int, b: int| 0 <= a < r@.len() && 0 <= b < r@.len() && a != b implies r@[a] != r@[b] by {
                    if a == r0.len() {
                        assert(r0[b] != c);
                    } else if b == r0.len() {
                        assert(r0[a] != c);
                    }
                }
            }
        }
        assert(found ==> r@ == r0);
        assert(!found ==> r@ == r0.push(c));
        proof {
            assert(v@.subrange(0, i + 1) =~= v@.subrange(0, i as int).push(c));
            assert forall|x: char| r@.contains(x) <==> v@.subrange(0, i + 1).contains(x) by {
                let s0 = v@.subrange(0, i as int);
                if r@.contains(x) {
                    let k = choose|k: int| 0 <= k < r@.len() && r@[k] == x;
                    if k < r0.len() {
                        assert(r0.contains(x));
                        let m = choose|m: int| 0 <= m < s0.len() && s0[m] == x;
                        assert(v@.subrange(0, i + 1)[m] == x);
                    } else {
                        assert(v@.subrange(0, i + 1)[i as int] == x);
                    }
                }
                let s1 = v@.subrange(0, i + 1);
                if s1.contains(x) {
                    let m = choose|m: int| 0 <= m < s1.len() && s1[m] == x;
                    if m < i {
                        assert(s0[m] == x);
                        assert(s0.contains(x));
                        assert(r0.contains(x));
                        let k = choose|k: int| 0 <= k < r0.len() && r0[k] == x;
                        assert(r@[k] == x);
                    } else if found {
                        let k = choose|k: int| 0 <= k < j && r@[k] == c;
                        assert(r@[k] == x);
                    } else {
                        assert(r@[r0.len() as int] == x);
                    }
                }
            }
        }
        i += 1;
    }
    assert(v@.subrange(0, v@.len() as int) =~= v@);
    r
}

impl DFABuilder {
    /// The positions reached from the marked ones on `c`, or `None` when no
    /// marked position carries `c`.
    fn step_on(&self, state: &Vec<bool>, c: char, Ghost(t): Ghost<LexTree>) -> (r: Option<Vec<bool>>)
        requires
            self.shaped(state@.len()),
            self.chars() == leaves(t),
            state@.len() == leaves(t).len() + 1,
            state@.len() <= usize::MAX,
            forall|p: int, q: int| 0 <= p < state@.len() && 0 <= q < state@.len() ==> (#[trigger] self.follow()[p][q])
                == follow_rel(t, p as usize, q as usize),
        ensures
            match r {
                Some(next) => next@.len() == state@.len() && set_of(next@) == pos_step(t, set_of(state@), c)
                    && exists|a: usize| #[trigger] set_of(state@).contains(a) && a < leaves(t).len() && leaves(t)[a as int] == c,
                None => pos_step(t, set_of(state@), c) == Set::<usize>::empty(),
            },
    {
        let width = state.len();
        let n = self.position_chars.len();
        let mut any = false;
        let mut next = empty_bitmap(width);
        let mut p: usize = 0;
        proof { lemma_positions_in_range(t, 0); }
        while p < n
            invariant
                n == leaves(t).len(),
                width == state@.len(),
                n + 1 == width,
                self.shaped(width as nat),
                self.chars() == leaves(t),
                width <= usize::MAX,
                forall|a: int, q: int| 0 <= a < width && 0 <= q < width ==> (#[trigger] self.follow()[a][q])
                    == follow_rel(t, a as usize, q as usize),
                p <= n,
                next@.len() == width,
                any == exists|a: usize| a < p && #[trigger] set_of(state@).contains(a) && leaves(t)[a as int] == c,
                forall|q: usize| set_of(next@).contains(q) <==> exists|a: usize|
                    a < p && #[trigger] set_of(state@).contains(a) && leaves(t)[a as int] == c && follow_rel(t, a, q),
            decreases n - p,
        {
            if state[p] && self.position_chars[p] == c {
                any = true;
                assert(self.follow()[p as int] == self.follow_positions@[p as int]@);
                let ghost before = next@;
                next = union_of(&next, &self.follow_positions[p]);
                proof {
                    lemma_bit(state@, p as int);
                    assert forall|q: usize| set_of(next@).contains(q) <==> exists|a: usize|
                        a < p + 1 && #[trigger] set_of(state@).contains(a) && leaves(t)[a as int] == c && follow_rel(t, a, q) by {
                        if set_of(self.follow()[p as int]).contains(q) {
                            lemma_bit(self.follow()[p as int], q as int);
                        }
                        if follow_rel(t, p, q) {
                            lemma_positions_in_range(t, 0);
                            assert(q < width);
                            lemma_bit(self.follow()[p as int], q as int);
                        }
                    }
                }
            } else {
                proof {
                    lemma_bit(state@, p as int);
                }
            }
            p += 1;
        }
        if !any {
            assert(pos_step(t, set_of(state@), c) =~= Set::<usize>::empty());
            return None;
        }
        assert(set_of(next@) =~= pos_step(t, set_of(state@), c));
        Some(next)
    }

    /// The DFA of a syntax tree by the direct construction: each state is a
    /// set of leaf positions, the first one the start positions.
    #[verifier::spinoff_prover]
    #[verifier::rlimit(80)]
    pub fn build(node: &LexTree) -> (r: DFAutomata)
        requires
            leaves(*node).len() + 2 <= usize::MAX,
        ensures
            r.well_formed(),
            forall|w: Seq<char>| r.accepts(w) == pos_accepts(*node, w),
            forall|w: Seq<char>| #[trigger] r.accepts(w) == in_language(*node, w),
            forall|i: int| 0 <= i < r.trans().len() ==> leaves(*node).contains(#[trigger] r.trans()[i].1),
            forall|k: State| k <= r.last() ==> #[trigger] r.reachable(k),
            forall|k: State| k <= r.last() ==> #[trigger] r.live(k),
    {
        let positions = count_positions(node);
        let width = positions + 1;
        let mut rows: Vec<Vec<bool>> = Vec::new();
        let mut i: usize = 0;
        while i < width
            invariant
                i <= width,
                rows@.len() == i,
                forall|p: int| 0 <= p < i ==> (#[trigger] rows@[p])@.len() == width && forall|q: int| 0 <= q < width ==> !rows@[p]@[q],
            decreases width - i,
        {
            rows.push(empty_bitmap(width));
            i += 1;
        }
        let mut builder = DFABuilder { follow_positions: rows, position_chars: Vec::new() };
        let values = builder.initialize_values(node, Ghost(width as nat));
        let mut marker = empty_bitmap(width);
        marker.set(positions, true);
        let ghost f1 = builder.follow();
        builder.connect_positions(&values.last_positions, &marker, Ghost(width as nat));
        let mut start = values.first_positions;
        if values.nullable {
            start.set(positions, true);
        }
        proof {
            assert(builder.chars() =~= leaves(*node));
            assert forall|p: int, q: int| 0 <= p < width && 0 <= q < width implies (#[trigger] builder.follow()[p][q])
                == follow_rel(*node, p as usize, q as usize) by {
                lemma_bit(values.last_positions@, p);
            }
            if values.nullable {
                assert(set_of(start@) =~= start_positions(*node));
            }
            assert(set_of(start@) == start_positions(*node));
            lemma_positions_in_range(*node, 0);
            if nullable(*node) {
                assert(start_positions(*node).contains(positions));
            } else {
                lemma_first_nonempty(*node, 0);
                let p = choose|p: usize| #[trigger] firstpos(*node, 0).contains(p);
                assert(start_positions(*node).contains(p));
            }
            assert(set_of(start@) != Set::<usize>::empty());
        }
        let alphabet = distinct_chars(&builder.position_chars);
        let mut known: Vec<Vec<bool>> = Vec::new();
        known.push(start);
        let mut transitions: Vec<Transition> = Vec::new();
        let mut accepting: Vec<bool> = Vec::new();
        let mut current: usize = 0;
        let ghost t = *node;
        let ghost mut words: Seq<Seq<char>> = seq![Seq::<char>::empty()];
        proof {
            assert(known@.map_values(|v: Vec<bool>| v@) =~= seq![known@[0]@]);
            lemma_distinct_bitmaps_bounded(known@.map_values(|v: Vec<bool>| v@), width as nat);
        }
        while current < known.len()
            invariant
                t == *node,
                width == positions + 1,
                positions == leaves(t).len(),
                width <= usize::MAX,
                builder.shaped(width as nat),
                builder.chars() == leaves(t),
                forall|p: int, q: int| 0 <= p < width && 0 <= q < width ==> (#[trigger] builder.follow()[p][q])
                    == follow_rel(t, p as usize, q as usize),
                forall|c: char| alphabet@.contains(c) <==> leaves(t).contains(c),
                alphabet@.no_duplicates(),
                1 <= known@.len() <= pow2(width as nat),
                current <= known@.len(),
                forall|k: int| 0 <= k < known@.len() ==> (#[trigger] known@[k])@.len() == width,
                known@.map_values(|v: Vec<bool>| v@).no_duplicates(),
                set_of(known@[0]@) == start_positions(t),
                words.len() == known@.len(),
                forall|k: int| 0 <= k < known@.len() ==> set_of(#[trigger] known@[k]@) != Set::<usize>::empty(),
                forall|k: int| 0 <= k < known@.len() ==> run_of(transitions@, #[trigger] words[k]) == Some(k as State),
                accepting@.len() == current,
                forall|k: int| 0 <= k < current ==> #[trigger] accepting@[k] == known@[k]@[positions as int],
                deterministic(transitions@),
                forall|i: int| 0 <= i < transitions@.len() ==> alphabet@.contains(#[trigger] transitions@[i].1),
                forall|i: int| 0 <= i < transitions@.len() ==> {
                    let tr = #[trigger] transitions@[i];
                    &&& tr.0 < current
                    &&& tr.2 < known@.len()
                    &&& set_of(known@[tr.2 as int]@) == pos_step(t, set_of(known@[tr.0 as int]@), tr.1)
                },
                forall|k: State, c: char| k < current && #[trigger] pos_step(t, set_of(known@[k as int]@), c) != Set::<usize>::empty()
                    ==> exists|i: int| 0 <= i < transitions@.len() && transitions@[i].0 == k && transitions@[i].1 == c,
            decreases pow2(width as nat) - current,
        {
            let current_set = known[current].clone();
            accepting.push(current_set[positions]);
            let ghost known_start = known@;
            let mut a: usize = 0;
            while a < alphabet.len()
                invariant
                    t == *node,
                    width == positions + 1,
                    positions == leaves(t).len(),
                    width <= usize::MAX,
                    builder.shaped(width as nat),
                    builder.chars() == leaves(t),
                    forall|p: int, q: int| 0 <= p < width && 0 <= q < width ==> (#[trigger] builder.follow()[p][q])
                        == follow_rel(t, p as usize, q as usize),
                    forall|c: char| alphabet@.contains(c) <==> leaves(t).contains(c),
                    alphabet@.no_duplicates(),
                    a <= alphabet@.len(),
                    1 <= known@.len() <= pow2(width as nat),
                    current < known@.len(),
                    current_set@ == known@[current as int]@,
                    known_start.len() <= known@.len(),
                    forall|k: int| 0 <= k < known_start.len() ==> #[trigger] known@[k] == known_start[k],
                    accepting@.len() == current + 1,
                    forall|k: int| 0 <= k <= current ==> #[trigger] accepting@[k] == known@[k]@[positions as int],
                    forall|k: int| 0 <= k < known@.len() ==> (#[trigger] known@[k])@.len() == width,
                    known@.map_values(|v: Vec<bool>| v@).no_duplicates(),
                    set_of(known@[0]@) == start_positions(t),
                    words.len() == known@.len(),
                    forall|k: int| 0 <= k < known@.len() ==> set_of(#[trigger] known@[k]@) != Set::<usize>::empty(),
                    forall|k: int| 0 <= k < known@.len() ==> run_of(transitions@, #[trigger] words[k]) == Some(k as State),
                    deterministic(transitions@),
                    forall|i: int| 0 <= i < transitions@.len() ==> alphabet@.contains(#[trigger] transitions@[i].1),
                    forall|i: int| 0 <= i < transitions@.len() ==> {
                        let tr = #[trigger] transitions@[i];
                        &&& tr.0 <= current
                        &&& tr.2 < known@.len()
                        &&& set_of(known@[tr.2 as int]@) == pos_step(t, set_of(known@[tr.0 as int]@), tr.1)
                        &&& tr.0 == current ==> exists|b: int| 0 <= b < a && alphabet@[b] == tr.1
                    },
                    forall|k: State, c: char| k < current && #[trigger] pos_step(t, set_of(known@[k as int]@), c) != Set::<usize>::empty()
                        ==> exists|i: int| 0 <= i < transitions@.len() && transitions@[i].0 == k && transitions@[i].1 == c,
                    forall|b: int| 0 <= b < a && pos_step(t, set_of(known@[current as int]@), #[trigger] alphabet@[b]) != Set::<usize>::empty()
                        ==> exists|i: int| 0 <= i < transitions@.len() && transitions@[i].0 == current && transitions@[i].1 == alphabet@[b],
                decreases alphabet@.len() - a,
            {
                let c = alphabet[a];
                let new_state = match builder.step_on(&current_set, c, Ghost(t)) {
                    Some(next) => next,
                    None => {
                        a += 1;
                        continue;
                    },
                };
                let ghost before = known@;
                let ghost before_t = transitions@;
                proof {
                    let p = choose|p: usize| #[trigger] set_of(current_set@).contains(p) && p < leaves(t).len() && leaves(t)[p as int] == c;
                    lemma_step_nonempty(t, set_of(current_set@), c, p);
                }
                let to = index_of_bitmap(&mut known, new_state, width);
                transitions.push((current, c, to));
                proof {
                    assert forall|i: int, j: int| 0 <= i < transitions@.len() && 0 <= j < transitions@.len() && i != j
                        implies (#[trigger] transitions@[i]).0 != (#[trigger] transitions@[j]).0 || transitions@[i].1 != transitions@[j].1 by {
                        if j == transitions@.len() - 1 && transitions@[i].0 == current {
                            let b = choose|b: int| 0 <= b < a && alphabet@[b] == before_t[i].1;
                            assert(alphabet@[b] != alphabet@[a as int]);
                        }
                        if i == transitions@.len() - 1 && transitions@[j].0 == current {
                            let b = choose|b: int| 0 <= b < a && alphabet@[b] == before_t[j].1;
                            assert(alphabet@[b] != alphabet@[a as int]);
                        }
                    }
                    let wc = words[current as int].push(c);
                    assert(wc.drop_last() =~= words[current as int]);
                    assert(forall|i: int| 0 <= i < before_t.len() ==> transitions@[i] == before_t[i]);
                    assert forall|k: int| 0 <= k < before.len() implies run_of(transitions@, #[trigger] words[k]) == Some(k as State) by {
                        lemma_run_of_extend(before_t, transitions@, words[k]);
                    }
                    lemma_run_of_extend(before_t, transitions@, words[current as int]);
                    lemma_delta_of_unique(transitions@, current, c, before_t.len() as int);
                    assert(run_of(transitions@, wc) == Some(to));
                    if known@.len() > before.len() {
                        words = words.push(wc);
                    }
                    assert forall|k: int| 0 <= k < known@.len() implies set_of(#[trigger] known@[k]@) != Set::<usize>::empty() by {
                        if k < before.len() {
                            assert(known@[k] == before[k]);
                        }
                    }
                    assert forall|k: int| 0 <= k < known@.len() implies run_of(transitions@, #[trigger] words[k]) == Some(k as State) by {
                        if k < before.len() {
                            lemma_run_of_extend(before_t, transitions@, words[k]);
                        } else {
                            assert(known@ == before.push(known@[k]));
                            assert(to as int == k);
                            assert(words[k] == wc);
                        }
                    }
                    assert forall|i: int| 0 <= i < transitions@.len() implies alphabet@.contains(#[trigger] transitions@[i].1) by {
                        if i < before_t.len() {
                            assert(transitions@[i] == before_t[i]);
                        } else {
                            assert(alphabet@[a as int] == c);
                        }
                    }
                    assert forall|i: int, j: int| 0 <= i < transitions@.len() && 0 <= j < transitions@.len() && i != j
                        implies (#[trigger] transitions@[i]).0 != (#[trigger] transitions@[j]).0 || transitions@[i].1 != transitions@[j].1 by {
                        if j == transitions@.len() - 1 && transitions@[i].0 == current {
                            let b = choose|b: int| 0 <= b < a && alphabet@[b] == before_t[i].1;
                            assert(alphabet@[b] != alphabet@[a as int]);
                        }
                        if i == transitions@.len() - 1 && transitions@[j].0 == current {
                            let b = choose|b: int| 0 <= b < a && alphabet@[b] == before_t[j].1;
                            assert(alphabet@[b] != alphabet@[a as int]);
                        }
                    }
                    assert forall|i: int| 0 <= i < transitions@.len() implies {
                        let tr = #[trigger] transitions@[i];
                        &&& tr.0 <= current
                        &&& tr.2 < known@.len()
                        &&& set_of(known@[tr.2 as int]@) == pos_step(t, set_of(known@[tr.0 as int]@), tr.1)
                        &&& tr.0 == current ==> exists|b: int| 0 <= b < a + 1 && alphabet@[b] == tr.1
                    } by {
                        if i < transitions@.len() - 1 {
                            assert(before_t[i] == transitions@[i]);
                            assert(known@[before_t[i].2 as int] == before[before_t[i].2 as int]);
                            assert(known@[before_t[i].0 as int] == before[before_t[i].0 as int]);
                            if transitions@[i].0 == current {
                                let b = choose|b: int| 0 <= b < a && alphabet@[b] == before_t[i].1;
                            }
                        } else {
                            assert(alphabet@[a as int] == c);
                        }
                    }
                    assert forall|k: State, d: char| k < current && #[trigger] pos_step(t, set_of(known@[k as int]@), d) != Set::<usize>::empty()
                        implies exists|i: int| 0 <= i < transitions@.len() && transitions@[i].0 == k && transitions@[i].1 == d by {
                        assert(known@[k as int] == before[k as int]);
                        let i = choose|i: int| 0 <= i < before_t.len() && before_t[i].0 == k && before_t[i].1 == d;
                        assert(transitions@[i] == before_t[i]);
                    }
                    assert forall|b: int| 0 <= b < a + 1 && pos_step(t, set_of(known@[current as int]@), #[trigger] alphabet@[b]) != Set::<usize>::empty()
                        implies exists|i: int| 0 <= i < transitions@.len() && transitions@[i].0 == current && transitions@[i].1 == alphabet@[b] by {
                        if b < a {
                            assert(known@[current as int] == before[current as int]);
                            let i = choose|i: int| 0 <= i < before_t.len() && before_t[i].0 == current && before_t[i].1 == alphabet@[b];
                            assert(transitions@[i] == before_t[i]);
                        } else {
                            assert(transitions@[transitions@.len() - 1].0 == current);
                        }
                    }
                    assert(known@[0] == before[0]);
                    assert forall|k: int| 0 <= k < known_start.len() implies #[trigger] known@[k] == known_start[k] by {
                        assert(known@[k] == before[k]);
                    }
                    assert forall|k: int| 0 <= k <= current implies #[trigger] accepting@[k] == known@[k]@[positions as int] by {
                        assert(known@[k] == before[k]);
                    }
                }
                a += 1;
            }
            proof {
                assert forall|k: State, c: char| k < current + 1 && #[trigger] pos_step(t, set_of(known@[k as int]@), c) != Set::<usize>::empty()
                    implies exists|i: int| 0 <= i < transitions@.len() && transitions@[i].0 == k && transitions@[i].1 == c by {
                    if k == current {
                        if !alphabet@.contains(c) {
                            assert(pos_step(t, set_of(known@[k as int]@), c) =~= Set::<usize>::empty()) by {
                                if exists|q: usize| pos_step(t, set_of(known@[k as int]@), c).contains(q) {
                                    let q = choose|q: usize| pos_step(t, set_of(known@[k as int]@), c).contains(q);
                                    let p = choose|p: usize| #[trigger] set_of(known@[k as int]@).contains(p) && p < leaves(t).len()
                                        && leaves(t)[p as int] == c && follow_rel(t, p, q);
                                    assert(leaves(t).contains(c));
                                }
                            }
                        } else {
                            let b = choose|b: int| 0 <= b < alphabet@.len() && alphabet@[b] == c;
                        }
                    }
                }
            }
            current += 1;
        }
        let last = current - 1;
        proof {
            assert forall|i: int| 0 <= i < transitions@.len() implies (#[trigger] transitions@[i]).0 <= last && transitions@[i].2 <= last by {}
        }
        let r = DFAutomata::new(transitions, accepting, last);
        proof {
            let kn = known@.map_values(|v: Vec<bool>| v@);
            assert forall|k: State| k <= r.last() implies r.accepting_map()[k as int] == #[trigger] set_of(kn[k as int]).contains(leaves(t).len() as usize) by {
                lemma_bit(known@[k as int]@, positions as int);
            }
            assert forall|k: State, c: char| k <= r.last() implies match #[trigger] r.delta(k, c) {
                Some(j) => j <= r.last() && set_of(kn[j as int]) == pos_step(t, set_of(kn[k as int]), c),
                None => pos_step(t, set_of(kn[k as int]), c) == Set::<usize>::empty(),
            } by {
                if r.has_transition(k, c) {
                    let i = choose|i: int| 0 <= i < r.trans().len() && r.trans()[i].0 == k && r.trans()[i].1 == c;
                    r.lemma_delta_unique(k, c, i);
                } else {
                    if pos_step(t, set_of(kn[k as int]), c) != Set::<usize>::empty() {
                        let i = choose|i: int| 0 <= i < transitions@.len() && transitions@[i].0 == k && transitions@[i].1 == c;
                        assert(r.has_transition(k, c));
                    }
                }
            }
            assert(simulates_positions(t, r, kn));
            assert forall|k: State| k <= r.last() implies #[trigger] r.reachable(k) by {
                assert(r.run(words[k as int]) == Some(k));
            }
            assert forall|w: Seq<char>| r.accepts(w) == pos_accepts(t, w) by {
                lemma_position_simulation(t, r, kn, w);
                if let Some(k) = r.run(w) {
                    assert(r.is_accepting(k) == set_of(kn[k as int]).contains(leaves(t).len() as usize));
                }
            }
            assert forall|w: Seq<char>| #[trigger] r.accepts(w) == in_language(t, w) by {
                lemma_position_automaton_matches(t, w);
            }
            assert forall|k: State| k <= r.last() implies #[trigger] r.live(k) by {
                let w = words[k as int];
                assert(r.run(w) == Some(k));
                lemma_position_simulation(t, r, kn, w);
                assert(kn[k as int] == known@[k as int]@);
                let u = lemma_prefix_completes(t, w);
                lemma_position_automaton_matches(t, w + u);
                assert(r.accepts(w + u) == pos_accepts(t, w + u));
                assert(r.accepts(w + u));
                lemma_run_concat(r.trans(), w, u);
                assert(r.accepts_from(k, u));
            }
        }
        r
    }
}

impl DFAutomata {
    /// The DFA of a tree by the direct construction, not minimized.
    pub fn unoptimized_from(node: &LexTree) -> (r: DFAutomata)
        requires
            leaves(*node).len() + 2 <= usize::MAX,
        ensures
            r.well_formed(),
            forall|w: Seq<char>| #[trigger] r.accepts(w) == in_language(*node, w),
    {
        DFABuilder::build(node)
    }

    /// The minimal DFA of a tree: the direct construction, minimized. Every
    /// state is reachable and no two states accept the same words.
    pub fn from(node: &LexTree) -> (r: DFAutomata)
        requires
            leaves(*node).len() + 2 <= usize::MAX,
        ensures
            r.well_formed(),
            forall|w: Seq<char>| #[trigger] r.accepts(w) == in_language(*node, w),
            exists|d: DFAutomata|
                d.well_formed() && (forall|w: Seq<char>| #[trigger] d.accepts(w) == in_language(*node, w)) && is_minimization(d, r),
            forall|k: State| k <= r.last() ==> #[trigger] r.reachable(k),
            forall|p: State, q: State| p <= r.last() && q <= r.last() && p != q ==> #[trigger] r.distinguishable(p, q),
    {
        let d = DFABuilder::build(node);
        let r = d.minimize();
        proof {
            assert(forall|k: State| k <= d.last() ==> #[trigger] d.reachable(k));
            assert(forall|k: State| k <= d.last() ==> #[trigger] d.live(k));
            assert(d.well_formed() && (forall|w: Seq<char>| #[trigger] d.accepts(w) == in_language(*node, w)) && is_minimization(d, r));
        }
        r
    }

    /// The DFA of an NFA, by the subset construction.
    pub fn from_nfa(value: NFAutomata) -> (r: DFAutomata)
        requires
            value.well_formed(),
        ensures
            is_determinization(value, r),
    {
        value.into_determinate()
    }

    /// The minimal DFA of a pattern: parse it, then build it directly and
    /// minimize.
    pub fn try_from(value: &str) -> (r: Result<DFAutomata, LexError>)
        requires
            value@.len() <= crate::MAX_PATTERN_LEN,
        ensures
            match r {
                Ok(d) => parse_spec(value@) matches Ok(t) && d.well_formed() && forall|w: Seq<char>| #[trigger] d.accepts(w)
                    == in_language(t, w),
                Err(e) => parse_spec(value@) == Err::<LexTree, Failure>(e.failure()) && e.source() == value@,
            },
    {
        let node = LexTree::try_from(value)?;
        proof {
            lemma_parse_spec_size(value@);
            lemma_leaves_bounded(node);
        }
        Ok(DFAutomata::from(&node))
    }
}

} // verus!
