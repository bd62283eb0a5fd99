use vstd::prelude::*;
use crate::builder::{
    firstpos, follow_rel, follows, lastpos, leaves, lemma_positions_in_range, nullable, pos_accepts, pos_run, pos_step,
    start_positions,
};
use crate::symbols::{BinaryOperator, Symbol, UnaryOperator};
use crate::tree::LexTree;

verus! {

/// The tree matches the word `w`: the language of a pattern.
pub open spec fn in_language(t: LexTree, w: Seq<char>) -> bool
    decreases t, w.len(),
{
    match t {
        LexTree::Leaf { value: Symbol::Epsilon } => w.len() == 0,
        LexTree::Leaf { value: Symbol::Character(c) } => w == seq![c],
        LexTree::Binary { value: BinaryOperator::Or, left_child, right_child } =>
            in_language(*left_child, w) || in_language(*right_child, w),
        LexTree::Binary { value: BinaryOperator::Concat, left_child, right_child } =>
            exists|i: int| 0 <= i <= w.len() && in_language(*left_child, w.take(i)) && in_language(*right_child, w.skip(i)),
        LexTree::Unary { value: UnaryOperator::Maybe, child } => w.len() == 0 || in_language(*child, w),
        LexTree::Unary { value: UnaryOperator::Kleene, child } => w.len() == 0 || exists|i: int|
            1 <= i <= w.len() && in_language(*child, w.take(i)) && in_language(t, w.skip(i)),
        LexTree::Unary { value: UnaryOperator::Many, child } => if w.len() == 0 {
            in_language(*child, w)
        } else {
            exists|i: int| 1 <= i <= w.len() && in_language(*child, w.take(i)) && (i == w.len() || in_language(t, w.skip(i)))
        },
    }
}

/// The tree matches the empty word exactly when it is nullable.
pub proof fn lemma_nullable_matches_empty(t: LexTree)
    ensures
        nullable(t) == in_language(t, Seq::<char>::empty()),
    decreases t,
{
    let e = Seq::<char>::empty();
    match t {
        LexTree::Leaf { .. } => {},
        LexTree::Binary { value, left_child, right_child } => {
            lemma_nullable_matches_empty(*left_child);
            lemma_nullable_matches_empty(*right_child);
            assert(e.take(0) =~= e);
            assert(e.skip(0) =~= e);
            if value == BinaryOperator::Concat && in_language(t, e) {
                let i = choose|i: int| 0 <= i <= e.len() && in_language(*left_child, e.take(i)) && in_language(*right_child, e.skip(i));
                assert(i == 0);
            }
        },
        LexTree::Unary { child, .. } => {
            lemma_nullable_matches_empty(*child);
        },
    }
}

/// `ps` reads `w` inside the tree `t` whose positions start at `off`: one
/// position per character, each carrying its character, the first a first
/// position and each following the one before.
pub open spec fn reads(t: LexTree, off: nat, w: Seq<char>, ps: Seq<usize>) -> bool {
    &&& ps.len() == w.len()
    &&& ps.len() > 0
    &&& forall|i: int| 0 <= i < ps.len() ==> off <= #[trigger] ps[i] < off + leaves(t).len() && leaves(t)[ps[i] - off] == w[i]
    &&& firstpos(t, off).contains(ps[0])
    &&& forall|i: int| 0 <= i < ps.len() - 1 ==> follows(t, off, #[trigger] ps[i], ps[i + 1])
}

/// `ps` reads `w` and ends on a last position.
pub open spec fn path(t: LexTree, off: nat, w: Seq<char>, ps: Seq<usize>) -> bool {
    reads(t, off, w, ps) && lastpos(t, off).contains(ps.last())
}

/// A path through a subtree is one through the tree around it whose
/// positions, first, last and follow sets include the subtree's.
proof fn lemma_path_widen(s: LexTree, soff: nat, t: LexTree, off: nat, w: Seq<char>, ps: Seq<usize>)
    requires
        path(s, soff, w, ps),
        off <= soff,
        soff + leaves(s).len() <= off + leaves(t).len(),
        forall|p: usize| soff <= p < soff + leaves(s).len() ==> leaves(t)[p - off] == #[trigger] leaves(s)[p - soff],
        firstpos(t, off).contains(ps[0]),
        lastpos(t, off).contains(ps.last()),
        forall|p: usize, q: usize| #[trigger] follows(s, soff, p, q) ==> follows(t, off, p, q),
    ensures
        path(t, off, w, ps),
{
    lemma_reads_widen(s, soff, t, off, w, ps);
}

/// The positions of a read through a subtree, seen in the tree around it.
proof fn lemma_reads_widen(s: LexTree, soff: nat, t: LexTree, off: nat, w: Seq<char>, ps: Seq<usize>)
    requires
        reads(s, soff, w, ps),
        off <= soff,
        soff + leaves(s).len() <= off + leaves(t).len(),
        forall|p: usize| soff <= p < soff + leaves(s).len() ==> leaves(t)[p - off] == #[trigger] leaves(s)[p - soff],
        forall|p: usize, q: usize| #[trigger] follows(s, soff, p, q) ==> follows(t, off, p, q),
    ensures
        forall|i: int| 0 <= i < ps.len() ==> off <= #[trigger] ps[i] < off + leaves(t).len() && leaves(t)[ps[i] - off] == w[i],
        forall|i: int| 0 <= i < ps.len() - 1 ==> follows(t, off, #[trigger] ps[i], ps[i + 1]),
{
    assert forall|i: int| 0 <= i < ps.len() implies off <= #[trigger] ps[i] < off + leaves(t).len() && leaves(t)[ps[i] - off] == w[i] by {
        assert(leaves(t)[ps[i] - off] == leaves(s)[ps[i] - soff]);
    }
    assert forall|i: int| 0 <= i < ps.len() - 1 implies follows(t, off, #[trigger] ps[i], ps[i + 1]) by {
        assert(follows(s, soff, ps[i], ps[i + 1]));
    }
}

/// Joining a path of `s` ending on `p` with one of `u` starting on `q`, when
/// `q` follows `p` in the tree around both.
proof fn lemma_path_join(
    t: LexTree,
    off: nat,
    w1: Seq<char>,
    ps1: Seq<usize>,
    w2: Seq<char>,
    ps2: Seq<usize>,
)
    requires
        reads(t, off, w1, ps1),
        ps2.len() == w2.len(),
        ps2.len() > 0,
        forall|i: int| 0 <= i < ps2.len() ==> off <= #[trigger] ps2[i] < off + leaves(t).len() && leaves(t)[ps2[i] - off] == w2[i],
        forall|i: int| 0 <= i < ps2.len() - 1 ==> follows(t, off, #[trigger] ps2[i], ps2[i + 1]),
        follows(t, off, ps1.last(), ps2[0]),
        lastpos(t, off).contains(ps2.last()),
    ensures
        path(t, off, w1 + w2, ps1 + ps2),
{
    let ps = ps1 + ps2;
    let w = w1 + w2;
    assert forall|i: int| 0 <= i < ps.len() implies off <= #[trigger] ps[i] < off + leaves(t).len() && leaves(t)[ps[i] - off] == w[i] by {
        if i >= ps1.len() {
            assert(ps[i] == ps2[i - ps1.len()]);
            assert(w[i] == w2[i - ps1.len()]);
        }
    }
    assert forall|i: int| 0 <= i < ps.len() - 1 implies follows(t, off, #[trigger] ps[i], ps[i + 1]) by {
        if i < ps1.len() - 1 {
        } else if i == ps1.len() - 1 {
            assert(ps[i + 1] == ps2[0]);
        } else {
            assert(ps[i] == ps2[i - ps1.len()]);
            assert(ps[i + 1] == ps2[i + 1 - ps1.len()]);
        }
    }
    assert(ps.last() == ps2.last());
}

/// A nonempty word the tree matches is read by a path of positions.
proof fn lemma_match_to_path(t: LexTree, off: nat, w: Seq<char>) -> (ps: Seq<usize>)
    requires
        in_language(t, w),
        w.len() > 0,
        off + leaves(t).len() <= usize::MAX,
    ensures
        path(t, off, w, ps),
    decreases t, w.len(), 1nat,
{
    match t {
        LexTree::Leaf { value: Symbol::Epsilon } => {
            assert(false);
            seq![]
        },
        LexTree::Leaf { value: Symbol::Character(c) } => {
            let ps = seq![off as usize];
            assert((off as usize) as int == off);
            assert(leaves(t) == seq![c]);
            ps
        },
        LexTree::Binary { .. } => lemma_match_to_path_binary(t, off, w),
        LexTree::Unary { .. } => lemma_match_to_path_unary(t, off, w),
    }
}

#[verifier::rlimit(60)]
proof fn lemma_match_to_path_binary(t: LexTree, off: nat, w: Seq<char>) -> (ps: Seq<usize>)
    requires
        t is Binary,
        in_language(t, w),
        w.len() > 0,
        off + leaves(t).len() <= usize::MAX,
    ensures
        path(t, off, w, ps),
    decreases t, w.len(), 0nat,
{
    if let LexTree::Binary { value, left_child, right_child } = t {
        let l = *left_child;
        let r = *right_child;
        let mid = off + leaves(l).len();
        lemma_positions_in_range(t, off);
        lemma_positions_in_range(l, off);
        lemma_positions_in_range(r, mid);
        assert(leaves(t) == leaves(l) + leaves(r));
        assert forall|p: usize| off <= p < off + leaves(l).len() implies leaves(t)[p - off] == #[trigger] leaves(l)[p - off] by {}
        assert forall|p: usize| mid <= p < mid + leaves(r).len() implies leaves(t)[p - off] == #[trigger] leaves(r)[p - mid] by {}
        if value == BinaryOperator::Or {
            if in_language(l, w) {
                let ps = lemma_match_to_path(l, off, w);
                lemma_path_widen(l, off, t, off, w, ps);
                ps
            } else {
                let ps = lemma_match_to_path(r, mid, w);
                lemma_path_widen(r, mid, t, off, w, ps);
                ps
            }
        } else {
            let i = choose|i: int| 0 <= i <= w.len() && in_language(l, w.take(i)) && in_language(r, w.skip(i));
            if i == 0 {
                assert(w.skip(0) =~= w);
                assert(w.take(0) =~= Seq::<char>::empty());
                lemma_nullable_matches_empty(l);
                let ps = lemma_match_to_path(r, mid, w);
                lemma_path_widen(r, mid, t, off, w, ps);
                ps
            } else if i == w.len() {
                assert(w.take(i) =~= w);
                assert(w.skip(i) =~= Seq::<char>::empty());
                lemma_nullable_matches_empty(r);
                let ps = lemma_match_to_path(l, off, w);
                lemma_path_widen(l, off, t, off, w, ps);
                ps
            } else {
                let ps1 = lemma_match_to_path(l, off, w.take(i));
                let ps2 = lemma_match_to_path(r, mid, w.skip(i));
                assert(w =~= w.take(i) + w.skip(i));
                lemma_reads_widen(l, off, t, off, w.take(i), ps1);
                lemma_reads_widen(r, mid, t, off, w.skip(i), ps2);
                assert(firstpos(t, off).contains(ps1[0]));
                lemma_path_join(t, off, w.take(i), ps1, w.skip(i), ps2);
                ps1 + ps2
            }
        }
    } else {
        seq![]
    }
}

#[verifier::rlimit(60)]
proof fn lemma_match_to_path_unary(t: LexTree, off: nat, w: Seq<char>) -> (ps: Seq<usize>)
    requires
        t is Unary,
        in_language(t, w),
        w.len() > 0,
        off + leaves(t).len() <= usize::MAX,
    ensures
        path(t, off, w, ps),
    decreases t, w.len(), 0nat,
{
    if let LexTree::Unary { value, child } = t {
        let c = *child;
        lemma_positions_in_range(t, off);
        lemma_positions_in_range(c, off);
        assert(leaves(t) == leaves(c));
        assert forall|p: usize| off <= p < off + leaves(c).len() implies leaves(t)[p - off] == #[trigger] leaves(c)[p - off] by {}
        if value == UnaryOperator::Maybe {
            let ps = lemma_match_to_path(c, off, w);
            lemma_path_widen(c, off, t, off, w, ps);
            ps
        } else {
            let i = choose|i: int| 1 <= i <= w.len() && in_language(c, w.take(i)) && (i == w.len() || in_language(t, w.skip(i)));
            if i == w.len() {
                assert(w.take(i) =~= w);
                let ps = lemma_match_to_path(c, off, w);
                lemma_path_widen(c, off, t, off, w, ps);
                ps
            } else {
                let ps1 = lemma_match_to_path(c, off, w.take(i));
                let ps2 = lemma_match_to_path(t, off, w.skip(i));
                assert(w =~= w.take(i) + w.skip(i));
                lemma_reads_widen(c, off, t, off, w.take(i), ps1);
                assert(follows(t, off, ps1.last(), ps2[0]));
                lemma_path_join(t, off, w.take(i), ps1, w.skip(i), ps2);
                ps1 + ps2
            }
        }
    } else {
        seq![]
    }
}

/// The first index from `from` on whose position is at least `m`, or the
/// length when there is none.
spec fn first_from(ps: Seq<usize>, m: nat, from: int) -> int
    decreases ps.len() - from,
{
    if from >= ps.len() || from < 0 {
        ps.len() as int
    } else if ps[from] >= m {
        from
    } else {
        first_from(ps, m, from + 1)
    }
}

proof fn lemma_first_from(ps: Seq<usize>, m: nat, from: int)
    requires
        0 <= from <= ps.len(),
    ensures
        from <= first_from(ps, m, from) <= ps.len(),
        forall|k: int| from <= k < first_from(ps, m, from) ==> ps[k] < m,
        first_from(ps, m, from) < ps.len() ==> ps[first_from(ps, m, from)] >= m,
    decreases ps.len() - from,
{
    if from < ps.len() && ps[from] < m {
        lemma_first_from(ps, m, from + 1);
    }
}

/// The first index from `from` on where the next position does not follow
/// inside `c`, or the last index when there is none.
spec fn first_break(c: LexTree, off: nat, ps: Seq<usize>, from: int) -> int
    decreases ps.len() - from,
{
    if from >= ps.len() - 1 || from < 0 {
        ps.len() - 1
    } else if !follows(c, off, ps[from], ps[from + 1]) {
        from
    } else {
        first_break(c, off, ps, from + 1)
    }
}

proof fn lemma_first_break(c: LexTree, off: nat, ps: Seq<usize>, from: int)
    requires
        ps.len() > 0,
        0 <= from <= ps.len() - 1,
    ensures
        from <= first_break(c, off, ps, from) <= ps.len() - 1,
        forall|k: int| from <= k < first_break(c, off, ps, from) ==> follows(c, off, #[trigger] ps[k], ps[k + 1]),
        first_break(c, off, ps, from) < ps.len() - 1 ==> !follows(
            c,
            off,
            ps[first_break(c, off, ps, from)],
            ps[first_break(c, off, ps, from) + 1],
        ),
    decreases ps.len() - from,
{
    if from < ps.len() - 1 && follows(c, off, ps[from], ps[from + 1]) {
        lemma_first_break(c, off, ps, from + 1);
    }
}

/// A read whose positions stay in `[lo, hi)` once they enter it, when no
/// follow edge leaves that range.
proof fn lemma_stays(t: LexTree, off: nat, ps: Seq<usize>, lo: nat, hi: nat, from: int)
    requires
        0 <= from < ps.len(),
        lo <= ps[from] < hi,
        forall|i: int| 0 <= i < ps.len() - 1 ==> follows(t, off, #[trigger] ps[i], ps[i + 1]),
        forall|p: usize, q: usize| lo <= p < hi && #[trigger] follows(t, off, p, q) ==> lo <= q < hi,
    ensures
        forall|k: int| from <= k < ps.len() ==> lo <= #[trigger] ps[k] < hi,
    decreases ps.len() - from,
{
    if from < ps.len() - 1 {
        assert(follows(t, off, ps[from], ps[from + 1]));
        lemma_stays(t, off, ps, lo, hi, from + 1);
    }
}

/// A read through the tree that stays inside a subtree and uses only the
/// subtree's follow edges is a path of the subtree.
proof fn lemma_narrow(s: LexTree, soff: nat, t: LexTree, off: nat, w: Seq<char>, ps: Seq<usize>)
    requires
        ps.len() == w.len(),
        ps.len() > 0,
        off <= soff,
        forall|i: int| 0 <= i < ps.len() ==> off <= #[trigger] ps[i] < off + leaves(t).len() && leaves(t)[ps[i] - off] == w[i],
        forall|i: int| 0 <= i < ps.len() ==> soff <= #[trigger] ps[i] < soff + leaves(s).len(),
        forall|p: usize| soff <= p < soff + leaves(s).len() ==> leaves(t)[p - off] == #[trigger] leaves(s)[p - soff],
        forall|i: int| 0 <= i < ps.len() - 1 ==> follows(s, soff, #[trigger] ps[i], ps[i + 1]),
        firstpos(s, soff).contains(ps[0]),
        lastpos(s, soff).contains(ps.last()),
    ensures
        path(s, soff, w, ps),
{
    assert forall|i: int| 0 <= i < ps.len() implies soff <= #[trigger] ps[i] < soff + leaves(s).len() && leaves(s)[ps[i] - soff] == w[i] by {
        assert(leaves(t)[ps[i] - off] == leaves(s)[ps[i] - soff]);
    }
}

/// A path of the tree matches: the converse of `lemma_match_to_path`.
proof fn lemma_path_to_match(t: LexTree, off: nat, w: Seq<char>, ps: Seq<usize>)
    requires
        path(t, off, w, ps),
        off + leaves(t).len() <= usize::MAX,
    ensures
        in_language(t, w),
    decreases t, w.len(), 1nat,
{
    lemma_positions_in_range(t, off);
    match t {
        LexTree::Leaf { value: Symbol::Epsilon } => {
            assert(firstpos(t, off).contains(ps[0]));
        },
        LexTree::Leaf { value: Symbol::Character(c) } => {
            assert(leaves(t) == seq![c]);
            if ps.len() > 1 {
                assert(follows(t, off, ps[0], ps[1]));
            }
            assert(ps[0] - off == 0);
            assert(w =~= seq![c]);
        },
        LexTree::Binary { value: BinaryOperator::Or, .. } => lemma_or_path(t, off, w, ps),
        LexTree::Binary { value: BinaryOperator::Concat, .. } => lemma_concat_path(t, off, w, ps),
        LexTree::Unary { value: UnaryOperator::Maybe, child } => {
            let c = *child;
            lemma_positions_in_range(c, off);
            assert(leaves(t) == leaves(c));
            assert forall|p: usize| off <= p < off + leaves(c).len() implies leaves(t)[p - off] == #[trigger] leaves(c)[p - off] by {}
            lemma_narrow(c, off, t, off, w, ps);
            lemma_path_to_match(c, off, w, ps);
        },
        LexTree::Unary { .. } => lemma_star_path(t, off, w, ps),
    }
}

#[verifier::rlimit(40)]
proof fn lemma_or_path(t: LexTree, off: nat, w: Seq<char>, ps: Seq<usize>)
    requires
        t matches LexTree::Binary { value: BinaryOperator::Or, .. },
        path(t, off, w, ps),
        off + leaves(t).len() <= usize::MAX,
    ensures
        in_language(t, w),
    decreases t, w.len(), 0nat,
{
    if let LexTree::Binary { left_child, right_child, .. } = t {
        let l = *left_child;
        let r = *right_child;
        let mid = off + leaves(l).len();
        let end = mid + leaves(r).len();
        lemma_positions_in_range(l, off);
        lemma_positions_in_range(r, mid);
        assert(leaves(t) == leaves(l) + leaves(r));
        assert forall|p: usize| off <= p < off + leaves(l).len() implies leaves(t)[p - off] == #[trigger] leaves(l)[p - off] by {}
        assert forall|p: usize| mid <= p < mid + leaves(r).len() implies leaves(t)[p - off] == #[trigger] leaves(r)[p - mid] by {}
        if ps[0] < mid {
            assert forall|p: usize, q: usize| off <= p < mid && #[trigger] follows(t, off, p, q) implies off <= q < mid by {
                if follows(l, off, p, q) {
                } else {
                    assert(follows(r, mid, p, q));
                }
            }
            lemma_stays(t, off, ps, off, mid, 0);
            assert forall|i: int| 0 <= i < ps.len() - 1 implies follows(l, off, #[trigger] ps[i], ps[i + 1]) by {
                assert(follows(t, off, ps[i], ps[i + 1]));
                assert(ps[i] < mid);
                if !follows(l, off, ps[i], ps[i + 1]) {
                    assert(follows(r, mid, ps[i], ps[i + 1]));
                }
            }
            assert(!firstpos(r, mid).contains(ps[0]));
            assert(ps[ps.len() - 1] < mid);
            assert(!lastpos(r, mid).contains(ps.last()));
            lemma_narrow(l, off, t, off, w, ps);
            lemma_path_to_match(l, off, w, ps);
        } else {
            assert forall|p: usize, q: usize| mid <= p < end && #[trigger] follows(t, off, p, q) implies mid <= q < end by {
                if follows(r, mid, p, q) {
                } else {
                    assert(follows(l, off, p, q));
                }
            }
            lemma_stays(t, off, ps, mid, end, 0);
            assert forall|i: int| 0 <= i < ps.len() - 1 implies follows(r, mid, #[trigger] ps[i], ps[i + 1]) by {
                assert(follows(t, off, ps[i], ps[i + 1]));
                assert(ps[i] >= mid);
                if !follows(r, mid, ps[i], ps[i + 1]) {
                    assert(follows(l, off, ps[i], ps[i + 1]));
                }
            }
            assert(!firstpos(l, off).contains(ps[0]));
            assert(ps[ps.len() - 1] >= mid);
            assert(!lastpos(l, off).contains(ps.last()));
            lemma_narrow(r, mid, t, off, w, ps);
            lemma_path_to_match(r, mid, w, ps);
        }
    }
}

#[verifier::rlimit(60)]
proof fn lemma_concat_path(t: LexTree, off: nat, w: Seq<char>, ps: Seq<usize>)
    requires
        t matches LexTree::Binary { value: BinaryOperator::Concat, .. },
        path(t, off, w, ps),
        off + leaves(t).len() <= usize::MAX,
    ensures
        in_language(t, w),
    decreases t, w.len(), 0nat,
{
    if let LexTree::Binary { left_child, right_child, .. } = t {
        let l = *left_child;
        let r = *right_child;
        let mid = off + leaves(l).len();
        let end = mid + leaves(r).len();
        lemma_positions_in_range(l, off);
        lemma_positions_in_range(r, mid);
        assert(leaves(t) == leaves(l) + leaves(r));
        assert forall|p: usize| off <= p < off + leaves(l).len() implies leaves(t)[p - off] == #[trigger] leaves(l)[p - off] by {}
        assert forall|p: usize| mid <= p < mid + leaves(r).len() implies leaves(t)[p - off] == #[trigger] leaves(r)[p - mid] by {}
        assert forall|p: usize, q: usize| mid <= p < end && #[trigger] follows(t, off, p, q) implies mid <= q < end && follows(r, mid, p, q) by {
            if follows(l, off, p, q) {
            } else if follows(r, mid, p, q) {
            } else {
                assert(lastpos(l, off).contains(p));
            }
        }
        lemma_first_from(ps, mid, 0);
        let j = first_from(ps, mid, 0);
        if j < ps.len() {
            lemma_stays(t, off, ps, mid, end, j);
        }
        if j == 0 {
            assert(!firstpos(l, off).contains(ps[0]));
            assert(nullable(l));
            assert(ps[ps.len() - 1] >= mid);
            assert(!lastpos(l, off).contains(ps.last()));
            assert forall|i: int| 0 <= i < ps.len() - 1 implies follows(r, mid, #[trigger] ps[i], ps[i + 1]) by {
                assert(follows(t, off, ps[i], ps[i + 1]));
            }
            lemma_narrow(r, mid, t, off, w, ps);
            lemma_path_to_match(r, mid, w, ps);
            lemma_nullable_matches_empty(l);
            assert(w.take(0) =~= Seq::<char>::empty());
            assert(w.skip(0) =~= w);
        } else if j == ps.len() {
            assert(!firstpos(r, mid).contains(ps[0]));
            assert(ps[ps.len() - 1] < mid);
            assert(!lastpos(r, mid).contains(ps.last()));
            assert(nullable(r));
            assert forall|i: int| 0 <= i < ps.len() - 1 implies follows(l, off, #[trigger] ps[i], ps[i + 1]) by {
                assert(follows(t, off, ps[i], ps[i + 1]));
                assert(ps[i] < mid);
                assert(ps[i + 1] < mid);
                assert(!firstpos(r, mid).contains(ps[i + 1]));
                assert(!follows(r, mid, ps[i], ps[i + 1]));
            }
            assert forall|i: int| 0 <= i < ps.len() implies off <= #[trigger] ps[i] < off + leaves(l).len() by {}
            lemma_narrow(l, off, t, off, w, ps);
            lemma_path_to_match(l, off, w, ps);
            lemma_nullable_matches_empty(r);
            assert(w.take(w.len() as int) =~= w);
            assert(w.skip(w.len() as int) =~= Seq::<char>::empty());
        } else {
            let ps1 = ps.take(j);
            let ps2 = ps.skip(j);
            let w1 = w.take(j);
            let w2 = w.skip(j);
            assert(follows(t, off, ps[j - 1], ps[j]));
            assert(ps[j - 1] < mid);
            assert(ps[j] >= mid);
            assert(!follows(l, off, ps[j - 1], ps[j]));
            assert(!follows(r, mid, ps[j - 1], ps[j]));
            assert(lastpos(l, off).contains(ps[j - 1]) && firstpos(r, mid).contains(ps[j]));
            assert forall|i: int| 0 <= i < ps1.len() - 1 implies follows(l, off, #[trigger] ps1[i], ps1[i + 1]) by {
                assert(ps1[i] == ps[i]);
                assert(ps1[i + 1] == ps[i + 1]);
                assert(follows(t, off, ps[i], ps[i + 1]));
                assert(ps[i] < mid);
                assert(ps[i + 1] < mid);
                assert(!firstpos(r, mid).contains(ps[i + 1]));
                assert(!follows(r, mid, ps[i], ps[i + 1]));
            }
            assert forall|i: int| 0 <= i < ps1.len() implies off <= #[trigger] ps1[i] < off + leaves(t).len() && leaves(t)[ps1[i] - off] == w1[i] by {
                assert(ps1[i] == ps[i]);
            }
            assert forall|i: int| 0 <= i < ps1.len() implies off <= #[trigger] ps1[i] < off + leaves(l).len() by {
                assert(ps1[i] == ps[i]);
            }
            lemma_narrow(l, off, t, off, w1, ps1);
            lemma_path_to_match(l, off, w1, ps1);
            assert forall|i: int| 0 <= i < ps2.len() - 1 implies follows(r, mid, #[trigger] ps2[i], ps2[i + 1]) by {
                assert(ps2[i] == ps[j + i]);
                assert(ps2[i + 1] == ps[j + i + 1]);
                assert(follows(t, off, ps[j + i], ps[j + i + 1]));
            }
            assert forall|i: int| 0 <= i < ps2.len() implies off <= #[trigger] ps2[i] < off + leaves(t).len() && leaves(t)[ps2[i] - off] == w2[i] by {
                assert(ps2[i] == ps[j + i]);
            }
            assert forall|i: int| 0 <= i < ps2.len() implies mid <= #[trigger] ps2[i] < mid + leaves(r).len() by {
                assert(ps2[i] == ps[j + i]);
            }
            assert(ps2.last() == ps.last());
            lemma_narrow(r, mid, t, off, w2, ps2);
            lemma_path_to_match(r, mid, w2, ps2);
        }
    }
}

#[verifier::rlimit(60)]
proof fn lemma_star_path(t: LexTree, off: nat, w: Seq<char>, ps: Seq<usize>)
    requires
        t matches LexTree::Unary { value, .. } && value != UnaryOperator::Maybe,
        path(t, off, w, ps),
        off + leaves(t).len() <= usize::MAX,
    ensures
        in_language(t, w),
    decreases t, w.len(), 0nat,
{
    if let LexTree::Unary { value, child } = t {
        let c = *child;
        lemma_positions_in_range(c, off);
        assert(leaves(t) == leaves(c));
        assert forall|p: usize| off <= p < off + leaves(c).len() implies leaves(t)[p - off] == #[trigger] leaves(c)[p - off] by {}
        lemma_first_break(c, off, ps, 0);
        let j = first_break(c, off, ps, 0);
        if j == ps.len() - 1 {
            lemma_narrow(c, off, t, off, w, ps);
            lemma_path_to_match(c, off, w, ps);
            let n = w.len() as int;
            assert(w.take(n) =~= w);
            assert(w.skip(n) =~= Seq::<char>::empty());
            assert(in_language(c, w.take(n)));
            if value == UnaryOperator::Kleene {
                assert(in_language(t, w.skip(n)));
                assert(1 <= n <= w.len() && in_language(c, w.take(n)) && in_language(t, w.skip(n)));
            } else {
                assert(1 <= n <= w.len() && in_language(c, w.take(n)) && (n == w.len() || in_language(t, w.skip(n))));
            }
        } else {
            let ps1 = ps.take(j + 1);
            let ps2 = ps.skip(j + 1);
            let w1 = w.take(j + 1);
            let w2 = w.skip(j + 1);
            assert(follows(t, off, ps[j], ps[j + 1]));
            assert(lastpos(c, off).contains(ps[j]) && firstpos(c, off).contains(ps[j + 1]));
            assert forall|i: int| 0 <= i < ps1.len() - 1 implies follows(c, off, #[trigger] ps1[i], ps1[i + 1]) by {
                assert(ps1[i] == ps[i]);
            }
            assert forall|i: int| 0 <= i < ps1.len() implies off <= #[trigger] ps1[i] < off + leaves(t).len() && leaves(t)[ps1[i] - off] == w1[i] by {
                assert(ps1[i] == ps[i]);
            }
            lemma_narrow(c, off, t, off, w1, ps1);
            lemma_path_to_match(c, off, w1, ps1);
            assert forall|i: int| 0 <= i < ps2.len() - 1 implies follows(t, off, #[trigger] ps2[i], ps2[i + 1]) by {
                assert(ps2[i] == ps[j + 1 + i]);
                assert(ps2[i + 1] == ps[j + 1 + i + 1]);
            }
            assert forall|i: int| 0 <= i < ps2.len() implies off <= #[trigger] ps2[i] < off + leaves(t).len() && leaves(t)[ps2[i] - off] == w2[i] by {
                assert(ps2[i] == ps[j + 1 + i]);
            }
            assert(ps2.last() == ps.last());
            assert(path(t, off, w2, ps2));
            lemma_path_to_match(t, off, w2, ps2);
            assert(1 <= j + 1 <= w.len() && in_language(c, w.take(j + 1)) && in_language(t, w.skip(j + 1)));
        }
    }
}

/// A position the automaton holds after a nonempty word follows the last
/// position of some read of the word.
#[verifier::rlimit(40)]
proof fn lemma_run_to_reads(t: LexTree, w: Seq<char>, q: usize) -> (ps: Seq<usize>)
    requires
        w.len() > 0,
        leaves(t).len() < usize::MAX,
        pos_run(t, w).contains(q),
    ensures
        reads(t, 0, w, ps),
        follow_rel(t, ps.last(), q),
    decreases w.len(),
{
    let v = w.drop_last();
    let c = w.last();
    let n = leaves(t).len();
    assert(pos_run(t, w) == pos_step(t, pos_run(t, v), c));
    let p = choose|p: usize| #[trigger] pos_run(t, v).contains(p) && p < n && leaves(t)[p as int] == c && follow_rel(t, p, q);
    if v.len() == 0 {
        assert(pos_run(t, v) == start_positions(t));
        assert((n as usize) as int == n);
        assert(p != n as usize);
        assert(firstpos(t, 0).contains(p));
        let ps = seq![p];
        assert(reads(t, 0, w, ps));
        ps
    } else {
        let pv = lemma_run_to_reads(t, v, p);
        assert(follows(t, 0, pv.last(), p));
        let ps = pv.push(p);
        assert forall|i: int| 0 <= i < ps.len() implies 0 <= #[trigger] ps[i] < 0 + leaves(t).len() && leaves(t)[ps[i] - 0] == w[i] by {
            if i < pv.len() {
                assert(ps[i] == pv[i]);
                assert(w[i] == v[i]);
            }
        }
        assert forall|i: int| 0 <= i < ps.len() - 1 implies follows(t, 0, #[trigger] ps[i], ps[i + 1]) by {
            if i < pv.len() - 1 {
                assert(ps[i] == pv[i]);
                assert(ps[i + 1] == pv[i + 1]);
            }
        }
        assert(reads(t, 0, w, ps));
        ps
    }
}

/// A position that follows the last position of a read of a nonempty word
/// is held by the automaton after that word.
#[verifier::rlimit(40)]
proof fn lemma_reads_to_run(t: LexTree, w: Seq<char>, ps: Seq<usize>, q: usize)
    requires
        reads(t, 0, w, ps),
        follow_rel(t, ps.last(), q),
    ensures
        pos_run(t, w).contains(q),
    decreases w.len(),
{
    let v = w.drop_last();
    let c = w.last();
    let n = leaves(t).len();
    let p = ps.last();
    assert(p < n && leaves(t)[p as int] == c);
    if v.len() == 0 {
        assert(firstpos(t, 0).contains(p));
        assert(pos_run(t, v) == start_positions(t));
        assert(pos_run(t, v).contains(p));
    } else {
        let pv = ps.drop_last();
        assert forall|i: int| 0 <= i < pv.len() implies 0 <= #[trigger] pv[i] < 0 + leaves(t).len() && leaves(t)[pv[i] - 0] == v[i] by {
            assert(pv[i] == ps[i]);
        }
        assert forall|i: int| 0 <= i < pv.len() - 1 implies follows(t, 0, #[trigger] pv[i], pv[i + 1]) by {
            assert(pv[i] == ps[i]);
            assert(pv[i + 1] == ps[i + 1]);
        }
        assert(reads(t, 0, v, pv));
        assert(follows(t, 0, ps[ps.len() - 2], ps[ps.len() - 1]));
        assert(follow_rel(t, pv.last(), p));
        lemma_reads_to_run(t, v, pv, p);
    }
    assert(pos_step(t, pos_run(t, v), c).contains(q));
}

/// The position automaton of a tree accepts exactly the words the tree
/// matches.
pub proof fn lemma_position_automaton_matches(t: LexTree, w: Seq<char>)
    requires
        leaves(t).len() < usize::MAX,
    ensures
        pos_accepts(t, w) == in_language(t, w),
{
    lemma_positions_in_range(t, 0);
    let n = leaves(t).len();
    let end = n as usize;
    if w.len() == 0 {
        lemma_nullable_matches_empty(t);
        assert(w =~= Seq::<char>::empty());
        assert(!firstpos(t, 0).contains(end));
    } else {
        if pos_accepts(t, w) {
            let ps = lemma_run_to_reads(t, w, end);
            assert(!follows(t, 0, ps.last(), end));
            lemma_path_to_match(t, 0, w, ps);
        }
        if in_language(t, w) {
            let ps = lemma_match_to_path(t, 0, w);
            assert(follow_rel(t, ps.last(), end));
            lemma_reads_to_run(t, w, ps, end);
        }
    }
}

/// A tree that does not match the empty word has a first position.
pub proof fn lemma_first_nonempty(t: LexTree, off: nat)
    requires
        !nullable(t),
        off + leaves(t).len() <= usize::MAX,
    ensures
        exists|p: usize| #[trigger] firstpos(t, off).contains(p),
    decreases t,
{
    match t {
        LexTree::Leaf { value: Symbol::Character(_) } => {
            assert(firstpos(t, off).contains(off as usize));
        },
        LexTree::Leaf { value: Symbol::Epsilon } => {},
        LexTree::Binary { value, left_child, right_child } => {
            let mid = off + leaves(*left_child).len();
            if !nullable(*left_child) {
                lemma_first_nonempty(*left_child, off);
                let p = choose|p: usize| #[trigger] firstpos(*left_child, off).contains(p);
                assert(firstpos(t, off).contains(p));
            } else {
                lemma_first_nonempty(*right_child, mid);
                let p = choose|p: usize| #[trigger] firstpos(*right_child, mid).contains(p);
                assert(firstpos(t, off).contains(p));
            }
        },
        LexTree::Unary { child, .. } => {
            lemma_first_nonempty(*child, off);
            let p = choose|p: usize| #[trigger] firstpos(*child, off).contains(p);
            assert(firstpos(t, off).contains(p));
        },
    }
}

/// Every position of a tree starts a chain of follow positions that ends on
/// a last position.
pub proof fn lemma_position_completes(t: LexTree, off: nat, p: usize) -> (ps: Seq<usize>)
    requires
        off <= p < off + leaves(t).len(),
        off + leaves(t).len() <= usize::MAX,
    ensures
        ps.len() > 0,
        ps[0] == p,
        forall|i: int| 0 <= i < ps.len() ==> off <= #[trigger] ps[i] < off + leaves(t).len(),
        forall|i: int| 0 <= i < ps.len() - 1 ==> follows(t, off, #[trigger] ps[i], ps[i + 1]),
        lastpos(t, off).contains(ps.last()),
    decreases t,
{
    lemma_positions_in_range(t, off);
    match t {
        LexTree::Leaf { value: Symbol::Character(c) } => {
            assert(leaves(t) == seq![c]);
            assert(p == off);
            seq![p]
        },
        LexTree::Leaf { value: Symbol::Epsilon } => {
            assert(false);
            seq![]
        },
        LexTree::Binary { value, left_child, right_child } => {
            let l = *left_child;
            let r = *right_child;
            let mid = off + leaves(l).len();
            lemma_positions_in_range(l, off);
            lemma_positions_in_range(r, mid);
            assert(leaves(t) == leaves(l) + leaves(r));
            if p >= mid {
                let ps = lemma_position_completes(r, mid, p);
                assert forall|i: int| 0 <= i < ps.len() - 1 implies follows(t, off, #[trigger] ps[i], ps[i + 1]) by {
                    assert(follows(r, mid, ps[i], ps[i + 1]));
                }
                ps
            } else {
                let ps = lemma_position_completes(l, off, p);
                assert forall|i: int| 0 <= i < ps.len() - 1 implies follows(t, off, #[trigger] ps[i], ps[i + 1]) by {
                    assert(follows(l, off, ps[i], ps[i + 1]));
                }
                if value == BinaryOperator::Or || nullable(r) {
                    ps
                } else {
                    lemma_first_nonempty(r, mid);
                    let q = choose|q: usize| #[trigger] firstpos(r, mid).contains(q);
                    let qs = lemma_position_completes(r, mid, q);
                    let all = ps + qs;
                    assert forall|i: int| 0 <= i < all.len() implies off <= #[trigger] all[i] < off + leaves(t).len() by {
                        if i >= ps.len() {
                            assert(all[i] == qs[i - ps.len()]);
                        }
                    }
                    assert forall|i: int| 0 <= i < all.len() - 1 implies follows(t, off, #[trigger] all[i], all[i + 1]) by {
                        if i < ps.len() - 1 {
                        } else if i == ps.len() - 1 {
                            assert(all[i + 1] == qs[0]);
                        } else {
                            assert(all[i] == qs[i - ps.len()]);
                            assert(all[i + 1] == qs[i + 1 - ps.len()]);
                            assert(follows(r, mid, qs[i - ps.len()], qs[i + 1 - ps.len()]));
                        }
                    }
                    assert(all.last() == qs.last());
                    all
                }
            }
        },
        LexTree::Unary { child, .. } => {
            let c = *child;
            lemma_positions_in_range(c, off);
            let ps = lemma_position_completes(c, off, p);
            assert forall|i: int| 0 <= i < ps.len() - 1 implies follows(t, off, #[trigger] ps[i], ps[i + 1]) by {
                assert(follows(c, off, ps[i], ps[i + 1]));
            }
            ps
        },
    }
}

/// The characters at positions `ps`.
pub open spec fn chars_at(t: LexTree, ps: Seq<usize>) -> Seq<char> {
    Seq::new(ps.len(), |i: int| leaves(t)[ps[i] as int])
}

/// A position following a position of the tree extends to a match.
proof fn lemma_chain_matches(t: LexTree, p: usize) -> (u: Seq<char>)
    requires
        p < leaves(t).len(),
        leaves(t).len() < usize::MAX,
        firstpos(t, 0).contains(p),
    ensures
        in_language(t, u),
{
    let ps = lemma_position_completes(t, 0, p);
    let u = chars_at(t, ps);
    assert(path(t, 0, u, ps));
    lemma_path_to_match(t, 0, u, ps);
    u
}

/// Every word the position automaton can still follow is the start of a
/// word the tree matches.
pub proof fn lemma_prefix_completes(t: LexTree, w: Seq<char>) -> (u: Seq<char>)
    requires
        leaves(t).len() < usize::MAX,
        w.len() == 0 || pos_run(t, w) != Set::<usize>::empty(),
    ensures
        in_language(t, w + u),
{
    lemma_positions_in_range(t, 0);
    let n = leaves(t).len();
    if w.len() == 0 {
        if nullable(t) {
            lemma_nullable_matches_empty(t);
            assert(w + Seq::<char>::empty() =~= Seq::<char>::empty());
            Seq::<char>::empty()
        } else {
            lemma_first_nonempty(t, 0);
            let p = choose|p: usize| #[trigger] firstpos(t, 0).contains(p);
            let u = lemma_chain_matches(t, p);
            assert(w + u =~= u);
            u
        }
    } else {
        if !(exists|q: usize| pos_run(t, w).contains(q)) {
            assert(pos_run(t, w) =~= Set::<usize>::empty());
        }
        let q = choose|q: usize| pos_run(t, w).contains(q);
        let ps = lemma_run_to_reads(t, w, q);
        if follows(t, 0, ps.last(), q) {
            let qs = lemma_position_completes(t, 0, q);
            let u = chars_at(t, qs);
            lemma_path_join(t, 0, w, ps, u, qs);
            lemma_path_to_match(t, 0, w + u, ps + qs);
            u
        } else {
            assert(lastpos(t, 0).contains(ps.last()));
            lemma_path_to_match(t, 0, w, ps);
            assert(w + Seq::<char>::empty() =~= w);
            Seq::<char>::empty()
        }
    }
}

/// Every position of a tree has a follow position or is a last one, so a
/// step on a character some position carries never empties the state.
pub proof fn lemma_step_nonempty(t: LexTree, s: Set<usize>, c: char, p: usize)
    requires
        leaves(t).len() < usize::MAX,
        s.contains(p),
        p < leaves(t).len(),
        leaves(t)[p as int] == c,
    ensures
        pos_step(t, s, c) != Set::<usize>::empty(),
{
    let ps = lemma_position_completes(t, 0, p);
    if ps.len() > 1 {
        assert(follows(t, 0, ps[0], ps[1]));
        assert(pos_step(t, s, c).contains(ps[1]));
    } else {
        assert(follow_rel(t, p, leaves(t).len() as usize));
        assert(pos_step(t, s, c).contains(leaves(t).len() as usize));
    }
}

} // verus!
