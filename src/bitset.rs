use vstd::prelude::*;

verus! {

/// The states marked in a bitmap.
pub open spec fn set_of(v: Seq<bool>) -> Set<usize> {
    Set::new(|q: usize| (q as int) < v.len() && v[q as int])
}

/// How many entries of a bitmap are set.
pub open spec fn count_true(v: Seq<bool>) -> nat
    decreases v.len(),
{
    if v.len() == 0 {
        0
    } else {
        count_true(v.drop_last()) + if v.last() { 1nat } else { 0nat }
    }
}

pub proof fn lemma_count_bounded(v: Seq<bool>)
    ensures
        count_true(v) <= v.len(),
    decreases v.len(),
{
    if v.len() > 0 {
        lemma_count_bounded(v.drop_last());
    }
}

/// Setting an unset entry adds one to the count.
pub proof fn lemma_count_set(v: Seq<bool>, i: int)
    requires
        0 <= i < v.len(),
        !v[i],
    ensures
        count_true(v.update(i, true)) == count_true(v) + 1,
    decreases v.len(),
{
    let u = v.update(i, true);
    if i == v.len() - 1 {
        assert(u.drop_last() =~= v.drop_last());
    } else {
        assert(u.drop_last() =~= v.drop_last().update(i, true));
        lemma_count_set(v.drop_last(), i);
    }
}

/// An entry of a bitmap is set exactly when its state is marked.
pub proof fn lemma_bit(v: Seq<bool>, p: int)
    requires
        0 <= p < v.len(),
        v.len() <= usize::MAX + 1,
    ensures
        v[p] == set_of(v).contains(p as usize),
{
    assert((p as usize) as int == p);
}

/// A bitmap of `n` cleared entries.
pub fn empty_bitmap(n: usize) -> (r: Vec<bool>)
    ensures
        r@.len() == n,
        forall|i: int| 0 <= i < n ==> !r@[i],
        set_of(r@) == Set::<usize>::empty(),
{
    let mut r: Vec<bool> = Vec::new();
    let mut i: usize = 0;
    while i < n
        invariant
            i <= n,
            r@.len() == i,
            forall|k: int| 0 <= k < i ==> !r@[k],
        decreases n - i,
    {
        r.push(false);
        i += 1;
    }
    assert(set_of(r@) =~= Set::<usize>::empty());
    r
}

/// Whether no entry is set.
pub fn none_set(v: &Vec<bool>) -> (r: bool)
    ensures
        r == (set_of(v@) == Set::<usize>::empty()),
        r == (forall|i: int| 0 <= i < v@.len() ==> !v@[i]),
{
    let mut i: usize = 0;
    while i < v.len()
        invariant
            i <= v@.len(),
            forall|k: int| 0 <= k < i ==> !v@[k],
        decreases v@.len() - i,
    {
        if v[i] {
            assert(set_of(v@).contains(i));
            return false;
        }
        i += 1;
    }
    assert(set_of(v@) =~= Set::<usize>::empty());
    true
}

/// Whether two bitmaps are equal entry by entry.
pub fn same_bitmap(a: &Vec<bool>, b: &Vec<bool>) -> (r: bool)
    ensures
        r == (a@ == b@),
{
    if a.len() != b.len() {
        return false;
    }
    let mut i: usize = 0;
    while i < a.len()
        invariant
            a@.len() == b@.len(),
            i <= a@.len(),
            forall|k: int| 0 <= k < i ==> a@[k] == b@[k],
        decreases a@.len() - i,
    {
        if a[i] != b[i] {
            return false;
        }
        i += 1;
    }
    assert(a@ =~= b@);
    true
}

/// Two bitmaps of one length are equal exactly when they mark the same states.
pub proof fn lemma_set_of_injective(a: Seq<bool>, b: Seq<bool>)
    requires
        a.len() == b.len(),
        a.len() <= usize::MAX,
        set_of(a) == set_of(b),
    ensures
        a == b,
{
    assert forall|i: int| 0 <= i < a.len() implies a[i] == b[i] by {
        let q = i as usize;
        assert(q as int == i);
        assert(set_of(a).contains(q) == a[i]);
        assert(set_of(b).contains(q) == b[i]);
    }
    assert(a =~= b);
}

/// Every bitmap of length `n`.
pub open spec fn all_bitmaps(n: nat) -> Set<Seq<bool>>
    decreases n,
{
    if n == 0 {
        set![Seq::<bool>::empty()]
    } else {
        let smaller = all_bitmaps((n - 1) as nat);
        smaller.map(|s: Seq<bool>| s.push(false)).union(smaller.map(|s: Seq<bool>| s.push(true)))
    }
}

pub open spec fn pow2(n: nat) -> nat
    decreases n,
{
    if n == 0 {
        1
    } else {
        2 * pow2((n - 1) as nat)
    }
}

proof fn lemma_all_bitmaps(n: nat)
    ensures
        all_bitmaps(n).finite(),
        all_bitmaps(n).len() == pow2(n),
        forall|s: Seq<bool>| s.len() == n ==> #[trigger] all_bitmaps(n).contains(s),
    decreases n,
{
    if n == 0 {
        assert forall|s: Seq<bool>| s.len() == n implies #[trigger] all_bitmaps(n).contains(s) by {
            assert(s =~= Seq::<bool>::empty());
        }
    } else {
        let smaller = all_bitmaps((n - 1) as nat);
        lemma_all_bitmaps((n - 1) as nat);
        let f = |s: Seq<bool>| s.push(false);
        let g = |s: Seq<bool>| s.push(true);
        assert(vstd::relations::injective_on(f, smaller)) by {
            assert forall|x: Seq<bool>, y: Seq<bool>| smaller.contains(x) && smaller.contains(y) && #[trigger] f(x) == #[trigger] f(y) implies x == y by {
                assert(x =~= f(x).drop_last());
                assert(y =~= f(y).drop_last());
            }
        }
        assert(vstd::relations::injective_on(g, smaller)) by {
            assert forall|x: Seq<bool>, y: Seq<bool>| smaller.contains(x) && smaller.contains(y) && #[trigger] g(x) == #[trigger] g(y) implies x == y by {
                assert(x =~= g(x).drop_last());
                assert(y =~= g(y).drop_last());
            }
        }
        vstd::set_lib::lemma_map_size(smaller, smaller.map(f), f);
        vstd::set_lib::lemma_map_size(smaller, smaller.map(g), g);
        assert(smaller.map(f).disjoint(smaller.map(g))) by {
            assert forall|s: Seq<bool>| smaller.map(f).contains(s) implies !smaller.map(g).contains(s) by {
                let x = choose|x: Seq<bool>| smaller.contains(x) && f(x) == s;
                if smaller.map(g).contains(s) {
                    let y = choose|y: Seq<bool>| smaller.contains(y) && g(y) == s;
                    assert(s.last() == false);
                    assert(g(y).last() == true);
                }
            }
        }
        vstd::set_lib::lemma_set_disjoint_lens(smaller.map(f), smaller.map(g));
        assert forall|s: Seq<bool>| s.len() == n implies #[trigger] all_bitmaps(n).contains(s) by {
            let p = s.drop_last();
            assert(smaller.contains(p));
            if s.last() {
                assert(s =~= g(p));
                assert(smaller.map(g).contains(g(p)));
            } else {
                assert(s =~= f(p));
                assert(smaller.map(f).contains(f(p)));
            }
        }
    }
}

/// Pairwise different bitmaps of one length `n` number at most `2^n`.
pub proof fn lemma_distinct_bitmaps_bounded(known: Seq<Seq<bool>>, n: nat)
    requires
        known.no_duplicates(),
        forall|i: int| 0 <= i < known.len() ==> (#[trigger] known[i]).len() == n,
    ensures
        known.len() <= pow2(n),
{
    lemma_all_bitmaps(n);
    known.unique_seq_to_set();
    assert(known.to_set().subset_of(all_bitmaps(n))) by {
        assert forall|s: Seq<bool>| known.to_set().contains(s) implies all_bitmaps(n).contains(s) by {
            let i = choose|i: int| 0 <= i < known.len() && known[i] == s;
            assert(known[i].len() == n);
        }
    }
    vstd::set_lib::lemma_len_subset(known.to_set(), all_bitmaps(n));
}

/// Finds `set` among the known state sets, appending it if new; returns
/// its index.
pub fn index_of_bitmap(known: &mut Vec<Vec<bool>>, set: Vec<bool>, n: usize) -> (r: usize)
    requires
        old(known)@.len() <= pow2(n as nat),
        set@.len() == n,
        forall|k: int| 0 <= k < old(known)@.len() ==> (#[trigger] old(known)@[k])@.len() == n,
        old(known)@.map_values(|v: Vec<bool>| v@).no_duplicates(),
    ensures
        r < final(known)@.len(),
        final(known)@[r as int]@ == set@,
        final(known)@.len() == old(known)@.len() || final(known)@ == old(known)@.push(set),
        final(known)@.len() > old(known)@.len() ==> r == old(known)@.len(),
        final(known)@.len() <= pow2(n as nat),
        forall|k: int| 0 <= k < old(known)@.len() ==> (#[trigger] final(known)@[k]) == old(known)@[k],
        forall|k: int| 0 <= k < final(known)@.len() ==> (#[trigger] final(known)@[k])@.len() == n,
        final(known)@.map_values(|v: Vec<bool>| v@).no_duplicates(),
{
    let mut i: usize = 0;
    while i < known.len()
        invariant
            i <= known@.len(),
            known@ == old(known)@,
            known@.len() <= pow2(n as nat),
            set@.len() == n,
            forall|k: int| 0 <= k < known@.len() ==> (#[trigger] known@[k])@.len() == n,
            known@.map_values(|v: Vec<bool>| v@).no_duplicates(),
            forall|k: int| 0 <= k < i ==> (#[trigger] known@[k])@ != set@,
        decreases known@.len() - i,
    {
        if same_bitmap(&known[i], &set) {
            return i;
        }
        i += 1;
    }
    let ghost before = known@;
    known.push(set);
    proof {
        let kn = known@.map_values(|v: Vec<bool>| v@);
        assert(kn =~= before.map_values(|v: Vec<bool>| v@).push(set@));
        assert forall|a: int, b: int| 0 <= a < kn.len() && 0 <= b < kn.len() && a != b implies kn[a] != kn[b] by {
            if a == kn.len() - 1 {
                assert(before[b]@ != set@);
            } else if b == kn.len() - 1 {
                assert(before[a]@ != set@);
            }
        }
        lemma_distinct_bitmaps_bounded(kn, n as nat);
    }
    known.len() - 1
}

} // verus!
