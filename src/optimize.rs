use vstd::prelude::*;
use vstd::set_lib::{lemma_int_range, lemma_map_size_bound, set_int_range};
use crate::dfa::{
    deterministic, delta_of, has_transition_in, lemma_delta_of_unique, lemma_run_concat, lemma_run_from_prepend, lemma_run_from_zero,
    lemma_run_of_within, lookup,
    run_from, run_of, transitions_within, DFAutomata, Transition,
};
use crate::bitset::{count_true, empty_bitmap, lemma_count_bounded, lemma_count_set};
use crate::builder::distinct_chars;
use crate::symbols::State;

verus! {

/// `part` puts each of the states `0..n` in one of the blocks `0..k`, and
/// every block holds a state.
pub open spec fn blocks_ok(part: Seq<usize>, n: nat, k: nat) -> bool {
    &&& part.len() == n
    &&& forall|s: int| 0 <= s < n ==> #[trigger] part[s] < k
    &&& forall|b: int| 0 <= b < k ==> #[trigger] has_member(part, n as int, b)
}

/// Some state of `0..n` lies in block `b`.
pub open spec fn has_member(part: Seq<usize>, n: int, b: int) -> bool {
    exists|s: int| 0 <= s < n && #[trigger] part[s] == b
}

/// The block that the transition on `c` from `s` leads to, if any.
pub open spec fn key(t: Seq<Transition>, part: Seq<usize>, s: State, c: char) -> Option<usize> {
    match delta_of(t, s, c) {
        Some(d) => Some(part[d as int]),
        None => None,
    }
}

/// States of one block lead into one block on `c` (or all have no
/// transition on `c`).
pub open spec fn stable(t: Seq<Transition>, part: Seq<usize>, n: nat, c: char) -> bool {
    forall|s: State, u: State| s < n && u < n && part[s as int] == part[u as int] ==> #[trigger] key(t, part, s, c) == #[trigger] key(t, part, u, c)
}

/// A partition has no more blocks than states.
proof fn lemma_blocks_bounded(part: Seq<usize>, n: nat, k: nat)
    requires
        blocks_ok(part, n, k),
    ensures
        k <= n,
{
    let x = set_int_range(0, n as int);
    let f = |s: int| part[s] as int;
    lemma_int_range(0, n as int);
    lemma_int_range(0, k as int);
    assert(x.map(f) =~= set_int_range(0, k as int)) by {
        assert forall|b: int| set_int_range(0, k as int).contains(b) implies x.map(f).contains(b) by {
            assert(has_member(part, n as int, b));
            let s = choose|s: int| 0 <= s < n && #[trigger] part[s] == b;
            assert(x.contains(s) && f(s) == b);
        }
    }
    lemma_map_size_bound(x, x.map(f), f);
}

pub open spec fn has_sig_in(sigs: Seq<(usize, usize)>, b: int) -> bool {
    exists|a: int| 0 <= a < sigs.len() && #[trigger] sigs[a].0 == b
}

/// Distinct signatures whose blocks cover `0..k`, two of them in one
/// block, number more than `k`.
proof fn lemma_split_grows(sigs: Seq<(usize, usize)>, k: nat, i: int, j: int)
    requires
        sigs.no_duplicates(),
        forall|a: int| 0 <= a < sigs.len() ==> (#[trigger] sigs[a]).0 < k,
        forall|b: int| 0 <= b < k ==> #[trigger] has_sig_in(sigs, b),
        0 <= i < sigs.len(),
        0 <= j < sigs.len(),
        i != j,
        sigs[i].0 == sigs[j].0,
    ensures
        sigs.len() > k,
{
    let s = sigs.to_set();
    sigs.unique_seq_to_set();
    let x = s.remove(sigs[i]);
    let f = |g: (usize, usize)| g.0 as int;
    lemma_int_range(0, k as int);
    assert(x.map(f) =~= set_int_range(0, k as int)) by {
        assert forall|b: int| set_int_range(0, k as int).contains(b) implies x.map(f).contains(b) by {
            assert(has_sig_in(sigs, b));
            let a = choose|a: int| 0 <= a < sigs.len() && #[trigger] sigs[a].0 == b;
            if sigs[a] == sigs[i] {
                assert(sigs[j] != sigs[i]);
                assert(x.contains(sigs[j]) && f(sigs[j]) == b);
            } else {
                assert(x.contains(sigs[a]) && f(sigs[a]) == b);
            }
        }
        assert forall|b: int| x.map(f).contains(b) implies set_int_range(0, k as int).contains(b) by {
            let g = choose|g: (usize, usize)| x.contains(g) && f(g) == b;
            let a = choose|a: int| 0 <= a < sigs.len() && sigs[a] == g;
            assert(sigs[a].0 < k);
        }
    }
    lemma_map_size_bound(x, x.map(f), f);
}

/// The block of the destination on `c`, plus one, or 0 without a transition.
fn key_code(t: &Vec<Transition>, part: &Vec<usize>, s: State, c: char) -> (r: usize)
    requires
        deterministic(t@),
        transitions_within(t@, (part@.len() - 1) as usize),
        part@.len() >= 1,
        forall|x: int| 0 <= x < part@.len() ==> #[trigger] part@[x] < usize::MAX,
    ensures
        r == match key(t@, part@, s, c) {
            Some(b) => b + 1,
            None => 0,
        },
{
    match lookup(t, s, c) {
        Some(d) => {
            proof {
                let i = choose|i: int| 0 <= i < t@.len() && t@[i].0 == s && t@[i].1 == c;
                assert(t@[i].2 <= part@.len() - 1);
            }
            part[d] + 1
        },
        None => 0,
    }
}

/// `key` as a number: the block plus one, or 0 without a transition.
pub open spec fn code(t: Seq<Transition>, part: Seq<usize>, x: int, c: char) -> int {
    match key(t, part, x as State, c) {
        Some(b) => b + 1,
        None => 0,
    }
}

/// Splits every block by the block that `c` leads to. Returns the new
/// partition, its number of blocks, and whether any block was split.
#[verifier::spinoff_prover]
fn refine(t: &Vec<Transition>, part: &Vec<usize>, k: usize, c: char) -> (r: (Vec<usize>, usize, bool))
    requires
        deterministic(t@),
        part@.len() >= 1,
        transitions_within(t@, (part@.len() - 1) as usize),
        blocks_ok(part@, part@.len(), k as nat),
    ensures
        blocks_ok(r.0@, part@.len(), r.1 as nat),
        r.1 <= part@.len(),
        splits_by(t@, part@, r.0@, part@.len(), c),
        r.2 == !stable(t@, part@, part@.len(), c),
        r.2 ==> r.1 > k,
{
    let n = part.len();
    let mut sigs: Vec<(usize, usize)> = Vec::new();
    let mut new_part: Vec<usize> = Vec::new();
    let mut split = false;
    let mut s: usize = 0;
    while s < n
        invariant
            n == part@.len(),
            n >= 1,
            deterministic(t@),
            transitions_within(t@, (n - 1) as usize),
            blocks_ok(part@, n as nat, k as nat),
            s <= n,
            sigs@.no_duplicates(),
            forall|a: int| 0 <= a < sigs@.len() ==> (#[trigger] sigs@[a]).0 < k,
            new_part@.len() == s,
            forall|x: int| 0 <= x < s ==> #[trigger] new_part@[x] < sigs@.len() && sigs@[new_part@[x] as int] == (
            part@[x], code(t@, part@, x, c) as usize),
            forall|a: int| 0 <= a < sigs@.len() ==> #[trigger] has_member(new_part@, s as int, a),
            split == exists|a: int, b: int| 0 <= a < sigs@.len() && 0 <= b < sigs@.len() && a != b && #[trigger] sigs@[a].0
                == #[trigger] sigs@[b].0,
        decreases n - s,
    {
        assert forall|x: int| 0 <= x < n implies #[trigger] part@[x] < usize::MAX by {}
        let code_s = key_code(t, part, s, c);
        let block = part[s];
        let mut found = sigs.len();
        let mut same_block = false;
        let mut j: usize = 0;
        while j < sigs.len()
            invariant
                j <= sigs@.len(),
                sigs@.no_duplicates(),
                found == sigs@.len() || (found < j && sigs@[found as int] == (block, code_s)),
                found == sigs@.len() ==> forall|a: int| 0 <= a < j ==> sigs@[a] != (block, code_s),
                same_block == exists|a: int| 0 <= a < j && sigs@[a].0 == block && sigs@[a].1 != code_s,
            decreases sigs@.len() - j,
        {
            if sigs[j].0 == block {
                if sigs[j].1 == code_s {
                    found = j;
                } else {
                    same_block = true;
                }
            }
            j += 1;
        }
        let ghost old_sigs = sigs@;
        let ghost old_split = split;
        let ghost old_new_part = new_part@;
        if found == sigs.len() {
            sigs.push((block, code_s));
            proof {
                assert forall|a: int, b: int| 0 <= a < sigs@.len() && 0 <= b < sigs@.len() && a != b implies sigs@[a] != sigs@[b] by {
                    if a == old_sigs.len() {
                        assert(old_sigs[b] != (block, code_s));
                    } else if b == old_sigs.len() {
                        assert(old_sigs[a] != (block, code_s));
                    }
                }
            }
        }
        if same_block {
            split = true;
        }
        new_part.push(found);
        proof {
            assert(sigs@.len() == old_sigs.len() || sigs@ == old_sigs.push((block, code_s)));
            assert forall|a: int| 0 <= a < old_sigs.len() implies sigs@[a] == old_sigs[a] by {}
            assert forall|x: int| 0 <= x < s + 1 implies #[trigger] new_part@[x] < sigs@.len() && sigs@[new_part@[x] as int] == (
                part@[x], code(t@, part@, x, c) as usize) by {
                if x < s {
                    assert(new_part@[x] == old_new_part[x]);
                    assert(sigs@[old_new_part[x] as int] == old_sigs[old_new_part[x] as int]);
                } else {
                    assert((x as State) == s);
                    assert(code(t@, part@, x, c) == code_s as int);
                    assert(new_part@[x] == found);
                    assert(sigs@[found as int] == (block, code_s));
                }
            }
            assert forall|a: int| 0 <= a < sigs@.len() implies #[trigger] has_member(new_part@, s + 1, a) by {
                if a < old_sigs.len() {
                    assert(has_member(old_new_part, s as int, a));
                    let x = choose|x: int| 0 <= x < s && #[trigger] old_new_part[x] == a;
                    assert(new_part@[x] == a);
                } else {
                    assert(new_part@[s as int] == a);
                }
            }
            if split && !old_split {
                let a = choose|a: int| 0 <= a < old_sigs.len() && old_sigs[a].0 == block && old_sigs[a].1 != code_s;
                assert(sigs@[a].0 == sigs@[found as int].0);
            }
            if old_split {
                let (a, b) = choose|a: int, b: int| 0 <= a < old_sigs.len() && 0 <= b < old_sigs.len() && a != b && #[trigger] old_sigs[a].0
                    == #[trigger] old_sigs[b].0;
                assert(sigs@[a].0 == sigs@[b].0);
            }
            if !split {
                assert forall|a: int, b: int| 0 <= a < sigs@.len() && 0 <= b < sigs@.len() && a != b implies #[trigger] sigs@[a].0
                    != #[trigger] sigs@[b].0 by {
                    if a == old_sigs.len() && sigs@.len() > old_sigs.len() {
                        assert(old_sigs[b].0 != block || old_sigs[b].1 == code_s);
                        assert(old_sigs[b] != (block, code_s));
                    } else if b == old_sigs.len() && sigs@.len() > old_sigs.len() {
                        assert(old_sigs[a].0 != block || old_sigs[a].1 == code_s);
                        assert(old_sigs[a] != (block, code_s));
                    } else {
                        assert(old_sigs[a].0 != old_sigs[b].0);
                    }
                }
            }
        }
        s += 1;
    }
    let new_k = sigs.len();
    proof {
        assert forall|x: State, y: State| x < n && y < n implies (new_part@[x as int] == new_part@[y as int] <==> (
            part@[x as int] == part@[y as int] && key(t@, part@, x, c) == key(t@, part@, y, c))) by {
            assert(sigs@[new_part@[x as int] as int] == (part@[x as int], code(t@, part@, x as int, c) as usize));
            assert(sigs@[new_part@[y as int] as int] == (part@[y as int], code(t@, part@, y as int, c) as usize));
            if key(t@, part@, x, c) != key(t@, part@, y, c) && part@[x as int] == part@[y as int] {
                assert(code(t@, part@, x as int, c) != code(t@, part@, y as int, c));
            }
        }
        assert(blocks_ok(new_part@, n as nat, new_k as nat));
        lemma_blocks_bounded(new_part@, n as nat, new_k as nat);
        if split {
            let (a, b) = choose|a: int, b: int| 0 <= a < sigs@.len() && 0 <= b < sigs@.len() && a != b && #[trigger] sigs@[a].0
                == #[trigger] sigs@[b].0;
            assert(has_member(new_part@, n as int, a));
            assert(has_member(new_part@, n as int, b));
            let x = choose|x: int| 0 <= x < n && #[trigger] new_part@[x] == a;
            let y = choose|y: int| 0 <= y < n && #[trigger] new_part@[y] == b;
            assert(key(t@, part@, x as State, c) != key(t@, part@, y as State, c));
            assert(!stable(t@, part@, n as nat, c));
            assert forall|b2: int| 0 <= b2 < k implies #[trigger] has_sig_in(sigs@, b2) by {
                assert(has_member(part@, n as int, b2));
                let z = choose|z: int| 0 <= z < n && #[trigger] part@[z] == b2;
                assert(sigs@[new_part@[z] as int].0 == b2);
            }
            lemma_split_grows(sigs@, k as nat, a, b);
        } else {
            assert forall|x: State, y: State| x < n && y < n && part@[x as int] == part@[y as int] implies #[trigger] key(t@, part@, x, c)
                == #[trigger] key(t@, part@, y, c) by {
                let a = new_part@[x as int] as int;
                let b = new_part@[y as int] as int;
                if a != b {
                    assert(sigs@[a].0 == sigs@[b].0);
                }
            }
        }
    }
    (new_part, new_k, split)
}

/// Every transition's character is in the alphabet.
pub open spec fn labels_within(t: Seq<Transition>, alphabet: Seq<char>) -> bool {
    forall|i: int| 0 <= i < t.len() ==> alphabet.contains(#[trigger] t[i].1)
}

/// States in one block of `fine` are in one block of `coarse`.
pub open spec fn refines(fine: Seq<usize>, coarse: Seq<usize>, n: nat) -> bool {
    forall|s: int, u: int| 0 <= s < n && 0 <= u < n && fine[s] == fine[u] ==> #[trigger] coarse[s] == #[trigger] coarse[u]
}

/// `q` refines `start` and is stable on every character of `alphabet`.
pub open spec fn stable_refinement(t: Seq<Transition>, q: Seq<usize>, n: nat, alphabet: Seq<char>, start: Seq<usize>) -> bool {
    &&& q.len() == n
    &&& refines(q, start, n)
    &&& forall|a: int| 0 <= a < alphabet.len() ==> stable(t, q, n, #[trigger] alphabet[a])
}

/// `new_part` puts two states together exactly when `part` does and `c`
/// leads them into one block.
pub open spec fn splits_by(t: Seq<Transition>, part: Seq<usize>, new_part: Seq<usize>, n: nat, c: char) -> bool {
    forall|s: State, u: State| s < n && u < n ==> (new_part[s as int] == new_part[u as int] <==> (
    part[s as int] == part[u as int] && key(t, part, s, c) == key(t, part, u, c)))
}

/// Splitting on `c` keeps every partition stable on `c` that refined the
/// partition before the split.
proof fn lemma_split_keeps_finer(t: Seq<Transition>, part: Seq<usize>, new_part: Seq<usize>, n: nat, c: char, q: Seq<usize>)
    requires
        n >= 1,
        n <= usize::MAX,
        part.len() == n,
        q.len() == n,
        transitions_within(t, (n - 1) as usize),
        refines(q, part, n),
        stable(t, q, n, c),
        splits_by(t, part, new_part, n, c),
    ensures
        refines(q, new_part, n),
{
    assert forall|s: int, u: int| 0 <= s < n && 0 <= u < n && q[s] == q[u] implies #[trigger] new_part[s] == #[trigger] new_part[u] by {
        let ss = s as State;
        let uu = u as State;
        assert(ss as int == s && uu as int == u);
        assert(part[s] == part[u]);
        assert(key(t, q, ss, c) == key(t, q, uu, c));
        if has_transition_in(t, ss, c) {
            let i = choose|i: int| 0 <= i < t.len() && t[i].0 == ss && t[i].1 == c;
            assert(t[i].2 <= n - 1);
        }
        if has_transition_in(t, uu, c) {
            let i = choose|i: int| 0 <= i < t.len() && t[i].0 == uu && t[i].1 == c;
            assert(t[i].2 <= n - 1);
        }
        if let (Some(d1), Some(d2)) = (delta_of(t, ss, c), delta_of(t, uu, c)) {
            assert(q[d1 as int] == q[d2 as int]);
            assert(part[d1 as int] == part[d2 as int]);
        }
        assert(key(t, part, ss, c) == key(t, part, uu, c));
    }
}

/// Reading `w` from `s` ends in a state marked accepting in `acc`.
pub open spec fn accepts_raw(t: Seq<Transition>, acc: Seq<bool>, s: State, w: Seq<char>) -> bool {
    match run_from(t, s, w) {
        Some(x) => x < acc.len() && acc[x as int],
        None => false,
    }
}

/// Some word is accepted from one of `s`, `u` and not from the other.
pub open spec fn differ(t: Seq<Transition>, acc: Seq<bool>, s: State, u: State) -> bool {
    exists|w: Seq<char>| accepts_raw(t, acc, s, w) != accepts_raw(t, acc, u, w)
}

/// Some word leads from `s` to an accepting state.
pub open spec fn live_raw(t: Seq<Transition>, acc: Seq<bool>, s: State) -> bool {
    exists|w: Seq<char>| accepts_raw(t, acc, s, w)
}

pub open spec fn all_live(t: Seq<Transition>, acc: Seq<bool>, n: nat) -> bool {
    forall|s: State| s < n ==> #[trigger] live_raw(t, acc, s)
}

/// States in different blocks accept different words.
pub open spec fn separated(t: Seq<Transition>, acc: Seq<bool>, part: Seq<usize>, n: nat) -> bool {
    forall|s: State, u: State| s < n && u < n && part[s as int] != part[u as int] ==> #[trigger] differ(t, acc, s, u) && differ(t, acc, u, s)
}

/// With every state live, a split on `c` only separates states that accept
/// different words.
proof fn lemma_split_separates(t: Seq<Transition>, acc: Seq<bool>, part: Seq<usize>, new_part: Seq<usize>, n: nat, c: char)
    requires
        n >= 1,
        n <= usize::MAX,
        part.len() == n,
        acc.len() == n,
        transitions_within(t, (n - 1) as usize),
        all_live(t, acc, n),
        separated(t, acc, part, n),
        splits_by(t, part, new_part, n, c),
    ensures
        separated(t, acc, new_part, n),
{
    assert forall|s: State, u: State| s < n && u < n && new_part[s as int] != new_part[u as int] implies #[trigger] differ(t, acc, s, u)
        && differ(t, acc, u, s) by {
        if part[s as int] == part[u as int] {
            lemma_key_differ(t, acc, part, n, c, s, u);
            lemma_key_differ(t, acc, part, n, c, u, s);
        }
    }
}

proof fn lemma_key_differ(t: Seq<Transition>, acc: Seq<bool>, part: Seq<usize>, n: nat, c: char, s: State, u: State)
    requires
        n >= 1,
        part.len() == n,
        acc.len() == n,
        s < n,
        u < n,
        transitions_within(t, (n - 1) as usize),
        all_live(t, acc, n),
        separated(t, acc, part, n),
        key(t, part, s, c) != key(t, part, u, c),
    ensures
        differ(t, acc, s, u),
{
    if has_transition_in(t, s, c) {
        let i = choose|i: int| 0 <= i < t.len() && t[i].0 == s && t[i].1 == c;
        assert(t[i].2 <= n - 1);
    }
    if has_transition_in(t, u, c) {
        let i = choose|i: int| 0 <= i < t.len() && t[i].0 == u && t[i].1 == c;
        assert(t[i].2 <= n - 1);
    }
    match (delta_of(t, s, c), delta_of(t, u, c)) {
        (Some(d1), Some(d2)) => {
            assert(part[d1 as int] != part[d2 as int]);
            assert(differ(t, acc, d1, d2));
            let w = choose|w: Seq<char>| accepts_raw(t, acc, d1, w) != accepts_raw(t, acc, d2, w);
            lemma_run_from_prepend(t, s, c, w);
            lemma_run_from_prepend(t, u, c, w);
            assert(accepts_raw(t, acc, s, seq![c] + w) != accepts_raw(t, acc, u, seq![c] + w));
        },
        (Some(d1), None) => {
            assert(live_raw(t, acc, d1));
            let w = choose|w: Seq<char>| accepts_raw(t, acc, d1, w);
            lemma_run_from_prepend(t, s, c, w);
            lemma_run_from_prepend(t, u, c, w);
            assert(accepts_raw(t, acc, s, seq![c] + w) != accepts_raw(t, acc, u, seq![c] + w));
        },
        (None, Some(d2)) => {
            assert(live_raw(t, acc, d2));
            let w = choose|w: Seq<char>| accepts_raw(t, acc, d2, w);
            lemma_run_from_prepend(t, s, c, w);
            lemma_run_from_prepend(t, u, c, w);
            assert(accepts_raw(t, acc, s, seq![c] + w) != accepts_raw(t, acc, u, seq![c] + w));
        },
        (None, None) => {},
    }
}

/// States in one block of `q` agree on acceptance.
pub open spec fn respects_acceptance(q: Seq<usize>, acc: Seq<bool>) -> bool {
    &&& q.len() == acc.len()
    &&& forall|s: int, u: int| 0 <= s < acc.len() && 0 <= u < acc.len() && q[s] == q[u] ==> #[trigger] acc[s] == #[trigger] acc[u]
}

/// Minimization by partition refinement: the input automaton, the alphabet,
/// and the current partition of its states into blocks.
pub struct DFAOptimizer {
    old_transitions: Vec<Transition>,
    partitions: Vec<usize>,
    partition_count: usize,
    alphabet: Vec<char>,
    old_acceptance_states: Vec<bool>,
}

/// Block `x` once the dead block, if any, is taken out.
pub open spec fn base_id(x: usize, dead: Option<usize>) -> usize {
    if dead matches Some(d) && x > d {
        (x - 1) as usize
    } else {
        x
    }
}

/// Where block `b` goes in the result: blocks after the dead one move down
/// by one, and the block of state 0 trades places with block 0.
pub open spec fn new_id(b: usize, dead: Option<usize>, initial: usize) -> usize {
    if base_id(b, dead) == base_id(initial, dead) {
        0
    } else if base_id(b, dead) == 0 {
        base_id(initial, dead)
    } else {
        base_id(b, dead)
    }
}

/// The number of blocks left once the dead one is taken out.
pub open spec fn kept(k: nat, dead: Option<usize>) -> nat {
    if dead is Some {
        (k - 1) as nat
    } else {
        k
    }
}

/// `new_id` numbers the kept blocks `0..kept` one to one, block of state 0
/// first.
pub proof fn lemma_new_id(k: nat, dead: Option<usize>, initial: usize)
    requires
        initial < k,
        dead matches Some(d) ==> d < k && d != initial,
    ensures
        new_id(initial, dead, initial) == 0,
        forall|b: usize| b < k && dead != Some(b) ==> #[trigger] new_id(b, dead, initial) < kept(k, dead),
        forall|b1: usize, b2: usize| b1 < k && b2 < k && dead != Some(b1) && dead != Some(b2) && b1 != b2 ==> #[trigger] new_id(
            b1,
            dead,
            initial,
        ) != #[trigger] new_id(b2, dead, initial),
{
}

fn new_id_exec(b: usize, dead: Option<usize>, initial: usize) -> (r: usize)
    ensures
        r == new_id(b, dead, initial),
{
    let base_b = match dead {
        Some(d) => if b > d { b - 1 } else { b },
        None => b,
    };
    let base_i = match dead {
        Some(d) => if initial > d { initial - 1 } else { initial },
        None => initial,
    };
    if base_b == base_i {
        0
    } else if base_b == 0 {
        base_i
    } else {
        base_b
    }
}

impl DFAOptimizer {
    spec fn n(&self) -> nat {
        self.old_acceptance_states@.len()
    }

    spec fn inv(&self) -> bool {
        &&& self.n() >= 1
        &&& self.n() <= usize::MAX
        &&& deterministic(self.old_transitions@)
        &&& transitions_within(self.old_transitions@, (self.n() - 1) as usize)
        &&& labels_within(self.old_transitions@, self.alphabet@)
        &&& self.alphabet@.no_duplicates()
        &&& blocks_ok(self.partitions@, self.n(), self.partition_count as nat)
        &&& forall|s: int, u: int| 0 <= s < self.n() && 0 <= u < self.n() && self.partitions@[s] == self.partitions@[u]
            ==> #[trigger] self.old_acceptance_states@[s] == #[trigger] self.old_acceptance_states@[u]
    }

    spec fn all_stable(&self) -> bool {
        forall|a: int| 0 <= a < self.alphabet@.len() ==> stable(self.old_transitions@, self.partitions@, self.n(), #[trigger] self.alphabet@[a])
    }

    /// Splits blocks until every block is stable on every character. The
    /// result refines the starting partition, and every stable refinement
    /// of the starting partition refines it: it is the coarsest one.
    #[verifier::spinoff_prover]
    fn fix_partitions(&mut self)
        requires
            old(self).inv(),
        ensures
            final(self).inv(),
            final(self).all_stable(),
            refines(final(self).partitions@, old(self).partitions@, old(self).n()),
            forall|q: Seq<usize>| #[trigger] stable_refinement(
                old(self).old_transitions@,
                q,
                old(self).n(),
                old(self).alphabet@,
                old(self).partitions@,
            ) ==> refines(q, final(self).partitions@, old(self).n()),
            final(self).old_transitions@ == old(self).old_transitions@,
            final(self).alphabet@ == old(self).alphabet@,
            final(self).old_acceptance_states@ == old(self).old_acceptance_states@,
            all_live(old(self).old_transitions@, old(self).old_acceptance_states@, old(self).n()) && separated(
                old(self).old_transitions@,
                old(self).old_acceptance_states@,
                old(self).partitions@,
                old(self).n(),
            ) ==> separated(old(self).old_transitions@, old(self).old_acceptance_states@, final(self).partitions@, old(self).n()),
    {
        let n = self.old_acceptance_states.len();
        let ghost part0 = self.partitions@;
        let ghost t0 = self.old_transitions@;
        let ghost alpha0 = self.alphabet@;
        let ghost acc0 = self.old_acceptance_states@;
        let ghost premise = all_live(t0, acc0, n as nat) && separated(t0, acc0, part0, n as nat);
        loop
            invariant
                self.inv(),
                n == self.n(),
                self.old_transitions@ == old(self).old_transitions@,
                self.alphabet@ == old(self).alphabet@,
                self.old_acceptance_states@ == old(self).old_acceptance_states@,
                part0 == old(self).partitions@,
                t0 == old(self).old_transitions@,
                alpha0 == old(self).alphabet@,
                refines(self.partitions@, part0, n as nat),
                forall|q: Seq<usize>| #[trigger] stable_refinement(t0, q, n as nat, alpha0, part0) ==> refines(q, self.partitions@, n as nat),
                acc0 == old(self).old_acceptance_states@,
                premise == (all_live(t0, acc0, n as nat) && separated(t0, acc0, part0, n as nat)),
                premise ==> separated(t0, acc0, self.partitions@, n as nat),
            ensures
                self.inv(),
                self.all_stable(),
                refines(self.partitions@, part0, n as nat),
                forall|q: Seq<usize>| #[trigger] stable_refinement(t0, q, n as nat, alpha0, part0) ==> refines(q, self.partitions@, n as nat),
                self.old_transitions@ == old(self).old_transitions@,
                self.alphabet@ == old(self).alphabet@,
                self.old_acceptance_states@ == old(self).old_acceptance_states@,
            decreases n - self.partition_count,
        {
            proof { lemma_blocks_bounded(self.partitions@, self.n(), self.partition_count as nat); }
            let k0 = self.partition_count;
            let ghost round_start = self.partitions@;
            let mut changed = false;
            let mut a: usize = 0;
            while a < self.alphabet.len()
                invariant
                    self.inv(),
                    n == self.n(),
                    self.old_transitions@ == old(self).old_transitions@,
                    self.alphabet@ == old(self).alphabet@,
                    self.old_acceptance_states@ == old(self).old_acceptance_states@,
                    a <= self.alphabet@.len(),
                    self.partition_count >= k0,
                    self.partition_count <= n,
                    changed ==> self.partition_count > k0,
                    !changed ==> self.partitions@ == round_start,
                    part0 == old(self).partitions@,
                    t0 == old(self).old_transitions@,
                    alpha0 == old(self).alphabet@,
                    refines(self.partitions@, part0, n as nat),
                    forall|q: Seq<usize>| #[trigger] stable_refinement(t0, q, n as nat, alpha0, part0) ==> refines(q, self.partitions@, n as nat),
                    !changed ==> forall|b: int| 0 <= b < a ==> stable(self.old_transitions@, self.partitions@, self.n(), #[trigger] self.alphabet@[b]),
                    acc0 == old(self).old_acceptance_states@,
                    premise == (all_live(t0, acc0, n as nat) && separated(t0, acc0, part0, n as nat)),
                    premise ==> separated(t0, acc0, self.partitions@, n as nat),
                decreases self.alphabet@.len() - a,
            {
                let (new_partitions, new_count, split) = refine(
                    &self.old_transitions,
                    &self.partitions,
                    self.partition_count,
                    self.alphabet[a],
                );
                if split {
                    let ghost old_part = self.partitions@;
                    self.partitions = new_partitions;
                    self.partition_count = new_count;
                    changed = true;
                    proof {
                        assert forall|s: int, u: int| 0 <= s < self.n() && 0 <= u < self.n() && self.partitions@[s] == self.partitions@[u]
                            implies #[trigger] self.old_acceptance_states@[s] == #[trigger] self.old_acceptance_states@[u] by {
                            assert(old_part[s as State as int] == old_part[u as State as int]);
                        }
                        assert forall|s: int, u: int| 0 <= s < n && 0 <= u < n && self.partitions@[s] == self.partitions@[u]
                            implies #[trigger] part0[s] == #[trigger] part0[u] by {
                            assert(old_part[s as State as int] == old_part[u as State as int]);
                        }
                        let c = self.alphabet@[a as int];
                        assert forall|q: Seq<usize>| #[trigger] stable_refinement(t0, q, n as nat, alpha0, part0)
                            implies refines(q, self.partitions@, n as nat) by {
                            assert(refines(q, old_part, n as nat));
                            assert(stable(t0, q, n as nat, alpha0[a as int]));
                            lemma_split_keeps_finer(t0, old_part, self.partitions@, n as nat, c, q);
                        }
                        if premise {
                            assert(acc0.len() == n);
                            assert(old_part.len() == n);
                            lemma_split_separates(t0, acc0, old_part, self.partitions@, n as nat, c);
                        }
                    }
                }
                a += 1;
            }
            if !changed {
                break;
            }
        }
    }

    /// The first state of each block.
    fn representatives(&self) -> (r: Vec<usize>)
        requires
            self.inv(),
        ensures
            r@.len() == self.partition_count,
            forall|b: int| 0 <= b < self.partition_count ==> #[trigger] r@[b] < self.n() && self.partitions@[r@[b] as int] == b,
    {
        let n = self.old_acceptance_states.len();
        let k = self.partition_count;
        let mut reps: Vec<usize> = Vec::new();
        let mut b: usize = 0;
        while b < k
            invariant
                self.inv(),
                n == self.n(),
                k == self.partition_count,
                b <= k,
                reps@.len() == b,
                forall|x: int| 0 <= x < b ==> #[trigger] reps@[x] < n && self.partitions@[reps@[x] as int] == x,
            decreases k - b,
        {
            proof {
                assert(has_member(self.partitions@, self.n() as int, b as int));
            }
            let mut s: usize = 0;
            while self.partitions[s] != b
                invariant
                    self.inv(),
                    n == self.n(),
                    b < self.partition_count,
                    has_member(self.partitions@, self.n() as int, b as int),
                    s < n,
                    forall|x: int| 0 <= x < s ==> self.partitions@[x] != b,
                decreases n - s,
            {
                proof {
                    let w = choose|w: int| 0 <= w < n && #[trigger] self.partitions@[w] == b;
                    assert(w != s);
                    assert(w > s);
                }
                s += 1;
            }
            reps.push(s);
            b += 1;
        }
        reps
    }

    /// A block that accepts nothing and that no character leads out of,
    /// other than the block of state 0; the first such block if any.
    fn dead_partition(&self, reps: &Vec<usize>) -> (r: Option<usize>)
        requires
            self.inv(),
            reps@.len() == self.partition_count,
            forall|b: int| 0 <= b < self.partition_count ==> #[trigger] reps@[b] < self.n() && self.partitions@[reps@[b] as int] == b,
        ensures
            r matches Some(d) ==> d < self.partition_count && d != self.partitions@[0] && !self.old_acceptance_states@[reps@[d as int] as int]
                && forall|a: int| 0 <= a < self.alphabet@.len() ==> match #[trigger] key(self.old_transitions@, self.partitions@, reps@[d as int], self.alphabet@[a]) {
                    Some(x) => x == d,
                    None => true,
                },
    {
        let mut b: usize = 0;
        while b < self.partition_count
            invariant
                self.inv(),
                reps@.len() == self.partition_count,
                forall|x: int| 0 <= x < self.partition_count ==> #[trigger] reps@[x] < self.n() && self.partitions@[reps@[x] as int] == x,
                b <= self.partition_count,
            decreases self.partition_count - b,
        {
            let rep = reps[b];
            if b != self.partitions[0] && !self.old_acceptance_states[rep] {
                let mut all = true;
                let mut a: usize = 0;
                while a < self.alphabet.len()
                    invariant
                        self.inv(),
                        b < self.partition_count,
                        rep < self.n(),
                        a <= self.alphabet@.len(),
                        all == forall|x: int| 0 <= x < a ==> match #[trigger] key(self.old_transitions@, self.partitions@, rep, self.alphabet@[x]) {
                            Some(y) => y == b,
                            None => true,
                        },
                    decreases self.alphabet@.len() - a,
                {
                    let code = key_code(&self.old_transitions, &self.partitions, rep, self.alphabet[a]);
                    if code != 0 && code != b + 1 {
                        all = false;
                    }
                    a += 1;
                }
                if all {
                    return Some(b);
                }
            }
            b += 1;
        }
        None
    }
}

/// What the minimized automaton does from the block `b` on `c`: it follows
/// the block's first state, and drops transitions into the dead block.
pub open spec fn min_delta(
    t: Seq<Transition>,
    part: Seq<usize>,
    alphabet: Seq<char>,
    reps: Seq<usize>,
    dead: Option<usize>,
    b: usize,
    c: char,
) -> Option<usize> {
    if alphabet.contains(c) {
        match key(t, part, reps[b as int], c) {
            Some(b2) => if dead == Some(b2) {
                None
            } else {
                Some(new_id(b2, dead, part[0]))
            },
            None => None,
        }
    } else {
        None
    }
}

/// The minimized automaton tracks the given one block by block, and is
/// stuck once the given one enters the dead block or is stuck.
proof fn lemma_min_run(
    t: Seq<Transition>,
    part: Seq<usize>,
    n: nat,
    k: nat,
    alphabet: Seq<char>,
    reps: Seq<usize>,
    dead: Option<usize>,
    mt: Seq<Transition>,
    w: Seq<char>,
)
    requires
        n >= 1,
        blocks_ok(part, n, k),
        deterministic(t),
        transitions_within(t, (n - 1) as usize),
        labels_within(t, alphabet),
        forall|a: int| 0 <= a < alphabet.len() ==> stable(t, part, n, #[trigger] alphabet[a]),
        reps.len() == k,
        forall|b: int| 0 <= b < k ==> #[trigger] reps[b] < n && part[reps[b] as int] == b,
        dead matches Some(d) ==> d < k && d != part[0] && forall|a: int| 0 <= a < alphabet.len() ==> match #[trigger] key(t, part, reps[d as int], alphabet[a]) {
            Some(x) => x == d,
            None => true,
        },
        forall|b: usize, c: char| b < k && dead != Some(b) ==> #[trigger] delta_of(mt, new_id(b, dead, part[0]), c) == min_delta(
            t,
            part,
            alphabet,
            reps,
            dead,
            b,
            c,
        ),
    ensures
        match run_of(t, w) {
            Some(s) => s < n && if dead == Some(part[s as int]) {
                run_of(mt, w) is None
            } else {
                run_of(mt, w) == Some(new_id(part[s as int], dead, part[0]))
            },
            None => run_of(mt, w) is None,
        },
    decreases w.len(),
{
    if w.len() > 0 {
        let v = w.drop_last();
        let c = w.last();
        lemma_min_run(t, part, n, k, alphabet, reps, dead, mt, v);
        if let Some(s) = run_of(t, v) {
            let b = part[s as int];
            let r = reps[b as int];
            assert(part[r as int] == b);
            if alphabet.contains(c) {
                let a = choose|a: int| 0 <= a < alphabet.len() && alphabet[a] == c;
                assert(stable(t, part, n, alphabet[a]));
                assert(key(t, part, s, c) == key(t, part, r, c));
                if has_transition_in(t, s, c) {
                    let i = choose|i: int| 0 <= i < t.len() && t[i].0 == s && t[i].1 == c;
                    lemma_delta_of_unique(t, s, c, i);
                    assert(t[i].2 <= n - 1);
                }
                if dead == Some(b) {
                    assert(match key(t, part, reps[b as int], alphabet[a]) {
                        Some(x) => x == b,
                        None => true,
                    });
                } else {
                    assert(delta_of(mt, new_id(b, dead, part[0]), c) == min_delta(t, part, alphabet, reps, dead, b, c));
                }
            } else {
                if has_transition_in(t, s, c) {
                    let i = choose|i: int| 0 <= i < t.len() && t[i].0 == s && t[i].1 == c;
                    assert(alphabet.contains(t[i].1));
                }
                if dead != Some(b) {
                    assert(delta_of(mt, new_id(b, dead, part[0]), c) == min_delta(t, part, alphabet, reps, dead, b, c));
                }
            }
        }
    }
}

/// The minimized automaton, started in the state of block `b0`, tracks the
/// given one started in the block's first state.
proof fn lemma_min_run_from(
    t: Seq<Transition>,
    part: Seq<usize>,
    n: nat,
    k: nat,
    alphabet: Seq<char>,
    reps: Seq<usize>,
    dead: Option<usize>,
    mt: Seq<Transition>,
    b0: usize,
    w: Seq<char>,
)
    requires
        n >= 1,
        blocks_ok(part, n, k),
        deterministic(t),
        transitions_within(t, (n - 1) as usize),
        labels_within(t, alphabet),
        forall|a: int| 0 <= a < alphabet.len() ==> stable(t, part, n, #[trigger] alphabet[a]),
        reps.len() == k,
        forall|b: int| 0 <= b < k ==> #[trigger] reps[b] < n && part[reps[b] as int] == b,
        dead matches Some(d) ==> d < k && d != part[0] && forall|a: int| 0 <= a < alphabet.len() ==> match #[trigger] key(t, part, reps[d as int], alphabet[a]) {
            Some(x) => x == d,
            None => true,
        },
        forall|b: usize, c: char| b < k && dead != Some(b) ==> #[trigger] delta_of(mt, new_id(b, dead, part[0]), c) == min_delta(
            t,
            part,
            alphabet,
            reps,
            dead,
            b,
            c,
        ),
        b0 < k,
        dead != Some(b0),
    ensures
        match run_from(t, reps[b0 as int], w) {
            Some(s) => s < n && if dead == Some(part[s as int]) {
                run_from(mt, new_id(b0, dead, part[0]), w) is None
            } else {
                run_from(mt, new_id(b0, dead, part[0]), w) == Some(new_id(part[s as int], dead, part[0]))
            },
            None => run_from(mt, new_id(b0, dead, part[0]), w) is None,
        },
    decreases w.len(),
{
    let start = reps[b0 as int];
    if w.len() == 0 {
        assert(part[start as int] == b0);
    } else {
        let v = w.drop_last();
        let c = w.last();
        lemma_min_run_from(t, part, n, k, alphabet, reps, dead, mt, b0, v);
        if let Some(s) = run_from(t, start, v) {
            let b = part[s as int];
            let r = reps[b as int];
            assert(part[r as int] == b);
            if alphabet.contains(c) {
                let a = choose|a: int| 0 <= a < alphabet.len() && alphabet[a] == c;
                assert(stable(t, part, n, alphabet[a]));
                assert(key(t, part, s, c) == key(t, part, r, c));
                if has_transition_in(t, s, c) {
                    let i = choose|i: int| 0 <= i < t.len() && t[i].0 == s && t[i].1 == c;
                    lemma_delta_of_unique(t, s, c, i);
                    assert(t[i].2 <= n - 1);
                }
                if dead == Some(b) {
                    assert(match key(t, part, reps[b as int], alphabet[a]) {
                        Some(x) => x == b,
                        None => true,
                    });
                } else {
                    assert(delta_of(mt, new_id(b, dead, part[0]), c) == min_delta(t, part, alphabet, reps, dead, b, c));
                }
            } else {
                if has_transition_in(t, s, c) {
                    let i = choose|i: int| 0 <= i < t.len() && t[i].0 == s && t[i].1 == c;
                    assert(alphabet.contains(t[i].1));
                }
                if dead != Some(b) {
                    assert(delta_of(mt, new_id(b, dead, part[0]), c) == min_delta(t, part, alphabet, reps, dead, b, c));
                }
            }
        }
    }
}

/// Every kept number is the new number of some kept block.
proof fn lemma_new_id_onto(k: nat, dead: Option<usize>, initial: usize, p: usize) -> (b: usize)
    requires
        initial < k,
        k <= usize::MAX,
        dead matches Some(d) ==> d < k && d != initial,
        p < kept(k, dead),
    ensures
        b < k,
        dead != Some(b),
        new_id(b, dead, initial) == p,
{
    let unbase = |x: usize| if dead matches Some(d) && x >= d { (x + 1) as usize } else { x };
    let zi = base_id(initial, dead);
    if p == 0 {
        initial
    } else if p == zi {
        unbase(0)
    } else {
        unbase(p)
    }
}

/// Every state some word leads to from state 0 is marked.
proof fn lemma_runs_marked(t: Seq<Transition>, r: Seq<bool>, w: Seq<char>)
    requires
        r.len() >= 1,
        r[0],
        forall|i: int| 0 <= i < t.len() && (#[trigger] t[i]).0 < r.len() && r[t[i].0 as int] ==> t[i].2 < r.len() && r[t[i].2 as int],
    ensures
        run_of(t, w) matches Some(s) ==> s < r.len() && r[s as int],
    decreases w.len(),
{
    if w.len() > 0 {
        lemma_runs_marked(t, r, w.drop_last());
        if let Some(s) = run_of(t, w.drop_last()) {
            if has_transition_in(t, s, w.last()) {
                let i = choose|i: int| 0 <= i < t.len() && t[i].0 == s && t[i].1 == w.last();
                assert(t[i] == t[i]);
            }
        }
    }
}

/// The states that some word leads to from state 0.
fn reachable_states(t: &Vec<Transition>, n: usize) -> (r: Vec<bool>)
    requires
        n >= 1,
        transitions_within(t@, (n - 1) as usize),
        deterministic(t@),
    ensures
        r@.len() == n,
        forall|w: Seq<char>| (#[trigger] run_of(t@, w)) is Some ==> r@[run_of(t@, w)->Some_0 as int],
        forall|s: int| 0 <= s < n && r@[s] ==> exists|w: Seq<char>| #[trigger] run_of(t@, w) == Some(s as State),
{
    let mut r = empty_bitmap(n);
    r.set(0, true);
    let ghost mut words: Seq<Seq<char>> = Seq::new(n as nat, |s: int| Seq::<char>::empty());
    loop
        invariant
            n >= 1,
            transitions_within(t@, (n - 1) as usize),
            deterministic(t@),
            r@.len() == n,
            words.len() == n,
            r@[0],
            forall|s: int| 0 <= s < n && r@[s] ==> run_of(t@, #[trigger] words[s]) == Some(s as State),
        ensures
            r@.len() == n,
            r@[0],
            forall|s: int| 0 <= s < n && r@[s] ==> run_of(t@, #[trigger] words[s]) == Some(s as State),
            forall|i: int| 0 <= i < t@.len() && (#[trigger] t@[i]).0 < r@.len() && r@[t@[i].0 as int] ==> t@[i].2 < r@.len() && r@[t@[i].2 as int],
        decreases n - count_true(r@),
    {
        proof { lemma_count_bounded(r@); }
        let ghost start = r@;
        let mut changed = false;
        let mut i: usize = 0;
        while i < t.len()
            invariant
                n >= 1,
                transitions_within(t@, (n - 1) as usize),
                deterministic(t@),
                r@.len() == n,
                words.len() == n,
                r@[0],
                i <= t@.len(),
                forall|s: int| 0 <= s < n && r@[s] ==> run_of(t@, #[trigger] words[s]) == Some(s as State),
                forall|s: int| 0 <= s < n && start[s] ==> #[trigger] r@[s],
                !changed ==> r@ == start,
                changed ==> count_true(r@) > count_true(start),
                !changed ==> forall|j: int| 0 <= j < i && r@[(#[trigger] t@[j]).0 as int] ==> r@[t@[j].2 as int],
            decreases t@.len() - i,
        {
            let (a, c, b) = t[i];
            assert(a < n && b < n);
            if r[a] && !r[b] {
                proof {
                    lemma_count_set(r@, b as int);
                    let wa = words[a as int];
                    let wb = wa.push(c);
                    assert(wb.drop_last() =~= wa);
                    lemma_delta_of_unique(t@, a, c, i as int);
                    assert(run_of(t@, wb) == Some(b));
                    words = words.update(b as int, wb);
                }
                r.set(b, true);
                changed = true;
            }
            i += 1;
        }
        if !changed {
            break;
        }
        proof { lemma_count_bounded(r@); }
    }
    proof {
        assert forall|w: Seq<char>| (#[trigger] run_of(t@, w)) is Some implies r@[run_of(t@, w)->Some_0 as int] by {
            lemma_runs_marked(t@, r@, w);
        }
        assert forall|s: int| 0 <= s < n && r@[s] implies exists|w: Seq<char>| #[trigger] run_of(t@, w) == Some(s as State) by {
            assert(run_of(t@, words[s]) == Some(s as State));
        }
    }
    r
}

/// Some word leads from state 0 to `s`.
pub open spec fn reached(t: Seq<Transition>, s: State) -> bool {
    exists|w: Seq<char>| run_of(t, w) == Some(s)
}

/// Reading `w` from state 0 ends in a state of the list.
pub open spec fn accepts_list(t: Seq<Transition>, list: Seq<State>, w: Seq<char>) -> bool {
    run_of(t, w) matches Some(s) && list.contains(s)
}

/// Some word leads from `s` to a state of the list.
pub open spec fn live_list(t: Seq<Transition>, list: Seq<State>, s: State) -> bool {
    exists|w: Seq<char>| #[trigger] run_from(t, s, w) matches Some(x) && list.contains(x)
}

impl DFAOptimizer {
    /// The transitions and accepting map of the minimized automaton, and its
    /// number of states.
    #[verifier::spinoff_prover]
    fn new_transitions(&self, reps: &Vec<usize>, dead: Option<usize>) -> (r: (Vec<Transition>, Vec<bool>, usize))
        requires
            self.inv(),
            reps@.len() == self.partition_count,
            forall|b: int| 0 <= b < self.partition_count ==> #[trigger] reps@[b] < self.n() && self.partitions@[reps@[b] as int] == b,
            dead matches Some(d) ==> d < self.partition_count && d != self.partitions@[0],
        ensures
            r.2 == kept(self.partition_count as nat, dead),
            r.2 >= 1,
            r.1@.len() == r.2,
            transitions_within(r.0@, (r.2 - 1) as usize),
            deterministic(r.0@),
            forall|i: int| 0 <= i < r.0@.len() ==> self.alphabet@.contains(#[trigger] r.0@[i].1),
            forall|b: usize| b < self.partition_count && dead != Some(b) ==> #[trigger] r.1@[new_id(b, dead, self.partitions@[0]) as int]
                == self.old_acceptance_states@[reps@[b as int] as int],
            forall|b: usize, c: char| b < self.partition_count && dead != Some(b) ==> #[trigger] delta_of(
                r.0@,
                new_id(b, dead, self.partitions@[0]),
                c,
            ) == min_delta(self.old_transitions@, self.partitions@, self.alphabet@, reps@, dead, b, c),
    {
        let k = self.partition_count;
        let initial = self.partitions[0];
        proof {
            assert(self.partitions@[0] < k);
            lemma_new_id(k as nat, dead, initial);
        }
        let m = match dead {
            Some(_) => k - 1,
            None => k,
        };
        let ghost t = self.old_transitions@;
        let ghost part = self.partitions@;
        let ghost alpha = self.alphabet@;
        let mut accepting = empty_bitmap(m);
        let mut transitions: Vec<Transition> = Vec::new();
        let ghost mut src: Seq<usize> = seq![];
        let mut b: usize = 0;
        while b < k
            invariant
                self.inv(),
                t == self.old_transitions@,
                part == self.partitions@,
                alpha == self.alphabet@,
                k == self.partition_count,
                initial == part[0],
                m == kept(k as nat, dead),
                reps@.len() == k,
                forall|x: int| 0 <= x < k ==> #[trigger] reps@[x] < self.n() && part[reps@[x] as int] == x,
                new_id(initial, dead, initial) == 0,
                forall|x: usize| x < k && dead != Some(x) ==> #[trigger] new_id(x, dead, initial) < kept(k as nat, dead),
                forall|x1: usize, x2: usize| x1 < k && x2 < k && dead != Some(x1) && dead != Some(x2) && x1 != x2 ==> #[trigger] new_id(
                    x1,
                    dead,
                    initial,
                ) != #[trigger] new_id(x2, dead, initial),
                b <= k,
                accepting@.len() == m,
                forall|x: usize| x < b && dead != Some(x) ==> #[trigger] accepting@[new_id(x, dead, initial) as int]
                    == self.old_acceptance_states@[reps@[x as int] as int],
                src.len() == transitions@.len(),
                deterministic(transitions@),
                forall|i: int| 0 <= i < transitions@.len() ==> {
                    let tr = #[trigger] transitions@[i];
                    &&& src[i] < b
                    &&& dead != Some(src[i])
                    &&& tr.0 == new_id(src[i], dead, initial)
                    &&& tr.2 < m
                    &&& min_delta(t, part, alpha, reps@, dead, src[i], tr.1) == Some(tr.2)
                },
                forall|x: usize, c: char| x < b && dead != Some(x) && #[trigger] min_delta(t, part, alpha, reps@, dead, x, c) is Some
                    ==> exists|i: int| 0 <= i < transitions@.len() && transitions@[i].0 == new_id(x, dead, initial) && transitions@[i].1 == c,
            decreases k - b,
        {
            let is_dead = match dead {
                Some(d) => d == b,
                None => false,
            };
            if !is_dead {
                let from = new_id_exec(b, dead, initial);
                let rep = reps[b];
                accepting.set(from, self.old_acceptance_states[rep]);
                let mut a: usize = 0;
                while a < self.alphabet.len()
                    invariant
                        self.inv(),
                        t == self.old_transitions@,
                        part == self.partitions@,
                        alpha == self.alphabet@,
                        k == self.partition_count,
                        initial == part[0],
                        m == kept(k as nat, dead),
                        b < k,
                        dead != Some(b),
                        from == new_id(b, dead, initial),
                        rep == reps@[b as int],
                        reps@.len() == k,
                        forall|x: int| 0 <= x < k ==> #[trigger] reps@[x] < self.n() && part[reps@[x] as int] == x,
                        forall|x: usize| x < k && dead != Some(x) ==> #[trigger] new_id(x, dead, initial) < kept(k as nat, dead),
                        forall|x1: usize, x2: usize| x1 < k && x2 < k && dead != Some(x1) && dead != Some(x2) && x1 != x2 ==> #[trigger] new_id(
                            x1,
                            dead,
                            initial,
                        ) != #[trigger] new_id(x2, dead, initial),
                        a <= alpha.len(),
                        src.len() == transitions@.len(),
                        deterministic(transitions@),
                        forall|i: int| 0 <= i < transitions@.len() ==> {
                            let tr = #[trigger] transitions@[i];
                            &&& src[i] <= b
                            &&& dead != Some(src[i])
                            &&& tr.0 == new_id(src[i], dead, initial)
                            &&& tr.2 < m
                            &&& min_delta(t, part, alpha, reps@, dead, src[i], tr.1) == Some(tr.2)
                            &&& src[i] == b ==> exists|y: int| 0 <= y < a && alpha[y] == tr.1
                        },
                        forall|x: usize, c: char| x < b && dead != Some(x) && #[trigger] min_delta(t, part, alpha, reps@, dead, x, c) is Some
                            ==> exists|i: int| 0 <= i < transitions@.len() && transitions@[i].0 == new_id(x, dead, initial) && transitions@[i].1 == c,
                        forall|y: int| 0 <= y < a && #[trigger] min_delta(t, part, alpha, reps@, dead, b, alpha[y]) is Some
                            ==> exists|i: int| 0 <= i < transitions@.len() && transitions@[i].0 == from && transitions@[i].1 == alpha[y],
                    decreases alpha.len() - a,
                {
                    let c = self.alphabet[a];
                    let code = key_code(&self.old_transitions, &self.partitions, rep, c);
                    proof {
                        assert(alpha.contains(c)) by {
                            assert(alpha[a as int] == c);
                        }
                    }
                    if code != 0 {
                        let b2 = code - 1;
                        let into_dead = match dead {
                            Some(d) => d == b2,
                            None => false,
                        };
                        if !into_dead {
                            proof {
                                assert(part[rep as int] == b);
                                let i = choose|i: int| 0 <= i < t.len() && t[i].0 == rep && t[i].1 == c;
                                lemma_delta_of_unique(t, rep, c, i);
                                assert(t[i].2 <= self.n() - 1);
                                assert(b2 < k);
                            }
                            let to = new_id_exec(b2, dead, initial);
                            let ghost before = transitions@;
                            transitions.push((from, c, to));
                            proof {
                                src = src.push(b);
                                assert forall|i: int, j: int| 0 <= i < transitions@.len() && 0 <= j < transitions@.len() && i != j
                                    implies (#[trigger] transitions@[i]).0 != (#[trigger] transitions@[j]).0 || transitions@[i].1 != transitions@[j].1 by {
                                    if j == before.len() && transitions@[i].0 == from {
                                        assert(src[i] == b);
                                        let y = choose|y: int| 0 <= y < a && alpha[y] == before[i].1;
                                        assert(alpha[y] != alpha[a as int]);
                                    }
                                    if i == before.len() && transitions@[j].0 == from {
                                        assert(src[j] == b);
                                        let y = choose|y: int| 0 <= y < a && alpha[y] == before[j].1;
                                        assert(alpha[y] != alpha[a as int]);
                                    }
                                }
                                assert forall|i: int| 0 <= i < transitions@.len() implies {
                                    let tr = #[trigger] transitions@[i];
                                    &&& src[i] <= b
                                    &&& dead != Some(src[i])
                                    &&& tr.0 == new_id(src[i], dead, initial)
                                    &&& tr.2 < m
                                    &&& min_delta(t, part, alpha, reps@, dead, src[i], tr.1) == Some(tr.2)
                                    &&& src[i] == b ==> exists|y: int| 0 <= y < a + 1 && alpha[y] == tr.1
                                } by {
                                    if i < before.len() {
                                        assert(transitions@[i] == before[i]);
                                        if src[i] == b {
                                            let y = choose|y: int| 0 <= y < a && alpha[y] == before[i].1;
                                        }
                                    } else {
                                        assert(alpha[a as int] == c);
                                    }
                                }
                                assert forall|x: usize, d: char| x < b && dead != Some(x) && #[trigger] min_delta(t, part, alpha, reps@, dead, x, d) is Some
                                    implies exists|i: int| 0 <= i < transitions@.len() && transitions@[i].0 == new_id(x, dead, initial) && transitions@[i].1 == d by {
                                    let i = choose|i: int| 0 <= i < before.len() && before[i].0 == new_id(x, dead, initial) && before[i].1 == d;
                                    assert(transitions@[i] == before[i]);
                                }
                                assert forall|y: int| 0 <= y < a + 1 && #[trigger] min_delta(t, part, alpha, reps@, dead, b, alpha[y]) is Some
                                    implies exists|i: int| 0 <= i < transitions@.len() && transitions@[i].0 == from && transitions@[i].1 == alpha[y] by {
                                    if y < a {
                                        let i = choose|i: int| 0 <= i < before.len() && before[i].0 == from && before[i].1 == alpha[y];
                                        assert(transitions@[i] == before[i]);
                                    } else {
                                        assert(transitions@[before.len() as int].1 == alpha[y]);
                                    }
                                }
                            }
                        }
                    }
                    a += 1;
                }
            }
            b += 1;
        }
        proof {
            assert forall|i: int| 0 <= i < transitions@.len() implies alpha.contains(#[trigger] transitions@[i].1) by {
                assert(min_delta(t, part, alpha, reps@, dead, src[i], transitions@[i].1) == Some(transitions@[i].2));
            }
            assert forall|x: usize, c: char| x < k && dead != Some(x) implies #[trigger] delta_of(
                transitions@,
                new_id(x, dead, initial),
                c,
            ) == min_delta(t, part, alpha, reps@, dead, x, c) by {
                if has_transition_in(transitions@, new_id(x, dead, initial), c) {
                    let i = choose|i: int| 0 <= i < transitions@.len() && transitions@[i].0 == new_id(x, dead, initial) && transitions@[i].1 == c;
                    lemma_delta_of_unique(transitions@, new_id(x, dead, initial), c, i);
                    assert(src[i] == x);
                } else if min_delta(t, part, alpha, reps@, dead, x, c) is Some {
                    let i = choose|i: int| 0 <= i < transitions@.len() && transitions@[i].0 == new_id(x, dead, initial) && transitions@[i].1 == c;
                    assert(has_transition_in(transitions@, new_id(x, dead, initial), c));
                }
            }
        }
        (transitions, accepting, m)
    }

    /// Starts from the accepting and the other states (one block if every
    /// state accepts) and refines until every block is stable.
    fn new(old_transitions: Vec<Transition>, accepting: Vec<bool>, alphabet: Vec<char>, last_state: State) -> (r: DFAOptimizer)
        requires
            last_state < usize::MAX,
            accepting@.len() == last_state + 1,
            exists|s: int| 0 <= s <= last_state && accepting@[s],
            transitions_within(old_transitions@, last_state),
            deterministic(old_transitions@),
            labels_within(old_transitions@, alphabet@),
            alphabet@.no_duplicates(),
        ensures
            r.inv(),
            r.all_stable(),
            r.old_transitions@ == old_transitions@,
            r.alphabet@ == alphabet@,
            r.old_acceptance_states@ == accepting@,
            all_live(old_transitions@, accepting@, (last_state + 1) as nat) ==> separated(
                old_transitions@,
                accepting@,
                r.partitions@,
                (last_state + 1) as nat,
            ),
            forall|q: Seq<usize>|
                #[trigger] respects_acceptance(q, accepting@) && (forall|a: int|
                    0 <= a < alphabet@.len() ==> stable(old_transitions@, q, (last_state + 1) as nat, #[trigger] alphabet@[a]))
                    ==> refines(q, r.partitions@, (last_state + 1) as nat),
    {
        let n = last_state + 1;
        let ghost s0 = choose|s: int| 0 <= s <= last_state && accepting@[s];
        // block 0 holds the states that do not accept, block 1 the others;
        // if every state accepts there is one block
        let mut rejecting: Option<usize> = None;
        let mut s: usize = 0;
        while s < n
            invariant
                accepting@.len() == n,
                s <= n,
                rejecting matches Some(x) ==> x < n && !accepting@[x as int],
                rejecting is None ==> forall|x: int| 0 <= x < s ==> accepting@[x],
            decreases n - s,
        {
            if !accepting[s] {
                rejecting = Some(s);
            }
            s += 1;
        }
        let mut partitions: Vec<usize> = Vec::new();
        let mut x: usize = 0;
        while x < n
            invariant
                accepting@.len() == n,
                x <= n,
                partitions@.len() == x,
                forall|y: int| 0 <= y < x ==> #[trigger] partitions@[y] == if rejecting is None {
                    0usize
                } else if accepting@[y] {
                    1usize
                } else {
                    0usize
                },
            decreases n - x,
        {
            let p = match rejecting {
                None => 0,
                Some(_) => if accepting[x] { 1 } else { 0 },
            };
            partitions.push(p);
            x += 1;
        }
        let partition_count = match rejecting {
            None => 1,
            Some(_) => 2,
        };
        proof {
            assert forall|b: int| 0 <= b < partition_count implies #[trigger] has_member(partitions@, n as int, b) by {
                if b == 0 {
                    if let Some(z) = rejecting {
                        assert(partitions@[z as int] == 0);
                    } else {
                        assert(partitions@[0] == 0);
                    }
                } else {
                    assert(partitions@[s0 as int] == 1);
                }
            }
        }
        let mut optimizer = DFAOptimizer {
            old_transitions,
            partitions,
            partition_count,
            alphabet,
            old_acceptance_states: accepting,
        };
        let ghost start = optimizer.partitions@;
        proof {
            assert forall|x: State, y: State| x < n && y < n && start[x as int] != start[y as int] implies #[trigger] differ(
                old_transitions@, accepting@, x, y) && differ(old_transitions@, accepting@, y, x) by {
                let e = Seq::<char>::empty();
                assert(run_from(old_transitions@, x, e) == Some(x));
                assert(run_from(old_transitions@, y, e) == Some(y));
                assert(accepts_raw(old_transitions@, accepting@, x, e) != accepts_raw(old_transitions@, accepting@, y, e));
            }
            assert(separated(old_transitions@, accepting@, start, n as nat));
            assert(optimizer.n() == n);
            assert(optimizer.old_transitions@ == old_transitions@);
            assert(optimizer.old_acceptance_states@ == accepting@);
        }
        optimizer.fix_partitions();
        proof {
            if all_live(old_transitions@, accepting@, n as nat) {
                assert(separated(old_transitions@, accepting@, optimizer.partitions@, n as nat));
            }
            assert forall|q: Seq<usize>|
                #[trigger] respects_acceptance(q, accepting@) && (forall|a: int|
                    0 <= a < alphabet@.len() ==> stable(old_transitions@, q, n as nat, #[trigger] alphabet@[a]))
                    implies refines(q, optimizer.partitions@, n as nat) by {
                assert forall|x: int, y: int| 0 <= x < n && 0 <= y < n && q[x] == q[y] implies #[trigger] start[x] == #[trigger] start[y] by {
                    assert(accepting@[x] == accepting@[y]);
                }
                assert(stable_refinement(old_transitions@, q, n as nat, alphabet@, start));
            }
        }
        optimizer
    }

    /// The minimal automaton equivalent to the given one, by partition
    /// refinement over `alphabet`. An automaton that reaches no accepting
    /// state becomes the single state that accepts nothing. When every state
    /// is reachable, so is every state of the result; when every state can
    /// still reach acceptance, no two states of the result accept the same
    /// words. A state with no way to acceptance is kept apart from a missing
    /// transition while refining, so on such input a second minimization may
    /// merge further.
    #[verifier::spinoff_prover]
    #[verifier::rlimit(100)]
    pub fn optimize(
        transitions: Vec<Transition>,
        old_acceptance_states: Vec<State>,
        last_state: State,
        alphabet: Vec<char>,
    ) -> (r: DFAutomata)
        requires
            last_state < usize::MAX,
            transitions_within(transitions@, last_state),
            deterministic(transitions@),
            forall|i: int| 0 <= i < old_acceptance_states@.len() ==> #[trigger] old_acceptance_states@[i] <= last_state,
            labels_within(transitions@, alphabet@),
            alphabet@.no_duplicates(),
        ensures
            r.well_formed(),
            r.last() <= last_state,
            old_acceptance_states@.len() == 0 ==> r.last() == 0 && r.trans().len() == 0 && !r.is_accepting(0),
            (forall|w: Seq<char>| !#[trigger] accepts_list(transitions@, old_acceptance_states@, w)) ==> r.last() == 0
                && r.trans().len() == 0 && !r.is_accepting(0),
            (forall|s: State| s <= last_state ==> #[trigger] reached(transitions@, s)) ==> forall|p: State|
                p <= r.last() ==> #[trigger] r.reachable(p),
            forall|i: int| 0 <= i < r.trans().len() ==> alphabet@.contains(#[trigger] r.trans()[i].1),
            forall|w: Seq<char>| #[trigger] r.accepts(w) == (run_of(transitions@, w) matches Some(s) && old_acceptance_states@.contains(s)),
            (forall|s: State| s <= last_state ==> #[trigger] live_list(transitions@, old_acceptance_states@, s)) ==> forall|
                p: State,
                q: State,
            | p <= r.last() && q <= r.last() && p != q ==> #[trigger] r.distinguishable(p, q),
            (forall|s: State| s <= last_state ==> #[trigger] live_list(transitions@, old_acceptance_states@, s)) ==> forall|p: State|
                p <= r.last() ==> #[trigger] r.live(p),
    {
        if old_acceptance_states.len() == 0 {
            let mut none = Vec::new();
            none.push(false);
            let r = DFAutomata::new(Vec::new(), none, 0);
            proof {
                assert forall|w: Seq<char>| #[trigger] r.accepts(w) == (run_of(transitions@, w) matches Some(s) && old_acceptance_states@.contains(s)) by {
                    if let Some(s) = r.run(w) {
                        assert(r.accepting_map()[0] == false);
                    }
                }
                assert(r.run(Seq::<char>::empty()) == Some(0usize));
                assert(r.reachable(0));
                if forall|x: State| x <= last_state ==> #[trigger] live_list(transitions@, old_acceptance_states@, x) {
                    assert(live_list(transitions@, old_acceptance_states@, 0));
                    let w = choose|w: Seq<char>| #[trigger] run_from(transitions@, 0, w) matches Some(x) && old_acceptance_states@.contains(x);
                    let y = run_from(transitions@, 0, w)->Some_0;
                    assert(old_acceptance_states@.contains(y));
                }
            }
            return r;
        }
        let n = last_state + 1;
        let mut accepting = empty_bitmap(n);
        let mut i: usize = 0;
        while i < old_acceptance_states.len()
            invariant
                n == last_state + 1,
                accepting@.len() == n,
                i <= old_acceptance_states@.len(),
                forall|x: int| 0 <= x < old_acceptance_states@.len() ==> #[trigger] old_acceptance_states@[x] <= last_state,
                forall|s: int| 0 <= s < n ==> #[trigger] accepting@[s] == old_acceptance_states@.subrange(0, i as int).contains(s as State),
            decreases old_acceptance_states@.len() - i,
        {
            let ghost before = accepting@;
            accepting.set(old_acceptance_states[i], true);
            proof {
                let sub = old_acceptance_states@.subrange(0, i + 1);
                assert(sub =~= old_acceptance_states@.subrange(0, i as int).push(old_acceptance_states@[i as int]));
                assert forall|s: int| 0 <= s < n implies #[trigger] accepting@[s] == sub.contains(s as State) by {
                    if s == old_acceptance_states@[i as int] as int {
                        assert(sub[i as int] == s as State);
                    } else {
                        assert(accepting@[s] == before[s]);
                        if sub.contains(s as State) {
                            let j = choose|j: int| 0 <= j < sub.len() && sub[j] == s as State;
                            assert(old_acceptance_states@.subrange(0, i as int)[j] == s as State);
                        }
                        if old_acceptance_states@.subrange(0, i as int).contains(s as State) {
                            let j = choose|j: int| 0 <= j < i && old_acceptance_states@.subrange(0, i as int)[j] == s as State;
                            assert(sub[j] == s as State);
                        }
                    }
                }
            }
            i += 1;
        }
        assert(old_acceptance_states@.subrange(0, i as int) =~= old_acceptance_states@);
        let ghost acc = accepting@;
        proof {
            let s0 = old_acceptance_states@[0];
            assert(acc[s0 as int]);
        }
        let reach = reachable_states(&transitions, n);
        let mut found = false;
        let mut x: usize = 0;
        while x < n
            invariant
                x <= n,
                reach@.len() == n,
                accepting@.len() == n,
                found == exists|y: int| 0 <= y < x && reach@[y] && accepting@[y],
            decreases n - x,
        {
            if reach[x] && accepting[x] {
                found = true;
            }
            x += 1;
        }
        if !found {
            // no accepting state is reachable: the language is empty
            let mut none = Vec::new();
            none.push(false);
            let r = DFAutomata::new(Vec::new(), none, 0);
            proof {
                assert forall|w: Seq<char>| !#[trigger] accepts_list(transitions@, old_acceptance_states@, w) by {
                    if let Some(y) = run_of(transitions@, w) {
                        assert(run_of(transitions@, w) is Some);
                        assert(reach@[y as int]);
                        lemma_run_of_within(transitions@, last_state, w);
                        assert(!accepting@[y as int]);
                        assert(acc[y as int] == old_acceptance_states@.contains(y));
                    }
                }
                assert forall|w: Seq<char>| #[trigger] r.accepts(w) == (run_of(transitions@, w) matches Some(s) && old_acceptance_states@.contains(s)) by {
                    assert(!accepts_list(transitions@, old_acceptance_states@, w));
                    if let Some(y) = r.run(w) {
                        assert(r.accepting_map()[0] == false);
                    }
                }
                assert(r.run(Seq::<char>::empty()) == Some(0usize));
                assert(r.reachable(0));
                if forall|x: State| x <= last_state ==> #[trigger] live_list(transitions@, old_acceptance_states@, x) {
                    assert(live_list(transitions@, old_acceptance_states@, 0));
                    let w = choose|w: Seq<char>| #[trigger] run_from(transitions@, 0, w) matches Some(x) && old_acceptance_states@.contains(x);
                    let y = run_from(transitions@, 0, w)->Some_0;
                    lemma_run_from_zero(transitions@, w);
                    assert(run_of(transitions@, w) is Some);
                    assert(reach@[y as int]);
                    lemma_run_of_within(transitions@, last_state, w);
                    assert(acc[y as int] == old_acceptance_states@.contains(y));
                    assert(accepting@[y as int]);
                    assert(false);
                }
            }
            return r;
        }
        proof {
            let y = choose|y: int| 0 <= y < n && reach@[y] && accepting@[y];
            let w = choose|w: Seq<char>| #[trigger] run_of(transitions@, w) == Some(y as State);
            assert(acc[y] == old_acceptance_states@.contains(y as State));
            assert(accepts_list(transitions@, old_acceptance_states@, w));
        }
        let mut optimizer = DFAOptimizer::new(transitions, accepting, alphabet, last_state);
        let reps = optimizer.representatives();
        let dead = optimizer.dead_partition(&reps);
        proof { assert(optimizer.partitions@[0] < optimizer.partition_count); }
        let (new_transitions, new_accepting, m) = optimizer.new_transitions(&reps, dead);
        proof { lemma_blocks_bounded(optimizer.partitions@, optimizer.n(), optimizer.partition_count as nat); }
        let r = DFAutomata::new(new_transitions, new_accepting, m - 1);
        proof {
            let t = optimizer.old_transitions@;
            let part = optimizer.partitions@;
            assert forall|w: Seq<char>| #[trigger] r.accepts(w) == (run_of(t, w) matches Some(s) && old_acceptance_states@.contains(s)) by {
                lemma_min_run(t, part, n as nat, optimizer.partition_count as nat, optimizer.alphabet@, reps@, dead, r.trans(), w);
                if let Some(s) = run_of(t, w) {
                    let b = part[s as int];
                    let rep = reps@[b as int];
                    assert(part[rep as int] == b);
                    assert(acc[s as int] == acc[rep as int]);
                    assert(acc[s as int] == old_acceptance_states@.contains(s));
                }
            }
            if forall|s: State| s <= last_state ==> #[trigger] reached(transitions@, s) {
                let k = optimizer.partition_count as nat;
                lemma_blocks_bounded(part, n as nat, k);
                assert(part[0] < k);
                assert forall|p: State| p <= r.last() implies #[trigger] r.reachable(p) by {
                    let b = lemma_new_id_onto(k, dead, part[0], p);
                    assert(has_member(part, n as int, b as int));
                    let x = choose|x: int| 0 <= x < n && #[trigger] part[x] == b;
                    assert(reached(transitions@, x as State));
                    let w = choose|w: Seq<char>| run_of(transitions@, w) == Some(x as State);
                    lemma_min_run(t, part, n as nat, k, optimizer.alphabet@, reps@, dead, r.trans(), w);
                    assert(r.run(w) == Some(p));
                }
            }
            if forall|s: State| s <= last_state ==> #[trigger] live_list(transitions@, old_acceptance_states@, s) {
                assert forall|s: State| s < n implies #[trigger] live_raw(t, acc, s) by {
                    assert(live_list(transitions@, old_acceptance_states@, s));
                    let w = choose|w: Seq<char>| #[trigger] run_from(transitions@, s, w) matches Some(x) && old_acceptance_states@.contains(x);
                    let x = run_from(transitions@, s, w)->Some_0;
                    let j = choose|j: int| 0 <= j < old_acceptance_states@.len() && old_acceptance_states@[j] == x;
                    assert(x <= last_state);
                    assert(accepts_raw(t, acc, s, w));
                }
                assert(all_live(t, acc, n as nat));
                assert(separated(t, acc, part, n as nat));
                let k = optimizer.partition_count as nat;
                lemma_blocks_bounded(part, n as nat, k);
                assert(part[0] < k);
                assert forall|p: State, q: State| p <= r.last() && q <= r.last() && p != q implies #[trigger] r.distinguishable(p, q) by {
                    let b1 = lemma_new_id_onto(k, dead, part[0], p);
                    let b2 = lemma_new_id_onto(k, dead, part[0], q);
                    let r1 = reps@[b1 as int];
                    let r2 = reps@[b2 as int];
                    assert(part[r1 as int] == b1 && part[r2 as int] == b2);
                    assert(differ(t, acc, r1, r2));
                    let w = choose|w: Seq<char>| accepts_raw(t, acc, r1, w) != accepts_raw(t, acc, r2, w);
                    lemma_min_run_from(t, part, n as nat, k, optimizer.alphabet@, reps@, dead, r.trans(), b1, w);
                    lemma_min_run_from(t, part, n as nat, k, optimizer.alphabet@, reps@, dead, r.trans(), b2, w);
                    assert forall|x: State| x < n implies #[trigger] acc[x as int] == acc[reps@[part[x as int] as int] as int] by {
                        assert(part[reps@[part[x as int] as int] as int] == part[x as int]);
                    }
                    assert(r.accepts_from(p, w) == accepts_raw(t, acc, r1, w));
                    assert(r.accepts_from(q, w) == accepts_raw(t, acc, r2, w));
                }
                assert forall|p: State| p <= r.last() implies #[trigger] r.live(p) by {
                    let b1 = lemma_new_id_onto(k, dead, part[0], p);
                    let r1 = reps@[b1 as int];
                    assert(live_raw(t, acc, r1));
                    let w = choose|w: Seq<char>| accepts_raw(t, acc, r1, w);
                    lemma_min_run_from(t, part, n as nat, k, optimizer.alphabet@, reps@, dead, r.trans(), b1, w);
                    assert forall|x: State| x < n implies #[trigger] acc[x as int] == acc[reps@[part[x as int] as int] as int] by {
                        assert(part[reps@[part[x as int] as int] as int] == part[x as int]);
                    }
                    assert(r.accepts_from(p, w));
                }
            }
        }
        r
    }
}

/// What minimizing `d` into `m` guarantees: a well-formed automaton with no
/// more states and the same language; when `d` accepts no word, the single
/// state that accepts nothing; when every state of `d` is reachable, so is
/// every state of `m`; and when every state of `d` can still reach
/// acceptance, no two states of `m` accept the same words.
pub open spec fn is_minimization(d: DFAutomata, m: DFAutomata) -> bool {
    &&& m.well_formed()
    &&& m.state_count() <= d.state_count()
    &&& forall|w: Seq<char>| #[trigger] m.accepts(w) == d.accepts(w)
    &&& (forall|s: State| s <= d.last() ==> #[trigger] d.reachable(s)) ==> forall|p: State| p <= m.last() ==> #[trigger] m.reachable(p)
    &&& (forall|s: State| s <= d.last() ==> #[trigger] d.live(s)) ==> forall|p: State| p <= m.last() ==> #[trigger] m.live(p)
    &&& (forall|s: State| s <= d.last() ==> #[trigger] d.live(s)) ==> forall|p: State, q: State|
        p <= m.last() && q <= m.last() && p != q ==> #[trigger] m.distinguishable(p, q)
    &&& (forall|w: Seq<char>| !#[trigger] d.accepts(w)) ==> m.last() == 0 && m.trans().len() == 0 && !m.is_accepting(0)
}

impl DFAutomata {
    /// The minimal equivalent automaton, over the characters its transitions
    /// carry.
    pub fn minimize(&self) -> (r: DFAutomata)
        requires
            self.well_formed(),
        ensures
            is_minimization(*self, r),
    {
        let given = self.transitions();
        let accepting = self.acceptance_states();
        let last_state = self.last_state();
        let mut transitions: Vec<Transition> = Vec::new();
        let mut labels: Vec<char> = Vec::new();
        let mut i: usize = 0;
        while i < given.len()
            invariant
                given@ == self.trans(),
                i <= given@.len(),
                transitions@ == given@.subrange(0, i as int),
                labels@.len() == i,
                forall|j: int| 0 <= j < i ==> #[trigger] labels@[j] == given@[j].1,
            decreases given@.len() - i,
        {
            transitions.push(given[i]);
            labels.push(given[i].1);
            i += 1;
        }
        assert(transitions@ =~= self.trans());
        let alphabet = distinct_chars(&labels);
        proof {
            assert forall|j: int| 0 <= j < transitions@.len() implies alphabet@.contains(#[trigger] transitions@[j].1) by {
                assert(labels@[j] == transitions@[j].1);
                assert(labels@.contains(transitions@[j].1));
            }
        }
        let mut acceptance: Vec<State> = Vec::new();
        let mut s: usize = 0;
        let n = last_state + 1;
        while s < n
            invariant
                self.well_formed(),
                last_state == self.last(),
                n == last_state + 1,
                accepting@ == self.accepting_map(),
                s <= n,
                forall|j: int| 0 <= j < acceptance@.len() ==> #[trigger] acceptance@[j] <= last_state,
                forall|x: State| #[trigger] acceptance@.contains(x) <==> (x < s && self.is_accepting(x)),
            decreases n - s,
        {
            if accepting[s] {
                let ghost before = acceptance@;
                acceptance.push(s);
                proof {
                    assert forall|x: State| #[trigger] acceptance@.contains(x) <==> (x < s + 1 && self.is_accepting(x)) by {
                        if acceptance@.contains(x) && x != s {
                            let j = choose|j: int| 0 <= j < acceptance@.len() && acceptance@[j] == x;
                            assert(j < before.len());
                            assert(before[j] == x);
                            assert(before.contains(x));
                        }
                        if x < s && self.is_accepting(x) {
                            assert(before.contains(x));
                            let j = choose|j: int| 0 <= j < before.len() && before[j] == x;
                            assert(acceptance@[j] == x);
                        }
                        if x == s {
                            assert(acceptance@[before.len() as int] == s);
                        }
                    }
                }
            }
            s += 1;
        }
        let r = DFAOptimizer::optimize(transitions, acceptance, last_state, alphabet);
        proof {
            if forall|x: State| x <= self.last() ==> #[trigger] self.reachable(x) {
                assert forall|x: State| x <= last_state implies #[trigger] reached(self.trans(), x) by {
                    assert(self.reachable(x));
                }
            }
            if forall|x: State| x <= self.last() ==> #[trigger] self.live(x) {
                assert forall|x: State| x <= last_state implies #[trigger] live_list(self.trans(), acceptance@, x) by {
                    assert(self.live(x));
                    let w = choose|w: Seq<char>| self.accepts_from(x, w);
                    let y = run_from(self.trans(), x, w)->Some_0;
                    assert(acceptance@.contains(y));
                    assert(run_from(self.trans(), x, w) matches Some(z) && acceptance@.contains(z));
                }
            }
            assert forall|w: Seq<char>| #[trigger] r.accepts(w) == self.accepts(w) by {
                assert(r.accepts(w) == (run_of(self.trans(), w) matches Some(x) && acceptance@.contains(x)));
                self.lemma_run_within(w);
            }
            if forall|w: Seq<char>| !#[trigger] self.accepts(w) {
                assert forall|w: Seq<char>| !#[trigger] accepts_list(self.trans(), acceptance@, w) by {
                    assert(!self.accepts(w));
                    if let Some(y) = run_of(self.trans(), w) {
                        assert(self.run(w) == Some(y));
                    }
                }
            }
        }
        r
    }
}

/// Minimizing a minimized automaton keeps its language and never adds
/// states; when every state of the first automaton is reachable and can
/// still reach acceptance, the second minimization has exactly as many
/// states as the first.
pub proof fn lemma_minimize_twice(d: DFAutomata, m: DFAutomata, mm: DFAutomata)
    requires
        is_minimization(d, m),
        is_minimization(m, mm),
    ensures
        forall|w: Seq<char>| #[trigger] mm.accepts(w) == m.accepts(w),
        forall|w: Seq<char>| #[trigger] mm.accepts(w) == d.accepts(w),
        mm.state_count() <= m.state_count(),
        (forall|s: State| s <= d.last() ==> #[trigger] d.reachable(s) && d.live(s)) ==> mm.state_count() == m.state_count(),
{
    if forall|s: State| s <= d.last() ==> #[trigger] d.reachable(s) && d.live(s) {
        assert(forall|s: State| s <= d.last() ==> #[trigger] d.reachable(s));
        assert forall|s: State| s <= d.last() implies #[trigger] d.live(s) by {
            assert(d.reachable(s) && d.live(s));
        }
        assert(forall|p: State| p <= m.last() ==> #[trigger] m.reachable(p));
        assert(forall|p: State| p <= m.last() ==> #[trigger] m.live(p));
        let f = |i: int| {
            let w = choose|w: Seq<char>| m.run(w) == Some(i as State);
            mm.run(w)->Some_0 as int
        };
        let x = vstd::set_lib::set_int_range(0, m.state_count() as int);
        let y = vstd::set_lib::set_int_range(0, mm.state_count() as int);
        vstd::set_lib::lemma_int_range(0, m.state_count() as int);
        vstd::set_lib::lemma_int_range(0, mm.state_count() as int);
        assert forall|i: int| x.contains(i) implies {
            let w = choose|w: Seq<char>| m.run(w) == Some(i as State);
            &&& m.run(w) == Some(i as State)
            &&& mm.run(w) is Some
            &&& y.contains(f(i))
        } by {
            let p = i as State;
            assert(m.reachable(p));
            let w = choose|w: Seq<char>| m.run(w) == Some(i as State);
            assert(m.live(p));
            let u = choose|u: Seq<char>| m.accepts_from(p, u);
            lemma_run_concat(m.trans(), w, u);
            lemma_run_concat(mm.trans(), w, u);
            assert(m.accepts(w + u));
            assert(mm.accepts(w + u));
            mm.lemma_run_within(w);
        }
        assert(vstd::relations::injective_on(f, x)) by {
            assert forall|i: int, j: int| x.contains(i) && x.contains(j) && #[trigger] f(i) == #[trigger] f(j) implies i == j by {
                if i != j {
                    let p = i as State;
                    let q = j as State;
                    let wp = choose|w: Seq<char>| m.run(w) == Some(i as State);
                    let wq = choose|w: Seq<char>| m.run(w) == Some(j as State);
                    assert(m.distinguishable(p, q));
                    let u = choose|u: Seq<char>| m.accepts_from(p, u) != m.accepts_from(q, u);
                    lemma_run_concat(m.trans(), wp, u);
                    lemma_run_concat(m.trans(), wq, u);
                    lemma_run_concat(mm.trans(), wp, u);
                    lemma_run_concat(mm.trans(), wq, u);
                    assert(mm.run(wp) == mm.run(wq));
                    assert(mm.accepts(wp + u) == mm.accepts(wq + u));
                    assert(m.accepts(wp + u) == m.accepts_from(p, u));
                    assert(m.accepts(wq + u) == m.accepts_from(q, u));
                }
            }
        }
        vstd::set_lib::lemma_map_size(x, x.map(f), f);
        assert(x.map(f).subset_of(y));
        vstd::set_lib::lemma_len_subset(x.map(f), y);
    }
}

} // verus!
