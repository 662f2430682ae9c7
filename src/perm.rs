//! Permutations of `0 .. n`, and a seeded generator of them.
use vstd::prelude::*;
use vstd::set_lib::{lemma_int_range, lemma_subset_equality, set_int_range};

verus! {

/// `p` lists each of `0 .. n` exactly once.
pub open spec fn is_permutation(p: Seq<usize>, n: int) -> bool {
    &&& p.len() == n
    &&& forall|i: int| 0 <= i < n ==> #[trigger] p[i] < n
    &&& forall|i: int, j: int| 0 <= i < n && 0 <= j < n && i != j ==> #[trigger] p[i] != #[trigger] p[j]
}

/// Some position `j < n` of `p` holds `i`.
pub open spec fn hits(p: Seq<usize>, n: int, i: int) -> bool {
    exists|j: int| 0 <= j < n && p[j] == i
}

/// A permutation of `0 .. n` reaches every value of `0 .. n`.
pub proof fn lemma_permutation_onto(p: Seq<usize>, n: int)
    requires
        is_permutation(p, n),
    ensures
        forall|i: int| 0 <= i < n ==> #[trigger] hits(p, n, i),
{
    let pi = p.map_values(|x: usize| x as int);
    assert(pi.no_duplicates()) by {
        assert forall|i: int, j: int| 0 <= i < pi.len() && 0 <= j < pi.len() && i != j implies pi[i] != pi[j] by {
            assert(p[i] != p[j]);
        }
    }
    pi.unique_seq_to_set();
    lemma_int_range(0, n);
    assert forall|x: int| pi.to_set().contains(x) implies set_int_range(0, n).contains(x) by {
        let i = choose|i: int| 0 <= i < pi.len() && pi[i] == x;
        assert(p[i] < n);
    }
    lemma_subset_equality(pi.to_set(), set_int_range(0, n));
    assert forall|i: int| 0 <= i < n implies #[trigger] hits(p, n, i) by {
        assert(set_int_range(0, n).contains(i));
        assert(pi.to_set().contains(i));
        let j = choose|j: int| 0 <= j < pi.len() && pi[j] == i;
        assert(p[j] == i);
    }
}

/// Multiplier and increment of the 64-bit linear congruential step.
pub const LCG_MUL: u64 = 6364136223846793005;
pub const LCG_INC: u64 = 1442695040888963407;

/// One step of the pseudo-random generator that drives shuffling.
fn lcg_step(state: u64) -> (r: u64) {
    state.wrapping_mul(LCG_MUL).wrapping_add(LCG_INC)
}

/// The identity permutation `0, 1, .., n - 1`.
pub fn identity_permutation(n: usize) -> (r: Vec<usize>)
    ensures
        r@.len() == n,
        forall|i: int| 0 <= i < n ==> #[trigger] r@[i] == i,
        is_permutation(r@, n as int),
{
    let mut v: Vec<usize> = Vec::new();
    let mut i: usize = 0;
    while i < n
        invariant
            i <= n,
            v@.len() == i,
            forall|k: int| 0 <= k < i ==> #[trigger] v@[k] == k,
        decreases n - i,
    {
        v.push(i);
        i = i + 1;
    }
    v
}

/// A pseudo-random permutation of `0 .. n`, fixed by `seed` (Fisher-Yates).
/// Every seed gives a permutation; different seeds may give different ones.
pub fn random_permutation(n: usize, seed: u64) -> (r: Vec<usize>)
    ensures
        is_permutation(r@, n as int),
{
    let mut v = identity_permutation(n);
    let mut state: u64 = seed;
    let mut i: usize = n;
    while i > 1
        invariant
            i <= n,
            is_permutation(v@, n as int),
        decreases i,
    {
        i = i - 1;
        state = lcg_step(state);
        let bound: u64 = (i as u64) + 1;
        let j: usize = ((state >> 33u64) % bound) as usize;
        let a = v[i];
        let b = v[j];
        let ghost before = v@;
        v.set(i, b);
        v.set(j, a);
        assert forall|x: int, y: int| 0 <= x < n && 0 <= y < n && x != y implies #[trigger] v@[x] != #[trigger] v@[y] by {
            let sx = if x == i { j as int } else if x == j { i as int } else { x };
            let sy = if y == i { j as int } else if y == j { i as int } else { y };
            assert(v@[x] == before[sx]);
            assert(v@[y] == before[sy]);
        }
    }
    v
}

} // verus!
