//! Aligned minibatches over a pair of arrays sharing their leading axis.
use vstd::prelude::*;
use crate::perm::{hits, is_permutation, lemma_permutation_onto, random_permutation};
use vstd::arithmetic::div_mod::lemma_fundamental_div_mod;
use crate::tensor::{Device, Tensor};

verus! {

/// Number of samples that batch `k` would hold: `min(bs, total - k * bs)`.
pub open spec fn batch_len(total: int, bs: int, k: int) -> int {
    if bs <= total - k * bs {
        bs
    } else {
        total - k * bs
    }
}

/// Whether batch `k` is handed out: it is non-empty, and full unless
/// undersized batches are kept.
pub open spec fn batch_emitted(total: int, bs: int, keep_partial: bool, k: int) -> bool {
    batch_len(total, bs, k) > 0 && (keep_partial || batch_len(total, bs, k) == bs)
}

/// `xs` reordered so that position `i` holds row `p[i]`.
pub open spec fn gathered(xs: Seq<Seq<i64>>, p: Seq<usize>) -> Seq<Seq<i64>> {
    Seq::new(p.len(), |i: int| xs[p[i] as int])
}

/// The rows of `xs` and `ys` side by side.
pub open spec fn row_pairs(xs: Seq<Seq<i64>>, ys: Seq<Seq<i64>>) -> Seq<(Seq<i64>, Seq<i64>)> {
    Seq::new(xs.len(), |i: int| (xs[i], ys[i]))
}

/// With undersized batches dropped, `n / k` batches of `k` rows come out
/// and the next one is not handed out.
pub proof fn lemma_full_batch_count(n: int, k: int)
    requires
        n >= 0,
        k > 0,
    ensures
        forall|j: int| 0 <= j < n / k ==> #[trigger] batch_emitted(n, k, false, j) && batch_len(n, k, j) == k,
        !batch_emitted(n, k, false, n / k),
{
    lemma_fundamental_div_mod(n, k);
    assert(0 <= n % k < k);
    assert((n / k) * k == k * (n / k)) by (nonlinear_arith);
    assert forall|j: int| 0 <= j < n / k implies #[trigger] batch_emitted(n, k, false, j) && batch_len(n, k, j) == k by {
        assert((j + 1) * k <= (n / k) * k) by (nonlinear_arith)
            requires j + 1 <= n / k, k > 0;
        assert(j * k + k == (j + 1) * k) by (nonlinear_arith);
        assert(k <= n - j * k);
    }
    assert(n - (n / k) * k == n % k) by (nonlinear_arith)
        requires n == k * (n / k) + n % k;
}

/// With undersized batches kept, the `n / k` full batches are followed by
/// one of `n % k` rows when `k` does not divide `n`, and by nothing after.
pub proof fn lemma_partial_batch_count(n: int, k: int)
    requires
        n >= 0,
        k > 0,
    ensures
        forall|j: int| 0 <= j < n / k ==> #[trigger] batch_emitted(n, k, true, j) && batch_len(n, k, j) == k,
        n % k != 0 ==> batch_emitted(n, k, true, n / k) && batch_len(n, k, n / k) == n % k
            && !batch_emitted(n, k, true, n / k + 1),
        n % k == 0 ==> !batch_emitted(n, k, true, n / k),
{
    lemma_full_batch_count(n, k);
    assert forall|j: int| 0 <= j < n / k implies #[trigger] batch_emitted(n, k, true, j) && batch_len(n, k, j) == k by {
        assert(batch_emitted(n, k, false, j));
    }
    lemma_fundamental_div_mod(n, k);
    assert(0 <= n % k < k);
    assert((n / k) * k == k * (n / k)) by (nonlinear_arith);
    assert(n - (n / k) * k == n % k) by (nonlinear_arith)
        requires n == k * (n / k) + n % k;
    assert((n / k + 1) * k == (n / k) * k + k) by (nonlinear_arith);
}

/// Two different batches of one pass hold disjoint rows: batch `j1` ends
/// before batch `j2 > j1` starts.
pub proof fn lemma_batches_disjoint(n: int, k: int, j1: int, j2: int)
    requires
        n >= 0,
        k > 0,
        0 <= j1 < j2,
    ensures
        j1 * k + batch_len(n, k, j1) <= j2 * k,
{
    assert(j1 * k + k <= j2 * k) by (nonlinear_arith)
        requires j1 < j2, k > 0;
}

/// With undersized batches kept, every row `i < n` lies in batch `i / k`,
/// which is handed out.
pub proof fn lemma_batches_cover(n: int, k: int, i: int)
    requires
        k > 0,
        0 <= i < n,
    ensures
        batch_emitted(n, k, true, i / k),
        (i / k) * k <= i < (i / k) * k + batch_len(n, k, i / k),
{
    lemma_fundamental_div_mod(i, k);
    assert(0 <= i % k < k);
    assert((i / k) * k == k * (i / k)) by (nonlinear_arith);
}

/// Reordering both arrays by one permutation keeps the set of row pairs,
/// and each pair lands at exactly one position.
pub proof fn lemma_shuffle_keeps_pairs(xs: Seq<Seq<i64>>, ys: Seq<Seq<i64>>, p: Seq<usize>)
    requires
        xs.len() == ys.len(),
        is_permutation(p, xs.len() as int),
    ensures
        row_pairs(gathered(xs, p), gathered(ys, p)).to_set() == row_pairs(xs, ys).to_set(),
        forall|i: int| 0 <= i < xs.len() ==> #[trigger] hits(p, xs.len() as int, i),
        forall|j1: int, j2: int| 0 <= j1 < xs.len() && 0 <= j2 < xs.len() && j1 != j2 ==> p[j1] != p[j2],
{
    let n = xs.len() as int;
    lemma_permutation_onto(p, n);
    let after = row_pairs(gathered(xs, p), gathered(ys, p));
    let before = row_pairs(xs, ys);
    assert forall|q: (Seq<i64>, Seq<i64>)| after.to_set().contains(q) implies before.to_set().contains(q) by {
        let j = choose|j: int| 0 <= j < after.len() && after[j] == q;
        assert(before[p[j] as int] == q);
    }
    assert forall|q: (Seq<i64>, Seq<i64>)| before.to_set().contains(q) implies after.to_set().contains(q) by {
        let i = choose|i: int| 0 <= i < before.len() && before[i] == q;
        assert(hits(p, n, i));
        let j = choose|j: int| 0 <= j < n && p[j] == i;
        assert(after[j] == q);
    }
    assert(after.to_set() =~= before.to_set());
}

/// Shuffling twice is shuffling once by the composed permutation
/// `i -> p1[p2[i]]`, which is again a permutation: no row is lost or
/// repeated however often the arrays are shuffled.
pub proof fn lemma_shuffle_twice(xs: Seq<Seq<i64>>, p1: Seq<usize>, p2: Seq<usize>)
    requires
        is_permutation(p1, xs.len() as int),
        is_permutation(p2, xs.len() as int),
    ensures
        is_permutation(Seq::new(p2.len(), |i: int| p1[p2[i] as int]), xs.len() as int),
        gathered(gathered(xs, p1), p2) == gathered(xs, Seq::new(p2.len(), |i: int| p1[p2[i] as int])),
{
    let n = xs.len() as int;
    let c = Seq::new(p2.len(), |i: int| p1[p2[i] as int]);
    assert forall|i: int, j: int| 0 <= i < n && 0 <= j < n && i != j implies #[trigger] c[i] != #[trigger] c[j] by {
        assert(p2[i] != p2[j]);
    }
    assert(gathered(gathered(xs, p1), p2) =~= gathered(xs, c));
}

/// An iterator over aligned batches of two arrays with the same number of rows.
#[derive(Debug)]
pub struct Iter2 {
    xs: Tensor,
    ys: Tensor,
    batch_index: usize,
    batch_size: usize,
    total_size: usize,
    device: Device,
    return_smaller_last_batch: bool,
}

impl Iter2 {
    /// The features, in their current order.
    pub closed spec fn features(&self) -> Seq<Seq<i64>> {
        self.xs@
    }

    /// The targets, in their current order.
    pub closed spec fn targets(&self) -> Seq<Seq<i64>> {
        self.ys@
    }

    /// Ordinal of the next batch.
    pub closed spec fn spec_batch_index(&self) -> int {
        self.batch_index as int
    }

    pub closed spec fn spec_batch_size(&self) -> int {
        self.batch_size as int
    }

    /// Number of rows in each of the two arrays.
    pub closed spec fn spec_total_size(&self) -> int {
        self.total_size as int
    }

    /// Device that each batch is placed on.
    pub closed spec fn spec_device(&self) -> Device {
        self.device
    }

    /// Whether a final undersized batch is handed out.
    pub closed spec fn keeps_partial(&self) -> bool {
        self.return_smaller_last_batch
    }

    /// Both arrays hold `total_size` rows.
    pub closed spec fn wf(&self) -> bool {
        &&& self.xs@.len() == self.total_size
        &&& self.ys@.len() == self.total_size
    }

    /// Everything but the batch ordinal is as in `other`.
    pub open spec fn same_setup(&self, other: &Iter2) -> bool {
        &&& self.features() == other.features()
        &&& self.targets() == other.targets()
        &&& self.spec_batch_size() == other.spec_batch_size()
        &&& self.spec_total_size() == other.spec_total_size()
        &&& self.spec_device() == other.spec_device()
        &&& self.keeps_partial() == other.keeps_partial()
    }

    /// A new iterator over `xs` and `ys`, whose row counts must match, in
    /// batches of `batch_size` rows, on the host, dropping an undersized
    /// last batch.
    pub fn new(xs: &Tensor, ys: &Tensor, batch_size: usize) -> (r: Iter2)
        requires
            xs@.len() == ys@.len(),
        ensures
            r.wf(),
            r.features() == xs@,
            r.targets() == ys@,
            r.spec_batch_index() == 0,
            r.spec_batch_size() == batch_size,
            r.spec_total_size() == xs@.len(),
            r.spec_device() == Device::Cpu,
            !r.keeps_partial(),
    {
        let total_size = xs.size0();
        Iter2 {
            xs: xs.copy(),
            ys: ys.copy(),
            batch_index: 0,
            batch_size,
            total_size,
            device: Device::Cpu,
            return_smaller_last_batch: false,
        }
    }

    /// Reorders both arrays by the permutation `perm`: row `i` becomes the
    /// old row `perm[i]`, in both arrays alike.
    pub fn shuffle_by(&mut self, perm: &Vec<usize>)
        requires
            old(self).wf(),
            is_permutation(perm@, old(self).spec_total_size()),
        ensures
            final(self).wf(),
            final(self).features() == gathered(old(self).features(), perm@),
            final(self).targets() == gathered(old(self).targets(), perm@),
            final(self).spec_batch_index() == old(self).spec_batch_index(),
            final(self).spec_batch_size() == old(self).spec_batch_size(),
            final(self).spec_total_size() == old(self).spec_total_size(),
            final(self).spec_device() == old(self).spec_device(),
            final(self).keeps_partial() == old(self).keeps_partial(),
    {
        self.xs = self.xs.index_select(perm);
        self.ys = self.ys.index_select(perm);
        assert(self.xs@ =~= gathered(old(self).xs@, perm@));
        assert(self.ys@ =~= gathered(old(self).ys@, perm@));
    }

    /// Reorders both arrays by a pseudo-random permutation drawn from `seed`.
    pub fn shuffle(&mut self, seed: u64)
        requires
            old(self).wf(),
        ensures
            final(self).wf(),
            exists|p: Seq<usize>|
                is_permutation(p, old(self).spec_total_size())
                && final(self).features() == gathered(old(self).features(), p)
                && final(self).targets() == gathered(old(self).targets(), p),
            final(self).spec_batch_index() == old(self).spec_batch_index(),
            final(self).spec_batch_size() == old(self).spec_batch_size(),
            final(self).spec_total_size() == old(self).spec_total_size(),
            final(self).spec_device() == old(self).spec_device(),
            final(self).keeps_partial() == old(self).keeps_partial(),
    {
        let perm = random_permutation(self.total_size, seed);
        self.shuffle_by(&perm);
    }

    /// Places every batch handed out from now on on `device`.
    pub fn to_device(&mut self, device: Device)
        requires
            old(self).wf(),
        ensures
            final(self).wf(),
            final(self).spec_device() == device,
            final(self).features() == old(self).features(),
            final(self).targets() == old(self).targets(),
            final(self).spec_batch_index() == old(self).spec_batch_index(),
            final(self).spec_batch_size() == old(self).spec_batch_size(),
            final(self).spec_total_size() == old(self).spec_total_size(),
            final(self).keeps_partial() == old(self).keeps_partial(),
    {
        self.device = device;
    }

    /// Hands out the last batch even when it is smaller than the batch size.
    pub fn return_smaller_last_batch(&mut self)
        requires
            old(self).wf(),
        ensures
            final(self).wf(),
            final(self).keeps_partial(),
            final(self).spec_batch_index() == old(self).spec_batch_index(),
            final(self).features() == old(self).features(),
            final(self).targets() == old(self).targets(),
            final(self).spec_batch_size() == old(self).spec_batch_size(),
            final(self).spec_total_size() == old(self).spec_total_size(),
            final(self).spec_device() == old(self).spec_device(),
    {
        self.return_smaller_last_batch = true;
    }

    /// The next batch: rows `k * bs .. k * bs + batch_len` of both arrays,
    /// placed on the device, where `k` is the batch ordinal; `None` once the
    /// batches are exhausted, leaving the iterator as it was.
    pub fn next(&mut self) -> (r: Option<(Tensor, Tensor)>)
        requires
            old(self).wf(),
        ensures
            final(self).wf(),
            final(self).same_setup(old(self)),
            ({
                let n = old(self).spec_total_size();
                let bs = old(self).spec_batch_size();
                let k = old(self).spec_batch_index();
                let len = batch_len(n, bs, k);
                match r {
                    None => !batch_emitted(n, bs, old(self).keeps_partial(), k)
                        && final(self).spec_batch_index() == k,
                    Some((x, y)) => batch_emitted(n, bs, old(self).keeps_partial(), k)
                        && final(self).spec_batch_index() == k + 1
                        && x@ == old(self).features().subrange(k * bs, k * bs + len)
                        && y@ == old(self).targets().subrange(k * bs, k * bs + len)
                        && x.spec_device() == old(self).spec_device()
                        && y.spec_device() == old(self).spec_device(),
                }
            }),
    {
        let n = self.total_size;
        let bs = self.batch_size;
        let k = self.batch_index;
        let start = match k.checked_mul(bs) {
            Some(s) => s,
            None => {
                assert(k * bs > n) by (nonlinear_arith)
                    requires k * bs > usize::MAX, n <= usize::MAX;
                return None;
            },
        };
        if start >= n {
            return None;
        }
        let rest = n - start;
        let size = if bs <= rest { bs } else { rest };
        if size == 0 || (!self.return_smaller_last_batch && size < bs) {
            return None;
        }
        assert(k < n) by (nonlinear_arith)
            requires k * bs == start, start < n, size > 0, size <= bs, k >= 0;
        self.batch_index = k + 1;
        let x = self.xs.narrow(start, size).to_device(self.device);
        let y = self.ys.narrow(start, size).to_device(self.device);
        Some((x, y))
    }
}

} // verus!
