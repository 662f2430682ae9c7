//! A character-level text dataset: each distinct byte gets a label in order
//! of first occurrence, and shuffled fixed-length windows are batched.
use vstd::prelude::*;
use vstd::set_lib::{lemma_int_range, lemma_len_subset, set_int_range};
use crate::perm::{is_permutation, random_permutation};
use vstd::arithmetic::div_mod::lemma_fundamental_div_mod;

verus! {

/// The distinct bytes of `s`, in order of first occurrence.
pub open spec fn alphabet(s: Seq<u8>) -> Seq<u8>
    decreases s.len(),
{
    if s.len() == 0 {
        Seq::empty()
    } else {
        let a = alphabet(s.drop_last());
        if a.contains(s.last()) {
            a
        } else {
            a.push(s.last())
        }
    }
}

/// `labels` encodes `s` over the alphabet `a`: one label per byte, naming
/// that byte's position in `a`.
pub open spec fn encodes(s: Seq<u8>, a: Seq<u8>, labels: Seq<u8>) -> bool {
    &&& labels.len() == s.len()
    &&& forall|i: int| 0 <= i < s.len() ==> (#[trigger] labels[i]) < a.len() && a[labels[i] as int] == s[i]
}

/// A sequence of distinct bytes has at most 256 of them.
pub proof fn lemma_distinct_bytes_bound(a: Seq<u8>)
    requires
        a.no_duplicates(),
    ensures
        a.len() <= 256,
{
    let ai = a.map_values(|x: u8| x as int);
    assert(ai.no_duplicates()) by {
        assert forall|i: int, j: int| 0 <= i < ai.len() && 0 <= j < ai.len() && i != j implies ai[i] != ai[j] by {
            assert(a[i] != a[j]);
        }
    }
    ai.unique_seq_to_set();
    lemma_int_range(0, 256);
    assert forall|x: int| ai.to_set().contains(x) implies set_int_range(0, 256).contains(x) by {
        let i = choose|i: int| 0 <= i < ai.len() && ai[i] == x;
        assert(ai[i] == a[i] as int);
    }
    lemma_len_subset(ai.to_set(), set_int_range(0, 256));
}

/// The alphabet of `s` holds each byte of `s` exactly once, and nothing else.
pub proof fn lemma_alphabet(s: Seq<u8>)
    ensures
        alphabet(s).no_duplicates(),
        alphabet(s).to_set() == s.to_set(),
    decreases s.len(),
{
    if s.len() > 0 {
        let p = s.drop_last();
        lemma_alphabet(p);
        assert(s =~= p.push(s.last()));
        assert(s.to_set() =~= p.to_set().insert(s.last())) by {
            assert forall|x: u8| s.to_set().contains(x) implies p.to_set().insert(s.last()).contains(x) by {
                let i = choose|i: int| 0 <= i < s.len() && s[i] == x;
                if i < p.len() {
                    assert(p[i] == x);
                }
            }
            assert forall|x: u8| p.to_set().insert(s.last()).contains(x) implies s.to_set().contains(x) by {
                if x != s.last() {
                    let i = choose|i: int| 0 <= i < p.len() && p[i] == x;
                    assert(s[i] == x);
                } else {
                    assert(s[s.len() - 1] == x);
                }
            }
        }
        let a = alphabet(p);
        if a.contains(s.last()) {
            assert(a.to_set().contains(s.last()));
            assert(s.to_set() =~= a.to_set());
        } else {
            assert(a.push(s.last()).to_set() =~= a.to_set().insert(s.last())) by {
                let b = a.push(s.last());
                assert forall|x: u8| b.to_set().contains(x) implies a.to_set().insert(s.last()).contains(x) by {
                    let i = choose|i: int| 0 <= i < b.len() && b[i] == x;
                    if i < a.len() {
                        assert(a[i] == x);
                    }
                }
                assert forall|x: u8| a.to_set().insert(s.last()).contains(x) implies b.to_set().contains(x) by {
                    if x != s.last() {
                        let i = choose|i: int| 0 <= i < a.len() && a[i] == x;
                        assert(b[i] == x);
                    } else {
                        assert(b[b.len() - 1] == x);
                    }
                }
            }
        }
    }
}

/// The same bytes are always encoded the same way: any two label sequences
/// that encode `s` over its alphabet are equal.
pub proof fn lemma_encoding_deterministic(s: Seq<u8>, l1: Seq<u8>, l2: Seq<u8>)
    requires
        encodes(s, alphabet(s), l1),
        encodes(s, alphabet(s), l2),
    ensures
        l1 == l2,
{
    lemma_alphabet(s);
    let a = alphabet(s);
    assert forall|i: int| 0 <= i < s.len() implies l1[i] == l2[i] by {
        assert(a[l1[i] as int] == a[l2[i] as int]);
    }
    assert(l1 =~= l2);
}

/// The number of labels is the number of distinct bytes of the source.
pub proof fn lemma_label_count(s: Seq<u8>)
    ensures
        alphabet(s).len() == s.to_set().len(),
{
    lemma_alphabet(s);
    alphabet(s).unique_seq_to_set();
}

/// Each label decodes to the byte it replaced.
pub proof fn lemma_label_round_trip(s: Seq<u8>, labels: Seq<u8>, i: int)
    requires
        encodes(s, alphabet(s), labels),
        0 <= i < s.len(),
    ensures
        labels[i] < alphabet(s).len(),
        alphabet(s)[labels[i] as int] as char == s[i] as char,
{
}

/// Number of window starts in data of length `len`: `len - seq_len + 1`,
/// or none when the window is longer than the data.
pub open spec fn window_starts(len: int, seq_len: int) -> int {
    if seq_len <= len {
        len - seq_len + 1
    } else {
        0
    }
}

/// Batch `k` of windows is handed out exactly when `k < starts / bs`: each
/// pass yields `starts / bs` batches and drops the remainder.
pub proof fn lemma_window_batch_count(starts: int, bs: int, k: int)
    requires
        starts >= 0,
        bs > 0,
        k >= 0,
    ensures
        ((k + 1) * bs <= starts) == (k < starts / bs),
{
    lemma_fundamental_div_mod(starts, bs);
    assert(0 <= starts % bs < bs);
    if k < starts / bs {
        assert((k + 1) * bs <= (starts / bs) * bs) by (nonlinear_arith)
            requires k + 1 <= starts / bs, bs > 0;
        assert((starts / bs) * bs == bs * (starts / bs)) by (nonlinear_arith);
    } else {
        assert((k + 1) * bs >= (starts / bs + 1) * bs) by (nonlinear_arith)
            requires k >= starts / bs, bs > 0;
        assert((starts / bs + 1) * bs == bs * (starts / bs) + bs) by (nonlinear_arith);
    }
}

/// Copies `data[start .. start + len]`.
fn copy_window(data: &Vec<u8>, start: usize, len: usize) -> (r: Vec<u8>)
    requires
        start + len <= data@.len(),
    ensures
        r@ == data@.subrange(start as int, start + len),
{
    let mut out: Vec<u8> = Vec::new();
    let mut i: usize = 0;
    let n = data.len();
    while i < len
        invariant
            i <= len,
            n == data@.len(),
            start + len <= data@.len(),
            out@ == data@.subrange(start as int, start + i),
        decreases len - i,
    {
        out.push(data[start + i]);
        i = i + 1;
        assert(out@ =~= data@.subrange(start as int, start + i));
    }
    out
}

/// An iterator over batches of windows of the encoded text, taken at
/// shuffled start offsets; a remainder smaller than a batch is dropped.
#[derive(Debug)]
pub struct TextDataIter {
    data: Vec<u8>,
    seq_len: usize,
    batch_index: usize,
    batch_size: usize,
    indexes: Vec<usize>,
    indexes_len: usize,
}

impl TextDataIter {
    /// The encoded text the windows are cut from.
    pub closed spec fn spec_data(&self) -> Seq<u8> {
        self.data@
    }

    pub closed spec fn spec_seq_len(&self) -> int {
        self.seq_len as int
    }

    pub closed spec fn spec_batch_size(&self) -> int {
        self.batch_size as int
    }

    /// Ordinal of the next batch.
    pub closed spec fn spec_batch_index(&self) -> int {
        self.batch_index as int
    }

    /// The window start offsets, in the order they are handed out.
    pub closed spec fn order(&self) -> Seq<usize> {
        self.indexes@
    }

    /// Number of valid window starts.
    pub closed spec fn spec_indexes_len(&self) -> int {
        self.indexes_len as int
    }

    pub closed spec fn wf(&self) -> bool {
        &&& self.seq_len > 0
        &&& self.batch_size > 0
        &&& self.indexes_len == window_starts(self.data@.len() as int, self.seq_len as int)
        &&& is_permutation(self.indexes@, self.indexes_len as int)
    }

    /// The next batch: the windows of length `seq_len` that start at the
    /// offsets `order[k * bs .. (k + 1) * bs]`, `k` being the batch ordinal;
    /// `None`, leaving the iterator as it was, once fewer than `bs` offsets
    /// remain.
    pub fn next(&mut self) -> (r: Option<Vec<Vec<u8>>>)
        requires
            old(self).wf(),
        ensures
            final(self).wf(),
            final(self).spec_data() == old(self).spec_data(),
            final(self).spec_seq_len() == old(self).spec_seq_len(),
            final(self).spec_batch_size() == old(self).spec_batch_size(),
            final(self).order() == old(self).order(),
            final(self).spec_indexes_len() == old(self).spec_indexes_len(),
            ({
                let k = old(self).spec_batch_index();
                let bs = old(self).spec_batch_size();
                let sl = old(self).spec_seq_len();
                let d = old(self).spec_data();
                match r {
                    None => (k + 1) * bs > old(self).spec_indexes_len()
                        && final(self).spec_batch_index() == k,
                    Some(b) => (k + 1) * bs <= old(self).spec_indexes_len()
                        && final(self).spec_batch_index() == k + 1
                        && b@.len() == bs
                        && forall|j: int| 0 <= j < bs ==> {
                            let s = old(self).order()[k * bs + j] as int;
                            &&& 0 <= s <= d.len() - sl
                            &&& (#[trigger] b@[j])@ == d.subrange(s, s + sl)
                        },
                }
            }),
    {
        let k = self.batch_index;
        let bs = self.batch_size;
        let start = match k.checked_mul(bs) {
            Some(s) => s,
            None => {
                assert((k + 1) * bs > self.indexes_len) by (nonlinear_arith)
                    requires k * bs > usize::MAX, self.indexes_len <= usize::MAX, bs > 0;
                return None;
            },
        };
        if start > self.indexes_len || self.indexes_len - start < bs {
            assert((k + 1) * bs > self.indexes_len) by (nonlinear_arith)
                requires k * bs == start, start > self.indexes_len || self.indexes_len - start < bs;
            return None;
        }
        assert((k + 1) * bs <= self.indexes_len) by (nonlinear_arith)
            requires k * bs == start, start + bs <= self.indexes_len;
        assert(k + 1 <= self.indexes_len) by (nonlinear_arith)
            requires (k + 1) * bs <= self.indexes_len, bs > 0, k >= 0;
        let mut batch: Vec<Vec<u8>> = Vec::new();
        let mut j: usize = 0;
        while j < bs
            invariant
                self.wf(),
                j <= bs,
                bs == self.batch_size,
                start == k * bs,
                start + bs <= self.indexes_len,
                batch@.len() == j,
                forall|m: int| 0 <= m < j ==> {
                    let s = self.indexes@[k * bs + m] as int;
                    &&& 0 <= s <= self.data@.len() - self.seq_len
                    &&& (#[trigger] batch@[m])@ == self.data@.subrange(s, s + self.seq_len)
                },
            decreases bs - j,
        {
            let s = self.indexes[start + j];
            let w = copy_window(&self.data, s, self.seq_len);
            batch.push(w);
            j = j + 1;
        }
        self.batch_index = k + 1;
        Some(batch)
    }
}

/// The text data: each byte replaced by its label, and the byte of each label.
#[derive(Debug)]
pub struct TextData {
    data: Vec<u8>,
    char_for_label: Vec<u8>,
}

impl TextData {
    /// The labels, one per source byte.
    pub closed spec fn encoded(&self) -> Seq<u8> {
        self.data@
    }

    /// The byte that each label stands for.
    pub closed spec fn spec_alphabet(&self) -> Seq<u8> {
        self.char_for_label@
    }

    /// Encodes `bytes`: each byte not seen before gets the next label from 0,
    /// and each byte is replaced by its label.
    pub fn new(bytes: &Vec<u8>) -> (r: TextData)
        ensures
            r.spec_alphabet() == alphabet(bytes@),
            encodes(bytes@, alphabet(bytes@), r.encoded()),
    {
        let n = bytes.len();
        let mut table: Vec<u16> = Vec::new();
        let mut t: usize = 0;
        while t < 256
            invariant
                t <= 256,
                table@.len() == t,
                forall|b: int| 0 <= b < t ==> table@[b] == 0,
            decreases 256 - t,
        {
            table.push(0);
            t = t + 1;
        }
        let mut alph: Vec<u8> = Vec::new();
        let mut out: Vec<u8> = Vec::new();
        let mut i: usize = 0;
        assert(bytes@.subrange(0, 0) =~= Seq::<u8>::empty());
        while i < n
            invariant
                n == bytes@.len(),
                i <= n,
                table@.len() == 256,
                alph@ == alphabet(bytes@.subrange(0, i as int)),
                alph@.no_duplicates(),
                alph@.len() <= 256,
                forall|b: u8| (#[trigger] table@[b as int] == 0) == !alph@.contains(b),
                forall|b: u8| #[trigger] table@[b as int] != 0 ==> table@[b as int] - 1 < alph@.len()
                    && alph@[table@[b as int] - 1] == b,
                encodes(bytes@.subrange(0, i as int), alph@, out@),
            decreases n - i,
        {
            let b = bytes[i];
            let ghost prefix = bytes@.subrange(0, i as int);
            let ghost next = bytes@.subrange(0, i + 1);
            assert(next.drop_last() =~= prefix);
            assert(next.last() == b);
            let label: u8;
            if table[b as usize] != 0 {
                label = (table[b as usize] - 1) as u8;
                assert(alph@.contains(b));
            } else {
                assert(!alph@.contains(b));
                proof {
                    let pushed = alph@.push(b);
                    assert(pushed.no_duplicates()) by {
                        assert forall|x: int, y: int| 0 <= x < pushed.len() && 0 <= y < pushed.len() && x != y implies pushed[x] != pushed[y] by {
                            if x == alph@.len() {
                                assert(pushed[y] == alph@[y]);
                            } else if y == alph@.len() {
                                assert(pushed[x] == alph@[x]);
                            }
                        }
                    }
                    lemma_distinct_bytes_bound(pushed);
                }
                label = alph.len() as u8;
                let ghost before = alph@;
                alph.push(b);
                table.set(b as usize, (label as u16) + 1);
                assert forall|c: u8| (#[trigger] table@[c as int] == 0) == !alph@.contains(c) by {
                    if c != b {
                        if alph@.contains(c) {
                            let j = choose|j: int| 0 <= j < alph@.len() && alph@[j] == c;
                            assert(before[j] == c);
                        }
                        if before.contains(c) {
                            let j = choose|j: int| 0 <= j < before.len() && before[j] == c;
                            assert(alph@[j] == c);
                        }
                    } else {
                        assert(alph@[alph@.len() - 1] == b);
                    }
                }
            }
            out.push(label);
            i = i + 1;
            assert(encodes(bytes@.subrange(0, i as int), alph@, out@)) by {
                assert forall|j: int| 0 <= j < i implies (#[trigger] out@[j]) < alph@.len()
                    && alph@[out@[j] as int] == bytes@.subrange(0, i as int)[j] by {
                    if j < i - 1 {
                        assert(prefix[j] == bytes@[j]);
                    }
                }
            }
        }
        assert(bytes@.subrange(0, n as int) =~= bytes@);
        TextData { data: out, char_for_label: alph }
    }

    /// Number of distinct labels.
    pub fn labels(&self) -> (r: usize)
        ensures
            r == self.spec_alphabet().len(),
    {
        self.char_for_label.len()
    }

    /// The labels, one per source byte.
    pub fn data(&self) -> (r: &Vec<u8>)
        ensures
            r@ == self.encoded(),
    {
        &self.data
    }

    /// The character that `label` stands for.
    pub fn label_to_char(&self, label: usize) -> (r: char)
        requires
            label < self.spec_alphabet().len(),
        ensures
            r == self.spec_alphabet()[label as int] as char,
    {
        self.char_for_label[label] as char
    }

    /// Batches of `batch_size` windows of length `seq_len`, taken at the
    /// start offsets in the order given by the permutation `order`.
    pub fn iter_with_order(&self, seq_len: usize, batch_size: usize, order: Vec<usize>) -> (r: TextDataIter)
        requires
            seq_len > 0,
            batch_size > 0,
            is_permutation(order@, window_starts(self.encoded().len() as int, seq_len as int)),
        ensures
            r.wf(),
            r.spec_data() == self.encoded(),
            r.spec_seq_len() == seq_len,
            r.spec_batch_size() == batch_size,
            r.spec_batch_index() == 0,
            r.order() == order@,
            is_permutation(r.order(), r.spec_indexes_len()),
            r.spec_indexes_len() == window_starts(self.encoded().len() as int, seq_len as int),
    {
        let len = self.data.len();
        let indexes_len = if seq_len <= len { len - seq_len + 1 } else { 0 };
        TextDataIter {
            data: self.data.clone(),
            seq_len,
            batch_index: 0,
            batch_size,
            indexes: order,
            indexes_len,
        }
    }

    /// Batches of `batch_size` windows of length `seq_len`, taken at the
    /// start offsets in a pseudo-random order drawn from `seed`.
    pub fn iter_shuffle(&self, seq_len: usize, batch_size: usize, seed: u64) -> (r: TextDataIter)
        requires
            seq_len > 0,
            batch_size > 0,
        ensures
            r.wf(),
            r.spec_data() == self.encoded(),
            r.spec_seq_len() == seq_len,
            r.spec_batch_size() == batch_size,
            r.spec_batch_index() == 0,
            is_permutation(r.order(), r.spec_indexes_len()),
            r.spec_indexes_len() == window_starts(self.encoded().len() as int, seq_len as int),
    {
        let len = self.data.len();
        let indexes_len = if seq_len <= len { len - seq_len + 1 } else { 0 };
        let order = random_permutation(indexes_len, seed);
        self.iter_with_order(seq_len, batch_size, order)
    }
}

} // verus!
