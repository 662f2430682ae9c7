//! A two-level array: a sequence of rows, each row one sample flattened.
use vstd::prelude::*;

verus! {

/// Where the rows of a batch are meant to live.
#[derive(Clone, Copy, Debug, PartialEq, Eq, Structural)]
pub enum Device {
    Cpu,
    Cuda(usize),
}

/// The contents of each row of `rows`.
pub open spec fn rows_view(rows: Seq<Vec<i64>>) -> Seq<Seq<i64>> {
    Seq::new(rows.len(), |i: int| rows[i]@)
}

/// An array whose leading axis indexes samples.
#[derive(Debug)]
pub struct Tensor {
    rows: Vec<Vec<i64>>,
    device: Device,
}

impl View for Tensor {
    type V = Seq<Seq<i64>>;

    closed spec fn view(&self) -> Seq<Seq<i64>> {
        rows_view(self.rows@)
    }
}

/// Copies one row element by element.
fn copy_row(r: &Vec<i64>) -> (out: Vec<i64>)
    ensures
        out@ == r@,
{
    let mut out: Vec<i64> = Vec::new();
    let mut i: usize = 0;
    while i < r.len()
        invariant
            i <= r@.len(),
            out@ == r@.subrange(0, i as int),
        decreases r@.len() - i,
    {
        out.push(r[i]);
        i = i + 1;
        assert(out@ =~= r@.subrange(0, i as int));
    }
    assert(out@ =~= r@);
    out
}

impl Tensor {
    /// The device this array is placed on.
    pub closed spec fn spec_device(&self) -> Device {
        self.device
    }

    /// Builds an array on the host from its rows.
    pub fn from_rows(rows: Vec<Vec<i64>>) -> (r: Tensor)
        ensures
            r@ == rows_view(rows@),
            r.spec_device() == Device::Cpu,
    {
        Tensor { rows, device: Device::Cpu }
    }

    /// Size of the leading axis.
    pub fn size0(&self) -> (r: usize)
        ensures
            r == self@.len(),
    {
        self.rows.len()
    }

    /// The device this array is placed on.
    pub fn device(&self) -> (r: Device)
        ensures
            r == self.spec_device(),
    {
        self.device
    }

    /// A copy of row `i`.
    pub fn row(&self, i: usize) -> (r: Vec<i64>)
        requires
            i < self@.len(),
        ensures
            r@ == self@[i as int],
    {
        copy_row(&self.rows[i])
    }

    /// A copy of all the rows.
    pub fn to_rows(&self) -> (r: Vec<Vec<i64>>)
        ensures
            rows_view(r@) == self@,
    {
        let mut out: Vec<Vec<i64>> = Vec::new();
        let mut i: usize = 0;
        while i < self.rows.len()
            invariant
                i <= self@.len(),
                self@.len() == self.rows@.len(),
                out@.len() == i,
                rows_view(out@) == self@.subrange(0, i as int),
            decreases self@.len() - i,
        {
            let row = copy_row(&self.rows[i]);
            assert(row@ == self@[i as int]);
            out.push(row);
            i = i + 1;
            assert(rows_view(out@) =~= self@.subrange(0, i as int));
        }
        assert(self@.subrange(0, i as int) =~= self@);
        out
    }

    /// The rows `start .. start + len` along the leading axis.
    pub fn narrow(&self, start: usize, len: usize) -> (r: Tensor)
        requires
            start + len <= self@.len(),
        ensures
            r@ == self@.subrange(start as int, start + len),
            r.spec_device() == self.spec_device(),
    {
        let mut out: Vec<Vec<i64>> = Vec::new();
        let mut i: usize = 0;
        let n = self.rows.len();
        while i < len
            invariant
                i <= len,
                n == self.rows@.len(),
                start + len <= self@.len(),
                self@.len() == self.rows@.len(),
                out@.len() == i,
                rows_view(out@) == self@.subrange(start as int, start + i),
            decreases len - i,
        {
            let row = copy_row(&self.rows[start + i]);
            assert(row@ == self@[start + i]);
            out.push(row);
            i = i + 1;
            assert(rows_view(out@) =~= self@.subrange(start as int, start + i));
        }
        Tensor { rows: out, device: self.device }
    }

    /// The rows at the given positions, in the order of `index`.
    pub fn index_select(&self, index: &Vec<usize>) -> (r: Tensor)
        requires
            forall|i: int| 0 <= i < index@.len() ==> index@[i] < self@.len(),
        ensures
            r@ == Seq::new(index@.len(), |i: int| self@[index@[i] as int]),
            r.spec_device() == self.spec_device(),
    {
        let mut out: Vec<Vec<i64>> = Vec::new();
        let mut i: usize = 0;
        while i < index.len()
            invariant
                i <= index@.len(),
                forall|k: int| 0 <= k < index@.len() ==> index@[k] < self@.len(),
                self@.len() == self.rows@.len(),
                out@.len() == i,
                forall|k: int| 0 <= k < i ==> #[trigger] out@[k]@ == self@[index@[k] as int],
            decreases index@.len() - i,
        {
            let row = copy_row(&self.rows[index[i]]);
            assert(row@ == self@[index@[i as int] as int]);
            out.push(row);
            i = i + 1;
        }
        assert(rows_view(out@) =~= Seq::new(index@.len(), |k: int| self@[index@[k] as int]));
        Tensor { rows: out, device: self.device }
    }

    /// A copy of this array, on the same device.
    pub fn copy(&self) -> (r: Tensor)
        ensures
            r@ == self@,
            r.spec_device() == self.spec_device(),
    {
        self.to_device(self.device)
    }

    /// A copy of this array placed on `device`.
    pub fn to_device(&self, device: Device) -> (r: Tensor)
        ensures
            r@ == self@,
            r.spec_device() == device,
    {
        let t = self.narrow(0, self.rows.len());
        assert(self@.subrange(0, self@.len() as int) =~= self@);
        Tensor { rows: t.rows, device }
    }
}

} // verus!
