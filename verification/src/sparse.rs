//! Compressed sparse vectors and matrices.
use crate::scalar::Scalar;
use vstd::prelude::*;

verus! {

/// Whether one of the positions `lo..hi` holds the index `i`.
pub open spec fn holds(idx: Seq<usize>, lo: int, hi: int, i: int) -> bool {
    exists|p: int| lo <= p < hi && #[trigger] idx[p] == i
}

/// A position in `lo..hi` that holds the index `i`.
pub open spec fn place(idx: Seq<usize>, lo: int, hi: int, i: int) -> int {
    choose|p: int| lo <= p < hi && #[trigger] idx[p] == i
}

/// The value that the positions `lo..hi` store for the index `i`; zero where they store none.
pub open spec fn at<T: Scalar>(idx: Seq<usize>, data: Seq<T>, lo: int, hi: int, i: int) -> T {
    if holds(idx, lo, hi, i) {
        data[place(idx, lo, hi, i)]
    } else {
        T::zero_spec()
    }
}

/// No index occurs twice in the positions `lo..hi`.
pub open spec fn distinct(idx: Seq<usize>, lo: int, hi: int) -> bool {
    forall|p: int, q: int| lo <= p < q < hi ==> #[trigger] idx[p] != #[trigger] idx[q]
}

/// The indices in the positions `lo..hi` grow.
pub open spec fn ascending(idx: Seq<usize>, lo: int, hi: int) -> bool {
    forall|p: int, q: int| lo <= p < q < hi ==> #[trigger] idx[p] < #[trigger] idx[q]
}

/// Every index is below `n`.
pub open spec fn below(idx: Seq<usize>, n: int) -> bool {
    forall|p: int| 0 <= p < idx.len() ==> #[trigger] idx[p] < n
}

/// What distinct positions store is found again.
pub proof fn at_place<T: Scalar>(idx: Seq<usize>, data: Seq<T>, lo: int, hi: int, p: int)
    requires
        distinct(idx, lo, hi),
        lo <= p < hi,
    ensures
        holds(idx, lo, hi, idx[p] as int),
        place(idx, lo, hi, idx[p] as int) == p,
        at(idx, data, lo, hi, idx[p] as int) == data[p],
{
    let q = place(idx, lo, hi, idx[p] as int);
    assert(idx[p] == idx[p] as int);
    assert(lo <= q < hi && idx[q] == idx[p]);
    if q < p {
        assert(idx[q] != idx[p]);
    } else if p < q {
        assert(idx[p] != idx[q]);
    }
}

/// Two stores that agree on their positions give the same values.
pub proof fn at_same<T: Scalar>(
    idx: Seq<usize>,
    data: Seq<T>,
    lo: int,
    hi: int,
    idx2: Seq<usize>,
    data2: Seq<T>,
    lo2: int,
    hi2: int,
    i: int,
)
    requires
        distinct(idx, lo, hi),
        hi - lo == hi2 - lo2,
        forall|p: int|
            lo <= p < hi ==> #[trigger] idx[p] == idx2[p - lo + lo2] && data[p] == data2[p - lo
                + lo2],
    ensures
        holds(idx2, lo2, hi2, i) == holds(idx, lo, hi, i),
        at(idx2, data2, lo2, hi2, i) == at(idx, data, lo, hi, i),
{
    assert forall|p: int, q: int| lo2 <= p < q < hi2 implies #[trigger] idx2[p]
        != #[trigger] idx2[q] by {
        assert(idx[p - lo2 + lo] == idx2[p]);
        assert(idx[q - lo2 + lo] == idx2[q]);
    }
    if holds(idx, lo, hi, i) {
        let p = place(idx, lo, hi, i);
        assert(idx2[p - lo + lo2] == i);
        at_place(idx2, data2, lo2, hi2, p - lo + lo2);
    }
    if holds(idx2, lo2, hi2, i) {
        let p = place(idx2, lo2, hi2, i);
        assert(idx[p - lo2 + lo] == i);
    }
}

/// `n` copies of `x`.
pub fn filled<T: Copy>(n: usize, x: T) -> (r: Vec<T>)
    ensures
        r@.len() == n,
        forall|i: int| 0 <= i < n ==> #[trigger] r@[i] == x,
{
    let mut r: Vec<T> = Vec::with_capacity(n);
    let mut i: usize = 0;
    while i < n
        invariant
            i <= n,
            r@.len() == i,
            forall|j: int| 0 <= j < i ==> #[trigger] r@[j] == x,
        decreases n - i,
    {
        r.push(x);
        i += 1;
    }
    r
}

/// Cuts or pads with `x` to the length `n`.
pub fn fit<T: Copy>(v: &mut Vec<T>, n: usize, x: T)
    ensures
        final(v)@.len() == n,
        forall|i: int|
            0 <= i < n ==> #[trigger] final(v)@[i] == if i < old(v)@.len() {
                old(v)@[i]
            } else {
                x
            },
{
    if v.len() > n {
        v.truncate(n);
    }
    while v.len() < n
        invariant
            v@.len() <= n,
            v@.len() >= old(v)@.len() || v@.len() == n,
            forall|i: int|
                0 <= i < v@.len() ==> #[trigger] v@[i] == if i < old(v)@.len() {
                    old(v)@[i]
                } else {
                    x
                },
        decreases n - v@.len(),
    {
        v.push(x);
    }
}

pub fn copied<T: Copy>(v: &Vec<T>) -> (r: Vec<T>)
    ensures
        r@ == v@,
{
    let mut r: Vec<T> = Vec::with_capacity(v.len());
    let mut i: usize = 0;
    while i < v.len()
        invariant
            i <= v@.len(),
            r@ == v@.subrange(0, i as int),
        decreases v@.len() - i,
    {
        r.push(v[i]);
        proof {
            assert(v@.subrange(0, i + 1) =~= v@.subrange(0, i as int).push(v@[i as int]));
        }
        i += 1;
    }
    proof {
        assert(v@.subrange(0, v@.len() as int) =~= v@);
    }
    r
}

/// The items at the given positions.
pub fn picked<T: Copy>(data: &Vec<T>, order: &Vec<usize>) -> (r: Vec<T>)
    requires
        below(order@, data@.len() as int),
    ensures
        r@.len() == order@.len(),
        forall|p: int| 0 <= p < order@.len() ==> #[trigger] r@[p] == data@[order@[p] as int],
{
    let n: usize = order.len();
    let mut out: Vec<T> = Vec::with_capacity(n);
    let mut k: usize = 0;
    while k < n
        invariant
            k <= n,
            n == order@.len(),
            out@.len() == k,
            below(order@, data@.len() as int),
            forall|p: int| 0 <= p < k ==> #[trigger] out@[p] == data@[order@[p] as int],
        decreases n - k,
    {
        out.push(data[order[k]]);
        k += 1;
    }
    out
}

/// A sparse vector with growing indices.
#[derive(Clone, Debug)]
pub struct CsVec<T> {
    pub dim: usize,
    pub indices: Vec<usize>,
    pub data: Vec<T>,
}

impl<T: Scalar> CsVec<T> {
    pub open spec fn wf(self) -> bool {
        &&& self.indices@.len() == self.data@.len()
        &&& ascending(self.indices@, 0, self.indices@.len() as int)
        &&& below(self.indices@, self.dim as int)
    }

    pub open spec fn stores(self, i: int) -> bool {
        holds(self.indices@, 0, self.indices@.len() as int, i)
    }

    /// The value at `i`.
    pub open spec fn value(self, i: int) -> T {
        at(self.indices@, self.data@, 0, self.indices@.len() as int, i)
    }

    /// The vector of the given entries, in any order.
    pub fn new(dim: usize, indices: Vec<usize>, data: Vec<T>) -> (r: CsVec<T>)
        requires
            indices@.len() == data@.len(),
            distinct(indices@, 0, indices@.len() as int),
            below(indices@, dim as int),
        ensures
            r.wf(),
            r.dim == dim,
            r.indices@.len() == indices@.len(),
            forall|i: int| #[trigger]
                r.stores(i) == holds(indices@, 0, indices@.len() as int, i),
            forall|i: int| #[trigger]
                r.value(i) == at(indices@, data@, 0, indices@.len() as int, i),
    {
        let ghost idx = indices@;
        let positions = crate::perm::numbers(indices.len());
        let (sorted, order) = crate::outside::sort_positions(dim, indices, positions);
        let out = picked(&data, &order);
        let r = CsVec { dim, indices: sorted, data: out };
        proof {
            assert(idx.len() == data.len());
            crate::outside::reordered_values(idx, data@, r.indices@, r.data@, order@);
            assert forall|p: int| 0 <= p < r.indices@.len() implies #[trigger] r.indices@[p]
                < dim by {
                assert(r.indices@[p] == idx[order@[p] as int]);
            }
        }
        r
    }

    pub fn empty(dim: usize) -> (r: CsVec<T>)
        ensures
            r.wf(),
            r.dim == dim,
            r.indices@.len() == 0,
            r.data@.len() == 0,
    {
        CsVec { dim, indices: Vec::new(), data: Vec::new() }
    }

    /// Adds an entry behind all others.
    pub fn append(&mut self, ind: usize, val: T)
        requires
            old(self).wf(),
            ind < old(self).dim,
            old(self).indices@.len() > 0 ==> old(self).indices@.last() < ind,
        ensures
            final(self).wf(),
            final(self).dim == old(self).dim,
            final(self).indices@ == old(self).indices@.push(ind),
            final(self).data@ == old(self).data@.push(val),
    {
        self.indices.push(ind);
        self.data.push(val);
        proof {
            let n = old(self).indices@.len() as int;
            assert forall|p: int, q: int| 0 <= p < q < n + 1 implies #[trigger] self.indices@[p]
                < #[trigger] self.indices@[q] by {
                if q == n && p < n - 1 {
                    assert(old(self).indices@[p] < old(self).indices@[n - 1]);
                }
            }
        }
    }

    pub fn nnz(&self) -> (r: usize)
        ensures
            r == self.indices@.len(),
    {
        self.indices.len()
    }

    /// The stored value at `i`.
    pub fn get(&self, i: usize) -> (r: Option<T>)
        requires
            self.wf(),
        ensures
            r == (if self.stores(i as int) {
                Some(self.value(i as int))
            } else {
                None
            }),
    {
        let n: usize = self.indices.len();
        let mut p: usize = 0;
        while p < n
            invariant
                self.wf(),
                n == self.indices@.len(),
                p <= n,
                forall|q: int| 0 <= q < p ==> #[trigger] self.indices@[q] != i,
            decreases n - p,
        {
            if self.indices[p] == i {
                proof {
                    at_place(self.indices@, self.data@, 0, n as int, p as int);
                }
                return Some(self.data[p]);
            }
            p += 1;
        }
        None
    }

    /// Every stored value divided by `d`.
    pub fn divided_by(&self, d: T) -> (r: CsVec<T>)
        requires
            self.wf(),
        ensures
            r.wf(),
            r.dim == self.dim,
            forall|i: int| #[trigger] r.stores(i) == self.stores(i),
            forall|i: int| self.stores(i) ==> #[trigger] r.value(i) == self.value(i).over_spec(d),
    {
        let n: usize = self.data.len();
        let mut data: Vec<T> = Vec::with_capacity(n);
        let mut p: usize = 0;
        while p < n
            invariant
                n == self.data@.len(),
                p <= n,
                data@.len() == p,
                forall|q: int| 0 <= q < p ==> #[trigger] data@[q] == self.data@[q].over_spec(d),
            decreases n - p,
        {
            data.push(self.data[p].over(d));
            p += 1;
        }
        let r = CsVec { dim: self.dim, indices: copied(&self.indices), data };
        proof {
            assert forall|i: int| self.stores(i) implies #[trigger] r.value(i) == self.value(
                i,
            ).over_spec(d) by {
                assert(r.stores(i));
            }
        }
        r
    }

    /// The sum of the products of the stored values and the items of `dense`.
    pub fn dot_dense(&self, dense: &Vec<T>) -> (r: T)
        requires
            self.wf(),
            dense@.len() == self.dim,
        ensures
            r == dense_dot(self.indices@, self.data@, dense@, self.indices@.len()),
    {
        let n: usize = self.indices.len();
        let mut sum: T = T::zero();
        let mut p: usize = 0;
        while p < n
            invariant
                self.wf(),
                dense@.len() == self.dim,
                n == self.indices@.len(),
                p <= n,
                sum == dense_dot(self.indices@, self.data@, dense@, p as nat),
            decreases n - p,
        {
            sum = sum.plus(self.data[p].times(dense[self.indices[p]]));
            p += 1;
        }
        sum
    }

    /// The sum of the products of values that both vectors store.
    pub fn dot(&self, rhs: &CsVec<T>) -> (r: T)
        requires
            self.wf(),
            rhs.wf(),
            self.dim == rhs.dim,
        ensures
            r == sparse_dot(self.indices@, self.data@, *rhs, self.indices@.len()),
    {
        let m: usize = self.indices.len();
        let n: usize = rhs.indices.len();
        let mut sum: T = T::zero();
        let mut p: usize = 0;
        let mut q: usize = 0;
        while p < m && q < n
            invariant
                self.wf(),
                rhs.wf(),
                m == self.indices@.len(),
                n == rhs.indices@.len(),
                p <= m,
                q <= n,
                forall|k: int| p <= k < m ==> forall|j: int|
                    0 <= j < q ==> #[trigger] rhs.indices@[j] < #[trigger] self.indices@[k],
                sum == sparse_dot(self.indices@, self.data@, *rhs, p as nat),
            decreases m - p + n - q,
        {
            let a: usize = self.indices[p];
            let b: usize = rhs.indices[q];
            proof {
                if a == b {
                    at_place(rhs.indices@, rhs.data@, 0, n as int, q as int);
                } else if a < b {
                    if rhs.stores(a as int) {
                        let k = place(rhs.indices@, 0, n as int, a as int);
                        assert(rhs.indices@[k] == a);
                        if k < q {
                            assert(rhs.indices@[k] < self.indices@[p as int]);
                        } else if q < k {
                            assert(rhs.indices@[q as int] < rhs.indices@[k]);
                        }
                    }
                }
                assert forall|k: int| p < k < m implies self.indices@[p as int]
                    < #[trigger] self.indices@[k] by {}
            }
            if a == b {
                sum = sum.plus(self.data[p].times(rhs.data[q]));
            }
            if a <= b {
                p += 1;
            }
            if a >= b {
                q += 1;
            }
        }
        proof {
            if p < m {
                assert forall|k: int| p <= k < m implies !rhs.stores(
                    #[trigger] self.indices@[k] as int,
                ) by {
                    if rhs.stores(self.indices@[k] as int) {
                        let j = place(rhs.indices@, 0, n as int, self.indices@[k] as int);
                        assert(rhs.indices@[j] < self.indices@[k]);
                    }
                }
                dot_skip(self.indices@, self.data@, *rhs, p as nat, m as nat);
            }
        }
        sum
    }

    /// The sum of the squares of the stored values.
    pub fn squared_l2_norm(&self) -> (r: T)
        ensures
            r == square_sum(self.data@, self.data@.len()),
    {
        sq_norm(&self.data)
    }

    pub fn copy(&self) -> (r: CsVec<T>)
        ensures
            r.dim == self.dim,
            r.indices@ == self.indices@,
            r.data@ == self.data@,
    {
        CsVec { dim: self.dim, indices: copied(&self.indices), data: copied(&self.data) }
    }
}

/// The sum of the products of the first `k` stored values and the items that they belong to.
pub open spec fn dense_dot<T: Scalar>(
    idx: Seq<usize>,
    data: Seq<T>,
    dense: Seq<T>,
    k: nat,
) -> T
    decreases k,
{
    if k == 0 {
        T::zero_spec()
    } else {
        dense_dot(idx, data, dense, (k - 1) as nat).plus_spec(
            data[k - 1].times_spec(dense[idx[k - 1] as int]),
        )
    }
}

/// The sum of the products of those among the first `k` stored values for which `rhs` stores
/// one, too.
pub open spec fn sparse_dot<T: Scalar>(idx: Seq<usize>, data: Seq<T>, rhs: CsVec<T>, k: nat) -> T
    decreases k,
{
    if k == 0 {
        T::zero_spec()
    } else if rhs.stores(idx[k - 1] as int) {
        sparse_dot(idx, data, rhs, (k - 1) as nat).plus_spec(
            data[k - 1].times_spec(rhs.value(idx[k - 1] as int)),
        )
    } else {
        sparse_dot(idx, data, rhs, (k - 1) as nat)
    }
}

proof fn dot_skip<T: Scalar>(idx: Seq<usize>, data: Seq<T>, rhs: CsVec<T>, from: nat, to: nat)
    requires
        from <= to,
        forall|k: int| from <= k < to ==> !rhs.stores(#[trigger] idx[k] as int),
    ensures
        sparse_dot(idx, data, rhs, to) == sparse_dot(idx, data, rhs, from),
    decreases to - from,
{
    if from < to {
        assert(!rhs.stores(idx[to - 1] as int));
        dot_skip(idx, data, rhs, from, (to - 1) as nat);
    }
}

/// Whether the lines of a matrix are its rows or its columns.
#[derive(Clone, Copy, Debug, PartialEq, Eq, Structural)]
pub enum Storage {
    Csr,
    Csc,
}

/// A sparse matrix by lines; within a line the indices grow.
#[derive(Clone, Debug)]
pub struct CsMat<T> {
    pub storage: Storage,
    pub nrows: usize,
    pub ncols: usize,
    pub indptr: Vec<usize>,
    pub indices: Vec<usize>,
    pub data: Vec<T>,
}

/// Offsets that cut `0..total` into `lines` pieces.
pub open spec fn offsets(indptr: Seq<usize>, lines: int, total: int) -> bool {
    &&& indptr.len() == lines + 1
    &&& indptr[0] == 0
    &&& indptr[lines] == total
    &&& forall|i: int, j: int| 0 <= i <= j <= lines ==> #[trigger] indptr[i] <= #[trigger] indptr[j]
}

/// In line `o` the indices grow.
pub open spec fn line_ascends(indptr: Seq<usize>, indices: Seq<usize>, o: int) -> bool {
    ascending(indices, indptr[o] as int, indptr[o + 1] as int)
}

/// In every line the indices grow.
pub open spec fn lines_ascend(indptr: Seq<usize>, indices: Seq<usize>) -> bool {
    forall|o: int| 0 <= o < indptr.len() - 1 ==> #[trigger] line_ascends(indptr, indices, o)
}

/// The piece that a position lies in.
proof fn piece_of(indptr: Seq<usize>, lines: int, total: int, p: int) -> (o: int)
    requires
        lines >= 0,
        offsets(indptr, lines, total),
        0 <= p < total,
    ensures
        0 <= o < lines,
        indptr[o] <= p < indptr[o + 1],
{
    piece_below(indptr, lines, p)
}

proof fn piece_below(indptr: Seq<usize>, k: int, p: int) -> (o: int)
    requires
        0 <= k < indptr.len(),
        indptr[0] <= p < indptr[k],
    ensures
        0 <= o < k,
        indptr[o] <= p < indptr[o + 1],
    decreases k,
{
    if k == 0 {
        0
    } else if indptr[k - 1] <= p {
        k - 1
    } else {
        piece_below(indptr, k - 1, p)
    }
}

/// The line that a stored entry lies in, and its index there.
pub proof fn position_line<T: Scalar>(m: CsMat<T>, p: int) -> (at: (int, int))
    requires
        m.wf(),
        0 <= p < m.data@.len(),
    ensures
        0 <= at.0 < m.outer(),
        0 <= at.1 < m.inner(),
        m.line_has(at.0, at.1),
        m.line(at.0, at.1) == m.data@[p],
{
    let o = piece_of(m.indptr@, m.outer(), m.indices@.len() as int, p);
    m.line_wf(o);
    at_place(m.indices@, m.data@, m.lo(o), m.hi(o), p);
    (o, m.indices@[p] as int)
}

impl<T: Scalar> CsMat<T> {
    pub open spec fn outer(self) -> int {
        match self.storage {
            Storage::Csr => self.nrows as int,
            Storage::Csc => self.ncols as int,
        }
    }

    pub open spec fn inner(self) -> int {
        match self.storage {
            Storage::Csr => self.ncols as int,
            Storage::Csc => self.nrows as int,
        }
    }

    pub open spec fn lo(self, o: int) -> int {
        self.indptr@[o] as int
    }

    pub open spec fn hi(self, o: int) -> int {
        self.indptr@[o + 1] as int
    }

    pub open spec fn wf(self) -> bool {
        &&& self.indices@.len() == self.data@.len()
        &&& offsets(self.indptr@, self.outer(), self.indices@.len() as int)
        &&& lines_ascend(self.indptr@, self.indices@)
        &&& below(self.indices@, self.inner())
    }

    /// The value at position `i` of line `o`.
    pub open spec fn line(self, o: int, i: int) -> T {
        at(self.indices@, self.data@, self.lo(o), self.hi(o), i)
    }

    pub open spec fn line_has(self, o: int, i: int) -> bool {
        holds(self.indices@, self.lo(o), self.hi(o), i)
    }

    /// The value in row `r` and column `c`.
    pub open spec fn entry(self, r: int, c: int) -> T {
        match self.storage {
            Storage::Csr => self.line(r, c),
            Storage::Csc => self.line(c, r),
        }
    }

    /// What a well-formed matrix says of one line.
    pub proof fn line_wf(self, o: int)
        requires
            self.wf(),
            0 <= o < self.outer(),
        ensures
            0 <= self.lo(o) <= self.hi(o) <= self.indices@.len(),
            ascending(self.indices@, self.lo(o), self.hi(o)),
            distinct(self.indices@, self.lo(o), self.hi(o)),
            forall|p: int|
                self.lo(o) <= p < self.hi(o) ==> #[trigger] self.indices@[p] < self.inner(),
    {
        assert(self.indptr@[0] <= self.indptr@[o]);
        assert(self.indptr@[o] <= self.indptr@[o + 1]);
        assert(self.indptr@[o + 1] <= self.indptr@[self.outer()]);
        assert(line_ascends(self.indptr@, self.indices@, o));
    }

    pub fn is_csc(&self) -> (r: bool)
        ensures
            r == (self.storage == Storage::Csc),
    {
        match self.storage {
            Storage::Csr => false,
            Storage::Csc => true,
        }
    }

    pub fn is_csr(&self) -> (r: bool)
        ensures
            r == (self.storage == Storage::Csr),
    {
        match self.storage {
            Storage::Csr => true,
            Storage::Csc => false,
        }
    }

    pub fn rows(&self) -> (r: usize)
        ensures
            r == self.nrows,
    {
        self.nrows
    }

    pub fn cols(&self) -> (r: usize)
        ensures
            r == self.ncols,
    {
        self.ncols
    }

    /// The number of stored entries.
    pub fn nnz(&self) -> (r: usize)
        ensures
            r == self.indices@.len(),
    {
        self.indices.len()
    }

    /// A matrix without lines.
    pub fn empty(storage: Storage, inner: usize) -> (r: CsMat<T>)
        ensures
            r.wf(),
            r.storage == storage,
            r.outer() == 0,
            r.inner() == inner,
            r.indices@.len() == 0,
    {
        let mut indptr: Vec<usize> = Vec::new();
        indptr.push(0);
        let (nrows, ncols): (usize, usize) = match storage {
            Storage::Csr => (0, inner),
            Storage::Csc => (inner, 0),
        };
        CsMat { storage, nrows, ncols, indptr, indices: Vec::new(), data: Vec::new() }
    }

    #[verifier::spinoff_prover]
    proof fn with_line(self, before: CsMat<T>, v: CsVec<T>)
        requires
            before.wf(),
            v.wf(),
            v.dim == before.inner(),
            self.storage == before.storage,
            self.outer() == before.outer() + 1,
            self.inner() == before.inner(),
            self.indptr@ == before.indptr@.push(self.indices@.len() as usize),
            self.indices@.len() <= usize::MAX,
            self.indices@ == before.indices@ + v.indices@,
            self.data@ == before.data@ + v.data@,
        ensures
            self.wf(),
            forall|o: int, i: int|
                0 <= o < before.outer() ==> #[trigger] self.line(o, i) == before.line(o, i),
            forall|o: int, i: int|
                0 <= o < before.outer() ==> #[trigger] self.line_has(o, i) == before.line_has(o, i),
            forall|i: int| #[trigger] self.line(before.outer(), i) == v.value(i),
            forall|i: int| #[trigger] self.line_has(before.outer(), i) == v.stores(i),
    {
        let n = before.indices@.len() as int;
        let m = v.indices@.len() as int;
        let last = before.outer();
        assert forall|i: int, j: int| 0 <= i <= j <= last + 1 implies #[trigger] self.indptr@[i]
            <= #[trigger] self.indptr@[j] by {
            if j <= last {
                assert(before.indptr@[i] <= before.indptr@[j]);
            } else if i <= last {
                assert(before.indptr@[i] <= before.indptr@[last]);
            }
        }
        assert forall|p: int| 0 <= p < self.indices@.len() implies #[trigger] self.indices@[p]
            < self.inner() by {
            if p < n {
                assert(before.indices@[p] < self.inner());
            } else {
                assert(v.indices@[p - n] < self.inner());
            }
        }
        assert forall|o: int| 0 <= o < last + 1 implies #[trigger] line_ascends(
            self.indptr@,
            self.indices@,
            o,
        ) by {
            if o < last {
                before.line_wf(o);
                assert forall|p: int, q: int|
                    self.indptr@[o] <= p < q < self.indptr@[o + 1] implies #[trigger] self.indices@[p]
                    < #[trigger] self.indices@[q] by {
                    assert(before.indices@[p] < before.indices@[q]);
                }
            } else {
                assert forall|p: int, q: int|
                    self.indptr@[o] <= p < q < self.indptr@[o + 1] implies #[trigger] self.indices@[p]
                    < #[trigger] self.indices@[q] by {
                    assert(v.indices@[p - n] < v.indices@[q - n]);
                }
            }
        }
        assert forall|o: int, i: int| 0 <= o < last implies #[trigger] self.line(o, i)
            == before.line(o, i) && self.line_has(o, i) == before.line_has(o, i) by {
            before.line_wf(o);
            at_same(
                before.indices@,
                before.data@,
                before.lo(o),
                before.hi(o),
                self.indices@,
                self.data@,
                self.lo(o),
                self.hi(o),
                i,
            );
        }
        assert forall|o: int, i: int| 0 <= o < last implies #[trigger] self.line_has(o, i)
            == before.line_has(o, i) by {
            assert(self.line(o, i) == before.line(o, i));
        }
        assert forall|i: int| #[trigger] self.line(last, i) == v.value(i) && self.line_has(last, i)
            == v.stores(i) by {
            at_same(v.indices@, v.data@, 0, m, self.indices@, self.data@, n, n + m, i);
        }
        assert forall|i: int| #[trigger] self.line_has(last, i) == v.stores(i) by {
            assert(self.line(last, i) == v.value(i));
        }
    }

    /// Adds a line behind all others.
    pub fn append_outer(&mut self, v: &CsVec<T>)
        requires
            old(self).wf(),
            v.wf(),
            v.dim == old(self).inner(),
            old(self).outer() < usize::MAX - 1,
        ensures
            final(self).wf(),
            final(self).storage == old(self).storage,
            final(self).outer() == old(self).outer() + 1,
            final(self).inner() == old(self).inner(),
            final(self).indices@ == old(self).indices@ + v.indices@,
            final(self).data@ == old(self).data@ + v.data@,
            forall|o: int, i: int|
                0 <= o < old(self).outer() ==> #[trigger] final(self).line(o, i) == old(self).line(
                    o,
                    i,
                ),
            forall|o: int, i: int|
                0 <= o < old(self).outer() ==> #[trigger] final(self).line_has(o, i) == old(
                    self,
                ).line_has(o, i),
            forall|i: int| #[trigger] final(self).line(old(self).outer(), i) == v.value(i),
            forall|i: int| #[trigger] final(self).line_has(old(self).outer(), i) == v.stores(i),
    {
        let n: usize = v.indices.len();
        let mut k: usize = 0;
        while k < n
            invariant
                k <= n,
                n == v.indices@.len(),
                n == v.data@.len(),
                self.storage == old(self).storage,
                self.nrows == old(self).nrows,
                self.ncols == old(self).ncols,
                self.indptr@ == old(self).indptr@,
                self.indices@ =~= old(self).indices@ + v.indices@.subrange(0, k as int),
                self.data@ =~= old(self).data@ + v.data@.subrange(0, k as int),
            decreases n - k,
        {
            self.indices.push(v.indices[k]);
            self.data.push(v.data[k]);
            k += 1;
        }
        self.indptr.push(self.indices.len());
        match self.storage {
            Storage::Csr => {
                self.nrows = self.nrows + 1;
            },
            Storage::Csc => {
                self.ncols = self.ncols + 1;
            },
        }
        proof {
            assert(v.indices@.subrange(0, n as int) =~= v.indices@);
            assert(v.data@.subrange(0, n as int) =~= v.data@);
            self.with_line(*old(self), *v);
        }
    }

    /// The line `o` as a vector of its own.
    pub fn outer_vec(&self, o: usize) -> (r: CsVec<T>)
        requires
            self.wf(),
            o < self.outer(),
        ensures
            r.wf(),
            r.dim == self.inner(),
            r.indices@ == self.indices@.subrange(self.lo(o as int), self.hi(o as int)),
            r.data@ == self.data@.subrange(self.lo(o as int), self.hi(o as int)),
            forall|i: int| #[trigger] r.value(i) == self.line(o as int, i),
            forall|i: int| #[trigger] r.stores(i) == self.line_has(o as int, i),
    {
        proof {
            self.line_wf(o as int);
        }
        let dim: usize = match self.storage {
            Storage::Csr => self.ncols,
            Storage::Csc => self.nrows,
        };
        let mut r: CsVec<T> = CsVec { dim, indices: Vec::new(), data: Vec::new() };
        let lo: usize = self.indptr[o];
        let hi: usize = self.indptr[o + 1];
        let mut p: usize = lo;
        while p < hi
            invariant
                lo <= p <= hi <= self.indices@.len(),
                self.indices@.len() == self.data@.len(),
                r.dim == dim,
                r.indices@ == self.indices@.subrange(lo as int, p as int),
                r.data@ == self.data@.subrange(lo as int, p as int),
            decreases hi - p,
        {
            r.indices.push(self.indices[p]);
            r.data.push(self.data[p]);
            proof {
                assert(self.indices@.subrange(lo as int, p + 1) =~= self.indices@.subrange(
                    lo as int,
                    p as int,
                ).push(self.indices@[p as int]));
                assert(self.data@.subrange(lo as int, p + 1) =~= self.data@.subrange(
                    lo as int,
                    p as int,
                ).push(self.data@[p as int]));
            }
            p += 1;
        }
        proof {
            assert forall|i: int| #[trigger] r.value(i) == self.line(o as int, i) && r.stores(i)
                == self.line_has(o as int, i) by {
                at_same(
                    self.indices@,
                    self.data@,
                    lo as int,
                    hi as int,
                    r.indices@,
                    r.data@,
                    0,
                    hi - lo,
                    i,
                );
            }
            assert forall|i: int| #[trigger] r.stores(i) == self.line_has(o as int, i) by {
                assert(r.value(i) == self.line(o as int, i));
            }
        }
        r
    }
}

/// Cuts off the entries at `len` and above.
pub fn into_resized<T: Scalar>(vec: CsVec<T>, len: usize) -> (r: CsVec<T>)
    requires
        vec.wf(),
    ensures
        r.wf(),
        r.dim == len,
        forall|i: int| #[trigger] r.stores(i) == (vec.stores(i) && i < len),
        forall|i: int| i < len ==> #[trigger] r.value(i) == vec.value(i),
        r.indices@.len() <= vec.indices@.len(),
{
    let mut indices: Vec<usize> = vec.indices;
    let mut data: Vec<T> = vec.data;
    let ghost idx = indices@;
    let ghost dat = data@;
    let ghost n = idx.len() as int;
    while indices.len() > 0 && indices[indices.len() - 1] >= len
        invariant
            indices@.len() == data@.len(),
            indices@.len() <= n,
            n == idx.len(),
            n == dat.len(),
            ascending(idx, 0, n),
            indices@ =~= idx.subrange(0, indices@.len() as int),
            data@ =~= dat.subrange(0, indices@.len() as int),
            forall|p: int| indices@.len() <= p < n ==> #[trigger] idx[p] >= len,
        decreases indices@.len(),
    {
        indices.pop();
        data.pop();
    }
    let ghost k = indices@.len() as int;
    proof {
        assert forall|p: int| 0 <= p < k implies #[trigger] indices@[p] < len by {
            assert(indices@[p] == idx[p]);
            if p < k - 1 {
                assert(idx[p] < idx[k - 1]);
            }
        }
        assert forall|p: int, q: int| 0 <= p < q < k implies #[trigger] indices@[p]
            < #[trigger] indices@[q] by {
            assert(idx[p] < idx[q]);
        }
        let idx2 = indices@;
        assert forall|i: int| #[trigger] holds(idx2, 0, k, i) == (holds(idx, 0, n, i) && i < len) by {
            if holds(idx2, 0, k, i) {
                let p = place(idx2, 0, k, i);
                assert(idx[p] == i);
            }
            if holds(idx, 0, n, i) && i < len {
                let p = place(idx, 0, n, i);
                assert(p < k);
                assert(idx2[p] == i);
            }
        }
        assert forall|i: int| i < len implies #[trigger] at(idx2, data@, 0, k, i) == at(
            idx,
            dat,
            0,
            n,
            i,
        ) by {
            assert(holds(idx2, 0, k, i) == (holds(idx, 0, n, i) && i < len));
            if holds(idx2, 0, k, i) {
                let p = place(idx2, 0, k, i);
                at_place(idx, dat, 0, n, p);
            }
        }
    }
    CsVec { dim: len, indices, data }
}

/// A sparse vector whose entries are in any order.
#[derive(Clone, Debug)]
pub struct SparseVec<T> {
    pub indices: Vec<usize>,
    pub values: Vec<T>,
}

/// The sum of the first `k` squares.
pub open spec fn square_sum<T: Scalar>(s: Seq<T>, k: nat) -> T
    decreases k,
{
    if k == 0 {
        T::zero_spec()
    } else {
        square_sum(s, (k - 1) as nat).plus_spec(s[k - 1].times_spec(s[k - 1]))
    }
}

/// The squared norm of the values.
pub fn sq_norm<T: Scalar>(values: &Vec<T>) -> (r: T)
    ensures
        r == square_sum(values@, values@.len()),
{
    let mut sum: T = T::zero();
    let mut k: usize = 0;
    while k < values.len()
        invariant
            k <= values@.len(),
            sum == square_sum(values@, k as nat),
        decreases values@.len() - k,
    {
        sum = sum.plus(values[k].times(values[k]));
        k += 1;
    }
    sum
}

impl<T: Scalar> SparseVec<T> {
    pub open spec fn wf(self, n: int) -> bool {
        &&& self.indices@.len() == self.values@.len()
        &&& distinct(self.indices@, 0, self.indices@.len() as int)
        &&& below(self.indices@, n)
    }

    pub open spec fn stores(self, i: int) -> bool {
        holds(self.indices@, 0, self.indices@.len() as int, i)
    }

    pub open spec fn value(self, i: int) -> T {
        at(self.indices@, self.values@, 0, self.indices@.len() as int, i)
    }

    pub fn new() -> (r: SparseVec<T>)
        ensures
            r.indices@.len() == 0,
            r.values@.len() == 0,
    {
        SparseVec { indices: Vec::new(), values: Vec::new() }
    }

    pub fn clear(&mut self)
        ensures
            final(self).indices@.len() == 0,
            final(self).values@.len() == 0,
    {
        self.indices.clear();
        self.values.clear();
    }

    pub fn push(&mut self, i: usize, val: T)
        ensures
            final(self).indices@ == old(self).indices@.push(i),
            final(self).values@ == old(self).values@.push(val),
    {
        self.indices.push(i);
        self.values.push(val);
    }

    /// What one more entry changes.
    pub proof fn with_entry(self, before: SparseVec<T>)
        requires
            before.indices@.len() == before.values@.len(),
            distinct(before.indices@, 0, before.indices@.len() as int),
            self.indices@ == before.indices@.push(self.indices@.last()),
            self.values@ == before.values@.push(self.values@.last()),
            !before.stores(self.indices@.last() as int),
        ensures
            distinct(self.indices@, 0, self.indices@.len() as int),
            forall|r: int| #[trigger]
                self.stores(r) == (before.stores(r) || r == self.indices@.last()),
            forall|r: int| #[trigger]
                self.value(r) == if r == self.indices@.last() {
                    self.values@.last()
                } else {
                    before.value(r)
                },
    {
        let n = before.indices@.len() as int;
        let last = self.indices@.last();
        assert forall|p: int, q: int| 0 <= p < q < n + 1 implies #[trigger] self.indices@[p]
            != #[trigger] self.indices@[q] by {
            if q < n {
                assert(before.indices@[p] != before.indices@[q]);
            } else {
                assert(before.indices@[p] == self.indices@[p]);
            }
        }
        assert forall|r: int| #[trigger] self.stores(r) == (before.stores(r) || r == last)
            && self.value(r) == if r == last {
            self.values@.last()
        } else {
            before.value(r)
        } by {
            if r == last {
                assert(self.indices@[n] == r);
                at_place(self.indices@, self.values@, 0, n + 1, n);
            } else {
                if before.stores(r) {
                    let p = place(before.indices@, 0, n, r);
                    assert(self.indices@[p] == r);
                    at_place(self.indices@, self.values@, 0, n + 1, p);
                }
                if self.stores(r) {
                    let p = place(self.indices@, 0, n + 1, r);
                    assert(before.indices@[p] == r);
                }
            }
        }
        assert forall|r: int| #[trigger] self.value(r) == if r == last {
            self.values@.last()
        } else {
            before.value(r)
        } by {
            assert(self.stores(r) == (before.stores(r) || r == last));
        }
    }

    pub fn sq_norm(&self) -> (r: T)
        ensures
            r == square_sum(self.values@, self.values@.len()),
    {
        sq_norm(&self.values)
    }

    /// The same vector with growing indices.
    pub fn into_csvec(self, n: usize) -> (r: CsVec<T>)
        requires
            self.wf(n as int),
        ensures
            r.wf(),
            r.dim == n,
            r.indices@.len() == self.indices@.len(),
            forall|i: int| #[trigger] r.stores(i) == self.stores(i),
            forall|i: int| #[trigger] r.value(i) == self.value(i),
    {
        CsVec::new(n, self.indices, self.values)
    }
}

/// A matrix by columns; within a column the entries are in any order.
#[derive(Clone, Debug)]
pub struct SparseMat<T> {
    pub n_rows: usize,
    pub indptr: Vec<usize>,
    pub indices: Vec<usize>,
    pub data: Vec<T>,
}

impl<T: Scalar> SparseMat<T> {
    pub open spec fn ncols(self) -> int {
        self.indptr@.len() - 1
    }

    pub open spec fn lo(self, c: int) -> int {
        self.indptr@[c] as int
    }

    pub open spec fn hi(self, c: int) -> int {
        self.indptr@[c + 1] as int
    }

    pub open spec fn wf(self) -> bool {
        &&& self.indptr@.len() >= 1
        &&& self.indices@.len() == self.data@.len()
        &&& offsets(self.indptr@, self.ncols(), self.indices@.len() as int)
        &&& below(self.indices@, self.n_rows as int)
        &&& forall|c: int| 0 <= c < self.ncols() ==> #[trigger] self.col_distinct(c)
    }

    /// No row occurs twice in column `c`.
    pub open spec fn col_distinct(self, c: int) -> bool {
        distinct(self.indices@, self.lo(c), self.hi(c))
    }

    /// The value in row `r` of column `c`.
    pub open spec fn entry(self, r: int, c: int) -> T {
        at(self.indices@, self.data@, self.lo(c), self.hi(c), r)
    }

    pub proof fn col_wf(self, c: int)
        requires
            self.wf(),
            0 <= c < self.ncols(),
        ensures
            0 <= self.lo(c) <= self.hi(c) <= self.indices@.len(),
            distinct(self.indices@, self.lo(c), self.hi(c)),
    {
        assert(self.indptr@[0] <= self.indptr@[c]);
        assert(self.indptr@[c] <= self.indptr@[c + 1]);
        assert(self.indptr@[c + 1] <= self.indptr@[self.ncols()]);
        assert(self.col_distinct(c));
    }

    pub fn new(n_rows: usize) -> (r: SparseMat<T>)
        ensures
            r.wf(),
            r.n_rows == n_rows,
            r.ncols() == 0,
            r.indices@.len() == 0,
    {
        let mut indptr: Vec<usize> = Vec::new();
        indptr.push(0);
        SparseMat { n_rows, indptr, indices: Vec::new(), data: Vec::new() }
    }

    pub fn cols(&self) -> (r: usize)
        requires
            self.wf(),
        ensures
            r == self.ncols(),
    {
        self.indptr.len() - 1
    }

    pub fn nnz(&self) -> (r: usize)
        ensures
            r == self.data@.len(),
    {
        self.data.len()
    }

    pub fn clear_and_resize(&mut self, n_rows: usize)
        ensures
            final(self).wf(),
            final(self).n_rows == n_rows,
            final(self).ncols() == 0,
            final(self).indices@.len() == 0,
    {
        self.indptr.clear();
        self.indptr.push(0);
        self.indices.clear();
        self.data.clear();
        self.n_rows = n_rows;
    }

    #[verifier::spinoff_prover]
    proof fn appended(self, before: SparseMat<T>, col: SparseVec<T>)
        requires
            before.wf(),
            col.wf(before.n_rows as int),
            before.indices@.len() + col.indices@.len() <= usize::MAX,
            self.n_rows == before.n_rows,
            self.indptr@ == before.indptr@.push(
                (before.indices@.len() + col.indices@.len()) as usize,
            ),
            self.indices@ == before.indices@ + col.indices@,
            self.data@ == before.data@ + col.values@,
        ensures
            self.wf(),
            forall|r: int, c: int|
                0 <= c < before.ncols() ==> #[trigger] self.entry(r, c) == before.entry(r, c),
            forall|r: int| #[trigger] self.entry(r, before.ncols()) == col.value(r),
    {
        let n = before.indices@.len() as int;
        let m = col.indices@.len() as int;
        let cols = before.ncols();
        assert forall|i: int, j: int| 0 <= i <= j <= cols + 1 implies #[trigger] self.indptr@[i]
            <= #[trigger] self.indptr@[j] by {
            if j <= cols {
                assert(before.indptr@[i] <= before.indptr@[j]);
            } else if i <= cols {
                assert(before.indptr@[i] <= before.indptr@[cols]);
            }
        }
        assert forall|p: int| 0 <= p < self.indices@.len() implies #[trigger] self.indices@[p]
            < self.n_rows by {
            if p < n {
                assert(before.indices@[p] < self.n_rows);
            } else {
                assert(col.indices@[p - n] < self.n_rows);
            }
        }
        assert forall|c: int| 0 <= c < cols + 1 implies distinct(
            self.indices@,
            #[trigger] self.indptr@[c] as int,
            self.indptr@[c + 1] as int,
        ) by {
            if c < cols {
                before.col_wf(c);
                assert forall|p: int, q: int|
                    self.indptr@[c] <= p < q < self.indptr@[c + 1] implies #[trigger] self.indices@[p]
                    != #[trigger] self.indices@[q] by {
                    assert(before.indices@[p] != before.indices@[q]);
                }
            } else {
                assert forall|p: int, q: int|
                    self.indptr@[c] <= p < q < self.indptr@[c + 1] implies #[trigger] self.indices@[p]
                    != #[trigger] self.indices@[q] by {
                    assert(col.indices@[p - n] != col.indices@[q - n]);
                }
            }
        }
        assert forall|r: int, c: int| 0 <= c < cols implies #[trigger] self.entry(r, c)
            == before.entry(r, c) by {
            before.col_wf(c);
            at_same(
                before.indices@,
                before.data@,
                before.lo(c),
                before.hi(c),
                self.indices@,
                self.data@,
                self.lo(c),
                self.hi(c),
                r,
            );
        }
        assert forall|r: int| #[trigger] self.entry(r, cols) == col.value(r) by {
            at_same(col.indices@, col.values@, 0, m, self.indices@, self.data@, n, n + m, r);
        }
    }

    /// Adds a column behind all others.
    pub fn append_col(&mut self, col: &SparseVec<T>)
        requires
            old(self).wf(),
            col.wf(old(self).n_rows as int),
        ensures
            final(self).wf(),
            final(self).n_rows == old(self).n_rows,
            final(self).ncols() == old(self).ncols() + 1,
            final(self).indptr@ == old(self).indptr@.push(final(self).indices@.len() as usize),
            final(self).indices@ == old(self).indices@ + col.indices@,
            final(self).data@ == old(self).data@ + col.values@,
            forall|r: int, c: int|
                0 <= c < old(self).ncols() ==> #[trigger] final(self).entry(r, c) == old(
                    self,
                ).entry(r, c),
            forall|r: int| #[trigger] final(self).entry(r, old(self).ncols()) == col.value(r),
    {
        let ghost n = self.indices@.len() as int;
        let mut k: usize = 0;
        while k < col.indices.len()
            invariant
                k <= col.indices@.len(),
                col.indices@.len() == col.values@.len(),
                self.n_rows == old(self).n_rows,
                self.indptr@ == old(self).indptr@,
                self.indices@ =~= old(self).indices@ + col.indices@.subrange(0, k as int),
                self.data@ =~= old(self).data@ + col.values@.subrange(0, k as int),
            decreases col.indices@.len() - k,
        {
            self.indices.push(col.indices[k]);
            self.data.push(col.values[k]);
            k += 1;
        }
        self.indptr.push(self.indices.len());
        proof {
            assert(col.indices@.subrange(0, col.indices@.len() as int) =~= col.indices@);
            assert(col.values@.subrange(0, col.values@.len() as int) =~= col.values@);
            self.appended(*old(self), *col);
        }
    }
}

} // verus!
