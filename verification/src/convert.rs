//! Changes between the forms of a vector or a matrix.
use crate::elim::one_more;
use crate::outside::{column, rows_to_csc, turned};
use crate::perm::numbers;
use crate::perm::distinct_is_onto;
use crate::scalar::Scalar;
use crate::sparse::{
    at_place, below, copied, distinct, filled, holds, offsets, picked, place, CsMat, CsVec,
    Storage,
};
use crate::triplets::{in_some_line, line_of};
use vstd::prelude::*;

verus! {

/// The items that are not zero.
pub fn to_sparse<T: Scalar>(slice: &[T]) -> (r: CsVec<T>)
    ensures
        r.wf(),
        r.dim == slice@.len(),
        forall|i: int| #[trigger]
            r.stores(i) == (0 <= i < slice@.len() && !slice@[i].same_spec(T::zero_spec())),
        forall|i: int| r.stores(i) ==> #[trigger] r.value(i) == slice@[i],
{
    let n: usize = slice.len();
    let mut res: CsVec<T> = CsVec::empty(n);
    let mut i: usize = 0;
    while i < n
        invariant
            n == slice@.len(),
            i <= n,
            res.wf(),
            res.dim == n,
            forall|j: int| #[trigger]
                res.stores(j) == (0 <= j < i && !slice@[j].same_spec(T::zero_spec())),
            forall|j: int| res.stores(j) ==> #[trigger] res.value(j) == slice@[j],
        decreases n - i,
    {
        let val = slice[i];
        if !val.same(T::zero()) {
            let ghost before = res;
            proof {
                if res.indices@.len() > 0 {
                    let p = res.indices@.len() - 1;
                    assert(res.indices@[p] == res.indices@[p] as int);
                    assert(res.stores(res.indices@[p] as int));
                }
            }
            res.append(i, val);
            proof {
                crate::invert::appended_entry(before, res);
            }
        }
        i += 1;
    }
    res
}

/// All items.
pub fn to_dense<T: Scalar>(vec: &CsVec<T>) -> (r: Vec<T>)
    requires
        vec.wf(),
    ensures
        r@.len() == vec.dim,
        forall|i: int| 0 <= i < vec.dim ==> #[trigger] r@[i] == vec.value(i),
{
    let n: usize = vec.indices.len();
    let mut dense: Vec<T> = filled(vec.dim, T::zero());
    let mut p: usize = 0;
    while p < n
        invariant
            vec.wf(),
            n == vec.indices@.len(),
            p <= n,
            dense@.len() == vec.dim,
            forall|i: int|
                0 <= i < vec.dim ==> #[trigger] dense@[i] == if holds(
                    vec.indices@,
                    0,
                    p as int,
                    i,
                ) {
                    vec.value(i)
                } else {
                    T::zero_spec()
                },
        decreases n - p,
    {
        proof {
            at_place(vec.indices@, vec.data@, 0, n as int, p as int);
            one_more(vec.indices@, 0, n as int, p as int);
        }
        dense[vec.indices[p]] = vec.data[p];
        p += 1;
    }
    dense
}

/// The vector cut down, or extended, to the dimension `len`.
pub fn resized_view<T: Scalar>(vec: &CsVec<T>, len: usize) -> (r: CsVec<T>)
    requires
        vec.wf(),
    ensures
        r.wf(),
        r.dim == len,
        r.indices@.len() <= vec.indices@.len(),
        forall|i: int| #[trigger] r.stores(i) == (i < len && vec.stores(i)),
        forall|i: int| i < len ==> #[trigger] r.value(i) == vec.value(i),
{
    let mut n: usize = vec.indices.len();
    while n > 0 && vec.indices[n - 1] >= len
        invariant
            vec.wf(),
            n <= vec.indices@.len(),
            forall|p: int| n <= p < vec.indices@.len() ==> #[trigger] vec.indices@[p] >= len,
        decreases n,
    {
        n -= 1;
    }
    let mut indices = copied(&vec.indices);
    let mut data = copied(&vec.data);
    indices.truncate(n);
    data.truncate(n);
    let r = CsVec { dim: len, indices, data };
    proof {
        let m = vec.indices@.len() as int;
        assert forall|p: int| 0 <= p < n implies #[trigger] r.indices@[p] < len by {
            if p < n - 1 {
                assert(vec.indices@[p] < vec.indices@[n - 1]);
            }
        }
        assert forall|i: int| #[trigger] r.stores(i) == (i < len && vec.stores(i)) && (i < len
            ==> r.value(i) == vec.value(i)) by {
            if r.stores(i) {
                let p = place(r.indices@, 0, n as int, i);
                assert(vec.indices@[p] == i);
                at_place(vec.indices@, vec.data@, 0, m, p);
                at_place(r.indices@, r.data@, 0, n as int, p);
            }
            if i < len && vec.stores(i) {
                let p = place(vec.indices@, 0, m, i);
                assert(vec.indices@[p] == i);
                assert(r.indices@[p] == i);
            }
        }
        assert forall|i: int| i < len implies #[trigger] r.value(i) == vec.value(i) by {
            assert(r.stores(i) == (i < len && vec.stores(i)));
        }
    }
    r
}

impl<T: Scalar> CsMat<T> {
    /// The same matrix by columns.
    pub fn to_csc(&self) -> (r: CsMat<T>)
        requires
            self.wf(),
            self.storage == Storage::Csr,
            self.ncols < usize::MAX,
            self.indices@.len() <= usize::MAX / 2,
        ensures
            r.wf(),
            r.storage == Storage::Csc,
            r.nrows == self.nrows,
            r.ncols == self.ncols,
            r.indices@.len() == self.indices@.len(),
            forall|i: int, j: int|
                0 <= i < self.nrows && 0 <= j < self.ncols ==> #[trigger] r.line(j, i)
                    == self.line(i, j),
            forall|i: int, j: int|
                0 <= i < self.nrows && 0 <= j < self.ncols ==> #[trigger] r.line_has(j, i)
                    == self.line_has(i, j),
    {
        let (indptr, indices, order) = rows_to_csc(
            self.nrows,
            self.ncols,
            copied(&self.indptr),
            copied(&self.indices),
            numbers(self.indices.len()),
        );
        proof {
            self.turned_positions(indptr@, indices@, order@);
        }
        let data = picked(&self.data, &order);
        let r = CsMat {
            storage: Storage::Csc,
            nrows: self.nrows,
            ncols: self.ncols,
            indptr,
            indices,
            data,
        };
        proof {
            self.turned_entries(r, order@);
        }
        r
    }

    proof fn turned_positions(self, indptr: Seq<usize>, indices: Seq<usize>, order: Seq<usize>)
        requires
            self.wf(),
            self.storage == Storage::Csr,
            offsets(indptr, self.ncols as int, self.indices@.len() as int),
            indices.len() == self.indices@.len(),
            order.len() == self.indices@.len(),
            turned(self.indptr@, self.indices@, indptr, indices, order),
        ensures
            below(order, self.indices@.len() as int),
            below(indices, self.nrows as int),
    {
        let n = order.len() as int;
        in_some_line(indptr, self.ncols as int, n);
        assert forall|k: int| 0 <= k < n implies #[trigger] order[k] < n by {
            let c = line_of(indptr, k);
            assert(column(c) == c);
        }
        assert forall|k: int| 0 <= k < n implies #[trigger] indices[k] < self.nrows by {
            let c = line_of(indptr, k);
            assert(column(c) == c && order[k] < n);
        }
    }

    proof fn turned_entries(self, r: CsMat<T>, order: Seq<usize>)
        requires
            self.wf(),
            self.storage == Storage::Csr,
            r.wf(),
            r.storage == Storage::Csc,
            r.nrows == self.nrows,
            r.ncols == self.ncols,
            self.indices@.len() <= usize::MAX,
            r.indices@.len() == self.indices@.len(),
            order.len() == self.indices@.len(),
            distinct(order, 0, order.len() as int),
            below(order, order.len() as int),
            turned(self.indptr@, self.indices@, r.indptr@, r.indices@, order),
            forall|k: int|
                0 <= k < order.len() ==> #[trigger] r.data@[k] == self.data@[order[k] as int],
        ensures
            forall|i: int, j: int|
                0 <= i < self.nrows && 0 <= j < self.ncols ==> #[trigger] r.line(j, i)
                    == self.line(i, j),
            forall|i: int, j: int|
                0 <= i < self.nrows && 0 <= j < self.ncols ==> #[trigger] r.line_has(j, i)
                    == self.line_has(i, j),
    {
        let n = order.len() as int;
        distinct_is_onto(order, n);
        in_some_line(r.indptr@, r.ncols as int, n);
        assert forall|i: int, j: int| 0 <= i < self.nrows && 0 <= j < self.ncols implies
            #[trigger] r.line(j, i) == self.line(i, j) && r.line_has(j, i) == self.line_has(i, j) by {
            r.line_wf(j);
            self.line_wf(i);
            if r.line_has(j, i) {
                let k = place(r.indices@, r.lo(j), r.hi(j), i);
                let p = order[k] as int;
                assert(column(j) == j);
                assert(self.indices@[p] == j);
                at_place(self.indices@, self.data@, self.lo(i), self.hi(i), p);
            }
            if self.line_has(i, j) {
                let p = place(self.indices@, self.lo(i), self.hi(i), j);
                assert(holds(order, 0, n, p));
                let k = place(order, 0, n, p);
                let c = line_of(r.indptr@, k);
                assert(column(c) == c && order[k] == p);
                assert(c == j);
                let row = r.indices@[k] as int;
                self.same_row(i, row, p);
                assert(r.indices@[k] == i);
            }
        }
        assert forall|i: int, j: int| 0 <= i < self.nrows && 0 <= j < self.ncols implies
            #[trigger] r.line_has(j, i) == self.line_has(i, j) by {
            assert(r.line(j, i) == self.line(i, j));
        }
    }

    /// A position lies in one line only.
    proof fn same_row(self, a: int, b: int, p: int)
        requires
            self.wf(),
            0 <= a < self.outer(),
            0 <= b < self.outer(),
            self.lo(a) <= p < self.hi(a),
            self.lo(b) <= p < self.hi(b),
        ensures
            a == b,
    {
        if a < b {
            assert(self.indptr@[a + 1] <= self.indptr@[b]);
        } else if b < a {
            assert(self.indptr@[b + 1] <= self.indptr@[a]);
        }
    }
}

} // verus!
