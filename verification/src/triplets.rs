//! Matrices as lists of entries.
use crate::outside::{arranged, column, triplets_to_csc};
use crate::perm::numbers;
use crate::scalar::Scalar;
use crate::sparse::{below, copied, distinct, holds, offsets, picked, place, CsMat, Storage};
use vstd::prelude::*;

verus! {

/// No place is named twice.
pub open spec fn apart(row_inds: Seq<usize>, col_inds: Seq<usize>) -> bool {
    forall|p: int, q: int|
        0 <= p < q < row_inds.len() ==> #[trigger] row_inds[p] != #[trigger] row_inds[q]
            || col_inds[p] != col_inds[q]
}

/// A matrix given by the row, the column and the value of its entries.
#[derive(Clone, Debug)]
pub struct TriMat<T> {
    pub nrows: usize,
    pub ncols: usize,
    pub row_inds: Vec<usize>,
    pub col_inds: Vec<usize>,
    pub data: Vec<T>,
}

impl<T: Scalar> TriMat<T> {
    pub open spec fn wf(self) -> bool {
        &&& self.row_inds@.len() == self.data@.len()
        &&& self.col_inds@.len() == self.data@.len()
        &&& below(self.row_inds@, self.nrows as int)
        &&& below(self.col_inds@, self.ncols as int)
        &&& apart(self.row_inds@, self.col_inds@)
    }

    pub open spec fn is_at(self, p: int, r: int, c: int) -> bool {
        0 <= p < self.row_inds@.len() && self.row_inds@[p] == r && self.col_inds@[p] == c
    }

    pub open spec fn stores(self, r: int, c: int) -> bool {
        exists|p: int| self.is_at(p, r, c)
    }

    /// The value in row `r` and column `c`.
    pub open spec fn value(self, r: int, c: int) -> T {
        if self.stores(r, c) {
            self.data@[choose|p: int| self.is_at(p, r, c)]
        } else {
            T::zero_spec()
        }
    }

    pub proof fn value_at(self, p: int)
        requires
            self.wf(),
            0 <= p < self.row_inds@.len(),
        ensures
            self.stores(self.row_inds@[p] as int, self.col_inds@[p] as int),
            self.value(self.row_inds@[p] as int, self.col_inds@[p] as int) == self.data@[p],
    {
        let (r, c) = (self.row_inds@[p] as int, self.col_inds@[p] as int);
        assert(self.is_at(p, r, c));
        let q = choose|q: int| self.is_at(q, r, c);
        if q < p {
            assert(self.row_inds@[q] != self.row_inds@[p] || self.col_inds@[q]
                != self.col_inds@[p]);
        } else if p < q {
            assert(self.row_inds@[p] != self.row_inds@[q] || self.col_inds@[p]
                != self.col_inds@[q]);
        }
    }

    pub fn new(nrows: usize, ncols: usize) -> (r: TriMat<T>)
        ensures
            r.wf(),
            r.nrows == nrows,
            r.ncols == ncols,
            r.data@.len() == 0,
            forall|i: int, j: int| !#[trigger] r.stores(i, j),
    {
        TriMat { nrows, ncols, row_inds: Vec::new(), col_inds: Vec::new(), data: Vec::new() }
    }

    pub fn add_triplet(&mut self, row: usize, col: usize, val: T)
        requires
            old(self).wf(),
            row < old(self).nrows,
            col < old(self).ncols,
            !old(self).stores(row as int, col as int),
        ensures
            final(self).wf(),
            final(self).nrows == old(self).nrows,
            final(self).ncols == old(self).ncols,
            final(self).row_inds@ == old(self).row_inds@.push(row),
            final(self).col_inds@ == old(self).col_inds@.push(col),
            final(self).data@ == old(self).data@.push(val),
            forall|i: int, j: int| #[trigger]
                final(self).stores(i, j) == (old(self).stores(i, j) || (i == row && j == col)),
            forall|i: int, j: int| #[trigger]
                final(self).value(i, j) == if i == row && j == col {
                    val
                } else {
                    old(self).value(i, j)
                },
    {
        self.row_inds.push(row);
        self.col_inds.push(col);
        self.data.push(val);
        proof {
            let n = old(self).data@.len() as int;
            assert forall|p: int, q: int| 0 <= p < q < n + 1 implies #[trigger] self.row_inds@[p]
                != #[trigger] self.row_inds@[q] || self.col_inds@[p] != self.col_inds@[q] by {
                if q == n {
                    if self.row_inds@[p] == row && self.col_inds@[p] == col {
                        assert(old(self).is_at(p, row as int, col as int));
                    }
                } else {
                    assert(old(self).row_inds@[p] != old(self).row_inds@[q] || old(
                        self,
                    ).col_inds@[p] != old(self).col_inds@[q]);
                }
            }
            assert(self.is_at(n, row as int, col as int));
            self.value_at(n);
            assert forall|i: int, j: int| #[trigger] self.stores(i, j) == (old(self).stores(i, j)
                || (i == row && j == col)) && (!(i == row && j == col) ==> self.value(i, j) == old(
                self,
            ).value(i, j)) by {
                if old(self).stores(i, j) {
                    let p = choose|p: int| old(self).is_at(p, i, j);
                    assert(self.is_at(p, i, j));
                    old(self).value_at(p);
                    self.value_at(p);
                }
                if self.stores(i, j) {
                    let p = choose|p: int| self.is_at(p, i, j);
                    if p < n {
                        assert(old(self).is_at(p, i, j));
                    }
                }
            }
            assert forall|i: int, j: int| #[trigger] self.value(i, j) == if i == row && j == col {
                val
            } else {
                old(self).value(i, j)
            } by {
                assert(self.stores(i, j) == (old(self).stores(i, j) || (i == row && j == col)));
            }
        }
    }

    pub fn nnz(&self) -> (r: usize)
        ensures
            r == self.data@.len(),
    {
        self.data.len()
    }

    /// The transposed matrix.
    pub fn transposed(&self) -> (r: TriMat<T>)
        requires
            self.wf(),
        ensures
            r.wf(),
            r.nrows == self.ncols,
            r.ncols == self.nrows,
            forall|i: int, j: int| #[trigger] r.stores(i, j) == self.stores(j, i),
            forall|i: int, j: int| #[trigger] r.value(i, j) == self.value(j, i),
            r.data@.len() == self.data@.len(),
    {
        let r = TriMat {
            nrows: self.ncols,
            ncols: self.nrows,
            row_inds: copied(&self.col_inds),
            col_inds: copied(&self.row_inds),
            data: copied(&self.data),
        };
        proof {
            assert forall|p: int, q: int| 0 <= p < q < r.row_inds@.len() implies
                #[trigger] r.row_inds@[p] != #[trigger] r.row_inds@[q] || r.col_inds@[p]
                != r.col_inds@[q] by {
                assert(self.row_inds@[p] != self.row_inds@[q] || self.col_inds@[p]
                    != self.col_inds@[q]);
            }
            assert forall|i: int, j: int| #[trigger] r.stores(i, j) == self.stores(j, i) && r.value(
                i,
                j,
            ) == self.value(j, i) by {
                if self.stores(j, i) {
                    let p = choose|p: int| self.is_at(p, j, i);
                    assert(r.is_at(p, i, j));
                    self.value_at(p);
                    r.value_at(p);
                }
                if r.stores(i, j) {
                    let p = choose|p: int| r.is_at(p, i, j);
                    assert(self.is_at(p, j, i));
                }
            }
            assert forall|i: int, j: int| #[trigger] r.value(i, j) == self.value(j, i) by {
                assert(r.stores(i, j) == self.stores(j, i));
            }
        }
        r
    }

    /// The same matrix by columns.
    pub fn to_csc(&self) -> (r: CsMat<T>)
        requires
            self.wf(),
            self.ncols < usize::MAX,
        ensures
            r.wf(),
            r.storage == Storage::Csc,
            r.nrows == self.nrows,
            r.ncols == self.ncols,
            r.data@.len() == self.data@.len(),
            forall|i: int, j: int|
                0 <= j < self.ncols ==> #[trigger] r.line_has(j, i) == self.stores(i, j),
            forall|i: int, j: int|
                0 <= j < self.ncols ==> #[trigger] r.line(j, i) == self.value(i, j),
    {
        let (indptr, indices, order) = triplets_to_csc(
            self.nrows,
            self.ncols,
            copied(&self.row_inds),
            copied(&self.col_inds),
            numbers(self.row_inds.len()),
        );
        proof {
            arranged_positions(
                indptr@,
                indices@,
                order@,
                self.row_inds@,
                self.col_inds@,
                self.nrows as int,
            );
        }
        let data = picked(&self.data, &order);
        let r = CsMat {
            storage: Storage::Csc,
            nrows: self.nrows,
            ncols: self.ncols,
            indptr,
            indices,
            data,
        };
        proof {
            self.arranged_entries(r, order@);
        }
        r
    }

    proof fn arranged_entries(self, r: CsMat<T>, order: Seq<usize>)
        requires
            self.wf(),
            r.wf(),
            r.storage == Storage::Csc,
            r.nrows == self.nrows,
            r.ncols == self.ncols,
            r.data@.len() == self.data@.len(),
            order.len() == self.data@.len(),
            self.data@.len() <= usize::MAX,
            distinct(order, 0, order.len() as int),
            below(order, order.len() as int),
            arranged(r.indptr@, r.indices@, order, self.row_inds@, self.col_inds@),
            forall|k: int|
                0 <= k < order.len() ==> #[trigger] r.data@[k] == self.data@[order[k] as int],
        ensures
            forall|i: int, j: int|
                0 <= j < self.ncols ==> #[trigger] r.line_has(j, i) == self.stores(i, j),
            forall|i: int, j: int|
                0 <= j < self.ncols ==> #[trigger] r.line(j, i) == self.value(i, j),
    {
        let n = order.len() as int;
        crate::perm::distinct_is_onto(order, n);
        in_some_line(r.indptr@, r.ncols as int, n);
        assert forall|i: int, j: int| 0 <= j < self.ncols implies #[trigger] r.line_has(j, i)
            == self.stores(i, j) && r.line(j, i) == self.value(i, j) by {
            r.line_wf(j);
            if r.line_has(j, i) {
                let k = place(r.indices@, r.lo(j), r.hi(j), i);
                let p = order[k] as int;
                assert(column(j) == j);
                assert(self.is_at(p, i, j));
                self.value_at(p);
            }
            if self.stores(i, j) {
                let p = choose|p: int| self.is_at(p, i, j);
                assert(holds(order, 0, n, p));
                let k = place(order, 0, n, p);
                let c = line_of(r.indptr@, k);
                assert(column(c) == c && order[k] == p);
                assert(c == j);
                assert(r.indices@[k] == i);
            }
        }
        assert forall|i: int, j: int| 0 <= j < self.ncols implies #[trigger] r.line(j, i)
            == self.value(i, j) by {
            assert(r.line_has(j, i) == self.stores(i, j));
        }
    }
}

proof fn arranged_positions(
    indptr: Seq<usize>,
    indices: Seq<usize>,
    order: Seq<usize>,
    row_inds: Seq<usize>,
    col_inds: Seq<usize>,
    rows: int,
)
    requires
        indptr.len() >= 1,
        offsets(indptr, indptr.len() - 1, row_inds.len() as int),
        indices.len() == row_inds.len(),
        order.len() == row_inds.len(),
        below(row_inds, rows),
        arranged(indptr, indices, order, row_inds, col_inds),
    ensures
        below(order, order.len() as int),
        below(indices, rows),
{
    let n = order.len() as int;
    in_some_line(indptr, indptr.len() - 1, n);
    assert forall|k: int| 0 <= k < n implies #[trigger] order[k] < n by {
        let c = line_of(indptr, k);
        assert(column(c) == c);
    }
    assert forall|k: int| 0 <= k < n implies #[trigger] indices[k] < rows by {
        let c = line_of(indptr, k);
        assert(column(c) == c && order[k] < n);
        assert(indices[k] == row_inds[order[k] as int]);
    }
}

/// The line that the position `k` belongs to.
pub open spec fn line_of(indptr: Seq<usize>, k: int) -> int {
    choose|c: int| 0 <= c < indptr.len() - 1 && #[trigger] indptr[c] <= k < indptr[c + 1]
}

/// Every position belongs to a line.
pub proof fn in_some_line(indptr: Seq<usize>, lines: int, total: int)
    requires
        0 <= lines,
        offsets(indptr, lines, total),
    ensures
        forall|k: int|
            0 <= k < total ==> 0 <= #[trigger] line_of(indptr, k) < lines && indptr[line_of(
                indptr,
                k,
            )] <= k < indptr[line_of(indptr, k) + 1],
{
    assert forall|k: int| 0 <= k < total implies 0 <= #[trigger] line_of(indptr, k) < lines
        && indptr[line_of(indptr, k)] <= k < indptr[line_of(indptr, k) + 1] by {
        let c = find_line(indptr, lines, total, k, lines);
        assert(indptr[c] <= k);
    }
}

proof fn find_line(indptr: Seq<usize>, lines: int, total: int, k: int, upto: int) -> (c: int)
    requires
        offsets(indptr, lines, total),
        0 <= k < indptr[upto],
        0 <= upto <= lines,
    ensures
        0 <= c < lines,
        indptr[c] <= k < indptr[c + 1],
    decreases upto,
{
    if indptr[upto - 1] <= k {
        upto - 1
    } else {
        find_line(indptr, lines, total, k, upto - 1)
    }
}

} // verus!
