//! The calls into `sprs`. They arrange positions; the values stay with the caller.
use crate::perm::counting;
use crate::scalar::Scalar;
use vstd::prelude::*;

verus! {

/// Calls `sprs::CsVec::new` on the indices, with the numbers `0, 1, ..` as the data, and takes the
/// vector apart. That function sorts the entries by index: the first list is the indices in
/// growing order, the second tells the position that each came from.
#[verifier::external_body]
pub(crate) fn sort_positions(
    dim: usize,
    indices: Vec<usize>,
    positions: Vec<usize>,
) -> (r: (Vec<usize>, Vec<usize>))
    requires
        positions@ == counting(indices@.len()),
        crate::sparse::distinct(indices@, 0, indices@.len() as int),
        crate::sparse::below(indices@, dim as int),
    ensures
        r.0@.len() == indices@.len(),
        r.1@.len() == indices@.len(),
        crate::sparse::ascending(r.0@, 0, r.0@.len() as int),
        forall|p: int|
            0 <= p < r.1@.len() ==> #[trigger] r.1@[p] < indices@.len() && r.0@[p]
                == indices@[r.1@[p] as int],
        crate::sparse::distinct(r.1@, 0, r.1@.len() as int),
{
    sprs::CsVec::new(dim, indices, positions).into_raw_storage()
}

/// Calls `sprs::TriMat::to_csc` on the places, with the numbers `0, 1, ..` as the data, and takes the
/// matrix apart into the offsets of its columns, the row of every entry and the position that
/// the entry came from. That function sorts the entries by column and then by row; it would add
/// up the data of entries at one place, of which there are none.
#[verifier::external_body]
pub(crate) fn triplets_to_csc(
    rows: usize,
    cols: usize,
    row_inds: Vec<usize>,
    col_inds: Vec<usize>,
    positions: Vec<usize>,
) -> (r: (Vec<usize>, Vec<usize>, Vec<usize>))
    requires
        positions@ == counting(row_inds@.len()),
        cols < usize::MAX,
        row_inds@.len() == col_inds@.len(),
        crate::sparse::below(row_inds@, rows as int),
        crate::sparse::below(col_inds@, cols as int),
        crate::triplets::apart(row_inds@, col_inds@),
    ensures
        crate::sparse::offsets(r.0@, cols as int, row_inds@.len() as int),
        r.1@.len() == row_inds@.len(),
        r.2@.len() == row_inds@.len(),
        crate::sparse::distinct(r.2@, 0, r.2@.len() as int),
        crate::sparse::lines_ascend(r.0@, r.1@),
        crate::outside::arranged(r.0@, r.1@, r.2@, row_inds@, col_inds@),
{
    let csc: sprs::CsMat<usize> =
        sprs::TriMat::from_triplets((rows, cols), row_inds, col_inds, positions).to_csc();
    csc.into_raw_storage()
}

/// Calls `sprs::CsMat::to_csc` on a matrix by rows, with the numbers `0, 1, ..` as the data, and
/// takes the result apart into the offsets of its columns, the row of every entry and
/// the position that the entry came from. Within a column the rows grow.
#[verifier::external_body]
pub(crate) fn rows_to_csc(
    rows: usize,
    cols: usize,
    indptr: Vec<usize>,
    indices: Vec<usize>,
    positions: Vec<usize>,
) -> (r: (Vec<usize>, Vec<usize>, Vec<usize>))
    requires
        positions@ == counting(indices@.len()),
        cols < usize::MAX,
        indices@.len() <= usize::MAX / 2,
        crate::sparse::offsets(indptr@, rows as int, indices@.len() as int),
        crate::sparse::lines_ascend(indptr@, indices@),
        crate::sparse::below(indices@, cols as int),
    ensures
        crate::sparse::offsets(r.0@, cols as int, indices@.len() as int),
        r.1@.len() == indices@.len(),
        r.2@.len() == indices@.len(),
        crate::sparse::distinct(r.2@, 0, r.2@.len() as int),
        crate::sparse::lines_ascend(r.0@, r.1@),
        crate::outside::turned(indptr@, indices@, r.0@, r.1@, r.2@),
{
    let csc = sprs::CsMat::new((rows, cols), indptr, indices, positions).to_csc();
    csc.into_raw_storage()
}

pub open spec fn column(c: int) -> int {
    c
}

/// Every position `k` of a column stands for the entry `order[k]` of a matrix by rows, which
/// lies in that column and in the row `new_indices[k]`.
pub open spec fn turned(
    indptr: Seq<usize>,
    indices: Seq<usize>,
    new_indptr: Seq<usize>,
    new_indices: Seq<usize>,
    order: Seq<usize>,
) -> bool {
    forall|c: int, k: int|
        0 <= c < new_indptr.len() - 1 && new_indptr[c] <= k < new_indptr[c + 1] ==> {
            let p = #[trigger] order[k] as int;
            &&& p < indices.len()
            &&& indices[p] == #[trigger] column(c)
            &&& new_indices[k] < indptr.len() - 1
            &&& indptr[new_indices[k] as int] <= p < indptr[new_indices[k] + 1]
        }
}

/// Every position `k` of column `c` stands for the triplet `order[k]`, which lies in that
/// column and in the row `indices[k]`.
pub open spec fn arranged(
    indptr: Seq<usize>,
    indices: Seq<usize>,
    order: Seq<usize>,
    row_inds: Seq<usize>,
    col_inds: Seq<usize>,
) -> bool {
    forall|c: int, k: int|
        0 <= c < indptr.len() - 1 && indptr[c] <= k < indptr[c + 1] ==> {
            let p = #[trigger] order[k] as int;
            &&& p < row_inds.len()
            &&& col_inds[p] == #[trigger] column(c)
            &&& row_inds[p] == indices[k]
        }
}

/// Distinct positions below the length of their list reach all of them.
pub proof fn reordered_values<T: Scalar>(
    idx: Seq<usize>,
    data: Seq<T>,
    idx2: Seq<usize>,
    data2: Seq<T>,
    order: Seq<usize>,
)
    requires
        idx.len() == data.len(),
        idx.len() <= usize::MAX,
        idx2.len() == idx.len(),
        data2.len() == idx.len(),
        order.len() == idx.len(),
        crate::sparse::distinct(idx, 0, idx.len() as int),
        crate::sparse::distinct(order, 0, order.len() as int),
        forall|p: int|
            0 <= p < order.len() ==> #[trigger] order[p] < idx.len() && idx2[p]
                == idx[order[p] as int] && data2[p] == data[order[p] as int],
    ensures
        forall|i: int|
            crate::sparse::holds(idx2, 0, idx2.len() as int, i) == #[trigger] crate::sparse::holds(
                idx,
                0,
                idx.len() as int,
                i,
            ),
        forall|i: int|
            crate::sparse::at(idx2, data2, 0, idx2.len() as int, i) == #[trigger] crate::sparse::at(
                idx,
                data,
                0,
                idx.len() as int,
                i,
            ),
{
    let n = idx.len() as int;
    crate::perm::distinct_is_onto(order, n);
    assert forall|i: int|
        crate::sparse::holds(idx2, 0, n, i) == #[trigger] crate::sparse::holds(idx, 0, n, i) by {
        if crate::sparse::holds(idx, 0, n, i) {
            let p = crate::sparse::place(idx, 0, n, i);
            assert(crate::sparse::holds(order, 0, n, p));
            let q = crate::sparse::place(order, 0, n, p);
            assert(order[q] == p);
            assert(idx2[q] == i);
        }
        if crate::sparse::holds(idx2, 0, n, i) {
            let q = crate::sparse::place(idx2, 0, n, i);
            assert(order[q] < n);
            assert(idx[order[q] as int] == i);
        }
    }
    assert forall|i: int|
        crate::sparse::at(idx2, data2, 0, n, i) == #[trigger] crate::sparse::at(idx, data, 0, n, i) by {
        assert(crate::sparse::holds(idx2, 0, n, i) == crate::sparse::holds(idx, 0, n, i));
        if crate::sparse::holds(idx2, 0, n, i) {
            let q = crate::sparse::place(idx2, 0, n, i);
            assert(order[q] < n);
            crate::sparse::at_place(idx, data, 0, n, order[q] as int);
        }
    }
}

} // verus!
