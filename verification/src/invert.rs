//! The inverse of a sparse matrix by Gauss-Jordan elimination.
use crate::elim::one_more;
use crate::error::Error;
use crate::lu::all_finite;
use crate::scalar::{exact, Scalar};
use crate::sparse::{at_place, holds, place, CsMat, CsVec, Storage};
use crate::sums::{
    sum, sum_but_one, sum_longer, sum_plus, sum_same, sum_single, sum_swap, sum_times, times_zero,
};
use vstd::prelude::*;

verus! {

/// What `lhs + rhs * coeff` has at `i`, where at least one of the two vectors stores something.
pub open spec fn combined<T: Scalar>(lhs: CsVec<T>, rhs: CsVec<T>, coeff: T, i: int) -> T {
    if lhs.stores(i) && rhs.stores(i) {
        lhs.value(i).plus_spec(rhs.value(i).times_spec(coeff))
    } else if lhs.stores(i) {
        lhs.value(i)
    } else {
        rhs.value(i).times_spec(coeff)
    }
}

/// `lhs + rhs * coeff`, without zeros.
pub fn mul_add_sparse<T: Scalar>(lhs: &CsVec<T>, rhs: &CsVec<T>, coeff: T) -> (r: CsVec<T>)
    requires
        lhs.wf(),
        rhs.wf(),
        lhs.dim == rhs.dim,
    ensures
        r.wf(),
        r.dim == lhs.dim,
        forall|i: int| #[trigger]
            r.stores(i) == ((lhs.stores(i) || rhs.stores(i)) && !combined(
                *lhs,
                *rhs,
                coeff,
                i,
            ).same_spec(T::zero_spec())),
        forall|i: int|
            r.stores(i) ==> #[trigger] r.value(i) == combined(*lhs, *rhs, coeff, i),
{
    let ghost a = lhs.indices@;
    let ghost b = rhs.indices@;
    let m: usize = lhs.indices.len();
    let n: usize = rhs.indices.len();
    let mut res: CsVec<T> = CsVec::empty(lhs.dim);
    let mut p: usize = 0;
    let mut q: usize = 0;
    while p < m || q < n
        invariant
            lhs.wf(),
            rhs.wf(),
            lhs.dim == rhs.dim,
            a == lhs.indices@,
            b == rhs.indices@,
            m == a.len(),
            n == b.len(),
            p <= m,
            q <= n,
            res.wf(),
            res.dim == lhs.dim,
            forall|j: int, k: int|
                0 <= j < p && q <= k < n ==> #[trigger] a[j] < #[trigger] b[k],
            forall|j: int, k: int|
                p <= j < m && 0 <= k < q ==> #[trigger] b[k] < #[trigger] a[j],
            forall|i: int| #[trigger]
                res.stores(i) == ((holds(a, 0, p as int, i) || holds(b, 0, q as int, i))
                    && !combined(*lhs, *rhs, coeff, i).same_spec(T::zero_spec())),
            forall|i: int|
                res.stores(i) ==> #[trigger] res.value(i) == combined(*lhs, *rhs, coeff, i),
        decreases m - p + n - q,
    {
        let ghost (p0, q0) = (p as int, q as int);
        let left: bool = q >= n || (p < m && lhs.indices[p] <= rhs.indices[q]);
        let right: bool = p >= m || (q < n && rhs.indices[q] <= lhs.indices[p]);
        let ind: usize = if left {
            lhs.indices[p]
        } else {
            rhs.indices[q]
        };
        let val = if left && right {
            lhs.data[p].plus(rhs.data[q].times(coeff))
        } else if left {
            lhs.data[p]
        } else {
            rhs.data[q].times(coeff)
        };
        proof {
            merge_head(*lhs, *rhs, p0, q0, left, right);
        }
        if left {
            p += 1;
        }
        if right {
            q += 1;
        }
        proof {
            assert(val == combined(*lhs, *rhs, coeff, ind as int));
            assert forall|i: int| (#[trigger] holds(a, 0, p as int, i) || holds(b, 0, q as int, i))
                == (holds(a, 0, p0, i) || holds(b, 0, q0, i) || i == ind) by {
                if left {
                    one_more(a, 0, m as int, p0);
                }
                if right {
                    one_more(b, 0, n as int, q0);
                }
            }
        }
        if !val.same(T::zero()) {
            let ghost before = res;
            proof {
                if res.indices@.len() > 0 {
                    let last = res.indices@.len() - 1;
                    let i = res.indices@[last] as int;
                    assert(res.stores(i));
                    if holds(a, 0, p0, i) {
                        let j = place(a, 0, p0, i);
                        assert(a[j] == i);
                    } else {
                        let j = place(b, 0, q0, i);
                        assert(b[j] == i);
                    }
                }
            }
            res.append(ind, val);
            proof {
                appended_entry(before, res);
            }
        }
    }
    res
}

proof fn merge_head<T: Scalar>(
    lhs: CsVec<T>,
    rhs: CsVec<T>,
    p: int,
    q: int,
    left: bool,
    right: bool,
)
    requires
        lhs.wf(),
        rhs.wf(),
        0 <= p <= lhs.indices@.len(),
        0 <= q <= rhs.indices@.len(),
        p < lhs.indices@.len() || q < rhs.indices@.len(),
        forall|j: int, k: int|
            0 <= j < p && q <= k < rhs.indices@.len() ==> #[trigger] lhs.indices@[j]
                < #[trigger] rhs.indices@[k],
        forall|j: int, k: int|
            p <= j < lhs.indices@.len() && 0 <= k < q ==> #[trigger] rhs.indices@[k]
                < #[trigger] lhs.indices@[j],
        left == (q >= rhs.indices@.len() || (p < lhs.indices@.len() && lhs.indices@[p]
            <= rhs.indices@[q])),
        right == (p >= lhs.indices@.len() || (q < rhs.indices@.len() && rhs.indices@[q]
            <= lhs.indices@[p])),
    ensures
        left || right,
        left ==> p < lhs.indices@.len() && lhs.stores(lhs.indices@[p] as int) && lhs.value(
            lhs.indices@[p] as int,
        ) == lhs.data@[p] && rhs.stores(lhs.indices@[p] as int) == right,
        right ==> q < rhs.indices@.len() && rhs.stores(rhs.indices@[q] as int) && rhs.value(
            rhs.indices@[q] as int,
        ) == rhs.data@[q] && lhs.stores(rhs.indices@[q] as int) == left,
        left && right ==> lhs.indices@[p] == rhs.indices@[q],
{
    let a = lhs.indices@;
    let b = rhs.indices@;
    let m = a.len() as int;
    let n = b.len() as int;
    if left {
        at_place(a, lhs.data@, 0, m, p);
        if rhs.stores(a[p] as int) && !right {
            let k = place(b, 0, n, a[p] as int);
            assert(b[k] == a[p]);
            if k < q {
                assert(b[k] < a[p]);
            } else if q < k {
                assert(b[q] < b[k]);
            }
        }
    }
    if right {
        at_place(b, rhs.data@, 0, n, q);
        if lhs.stores(b[q] as int) && !left {
            let k = place(a, 0, m, b[q] as int);
            assert(a[k] == b[q]);
            if k < p {
                assert(a[k] < b[q]);
            } else if p < k {
                assert(a[p] < a[k]);
            }
        }
    }
}

pub proof fn appended_entry<T: Scalar>(before: CsVec<T>, after: CsVec<T>)
    requires
        before.wf(),
        after.wf(),
        after.indices@ == before.indices@.push(after.indices@.last()),
        after.data@ == before.data@.push(after.data@.last()),
    ensures
        forall|i: int| #[trigger]
            after.stores(i) == (before.stores(i) || i == after.indices@.last()),
        forall|i: int| #[trigger]
            after.value(i) == if i == after.indices@.last() {
                after.data@.last()
            } else {
                before.value(i)
            },
{
    let n = before.indices@.len() as int;
    let last = after.indices@.last();
    assert forall|i: int| #[trigger] after.stores(i) == (before.stores(i) || i == last)
        && after.value(i) == if i == last {
        after.data@.last()
    } else {
        before.value(i)
    } by {
        one_more(after.indices@, 0, n + 1, n);
        if i == last {
            at_place(after.indices@, after.data@, 0, n + 1, n);
        } else {
            if before.stores(i) {
                let p = place(before.indices@, 0, n, i);
                assert(after.indices@[p] == i);
                at_place(after.indices@, after.data@, 0, n + 1, p);
            }
            if after.stores(i) {
                let p = place(after.indices@, 0, n + 1, i);
                assert(before.indices@[p] == i);
            }
        }
    }
    assert forall|i: int| #[trigger] after.value(i) == if i == last {
        after.data@.last()
    } else {
        before.value(i)
    } by {
        assert(after.stores(i) == (before.stores(i) || i == last));
    }
}

/// Takes the storage out of a matrix and makes a matrix by rows of it that has no rows yet.
pub fn into_cleared<T: Scalar>(mat: &mut CsMat<T>) -> (r: CsMat<T>)
    requires
        old(mat).wf(),
    ensures
        r.wf(),
        r.storage == Storage::Csr,
        r.nrows == 0,
        r.ncols == old(mat).inner(),
        r.indices@.len() == 0,
        final(mat).wf(),
        final(mat).storage == Storage::Csr,
        final(mat).nrows == 0,
        final(mat).ncols == old(mat).inner(),
        final(mat).indices@.len() == 0,
{
    let inner: usize = match mat.storage {
        Storage::Csr => mat.ncols,
        Storage::Csc => mat.nrows,
    };
    let mut moved: CsMat<T> = CsMat::empty(Storage::Csr, inner);
    std::mem::swap(mat, &mut moved);
    moved.indptr.clear();
    moved.indptr.push(0);
    moved.indices.clear();
    moved.data.clear();
    CsMat {
        storage: Storage::Csr,
        nrows: 0,
        ncols: inner,
        indptr: moved.indptr,
        indices: moved.indices,
        data: moved.data,
    }
}

/// A square matrix by rows.
pub open spec fn square_rows<T: Scalar>(m: CsMat<T>, n: int) -> bool {
    m.wf() && m.storage == Storage::Csr && m.nrows == n && m.ncols == n
}

/// What row `nr` and a multiple of the pivot row combine to in column `i`.
pub open spec fn row_combined<T: Scalar>(
    x: CsMat<T>,
    y: CsMat<T>,
    r: int,
    nr: int,
    coeff: T,
    i: int,
) -> T {
    if x.line_has(nr, i) && y.line_has(r, i) {
        x.line(nr, i).plus_spec(y.line(r, i).times_spec(coeff))
    } else if x.line_has(nr, i) {
        x.line(nr, i)
    } else {
        y.line(r, i).times_spec(coeff)
    }
}

/// Row `nr` of `y` is row `nr` of `x` after the elimination of column `r` of `m`.
pub open spec fn row_eliminated<T: Scalar>(
    m: CsMat<T>,
    x: CsMat<T>,
    y: CsMat<T>,
    r: int,
    nr: int,
) -> bool {
    if nr == r {
        forall|i: int| #[trigger]
            y.line_has(r, i) == x.line_has(r, i) && (x.line_has(r, i) ==> y.line(r, i) == x.line(
                r,
                i,
            ).over_spec(m.line(r, r)))
    } else if m.line_has(nr, r) {
        let coeff = m.line(nr, r).negated_spec();
        forall|i: int| #[trigger]
            y.line_has(nr, i) == ((x.line_has(nr, i) || y.line_has(r, i)) && !row_combined(
                x,
                y,
                r,
                nr,
                coeff,
                i,
            ).same_spec(T::zero_spec())) && (y.line_has(nr, i) ==> y.line(nr, i) == row_combined(
                x,
                y,
                r,
                nr,
                coeff,
                i,
            ))
    } else {
        forall|i: int| #[trigger]
            y.line_has(nr, i) == x.line_has(nr, i) && y.line(nr, i) == x.line(nr, i)
    }
}

/// `y` is `x` after the elimination of column `r` of `m`.
pub open spec fn eliminated<T: Scalar>(
    m: CsMat<T>,
    x: CsMat<T>,
    y: CsMat<T>,
    r: int,
    n: int,
) -> bool {
    forall|nr: int| 0 <= nr < n ==> #[trigger] row_eliminated(m, x, y, r, nr)
}

pub open spec fn is_identity<T: Scalar>(m: CsMat<T>, n: int) -> bool {
    &&& square_rows(m, n)
    &&& forall|r: int, c: int| 0 <= r < n ==> #[trigger] m.line_has(r, c) == (r == c)
    &&& forall|r: int| 0 <= r < n ==> #[trigger] m.line(r, r) == T::one_spec()
}

/// The matrix and what becomes of the identity, before every step of the elimination.
pub open spec fn stages_of<T: Scalar>(
    mat: CsMat<T>,
    stages: Seq<(CsMat<T>, CsMat<T>)>,
    n: int,
) -> bool {
    &&& stages.len() >= 1
    &&& stages[0].0 == mat
    &&& is_identity(stages[0].1, n)
    &&& forall|k: int|
        0 <= k < stages.len() ==> square_rows((#[trigger] stages[k]).0, n) && square_rows(
            stages[k].1,
            n,
        )
    &&& forall|k: int| 0 <= k < stages.len() - 1 ==> #[trigger] stage_step(stages, k, n)
}

pub open spec fn stage_step<T: Scalar>(
    stages: Seq<(CsMat<T>, CsMat<T>)>,
    k: int,
    n: int,
) -> bool {
    &&& stages[k].0.line_has(k, k)
    &&& eliminated(stages[k].0, stages[k].0, stages[k + 1].0, k, n)
    &&& eliminated(stages[k].0, stages[k].1, stages[k + 1].1, k, n)
}

/// The identity matrix.
fn identity<T: Scalar>(n: usize) -> (r: CsMat<T>)
    requires
        n < usize::MAX,
    ensures
        is_identity(r, n as int),
{
    let mut m: CsMat<T> = CsMat::empty(Storage::Csr, n);
    let mut i: usize = 0;
    while i < n
        invariant
            n < usize::MAX,
            i <= n,
            m.wf(),
            m.storage == Storage::Csr,
            m.nrows == i,
            m.ncols == n,
            forall|r: int, c: int| 0 <= r < i ==> #[trigger] m.line_has(r, c) == (r == c),
            forall|r: int| 0 <= r < i ==> #[trigger] m.line(r, r) == T::one_spec(),
        decreases n - i,
    {
        let ghost before = m;
        let mut row: CsVec<T> = CsVec::empty(n);
        row.append(i, T::one());
        proof {
            at_place(row.indices@, row.data@, 0, 1, 0);
            assert forall|c: int| #[trigger] row.stores(c) == (c == i) by {
                if row.stores(c) {
                    let p = place(row.indices@, 0, 1, c);
                    assert(row.indices@[p] == c);
                }
            }
        }
        m.append_outer(&row);
        proof {
            assert forall|r: int, c: int| 0 <= r < i + 1 implies #[trigger] m.line_has(r, c) == (r
                == c) by {
                if r < i {
                    assert(m.line_has(r, c) == before.line_has(r, c));
                }
            }
            assert forall|r: int| 0 <= r < i + 1 implies #[trigger] m.line(r, r)
                == T::one_spec() by {
                if r < i {
                    assert(m.line(r, r) == before.line(r, r));
                }
            }
        }
        i += 1;
    }
    m
}

/// Eliminates column `r` of `m` from `x`, with the storage of `out` for the result.
fn eliminate_column<T: Scalar>(
    m: &CsMat<T>,
    x: &CsMat<T>,
    r: usize,
    coeff: T,
    out: CsMat<T>,
) -> (y: CsMat<T>)
    requires
        m.nrows < usize::MAX,
        square_rows(*m, m.nrows as int),
        square_rows(*x, m.nrows as int),
        r < m.nrows,
        m.line_has(r as int, r as int),
        coeff == m.line(r as int, r as int),
        out.wf(),
        out.storage == Storage::Csr,
        out.nrows == 0,
        out.ncols == m.nrows,
    ensures
        square_rows(y, m.nrows as int),
        eliminated(*m, *x, y, r as int, m.nrows as int),
{
    let n: usize = m.nrows;
    let pivot_row = x.outer_vec(r).divided_by(coeff);
    let mut y = out;
    let mut nr: usize = 0;
    while nr < n
        invariant
            n == m.nrows,
            n < usize::MAX,
            nr <= n,
            r < n,
            square_rows(*m, n as int),
            square_rows(*x, n as int),
            m.line_has(r as int, r as int),
            coeff == m.line(r as int, r as int),
            pivot_row.wf(),
            pivot_row.dim == n,
            forall|i: int| #[trigger] pivot_row.stores(i) == x.line_has(r as int, i),
            forall|i: int|
                x.line_has(r as int, i) ==> #[trigger] pivot_row.value(i) == x.line(
                    r as int,
                    i,
                ).over_spec(coeff),
            y.wf(),
            y.storage == Storage::Csr,
            y.nrows == nr,
            y.ncols == n,
            forall|k: int|
                0 <= k < nr ==> #[trigger] row_made(*m, *x, y, pivot_row, r as int, k),
        decreases n - nr,
    {
        let ghost before = y;
        if nr == r {
            y.append_outer(&pivot_row);
        } else {
            let row = x.outer_vec(nr);
            match m.outer_vec(nr).get(r) {
                Some(c) => {
                    let sum_row = mul_add_sparse(&row, &pivot_row, c.negated());
                    y.append_outer(&sum_row);
                    proof {
                        combined_rows(*m, *x, y, pivot_row, row, sum_row, r as int, nr as int);
                    }
                },
                None => {
                    y.append_outer(&row);
                },
            }
        }
        proof {
            assert(row_made(*m, *x, y, pivot_row, r as int, nr as int));
            assert forall|k: int| 0 <= k < nr + 1 implies #[trigger] row_made(
                *m,
                *x,
                y,
                pivot_row,
                r as int,
                k,
            ) by {
                if k < nr {
                    assert(row_made(*m, *x, before, pivot_row, r as int, k));
                    kept_row(*m, *x, before, y, pivot_row, r as int, k);
                }
            }
        }
        nr += 1;
    }
    proof {
        assert(row_made(*m, *x, y, pivot_row, r as int, r as int));
        assert forall|k: int| 0 <= k < n implies #[trigger] row_eliminated(
            *m,
            *x,
            y,
            r as int,
            k,
        ) by {
            assert(row_made(*m, *x, y, pivot_row, r as int, k));
            made_is_eliminated(*m, *x, y, pivot_row, r as int, k);
        }
    }
    y
}

/// What row `nr` and a multiple of a pivot row combine to in column `i`.
pub open spec fn row_with<T: Scalar>(
    x: CsMat<T>,
    pivot: CsVec<T>,
    nr: int,
    coeff: T,
    i: int,
) -> T {
    if x.line_has(nr, i) && pivot.stores(i) {
        x.line(nr, i).plus_spec(pivot.value(i).times_spec(coeff))
    } else if x.line_has(nr, i) {
        x.line(nr, i)
    } else {
        pivot.value(i).times_spec(coeff)
    }
}

/// Row `nr` of `y` was made from row `nr` of `x` and the pivot row.
pub open spec fn row_made<T: Scalar>(
    m: CsMat<T>,
    x: CsMat<T>,
    y: CsMat<T>,
    pivot: CsVec<T>,
    r: int,
    nr: int,
) -> bool {
    if nr == r {
        forall|i: int| #[trigger]
            y.line_has(r, i) == pivot.stores(i) && y.line(r, i) == pivot.value(i)
    } else if m.line_has(nr, r) {
        let coeff = m.line(nr, r).negated_spec();
        forall|i: int| #[trigger]
            y.line_has(nr, i) == ((x.line_has(nr, i) || pivot.stores(i)) && !row_with(
                x,
                pivot,
                nr,
                coeff,
                i,
            ).same_spec(T::zero_spec())) && (y.line_has(nr, i) ==> y.line(nr, i) == row_with(
                x,
                pivot,
                nr,
                coeff,
                i,
            ))
    } else {
        forall|i: int| #[trigger]
            y.line_has(nr, i) == x.line_has(nr, i) && y.line(nr, i) == x.line(nr, i)
    }
}

proof fn combined_rows<T: Scalar>(
    m: CsMat<T>,
    x: CsMat<T>,
    y: CsMat<T>,
    pivot: CsVec<T>,
    row: CsVec<T>,
    sum_row: CsVec<T>,
    r: int,
    nr: int,
)
    requires
        nr != r,
        m.line_has(nr, r),
        forall|i: int| #[trigger] row.stores(i) == x.line_has(nr, i),
        forall|i: int| #[trigger] row.value(i) == x.line(nr, i),
        forall|i: int| #[trigger]
            sum_row.stores(i) == ((row.stores(i) || pivot.stores(i)) && !combined(
                row,
                pivot,
                m.line(nr, r).negated_spec(),
                i,
            ).same_spec(T::zero_spec())),
        forall|i: int|
            sum_row.stores(i) ==> #[trigger] sum_row.value(i) == combined(
                row,
                pivot,
                m.line(nr, r).negated_spec(),
                i,
            ),
        forall|i: int| #[trigger] y.line_has(nr, i) == sum_row.stores(i),
        forall|i: int| #[trigger] y.line(nr, i) == sum_row.value(i),
    ensures
        row_made(m, x, y, pivot, r, nr),
{
    let coeff = m.line(nr, r).negated_spec();
    assert forall|i: int| #[trigger]
        y.line_has(nr, i) == ((x.line_has(nr, i) || pivot.stores(i)) && !row_with(
            x,
            pivot,
            nr,
            coeff,
            i,
        ).same_spec(T::zero_spec())) && (y.line_has(nr, i) ==> y.line(nr, i) == row_with(
            x,
            pivot,
            nr,
            coeff,
            i,
        )) by {
        assert(sum_row.stores(i) == y.line_has(nr, i));
        assert(row.stores(i) == x.line_has(nr, i));
        assert(row.value(i) == x.line(nr, i));
        assert(combined(row, pivot, coeff, i) == row_with(x, pivot, nr, coeff, i));
        assert(y.line(nr, i) == sum_row.value(i));
    }
}

/// Rows that were there stay when one is added.
proof fn kept_row<T: Scalar>(
    m: CsMat<T>,
    x: CsMat<T>,
    before: CsMat<T>,
    after: CsMat<T>,
    pivot: CsVec<T>,
    r: int,
    k: int,
)
    requires
        row_made(m, x, before, pivot, r, k),
        forall|i: int| #[trigger] after.line_has(k, i) == before.line_has(k, i),
        forall|i: int| #[trigger] after.line(k, i) == before.line(k, i),
    ensures
        row_made(m, x, after, pivot, r, k),
{
    assert forall|i: int| #[trigger] after.line_has(k, i) == before.line_has(k, i) && after.line(
        k,
        i,
    ) == before.line(k, i) by {
        assert(after.line(k, i) == before.line(k, i));
    }
}

proof fn made_is_eliminated<T: Scalar>(
    m: CsMat<T>,
    x: CsMat<T>,
    y: CsMat<T>,
    pivot: CsVec<T>,
    r: int,
    k: int,
)
    requires
        row_made(m, x, y, pivot, r, k),
        row_made(m, x, y, pivot, r, r),
        forall|i: int| #[trigger] pivot.stores(i) == x.line_has(r, i),
        forall|i: int|
            x.line_has(r, i) ==> #[trigger] pivot.value(i) == x.line(r, i).over_spec(
                m.line(r, r),
            ),
    ensures
        row_eliminated(m, x, y, r, k),
{
    assert forall|i: int| #[trigger] y.line_has(r, i) == x.line_has(r, i) && (x.line_has(r, i)
        ==> y.line(r, i) == x.line(r, i).over_spec(m.line(r, r))) && y.line(r, i) == pivot.value(
        i,
    ) by {
        assert(pivot.stores(i) == x.line_has(r, i));
        if x.line_has(r, i) {
            assert(pivot.value(i) == x.line(r, i).over_spec(m.line(r, r)));
        }
    }
    if k != r && m.line_has(k, r) {
        let coeff = m.line(k, r).negated_spec();
        assert forall|i: int| #[trigger] y.line_has(k, i) == ((x.line_has(k, i) || y.line_has(r, i))
            && !row_combined(x, y, r, k, coeff, i).same_spec(T::zero_spec())) && (y.line_has(k, i)
            ==> y.line(k, i) == row_combined(x, y, r, k, coeff, i)) by {
            assert(y.line_has(r, i) == pivot.stores(i));
            assert(row_combined(x, y, r, k, coeff, i) == row_with(x, pivot, k, coeff, i));
        }
        assert(row_eliminated(m, x, y, r, k));
    } else if k != r {
        assert(row_eliminated(m, x, y, r, k));
    } else {
        assert(row_eliminated(m, x, y, r, k));
    }
}

/// Inverts a matrix by rows. The elimination takes the pivots on the diagonal, and fails where
/// it finds nothing there.
pub fn invert_mat<T: Scalar>(mat: CsMat<T>) -> (r: Result<CsMat<T>, Error>)
    requires
        mat.nrows < usize::MAX,
        square_rows(mat, mat.nrows as int),
    ensures
        match r {
            Ok(inv) => {
                &&& square_rows(inv, mat.nrows as int)
                &&& exists|stages: Seq<(CsMat<T>, CsMat<T>)>| #[trigger]
                    stages_of(mat, stages, mat.nrows as int) && stages.len() == mat.nrows + 1
                        && stages.last().1 == inv
            },
            Err(e) => {
                &&& e == Error::SingularMatrix
                &&& exists|stages: Seq<(CsMat<T>, CsMat<T>)>| #[trigger]
                    stages_of(mat, stages, mat.nrows as int) && stages.len() <= mat.nrows
                        && !stages.last().0.line_has(stages.len() - 1, stages.len() - 1)
            },
        },
{
    let dim: usize = mat.nrows;
    let mut cur = mat;
    let mut inv: CsMat<T> = identity(dim);
    let mut next_mat: CsMat<T> = CsMat::empty(Storage::Csr, dim);
    let mut next_inv: CsMat<T> = CsMat::empty(Storage::Csr, dim);
    let ghost mut stages: Seq<(CsMat<T>, CsMat<T>)> = seq![(cur, inv)];
    let mut r: usize = 0;
    while r < dim
        invariant
            dim < usize::MAX,
            dim == mat.nrows,
            r <= dim,
            square_rows(cur, dim as int),
            square_rows(inv, dim as int),
            next_mat.wf(),
            next_mat.storage == Storage::Csr,
            next_mat.nrows == 0,
            next_mat.ncols == dim,
            next_inv.wf(),
            next_inv.storage == Storage::Csr,
            next_inv.nrows == 0,
            next_inv.ncols == dim,
            stages_of(mat, stages, dim as int),
            stages.len() == r + 1,
            stages[r as int] == (cur, inv),
        decreases dim - r,
    {
        let coeff = match cur.outer_vec(r).get(r) {
            Some(c) => c,
            None => {
                proof {
                    assert(stages.last() == (cur, inv));
                    assert(stages_of(mat, stages, dim as int));
                }
                return Err(Error::SingularMatrix);
            },
        };
        next_mat = eliminate_column(&cur, &cur, r, coeff, next_mat);
        next_inv = eliminate_column(&cur, &inv, r, coeff, next_inv);
        proof {
            let before = stages;
            stages = stages.push((next_mat, next_inv));
            assert forall|k: int| 0 <= k < stages.len() - 1 implies #[trigger] stage_step(
                stages,
                k,
                dim as int,
            ) by {
                if k < r {
                    assert(stage_step(before, k, dim as int));
                }
            }
        }
        std::mem::swap(&mut cur, &mut next_mat);
        std::mem::swap(&mut inv, &mut next_inv);
        next_mat = into_cleared(&mut next_mat);
        next_inv = into_cleared(&mut next_inv);
        r += 1;
    }
    Ok(inv)
}

/// The terms of row `i` and column `c` of the product of `x` and `a`.
pub open spec fn product_terms<T: Scalar>(
    x: CsMat<T>,
    a: CsMat<T>,
    i: int,
    c: int,
) -> spec_fn(int) -> real {
    |j: int| x.line(i, j).val() * a.line(j, c).val()
}

/// One step of the elimination in real numbers.
proof fn step_values<T: Scalar>(m: CsMat<T>, x: CsMat<T>, y: CsMat<T>, r: int, n: int)
    requires
        exact::<T>(),
        0 <= r < n,
        square_rows(m, n),
        square_rows(x, n),
        square_rows(y, n),
        all_finite(x),
        all_finite(y),
        eliminated(m, x, y, r, n),
        m.line(r, r).val() != 0 as real,
    ensures
        forall|i: int| #[trigger] y.line(r, i).val() == x.line(r, i).val() / m.line(r, r).val(),
        forall|nr: int, i: int|
            0 <= nr < n && nr != r ==> #[trigger] y.line(nr, i).val() == x.line(nr, i).val()
                - m.line(nr, r).val() * y.line(r, i).val(),
{
    let d = m.line(r, r).val();
    assert(row_eliminated(m, x, y, r, r));
    assert forall|i: int| #[trigger] y.line(r, i).val() == x.line(r, i).val() / d by {
        assert(y.line_has(r, i) == x.line_has(r, i));
        if x.line_has(r, i) {
            finite_entry(y, r, i);
        } else {
            assert((0 as real) / d == 0 as real) by (nonlinear_arith)
                requires
                    d != 0 as real,
            ;
        }
    }
    assert forall|nr: int, i: int| 0 <= nr < n && nr != r implies #[trigger] y.line(nr, i).val()
        == x.line(nr, i).val() - m.line(nr, r).val() * y.line(r, i).val() by {
        assert(row_eliminated(m, x, y, r, nr));
        let p = y.line(r, i).val();
        let q = m.line(nr, r).val();
        times_zero(p);
        times_zero(q);
        assert(p * (-q) == -(q * p)) by (nonlinear_arith);
        if m.line_has(nr, r) {
            let coeff = m.line(nr, r).negated_spec();
            let v = row_combined(x, y, r, nr, coeff, i);
            assert(y.line_has(nr, i) == ((x.line_has(nr, i) || y.line_has(r, i)) && !v.same_spec(
                T::zero_spec(),
            )));
            if y.line_has(nr, i) {
                finite_entry(y, nr, i);
            }
            if x.line_has(nr, i) {
                finite_entry(x, nr, i);
            }
        } else {
            assert(y.line_has(nr, i) == x.line_has(nr, i));
        }
    }
}

pub proof fn finite_entry<T: Scalar>(m: CsMat<T>, r: int, i: int)
    requires
        m.wf(),
        0 <= r < m.outer(),
        all_finite(m),
        m.line_has(r, i),
    ensures
        m.line(r, i).finite(),
{
    m.line_wf(r);
    let p = place(m.indices@, m.lo(r), m.hi(r), i);
    assert(m.data@[p].finite());
}

/// What holds of a stage: the second matrix times the first of all stages is the first matrix,
/// whose first columns are those of the identity.
pub open spec fn stage_holds<T: Scalar>(
    a: CsMat<T>,
    stage: (CsMat<T>, CsMat<T>),
    k: int,
    n: int,
) -> bool {
    &&& forall|i: int, c: int|
        0 <= i < n && 0 <= c < n ==> sum(product_terms(stage.1, a, i, c), n as nat)
            == #[trigger] stage.0.line(i, c).val()
    &&& forall|i: int, c: int|
        0 <= i < n && 0 <= c < k ==> #[trigger] stage.0.line(i, c).val() == if i == c {
            1 as real
        } else {
            0 as real
        }
}

proof fn next_stage<T: Scalar>(
    a: CsMat<T>,
    stages: Seq<(CsMat<T>, CsMat<T>)>,
    k: int,
    n: int,
)
    requires
        exact::<T>(),
        stages_of(a, stages, n),
        0 <= k < stages.len() - 1,
        k < n,
        all_finite(stages[k].0),
        all_finite(stages[k].1),
        all_finite(stages[k + 1].0),
        all_finite(stages[k + 1].1),
        stage_holds(a, stages[k], k, n),
    ensures
        stage_holds(a, stages[k + 1], k + 1, n),
{
    let (m, x) = stages[k];
    let (m2, x2) = stages[k + 1];
    assert(stage_step(stages, k, n));
    let nn = n as nat;
    let d = m.line(k, k).val();
    assert(d != 0 as real) by {
        assert(row_eliminated(m, m, m2, k, k));
        assert(m2.line_has(k, k) == m.line_has(k, k));
        finite_entry(m2, k, k);
    }
    step_values(m, m, m2, k, n);
    step_values(m, x, x2, k, n);
    assert forall|i: int, c: int| 0 <= i < n && 0 <= c < n implies sum(
        product_terms(x2, a, i, c),
        nn,
    ) == #[trigger] m2.line(i, c).val() by {
        let fk = product_terms(x, a, k, c);
        let gk = product_terms(x2, a, k, c);
        let e = 1 as real / d;
        assert(e * d == 1 as real) by (nonlinear_arith)
            requires
                d != 0 as real,
                e == 1 as real / d,
        ;
        assert forall|j: int| 0 <= j < n implies #[trigger] gk(j) == e * fk(j) by {
            assert(x2.line(k, j).val() == x.line(k, j).val() / d);
            let (p, q) = (x.line(k, j).val(), a.line(j, c).val());
            assert((p / d) * q == e * (p * q)) by (nonlinear_arith)
                requires
                    d != 0 as real,
                    e == 1 as real / d,
            ;
        }
        sum_times(e, fk, gk, nn);
        assert(sum(fk, nn) == m.line(k, c).val());
        assert(m2.line(k, c).val() == m.line(k, c).val() / d);
        let mk = m.line(k, c).val();
        assert(e * mk == mk / d) by (nonlinear_arith)
            requires
                d != 0 as real,
                e == 1 as real / d,
        ;
        if i != k {
            let f = product_terms(x, a, i, c);
            let g = product_terms(x2, a, i, c);
            let q = m.line(i, k).val();
            let h = |j: int| (-q) * gk(j);
            assert forall|j: int| 0 <= j < n implies #[trigger] g(j) == f(j) + h(j) by {
                assert(x2.line(i, j).val() == x.line(i, j).val() - q * x2.line(k, j).val());
                let (s, t, u) = (x.line(i, j).val(), x2.line(k, j).val(), a.line(j, c).val());
                assert((s - q * t) * u == s * u + (-q) * (t * u)) by (nonlinear_arith);
            }
            sum_plus(f, h, g, nn);
            sum_times(-q, gk, h, nn);
            assert(sum(f, nn) == m.line(i, c).val());
            let z = m2.line(k, c).val();
            assert((-q) * z == -(q * z)) by (nonlinear_arith);
        }
    }
    assert forall|i: int, c: int| 0 <= i < n && 0 <= c < k + 1 implies #[trigger] m2.line(
        i,
        c,
    ).val() == if i == c {
        1 as real
    } else {
        0 as real
    } by {
        let q = m.line(i, k).val();
        assert(m2.line(k, c).val() == m.line(k, c).val() / d);
        assert(d / d == 1 as real) by (nonlinear_arith)
            requires
                d != 0 as real,
        ;
        assert((0 as real) / d == 0 as real) by (nonlinear_arith)
            requires
                d != 0 as real,
        ;
        times_zero(q);
        if i != k {
            assert(m2.line(i, c).val() == m.line(i, c).val() - q * m2.line(k, c).val());
        }
        if c < k {
            assert(m.line(k, c).val() == 0 as real);
            assert(m.line(i, c).val() == if i == c {
                1 as real
            } else {
                0 as real
            });
        }
    }
}

proof fn stage_law<T: Scalar>(a: CsMat<T>, stages: Seq<(CsMat<T>, CsMat<T>)>, k: int, n: int)
    requires
        exact::<T>(),
        0 <= n,
        stages_of(a, stages, n),
        0 <= k < stages.len(),
        k <= n,
        forall|j: int|
            0 <= j < stages.len() ==> all_finite((#[trigger] stages[j]).0) && all_finite(
                stages[j].1,
            ),
    ensures
        stage_holds(a, stages[k], k, n),
    decreases k,
{
    if k == 0 {
        let x = stages[0].1;
        assert forall|i: int, c: int| 0 <= i < n && 0 <= c < n implies sum(
            product_terms(x, a, i, c),
            n as nat,
        ) == #[trigger] stages[0].0.line(i, c).val() by {
            let f = product_terms(x, a, i, c);
            assert(stages[0].0 == a);
            assert forall|j: int| 0 <= j < n && j != i implies #[trigger] f(j) == 0 as real by {
                assert(!x.line_has(i, j));
                times_zero(a.line(j, c).val());
            }
            sum_single(f, n as nat, i);
            assert(x.line(i, i) == T::one_spec());
            times_zero(a.line(i, c).val());
        }
    } else {
        stage_law(a, stages, k - 1, n);
        assert(all_finite(stages[k - 1].0) && all_finite(stages[k].0));
        next_stage(a, stages, k - 1, n);
    }
}

/// With exact arithmetic the product of the inverse and the matrix is the identity, unless a
/// number that is not finite came up on the way.
pub proof fn inverse_times_matrix<T: Scalar>(
    a: CsMat<T>,
    stages: Seq<(CsMat<T>, CsMat<T>)>,
    i: int,
    c: int,
)
    requires
        exact::<T>(),
        square_rows(a, a.nrows as int),
        stages_of(a, stages, a.nrows as int),
        stages.len() == a.nrows + 1,
        forall|j: int|
            0 <= j < stages.len() ==> all_finite((#[trigger] stages[j]).0) && all_finite(
                stages[j].1,
            ),
        0 <= i < a.nrows,
        0 <= c < a.nrows,
    ensures
        sum(product_terms(stages.last().1, a, i, c), a.nrows as nat) == if i == c {
            1 as real
        } else {
            0 as real
        },
{
    let n = a.nrows as int;
    stage_law(a, stages, n, n);
    let s = stages[n];
    assert(sum(product_terms(s.1, a, i, c), n as nat) == s.0.line(i, c).val());
}

/// Entry `(i, j)` of the matrix whose first `k` columns are those of `a` and whose others are
/// those of the identity.
spec fn half_built<T: Scalar>(a: CsMat<T>, k: int, i: int, j: int) -> real {
    if j < k {
        a.line(i, j).val()
    } else if i == j {
        1 as real
    } else {
        0 as real
    }
}

/// The terms of entry `(i, c)` of the product of the half built matrix and `x`.
spec fn built_terms<T: Scalar>(
    a: CsMat<T>,
    k: int,
    x: CsMat<T>,
    i: int,
    c: int,
) -> spec_fn(int) -> real {
    |j: int| half_built(a, k, i, j) * x.line(j, c).val()
}

/// What is left of the matrix at one stage, and what is there of its inverse, taken together
/// with the columns that are done.
spec fn stage_rebuilds<T: Scalar>(
    a: CsMat<T>,
    stage: (CsMat<T>, CsMat<T>),
    k: int,
    n: int,
) -> bool {
    &&& forall|i: int, c: int|
        0 <= i < n && 0 <= c < n ==> sum(#[trigger] built_terms(a, k, stage.0, i, c), n as nat)
            == a.line(i, c).val()
    &&& forall|i: int, c: int|
        0 <= i < n && 0 <= c < n ==> sum(#[trigger] built_terms(a, k, stage.1, i, c), n as nat)
            == if i == c {
            1 as real
        } else {
            0 as real
        }
}

/// One step of the elimination does not change the product with the half built matrix.
proof fn built_step<T: Scalar>(
    a: CsMat<T>,
    m: CsMat<T>,
    x: CsMat<T>,
    y: CsMat<T>,
    k: int,
    n: int,
    i: int,
    c: int,
)
    requires
        0 <= k < n,
        0 <= i < n,
        m.line(k, k).val() != 0 as real,
        y.line(k, c).val() == x.line(k, c).val() / m.line(k, k).val(),
        forall|j: int|
            0 <= j < n && j != k ==> #[trigger] y.line(j, c).val() == x.line(j, c).val() - m.line(
                j,
                k,
            ).val() * y.line(k, c).val(),
        sum(built_terms(a, k, m, i, k), n as nat) == a.line(i, k).val(),
    ensures
        sum(built_terms(a, k + 1, y, i, c), n as nat) == sum(built_terms(a, k, x, i, c), n as nat),
{
    let nn = n as nat;
    let d = m.line(k, k).val();
    let s = y.line(k, c).val();
    let f = built_terms(a, k, x, i, c);
    let g = built_terms(a, k + 1, y, i, c);
    let h = built_terms(a, k, m, i, k);
    let t = |j: int| (-s) * h(j);
    let p = |j: int| f(j) + t(j);
    sum_times(-s, h, t, nn);
    sum_plus(f, t, p, nn);
    assert forall|j: int| 0 <= j < n && j != k implies #[trigger] p(j) == g(j) by {
        let e = half_built(a, k, i, j);
        let (u, v) = (x.line(j, c).val(), m.line(j, k).val());
        assert(half_built(a, k + 1, i, j) == e);
        assert(y.line(j, c).val() == u - v * s);
        assert(e * u + (-s) * (e * v) == e * (u - v * s)) by (nonlinear_arith);
    }
    sum_but_one(p, g, nn, k);
    let e = half_built(a, k, i, k);
    let u = x.line(k, c).val();
    let b = a.line(i, k).val();
    assert(e * u + (-s) * (e * d) == 0 as real) by (nonlinear_arith)
        requires
            d != 0 as real,
            s == u / d,
    ;
    assert(g(k) == b * s);
    assert(sum(p, nn) == sum(f, nn) + (-s) * b);
    assert(b * s == -((-s) * b)) by (nonlinear_arith);
}

proof fn rebuilds_law<T: Scalar>(a: CsMat<T>, stages: Seq<(CsMat<T>, CsMat<T>)>, k: int, n: int)
    requires
        exact::<T>(),
        0 <= n,
        stages_of(a, stages, n),
        0 <= k < stages.len(),
        k <= n,
        forall|j: int|
            0 <= j < stages.len() ==> all_finite((#[trigger] stages[j]).0) && all_finite(
                stages[j].1,
            ),
    ensures
        stage_rebuilds(a, stages[k], k, n),
    decreases k,
{
    if k == 0 {
        let (m, x) = stages[0];
        assert forall|i: int, c: int| 0 <= i < n && 0 <= c < n implies sum(
            #[trigger] built_terms(a, k, m, i, c),
            n as nat,
        ) == a.line(i, c).val() by {
            let f = built_terms(a, k, m, i, c);
            assert forall|j: int| 0 <= j < n && j != i implies #[trigger] f(j) == 0 as real by {
                times_zero(m.line(j, c).val());
            }
            sum_single(f, n as nat, i);
            times_zero(m.line(i, c).val());
        }
        assert forall|i: int, c: int| 0 <= i < n && 0 <= c < n implies sum(
            #[trigger] built_terms(a, k, x, i, c),
            n as nat,
        ) == if i == c {
            1 as real
        } else {
            0 as real
        } by {
            let f = built_terms(a, k, x, i, c);
            assert forall|j: int| 0 <= j < n && j != i implies #[trigger] f(j) == 0 as real by {
                times_zero(x.line(j, c).val());
            }
            sum_single(f, n as nat, i);
            times_zero(x.line(i, c).val());
            if i == c {
                assert(x.line(i, i) == T::one_spec());
            } else {
                assert(!x.line_has(i, c));
            }
        }
    } else {
        let p = k - 1;
        rebuilds_law(a, stages, p, n);
        let (m, x) = stages[p];
        let (m2, x2) = stages[k];
        assert(all_finite(stages[p].0) && all_finite(stages[k].0));
        assert(stage_step(stages, p, n));
        assert(m.line(p, p).val() != 0 as real) by {
            assert(row_eliminated(m, m, m2, p, p));
            assert(m2.line_has(p, p) == m.line_has(p, p));
            finite_entry(m2, p, p);
        }
        step_values(m, m, m2, p, n);
        step_values(m, x, x2, p, n);
        assert forall|i: int, c: int| 0 <= i < n && 0 <= c < n implies sum(
            #[trigger] built_terms(a, k, m2, i, c),
            n as nat,
        ) == a.line(i, c).val() by {
            assert(sum(built_terms(a, p, m, i, p), n as nat) == a.line(i, p).val());
            built_step(a, m, m, m2, p, n, i, c);
            assert(sum(built_terms(a, p, m, i, c), n as nat) == a.line(i, c).val());
        }
        assert forall|i: int, c: int| 0 <= i < n && 0 <= c < n implies sum(
            #[trigger] built_terms(a, k, x2, i, c),
            n as nat,
        ) == if i == c {
            1 as real
        } else {
            0 as real
        } by {
            assert(sum(built_terms(a, p, m, i, p), n as nat) == a.line(i, p).val());
            built_step(a, m, x, x2, p, n, i, c);
            let before = built_terms(a, p, x, i, c);
            assert(sum(before, n as nat) == if i == c {
                1 as real
            } else {
                0 as real
            });
        }
    }
}

/// With exact arithmetic the product of the matrix and its inverse is the identity too, unless
/// a number that is not finite came up on the way.
pub proof fn matrix_times_inverse<T: Scalar>(
    a: CsMat<T>,
    stages: Seq<(CsMat<T>, CsMat<T>)>,
    i: int,
    c: int,
)
    requires
        exact::<T>(),
        square_rows(a, a.nrows as int),
        stages_of(a, stages, a.nrows as int),
        stages.len() == a.nrows + 1,
        forall|j: int|
            0 <= j < stages.len() ==> all_finite((#[trigger] stages[j]).0) && all_finite(
                stages[j].1,
            ),
        0 <= i < a.nrows,
        0 <= c < a.nrows,
    ensures
        sum(product_terms(a, stages.last().1, i, c), a.nrows as nat) == if i == c {
            1 as real
        } else {
            0 as real
        },
{
    let n = a.nrows as int;
    rebuilds_law(a, stages, n, n);
    let x = stages.last().1;
    let f = built_terms(a, n, x, i, c);
    assert(sum(f, n as nat) == if i == c {
        1 as real
    } else {
        0 as real
    });
    sum_same(f, product_terms(a, x, i, c), n as nat);
}

/// With exact arithmetic the inverse of the inverse is the matrix again, unless a number that is
/// not finite came up on the way.
pub proof fn inverse_of_inverse<T: Scalar>(
    a: CsMat<T>,
    stages: Seq<(CsMat<T>, CsMat<T>)>,
    again: Seq<(CsMat<T>, CsMat<T>)>,
    i: int,
    c: int,
)
    requires
        exact::<T>(),
        square_rows(a, a.nrows as int),
        stages_of(a, stages, a.nrows as int),
        stages.len() == a.nrows + 1,
        forall|j: int|
            0 <= j < stages.len() ==> all_finite((#[trigger] stages[j]).0) && all_finite(
                stages[j].1,
            ),
        stages_of(stages.last().1, again, a.nrows as int),
        again.len() == a.nrows + 1,
        forall|j: int|
            0 <= j < again.len() ==> all_finite((#[trigger] again[j]).0) && all_finite(again[j].1),
        0 <= i < a.nrows,
        0 <= c < a.nrows,
    ensures
        again.last().1.line(i, c).val() == a.line(i, c).val(),
{
    let n = a.nrows as nat;
    let b = stages.last().1;
    let e = again.last().1;
    assert(square_rows(b, n as int)) by {
        assert(square_rows(stages[n as int].1, n as int));
    }
    let f = |k: int, j: int| e.line(i, k).val() * (b.line(k, j).val() * a.line(j, c).val());
    let rows = |k: int| sum(|j: int| f(k, j), n);
    let cols = |j: int| sum(|k: int| f(k, j), n);
    sum_swap(f, n, n);
    assert forall|k: int| 0 <= k < n && k != c implies #[trigger] rows(k) == 0 as real by {
        inverse_times_matrix(a, stages, k, c);
        let t = product_terms(b, a, k, c);
        let g = |j: int| f(k, j);
        sum_times(e.line(i, k).val(), t, g, n);
        times_zero(e.line(i, k).val());
    }
    assert(rows(c) == e.line(i, c).val()) by {
        inverse_times_matrix(a, stages, c, c);
        let t = product_terms(b, a, c, c);
        let g = |j: int| f(c, j);
        sum_times(e.line(i, c).val(), t, g, n);
        times_zero(e.line(i, c).val());
    }
    sum_single(rows, n, c);
    assert forall|j: int| 0 <= j < n implies #[trigger] cols(j) == a.line(j, c).val() * if i == j {
        1 as real
    } else {
        0 as real
    } by {
        inverse_times_matrix(b, again, i, j);
        let t = product_terms(e, b, i, j);
        let g = |k: int| f(k, j);
        let q = a.line(j, c).val();
        assert forall|k: int| 0 <= k < n implies #[trigger] g(k) == q * t(k) by {
            let (u, v) = (e.line(i, k).val(), b.line(k, j).val());
            assert(u * (v * q) == q * (u * v)) by (nonlinear_arith);
        }
        sum_times(q, t, g, n);
    }
    assert forall|j: int| 0 <= j < n && j != i implies #[trigger] cols(j) == 0 as real by {
        times_zero(a.line(j, c).val());
    }
    sum_single(cols, n, i);
    times_zero(a.line(i, c).val());
}

/// The rows of the second matrix that no pivot was taken from yet have a one on the diagonal and,
/// beyond the columns that are done, nothing else.
proof fn rest_of_stage<T: Scalar>(
    a: CsMat<T>,
    stages: Seq<(CsMat<T>, CsMat<T>)>,
    t: int,
    i: int,
    j: int,
    n: int,
)
    requires
        exact::<T>(),
        stages_of(a, stages, n),
        0 <= t < stages.len(),
        t <= i < n,
        t <= j < n,
        forall|k: int|
            0 <= k < stages.len() ==> all_finite((#[trigger] stages[k]).0) && all_finite(
                stages[k].1,
            ),
    ensures
        stages[t].1.line(i, j).val() == if i == j {
            1 as real
        } else {
            0 as real
        },
    decreases t,
{
    if t == 0 {
        let x = stages[0].1;
        if i == j {
            assert(x.line(i, i) == T::one_spec());
        } else {
            assert(!x.line_has(i, j));
        }
    } else {
        let k = t - 1;
        let (m, x) = stages[k];
        let (m2, y) = stages[t];
        assert(stage_step(stages, k, n));
        let d = m.line(k, k).val();
        assert(all_finite(stages[k].1) && all_finite(stages[t].1) && all_finite(stages[t].0));
        assert(d != 0 as real) by {
            assert(row_eliminated(m, m, m2, k, k));
            assert(m2.line_has(k, k) == m.line_has(k, k));
            finite_entry(m2, k, k);
        }
        step_values(m, x, y, k, n);
        rest_of_stage(a, stages, k, i, j, n);
        rest_of_stage(a, stages, k, k, j, n);
        assert(y.line(k, j).val() == x.line(k, j).val() / d);
        assert((0 as real) / d == 0 as real) by (nonlinear_arith)
            requires
                d != 0 as real,
        ;
        assert(y.line(i, j).val() == x.line(i, j).val() - m.line(i, k).val() * y.line(k, j).val());
        times_zero(m.line(i, k).val());
    }
}

/// Where the elimination finds nothing on the diagonal, a corner of the matrix is singular: a
/// combination of its rows that counts the last one once is zero.
pub proof fn refused_inverse_has_singular_corner<T: Scalar>(
    a: CsMat<T>,
    stages: Seq<(CsMat<T>, CsMat<T>)>,
)
    requires
        exact::<T>(),
        square_rows(a, a.nrows as int),
        stages_of(a, stages, a.nrows as int),
        stages.len() <= a.nrows,
        !stages.last().0.line_has(stages.len() - 1, stages.len() - 1),
        forall|j: int|
            0 <= j < stages.len() ==> all_finite((#[trigger] stages[j]).0) && all_finite(
                stages[j].1,
            ),
    ensures
        exists|w: Seq<real>| #[trigger] vanishes_in_corner(a, w),
{
    let n = a.nrows as int;
    let k = stages.len() - 1;
    let x = stages[k].1;
    let w = Seq::new((k + 1) as nat, |j: int| x.line(k, j).val());
    stage_law(a, stages, k, n);
    rest_of_stage(a, stages, k, k, k, n);
    assert forall|c: int| 0 <= c < w.len() implies sum(
        #[trigger] corner_terms(a, w, c),
        w.len(),
    ) == 0 as real by {
        let f = product_terms(x, a, k, c);
        let g = corner_terms(a, w, c);
        assert forall|j: int| k + 1 <= j < n implies #[trigger] f(j) == 0 as real by {
            rest_of_stage(a, stages, k, k, j, n);
            times_zero(a.line(j, c).val());
        }
        sum_longer(f, (k + 1) as nat, n as nat);
        sum_same(f, g, (k + 1) as nat);
        assert(sum(f, n as nat) == stages[k].0.line(k, c).val());
    }
    assert(vanishes_in_corner(a, w));
}

/// The terms of a combination of the first rows in column `c`.
pub open spec fn corner_terms<T: Scalar>(a: CsMat<T>, w: Seq<real>, c: int) -> spec_fn(
    int,
) -> real {
    |j: int| w[j] * a.line(j, c).val()
}

/// The combination of the first rows is zero in as many columns, and counts the last row once.
pub open spec fn vanishes_in_corner<T: Scalar>(a: CsMat<T>, w: Seq<real>) -> bool {
    &&& 1 <= w.len() <= a.nrows
    &&& w.last() == 1 as real
    &&& forall|c: int|
        0 <= c < w.len() ==> sum(#[trigger] corner_terms(a, w, c), w.len()) == 0 as real
}

} // verus!
