//! LU factorization with threshold pivoting.
use crate::elim::{
    column_side, contents, eliminate, on_side, one_more, products, reduced, reduced_row,
    scatter_side, side_rows, side_rows_are, substitute, unit_lower, upper_column, Col, Entries,
    Reduced,
};
use crate::error::Error;
use crate::perm::{counting, inverse, inverse_swap, numbers, swap_at, swap_items, swapped};
use crate::reach::MarkNonzero;
use crate::scalar::{abs_real, acceptable_alone, exact, is_zero, Scalar};
use crate::scattered::ScatteredVec;
use crate::singular::{mixes_to, stuck_is_dependent};
use crate::sparse::{at_place, below, copied, distinct, filled, holds, place, CsMat, Storage};
use crate::sums::{sum, sum_longer, sum_same, times_zero};
use crate::triplets::TriMat;
use vstd::prelude::*;

verus! {

/// Storage that the factorization and the sparse solves use again and again.
#[derive(Clone, Debug)]
pub struct ScratchSpace<T> {
    pub rhs: ScatteredVec<T>,
    pub mark_nonzero: MarkNonzero,
}

impl<T: Scalar> ScratchSpace<T> {
    pub open spec fn wf(self) -> bool {
        self.rhs.wf() && self.mark_nonzero.wf()
    }

    /// Whether the storage is made for vectors of length `n`.
    pub open spec fn fits(self, n: int) -> bool {
        self.rhs.values@.len() == n && self.mark_nonzero.is_visited@.len() == n
    }

    pub fn with_capacity(n: usize) -> (r: ScratchSpace<T>)
        ensures
            r.wf(),
            r.fits(n as int),
            r.rhs.nonzero@.len() == 0,
            r.mark_nonzero.visited@.len() == 0,
            forall|i: int| 0 <= i < n ==> #[trigger] r.rhs.values@[i] == T::zero_spec(),
    {
        ScratchSpace {
            rhs: ScatteredVec::empty(n),
            mark_nonzero: MarkNonzero::with_capacity(n),
        }
    }
}

/// The largest magnitude at the places `lo..hi` of the list; zero where none exceeds it.
pub open spec fn largest<T: Scalar>(v: Seq<T>, list: Seq<usize>, lo: int, hi: int) -> T
    decreases hi - lo,
{
    if hi <= lo {
        T::zero_spec()
    } else {
        let m = largest(v, list, lo, hi - 1);
        let a = v[list[hi - 1] as int].absolute_spec();
        if m.less_spec(a) {
            a
        } else {
            m
        }
    }
}

/// Whether the value at place `i` of the list is large enough for a pivot.
pub open spec fn eligible<T: Scalar>(
    v: Seq<T>,
    list: Seq<usize>,
    lo: int,
    stability: T,
    i: int,
) -> bool {
    stability.times_spec(largest(v, list, lo, list.len() as int)).less_eq_spec(
        v[list[i] as int].absolute_spec(),
    )
}

/// Place `i` of the list, from `lo` on, is the first eligible one with the least count.
pub open spec fn best_pivot<T: Scalar>(
    v: Seq<T>,
    list: Seq<usize>,
    lo: int,
    stability: T,
    counts: Seq<usize>,
    i: int,
) -> bool {
    &&& largest(v, list, lo, list.len() as int).normal()
    &&& lo <= i < list.len()
    &&& eligible(v, list, lo, stability, i)
    &&& forall|k: int|
        lo <= k < list.len() && #[trigger] eligible(v, list, lo, stability, k) ==> counts[list[i] as int]
            < counts[list[k] as int] || counts[list[i] as int] == counts[list[k] as int] && i <= k
}

/// No place of the list, from `lo` on, can be a pivot.
pub open spec fn no_pivot<T: Scalar>(
    v: Seq<T>,
    list: Seq<usize>,
    lo: int,
    stability: T,
) -> bool {
    ||| !largest(v, list, lo, list.len() as int).normal()
    ||| forall|k: int| lo <= k < list.len() ==> !#[trigger] eligible(v, list, lo, stability, k)
}

/// Chooses among the eligible places of the list, from `start` on, the first one with the
/// least count.
pub fn choose_pivot_place<T: Scalar>(
    rhs: &ScatteredVec<T>,
    start: usize,
    stability_coeff: T,
    counts: &Vec<usize>,
) -> (r: Option<usize>)
    requires
        rhs.wf(),
        start <= rhs.nonzero@.len(),
        counts@.len() == rhs.values@.len(),
    ensures
        match r {
            Some(i) => best_pivot(
                rhs.values@,
                rhs.nonzero@,
                start as int,
                stability_coeff,
                counts@,
                i as int,
            ),
            None => no_pivot(rhs.values@, rhs.nonzero@, start as int, stability_coeff),
        },
{
    let n: usize = rhs.nonzero.len();
    let mut max_abs = T::zero();
    let mut k: usize = start;
    while k < n
        invariant
            rhs.wf(),
            n == rhs.nonzero@.len(),
            start <= k <= n,
            max_abs == largest(rhs.values@, rhs.nonzero@, start as int, k as int),
        decreases n - k,
    {
        let abs = rhs.values[rhs.nonzero[k]].absolute();
        if max_abs.less(abs) {
            max_abs = abs;
        }
        k += 1;
    }
    if !max_abs.is_normal() {
        return None;
    }
    let mut best: Option<usize> = None;
    let mut k: usize = start;
    while k < n
        invariant
            rhs.wf(),
            counts@.len() == rhs.values@.len(),
            n == rhs.nonzero@.len(),
            start <= k <= n,
            max_abs == largest(rhs.values@, rhs.nonzero@, start as int, n as int),
            best is None ==> forall|j: int|
                start <= j < k ==> !#[trigger] eligible(
                    rhs.values@,
                    rhs.nonzero@,
                    start as int,
                    stability_coeff,
                    j,
                ),
            best matches Some(i) ==> start <= i < k && eligible(
                rhs.values@,
                rhs.nonzero@,
                start as int,
                stability_coeff,
                i as int,
            ) && forall|j: int|
                start <= j < k && #[trigger] eligible(
                    rhs.values@,
                    rhs.nonzero@,
                    start as int,
                    stability_coeff,
                    j,
                ) ==> counts@[rhs.nonzero@[i as int] as int] < counts@[rhs.nonzero@[j] as int]
                    || counts@[rhs.nonzero@[i as int] as int] == counts@[rhs.nonzero@[j] as int]
                    && i <= j,
        decreases n - k,
    {
        let orig_r: usize = rhs.nonzero[k];
        if stability_coeff.times(max_abs).less_eq(rhs.values[orig_r].absolute()) {
            let elt_count: usize = counts[orig_r];
            match best {
                None => {
                    best = Some(k);
                },
                Some(i) => {
                    if counts[rhs.nonzero[i]] > elt_count {
                        best = Some(k);
                    }
                },
            }
        }
        k += 1;
    }
    best
}

/// How many of the first `k` chosen columns have an entry in row `r`.
pub open spec fn elt_count<T: Scalar>(mat: CsMat<T>, cols: Seq<usize>, k: int, r: int) -> int
    decreases k,
{
    if k <= 0 {
        0
    } else if mat.line_has(cols[k - 1] as int, r) {
        elt_count(mat, cols, k - 1, r) + 1
    } else {
        elt_count(mat, cols, k - 1, r)
    }
}

/// Counts the entries of one more column.
fn count_column<T: Scalar>(mat: &CsMat<T>, col: usize, counts: &mut Vec<usize>)
    requires
        mat.wf(),
        mat.storage == Storage::Csc,
        col < mat.ncols,
        old(counts)@.len() == mat.nrows,
        forall|i: int| 0 <= i < mat.nrows ==> #[trigger] old(counts)@[i] < usize::MAX,
    ensures
        final(counts)@.len() == mat.nrows,
        forall|i: int|
            0 <= i < mat.nrows ==> #[trigger] final(counts)@[i] == old(counts)@[i]
                + if mat.line_has(col as int, i) {
                1int
            } else {
                0int
            },
{
    proof {
        mat.line_wf(col as int);
    }
    let ghost before = counts@;
    let lo: usize = mat.indptr[col];
    let hi: usize = mat.indptr[col + 1];
    let mut p: usize = lo;
    while p < hi
        invariant
            lo == mat.lo(col as int),
            hi == mat.hi(col as int),
            lo <= p <= hi <= mat.indices@.len(),
            distinct(mat.indices@, lo as int, hi as int),
            below(mat.indices@, mat.nrows as int),
            counts@.len() == mat.nrows,
            before.len() == mat.nrows,
            forall|i: int| 0 <= i < mat.nrows ==> #[trigger] before[i] < usize::MAX,
            forall|i: int|
                0 <= i < mat.nrows ==> #[trigger] counts@[i] == before[i] + if holds(
                    mat.indices@,
                    lo as int,
                    p as int,
                    i,
                ) {
                    1int
                } else {
                    0int
                },
        decreases hi - p,
    {
        let orig_r: usize = mat.indices[p];
        proof {
            one_more(mat.indices@, lo as int, hi as int, p as int);
            assert(before[orig_r as int] < usize::MAX);
            assert(counts@[orig_r as int] == before[orig_r as int]);
        }
        counts[orig_r] = counts[orig_r] + 1;
        p += 1;
    }
}

/// The number of entries that every row has in the chosen columns.
pub fn count_rows<T: Scalar>(mat: &CsMat<T>, cols: &[usize]) -> (r: Vec<usize>)
    requires
        mat.wf(),
        mat.storage == Storage::Csc,
        below(cols@, mat.ncols as int),
    ensures
        r@.len() == mat.nrows,
        forall|i: int|
            0 <= i < mat.nrows ==> #[trigger] r@[i] == elt_count(*mat, cols@, cols@.len() as int, i),
{
    let mut counts: Vec<usize> = filled(mat.nrows, 0);
    let mut k: usize = 0;
    while k < cols.len()
        invariant
            mat.wf(),
            mat.storage == Storage::Csc,
            below(cols@, mat.ncols as int),
            k <= cols@.len(),
            counts@.len() == mat.nrows,
            forall|i: int|
                0 <= i < mat.nrows ==> #[trigger] counts@[i] == elt_count(*mat, cols@, k as int, i)
                    && counts@[i] <= k,
        decreases cols@.len() - k,
    {
        let col: usize = cols[k];
        count_column(mat, col, &mut counts);
        k += 1;
    }
    counts
}

/// The column of the lower factor that belongs to the pivot at place `i`: what the places from
/// `lo` on hold, divided by the pivot.
pub open spec fn divided<T: Scalar>(
    col: Col<T>,
    v: Seq<T>,
    list: Seq<usize>,
    lo: int,
    i: int,
) -> bool {
    &&& forall|r: int| #[trigger]
        col.stores(r) == (holds(list, lo, list.len() as int, r) && !v[r].same_spec(T::zero_spec()))
    &&& forall|r: int|
        col.stores(r) ==> #[trigger] col.cell(r) == if r == list[i] {
            T::one_spec()
        } else {
            v[r].over_spec(v[list[i] as int])
        }
}

/// The rows at the places `lo..hi` of the list that do not hold zero.
pub open spec fn solid_rows<T: Scalar>(v: Seq<T>, list: Seq<usize>, lo: int, hi: int) -> Seq<usize>
    decreases hi - lo,
{
    if hi <= lo {
        Seq::empty()
    } else if v[list[hi - 1] as int].same_spec(T::zero_spec()) {
        solid_rows(v, list, lo, hi - 1)
    } else {
        solid_rows(v, list, lo, hi - 1).push(list[hi - 1])
    }
}

/// What the rows hold, divided by what the row `pivot` holds; that row itself has a one.
pub open spec fn quotients<T: Scalar>(v: Seq<T>, rows: Seq<usize>, pivot: usize) -> Seq<T> {
    Seq::new(
        rows.len(),
        |p: int|
            if rows[p] == pivot {
                T::one_spec()
            } else {
                v[rows[p] as int].over_spec(v[pivot as int])
            },
    )
}

/// The column of the lower factor that belongs to the pivot at place `i`.
pub open spec fn pivot_column<T: Scalar>(
    v: Seq<T>,
    list: Seq<usize>,
    lo: int,
    i: int,
) -> Entries<T> {
    let rows = solid_rows(v, list, lo, list.len() as int);
    Entries { rows, vals: quotients(v, rows, list[i]) }
}

/// Divides the places from `start` on by the pivot.
fn divide<T: Scalar>(rhs: &ScatteredVec<T>, start: usize, pivot_i: usize) -> (r: Col<T>)
    requires
        rhs.wf(),
        start <= pivot_i < rhs.nonzero@.len(),
    ensures
        r.wf(rhs.values@.len() as int),
        divided(r, rhs.values@, rhs.nonzero@, start as int, pivot_i as int),
        r@ == pivot_column(rhs.values@, rhs.nonzero@, start as int, pivot_i as int),
{
    let n: usize = rhs.nonzero.len();
    let pivot_val = rhs.values[rhs.nonzero[pivot_i]];
    let ghost v = rhs.values@;
    let ghost list = rhs.nonzero@;
    let mut l_col: Col<T> = Col::new();
    let mut i: usize = start;
    proof {
        assert(l_col.rows@ =~= solid_rows(v, list, start as int, start as int));
        assert(l_col.vals@ =~= quotients(v, l_col.rows@, list[pivot_i as int]));
    }
    while i < n
        invariant
            rhs.wf(),
            v == rhs.values@,
            list == rhs.nonzero@,
            n == list.len(),
            start <= i <= n,
            start <= pivot_i < n,
            pivot_val == v[list[pivot_i as int] as int],
            l_col.rows@ == solid_rows(v, list, start as int, i as int),
            l_col.vals@ == quotients(v, l_col.rows@, list[pivot_i as int]),
            l_col.wf(v.len() as int),
            l_col.rows@.len() <= i - start,
            forall|r: int| #[trigger]
                l_col.stores(r) == (holds(list, start as int, i as int, r) && !v[r].same_spec(
                    T::zero_spec(),
                )),
            forall|r: int|
                l_col.stores(r) ==> #[trigger] l_col.cell(r) == if r == list[pivot_i as int] {
                    T::one_spec()
                } else {
                    v[r].over_spec(pivot_val)
                },
        decreases n - i,
    {
        let orig_row: usize = rhs.nonzero[i];
        let val = rhs.values[orig_row];
        let ghost before = l_col;
        proof {
            one_more(list, start as int, n as int, i as int);
            assert(!l_col.stores(orig_row as int));
        }
        if !val.same(T::zero()) {
            if i == pivot_i {
                l_col.push(orig_row, T::one());
            } else {
                l_col.push(orig_row, val.over(pivot_val));
            }
            proof {
                if i != pivot_i {
                    if i < pivot_i {
                        assert(list[i as int] != list[pivot_i as int]);
                    } else {
                        assert(list[pivot_i as int] != list[i as int]);
                    }
                }
                assert(l_col.vals@ =~= quotients(v, l_col.rows@, list[pivot_i as int]));
                pushed(before, l_col);
            }
        }
        i += 1;
    }
    l_col
}

/// A column with one more entry.
proof fn pushed<T: Scalar>(before: Col<T>, after: Col<T>)
    requires
        before.rows@.len() == before.vals@.len(),
        after.rows@ == before.rows@.push(after.rows@.last()),
        after.vals@ == before.vals@.push(after.vals@.last()),
        distinct(before.rows@, 0, before.rows@.len() as int),
        !before.stores(after.rows@.last() as int),
    ensures
        distinct(after.rows@, 0, after.rows@.len() as int),
        forall|r: int| #[trigger]
            after.stores(r) == (before.stores(r) || r == after.rows@.last()),
        forall|r: int| #[trigger]
            after.cell(r) == if r == after.rows@.last() {
                after.vals@.last()
            } else {
                before.cell(r)
            },
{
    let n = before.rows@.len() as int;
    let last = after.rows@.last();
    assert forall|p: int, q: int| 0 <= p < q < n + 1 implies #[trigger] after.rows@[p]
        != #[trigger] after.rows@[q] by {
        if q < n {
            assert(before.rows@[p] != before.rows@[q]);
        } else {
            assert(before.rows@[p] == after.rows@[p]);
        }
    }
    assert forall|r: int| #[trigger] after.stores(r) == (before.stores(r) || r == last)
        && after.cell(r) == if r == last {
        after.vals@.last()
    } else {
        before.cell(r)
    } by {
        if r == last {
            assert(after.rows@[n] == r);
            at_place(after.rows@, after.vals@, 0, n + 1, n);
        } else {
            if before.stores(r) {
                let p = place(before.rows@, 0, n, r);
                assert(after.rows@[p] == r);
                at_place(after.rows@, after.vals@, 0, n + 1, p);
            }
            if after.stores(r) {
                let p = place(after.rows@, 0, n + 1, r);
                assert(before.rows@[p] == r);
            }
        }
    }
    assert forall|r: int| #[trigger] after.cell(r) == if r == last {
        after.vals@.last()
    } else {
        before.cell(r)
    } by {
        assert(after.stores(r) == (before.stores(r) || r == last));
    }
}

/// The terms of row `r` and column `c` of the product of the factors.
pub open spec fn factor_terms<T: Scalar>(
    lower: Seq<Col<T>>,
    upper: TriMat<T>,
    r: int,
    c: int,
) -> spec_fn(int) -> real {
    |k: int| lower[k].cell(r).val() * upper.value(k, c).val()
}

/// Where the numbers in column `c` of both factors are finite and were computed exactly, the
/// product of the factors has the column `col` of the matrix as its column `c`.
pub open spec fn column_product<T: Scalar>(
    mat: CsMat<T>,
    col: int,
    lower: Seq<Col<T>>,
    upper: TriMat<T>,
    c: int,
) -> bool {
    exact::<T>() && (forall|r: int| lower[c].stores(r) ==> (#[trigger] lower[c].cell(r)).finite())
        && (forall|k: int| 0 <= k <= c ==> (#[trigger] upper.value(k, c)).finite()) ==> forall|r: int|
        0 <= r < mat.nrows ==> (#[trigger] mat.line(col, r)).val() == sum(
            factor_terms(lower, upper, r, c),
            (c + 1) as nat,
        )
}

/// The values `v` that were left in column `c` gave its pivot and its part of the lower factor.
/// The rows that were not settled are listed from place `lo` on, except where there is a zero.
pub open spec fn pivoted<T: Scalar>(
    l_col: Col<T>,
    diag: T,
    orig2new: Seq<usize>,
    new2orig: Seq<usize>,
    c: int,
    stability: T,
    counts: Seq<usize>,
    v: Seq<T>,
    list: Seq<usize>,
    lo: int,
    i: int,
) -> bool {
    &&& v.len() == orig2new.len()
    &&& 0 <= lo
    &&& below(list, v.len() as int)
    &&& distinct(list, 0, list.len() as int)
    &&& best_pivot(v, list, lo, stability, counts, i)
    &&& list[i] == new2orig[c]
    &&& diag == v[list[i] as int]
    &&& !diag.same_spec(T::zero_spec())
    &&& divided(l_col, v, list, lo, i)
    &&& forall|p: int| lo <= p < list.len() ==> c <= orig2new[#[trigger] list[p] as int]
    &&& forall|r: int|
        0 <= r < v.len() && c <= orig2new[r] && !holds(list, lo, list.len() as int, r) ==> is_zero(
            #[trigger] v[r],
        )
}

pub open spec fn column_pivoted<T: Scalar>(
    lower: Seq<Col<T>>,
    upper: TriMat<T>,
    orig2new: Seq<usize>,
    new2orig: Seq<usize>,
    c: int,
    stability: T,
    counts: Seq<usize>,
) -> bool {
    exists|v: Seq<T>, list: Seq<usize>, lo: int, i: int| #[trigger]
        pivoted(
            lower[c],
            upper.value(c, c),
            orig2new,
            new2orig,
            c,
            stability,
            counts,
            v,
            list,
            lo,
            i,
        )
}

/// The first `lower.len()` of the chosen columns are factored.
pub open spec fn factored<T: Scalar>(
    mat: CsMat<T>,
    cols: Seq<usize>,
    stability: T,
    counts: Seq<usize>,
    lower: Seq<Col<T>>,
    upper: TriMat<T>,
    orig2new: Seq<usize>,
    new2orig: Seq<usize>,
) -> bool {
    &&& unit_lower(lower, orig2new, new2orig)
    &&& orig2new.len() == mat.nrows
    &&& upper.wf()
    &&& upper.nrows == mat.nrows
    &&& upper.ncols == cols.len()
    &&& forall|i: int, j: int| #[trigger] upper.stores(i, j) ==> 0 <= i <= j < lower.len()
    &&& forall|k: int| 0 <= k < lower.len() ==> #[trigger] upper.stores(k, k)
    &&& forall|k: int|
        0 <= k < lower.len() ==> #[trigger] column_product(mat, cols[k] as int, lower, upper, k)
    &&& forall|k: int|
        0 <= k < lower.len() ==> #[trigger] column_pivoted(
            lower,
            upper,
            orig2new,
            new2orig,
            k,
            stability,
            counts,
        )
}

/// What is left of column `col` when the factored columns are eliminated from it: the settled
/// rows are listed before the place `lo`, the others from there on.
pub open spec fn remainder<T: Scalar>(
    mat: CsMat<T>,
    col: int,
    lower: Seq<Col<T>>,
    orig2new: Seq<usize>,
    new2orig: Seq<usize>,
    v: Seq<T>,
    list: Seq<usize>,
    lo: int,
) -> bool {
    &&& v.len() == orig2new.len()
    &&& 0 <= lo <= list.len()
    &&& below(list, v.len() as int)
    &&& distinct(list, 0, list.len() as int)
    &&& forall|p: int|
        0 <= p < list.len() ==> (p < lo <==> orig2new[#[trigger] list[p] as int] < lower.len())
    &&& forall|r: int|
        0 <= r < v.len() && !holds(list, 0, list.len() as int, r) ==> is_zero(#[trigger] v[r])
    &&& exact::<T>() ==> forall|r: int|
        0 <= r < v.len() && (#[trigger] v[r]).finite() ==> reduced_row(
            mat,
            col,
            lower,
            orig2new,
            new2orig,
            v,
            r,
        )
}

proof fn listed_side(
    list: Seq<usize>,
    lo: int,
    orig2new: Seq<usize>,
    c: int,
    r: int,
)
    requires
        0 <= lo <= list.len(),
        forall|p: int| 0 <= p < list.len() ==> (p < lo <==> orig2new[#[trigger] list[p] as int] < c),
    ensures
        holds(list, 0, lo, r) == (holds(list, 0, list.len() as int, r) && orig2new[r] < c),
        holds(list, lo, list.len() as int, r) == (holds(list, 0, list.len() as int, r)
            && orig2new[r] >= c),
{
    let n = list.len() as int;
    if holds(list, 0, n, r) {
        let p = place(list, 0, n, r);
        assert(list[p] == r);
        assert(p < lo <==> orig2new[list[p] as int] < c);
    }
    if holds(list, 0, lo, r) {
        let p = place(list, 0, lo, r);
        assert(list[p] == r);
    }
    if holds(list, lo, n, r) {
        let p = place(list, lo, n, r);
        assert(list[p] == r);
    }
}

/// One more column of the product.
proof fn next_product<T: Scalar>(
    mat: CsMat<T>,
    col: int,
    lower: Seq<Col<T>>,
    l_col: Col<T>,
    upper: TriMat<T>,
    orig2new: Seq<usize>,
    new2orig: Seq<usize>,
    v: Seq<T>,
    list: Seq<usize>,
    lo: int,
    i: int,
)
    requires
        mat.nrows == orig2new.len(),
        unit_lower(lower, orig2new, new2orig),
        remainder(mat, col, lower, orig2new, new2orig, v, list, lo),
        lo <= i < list.len(),
        divided(l_col, v, list, lo, i),
        !v[list[i] as int].same_spec(T::zero_spec()),
        forall|r: int|
            0 <= r < v.len() && orig2new[r] < lower.len() ==> #[trigger] upper.value(
                orig2new[r] as int,
                lower.len() as int,
            ) == if v[r].same_spec(T::zero_spec()) || !holds(list, 0, lo, r) {
                T::zero_spec()
            } else {
                v[r]
            },
        upper.value(lower.len() as int, lower.len() as int) == v[list[i] as int],
    ensures
        column_product(mat, col, lower.push(l_col), upper, lower.len() as int),
{
    let c = lower.len() as int;
    let all = lower.push(l_col);
    if exact::<T>() && (forall|r: int|
        all[c].stores(r) ==> (#[trigger] all[c].cell(r)).finite()) && (forall|k: int|
        0 <= k <= c ==> (#[trigger] upper.value(k, c)).finite()) {
        assert forall|r: int| 0 <= r < mat.nrows implies (#[trigger] mat.line(col, r)).val() == sum(
            factor_terms(all, upper, r, c),
            (c + 1) as nat,
        ) by {
            let f = factor_terms(all, upper, r, c);
            let g = products(lower, new2orig, v, r, |j: int| true);
            listed_side(list, lo, orig2new, c, r);
            assert forall|k: int| 0 <= k < c implies #[trigger] f(k) == g(k) by {
                let w = new2orig[k] as int;
                assert(orig2new[w] == k);
                listed_side(list, lo, orig2new, c, w);
                assert(upper.value(orig2new[w] as int, c).val() == v[w].val());
            }
            sum_same(f, g, c as nat);
            let p = v[list[i] as int];
            let l = l_col.cell(r);
            assert(list[i] == list[i] as int);
            assert(upper.value(c, c).finite());
            assert(f(c) == l.val() * p.val());
            if orig2new[r] < c {
                assert(upper.value(orig2new[r] as int, c).finite());
                assert(v[r].finite());
                assert(!l_col.stores(r));
                times_zero(p.val());
            } else if l_col.stores(r) {
                assert(all[c].cell(r).finite());
                assert(v[r].finite());
                if r == list[i] {
                    times_zero(p.val());
                } else {
                    let (a, b) = (v[r].val(), p.val());
                    assert(a / b * b == a) by (nonlinear_arith)
                        requires
                            b != 0 as real,
                    ;
                }
            } else {
                assert(v[r].finite() && v[r].val() == 0 as real);
                times_zero(p.val());
            }
            assert(reduced_row(mat, col, lower, orig2new, new2orig, v, r));
        }
    }
}

/// Exchanging rows that are not settled keeps what is settled.
proof fn settled_stay(orig2new: Seq<usize>, new2orig: Seq<usize>, c: int, p: int)
    requires
        inverse(orig2new, new2orig),
        0 <= c < new2orig.len(),
        0 <= p < new2orig.len(),
        c <= orig2new[p],
    ensures
        inverse(
            swap_at(orig2new, new2orig[c] as int, p),
            swap_at(new2orig, c, orig2new[p] as int),
        ),
        swap_at(new2orig, c, orig2new[p] as int)[c] == p,
        forall|k: int|
            0 <= k < c ==> #[trigger] swap_at(new2orig, c, orig2new[p] as int)[k] == new2orig[k],
        forall|r: int|
            0 <= r < orig2new.len() ==> if orig2new[r] < c {
                #[trigger] swap_at(orig2new, new2orig[c] as int, p)[r] == orig2new[r]
            } else {
                c <= swap_at(orig2new, new2orig[c] as int, p)[r]
            },
{
    let j = orig2new[p] as int;
    assert(new2orig[j] == p);
    inverse_swap(orig2new, new2orig, c, j);
    assert(orig2new[new2orig[c] as int] == c);
    assert(new2orig[c] < orig2new.len());
}

/// One more column of the lower factor.
proof fn next_lower<T: Scalar>(
    lower: Seq<Col<T>>,
    l_col: Col<T>,
    orig2new: Seq<usize>,
    new2orig: Seq<usize>,
    v: Seq<T>,
    list: Seq<usize>,
    lo: int,
    i: int,
)
    requires
        unit_lower(lower, orig2new, new2orig),
        lower.len() < new2orig.len(),
        l_col.wf(orig2new.len() as int),
        0 <= lo <= i < list.len(),
        below(list, orig2new.len() as int),
        forall|p: int|
            lo <= p < list.len() ==> lower.len() <= orig2new[#[trigger] list[p] as int],
        divided(l_col, v, list, lo, i),
        !v[list[i] as int].same_spec(T::zero_spec()),
    ensures
        unit_lower(
            lower.push(l_col),
            swap_at(orig2new, new2orig[lower.len() as int] as int, list[i] as int),
            swap_at(new2orig, lower.len() as int, orig2new[list[i] as int] as int),
        ),
{
    let c = lower.len() as int;
    let p = list[i] as int;
    assert(c <= orig2new[list[i] as int]);
    settled_stay(orig2new, new2orig, c, p);
    let o2 = swap_at(orig2new, new2orig[c] as int, p);
    let n2 = swap_at(new2orig, c, orig2new[p] as int);
    let all = lower.push(l_col);
    assert(list[i] == p);
    assert(holds(list, lo, list.len() as int, p));
    assert(l_col.stores(p));
    assert forall|k: int| 0 <= k < all.len() implies (#[trigger] all[k]).stores(n2[k] as int)
        && all[k].cell(n2[k] as int) == T::one_spec() by {
        if k < c {
            assert(all[k] == lower[k]);
            assert(n2[k] == new2orig[k]);
        }
    }
    assert forall|k: int, r: int| 0 <= k < all.len() && #[trigger] all[k].stores(r) implies k
        <= o2[r] by {
        if k < c {
            assert(lower[k].stores(r));
            assert(lower[k].wf(orig2new.len() as int));
            let q = place(lower[k].rows@, 0, lower[k].rows@.len() as int, r);
            assert(lower[k].rows@[q] == r);
        } else {
            let q = place(list, lo, list.len() as int, r);
            assert(list[q] == r);
        }
    }
    assert forall|k: int| 0 <= k < all.len() implies (#[trigger] all[k]).wf(o2.len() as int) by {
        if k < c {
            assert(lower[k].wf(orig2new.len() as int));
        }
    }
}

/// One more column is factored.
proof fn next_factored<T: Scalar>(
    mat: CsMat<T>,
    cols: Seq<usize>,
    stability: T,
    counts: Seq<usize>,
    lower: Seq<Col<T>>,
    upper: TriMat<T>,
    orig2new: Seq<usize>,
    new2orig: Seq<usize>,
    l_col: Col<T>,
    upper2: TriMat<T>,
    v: Seq<T>,
    list: Seq<usize>,
    lo: int,
    i: int,
)
    requires
        factored(mat, cols, stability, counts, lower, upper, orig2new, new2orig),
        lower.len() < cols.len(),
        cols.len() == mat.nrows,
        remainder(mat, cols[lower.len() as int] as int, lower, orig2new, new2orig, v, list, lo),
        best_pivot(v, list, lo, stability, counts, i),
        !v[list[i] as int].same_spec(T::zero_spec()),
        l_col.wf(orig2new.len() as int),
        divided(l_col, v, list, lo, i),
        upper2.wf(),
        upper2.nrows == mat.nrows,
        upper2.ncols == cols.len(),
        forall|a: int, b: int|
            b != lower.len() ==> #[trigger] upper2.stores(a, b) == upper.stores(a, b),
        forall|a: int, b: int|
            b != lower.len() ==> #[trigger] upper2.value(a, b) == upper.value(a, b),
        forall|a: int| #[trigger]
            upper2.stores(a, lower.len() as int) ==> 0 <= a <= lower.len(),
        upper2.stores(lower.len() as int, lower.len() as int),
        upper2.value(lower.len() as int, lower.len() as int) == v[list[i] as int],
        forall|r: int|
            0 <= r < v.len() && orig2new[r] < lower.len() ==> #[trigger] upper2.value(
                orig2new[r] as int,
                lower.len() as int,
            ) == if v[r].same_spec(T::zero_spec()) || !holds(list, 0, lo, r) {
                T::zero_spec()
            } else {
                v[r]
            },
    ensures
        factored(
            mat,
            cols,
            stability,
            counts,
            lower.push(l_col),
            upper2,
            swap_at(orig2new, new2orig[lower.len() as int] as int, list[i] as int),
            swap_at(new2orig, lower.len() as int, orig2new[list[i] as int] as int),
        ),
{
    let c = lower.len() as int;
    let p = list[i] as int;
    assert(c <= orig2new[list[i] as int]);
    let o2 = swap_at(orig2new, new2orig[c] as int, p);
    let n2 = swap_at(new2orig, c, orig2new[p] as int);
    let all = lower.push(l_col);
    settled_stay(orig2new, new2orig, c, p);
    next_lower(lower, l_col, orig2new, new2orig, v, list, lo, i);
    next_product(
        mat,
        cols[c] as int,
        lower,
        l_col,
        upper2,
        orig2new,
        new2orig,
        v,
        list,
        lo,
        i,
    );
    assert forall|k: int| 0 <= k < all.len() implies #[trigger] column_product(
        mat,
        cols[k] as int,
        all,
        upper2,
        k,
    ) by {
        if k < c {
            assert(all[k] == lower[k]);
            assert(column_product(mat, cols[k] as int, lower, upper, k));
            same_product(mat, cols[k] as int, lower, upper, all, upper2, k);
        }
    }
    assert forall|k: int| 0 <= k < all.len() implies #[trigger] column_pivoted(
        all,
        upper2,
        o2,
        n2,
        k,
        stability,
        counts,
    ) by {
        if k < c {
            assert(column_pivoted(lower, upper, orig2new, new2orig, k, stability, counts));
            let (w, l, b, j) = choose|w: Seq<T>, l: Seq<usize>, b: int, j: int| #[trigger]
                pivoted(
                    lower[k],
                    upper.value(k, k),
                    orig2new,
                    new2orig,
                    k,
                    stability,
                    counts,
                    w,
                    l,
                    b,
                    j,
                );
            assert(n2[k] == new2orig[k]);
            assert(pivoted(all[k], upper2.value(k, k), o2, n2, k, stability, counts, w, l, b, j));
        } else {
            assert forall|r: int|
                0 <= r < v.len() && c <= o2[r] && !holds(list, lo, list.len() as int, r) implies is_zero(
                #[trigger] v[r],
            ) by {
                listed_side(list, lo, orig2new, c, r);
            }
            assert(pivoted(
                all[c],
                upper2.value(c, c),
                o2,
                n2,
                c,
                stability,
                counts,
                v,
                list,
                lo,
                i,
            ));
        }
    }
    assert forall|a: int, b: int| #[trigger] upper2.stores(a, b) implies 0 <= a <= b < all.len() by {
        if b != c {
            assert(upper.stores(a, b));
        }
    }
    assert forall|k: int| 0 <= k < all.len() implies #[trigger] upper2.stores(k, k) by {
        if k < c {
            assert(upper.stores(k, k));
        }
    }
}

/// A column of the product depends on what stands in the first columns alone.
proof fn same_product<T: Scalar>(
    mat: CsMat<T>,
    col: int,
    lower: Seq<Col<T>>,
    upper: TriMat<T>,
    lower2: Seq<Col<T>>,
    upper2: TriMat<T>,
    k: int,
)
    requires
        0 <= k < lower.len() <= lower2.len(),
        forall|j: int| 0 <= j <= k ==> #[trigger] lower2[j] == lower[j],
        forall|j: int| #[trigger] upper2.value(j, k) == upper.value(j, k),
        column_product(mat, col, lower, upper, k),
    ensures
        column_product(mat, col, lower2, upper2, k),
{
    if exact::<T>() && (forall|r: int|
        lower2[k].stores(r) ==> (#[trigger] lower2[k].cell(r)).finite()) && (forall|j: int|
        0 <= j <= k ==> (#[trigger] upper2.value(j, k)).finite()) {
        assert(lower2[k] == lower[k]);
        assert forall|j: int| 0 <= j <= k implies (#[trigger] upper.value(j, k)).finite() by {
            assert(upper2.value(j, k).finite());
        }
        assert forall|r: int| 0 <= r < mat.nrows implies (#[trigger] mat.line(col, r)).val() == sum(
            factor_terms(lower2, upper2, r, k),
            (k + 1) as nat,
        ) by {
            let f = factor_terms(lower, upper, r, k);
            let g = factor_terms(lower2, upper2, r, k);
            assert forall|j: int| 0 <= j < k + 1 implies #[trigger] f(j) == g(j) by {
                assert(lower2[j] == lower[j]);
                assert(upper2.value(j, k) == upper.value(j, k));
            }
            sum_same(f, g, (k + 1) as nat);
        }
    }
}

/// A settled row of the reduced column depends on the settled rows alone.
proof fn same_reduced<T: Scalar>(
    mat: CsMat<T>,
    col: int,
    lower: Seq<Col<T>>,
    orig2new: Seq<usize>,
    new2orig: Seq<usize>,
    v: Seq<T>,
    w: Seq<T>,
)
    requires
        unit_lower(lower, orig2new, new2orig),
        v.len() == orig2new.len(),
        w.len() == v.len(),
        forall|r: int|
            0 <= r < v.len() && orig2new[r] < lower.len() ==> #[trigger] w[r] == v[r],
        forall|r: int|
            0 <= r < v.len() && orig2new[r] < lower.len() && (#[trigger] v[r]).finite()
                ==> reduced_row(mat, col, lower, orig2new, new2orig, v, r),
    ensures
        forall|r: int|
            0 <= r < v.len() && orig2new[r] < lower.len() && (#[trigger] w[r]).finite()
                ==> reduced_row(mat, col, lower, orig2new, new2orig, w, r),
{
    assert forall|r: int|
        0 <= r < v.len() && orig2new[r] < lower.len() && (#[trigger] w[r]).finite() implies reduced_row(
        mat,
        col,
        lower,
        orig2new,
        new2orig,
        w,
        r,
    ) by {
        assert(v[r].finite());
        let f = products(lower, new2orig, v, r, |j: int| true);
        let g = products(lower, new2orig, w, r, |j: int| true);
        assert forall|j: int| 0 <= j < lower.len() implies #[trigger] f(j) == g(j) by {
            let u = new2orig[j] as int;
            assert(orig2new[u] == j);
            assert(w[u] == v[u]);
        }
        sum_same(f, g, lower.len());
    }
}

/// Eliminates the factored columns from one more column. The settled part of it becomes a
/// column of the upper factor; the number of places on the list that it takes is returned.
fn reduce_column<T: Scalar>(
    mat: &CsMat<T>,
    col: usize,
    scratch: &mut ScratchSpace<T>,
    lower: &Vec<Col<T>>,
    orig2new: &Vec<usize>,
    upper: &mut TriMat<T>,
    Ghost(new2orig): Ghost<Seq<usize>>,
) -> (start: usize)
    requires
        mat.wf(),
        mat.storage == Storage::Csc,
        col < mat.ncols,
        old(scratch).wf(),
        old(scratch).fits(mat.nrows as int),
        unit_lower(lower@, orig2new@, new2orig),
        orig2new@.len() == mat.nrows,
        old(upper).wf(),
        old(upper).nrows == mat.nrows,
        lower@.len() < old(upper).ncols,
        forall|r: int| !#[trigger] old(upper).stores(r, lower@.len() as int),
    ensures
        final(scratch).wf(),
        final(scratch).fits(mat.nrows as int),
        (Reduced {
            v: final(scratch).rhs.values@,
            list: final(scratch).rhs.nonzero@,
            lo: start as int,
        }) == reduced(*mat, col as int, contents(lower@), orig2new@),
        remainder(
            *mat,
            col as int,
            lower@,
            orig2new@,
            new2orig,
            final(scratch).rhs.values@,
            final(scratch).rhs.nonzero@,
            start as int,
        ),
        final(upper).wf(),
        final(upper).nrows == old(upper).nrows,
        final(upper).ncols == old(upper).ncols,
        upper_column(
            *final(upper),
            lower@.len() as int,
            final(scratch).rhs.nonzero@,
            start as int,
            orig2new@,
            final(scratch).rhs.values@,
        ),
        forall|i: int, j: int|
            j != lower@.len() ==> #[trigger] final(upper).stores(i, j) == old(upper).stores(i, j),
        forall|i: int, j: int|
            j != lower@.len() ==> #[trigger] final(upper).value(i, j) == old(upper).value(i, j),
        (forall|r: int| #[trigger] mat.line_has(col as int, r) ==> lower@.len() <= orig2new@[r])
            ==> start == 0 && final(scratch).rhs.nonzero@ == mat.indices@.subrange(
            mat.lo(col as int),
            mat.hi(col as int),
        ) && forall|r: int| #[trigger]
            mat.line_has(col as int, r) ==> final(scratch).rhs.values@[r] == mat.line(
                col as int,
                r,
            ),
{
    let c: usize = lower.len();
    let ghost n = mat.nrows as int;
    proof {
        mat.line_wf(col as int);
    }
    let ghost lo = mat.lo(col as int);
    let ghost hi = mat.hi(col as int);
    let ghost apart = forall|r: int| #[trigger]
        mat.line_has(col as int, r) ==> lower@.len() <= orig2new@[r];
    scratch.rhs.clear();
    let ghost zeros = Seq::new(n as nat, |r: int| T::zero_spec());
    scatter_side(&mut scratch.rhs, mat, col, orig2new, c, true);
    let ghost above = side_rows(mat.indices@, orig2new@, c as int, true, lo, hi);
    proof {
        side_rows_are(mat.indices@, orig2new@, c as int, true, lo, hi);
        assert(scratch.rhs.nonzero@ =~= above);
        assert(scratch.rhs.values@ =~= column_side(
            *mat,
            col as int,
            orig2new@,
            c as int,
            true,
            zeros,
        ));
        assert(scratch.rhs.is_nonzero@ =~= Seq::new(
            n as nat,
            |i: int| holds(above, 0, above.len() as int, i),
        )) by {
            assert forall|i: int| 0 <= i < n implies #[trigger] scratch.rhs.is_nonzero@[i] == holds(
                above,
                0,
                above.len() as int,
                i,
            ) by {
                assert(scratch.rhs.is_nonzero@[i] <==> scratch.rhs.marked(i));
            }
        }
        if apart {
            assert forall|r: int| #[trigger] holds(mat.indices@, lo, hi, r) implies lower@.len()
                <= orig2new@[r] by {
                assert(mat.line_has(col as int, r));
            }
            no_side_rows(mat.indices@, orig2new@, c as int, true, lo, hi);
        }
    }
    substitute(
        &mut scratch.rhs,
        &mut scratch.mark_nonzero,
        lower,
        orig2new,
        Ghost(new2orig),
        Ghost(*mat),
        Ghost(col as int),
    );
    let start: usize = scratch.rhs.nonzero.len();
    let ghost v1 = scratch.rhs.values@;
    let ghost list1 = scratch.rhs.nonzero@;
    proof {
        assert forall|r: int| 0 <= r < n && on_side(orig2new@, c as int, false, r) implies
            !#[trigger] scratch.rhs.is_nonzero@[r] by {
            if scratch.rhs.is_nonzero@[r] {
                assert(scratch.rhs.marked(r));
                let p = place(list1, 0, list1.len() as int, r);
                assert(list1[p] == r);
            }
        }
    }
    scatter_side(&mut scratch.rhs, mat, col, orig2new, c, false);
    let ghost list2 = scratch.rhs.nonzero@;
    let ghost v2 = scratch.rhs.values@;
    let ghost rest = side_rows(mat.indices@, orig2new@, c as int, false, lo, hi);
    proof {
        assert(v2 =~= column_side(*mat, col as int, orig2new@, c as int, false, v1));
        side_rows_are(mat.indices@, orig2new@, c as int, false, lo, hi);
        assert forall|p: int| 0 <= p < list2.len() implies (p < start
            <==> orig2new@[#[trigger] list2[p] as int] < c) by {
            if p < start {
                assert(list2[p] == list1[p]);
            } else {
                assert(list2[p] == rest[p - start]);
                assert(on_side(orig2new@, c as int, false, rest[p - start] as int));
            }
        }
    }
    eliminate(
        &mut scratch.rhs,
        start,
        lower,
        orig2new,
        upper,
        Ghost(new2orig),
        Ghost(*mat),
        Ghost(col as int),
    );
    proof {
        let list = scratch.rhs.nonzero@;
        let v = scratch.rhs.values@;
        assert forall|r: int| #[trigger] holds(list2, 0, start as int, r) == holds(
            list,
            0,
            start as int,
            r,
        ) by {
            same_prefix(list2, list, start as int, r);
        }
        assert forall|r: int| 0 <= r < v.len() && !holds(list, 0, list.len() as int, r) implies is_zero(
            #[trigger] v[r],
        ) by {
            assert(!scratch.rhs.marked(r));
            assert(!scratch.rhs.is_nonzero@[r]);
        }
        if exact::<T>() {
            same_reduced(*mat, col as int, lower@, orig2new@, new2orig, v1, v);
        }
        if apart {
            assert forall|r: int| #[trigger] holds(mat.indices@, lo, hi, r) implies lower@.len()
                <= orig2new@[r] by {
                assert(mat.line_has(col as int, r));
            }
            all_side_rows(mat.indices@, orig2new@, c as int, false, lo, hi);
            assert(list =~= mat.indices@.subrange(lo, hi));
        }
    }
    start
}

proof fn same_prefix(a: Seq<usize>, b: Seq<usize>, k: int, r: int)
    requires
        0 <= k <= a.len() <= b.len(),
        b.subrange(0, a.len() as int) == a,
    ensures
        holds(a, 0, k, r) == holds(b, 0, k, r),
{
    assert forall|p: int| 0 <= p < a.len() implies #[trigger] a[p] == b[p] by {
        assert(b.subrange(0, a.len() as int)[p] == b[p]);
    }
    if holds(a, 0, k, r) {
        let p = place(a, 0, k, r);
        assert(b[p] == r);
    }
    if holds(b, 0, k, r) {
        let p = place(b, 0, k, r);
        assert(a[p] == r);
    }
}

proof fn no_side_rows(
    idx: Seq<usize>,
    orig2new: Seq<usize>,
    c: int,
    above: bool,
    lo: int,
    hi: int,
)
    requires
        lo <= hi,
        forall|r: int| #[trigger] holds(idx, lo, hi, r) ==> !on_side(orig2new, c, above, r),
    ensures
        side_rows(idx, orig2new, c, above, lo, hi).len() == 0,
    decreases hi - lo,
{
    if lo < hi {
        assert(idx[hi - 1] == idx[hi - 1] as int);
        assert(holds(idx, lo, hi, idx[hi - 1] as int));
        assert forall|r: int| #[trigger] holds(idx, lo, hi - 1, r) implies !on_side(
            orig2new,
            c,
            above,
            r,
        ) by {
            let p = place(idx, lo, hi - 1, r);
            assert(idx[p] == r);
            assert(holds(idx, lo, hi, r));
        }
        no_side_rows(idx, orig2new, c, above, lo, hi - 1);
    }
}

proof fn all_side_rows(
    idx: Seq<usize>,
    orig2new: Seq<usize>,
    c: int,
    above: bool,
    lo: int,
    hi: int,
)
    requires
        0 <= lo <= hi <= idx.len(),
        forall|r: int| #[trigger] holds(idx, lo, hi, r) ==> on_side(orig2new, c, above, r),
    ensures
        side_rows(idx, orig2new, c, above, lo, hi) == idx.subrange(lo, hi),
    decreases hi - lo,
{
    if lo < hi {
        assert(idx[hi - 1] == idx[hi - 1] as int);
        assert(holds(idx, lo, hi, idx[hi - 1] as int));
        assert forall|r: int| #[trigger] holds(idx, lo, hi - 1, r) implies on_side(
            orig2new,
            c,
            above,
            r,
        ) by {
            let p = place(idx, lo, hi - 1, r);
            assert(idx[p] == r);
            assert(holds(idx, lo, hi, r));
        }
        all_side_rows(idx, orig2new, c, above, lo, hi - 1);
        assert(idx.subrange(lo, hi - 1).push(idx[hi - 1]) =~= idx.subrange(lo, hi));
    } else {
        assert(side_rows(idx, orig2new, c, above, lo, hi) =~= idx.subrange(lo, hi));
    }
}

/// How far a factorization has come: the columns of the lower factor, with the rows in their
/// first order; those of the upper factor, with the rows in their new order; the order of the rows
/// and the exchanges that it comes from.
pub struct Stage<T> {
    pub lower: Seq<Entries<T>>,
    pub upper: Seq<Seq<Option<T>>>,
    pub orig2new: Seq<usize>,
    pub new2orig: Seq<usize>,
    pub swaps: Seq<usize>,
}

/// The place of the pivot, if there is one.
pub open spec fn pivot_place<T: Scalar>(
    v: Seq<T>,
    list: Seq<usize>,
    lo: int,
    stability: T,
    counts: Seq<usize>,
) -> Option<int> {
    if exists|i: int| best_pivot(v, list, lo, stability, counts, i) {
        Some(choose|i: int| best_pivot(v, list, lo, stability, counts, i))
    } else {
        None
    }
}

/// The column of the upper factor: what is left in the settled rows, and the pivot.
pub open spec fn upper_items<T: Scalar>(
    red: Reduced<T>,
    new2orig: Seq<usize>,
    c: int,
    pivot: T,
) -> Seq<Option<T>> {
    Seq::new(
        new2orig.len(),
        |k: int|
            {
                let r = new2orig[k] as int;
                if k == c {
                    Some(pivot)
                } else if k < c && holds(red.list, 0, red.lo, r) && !red.v[r].same_spec(
                    T::zero_spec(),
                ) {
                    Some(red.v[r])
                } else {
                    None
                }
            },
    )
}

/// One more column is factored, if it has a pivot that is not zero.
pub open spec fn next_stage<T: Scalar>(
    mat: CsMat<T>,
    col: int,
    stability: T,
    counts: Seq<usize>,
    s: Stage<T>,
) -> Option<Stage<T>> {
    let c = s.lower.len() as int;
    let red = reduced(mat, col, s.lower, s.orig2new);
    match pivot_place(red.v, red.list, red.lo, stability, counts) {
        None => None,
        Some(i) => {
            let p = red.list[i] as int;
            if red.v[p].same_spec(T::zero_spec()) {
                None
            } else {
                Some(
                    Stage {
                        lower: s.lower.push(pivot_column(red.v, red.list, red.lo, i)),
                        upper: s.upper.push(upper_items(red, s.new2orig, c, red.v[p])),
                        orig2new: swap_at(s.orig2new, s.new2orig[c] as int, p),
                        new2orig: swap_at(s.new2orig, c, s.orig2new[p] as int),
                        swaps: s.swaps.push(s.orig2new[p]),
                    },
                )
            }
        },
    }
}

/// What elimination makes of the first `k` chosen columns; none where it comes to a column without
/// a pivot.
pub open spec fn elimination<T: Scalar>(
    mat: CsMat<T>,
    cols: Seq<usize>,
    stability: T,
    k: int,
) -> Option<Stage<T>>
    decreases k,
{
    if k <= 0 {
        Some(
            Stage {
                lower: Seq::empty(),
                upper: Seq::empty(),
                orig2new: counting(mat.nrows as nat),
                new2orig: counting(mat.nrows as nat),
                swaps: Seq::empty(),
            },
        )
    } else {
        match elimination(mat, cols, stability, k - 1) {
            None => None,
            Some(s) => next_stage(
                mat,
                cols[k - 1] as int,
                stability,
                row_counts(mat, cols),
                s,
            ),
        }
    }
}

proof fn none_stays<T: Scalar>(mat: CsMat<T>, cols: Seq<usize>, stability: T, k: int, n: int)
    requires
        k <= n,
        elimination(mat, cols, stability, k) is None,
    ensures
        elimination(mat, cols, stability, n) is None,
    decreases n - k,
{
    if k < n {
        assert(elimination(mat, cols, stability, k + 1) is None) by {
            if k < 0 {
                assert(elimination(mat, cols, stability, k) is Some);
            }
        }
        none_stays(mat, cols, stability, k + 1, n);
    }
}

/// The pivot is in one place only.
proof fn pivot_is_unique<T: Scalar>(
    v: Seq<T>,
    list: Seq<usize>,
    lo: int,
    stability: T,
    counts: Seq<usize>,
)
    ensures
        forall|i: int| #[trigger]
            best_pivot(v, list, lo, stability, counts, i) ==> pivot_place(
                v,
                list,
                lo,
                stability,
                counts,
            ) == Some(i),
        no_pivot(v, list, lo, stability) ==> pivot_place(v, list, lo, stability, counts) is None,
{
    assert forall|i: int| #[trigger] best_pivot(v, list, lo, stability, counts, i) implies pivot_place(
        v,
        list,
        lo,
        stability,
        counts,
    ) == Some(i) by {
        let j = choose|j: int| best_pivot(v, list, lo, stability, counts, j);
        assert(eligible(v, list, lo, stability, i));
        assert(eligible(v, list, lo, stability, j));
    }
    if no_pivot(v, list, lo, stability) && (exists|i: int|
        best_pivot(v, list, lo, stability, counts, i)) {
        let j = choose|j: int| best_pivot(v, list, lo, stability, counts, j);
        assert(eligible(v, list, lo, stability, j));
    }
}

/// The entries of the upper factor are those of its columns.
pub open spec fn upper_holds<T: Scalar>(upper: TriMat<T>, columns: Seq<Seq<Option<T>>>, n: int) -> bool {
    forall|k: int, c: int|
        0 <= k < n && 0 <= c < columns.len() ==> #[trigger] upper.stores(k, c) == (columns[c][k]
            is Some) && (columns[c][k] matches Some(x) ==> upper.value(k, c) == x)
}

/// One more column of the upper factor.
proof fn next_upper<T: Scalar>(
    upper0: TriMat<T>,
    upper1: TriMat<T>,
    upper2: TriMat<T>,
    columns: Seq<Seq<Option<T>>>,
    red: Reduced<T>,
    orig2new: Seq<usize>,
    new2orig: Seq<usize>,
    pivot: T,
)
    requires
        inverse(orig2new, new2orig),
        red.v.len() == orig2new.len(),
        columns.len() < orig2new.len(),
        upper_holds(upper0, columns, orig2new.len() as int),
        0 <= red.lo <= red.list.len(),
        forall|p: int|
            0 <= p < red.list.len() ==> (p < red.lo <==> orig2new[#[trigger] red.list[p] as int]
                < columns.len()),
        upper_column(upper1, columns.len() as int, red.list, red.lo, orig2new, red.v),
        forall|i: int, j: int|
            j != columns.len() ==> #[trigger] upper1.stores(i, j) == upper0.stores(i, j),
        forall|i: int, j: int|
            j != columns.len() ==> #[trigger] upper1.value(i, j) == upper0.value(i, j),
        forall|i: int, j: int| #[trigger]
            upper2.stores(i, j) == (upper1.stores(i, j) || (i == columns.len() && j
                == columns.len())),
        forall|i: int, j: int| #[trigger]
            upper2.value(i, j) == if i == columns.len() && j == columns.len() {
                pivot
            } else {
                upper1.value(i, j)
            },
    ensures
        upper_holds(
            upper2,
            columns.push(upper_items(red, new2orig, columns.len() as int, pivot)),
            orig2new.len() as int,
        ),
{
    let c = columns.len() as int;
    let n = orig2new.len() as int;
    let items = upper_items(red, new2orig, c, pivot);
    let all = columns.push(items);
    assert forall|k: int, j: int| 0 <= k < n && 0 <= j < all.len() implies #[trigger] upper2.stores(
        k,
        j,
    ) == (all[j][k] is Some) && (all[j][k] matches Some(x) ==> upper2.value(k, j) == x) by {
        if j < c {
            assert(all[j] == columns[j]);
            assert(upper0.stores(k, j) == (columns[j][k] is Some));
            assert(upper1.stores(k, j) == upper0.stores(k, j));
        } else {
            let r = new2orig[k] as int;
            assert(orig2new[r] == k);
            assert(upper1.stores(orig2new[r] as int, c) == (holds(red.list, 0, red.lo, r)
                && !red.v[r].same_spec(T::zero_spec())));
            listed_side(red.list, red.lo, orig2new, c, r);
        }
    }
}

/// The factors `L` and `U` of chosen columns of a matrix, the rows of which were reordered.
#[derive(Clone, Debug)]
pub struct LUFactors<T> {
    pub lower: CsMat<T>,
    pub lower_transp_csc: CsMat<T>,
    pub upper: CsMat<T>,
    pub upper_transp_csc: CsMat<T>,
    pub orig2new_row: Vec<usize>,
    pub new2orig_row: Vec<usize>,
    pub swaps: Vec<usize>,
}

/// A square matrix by columns.
pub open spec fn square<T: Scalar>(m: CsMat<T>, n: int) -> bool {
    m.wf() && m.storage == Storage::Csc && m.nrows == n && m.ncols == n
}

/// A square matrix with a full diagonal and nothing above it.
pub open spec fn is_lower<T: Scalar>(m: CsMat<T>, n: int) -> bool {
    &&& square(m, n)
    &&& forall|c: int, r: int| 0 <= c < n && #[trigger] m.line_has(c, r) ==> c <= r
    &&& forall|c: int| 0 <= c < n ==> #[trigger] m.line_has(c, c)
}

/// A square matrix with a full diagonal and nothing below it.
pub open spec fn is_upper<T: Scalar>(m: CsMat<T>, n: int) -> bool {
    &&& square(m, n)
    &&& forall|c: int, r: int| 0 <= c < n && #[trigger] m.line_has(c, r) ==> r <= c
    &&& forall|c: int| 0 <= c < n ==> #[trigger] m.line_has(c, c)
}

pub open spec fn transposes<T: Scalar>(a: CsMat<T>, b: CsMat<T>, n: int) -> bool {
    forall|r: int, c: int|
        0 <= r < n && 0 <= c < n ==> #[trigger] a.line(c, r) == b.line(r, c) && a.line_has(c, r)
            == b.line_has(r, c)
}

/// Every stored number is finite.
pub open spec fn all_finite<T: Scalar>(m: CsMat<T>) -> bool {
    forall|p: int| 0 <= p < m.data@.len() ==> (#[trigger] m.data@[p]).finite()
}

/// How many of the chosen columns have an entry in each row.
pub open spec fn row_counts<T: Scalar>(mat: CsMat<T>, cols: Seq<usize>) -> Seq<usize> {
    Seq::new(mat.nrows as nat, |r: int| elt_count(mat, cols, cols.len() as int, r) as usize)
}

/// The column that elimination comes to when `c` columns are done.
pub open spec fn column_left<T: Scalar>(
    mat: CsMat<T>,
    cols: Seq<usize>,
    stability: T,
    c: int,
) -> Reduced<T> {
    let s = elimination(mat, cols, stability, c)->0;
    reduced(mat, cols[c] as int, s.lower, s.orig2new)
}

/// Row `c` of the factors is the row that the pivot of column `c` was found in.
pub open spec fn pivot_named<T: Scalar>(
    mat: CsMat<T>,
    cols: Seq<usize>,
    stability: T,
    new2orig: Seq<usize>,
    c: int,
) -> bool {
    let red = column_left(mat, cols, stability, c);
    &&& below(red.list, mat.nrows as int)
    &&& 0 <= red.lo <= red.list.len()
    &&& pivot_place(red.v, red.list, red.lo, stability, row_counts(mat, cols)) matches Some(i)
        && red.lo <= i < red.list.len() && red.list[i] == new2orig[c]
}

impl<T: Scalar> LUFactors<T> {
    /// The number of rows.
    pub open spec fn dim(self) -> int {
        self.orig2new_row@.len() as int
    }

    pub open spec fn wf(self) -> bool {
        let n = self.dim();
        &&& is_lower(self.lower, n)
        &&& forall|c: int| 0 <= c < n ==> #[trigger] self.lower.line(c, c) == T::one_spec()
        &&& is_upper(self.lower_transp_csc, n)
        &&& transposes(self.lower, self.lower_transp_csc, n)
        &&& is_upper(self.upper, n)
        &&& forall|c: int|
            0 <= c < n ==> !(#[trigger] self.upper.line(c, c)).same_spec(T::zero_spec())
        &&& is_lower(self.upper_transp_csc, n)
        &&& transposes(self.upper, self.upper_transp_csc, n)
        &&& inverse(self.orig2new_row@, self.new2orig_row@)
        &&& self.swaps@.len() == n
        &&& below(self.swaps@, n)
        &&& forall|i: int| 0 <= i < n ==> i <= #[trigger] self.swaps@[i]
        &&& self.new2orig_row@ == swapped(self.swaps@, counting(n as nat))
    }

    /// The terms of row `r` and column `c` of the product, with the rows in their first order.
    pub open spec fn terms(self, r: int, c: int) -> spec_fn(int) -> real {
        |k: int|
            self.lower.line(k, self.orig2new_row@[r] as int).val() * self.upper.line(c, k).val()
    }

    /// Where all numbers are finite and were computed exactly, the product of the factors is
    /// the matrix of the chosen columns.
    pub open spec fn multiplies_to(self, mat: CsMat<T>, cols: Seq<usize>) -> bool {
        exact::<T>() && all_finite(self.lower) && all_finite(self.upper) ==> forall|r: int, c: int|
            0 <= r < mat.nrows && 0 <= c < cols.len() ==> (#[trigger] mat.line(
                cols[c] as int,
                r,
            )).val() == sum(self.terms(r, c), cols.len())
    }

    /// The factors are those that elimination ended with.
    pub open spec fn made_of(self, s: Stage<T>) -> bool {
        &&& self.orig2new_row@ == s.orig2new
        &&& self.new2orig_row@ == s.new2orig
        &&& self.swaps@ == s.swaps
        &&& forall|k: int, r: int|
            0 <= k < self.dim() && 0 <= r < self.dim() ==> #[trigger] self.lower.line(
                k,
                self.orig2new_row@[r] as int,
            ) == s.lower[k].cell(r) && self.lower.line_has(k, self.orig2new_row@[r] as int)
                == s.lower[k].stores(r)
        &&& forall|k: int, c: int|
            0 <= k < self.dim() && 0 <= c < self.dim() ==> #[trigger] self.upper.line_has(c, k) == (
            s.upper[c][k] is Some) && self.upper.line(c, k) == match s.upper[c][k] {
                Some(x) => x,
                None => T::zero_spec(),
            }
    }

    /// The factors come from elimination with the pivots that the rule names.
    pub open spec fn eliminated_from(self, mat: CsMat<T>, cols: Seq<usize>, stability: T) -> bool {
        &&& elimination(mat, cols, stability, cols.len() as int) matches Some(s) && self.made_of(s)
        &&& forall|c: int|
            0 <= c < cols.len() ==> #[trigger] pivot_named(
                mat,
                cols,
                stability,
                self.new2orig_row@,
                c,
            )
    }

    /// The factors hold the given columns.
    pub open spec fn holds_columns(self, lower: Seq<Col<T>>, upper: TriMat<T>) -> bool {
        &&& forall|k: int, r: int|
            0 <= k < self.dim() && 0 <= r < self.dim() ==> #[trigger] self.lower.line(
                k,
                self.orig2new_row@[r] as int,
            ) == lower[k].cell(r) && self.lower.line_has(k, self.orig2new_row@[r] as int)
                == lower[k].stores(r)
        &&& forall|k: int, c: int|
            0 <= k < self.dim() && 0 <= c < self.dim() ==> #[trigger] self.upper.line(c, k)
                == upper.value(k, c) && self.upper.line_has(c, k) == upper.stores(k, c)
    }

    /// The number of stored entries.
    pub fn nnz(&self) -> (r: usize)
        requires
            self.lower.indices@.len() + self.upper.indices@.len() <= usize::MAX,
        ensures
            r == self.lower.indices@.len() + self.upper.indices@.len(),
    {
        self.lower.nnz() + self.upper.nnz()
    }

    /// Half the number of stored entries.
    pub fn half_nnz(&self) -> (r: usize)
        ensures
            r == (self.lower.indices@.len() + self.upper.indices@.len()) / 2,
    {
        let a: usize = self.lower.nnz();
        let b: usize = self.upper.nnz();
        a / 2 + b / 2 + (a % 2 + b % 2) / 2
    }
}

/// Elimination came to a column without an acceptable pivot.
pub open spec fn stuck_at<T: Scalar>(
    mat: CsMat<T>,
    cols: Seq<usize>,
    stability: T,
    lower: Seq<Col<T>>,
    upper: TriMat<T>,
    orig2new: Seq<usize>,
    new2orig: Seq<usize>,
    v: Seq<T>,
    list: Seq<usize>,
    lo: int,
) -> bool {
    let counts = row_counts(mat, cols);
    &&& lower.len() < cols.len()
    &&& factored(mat, cols, stability, counts, lower, upper, orig2new, new2orig)
    &&& remainder(mat, cols[lower.len() as int] as int, lower, orig2new, new2orig, v, list, lo)
    &&& no_pivot(v, list, lo, stability) || exists|i: int| #[trigger]
        best_pivot(v, list, lo, stability, counts, i) && v[list[i] as int].same_spec(T::zero_spec())
}

/// All numbers that elimination comes to are finite.
pub open spec fn finite_elimination<T: Scalar>(
    mat: CsMat<T>,
    cols: Seq<usize>,
    stability: T,
) -> bool {
    forall|k: int|
        0 <= k <= cols.len() ==> match #[trigger] elimination(mat, cols, stability, k) {
            Some(s) => finite_stage(s) && (k < cols.len() ==> finite_reduced(
                reduced(mat, cols[k] as int, s.lower, s.orig2new),
                stability,
            )),
            None => true,
        }
}

/// The numbers in the columns that are factored are finite.
pub open spec fn finite_stage<T: Scalar>(s: Stage<T>) -> bool {
    &&& forall|k: int, r: int|
        0 <= k < s.lower.len() && s.lower[k].stores(r) ==> (#[trigger] s.lower[k].cell(r)).finite()
    &&& forall|c: int, k: int|
        0 <= k <= c < s.upper.len() ==> (#[trigger] s.upper[c][k] matches Some(x) ==> x.finite())
}

/// The numbers in a reduced column, and what the choice of a pivot compares them with, are finite.
pub open spec fn finite_reduced<T: Scalar>(red: Reduced<T>, stability: T) -> bool {
    &&& forall|r: int| 0 <= r < red.v.len() ==> (#[trigger] red.v[r]).absolute_spec().finite()
    &&& forall|p: int|
        red.lo <= p < red.list.len() ==> red.v[#[trigger] red.list[p] as int].absolute_spec().finite()
    &&& stability.times_spec(
        largest(red.v, red.list, red.lo, red.list.len() as int),
    ).finite()
}

/// One of the chosen columns is a combination of those before.
pub open spec fn dependent<T: Scalar>(mat: CsMat<T>, cols: Seq<usize>) -> bool {
    exists|x: Seq<real>| x.len() < cols.len() && #[trigger]
        mixes_to(mat, cols, x, cols[x.len() as int] as int)
}

/// The threshold is one under which the largest value can be a pivot, and zero cannot.
pub open spec fn fair_threshold<T: Scalar>(stability: T) -> bool {
    stability.finite() && stability.val() > 0 as real && stability.val() <= 1 as real
}

/// Elimination comes to a column without a pivot. Where it is exact, the columns are dependent.
pub open spec fn stuck<T: Scalar>(mat: CsMat<T>, cols: Seq<usize>, stability: T) -> bool {
    &&& elimination(mat, cols, stability, cols.len() as int) is None
    &&& exact::<T>() && fair_threshold(stability) && finite_elimination(mat, cols, stability)
        ==> dependent(mat, cols)
}

/// Every chosen column has one entry, and no two of them lie in one row.
pub open spec fn single_entries<T: Scalar>(mat: CsMat<T>, cols: Seq<usize>) -> bool {
    &&& forall|k: int|
        0 <= k < cols.len() ==> mat.lo(#[trigger] cols[k] as int) + 1 == mat.hi(cols[k] as int)
    &&& forall|j: int, k: int|
        0 <= j < k < cols.len() ==> mat.indices@[mat.lo(#[trigger] cols[j] as int)]
            != mat.indices@[mat.lo(#[trigger] cols[k] as int)]
}

/// The first entry of each of the first `n` chosen columns can be a pivot.
pub open spec fn usable_entries<T: Scalar>(
    mat: CsMat<T>,
    cols: Seq<usize>,
    stability: T,
    n: int,
) -> bool {
    forall|k: int|
        0 <= k < n ==> acceptable_alone(
            mat.data@[mat.lo(#[trigger] cols[k] as int)],
            stability,
        )
}

/// The columns as one matrix, with the rows in their new order.
fn lower_triplets<T: Scalar>(
    lower_cols: &Vec<Col<T>>,
    orig2new: &Vec<usize>,
    Ghost(new2orig): Ghost<Seq<usize>>,
) -> (r: TriMat<T>)
    requires
        inverse(orig2new@, new2orig),
        lower_cols@.len() == orig2new@.len(),
        forall|k: int|
            0 <= k < lower_cols@.len() ==> (#[trigger] lower_cols@[k]).wf(orig2new@.len() as int),
    ensures
        r.wf(),
        r.nrows == orig2new@.len(),
        r.ncols == orig2new@.len(),
        forall|i: int, k: int| #[trigger]
            r.stores(i, k) ==> 0 <= i < orig2new@.len() && 0 <= k < orig2new@.len(),
        forall|k: int, i: int|
            0 <= k < orig2new@.len() && 0 <= i < orig2new@.len() ==> #[trigger] r.stores(
                orig2new@[i] as int,
                k,
            ) == lower_cols@[k].stores(i),
        forall|k: int, i: int|
            0 <= k < orig2new@.len() && 0 <= i < orig2new@.len() ==> #[trigger] r.value(
                orig2new@[i] as int,
                k,
            ) == lower_cols@[k].cell(i),
{
    let n: usize = orig2new.len();
    let mut lower: TriMat<T> = TriMat::new(n, n);
    let mut c: usize = 0;
    while c < n
        invariant
            n == orig2new@.len(),
            n == lower_cols@.len(),
            inverse(orig2new@, new2orig),
            forall|k: int| 0 <= k < n ==> (#[trigger] lower_cols@[k]).wf(n as int),
            c <= n,
            lower.wf(),
            lower.nrows == n,
            lower.ncols == n,
            forall|i: int, k: int| #[trigger] lower.stores(i, k) ==> 0 <= i < n && 0 <= k < c,
            forall|k: int, i: int|
                0 <= k < c && 0 <= i < n ==> #[trigger] lower.stores(orig2new@[i] as int, k)
                    == lower_cols@[k].stores(i),
            forall|k: int, i: int|
                0 <= k < c && 0 <= i < n ==> #[trigger] lower.value(orig2new@[i] as int, k)
                    == lower_cols@[k].cell(i),
        decreases n - c,
    {
        let ghost before = lower;
        let col = &lower_cols[c];
        let ghost idx = col.rows@;
        let m: usize = col.rows.len();
        let mut p: usize = 0;
        while p < m
            invariant
                n == orig2new@.len(),
                c < n,
                inverse(orig2new@, new2orig),
                col.wf(n as int),
                idx == col.rows@,
                m == idx.len(),
                p <= m,
                lower.wf(),
                lower.nrows == n,
                lower.ncols == n,
                forall|i: int, k: int|
                    k != c ==> #[trigger] lower.stores(i, k) == before.stores(i, k),
                forall|i: int, k: int|
                    k != c ==> #[trigger] lower.value(i, k) == before.value(i, k),
                forall|i: int| #[trigger] lower.stores(i, c as int) ==> 0 <= i < n,
                forall|i: int|
                    0 <= i < n ==> #[trigger] lower.stores(orig2new@[i] as int, c as int) == holds(
                        idx,
                        0,
                        p as int,
                        i,
                    ),
                forall|i: int|
                    0 <= i < n && holds(idx, 0, p as int, i) ==> #[trigger] lower.value(
                        orig2new@[i] as int,
                        c as int,
                    ) == col.cell(i),
            decreases m - p,
        {
            let orig_r: usize = col.rows[p];
            let ghost was = lower;
            proof {
                at_place(idx, col.vals@, 0, m as int, p as int);
                one_more(idx, 0, m as int, p as int);
                assert(!lower.stores(orig2new@[orig_r as int] as int, c as int));
            }
            lower.add_triplet(orig2new[orig_r], c, col.vals[p]);
            proof {
                assert forall|i: int| 0 <= i < n && i != orig_r implies orig2new@[i]
                    != orig2new@[orig_r as int] by {
                    assert(new2orig[orig2new@[i] as int] == i);
                    assert(new2orig[orig2new@[orig_r as int] as int] == orig_r);
                }
                assert forall|i: int| 0 <= i < n implies #[trigger] lower.stores(
                    orig2new@[i] as int,
                    c as int,
                ) == holds(idx, 0, p + 1, i) by {
                    assert(was.stores(orig2new@[i] as int, c as int) == holds(idx, 0, p as int, i));
                }
                assert forall|i: int| 0 <= i < n && holds(idx, 0, p + 1, i) implies
                    #[trigger] lower.value(orig2new@[i] as int, c as int) == col.cell(i) by {
                    if i != orig_r {
                        assert(was.value(orig2new@[i] as int, c as int) == col.cell(i));
                    }
                }
            }
            p += 1;
        }
        proof {
            assert forall|k: int, i: int| 0 <= k < c + 1 && 0 <= i < n implies
                #[trigger] lower.stores(orig2new@[i] as int, k) == lower_cols@[k].stores(i) by {
                if k < c {
                    assert(before.stores(orig2new@[i] as int, k) == lower_cols@[k].stores(i));
                }
            }
            assert forall|k: int, i: int| 0 <= k < c + 1 && 0 <= i < n implies
                #[trigger] lower.value(orig2new@[i] as int, k) == lower_cols@[k].cell(i) by {
                if k < c {
                    assert(before.value(orig2new@[i] as int, k) == lower_cols@[k].cell(i));
                } else {
                    assert(lower.stores(orig2new@[i] as int, k) == lower_cols@[k].stores(i));
                }
            }
            assert forall|i: int, k: int| #[trigger] lower.stores(i, k) implies 0 <= i < n && 0 <= k
                < c + 1 by {
                if k != c {
                    assert(before.stores(i, k));
                }
            }
        }
        c += 1;
    }
    lower
}

/// The shape of a matrix that was made from entries.
proof fn csc_shape<T: Scalar>(m: CsMat<T>, t: TriMat<T>, transposed: CsMat<T>, n: int)
    requires
        square(m, n),
        square(transposed, n),
        forall|i: int, j: int| 0 <= j < n ==> #[trigger] m.line_has(j, i) == t.stores(i, j),
        forall|i: int, j: int| 0 <= j < n ==> #[trigger] m.line(j, i) == t.value(i, j),
        forall|i: int, j: int| 0 <= j < n ==> #[trigger] transposed.line_has(j, i) == t.stores(j, i),
        forall|i: int, j: int| 0 <= j < n ==> #[trigger] transposed.line(j, i) == t.value(j, i),
        forall|i: int, j: int| #[trigger] t.stores(i, j) ==> 0 <= i < n && 0 <= j < n,
        forall|k: int| 0 <= k < n ==> #[trigger] t.stores(k, k),
    ensures
        transposes(m, transposed, n),
        (forall|i: int, j: int| #[trigger] t.stores(i, j) ==> j <= i) ==> is_lower(m, n) && is_upper(
            transposed,
            n,
        ),
        (forall|i: int, j: int| #[trigger] t.stores(i, j) ==> i <= j) ==> is_upper(m, n) && is_lower(
            transposed,
            n,
        ),
{
    assert forall|c: int| 0 <= c < n implies #[trigger] m.line_has(c, c) by {
        assert(t.stores(c, c));
    }
    assert forall|c: int| 0 <= c < n implies #[trigger] transposed.line_has(c, c) by {
        assert(t.stores(c, c));
    }
    assert forall|r: int, c: int| 0 <= r < n && 0 <= c < n implies #[trigger] m.line(c, r)
        == transposed.line(r, c) && m.line_has(c, r) == transposed.line_has(r, c) by {
        assert(transposed.line(r, c) == t.value(r, c));
        assert(transposed.line_has(r, c) == t.stores(r, c));
    }
}

/// Finite data gives finite values.
pub proof fn finite_line<T: Scalar>(m: CsMat<T>, c: int, r: int)
    requires
        m.wf(),
        0 <= c < m.outer(),
        all_finite(m),
        exact::<T>(),
    ensures
        m.line(c, r).finite(),
{
    m.line_wf(c);
    if m.line_has(c, r) {
        let p = place(m.indices@, m.lo(c), m.hi(c), r);
        assert(m.data@[p].finite());
    }
}

/// What elimination left is what the factors multiply to.
proof fn multiplied<T: Scalar>(
    lu: LUFactors<T>,
    mat: CsMat<T>,
    cols: Seq<usize>,
    stability: T,
    counts: Seq<usize>,
    lower: Seq<Col<T>>,
    upper: TriMat<T>,
)
    requires
        lu.wf(),
        lu.dim() == cols.len(),
        mat.nrows == cols.len(),
        lower.len() == cols.len(),
        lu.holds_columns(lower, upper),
        factored(
            mat,
            cols,
            stability,
            counts,
            lower,
            upper,
            lu.orig2new_row@,
            lu.new2orig_row@,
        ),
    ensures
        lu.multiplies_to(mat, cols),
{
    let n = cols.len();
    let o = lu.orig2new_row@;
    if exact::<T>() && all_finite(lu.lower) && all_finite(lu.upper) {
        assert forall|r: int, c: int| 0 <= r < mat.nrows && 0 <= c < n implies (#[trigger] mat.line(
            cols[c] as int,
            r,
        )).val() == sum(lu.terms(r, c), n) by {
            let f = factor_terms(lower, upper, r, c);
            let g = lu.terms(r, c);
            assert(column_product(mat, cols[c] as int, lower, upper, c));
            assert forall|i: int| lower[c].stores(i) implies (#[trigger] lower[c].cell(i)).finite() by {
                let p = place(lower[c].rows@, 0, lower[c].rows@.len() as int, i);
                assert(lower[c].wf(n as int));
                assert(lower[c].rows@[p] == i);
                assert(lu.lower.line(c, o[i] as int) == lower[c].cell(i));
                finite_line(lu.lower, c, o[i] as int);
            }
            assert forall|k: int| 0 <= k <= c implies (#[trigger] upper.value(k, c)).finite() by {
                assert(lu.upper.line(c, k) == upper.value(k, c));
                finite_line(lu.upper, c, k);
            }
            assert forall|k: int| 0 <= k < n implies #[trigger] f(k) == g(k) by {
                assert(lu.lower.line(k, o[r] as int) == lower[k].cell(r));
                assert(lu.upper.line(c, k) == upper.value(k, c));
            }
            sum_same(f, g, n);
            assert forall|k: int| c + 1 <= k < n implies #[trigger] f(k) == 0 as real by {
                assert(!upper.stores(k, c));
                times_zero(lower[k].cell(r).val());
            }
            sum_longer(f, (c + 1) as nat, n);
        }
    }
}

/// Puts the factors together.
fn assemble<T: Scalar>(
    Ghost(mat): Ghost<CsMat<T>>,
    Ghost(cols): Ghost<Seq<usize>>,
    Ghost(stability_coeff): Ghost<T>,
    lower_cols: Vec<Col<T>>,
    upper: TriMat<T>,
    orig2new_row: Vec<usize>,
    new2orig_row: Vec<usize>,
    swaps: Vec<usize>,
    Ghost(stage): Ghost<Stage<T>>,
) -> (r: LUFactors<T>)
    requires
        elimination(mat, cols, stability_coeff, cols.len() as int) == Some(stage),
        forall|c: int|
            0 <= c < cols.len() ==> #[trigger] pivot_named(
                mat,
                cols,
                stability_coeff,
                new2orig_row@,
                c,
            ),
        stage.lower == contents(lower_cols@),
        stage.upper.len() == cols.len(),
        upper_holds(upper, stage.upper, cols.len() as int),
        stage.orig2new == orig2new_row@,
        stage.new2orig == new2orig_row@,
        stage.swaps == swaps@,
        forall|i: int| 0 <= i < cols.len() ==> i <= #[trigger] swaps@[i],
        cols.len() < usize::MAX,
        mat.nrows == cols.len(),
        lower_cols@.len() == cols.len(),
        factored(
            mat,
            cols,
            stability_coeff,
            row_counts(mat, cols),
            lower_cols@,
            upper,
            orig2new_row@,
            new2orig_row@,
        ),
        swaps@.len() == cols.len(),
        below(swaps@, cols.len() as int),
        new2orig_row@ == swapped(swaps@, counting(cols.len())),
    ensures
        r.wf(),
        r.dim() == cols.len(),
        r.multiplies_to(mat, cols),
        r.eliminated_from(mat, cols, stability_coeff),
        r.new2orig_row@ == new2orig_row@,
{
    let ghost n = cols.len() as int;
    let lower = lower_triplets(&lower_cols, &orig2new_row, Ghost(new2orig_row@));
    let r = LUFactors {
        lower: lower.to_csc(),
        lower_transp_csc: lower.transposed().to_csc(),
        upper: upper.to_csc(),
        upper_transp_csc: upper.transposed().to_csc(),
        orig2new_row,
        new2orig_row,
        swaps,
    };
    proof {
        let o = orig2new_row@;
        let o2 = new2orig_row@;
        assert forall|k: int| 0 <= k < n implies #[trigger] lower.stores(k, k) && lower.value(k, k)
            == T::one_spec() by {
            let i = o2[k] as int;
            assert(o[i] == k);
            assert(lower.stores(o[i] as int, k) == lower_cols@[k].stores(i));
            assert(lower.value(o[i] as int, k) == lower_cols@[k].cell(i));
            assert(lower_cols@[k].stores(i));
        }
        assert forall|i: int, k: int| #[trigger] lower.stores(i, k) implies k <= i by {
            let j = o2[i] as int;
            assert(o[j] == i);
            assert(lower.stores(o[j] as int, k) == lower_cols@[k].stores(j));
        }
        csc_shape(r.lower, lower, r.lower_transp_csc, n);
        csc_shape(r.upper, upper, r.upper_transp_csc, n);
        assert forall|c: int| 0 <= c < n implies #[trigger] r.lower.line(c, c) == T::one_spec() by {
            assert(lower.stores(c, c));
        }
        assert forall|c: int| 0 <= c < n implies !(#[trigger] r.upper.line(c, c)).same_spec(
            T::zero_spec(),
        ) by {
            assert(column_pivoted(
                lower_cols@,
                upper,
                o,
                o2,
                c,
                stability_coeff,
                row_counts(mat, cols),
            ));
        }
        assert(r.holds_columns(lower_cols@, upper)) by {
            assert forall|k: int, i: int| 0 <= k < n && 0 <= i < n implies #[trigger] r.lower.line(
                k,
                o[i] as int,
            ) == lower_cols@[k].cell(i) && r.lower.line_has(k, o[i] as int)
                == lower_cols@[k].stores(i) by {
                assert(r.lower.line_has(k, o[i] as int) == lower.stores(o[i] as int, k));
                assert(lower.stores(o[i] as int, k) == lower_cols@[k].stores(i));
                assert(lower.value(o[i] as int, k) == lower_cols@[k].cell(i));
            }
            assert forall|k: int, c: int| 0 <= k < n && 0 <= c < n implies #[trigger] r.upper.line(
                c,
                k,
            ) == upper.value(k, c) && r.upper.line_has(c, k) == upper.stores(k, c) by {
                assert(r.upper.line_has(c, k) == upper.stores(k, c));
            }
        }
        assert(r.made_of(stage)) by {
            assert forall|k: int, i: int| 0 <= k < n && 0 <= i < n implies #[trigger] r.lower.line(
                k,
                o[i] as int,
            ) == stage.lower[k].cell(i) && r.lower.line_has(k, o[i] as int)
                == stage.lower[k].stores(i) by {
                assert(stage.lower[k] == lower_cols@[k]@);
                assert(r.lower.line(k, o[i] as int) == lower_cols@[k].cell(i));
            }
            assert forall|k: int, c: int| 0 <= k < n && 0 <= c < n implies #[trigger] r.upper.line_has(
                c,
                k,
            ) == (stage.upper[c][k] is Some) && r.upper.line(c, k) == match stage.upper[c][k] {
                Some(x) => x,
                None => T::zero_spec(),
            } by {
                assert(r.upper.line(c, k) == upper.value(k, c));
                assert(upper.stores(k, c) == (stage.upper[c][k] is Some));
            }
        }
        multiplied(
            r,
            mat,
            cols,
            stability_coeff,
            row_counts(mat, cols),
            lower_cols@,
            upper,
        );
    }
    r
}

/// Factors the chosen columns of a matrix, one after the other. In every column the pivot is,
/// among the values that are at least `stability_coeff` times as large as the largest one, one
/// in a row with the fewest entries. A column in which no value can be a pivot gives an error. Zero
/// is never a pivot, whatever the threshold: a column of zeros gives the error too.
pub fn lu_factorize<T: Scalar>(
    mat: &CsMat<T>,
    cols: &[usize],
    stability_coeff: T,
    scratch: &mut ScratchSpace<T>,
) -> (r: Result<LUFactors<T>, Error>)
    requires
        mat.wf(),
        mat.storage == Storage::Csc,
        mat.nrows == cols@.len(),
        below(cols@, mat.ncols as int),
        cols@.len() < usize::MAX,
        old(scratch).wf(),
    ensures
        final(scratch).wf(),
        final(scratch).fits(cols@.len() as int),
        match r {
            Ok(lu) => {
                &&& lu.wf()
                &&& lu.dim() == cols@.len()
                &&& lu.multiplies_to(*mat, cols@)
                &&& lu.eliminated_from(*mat, cols@, stability_coeff)
            },
            Err(e) => e == Error::SingularMatrix && stuck(*mat, cols@, stability_coeff),
        },
        single_entries(*mat, cols@) ==> {
            &&& r is Ok == usable_entries(*mat, cols@, stability_coeff, cols@.len() as int)
            &&& r is Ok ==> forall|k: int|
                0 <= k < cols@.len() ==> #[trigger] r->Ok_0.new2orig_row@[k]
                    == mat.indices@[mat.lo(cols@[k] as int)]
        },
{
    let n: usize = cols.len();
    let counts = count_rows(mat, cols);
    proof {
        assert(counts@ =~= row_counts(*mat, cols@));
    }
    scratch.rhs.clear_and_resize(n);
    scratch.mark_nonzero.clear_and_resize(n);
    let mut lower_cols: Vec<Col<T>> = Vec::with_capacity(n);
    let mut upper: TriMat<T> = TriMat::new(n, n);
    let mut new2orig_row: Vec<usize> = numbers(n);
    let mut orig2new_row: Vec<usize> = copied(&new2orig_row);
    let mut swaps: Vec<usize> = Vec::with_capacity(n);
    let ghost single = single_entries(*mat, cols@);
    let ghost mut stage: Stage<T> = elimination(*mat, cols@, stability_coeff, 0)->0;
    let mut i_col: usize = 0;
    proof {
        assert(contents(lower_cols@) =~= Seq::empty());
        assert(swaps@ =~= Seq::empty());
    }
    while i_col < n
        invariant
            n == cols@.len(),
            n == mat.nrows,
            n < usize::MAX,
            i_col <= n,
            mat.wf(),
            mat.storage == Storage::Csc,
            below(cols@, mat.ncols as int),
            counts@ == row_counts(*mat, cols@),
            counts@.len() == n,
            scratch.wf(),
            scratch.fits(n as int),
            elimination(*mat, cols@, stability_coeff, i_col as int) == Some(stage),
            forall|c: int|
                0 <= c < i_col ==> #[trigger] pivot_named(
                    *mat,
                    cols@,
                    stability_coeff,
                    new2orig_row@,
                    c,
                ),
            stage.lower == contents(lower_cols@),
            stage.upper.len() == i_col,
            upper_holds(upper, stage.upper, n as int),
            stage.orig2new == orig2new_row@,
            stage.new2orig == new2orig_row@,
            stage.swaps == swaps@,
            forall|i: int| 0 <= i < i_col ==> i <= #[trigger] swaps@[i],
            lower_cols@.len() == i_col,
            swaps@.len() == i_col,
            below(swaps@, n as int),
            new2orig_row@ == swapped(swaps@, counting(n as nat)),
            factored(
                *mat,
                cols@,
                stability_coeff,
                counts@,
                lower_cols@,
                upper,
                orig2new_row@,
                new2orig_row@,
            ),
            single == single_entries(*mat, cols@),
            single ==> usable_entries(*mat, cols@, stability_coeff, i_col as int),
            single ==> forall|k: int|
                0 <= k < i_col ==> #[trigger] new2orig_row@[k]
                    == mat.indices@[mat.lo(cols@[k] as int)],
        decreases n - i_col,
    {
        let ghost upper0 = upper;
        let ghost o0 = orig2new_row@;
        let ghost n0 = new2orig_row@;
        let col: usize = cols[i_col];
        proof {
            assert forall|r: int| !#[trigger] upper.stores(r, i_col as int) by {}
            if single {
                single_apart(*mat, cols@, i_col as int, o0, n0);
            }
        }
        let start: usize = reduce_column(
            mat,
            col,
            scratch,
            &lower_cols,
            &orig2new_row,
            &mut upper,
            Ghost(new2orig_row@),
        );
        let ghost v = scratch.rhs.values@;
        let ghost list = scratch.rhs.nonzero@;
        let ghost red = reduced(*mat, col as int, contents(lower_cols@), orig2new_row@);
        proof {
            pivot_is_unique(v, list, start as int, stability_coeff, counts@);
            if single {
                single_pivot(*mat, cols@, stability_coeff, i_col as int, v, list);
            }
        }
        let pivot_i: usize = match choose_pivot_place(
            &scratch.rhs,
            start,
            stability_coeff,
            &counts,
        ) {
            Some(i) => i,
            None => {
                proof {
                    assert(stuck_at(
                        *mat,
                        cols@,
                        stability_coeff,
                        lower_cols@,
                        upper0,
                        o0,
                        n0,
                        v,
                        list,
                        start as int,
                    ));
                    stuck_here(
                        *mat,
                        cols@,
                        stability_coeff,
                        lower_cols@,
                        upper0,
                        stage,
                        v,
                        list,
                        start as int,
                    );
                }
                return Err(Error::SingularMatrix);
            },
        };
        let orig_pivot_row: usize = scratch.rhs.nonzero[pivot_i];
        let pivot_val = scratch.rhs.values[orig_pivot_row];
        if pivot_val.same(T::zero()) {
            proof {
                assert(best_pivot(
                    v,
                    list,
                    start as int,
                    stability_coeff,
                    counts@,
                    pivot_i as int,
                ));
                assert(stuck_at(
                    *mat,
                    cols@,
                    stability_coeff,
                    lower_cols@,
                    upper0,
                    o0,
                    n0,
                    v,
                    list,
                    start as int,
                ));
                stuck_here(
                    *mat,
                    cols@,
                    stability_coeff,
                    lower_cols@,
                    upper0,
                    stage,
                    v,
                    list,
                    start as int,
                );
            }
            return Err(Error::SingularMatrix);
        }
        proof {
            assert(i_col <= o0[list[pivot_i as int] as int]);
            settled_stay(o0, n0, i_col as int, orig_pivot_row as int);
        }
        let orig_row: usize = new2orig_row[i_col];
        let pivot_row: usize = orig2new_row[orig_pivot_row];
        swap_items(&mut new2orig_row, i_col, pivot_row);
        swap_items(&mut orig2new_row, orig_row, orig_pivot_row);
        let ghost swaps0 = swaps@;
        swaps.push(pivot_row);
        proof {
            assert(swaps@.drop_last() =~= swaps0);
        }
        let ghost upper1 = upper;
        proof {
            assert(pivot_named(*mat, cols@, stability_coeff, new2orig_row@, i_col as int));
            assert forall|c: int| 0 <= c < i_col implies #[trigger] pivot_named(
                *mat,
                cols@,
                stability_coeff,
                new2orig_row@,
                c,
            ) by {
                assert(pivot_named(*mat, cols@, stability_coeff, n0, c));
            }
            assert(!upper.stores(i_col as int, i_col as int)) by {
                let w = n0[i_col as int] as int;
                assert(o0[w] == i_col);
                listed_side(list, start as int, o0, i_col as int, w);
                assert(upper.stores(o0[w] as int, i_col as int) == (holds(list, 0, start as int, w)
                    && !v[w].same_spec(T::zero_spec())));
            }
        }
        upper.add_triplet(i_col, i_col, pivot_val);
        let l_col = divide(&scratch.rhs, start, pivot_i);
        proof {
            upper_settled(upper0, upper1, upper, i_col as int, list, start as int, o0, n0, v, pivot_val);
            next_factored(
                *mat,
                cols@,
                stability_coeff,
                counts@,
                lower_cols@,
                upper0,
                o0,
                n0,
                l_col,
                upper,
                v,
                list,
                start as int,
                pivot_i as int,
            );
        }
        let ghost lower0 = contents(lower_cols@);
        lower_cols.push(l_col);
        proof {
            next_upper(upper0, upper1, upper, stage.upper, red, o0, n0, pivot_val);
            assert(contents(lower_cols@) =~= lower0.push(l_col@));
            stage = next_stage(*mat, col as int, stability_coeff, counts@, stage)->0;
        }
        i_col += 1;
    }
    let lu = assemble(
        Ghost(*mat),
        Ghost(cols@),
        Ghost(stability_coeff),
        lower_cols,
        upper,
        orig2new_row,
        new2orig_row,
        swaps,
        Ghost(stage),
    );
    Ok(lu)
}

/// Elimination comes to nothing once a column has no pivot.
proof fn stuck_here<T: Scalar>(
    mat: CsMat<T>,
    cols: Seq<usize>,
    stability: T,
    lower: Seq<Col<T>>,
    upper: TriMat<T>,
    stage: Stage<T>,
    v: Seq<T>,
    list: Seq<usize>,
    lo: int,
)
    requires
        elimination(mat, cols, stability, lower.len() as int) == Some(stage),
        stage.lower == contents(lower),
        stage.upper.len() == lower.len(),
        lower.len() < cols.len(),
        cols.len() == mat.nrows,
        upper_holds(upper, stage.upper, cols.len() as int),
        (Reduced { v, list, lo }) == reduced(
            mat,
            cols[lower.len() as int] as int,
            stage.lower,
            stage.orig2new,
        ),
        next_stage(
            mat,
            cols[lower.len() as int] as int,
            stability,
            row_counts(mat, cols),
            stage,
        ) is None,
        stuck_at(
            mat,
            cols,
            stability,
            lower,
            upper,
            stage.orig2new,
            stage.new2orig,
            v,
            list,
            lo,
        ),
    ensures
        stuck(mat, cols, stability),
{
    let c = lower.len() as int;
    assert(elimination(mat, cols, stability, c + 1) is None);
    none_stays(mat, cols, stability, c + 1, cols.len() as int);
    if exact::<T>() && fair_threshold(stability) && finite_elimination(mat, cols, stability) {
        assert(finite_stage(stage));
        assert forall|k: int, r: int| 0 <= k < lower.len() && lower[k].stores(r) implies (
        #[trigger] lower[k].cell(r)).finite() by {
            assert(stage.lower[k] == lower[k]@);
            assert(stage.lower[k].stores(r));
            assert(stage.lower[k].cell(r).finite());
        }
        assert forall|k: int, j: int| 0 <= k <= j < lower.len() implies (#[trigger] upper.value(
            k,
            j,
        )).finite() by {
            assert(upper.stores(k, j) == (stage.upper[j][k] is Some));
        }
        let x = stuck_is_dependent(
            mat,
            cols,
            stability,
            lower,
            upper,
            stage.orig2new,
            stage.new2orig,
            v,
            list,
            lo,
        );
        assert(mixes_to(mat, cols, x, cols[x.len() as int] as int));
    }
}

/// A column with one entry has it in a row that is not settled.
proof fn single_apart<T: Scalar>(
    mat: CsMat<T>,
    cols: Seq<usize>,
    c: int,
    orig2new: Seq<usize>,
    new2orig: Seq<usize>,
)
    requires
        mat.wf(),
        mat.storage == Storage::Csc,
        0 <= c < cols.len(),
        below(cols, mat.ncols as int),
        single_entries(mat, cols),
        inverse(orig2new, new2orig),
        orig2new.len() == mat.nrows,
        cols.len() == mat.nrows,
        forall|k: int| 0 <= k < c ==> #[trigger] new2orig[k] == mat.indices@[mat.lo(cols[k] as int)],
    ensures
        forall|r: int| #[trigger] mat.line_has(cols[c] as int, r) ==> c <= orig2new[r],
{
    let col = cols[c] as int;
    mat.line_wf(col);
    assert forall|r: int| #[trigger] mat.line_has(col, r) implies c <= orig2new[r] by {
        let p = place(mat.indices@, mat.lo(col), mat.hi(col), r);
        assert(mat.indices@[p] == r);
        let k = orig2new[r] as int;
        if k < c {
            assert(new2orig[k] == r);
        }
    }
}

/// The entry of a column with one entry is its pivot, if it can be one.
proof fn single_pivot<T: Scalar>(
    mat: CsMat<T>,
    cols: Seq<usize>,
    stability: T,
    c: int,
    v: Seq<T>,
    list: Seq<usize>,
)
    requires
        mat.wf(),
        mat.storage == Storage::Csc,
        0 <= c < cols.len(),
        below(cols, mat.ncols as int),
        single_entries(mat, cols),
        list == mat.indices@.subrange(mat.lo(cols[c] as int), mat.hi(cols[c] as int)),
        forall|r: int| #[trigger]
            mat.line_has(cols[c] as int, r) ==> v[r] == mat.line(cols[c] as int, r),
    ensures
        list.len() == 1,
        list[0] == mat.indices@[mat.lo(cols[c] as int)],
        v[list[0] as int] == mat.data@[mat.lo(cols[c] as int)],
        acceptable_alone(v[list[0] as int], stability) <==> !no_pivot(v, list, 0, stability)
            && !v[list[0] as int].same_spec(T::zero_spec()),
{
    let col = cols[c] as int;
    mat.line_wf(col);
    let lo = mat.lo(col);
    assert(list[0] == mat.indices@[lo]);
    at_place(mat.indices@, mat.data@, lo, mat.hi(col), lo);
    assert(mat.line_has(col, mat.indices@[lo] as int));
    reveal_with_fuel(largest, 2);
    let m = v[list[0] as int].absolute_spec();
    assert(largest(v, list, 0, 1) == if T::zero_spec().less_spec(m) {
        m
    } else {
        T::zero_spec()
    });
    assert(eligible(v, list, 0, stability, 0) == stability.times_spec(
        largest(v, list, 0, 1),
    ).less_eq_spec(m));
}

/// What the new column of the upper factor holds.
proof fn upper_settled<T: Scalar>(
    upper0: TriMat<T>,
    upper1: TriMat<T>,
    upper2: TriMat<T>,
    c: int,
    list: Seq<usize>,
    lo: int,
    orig2new: Seq<usize>,
    new2orig: Seq<usize>,
    v: Seq<T>,
    pivot: T,
)
    requires
        inverse(orig2new, new2orig),
        v.len() == orig2new.len(),
        0 <= c < v.len(),
        0 <= lo <= list.len(),
        forall|p: int| 0 <= p < list.len() ==> (p < lo <==> orig2new[#[trigger] list[p] as int] < c),
        upper1.wf(),
        upper1.nrows == v.len(),
        upper_column(upper1, c, list, lo, orig2new, v),
        forall|i: int, j: int| j != c ==> #[trigger] upper1.stores(i, j) == upper0.stores(i, j),
        forall|i: int, j: int| j != c ==> #[trigger] upper1.value(i, j) == upper0.value(i, j),
        forall|i: int, j: int| #[trigger]
            upper2.stores(i, j) == (upper1.stores(i, j) || (i == c && j == c)),
        forall|i: int, j: int| #[trigger]
            upper2.value(i, j) == if i == c && j == c {
                pivot
            } else {
                upper1.value(i, j)
            },
    ensures
        forall|a: int, b: int|
            b != c ==> #[trigger] upper2.stores(a, b) == upper0.stores(a, b),
        forall|a: int, b: int|
            b != c ==> #[trigger] upper2.value(a, b) == upper0.value(a, b),
        forall|a: int| #[trigger] upper2.stores(a, c) ==> 0 <= a <= c,
        forall|r: int|
            0 <= r < v.len() && orig2new[r] < c ==> #[trigger] upper2.value(orig2new[r] as int, c)
                == if v[r].same_spec(T::zero_spec()) || !holds(list, 0, lo, r) {
                T::zero_spec()
            } else {
                v[r]
            },
{
    assert forall|a: int| #[trigger] upper2.stores(a, c) implies 0 <= a <= c by {
        if a != c {
            assert(upper1.stores(a, c));
            let p = choose|p: int| upper1.is_at(p, a, c);
            assert(upper1.row_inds@[p] < upper1.nrows);
            let w = new2orig[a] as int;
            assert(orig2new[w] == a);
            assert(upper1.stores(orig2new[w] as int, c));
            listed_side(list, lo, orig2new, c, w);
        }
    }
    assert forall|r: int| 0 <= r < v.len() && orig2new[r] < c implies #[trigger] upper2.value(
        orig2new[r] as int,
        c,
    ) == if v[r].same_spec(T::zero_spec()) || !holds(list, 0, lo, r) {
        T::zero_spec()
    } else {
        v[r]
    } by {
        assert(upper1.stores(orig2new[r] as int, c) == (holds(list, 0, lo, r) && !v[r].same_spec(
            T::zero_spec(),
        )));
        assert(upper2.value(orig2new[r] as int, c) == upper1.value(orig2new[r] as int, c));
    }
}

/// A stage has as many columns as it says.
pub proof fn stage_size<T: Scalar>(mat: CsMat<T>, cols: Seq<usize>, stability: T, k: int)
    requires
        0 <= k,
        elimination(mat, cols, stability, k) is Some,
    ensures
        elimination(mat, cols, stability, k)->0.lower.len() == k,
        elimination(mat, cols, stability, k)->0.upper.len() == k,
    decreases k,
{
    if k > 0 {
        stage_size(mat, cols, stability, k - 1);
    }
}

/// Where elimination is exact, columns of which none is a combination of those before have factors,
/// and the product of the factors is the matrix of these columns.
pub proof fn independent_multiplies<T: Scalar>(
    r: Result<LUFactors<T>, Error>,
    mat: CsMat<T>,
    cols: Seq<usize>,
    stability: T,
)
    requires
        exact::<T>(),
        fair_threshold(stability),
        finite_elimination(mat, cols, stability),
        !dependent(mat, cols),
        mat.nrows == cols.len(),
        match r {
            Ok(lu) => lu.wf() && lu.dim() == cols.len() && lu.multiplies_to(mat, cols)
                && lu.eliminated_from(mat, cols, stability),
            Err(_) => stuck(mat, cols, stability),
        },
    ensures
        r is Ok,
        forall|i: int, c: int|
            0 <= i < mat.nrows && 0 <= c < cols.len() ==> (#[trigger] mat.line(
                cols[c] as int,
                i,
            )).val() == sum(r->Ok_0.terms(i, c), cols.len()),
{
    let lu = r->Ok_0;
    let n = cols.len() as int;
    let s = elimination(mat, cols, stability, n)->0;
    assert(finite_stage(s));
    stage_size(mat, cols, stability, n);
    assert forall|p: int| 0 <= p < lu.lower.data@.len() implies (#[trigger] lu.lower.data@[p]).finite() by {
        let (k, i) = crate::sparse::position_line(lu.lower, p);
        let j = lu.new2orig_row@[i] as int;
        assert(lu.orig2new_row@[j] == i);
        assert(lu.lower.line(k, lu.orig2new_row@[j] as int) == s.lower[k].cell(j));
        assert(s.lower[k].stores(j));
        assert(s.lower[k].cell(j).finite());
    }
    assert forall|p: int| 0 <= p < lu.upper.data@.len() implies (#[trigger] lu.upper.data@[p]).finite() by {
        let (c, k) = crate::sparse::position_line(lu.upper, p);
        assert(lu.upper.line_has(c, k) == (s.upper[c][k] is Some));
    }
}

/// The two hold the same factors, with the same rows in the same places.
pub open spec fn same_factors<T: Scalar>(a: LUFactors<T>, b: LUFactors<T>) -> bool {
    &&& a.dim() == b.dim()
    &&& a.orig2new_row@ == b.orig2new_row@
    &&& a.new2orig_row@ == b.new2orig_row@
    &&& a.swaps@ == b.swaps@
    &&& forall|c: int, r: int|
        0 <= c < a.dim() && 0 <= r < a.dim() ==> #[trigger] a.lower.line(c, r) == b.lower.line(c, r)
            && a.lower.line_has(c, r) == b.lower.line_has(c, r)
    &&& forall|c: int, r: int|
        0 <= c < a.dim() && 0 <= r < a.dim() ==> #[trigger] a.upper.line(c, r) == b.upper.line(c, r)
            && a.upper.line_has(c, r) == b.upper.line_has(c, r)
}

/// What comes of factoring depends on the columns and the threshold alone. Whatever the scratch
/// space was used for before, the factors are the same, or there are none.
pub proof fn factors_are_fixed<T: Scalar>(
    a: Result<LUFactors<T>, Error>,
    b: Result<LUFactors<T>, Error>,
    mat: CsMat<T>,
    cols: Seq<usize>,
    stability: T,
)
    requires
        match a {
            Ok(lu) => lu.wf() && lu.dim() == cols.len() && lu.eliminated_from(mat, cols, stability),
            Err(_) => stuck(mat, cols, stability),
        },
        match b {
            Ok(lu) => lu.wf() && lu.dim() == cols.len() && lu.eliminated_from(mat, cols, stability),
            Err(_) => stuck(mat, cols, stability),
        },
    ensures
        a is Ok == b is Ok,
        a is Ok ==> same_factors(a->Ok_0, b->Ok_0),
{
    if a is Ok {
        let (p, q) = (a->Ok_0, b->Ok_0);
        assert forall|c: int, i: int| 0 <= c < p.dim() && 0 <= i < p.dim() implies
            #[trigger] p.lower.line(c, i) == q.lower.line(c, i) && p.lower.line_has(c, i)
            == q.lower.line_has(c, i) by {
            let r = p.new2orig_row@[i] as int;
            assert(p.orig2new_row@[r] == i);
            assert(p.lower.line(c, p.orig2new_row@[r] as int) == q.lower.line(
                c,
                q.orig2new_row@[r] as int,
            ));
        }
        assert forall|c: int, k: int| 0 <= c < p.dim() && 0 <= k < p.dim() implies
            #[trigger] p.upper.line(c, k) == q.upper.line(c, k) && p.upper.line_has(c, k)
            == q.upper.line_has(c, k) by {
            assert(p.upper.line_has(c, k) == q.upper.line_has(c, k));
        }
    }
}

/// Columns that cannot be factored are dependent, where arithmetic is exact and all numbers on
/// the way are finite.
pub proof fn singular_means_dependent<T: Scalar>(mat: CsMat<T>, cols: Seq<usize>, stability: T)
    requires
        exact::<T>(),
        fair_threshold(stability),
        finite_elimination(mat, cols, stability),
        stuck(mat, cols, stability),
    ensures
        exists|x: Seq<real>| x.len() < cols.len() && #[trigger]
            mixes_to(mat, cols, x, cols[x.len() as int] as int),
{
}

pub proof fn solid_are_listed<T: Scalar>(v: Seq<T>, list: Seq<usize>, lo: int, hi: int, q: int)
    requires
        0 <= q < solid_rows(v, list, lo, hi).len(),
    ensures
        exists|p: int|
            lo <= p < hi && #[trigger] list[p] == solid_rows(v, list, lo, hi)[q],
    decreases hi - lo,
{
    let before = solid_rows(v, list, lo, hi - 1);
    if q < before.len() {
        solid_are_listed(v, list, lo, hi - 1, q);
        let p = choose|p: int| lo <= p < hi - 1 && #[trigger] list[p] == before[q];
        assert(list[p] == solid_rows(v, list, lo, hi)[q]);
    } else {
        assert(list[hi - 1] == solid_rows(v, list, lo, hi)[q]);
    }
}

/// No entry of the column that belongs to an eligible pivot is larger than the threshold allows.
proof fn column_is_small<T: Scalar>(red: Reduced<T>, stability: T, i: int, r: int)
    requires
        exact::<T>(),
        fair_threshold(stability),
        finite_reduced(red, stability),
        0 <= red.lo <= i < red.list.len(),
        eligible(red.v, red.list, red.lo, stability, i),
        pivot_column(red.v, red.list, red.lo, i).stores(r),
        pivot_column(red.v, red.list, red.lo, i).cell(r).finite(),
    ensures
        abs_real(pivot_column(red.v, red.list, red.lo, i).cell(r).val()) * stability.val()
            <= 1 as real,
{
    let (v, list, lo) = (red.v, red.list, red.lo);
    let n = list.len() as int;
    let col = pivot_column(v, list, lo, i);
    let rows = col.rows;
    let q = place(rows, 0, rows.len() as int, r);
    let t = stability.val();
    let x = col.cell(r);
    assert(x == col.vals[q] && rows[q] == r);
    solid_are_listed(v, list, lo, n, q);
    let p = choose|p: int| lo <= p < n && #[trigger] list[p] == rows[q];
    crate::singular::largest_bounds(v, list, lo, n);
    let big = largest(v, list, lo, n).val();
    let d = v[list[i] as int];
    assert(v[list[i] as int].absolute_spec().finite());
    assert(t * big <= abs_real(d.val()));
    if rows[q] == list[i] {
        assert(x == T::one_spec());
        crate::sums::times_zero(t);
    } else {
        let y = v[list[p] as int];
        assert(x == y.over_spec(d));
        assert(abs_real(y.val()) <= big);
        let (a, b) = (y.val(), d.val());
        let w = a / b;
        assert(abs_real(w) * t <= 1 as real) by (nonlinear_arith)
            requires
                b != 0 as real,
                w == a / b,
                t > 0 as real,
                t * big <= (if b < 0 as real { -b } else { b }),
                (if a < 0 as real { -a } else { a }) <= big,
                abs_real(w) == (if w < 0 as real { -w } else { w }),
        ;
    }
}

proof fn stage_is_small<T: Scalar>(mat: CsMat<T>, cols: Seq<usize>, stability: T, k: int)
    requires
        exact::<T>(),
        fair_threshold(stability),
        finite_elimination(mat, cols, stability),
        0 <= k <= cols.len(),
    ensures
        elimination(mat, cols, stability, k) matches Some(s) ==> forall|j: int, r: int|
            0 <= j < s.lower.len() && s.lower[j].stores(r) ==> abs_real(
                (#[trigger] s.lower[j].cell(r)).val(),
            ) * stability.val() <= 1 as real,
    decreases k,
{
    if k > 0 {
        stage_is_small(mat, cols, stability, k - 1);
        let counts = row_counts(mat, cols);
        if elimination(mat, cols, stability, k) is Some {
            let s = elimination(mat, cols, stability, k - 1)->0;
            let t = elimination(mat, cols, stability, k)->0;
            let red = reduced(mat, cols[k - 1] as int, s.lower, s.orig2new);
            let i = pivot_place(red.v, red.list, red.lo, stability, counts)->0;
            assert(best_pivot(red.v, red.list, red.lo, stability, counts, i));
            assert forall|j: int, r: int|
                0 <= j < t.lower.len() && t.lower[j].stores(r) implies abs_real(
                (#[trigger] t.lower[j].cell(r)).val(),
            ) * stability.val() <= 1 as real by {
                if j < s.lower.len() {
                    assert(t.lower[j] == s.lower[j]);
                } else {
                    assert(t.lower[j].cell(r).finite());
                    column_is_small(red, stability, i, r);
                }
            }
        }
    }
}

/// What the threshold is for: no entry of the lower factor, times the threshold, is larger than one.
pub proof fn lower_factor_is_small<T: Scalar>(
    lu: LUFactors<T>,
    mat: CsMat<T>,
    cols: Seq<usize>,
    stability: T,
    c: int,
    r: int,
)
    requires
        exact::<T>(),
        fair_threshold(stability),
        finite_elimination(mat, cols, stability),
        lu.wf(),
        lu.dim() == cols.len(),
        lu.eliminated_from(mat, cols, stability),
        0 <= c < lu.dim(),
        0 <= r < lu.dim(),
    ensures
        abs_real(lu.lower.line(c, r).val()) * stability.val() <= 1 as real,
{
    let n = cols.len() as int;
    let s = elimination(mat, cols, stability, n)->0;
    stage_is_small(mat, cols, stability, n);
    stage_size(mat, cols, stability, n);
    let j = lu.new2orig_row@[r] as int;
    assert(lu.orig2new_row@[j] == r);
    assert(lu.lower.line(c, lu.orig2new_row@[j] as int) == s.lower[c].cell(j));
    if !s.lower[c].stores(j) {
        crate::sums::times_zero(stability.val());
    }
}

} // verus!
