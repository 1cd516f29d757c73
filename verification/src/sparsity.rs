//! Which rows elimination takes its pivots from, where arithmetic is exact.
use crate::lu::{
    best_pivot, column_left, eligible, elimination, elt_count, fair_threshold, finite_elimination,
    largest, pivot_column, pivot_named, pivot_place, row_counts, solid_rows, stage_size, LUFactors,
};
use crate::scalar::{abs_real, exact, Scalar};
use crate::singular::largest_bounds;
use crate::sparse::{place, CsMat};
use vstd::prelude::*;

verus! {

/// The number of the first `k` chosen columns that have an entry in row `r`.
pub open spec fn row_weight<T: Scalar>(mat: CsMat<T>, cols: Seq<usize>, k: int, r: int) -> int
    decreases k,
{
    if k <= 0 {
        0
    } else {
        row_weight(mat, cols, k - 1, r) + if mat.line_has(cols[k - 1] as int, r) {
            1int
        } else {
            0
        }
    }
}

proof fn weight_is_counted<T: Scalar>(mat: CsMat<T>, cols: Seq<usize>, k: int, r: int)
    requires
        0 <= k,
    ensures
        row_weight(mat, cols, k, r) == elt_count(mat, cols, k, r),
        0 <= row_weight(mat, cols, k, r) <= k,
    decreases k,
{
    if k > 0 {
        weight_is_counted(mat, cols, k - 1, r);
    }
}

/// The largest magnitude is that of a listed value, or zero.
proof fn largest_is_listed<T: Scalar>(v: Seq<T>, list: Seq<usize>, lo: int, hi: int)
    requires
        exact::<T>(),
        0 <= lo <= hi <= list.len(),
        forall|p: int|
            lo <= p < hi ==> v[#[trigger] list[p] as int].absolute_spec().finite(),
    ensures
        largest(v, list, lo, hi).val() == 0 as real || exists|p: int|
            lo <= p < hi && abs_real(v[#[trigger] list[p] as int].val()) == largest(
                v,
                list,
                lo,
                hi,
            ).val(),
    decreases hi - lo,
{
    if lo < hi {
        largest_is_listed(v, list, lo, hi - 1);
        largest_bounds(v, list, lo, hi - 1);
        let m = largest(v, list, lo, hi - 1);
        let a = v[list[hi - 1] as int].absolute_spec();
        assert(a.finite());
        if m.less_spec(a) {
            assert(abs_real(v[list[hi - 1] as int].val()) == a.val());
        } else if m.val() != 0 as real {
            let p = choose|p: int|
                lo <= p < hi - 1 && abs_real(v[#[trigger] list[p] as int].val()) == m.val();
            assert(abs_real(v[list[p] as int].val()) == m.val());
        }
    }
}

/// The columns that are done stay as they are.
proof fn done_stays<T: Scalar>(mat: CsMat<T>, cols: Seq<usize>, stability: T, c: int, k: int)
    requires
        0 <= c < k,
        elimination(mat, cols, stability, k) is Some,
    ensures
        elimination(mat, cols, stability, c) is Some,
        elimination(mat, cols, stability, c + 1) is Some,
        elimination(mat, cols, stability, k)->0.lower[c] == elimination(
            mat,
            cols,
            stability,
            c + 1,
        )->0.lower[c],
    decreases k - c,
{
    if k > c + 1 {
        done_stays(mat, cols, stability, c, k - 1);
        stage_size(mat, cols, stability, k - 1);
    }
}

/// A row with a nonzero value is one of those that the column of the lower factor stores.
proof fn solid_is_stored<T: Scalar>(v: Seq<T>, list: Seq<usize>, lo: int, hi: int, p: int)
    requires
        0 <= lo <= p < hi <= list.len(),
        !v[list[p] as int].same_spec(T::zero_spec()),
    ensures
        solid_rows(v, list, lo, hi).contains(list[p]),
    decreases hi - lo,
{
    if p < hi - 1 {
        solid_is_stored(v, list, lo, hi - 1, p);
        let s = solid_rows(v, list, lo, hi - 1);
        let q = choose|q: int| 0 <= q < s.len() && s[q] == list[p];
        assert(solid_rows(v, list, lo, hi)[q] == list[p]);
    } else {
        let s = solid_rows(v, list, lo, hi);
        assert(s[s.len() - 1] == list[p]);
    }
}

/// What the column of the lower factor has in a listed row.
proof fn quotient_at<T: Scalar>(v: Seq<T>, list: Seq<usize>, lo: int, i: int, p: int)
    requires
        exact::<T>(),
        0 <= lo <= i < list.len(),
        lo <= p < list.len(),
        v[list[p] as int].finite(),
        v[list[i] as int].finite(),
        v[list[i] as int].val() != 0 as real,
        pivot_column(v, list, lo, i).stores(list[p] as int) ==> pivot_column(v, list, lo, i).cell(
            list[p] as int,
        ).finite(),
    ensures
        pivot_column(v, list, lo, i).cell(list[p] as int).val() == v[list[p] as int].val()
            / v[list[i] as int].val(),
{
    let col = pivot_column(v, list, lo, i);
    let r = list[p] as int;
    let rows = col.rows;
    let (a, b) = (v[r].val(), v[list[i] as int].val());
    if col.stores(r) {
        let q = place(rows, 0, rows.len() as int, r);
        assert(rows[q] == r && col.cell(r) == col.vals[q]);
        if rows[q] == list[i] {
            assert(b / b == 1 as real) by (nonlinear_arith)
                requires
                    b != 0 as real,
            ;
        }
    } else {
        if !v[r].same_spec(T::zero_spec()) {
            solid_is_stored(v, list, lo, list.len() as int, p);
            let q = choose|q: int| 0 <= q < rows.len() && rows[q] == list[p];
            assert(rows[q] == r);
            assert(col.stores(r));
        }
        assert(a == 0 as real);
        assert((0 as real) / b == 0 as real) by (nonlinear_arith)
            requires
                b != 0 as real,
        ;
    }
}

/// Among the rows whose entries are large enough, by the threshold, to be divided by, elimination
/// takes one with the fewest entries: if no entry of a column of the lower factor, times the
/// threshold, is larger than that in row `r`, then the row that the pivot was found in has no more
/// entries in the chosen columns than that row.
pub proof fn pivot_row_is_sparsest<T: Scalar>(
    lu: LUFactors<T>,
    mat: CsMat<T>,
    cols: Seq<usize>,
    stability: T,
    c: int,
    r: int,
)
    requires
        exact::<T>(),
        fair_threshold(stability),
        finite_elimination(mat, cols, stability),
        lu.wf(),
        lu.dim() == cols.len(),
        mat.nrows == cols.len(),
        lu.eliminated_from(mat, cols, stability),
        0 <= c <= r < lu.dim(),
        forall|q: int|
            c <= q < lu.dim() ==> stability.val() * abs_real(
                (#[trigger] lu.lower.line(c, q)).val(),
            ) <= abs_real(lu.lower.line(c, r).val()),
    ensures
        row_weight(mat, cols, cols.len() as int, lu.new2orig_row@[c] as int) <= row_weight(
            mat,
            cols,
            cols.len() as int,
            lu.new2orig_row@[r] as int,
        ),
{
    let n = cols.len() as int;
    let counts = row_counts(mat, cols);
    let last = elimination(mat, cols, stability, n)->0;
    done_stays(mat, cols, stability, c, n);
    let s = elimination(mat, cols, stability, c)->0;
    stage_size(mat, cols, stability, c);
    assert(pivot_named(mat, cols, stability, lu.new2orig_row@, c));
    let red = column_left(mat, cols, stability, c);
    let (v, list, lo) = (red.v, red.list, red.lo);
    let hi = list.len() as int;
    let i = pivot_place(v, list, lo, stability, counts)->0;
    assert(best_pivot(v, list, lo, stability, counts, i));
    let col = pivot_column(v, list, lo, i);
    assert(elimination(mat, cols, stability, c + 1)->0.lower[c] == col);
    assert(last.lower[c] == col);
    let t = stability.val();
    let j = lu.new2orig_row@[r] as int;
    assert(lu.orig2new_row@[j] == r);
    assert(lu.lower.line(c, lu.orig2new_row@[j] as int) == col.cell(j));
    assert(lu.lower.line(c, c) == T::one_spec());
    assert(t * (1 as real) == t) by (nonlinear_arith);
    assert(abs_real(col.cell(j).val()) >= t);
    assert(col.stores(j)) by {
        if !col.stores(j) {
            assert(col.cell(j) == T::zero_spec());
        }
    }
    let rows = col.rows;
    let z = place(rows, 0, rows.len() as int, j);
    assert(rows[z] == j);
    crate::lu::solid_are_listed(v, list, lo, hi, z);
    let p = choose|p: int| lo <= p < hi && #[trigger] list[p] == rows[z];
    largest_bounds(v, list, lo, hi);
    largest_is_listed(v, list, lo, hi);
    let big = largest(v, list, lo, hi).val();
    let b = v[list[i] as int].val();
    assert(v[list[i] as int].absolute_spec().finite());
    assert(v[list[p] as int].absolute_spec().finite());
    assert(big != 0 as real);
    assert(b != 0 as real) by {
        assert(t * big <= abs_real(b));
        assert(t * big > 0 as real) by (nonlinear_arith)
            requires
                t > 0 as real,
                big > 0 as real,
        ;
    }
    assert forall|q: int| lo <= q < hi implies col.stores(#[trigger] list[q] as int) ==> col.cell(
        list[q] as int,
    ).finite() by {
        if col.stores(list[q] as int) {
            assert(last.lower[c].stores(list[q] as int));
            assert(last.lower[c].cell(list[q] as int).finite());
        }
    }
    quotient_at(v, list, lo, i, p);
    let a = v[list[p] as int].val();
    assert(t * big <= abs_real(a)) by {
        let q = choose|q: int| lo <= q < hi && abs_real(v[#[trigger] list[q] as int].val()) == big;
        assert(v[list[q] as int].absolute_spec().finite());
        quotient_at(v, list, lo, i, q);
        let d = v[list[q] as int].val();
        let k = list[q] as int;
        assert(k < n);
        let w = lu.orig2new_row@[k] as int;
        assert(lu.new2orig_row@[w] == k);
        assert(lu.lower.line(c, lu.orig2new_row@[k] as int) == col.cell(k));
        assert(col.stores(k)) by {
            if !col.stores(k) {
                assert(col.cell(k) == T::zero_spec());
                assert(d / b != 0 as real) by (nonlinear_arith)
                    requires
                        d != 0 as real,
                        b != 0 as real,
                ;
            }
        }
        assert(lu.lower.line_has(c, w));
        assert(c <= w);
        let (x, y) = (d / b, a / b);
        assert(t * abs_real(x) <= abs_real(y));
        quotients_compare(t, d, a, b);
    }
    assert(eligible(v, list, lo, stability, p));
    weight_is_counted(mat, cols, n, lu.new2orig_row@[c] as int);
    weight_is_counted(mat, cols, n, j);
    assert(list[p] == j);
    assert(counts[list[i] as int] <= counts[list[p] as int]);
}

proof fn quotients_compare(t: real, d: real, a: real, b: real)
    requires
        b != 0 as real,
        t * abs_real(d / b) <= abs_real(a / b),
    ensures
        t * abs_real(d) <= abs_real(a),
{
    let (x, y) = (d / b, a / b);
    assert(x * b == d && y * b == a) by (nonlinear_arith)
        requires
            b != 0 as real,
            x == d / b,
            y == a / b,
    ;
    let (p, q, e) = (abs_real(x), abs_real(y), abs_real(b));
    assert(abs_real(d) == p * e) by {
        product_of_sizes(x, b);
    }
    assert(abs_real(a) == q * e) by {
        product_of_sizes(y, b);
    }
    assert(t * (p * e) <= q * e) by (nonlinear_arith)
        requires
            t * p <= q,
            e >= 0 as real,
    ;
}

proof fn product_of_sizes(x: real, y: real)
    ensures
        abs_real(x * y) == abs_real(x) * abs_real(y),
{
    assert(x < 0 as real && y < 0 as real ==> x * y > 0 as real && (-x) * (-y) == x * y)
        by (nonlinear_arith);
    assert(x < 0 as real && y >= 0 as real ==> x * y <= 0 as real && (-x) * y == -(x * y))
        by (nonlinear_arith);
    assert(x >= 0 as real && y < 0 as real ==> x * y <= 0 as real && x * (-y) == -(x * y))
        by (nonlinear_arith);
    assert(x >= 0 as real && y >= 0 as real ==> x * y >= 0 as real) by (nonlinear_arith);
}

} // verus!
