//! Columns without factors, where arithmetic is exact.
use crate::elim::{products, reduced_row, Col};
use crate::lu::{
    best_pivot, column_pivoted, column_product, eligible, factor_terms, largest, no_pivot, pivoted,
    row_counts, stuck_at,
};
use crate::scalar::{abs_real, exact, is_zero, Scalar};
use crate::sparse::{holds, place, CsMat};
use crate::sums::{sum, sum_plus, sum_same, sum_times};
use crate::triplets::TriMat;
use vstd::prelude::*;

verus! {

/// The terms of a combination of columns in row `r`.
pub open spec fn mixed_terms<T: Scalar>(
    mat: CsMat<T>,
    cols: Seq<usize>,
    x: Seq<real>,
    r: int,
) -> spec_fn(int) -> real {
    |j: int| mat.line(cols[j] as int, r).val() * x[j]
}

/// The column `col` is the combination `x` of the first chosen columns.
pub open spec fn mixes_to<T: Scalar>(
    mat: CsMat<T>,
    cols: Seq<usize>,
    x: Seq<real>,
    col: int,
) -> bool {
    forall|r: int|
        0 <= r < mat.nrows ==> (#[trigger] mat.line(col, r)).val() == sum(
            mixed_terms(mat, cols, x, r),
            x.len(),
        )
}

/// The terms of a combination of the columns of the lower factor in row `r`.
pub open spec fn lower_terms<T: Scalar>(
    lower: Seq<Col<T>>,
    w: Seq<real>,
    r: int,
) -> spec_fn(int) -> real {
    |k: int| lower[k].cell(r).val() * w[k]
}

/// The numbers in the factors are finite.
pub open spec fn finite_factors<T: Scalar>(lower: Seq<Col<T>>, upper: TriMat<T>) -> bool {
    &&& forall|k: int, r: int|
        0 <= k < lower.len() && lower[k].stores(r) ==> (#[trigger] lower[k].cell(r)).finite()
    &&& forall|k: int, j: int|
        0 <= k <= j < lower.len() ==> (#[trigger] upper.value(k, j)).finite()
}

/// The columns of the lower factor are combinations of the chosen ones.
proof fn unmixed<T: Scalar>(
    mat: CsMat<T>,
    cols: Seq<usize>,
    lower: Seq<Col<T>>,
    upper: TriMat<T>,
    w: Seq<real>,
    n: nat,
) -> (x: Seq<real>)
    requires
        exact::<T>(),
        n <= lower.len(),
        w.len() == n,
        finite_factors(lower, upper),
        forall|k: int|
            0 <= k < lower.len() ==> #[trigger] column_product(
                mat,
                cols[k] as int,
                lower,
                upper,
                k,
            ),
        forall|k: int| 0 <= k < lower.len() ==> (#[trigger] upper.value(k, k)).val() != 0 as real,
    ensures
        x.len() == n,
        forall|r: int|
            0 <= r < mat.nrows ==> sum(#[trigger] lower_terms(lower, w, r), n) == sum(
                mixed_terms(mat, cols, x, r),
                n,
            ),
    decreases n,
{
    if n == 0 {
        Seq::empty()
    } else {
        let c = n - 1;
        let d = upper.value(c, c).val();
        let a = w[c] / d;
        let v = Seq::new((n - 1) as nat, |k: int| w[k] - upper.value(k, c).val() * a);
        let y = unmixed(mat, cols, lower, upper, v, (n - 1) as nat);
        let x = y.push(a);
        assert(column_product(mat, cols[c] as int, lower, upper, c));
        assert forall|r: int| 0 <= r < mat.nrows implies sum(#[trigger] lower_terms(lower, w, r), n)
            == sum(mixed_terms(mat, cols, x, r), n) by {
            let f = lower_terms(lower, w, r);
            let g = lower_terms(lower, v, r);
            let u = factor_terms(lower, upper, r, c);
            let s = |k: int| a * u(k);
            assert forall|k: int| 0 <= k < n - 1 implies #[trigger] f(k) == g(k) + s(k) by {
                let (p, q, t) = (lower[k].cell(r).val(), w[k], upper.value(k, c).val());
                assert(p * q == p * (q - t * a) + a * (p * t)) by (nonlinear_arith);
            }
            sum_plus(g, s, f, (n - 1) as nat);
            sum_times(a, u, s, (n - 1) as nat);
            let (p, q) = (lower[c].cell(r).val(), w[c]);
            assert((q / d) * d == q) by (nonlinear_arith)
                requires
                    d != 0 as real,
            ;
            assert(p * (a * d) == a * (p * d)) by (nonlinear_arith);
            assert(f(c) == a * u(c));
            let line = mat.line(cols[c] as int, r).val();
            assert(line == sum(u, n));
            let part = sum(u, (n - 1) as nat);
            let t = u(c);
            assert(a * (part + t) == a * part + a * t) by (nonlinear_arith);
            assert(a * line == line * a) by (nonlinear_arith);
            let h = mixed_terms(mat, cols, y, r);
            let k = mixed_terms(mat, cols, x, r);
            assert forall|j: int| 0 <= j < n - 1 implies #[trigger] h(j) == k(j) by {}
            sum_same(h, k, (n - 1) as nat);
            assert(sum(lower_terms(lower, v, r), (n - 1) as nat) == sum(h, (n - 1) as nat));
        }
        x
    }
}

pub proof fn largest_bounds<T: Scalar>(v: Seq<T>, list: Seq<usize>, lo: int, hi: int)
    requires
        exact::<T>(),
        0 <= lo <= hi <= list.len(),
        forall|p: int|
            lo <= p < hi ==> v[#[trigger] list[p] as int].absolute_spec().finite(),
    ensures
        largest(v, list, lo, hi).finite(),
        largest(v, list, lo, hi).val() >= 0 as real,
        forall|p: int|
            lo <= p < hi ==> abs_real(v[#[trigger] list[p] as int].val()) <= largest(
                v,
                list,
                lo,
                hi,
            ).val(),
        largest(v, list, lo, hi).val() > 0 as real ==> exists|p: int|
            lo <= p < hi && abs_real(v[#[trigger] list[p] as int].val()) == largest(
                v,
                list,
                lo,
                hi,
            ).val(),
    decreases hi - lo,
{
    if hi > lo {
        largest_bounds(v, list, lo, hi - 1);
        let m = largest(v, list, lo, hi - 1);
        let a = v[list[hi - 1] as int].absolute_spec();
        assert(a.finite());
        if m.less_spec(a) {
            assert(abs_real(v[list[hi - 1] as int].val()) == a.val());
        } else if m.val() > 0 as real {
            let p = choose|p: int|
                lo <= p < hi - 1 && abs_real(v[#[trigger] list[p] as int].val()) == m.val();
            assert(abs_real(v[list[p] as int].val()) == m.val());
        }
    }
}

/// What is left of a column without a pivot is zero.
proof fn nothing_left<T: Scalar>(
    v: Seq<T>,
    list: Seq<usize>,
    lo: int,
    stability: T,
    counts: Seq<usize>,
)
    requires
        exact::<T>(),
        0 <= lo <= list.len(),
        forall|p: int|
            lo <= p < list.len() ==> v[#[trigger] list[p] as int].absolute_spec().finite(),
        stability.finite(),
        stability.val() > 0 as real,
        stability.val() <= 1 as real,
        stability.times_spec(largest(v, list, lo, list.len() as int)).finite(),
        no_pivot(v, list, lo, stability) || exists|i: int| #[trigger]
            best_pivot(v, list, lo, stability, counts, i) && v[list[i] as int].same_spec(
                T::zero_spec(),
            ),
    ensures
        forall|p: int| lo <= p < list.len() ==> v[#[trigger] list[p] as int].val() == 0 as real,
{
    let n = list.len() as int;
    let big = largest(v, list, lo, n);
    largest_bounds(v, list, lo, n);
    let (s, b) = (stability.val(), big.val());
    if b > 0 as real {
        assert(big.normal());
        assert(s * b <= b && s * b > 0 as real) by (nonlinear_arith)
            requires
                s > 0 as real,
                s <= 1 as real,
                b > 0 as real,
        ;
        let p = choose|p: int|
            lo <= p < n && abs_real(v[#[trigger] list[p] as int].val()) == b;
        assert(v[list[p] as int].absolute_spec().finite());
        assert(eligible(v, list, lo, stability, p));
        let i = choose|i: int| #[trigger]
            best_pivot(v, list, lo, stability, counts, i) && v[list[i] as int].same_spec(
                T::zero_spec(),
            );
        assert(eligible(v, list, lo, stability, i));
        assert(v[list[i] as int].absolute_spec().finite());
        assert(false);
    }
    assert forall|p: int| lo <= p < n implies v[#[trigger] list[p] as int].val() == 0 as real by {
        assert(abs_real(v[list[p] as int].val()) <= b);
    }
}

/// Where factoring gets stuck, the next column is a combination of those before.
pub proof fn stuck_is_dependent<T: Scalar>(
    mat: CsMat<T>,
    cols: Seq<usize>,
    stability: T,
    lower: Seq<Col<T>>,
    upper: TriMat<T>,
    orig2new: Seq<usize>,
    new2orig: Seq<usize>,
    v: Seq<T>,
    list: Seq<usize>,
    lo: int,
) -> (x: Seq<real>)
    requires
        exact::<T>(),
        stuck_at(mat, cols, stability, lower, upper, orig2new, new2orig, v, list, lo),
        finite_factors(lower, upper),
        forall|r: int| 0 <= r < v.len() ==> (#[trigger] v[r]).absolute_spec().finite(),
        stability.finite(),
        stability.val() > 0 as real,
        stability.val() <= 1 as real,
        stability.times_spec(largest(v, list, lo, list.len() as int)).finite(),
    ensures
        x.len() == lower.len(),
        mixes_to(mat, cols, x, cols[lower.len() as int] as int),
{
    let c = lower.len();
    let col = cols[c as int] as int;
    let counts = row_counts(mat, cols);
    nothing_left(v, list, lo, stability, counts);
    let w = Seq::new(c, |k: int| v[new2orig[k] as int].val());
    assert forall|k: int| 0 <= k < c implies (#[trigger] upper.value(k, k)).val() != 0 as real by {
        assert(column_pivoted(lower, upper, orig2new, new2orig, k, stability, counts));
        let (v2, list2, lo2, i2) = choose|v2: Seq<T>, list2: Seq<usize>, lo2: int, i2: int| #[trigger]
            pivoted(
                lower[k],
                upper.value(k, k),
                orig2new,
                new2orig,
                k,
                stability,
                counts,
                v2,
                list2,
                lo2,
                i2,
            );
        assert(!upper.value(k, k).same_spec(T::zero_spec()));
        assert(upper.value(k, k).finite());
    }
    let x = unmixed(mat, cols, lower, upper, w, c);
    assert forall|r: int| 0 <= r < mat.nrows implies (#[trigger] mat.line(col, r)).val() == sum(
        mixed_terms(mat, cols, x, r),
        x.len(),
    ) by {
        assert(v[r].absolute_spec().finite());
        assert(reduced_row(mat, col, lower, orig2new, new2orig, v, r));
        if orig2new[r] >= c {
            let n = list.len() as int;
            if holds(list, 0, n, r) {
                let p = place(list, 0, n, r);
                assert(list[p] == r);
                assert(p < lo <==> orig2new[list[p] as int] < c);
            } else {
                assert(is_zero(v[r]));
            }
            assert(v[r].val() == 0 as real);
        }
        let f = products(lower, new2orig, v, r, |j: int| true);
        let g = lower_terms(lower, w, r);
        assert forall|k: int| 0 <= k < c implies #[trigger] f(k) == g(k) by {}
        sum_same(f, g, c);
    }
    x
}

} // verus!
