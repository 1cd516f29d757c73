//! A system with a factored matrix has one solution.
use crate::invert::finite_entry;
use crate::lu::{all_finite, LUFactors};
use crate::scalar::{exact, Scalar};
use crate::solve::{col_terms, row_terms, solves, solves_transp, sum_reordered};
use crate::sparse::CsMat;
use crate::sums::{sum, sum_plus, sum_same, sum_single, sum_swap, sum_times, times_zero};
use vstd::prelude::*;

verus! {

/// The terms of row `i` of a system: the coefficient of unknown `k` is `t(k, i)`.
spec fn system_terms(
    t: spec_fn(int, int) -> real,
    x: spec_fn(int) -> real,
    i: int,
) -> spec_fn(int) -> real {
    |k: int| t(k, i) * x(k)
}

/// A system with a lower triangle and zeros on the right has the solution zero only.
proof fn lower_kernel(t: spec_fn(int, int) -> real, x: spec_fn(int) -> real, n: nat, i: int)
    requires
        0 <= i < n,
        forall|k: int, j: int| 0 <= j < k < n ==> #[trigger] t(k, j) == 0 as real,
        forall|j: int| 0 <= j < n ==> #[trigger] t(j, j) != 0 as real,
        forall|j: int| 0 <= j < n ==> sum(#[trigger] system_terms(t, x, j), n) == 0 as real,
    ensures
        x(i) == 0 as real,
    decreases i,
{
    let f = system_terms(t, x, i);
    assert forall|k: int| 0 <= k < n && k != i implies #[trigger] f(k) == 0 as real by {
        if k < i {
            lower_kernel(t, x, n, k);
            times_zero(t(k, i));
        } else {
            times_zero(x(k));
        }
    }
    sum_single(f, n, i);
    factor_is_zero(t(i, i), x(i));
}

/// So has one with an upper triangle.
proof fn upper_kernel(t: spec_fn(int, int) -> real, x: spec_fn(int) -> real, n: nat, i: int)
    requires
        0 <= i < n,
        forall|k: int, j: int| 0 <= k < j < n ==> #[trigger] t(k, j) == 0 as real,
        forall|j: int| 0 <= j < n ==> #[trigger] t(j, j) != 0 as real,
        forall|j: int| 0 <= j < n ==> sum(#[trigger] system_terms(t, x, j), n) == 0 as real,
    ensures
        x(i) == 0 as real,
    decreases n - i,
{
    let f = system_terms(t, x, i);
    assert forall|k: int| 0 <= k < n && k != i implies #[trigger] f(k) == 0 as real by {
        if k > i {
            upper_kernel(t, x, n, k);
            times_zero(t(k, i));
        } else {
            times_zero(x(k));
        }
    }
    sum_single(f, n, i);
    factor_is_zero(t(i, i), x(i));
}

proof fn factor_is_zero(a: real, b: real)
    requires
        a * b == 0 as real,
        a != 0 as real,
    ensures
        b == 0 as real,
{
    assert(b == 0 as real) by (nonlinear_arith)
        requires
            a * b == 0 as real,
            a != 0 as real,
    ;
}

/// The triangles of the factors in real numbers.
proof fn factor_triangles<T: Scalar>(lu: LUFactors<T>)
    requires
        exact::<T>(),
        lu.wf(),
        all_finite(lu.upper),
    ensures
        forall|k: int, i: int|
            0 <= i < k < lu.dim() ==> (#[trigger] lu.lower.line(k, i)).val() == 0 as real,
        forall|k: int| 0 <= k < lu.dim() ==> (#[trigger] lu.lower.line(k, k)).val() == 1 as real,
        forall|c: int, k: int|
            0 <= c < k < lu.dim() ==> (#[trigger] lu.upper.line(c, k)).val() == 0 as real,
        forall|k: int| 0 <= k < lu.dim() ==> (#[trigger] lu.upper.line(k, k)).val() != 0 as real,
{
    assert forall|k: int, i: int| 0 <= i < k < lu.dim() implies (#[trigger] lu.lower.line(
        k,
        i,
    )).val() == 0 as real by {
        assert(!lu.lower.line_has(k, i));
    }
    assert forall|k: int| 0 <= k < lu.dim() implies (#[trigger] lu.lower.line(k, k)).val()
        == 1 as real by {
        assert(lu.lower.line(k, k) == T::one_spec());
    }
    assert forall|c: int, k: int| 0 <= c < k < lu.dim() implies (#[trigger] lu.upper.line(
        c,
        k,
    )).val() == 0 as real by {
        assert(!lu.upper.line_has(c, k));
    }
    assert forall|k: int| 0 <= k < lu.dim() implies (#[trigger] lu.upper.line(k, k)).val()
        != 0 as real by {
        assert(lu.upper.line_has(k, k));
        finite_entry(lu.upper, k, k);
        assert(!lu.upper.line(k, k).same_spec(T::zero_spec()));
    }
}

/// The terms of row `r` of the product of the chosen columns and `d`.
pub open spec fn combined_terms<T: Scalar>(
    mat: CsMat<T>,
    cols: Seq<usize>,
    d: spec_fn(int) -> real,
    r: int,
) -> spec_fn(int) -> real {
    |c: int| mat.line(cols[c] as int, r).val() * d(c)
}

/// The terms of the product of column `col` and `d`.
pub open spec fn weighed_terms<T: Scalar>(
    mat: CsMat<T>,
    col: int,
    d: spec_fn(int) -> real,
) -> spec_fn(int) -> real {
    |r: int| mat.line(col, r).val() * d(r)
}

/// Columns that have factors are independent: only with zeros do they combine to zero.
pub proof fn columns_are_independent<T: Scalar>(
    lu: LUFactors<T>,
    mat: CsMat<T>,
    cols: Seq<usize>,
    d: spec_fn(int) -> real,
    c: int,
)
    requires
        exact::<T>(),
        lu.wf(),
        lu.dim() == cols.len(),
        mat.nrows == cols.len(),
        lu.multiplies_to(mat, cols),
        all_finite(lu.lower),
        all_finite(lu.upper),
        forall|r: int|
            0 <= r < mat.nrows ==> sum(#[trigger] combined_terms(mat, cols, d, r), cols.len())
                == 0 as real,
        0 <= c < cols.len(),
    ensures
        d(c) == 0 as real,
{
    let n = cols.len();
    factor_triangles(lu);
    let l = |k: int, i: int| lu.lower.line(k, i).val();
    let u = |c: int, k: int| lu.upper.line(c, k).val();
    let e = |k: int| sum(system_terms(u, d, k), n);
    assert forall|i: int| 0 <= i < n implies sum(#[trigger] system_terms(l, e, i), n)
        == 0 as real by {
        let r = lu.new2orig_row@[i] as int;
        assert(lu.orig2new_row@[r] == i);
        let f = |c: int, k: int| (l(k, i) * u(c, k)) * d(c);
        let rows = combined_terms(mat, cols, d, r);
        let outer = |c: int| sum(|k: int| f(c, k), n);
        assert forall|c: int| 0 <= c < n implies #[trigger] rows(c) == outer(c) by {
            let t = lu.terms(r, c);
            let g = |k: int| f(c, k);
            assert(mat.line(cols[c] as int, r).val() == sum(t, n));
            assert forall|k: int| 0 <= k < n implies #[trigger] g(k) == d(c) * t(k) by {
                let (p, q) = (t(k), d(c));
                assert(p * q == q * p) by (nonlinear_arith);
            }
            sum_times(d(c), t, g, n);
            let (p, q) = (sum(t, n), d(c));
            assert(p * q == q * p) by (nonlinear_arith);
        }
        sum_same(rows, outer, n);
        sum_swap(f, n, n);
        let inner = |k: int| sum(|c: int| f(c, k), n);
        let low = system_terms(l, e, i);
        assert forall|k: int| 0 <= k < n implies #[trigger] inner(k) == low(k) by {
            let up = system_terms(u, d, k);
            let g = |c: int| f(c, k);
            assert forall|c: int| 0 <= c < n implies #[trigger] g(c) == l(k, i) * up(c) by {
                let (p, q, v) = (l(k, i), u(c, k), d(c));
                assert((p * q) * v == p * (q * v)) by (nonlinear_arith);
            }
            sum_times(l(k, i), up, g, n);
        }
        sum_same(inner, low, n);
    }
    assert forall|k: int| 0 <= k < n implies sum(#[trigger] system_terms(u, d, k), n)
        == 0 as real by {
        lower_kernel(l, e, n, k);
    }
    upper_kernel(u, d, n, c);
}

/// The rows of columns that have factors are independent as well.
pub proof fn rows_are_independent<T: Scalar>(
    lu: LUFactors<T>,
    mat: CsMat<T>,
    cols: Seq<usize>,
    d: spec_fn(int) -> real,
    r: int,
)
    requires
        exact::<T>(),
        lu.wf(),
        lu.dim() == cols.len(),
        mat.nrows == cols.len(),
        lu.multiplies_to(mat, cols),
        all_finite(lu.lower),
        all_finite(lu.upper),
        forall|c: int|
            0 <= c < cols.len() ==> sum(
                #[trigger] weighed_terms(mat, cols[c] as int, d),
                mat.nrows as nat,
            ) == 0 as real,
        0 <= r < mat.nrows,
    ensures
        d(r) == 0 as real,
{
    let n = cols.len();
    factor_triangles(lu);
    let o = lu.orig2new_row@;
    let back = lu.new2orig_row@;
    let l = |i: int, k: int| lu.lower.line(k, i).val();
    let u = |k: int, c: int| lu.upper.line(c, k).val();
    let w = |i: int| d(back[i] as int);
    let e = |k: int| sum(system_terms(l, w, k), n);
    assert forall|c: int| 0 <= c < n implies sum(#[trigger] system_terms(u, e, c), n)
        == 0 as real by {
        let f = |r: int, k: int| (l(o[r] as int, k) * u(k, c)) * d(r);
        let start = weighed_terms(mat, cols[c] as int, d);
        let outer = |r: int| sum(|k: int| f(r, k), n);
        assert forall|r: int| 0 <= r < n implies #[trigger] start(r) == outer(r) by {
            let t = lu.terms(r, c);
            let g = |k: int| f(r, k);
            assert(mat.line(cols[c] as int, r).val() == sum(t, n));
            assert forall|k: int| 0 <= k < n implies #[trigger] g(k) == d(r) * t(k) by {
                let (p, q) = (t(k), d(r));
                assert(p * q == q * p) by (nonlinear_arith);
            }
            sum_times(d(r), t, g, n);
            let (p, q) = (sum(t, n), d(r));
            assert(p * q == q * p) by (nonlinear_arith);
        }
        sum_same(start, outer, n);
        sum_swap(f, n, n);
        let inner = |k: int| sum(|r: int| f(r, k), n);
        let up = system_terms(u, e, c);
        assert forall|k: int| 0 <= k < n implies #[trigger] inner(k) == up(k) by {
            let low = system_terms(l, w, k);
            let h = |r: int| low(o[r] as int);
            let g = |r: int| f(r, k);
            assert forall|r: int| 0 <= r < n implies #[trigger] g(r) == u(k, c) * h(r) by {
                assert(back[o[r] as int] == r);
                let (p, q, v) = (l(o[r] as int, k), u(k, c), d(r));
                assert((p * q) * v == q * (p * v)) by (nonlinear_arith);
            }
            sum_times(u(k, c), h, g, n);
            sum_reordered(o, back, low);
        }
        sum_same(inner, up, n);
    }
    assert forall|k: int| 0 <= k < n implies sum(#[trigger] system_terms(l, w, k), n)
        == 0 as real by {
        lower_kernel(u, e, n, k);
    }
    let i = o[r] as int;
    assert(back[i] == r);
    upper_kernel(l, w, n, i);
}

/// A system with a factored matrix has one solution. So the sparse and the dense solution agree.
pub proof fn solutions_agree<T: Scalar>(
    lu: LUFactors<T>,
    mat: CsMat<T>,
    cols: Seq<usize>,
    b: Seq<T>,
    x: Seq<T>,
    y: Seq<T>,
    c: int,
)
    requires
        exact::<T>(),
        lu.wf(),
        lu.dim() == cols.len(),
        mat.nrows == cols.len(),
        lu.multiplies_to(mat, cols),
        all_finite(lu.lower),
        all_finite(lu.upper),
        b.len() == cols.len(),
        solves(mat, cols, x, b),
        solves(mat, cols, y, b),
        0 <= c < cols.len(),
    ensures
        x[c].val() == y[c].val(),
{
    let n = cols.len();
    let d = |k: int| x[k].val() - y[k].val();
    assert forall|r: int| 0 <= r < mat.nrows implies sum(
        #[trigger] combined_terms(mat, cols, d, r),
        n,
    ) == 0 as real by {
        let f = row_terms(mat, cols, x, r);
        let g = row_terms(mat, cols, y, r);
        let h = combined_terms(mat, cols, d, r);
        assert(sum(f, n) == b[r].val() && sum(g, n) == b[r].val());
        assert forall|k: int| 0 <= k < n implies #[trigger] f(k) == g(k) + h(k) by {
            let (p, q, s) = (mat.line(cols[k] as int, r).val(), x[k].val(), y[k].val());
            assert(p * q == p * s + p * (q - s)) by (nonlinear_arith);
        }
        sum_plus(g, h, f, n);
    }
    columns_are_independent(lu, mat, cols, d, c);
}

/// The transposed system has one solution too.
pub proof fn transposed_solutions_agree<T: Scalar>(
    lu: LUFactors<T>,
    mat: CsMat<T>,
    cols: Seq<usize>,
    b: Seq<T>,
    x: Seq<T>,
    y: Seq<T>,
    r: int,
)
    requires
        exact::<T>(),
        lu.wf(),
        lu.dim() == cols.len(),
        mat.nrows == cols.len(),
        lu.multiplies_to(mat, cols),
        all_finite(lu.lower),
        all_finite(lu.upper),
        b.len() == cols.len(),
        solves_transp(mat, cols, x, b),
        solves_transp(mat, cols, y, b),
        0 <= r < mat.nrows,
    ensures
        x[r].val() == y[r].val(),
{
    let n = cols.len();
    let d = |k: int| x[k].val() - y[k].val();
    assert forall|c: int| 0 <= c < n implies sum(
        #[trigger] weighed_terms(mat, cols[c] as int, d),
        mat.nrows as nat,
    ) == 0 as real by {
        let f = col_terms(mat, cols[c] as int, x);
        let g = col_terms(mat, cols[c] as int, y);
        let h = weighed_terms(mat, cols[c] as int, d);
        assert(sum(f, n) == b[c].val() && sum(g, n) == b[c].val());
        assert forall|k: int| 0 <= k < n implies #[trigger] f(k) == g(k) + h(k) by {
            let (p, q, s) = (mat.line(cols[c] as int, k).val(), x[k].val(), y[k].val());
            assert(p * q == p * s + p * (q - s)) by (nonlinear_arith);
        }
        sum_plus(g, h, f, n);
    }
    rows_are_independent(lu, mat, cols, d, r);
}

/// The terms of the product of two lists.
pub open spec fn dot_terms<T: Scalar>(a: Seq<T>, b: Seq<T>) -> spec_fn(int) -> real {
    |i: int| a[i].val() * b[i].val()
}

/// A solution of the system and one of the transposed system give the same product with the
/// right-hand sides of each other.
pub proof fn solutions_are_dual<T: Scalar>(
    mat: CsMat<T>,
    cols: Seq<usize>,
    b: Seq<T>,
    x: Seq<T>,
    g: Seq<T>,
    y: Seq<T>,
)
    requires
        mat.nrows == cols.len(),
        b.len() == cols.len(),
        g.len() == cols.len(),
        solves(mat, cols, x, b),
        solves_transp(mat, cols, y, g),
    ensures
        sum(dot_terms(y, b), cols.len()) == sum(dot_terms(g, x), cols.len()),
{
    let n = cols.len();
    let f = |r: int, c: int| y[r].val() * (mat.line(cols[c] as int, r).val() * x[c].val());
    let rows = |r: int| sum(|c: int| f(r, c), n);
    let columns = |c: int| sum(|r: int| f(r, c), n);
    sum_swap(f, n, n);
    let yb = dot_terms(y, b);
    assert forall|r: int| 0 <= r < n implies #[trigger] yb(r) == rows(r) by {
        let t = row_terms(mat, cols, x, r);
        let h = |c: int| f(r, c);
        sum_times(y[r].val(), t, h, n);
        assert(sum(t, n) == b[r].val());
    }
    sum_same(yb, rows, n);
    let gx = dot_terms(g, x);
    assert forall|c: int| 0 <= c < n implies #[trigger] gx(c) == columns(c) by {
        let t = col_terms(mat, cols[c] as int, y);
        let h = |r: int| f(r, c);
        assert forall|r: int| 0 <= r < n implies #[trigger] h(r) == x[c].val() * t(r) by {
            let (p, q, s) = (y[r].val(), mat.line(cols[c] as int, r).val(), x[c].val());
            assert(p * (q * s) == s * (q * p)) by (nonlinear_arith);
        }
        sum_times(x[c].val(), t, h, n);
        assert(sum(t, n) == g[c].val());
        let (p, q) = (g[c].val(), x[c].val());
        assert(p * q == q * p) by (nonlinear_arith);
    }
    sum_same(gx, columns, n);
}

} // verus!
