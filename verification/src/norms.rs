//! The squared norms of the columns, where arithmetic is exact.
use crate::basis::holds_entries;
use crate::elim::one_more;
use crate::phases::step_made;
use crate::pivot::{norms_follow, vertex_moved};
use crate::regular::{represented_is_independent, vanishes};
use crate::scalar::{exact, is_zero, Scalar};
use crate::scattered::ScatteredVec;
use crate::simplex::{
    row_meets_col, row_of_inverse, row_sum_value, unit_vec, PivotInfo, Solver,
};
use crate::singular::{mixed_terms, mixes_to};
use crate::solve::{col_terms, finite_items, row_terms, solves_transp};
use crate::sparse::{at, at_place, at_same, below, distinct, holds, square_sum, CsMat, SparseVec};
use crate::start::{col_sq_norm, started, Input};
use crate::steps::{finite_step, step_fits};
use crate::sums::{
    sum, sum_but_one, sum_plus, sum_same, sum_single, sum_swap, sum_times, sum_zero, times_zero,
};
use crate::unique::combined_terms;
use crate::vertex::{basis_kept, consistent, eta_expresses, finite_vertex, fitting, sound};
use vstd::prelude::*;

verus! {

pub open spec fn square_terms(w: Seq<real>) -> spec_fn(int) -> real {
    |r: int| w[r] * w[r]
}

/// `x` is the squared norm of the column of the variable `v` in terms of the basis.
pub open spec fn is_norm<T: Scalar>(s: Solver<T>, v: int, x: real) -> bool {
    exists|w: Seq<real>|
        w.len() == s.basic_vars@.len() && #[trigger] mixes_to(
            s.orig_constraints_csc,
            s.basic_vars@,
            w,
            v,
        ) && x == sum(square_terms(w), w.len())
}

pub open spec fn norm_holds<T: Scalar>(s: Solver<T>, c: int) -> bool {
    is_norm(s, s.non_basic_vars@[c] as int, s.non_basic_col_sq_norms@[c].val())
}

/// The squared norms that the solver keeps are those of the columns in terms of the basis.
pub open spec fn norms_hold<T: Scalar>(s: Solver<T>) -> bool {
    &&& s.enable_steepest_edge
    &&& forall|c: int| 0 <= c < s.non_basic_vars@.len() ==> #[trigger] norm_holds(s, c)
}

pub open spec fn weighted(g: Seq<real>, w: Seq<real>) -> spec_fn(int) -> real {
    |k: int| g[k] * w[k]
}

/// The product of a column and a solution of the transposed system is that of the right-hand side
/// and what the column is in terms of the basis.
pub proof fn mixed_product<T: Scalar>(
    mat: CsMat<T>,
    basic: Seq<usize>,
    w: Seq<real>,
    v: int,
    y: Seq<T>,
    g: Seq<T>,
    h: Seq<real>,
)
    requires
        mat.nrows == basic.len(),
        w.len() == basic.len(),
        g.len() == basic.len(),
        h.len() == basic.len(),
        forall|k: int| 0 <= k < g.len() ==> #[trigger] h[k] == g[k].val(),
        mixes_to(mat, basic, w, v),
        solves_transp(mat, basic, y, g),
    ensures
        sum(col_terms(mat, v, y), basic.len()) == sum(weighted(h, w), basic.len()),
{
    let n = basic.len();
    let f = |i: int, k: int| (mat.line(basic[k] as int, i).val() * w[k]) * y[i].val();
    let left = col_terms(mat, v, y);
    let rows = |i: int| sum(|k: int| f(i, k), n);
    assert forall|i: int| 0 <= i < n implies #[trigger] left(i) == rows(i) by {
        let t = mixed_terms(mat, basic, w, i);
        let p = |k: int| f(i, k);
        assert(mat.line(v, i).val() == sum(t, n));
        assert forall|k: int| 0 <= k < n implies #[trigger] p(k) == y[i].val() * t(k) by {
            let (a, b) = (t(k), y[i].val());
            assert(a * b == b * a) by (nonlinear_arith);
        }
        sum_times(y[i].val(), t, p, n);
        let (a, b) = (sum(t, n), y[i].val());
        assert(a * b == b * a) by (nonlinear_arith);
    }
    sum_same(left, rows, n);
    sum_swap(f, n, n);
    let cols = |k: int| sum(|i: int| f(i, k), n);
    let right = weighted(h, w);
    assert forall|k: int| 0 <= k < n implies #[trigger] cols(k) == right(k) by {
        let t = col_terms(mat, basic[k] as int, y);
        let p = |i: int| f(i, k);
        assert forall|i: int| 0 <= i < n implies #[trigger] p(i) == w[k] * t(i) by {
            let (a, b, d) = (mat.line(basic[k] as int, i).val(), y[i].val(), w[k]);
            assert((a * d) * b == d * (a * b)) by (nonlinear_arith);
        }
        sum_times(w[k], t, p, n);
        assert(sum(t, n) == g[k].val());
        let (a, b) = (h[k], w[k]);
        assert(a * b == b * a) by (nonlinear_arith);
    }
    sum_same(cols, right, n);
}

spec fn shifted(w: Seq<real>, a: real, h: Seq<real>) -> Seq<real> {
    Seq::new(w.len(), |r: int| w[r] - a * h[r])
}

proof fn shifted_squares(w: Seq<real>, a: real, h: Seq<real>)
    requires
        h.len() == w.len(),
    ensures
        sum(square_terms(shifted(w, a, h)), w.len()) == sum(square_terms(w), w.len()) - (2 as real)
            * a * sum(weighted(h, w), w.len()) + a * a * sum(square_terms(h), w.len()),
{
    let n = w.len();
    let f = square_terms(shifted(w, a, h));
    let (p, q, r) = (square_terms(w), weighted(h, w), square_terms(h));
    let b = -((2 as real) * a);
    let d = a * a;
    let q2 = |k: int| b * q(k);
    let r2 = |k: int| d * r(k);
    let pq = |k: int| p(k) + q2(k);
    sum_times(b, q, q2, n);
    sum_times(d, r, r2, n);
    sum_plus(p, q2, pq, n);
    assert forall|k: int| 0 <= k < n implies #[trigger] f(k) == pq(k) + r2(k) by {
        let (x, y) = (w[k], h[k]);
        assert((x - a * y) * (x - a * y) == x * x + (-((2 as real) * a)) * (y * x) + (a * a) * (y
            * y)) by (nonlinear_arith);
    }
    sum_plus(pq, r2, f, n);
    let z = sum(q, n);
    assert((-((2 as real) * a)) * z == -((2 as real) * a * z)) by (nonlinear_arith);
}

/// What a column is in terms of the basis after a change.
proof fn shifted_mix<T: Scalar>(
    s: Solver<T>,
    eta: SparseVec<T>,
    info: PivotInfo<T>,
    h: Seq<real>,
    w: Seq<real>,
    v: int,
)
    requires
        exact::<T>(),
        s.wf(),
        fitting(s, info),
        info.elem is Some,
        crate::pivot::eta_coeffs_of(
            s.col_coeffs,
            info.elem->0.row as int,
            info.elem->0.coeff,
            eta,
        ),
        finite_items(eta.values@),
        h.len() == s.m(),
        forall|k: int| 0 <= k < s.m() ==> #[trigger] h[k] == eta.value(k).val(),
        w.len() == s.m(),
        mixes_to(s.orig_constraints_csc, s.basic_vars@, w, v),
    ensures
        mixes_to(
            s.orig_constraints_csc,
            s.basic_vars@.update(
                info.elem->0.row as int,
                s.non_basic_vars@[info.col as int],
            ),
            shifted(w, w[info.elem->0.row as int], h),
            v,
        ),
{
    let mat = s.orig_constraints_csc;
    let row = info.elem->0.row as int;
    let basic = s.basic_vars@;
    let e = s.non_basic_vars@[info.col as int];
    let basic2 = basic.update(row, e);
    let a = w[row];
    let w2 = shifted(w, a, h);
    let n = s.m() as nat;
    assert forall|i: int| 0 <= i < mat.nrows implies (#[trigger] mat.line(v, i)).val() == sum(
        mixed_terms(mat, basic2, w2, i),
        w2.len(),
    ) by {
        let f = mixed_terms(mat, basic, w, i);
        let g = mixed_terms(mat, basic2, w, i);
        let k = mixed_terms(mat, basic2, w2, i);
        let t = |c: int| mat.line(basic2[c] as int, i).val() * eta.value(c).val();
        eta_expresses(s, eta, info, i, t);
        sum_but_one(f, g, n, row);
        let t2 = |c: int| (-a) * t(c);
        sum_times(-a, t, t2, n);
        assert forall|c: int| 0 <= c < n implies #[trigger] k(c) == g(c) + t2(c) by {
            let (p, q, r) = (mat.line(basic2[c] as int, i).val(), w[c], h[c]);
            assert(r == eta.value(c).val());
            assert(p * (q - a * r) == p * q + (-a) * (p * r)) by (nonlinear_arith);
        }
        sum_plus(g, t2, k, n);
        let (p, q) = (mat.line(e as int, i).val(), mat.line(basic[row] as int, i).val());
        assert(p * a - q * a + (-a) * (p - q) == 0 as real) by (nonlinear_arith);
        assert(mat.line(v, i).val() == sum(f, n));
    }
}

/// The squares of the first `k` listed values.
spec fn listed_squares<T: Scalar>(idx: Seq<usize>, vals: Seq<T>, k: int) -> spec_fn(int) -> real {
    |i: int|
        if holds(idx, 0, k, i) {
            at(idx, vals, 0, idx.len() as int, i).val() * at(
                idx,
                vals,
                0,
                idx.len() as int,
                i,
            ).val()
        } else {
            0 as real
        }
}

proof fn square_sum_listed<T: Scalar>(idx: Seq<usize>, vals: Seq<T>, n: nat, k: int)
    requires
        exact::<T>(),
        vals.len() == idx.len(),
        distinct(idx, 0, idx.len() as int),
        below(idx, n as int),
        0 <= k <= idx.len(),
        square_sum(vals, k as nat).finite(),
    ensures
        square_sum(vals, k as nat).val() == sum(listed_squares(idx, vals, k), n),
        forall|p: int| 0 <= p < k ==> (#[trigger] vals[p]).finite(),
    decreases k,
{
    let g = listed_squares(idx, vals, k);
    if k == 0 {
        assert forall|i: int| 0 <= i < n implies #[trigger] g(i) == 0 as real by {
            assert(!holds(idx, 0, 0, i));
        }
        sum_zero(g, n);
    } else {
        square_sum_listed(idx, vals, n, k - 1);
        let f = listed_squares(idx, vals, k - 1);
        let r = idx[k - 1] as int;
        one_more(idx, 0, idx.len() as int, k - 1);
        at_place(idx, vals, 0, idx.len() as int, k - 1);
        assert forall|i: int| 0 <= i < n && i != r implies #[trigger] f(i) == g(i) by {
            assert(holds(idx, 0, k - 1 + 1, i) == holds(idx, 0, k, i));
        }
        assert(holds(idx, 0, k - 1 + 1, r));
        assert(idx[k - 1] < n);
        sum_but_one(f, g, n, r);
    }
}

/// The squared norm of listed values is that of the whole vector.
proof fn square_sum_whole<T: Scalar>(idx: Seq<usize>, vals: Seq<T>, w: Seq<real>)
    requires
        exact::<T>(),
        vals.len() == idx.len(),
        distinct(idx, 0, idx.len() as int),
        below(idx, w.len() as int),
        square_sum(vals, vals.len()).finite(),
        forall|i: int|
            0 <= i < w.len() ==> #[trigger] w[i] == at(
                idx,
                vals,
                0,
                idx.len() as int,
                i,
            ).val(),
    ensures
        square_sum(vals, vals.len()).val() == sum(square_terms(w), w.len()),
        finite_items(vals),
{
    let len = idx.len() as int;
    square_sum_listed(idx, vals, w.len(), len);
    let f = listed_squares(idx, vals, len);
    let g = square_terms(w);
    assert forall|i: int| 0 <= i < w.len() implies #[trigger] f(i) == g(i) by {
        if !holds(idx, 0, len, i) {
            assert(w[i] == at(idx, vals, 0, len, i).val());
            times_zero(w[i]);
        }
    }
    sum_same(f, g, w.len());
}

/// The numbers that a change of the norms works with are finite.
pub open spec fn finite_norms<T: Scalar>(
    s: Solver<T>,
    after: Solver<T>,
    info: PivotInfo<T>,
) -> bool {
    info.elem matches Some(elem) ==> {
        &&& finite_items(after.sq_norms_update_helper.values@)
        &&& finite_items(after.non_basic_col_sq_norms@)
        &&& exists|b: ScatteredVec<T>, y: ScatteredVec<T>| #[trigger]
            norms_follow(s, after, info.col as int, elem.coeff, b, y) && finite_items(y.values@)
    }
}

/// A change keeps the squared norms right.
pub proof fn pivot_keeps_norms<T: Scalar>(
    s: Solver<T>,
    after: Solver<T>,
    info: PivotInfo<T>,
    rho: Seq<T>,
)
    requires
        exact::<T>(),
        s.wf(),
        after.wf(),
        basis_kept(s),
        fitting(s, info),
        vertex_moved(s, after, info),
        norms_hold(s),
        finite_norms(s, after, info),
        info.elem matches Some(elem) ==> {
            &&& finite_items(s.row_coeffs.values@)
            &&& finite_items(after.eta_matrix_coeffs.values@)
            &&& row_of_inverse(
                s.orig_constraints_csc,
                s.basic_vars@,
                s.non_basic_vars@,
                elem.row as int,
                rho,
                s.row_coeffs.values@,
            )
        },
    ensures
        norms_hold(after),
{
    let mat = s.orig_constraints_csc;
    let (basic, rest) = (s.basic_vars@, s.non_basic_vars@);
    let col = info.col as int;
    if info.elem is None {
        assert forall|c: int| 0 <= c < after.non_basic_vars@.len() implies #[trigger] norm_holds(
            after,
            c,
        ) by {
            assert(norm_holds(s, c));
        }
    } else {
        let elem = info.elem->0;
        let row = elem.row as int;
        let n = s.m() as nat;
        let eta = after.eta_matrix_coeffs;
        let h = Seq::new(n, |k: int| eta.value(k).val());
        let alpha = s.row_coeffs.values@;
        let (b, y) = choose|b: ScatteredVec<T>, y: ScatteredVec<T>| #[trigger]
            norms_follow(s, after, col, elem.coeff, b, y) && finite_items(y.values@);
        let g = Seq::new(n, |i: int| eta.value(i));
        let unit = unit_vec::<T>(row, n as int);
        let ones = Seq::new(n, |k: int| unit[k].val());
        row_meets_col(mat, basic, rest, row, rho, alpha, s.col_coeffs, col);
        assert(s.row_coeffs.is_nonzero@[col]) by {
            if !s.row_coeffs.is_nonzero@[col] {
                assert(is_zero(s.row_coeffs.values@[col]));
            }
        }
        // the squared norm of the coefficients of the elementary matrix
        let sq = square_sum(eta.values@, eta.values@.len());
        assert(after.non_basic_col_sq_norms@[col].finite());
        assert(sq.finite());
        square_sum_whole(eta.indices@, eta.values@, h);
        let hh = sum(square_terms(h), n);
        assert forall|c: int| 0 <= c < after.non_basic_vars@.len() implies #[trigger] norm_holds(
            after,
            c,
        ) by {
            assert(after.non_basic_col_sq_norms@[c].finite());
            if c == col {
                let l = basic[row] as int;
                let w = ones;
                assert(mixes_to(mat, basic, w, l)) by {
                    assert forall|i: int| 0 <= i < mat.nrows implies (
                    #[trigger] mat.line(l, i)).val() == sum(
                        mixed_terms(mat, basic, w, i),
                        w.len(),
                    ) by {
                        let f = mixed_terms(mat, basic, w, i);
                        assert forall|k: int| 0 <= k < n && k != row implies #[trigger] f(k)
                            == 0 as real by {
                            times_zero(mat.line(basic[k] as int, i).val());
                        }
                        sum_single(f, n, row);
                        times_zero(mat.line(l, i).val());
                    }
                }
                shifted_mix(s, eta, info, h, w, l);
                shifted_squares(w, 1 as real, h);
                let f = square_terms(w);
                assert forall|k: int| 0 <= k < n && k != row implies #[trigger] f(k)
                    == 0 as real by {
                    times_zero(0 as real);
                }
                sum_single(f, n, row);
                times_zero(1 as real);
                let d = weighted(h, w);
                assert forall|k: int| 0 <= k < n && k != row implies #[trigger] d(k)
                    == 0 as real by {
                    times_zero(h[k]);
                }
                sum_single(d, n, row);
                times_zero(h[row]);
                eta_at_row(s, eta, info);
                let p = elem.coeff.val();
                let z = sum(d, n);
                assert((2 as real) * (1 as real) * z == (2 as real) * z) by (nonlinear_arith);
                assert((1 as real) * (1 as real) * hh == hh) by (nonlinear_arith);
                assert((2 as real) * (1 as real - 1 as real / p) == 2 as real - (2 as real) / p)
                    by (nonlinear_arith)
                    requires
                        p != 0 as real,
                ;
                let two = crate::pivot::two::<T>();
                assert(two.over_spec(elem.coeff).finite());
                assert(two.finite() && two.val() == 2 as real);
                let w2 = shifted(w, w[row], h);
                assert(after.basic_vars@ == basic.update(row, rest[col]));
                assert(after.non_basic_vars@[c] == l);
                assert(mixes_to(after.orig_constraints_csc, after.basic_vars@, w2, l));
            } else {
                assert(norm_holds(s, c));
                let v = rest[c] as int;
                let w = choose|w: Seq<real>|
                    w.len() == s.basic_vars@.len() && #[trigger] mixes_to(mat, basic, w, v)
                        && s.non_basic_col_sq_norms@[c].val() == sum(square_terms(w), w.len());
                let a = w[row];
                // the row gives the coefficient
                mixed_product(mat, basic, w, v, rho, unit, ones);
                let f = weighted(ones, w);
                assert forall|k: int| 0 <= k < n && k != row implies #[trigger] f(k)
                    == 0 as real by {
                    times_zero(w[k]);
                }
                sum_single(f, n, row);
                times_zero(a);
                assert(alpha[c].val() == a);
                shifted_mix(s, eta, info, h, w, v);
                shifted_squares(w, a, h);
                let w2 = shifted(w, a, h);
                assert(after.basic_vars@ == basic.update(row, rest[col]));
                assert(after.non_basic_vars@[c] == v);
                assert(mixes_to(after.orig_constraints_csc, after.basic_vars@, w2, v));
                if !s.row_coeffs.is_nonzero@[c] {
                    assert(is_zero(s.row_coeffs.values@[c]));
                    let z = sum(weighted(h, w), n);
                    assert((2 as real) * a * z == 0 as real && a * a * hh == 0 as real)
                        by (nonlinear_arith)
                        requires
                            a == 0 as real,
                    ;
                } else {
                    // the other solution gives the product
                    mixed_product(mat, basic, w, v, y.values@, g, h);
                    let x = after.sq_norms_update_helper.values@[c];
                    assert(x.finite());
                    row_sum_value(s.orig_constraints, mat, y, v, x);
                    let z = sum(weighted(h, w), n);
                    assert(x.val() == z);
                    let two = crate::pivot::two::<T>();
                    let first = two.negated_spec().times_spec(alpha[c]);
                    assert(first.finite() && first.val() == (-(2 as real)) * a);
                    assert(((-(2 as real)) * a) * z == -((2 as real) * a * z)) by (nonlinear_arith);
                    assert((hh * a) * a == a * a * hh) by (nonlinear_arith);
                }
            }
        }
    }
}

/// The coefficient of the elementary matrix in its row.
proof fn eta_at_row<T: Scalar>(s: Solver<T>, eta: SparseVec<T>, info: PivotInfo<T>)
    requires
        exact::<T>(),
        s.wf(),
        fitting(s, info),
        info.elem is Some,
        crate::pivot::eta_coeffs_of(
            s.col_coeffs,
            info.elem->0.row as int,
            info.elem->0.coeff,
            eta,
        ),
        finite_items(eta.values@),
    ensures
        eta.value(info.elem->0.row as int).val() == 1 as real - 1 as real
            / info.elem->0.coeff.val(),
{
    let row = info.elem->0.row as int;
    let k = info.elem->0.coeff.val();
    let idx = s.col_coeffs.indices@;
    let p = crate::sparse::place(idx, 0, idx.len() as int, row);
    assert(idx[p] == row);
    assert(eta.values@[p].finite());
    assert((k - 1 as real) / k == 1 as real - 1 as real / k) by (nonlinear_arith)
        requires
            k != 0 as real,
    ;
}

/// A step of the primal method keeps the squared norms right: those that are brought up to date
/// with every step are those of the columns.
pub proof fn step_keeps_norms<T: Scalar>(
    before: Solver<T>,
    mid: Solver<T>,
    after: Solver<T>,
    info: PivotInfo<T>,
)
    requires
        exact::<T>(),
        sound(before),
        after.wf(),
        step_made(before, mid, after, info, Ok(())),
        finite_step(mid, after, info),
        norms_hold(before),
        finite_norms(mid, after, info),
    ensures
        norms_hold(after),
{
    step_fits(before, mid, after, info);
    assert forall|c: int| 0 <= c < mid.non_basic_vars@.len() implies #[trigger] norm_holds(
        mid,
        c,
    ) by {
        assert(norm_holds(before, c));
    }
    pivot_keeps_norms(mid, after, info, mid.basis_solver.rhs.values@);
}

/// The squared norms that are computed from scratch are those of the columns.
pub proof fn recalculated_norms_hold<T: Scalar>(s: Solver<T>)
    requires
        exact::<T>(),
        s.wf(),
        basis_kept(s),
        s.enable_steepest_edge,
        finite_items(s.non_basic_col_sq_norms@),
        forall|c: int|
            0 <= c < s.non_basic_vars@.len() ==> s.is_sq_norm(
                s.non_basic_vars@[c] as int,
                #[trigger] s.non_basic_col_sq_norms@[c],
            ),
    ensures
        norms_hold(s),
{
    let mat = s.orig_constraints_csc;
    let n = s.m() as nat;
    assert forall|c: int| 0 <= c < s.non_basic_vars@.len() implies #[trigger] norm_holds(s, c) by {
        let v = s.non_basic_vars@[c] as int;
        let x = s.non_basic_col_sq_norms@[c];
        assert(s.is_sq_norm(v, x));
        let idx0 = mat.indices@.subrange(mat.lo(v), mat.hi(v));
        let data0 = mat.data@.subrange(mat.lo(v), mat.hi(v));
        let full = Seq::new(n, |i: int| mat.line(v, i));
        let (b, y) = choose|b: ScatteredVec<T>, y: ScatteredVec<T>|
            #![trigger holds_entries(b, idx0, data0), y.wf()]
            holds_entries(b, idx0, data0) && y.wf() && s.basis_solver.solved(b, y) && x
                == square_sum(
                Seq::new(y.nonzero@.len(), |p: int| y.values@[y.nonzero@[p] as int]),
                y.nonzero@.len(),
            ) && y.values@.len() == s.m() && (exact::<T>() && s.basis_solver.represents(
                mat,
                s.basic_vars@,
            ) && finite_items(y.values@) ==> crate::solve::solves(
                mat,
                s.basic_vars@,
                y.values@,
                Seq::new(s.m() as nat, |i: int| mat.line(v, i)),
            ));
        let list = y.nonzero@;
        let vals = Seq::new(list.len(), |p: int| y.values@[list[p] as int]);
        let w = Seq::new(n, |r: int| y.values@[r].val());
        assert(x.finite());
        assert forall|i: int| 0 <= i < w.len() implies #[trigger] w[i] == at(
            list,
            vals,
            0,
            list.len() as int,
            i,
        ).val() by {
            assert(y.is_nonzero@[i] <==> y.marked(i));
            if y.marked(i) {
                let p = crate::sparse::place(list, 0, list.len() as int, i);
                at_place(list, vals, 0, list.len() as int, p);
            } else {
                assert(is_zero(y.values@[i]));
            }
        }
        square_sum_whole(list, vals, w);
        assert forall|i: int| 0 <= i < n implies (#[trigger] y.values@[i]).finite() by {
            assert(y.is_nonzero@[i] <==> y.marked(i));
            if y.marked(i) {
                let p = crate::sparse::place(list, 0, list.len() as int, i);
                assert(vals[p].finite());
            } else {
                assert(is_zero(y.values@[i]));
            }
        }
        assert(crate::solve::solves(mat, s.basic_vars@, y.values@, full));
        assert(mixes_to(mat, s.basic_vars@, w, v)) by {
            assert forall|i: int| 0 <= i < mat.nrows implies (#[trigger] mat.line(v, i)).val()
                == sum(mixed_terms(mat, s.basic_vars@, w, i), w.len()) by {
                let f = row_terms(mat, s.basic_vars@, y.values@, i);
                let g = mixed_terms(mat, s.basic_vars@, w, i);
                sum_same(f, g, n);
                assert(full[i] == mat.line(v, i));
            }
        }
    }
}

/// The squared norms of the first vertex are those of the columns.
pub proof fn start_norms_hold<T: Scalar>(input: Input<T>, s: Solver<T>)
    requires
        exact::<T>(),
        input.wf(),
        started(input, s),
        s.wf(),
        finite_vertex(s),
        finite_items(s.non_basic_col_sq_norms@),
    ensures
        norms_hold(s),
{
    let mat = s.orig_constraints_csc;
    let rows = s.orig_constraints;
    let basic = s.basic_vars@;
    let n = s.m() as nat;
    let b = |i: int| input.entry(i, input.basic_var(i)).val();
    input.live_facts(input.constraints.len() as int);
    input.counts(0, input.m());
    assert forall|i: int| 0 <= i < n implies (#[trigger] b(i)) * b(i) == 1 as real by {
        input.basic_entry(i, i);
        assert(s.cur_bounds@[i].finite());
        assert(input.diff(input.source(i)).finite());
        let x = b(i);
        assert(x == 1 as real || x == -1 as real);
        assert(x * x == 1 as real) by (nonlinear_arith)
            requires
                x == 1 as real || x == -1 as real,
        ;
    }
    assert forall|c: int| 0 <= c < s.non_basic_vars@.len() implies #[trigger] norm_holds(s, c) by {
        let v = s.non_basic_vars@[c] as int;
        let a = Seq::new(n, |i: int| mat.line(v, i).val());
        let w = Seq::new(n, |i: int| mat.line(v, i).val() * b(i));
        assert(mixes_to(mat, basic, w, v)) by {
            assert forall|i: int| 0 <= i < mat.nrows implies (#[trigger] mat.line(v, i)).val()
                == sum(mixed_terms(mat, basic, w, i), w.len()) by {
                let f = mixed_terms(mat, basic, w, i);
                assert forall|r: int| 0 <= r < n && r != i implies #[trigger] f(r)
                    == 0 as real by {
                    input.basic_entry(r, i);
                    let u = input.basic_var(r);
                    assert(basic[r] == u);
                    assert(mat.line(u, i) == rows.line(i, u));
                    assert(!rows.line_has(i, u));
                    times_zero(w[r]);
                }
                sum_single(f, n, i);
                input.basic_entry(i, i);
                let u = input.basic_var(i);
                assert(basic[i] == u);
                assert(mat.line(u, i) == rows.line(i, u));
                let (p, q) = (mat.line(v, i).val(), b(i));
                assert(q * (p * q) == p * (q * q)) by (nonlinear_arith);
                times_zero(p);
            }
        }
        let (f, g) = (square_terms(w), square_terms(a));
        assert forall|i: int| 0 <= i < n implies #[trigger] f(i) == g(i) by {
            let (p, q) = (mat.line(v, i).val(), b(i));
            assert((p * q) * (p * q) == (p * p) * (q * q)) by (nonlinear_arith);
            times_zero(p * p);
        }
        sum_same(f, g, n);
        mat.line_wf(v);
        let (lo, hi) = (mat.lo(v), mat.hi(v));
        let idx = mat.indices@.subrange(lo, hi);
        let data = mat.data@.subrange(lo, hi);
        assert forall|i: int| 0 <= i < a.len() implies #[trigger] a[i] == at(
            idx,
            data,
            0,
            idx.len() as int,
            i,
        ).val() by {
            at_same(mat.indices@, mat.data@, lo, hi, idx, data, 0, hi - lo, i);
        }
        assert(s.non_basic_col_sq_norms@[c] == col_sq_norm(mat, v));
        assert(s.non_basic_col_sq_norms@[c].finite());
        assert(distinct(idx, 0, idx.len() as int));
        square_sum_whole(idx, data, a);
    }
}

/// A column has one squared norm in terms of a basis. So the norms that are kept from step to step
/// and those that are computed from scratch agree.
pub proof fn norms_agree<T: Scalar>(s: Solver<T>, t: Solver<T>, c: int)
    requires
        exact::<T>(),
        consistent(s),
        norms_hold(s),
        norms_hold(t),
        s.orig_constraints_csc == t.orig_constraints_csc,
        s.basic_vars@ == t.basic_vars@,
        s.non_basic_vars@ == t.non_basic_vars@,
        0 <= c < s.non_basic_vars@.len(),
    ensures
        s.non_basic_col_sq_norms@[c].val() == t.non_basic_col_sq_norms@[c].val(),
{
    let mat = s.orig_constraints_csc;
    let basic = s.basic_vars@;
    let n = basic.len();
    let v = s.non_basic_vars@[c] as int;
    assert(norm_holds(s, c));
    assert(norm_holds(t, c));
    let w = choose|w: Seq<real>|
        w.len() == basic.len() && #[trigger] mixes_to(mat, basic, w, v)
            && s.non_basic_col_sq_norms@[c].val() == sum(square_terms(w), w.len());
    let z = choose|w: Seq<real>|
        w.len() == basic.len() && #[trigger] mixes_to(mat, basic, w, v)
            && t.non_basic_col_sq_norms@[c].val() == sum(square_terms(w), w.len());
    let d = |k: int| w[k] - z[k];
    assert forall|i: int| 0 <= i < mat.nrows implies sum(
        #[trigger] combined_terms(mat, basic, d, i),
        n,
    ) == 0 as real by {
        let f = mixed_terms(mat, basic, w, i);
        let g = mixed_terms(mat, basic, z, i);
        let h = combined_terms(mat, basic, d, i);
        assert(mat.line(v, i).val() == sum(f, n));
        assert(mat.line(v, i).val() == sum(g, n));
        assert forall|k: int| 0 <= k < n implies #[trigger] f(k) == g(k) + h(k) by {
            let (p, q, r) = (mat.line(basic[k] as int, i).val(), w[k], z[k]);
            assert(p * q == p * r + p * (q - r)) by (nonlinear_arith);
        }
        sum_plus(g, h, f, n);
    }
    represented_is_independent(s);
    assert(vanishes(mat, basic, d));
    let (f, g) = (square_terms(w), square_terms(z));
    assert forall|k: int| 0 <= k < n implies #[trigger] f(k) == g(k) by {
        assert(d(k) == 0 as real);
    }
    sum_same(f, g, n);
}

} // verus!
