//! The bases that the method comes to have independent columns, where arithmetic is exact.
use crate::basis::{basis_change, eta_terms, BasisSolver};
use crate::edits::{extension_stuck, repaired};
use crate::error::Error;
use crate::handover::{found_is_sound, none_counted, sets_spare_artificial};
use crate::lu::{all_finite, dependent, fair_threshold, finite_elimination};
use crate::outcome::dual_program_stays;
use crate::phases::{
    bfs_found, bfs_found_by, climbed, climbed_by, count_within, dual_scan_facts, exit_made,
    freed_stuck, optimized, path_failed, restored, restored_by, step_made,
};
use crate::pricing::coeffs_prepared;
use crate::renewed::sharp_costs;
use crate::scalar::{exact, Scalar};
use crate::simplex::{
    coeff_row_terms, row_meets_col, row_of_inverse, PivotInfo, RelOp, Solver,
};
use crate::singular::{mixed_terms, mixes_to};
use crate::solve::finite_items;
use crate::sparse::{CsMat, CsVec};
use crate::steps::{
    dual_path_keeps, finite_dual_path, finite_primal_path, leaving_scan_facts, primal_path_keeps,
};
use crate::sums::{
    sum, sum_but_one, sum_longer, sum_plus, sum_same, sum_times, sum_zero, times_zero,
};
use crate::unique::{columns_are_independent, combined_terms};
use crate::vertex::{consistent, consistent_elsewhere, finite_vertex, sound};
use vstd::prelude::*;

verus! {

/// The combination of the columns with the weights `d` is zero.
pub open spec fn vanishes<T: Scalar>(
    mat: CsMat<T>,
    basic: Seq<usize>,
    d: spec_fn(int) -> real,
) -> bool {
    forall|r: int|
        0 <= r < mat.nrows ==> sum(#[trigger] combined_terms(mat, basic, d, r), basic.len())
            == 0 as real
}

/// Only with zeros do the columns combine to zero.
pub open spec fn independent<T: Scalar>(mat: CsMat<T>, basic: Seq<usize>) -> bool {
    forall|d: spec_fn(int) -> real, c: int|
        #![trigger vanishes(mat, basic, d), d(c)]
        vanishes(mat, basic, d) && 0 <= c < basic.len() ==> d(c) == 0 as real
}

/// Of independent columns none is a combination of those before.
pub proof fn independent_is_not_dependent<T: Scalar>(mat: CsMat<T>, basic: Seq<usize>)
    requires
        exact::<T>(),
        independent(mat, basic),
    ensures
        !dependent(mat, basic),
{
    if dependent(mat, basic) {
        let x = choose|x: Seq<real>| x.len() < basic.len() && #[trigger]
            mixes_to(mat, basic, x, basic[x.len() as int] as int);
        let k = x.len();
        let d = |c: int|
            if c < k {
                x[c]
            } else if c == k {
                -1 as real
            } else {
                0 as real
            };
        assert forall|r: int| 0 <= r < mat.nrows implies sum(
            #[trigger] combined_terms(mat, basic, d, r),
            basic.len(),
        ) == 0 as real by {
            let f = combined_terms(mat, basic, d, r);
            let g = mixed_terms(mat, basic, x, r);
            assert forall|c: int| k + 1 <= c < basic.len() implies #[trigger] f(c)
                == 0 as real by {
                times_zero(mat.line(basic[c] as int, r).val());
            }
            sum_longer(f, k + 1, basic.len());
            sum_same(f, g, k);
            let p = mat.line(basic[k as int] as int, r).val();
            assert(p * (-1 as real) == -p) by (nonlinear_arith);
            assert(p == sum(g, k));
        }
        assert(vanishes(mat, basic, d));
        assert(d(k as int) == 0 as real);
    }
}

spec fn weights_before(
    d: spec_fn(int) -> real,
    k: spec_fn(int) -> real,
    row: int,
) -> spec_fn(int) -> real {
    |c: int|
        if c == row {
            d(row) * k(row)
        } else {
            d(c) + d(row) * k(c)
        }
}

/// Columns stay independent when one of them is replaced by a combination in which it counts.
pub proof fn exchange_keeps_independent<T: Scalar>(
    mat: CsMat<T>,
    basic: Seq<usize>,
    row: int,
    e: usize,
    k: spec_fn(int) -> real,
)
    requires
        independent(mat, basic),
        0 <= row < basic.len(),
        k(row) != 0 as real,
        forall|i: int|
            0 <= i < mat.nrows ==> (#[trigger] mat.line(e as int, i)).val() == sum(
                combined_terms(mat, basic, k, i),
                basic.len(),
            ),
    ensures
        independent(mat, basic.update(row, e)),
{
    let basic2 = basic.update(row, e);
    let n = basic.len();
    assert forall|d: spec_fn(int) -> real, c: int|
        #![trigger vanishes(mat, basic2, d), d(c)]
        vanishes(mat, basic2, d) && 0 <= c < basic2.len() implies d(c) == 0 as real by {
        let w = weights_before(d, k, row);
        let a = d(row);
        assert forall|i: int| 0 <= i < mat.nrows implies sum(
            #[trigger] combined_terms(mat, basic, w, i),
            n,
        ) == 0 as real by {
            let f = combined_terms(mat, basic2, d, i);
            let g = combined_terms(mat, basic, w, i);
            let h = combined_terms(mat, basic, k, i);
            let s = |c: int| a * h(c);
            sum_times(a, h, s, n);
            let t = |c: int| g(c) - s(c);
            assert forall|c: int| 0 <= c < n && c != row implies #[trigger] f(c) == t(c) by {
                let (p, q, r) = (mat.line(basic[c] as int, i).val(), d(c), k(c));
                assert(p * (q + a * r) - a * (p * r) == p * q) by (nonlinear_arith);
            }
            sum_but_one(f, t, n, row);
            assert(t(row) == 0 as real) by {
                let (p, r) = (mat.line(basic[row] as int, i).val(), k(row));
                assert(p * (a * r) - a * (p * r) == 0 as real) by (nonlinear_arith);
            }
            assert forall|c: int| 0 <= c < n implies #[trigger] g(c) == t(c) + s(c) by {}
            sum_plus(t, s, g, n);
            assert(sum(f, n) == 0 as real);
            let p = mat.line(e as int, i).val();
            assert(p * a == a * p) by (nonlinear_arith);
        }
        assert(vanishes(mat, basic, w));
        assert(w(row) == 0 as real);
        let r = k(row);
        assert(a == 0 as real) by (nonlinear_arith)
            requires
                a * r == 0 as real,
                r != 0 as real,
        ;
        if c != row {
            assert(w(c) == 0 as real);
            times_zero(k(c));
        }
    }
}

proof fn chain_is_independent<T: Scalar>(
    bs: BasisSolver<T>,
    mat: CsMat<T>,
    bases: Seq<Seq<usize>>,
    k: int,
)
    requires
        exact::<T>(),
        bs.lu_factors.wf(),
        bs.chain(mat, bases),
        below_dim(bs),
        0 <= k < bases.len(),
    ensures
        independent(mat, bases[k]),
    decreases k,
{
    if k == 0 {
        let basic = bases[0];
        assert forall|d: spec_fn(int) -> real, c: int|
            #![trigger vanishes(mat, basic, d), d(c)]
            vanishes(mat, basic, d) && 0 <= c < basic.len() implies d(c) == 0 as real by {
            columns_are_independent(bs.lu_factors, mat, basic, d, c);
        }
    } else {
        let p = k - 1;
        chain_is_independent(bs, mat, bases, p);
        let etas = bs.eta_matrices;
        assert(basis_change(mat, etas, bases, p));
        let (old_cols, new_cols) = (bases[p], bases[k]);
        let n = old_cols.len();
        let r = etas.leaving_rows@[p] as int;
        let e = new_cols[r];
        let h = etas.coeff_cols.entry(r, p).val();
        let b = 1 as real / (1 as real - h);
        let w = |c: int|
            if c == r {
                b
            } else {
                b * etas.coeff_cols.entry(c, p).val()
            };
        assert(b != 0 as real && b * (1 as real - h) == 1 as real) by (nonlinear_arith)
            requires
                h != 1 as real,
                b == 1 as real / (1 as real - h),
        ;
        assert forall|i: int| 0 <= i < mat.nrows implies (#[trigger] mat.line(e as int, i)).val()
            == sum(combined_terms(mat, old_cols, w, i), n) by {
            let f = eta_terms(mat, new_cols, etas, p, i);
            let g = combined_terms(mat, old_cols, w, i);
            let s = |c: int| b * f(c);
            sum_times(b, f, s, n);
            assert forall|c: int| 0 <= c < n && c != r implies #[trigger] s(c) == g(c) by {
                let (x, y) = (
                    mat.line(old_cols[c] as int, i).val(),
                    etas.coeff_cols.entry(c, p).val(),
                );
                assert(b * (x * y) == x * (b * y)) by (nonlinear_arith);
            }
            sum_but_one(s, g, n, r);
            let (x, y) = (mat.line(e as int, i).val(), mat.line(old_cols[r] as int, i).val());
            let z = sum(f, n);
            assert(y == x - z);
            assert(x == b * z + y * b - b * (x * h)) by (nonlinear_arith)
                requires
                    b * (1 as real - h) == 1 as real,
                    y == x - z,
            ;
        }
        exchange_keeps_independent(mat, old_cols, r, e, w);
    }
}

spec fn below_dim<T: Scalar>(bs: BasisSolver<T>) -> bool {
    forall|k: int|
        0 <= k < bs.eta_matrices.leaving_rows@.len() ==> (
        #[trigger] bs.eta_matrices.leaving_rows@[k]) < bs.lu_factors.dim()
}

/// The columns of a basis that is represented are independent.
pub proof fn represented_is_independent<T: Scalar>(s: Solver<T>)
    requires
        exact::<T>(),
        consistent(s),
    ensures
        independent(s.orig_constraints_csc, s.basic_vars@),
{
    let mat = s.orig_constraints_csc;
    let bases = choose|bases: Seq<Seq<usize>>| #[trigger]
        s.basis_solver.chain(mat, bases) && bases.last() == s.basic_vars@;
    assert(below_dim(s.basis_solver));
    chain_is_independent(s.basis_solver, mat, bases, bases.len() - 1);
}

/// The numbers of the elimination of the new basis are finite.
pub open spec fn eliminates<T: Scalar>(s: Solver<T>) -> bool {
    finite_elimination(s.orig_constraints_csc, s.basic_vars@, T::stability_spec())
}

/// A step of the primal method does not come to a basis without factors.
pub proof fn step_is_not_singular<T: Scalar>(
    before: Solver<T>,
    mid: Solver<T>,
    after: Solver<T>,
    info: PivotInfo<T>,
)
    requires
        exact::<T>(),
        fair_threshold(T::stability_spec()),
        sound(before),
        finite_items(mid.col_coeffs.values@),
        info.entering_diff.finite(),
        eliminates(after),
    ensures
        !step_made(before, mid, after, info, Err(Error::SingularMatrix)),
{
    if step_made(before, mid, after, info, Err(Error::SingularMatrix)) {
        let c = info.col as int;
        let near = before.near_limit(c);
        let far = before.far_limit(c);
        let coeffs = mid.col_coeffs;
        let best = before.leaving_scan(coeffs, near, far, coeffs.indices@.len() as int);
        let m1 = choose|m1: Solver<T>| #[trigger] coeffs_prepared(before, m1, mid, c, best.row);
        assert(coeffs_prepared(before, m1, mid, c, best.row));
        assert(info == before.pivot_of(c, best));
        leaving_scan_facts(before, coeffs, near, far, coeffs.indices@.len() as int);
        let mat = before.orig_constraints_csc;
        let basic = before.basic_vars@;
        let row = info.elem->0.row as int;
        let e = before.non_basic_vars@[c];
        let k = |r: int| coeffs.value(r).val();
        represented_is_independent(before);
        assert(k(row) != 0 as real);
        assert forall|i: int| 0 <= i < mat.nrows implies (#[trigger] mat.line(e as int, i)).val()
            == sum(combined_terms(mat, basic, k, i), basic.len()) by {
            sum_same(
                coeff_row_terms(mat, basic, coeffs, i),
                combined_terms(mat, basic, k, i),
                basic.len(),
            );
        }
        exchange_keeps_independent(mat, basic, row, e, k);
        assert(after.basic_vars@ == basic.update(row, e));
        independent_is_not_dependent(mat, after.basic_vars@);
    }
}

/// The numbers that are calculated for the choice in a change that starts with a row are finite.
pub open spec fn finite_choice<T: Scalar>(
    mid: Solver<T>,
    ready: Solver<T>,
    row: usize,
    val: T,
) -> bool {
    &&& finite_items(mid.basis_solver.rhs.values@)
    &&& finite_items(mid.row_coeffs.values@)
    &&& finite_items(ready.col_coeffs.values@)
    &&& mid.dual_entering(row, val) matches Ok(info) ==> info.entering_diff.finite()
}

/// Nor does a change that starts with a row.
pub proof fn exit_is_not_singular<T: Scalar>(
    before: Solver<T>,
    mid: Solver<T>,
    ready: Solver<T>,
    after: Solver<T>,
    row: usize,
    val: T,
)
    requires
        exact::<T>(),
        fair_threshold(T::stability_spec()),
        consistent(before),
        row < before.m(),
        finite_choice(mid, ready, row, val),
        eliminates(after),
    ensures
        !exit_made(before, mid, ready, after, row, val, Err(Error::SingularMatrix)),
{
    if exit_made(before, mid, ready, after, row, val, Err(Error::SingularMatrix)) {
        let up = mid.cur_bounds@[row as int].less_spec(val);
        let best = mid.dual_entering_scan(up, mid.row_coeffs.nonzero@.len() as int);
        dual_scan_facts(mid, up, mid.row_coeffs.nonzero@.len() as int);
        let info = mid.dual_entering(row, val)->Ok_0;
        let c = info.col as int;
        consistent_elsewhere(before, mid);
        consistent_elsewhere(before, ready);
        let rho = mid.basis_solver.rhs.values@;
        let mat = before.orig_constraints_csc;
        let (basic, rest) = (before.basic_vars@, before.non_basic_vars@);
        let coeffs = ready.col_coeffs;
        let e = rest[c];
        assert(row_of_inverse(mat, basic, rest, row as int, rho, mid.row_coeffs.values@));
        row_meets_col(mat, basic, rest, row as int, rho, mid.row_coeffs.values@, coeffs, c);
        let k = |r: int| coeffs.value(r).val();
        represented_is_independent(before);
        assert(best.coeff.val() != 0 as real);
        assert(k(row as int) != 0 as real);
        assert forall|i: int| 0 <= i < mat.nrows implies (#[trigger] mat.line(e as int, i)).val()
            == sum(combined_terms(mat, basic, k, i), basic.len()) by {
            sum_same(
                coeff_row_terms(mat, basic, coeffs, i),
                combined_terms(mat, basic, k, i),
                basic.len(),
            );
        }
        exchange_keeps_independent(mat, basic, row as int, e, k);
        assert(after.basic_vars@ == basic.update(row as int, e));
        independent_is_not_dependent(mat, after.basic_vars@);
    }
}

/// Restoring feasibility does not fail for want of factors: where it fails within the limit of
/// steps, the program is called infeasible.
pub proof fn restoring_is_not_singular<T: Scalar>(
    path: Seq<Solver<T>>,
    before: Solver<T>,
    after: Solver<T>,
)
    requires
        exact::<T>(),
        fair_threshold(T::stability_spec()),
        finite_dual_path(path),
        path[0] == before,
        sound(before),
        eliminates(after),
        forall|mid: Solver<T>, ready: Solver<T>, row: usize, val: T| #[trigger]
            exit_made(path.last(), mid, ready, after, row, val, Err(Error::SingularMatrix))
                ==> finite_choice(mid, ready, row, val),
    ensures
        !restored_by(path, before, after, Err(Error::SingularMatrix)),
{
    if restored_by(path, before, after, Err(Error::SingularMatrix)) {
        let s = path.last();
        dual_path_keeps(path, path.len() - 1);
        let (row, val) = crate::phases::worst_row(s)->0;
        let (mid, ready) = choose|mid: Solver<T>, ready: Solver<T>| #[trigger]
            exit_made(s, mid, ready, after, row, val, Err(Error::SingularMatrix));
        crate::steps::worst_row_facts(s, s.m());
        exit_is_not_singular(s, mid, ready, after, row, val);
    }
}

/// The numbers of the step that a path ends with, for want of factors, are finite.
pub open spec fn finite_dead_end<T: Scalar>(last: Solver<T>, after: Solver<T>) -> bool {
    forall|mid: Solver<T>, info: PivotInfo<T>| #[trigger]
        step_made(last, mid, after, info, Err(Error::SingularMatrix)) ==> finite_items(
            mid.col_coeffs.values@,
        ) && info.entering_diff.finite()
}

/// A climb does not fail for want of factors.
pub proof fn climbing_is_not_singular<T: Scalar>(path: Seq<Solver<T>>, after: Solver<T>)
    requires
        exact::<T>(),
        fair_threshold(T::stability_spec()),
        finite_primal_path(path),
        sound(path[0]),
        eliminates(after),
        finite_dead_end(path.last(), after),
    ensures
        !path_failed(path, after, Error::SingularMatrix),
{
    if path_failed(path, after, Error::SingularMatrix) {
        let s = path.last();
        primal_path_keeps(path, path.len() - 1);
        let (mid, info) = choose|mid: Solver<T>, info: PivotInfo<T>| #[trigger]
            step_made(s, mid, after, info, Err(Error::SingularMatrix));
        step_is_not_singular(s, mid, after, info);
    }
}

/// Taking the artificial variables out does not fail for want of factors.
pub proof fn freeing_is_not_singular<T: Scalar>(x: Solver<T>, after: Solver<T>)
    requires
        exact::<T>(),
        fair_threshold(T::stability_spec()),
        sound(x),
        x.basic_artificial() == 0,
        eliminates(after),
    ensures
        !freed_stuck(x, after),
{
    if freed_stuck(x, after) {
        let (big, mat) = (x.orig_constraints_csc, after.orig_constraints_csc);
        let basic = x.basic_vars@;
        none_counted(basic, x.art_start(), basic.len() as int);
        represented_is_independent(x);
        assert forall|d: spec_fn(int) -> real, c: int|
            #![trigger vanishes(mat, basic, d), d(c)]
            vanishes(mat, basic, d) && 0 <= c < basic.len() implies d(c) == 0 as real by {
            assert forall|r: int| 0 <= r < big.nrows implies sum(
                #[trigger] combined_terms(big, basic, d, r),
                basic.len(),
            ) == 0 as real by {
                let f = combined_terms(big, basic, d, r);
                let g = combined_terms(mat, basic, d, r);
                assert forall|k: int| 0 <= k < basic.len() implies #[trigger] f(k) == g(k) by {
                    let v = basic[k] as int;
                    assert(v < x.art_start());
                    assert(mat.line(v, r) == after.orig_constraints.line(r, v));
                    assert(big.line(v, r) == x.orig_constraints.line(r, v));
                }
                sum_same(f, g, basic.len());
                assert(sum(g, basic.len()) == 0 as real);
            }
            assert(vanishes(big, basic, d));
        }
        assert(independent(mat, after.basic_vars@));
        independent_is_not_dependent(mat, after.basic_vars@);
    }
}

/// The numbers are finite on every way that an optimization can have gone until it found no factors,
/// and where the artificial variables are taken out no reduced cost is lost in the tolerance.
#[verifier::opaque]
pub open spec fn plain_search<T: Scalar>(before: Solver<T>, after: Solver<T>) -> bool {
    &&& eliminates(after)
    &&& forall|p: Seq<Solver<T>>| #[trigger]
        climbed_by(p, before, after, Err(Error::SingularMatrix)) ==> finite_primal_path(p)
            && finite_dead_end(p.last(), after)
    &&& forall|p: Seq<Solver<T>>| #[trigger]
        bfs_found_by(p, before, after, Err(Error::SingularMatrix)) ==> finite_primal_path(p)
            && finite_dead_end(p.last(), after)
    &&& forall|p: Seq<Solver<T>>, start: Solver<T>, q: Seq<Solver<T>>|
        #![trigger bfs_found_by(p, before, start, Ok(())), climbed_by(q, start, after, Err(Error::SingularMatrix))]
        bfs_found_by(p, before, start, Ok(())) && climbed_by(
            q,
            start,
            after,
            Err(Error::SingularMatrix),
        ) ==> finite_primal_path(p) && finite_vertex(start) && all_finite(
            start.basis_solver.lu_factors.lower,
        ) && all_finite(start.basis_solver.lu_factors.upper) && sharp_costs(start)
            && finite_primal_path(q) && finite_dead_end(q.last(), after)
}

/// An optimization does not fail for want of factors.
pub proof fn optimization_is_not_singular<T: Scalar>(before: Solver<T>, after: Solver<T>)
    requires
        exact::<T>(),
        fair_threshold(T::stability_spec()),
        sound(before),
        sets_spare_artificial(before),
        plain_search(before, after),
    ensures
        !optimized(before, after, Err(Error::SingularMatrix)),
{
    reveal(plain_search);
    let bad = Err::<(), Error>(Error::SingularMatrix);
    if optimized(before, after, bad) {
        if before.num_artificial_vars == 0 {
            let p = choose|p: Seq<Solver<T>>| #[trigger] climbed_by(p, before, after, bad);
            climbing_is_not_singular(p, after);
        } else if bfs_found(before, after, bad) {
            let p = choose|p: Seq<Solver<T>>| #[trigger] bfs_found_by(p, before, after, bad);
            climbing_is_not_singular(p, after);
            primal_path_keeps(p, p.len() - 1);
            count_within(before);
            count_within(p.last());
            freeing_is_not_singular(p.last(), after);
        } else {
            let start = choose|start: Solver<T>| #[trigger]
                bfs_found(before, start, Ok(())) && climbed(start, after, bad);
            let p = choose|p: Seq<Solver<T>>| #[trigger] bfs_found_by(p, before, start, Ok(()));
            let q = choose|q: Seq<Solver<T>>| #[trigger] climbed_by(q, start, after, bad);
            assert(q[0].wf());
            found_is_sound(p, before, start);
            climbing_is_not_singular(q, after);
        }
    }
}

/// A basis with one more constraint, and its slack variable, has factors.
pub proof fn extension_is_not_singular<T: Scalar>(
    before: Solver<T>,
    after: Solver<T>,
    coeffs: CsVec<T>,
    rel_op: RelOp,
    bound: T,
)
    requires
        exact::<T>(),
        fair_threshold(T::stability_spec()),
        sound(before),
        before.num_artificial_vars == 0,
        eliminates(after),
    ensures
        !extension_stuck(before, after, coeffs, rel_op, bound),
{
    if extension_stuck(before, after, coeffs, rel_op, bound) {
        let (small, mat) = (before.orig_constraints_csc, after.orig_constraints_csc);
        let (basic, basic2) = (before.basic_vars@, after.basic_vars@);
        let slack = before.total();
        let m = before.m();
        represented_is_independent(before);
        assert forall|i: int| 0 <= i < m implies (#[trigger] mat.line(slack, i)).val()
            == 0 as real by {
            assert(mat.line(slack, i) == after.orig_constraints.line(i, slack));
            assert(after.orig_constraints.line(i, slack) == before.orig_constraints.line(i, slack));
            let rows = before.orig_constraints;
            rows.line_wf(i);
            if rows.line_has(i, slack) {
                let p = crate::sparse::place(rows.indices@, rows.lo(i), rows.hi(i), slack);
                assert(rows.indices@[p] == slack);
            }
        }
        let sign = mat.line(slack, m).val();
        assert(sign != 0 as real) by {
            assert(mat.line(slack, m) == after.orig_constraints.line(m, slack));
        }
        assert forall|d: spec_fn(int) -> real, c: int|
            #![trigger vanishes(mat, basic2, d), d(c)]
            vanishes(mat, basic2, d) && 0 <= c < basic2.len() implies d(c) == 0 as real by {
            assert forall|r: int| 0 <= r < small.nrows implies sum(
                #[trigger] combined_terms(small, basic, d, r),
                basic.len(),
            ) == 0 as real by {
                let f = combined_terms(small, basic, d, r);
                let g = combined_terms(mat, basic2, d, r);
                assert forall|k: int| 0 <= k < m implies #[trigger] f(k) == g(k) by {
                    let v = basic[k] as int;
                    assert(mat.line(v, r) == after.orig_constraints.line(r, v));
                    assert(small.line(v, r) == before.orig_constraints.line(r, v));
                }
                sum_same(f, g, m as nat);
                assert(sum(g, basic2.len()) == 0 as real);
                times_zero(d(m));
                assert(g(m) == 0 as real);
            }
            assert(vanishes(small, basic, d));
            assert forall|k: int| 0 <= k < m implies #[trigger] d(k) == 0 as real by {}
            let g = combined_terms(mat, basic2, d, m);
            assert(sum(g, basic2.len()) == 0 as real);
            assert forall|k: int| 0 <= k < m implies #[trigger] g(k) == 0 as real by {
                assert(d(k) == 0 as real);
                times_zero(mat.line(basic2[k] as int, m).val());
            }
            sum_zero(g, m as nat);
            assert(g(m) == sign * d(m));
            let x = d(m);
            assert(x == 0 as real) by (nonlinear_arith)
                requires
                    sign * x == 0 as real,
                    sign != 0 as real,
            ;
        }
        assert(independent(mat, basic2));
        independent_is_not_dependent(mat, basic2);
    }
}

/// The numbers are finite on every way that a repair can have gone until it found no factors.
#[verifier::opaque]
pub open spec fn plain_repair<T: Scalar>(before: Solver<T>, after: Solver<T>) -> bool {
    &&& eliminates(after)
    &&& forall|p: Seq<Solver<T>>| #[trigger]
        restored_by(p, before, after, Err(Error::SingularMatrix)) ==> finite_dual_path(p) && (
        forall|mid: Solver<T>, ready: Solver<T>, row: usize, val: T| #[trigger]
            exit_made(p.last(), mid, ready, after, row, val, Err(Error::SingularMatrix))
                ==> finite_choice(mid, ready, row, val))
    &&& forall|p: Seq<Solver<T>>, mid: Solver<T>, q: Seq<Solver<T>>|
        #![trigger restored_by(p, before, mid, Ok(())), climbed_by(q, mid, after, Err(Error::SingularMatrix))]
        restored_by(p, before, mid, Ok(())) && climbed_by(
            q,
            mid,
            after,
            Err(Error::SingularMatrix),
        ) ==> finite_dual_path(p) && finite_primal_path(q) && finite_dead_end(q.last(), after)
}

/// A repair does not fail for want of factors.
pub proof fn repair_is_not_singular<T: Scalar>(before: Solver<T>, after: Solver<T>)
    requires
        exact::<T>(),
        fair_threshold(T::stability_spec()),
        sound(before),
        before.num_artificial_vars == 0,
        plain_repair(before, after),
    ensures
        !repaired(before, after, Err(Error::SingularMatrix)),
{
    reveal(plain_repair);
    let bad = Err::<(), Error>(Error::SingularMatrix);
    if repaired(before, after, bad) {
        if restored(before, after, bad) {
            let p = choose|p: Seq<Solver<T>>| #[trigger] restored_by(p, before, after, bad);
            restoring_is_not_singular(p, before, after);
        } else {
            let mid = choose|mid: Solver<T>| #[trigger]
                restored(before, mid, Ok(())) && optimized(mid, after, bad);
            let p = choose|p: Seq<Solver<T>>| #[trigger] restored_by(p, before, mid, Ok(()));
            dual_program_stays(p, p.len() - 1);
            assert(climbed(mid, after, bad));
            let q = choose|q: Seq<Solver<T>>| #[trigger] climbed_by(q, mid, after, bad);
            dual_path_keeps(p, p.len() - 1);
            climbing_is_not_singular(q, after);
        }
    }
}

} // verus!
