//! Steps from vertex to vertex, where arithmetic is exact.
use crate::edits::value_moved_from;
use crate::error::Error;
use crate::phases::{dual_path, dual_scan_facts, exit_made, primal_path, step_made, worst_row};
use crate::pivot::basis_moved;
use crate::pricing::coeffs_prepared;
use crate::scalar::{exact, Scalar};
use crate::simplex::{row_meets_col, row_of_inverse, PivotInfo, Solver, SENTINEL};
use crate::solve::finite_items;
use crate::sparse::{at_place, SparseVec};
use crate::sums::times_zero;
use crate::vertex::{
    along, along_is_worth, along_keeps_constraints, at_limit, consistent, consistent_elsewhere,
    finite_basis, finite_vertex, fitting, lhs_terms, pivot_keeps, price, sound,
};
use vstd::prelude::*;

verus! {

/// The numbers that are calculated for a step are finite.
pub open spec fn finite_step<T: Scalar>(
    mid: Solver<T>,
    after: Solver<T>,
    info: PivotInfo<T>,
) -> bool {
    &&& finite_items(mid.col_coeffs.values@)
    &&& finite_vertex(after)
    &&& info.elem is Some ==> {
        &&& finite_items(mid.basis_solver.rhs.values@)
        &&& finite_items(mid.row_coeffs.values@)
        &&& finite_basis(after)
    }
}

/// What the choice of a row comes from.
pub proof fn leaving_scan_facts<T: Scalar>(
    s: Solver<T>,
    coeffs: SparseVec<T>,
    near: T,
    far: T,
    k: int,
)
    requires
        coeffs.wf(s.m()),
        0 <= k <= coeffs.indices@.len(),
    ensures
        ({
            let best = s.leaving_scan(coeffs, near, far, k);
            best.row matches Some(row) ==> {
                let v = s.basic_vars@[row as int] as int;
                &&& row < s.m()
                &&& coeffs.stores(row as int)
                &&& best.coeff == coeffs.value(row as int)
                &&& best.new_val == s.orig_var_mins@[v] || best.new_val == s.orig_var_maxs@[v]
            }
        }),
    decreases k,
{
    if k > 0 {
        leaving_scan_facts(s, coeffs, near, far, k - 1);
        let n = coeffs.indices@.len() as int;
        at_place(coeffs.indices@, coeffs.values@, 0, n, k - 1);
        assert(coeffs.indices@[k - 1] < s.m());
    }
}

/// A step of the primal method is a change that fits.
pub proof fn step_fits<T: Scalar>(
    before: Solver<T>,
    mid: Solver<T>,
    after: Solver<T>,
    info: PivotInfo<T>,
)
    requires
        exact::<T>(),
        sound(before),
        after.wf(),
        step_made(before, mid, after, info, Ok(())),
        finite_step(mid, after, info),
    ensures
        consistent(mid),
        mid.same_program(before),
        mid.same_vertex(before),
        fitting(mid, info),
        at_limit(after, info.col as int),
        !before.set_vars@.contains_key(before.non_basic_vars@[info.col as int]),
        info.elem matches Some(elem) ==> row_of_inverse(
            mid.orig_constraints_csc,
            mid.basic_vars@,
            mid.non_basic_vars@,
            elem.row as int,
            mid.basis_solver.rhs.values@,
            mid.row_coeffs.values@,
        ),
{
    let c = before.entering_scan(before.cur_obj@.len() as int).col->0 as int;
    let near = before.near_limit(c);
    let far = before.far_limit(c);
    let coeffs = mid.col_coeffs;
    let best = before.leaving_scan(coeffs, near, far, coeffs.indices@.len() as int);
    let e = before.non_basic_vars@[c];
    let m1 = choose|m1: Solver<T>| #[trigger] coeffs_prepared(before, m1, mid, c, best.row);
    assert(coeffs_prepared(before, m1, mid, c, best.row));
    assert(info == before.pivot_of(c, best));
    consistent_elsewhere(before, m1);
    consistent_elsewhere(before, mid);
    leaving_scan_facts(before, coeffs, near, far, coeffs.indices@.len() as int);
    assert(at_limit(before, c));
    assert(!before.set_vars@.contains_key(e));
    // the entering variable is at its near limit
    let x = before.non_basic_vals@[c];
    let (min, max) = (before.orig_var_mins@[e as int], before.orig_var_maxs@[e as int]);
    assert(x.finite());
    assert(near.finite() && x.val() == near.val()) by {
        if !x.same_spec(min) {
            assert(max.finite() && x.val() == max.val());
        }
    }
    if info.elem is Some {
        let elem = info.elem->0;
        let row = elem.row as int;
        let cur = before.cur_bounds@[row];
        let diff = info.entering_diff;
        assert(mid.cur_bounds@[row] == cur);
        assert(after.cur_bounds@[row] == crate::pivot::moved_bound(mid, info, row));
        assert(after.cur_bounds@[row] == info.entering_new_val);
        assert(after.cur_bounds@[row].finite());
        assert(diff.finite());
        assert(cur.minus_spec(best.new_val).finite());
        let (p, k) = (cur.val() - best.new_val.val(), elem.coeff.val());
        assert(diff.val() == p / k);
        assert((p / k) * k == p) by (nonlinear_arith)
            requires
                k != 0 as real,
        ;
        assert(fitting(mid, info));
        let l = before.basic_vars@[row];
        assert(after.non_basic_vars@[c] == l);
        assert(!before.set_vars@.contains_key(l));
        assert(after.non_basic_vals@[c] == best.new_val);
        assert(at_limit(after, c));
    } else {
        assert(after.non_basic_vals@[c] == far);
        assert(after.non_basic_vals@[c].finite());
        assert(after.cur_obj_val.finite());
        assert(info.entering_diff.finite());
        assert(fitting(mid, info));
        assert(at_limit(after, c));
    }
}

/// A step of the primal method keeps what a vertex keeps.
pub proof fn step_keeps<T: Scalar>(
    before: Solver<T>,
    mid: Solver<T>,
    after: Solver<T>,
    info: PivotInfo<T>,
)
    requires
        exact::<T>(),
        sound(before),
        after.wf(),
        step_made(before, mid, after, info, Ok(())),
        finite_step(mid, after, info),
    ensures
        sound(after),
{
    step_fits(before, mid, after, info);
    assert forall|r: int|
        0 <= r < mid.basic_vars@.len() implies !mid.set_vars@.contains_key(
        #[trigger] mid.basic_vars@[r],
    ) by {
        assert(!before.set_vars@.contains_key(before.basic_vars@[r]));
    }
    pivot_keeps(mid, after, info, mid.basis_solver.rhs.values@);
}

/// The value is one that the variable in row `row` may leave with.
pub open spec fn may_leave_with<T: Scalar>(s: Solver<T>, row: int, val: T) -> bool {
    let v = s.basic_vars@[row];
    if s.set_vars@.contains_key(v) {
        val.val() == s.set_vars@[v].val()
    } else {
        val == s.orig_var_mins@[v as int] || val == s.orig_var_maxs@[v as int]
    }
}

/// The numbers that are calculated for a change that starts with a row are finite.
pub open spec fn finite_exit<T: Scalar>(
    mid: Solver<T>,
    ready: Solver<T>,
    after: Solver<T>,
) -> bool {
    &&& finite_items(mid.basis_solver.rhs.values@)
    &&& finite_items(mid.row_coeffs.values@)
    &&& finite_items(ready.col_coeffs.values@)
    &&& finite_vertex(after)
    &&& finite_basis(after)
}

/// The change in which the variable in row `row` leaves is one that fits.
pub proof fn exit_fits<T: Scalar>(
    before: Solver<T>,
    mid: Solver<T>,
    ready: Solver<T>,
    after: Solver<T>,
    row: usize,
    val: T,
)
    requires
        exact::<T>(),
        consistent(before),
        row < before.m(),
        may_leave_with(before, row as int, val),
        after.wf(),
        exit_made(before, mid, ready, after, row, val, Ok(())),
        finite_exit(mid, ready, after),
    ensures
        ({
            let info = mid.dual_entering(row, val)->Ok_0;
            &&& consistent(ready)
            &&& fitting(ready, info)
            &&& info.elem matches Some(elem) && elem.row == row
            &&& at_limit(after, info.col as int)
            &&& !before.set_vars@.contains_key(before.non_basic_vars@[info.col as int])
            &&& row_of_inverse(
                ready.orig_constraints_csc,
                ready.basic_vars@,
                ready.non_basic_vars@,
                row as int,
                mid.basis_solver.rhs.values@,
                ready.row_coeffs.values@,
            )
        }),
{
    let up = mid.cur_bounds@[row as int].less_spec(val);
    let best = mid.dual_entering_scan(up, mid.row_coeffs.nonzero@.len() as int);
    dual_scan_facts(mid, up, mid.row_coeffs.nonzero@.len() as int);
    let info = mid.dual_entering(row, val)->Ok_0;
    let c = info.col as int;
    consistent_elsewhere(before, mid);
    consistent_elsewhere(before, ready);
    let cur = before.cur_bounds@[row as int];
    let diff = info.entering_diff;
    let rho = mid.basis_solver.rhs.values@;
    let mat = before.orig_constraints_csc;
    assert(row_of_inverse(
        mat,
        before.basic_vars@,
        before.non_basic_vars@,
        row as int,
        rho,
        mid.row_coeffs.values@,
    ));
    row_meets_col(
        mat,
        before.basic_vars@,
        before.non_basic_vars@,
        row as int,
        rho,
        mid.row_coeffs.values@,
        ready.col_coeffs,
        c,
    );
    assert(after.cur_obj_val.finite());
    assert(diff.finite());
    let (p, k) = (cur.val() - val.val(), best.coeff.val());
    assert(k != 0 as real);
    assert(diff.val() == p / k);
    assert((p / k) * k == p) by (nonlinear_arith)
        requires
            k != 0 as real,
    ;
    assert(ready.col_coeffs.stores(row as int));
    assert(after.cur_bounds@[row as int] == crate::pivot::moved_bound(ready, info, row as int));
    assert(after.cur_bounds@[row as int].finite());
    assert(fitting(ready, info));
    assert(after.non_basic_vars@[c] == before.basic_vars@[row as int]);
    assert(after.non_basic_vals@[c] == val);
    assert(at_limit(after, c));
}

/// The change in which the variable in row `row` leaves keeps what a vertex keeps; that variable
/// may have been set before.
pub proof fn exit_keeps<T: Scalar>(
    before: Solver<T>,
    mid: Solver<T>,
    ready: Solver<T>,
    after: Solver<T>,
    row: usize,
    val: T,
)
    requires
        exact::<T>(),
        consistent(before),
        row < before.m(),
        forall|r: int|
            0 <= r < before.basic_vars@.len() && r != row ==> !before.set_vars@.contains_key(
                #[trigger] before.basic_vars@[r],
            ),
        may_leave_with(before, row as int, val),
        after.wf(),
        exit_made(before, mid, ready, after, row, val, Ok(())),
        finite_exit(mid, ready, after),
    ensures
        sound(after),
{
    exit_fits(before, mid, ready, after, row, val);
    let info = mid.dual_entering(row, val)->Ok_0;
    pivot_keeps(ready, after, info, mid.basis_solver.rhs.values@);
}

/// Moving a non-basic variable keeps what a vertex keeps. Only the variable that moves may be set
/// or not set any more by it.
pub proof fn move_keeps<T: Scalar>(
    before: Solver<T>,
    marked: Solver<T>,
    ready: Solver<T>,
    after: Solver<T>,
    col: int,
    diff: T,
    new_val: T,
)
    requires
        exact::<T>(),
        sound(before),
        0 <= col < before.non_basic_vars@.len(),
        marked == (Solver { set_vars: marked.set_vars, ..before }),
        marked.set_vars@.remove(before.non_basic_vars@[col]) == before.set_vars@.remove(
            before.non_basic_vars@[col],
        ),
        value_moved_from(marked, ready, after, col, diff, new_val),
        new_val.val() == before.non_basic_vals@[col].val() + diff.val(),
        after.wf(),
        finite_items(ready.col_coeffs.values@),
        finite_vertex(after),
        at_limit(after, col),
    ensures
        sound(after),
{
    let e = before.non_basic_vars@[col] as int;
    let mat = before.orig_constraints_csc;
    let coeffs = ready.col_coeffs;
    let step = diff.val();
    let (x, z) = (before.point(), after.point());
    let bases = choose|bases: Seq<Seq<usize>>| #[trigger]
        before.basis_solver.chain(mat, bases) && bases.last() == before.basic_vars@;
    assert(marked.basis_solver.chain(mat, bases));
    assert(after.basis_solver.chain(mat, bases));
    assert(after.cur_obj_val.finite());
    assert(diff.finite());
    let a = along(before, coeffs, e);
    assert forall|v: int| 0 <= v < before.total() implies #[trigger] z(v) == x(v) + step * a(v) by {
        times_zero(step);
        assert((before.basic_vars_inv@[v] == SENTINEL) != (before.non_basic_vars_inv@[v]
            == SENTINEL));
        if before.basic_vars_inv@[v] != SENTINEL {
            let r = before.basic_vars_inv@[v] as int;
            assert(after.cur_bounds@[r].finite());
            let d = coeffs.value(r).val();
            assert(step * (-d) == -(step * d)) by (nonlinear_arith);
        } else {
            let c = before.non_basic_vars_inv@[v] as int;
            assert(before.non_basic_vars@[c] == v);
            assert(before.non_basic_vars_inv@[e] == col);
        }
    }
    along_keeps_constraints(before, coeffs, col, step, x, z);
    assert forall|i: int| 0 <= i < after.m() implies crate::sums::sum(
        lhs_terms(after.orig_constraints_csc, z, i),
        after.total() as nat,
    ) == (#[trigger] after.orig_bounds@[i]).val() by {
        assert(before.orig_bounds@[i].val() == after.orig_bounds@[i].val());
    }
    let y = choose|y: Seq<real>| before.priced(y);
    along_is_worth(before, coeffs, col, step, x, z, y);
    crate::sums::sum_same(before.worth_terms(z), after.worth_terms(z), before.total() as nat);
    assert forall|r: int| 0 <= r < after.m() implies after.cost(#[trigger] after.basic_vars@[r] as int)
        == price(mat, after.basic_vars@[r] as int, y) by {
        assert(before.cost(before.basic_vars@[r] as int) == price(
            mat,
            before.basic_vars@[r] as int,
            y,
        ));
    }
    assert forall|c: int| 0 <= c < after.cur_obj@.len() implies (#[trigger] after.cur_obj@[c]).val()
        == after.cost(after.non_basic_vars@[c] as int) - price(
        mat,
        after.non_basic_vars@[c] as int,
        y,
    ) by {
        assert(before.cur_obj@[c].val() == before.cost(before.non_basic_vars@[c] as int) - price(
            mat,
            before.non_basic_vars@[c] as int,
            y,
        ));
    }
    assert(after.priced(y));
    let (old_sets, new_sets) = (before.set_vars@, marked.set_vars@);
    let var = before.non_basic_vars@[col];
    assert forall|v: usize| v != var implies #[trigger] new_sets.contains_key(v)
        == old_sets.contains_key(v) && (new_sets.contains_key(v) ==> new_sets[v] == old_sets[v]) by {
        assert(new_sets.remove(var).contains_key(v) == old_sets.remove(var).contains_key(v));
        assert(new_sets.remove(var)[v] == old_sets.remove(var)[v]);
    }
    assert forall|c: int| 0 <= c < after.non_basic_vars@.len() implies #[trigger] at_limit(
        after,
        c,
    ) by {
        if c != col {
            assert(at_limit(before, c));
            assert(before.non_basic_vars_inv@[before.non_basic_vars@[c] as int] == c);
            assert(before.non_basic_vars_inv@[e] == col);
            assert(new_sets.contains_key(after.non_basic_vars@[c]) == old_sets.contains_key(
                after.non_basic_vars@[c],
            ));
        }
    }
    assert forall|r: int| 0 <= r < after.basic_vars@.len() implies !after.set_vars@.contains_key(
        #[trigger] after.basic_vars@[r],
    ) by {
        assert(!old_sets.contains_key(before.basic_vars@[r]));
        assert(before.basic_vars_inv@[before.basic_vars@[r] as int] == r);
        assert((before.basic_vars_inv@[e] == SENTINEL) != (before.non_basic_vars_inv@[e]
            == SENTINEL));
        assert(before.non_basic_vars_inv@[e] == col);
        assert(new_sets.contains_key(before.basic_vars@[r]) == old_sets.contains_key(
            before.basic_vars@[r],
        ));
    }
}

/// A step whose numbers are finite.
pub open spec fn finite_primal_step<T: Scalar>(before: Solver<T>, after: Solver<T>) -> bool {
    exists|mid: Solver<T>, info: PivotInfo<T>| #[trigger]
        step_made(before, mid, after, info, Ok(())) && finite_step(mid, after, info)
}

pub open spec fn finite_primal_at<T: Scalar>(s: Seq<Solver<T>>, i: int) -> bool {
    finite_primal_step(s[i], s[i + 1])
}

/// A path of the primal method whose numbers are finite.
pub open spec fn finite_primal_path<T: Scalar>(s: Seq<Solver<T>>) -> bool {
    &&& primal_path(s)
    &&& forall|i: int| 0 <= i < s.len() - 1 ==> #[trigger] finite_primal_at(s, i)
}

/// Every vertex on a path of the primal method keeps what the first one has.
pub proof fn primal_path_keeps<T: Scalar>(s: Seq<Solver<T>>, k: int)
    requires
        exact::<T>(),
        finite_primal_path(s),
        sound(s[0]),
        0 <= k < s.len(),
    ensures
        sound(s[k]),
        s[k].same_program(s[0]),
        s[k].set_vars == s[0].set_vars,
    decreases k,
{
    if k > 0 {
        primal_path_keeps(s, k - 1);
        assert(finite_primal_at(s, k - 1));
        let (mid, info) = choose|mid: Solver<T>, info: PivotInfo<T>| #[trigger]
            step_made(s[k - 1], mid, s[k], info, Ok(())) && finite_step(mid, s[k], info);
        assert(s[k].wf());
        step_keeps(s[k - 1], mid, s[k], info);
    }
}

/// A step of the dual method whose numbers are finite.
pub open spec fn finite_dual_step<T: Scalar>(before: Solver<T>, after: Solver<T>) -> bool {
    worst_row(before) matches Some((row, val)) && exists|mid: Solver<T>, ready: Solver<T>|
        #[trigger] exit_made(before, mid, ready, after, row, val, Ok(())) && finite_exit(
            mid,
            ready,
            after,
        )
}

pub open spec fn finite_dual_at<T: Scalar>(s: Seq<Solver<T>>, i: int) -> bool {
    finite_dual_step(s[i], s[i + 1])
}

/// A path of the dual method whose numbers are finite.
pub open spec fn finite_dual_path<T: Scalar>(s: Seq<Solver<T>>) -> bool {
    &&& dual_path(s)
    &&& forall|i: int| 0 <= i < s.len() - 1 ==> #[trigger] finite_dual_at(s, i)
}

/// What the choice of the worst row comes from.
pub proof fn worst_row_facts<T: Scalar>(s: Solver<T>, k: int)
    requires
        0 <= k <= s.m() <= usize::MAX,
    ensures
        ({
            let best = s.dual_leaving_scan(k);
            best.row matches Some(row) ==> {
                let v = s.basic_vars@[row as int] as int;
                &&& row < k
                &&& best.new_val == s.orig_var_mins@[v] || best.new_val == s.orig_var_maxs@[v]
            }
        }),
    decreases k,
{
    if k > 0 {
        worst_row_facts(s, k - 1);
    }
}

/// Every vertex on a path of the dual method keeps what the first one has.
pub proof fn dual_path_keeps<T: Scalar>(s: Seq<Solver<T>>, k: int)
    requires
        exact::<T>(),
        finite_dual_path(s),
        sound(s[0]),
        0 <= k < s.len(),
    ensures
        sound(s[k]),
        s[k].same_program(s[0]),
        s[k].set_vars == s[0].set_vars,
    decreases k,
{
    if k > 0 {
        dual_path_keeps(s, k - 1);
        let before = s[k - 1];
        assert(finite_dual_at(s, k - 1));
        let (row, val) = worst_row(before)->0;
        let (mid, ready) = choose|mid: Solver<T>, ready: Solver<T>| #[trigger]
            exit_made(before, mid, ready, s[k], row, val, Ok(())) && finite_exit(
                mid,
                ready,
                s[k],
            );
        assert(s[k].wf());
        worst_row_facts(before, before.m());
        assert(!before.set_vars@.contains_key(before.basic_vars@[row as int]));
        exit_keeps(before, mid, ready, s[k], row, val);
    }
}

/// Fresh factors are made just when the elementary matrices have no longer fewer entries than
/// half of those of the factors, rounded down; otherwise one more elementary matrix is kept.
pub proof fn factors_are_kept_while_heavy<T: Scalar>(
    before: Solver<T>,
    after: Solver<T>,
    row: usize,
    r: Result<(), Error>,
)
    requires
        basis_moved(before, after, row, r),
    ensures
        ({
            let etas = before.basis_solver.eta_matrices;
            let lu = before.basis_solver.lu_factors;
            let light = etas.coeff_cols.data@.len();
            let heavy = lu.lower.indices@.len() + lu.upper.indices@.len();
            let count = after.basis_solver.eta_matrices.leaving_rows@.len();
            if light + light + 2 <= heavy {
                &&& r is Ok
                &&& count == etas.leaving_rows@.len() + 1
                &&& after.basis_solver.lu_factors == lu
            } else {
                count == 0
            }
        }),
{
}

} // verus!
