//! What it means that a change of a program succeeds or is refused, where arithmetic is exact.
use crate::dual::{
    exit_keeps_signs, extended_fits, fair_dual_at, fair_exit, finite_costs, limits_have_room,
    limits_of_rest, rest_within_limits, restore_verdict_is_right, row_is_blocked, set_fits,
    set_move_fits, set_verdict_is_right, sharp_row, unset_fits,
};
use crate::edited::{
    extended_is_sound, finite_misses, marked_is_consistent, set_basic_keeps, set_value_keeps,
    unset_keeps,
};
use crate::edits::{
    constraint_added, extended, program_extended, repaired, set_by, slack_coeff, unset_by,
    value_moved_from, var_set, var_unset,
};
use crate::error::Error;
use crate::optimum::{signs_fit, within_limits};
use crate::outcome::in_order;
use crate::phases::{
    bfs_found, bfs_found_by, climbed, climbed_by, dual_path, exit_made, is_optimal, left_basis,
    optimized, primal_path, restored, restored_by, steps_at,
};
use crate::renewed::{factored_basis, sharp_bounds};
use crate::scalar::{exact, Scalar};
use crate::simplex::{RelOp, Solver, SENTINEL};
use crate::solve::finite_items;
use crate::sparse::CsVec;
use crate::sums::{sum, sum_same, sum_zero, times_zero};
use crate::vertex::{finite_vertex, lhs_terms, on_constraints, sound};
use vstd::prelude::*;

verus! {

/// The terms of the left-hand side of a constraint.
pub open spec fn side_terms<T: Scalar>(
    coeffs: CsVec<T>,
    z: spec_fn(int) -> real,
) -> spec_fn(int) -> real {
    |v: int| coeffs.value(v).val() * z(v)
}

/// The point, of which the first `n` variables count, meets the constraint.
pub open spec fn meets<T: Scalar>(
    coeffs: CsVec<T>,
    rel_op: RelOp,
    bound: T,
    n: int,
    z: spec_fn(int) -> real,
) -> bool {
    let lhs = sum(side_terms(coeffs, z), n as nat);
    match rel_op {
        RelOp::Le => lhs <= bound.val(),
        RelOp::Ge => lhs >= bound.val(),
        RelOp::Eq => lhs == bound.val(),
    }
}

/// The point with the value `t` for one more variable.
pub open spec fn extended_by(z: spec_fn(int) -> real, slack: int, t: real) -> spec_fn(
    int,
) -> real {
    |v: int|
        if v == slack {
            t
        } else {
            z(v)
        }
}

/// The left-hand side of the constraints with one more variable.
proof fn longer_sides<T: Scalar>(
    before: Solver<T>,
    after: Solver<T>,
    coeffs: CsVec<T>,
    rel_op: RelOp,
    bound: T,
    z: spec_fn(int) -> real,
    t: real,
    i: int,
)
    requires
        exact::<T>(),
        before.wf(),
        after.wf(),
        before.num_artificial_vars == 0,
        program_extended(before, after, coeffs, rel_op, bound),
        0 <= i < after.m(),
    ensures
        sum(
            lhs_terms(after.orig_constraints_csc, extended_by(z, before.total(), t), i),
            after.total() as nat,
        ) == if i < before.m() {
            sum(lhs_terms(before.orig_constraints_csc, z, i), before.total() as nat)
        } else {
            sum(side_terms(coeffs, z), before.total() as nat) + slack_coeff::<T>(rel_op).val() * t
        },
{
    let (small, mat) = (before.orig_constraints_csc, after.orig_constraints_csc);
    let slack = before.total();
    let m = before.m();
    let y = extended_by(z, slack, t);
    let f = lhs_terms(mat, y, i);
    let g = if i < m {
        lhs_terms(small, z, i)
    } else {
        side_terms(coeffs, z)
    };
    assert forall|v: int| 0 <= v < slack implies #[trigger] f(v) == g(v) by {
        assert(mat.line(v, i) == after.orig_constraints.line(i, v));
        if i < m {
            assert(small.line(v, i) == before.orig_constraints.line(i, v));
        }
    }
    sum_same(f, g, slack as nat);
    assert(mat.line(slack, i) == after.orig_constraints.line(i, slack));
    if i < m {
        assert(after.orig_constraints.line(i, slack) == before.orig_constraints.line(i, slack));
        let rows = before.orig_constraints;
        rows.line_wf(i);
        if rows.line_has(i, slack) {
            let p = crate::sparse::place(rows.indices@, rows.lo(i), rows.hi(i), slack);
            assert(rows.indices@[p] == slack);
        }
        times_zero(t);
    }
}

/// One more constraint leaves those points of the program that meet it, and no others: a value that
/// its slack variable may have completes a point to one of the longer program exactly if the point
/// meets what there was before and the constraint.
pub proof fn extension_adds_constraint<T: Scalar>(
    before: Solver<T>,
    after: Solver<T>,
    coeffs: CsVec<T>,
    rel_op: RelOp,
    bound: T,
    z: spec_fn(int) -> real,
)
    requires
        exact::<T>(),
        before.wf(),
        after.wf(),
        before.num_artificial_vars == 0,
        rel_op != RelOp::Eq,
        program_extended(before, after, coeffs, rel_op, bound),
        after.set_vars@ == before.set_vars@,
        forall|v: usize| #[trigger] before.set_vars@.contains_key(v) ==> v < before.total(),
    ensures
        (exists|t: real| #[trigger] fits_longer(before, after, z, t)) <==> on_constraints(before, z)
            && within_limits(before, z) && meets(coeffs, rel_op, bound, before.total(), z),
{
    let slack = before.total();
    let m = before.m();
    let lhs = sum(side_terms(coeffs, z), slack as nat);
    let sign = slack_coeff::<T>(rel_op).val();
    if exists|t: real| #[trigger] fits_longer(before, after, z, t) {
        let t = choose|t: real| #[trigger] fits_longer(before, after, z, t);
        shorter_fits(before, after, coeffs, rel_op, bound, z, t);
    }
    if on_constraints(before, z) && within_limits(before, z) && meets(
        coeffs,
        rel_op,
        bound,
        slack,
        z,
    ) {
        let t = sign * (bound.val() - lhs);
        let d = bound.val() - lhs;
        assert(sign * (sign * d) == d) by (nonlinear_arith)
            requires
                sign == 1 as real || sign == -1 as real,
        ;
        assert(t >= 0 as real) by (nonlinear_arith)
            requires
                t == sign * d,
                sign == 1 as real && d >= 0 as real || sign == -1 as real && d <= 0 as real,
        ;
        let y = extended_by(z, slack, t);
        assert(on_constraints(after, y)) by {
            assert forall|i: int| 0 <= i < after.m() implies sum(
                lhs_terms(after.orig_constraints_csc, y, i),
                after.total() as nat,
            ) == (#[trigger] after.orig_bounds@[i]).val() by {
                longer_sides(before, after, coeffs, rel_op, bound, z, t, i);
                if i < m {
                    assert(after.orig_bounds@[i] == before.orig_bounds@[i]);
                }
            }
        }
        assert(within_limits(after, y)) by {
            assert forall|v: int| 0 <= v < after.total() implies {
                let (min, max) = (after.orig_var_mins@[v], after.orig_var_maxs@[v]);
                &&& min.finite() ==> min.val() <= #[trigger] y(v)
                &&& max.finite() ==> y(v) <= max.val()
                &&& after.set_vars@.contains_key(v as usize) ==> y(v)
                    == after.set_vars@[v as usize].val()
            } by {
                if v < slack {
                    assert(z(v) == y(v));
                    assert(after.orig_var_mins@[v] == before.orig_var_mins@[v]);
                    assert(after.orig_var_maxs@[v] == before.orig_var_maxs@[v]);
                } else {
                    assert(!before.set_vars@.contains_key(v as usize));
                }
            }
        }
        assert(fits_longer(before, after, z, t));
    }
}

/// With the value `t` for the slack variable the point meets constraints and limits of the longer
/// program.
pub open spec fn fits_longer<T: Scalar>(
    before: Solver<T>,
    after: Solver<T>,
    z: spec_fn(int) -> real,
    t: real,
) -> bool {
    let y = extended_by(z, before.total(), t);
    on_constraints(after, y) && within_limits(after, y)
}

proof fn shorter_fits<T: Scalar>(
    before: Solver<T>,
    after: Solver<T>,
    coeffs: CsVec<T>,
    rel_op: RelOp,
    bound: T,
    z: spec_fn(int) -> real,
    t: real,
)
    requires
        exact::<T>(),
        before.wf(),
        after.wf(),
        before.num_artificial_vars == 0,
        rel_op != RelOp::Eq,
        program_extended(before, after, coeffs, rel_op, bound),
        after.set_vars@ == before.set_vars@,
        fits_longer(before, after, z, t),
    ensures
        on_constraints(before, z),
        within_limits(before, z),
        meets(coeffs, rel_op, bound, before.total(), z),
{
    let slack = before.total();
    let m = before.m();
    let y = extended_by(z, slack, t);
    assert forall|i: int| 0 <= i < before.m() implies sum(
        lhs_terms(before.orig_constraints_csc, z, i),
        before.total() as nat,
    ) == (#[trigger] before.orig_bounds@[i]).val() by {
        longer_sides(before, after, coeffs, rel_op, bound, z, t, i);
        assert(after.orig_bounds@[i] == before.orig_bounds@[i]);
    }
    assert forall|v: int| 0 <= v < slack implies {
        let (min, max) = (before.orig_var_mins@[v], before.orig_var_maxs@[v]);
        &&& min.finite() ==> min.val() <= #[trigger] z(v)
        &&& max.finite() ==> z(v) <= max.val()
        &&& before.set_vars@.contains_key(v as usize) ==> z(v)
            == before.set_vars@[v as usize].val()
    } by {
        assert(y(v) == z(v));
        assert(after.orig_var_mins@[v] == before.orig_var_mins@[v]);
        assert(after.orig_var_maxs@[v] == before.orig_var_maxs@[v]);
        let (min, max) = (after.orig_var_mins@[v], after.orig_var_maxs@[v]);
        assert(0 <= v < after.total());
        assert(min.finite() ==> min.val() <= y(v));
        assert(max.finite() ==> y(v) <= max.val());
        assert(after.set_vars@.contains_key(v as usize) ==> y(v)
            == after.set_vars@[v as usize].val());
    }
    longer_sides(before, after, coeffs, rel_op, bound, z, t, m);
    assert(after.orig_bounds@[m] == bound);
    let min = after.orig_var_mins@[slack];
    assert(min == T::zero_spec());
    assert(min.finite() ==> min.val() <= y(slack));
    assert(t >= 0 as real);
    let sign = slack_coeff::<T>(rel_op).val();
    assert(sign * t >= 0 as real || sign * t <= 0 as real);
    assert(sign == 1 as real ==> sign * t == t) by (nonlinear_arith);
    assert(sign == -1 as real ==> sign * t == -t) by (nonlinear_arith);
}

/// The limits of a variable are numbers, or beyond all numbers on their side.
pub open spec fn limits_open<T: Scalar>(s: Solver<T>, v: int) -> bool {
    let (min, max) = (s.orig_var_mins@[v], s.orig_var_maxs@[v]);
    &&& min.finite() || min.infinite() && forall|a: T| a.finite() ==> #[trigger] min.less_spec(a)
    &&& max.finite() || max.infinite() && forall|a: T| a.finite() ==> #[trigger] a.less_spec(max)
}

/// The number is not outside the limits of the variable.
pub open spec fn allowed<T: Scalar>(s: Solver<T>, v: int, x: real) -> bool {
    &&& s.orig_var_mins@[v].finite() ==> s.orig_var_mins@[v].val() <= x
    &&& s.orig_var_maxs@[v].finite() ==> x <= s.orig_var_maxs@[v].val()
}

proof fn dual_sets_stay<T: Scalar>(p: Seq<Solver<T>>, k: int)
    requires
        dual_path(p),
        0 <= k < p.len(),
    ensures
        p[k].set_vars == p[0].set_vars,
    decreases k,
{
    if k > 0 {
        dual_sets_stay(p, k - 1);
        assert(crate::phases::dual_steps_at(p, k - 1));
    }
}

/// A repair that finds the program infeasible does so while it restores feasibility.
proof fn refused_repair<T: Scalar>(before: Solver<T>, after: Solver<T>) -> (p: Seq<Solver<T>>)
    requires
        repaired(before, after, Err(Error::Infeasible)),
        before.num_artificial_vars == 0,
    ensures
        restored_by(p, before, after, Err(Error::Infeasible)),
        after.set_vars == before.set_vars,
{
    let bad = Err::<(), Error>(Error::Infeasible);
    if !restored(before, after, bad) {
        let mid = choose|mid: Solver<T>| #[trigger]
            restored(before, mid, Ok(())) && optimized(mid, after, bad);
        let p = choose|p: Seq<Solver<T>>| #[trigger] restored_by(p, before, mid, Ok(()));
        crate::outcome::dual_program_stays(p, p.len() - 1);
        assert(climbed(mid, after, bad));
    }
    let p = choose|p: Seq<Solver<T>>| #[trigger] restored_by(p, before, after, bad);
    dual_sets_stay(p, p.len() - 1);
    p
}

/// A value is refused at once, with nothing set, exactly if it is outside the limits of the variable.
pub proof fn value_outside_is_refused<T: Scalar>(
    before: Solver<T>,
    after: Solver<T>,
    var: usize,
    val: T,
    r: Result<(), Error>,
)
    requires
        exact::<T>(),
        before.num_artificial_vars == 0,
        limits_open(before, var as int),
        val.finite(),
        var_set(before, after, var, val, r),
    ensures
        !allowed(before, var as int, val.val()) ==> r == Err::<(), Error>(Error::Infeasible) && after
            == before,
        allowed(before, var as int, val.val()) && r == Err::<(), Error>(Error::Infeasible)
            ==> after.set_vars@ == before.set_vars@.insert(var, val),
        r == Err::<(), Error>(Error::Infeasible) && after == before && !before.set_vars@.contains_key(
            var,
        ) ==> !allowed(before, var as int, val.val()),
{
    let bad = Err::<(), Error>(Error::Infeasible);
    let (min, max) = (before.orig_var_mins@[var as int], before.orig_var_maxs@[var as int]);
    assert(min.infinite() ==> min.less_spec(val) && min.minus_spec(val).signum_spec().finite());
    assert(max.infinite() ==> val.less_spec(max) && max.minus_spec(val).signum_spec().finite());
    if allowed(before, var as int, val.val()) && r == bad {
        let (marked, moved) = choose|marked: Solver<T>, moved: Solver<T>| #[trigger]
            set_by(before, marked, moved, after, var, val, r);
        let row = before.basic_vars_inv@[var as int];
        if row != SENTINEL {
            if left_basis(marked, moved, row, val, r) && moved == after {
            } else {
                let _ = refused_repair(moved, after);
            }
        } else {
            let _ = refused_repair(moved, after);
        }
        assert(after.set_vars@.contains_key(var));
    }
}

/// The numbers are finite on every way that ends with the verdict that feasibility cannot be
/// restored; the columns that enter cost least, and no coefficient is lost in the tolerance.
#[verifier::opaque]
pub open spec fn fair_refusal<T: Scalar>(before: Solver<T>, after: Solver<T>) -> bool {
    forall|p: Seq<Solver<T>>| #[trigger]
        restored_by(p, before, after, Err(Error::Infeasible)) ==> {
            &&& forall|i: int| 0 <= i < p.len() - 1 ==> #[trigger] fair_dual_at(p, i)
            &&& finite_misses(p.last())
            &&& plain_row(after)
        }
}

/// The numbers of the calculated row are finite, and none is lost in the tolerance.
pub open spec fn plain_row<T: Scalar>(s: Solver<T>) -> bool {
    &&& finite_items(s.basis_solver.rhs.values@)
    &&& finite_items(s.row_coeffs.values@)
    &&& finite_costs(s)
    &&& sharp_row(s)
}

proof fn refusal_is_right<T: Scalar>(
    before: Solver<T>,
    after: Solver<T>,
    z: spec_fn(int) -> real,
)
    requires
        exact::<T>(),
        sound(before),
        signs_fit(before),
        limits_have_room(before),
        before.num_artificial_vars == 0,
        repaired(before, after, Err(Error::Infeasible)),
        fair_refusal(before, after),
    ensures
        !(on_constraints(before, z) && within_limits(before, z)),
{
    reveal(fair_refusal);
    let p = refused_repair(before, after);
    restore_verdict_is_right(p, before, after, z);
}

/// A point of the program is one of the same program in which one variable more is set, to the value
/// that it has there.
proof fn same_point<T: Scalar>(
    before: Solver<T>,
    t: Solver<T>,
    var: usize,
    val: T,
    z: spec_fn(int) -> real,
)
    requires
        before.wf(),
        on_constraints(before, z),
        within_limits(before, z),
        z(var as int) == val.val(),
        t.same_program(before),
        t.set_vars@ == before.set_vars@.insert(var, val),
    ensures
        on_constraints(t, z),
        within_limits(t, z),
{
    assert forall|i: int| 0 <= i < t.m() implies sum(
        lhs_terms(t.orig_constraints_csc, z, i),
        t.total() as nat,
    ) == (#[trigger] t.orig_bounds@[i]).val() by {
        assert(before.orig_bounds@[i].val() == t.orig_bounds@[i].val());
    }
    assert forall|v: int| 0 <= v < t.total() implies {
        let (min, max) = (t.orig_var_mins@[v], t.orig_var_maxs@[v]);
        &&& min.finite() ==> min.val() <= #[trigger] z(v)
        &&& max.finite() ==> z(v) <= max.val()
        &&& t.set_vars@.contains_key(v as usize) ==> z(v) == t.set_vars@[v as usize].val()
    } by {
        let (min, max) = (before.orig_var_mins@[v], before.orig_var_maxs@[v]);
        assert(min.finite() ==> min.val() <= z(v));
    }
}

/// The numbers are finite on every way that setting a variable can have gone until it was refused;
/// the columns that enter cost least, and no coefficient is lost in the tolerance.
#[verifier::opaque]
pub open spec fn fair_setting<T: Scalar>(
    before: Solver<T>,
    after: Solver<T>,
    var: usize,
    val: T,
) -> bool {
    forall|marked: Solver<T>, moved: Solver<T>| #[trigger]
        set_by(before, marked, moved, after, var, val, Err(Error::Infeasible)) ==> {
            let row = before.basic_vars_inv@[var as int];
            let col = before.non_basic_vars_inv@[var as int] as int;
            let diff = val.minus_spec(marked.non_basic_vals@[col]);
            &&& fair_refusal(moved, after)
            &&& left_basis(marked, after, row, val, Err(Error::Infeasible)) ==> plain_row(after)
            &&& forall|mid: Solver<T>, ready: Solver<T>| #[trigger]
                exit_made(marked, mid, ready, moved, row, val, Ok(())) ==> moved.wf() && fair_exit(
                    marked,
                    mid,
                    ready,
                    moved,
                    row,
                    val,
                )
            &&& forall|ready: Solver<T>| #[trigger]
                value_moved_from(marked, ready, moved, col, diff, val) ==> moved.wf()
                    && finite_items(ready.col_coeffs.values@) && finite_vertex(moved)
        }
}

/// Where a value is refused to a variable, at once or after a search, no point that meets the
/// constraints and limits, with the variables that are set at their values, has that value there.
/// The vertex itself is left out: a basic variable is not to be set to the value that it has.
pub proof fn refused_value_has_no_point<T: Scalar>(
    before: Solver<T>,
    after: Solver<T>,
    var: usize,
    val: T,
    z: spec_fn(int) -> real,
)
    requires
        exact::<T>(),
        in_order(before),
        signs_fit(before),
        var < before.total(),
        !before.set_vars@.contains_key(var),
        limits_open(before, var as int),
        val.finite(),
        before.basic_vars_inv@[var as int] != SENTINEL ==> val.val() != before.value_of(
            var as int,
        ).val(),
        var_set(before, after, var, val, Err(Error::Infeasible)),
        fair_setting(before, after, var, val),
        on_constraints(before, z),
        within_limits(before, z),
    ensures
        z(var as int) != val.val(),
{
    let bad = Err::<(), Error>(Error::Infeasible);
    value_outside_is_refused(before, after, var, val, bad);
    if z(var as int) == val.val() {
        let v = var as int;
        let (min, max) = (before.orig_var_mins@[v], before.orig_var_maxs@[v]);
        assert(min.finite() ==> min.val() <= z(v));
        assert(max.finite() ==> z(v) <= max.val());
        assert(allowed(before, v, val.val()));
        assert(min.infinite() ==> min.less_spec(val) && min.minus_spec(val).signum_spec().finite());
        assert(max.infinite() ==> val.less_spec(max) && max.minus_spec(val).signum_spec().finite());
        assert(!before.misses(var, val));
        let (marked, moved) = choose|marked: Solver<T>, moved: Solver<T>| #[trigger]
            set_by(before, marked, moved, after, var, val, bad);
        let row = before.basic_vars_inv@[v];
        assert((row == SENTINEL) != (before.non_basic_vars_inv@[v] == SENTINEL));
        if row != SENTINEL {
            refused_basic(before, marked, moved, after, var, val, z);
        } else {
            refused_move(before, marked, moved, after, var, val, z);
        }
    }
}

proof fn refused_basic<T: Scalar>(
    before: Solver<T>,
    marked: Solver<T>,
    moved: Solver<T>,
    after: Solver<T>,
    var: usize,
    val: T,
    z: spec_fn(int) -> real,
)
    requires
        exact::<T>(),
        in_order(before),
        signs_fit(before),
        var < before.total(),
        before.basic_vars_inv@[var as int] != SENTINEL,
        val.finite(),
        val.val() != before.value_of(var as int).val(),
        set_by(before, marked, moved, after, var, val, Err(Error::Infeasible)),
        fair_setting(before, after, var, val),
        on_constraints(before, z),
        within_limits(before, z),
    ensures
        z(var as int) != val.val(),
{
    reveal(fair_setting);
    let bad = Err::<(), Error>(Error::Infeasible);
    let row = before.basic_vars_inv@[var as int];
    if left_basis(marked, after, row, val, bad) {
        set_verdict_is_right(before, marked, after, var, val, z);
        if z(var as int) == val.val() {
            same_point(before, marked, var, val, z);
        }
    } else {
        refused_after_leaving(before, marked, moved, after, var, val, z);
    }
}

proof fn refused_after_leaving<T: Scalar>(
    before: Solver<T>,
    marked: Solver<T>,
    moved: Solver<T>,
    after: Solver<T>,
    var: usize,
    val: T,
    z: spec_fn(int) -> real,
)
    requires
        exact::<T>(),
        in_order(before),
        signs_fit(before),
        var < before.total(),
        before.basic_vars_inv@[var as int] != SENTINEL,
        val.finite(),
        set_by(before, marked, moved, after, var, val, Err(Error::Infeasible)),
        !left_basis(
            marked,
            after,
            before.basic_vars_inv@[var as int],
            val,
            Err(Error::Infeasible),
        ),
        fair_setting(before, after, var, val),
        on_constraints(before, z),
        within_limits(before, z),
    ensures
        z(var as int) != val.val(),
{
    reveal(fair_setting);
    let row = before.basic_vars_inv@[var as int];
    let (mid, ready) = choose|mid: Solver<T>, ready: Solver<T>| #[trigger]
        exit_made(marked, mid, ready, moved, row, val, Ok(()));
    assert(fair_exit(marked, mid, ready, moved, row, val));
    assert(before.basic_vars@[row as int] == var);
    marked_is_consistent(before, marked, var);
    set_fits(before, marked, var, val);
    set_basic_keeps(before, marked, mid, ready, moved, var, val);
    exit_keeps_signs(marked, mid, ready, moved, row, val);
    crate::outcome::room_stays(before, moved);
    refusal_is_right(moved, after, z);
    if z(var as int) == val.val() {
        same_point(before, moved, var, val, z);
    }
}

/// Where a basic variable is refused the value that it has, no point that meets the constraints and
/// the limits goes below that value, or none has it.
pub proof fn refused_stay_is_least<T: Scalar>(
    before: Solver<T>,
    after: Solver<T>,
    var: usize,
    val: T,
    y: spec_fn(int) -> real,
    z: spec_fn(int) -> real,
)
    requires
        exact::<T>(),
        in_order(before),
        signs_fit(before),
        var < before.total(),
        !before.set_vars@.contains_key(var),
        limits_open(before, var as int),
        val.finite(),
        before.basic_vars_inv@[var as int] != SENTINEL,
        val.val() == before.value_of(var as int).val(),
        var_set(before, after, var, val, Err(Error::Infeasible)),
        fair_setting(before, after, var, val),
        on_constraints(before, y),
        within_limits(before, y),
        on_constraints(before, z),
        within_limits(before, z),
    ensures
        y(var as int) >= val.val() || z(var as int) != val.val(),
{
    let bad = Err::<(), Error>(Error::Infeasible);
    let v = var as int;
    if z(v) == val.val() {
        let (min, max) = (before.orig_var_mins@[v], before.orig_var_maxs@[v]);
        assert(min.finite() ==> min.val() <= z(v));
        assert(max.finite() ==> z(v) <= max.val());
        assert(min.infinite() ==> min.less_spec(val) && min.minus_spec(val).signum_spec().finite());
        assert(max.infinite() ==> val.less_spec(max) && max.minus_spec(val).signum_spec().finite());
        assert(!before.misses(var, val));
        let (marked, moved) = choose|marked: Solver<T>, moved: Solver<T>| #[trigger]
            set_by(before, marked, moved, after, var, val, bad);
        let row = before.basic_vars_inv@[v];
        if left_basis(marked, after, row, val, bad) {
            blocked_stay(before, marked, moved, after, var, val, y);
        } else {
            refused_after_leaving(before, marked, moved, after, var, val, z);
        }
    }
}

proof fn blocked_stay<T: Scalar>(
    before: Solver<T>,
    marked: Solver<T>,
    moved: Solver<T>,
    after: Solver<T>,
    var: usize,
    val: T,
    y: spec_fn(int) -> real,
)
    requires
        exact::<T>(),
        in_order(before),
        signs_fit(before),
        var < before.total(),
        before.basic_vars_inv@[var as int] != SENTINEL,
        val.finite(),
        val.val() == before.value_of(var as int).val(),
        set_by(before, marked, moved, after, var, val, Err(Error::Infeasible)),
        left_basis(
            marked,
            after,
            before.basic_vars_inv@[var as int],
            val,
            Err(Error::Infeasible),
        ),
        fair_setting(before, after, var, val),
        on_constraints(before, y),
        within_limits(before, y),
    ensures
        y(var as int) >= val.val(),
{
    reveal(fair_setting);
    let row = before.basic_vars_inv@[var as int];
    assert(before.basic_vars@[row as int] == var);
    marked_is_consistent(before, marked, var);
    set_fits(before, marked, var, val);
    let (mid, ready) = choose|mid: Solver<T>, ready: Solver<T>| #[trigger]
        exit_made(marked, mid, ready, after, row, val, Err(Error::Infeasible));
    assert(rest_within_limits(marked, y)) by {
        limits_of_rest(before, y);
        assert forall|c: int| 0 <= c < marked.non_basic_vars@.len() implies {
            let v = #[trigger] marked.non_basic_vars@[c];
            marked.set_vars@.contains_key(v) == before.set_vars@.contains_key(v)
        } by {
            let v = before.non_basic_vars@[c] as int;
            assert(before.non_basic_vars_inv@[v] == c);
            assert((before.basic_vars_inv@[v] == SENTINEL) != (before.non_basic_vars_inv@[v]
                == SENTINEL));
        }
    }
    assert(on_constraints(marked, y)) by {
        assert forall|i: int| 0 <= i < marked.m() implies sum(
            lhs_terms(marked.orig_constraints_csc, y, i),
            marked.total() as nat,
        ) == (#[trigger] marked.orig_bounds@[i]).val() by {
            assert(before.orig_bounds@[i].val() == marked.orig_bounds@[i].val());
        }
    }
    row_is_blocked(marked, mid, row, val, y);
    assert(marked.cur_bounds@[row as int].finite());
}

proof fn refused_move<T: Scalar>(
    before: Solver<T>,
    marked: Solver<T>,
    moved: Solver<T>,
    after: Solver<T>,
    var: usize,
    val: T,
    z: spec_fn(int) -> real,
)
    requires
        exact::<T>(),
        in_order(before),
        signs_fit(before),
        var < before.total(),
        before.basic_vars_inv@[var as int] == SENTINEL,
        before.non_basic_vars_inv@[var as int] != SENTINEL,
        val.finite(),
        set_by(before, marked, moved, after, var, val, Err(Error::Infeasible)),
        fair_setting(before, after, var, val),
        on_constraints(before, z),
        within_limits(before, z),
    ensures
        z(var as int) != val.val(),
{
    reveal(fair_setting);
    let col = before.non_basic_vars_inv@[var as int] as int;
    let diff = val.minus_spec(marked.non_basic_vals@[col]);
    let ready = choose|ready: Solver<T>| #[trigger]
        value_moved_from(marked, ready, moved, col, diff, val);
    assert(before.non_basic_vars@[col] == var);
    set_value_keeps(before, marked, ready, moved, col, val);
    set_fits(before, marked, var, val);
    set_move_fits(marked, ready, moved, col, diff, val);
    crate::outcome::room_stays(before, moved);
    refusal_is_right(moved, after, z);
    if z(var as int) == val.val() {
        same_point(before, moved, var, val, z);
    }
}

/// The numbers are finite on every way that adding a constraint can have gone until it was refused;
/// the columns that enter cost least, and no coefficient is lost in the tolerance.
#[verifier::opaque]
pub open spec fn fair_extension<T: Scalar>(
    before: Solver<T>,
    after: Solver<T>,
    coeffs: CsVec<T>,
    rel_op: RelOp,
    bound: T,
) -> bool {
    forall|mid: Solver<T>| #[trigger]
        extended(before, mid, coeffs, rel_op, bound) && repaired(
            mid,
            after,
            Err(Error::Infeasible),
        ) ==> {
            &&& mid.wf()
            &&& finite_vertex(mid)
            &&& factored_basis(mid)
            &&& sharp_bounds(mid)
            &&& limits_have_room(mid)
            &&& fair_refusal(mid, after)
        }
}

/// Where a constraint is refused, no point of the program meets it.
pub proof fn refused_constraint_has_no_point<T: Scalar>(
    before: Solver<T>,
    after: Solver<T>,
    coeffs: CsVec<T>,
    rel_op: RelOp,
    bound: T,
    z: spec_fn(int) -> real,
)
    requires
        exact::<T>(),
        in_order(before),
        signs_fit(before),
        forall|v: usize| #[trigger] before.set_vars@.contains_key(v) ==> v < before.total(),
        coeffs.indices@.len() > 0 ==> rel_op != RelOp::Eq,
        bound.finite(),
        constraint_added(before, after, coeffs, rel_op, bound, Err(Error::Infeasible)),
        fair_extension(before, after, coeffs, rel_op, bound),
        on_constraints(before, z),
        within_limits(before, z),
    ensures
        !meets(coeffs, rel_op, bound, before.total(), z),
{
    if coeffs.indices@.len() == 0 {
        blank_side(coeffs, before.total(), z);
    } else {
        reveal(fair_extension);
        let bad = Err::<(), Error>(Error::Infeasible);
        let mid = choose|mid: Solver<T>| #[trigger]
            extended(before, mid, coeffs, rel_op, bound) && repaired(mid, after, bad);
        extended_is_sound(before, mid, coeffs, rel_op, bound);
        extended_fits(before, mid, coeffs, rel_op, bound);
        extension_adds_constraint(before, mid, coeffs, rel_op, bound, z);
        if meets(coeffs, rel_op, bound, before.total(), z) {
            let t = choose|t: real| #[trigger] fits_longer(before, mid, z, t);
            refusal_is_right(mid, after, extended_by(z, before.total(), t));
        }
    }
}

proof fn blank_side<T: Scalar>(coeffs: CsVec<T>, n: int, z: spec_fn(int) -> real)
    requires
        exact::<T>(),
        coeffs.indices@.len() == 0,
    ensures
        sum(side_terms(coeffs, z), n as nat) == 0 as real,
{
    let f = side_terms(coeffs, z);
    assert forall|v: int| 0 <= v < n implies #[trigger] f(v) == 0 as real by {
        assert(!coeffs.stores(v));
        times_zero(z(v));
    }
    sum_zero(f, n as nat);
}

/// A constraint without variables changes nothing: it is met by every point or refused, and then met
/// by none.
pub proof fn blank_constraint_is_met_or_refused<T: Scalar>(
    before: Solver<T>,
    after: Solver<T>,
    coeffs: CsVec<T>,
    rel_op: RelOp,
    bound: T,
    r: Result<(), Error>,
    z: spec_fn(int) -> real,
)
    requires
        exact::<T>(),
        bound.finite(),
        coeffs.indices@.len() == 0,
        constraint_added(before, after, coeffs, rel_op, bound, r),
    ensures
        after == before,
        r == if meets(coeffs, rel_op, bound, before.total(), z) {
            Ok::<(), Error>(())
        } else {
            Err(Error::Infeasible)
        },
{
    blank_side(coeffs, before.total(), z);
}

/// The point is within the limits, and has all variables that are set at their values but one.
pub open spec fn within_but<T: Scalar>(
    s: Solver<T>,
    var: usize,
    z: spec_fn(int) -> real,
) -> bool {
    forall|v: int|
        0 <= v < s.total() ==> allowed(s, v, #[trigger] z(v)) && (s.set_vars@.contains_key(
            v as usize,
        ) && v != var ==> z(v) == s.set_vars@[v as usize].val())
}

/// A vertex of the same program at which one variable is not set any more and has the value `x`.
pub open spec fn freed_at<T: Scalar>(
    before: Solver<T>,
    moved: Solver<T>,
    var: usize,
    x: real,
) -> bool {
    &&& moved.same_program(before)
    &&& moved.set_vars@ == before.set_vars@.remove(var)
    &&& moved.value_of(var as int).val() == x
    &&& forall|v: int|
        0 <= v < before.total() && v != var && before.basic_vars_inv@[v] == SENTINEL
            ==> #[trigger] moved.value_of(v) == before.value_of(v)
}

/// Unsetting a variable that is not set changes nothing, and one that is set is never passed over.
pub proof fn unset_of_unset_is_nothing<T: Scalar>(
    before: Solver<T>,
    after: Solver<T>,
    var: usize,
    r: Result<bool, Error>,
)
    requires
        var_unset(before, after, var, r),
    ensures
        r == Ok::<bool, Error>(false) <==> !before.set_vars@.contains_key(var),
        r == Ok::<bool, Error>(false) ==> after.set_vars@ == before.set_vars@
            && after.same_program(before) && after.basic_vars == before.basic_vars
            && after.cur_bounds == before.cur_bounds && after.non_basic_vals
            == before.non_basic_vals && after.cur_obj_val == before.cur_obj_val,
{
}

/// A variable that is not set any more goes to the limit at which it serves the objective, the upper
/// one if its reduced cost is above zero, and the program is repaired from there; without such a
/// limit the objective is called unbounded.
pub proof fn unset_goes_to_better_limit<T: Scalar>(
    before: Solver<T>,
    after: Solver<T>,
    var: usize,
    r: Result<bool, Error>,
)
    requires
        exact::<T>(),
        before.wf(),
        finite_vertex(before),
        var < before.total(),
        limits_open(before, var as int),
        before.set_vars@.contains_key(var),
        before.non_basic_vars_inv@[var as int] != SENTINEL,
        var_unset(before, after, var, r),
    ensures
        serving_limit(before, var).finite() ==> exists|moved: Solver<T>| #[trigger]
            freed_at(before, moved, var, serving_limit(before, var).val()) && repaired_to(
                moved,
                after,
                r,
            ),
        !serving_limit(before, var).finite() ==> r == Err::<bool, Error>(Error::Unbounded)
            && after.set_vars@ == before.set_vars@.remove(var) && after.same_program(before),
{
    better_limit_is(before, var);
    let moved = unset_way(before, after, var, r);
    if serving_limit(before, var).finite() {
        assert(freed_at(before, moved, var, serving_limit(before, var).val()));
    }
}

/// The limit at which a non-basic variable serves the objective: the upper one if its reduced cost
/// is above zero.
pub open spec fn serving_limit<T: Scalar>(s: Solver<T>, var: usize) -> T {
    if s.cur_obj@[s.non_basic_vars_inv@[var as int] as int].val() > 0 as real {
        s.orig_var_maxs@[var as int]
    } else {
        s.orig_var_mins@[var as int]
    }
}

proof fn unset_way<T: Scalar>(
    before: Solver<T>,
    after: Solver<T>,
    var: usize,
    r: Result<bool, Error>,
) -> (moved: Solver<T>)
    requires
        before.wf(),
        var < before.total(),
        before.set_vars@.contains_key(var),
        before.non_basic_vars_inv@[var as int] != SENTINEL,
        var_unset(before, after, var, r),
    ensures
        ({
            let limit = before.better_limit(before.non_basic_vars_inv@[var as int] as int);
            if limit.infinite() {
                r == Err::<bool, Error>(Error::Unbounded) && after.set_vars@
                    == before.set_vars@.remove(var) && after.same_program(before)
            } else {
                freed_at(before, moved, var, limit.val()) && repaired_to(moved, after, r)
            }
        }),
{
    let (marked, moved) = choose|marked: Solver<T>, moved: Solver<T>| #[trigger]
        unset_by(before, marked, moved, after, var, r);
    unset_moves(before, marked, moved, after, var, r);
    moved
}

proof fn better_limit_is<T: Scalar>(s: Solver<T>, var: usize)
    requires
        exact::<T>(),
        s.wf(),
        finite_vertex(s),
        var < s.total(),
        limits_open(s, var as int),
        s.non_basic_vars_inv@[var as int] != SENTINEL,
    ensures
        ({
            let col = s.non_basic_vars_inv@[var as int] as int;
            let limit = s.better_limit(col);
            &&& limit == serving_limit(s, var)
            &&& limit.infinite() == !limit.finite()
        }),
{
    let col = s.non_basic_vars_inv@[var as int] as int;
    assert(s.non_basic_vars@[col] == var);
    assert(s.cur_obj@[col].finite());
}

/// The outcome is that of a repair.
#[verifier::opaque]
pub open spec fn repaired_to<T: Scalar>(
    moved: Solver<T>,
    after: Solver<T>,
    r: Result<bool, Error>,
) -> bool {
    match r {
        Ok(b) => b && repaired(moved, after, Ok(())),
        Err(e) => repaired(moved, after, Err(e)),
    }
}

proof fn unset_moves<T: Scalar>(
    before: Solver<T>,
    marked: Solver<T>,
    moved: Solver<T>,
    after: Solver<T>,
    var: usize,
    r: Result<bool, Error>,
)
    requires
        before.wf(),
        var < before.total(),
        before.non_basic_vars_inv@[var as int] != SENTINEL,
        unset_by(before, marked, moved, after, var, r),
    ensures
        r != Ok::<bool, Error>(false),
        ({
            let limit = before.better_limit(before.non_basic_vars_inv@[var as int] as int);
            if limit.infinite() {
                r == Err::<bool, Error>(Error::Unbounded) && after.set_vars@
                    == before.set_vars@.remove(var) && after.same_program(before)
            } else {
                freed_at(before, moved, var, limit.val()) && repaired_to(moved, after, r)
            }
        }),
{
    reveal(repaired_to);
    let col = before.non_basic_vars_inv@[var as int] as int;
    assert(before.non_basic_vars@[col] == var);
    let limit = before.better_limit(col);
    assert((before.basic_vars_inv@[var as int] == SENTINEL) != (
    before.non_basic_vars_inv@[var as int] == SENTINEL));
    if !limit.infinite() {
        let diff = limit.minus_spec(before.set_vars@[var]);
        let ready = choose|ready: Solver<T>| #[trigger]
            value_moved_from(marked, ready, moved, col, diff, limit);
        assert forall|v: int|
            0 <= v < before.total() && v != var && before.basic_vars_inv@[v]
                == SENTINEL implies #[trigger] moved.value_of(v) == before.value_of(v) by {
            let c = before.non_basic_vars_inv@[v] as int;
            assert((before.basic_vars_inv@[v] == SENTINEL) != (before.non_basic_vars_inv@[v]
                == SENTINEL));
            assert(before.non_basic_vars@[c] == v);
        }
    }
}

/// The numbers are finite on every way that unsetting a variable can have gone until the program was
/// called infeasible; the columns that enter cost least, and no coefficient is lost in the tolerance.
#[verifier::opaque]
pub open spec fn fair_unsetting<T: Scalar>(
    before: Solver<T>,
    after: Solver<T>,
    var: usize,
) -> bool {
    forall|marked: Solver<T>, moved: Solver<T>| #[trigger]
        unset_by(before, marked, moved, after, var, Err(Error::Infeasible)) ==> {
            let col = before.non_basic_vars_inv@[var as int] as int;
            let new_val = before.better_limit(col);
            let diff = new_val.minus_spec(before.set_vars@[var]);
            &&& fair_refusal(moved, after)
            &&& forall|ready: Solver<T>| #[trigger]
                value_moved_from(marked, ready, moved, col, diff, new_val) ==> moved.wf()
                    && finite_items(ready.col_coeffs.values@) && finite_vertex(moved)
        }
}

/// Where the program is called infeasible once a variable is not set any more, no point meets the
/// constraints and limits, with the other variables that are set at their values.
pub proof fn refused_unsetting_has_no_point<T: Scalar>(
    before: Solver<T>,
    after: Solver<T>,
    var: usize,
    z: spec_fn(int) -> real,
)
    requires
        exact::<T>(),
        in_order(before),
        signs_fit(before),
        var < before.total(),
        before.set_vars@.contains_key(var),
        var_unset(before, after, var, Err(Error::Infeasible)),
        fair_unsetting(before, after, var),
    ensures
        !(on_constraints(before, z) && within_but(before, var, z)),
{
    reveal(fair_unsetting);
    let bad = Err::<bool, Error>(Error::Infeasible);
    let (marked, moved) = choose|marked: Solver<T>, moved: Solver<T>| #[trigger]
        unset_by(before, marked, moved, after, var, bad);
    let row = before.basic_vars_inv@[var as int];
    assert((row == SENTINEL) != (before.non_basic_vars_inv@[var as int] == SENTINEL));
    if row != SENTINEL {
        assert(before.basic_vars@[row as int] == var);
        assert(!before.set_vars@.contains_key(before.basic_vars@[row as int]));
    }
    let col = before.non_basic_vars_inv@[var as int] as int;
    let new_val = before.better_limit(col);
    let diff = new_val.minus_spec(before.set_vars@[var]);
    let ready = choose|ready: Solver<T>| #[trigger]
        value_moved_from(marked, ready, moved, col, diff, new_val);
    assert(before.non_basic_vars@[col] == var);
    unset_keeps(before, marked, ready, moved, col);
    assert(moved.non_basic_vals@[col].finite());
    unset_fits(before, marked, ready, moved, col, diff);
    crate::outcome::room_stays(before, moved);
    refusal_is_right(moved, after, z);
    if on_constraints(before, z) && within_but(before, var, z) {
        assert forall|i: int| 0 <= i < moved.m() implies sum(
            lhs_terms(moved.orig_constraints_csc, z, i),
            moved.total() as nat,
        ) == (#[trigger] moved.orig_bounds@[i]).val() by {
            assert(before.orig_bounds@[i].val() == moved.orig_bounds@[i].val());
        }
        assert forall|v: int| 0 <= v < moved.total() implies {
            let (min, max) = (moved.orig_var_mins@[v], moved.orig_var_maxs@[v]);
            &&& min.finite() ==> min.val() <= #[trigger] z(v)
            &&& max.finite() ==> z(v) <= max.val()
            &&& moved.set_vars@.contains_key(v as usize) ==> z(v)
                == moved.set_vars@[v as usize].val()
        } by {
            assert(allowed(before, v, z(v)));
        }
    }
}

proof fn primal_program_stays<T: Scalar>(p: Seq<Solver<T>>, k: int)
    requires
        primal_path(p),
        0 <= k < p.len(),
    ensures
        p[k].same_program(p[0]),
        p[k].set_vars == p[0].set_vars,
    decreases k,
{
    if k > 0 {
        primal_program_stays(p, k - 1);
        assert(steps_at(p, k - 1));
    }
}

/// A repair that succeeds changes the vertex, and neither the program nor what is set.
pub proof fn repair_keeps_program<T: Scalar>(before: Solver<T>, after: Solver<T>)
    requires
        before.num_artificial_vars == 0,
        repaired(before, after, Ok(())),
    ensures
        before.wf(),
        after.wf(),
        after.same_program(before),
        after.set_vars == before.set_vars,
{
    let mid = choose|mid: Solver<T>| #[trigger]
        restored(before, mid, Ok(())) && optimized(mid, after, Ok(()));
    let p = choose|p: Seq<Solver<T>>| #[trigger] restored_by(p, before, mid, Ok(()));
    assert(p[0].wf());
    crate::outcome::dual_program_stays(p, p.len() - 1);
    dual_sets_stay(p, p.len() - 1);
    assert(climbed(mid, after, Ok(())));
    let q = choose|q: Seq<Solver<T>>| #[trigger] climbed_by(q, mid, after, Ok(()));
    primal_program_stays(q, q.len() - 1);
    assert(q[q.len() - 1].wf());
}

/// With the value `t`, which is not negative, for the slack variable the point is on the constraints
/// of the longer program.
pub open spec fn completes<T: Scalar>(
    before: Solver<T>,
    after: Solver<T>,
    z: spec_fn(int) -> real,
    t: real,
) -> bool {
    t >= 0 as real && on_constraints(after, extended_by(z, before.total(), t))
}

/// A value of the slack variable that is not negative completes a point to one on the constraints of
/// the longer program exactly if the point is on those that there were and meets the new one.
pub proof fn extension_completes<T: Scalar>(
    before: Solver<T>,
    after: Solver<T>,
    coeffs: CsVec<T>,
    rel_op: RelOp,
    bound: T,
    z: spec_fn(int) -> real,
)
    requires
        exact::<T>(),
        before.wf(),
        after.wf(),
        before.num_artificial_vars == 0,
        rel_op != RelOp::Eq,
        program_extended(before, after, coeffs, rel_op, bound),
    ensures
        (exists|t: real| #[trigger] completes(before, after, z, t)) <==> on_constraints(before, z)
            && meets(coeffs, rel_op, bound, before.total(), z),
{
    let slack = before.total();
    let m = before.m();
    let lhs = sum(side_terms(coeffs, z), slack as nat);
    let sign = slack_coeff::<T>(rel_op).val();
    if exists|t: real| #[trigger] completes(before, after, z, t) {
        let t = choose|t: real| #[trigger] completes(before, after, z, t);
        assert forall|i: int| 0 <= i < before.m() implies sum(
            lhs_terms(before.orig_constraints_csc, z, i),
            before.total() as nat,
        ) == (#[trigger] before.orig_bounds@[i]).val() by {
            longer_sides(before, after, coeffs, rel_op, bound, z, t, i);
            assert(after.orig_bounds@[i] == before.orig_bounds@[i]);
        }
        longer_sides(before, after, coeffs, rel_op, bound, z, t, m);
        assert(after.orig_bounds@[m] == bound);
        assert(sign == 1 as real ==> sign * t == t) by (nonlinear_arith);
        assert(sign == -1 as real ==> sign * t == -t) by (nonlinear_arith);
    }
    if on_constraints(before, z) && meets(coeffs, rel_op, bound, slack, z) {
        let d = bound.val() - lhs;
        let t = sign * d;
        assert(sign * (sign * d) == d) by (nonlinear_arith)
            requires
                sign == 1 as real || sign == -1 as real,
        ;
        assert(t >= 0 as real) by (nonlinear_arith)
            requires
                t == sign * d,
                sign == 1 as real && d >= 0 as real || sign == -1 as real && d <= 0 as real,
        ;
        let y = extended_by(z, slack, t);
        assert forall|i: int| 0 <= i < after.m() implies sum(
            lhs_terms(after.orig_constraints_csc, y, i),
            after.total() as nat,
        ) == (#[trigger] after.orig_bounds@[i]).val() by {
            longer_sides(before, after, coeffs, rel_op, bound, z, t, i);
            if i < m {
                assert(after.orig_bounds@[i] == before.orig_bounds@[i]);
            }
        }
        assert(completes(before, after, z, t));
    }
}

/// A constraint that is added, without an error, leaves those points of the program that meet it,
/// and no others.
pub proof fn added_constraint_is_met<T: Scalar>(
    before: Solver<T>,
    after: Solver<T>,
    coeffs: CsVec<T>,
    rel_op: RelOp,
    bound: T,
    z: spec_fn(int) -> real,
)
    requires
        exact::<T>(),
        before.wf(),
        before.num_artificial_vars == 0,
        rel_op != RelOp::Eq,
        coeffs.indices@.len() > 0,
        forall|v: usize| #[trigger] before.set_vars@.contains_key(v) ==> v < before.total(),
        constraint_added(before, after, coeffs, rel_op, bound, Ok(())),
    ensures
        (exists|t: real| #[trigger] completes(before, after, z, t)) <==> on_constraints(before, z)
            && meets(coeffs, rel_op, bound, before.total(), z),
        (exists|t: real| #[trigger] fits_longer(before, after, z, t)) <==> on_constraints(before, z)
            && within_limits(before, z) && meets(coeffs, rel_op, bound, before.total(), z),
{
    let mid = choose|mid: Solver<T>| #[trigger]
        extended(before, mid, coeffs, rel_op, bound) && repaired(mid, after, Ok(()));
    repair_keeps_program(mid, after);
    extension_completes(before, after, coeffs, rel_op, bound, z);
    extension_adds_constraint(before, after, coeffs, rel_op, bound, z);
}

/// The method gives up an optimization only on a path of more than two thousand million steps.
pub proof fn giving_up_takes_long<T: Scalar>(before: Solver<T>, after: Solver<T>)
    requires
        optimized(before, after, Err(Error::IterationLimit)),
    ensures
        exists|p: Seq<Solver<T>>| #[trigger]
            primal_path(p) && p.last() == after && p.len() > 0x7fff_ffff,
{
    let bad = Err::<(), Error>(Error::IterationLimit);
    if before.num_artificial_vars == 0 {
        let p = choose|p: Seq<Solver<T>>| #[trigger] climbed_by(p, before, after, bad);
        assert(primal_path(p));
    } else if bfs_found(before, after, bad) {
        let p = choose|p: Seq<Solver<T>>| #[trigger] bfs_found_by(p, before, after, bad);
        assert(primal_path(p));
    } else {
        let start = choose|start: Solver<T>| #[trigger]
            bfs_found(before, start, Ok(())) && climbed(start, after, bad);
        let p = choose|p: Seq<Solver<T>>| #[trigger] climbed_by(p, start, after, bad);
        assert(primal_path(p));
    }
}

/// Restoring feasibility, too, is given up only on a path of more than two thousand million steps.
pub proof fn giving_up_restoring_takes_long<T: Scalar>(before: Solver<T>, after: Solver<T>)
    requires
        restored(before, after, Err(Error::IterationLimit)),
    ensures
        exists|p: Seq<Solver<T>>| #[trigger]
            dual_path(p) && p[0] == before && p.last() == after && p.len() > 0x7fff_ffff,
{
    let bad = Err::<(), Error>(Error::IterationLimit);
    let p = choose|p: Seq<Solver<T>>| #[trigger] restored_by(p, before, after, bad);
    assert(dual_path(p));
}

/// Where the first phase ends with artificial variables left, the vertex is an optimum of that phase
/// at which they cost no more than the tolerance, and one of them is basic if all were at first.
pub proof fn what_is_left_is_small<T: Scalar>(before: Solver<T>, after: Solver<T>)
    requires
        exact::<T>(),
        optimized(before, after, Err(Error::ArtificialVarsLeft)),
        before.basic_artificial() == before.num_artificial_vars,
        after.cur_obj_val.finite(),
    ensures
        after.cur_obj_val.val() <= T::tolerance_spec().val(),
        after.basic_artificial() != 0,
        is_optimal(after),
{
    let bad = Err::<(), Error>(Error::ArtificialVarsLeft);
    if before.num_artificial_vars > 0 && !bfs_found(before, after, bad) {
        let start = choose|start: Solver<T>| #[trigger]
            bfs_found(before, start, Ok(())) && climbed(start, after, bad);
        assert(climbed(start, after, bad));
    }
    let p = choose|p: Seq<Solver<T>>| #[trigger] bfs_found_by(p, before, after, bad);
    assert(bfs_found_by(p, before, after, bad));
}

/// The first phase goes on as long as an artificial variable is basic, and no longer.
pub proof fn first_phase_ends_in_time<T: Scalar>(
    p: Seq<Solver<T>>,
    before: Solver<T>,
    after: Solver<T>,
    i: int,
)
    requires
        bfs_found_by(p, before, after, Ok(())),
        before.basic_artificial() == before.num_artificial_vars,
        0 <= i < p.len(),
    ensures
        p[i].basic_artificial() > 0 <==> i < p.len() - 1,
{
    if i < p.len() - 1 {
        assert(crate::phases::left_to_remove(before, p[i]) > 0);
    }
}

/// A vertex of the same program at which one variable more is set and has its value.
pub open spec fn held_at<T: Scalar>(
    before: Solver<T>,
    moved: Solver<T>,
    var: usize,
    val: T,
) -> bool {
    &&& moved.wf()
    &&& moved.same_program(before)
    &&& moved.set_vars@ == before.set_vars@.insert(var, val)
    &&& moved.value_of(var as int) == val
}

/// The variable did not come to the value, for want of a column that may enter, or of factors.
pub open spec fn held_back<T: Scalar>(
    before: Solver<T>,
    after: Solver<T>,
    var: usize,
    val: T,
    r: Result<(), Error>,
) -> bool {
    &&& before.basic_vars_inv@[var as int] != SENTINEL
    &&& r == Err::<(), Error>(Error::Infeasible) || r == Err::<(), Error>(Error::SingularMatrix)
    &&& after.same_program(before)
    &&& after.set_vars@ == before.set_vars@.insert(var, val)
}

/// A value that is not outside the limits is tried: the variable comes to it, and the program is
/// repaired from there, or a basic variable is held back.
pub proof fn allowed_value_is_tried<T: Scalar>(
    before: Solver<T>,
    after: Solver<T>,
    var: usize,
    val: T,
    r: Result<(), Error>,
)
    requires
        exact::<T>(),
        before.wf(),
        var < before.total(),
        limits_open(before, var as int),
        val.finite(),
        allowed(before, var as int, val.val()),
        var_set(before, after, var, val, r),
    ensures
        held_back(before, after, var, val, r) || exists|moved: Solver<T>| #[trigger]
            held_at(before, moved, var, val) && repaired(moved, after, r),
{
    let (min, max) = (before.orig_var_mins@[var as int], before.orig_var_maxs@[var as int]);
    assert(min.infinite() ==> min.less_spec(val) && min.minus_spec(val).signum_spec().finite());
    assert(max.infinite() ==> val.less_spec(max) && max.minus_spec(val).signum_spec().finite());
    let (marked, moved) = choose|marked: Solver<T>, moved: Solver<T>| #[trigger]
        set_by(before, marked, moved, after, var, val, r);
    set_moves(before, marked, moved, after, var, val, r);
    if !held_back(before, after, var, val, r) {
        assert(held_at(before, moved, var, val));
    }
}

proof fn repair_starts<T: Scalar>(before: Solver<T>, after: Solver<T>, r: Result<(), Error>)
    requires
        repaired(before, after, r),
    ensures
        before.wf(),
{
    if r is Err && restored(before, after, r) {
        let p = choose|p: Seq<Solver<T>>| #[trigger] restored_by(p, before, after, r);
        assert(p[0].wf());
    } else {
        let mid = choose|mid: Solver<T>| #[trigger]
            restored(before, mid, Ok(())) && optimized(mid, after, r);
        let p = choose|p: Seq<Solver<T>>| #[trigger] restored_by(p, before, mid, Ok(()));
        assert(p[0].wf());
    }
}

proof fn set_moves<T: Scalar>(
    before: Solver<T>,
    marked: Solver<T>,
    moved: Solver<T>,
    after: Solver<T>,
    var: usize,
    val: T,
    r: Result<(), Error>,
)
    requires
        before.wf(),
        var < before.total(),
        set_by(before, marked, moved, after, var, val, r),
    ensures
        held_back(before, after, var, val, r) || held_at(before, moved, var, val) && repaired(
            moved,
            after,
            r,
        ),
{
    let v = var as int;
    let row = before.basic_vars_inv@[v];
    let col = before.non_basic_vars_inv@[v] as int;
    assert((row == SENTINEL) != (before.non_basic_vars_inv@[v] == SENTINEL));
    if row != SENTINEL {
        assert(before.basic_vars@[row as int] == var);
        if r is Err && moved == after && left_basis(marked, moved, row, val, r) {
            let (mid, ready) = choose|mid: Solver<T>, ready: Solver<T>| #[trigger]
                exit_made(marked, mid, ready, moved, row, val, r);
            assert(held_back(before, after, var, val, r));
        } else {
            let (mid, ready) = choose|mid: Solver<T>, ready: Solver<T>| #[trigger]
                exit_made(marked, mid, ready, moved, row, val, Ok(()));
            repair_starts(moved, after, r);
            let c = mid.dual_entering(row, val)->Ok_0.col as int;
            assert(moved.non_basic_vars@[c] == var);
            assert(moved.non_basic_vars_inv@[v] == c);
            assert((moved.basic_vars_inv@[v] == SENTINEL) != (moved.non_basic_vars_inv@[v]
                == SENTINEL));
        }
    } else {
        let diff = val.minus_spec(marked.non_basic_vals@[col]);
        let ready = choose|ready: Solver<T>| #[trigger]
            value_moved_from(marked, ready, moved, col, diff, val);
        repair_starts(moved, after, r);
        assert(before.non_basic_vars@[col] == var);
    }
}

/// A constraint with variables is tried: the program becomes one whose points are those that meet
/// it, and is repaired from there, unless the longer basis has no factors.
pub proof fn constraint_is_tried<T: Scalar>(
    before: Solver<T>,
    after: Solver<T>,
    coeffs: CsVec<T>,
    rel_op: RelOp,
    bound: T,
    r: Result<(), Error>,
    z: spec_fn(int) -> real,
)
    requires
        exact::<T>(),
        before.wf(),
        before.num_artificial_vars == 0,
        rel_op != RelOp::Eq,
        coeffs.indices@.len() > 0,
        forall|v: usize| #[trigger] before.set_vars@.contains_key(v) ==> v < before.total(),
        constraint_added(before, after, coeffs, rel_op, bound, r),
        r != Err::<(), Error>(Error::SingularMatrix),
    ensures
        exists|mid: Solver<T>| #[trigger]
            repaired(mid, after, r) && mid.set_vars@ == before.set_vars@ && ((exists|t: real|
                #[trigger] fits_longer(before, mid, z, t)) <==> on_constraints(before, z)
                && within_limits(before, z) && meets(coeffs, rel_op, bound, before.total(), z)),
{
    let mid = choose|mid: Solver<T>| #[trigger]
        extended(before, mid, coeffs, rel_op, bound) && repaired(mid, after, r);
    repair_starts(mid, after, r);
    extension_adds_constraint(before, mid, coeffs, rel_op, bound, z);
    assert(repaired(mid, after, r));
}

} // verus!
