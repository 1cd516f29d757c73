//! The squared norms from step to step and from call to call, where arithmetic is exact.
use crate::edited::{
    extended_is_sound, marked_is_consistent, set_basic_keeps, set_value_keeps, unset_keeps,
};
use crate::edits::{
    below_floor, constraint_added, cut_added, cut_by, extended, repaired, set_by, slack_coeff,
    unset_by, value_moved_from, var_set, var_unset, with_set,
};
use crate::handover::{found_is_sound, kept_place, none_counted, sets_spare_artificial};
use crate::lu::all_finite;
use crate::norms::{
    finite_norms, mixed_product, norm_holds, norms_hold, pivot_keeps_norms, square_terms,
    step_keeps_norms, weighted,
};
use crate::outcome::{dual_program_stays, repair_starts_well};
use crate::phases::{
    bfs_found, bfs_found_by, climbed, climbed_by, count_within, dual_path, exit_made, freed,
    optimized, primal_path, restored, restored_by, step_made, worst_row,
};
use crate::renewed::{factored_basis, sharp_bounds, sharp_costs};
use crate::scalar::{exact, is_zero, Scalar};
use crate::simplex::{unit_vec, PivotInfo, RelOp, Solver, SENTINEL};
use crate::singular::{mixed_terms, mixes_to};
use crate::solve::finite_items;
use crate::sparse::CsVec;
use crate::steps::{
    dual_path_keeps, exit_fits, finite_dual_at, finite_dual_path, finite_exit, finite_primal_at,
    finite_primal_path, finite_step, may_leave_with, primal_path_keeps, worst_row_facts,
};
use crate::sums::{sum, sum_same, sum_single, times_zero};
use crate::vertex::{consistent, consistent_elsewhere, finite_vertex, fresh_basis, sound};
use vstd::prelude::*;

verus! {

/// Where basis and norms are the same, the norms hold of both.
pub proof fn norms_carry<T: Scalar>(s: Solver<T>, t: Solver<T>)
    requires
        norms_hold(s),
        t.enable_steepest_edge == s.enable_steepest_edge,
        t.orig_constraints_csc == s.orig_constraints_csc,
        t.basic_vars@ == s.basic_vars@,
        t.non_basic_vars@ == s.non_basic_vars@,
        t.non_basic_col_sq_norms@ == s.non_basic_col_sq_norms@,
    ensures
        norms_hold(t),
{
    assert forall|c: int| 0 <= c < t.non_basic_vars@.len() implies #[trigger] norm_holds(t, c) by {
        assert(norm_holds(s, c));
    }
}

/// The change in which the variable in row `row` leaves keeps the squared norms right.
pub proof fn exit_keeps_norms<T: Scalar>(
    before: Solver<T>,
    mid: Solver<T>,
    ready: Solver<T>,
    after: Solver<T>,
    row: usize,
    val: T,
)
    requires
        exact::<T>(),
        consistent(before),
        row < before.m(),
        may_leave_with(before, row as int, val),
        after.wf(),
        exit_made(before, mid, ready, after, row, val, Ok(())),
        finite_exit(mid, ready, after),
        norms_hold(before),
        finite_norms(ready, after, mid.dual_entering(row, val)->Ok_0),
    ensures
        norms_hold(after),
{
    exit_fits(before, mid, ready, after, row, val);
    let info = mid.dual_entering(row, val)->Ok_0;
    norms_carry(before, ready);
    pivot_keeps_norms(ready, after, info, mid.basis_solver.rhs.values@);
}

/// Step `i` of a path has finite numbers, those for the norms among them.
pub open spec fn normed_at<T: Scalar>(s: Seq<Solver<T>>, i: int) -> bool {
    exists|mid: Solver<T>, info: PivotInfo<T>| #[trigger]
        step_made(s[i], mid, s[i + 1], info, Ok(())) && finite_step(mid, s[i + 1], info)
            && finite_norms(mid, s[i + 1], info)
}

/// A path of the primal method whose numbers are finite, those for the norms among them.
pub open spec fn normed_path<T: Scalar>(s: Seq<Solver<T>>) -> bool {
    &&& primal_path(s)
    &&& forall|i: int| 0 <= i < s.len() - 1 ==> #[trigger] normed_at(s, i)
}

/// On a path of the primal method the squared norms stay right.
pub proof fn path_keeps_norms<T: Scalar>(s: Seq<Solver<T>>, k: int)
    requires
        exact::<T>(),
        normed_path(s),
        sound(s[0]),
        norms_hold(s[0]),
        0 <= k < s.len(),
    ensures
        finite_primal_path(s),
        norms_hold(s[k]),
    decreases k,
{
    assert forall|i: int| 0 <= i < s.len() - 1 implies #[trigger] finite_primal_at(s, i) by {
        assert(normed_at(s, i));
    }
    if k > 0 {
        path_keeps_norms(s, k - 1);
        primal_path_keeps(s, k - 1);
        assert(normed_at(s, k - 1));
        let (mid, info) = choose|mid: Solver<T>, info: PivotInfo<T>| #[trigger]
            step_made(s[k - 1], mid, s[k], info, Ok(())) && finite_step(mid, s[k], info)
                && finite_norms(mid, s[k], info);
        assert(s[k].wf());
        step_keeps_norms(s[k - 1], mid, s[k], info);
    }
}

/// Step `i` of a path of the dual method has finite numbers, those for the norms among them.
pub open spec fn dual_normed_at<T: Scalar>(s: Seq<Solver<T>>, i: int) -> bool {
    worst_row(s[i]) matches Some((row, val)) && exists|mid: Solver<T>, ready: Solver<T>|
        #[trigger] exit_made(s[i], mid, ready, s[i + 1], row, val, Ok(())) && finite_exit(
            mid,
            ready,
            s[i + 1],
        ) && finite_norms(ready, s[i + 1], mid.dual_entering(row, val)->Ok_0)
}

/// A path of the dual method whose numbers are finite, those for the norms among them.
pub open spec fn dual_normed_path<T: Scalar>(s: Seq<Solver<T>>) -> bool {
    &&& dual_path(s)
    &&& forall|i: int| 0 <= i < s.len() - 1 ==> #[trigger] dual_normed_at(s, i)
}

/// On a path of the dual method the squared norms stay right.
pub proof fn dual_path_keeps_norms<T: Scalar>(s: Seq<Solver<T>>, k: int)
    requires
        exact::<T>(),
        dual_normed_path(s),
        sound(s[0]),
        norms_hold(s[0]),
        0 <= k < s.len(),
    ensures
        finite_dual_path(s),
        norms_hold(s[k]),
    decreases k,
{
    assert forall|i: int| 0 <= i < s.len() - 1 implies #[trigger] finite_dual_at(s, i) by {
        assert(dual_normed_at(s, i));
    }
    if k > 0 {
        dual_path_keeps_norms(s, k - 1);
        dual_path_keeps(s, k - 1);
        let before = s[k - 1];
        assert(dual_normed_at(s, k - 1));
        let (row, val) = worst_row(before)->0;
        let (mid, ready) = choose|mid: Solver<T>, ready: Solver<T>| #[trigger]
            exit_made(before, mid, ready, s[k], row, val, Ok(())) && finite_exit(
                mid,
                ready,
                s[k],
            ) && finite_norms(ready, s[k], mid.dual_entering(row, val)->Ok_0);
        assert(s[k].wf());
        worst_row_facts(before, before.m());
        assert(!before.set_vars@.contains_key(before.basic_vars@[row as int]));
        exit_keeps_norms(before, mid, ready, s[k], row, val);
    }
}

/// Where the artificial variables are taken out, the squared norms of the other columns stay right.
pub proof fn freed_keeps_norms<T: Scalar>(x: Solver<T>, after: Solver<T>)
    requires
        x.wf(),
        after.wf(),
        x.basic_artificial() == 0,
        freed(x, after),
        norms_hold(x),
    ensures
        norms_hold(after),
{
    let (big, mat) = (x.orig_constraints_csc, after.orig_constraints_csc);
    let limit = x.art_start();
    let basic = x.basic_vars@;
    none_counted(basic, limit, basic.len() as int);
    assert forall|v: int, i: int| 0 <= v < limit && 0 <= i < x.m() implies #[trigger] mat.line(v, i)
        == big.line(v, i) by {
        assert(mat.line(v, i) == after.orig_constraints.line(i, v));
        assert(big.line(v, i) == x.orig_constraints.line(i, v));
    }
    assert forall|p: int| 0 <= p < after.non_basic_vars@.len() implies #[trigger] norm_holds(
        after,
        p,
    ) by {
        let v = after.non_basic_vars@[p] as int;
        assert(after.non_basic_vars_inv@[v] == p);
        assert((after.basic_vars_inv@[v] == SENTINEL) != (after.non_basic_vars_inv@[v]
            == SENTINEL));
        assert((x.basic_vars_inv@[v] == SENTINEL) != (x.non_basic_vars_inv@[v] == SENTINEL));
        if x.basic_vars_inv@[v] != SENTINEL {
            let r = x.basic_vars_inv@[v] as int;
            assert(x.basic_vars@[r] == v);
            assert(after.basic_vars@[r] == v);
            assert(after.basic_vars_inv@[v] == r);
        }
        let c = x.non_basic_vars_inv@[v] as int;
        assert(x.non_basic_vars@[c] == v);
        let q = kept_place(
            x.non_basic_vars@,
            x.non_basic_col_sq_norms@,
            limit,
            x.non_basic_vars@.len() as int,
            c,
        );
        assert(after.non_basic_vars_inv@[v] == q);
        assert(norm_holds(x, c));
        let w = choose|w: Seq<real>|
            w.len() == basic.len() && #[trigger] mixes_to(big, basic, w, v)
                && x.non_basic_col_sq_norms@[c].val() == sum(square_terms(w), w.len());
        assert(mixes_to(mat, basic, w, v)) by {
            assert forall|i: int| 0 <= i < mat.nrows implies (#[trigger] mat.line(v, i)).val()
                == sum(mixed_terms(mat, basic, w, i), w.len()) by {
                let f = mixed_terms(big, basic, w, i);
                let g = mixed_terms(mat, basic, w, i);
                assert forall|k: int| 0 <= k < w.len() implies #[trigger] f(k) == g(k) by {
                    assert(basic[k] < limit);
                    assert(mat.line(basic[k] as int, i) == big.line(basic[k] as int, i));
                }
                sum_same(f, g, w.len());
                assert(big.line(v, i).val() == sum(f, w.len()));
            }
        }
    }
}

/// One more constraint adds to each squared norm the square of one more coefficient.
pub proof fn extended_keeps_norms<T: Scalar>(
    before: Solver<T>,
    after: Solver<T>,
    coeffs: CsVec<T>,
    rel_op: RelOp,
    bound: T,
)
    requires
        exact::<T>(),
        before.wf(),
        extended(before, after, coeffs, rel_op, bound),
        after.wf(),
        factored_basis(after),
        finite_items(after.basis_solver.rhs.values@),
        finite_items(after.row_coeffs.values@),
        finite_items(after.non_basic_col_sq_norms@),
        norms_hold(before),
    ensures
        norms_hold(after),
{
    let (small, mat) = (before.orig_constraints_csc, after.orig_constraints_csc);
    let m = before.m();
    let slack = before.total();
    let (basic, basic2) = (before.basic_vars@, after.basic_vars@);
    let rest = after.non_basic_vars@;
    fresh_basis(after.basis_solver, mat, basic2);
    assert forall|v: int, i: int| 0 <= v < slack && 0 <= i < m implies #[trigger] mat.line(v, i)
        == small.line(v, i) by {
        assert(mat.line(v, i) == after.orig_constraints.line(i, v));
        assert(small.line(v, i) == before.orig_constraints.line(i, v));
    }
    assert forall|i: int| 0 <= i < m implies (#[trigger] mat.line(slack, i)).val() == 0 as real by {
        assert(mat.line(slack, i) == after.orig_constraints.line(i, slack));
        assert(after.orig_constraints.line(i, slack) == before.orig_constraints.line(i, slack));
        let rows = before.orig_constraints;
        rows.line_wf(i);
        if rows.line_has(i, slack) {
            let p = crate::sparse::place(rows.indices@, rows.lo(i), rows.hi(i), slack);
            assert(rows.indices@[p] == slack);
        }
    }
    let sign = mat.line(slack, m).val();
    assert(sign * sign == 1 as real) by {
        assert(mat.line(slack, m) == after.orig_constraints.line(m, slack));
        assert(mat.line(slack, m) == slack_coeff::<T>(rel_op));
        assert(sign * sign == 1 as real) by (nonlinear_arith)
            requires
                sign == 1 as real || sign == -1 as real,
        ;
    }
    let rho = after.basis_solver.rhs.values@;
    let alpha = after.row_coeffs.values@;
    let unit = unit_vec::<T>(m, m + 1);
    let ones = Seq::new((m + 1) as nat, |k: int| unit[k].val());
    assert forall|c: int| 0 <= c < rest.len() implies #[trigger] norm_holds(after, c) by {
        let v = rest[c] as int;
        assert(norm_holds(before, c));
        let w = choose|w: Seq<real>|
            w.len() == basic.len() && #[trigger] mixes_to(small, basic, w, v)
                && before.non_basic_col_sq_norms@[c].val() == sum(square_terms(w), w.len());
        let under = sum(mixed_terms(mat, basic2, w, m), m as nat);
        let t = sign * (mat.line(v, m).val() - under);
        let w2 = w.push(t);
        assert(mixes_to(mat, basic2, w2, v)) by {
            assert forall|i: int| 0 <= i < mat.nrows implies (#[trigger] mat.line(v, i)).val()
                == sum(mixed_terms(mat, basic2, w2, i), w2.len()) by {
                let g = mixed_terms(mat, basic2, w2, i);
                if i < m {
                    let f = mixed_terms(small, basic, w, i);
                    assert forall|k: int| 0 <= k < m implies #[trigger] f(k) == g(k) by {
                        assert(mat.line(basic[k] as int, i) == small.line(basic[k] as int, i));
                    }
                    sum_same(f, g, m as nat);
                    assert(small.line(v, i).val() == sum(f, m as nat));
                    assert(mat.line(v, i) == small.line(v, i));
                    times_zero(t);
                } else {
                    let f = mixed_terms(mat, basic2, w, m);
                    assert forall|k: int| 0 <= k < m implies #[trigger] f(k) == g(k) by {}
                    sum_same(f, g, m as nat);
                    let d = mat.line(v, m).val() - under;
                    assert(sign * (sign * d) == (sign * sign) * d) by (nonlinear_arith);
                    times_zero(d);
                }
            }
        }
        // the row of the inverse gives the coefficient
        mixed_product(mat, basic2, w2, v, rho, unit, ones);
        let f = weighted(ones, w2);
        assert forall|k: int| 0 <= k < m + 1 && k != m implies #[trigger] f(k) == 0 as real by {
            times_zero(w2[k]);
        }
        sum_single(f, (m + 1) as nat, m);
        times_zero(t);
        assert(alpha[c].val() == t);
        let (p, q) = (square_terms(w), square_terms(w2));
        assert forall|k: int| 0 <= k < m implies #[trigger] p(k) == q(k) by {}
        sum_same(p, q, m as nat);
        assert(sum(q, (m + 1) as nat) == sum(q, m as nat) + t * t);
        assert(after.non_basic_col_sq_norms@[c].finite());
        if !after.row_coeffs.is_nonzero@[c] {
            assert(is_zero(alpha[c]));
            times_zero(t);
        }
    }
}

/// The numbers are finite on every way that an optimization can have gone, those for the norms among
/// them, and where the artificial variables are taken out no reduced cost is lost in the tolerance.
pub open spec fn normed_search<T: Scalar>(before: Solver<T>, after: Solver<T>) -> bool {
    if before.num_artificial_vars == 0 {
        forall|p: Seq<Solver<T>>| #[trigger]
            climbed_by(p, before, after, Ok(())) ==> normed_path(p)
    } else {
        forall|p: Seq<Solver<T>>, start: Solver<T>, q: Seq<Solver<T>>|
            #![trigger bfs_found_by(p, before, start, Ok(())), climbed_by(q, start, after, Ok(()))]
            bfs_found_by(p, before, start, Ok(())) && climbed_by(q, start, after, Ok(()))
                ==> normed_path(p) && normed_path(q) && finite_vertex(start) && all_finite(
                start.basis_solver.lu_factors.lower,
            ) && all_finite(start.basis_solver.lu_factors.upper) && sharp_costs(start)
    }
}

/// An optimization that succeeds keeps the squared norms right.
pub proof fn optimization_keeps_norms<T: Scalar>(before: Solver<T>, after: Solver<T>)
    requires
        exact::<T>(),
        sound(before),
        sets_spare_artificial(before),
        norms_hold(before),
        optimized(before, after, Ok(())),
        normed_search(before, after),
    ensures
        norms_hold(after),
{
    if before.num_artificial_vars == 0 {
        let p = choose|p: Seq<Solver<T>>| #[trigger] climbed_by(p, before, after, Ok(()));
        path_keeps_norms(p, p.len() - 1);
    } else {
        let start = choose|start: Solver<T>| #[trigger]
            bfs_found(before, start, Ok(())) && climbed(start, after, Ok(()));
        let p = choose|p: Seq<Solver<T>>| #[trigger] bfs_found_by(p, before, start, Ok(()));
        let q = choose|q: Seq<Solver<T>>| #[trigger] climbed_by(q, start, after, Ok(()));
        let x = p.last();
        path_keeps_norms(p, p.len() - 1);
        primal_path_keeps(p, p.len() - 1);
        count_within(before);
        count_within(x);
        assert(q[0].wf());
        freed_keeps_norms(x, start);
        found_is_sound(p, before, start);
        path_keeps_norms(q, q.len() - 1);
    }
}

/// The numbers are finite on every way that a repair can have gone, those for the norms among them.
#[verifier::opaque]
pub open spec fn normed_repair<T: Scalar>(before: Solver<T>, after: Solver<T>) -> bool {
    forall|p: Seq<Solver<T>>, mid: Solver<T>, q: Seq<Solver<T>>|
        #![trigger restored_by(p, before, mid, Ok(())), climbed_by(q, mid, after, Ok(()))]
        restored_by(p, before, mid, Ok(())) && climbed_by(q, mid, after, Ok(()))
            ==> dual_normed_path(p) && normed_path(q)
}

/// A repair that succeeds keeps the squared norms right.
pub proof fn repair_keeps_norms<T: Scalar>(before: Solver<T>, after: Solver<T>)
    requires
        exact::<T>(),
        sound(before),
        before.num_artificial_vars == 0,
        norms_hold(before),
        repaired(before, after, Ok(())),
        normed_repair(before, after),
    ensures
        norms_hold(after),
{
    reveal(normed_repair);
    let mid = choose|mid: Solver<T>| #[trigger]
        restored(before, mid, Ok(())) && optimized(mid, after, Ok(()));
    let p = choose|p: Seq<Solver<T>>| #[trigger] restored_by(p, before, mid, Ok(()));
    dual_program_stays(p, p.len() - 1);
    let q = choose|q: Seq<Solver<T>>| #[trigger] climbed_by(q, mid, after, Ok(()));
    dual_path_keeps_norms(p, p.len() - 1);
    dual_path_keeps(p, p.len() - 1);
    path_keeps_norms(q, q.len() - 1);
}

/// The numbers are finite on every way that setting a variable can have gone, those for the norms
/// among them.
#[verifier::opaque]
pub open spec fn normed_set<T: Scalar>(
    before: Solver<T>,
    after: Solver<T>,
    var: usize,
    val: T,
) -> bool {
    forall|marked: Solver<T>, moved: Solver<T>| #[trigger]
        set_by(before, marked, moved, after, var, val, Ok(())) ==> {
            let row = before.basic_vars_inv@[var as int];
            let col = before.non_basic_vars_inv@[var as int] as int;
            let diff = val.minus_spec(marked.non_basic_vals@[col]);
            &&& normed_repair(moved, after)
            &&& forall|mid: Solver<T>, ready: Solver<T>| #[trigger]
                exit_made(marked, mid, ready, moved, row, val, Ok(())) ==> finite_exit(
                    mid,
                    ready,
                    moved,
                ) && finite_norms(ready, moved, mid.dual_entering(row, val)->Ok_0)
            &&& forall|ready: Solver<T>| #[trigger]
                value_moved_from(marked, ready, moved, col, diff, val) ==> finite_items(
                    ready.col_coeffs.values@,
                ) && finite_vertex(moved)
        }
}

/// Setting a variable, where it succeeds, keeps the squared norms right.
pub proof fn setting_keeps_norms<T: Scalar>(
    before: Solver<T>,
    after: Solver<T>,
    var: usize,
    val: T,
)
    requires
        exact::<T>(),
        sound(before),
        before.num_artificial_vars == 0,
        norms_hold(before),
        var < before.total(),
        var_set(before, after, var, val, Ok(())),
        normed_set(before, after, var, val),
    ensures
        norms_hold(after),
{
    let (marked, moved) = choose|marked: Solver<T>, moved: Solver<T>| #[trigger]
        set_by(before, marked, moved, after, var, val, Ok(()));
    let row = before.basic_vars_inv@[var as int];
    let col = before.non_basic_vars_inv@[var as int] as int;
    repair_starts_well(moved, after);
    assert((row == SENTINEL) != (before.non_basic_vars_inv@[var as int] == SENTINEL));
    assert(normed_repair(moved, after)) by {
        reveal(normed_set);
    }
    if row != SENTINEL {
        let (mid, ready) = choose|mid: Solver<T>, ready: Solver<T>| #[trigger]
            exit_made(marked, mid, ready, moved, row, val, Ok(()));
        assert(finite_exit(mid, ready, moved) && finite_norms(
            ready,
            moved,
            mid.dual_entering(row, val)->Ok_0,
        )) by {
            reveal(normed_set);
        }
        held_basic_keeps_norms(before, marked, mid, ready, moved, var, val);
    } else {
        let diff = val.minus_spec(marked.non_basic_vals@[col]);
        let ready = choose|ready: Solver<T>| #[trigger]
            value_moved_from(marked, ready, moved, col, diff, val);
        assert(finite_items(ready.col_coeffs.values@) && finite_vertex(moved)) by {
            reveal(normed_set);
        }
        assert(before.non_basic_vars@[col] == var);
        held_value_keeps_norms(before, marked, ready, moved, col, val);
    }
    repair_keeps_norms(moved, after);
}

/// A basic variable that is set and leaves with its value keeps the squared norms right.
proof fn held_basic_keeps_norms<T: Scalar>(
    before: Solver<T>,
    marked: Solver<T>,
    mid: Solver<T>,
    ready: Solver<T>,
    moved: Solver<T>,
    var: usize,
    val: T,
)
    requires
        exact::<T>(),
        sound(before),
        norms_hold(before),
        var < before.total(),
        before.basic_vars_inv@[var as int] != SENTINEL,
        with_set(before, marked, var, val),
        exit_made(
            marked,
            mid,
            ready,
            moved,
            before.basic_vars_inv@[var as int],
            val,
            Ok(()),
        ),
        moved.wf(),
        finite_exit(mid, ready, moved),
        finite_norms(
            ready,
            moved,
            mid.dual_entering(before.basic_vars_inv@[var as int], val)->Ok_0,
        ),
    ensures
        sound(moved),
        moved.num_artificial_vars == before.num_artificial_vars,
        norms_hold(moved),
{
    let row = before.basic_vars_inv@[var as int];
    assert(before.basic_vars@[row as int] == var);
    norms_carry(before, marked);
    marked_is_consistent(before, marked, var);
    set_basic_keeps(before, marked, mid, ready, moved, var, val);
    exit_keeps_norms(marked, mid, ready, moved, row, val);
}

/// A non-basic variable that is set keeps the squared norms right.
proof fn held_value_keeps_norms<T: Scalar>(
    before: Solver<T>,
    marked: Solver<T>,
    ready: Solver<T>,
    moved: Solver<T>,
    col: int,
    val: T,
)
    requires
        exact::<T>(),
        sound(before),
        norms_hold(before),
        0 <= col < before.non_basic_vars@.len(),
        with_set(before, marked, before.non_basic_vars@[col], val),
        value_moved_from(
            marked,
            ready,
            moved,
            col,
            val.minus_spec(marked.non_basic_vals@[col]),
            val,
        ),
        moved.wf(),
        finite_items(ready.col_coeffs.values@),
        finite_vertex(moved),
    ensures
        sound(moved),
        moved.num_artificial_vars == before.num_artificial_vars,
        norms_hold(moved),
{
    set_value_keeps(before, marked, ready, moved, col, val);
    norms_carry(before, moved);
}

/// The numbers are finite on every way that unsetting a variable can have gone, those for the norms
/// among them.
#[verifier::opaque]
pub open spec fn normed_unset<T: Scalar>(before: Solver<T>, after: Solver<T>, var: usize) -> bool {
    forall|marked: Solver<T>, moved: Solver<T>| #[trigger]
        unset_by(before, marked, moved, after, var, Ok(true)) ==> {
            let col = before.non_basic_vars_inv@[var as int] as int;
            let new_val = before.better_limit(col);
            let diff = new_val.minus_spec(before.set_vars@[var]);
            &&& normed_repair(moved, after)
            &&& forall|ready: Solver<T>| #[trigger]
                value_moved_from(marked, ready, moved, col, diff, new_val) ==> finite_items(
                    ready.col_coeffs.values@,
                ) && finite_vertex(moved)
        }
}

/// Unsetting a variable, where it succeeds, keeps the squared norms right.
pub proof fn unsetting_keeps_norms<T: Scalar>(before: Solver<T>, after: Solver<T>, var: usize)
    requires
        exact::<T>(),
        sound(before),
        before.num_artificial_vars == 0,
        norms_hold(before),
        before.set_vars@.contains_key(var),
        var < before.total(),
        var_unset(before, after, var, Ok(true)),
        normed_unset(before, after, var),
    ensures
        norms_hold(after),
{
    reveal(normed_unset);
    let (marked, moved) = choose|marked: Solver<T>, moved: Solver<T>| #[trigger]
        unset_by(before, marked, moved, after, var, Ok(true));
    let col = before.non_basic_vars_inv@[var as int] as int;
    let new_val = before.better_limit(col);
    let diff = new_val.minus_spec(before.set_vars@[var]);
    repair_starts_well(moved, after);
    let row = before.basic_vars_inv@[var as int];
    assert((row == SENTINEL) != (before.non_basic_vars_inv@[var as int] == SENTINEL));
    if row != SENTINEL {
        assert(before.basic_vars@[row as int] == var);
        assert(!before.set_vars@.contains_key(before.basic_vars@[row as int]));
    }
    let ready = choose|ready: Solver<T>| #[trigger]
        value_moved_from(marked, ready, moved, col, diff, new_val);
    assert(before.non_basic_vars@[col] == var);
    unset_keeps(before, marked, ready, moved, col);
    norms_carry(before, moved);
    repair_keeps_norms(moved, after);
}

/// The numbers are finite on every way that adding a constraint can have gone, those for the norms
/// among them.
#[verifier::opaque]
pub open spec fn normed_extension<T: Scalar>(
    before: Solver<T>,
    after: Solver<T>,
    coeffs: CsVec<T>,
    rel_op: RelOp,
    bound: T,
) -> bool {
    forall|mid: Solver<T>| #[trigger]
        extended(before, mid, coeffs, rel_op, bound) && repaired(mid, after, Ok(())) ==> {
            &&& finite_vertex(mid)
            &&& factored_basis(mid)
            &&& sharp_bounds(mid)
            &&& finite_items(mid.basis_solver.rhs.values@)
            &&& finite_items(mid.row_coeffs.values@)
            &&& finite_items(mid.non_basic_col_sq_norms@)
            &&& normed_repair(mid, after)
        }
}

/// Adding a constraint, where it succeeds, keeps the squared norms right.
pub proof fn extension_keeps_norms<T: Scalar>(
    before: Solver<T>,
    after: Solver<T>,
    coeffs: CsVec<T>,
    rel_op: RelOp,
    bound: T,
)
    requires
        exact::<T>(),
        sound(before),
        before.num_artificial_vars == 0,
        forall|v: usize| #[trigger] before.set_vars@.contains_key(v) ==> v < before.total(),
        norms_hold(before),
        constraint_added(before, after, coeffs, rel_op, bound, Ok(())),
        normed_extension(before, after, coeffs, rel_op, bound),
    ensures
        norms_hold(after),
{
    reveal(normed_extension);
    if coeffs.indices@.len() > 0 {
        let mid = choose|mid: Solver<T>| #[trigger]
            extended(before, mid, coeffs, rel_op, bound) && repaired(mid, after, Ok(()));
        repair_starts_well(mid, after);
        extended_is_sound(before, mid, coeffs, rel_op, bound);
        extended_keeps_norms(before, mid, coeffs, rel_op, bound);
        repair_keeps_norms(mid, after);
    }
}

/// The numbers are finite on every way that adding a cut can have gone, those for the norms among
/// them.
#[verifier::opaque]
pub open spec fn normed_cut<T: Scalar>(before: Solver<T>, after: Solver<T>, var: usize) -> bool {
    forall|mid: Solver<T>, coeffs: CsVec<T>| #[trigger]
        cut_by(before, mid, coeffs, after, var, Ok(())) ==> normed_extension(
            mid,
            after,
            coeffs,
            RelOp::Le,
            below_floor(before.value_of(var as int)),
        )
}

/// Adding a cut, where it succeeds, keeps the squared norms right.
pub proof fn cut_keeps_norms<T: Scalar>(before: Solver<T>, after: Solver<T>, var: usize)
    requires
        exact::<T>(),
        sound(before),
        before.num_artificial_vars == 0,
        forall|v: usize| #[trigger] before.set_vars@.contains_key(v) ==> v < before.total(),
        norms_hold(before),
        cut_added(before, after, var, Ok(())),
        normed_cut(before, after, var),
    ensures
        norms_hold(after),
{
    reveal(normed_cut);
    let (mid, coeffs) = choose|mid: Solver<T>, coeffs: CsVec<T>| #[trigger]
        cut_by(before, mid, coeffs, after, var, Ok(()));
    consistent_elsewhere(before, mid);
    norms_carry(before, mid);
    extension_keeps_norms(
        mid,
        after,
        coeffs,
        RelOp::Le,
        below_floor(before.value_of(var as int)),
    );
}

} // verus!
