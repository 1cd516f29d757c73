//! Programs that change after they were solved, where arithmetic is exact.
use crate::edits::{extended, rebased, value_moved_from, with_set, without_set};
use crate::lu::all_finite;
use crate::optimum::{climb_finds_best, distance, finite_rates, worth_of_reduced, within_limits};
use crate::phases::{climbed_by, exit_made, restored_by};
use crate::renewed::{
    bounds_renewed, factored_basis, obj_renewed, sharp_bounds, sharp_costs,
};
use crate::scalar::{exact, Scalar};
use crate::simplex::{RelOp, Solver, SENTINEL};
use crate::solve::finite_items;
use crate::sparse::CsVec;
use crate::steps::{
    dual_path_keeps, exit_keeps, finite_dual_path, finite_exit, finite_primal_path,
    may_leave_with, move_keeps,
};
use crate::sums::{sum, sum_same, times_zero};
use crate::vertex::{
    at_limit, basis_kept, consistent, finite_vertex, fresh_basis, lhs_terms, on_constraints, price,
    price_terms, sound,
};
use vstd::prelude::*;

verus! {

/// A basic variable that is set and leaves with its value keeps what a vertex keeps.
pub proof fn set_basic_keeps<T: Scalar>(
    before: Solver<T>,
    marked: Solver<T>,
    mid: Solver<T>,
    ready: Solver<T>,
    moved: Solver<T>,
    var: usize,
    val: T,
)
    requires
        exact::<T>(),
        sound(before),
        var < before.total(),
        before.basic_vars_inv@[var as int] != SENTINEL,
        with_set(before, marked, var, val),
        exit_made(
            marked,
            mid,
            ready,
            moved,
            before.basic_vars_inv@[var as int],
            val,
            Ok(()),
        ),
        moved.wf(),
        finite_exit(mid, ready, moved),
    ensures
        sound(moved),
{
    let row = before.basic_vars_inv@[var as int];
    assert(before.basic_vars@[row as int] == var);
    marked_is_consistent(before, marked, var);
    assert(may_leave_with(marked, row as int, val));
    assert forall|r: int| 0 <= r < marked.basic_vars@.len() && r != row implies
        !marked.set_vars@.contains_key(#[trigger] marked.basic_vars@[r]) by {
        assert(!before.set_vars@.contains_key(before.basic_vars@[r]));
        assert(before.basic_vars_inv@[before.basic_vars@[r] as int] == r);
    }
    exit_keeps(marked, mid, ready, moved, row, val);
}

/// Setting a basic variable changes nothing else.
pub proof fn marked_is_consistent<T: Scalar>(before: Solver<T>, marked: Solver<T>, var: usize)
    requires
        consistent(before),
        var < before.total(),
        before.basic_vars_inv@[var as int] != SENTINEL,
        marked == (Solver { set_vars: marked.set_vars, ..before }),
        forall|v: usize|
            v != var ==> #[trigger] marked.set_vars@.contains_key(v)
                == before.set_vars@.contains_key(v) && marked.set_vars@[v] == before.set_vars@[v],
    ensures
        consistent(marked),
{
    let mat = before.orig_constraints_csc;
    let bases = choose|bases: Seq<Seq<usize>>| #[trigger]
        before.basis_solver.chain(mat, bases) && bases.last() == before.basic_vars@;
    assert(marked.basis_solver.chain(mat, bases));
    assert(basis_kept(marked));
    assert(marked.point() =~= before.point());
    assert forall|i: int| 0 <= i < marked.m() implies sum(
        lhs_terms(mat, marked.point(), i),
        marked.total() as nat,
    ) == (#[trigger] marked.orig_bounds@[i]).val() by {
        assert(before.orig_bounds@[i].val() == marked.orig_bounds@[i].val());
    }
    sum_same(
        before.worth_terms(before.point()),
        marked.worth_terms(marked.point()),
        before.total() as nat,
    );
    let y = choose|y: Seq<real>| before.priced(y);
    assert forall|r: int| 0 <= r < marked.m() implies marked.cost(
        #[trigger] marked.basic_vars@[r] as int,
    ) == price(mat, marked.basic_vars@[r] as int, y) by {
        assert(before.cost(before.basic_vars@[r] as int) == price(
            mat,
            before.basic_vars@[r] as int,
            y,
        ));
    }
    assert forall|c: int| 0 <= c < marked.cur_obj@.len() implies (
    #[trigger] marked.cur_obj@[c]).val() == marked.cost(marked.non_basic_vars@[c] as int) - price(
        mat,
        marked.non_basic_vars@[c] as int,
        y,
    ) by {
        assert(before.cur_obj@[c].val() == before.cost(before.non_basic_vars@[c] as int) - price(
            mat,
            before.non_basic_vars@[c] as int,
            y,
        ));
    }
    assert(marked.priced(y));
    assert forall|c: int| 0 <= c < marked.non_basic_vars@.len() implies #[trigger] at_limit(
        marked,
        c,
    ) by {
        assert(at_limit(before, c));
        let v = before.non_basic_vars@[c];
        assert(before.non_basic_vars_inv@[v as int] == c);
        assert((before.basic_vars_inv@[v as int] == SENTINEL) != (before.non_basic_vars_inv@[v as int]
            == SENTINEL));
        assert(v != var);
        assert(marked.set_vars@.contains_key(v) == before.set_vars@.contains_key(v));
    }
}

/// A non-basic variable that is set keeps what a vertex keeps.
pub proof fn set_value_keeps<T: Scalar>(
    before: Solver<T>,
    marked: Solver<T>,
    ready: Solver<T>,
    moved: Solver<T>,
    col: int,
    val: T,
)
    requires
        exact::<T>(),
        sound(before),
        0 <= col < before.non_basic_vars@.len(),
        with_set(before, marked, before.non_basic_vars@[col], val),
        value_moved_from(
            marked,
            ready,
            moved,
            col,
            val.minus_spec(marked.non_basic_vals@[col]),
            val,
        ),
        moved.wf(),
        finite_items(ready.col_coeffs.values@),
        finite_vertex(moved),
    ensures
        sound(moved),
{
    let var = before.non_basic_vars@[col];
    let diff = val.minus_spec(marked.non_basic_vals@[col]);
    assert(marked.set_vars@.remove(var) =~= before.set_vars@.remove(var));
    assert(moved.cur_obj_val.finite());
    assert(diff.finite());
    assert(moved.non_basic_vals@[col] == val);
    assert(at_limit(moved, col));
    move_keeps(before, marked, ready, moved, col, diff, val);
}

/// A variable that was set and goes back to a limit keeps what a vertex keeps.
pub proof fn unset_keeps<T: Scalar>(
    before: Solver<T>,
    marked: Solver<T>,
    ready: Solver<T>,
    moved: Solver<T>,
    col: int,
)
    requires
        exact::<T>(),
        sound(before),
        0 <= col < before.non_basic_vars@.len(),
        before.set_vars@.contains_key(before.non_basic_vars@[col]),
        without_set(before, marked, before.non_basic_vars@[col]),
        value_moved_from(
            marked,
            ready,
            moved,
            col,
            before.better_limit(col).minus_spec(before.set_vars@[before.non_basic_vars@[col]]),
            before.better_limit(col),
        ),
        moved.wf(),
        finite_items(ready.col_coeffs.values@),
        finite_vertex(moved),
    ensures
        sound(moved),
{
    let var = before.non_basic_vars@[col];
    let new_val = before.better_limit(col);
    let diff = new_val.minus_spec(before.set_vars@[var]);
    assert(marked.set_vars@.remove(var) =~= before.set_vars@.remove(var));
    assert(at_limit(before, col));
    assert(moved.cur_obj_val.finite());
    assert(diff.finite());
    assert(moved.non_basic_vals@[col] == new_val);
    assert(at_limit(moved, col));
    move_keeps(before, marked, ready, moved, col, diff, new_val);
}

/// One more constraint keeps what a vertex keeps, with its slack variable in the basis.
pub proof fn extended_is_sound<T: Scalar>(
    before: Solver<T>,
    after: Solver<T>,
    coeffs: CsVec<T>,
    rel_op: RelOp,
    bound: T,
)
    requires
        exact::<T>(),
        sound(before),
        before.num_artificial_vars == 0,
        forall|v: usize| #[trigger] before.set_vars@.contains_key(v) ==> v < before.total(),
        extended(before, after, coeffs, rel_op, bound),
        after.wf(),
        finite_vertex(after),
        factored_basis(after),
        sharp_bounds(after),
    ensures
        sound(after),
{
    let (small, mat) = (before.orig_constraints_csc, after.orig_constraints_csc);
    let (m, n) = (before.m(), before.non_basic_vars@.len());
    let slack = before.total();
    fresh_basis(after.basis_solver, mat, after.basic_vars@);
    bounds_renewed(after);
    assert forall|v: int, i: int| 0 <= v < slack && 0 <= i < m implies #[trigger] mat.line(v, i)
        == small.line(v, i) by {
        assert(mat.line(v, i) == after.orig_constraints.line(i, v));
        assert(small.line(v, i) == before.orig_constraints.line(i, v));
    }
    assert forall|i: int| 0 <= i < m implies (#[trigger] mat.line(slack, i)).val() == 0 as real by {
        assert(mat.line(slack, i) == after.orig_constraints.line(i, slack));
        assert(after.orig_constraints.line(i, slack) == before.orig_constraints.line(i, slack));
        let rows = before.orig_constraints;
        rows.line_wf(i);
        if rows.line_has(i, slack) {
            let p = crate::sparse::place(rows.indices@, rows.lo(i), rows.hi(i), slack);
            assert(rows.indices@[p] == slack);
        }
    }
    let y = choose|y: Seq<real>| before.priced(y);
    let w = y.push(0 as real);
    assert forall|v: int| 0 <= v < slack implies #[trigger] price(mat, v, w) == price(small, v, y) by {
        let f = price_terms(small, v, y);
        let g = price_terms(mat, v, w);
        assert forall|i: int| 0 <= i < m implies #[trigger] f(i) == g(i) by {
            assert(mat.line(v, i) == small.line(v, i));
        }
        sum_same(f, g, m as nat);
        times_zero(mat.line(v, m).val());
    }
    assert(price(mat, slack, w) == 0 as real) by {
        let g = price_terms(mat, slack, w);
        assert forall|i: int| 0 <= i < m + 1 implies #[trigger] g(i) == 0 as real by {
            times_zero(w[i]);
            times_zero(mat.line(slack, i).val());
        }
        crate::sums::sum_zero(g, (m + 1) as nat);
    }
    assert forall|r: int| 0 <= r < after.m() implies after.cost(#[trigger] after.basic_vars@[r] as int)
        == price(mat, after.basic_vars@[r] as int, w) by {
        if r < m {
            assert(after.basic_vars@[r] == before.basic_vars@[r]);
            assert(before.cost(before.basic_vars@[r] as int) == price(
                small,
                before.basic_vars@[r] as int,
                y,
            ));
        }
    }
    assert forall|c: int| 0 <= c < after.cur_obj@.len() implies (#[trigger] after.cur_obj@[c]).val()
        == after.cost(after.non_basic_vars@[c] as int) - price(
        mat,
        after.non_basic_vars@[c] as int,
        w,
    ) by {
        assert(before.non_basic_vars@[c] < slack);
        assert(before.cur_obj@[c].val() == before.cost(before.non_basic_vars@[c] as int) - price(
            small,
            before.non_basic_vars@[c] as int,
            y,
        ));
    }
    assert(after.priced(w));
    // the value depends on the non-basic variables alone
    worth_of_reduced(before, y, before.point());
    worth_of_reduced(after, w, after.point());
    let f = crate::optimum::dual_terms(before, y);
    let g = crate::optimum::dual_terms(after, w);
    assert forall|i: int| 0 <= i < m implies #[trigger] f(i) == g(i) by {
        assert(after.orig_bounds@[i] == before.orig_bounds@[i]);
    }
    sum_same(f, g, m as nat);
    times_zero(after.orig_bounds@[m].val());
    let h = crate::optimum::reduced_terms(before, before.point());
    let k = crate::optimum::reduced_terms(after, after.point());
    assert forall|c: int| 0 <= c < n implies #[trigger] h(c) == k(c) by {
        let v = before.non_basic_vars@[c] as int;
        assert(before.non_basic_vars_inv@[v] == c);
        assert((before.basic_vars_inv@[v] == SENTINEL) != (before.non_basic_vars_inv@[v]
            == SENTINEL));
        assert(after.non_basic_vars@[c] == v);
        assert(after.non_basic_vars_inv@[v] == c);
        assert((after.basic_vars_inv@[v] == SENTINEL) != (after.non_basic_vars_inv@[v]
            == SENTINEL));
    }
    sum_same(h, k, n);
    assert forall|c: int| 0 <= c < after.non_basic_vars@.len() implies #[trigger] at_limit(
        after,
        c,
    ) by {
        assert(at_limit(before, c));
        assert(before.non_basic_vars@[c] < slack);
    }
    assert forall|r: int| 0 <= r < after.basic_vars@.len() implies !after.set_vars@.contains_key(
        #[trigger] after.basic_vars@[r],
    ) by {
        if r < m {
            assert(!before.set_vars@.contains_key(before.basic_vars@[r]));
        } else {
            assert(after.basic_vars@[r] == slack as usize);
        }
    }
}

/// A basis that is taken up from scratch lies on the constraints and is priced.
pub proof fn rebased_agrees<T: Scalar>(before: Solver<T>, after: Solver<T>, basic: Seq<usize>)
    requires
        exact::<T>(),
        rebased(before, after, basic),
        before.num_artificial_vars == 0,
        after.wf(),
        finite_vertex(after),
        all_finite(after.basis_solver.lu_factors.lower),
        all_finite(after.basis_solver.lu_factors.upper),
        sharp_bounds(after),
        sharp_costs(after),
    ensures
        basis_kept(after),
        on_constraints(after, after.point()),
        exists|y: Seq<real>| after.priced(y),
        after.cur_obj_val.val() == -after.worth(after.point()),
{
    fresh_basis(after.basis_solver, after.orig_constraints_csc, after.basic_vars@);
    bounds_renewed(after);
    obj_renewed(after);
}

/// A basis that is taken up leaves the program and the variables that are set as they are. The other
/// variables are listed by their numbers, and each place of that list keeps the value that it has.
pub proof fn rebased_keeps_values<T: Scalar>(
    before: Solver<T>,
    after: Solver<T>,
    basic: Seq<usize>,
)
    requires
        rebased(before, after, basic),
        after.wf(),
    ensures
        after.same_program(before),
        after.set_vars@ == before.set_vars@,
        forall|r: int| 0 <= r < basic.len() ==> after.basic_vars@[r] == #[trigger] basic[r],
        forall|c: int, d: int|
            0 <= c < d < after.non_basic_vars@.len() ==> #[trigger] after.non_basic_vars@[c]
                < #[trigger] after.non_basic_vars@[d],
        forall|c: int|
            0 <= c < after.non_basic_vars@.len() ==> after.value_of(
                #[trigger] after.non_basic_vars@[c] as int,
            ) == before.non_basic_vals@[c],
{
    assert forall|c: int| 0 <= c < after.non_basic_vars@.len() implies after.value_of(
        #[trigger] after.non_basic_vars@[c] as int,
    ) == before.non_basic_vals@[c] by {
        let v = after.non_basic_vars@[c] as int;
        assert(after.non_basic_vars_inv@[v] == c);
        assert((after.basic_vars_inv@[v] == SENTINEL) != (after.non_basic_vars_inv@[v]
            == SENTINEL));
    }
}

/// The basic variables are within their limits, but for the tolerance.
pub open spec fn nearly_feasible<T: Scalar>(s: Solver<T>) -> bool {
    let tol = T::tolerance_spec().val();
    forall|r: int|
        0 <= r < s.m() ==> {
            let v = #[trigger] s.basic_vars@[r] as int;
            let (min, max) = (s.orig_var_mins@[v], s.orig_var_maxs@[v]);
            let x = s.cur_bounds@[r].val();
            &&& min.minus_spec(T::tolerance_spec()).finite() ==> min.val() - tol <= x
            &&& max.plus_spec(T::tolerance_spec()).finite() ==> x <= max.val() + tol
        }
}

/// How much a variable misses its limits by is a finite number.
pub open spec fn finite_misses<T: Scalar>(s: Solver<T>) -> bool {
    forall|r: int|
        0 <= r < s.m() ==> match #[trigger] s.missed_limit(r) {
            Some((miss, _)) => miss.finite(),
            None => true,
        }
}

proof fn no_worst_row<T: Scalar>(s: Solver<T>, k: int)
    requires
        exact::<T>(),
        finite_misses(s),
        0 <= k <= s.m(),
        s.dual_leaving_scan(k).row is None,
    ensures
        s.dual_leaving_scan(k).infeasibility == T::neg_infinity_spec(),
        forall|r: int| 0 <= r < k ==> #[trigger] s.missed_limit(r) is None,
    decreases k,
{
    if k > 0 {
        no_worst_row(s, k - 1);
        assert(match s.missed_limit(k - 1) {
            Some((miss, _)) => miss.finite(),
            None => true,
        });
    }
}

/// Restoring feasibility, where it succeeds, brings the basic variables within their limits, but
/// for the tolerance.
pub proof fn restored_is_feasible<T: Scalar>(
    path: Seq<Solver<T>>,
    before: Solver<T>,
    after: Solver<T>,
)
    requires
        exact::<T>(),
        restored_by(path, before, after, Ok(())),
        finite_dual_path(path),
        sound(before),
        finite_misses(after),
    ensures
        sound(after),
        nearly_feasible(after),
{
    dual_path_keeps(path, path.len() - 1);
    no_worst_row(after, after.m());
    let tol = T::tolerance_spec();
    assert forall|r: int| 0 <= r < after.m() implies {
        let v = #[trigger] after.basic_vars@[r] as int;
        let (min, max) = (after.orig_var_mins@[v], after.orig_var_maxs@[v]);
        let x = after.cur_bounds@[r].val();
        &&& min.minus_spec(tol).finite() ==> min.val() - tol.val() <= x
        &&& max.plus_spec(tol).finite() ==> x <= max.val() + tol.val()
    } by {
        assert(after.missed_limit(r) is None);
        assert(after.cur_bounds@[r].finite());
    }
}

/// A repair that succeeds ends at a best vertex.
pub proof fn repair_finds_best<T: Scalar>(
    dual: Seq<Solver<T>>,
    primal: Seq<Solver<T>>,
    before: Solver<T>,
    mid: Solver<T>,
    after: Solver<T>,
    z: spec_fn(int) -> real,
)
    requires
        exact::<T>(),
        restored_by(dual, before, mid, Ok(())),
        finite_dual_path(dual),
        climbed_by(primal, mid, after, Ok(())),
        finite_primal_path(primal),
        sound(before),
        finite_rates(after),
        on_constraints(mid, z),
        within_limits(mid, z),
    ensures
        sound(after),
        after.worth(z) <= after.worth(after.point()) + T::tolerance_spec().val() * distance(
            after,
            z,
        ),
{
    dual_path_keeps(dual, dual.len() - 1);
    climb_finds_best(primal, mid, after, z);
}

} // verus!
