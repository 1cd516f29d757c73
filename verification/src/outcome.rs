//! What the outcome of a call means, where arithmetic is exact.
use crate::drift::{
    finite_choices, misses_by, order_stays, path_has_trail, within_misses_nothing, Trail,
};
use crate::dual::limits_have_room;
use crate::edited::{extended_is_sound, set_basic_keeps, set_value_keeps, unset_keeps};
use crate::edits::{
    below_floor, constraint_added, cut_added, cut_by, extended, program_extended, repaired, set_by,
    unset_by, value_moved_from, var_set, var_unset,
};
use crate::error::Error;
use crate::feasible::{
    basics_within, finite_ratios, heading, limits_in_order, passed_over, sets_within,
};
use crate::handover::{
    found_is_sound, infeasible_is_right, sets_spare_artificial, sharp_verdict_is_right,
};
use crate::limits::{
    finite_repair, fitting_is_nearly_best, miss_of, miss_worth, nearly_is_within, nearly_within,
    miss_terms, nothing, nothing_is_worthless, ray, repair_drifts, repair_strays, sharp_repair,
    unbounded_is_right, vertex_is_nearly_within, vertex_is_within,
};
use crate::lu::all_finite;
use crate::optimum::{
    climb_finds_best, distance, finite_rates, fitting_is_best, optimal_has_none, optimum_fits,
    sharp_climb_finds_best, sharp_rates, sign_fits, signs_fit, vertex_is_best, within_limits,
};
use crate::phases::{
    bfs_found, bfs_found_by, climbed, climbed_by, dual_path, dual_steps_at, exit_made, is_optimal,
    optimized, restored, restored_by,
};
use crate::pricing::pivot_chosen;
use crate::renewed::{factored_basis, sharp_bounds, sharp_costs};
use crate::scalar::{exact, Scalar};
use crate::simplex::{RelOp, Solver, SENTINEL};
use crate::solve::finite_items;
use crate::sparse::CsVec;
use crate::steps::{dual_path_keeps, finite_exit, finite_primal_path, primal_path_keeps};
use crate::sums::{sum, sum_same, times_zero};
use crate::vertex::{at_limit, consistent_elsewhere, finite_vertex, lhs_terms, on_constraints, sound};
use vstd::prelude::*;

verus! {

/// The numbers are finite on every path that an optimization can have taken, and where the
/// artificial variables are taken out no reduced cost is lost in the tolerance.
pub open spec fn finite_run<T: Scalar>(
    before: Solver<T>,
    after: Solver<T>,
    r: Result<(), Error>,
) -> bool {
    &&& forall|p: Seq<Solver<T>>| #[trigger] climbed_by(p, before, after, r) ==> finite_primal_path(p)
    &&& forall|p: Seq<Solver<T>>| #[trigger]
        bfs_found_by(p, before, after, r) ==> finite_primal_path(p)
    &&& forall|p: Seq<Solver<T>>, start: Solver<T>, q: Seq<Solver<T>>|
        #![trigger bfs_found_by(p, before, start, Ok(())), climbed_by(q, start, after, r)]
        bfs_found_by(p, before, start, Ok(())) && climbed_by(q, start, after, r)
            ==> finite_primal_path(p) && finite_primal_path(q) && finite_vertex(start)
            && all_finite(start.basis_solver.lu_factors.lower) && all_finite(
            start.basis_solver.lu_factors.upper,
        ) && sharp_costs(start)
}

/// An optimization that succeeds ends at a best vertex: no other point that meets the constraints
/// and limits is worth more, but for the tolerance times its distance, and but for nothing where
/// no reduced cost is lost in the tolerance.
pub proof fn optimum_is_best<T: Scalar>(
    before: Solver<T>,
    after: Solver<T>,
    z: spec_fn(int) -> real,
)
    requires
        exact::<T>(),
        optimized(before, after, Ok(())),
        finite_run(before, after, Ok(())),
        sound(before),
        sets_spare_artificial(before),
        finite_rates(after),
        on_constraints(after, z),
        within_limits(after, z),
    ensures
        sound(after),
        after.worth(z) <= after.worth(after.point()) + T::tolerance_spec().val() * distance(
            after,
            z,
        ),
        sharp_rates(after) ==> after.worth(z) <= after.worth(after.point()),
{
    if before.num_artificial_vars == 0 {
        let q = choose|q: Seq<Solver<T>>| #[trigger] climbed_by(q, before, after, Ok(()));
        path_best(q, before, after, z);
    } else {
        let start = choose|start: Solver<T>| #[trigger]
            bfs_found(before, start, Ok(())) && climbed(start, after, Ok(()));
        let p = choose|p: Seq<Solver<T>>| #[trigger] bfs_found_by(p, before, start, Ok(()));
        let q = choose|q: Seq<Solver<T>>| #[trigger] climbed_by(q, start, after, Ok(()));
        assert(q[0].wf());
        found_is_sound(p, before, start);
        path_best(q, start, after, z);
    }
}

proof fn path_best<T: Scalar>(
    q: Seq<Solver<T>>,
    before: Solver<T>,
    after: Solver<T>,
    z: spec_fn(int) -> real,
)
    requires
        exact::<T>(),
        climbed_by(q, before, after, Ok(())),
        finite_primal_path(q),
        sound(before),
        finite_rates(after),
        on_constraints(after, z),
        within_limits(after, z),
    ensures
        sound(after),
        after.worth(z) <= after.worth(after.point()) + T::tolerance_spec().val() * distance(
            after,
            z,
        ),
        sharp_rates(after) ==> after.worth(z) <= after.worth(after.point()),
{
    primal_path_keeps(q, q.len() - 1);
    same_limits(after, before, z);
    climb_finds_best(q, before, after, z);
    if sharp_rates(after) {
        sharp_climb_finds_best(q, before, after, z);
    }
}

/// The same points meet the constraints and limits of the same program.
pub proof fn same_limits<T: Scalar>(s: Solver<T>, t: Solver<T>, z: spec_fn(int) -> real)
    requires
        s.same_program(t),
        on_constraints(s, z),
        within_limits(s, z),
        forall|v: usize| #[trigger]
            t.set_vars@.contains_key(v) ==> s.set_vars@.contains_key(v) && s.set_vars@[v]
                == t.set_vars@[v],
    ensures
        on_constraints(t, z),
        within_limits(t, z),
{
    assert forall|i: int| 0 <= i < t.m() implies sum(
        lhs_terms(t.orig_constraints_csc, z, i),
        t.total() as nat,
    ) == (#[trigger] t.orig_bounds@[i]).val() by {
        assert(s.orig_bounds@[i].val() == t.orig_bounds@[i].val());
    }
    assert forall|v: int| 0 <= v < t.total() implies {
        let (min, max) = (t.orig_var_mins@[v], t.orig_var_maxs@[v]);
        &&& min.finite() ==> min.val() <= #[trigger] z(v)
        &&& max.finite() ==> z(v) <= max.val()
        &&& t.set_vars@.contains_key(v as usize) ==> z(v) == t.set_vars@[v as usize].val()
    } by {
        assert(s.orig_var_mins@[v].finite() ==> s.orig_var_mins@[v].val() <= z(v));
    }
}

proof fn same_worth<T: Scalar>(s: Solver<T>, t: Solver<T>, z: spec_fn(int) -> real)
    requires
        s.same_program(t),
    ensures
        s.worth(z) == t.worth(z),
{
    sum_same(s.worth_terms(z), t.worth_terms(z), s.total() as nat);
}

/// Where an optimization calls the program infeasible, a point that meets all constraints and
/// limits without artificial variables is farther from the last vertex than one; there is none if
/// the tolerance is zero, or no reduced cost is lost in it.
pub proof fn infeasible_verdict_is_right<T: Scalar>(
    before: Solver<T>,
    after: Solver<T>,
    z: spec_fn(int) -> real,
)
    requires
        exact::<T>(),
        optimized(before, after, Err(Error::Infeasible)),
        finite_run(before, after, Err(Error::Infeasible)),
        sound(before),
        sets_spare_artificial(before),
        finite_rates(after),
        on_constraints(after, z),
        within_limits(after, z),
        forall|v: int| after.art_start() <= v < after.total() ==> #[trigger] z(v) == 0 as real,
    ensures
        T::tolerance_spec().val() > 0 as real,
        distance(after, z) > 1 as real,
        !sharp_rates(after),
{
    let e = Err::<(), Error>(Error::Infeasible);
    assert(before.num_artificial_vars > 0 && bfs_found(before, after, e));
    let p = choose|p: Seq<Solver<T>>| #[trigger] bfs_found_by(p, before, after, e);
    infeasible_is_right(p, before, after, z);
    if sharp_rates(after) {
        sharp_verdict_is_right(p, before, after, z);
    }
}

/// The last vertex of a climb that ends without a bound: the numbers of the column that may enter
/// are finite and not passed over.
pub open spec fn endless<T: Scalar>(s: Solver<T>, after: Solver<T>) -> bool {
    let c = s.entering_scan(s.cur_obj@.len() as int).col->0 as int;
    &&& finite_items(after.col_coeffs.values@)
    &&& forall|p: int|
        0 <= p < after.col_coeffs.values@.len() ==> !passed_over(
            #[trigger] after.col_coeffs.values@[p],
        )
    &&& s.direction(c).finite()
    &&& finite_ratios(s, after.col_coeffs, s.near_limit(c), s.far_limit(c))
}

impl<T: Scalar> Trail<T> {
    /// The climb goes this way and ends without a bound.
    pub open spec fn escapes(self, before: Solver<T>, after: Solver<T>) -> bool {
        self.taken() && climbed_by(self.path, before, after, Err(Error::Unbounded))
    }
}

/// From the last vertex of a path that ends without a bound a ray leads to points that are worth as
/// much as one likes.
pub proof fn ray_is_endless<T: Scalar>(
    s: Solver<T>,
    after: Solver<T>,
    e: spec_fn(int) -> real,
    w: real,
) -> (z: spec_fn(int) -> real)
    requires
        exact::<T>(),
        T::tolerance_spec().val() > 0 as real,
        pivot_chosen(s, after, Err(Error::Unbounded)),
        endless(s, after),
        sound(s),
        limits_in_order(s),
        sets_within(s),
        misses_by(s, e),
    ensures
        on_constraints(s, z),
        nearly_within(s, z, miss_of(s, e)),
        s.worth(z) >= w,
{
    let c = s.entering_scan(s.cur_obj@.len() as int).col->0 as int;
    let x = s.worth(s.point());
    let tol = T::tolerance_spec().val();
    let t = if w > x {
        (w - x) / tol
    } else {
        0 as real
    };
    assert(t >= 0 as real && t * tol >= w - x) by (nonlinear_arith)
        requires
            tol > 0 as real,
            w > x ==> t == (w - x) / tol,
            w <= x ==> t == 0 as real,
    ;
    unbounded_is_right(s, after, e, t);
    let z = ray(s, after.col_coeffs, c, heading(s, c) * t);
    let d = s.direction(c).val();
    assert(t * d >= t * tol) by (nonlinear_arith)
        requires
            t >= 0 as real,
            d >= tol,
    ;
    z
}

/// Where a climb ends with the verdict that the objective is unbounded, there are points that meet
/// the constraints, and the limits but for what the tolerance adds up to, and are worth as much as
/// one likes. Where no difference is lost in the tolerance, and the climb starts within the limits,
/// they meet the limits too.
pub proof fn unbounded_verdict_is_right<T: Scalar>(
    before: Solver<T>,
    after: Solver<T>,
    e: spec_fn(int) -> real,
    w: real,
)
    requires
        exact::<T>(),
        T::tolerance_spec().val() > 0 as real,
        climbed(before, after, Err(Error::Unbounded)),
        forall|p: Seq<Solver<T>>| #[trigger]
            climbed_by(p, before, after, Err(Error::Unbounded)) ==> finite_choices(p) && endless(
                p.last(),
                after,
            ),
        sound(before),
        limits_in_order(before),
        sets_within(before),
        misses_by(before, e),
    ensures
        exists|t: Trail<T>, z: spec_fn(int) -> real|
            #![trigger t.escapes(before, after), on_constraints(before, z)]
            t.escapes(before, after) && on_constraints(before, z) && nearly_within(
                before,
                z,
                miss_of(t.path.last(), t.drift(e)),
            ) && before.worth(z) >= w,
        basics_within(before) && (forall|t: Trail<T>| #[trigger]
            t.escapes(before, after) ==> t.sharp()) ==> exists|z: spec_fn(int) -> real| #[trigger]
            on_constraints(before, z) && within_limits(before, z) && before.worth(z) >= w,
{
    let p = choose|p: Seq<Solver<T>>| #[trigger]
        climbed_by(p, before, after, Err(Error::Unbounded));
    let t = path_has_trail(p);
    let k = p.len() - 1;
    let s = p.last();
    assert(t.escapes(before, after));
    t.keeps(k);
    t.drifts(e, k);
    let f = t.drift(e);
    let z = ray_is_endless(s, after, f, w);
    same_nearly(s, before, z, miss_of(s, f));
    same_worth(s, before, z);
    assert(t.escapes(before, after) && on_constraints(before, z));
    if basics_within(before) && (forall|t: Trail<T>| #[trigger]
        t.escapes(before, after) ==> t.sharp()) {
        t.stays_within(k);
        let none = nothing();
        within_misses_nothing(s, none);
        let y = ray_is_endless(s, after, none, w);
        same_nearly(s, before, y, miss_of(s, none));
        nearly_is_within(before, y, miss_of(s, none));
        same_worth(s, before, y);
        assert(on_constraints(before, y) && within_limits(before, y) && before.worth(y) >= w);
    }
}

/// Points that meet the constraints and limits of the same program, but for `g`.
pub proof fn same_nearly<T: Scalar>(
    s: Solver<T>,
    t: Solver<T>,
    z: spec_fn(int) -> real,
    g: spec_fn(int) -> real,
)
    requires
        s.same_program(t),
        on_constraints(s, z),
        nearly_within(s, z, g),
        forall|v: usize| #[trigger]
            t.set_vars@.contains_key(v) ==> s.set_vars@.contains_key(v) && s.set_vars@[v]
                == t.set_vars@[v],
    ensures
        on_constraints(t, z),
        nearly_within(t, z, g),
{
    assert forall|i: int| 0 <= i < t.m() implies sum(
        lhs_terms(t.orig_constraints_csc, z, i),
        t.total() as nat,
    ) == (#[trigger] t.orig_bounds@[i]).val() by {
        assert(s.orig_bounds@[i].val() == t.orig_bounds@[i].val());
    }
    assert forall|v: int| 0 <= v < t.total() implies {
        let (min, max) = (t.orig_var_mins@[v], t.orig_var_maxs@[v]);
        &&& min.finite() ==> min.val() - g(v) <= #[trigger] z(v)
        &&& max.finite() ==> z(v) <= max.val() + g(v)
        &&& t.set_vars@.contains_key(v as usize) ==> z(v) == t.set_vars@[v as usize].val()
    } by {
        assert(g(v) >= 0 as real);
        assert(s.orig_var_mins@[v].finite() ==> s.orig_var_mins@[v].val() - g(v) <= z(v));
        assert(s.orig_var_maxs@[v].finite() ==> z(v) <= s.orig_var_maxs@[v].val() + g(v));
        assert(t.set_vars@.contains_key(v as usize) ==> s.set_vars@.contains_key(v as usize));
    }
}

/// Two vertices of one program, with the same variables set, at which the signs fit have the same
/// objective value, but for what the misses of their limits are worth; if their basic variables are
/// within the limits, the same value. So it does not matter which way led to the best vertex.
pub proof fn best_value_is_fixed<T: Scalar>(
    s: Solver<T>,
    t: Solver<T>,
    e: spec_fn(int) -> real,
    f: spec_fn(int) -> real,
)
    requires
        exact::<T>(),
        sound(s),
        sound(t),
        signs_fit(s),
        signs_fit(t),
        limits_in_order(s),
        sets_within(s),
        misses_by(s, e),
        misses_by(t, f),
        s.same_program(t),
        s.set_vars@ == t.set_vars@,
    ensures
        s.cur_obj_val.val() >= t.cur_obj_val.val() - miss_worth(t, miss_of(s, e)),
        t.cur_obj_val.val() >= s.cur_obj_val.val() - miss_worth(s, miss_of(t, f)),
        basics_within(s) && basics_within(t) ==> s.cur_obj_val.val() == t.cur_obj_val.val(),
{
    order_stays(s, t);
    sets_stay_within(s, t);
    setting_is_no_better(s, t, f);
    setting_is_no_better(t, s, e);
}

/// With more variables set the best vertex is not better, but for what the misses of its limits are
/// worth.
pub proof fn setting_is_no_better<T: Scalar>(
    before: Solver<T>,
    after: Solver<T>,
    e: spec_fn(int) -> real,
)
    requires
        exact::<T>(),
        sound(before),
        signs_fit(before),
        sound(after),
        limits_in_order(after),
        sets_within(after),
        misses_by(after, e),
        after.same_program(before),
        forall|v: usize| #[trigger]
            before.set_vars@.contains_key(v) ==> after.set_vars@.contains_key(v)
                && after.set_vars@[v] == before.set_vars@[v],
    ensures
        after.cur_obj_val.val() >= before.cur_obj_val.val() - miss_worth(
            before,
            miss_of(after, e),
        ),
        basics_within(after) ==> after.cur_obj_val.val() >= before.cur_obj_val.val(),
{
    let z = after.point();
    vertex_is_nearly_within(after, e);
    same_nearly(after, before, z, miss_of(after, e));
    same_worth(after, before, z);
    fitting_is_nearly_best(before, z, miss_of(after, e));
    if basics_within(after) {
        vertex_is_within(after);
        same_limits(after, before, z);
        fitting_is_best(before, z);
    }
}

proof fn sets_stay_within<T: Scalar>(s: Solver<T>, t: Solver<T>)
    requires
        sets_within(s),
        t.orig_var_mins == s.orig_var_mins,
        t.orig_var_maxs == s.orig_var_maxs,
        t.set_vars@ == s.set_vars@,
    ensures
        sets_within(t),
{
}

/// With one more constraint the best vertex is not better, but for what the misses of its limits
/// are worth.
pub proof fn constraint_is_no_better<T: Scalar>(
    before: Solver<T>,
    after: Solver<T>,
    coeffs: CsVec<T>,
    rel_op: RelOp,
    bound: T,
    e: spec_fn(int) -> real,
)
    requires
        exact::<T>(),
        sound(before),
        signs_fit(before),
        before.num_artificial_vars == 0,
        sound(after),
        limits_in_order(after),
        sets_within(after),
        misses_by(after, e),
        program_extended(before, after, coeffs, rel_op, bound),
        after.set_vars@ == before.set_vars@,
    ensures
        after.cur_obj_val.val() >= before.cur_obj_val.val() - miss_worth(
            before,
            miss_of(after, e),
        ),
        basics_within(after) ==> after.cur_obj_val.val() >= before.cur_obj_val.val(),
{
    vertex_is_nearly_within(after, e);
    shorter_is_better(before, after, coeffs, rel_op, bound, miss_of(after, e));
    if basics_within(after) {
        let none = nothing();
        within_misses_nothing(after, none);
        vertex_is_nearly_within(after, none);
        shorter_is_better(before, after, coeffs, rel_op, bound, miss_of(after, none));
        nothing_is_worthless(before, miss_of(after, none));
    }
}

proof fn shorter_is_better<T: Scalar>(
    before: Solver<T>,
    after: Solver<T>,
    coeffs: CsVec<T>,
    rel_op: RelOp,
    bound: T,
    g: spec_fn(int) -> real,
)
    requires
        exact::<T>(),
        sound(before),
        signs_fit(before),
        before.num_artificial_vars == 0,
        sound(after),
        nearly_within(after, after.point(), g),
        program_extended(before, after, coeffs, rel_op, bound),
        after.set_vars@ == before.set_vars@,
    ensures
        after.cur_obj_val.val() >= before.cur_obj_val.val() - miss_worth(before, g),
{
    let z = after.point();
    let (small, mat) = (before.orig_constraints_csc, after.orig_constraints_csc);
    let slack = before.total();
    assert forall|i: int| 0 <= i < before.m() implies sum(lhs_terms(small, z, i), slack as nat) == (
    #[trigger] before.orig_bounds@[i]).val() by {
        let f = lhs_terms(small, z, i);
        let h = lhs_terms(mat, z, i);
        assert forall|v: int| 0 <= v < slack implies #[trigger] f(v) == h(v) by {
            assert(mat.line(v, i) == after.orig_constraints.line(i, v));
            assert(small.line(v, i) == before.orig_constraints.line(i, v));
        }
        sum_same(f, h, slack as nat);
        assert(mat.line(slack, i) == after.orig_constraints.line(i, slack));
        assert(after.orig_constraints.line(i, slack) == before.orig_constraints.line(i, slack));
        let rows = before.orig_constraints;
        rows.line_wf(i);
        if rows.line_has(i, slack) {
            let p = crate::sparse::place(rows.indices@, rows.lo(i), rows.hi(i), slack);
            assert(rows.indices@[p] == slack);
        }
        times_zero(z(slack));
        assert(after.orig_bounds@[i] == before.orig_bounds@[i]);
    }
    assert forall|v: int| 0 <= v < slack implies {
        let (min, max) = (before.orig_var_mins@[v], before.orig_var_maxs@[v]);
        &&& min.finite() ==> min.val() - g(v) <= #[trigger] z(v)
        &&& max.finite() ==> z(v) <= max.val() + g(v)
        &&& before.set_vars@.contains_key(v as usize) ==> z(v)
            == before.set_vars@[v as usize].val()
    } by {
        assert(after.orig_var_mins@[v] == before.orig_var_mins@[v]);
        assert(after.orig_var_mins@[v].finite() ==> after.orig_var_mins@[v].val() - g(v) <= z(v));
    }
    fitting_is_nearly_best(before, z, g);
    let f = before.worth_terms(z);
    let h = after.worth_terms(z);
    assert forall|v: int| 0 <= v < slack implies #[trigger] f(v) == h(v) by {
        assert(after.orig_obj@[v] == before.orig_obj@[v]);
    }
    sum_same(f, h, slack as nat);
    times_zero(z(slack));
    assert(after.orig_obj@[slack] == T::zero_spec());
}

/// A repair that succeeds ends at an optimum.
pub proof fn repair_settles<T: Scalar>(before: Solver<T>, after: Solver<T>)
    requires
        exact::<T>(),
        repaired(before, after, Ok(())),
        finite_repair(before, after),
        sound(before),
        before.num_artificial_vars == 0,
    ensures
        sound(after),
        is_optimal(after),
        after.same_program(before),
        after.set_vars == before.set_vars,
{
    reveal(finite_repair);
    let mid = choose|mid: Solver<T>| #[trigger]
        restored(before, mid, Ok(())) && optimized(mid, after, Ok(()));
    let p = choose|p: Seq<Solver<T>>| #[trigger] restored_by(p, before, mid, Ok(()));
    // the program stays the same on the way
    dual_program_stays(p, p.len() - 1);
    let q = choose|q: Seq<Solver<T>>| #[trigger] climbed_by(q, mid, after, Ok(()));
    dual_path_keeps(p, p.len() - 1);
    let _ = path_has_trail(q);
    primal_path_keeps(q, q.len() - 1);
}

pub proof fn dual_program_stays<T: Scalar>(p: Seq<Solver<T>>, k: int)
    requires
        dual_path(p),
        0 <= k < p.len(),
    ensures
        p[k].same_program(p[0]),
    decreases k,
{
    if k > 0 {
        dual_program_stays(p, k - 1);
        assert(dual_steps_at(p, k - 1));
    }
}

/// The numbers are finite on every way that setting a variable can have gone.
#[verifier::opaque]
pub open spec fn finite_set<T: Scalar>(
    before: Solver<T>,
    after: Solver<T>,
    var: usize,
    val: T,
) -> bool {
    forall|marked: Solver<T>, moved: Solver<T>| #[trigger]
        set_by(before, marked, moved, after, var, val, Ok(())) ==> {
            let row = before.basic_vars_inv@[var as int];
            let col = before.non_basic_vars_inv@[var as int] as int;
            let diff = val.minus_spec(marked.non_basic_vals@[col]);
            &&& finite_repair(moved, after)
            &&& forall|mid: Solver<T>, ready: Solver<T>| #[trigger]
                exit_made(marked, mid, ready, moved, row, val, Ok(())) ==> finite_exit(
                    mid,
                    ready,
                    moved,
                )
            &&& forall|ready: Solver<T>| #[trigger]
                value_moved_from(marked, ready, moved, col, diff, val) ==> finite_items(
                    ready.col_coeffs.values@,
                ) && finite_vertex(moved)
        }
}

/// What holds of a vertex between two calls: what every vertex keeps, limits that are in order and
/// can take the tolerance, and variables that are set within them.
pub open spec fn in_order<T: Scalar>(s: Solver<T>) -> bool {
    &&& sound(s)
    &&& s.num_artificial_vars == 0
    &&& limits_in_order(s)
    &&& limits_have_room(s)
    &&& sets_within(s)
}

/// `f` is what the tolerance adds up to when a variable is set.
#[verifier::opaque]
pub open spec fn set_strays<T: Scalar>(
    before: Solver<T>,
    after: Solver<T>,
    var: usize,
    val: T,
    f: spec_fn(int) -> real,
) -> bool {
    exists|marked: Solver<T>, moved: Solver<T>| #[trigger]
        set_by(before, marked, moved, after, var, val, Ok(())) && repair_strays(moved, after, f)
}

/// On no way that setting a variable can have gone is a difference or a miss lost in the tolerance.
#[verifier::opaque]
pub open spec fn sharp_set<T: Scalar>(
    before: Solver<T>,
    after: Solver<T>,
    var: usize,
    val: T,
) -> bool {
    forall|marked: Solver<T>, moved: Solver<T>| #[trigger]
        set_by(before, marked, moved, after, var, val, Ok(())) ==> sharp_repair(moved, after)
}

/// Setting a variable, where it succeeds, ends at an optimum that misses its limits by no more than
/// what the tolerance adds up to, and by nothing where no difference and no miss is lost in it.
pub proof fn setting_settles<T: Scalar>(
    before: Solver<T>,
    after: Solver<T>,
    var: usize,
    val: T,
)
    requires
        exact::<T>(),
        in_order(before),
        var < before.total(),
        var_set(before, after, var, val, Ok(())),
        finite_set(before, after, var, val),
    ensures
        in_order(after),
        is_optimal(after),
        after.same_program(before),
        after.set_vars@ == before.set_vars@.insert(var, val),
        after.point()(var as int) == val.val(),
        exists|f: spec_fn(int) -> real| #[trigger]
            set_strays(before, after, var, val, f) && misses_by(after, f),
        sharp_set(before, after, var, val) ==> basics_within(after),
{
    let (marked, moved) = choose|marked: Solver<T>, moved: Solver<T>| #[trigger]
        set_by(before, marked, moved, after, var, val, Ok(()));
    held_is_sound(before, marked, moved, after, var, val);
    order_stays(before, moved);
    room_stays(before, moved);
    repair_settles(moved, after);
    repair_drifts(moved, after);
    room_stays(before, after);
    assert forall|v: usize| #[trigger] after.set_vars@.contains_key(v) implies {
        let (min, max) = (after.orig_var_mins@[v as int], after.orig_var_maxs@[v as int]);
        &&& min.finite() ==> min.val() <= after.set_vars@[v].val()
        &&& max.finite() ==> after.set_vars@[v].val() <= max.val()
    } by {
        if v == var {
            assert(!before.misses(var, val));
        } else {
            assert(before.set_vars@.contains_key(v));
        }
    }
    let f = choose|f: spec_fn(int) -> real| #[trigger]
        repair_strays(moved, after, f) && misses_by(after, f);
    assert(set_strays(before, after, var, val, f)) by {
        reveal(set_strays);
    }
    if sharp_set(before, after, var, val) {
        assert(sharp_repair(moved, after)) by {
            reveal(sharp_set);
        }
    }
    set_has_value(after, var);
}

/// A variable that is set has its value.
pub proof fn set_has_value<T: Scalar>(s: Solver<T>, var: usize)
    requires
        sound(s),
        var < s.total(),
        s.set_vars@.contains_key(var),
    ensures
        s.point()(var as int) == s.set_vars@[var].val(),
{
    let v = var as int;
    assert((s.basic_vars_inv@[v] == SENTINEL) != (s.non_basic_vars_inv@[v] == SENTINEL));
    if s.basic_vars_inv@[v] != SENTINEL {
        let r = s.basic_vars_inv@[v] as int;
        assert(s.basic_vars@[r] == var);
        assert(!s.set_vars@.contains_key(s.basic_vars@[r]));
    }
    let c = s.non_basic_vars_inv@[v] as int;
    assert(s.non_basic_vars@[c] == var);
    assert(at_limit(s, c));
}

/// The variable that is set goes to a vertex that keeps what every vertex keeps.
proof fn held_is_sound<T: Scalar>(
    before: Solver<T>,
    marked: Solver<T>,
    moved: Solver<T>,
    after: Solver<T>,
    var: usize,
    val: T,
)
    requires
        exact::<T>(),
        sound(before),
        var < before.total(),
        set_by(before, marked, moved, after, var, val, Ok(())),
        finite_set(before, after, var, val),
    ensures
        val.finite(),
        sound(moved),
        moved.same_program(before),
        moved.set_vars@ == before.set_vars@.insert(var, val),
        repaired(moved, after, Ok(())),
        finite_repair(moved, after),
{
    reveal(finite_set);
    let row = before.basic_vars_inv@[var as int];
    let col = before.non_basic_vars_inv@[var as int] as int;
    repair_starts_well(moved, after);
    assert((row == SENTINEL) != (before.non_basic_vars_inv@[var as int] == SENTINEL));
    if row != SENTINEL {
        let (mid, ready) = choose|mid: Solver<T>, ready: Solver<T>| #[trigger]
            exit_made(marked, mid, ready, moved, row, val, Ok(()));
        set_basic_keeps(before, marked, mid, ready, moved, var, val);
        exit_sets_value(marked, mid, ready, moved, row, val);
    } else {
        let diff = val.minus_spec(marked.non_basic_vals@[col]);
        let ready = choose|ready: Solver<T>| #[trigger]
            value_moved_from(marked, ready, moved, col, diff, val);
        assert(before.non_basic_vars@[col] == var);
        set_value_keeps(before, marked, ready, moved, col, val);
        assert(moved.non_basic_vals@[col] == val);
        assert(moved.non_basic_vals@[col].finite());
    }
}

/// The value with which a variable leaves is that of a vertex, so it is finite.
proof fn exit_sets_value<T: Scalar>(
    before: Solver<T>,
    mid: Solver<T>,
    ready: Solver<T>,
    after: Solver<T>,
    row: usize,
    val: T,
)
    requires
        exit_made(before, mid, ready, after, row, val, Ok(())),
        finite_vertex(after),
        before.wf(),
    ensures
        val.finite(),
        after.same_program(before),
        after.set_vars == before.set_vars,
{
    let info = mid.dual_entering(row, val)->Ok_0;
    assert(after.non_basic_vals@[info.col as int] == val);
    assert(after.non_basic_vals@[info.col as int].finite());
}

pub proof fn room_stays<T: Scalar>(s: Solver<T>, t: Solver<T>)
    requires
        limits_have_room(s),
        t.same_program(s),
    ensures
        limits_have_room(t),
{
    let tol = T::tolerance_spec();
    assert forall|v: int| 0 <= v < t.total() implies {
        let (min, max) = (#[trigger] t.orig_var_mins@[v], t.orig_var_maxs@[v]);
        &&& min.finite() ==> min.minus_spec(tol).finite()
        &&& max.finite() ==> max.plus_spec(tol).finite()
    } by {
        assert(s.orig_var_mins@[v] == t.orig_var_mins@[v]);
    }
}

pub proof fn repair_starts_well<T: Scalar>(before: Solver<T>, after: Solver<T>)
    requires
        repaired(before, after, Ok(())),
    ensures
        before.wf(),
{
    let mid = choose|mid: Solver<T>| #[trigger]
        restored(before, mid, Ok(())) && optimized(mid, after, Ok(()));
    let p = choose|p: Seq<Solver<T>>| #[trigger] restored_by(p, before, mid, Ok(()));
    assert(p[0].wf());
}

/// The numbers are finite on every way that unsetting a variable can have gone.
#[verifier::opaque]
pub open spec fn finite_unset<T: Scalar>(before: Solver<T>, after: Solver<T>, var: usize) -> bool {
    forall|marked: Solver<T>, moved: Solver<T>| #[trigger]
        unset_by(before, marked, moved, after, var, Ok(true)) ==> {
            let col = before.non_basic_vars_inv@[var as int] as int;
            let new_val = before.better_limit(col);
            let diff = new_val.minus_spec(before.set_vars@[var]);
            &&& finite_repair(moved, after)
            &&& forall|ready: Solver<T>| #[trigger]
                value_moved_from(marked, ready, moved, col, diff, new_val) ==> finite_items(
                    ready.col_coeffs.values@,
                ) && finite_vertex(moved)
        }
}

/// `f` is what the tolerance adds up to when a variable is unset.
#[verifier::opaque]
pub open spec fn unset_strays<T: Scalar>(
    before: Solver<T>,
    after: Solver<T>,
    var: usize,
    f: spec_fn(int) -> real,
) -> bool {
    exists|marked: Solver<T>, moved: Solver<T>| #[trigger]
        unset_by(before, marked, moved, after, var, Ok(true)) && repair_strays(moved, after, f)
}

/// On no way that unsetting a variable can have gone is a difference or a miss lost in the
/// tolerance.
#[verifier::opaque]
pub open spec fn sharp_unset<T: Scalar>(before: Solver<T>, after: Solver<T>, var: usize) -> bool {
    forall|marked: Solver<T>, moved: Solver<T>| #[trigger]
        unset_by(before, marked, moved, after, var, Ok(true)) ==> sharp_repair(moved, after)
}

/// Unsetting a variable, where it succeeds, ends at an optimum that misses its limits by no more
/// than what the tolerance adds up to, and by nothing where no difference and no miss is lost in it.
pub proof fn unsetting_settles<T: Scalar>(before: Solver<T>, after: Solver<T>, var: usize)
    requires
        exact::<T>(),
        in_order(before),
        before.set_vars@.contains_key(var),
        var < before.total(),
        var_unset(before, after, var, Ok(true)),
        finite_unset(before, after, var),
    ensures
        in_order(after),
        is_optimal(after),
        after.same_program(before),
        after.set_vars@ == before.set_vars@.remove(var),
        exists|f: spec_fn(int) -> real| #[trigger]
            unset_strays(before, after, var, f) && misses_by(after, f),
        sharp_unset(before, after, var) ==> basics_within(after),
{
    reveal(finite_unset);
    let (marked, moved) = choose|marked: Solver<T>, moved: Solver<T>| #[trigger]
        unset_by(before, marked, moved, after, var, Ok(true));
    let col = before.non_basic_vars_inv@[var as int] as int;
    let new_val = before.better_limit(col);
    let diff = new_val.minus_spec(before.set_vars@[var]);
    repair_starts_well(moved, after);
    let row = before.basic_vars_inv@[var as int];
    assert((row == SENTINEL) != (before.non_basic_vars_inv@[var as int] == SENTINEL));
    if row != SENTINEL {
        assert(before.basic_vars@[row as int] == var);
        assert(!before.set_vars@.contains_key(before.basic_vars@[row as int]));
    }
    let ready = choose|ready: Solver<T>| #[trigger]
        value_moved_from(marked, ready, moved, col, diff, new_val);
    assert(before.non_basic_vars@[col] == var);
    unset_keeps(before, marked, ready, moved, col);
    assert(moved.same_program(before));
    order_stays(before, moved);
    room_stays(before, moved);
    repair_settles(moved, after);
    repair_drifts(moved, after);
    room_stays(before, after);
    assert forall|v: usize| #[trigger] after.set_vars@.contains_key(v) implies {
        let (min, max) = (after.orig_var_mins@[v as int], after.orig_var_maxs@[v as int]);
        &&& min.finite() ==> min.val() <= after.set_vars@[v].val()
        &&& max.finite() ==> after.set_vars@[v].val() <= max.val()
    } by {
        assert(before.set_vars@.contains_key(v));
    }
    let f = choose|f: spec_fn(int) -> real| #[trigger]
        repair_strays(moved, after, f) && misses_by(after, f);
    assert(unset_strays(before, after, var, f)) by {
        reveal(unset_strays);
    }
    if sharp_unset(before, after, var) {
        assert(sharp_repair(moved, after)) by {
            reveal(sharp_unset);
        }
    }
}

/// A variable that is set and then unset again leads back to the objective value that there was
/// before, if that was the best one and no reduced cost is lost in the tolerance at the end, but for
/// what the misses of the limits are worth; and to that very value where nothing is missed.
pub proof fn set_and_unset_lead_back<T: Scalar>(
    before: Solver<T>,
    held: Solver<T>,
    after: Solver<T>,
    var: usize,
    val: T,
    e: spec_fn(int) -> real,
)
    requires
        exact::<T>(),
        in_order(before),
        signs_fit(before),
        misses_by(before, e),
        var < before.total(),
        !before.set_vars@.contains_key(var),
        var_set(before, held, var, val, Ok(())),
        finite_set(before, held, var, val),
        var_unset(held, after, var, Ok(true)),
        finite_unset(held, after, var),
        finite_rates(after),
        sharp_rates(after),
    ensures
        after.set_vars@ == before.set_vars@,
        exists|f: spec_fn(int) -> real| #[trigger]
            unset_strays(held, after, var, f) && misses_by(after, f) && after.cur_obj_val.val()
                >= before.cur_obj_val.val() - miss_worth(before, miss_of(after, f))
                && before.cur_obj_val.val() >= after.cur_obj_val.val() - miss_worth(
                after,
                miss_of(before, e),
            ),
        basics_within(before) && sharp_unset(held, after, var) ==> after.cur_obj_val.val()
            == before.cur_obj_val.val(),
{
    setting_settles(before, held, var, val);
    unsetting_settles(held, after, var);
    assert(after.set_vars@ =~= before.set_vars@);
    let f = choose|f: spec_fn(int) -> real| #[trigger]
        unset_strays(held, after, var, f) && misses_by(after, f);
    best_again(before, after, e, f);
}

proof fn best_again<T: Scalar>(
    before: Solver<T>,
    after: Solver<T>,
    e: spec_fn(int) -> real,
    f: spec_fn(int) -> real,
)
    requires
        exact::<T>(),
        in_order(before),
        signs_fit(before),
        misses_by(before, e),
        in_order(after),
        is_optimal(after),
        finite_rates(after),
        sharp_rates(after),
        misses_by(after, f),
        after.same_program(before),
        after.set_vars@ == before.set_vars@,
    ensures
        after.cur_obj_val.val() >= before.cur_obj_val.val() - miss_worth(
            before,
            miss_of(after, f),
        ),
        before.cur_obj_val.val() >= after.cur_obj_val.val() - miss_worth(
            after,
            miss_of(before, e),
        ),
        basics_within(before) && basics_within(after) ==> after.cur_obj_val.val()
            == before.cur_obj_val.val(),
{
    optimum_fits(after);
    best_value_is_fixed(after, before, f, e);
}

/// After setting a variable the objective value is not better than before, if that was the best
/// one, but for what the misses of the limits are worth.
pub proof fn set_value_is_no_better<T: Scalar>(
    before: Solver<T>,
    after: Solver<T>,
    var: usize,
    val: T,
)
    requires
        exact::<T>(),
        in_order(before),
        signs_fit(before),
        var < before.total(),
        !before.set_vars@.contains_key(var),
        var_set(before, after, var, val, Ok(())),
        finite_set(before, after, var, val),
    ensures
        exists|f: spec_fn(int) -> real| #[trigger]
            set_strays(before, after, var, val, f) && misses_by(after, f)
                && after.cur_obj_val.val() >= before.cur_obj_val.val() - miss_worth(
                before,
                miss_of(after, f),
            ),
        sharp_set(before, after, var, val) ==> after.cur_obj_val.val() >= before.cur_obj_val.val(),
{
    setting_settles(before, after, var, val);
    let f = choose|f: spec_fn(int) -> real| #[trigger]
        set_strays(before, after, var, val, f) && misses_by(after, f);
    setting_is_no_better(before, after, f);
}

/// `f` is what the tolerance adds up to when a constraint is added.
#[verifier::opaque]
pub open spec fn extension_strays<T: Scalar>(
    before: Solver<T>,
    after: Solver<T>,
    coeffs: CsVec<T>,
    rel_op: RelOp,
    bound: T,
    f: spec_fn(int) -> real,
) -> bool {
    exists|mid: Solver<T>| #[trigger]
        extended(before, mid, coeffs, rel_op, bound) && repaired(mid, after, Ok(()))
            && repair_strays(mid, after, f)
}

/// On no way that adding a constraint can have gone is a difference or a miss lost in the
/// tolerance.
#[verifier::opaque]
pub open spec fn sharp_extension<T: Scalar>(
    before: Solver<T>,
    after: Solver<T>,
    coeffs: CsVec<T>,
    rel_op: RelOp,
    bound: T,
) -> bool {
    forall|mid: Solver<T>| #[trigger]
        extended(before, mid, coeffs, rel_op, bound) && repaired(mid, after, Ok(()))
            ==> sharp_repair(mid, after)
}

/// The numbers are finite on every way that adding a constraint can have gone.
#[verifier::opaque]
pub open spec fn finite_extension<T: Scalar>(
    before: Solver<T>,
    after: Solver<T>,
    coeffs: CsVec<T>,
    rel_op: RelOp,
    bound: T,
) -> bool {
    forall|mid: Solver<T>| #[trigger]
        extended(before, mid, coeffs, rel_op, bound) && repaired(mid, after, Ok(()))
            ==> finite_vertex(mid) && factored_basis(mid) && sharp_bounds(mid) && limits_have_room(
            mid,
        ) && finite_repair(mid, after)
}

/// Adding a constraint, where it succeeds, ends at an optimum of the program with that constraint.
/// It misses its limits by no more than what the tolerance adds up to, and by nothing where no
/// difference and no miss is lost in it; and but for what these misses are worth the objective value
/// is not better than before, if that was the best one.
pub proof fn extension_settles<T: Scalar>(
    before: Solver<T>,
    after: Solver<T>,
    coeffs: CsVec<T>,
    rel_op: RelOp,
    bound: T,
)
    requires
        exact::<T>(),
        in_order(before),
        forall|v: usize| #[trigger] before.set_vars@.contains_key(v) ==> v < before.total(),
        coeffs.indices@.len() > 0,
        constraint_added(before, after, coeffs, rel_op, bound, Ok(())),
        finite_extension(before, after, coeffs, rel_op, bound),
    ensures
        in_order(after),
        is_optimal(after),
        program_extended(before, after, coeffs, rel_op, bound),
        after.set_vars@ == before.set_vars@,
        exists|f: spec_fn(int) -> real| #[trigger]
            extension_strays(before, after, coeffs, rel_op, bound, f) && misses_by(after, f) && (
            signs_fit(before) ==> after.cur_obj_val.val() >= before.cur_obj_val.val() - miss_worth(
                before,
                miss_of(after, f),
            )),
        sharp_extension(before, after, coeffs, rel_op, bound) ==> basics_within(after) && (
        signs_fit(before) ==> after.cur_obj_val.val() >= before.cur_obj_val.val()),
{
    reveal(finite_extension);
    let mid = choose|mid: Solver<T>| #[trigger]
        extended(before, mid, coeffs, rel_op, bound) && repaired(mid, after, Ok(()));
    repair_starts_well(mid, after);
    extended_is_sound(before, mid, coeffs, rel_op, bound);
    assert(limits_in_order(mid)) by {
        assert forall|v: int| 0 <= v < mid.total() implies {
            let (min, max) = (#[trigger] mid.orig_var_mins@[v], mid.orig_var_maxs@[v]);
            &&& min.finite() || min.infinite()
            &&& max.finite() || max.infinite()
            &&& !max.less_spec(min)
        } by {
            if v < before.total() {
                assert(before.orig_var_mins@[v] == mid.orig_var_mins@[v]);
            } else {
                assert(T::infinity_spec().minus_spec(T::zero_spec()).signum_spec().finite());
            }
        }
    }
    repair_settles(mid, after);
    repair_drifts(mid, after);
    room_stays(mid, after);
    assert forall|v: usize| #[trigger] after.set_vars@.contains_key(v) implies {
        let (min, max) = (after.orig_var_mins@[v as int], after.orig_var_maxs@[v as int]);
        &&& min.finite() ==> min.val() <= after.set_vars@[v].val()
        &&& max.finite() ==> after.set_vars@[v].val() <= max.val()
    } by {
        assert(before.set_vars@.contains_key(v));
        assert(after.orig_var_mins@[v as int] == before.orig_var_mins@[v as int]);
        assert(after.orig_var_maxs@[v as int] == before.orig_var_maxs@[v as int]);
    }
    let f = choose|f: spec_fn(int) -> real| #[trigger]
        repair_strays(mid, after, f) && misses_by(after, f);
    assert(extension_strays(before, after, coeffs, rel_op, bound, f)) by {
        reveal(extension_strays);
    }
    if sharp_extension(before, after, coeffs, rel_op, bound) {
        assert(sharp_repair(mid, after)) by {
            reveal(sharp_extension);
        }
    }
    if signs_fit(before) {
        constraint_is_no_better(before, after, coeffs, rel_op, bound, f);
    }
}

/// `f` is what the tolerance adds up to when a cut is added.
#[verifier::opaque]
pub open spec fn cut_strays<T: Scalar>(
    before: Solver<T>,
    after: Solver<T>,
    var: usize,
    f: spec_fn(int) -> real,
) -> bool {
    exists|mid: Solver<T>, coeffs: CsVec<T>| #[trigger]
        cut_by(before, mid, coeffs, after, var, Ok(())) && extension_strays(
            mid,
            after,
            coeffs,
            RelOp::Le,
            below_floor(before.value_of(var as int)),
            f,
        )
}

/// On no way that adding a cut can have gone is a difference or a miss lost in the tolerance.
#[verifier::opaque]
pub open spec fn sharp_cut<T: Scalar>(before: Solver<T>, after: Solver<T>, var: usize) -> bool {
    forall|mid: Solver<T>, coeffs: CsVec<T>| #[trigger]
        cut_by(before, mid, coeffs, after, var, Ok(())) ==> sharp_extension(
            mid,
            after,
            coeffs,
            RelOp::Le,
            below_floor(before.value_of(var as int)),
        )
}

/// The numbers are finite on every way that adding a cut can have gone.
#[verifier::opaque]
pub open spec fn finite_cut<T: Scalar>(before: Solver<T>, after: Solver<T>, var: usize) -> bool {
    forall|mid: Solver<T>, coeffs: CsVec<T>| #[trigger]
        cut_by(before, mid, coeffs, after, var, Ok(())) && coeffs.indices@.len() > 0
            ==> finite_extension(
            mid,
            after,
            coeffs,
            RelOp::Le,
            below_floor(before.value_of(var as int)),
        )
}

pub proof fn same_in_order<T: Scalar>(s: Solver<T>, t: Solver<T>)
    requires
        exact::<T>(),
        in_order(s),
        t.wf(),
        t.same_program(s),
        t.same_vertex(s),
        t.basis_solver.same_basis(s.basis_solver),
    ensures
        in_order(t),
        signs_fit(s) ==> signs_fit(t),
        forall|g: spec_fn(int) -> real| #[trigger] miss_worth(t, g) == miss_worth(s, g),
{
    consistent_elsewhere(s, t);
    order_stays(s, t);
    room_stays(s, t);
    if signs_fit(s) {
        assert forall|c: int| 0 <= c < t.cur_obj@.len() implies #[trigger] sign_fits(t, c) by {
            assert(sign_fits(s, c));
        }
    }
    assert forall|g: spec_fn(int) -> real| #[trigger] miss_worth(t, g) == miss_worth(s, g) by {
        sum_same(miss_terms(t, g), miss_terms(s, g), s.non_basic_vars@.len());
    }
}

/// Adding a cut, where it succeeds, either finds nothing to cut off and leaves program and vertex as
/// they are, or ends at an optimum of the program with one constraint more. This misses its limits
/// by no more than what the tolerance adds up to, and by nothing where no difference and no miss is
/// lost in it; and but for what these misses are worth the objective value is not better than
/// before, if that was the best one.
pub proof fn cut_settles<T: Scalar>(before: Solver<T>, after: Solver<T>, var: usize)
    requires
        exact::<T>(),
        in_order(before),
        forall|v: usize| #[trigger] before.set_vars@.contains_key(v) ==> v < before.total(),
        before.basic_vars_inv@[var as int] != SENTINEL,
        cut_added(before, after, var, Ok(())),
        finite_cut(before, after, var),
    ensures
        in_order(after),
        after.set_vars@ == before.set_vars@,
        after.num_slack_vars == before.num_slack_vars ==> after.same_program(before)
            && after.same_vertex(before),
        after.num_slack_vars != before.num_slack_vars ==> after.num_slack_vars
            == before.num_slack_vars + 1 && after.num_vars == before.num_vars && is_optimal(after),
        after.num_slack_vars != before.num_slack_vars ==> exists|f: spec_fn(int) -> real|
            #[trigger] cut_strays(before, after, var, f) && misses_by(after, f) && (signs_fit(
                before,
            ) ==> after.cur_obj_val.val() >= before.cur_obj_val.val() - miss_worth(
                before,
                miss_of(after, f),
            )),
        after.num_slack_vars != before.num_slack_vars && sharp_cut(before, after, var)
            ==> basics_within(after) && (signs_fit(before) ==> after.cur_obj_val.val()
            >= before.cur_obj_val.val()),
{
    reveal(finite_cut);
    let (mid, coeffs) = choose|mid: Solver<T>, coeffs: CsVec<T>| #[trigger]
        cut_by(before, mid, coeffs, after, var, Ok(()));
    let bound = below_floor(before.value_of(var as int));
    same_in_order(before, mid);
    if coeffs.indices@.len() > 0 {
        extension_settles(mid, after, coeffs, RelOp::Le, bound);
        let f = choose|f: spec_fn(int) -> real| #[trigger]
            extension_strays(mid, after, coeffs, RelOp::Le, bound, f) && misses_by(after, f) && (
            signs_fit(mid) ==> after.cur_obj_val.val() >= mid.cur_obj_val.val() - miss_worth(
                mid,
                miss_of(after, f),
            ));
        assert(cut_strays(before, after, var, f)) by {
            reveal(cut_strays);
        }
        if sharp_cut(before, after, var) {
            assert(sharp_extension(mid, after, coeffs, RelOp::Le, bound)) by {
                reveal(sharp_cut);
            }
        }
        assert(miss_worth(mid, miss_of(after, f)) == miss_worth(before, miss_of(after, f)));
    }
}

/// At the optimum that an edit ends with, no other point that meets the constraints and limits is
/// worth more, but for the tolerance times its distance, and but for nothing where no reduced cost
/// is lost in the tolerance.
pub proof fn edited_is_best<T: Scalar>(s: Solver<T>, z: spec_fn(int) -> real)
    requires
        exact::<T>(),
        sound(s),
        is_optimal(s),
        finite_rates(s),
        on_constraints(s, z),
        within_limits(s, z),
    ensures
        s.worth(z) <= s.worth(s.point()) + T::tolerance_spec().val() * distance(s, z),
        sharp_rates(s) ==> s.worth(z) <= s.worth(s.point()),
{
    optimal_has_none(s);
    vertex_is_best(s, z);
    if sharp_rates(s) {
        optimum_fits(s);
        fitting_is_best(s, z);
    }
}

} // verus!
