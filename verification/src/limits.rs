//! The limits of the vertex that a call ends with, where arithmetic is exact.
use crate::drift::{
    finite_choices, misses_by, order_stays, path_has_trail, within_misses_nothing, Trail,
};
use crate::dual::limits_have_room;
use crate::edited::{finite_misses, restored_is_feasible};
use crate::edits::repaired;
use crate::error::Error;
use crate::feasible::{
    basics_within, coeff_at, finite_ratios, heading, limits_in_order, near_and_far, passed_over,
    row_within, scan_is_near_least, sets_within, value_within,
};
use crate::handover::{found_is_sound, sets_spare_artificial};
use crate::lu::all_finite;
use crate::optimum::{
    reduced_terms, signs_fit, sign_fits, sum_at_most, within_limits, worth_of_reduced,
};
use crate::phases::{
    bfs_found, bfs_found_by, climbed, climbed_by, freed, optimized, restored, restored_by,
};
use crate::pricing::{coeffs_prepared, pivot_chosen};
use crate::renewed::sharp_costs;
use crate::scalar::{abs_real, exact, Scalar};
use crate::simplex::{Solver, SENTINEL};
use crate::solve::finite_items;
use crate::sparse::SparseVec;
use crate::steps::{dual_path_keeps, finite_dual_path};
use crate::sums::{sum, sum_plus, sum_zero, times_zero};
use crate::vertex::{
    along, along_is_worth, along_keeps_constraints, at_limit, finite_vertex, on_constraints, sound,
};
use vstd::prelude::*;

verus! {

/// The point is within the limits, but for `g` of every variable, with the variables that are set
/// at their values.
pub open spec fn nearly_within<T: Scalar>(
    s: Solver<T>,
    z: spec_fn(int) -> real,
    g: spec_fn(int) -> real,
) -> bool {
    &&& forall|v: int| 0 <= v < s.total() ==> #[trigger] g(v) >= 0 as real
    &&& forall|v: int|
        0 <= v < s.total() ==> {
            let (min, max) = (s.orig_var_mins@[v], s.orig_var_maxs@[v]);
            &&& min.finite() ==> min.val() - g(v) <= #[trigger] z(v)
            &&& max.finite() ==> z(v) <= max.val() + g(v)
            &&& s.set_vars@.contains_key(v as usize) ==> z(v) == s.set_vars@[v as usize].val()
        }
}

/// What the variables miss their limits by, where the basic ones miss them by `e` of their row.
pub open spec fn miss_of<T: Scalar>(
    s: Solver<T>,
    e: spec_fn(int) -> real,
) -> spec_fn(int) -> real {
    |v: int|
        if s.basic_vars_inv@[v] != SENTINEL {
            e(s.basic_vars_inv@[v] as int)
        } else {
            0 as real
        }
}

/// Nothing is missed.
pub open spec fn nothing() -> spec_fn(int) -> real {
    |i: int| 0 as real
}

/// A vertex whose basic variables miss their limits by no more than `e` is within all limits, but
/// for that.
pub proof fn vertex_is_nearly_within<T: Scalar>(s: Solver<T>, e: spec_fn(int) -> real)
    requires
        exact::<T>(),
        sound(s),
        limits_in_order(s),
        sets_within(s),
        misses_by(s, e),
    ensures
        nearly_within(s, s.point(), miss_of(s, e)),
{
    let z = s.point();
    let g = miss_of(s, e);
    assert forall|v: int| 0 <= v < s.total() implies #[trigger] g(v) >= 0 as real by {
        if s.basic_vars_inv@[v] != SENTINEL {
            assert(e(s.basic_vars_inv@[v] as int) >= 0 as real);
        }
    }
    assert forall|v: int| 0 <= v < s.total() implies {
        let (min, max) = (s.orig_var_mins@[v], s.orig_var_maxs@[v]);
        &&& min.finite() ==> min.val() - g(v) <= #[trigger] z(v)
        &&& max.finite() ==> z(v) <= max.val() + g(v)
        &&& s.set_vars@.contains_key(v as usize) ==> z(v) == s.set_vars@[v as usize].val()
    } by {
        assert((s.basic_vars_inv@[v] == SENTINEL) != (s.non_basic_vars_inv@[v] == SENTINEL));
        let (min, max) = (s.orig_var_mins@[v], s.orig_var_maxs@[v]);
        if s.basic_vars_inv@[v] != SENTINEL {
            let r = s.basic_vars_inv@[v] as int;
            assert(s.basic_vars@[r] == v);
            assert(e(r) >= 0 as real);
            assert(!s.set_vars@.contains_key(s.basic_vars@[r]));
        } else {
            let c = s.non_basic_vars_inv@[v] as int;
            assert(s.non_basic_vars@[c] == v as usize);
            assert(at_limit(s, c));
            assert(!max.less_spec(min));
        }
    }
}

/// A vertex whose basic variables are within their limits is within all limits.
pub proof fn vertex_is_within<T: Scalar>(s: Solver<T>)
    requires
        exact::<T>(),
        sound(s),
        limits_in_order(s),
        sets_within(s),
        basics_within(s),
    ensures
        within_limits(s, s.point()),
{
    let e = nothing();
    within_misses_nothing(s, e);
    vertex_is_nearly_within(s, e);
    nearly_is_within(s, s.point(), miss_of(s, e));
}

/// Where nothing is missed, the limits are met.
pub proof fn nearly_is_within<T: Scalar>(
    s: Solver<T>,
    z: spec_fn(int) -> real,
    g: spec_fn(int) -> real,
)
    requires
        nearly_within(s, z, g),
        forall|v: int| 0 <= v < s.total() ==> #[trigger] g(v) == 0 as real,
    ensures
        within_limits(s, z),
{
    assert forall|v: int| 0 <= v < s.total() implies {
        let (min, max) = (s.orig_var_mins@[v], s.orig_var_maxs@[v]);
        &&& min.finite() ==> min.val() <= #[trigger] z(v)
        &&& max.finite() ==> z(v) <= max.val()
        &&& s.set_vars@.contains_key(v as usize) ==> z(v) == s.set_vars@[v as usize].val()
    } by {
        assert(g(v) == 0 as real);
    }
}

/// What the misses are worth at most: every one times the reduced cost of its variable.
pub open spec fn miss_terms<T: Scalar>(
    s: Solver<T>,
    g: spec_fn(int) -> real,
) -> spec_fn(int) -> real {
    |c: int| abs_real(s.cur_obj@[c].val()) * g(s.non_basic_vars@[c] as int)
}

pub open spec fn miss_worth<T: Scalar>(s: Solver<T>, g: spec_fn(int) -> real) -> real {
    sum(miss_terms(s, g), s.non_basic_vars@.len())
}

/// Where nothing is missed, that is worth nothing.
pub proof fn nothing_is_worthless<T: Scalar>(s: Solver<T>, g: spec_fn(int) -> real)
    requires
        s.wf(),
        forall|v: int| 0 <= v < s.total() ==> #[trigger] g(v) == 0 as real,
    ensures
        miss_worth(s, g) == 0 as real,
{
    let f = miss_terms(s, g);
    assert forall|c: int| 0 <= c < s.non_basic_vars@.len() implies #[trigger] f(c) == 0 as real by {
        assert(s.non_basic_vars@[c] < s.total());
        assert(g(s.non_basic_vars@[c] as int) == 0 as real);
        times_zero(abs_real(s.cur_obj@[c].val()));
    }
    sum_zero(f, s.non_basic_vars@.len());
}

/// Where the signs fit, no point that meets the constraints, and the limits but for `g`, is worth
/// more than the vertex, but for what the misses are worth.
pub proof fn fitting_is_nearly_best<T: Scalar>(
    s: Solver<T>,
    z: spec_fn(int) -> real,
    g: spec_fn(int) -> real,
)
    requires
        exact::<T>(),
        sound(s),
        signs_fit(s),
        on_constraints(s, z),
        nearly_within(s, z, g),
    ensures
        s.worth(z) <= s.worth(s.point()) + miss_worth(s, g),
{
    let y = choose|y: Seq<real>| s.priced(y);
    let x = s.point();
    let n = s.non_basic_vars@.len();
    worth_of_reduced(s, y, z);
    worth_of_reduced(s, y, x);
    let (f, h) = (reduced_terms(s, z), reduced_terms(s, x));
    let extra = miss_terms(s, g);
    let bound = |c: int| h(c) + extra(c);
    assert forall|c: int| 0 <= c < n implies #[trigger] f(c) <= bound(c) by {
        let var = s.non_basic_vars@[c];
        let v = var as int;
        let d = s.cur_obj@[c].val();
        assert(s.non_basic_vars_inv@[v] == c);
        assert((s.basic_vars_inv@[v] == SENTINEL) != (s.non_basic_vars_inv@[v] == SENTINEL));
        let (p, q) = (z(v), s.non_basic_vals@[c].val());
        assert(x(v) == q);
        assert(at_limit(s, c));
        assert(sign_fits(s, c));
        assert(v as usize == var);
        let (min, max) = (s.orig_var_mins@[v], s.orig_var_maxs@[v]);
        assert(min.finite() ==> min.val() - g(v) <= z(v));
        assert(max.finite() ==> z(v) <= max.val() + g(v));
        let (a, b) = (abs_real(d), g(v));
        if s.set_vars@.contains_key(var) {
            assert(p == q);
            assert(a * b >= 0 as real) by (nonlinear_arith)
                requires
                    a >= 0 as real,
                    b >= 0 as real,
            ;
        } else {
            assert(d * p <= d * q + a * b) by (nonlinear_arith)
                requires
                    d < 0 as real ==> p >= q - b && a == -d,
                    d > 0 as real ==> p <= q + b && a == d,
                    d == 0 as real ==> a == 0 as real,
                    b >= 0 as real,
            ;
        }
    }
    sum_at_most(f, bound, n);
    sum_plus(h, extra, bound, n);
}

impl<T: Scalar> Trail<T> {
    /// The climb leads from one vertex to the other.
    pub open spec fn leads(self, before: Solver<T>, after: Solver<T>) -> bool {
        self.taken() && self.path[0] == before && self.path.last() == after
    }
}

/// Where a climb succeeds, the last vertex misses its limits by no more than what the first one
/// misses them by and the tolerance add up to. Where no difference is lost in the tolerance, it is
/// within its limits if the first one is.
pub proof fn climb_drifts<T: Scalar>(
    before: Solver<T>,
    after: Solver<T>,
    e: spec_fn(int) -> real,
)
    requires
        exact::<T>(),
        climbed(before, after, Ok(())),
        forall|p: Seq<Solver<T>>| #[trigger]
            climbed_by(p, before, after, Ok(())) ==> finite_choices(p),
        sound(before),
        limits_in_order(before),
        misses_by(before, e),
    ensures
        sound(after),
        limits_in_order(after),
        after.same_program(before),
        after.set_vars == before.set_vars,
        exists|t: Trail<T>| #[trigger] t.leads(before, after) && misses_by(after, t.drift(e)),
        basics_within(before) && (forall|t: Trail<T>| #[trigger]
            t.leads(before, after) ==> t.sharp()) ==> basics_within(after),
{
    let p = choose|p: Seq<Solver<T>>| #[trigger] climbed_by(p, before, after, Ok(()));
    let t = path_has_trail(p);
    assert(t.leads(before, after));
    t.keeps(p.len() - 1);
    t.drifts(e, p.len() - 1);
    assert(misses_by(after, t.drift(e)));
    if basics_within(before) && (forall|t: Trail<T>| #[trigger]
        t.leads(before, after) ==> t.sharp()) {
        t.stays_within(p.len() - 1);
    }
}

/// Taking out the artificial variables leaves the others where they are.
proof fn freed_misses<T: Scalar>(x: Solver<T>, after: Solver<T>, e: spec_fn(int) -> real)
    requires
        x.wf(),
        after.wf(),
        freed(x, after),
        misses_by(x, e),
    ensures
        misses_by(after, e),
{
    assert forall|r: int| 0 <= r < after.m() implies #[trigger] e(r) >= 0 as real && value_within(
        after,
        after.basic_vars@[r] as int,
        after.cur_bounds@[r].val(),
        e(r),
    ) by {
        assert(value_within(x, x.basic_vars@[r] as int, x.cur_bounds@[r].val(), e(r)));
    }
}

proof fn freed_order<T: Scalar>(x: Solver<T>, after: Solver<T>)
    requires
        limits_in_order(x),
        freed(x, after),
    ensures
        limits_in_order(after),
{
    assert forall|v: int| 0 <= v < after.total() implies {
        let (min, max) = (#[trigger] after.orig_var_mins@[v], after.orig_var_maxs@[v]);
        &&& min.finite() || min.infinite()
        &&& max.finite() || max.infinite()
        &&& !max.less_spec(min)
    } by {
        assert(x.orig_var_mins@[v] == after.orig_var_mins@[v]);
    }
}

impl<T: Scalar> Trail<T> {
    /// The search for a first feasible vertex goes this way and ends at `start`.
    pub open spec fn finds(self, before: Solver<T>, start: Solver<T>) -> bool {
        self.taken() && bfs_found_by(self.path, before, start, Ok(()))
    }
}

/// The numbers are finite on every way that the search for a first feasible vertex can have gone,
/// and where the artificial variables are taken out no reduced cost is lost in the tolerance.
pub open spec fn finite_first_phase<T: Scalar>(before: Solver<T>, start: Solver<T>) -> bool {
    forall|p: Seq<Solver<T>>| #[trigger]
        bfs_found_by(p, before, start, Ok(())) ==> finite_choices(p) && finite_vertex(start)
            && all_finite(start.basis_solver.lu_factors.lower) && all_finite(
            start.basis_solver.lu_factors.upper,
        ) && sharp_costs(start)
}

/// Where a first feasible vertex is found, it misses its limits by no more than what the start
/// misses them by and the tolerance add up to. Where no difference is lost in the tolerance, it is
/// within its limits if the start is.
pub proof fn first_phase_drifts<T: Scalar>(
    before: Solver<T>,
    start: Solver<T>,
    e: spec_fn(int) -> real,
)
    requires
        exact::<T>(),
        bfs_found(before, start, Ok(())),
        finite_first_phase(before, start),
        start.wf(),
        sound(before),
        sets_spare_artificial(before),
        limits_in_order(before),
        misses_by(before, e),
    ensures
        sound(start),
        limits_in_order(start),
        start.num_artificial_vars == 0,
        start.set_vars == before.set_vars,
        start.orig_var_mins == before.orig_var_mins,
        start.orig_var_maxs == before.orig_var_maxs,
        exists|t: Trail<T>| #[trigger] t.finds(before, start) && misses_by(start, t.drift(e)),
        basics_within(before) && (forall|t: Trail<T>| #[trigger]
            t.finds(before, start) ==> t.sharp()) ==> basics_within(start),
{
    let p = choose|p: Seq<Solver<T>>| #[trigger] bfs_found_by(p, before, start, Ok(()));
    let t = path_has_trail(p);
    let x = p.last();
    assert(t.finds(before, start));
    t.keeps(p.len() - 1);
    t.drifts(e, p.len() - 1);
    found_is_sound(p, before, start);
    freed_misses(x, start, t.drift(e));
    freed_order(x, start);
    if basics_within(before) && (forall|t: Trail<T>| #[trigger]
        t.finds(before, start) ==> t.sharp()) {
        t.stays_within(p.len() - 1);
        crate::feasible::freed_is_within(x, start);
    }
}

/// `f` is what the tolerance adds up to over an optimization, if the start misses its limits by `e`.
pub open spec fn strays<T: Scalar>(
    before: Solver<T>,
    after: Solver<T>,
    e: spec_fn(int) -> real,
    f: spec_fn(int) -> real,
) -> bool {
    if before.num_artificial_vars == 0 {
        exists|t: Trail<T>| #[trigger] t.leads(before, after) && f == t.drift(e)
    } else {
        exists|t: Trail<T>, start: Solver<T>, u: Trail<T>|
            #![trigger t.finds(before, start), u.leads(start, after)]
            t.finds(before, start) && u.leads(start, after) && f == u.drift(t.drift(e))
    }
}

/// In no choice of a row on any way that an optimization can have gone is a difference lost in the
/// tolerance.
pub open spec fn sharp_run<T: Scalar>(before: Solver<T>, after: Solver<T>) -> bool {
    if before.num_artificial_vars == 0 {
        forall|t: Trail<T>| #[trigger] t.leads(before, after) ==> t.sharp()
    } else {
        forall|t: Trail<T>, start: Solver<T>, u: Trail<T>|
            #![trigger t.finds(before, start), u.leads(start, after)]
            t.finds(before, start) && u.leads(start, after) ==> t.sharp() && u.sharp()
    }
}

/// The numbers are finite on every way that an optimization which succeeds can have gone, those of
/// the choices of rows among them, and where the artificial variables are taken out no reduced cost
/// is lost in the tolerance.
pub open spec fn finite_search<T: Scalar>(before: Solver<T>, after: Solver<T>) -> bool {
    if before.num_artificial_vars == 0 {
        forall|p: Seq<Solver<T>>| #[trigger]
            climbed_by(p, before, after, Ok(())) ==> finite_choices(p)
    } else {
        forall|start: Solver<T>| #[trigger]
            bfs_found(before, start, Ok(())) && climbed(start, after, Ok(())) ==> {
                &&& finite_first_phase(before, start)
                &&& forall|p: Seq<Solver<T>>| #[trigger]
                    climbed_by(p, start, after, Ok(())) ==> finite_choices(p)
            }
    }
}

/// Where an optimization succeeds, the last vertex misses its limits by no more than what the start
/// misses them by and the tolerance add up to. Where no difference is lost in the tolerance, it is
/// within its limits if the start is.
pub proof fn optimization_drifts<T: Scalar>(
    before: Solver<T>,
    after: Solver<T>,
    e: spec_fn(int) -> real,
)
    requires
        exact::<T>(),
        optimized(before, after, Ok(())),
        finite_search(before, after),
        sound(before),
        sets_spare_artificial(before),
        limits_in_order(before),
        misses_by(before, e),
    ensures
        sound(after),
        limits_in_order(after),
        after.num_artificial_vars == 0,
        after.set_vars == before.set_vars,
        after.orig_var_mins == before.orig_var_mins,
        after.orig_var_maxs == before.orig_var_maxs,
        exists|f: spec_fn(int) -> real| #[trigger]
            strays(before, after, e, f) && misses_by(after, f),
        basics_within(before) && sharp_run(before, after) ==> basics_within(after),
{
    if before.num_artificial_vars == 0 {
        climb_drifts(before, after, e);
        let t = choose|t: Trail<T>| #[trigger]
            t.leads(before, after) && misses_by(after, t.drift(e));
        assert(strays(before, after, e, t.drift(e)));
    } else {
        let start = choose|start: Solver<T>| #[trigger]
            bfs_found(before, start, Ok(())) && climbed(start, after, Ok(()));
        let q = choose|q: Seq<Solver<T>>| #[trigger] climbed_by(q, start, after, Ok(()));
        assert(q[0].wf());
        first_phase_drifts(before, start, e);
        let t = choose|t: Trail<T>| #[trigger]
            t.finds(before, start) && misses_by(start, t.drift(e));
        climb_drifts(start, after, t.drift(e));
        let u = choose|u: Trail<T>| #[trigger]
            u.leads(start, after) && misses_by(after, u.drift(t.drift(e)));
        assert(strays(before, after, e, u.drift(t.drift(e))));
        if basics_within(before) && sharp_run(before, after) {
            assert forall|t: Trail<T>| #[trigger] t.finds(before, start) implies t.sharp() by {
                assert(t.finds(before, start) && u.leads(start, after));
            }
            assert forall|u: Trail<T>| #[trigger] u.leads(start, after) implies u.sharp() by {
                assert(t.finds(before, start) && u.leads(start, after));
            }
        }
    }
}

/// The tolerance in every row.
pub open spec fn tolerances<T: Scalar>() -> spec_fn(int) -> real {
    |r: int| T::tolerance_spec().val()
}

/// No basic variable misses its limits by the tolerance or less. Without tolerance none can.
pub open spec fn sharp_misses<T: Scalar>(s: Solver<T>) -> bool {
    misses_by(s, tolerances::<T>()) ==> basics_within(s)
}

/// `f` is what the tolerance adds up to over a repair: over the climb that follows when the vertex
/// is within its limits but for the tolerance.
#[verifier::opaque]
pub open spec fn repair_strays<T: Scalar>(
    before: Solver<T>,
    after: Solver<T>,
    f: spec_fn(int) -> real,
) -> bool {
    exists|mid: Solver<T>, t: Trail<T>|
        #![trigger restored(before, mid, Ok(())), t.leads(mid, after)]
        restored(before, mid, Ok(())) && t.leads(mid, after) && f == t.drift(tolerances::<T>())
}

/// On no way that a repair can have gone is a difference or a miss lost in the tolerance.
#[verifier::opaque]
pub open spec fn sharp_repair<T: Scalar>(before: Solver<T>, after: Solver<T>) -> bool {
    forall|mid: Solver<T>, t: Trail<T>|
        #![trigger restored(before, mid, Ok(())), t.leads(mid, after)]
        restored(before, mid, Ok(())) && t.leads(mid, after) ==> t.sharp() && sharp_misses(mid)
}

/// The numbers are finite on every way that a repair can have gone.
#[verifier::opaque]
pub open spec fn finite_repair<T: Scalar>(before: Solver<T>, after: Solver<T>) -> bool {
    forall|p: Seq<Solver<T>>, mid: Solver<T>, q: Seq<Solver<T>>|
        #![trigger restored_by(p, before, mid, Ok(())), climbed_by(q, mid, after, Ok(()))]
        restored_by(p, before, mid, Ok(())) && climbed_by(q, mid, after, Ok(()))
            ==> finite_dual_path(p) && finite_misses(mid) && finite_choices(q)
}

/// Without tolerance no miss is lost in it.
pub proof fn no_tolerance_is_sharp<T: Scalar>(s: Solver<T>)
    requires
        T::tolerance_spec().val() == 0 as real,
    ensures
        sharp_misses(s),
{
    let e = tolerances::<T>();
    if misses_by(s, e) {
        assert forall|r: int| 0 <= r < s.m() implies #[trigger] row_within(s, r) by {
            assert(e(r) >= 0 as real);
        }
    }
}

/// Where a repair succeeds, the last vertex misses its limits by no more than what the tolerance
/// adds up to. Where no difference and no miss is lost in the tolerance, it is within its limits.
pub proof fn repair_drifts<T: Scalar>(before: Solver<T>, after: Solver<T>)
    requires
        exact::<T>(),
        repaired(before, after, Ok(())),
        finite_repair(before, after),
        sound(before),
        before.num_artificial_vars == 0,
        limits_in_order(before),
        limits_have_room(before),
    ensures
        sound(after),
        limits_in_order(after),
        after.same_program(before),
        after.set_vars == before.set_vars,
        exists|f: spec_fn(int) -> real| #[trigger]
            repair_strays(before, after, f) && misses_by(after, f),
        sharp_repair(before, after) ==> basics_within(after),
{
    reveal(repair_strays);
    reveal(sharp_repair);
    reveal(finite_repair);
    let mid = choose|mid: Solver<T>| #[trigger]
        restored(before, mid, Ok(())) && optimized(mid, after, Ok(()));
    let p = choose|p: Seq<Solver<T>>| #[trigger] restored_by(p, before, mid, Ok(()));
    crate::outcome::dual_program_stays(p, p.len() - 1);
    let q = choose|q: Seq<Solver<T>>| #[trigger] climbed_by(q, mid, after, Ok(()));
    restored_is_feasible(p, before, mid);
    dual_path_keeps(p, p.len() - 1);
    order_stays(before, mid);
    let e = tolerances::<T>();
    assert forall|r: int| 0 <= r < mid.m() implies #[trigger] e(r) >= 0 as real && value_within(
        mid,
        mid.basic_vars@[r] as int,
        mid.cur_bounds@[r].val(),
        e(r),
    ) by {
        let v = mid.basic_vars@[r] as int;
        assert(before.orig_var_mins@[v] == mid.orig_var_mins@[v]);
    }
    assert(misses_by(mid, e));
    climb_drifts(mid, after, e);
    let t = choose|t: Trail<T>| #[trigger] t.leads(mid, after) && misses_by(after, t.drift(e));
    assert(repair_strays(before, after, t.drift(e)));
    if sharp_repair(before, after) {
        assert forall|t: Trail<T>| #[trigger] t.leads(mid, after) implies t.sharp() by {
            assert(restored(before, mid, Ok(())) && t.leads(mid, after));
        }
        assert(restored(before, mid, Ok(())) && t.leads(mid, after));
        assert(sharp_misses(mid));
    }
}

/// A basic variable that moves where it has no limit misses the other one by no more than before.
proof fn moves_freely<T: Scalar>(
    s: Solver<T>,
    r: int,
    a: T,
    sign: T,
    head: real,
    step: real,
    e: real,
    x: real,
)
    requires
        exact::<T>(),
        value_within(s, s.basic_vars@[r] as int, s.cur_bounds@[r].val(), e),
        a.finite(),
        a.val() != 0 as real,
        a.times_spec(sign).finite(),
        sign.val() == head,
        head == 1 as real || head == -1 as real,
        head * step >= 0 as real,
        !s.limit_towards(r, a, sign).finite(),
        x == s.cur_bounds@[r].val() - step * a.val(),
    ensures
        value_within(s, s.basic_vars@[r] as int, x, e),
{
    let (k, t) = (a.val(), step);
    let up = a.times_spec(sign).less_spec(T::zero_spec());
    assert(up <==> k * head < 0 as real);
    if up {
        assert(t * k <= 0 as real) by (nonlinear_arith)
            requires
                k * head < 0 as real,
                head * t >= 0 as real,
                head == 1 as real || head == -1 as real,
        ;
    } else {
        assert(t * k >= 0 as real) by (nonlinear_arith)
            requires
                k * head >= 0 as real,
                head * t >= 0 as real,
                head == 1 as real || head == -1 as real,
        ;
    }
}

/// The points that are reached from the vertex when the variable in column `c` moves by `step`.
pub open spec fn ray<T: Scalar>(
    s: Solver<T>,
    coeffs: SparseVec<T>,
    c: int,
    step: real,
) -> spec_fn(int) -> real {
    |v: int| s.point()(v) + step * along(s, coeffs, s.non_basic_vars@[c] as int)(v)
}

/// Where the objective is called unbounded, and no coefficient of the column was passed over, there
/// is a ray of points that meet the constraints, and miss the limits by no more than the vertex, on
/// which the worth grows at the rate of the column.
pub proof fn unbounded_is_right<T: Scalar>(
    s: Solver<T>,
    after: Solver<T>,
    e: spec_fn(int) -> real,
    t: real,
)
    requires
        exact::<T>(),
        forall|p: int|
            0 <= p < after.col_coeffs.values@.len() ==> !passed_over(
                #[trigger] after.col_coeffs.values@[p],
            ),
        sound(s),
        limits_in_order(s),
        misses_by(s, e),
        sets_within(s),
        pivot_chosen(s, after, Err(Error::Unbounded)),
        finite_items(after.col_coeffs.values@),
        ({
            let c = s.entering_scan(s.cur_obj@.len() as int).col->0 as int;
            &&& s.direction(c).finite()
            &&& finite_ratios(s, after.col_coeffs, s.near_limit(c), s.far_limit(c))
        }),
        t >= 0 as real,
    ensures
        ({
            let c = s.entering_scan(s.cur_obj@.len() as int).col->0 as int;
            let z = ray(s, after.col_coeffs, c, heading(s, c) * t);
            &&& on_constraints(s, z)
            &&& nearly_within(s, z, miss_of(s, e))
            &&& s.worth(z) == s.worth(s.point()) + t * s.direction(c).val()
            &&& s.direction(c).val() >= T::tolerance_spec().val()
        }),
{
    let c = s.entering_scan(s.cur_obj@.len() as int).col->0 as int;
    let near = s.near_limit(c);
    let far = s.far_limit(c);
    let coeffs = after.col_coeffs;
    let sign = far.minus_spec(near).signum_spec();
    let n = coeffs.indices@.len() as int;
    let best = s.leaving_scan(coeffs, near, far, n);
    let enter = s.non_basic_vars@[c] as int;
    let g = miss_of(s, e);
    let head = heading(s, c);
    let step = head * t;
    let x = s.point();
    let z = ray(s, coeffs, c, step);
    let m1 = choose|m1: Solver<T>| #[trigger] coeffs_prepared(s, m1, after, c, best.row);
    assert(coeffs_prepared(s, m1, after, c, best.row));
    assert(s.may_enter(c));
    assert(s.direction(c).finite());
    near_and_far(s, c);
    scan_is_near_least(s, coeffs, near, far, n);
    assert(head * step == t) by (nonlinear_arith)
        requires
            step == head * t,
            head == 1 as real || head == -1 as real,
    ;
    along_keeps_constraints(s, coeffs, c, step, x, z);
    let y = choose|y: Seq<real>| s.priced(y);
    along_is_worth(s, coeffs, c, step, x, z, y);
    let o = s.cur_obj@[c].val();
    assert(s.cur_obj@[c].finite());
    assert(s.direction(c).val() == head * o) by {
        times_zero(o);
        assert((-1 as real) * o == -o) by (nonlinear_arith);
    }
    assert(step * o == t * (head * o)) by (nonlinear_arith)
        requires
            step == head * t,
    ;
    // the far limit is infinite, and no row has a limit that is finite
    assert(!far.finite());
    assert(!best.diff.finite()) by {
        if best.diff.finite() {
            assert(T::zero_spec().less_spec(best.diff.minus_spec(T::tolerance_spec())));
            let d = best.diff;
            assert(d == near.minus_spec(far).absolute_spec());
            assert(d.minus_spec(T::tolerance_spec()).finite());
            assert(d.less_spec(d.minus_spec(T::tolerance_spec())));
        }
    }
    assert forall|v: int| 0 <= v < s.total() implies #[trigger] g(v) >= 0 as real by {
        if s.basic_vars_inv@[v] != SENTINEL {
            assert(e(s.basic_vars_inv@[v] as int) >= 0 as real);
        }
    }
    assert forall|v: int| 0 <= v < s.total() implies {
        let (min, max) = (s.orig_var_mins@[v], s.orig_var_maxs@[v]);
        &&& min.finite() ==> min.val() - g(v) <= #[trigger] z(v)
        &&& max.finite() ==> z(v) <= max.val() + g(v)
        &&& s.set_vars@.contains_key(v as usize) ==> z(v) == s.set_vars@[v as usize].val()
    } by {
        assert((s.basic_vars_inv@[v] == SENTINEL) != (s.non_basic_vars_inv@[v] == SENTINEL));
        times_zero(step);
        if s.basic_vars_inv@[v] != SENTINEL {
            let r = s.basic_vars_inv@[v] as int;
            assert(s.basic_vars@[r] == v);
            assert(e(r) >= 0 as real);
            assert(!s.set_vars@.contains_key(s.basic_vars@[r]));
            let k = coeffs.value(r).val();
            assert(step * (-k) == -(step * k)) by (nonlinear_arith);
            if coeffs.stores(r) {
                let p = coeff_at(coeffs, r, s.m());
                let a = coeffs.values@[p];
                assert(a.finite());
                assert(coeffs.stores(r));
                assert(a.times_spec(sign).finite());
                assert(!passed_over(a));
                assert(!s.limit_towards(coeffs.indices@[p] as int, coeffs.values@[p], sign).finite());
                moves_freely(s, r, a, sign, head, step, e(r), z(v));
            }
        } else {
            let d = s.non_basic_vars_inv@[v] as int;
            assert(s.non_basic_vars@[d] == v);
            assert(s.non_basic_vars_inv@[enter] == c);
            assert(at_limit(s, d));
            if v == enter {
                times_zero(t);
                assert((-1 as real) * t == -t) by (nonlinear_arith);
            } else {
                assert(z(v) == x(v));
                let (min, max) = (s.orig_var_mins@[v], s.orig_var_maxs@[v]);
                assert(s.non_basic_vars@[d] == v as usize);
            }
        }
    }
}

} // verus!
