//! The passage from the search for a feasible vertex to that for the best one, where arithmetic
//! is exact.
use crate::error::Error;
use crate::lu::all_finite;
use crate::optimum::{
    distance, finite_rates, fitting_is_best, optimal_has_none, optimum_fits, sharp_rates,
    vertex_is_best, within_limits,
};
use crate::phases::{
    bfs_found_by, count_from, count_within, freed, freed_basis, is_optimal, kept_items,
};
use crate::renewed::{factored_basis, obj_renewed, sharp_costs};
use crate::scalar::{exact, Scalar};
use crate::simplex::{Solver, SENTINEL};
use crate::steps::{finite_primal_path, primal_path_keeps};
use crate::sums::{sum, sum_longer, sum_same, sum_zero, times_zero};
use crate::vertex::{at_limit, finite_vertex, fresh_basis, lhs_terms, on_constraints, sound};
use vstd::prelude::*;

verus! {

/// No artificial variable is set.
pub open spec fn sets_spare_artificial<T: Scalar>(s: Solver<T>) -> bool {
    forall|v: usize| #[trigger] s.set_vars@.contains_key(v) ==> v < s.art_start()
}

pub proof fn none_counted(vars: Seq<usize>, start: int, k: int)
    requires
        0 <= k <= vars.len(),
        count_from(vars, start, k) == 0,
    ensures
        forall|r: int| 0 <= r < k ==> #[trigger] vars[r] < start,
    decreases k,
{
    if k > 0 {
        count_at_least_zero(vars, start, k - 1);
        none_counted(vars, start, k - 1);
    }
}

proof fn count_at_least_zero(vars: Seq<usize>, start: int, k: int)
    ensures
        count_from(vars, start, k) >= 0,
    decreases k,
{
    if k > 0 {
        count_at_least_zero(vars, start, k - 1);
    }
}

/// Where no artificial variable is basic, all of them are zero.
pub proof fn artificial_are_zero<T: Scalar>(s: Solver<T>, v: int)
    requires
        exact::<T>(),
        sound(s),
        s.basic_artificial() == 0,
        sets_spare_artificial(s),
        s.art_start() <= v < s.total(),
    ensures
        s.point()(v) == 0 as real,
{
    none_counted(s.basic_vars@, s.art_start(), s.basic_vars@.len() as int);
    assert((s.basic_vars_inv@[v] == SENTINEL) != (s.non_basic_vars_inv@[v] == SENTINEL));
    if s.basic_vars_inv@[v] != SENTINEL {
        assert(s.basic_vars@[s.basic_vars_inv@[v] as int] == v);
    }
    let c = s.non_basic_vars_inv@[v] as int;
    assert(s.non_basic_vars@[c] == v);
    assert(at_limit(s, c));
    assert(s.orig_var_mins@[v] == T::zero_spec());
    assert(!s.set_vars@.contains_key(s.non_basic_vars@[c]));
}

/// What is kept of a list, with its place before.
pub proof fn kept_place<T: Scalar>(
    vars: Seq<usize>,
    vals: Seq<T>,
    limit: int,
    k: int,
    c: int,
) -> (p: int)
    requires
        0 <= c < k <= vars.len(),
        vars.len() == vals.len(),
        vars[c] < limit,
    ensures
        0 <= p < kept_items(vars, vars, limit, k).len(),
        kept_items(vars, vals, limit, k).len() == kept_items(vars, vars, limit, k).len(),
        kept_items(vars, vars, limit, k)[p] == vars[c],
        kept_items(vars, vals, limit, k)[p] == vals[c],
    decreases k,
{
    kept_lengths(vars, vals, limit, k - 1);
    if c == k - 1 {
        kept_items(vars, vars, limit, k - 1).len() as int
    } else {
        kept_place(vars, vals, limit, k - 1, c)
    }
}

proof fn kept_lengths<T: Scalar>(vars: Seq<usize>, vals: Seq<T>, limit: int, k: int)
    ensures
        kept_items(vars, vals, limit, k).len() == kept_items(vars, vars, limit, k).len(),
    decreases k,
{
    if k > 0 {
        kept_lengths(vars, vals, limit, k - 1);
    }
}

/// The variables that remain keep their values.
proof fn freed_point<T: Scalar>(x: Solver<T>, after: Solver<T>, v: int)
    requires
        x.wf(),
        after.wf(),
        freed(x, after),
        0 <= v < after.total(),
    ensures
        after.value_of(v) == x.value_of(v),
        x.basic_vars_inv@[v] == SENTINEL ==> ({
            let c = x.non_basic_vars_inv@[v] as int;
            let p = after.non_basic_vars_inv@[v] as int;
            &&& after.basic_vars_inv@[v] == SENTINEL
            &&& 0 <= p < after.non_basic_vars@.len()
            &&& x.non_basic_vars@[c] == v
            &&& after.non_basic_vars@[p] == v
            &&& after.non_basic_vals@[p] == x.non_basic_vals@[c]
        }),
{
    assert((x.basic_vars_inv@[v] == SENTINEL) != (x.non_basic_vars_inv@[v] == SENTINEL));
    assert((after.basic_vars_inv@[v] == SENTINEL) != (after.non_basic_vars_inv@[v] == SENTINEL));
    if x.basic_vars_inv@[v] != SENTINEL {
        let r = x.basic_vars_inv@[v] as int;
        assert(x.basic_vars@[r] == v);
        assert(after.basic_vars@[r] == v);
        assert(after.basic_vars_inv@[v] == r);
    } else {
        let c = x.non_basic_vars_inv@[v] as int;
        assert(x.non_basic_vars@[c] == v);
        let p = kept_place(
            x.non_basic_vars@,
            x.non_basic_vals@,
            x.art_start(),
            x.non_basic_vars@.len() as int,
            c,
        );
        assert(after.non_basic_vars@[p] == v);
        assert(after.non_basic_vars_inv@[v] == p);
    }
}

/// A vertex without artificial variables in its basis stays one when they are taken out of the
/// program.
pub proof fn freed_is_sound<T: Scalar>(x: Solver<T>, after: Solver<T>)
    requires
        exact::<T>(),
        sound(x),
        x.basic_artificial() == 0,
        sets_spare_artificial(x),
        freed(x, after),
        freed_basis(x, after),
        after.wf(),
        after.obj_recalculated(),
        finite_vertex(after),
        all_finite(after.basis_solver.lu_factors.lower),
        all_finite(after.basis_solver.lu_factors.upper),
        sharp_costs(after),
    ensures
        sound(after),
{
    let (big, mat) = (x.orig_constraints_csc, after.orig_constraints_csc);
    let limit = x.art_start() as nat;
    none_counted(x.basic_vars@, x.art_start(), x.basic_vars@.len() as int);
    assert forall|v: int, i: int| 0 <= v < limit && 0 <= i < x.m() implies #[trigger] mat.line(v, i)
        == big.line(v, i) by {
        assert(mat.line(v, i) == after.orig_constraints.line(i, v));
        assert(big.line(v, i) == x.orig_constraints.line(i, v));
    }
    // the basis
    if x.basis_solver.eta_matrices.leaving_rows@.len() == 0 {
        let lu = x.basis_solver.lu_factors;
        let bases = choose|bases: Seq<Seq<usize>>| #[trigger]
            x.basis_solver.chain(big, bases) && bases.last() == x.basic_vars@;
        assert(bases[0] == x.basic_vars@);
        assert forall|r: int, c: int| 0 <= r < mat.nrows && 0 <= c < x.basic_vars@.len() implies (
        #[trigger] mat.line(x.basic_vars@[c] as int, r)).val() == sum(
            lu.terms(r, c),
            x.basic_vars@.len(),
        ) by {
            assert(x.basic_vars@[c] < limit);
            assert(big.line(x.basic_vars@[c] as int, r).val() == sum(
                lu.terms(r, c),
                x.basic_vars@.len(),
            ));
        }
        assert(lu.multiplies_to(mat, after.basic_vars@));
    }
    assert(factored_basis(after));
    fresh_basis(after.basis_solver, mat, after.basic_vars@);
    // the constraints
    assert forall|i: int| 0 <= i < after.m() implies sum(
        lhs_terms(mat, after.point(), i),
        after.total() as nat,
    ) == (#[trigger] after.orig_bounds@[i]).val() by {
        let f = lhs_terms(big, x.point(), i);
        let g = lhs_terms(mat, after.point(), i);
        assert forall|v: int| limit <= v < x.total() implies #[trigger] f(v) == 0 as real by {
            artificial_are_zero(x, v);
            times_zero(big.line(v, i).val());
        }
        sum_longer(f, limit, x.total() as nat);
        assert forall|v: int| 0 <= v < limit implies #[trigger] f(v) == g(v) by {
            freed_point(x, after, v);
            assert(mat.line(v, i) == big.line(v, i));
        }
        sum_same(f, g, limit);
        assert(x.orig_bounds@[i].val() == after.orig_bounds@[i].val());
    }
    obj_renewed(after);
    // the limits
    assert forall|p: int| 0 <= p < after.non_basic_vars@.len() implies #[trigger] at_limit(
        after,
        p,
    ) by {
        let v = after.non_basic_vars@[p] as int;
        assert(after.non_basic_vars_inv@[v] == p);
        assert((after.basic_vars_inv@[v] == SENTINEL) != (after.non_basic_vars_inv@[v]
            == SENTINEL));
        assert((x.basic_vars_inv@[v] == SENTINEL) != (x.non_basic_vars_inv@[v] == SENTINEL));
        if x.basic_vars_inv@[v] != SENTINEL {
            let r = x.basic_vars_inv@[v] as int;
            assert(x.basic_vars@[r] == v);
            assert(after.basic_vars@[r] == v);
            assert(after.basic_vars_inv@[v] == r);
        }
        freed_point(x, after, v);
        assert(at_limit(x, x.non_basic_vars_inv@[v] as int));
    }
    assert forall|r: int| 0 <= r < after.basic_vars@.len() implies !after.set_vars@.contains_key(
        #[trigger] after.basic_vars@[r],
    ) by {
        assert(!x.set_vars@.contains_key(x.basic_vars@[r]));
    }
}

/// A search for a feasible vertex that succeeds ends with what every vertex keeps.
pub proof fn found_is_sound<T: Scalar>(
    path: Seq<Solver<T>>,
    before: Solver<T>,
    after: Solver<T>,
)
    requires
        exact::<T>(),
        bfs_found_by(path, before, after, Ok(())),
        finite_primal_path(path),
        sound(before),
        sets_spare_artificial(before),
        after.wf(),
        finite_vertex(after),
        all_finite(after.basis_solver.lu_factors.lower),
        all_finite(after.basis_solver.lu_factors.upper),
        sharp_costs(after),
    ensures
        sound(after),
{
    primal_path_keeps(path, path.len() - 1);
    count_within(before);
    count_within(path.last());
    freed_is_sound(path.last(), after);
}

/// Where a program is called infeasible, the search ended at an optimum at which the artificial
/// variables cost something; without them a point costs nothing.
proof fn verdict_facts<T: Scalar>(
    path: Seq<Solver<T>>,
    before: Solver<T>,
    after: Solver<T>,
    z: spec_fn(int) -> real,
)
    requires
        exact::<T>(),
        bfs_found_by(path, before, after, Err(Error::Infeasible)),
        before.num_artificial_vars > 0,
        finite_primal_path(path),
        sound(before),
        sets_spare_artificial(before),
        forall|v: int| after.art_start() <= v < after.total() ==> #[trigger] z(v) == 0 as real,
    ensures
        sound(after),
        is_optimal(after),
        after.worth(z) == 0 as real,
        after.worth(after.point()) < -T::tolerance_spec().val(),
{
    primal_path_keeps(path, path.len() - 1);
    count_within(before);
    count_within(after);
    let s = after;
    let total = s.total() as nat;
    assert(s.cur_obj_val.val() > T::tolerance_spec().val());
    let w = s.worth_terms(z);
    assert forall|v: int| 0 <= v < total implies #[trigger] w(v) == 0 as real by {
        times_zero(z(v));
        times_zero(s.cost(v));
    }
    sum_zero(w, total);
    if s.basic_artificial() == 0 {
        let u = s.worth_terms(s.point());
        assert forall|v: int| 0 <= v < total implies #[trigger] u(v) == 0 as real by {
            times_zero(s.point()(v));
            if v >= s.art_start() {
                artificial_are_zero(s, v);
                times_zero(s.cost(v));
            }
        }
        sum_zero(u, total);
        assert(false);
    }
}

/// Where a program is called infeasible, a point that meets all constraints and limits without
/// artificial variables is farther from the last vertex than one, and there is none if the
/// tolerance is zero.
pub proof fn infeasible_is_right<T: Scalar>(
    path: Seq<Solver<T>>,
    before: Solver<T>,
    after: Solver<T>,
    z: spec_fn(int) -> real,
)
    requires
        exact::<T>(),
        bfs_found_by(path, before, after, Err(Error::Infeasible)),
        before.num_artificial_vars > 0,
        finite_primal_path(path),
        sound(before),
        sets_spare_artificial(before),
        finite_rates(after),
        on_constraints(after, z),
        within_limits(after, z),
        forall|v: int| after.art_start() <= v < after.total() ==> #[trigger] z(v) == 0 as real,
    ensures
        T::tolerance_spec().val() > 0 as real,
        distance(after, z) > 1 as real,
{
    verdict_facts(path, before, after, z);
    let s = after;
    let tol = T::tolerance_spec().val();
    optimal_has_none(s);
    vertex_is_best(s, z);
    let d = distance(s, z);
    assert(tol * d > tol);
    assert(tol > 0 as real && d > 1 as real) by (nonlinear_arith)
        requires
            tol * d > tol,
            tol >= 0 as real,
    ;
}

/// Where a program is called infeasible, and no reduced cost is lost in the tolerance at the end, no
/// point meets all constraints and limits without artificial variables.
pub proof fn sharp_verdict_is_right<T: Scalar>(
    path: Seq<Solver<T>>,
    before: Solver<T>,
    after: Solver<T>,
    z: spec_fn(int) -> real,
)
    requires
        exact::<T>(),
        bfs_found_by(path, before, after, Err(Error::Infeasible)),
        before.num_artificial_vars > 0,
        finite_primal_path(path),
        sound(before),
        sets_spare_artificial(before),
        finite_rates(after),
        sharp_rates(after),
        forall|v: int| after.art_start() <= v < after.total() ==> #[trigger] z(v) == 0 as real,
    ensures
        !(on_constraints(after, z) && within_limits(after, z)),
{
    verdict_facts(path, before, after, z);
    optimum_fits(after);
    if on_constraints(after, z) && within_limits(after, z) {
        fitting_is_best(after, z);
    }
}

} // verus!
