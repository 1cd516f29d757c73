//! The program that was put in and the solution that comes out, where arithmetic is exact.
use crate::drift::{
    finite_choices, misses_by, path_has_trail, within_misses_nothing, Trail,
};
use crate::edits::tautology;
use crate::error::Error;
use crate::feasible::{basics_within, limits_in_order, sets_within, start_is_within};
use crate::first::start_is_sound;
use crate::handover::sets_spare_artificial;
use crate::limits::{
    finite_first_phase, finite_search, first_phase_drifts, miss_of, nearly_within, nothing,
    optimization_drifts, sharp_run, strays, vertex_is_nearly_within,
};
use crate::lu::all_finite;
use crate::optimum::{distance, finite_rates, sharp_rates, sum_at_most, within_limits};
use crate::outcome::{
    endless, finite_run, infeasible_verdict_is_right, optimum_is_best, ray_is_endless, same_limits,
    unbounded_verdict_is_right,
};
use crate::phases::{
    bfs_found, bfs_found_by, climbed, climbed_by, optimized, primal_path, step_made, steps_at,
};
use crate::scalar::{exact, Scalar};
use crate::simplex::{PivotInfo, RelOp, Solver};
use crate::start::{started, Input};
use crate::sums::{sum, sum_but_one, sum_longer, sum_same, sum_times, sum_zero, times_zero};
use crate::vertex::{finite_vertex, lhs_terms, on_constraints, sound};
use vstd::prelude::*;

verus! {

/// The terms of the left-hand side of a constraint of the program at the point `x`.
pub open spec fn coeff_terms<T: Scalar>(
    input: Input<T>,
    j: int,
    x: spec_fn(int) -> real,
) -> spec_fn(int) -> real {
    |v: int| input.constraints[j].0.value(v).val() * x(v)
}

pub open spec fn lhs_at<T: Scalar>(input: Input<T>, j: int, x: spec_fn(int) -> real) -> real {
    sum(coeff_terms(input, j, x), input.obj.len())
}

/// The point meets constraint `j`.
pub open spec fn constraint_met<T: Scalar>(
    input: Input<T>,
    j: int,
    x: spec_fn(int) -> real,
) -> bool {
    let (lhs, bound) = (lhs_at(input, j, x), input.constraints[j].2.val());
    match input.constraints[j].1 {
        RelOp::Le => lhs <= bound,
        RelOp::Ge => lhs >= bound,
        RelOp::Eq => lhs == bound,
    }
}

/// The point meets the limits and all constraints of the program.
pub open spec fn feasible<T: Scalar>(input: Input<T>, x: spec_fn(int) -> real) -> bool {
    &&& forall|v: int|
        0 <= v < input.n() ==> {
            let (min, max) = (input.mins[v], input.maxs[v]);
            &&& min.finite() ==> min.val() <= #[trigger] x(v)
            &&& max.finite() ==> x(v) <= max.val()
        }
    &&& forall|j: int|
        0 <= j < input.constraints.len() ==> #[trigger] constraint_met(input, j, x)
}

/// The point meets constraint `j`, but for `d`.
pub open spec fn nearly_met<T: Scalar>(
    input: Input<T>,
    j: int,
    x: spec_fn(int) -> real,
    d: real,
) -> bool {
    let (lhs, bound) = (lhs_at(input, j, x), input.constraints[j].2.val());
    match input.constraints[j].1 {
        RelOp::Le => lhs <= bound + d,
        RelOp::Ge => lhs >= bound - d,
        RelOp::Eq => lhs == bound,
    }
}

/// The point meets the limits and all constraints of the program, but for `g` of the variables and,
/// where a constraint is an inequality, of its slack variable.
pub open spec fn feasible_but_for<T: Scalar>(
    input: Input<T>,
    x: spec_fn(int) -> real,
    g: spec_fn(int) -> real,
) -> bool {
    &&& forall|v: int|
        0 <= v < input.n() ==> {
            let (min, max) = (input.mins[v], input.maxs[v]);
            &&& min.finite() ==> min.val() - g(v) <= #[trigger] x(v)
            &&& max.finite() ==> x(v) <= max.val() + g(v)
        }
    &&& forall|r: int|
        0 <= r < input.m() ==> nearly_met(
            input,
            #[trigger] input.source(r),
            x,
            g(input.slack_var(r)),
        )
    &&& forall|j: int|
        0 <= j < input.constraints.len() && input.constraints[j].0.indices@.len() == 0
            ==> #[trigger] constraint_met(input, j, x)
}

/// Where nothing is missed, the point is feasible.
pub proof fn feasible_for_nothing<T: Scalar>(
    input: Input<T>,
    x: spec_fn(int) -> real,
    g: spec_fn(int) -> real,
)
    requires
        feasible_but_for(input, x, g),
        forall|v: int|
            0 <= v < input.n() + input.slacks(input.m()) ==> #[trigger] g(v) == 0 as real,
    ensures
        feasible(input, x),
{
    input.counts(0, input.m());
    assert forall|v: int| 0 <= v < input.n() implies {
        let (min, max) = (input.mins[v], input.maxs[v]);
        &&& min.finite() ==> min.val() <= #[trigger] x(v)
        &&& max.finite() ==> x(v) <= max.val()
    } by {
        assert(g(v) == 0 as real);
    }
    assert forall|j: int| 0 <= j < input.constraints.len() implies #[trigger] constraint_met(
        input,
        j,
        x,
    ) by {
        if input.constraints[j].0.indices@.len() > 0 {
            let i = row_of_constraint(input, j, input.constraints.len() as int);
            assert(input.source(i) == j);
            if input.is_ineq(j) {
                input.counts(0, i);
                input.counts(i, input.m());
                assert(g(input.slack_var(i)) == 0 as real);
            }
        }
    }
}

pub open spec fn obj_terms<T: Scalar>(
    input: Input<T>,
    x: spec_fn(int) -> real,
) -> spec_fn(int) -> real {
    |v: int| input.obj[v].val() * x(v)
}

/// The objective of the program, which is to be small.
pub open spec fn objective<T: Scalar>(input: Input<T>, x: spec_fn(int) -> real) -> real {
    sum(obj_terms(input, x), input.obj.len())
}

/// The bounds and the negated objective are finite numbers, and the limits are numbers or infinite.
pub open spec fn finite_input<T: Scalar>(input: Input<T>) -> bool {
    &&& forall|v: int|
        0 <= v < input.n() ==> {
            let (min, max) = (#[trigger] input.mins[v], input.maxs[v]);
            &&& min.finite() || min.infinite()
            &&& max.finite() || max.infinite()
        }
    &&& forall|v: int| 0 <= v < input.n() ==> (#[trigger] input.obj[v]).negated_spec().finite()
    &&& forall|j: int|
        0 <= j < input.constraints.len() ==> (#[trigger] input.constraints[j]).2.finite()
}

/// The solver holds the program, with a slack variable for every inequality and without artificial
/// variables; no variable is set.
spec fn holds_program<T: Scalar>(input: Input<T>, t: Solver<T>) -> bool {
    &&& t.num_vars == input.n()
    &&& t.num_slack_vars == input.slacks(input.m())
    &&& t.num_artificial_vars == 0
    &&& t.m() == input.m()
    &&& t.set_vars@ == Map::<usize, T>::empty()
    &&& forall|v: int, r: int|
        0 <= v < t.total() && 0 <= r < t.m() ==> #[trigger] t.orig_constraints_csc.line(v, r)
            == input.entry(r, v)
    &&& forall|r: int|
        0 <= r < t.m() ==> #[trigger] t.orig_bounds@[r] == input.bound(input.source(r))
    &&& forall|v: int|
        0 <= v < t.total() ==> #[trigger] t.orig_obj@[v] == if v < input.n() {
            input.obj[v].negated_spec()
        } else {
            T::zero_spec()
        }
    &&& forall|v: int|
        0 <= v < t.total() ==> #[trigger] t.orig_var_mins@[v] == if v < input.n() {
            input.mins[v]
        } else {
            T::zero_spec()
        }
    &&& forall|v: int|
        0 <= v < t.total() ==> #[trigger] t.orig_var_maxs@[v] == if v < input.n() {
            input.maxs[v]
        } else {
            T::infinity_spec()
        }
}

proof fn program_stays<T: Scalar>(p: Seq<Solver<T>>, k: int)
    requires
        primal_path(p),
        0 <= k < p.len(),
    ensures
        p[k].same_program(p[0]),
        p[k].set_vars == p[0].set_vars,
        p[k].wf(),
    decreases k,
{
    if k > 0 {
        program_stays(p, k - 1);
        assert(steps_at(p, k - 1));
        let (mid, info) = choose|mid: Solver<T>, info: PivotInfo<T>| #[trigger]
            step_made(p[k - 1], mid, p[k], info, Ok(()));
        assert(mid.same_program(p[k - 1]));
    }
}

/// The first solver holds the program, if it needs no artificial variables.
proof fn start_holds_program<T: Scalar>(input: Input<T>, s: Solver<T>)
    requires
        input.wf(),
        started(input, s),
        s.wf(),
        s.num_artificial_vars == 0,
    ensures
        holds_program(input, s),
{
    assert forall|v: int, r: int| 0 <= v < s.total() && 0 <= r < s.m() implies
        #[trigger] s.orig_constraints_csc.line(v, r) == input.entry(r, v) by {
        assert(s.orig_constraints_csc.line(v, r) == s.orig_constraints.line(r, v));
    }
}

/// So does the solver at the first feasible vertex.
proof fn found_holds_program<T: Scalar>(input: Input<T>, s: Solver<T>, start: Solver<T>)
    requires
        input.wf(),
        started(input, s),
        s.wf(),
        bfs_found(s, start, Ok(())),
        start.wf(),
    ensures
        holds_program(input, start),
{
    let p = choose|p: Seq<Solver<T>>| #[trigger] bfs_found_by(p, s, start, Ok(()));
    program_stays(p, p.len() - 1);
    let x = p.last();
    assert forall|v: int, r: int| 0 <= v < start.total() && 0 <= r < start.m() implies
        #[trigger] start.orig_constraints_csc.line(v, r) == input.entry(r, v) by {
        assert(start.orig_constraints_csc.line(v, r) == start.orig_constraints.line(r, v));
        assert(start.orig_constraints.line(r, v) == x.orig_constraints.line(r, v));
        assert(s.orig_constraints.line(r, v) == input.entry(r, v));
    }
}

proof fn same_holds_program<T: Scalar>(input: Input<T>, s: Solver<T>, t: Solver<T>)
    requires
        holds_program(input, s),
        t.same_program(s),
        t.set_vars == s.set_vars,
    ensures
        holds_program(input, t),
{
    assert forall|v: int, r: int| 0 <= v < t.total() && 0 <= r < t.m() implies
        #[trigger] t.orig_constraints_csc.line(v, r) == input.entry(r, v) by {
        assert(s.orig_constraints_csc.line(v, r) == input.entry(r, v));
    }
    assert forall|r: int| 0 <= r < t.m() implies #[trigger] t.orig_bounds@[r] == input.bound(
        input.source(r),
    ) by {
        assert(s.orig_bounds@[r] == input.bound(input.source(r)));
    }
    assert forall|v: int| 0 <= v < t.total() implies #[trigger] t.orig_obj@[v] == if v < input.n() {
        input.obj[v].negated_spec()
    } else {
        T::zero_spec()
    } by {
        assert(s.orig_obj@[v] == t.orig_obj@[v]);
    }
    assert forall|v: int| 0 <= v < t.total() implies #[trigger] t.orig_var_mins@[v] == if v
        < input.n() {
        input.mins[v]
    } else {
        T::zero_spec()
    } by {
        assert(s.orig_var_mins@[v] == t.orig_var_mins@[v]);
    }
    assert forall|v: int| 0 <= v < t.total() implies #[trigger] t.orig_var_maxs@[v] == if v
        < input.n() {
        input.maxs[v]
    } else {
        T::infinity_spec()
    } by {
        assert(s.orig_var_maxs@[v] == t.orig_var_maxs@[v]);
    }
}

proof fn outcome_holds_program<T: Scalar>(input: Input<T>, s: Solver<T>, after: Solver<T>)
    requires
        input.wf(),
        started(input, s),
        s.wf(),
        optimized(s, after, Ok(())),
    ensures
        holds_program(input, after),
        after.wf(),
{
    if s.num_artificial_vars == 0 {
        let q = choose|q: Seq<Solver<T>>| #[trigger] climbed_by(q, s, after, Ok(()));
        program_stays(q, q.len() - 1);
        start_holds_program(input, s);
        same_holds_program(input, s, after);
    } else {
        let start = choose|start: Solver<T>| #[trigger]
            bfs_found(s, start, Ok(())) && climbed(start, after, Ok(()));
        let q = choose|q: Seq<Solver<T>>| #[trigger] climbed_by(q, start, after, Ok(()));
        program_stays(q, q.len() - 1);
        assert(q[0].wf());
        found_holds_program(input, s, start);
        same_holds_program(input, start, after);
    }
}

/// A point is worth what its objective is, negated.
proof fn worth_is_objective<T: Scalar>(input: Input<T>, t: Solver<T>, z: spec_fn(int) -> real)
    requires
        exact::<T>(),
        finite_input(input),
        holds_program(input, t),
    ensures
        t.worth(z) == -objective(input, z),
{
    let n = input.obj.len();
    let f = t.worth_terms(z);
    let g = obj_terms(input, z);
    assert forall|v: int| n <= v < t.total() implies #[trigger] f(v) == 0 as real by {
        assert(t.orig_obj@[v] == T::zero_spec());
        times_zero(z(v));
    }
    sum_longer(f, n, t.total() as nat);
    assert forall|v: int| 0 <= v < n implies #[trigger] f(v) == (-1 as real) * g(v) by {
        assert(t.orig_obj@[v] == input.obj[v].negated_spec());
        assert(input.obj[v].negated_spec().finite());
        let (p, q) = (input.obj[v].val(), z(v));
        assert((-p) * q == (-1 as real) * (p * q)) by (nonlinear_arith);
    }
    sum_times(-1 as real, g, f, n);
}

/// The row of a slack variable.
proof fn row_of_slack<T: Scalar>(input: Input<T>, v: int, k: int) -> (r: int)
    requires
        0 <= k <= input.m(),
        input.n() <= v < input.n() + input.slacks(k),
    ensures
        0 <= r < k,
        input.is_ineq(input.source(r)),
        input.slack_var(r) == v,
    decreases k,
{
    if v < input.n() + input.slacks(k - 1) {
        row_of_slack(input, v, k - 1)
    } else {
        k - 1
    }
}

/// Where a row has a slack variable, no other row has the same.
proof fn slack_is_own<T: Scalar>(input: Input<T>, a: int, b: int)
    requires
        0 <= a < input.m(),
        0 <= b < input.m(),
        input.is_ineq(input.source(a)),
        input.is_ineq(input.source(b)),
        input.slack_var(a) == input.slack_var(b),
    ensures
        a == b,
{
    if a < b {
        input.counts(a, b);
    } else if b < a {
        input.counts(b, a);
    }
}

spec fn slack_row<T: Scalar>(input: Input<T>, v: int) -> int {
    choose|r: int|
        0 <= r < input.m() && input.is_ineq(#[trigger] input.source(r)) && input.slack_var(r) == v
}

/// What is missing to the bound of the constraint, for the slack variable to make up.
spec fn slack_value<T: Scalar>(input: Input<T>, j: int, x: spec_fn(int) -> real) -> real {
    input.slack_coeff(j).val() * (input.bound(j).val() - lhs_at(input, j, x))
}

/// The point together with the values of the slack variables.
pub closed spec fn with_slacks<T: Scalar>(
    input: Input<T>,
    x: spec_fn(int) -> real,
) -> spec_fn(int) -> real {
    |v: int|
        if v < input.n() {
            x(v)
        } else {
            slack_value(input, input.source(slack_row(input, v)), x)
        }
}

/// The left-hand side of a row is that of the constraint and the share of the slack variable.
proof fn row_of_program<T: Scalar>(
    input: Input<T>,
    t: Solver<T>,
    z: spec_fn(int) -> real,
    i: int,
)
    requires
        exact::<T>(),
        holds_program(input, t),
        0 <= i < input.m(),
    ensures
        sum(lhs_terms(t.orig_constraints_csc, z, i), t.total() as nat) == lhs_at(
            input,
            input.source(i),
            z,
        ) + if input.is_ineq(input.source(i)) {
            input.slack_coeff(input.source(i)).val() * z(input.slack_var(i))
        } else {
            0 as real
        },
{
    let j = input.source(i);
    let n = input.obj.len();
    let total = t.total() as nat;
    let mat = t.orig_constraints_csc;
    let f = lhs_terms(mat, z, i);
    let g = coeff_terms(input, j, z);
    let k = input.slack_var(i);
    input.counts(0, i);
    input.counts(i, input.m());
    let f0 = |v: int|
        if input.is_ineq(j) && v == k {
            0 as real
        } else {
            f(v)
        };
    assert forall|v: int| n <= v < total implies #[trigger] f0(v) == 0 as real by {
        if !(input.is_ineq(j) && v == k) {
            assert(mat.line(v, i) == input.entry(i, v));
            input.counts(0, input.m());
            input.counts(0, i);
            times_zero(z(v));
        }
    }
    sum_longer(f0, n, total);
    assert forall|v: int| 0 <= v < n implies #[trigger] f0(v) == g(v) by {
        assert(mat.line(v, i) == input.entry(i, v));
    }
    sum_same(f0, g, n);
    if input.is_ineq(j) {
        assert(n <= k < total);
        sum_but_one(f0, f, total, k);
        assert(mat.line(k, i) == input.entry(i, k));
    } else {
        sum_same(f0, f, total);
    }
}

/// A feasible point of the program, with its slack variables, is one for the solver.
proof fn feasible_extends<T: Scalar>(input: Input<T>, t: Solver<T>, x: spec_fn(int) -> real)
    requires
        exact::<T>(),
        input.wf(),
        finite_input(input),
        holds_program(input, t),
        feasible(input, x),
    ensures
        on_constraints(t, with_slacks(input, x)),
        within_limits(t, with_slacks(input, x)),
        objective(input, with_slacks(input, x)) == objective(input, x),
{
    let z = with_slacks(input, x);
    let n = input.obj.len();
    input.live_facts(input.constraints.len() as int);
    sum_same(obj_terms(input, z), obj_terms(input, x), n);
    assert forall|i: int| 0 <= i < t.m() implies sum(
        lhs_terms(t.orig_constraints_csc, z, i),
        t.total() as nat,
    ) == (#[trigger] t.orig_bounds@[i]).val() by {
        let j = input.source(i);
        row_of_program(input, t, z, i);
        sum_same(coeff_terms(input, j, z), coeff_terms(input, j, x), n);
        assert(constraint_met(input, j, x));
        assert(0 <= j < input.constraints.len());
        if input.is_ineq(j) {
            let k = input.slack_var(i);
            input.counts(0, i);
            assert(input.is_ineq(input.source(i)) && input.slack_var(i) == k);
            let r = slack_row(input, k);
            slack_is_own(input, r, i);
            let (a, d) = (input.slack_coeff(j).val(), input.bound(j).val() - lhs_at(input, j, x));
            assert(z(k) == a * d);
            slack_coeff_is_unit(input, j);
            assert(a * (a * d) == d) by (nonlinear_arith)
                requires
                    a == 1 as real || a == -1 as real,
            ;
        }
    }
    assert forall|v: int| 0 <= v < t.total() implies {
        let (min, max) = (t.orig_var_mins@[v], t.orig_var_maxs@[v]);
        &&& min.finite() ==> min.val() <= #[trigger] z(v)
        &&& max.finite() ==> z(v) <= max.val()
        &&& t.set_vars@.contains_key(v as usize) ==> z(v) == t.set_vars@[v as usize].val()
    } by {
        assert(t.orig_var_mins@[v] == if v < input.n() {
            input.mins[v]
        } else {
            T::zero_spec()
        });
        assert(t.orig_var_maxs@[v] == if v < input.n() {
            input.maxs[v]
        } else {
            T::infinity_spec()
        });
        if v < n {
            assert(z(v) == x(v));
            assert(input.mins[v].finite() ==> input.mins[v].val() <= x(v));
        } else {
            let r = row_of_slack(input, v, input.m());
            assert(input.is_ineq(input.source(r)) && input.slack_var(r) == v);
            let i = slack_row(input, v);
            let j = input.source(i);
            assert(constraint_met(input, j, x));
            slack_coeff_is_unit(input, j);
            let (a, d) = (input.slack_coeff(j).val(), input.bound(j).val() - lhs_at(input, j, x));
            assert((1 as real) * d == d && (-1 as real) * d == -d) by (nonlinear_arith);
        }
    }
}

proof fn slack_coeff_is_unit<T: Scalar>(input: Input<T>, j: int)
    requires
        exact::<T>(),
    ensures
        input.slack_coeff(j).val() == if input.constraints[j].1 == RelOp::Ge {
            -1 as real
        } else {
            1 as real
        },
{
}

/// The row of a constraint that has variables.
proof fn row_of_constraint<T: Scalar>(input: Input<T>, j: int, k: int) -> (r: int)
    requires
        0 <= j < k <= input.constraints.len(),
        input.constraints[j].0.indices@.len() > 0,
    ensures
        0 <= r < input.live(k).len(),
        input.live(k)[r] == j,
    decreases k,
{
    if j == k - 1 {
        input.live(k).len() - 1
    } else {
        row_of_constraint(input, j, k - 1)
    }
}

/// A point that meets the constraints of the solver, and the limits but for `g`, is feasible but for
/// `g`.
proof fn meets_program<T: Scalar>(
    input: Input<T>,
    t: Solver<T>,
    x: spec_fn(int) -> real,
    g: spec_fn(int) -> real,
)
    requires
        exact::<T>(),
        input.wf(),
        finite_input(input),
        !input.infeasible(),
        holds_program(input, t),
        on_constraints(t, x),
        nearly_within(t, x, g),
    ensures
        feasible_but_for(input, x, g),
{
    let n = input.obj.len();
    input.counts(0, input.m());
    assert forall|v: int| 0 <= v < input.n() implies {
        let (min, max) = (input.mins[v], input.maxs[v]);
        &&& min.finite() ==> min.val() - g(v) <= #[trigger] x(v)
        &&& max.finite() ==> x(v) <= max.val() + g(v)
    } by {
        assert(t.orig_var_mins@[v] == input.mins[v]);
        assert(t.orig_var_maxs@[v] == input.maxs[v]);
        assert(t.orig_var_mins@[v].finite() ==> t.orig_var_mins@[v].val() - g(v) <= x(v));
    }
    assert forall|i: int| 0 <= i < input.m() implies nearly_met(
        input,
        #[trigger] input.source(i),
        x,
        g(input.slack_var(i)),
    ) by {
        let j = input.source(i);
        row_of_program(input, t, x, i);
        assert(t.orig_bounds@[i] == input.bound(j));
        if input.is_ineq(j) {
            let k = input.slack_var(i);
            input.counts(0, i);
            input.counts(i, input.m());
            slack_coeff_is_unit(input, j);
            assert(t.orig_var_mins@[k] == T::zero_spec());
            assert(t.orig_var_mins@[k].finite() ==> t.orig_var_mins@[k].val() - g(k) <= x(k));
            let y = x(k);
            assert((1 as real) * y == y && (-1 as real) * y == -y) by (nonlinear_arith);
        }
    }
    assert forall|j: int|
        0 <= j < input.constraints.len() && input.constraints[j].0.indices@.len() == 0 implies
        #[trigger] constraint_met(input, j, x) by {
        let c = input.constraints[j];
        assert(c.2.finite());
        assert(tautology(c.1, c.2));
        let h = coeff_terms(input, j, x);
        assert forall|v: int| 0 <= v < n implies #[trigger] h(v) == 0 as real by {
            assert(!c.0.stores(v));
            times_zero(x(v));
        }
        sum_zero(h, n);
    }
}

/// The first solver starts with what every vertex keeps, within its limits, which are in order.
pub proof fn start_is_in_order<T: Scalar>(input: Input<T>, s: Solver<T>)
    requires
        exact::<T>(),
        input.wf(),
        finite_input(input),
        !input.infeasible(),
        started(input, s),
        s.wf(),
        finite_vertex(s),
        all_finite(s.basis_solver.lu_factors.lower),
        all_finite(s.basis_solver.lu_factors.upper),
    ensures
        sound(s),
        limits_in_order(s),
        basics_within(s),
        sets_within(s),
        sets_spare_artificial(s),
{
    start_is_sound(input, s);
    start_is_within(input, s);
    assert forall|v: int| 0 <= v < s.total() implies {
        let (min, max) = (#[trigger] s.orig_var_mins@[v], s.orig_var_maxs@[v]);
        &&& min.finite() || min.infinite()
        &&& max.finite() || max.infinite()
        &&& !max.less_spec(min)
    } by {
        if v < input.n() {
            assert(input.mins[v].finite() || input.mins[v].infinite());
            assert(!input.maxs[v].less_spec(input.mins[v]));
        } else {
            assert(s.orig_var_mins@[v] == T::zero_spec());
            assert(s.orig_var_maxs@[v] == T::infinity_spec());
            assert(T::infinity_spec().minus_spec(T::zero_spec()).signum_spec().finite());
        }
    }
}

/// Where an optimization succeeds, the solution meets the limits and all constraints of the program,
/// but for what the tolerance adds up to; and where no difference is lost in the tolerance, as
/// without tolerance none is, it is feasible.
pub proof fn solution_is_feasible<T: Scalar>(input: Input<T>, s: Solver<T>, after: Solver<T>)
    requires
        exact::<T>(),
        input.wf(),
        finite_input(input),
        !input.infeasible(),
        started(input, s),
        s.wf(),
        finite_vertex(s),
        all_finite(s.basis_solver.lu_factors.lower),
        all_finite(s.basis_solver.lu_factors.upper),
        optimized(s, after, Ok(())),
        finite_search(s, after),
    ensures
        sound(after),
        exists|f: spec_fn(int) -> real| #[trigger]
            strays(s, after, nothing(), f) && feasible_but_for(
                input,
                after.point(),
                miss_of(after, f),
            ),
        sharp_run(s, after) ==> feasible(input, after.point()),
{
    let none = nothing();
    start_is_in_order(input, s);
    within_misses_nothing(s, none);
    optimization_drifts(s, after, none);
    outcome_holds_program(input, s, after);
    assert(sets_within(after));
    let f = choose|f: spec_fn(int) -> real| #[trigger]
        strays(s, after, none, f) && misses_by(after, f);
    vertex_is_nearly_within(after, f);
    meets_program(input, after, after.point(), miss_of(after, f));
    if sharp_run(s, after) {
        within_misses_nothing(after, none);
        vertex_is_nearly_within(after, none);
        meets_program(input, after, after.point(), miss_of(after, none));
        feasible_for_nothing(input, after.point(), miss_of(after, none));
    }
}

/// The solution is a best one: where an optimization succeeds, the objective value is that of the
/// last vertex, and no feasible point of the program has a smaller one, but for the tolerance times
/// its distance, and but for nothing where no reduced cost is lost in the tolerance.
pub proof fn solution_is_best<T: Scalar>(
    input: Input<T>,
    s: Solver<T>,
    after: Solver<T>,
    x: spec_fn(int) -> real,
)
    requires
        exact::<T>(),
        input.wf(),
        finite_input(input),
        !input.infeasible(),
        started(input, s),
        s.wf(),
        finite_vertex(s),
        all_finite(s.basis_solver.lu_factors.lower),
        all_finite(s.basis_solver.lu_factors.upper),
        optimized(s, after, Ok(())),
        finite_run(s, after, Ok(())),
        finite_rates(after),
        feasible(input, x),
    ensures
        after.cur_obj_val.val() == objective(input, after.point()),
        after.cur_obj_val.val() <= objective(input, x) + T::tolerance_spec().val() * distance(
            after,
            with_slacks(input, x),
        ),
        sharp_rates(after) ==> after.cur_obj_val.val() <= objective(input, x),
{
    outcome_holds_program(input, s, after);
    start_is_sound(input, s);
    let z = with_slacks(input, x);
    feasible_extends(input, after, x);
    optimum_is_best(s, after, z);
    worth_is_objective(input, after, z);
    worth_is_objective(input, after, after.point());
}

/// The point with its slack variables, and without artificial ones.
spec fn without_artificial<T: Scalar>(
    input: Input<T>,
    x: spec_fn(int) -> real,
) -> spec_fn(int) -> real {
    |v: int|
        if v < input.n() + input.slacks(input.m()) {
            with_slacks(input, x)(v)
        } else {
            0 as real
        }
}

/// A feasible point of the program, with its slack variables and without artificial ones, is one
/// for the first solver.
proof fn feasible_at_start<T: Scalar>(input: Input<T>, s: Solver<T>, x: spec_fn(int) -> real)
    requires
        exact::<T>(),
        input.wf(),
        finite_input(input),
        started(input, s),
        s.wf(),
        feasible(input, x),
    ensures
        on_constraints(s, without_artificial(input, x)),
        within_limits(s, without_artificial(input, x)),
{
    let z = without_artificial(input, x);
    let limit = input.n() + input.slacks(input.m());
    let n = input.obj.len();
    let mat = s.orig_constraints_csc;
    let rows = s.orig_constraints;
    input.live_facts(input.constraints.len() as int);
    input.counts(0, input.m());
    assert forall|i: int| 0 <= i < s.m() implies sum(
        lhs_terms(mat, z, i),
        s.total() as nat,
    ) == (#[trigger] s.orig_bounds@[i]).val() by {
        let j = input.source(i);
        let f = lhs_terms(mat, z, i);
        let g = coeff_terms(input, j, x);
        let k = input.slack_var(i);
        input.counts(0, i);
        input.counts(i, input.m());
        let f0 = |v: int|
            if input.is_ineq(j) && v == k {
                0 as real
            } else {
                f(v)
            };
        assert forall|v: int| n <= v < s.total() implies #[trigger] f0(v) == 0 as real by {
            if !(input.is_ineq(j) && v == k) {
                assert(mat.line(v, i) == rows.line(i, v));
                assert(rows.line(i, v) == input.entry(i, v));
                times_zero(z(v));
                times_zero(mat.line(v, i).val());
            }
        }
        sum_longer(f0, n, s.total() as nat);
        assert forall|v: int| 0 <= v < n implies #[trigger] f0(v) == g(v) by {
            assert(mat.line(v, i) == rows.line(i, v));
            assert(rows.line(i, v) == input.entry(i, v));
        }
        sum_same(f0, g, n);
        assert(constraint_met(input, j, x));
        assert(s.orig_bounds@[i] == input.bound(j));
        if input.is_ineq(j) {
            sum_but_one(f0, f, s.total() as nat, k);
            assert(mat.line(k, i) == rows.line(i, k));
            assert(rows.line(i, k) == input.entry(i, k));
            assert(input.is_ineq(input.source(i)) && input.slack_var(i) == k);
            let r = slack_row(input, k);
            slack_is_own(input, r, i);
            let (a, d) = (input.slack_coeff(j).val(), input.bound(j).val() - lhs_at(input, j, x));
            assert(z(k) == a * d);
            slack_coeff_is_unit(input, j);
            assert(a * (a * d) == d) by (nonlinear_arith)
                requires
                    a == 1 as real || a == -1 as real,
            ;
        } else {
            sum_same(f0, f, s.total() as nat);
        }
    }
    assert forall|v: int| 0 <= v < s.total() implies {
        let (min, max) = (s.orig_var_mins@[v], s.orig_var_maxs@[v]);
        &&& min.finite() ==> min.val() <= #[trigger] z(v)
        &&& max.finite() ==> z(v) <= max.val()
        &&& s.set_vars@.contains_key(v as usize) ==> z(v) == s.set_vars@[v as usize].val()
    } by {
        if v < n {
            assert(z(v) == x(v));
            assert(input.mins[v].finite() ==> input.mins[v].val() <= x(v));
        } else if v < limit {
            let r = row_of_slack(input, v, input.m());
            assert(input.is_ineq(input.source(r)) && input.slack_var(r) == v);
            let i = slack_row(input, v);
            let j = input.source(i);
            assert(constraint_met(input, j, x));
            slack_coeff_is_unit(input, j);
            let (a, d) = (input.slack_coeff(j).val(), input.bound(j).val() - lhs_at(input, j, x));
            assert((1 as real) * d == d && (-1 as real) * d == -d) by (nonlinear_arith);
        }
    }
}

/// Where an optimization calls the program infeasible, and no reduced cost is lost in the tolerance
/// at the end, the program has no feasible point.
pub proof fn infeasible_has_no_point<T: Scalar>(
    input: Input<T>,
    s: Solver<T>,
    after: Solver<T>,
    x: spec_fn(int) -> real,
)
    requires
        exact::<T>(),
        input.wf(),
        finite_input(input),
        !input.infeasible(),
        started(input, s),
        s.wf(),
        finite_vertex(s),
        all_finite(s.basis_solver.lu_factors.lower),
        all_finite(s.basis_solver.lu_factors.upper),
        optimized(s, after, Err(Error::Infeasible)),
        finite_run(s, after, Err(Error::Infeasible)),
        finite_rates(after),
        sharp_rates(after),
    ensures
        !feasible(input, x),
{
    if feasible(input, x) {
        let z = without_artificial(input, x);
        start_is_sound(input, s);
        feasible_at_start(input, s, x);
        let e = Err::<(), Error>(Error::Infeasible);
        assert(bfs_found(s, after, e));
        let p = choose|p: Seq<Solver<T>>| #[trigger] bfs_found_by(p, s, after, e);
        program_stays(p, p.len() - 1);
        same_limits(s, after, z);
        infeasible_verdict_is_right(s, after, z);
    }
}

/// A program that is refused at once has no feasible point.
pub proof fn refused_has_no_point<T: Scalar>(input: Input<T>, x: spec_fn(int) -> real)
    requires
        exact::<T>(),
        input.wf(),
        finite_input(input),
        input.infeasible(),
        forall|v: int|
            0 <= v < input.n() && #[trigger] input.maxs[v].less_spec(input.mins[v])
                ==> input.mins[v].finite() && input.maxs[v].finite(),
    ensures
        !feasible(input, x),
{
    if feasible(input, x) {
        if exists|v: int|
            0 <= v < input.n() && #[trigger] input.maxs[v].less_spec(input.mins[v]) {
            let v = choose|v: int|
                0 <= v < input.n() && #[trigger] input.maxs[v].less_spec(input.mins[v]);
            assert(input.mins[v].val() <= x(v) && x(v) <= input.maxs[v].val());
        } else {
            let j = choose|j: int|
                0 <= j < input.constraints.len() && (#[trigger] input.constraints[j]).0.indices@.len()
                    == 0 && !tautology(input.constraints[j].1, input.constraints[j].2);
            let c = input.constraints[j];
            assert(c.2.finite());
            let g = coeff_terms(input, j, x);
            assert forall|v: int| 0 <= v < input.n() implies #[trigger] g(v) == 0 as real by {
                assert(!c.0.stores(v));
                times_zero(x(v));
            }
            sum_zero(g, input.obj.len());
            assert(constraint_met(input, j, x));
        }
    }
}

/// The search for a first feasible vertex does not end without a bound: the artificial variables
/// cannot cost less than nothing.
pub proof fn first_phase_is_bounded<T: Scalar>(
    before: Solver<T>,
    after: Solver<T>,
    e: spec_fn(int) -> real,
)
    requires
        exact::<T>(),
        T::tolerance_spec().val() > 0 as real,
        before.num_artificial_vars > 0,
        sound(before),
        limits_in_order(before),
        sets_within(before),
        misses_by(before, e),
        forall|p: Seq<Solver<T>>| #[trigger]
            bfs_found_by(p, before, after, Err(Error::Unbounded)) ==> finite_choices(p) && endless(
                p.last(),
                after,
            ),
    ensures
        !bfs_found(before, after, Err(Error::Unbounded)),
{
    if bfs_found(before, after, Err(Error::Unbounded)) {
        let p = choose|p: Seq<Solver<T>>| #[trigger]
            bfs_found_by(p, before, after, Err(Error::Unbounded));
        let t = path_has_trail(p);
        let k = p.len() - 1;
        let s = p.last();
        t.keeps(k);
        t.drifts(e, k);
        let f = t.drift(e);
        let g = miss_of(s, f);
        let total = s.total() as nat;
        let h = |v: int|
            if v >= s.art_start() {
                g(v)
            } else {
                0 as real
            };
        let w = sum(h, total) + 1 as real;
        let z = ray_is_endless(s, after, f, w);
        let terms = s.worth_terms(z);
        assert forall|v: int| 0 <= v < total implies #[trigger] terms(v) <= h(v) by {
            if v >= s.art_start() {
                assert(s.orig_var_mins@[v] == T::zero_spec());
                assert(s.orig_var_mins@[v].finite() ==> s.orig_var_mins@[v].val() - g(v) <= z(v));
                let y = z(v);
                assert((-1 as real) * y == -y) by (nonlinear_arith);
            } else {
                times_zero(z(v));
            }
        }
        sum_at_most(terms, h, total);
    }
}

/// The numbers are finite on every way that an optimization which ends without a bound can have
/// gone, and those of the column that may enter are not passed over.
pub open spec fn finite_escape<T: Scalar>(before: Solver<T>, after: Solver<T>) -> bool {
    let e = Err::<(), Error>(Error::Unbounded);
    if before.num_artificial_vars == 0 {
        forall|p: Seq<Solver<T>>| #[trigger]
            climbed_by(p, before, after, e) ==> finite_choices(p) && endless(p.last(), after)
    } else {
        &&& forall|p: Seq<Solver<T>>| #[trigger]
            bfs_found_by(p, before, after, e) ==> finite_choices(p) && endless(p.last(), after)
        &&& forall|start: Solver<T>| #[trigger]
            bfs_found(before, start, Ok(())) && climbed(start, after, e) ==> {
                &&& finite_first_phase(before, start)
                &&& forall|p: Seq<Solver<T>>| #[trigger]
                    climbed_by(p, start, after, e) ==> finite_choices(p) && endless(
                        p.last(),
                        after,
                    )
            }
    }
}

/// `g` is what the tolerance adds up to over an optimization that ends without a bound.
pub open spec fn escape_strays<T: Scalar>(
    before: Solver<T>,
    after: Solver<T>,
    g: spec_fn(int) -> real,
) -> bool {
    if before.num_artificial_vars == 0 {
        exists|t: Trail<T>| #[trigger]
            t.escapes(before, after) && g == miss_of(t.path.last(), t.drift(nothing()))
    } else {
        exists|t: Trail<T>, start: Solver<T>, u: Trail<T>|
            #![trigger t.finds(before, start), u.escapes(start, after)]
            t.finds(before, start) && u.escapes(start, after) && g == miss_of(
                u.path.last(),
                u.drift(t.drift(nothing())),
            )
    }
}

/// On no way that an optimization which ends without a bound can have gone is a difference lost in
/// the tolerance.
pub open spec fn sharp_escape<T: Scalar>(before: Solver<T>, after: Solver<T>) -> bool {
    if before.num_artificial_vars == 0 {
        forall|t: Trail<T>| #[trigger] t.escapes(before, after) ==> t.sharp()
    } else {
        forall|t: Trail<T>, start: Solver<T>, u: Trail<T>|
            #![trigger t.finds(before, start), u.escapes(start, after)]
            t.finds(before, start) && u.escapes(start, after) ==> t.sharp() && u.sharp()
    }
}

/// Where an optimization calls the objective unbounded, there are points with an objective as small
/// as one likes that meet the limits and all constraints of the program, but for what the tolerance
/// adds up to; where no difference is lost in the tolerance, they are feasible.
pub proof fn unbounded_has_no_least<T: Scalar>(
    input: Input<T>,
    s: Solver<T>,
    after: Solver<T>,
    w: real,
)
    requires
        exact::<T>(),
        T::tolerance_spec().val() > 0 as real,
        input.wf(),
        finite_input(input),
        !input.infeasible(),
        started(input, s),
        s.wf(),
        finite_vertex(s),
        all_finite(s.basis_solver.lu_factors.lower),
        all_finite(s.basis_solver.lu_factors.upper),
        optimized(s, after, Err(Error::Unbounded)),
        finite_escape(s, after),
    ensures
        exists|g: spec_fn(int) -> real, x: spec_fn(int) -> real|
            #![trigger escape_strays(s, after, g), feasible_but_for(input, x, g)]
            escape_strays(s, after, g) && feasible_but_for(input, x, g) && objective(input, x) <= w,
        sharp_escape(s, after) ==> exists|x: spec_fn(int) -> real| #[trigger]
            feasible(input, x) && objective(input, x) <= w,
{
    let none = nothing();
    let bad = Err::<(), Error>(Error::Unbounded);
    start_is_in_order(input, s);
    within_misses_nothing(s, none);
    if s.num_artificial_vars == 0 {
        start_holds_program(input, s);
        unbounded_verdict_is_right(s, after, none, -w);
        let (t, z) = choose|t: Trail<T>, z: spec_fn(int) -> real|
            #![trigger t.escapes(s, after), on_constraints(s, z)]
            t.escapes(s, after) && on_constraints(s, z) && nearly_within(
                s,
                z,
                miss_of(t.path.last(), t.drift(none)),
            ) && s.worth(z) >= -w;
        let g = miss_of(t.path.last(), t.drift(none));
        meets_program(input, s, z, g);
        worth_is_objective(input, s, z);
        assert(escape_strays(s, after, g) && feasible_but_for(input, z, g));
        if sharp_escape(s, after) {
            small_enough(input, s, w);
        }
    } else {
        first_phase_is_bounded(s, after, none);
        let start = choose|start: Solver<T>| #[trigger]
            bfs_found(s, start, Ok(())) && climbed(start, after, bad);
        let q = choose|q: Seq<Solver<T>>| #[trigger] climbed_by(q, start, after, bad);
        assert(q[0].wf());
        first_phase_drifts(s, start, none);
        found_holds_program(input, s, start);
        assert(sets_within(start));
        let t = choose|t: Trail<T>| #[trigger]
            t.finds(s, start) && misses_by(start, t.drift(none));
        unbounded_verdict_is_right(start, after, t.drift(none), -w);
        let (u, z) = choose|u: Trail<T>, z: spec_fn(int) -> real|
            #![trigger u.escapes(start, after), on_constraints(start, z)]
            u.escapes(start, after) && on_constraints(start, z) && nearly_within(
                start,
                z,
                miss_of(u.path.last(), u.drift(t.drift(none))),
            ) && start.worth(z) >= -w;
        let g = miss_of(u.path.last(), u.drift(t.drift(none)));
        meets_program(input, start, z, g);
        worth_is_objective(input, start, z);
        assert(t.finds(s, start) && u.escapes(start, after));
        assert(escape_strays(s, after, g) && feasible_but_for(input, z, g));
        if sharp_escape(s, after) {
            assert forall|t: Trail<T>| #[trigger] t.finds(s, start) implies t.sharp() by {
                assert(t.finds(s, start) && u.escapes(start, after));
            }
            assert forall|u: Trail<T>| #[trigger] u.escapes(start, after) implies u.sharp() by {
                assert(t.finds(s, start) && u.escapes(start, after));
            }
            small_enough(input, start, w);
        }
    }
}

proof fn small_enough<T: Scalar>(input: Input<T>, t: Solver<T>, w: real)
    requires
        exact::<T>(),
        input.wf(),
        finite_input(input),
        !input.infeasible(),
        holds_program(input, t),
        exists|z: spec_fn(int) -> real| #[trigger]
            on_constraints(t, z) && within_limits(t, z) && t.worth(z) >= -w,
    ensures
        exists|x: spec_fn(int) -> real| #[trigger] feasible(input, x) && objective(input, x) <= w,
{
    let x = choose|z: spec_fn(int) -> real| #[trigger]
        on_constraints(t, z) && within_limits(t, z) && t.worth(z) >= -w;
    let none = nothing();
    assert forall|v: int| 0 <= v < t.total() implies {
        let (min, max) = (t.orig_var_mins@[v], t.orig_var_maxs@[v]);
        &&& min.finite() ==> min.val() - none(v) <= #[trigger] x(v)
        &&& max.finite() ==> x(v) <= max.val() + none(v)
        &&& t.set_vars@.contains_key(v as usize) ==> x(v) == t.set_vars@[v as usize].val()
    } by {
        assert(t.orig_var_mins@[v].finite() ==> t.orig_var_mins@[v].val() <= x(v));
    }
    meets_program(input, t, x, none);
    feasible_for_nothing(input, x, none);
    worth_is_objective(input, t, x);
    assert(feasible(input, x) && objective(input, x) <= w);
}

} // verus!
