//! The best vertex, where arithmetic is exact.
use crate::phases::{climbed_by, is_optimal};
use crate::scalar::{abs_real, exact, Scalar};
use crate::simplex::{Solver, SENTINEL};
use crate::steps::{finite_primal_path, primal_path_keeps};
use crate::sums::{
    sum, sum_plus, sum_same, sum_swap, sum_times, sum_zero, times_zero,
};
use crate::vertex::{at_limit, lhs_terms, on_constraints, over, price, price_terms, sound};
use vstd::prelude::*;

verus! {

/// The point is within the limits, with the variables that are set at their values.
pub open spec fn within_limits<T: Scalar>(s: Solver<T>, z: spec_fn(int) -> real) -> bool {
    forall|v: int|
        0 <= v < s.total() ==> {
            let (min, max) = (s.orig_var_mins@[v], s.orig_var_maxs@[v]);
            &&& min.finite() ==> min.val() <= #[trigger] z(v)
            &&& max.finite() ==> z(v) <= max.val()
            &&& s.set_vars@.contains_key(v as usize) ==> z(v) == s.set_vars@[v as usize].val()
        }
}

/// The distances of the non-basic variables.
pub open spec fn gaps<T: Scalar>(s: Solver<T>, z: spec_fn(int) -> real) -> spec_fn(int) -> real {
    |c: int| abs_real(z(s.non_basic_vars@[c] as int) - s.non_basic_vals@[c].val())
}

/// How far a point is from the vertex, in the non-basic variables.
pub open spec fn distance<T: Scalar>(s: Solver<T>, z: spec_fn(int) -> real) -> real {
    sum(gaps(s, z), s.non_basic_vars@.len())
}

/// The terms of the product of the multipliers and the right-hand side.
pub open spec fn dual_terms<T: Scalar>(s: Solver<T>, y: Seq<real>) -> spec_fn(int) -> real {
    |i: int| y[i] * s.orig_bounds@[i].val()
}

/// The terms of the reduced costs.
pub open spec fn reduced_terms<T: Scalar>(
    s: Solver<T>,
    z: spec_fn(int) -> real,
) -> spec_fn(int) -> real {
    |c: int| s.cur_obj@[c].val() * z(s.non_basic_vars@[c] as int)
}

/// The terms of the variables of a point, each times its price.
pub open spec fn priced_terms<T: Scalar>(
    s: Solver<T>,
    y: Seq<real>,
    z: spec_fn(int) -> real,
) -> spec_fn(int) -> real {
    |v: int| price(s.orig_constraints_csc, v, y) * z(v)
}

/// The prices of the variables of a point on the constraints add up to those of the right-hand
/// sides.
pub proof fn prices_add_up<T: Scalar>(s: Solver<T>, y: Seq<real>, z: spec_fn(int) -> real)
    requires
        s.wf(),
        y.len() == s.m(),
        on_constraints(s, z),
    ensures
        sum(priced_terms(s, y, z), s.total() as nat) == sum(dual_terms(s, y), s.m() as nat),
{
    let mat = s.orig_constraints_csc;
    let total = s.total() as nat;
    let m = s.m() as nat;
    let f = |v: int, i: int| (mat.line(v, i).val() * y[i]) * z(v);
    let prices = priced_terms(s, y, z);
    let rows = |v: int| sum(|i: int| f(v, i), m);
    assert forall|v: int| 0 <= v < total implies #[trigger] prices(v) == rows(v) by {
        let t = price_terms(mat, v, y);
        let g = |i: int| f(v, i);
        assert forall|i: int| 0 <= i < m implies #[trigger] g(i) == z(v) * t(i) by {
            let (p, q) = (t(i), z(v));
            assert(p * q == q * p) by (nonlinear_arith);
        }
        sum_times(z(v), t, g, m);
        let (p, q) = (sum(t, m), z(v));
        assert(p * q == q * p) by (nonlinear_arith);
    }
    sum_same(prices, rows, total);
    sum_swap(f, total, m);
    let cols = |i: int| sum(|v: int| f(v, i), total);
    let duals = dual_terms(s, y);
    assert forall|i: int| 0 <= i < m implies #[trigger] cols(i) == duals(i) by {
        let t = lhs_terms(mat, z, i);
        let g = |v: int| f(v, i);
        assert forall|v: int| 0 <= v < total implies #[trigger] g(v) == y[i] * t(v) by {
            let (p, q, r) = (mat.line(v, i).val(), y[i], z(v));
            assert((p * q) * r == q * (p * r)) by (nonlinear_arith);
        }
        sum_times(y[i], t, g, total);
        assert(sum(t, total) == s.orig_bounds@[i].val());
    }
    sum_same(cols, duals, m);
}

/// What a point on the constraints is worth depends on its non-basic variables alone.
pub proof fn worth_of_reduced<T: Scalar>(s: Solver<T>, y: Seq<real>, z: spec_fn(int) -> real)
    requires
        s.wf(),
        s.priced(y),
        on_constraints(s, z),
    ensures
        s.worth(z) == sum(dual_terms(s, y), s.m() as nat) + sum(
            reduced_terms(s, z),
            s.non_basic_vars@.len(),
        ),
{
    let mat = s.orig_constraints_csc;
    let total = s.total() as nat;
    let m = s.m() as nat;
    let n = s.non_basic_vars@.len();
    let prices = priced_terms(s, y, z);
    prices_add_up(s, y, z);
    // what is left is due to the non-basic variables
    let left = |v: int| (s.cost(v) - price(mat, v, y)) * z(v);
    let worths = s.worth_terms(z);
    assert forall|v: int| 0 <= v < total implies #[trigger] worths(v) == prices(v) + left(v) by {
        let (p, q, r) = (s.cost(v), price(mat, v, y), z(v));
        assert(p * r == q * r + (p - q) * r) by (nonlinear_arith);
    }
    sum_plus(prices, left, worths, total);
    s.split(left);
    let basics = over(left, s.basic_vars@);
    assert forall|r: int| 0 <= r < m implies #[trigger] basics(r) == 0 as real by {
        let v = s.basic_vars@[r] as int;
        assert(s.cost(v) == price(mat, v, y));
        times_zero(z(v));
    }
    sum_zero(basics, m);
    let rest = over(left, s.non_basic_vars@);
    let reduced = reduced_terms(s, z);
    assert forall|c: int| 0 <= c < n implies #[trigger] rest(c) == reduced(c) by {
        assert(s.cur_obj@[c].val() == s.cost(s.non_basic_vars@[c] as int) - price(
            mat,
            s.non_basic_vars@[c] as int,
            y,
        ));
    }
    sum_same(rest, reduced, n);
}

/// No non-basic variable improves the objective.
pub open spec fn none_may_enter<T: Scalar>(s: Solver<T>) -> bool {
    forall|c: int| 0 <= c < s.cur_obj@.len() ==> !#[trigger] s.may_enter(c)
}

/// The rates and scores of the columns are finite.
pub open spec fn finite_rates<T: Scalar>(s: Solver<T>) -> bool {
    forall|c: int|
        0 <= c < s.cur_obj@.len() ==> (#[trigger] s.direction(c)).finite() && s.score(c).finite()
}

proof fn empty_scan<T: Scalar>(s: Solver<T>, k: int)
    requires
        exact::<T>(),
        finite_rates(s),
        0 <= k <= s.cur_obj@.len(),
        s.entering_scan(k).col is None,
    ensures
        s.entering_scan(k).score == T::neg_infinity_spec(),
        forall|c: int| 0 <= c < k ==> !#[trigger] s.may_enter(c),
    decreases k,
{
    if k > 0 {
        empty_scan(s, k - 1);
        assert(s.direction(k - 1).finite());
        assert(T::neg_infinity_spec().less_spec(s.score(k - 1)));
    }
}

/// Where the search finds no column, there is none.
pub proof fn optimal_has_none<T: Scalar>(s: Solver<T>)
    requires
        exact::<T>(),
        finite_rates(s),
        is_optimal(s),
    ensures
        none_may_enter(s),
{
    empty_scan(s, s.cur_obj@.len() as int);
}

pub proof fn sum_at_most(f: spec_fn(int) -> real, g: spec_fn(int) -> real, n: nat)
    requires
        forall|i: int| 0 <= i < n ==> #[trigger] f(i) <= g(i),
    ensures
        sum(f, n) <= sum(g, n),
    decreases n,
{
    if n > 0 {
        sum_at_most(f, g, (n - 1) as nat);
        assert(f(n - 1) <= g(n - 1));
    }
}

/// Where no variable may enter, no other point that meets the constraints and limits is worth
/// more, but for the tolerance times its distance.
pub proof fn vertex_is_best<T: Scalar>(s: Solver<T>, z: spec_fn(int) -> real)
    requires
        exact::<T>(),
        sound(s),
        none_may_enter(s),
        finite_rates(s),
        on_constraints(s, z),
        within_limits(s, z),
    ensures
        s.worth(z) <= s.worth(s.point()) + T::tolerance_spec().val() * distance(s, z),
{
    let y = choose|y: Seq<real>| s.priced(y);
    let x = s.point();
    let n = s.non_basic_vars@.len();
    let tol = T::tolerance_spec().val();
    worth_of_reduced(s, y, z);
    worth_of_reduced(s, y, x);
    let (f, g) = (reduced_terms(s, z), reduced_terms(s, x));
    let gap = gaps(s, z);
    let slack = |c: int| tol * gap(c);
    let bound = |c: int| g(c) + slack(c);
    assert forall|c: int| 0 <= c < n implies #[trigger] f(c) <= bound(c) by {
        let var = s.non_basic_vars@[c];
        let v = var as int;
        let d = s.cur_obj@[c].val();
        assert(s.non_basic_vars_inv@[v] == c);
        assert((s.basic_vars_inv@[v] == SENTINEL) != (s.non_basic_vars_inv@[v] == SENTINEL));
        let (p, q) = (z(v), s.non_basic_vals@[c].val());
        assert(x(v) == q);
        assert(at_limit(s, c));
        assert(s.non_basic_vals@[c].finite());
        assert(s.cur_obj@[c].finite());
        assert(!s.may_enter(c));
        assert(s.direction(c).finite());
        let (min, max) = (s.orig_var_mins@[v], s.orig_var_maxs@[v]);
        assert(v as usize == var);
        if s.set_vars@.contains_key(var) {
            times_zero(tol);
        } else if s.non_basic_vals@[c].same_spec(min) {
            assert(min.val() <= z(v));
            assert(d * p <= d * q + tol * (p - q)) by (nonlinear_arith)
                requires
                    d < tol,
                    p >= q,
            ;
        } else {
            assert(max.finite() && q == max.val());
            assert(z(v) <= max.val());
            assert(d * p <= d * q + tol * (q - p)) by (nonlinear_arith)
                requires
                    -d < tol,
                    p <= q,
            ;
        }
    }
    sum_at_most(f, bound, n);
    sum_plus(g, slack, bound, n);
    sum_times(tol, gap, slack, n);
}

/// An optimization that succeeds ends at a best vertex: no other point that meets the constraints
/// and limits is worth more, but for the tolerance times its distance.
pub proof fn climb_finds_best<T: Scalar>(
    path: Seq<Solver<T>>,
    before: Solver<T>,
    after: Solver<T>,
    z: spec_fn(int) -> real,
)
    requires
        exact::<T>(),
        climbed_by(path, before, after, Ok(())),
        finite_primal_path(path),
        sound(before),
        finite_rates(after),
        on_constraints(before, z),
        within_limits(before, z),
    ensures
        sound(after),
        after.worth(z) <= after.worth(after.point()) + T::tolerance_spec().val() * distance(
            after,
            z,
        ),
{
    primal_path_keeps(path, path.len() - 1);
    optimal_has_none(after);
    assert forall|i: int| 0 <= i < after.m() implies sum(
        lhs_terms(after.orig_constraints_csc, z, i),
        after.total() as nat,
    ) == (#[trigger] after.orig_bounds@[i]).val() by {
        assert(before.orig_bounds@[i].val() == after.orig_bounds@[i].val());
    }
    vertex_is_best(after, z);
}

/// The variable in column `c`, unless it is set, is at the limit that its reduced cost wants.
pub open spec fn sign_fits<T: Scalar>(s: Solver<T>, c: int) -> bool {
    let v = s.non_basic_vars@[c];
    let x = s.non_basic_vals@[c].val();
    let (min, max) = (s.orig_var_mins@[v as int], s.orig_var_maxs@[v as int]);
    !s.set_vars@.contains_key(v) ==> {
        &&& s.cur_obj@[c].val() < 0 as real ==> min.finite() && x == min.val()
        &&& s.cur_obj@[c].val() > 0 as real ==> max.finite() && x == max.val()
    }
}

/// No non-basic variable could improve the objective by leaving its limit.
pub open spec fn signs_fit<T: Scalar>(s: Solver<T>) -> bool {
    forall|c: int| 0 <= c < s.cur_obj@.len() ==> #[trigger] sign_fits(s, c)
}

/// No reduced cost is lost in the tolerance.
pub open spec fn sharp_rates<T: Scalar>(s: Solver<T>) -> bool {
    forall|c: int|
        0 <= c < s.cur_obj@.len() && abs_real((#[trigger] s.cur_obj@[c]).val())
            < T::tolerance_spec().val() ==> s.cur_obj@[c].val() == 0 as real
}

/// At an optimum the signs of the reduced costs fit, where none is lost in the tolerance.
pub proof fn optimum_fits<T: Scalar>(s: Solver<T>)
    requires
        exact::<T>(),
        sound(s),
        finite_rates(s),
        is_optimal(s),
        sharp_rates(s),
    ensures
        signs_fit(s),
{
    optimal_has_none(s);
    assert forall|c: int| 0 <= c < s.cur_obj@.len() implies #[trigger] sign_fits(s, c) by {
        assert(!s.may_enter(c));
        assert(s.direction(c).finite());
        assert(at_limit(s, c));
        assert(s.cur_obj@[c].finite());
        assert(s.non_basic_vals@[c].finite());
        assert(abs_real(s.cur_obj@[c].val()) < T::tolerance_spec().val() ==> s.cur_obj@[c].val()
            == 0 as real);
    }
}

/// Where the signs fit, no other point that meets the constraints and limits is worth more.
pub proof fn fitting_is_best<T: Scalar>(s: Solver<T>, z: spec_fn(int) -> real)
    requires
        exact::<T>(),
        sound(s),
        signs_fit(s),
        on_constraints(s, z),
        within_limits(s, z),
    ensures
        s.worth(z) <= s.worth(s.point()),
{
    let y = choose|y: Seq<real>| s.priced(y);
    let x = s.point();
    let n = s.non_basic_vars@.len();
    worth_of_reduced(s, y, z);
    worth_of_reduced(s, y, x);
    let (f, g) = (reduced_terms(s, z), reduced_terms(s, x));
    assert forall|c: int| 0 <= c < n implies #[trigger] f(c) <= g(c) by {
        let var = s.non_basic_vars@[c];
        let v = var as int;
        let d = s.cur_obj@[c].val();
        assert(s.non_basic_vars_inv@[v] == c);
        assert((s.basic_vars_inv@[v] == SENTINEL) != (s.non_basic_vars_inv@[v] == SENTINEL));
        let (p, q) = (z(v), s.non_basic_vals@[c].val());
        assert(x(v) == q);
        assert(at_limit(s, c));
        assert(sign_fits(s, c));
        assert(v as usize == var);
        let (min, max) = (s.orig_var_mins@[v], s.orig_var_maxs@[v]);
        assert(min.finite() ==> min.val() <= z(v));
        assert(max.finite() ==> z(v) <= max.val());
        if s.set_vars@.contains_key(var) {
            assert(p == q);
        } else {
            assert(d * p <= d * q) by (nonlinear_arith)
                requires
                    d < 0 as real ==> p >= q,
                    d > 0 as real ==> p <= q,
            ;
        }
    }
    sum_at_most(f, g, n);
}

/// An optimization that succeeds, and in which no reduced cost is lost in the tolerance at the end,
/// finds a best vertex: no other point that meets the constraints and limits is worth more.
pub proof fn sharp_climb_finds_best<T: Scalar>(
    path: Seq<Solver<T>>,
    before: Solver<T>,
    after: Solver<T>,
    z: spec_fn(int) -> real,
)
    requires
        exact::<T>(),
        climbed_by(path, before, after, Ok(())),
        finite_primal_path(path),
        sound(before),
        finite_rates(after),
        sharp_rates(after),
        on_constraints(before, z),
        within_limits(before, z),
    ensures
        sound(after),
        after.worth(z) <= after.worth(after.point()),
{
    primal_path_keeps(path, path.len() - 1);
    optimum_fits(after);
    assert forall|i: int| 0 <= i < after.m() implies sum(
        lhs_terms(after.orig_constraints_csc, z, i),
        after.total() as nat,
    ) == (#[trigger] after.orig_bounds@[i]).val() by {
        assert(before.orig_bounds@[i].val() == after.orig_bounds@[i].val());
    }
    fitting_is_best(after, z);
}

} // verus!
