//! What the dual method keeps and finds, where arithmetic is exact.
use crate::cuts::{row_form, row_gives_basic};
use crate::edited::{extended_is_sound, finite_misses, marked_is_consistent};
use crate::edits::{extended, value_moved_from, with_set, without_set};
use crate::error::Error;
use crate::optimum::{sign_fits, signs_fit, sum_at_most, within_limits};
use crate::phases::{
    dual_path, dual_step, exit_made, left_basis, restored_by, worst_row,
};
use crate::pivot::shifted_obj;
use crate::renewed::{factored_basis, sharp_bounds};
use crate::scalar::{abs_real, exact, Scalar};
use crate::simplex::{row_coeffs_of, RelOp, Solver, SENTINEL};
use crate::solve::finite_items;
use crate::sparse::CsVec;
use crate::steps::{exit_keeps, finite_exit};
use crate::sums::times_zero;
use crate::vertex::{at_limit, consistent, finite_vertex, lhs_terms, on_constraints, sound};
use vstd::prelude::*;

verus! {

/// The column is passed over because its coefficient is within the tolerance.
pub open spec fn negligible<T: Scalar>(s: Solver<T>, c: int) -> bool {
    s.row_coeffs.values@[c].absolute_spec().less_spec(T::tolerance_spec())
}

/// No coefficient of the row is lost in the tolerance.
pub open spec fn sharp_row<T: Scalar>(s: Solver<T>) -> bool {
    forall|c: int|
        0 <= c < s.row_coeffs.values@.len() && #[trigger] negligible(s, c)
            ==> s.row_coeffs.values@[c].val() == 0 as real
}

/// What a column of the row costs.
pub open spec fn cost_ratio<T: Scalar>(s: Solver<T>, c: int) -> T {
    s.cur_obj@[c].over_spec(s.row_coeffs.values@[c]).absolute_spec()
}

/// The numbers that the choice of a column works with are finite.
pub open spec fn finite_costs<T: Scalar>(s: Solver<T>) -> bool {
    forall|c: int|
        0 <= c < s.row_coeffs.values@.len() ==> (
        #[trigger] s.row_coeffs.values@[c]).absolute_spec().finite() && (negligible(s, c)
            || cost_ratio(s, c).finite())
}

/// The column may enter when the variable of the row leaves upwards or downwards.
pub open spec fn eligible<T: Scalar>(s: Solver<T>, up: bool, c: int) -> bool {
    &&& !negligible(s, c)
    &&& !s.improves(s.row_coeffs.values@[c], s.cur_obj@[c], up)
    &&& !s.set_vars@.contains_key(s.non_basic_vars@[c])
}

/// Where the search finds no column, none of those that it looked at is eligible.
pub proof fn no_column<T: Scalar>(s: Solver<T>, up: bool, k: int)
    requires
        exact::<T>(),
        s.wf(),
        finite_costs(s),
        0 <= k <= s.row_coeffs.nonzero@.len(),
        s.dual_entering_scan(up, k).col is None,
    ensures
        s.dual_entering_scan(up, k).diff == T::infinity_spec(),
        s.dual_entering_scan(up, k).coeff_abs == T::neg_infinity_spec(),
        forall|p: int|
            0 <= p < k ==> !eligible(s, up, #[trigger] s.row_coeffs.nonzero@[p] as int),
    decreases k,
{
    if k > 0 {
        no_column(s, up, k - 1);
        let c = s.row_coeffs.nonzero@[k - 1] as int;
        assert(s.row_coeffs.values@[c].absolute_spec().finite());
        if eligible(s, up, c) {
            assert(cost_ratio(s, c).finite());
            assert(s.enters_before(
                s.dual_entering_scan(up, k - 1),
                c as usize,
                cost_ratio(s, c),
                s.row_coeffs.values@[c].absolute_spec(),
            ));
        }
    }
}

/// The non-basic variables are within their limits, and those that are set have their values.
pub open spec fn rest_within_limits<T: Scalar>(s: Solver<T>, z: spec_fn(int) -> real) -> bool {
    forall|c: int|
        0 <= c < s.non_basic_vars@.len() ==> {
            let v = #[trigger] s.non_basic_vars@[c];
            let (min, max) = (s.orig_var_mins@[v as int], s.orig_var_maxs@[v as int]);
            &&& min.finite() ==> min.val() <= z(v as int)
            &&& max.finite() ==> z(v as int) <= max.val()
            &&& s.set_vars@.contains_key(v) ==> z(v as int) == s.set_vars@[v].val()
        }
}

/// Where no variable can enter for the one in row `row`, all points that meet the constraints and
/// the limits of the non-basic variables have that variable on this side of its value.
pub proof fn row_is_blocked<T: Scalar>(
    s: Solver<T>,
    mid: Solver<T>,
    row: usize,
    val: T,
    z: spec_fn(int) -> real,
)
    requires
        exact::<T>(),
        consistent(s),
        signs_fit(s),
        row < s.m(),
        mid.wf(),
        mid.same_program(s),
        mid.same_vertex(s),
        row_coeffs_of(s, mid, row),
        mid.dual_entering(row, val) is Err,
        finite_items(mid.basis_solver.rhs.values@),
        finite_items(mid.row_coeffs.values@),
        finite_costs(mid),
        sharp_row(mid),
        on_constraints(s, z),
        rest_within_limits(s, z),
    ensures
        s.cur_bounds@[row as int].less_spec(val) ==> z(s.basic_vars@[row as int] as int)
            <= s.cur_bounds@[row as int].val(),
        !s.cur_bounds@[row as int].less_spec(val) ==> z(s.basic_vars@[row as int] as int)
            >= s.cur_bounds@[row as int].val(),
{
    let up = s.cur_bounds@[row as int].less_spec(val);
    let x = s.point();
    let rho = mid.basis_solver.rhs.values@;
    let alpha = mid.row_coeffs.values@;
    let rest = s.non_basic_vars@;
    let y = Seq::new(s.m() as nat, |i: int| rho[i].val());
    let b = s.basic_vars@[row as int] as int;
    row_gives_basic(s, row as int, rho, alpha, x, y);
    row_gives_basic(s, row as int, rho, alpha, z, y);
    no_column(mid, up, mid.row_coeffs.nonzero@.len() as int);
    let f = row_form(alpha, rest, x);
    let g = row_form(alpha, rest, z);
    assert forall|c: int| 0 <= c < rest.len() implies (up ==> #[trigger] f(c) <= g(c)) && (!up
        ==> g(c) <= f(c)) by {
        let v = rest[c] as int;
        let a = alpha[c].val();
        assert(s.non_basic_vars_inv@[v] == c);
        assert((s.basic_vars_inv@[v] == SENTINEL) != (s.non_basic_vars_inv@[v] == SENTINEL));
        assert(x(v) == s.non_basic_vals@[c].val());
        assert(at_limit(s, c));
        assert(sign_fits(s, c));
        assert(alpha[c].finite());
        assert(s.cur_obj@[c].finite());
        assert(v as usize == rest[c]);
        assert(s.set_vars@.contains_key(v as usize) ==> z(v) == s.set_vars@[v as usize].val());
        if a != 0 as real {
            assert(!negligible(mid, c));
            assert(mid.row_coeffs.is_nonzero@[c] <==> mid.row_coeffs.marked(c));
            let n = mid.row_coeffs.nonzero@.len() as int;
            assert(mid.row_coeffs.marked(c));
            let p = choose|p: int| 0 <= p < n && mid.row_coeffs.nonzero@[p] == c;
            assert(!eligible(mid, up, mid.row_coeffs.nonzero@[p] as int));
            let (t, w) = (x(v), z(v));
            if !s.set_vars@.contains_key(v as usize) {
                assert(mid.improves(alpha[c], s.cur_obj@[c], up));
                assert(up ==> a * t <= a * w) by (nonlinear_arith)
                    requires
                        up ==> a > 0 as real && t <= w || a < 0 as real && w <= t,
                ;
                assert(!up ==> a * w <= a * t) by (nonlinear_arith)
                    requires
                        !up ==> a < 0 as real && t <= w || a > 0 as real && w <= t,
                ;
            }
        } else {
            times_zero(x(v));
            times_zero(z(v));
        }
    }
    if up {
        sum_at_most(f, g, rest.len());
    } else {
        assert forall|c: int| 0 <= c < rest.len() implies #[trigger] g(c) <= f(c) by {
            assert(f(c) == f(c));
        }
        sum_at_most(g, f, rest.len());
    }
    assert(s.basic_vars_inv@[b] == row);
    assert(x(b) == s.cur_bounds@[row as int].val());
}

/// Within the limits of all variables are those of the non-basic ones.
pub proof fn limits_of_rest<T: Scalar>(s: Solver<T>, z: spec_fn(int) -> real)
    requires
        s.wf(),
        within_limits(s, z),
    ensures
        rest_within_limits(s, z),
{
    assert forall|c: int| 0 <= c < s.non_basic_vars@.len() implies {
        let v = #[trigger] s.non_basic_vars@[c];
        let (min, max) = (s.orig_var_mins@[v as int], s.orig_var_maxs@[v as int]);
        &&& min.finite() ==> min.val() <= z(v as int)
        &&& max.finite() ==> z(v as int) <= max.val()
        &&& s.set_vars@.contains_key(v) ==> z(v as int) == s.set_vars@[v].val()
    } by {
        let v = s.non_basic_vars@[c] as int;
        assert(v < s.total());
        assert(z(v) == z(v));
        assert(v as usize == s.non_basic_vars@[c]);
    }
}

/// The tolerance can be taken from the lower and added to the upper limits.
pub open spec fn limits_have_room<T: Scalar>(s: Solver<T>) -> bool {
    let tol = T::tolerance_spec();
    forall|v: int|
        0 <= v < s.total() ==> {
            let (min, max) = (#[trigger] s.orig_var_mins@[v], s.orig_var_maxs@[v]);
            &&& min.finite() ==> min.minus_spec(tol).finite()
            &&& max.finite() ==> max.plus_spec(tol).finite()
        }
}

/// The worst row misses the limit that its variable leaves with.
pub proof fn worst_row_misses<T: Scalar>(s: Solver<T>, k: int)
    requires
        0 <= k <= s.m() <= usize::MAX,
    ensures
        ({
            let best = s.dual_leaving_scan(k);
            best.row matches Some(row) ==> row < k && s.missed_limit(row as int) == Some(
                (best.infeasibility, best.new_val),
            )
        }),
    decreases k,
{
    if k > 0 {
        worst_row_misses(s, k - 1);
    }
}

/// Below its lower limit the variable of the worst row goes up to it, above the upper one down.
proof fn worst_row_sides<T: Scalar>(s: Solver<T>)
    requires
        exact::<T>(),
        consistent(s),
        finite_misses(s),
        limits_have_room(s),
        worst_row(s) is Some,
    ensures
        ({
            let (row, val) = worst_row(s)->0;
            let v = s.basic_vars@[row as int] as int;
            let (min, max) = (s.orig_var_mins@[v], s.orig_var_maxs@[v]);
            let cur = s.cur_bounds@[row as int];
            &&& row < s.m()
            &&& val.finite()
            &&& if cur.less_spec(val) {
                val == min && cur.val() < min.val()
            } else {
                val == max && max.val() < cur.val()
            }
        }),
{
    let (row, val) = worst_row(s)->0;
    worst_row_misses(s, s.m());
    assert(match s.missed_limit(row as int) {
        Some((miss, _)) => miss.finite(),
        None => true,
    });
    let v = s.basic_vars@[row as int] as int;
    assert(v < s.total());
    assert(s.orig_var_mins@[v].finite() ==> s.orig_var_mins@[v].minus_spec(
        T::tolerance_spec(),
    ).finite());
    assert(s.cur_bounds@[row as int].finite());
}

/// Where a step of the dual method finds no variable to enter, no point meets the constraints and
/// the limits.
pub proof fn blocked_step_is_right<T: Scalar>(
    s: Solver<T>,
    after: Solver<T>,
    z: spec_fn(int) -> real,
)
    requires
        exact::<T>(),
        consistent(s),
        signs_fit(s),
        finite_misses(s),
        limits_have_room(s),
        dual_step(s, after, Err(Error::Infeasible)),
        finite_items(after.basis_solver.rhs.values@),
        finite_items(after.row_coeffs.values@),
        finite_costs(after),
        sharp_row(after),
    ensures
        !(on_constraints(s, z) && within_limits(s, z)),
{
    let (row, val) = worst_row(s)->0;
    let (mid, ready) = choose|mid: Solver<T>, ready: Solver<T>| #[trigger]
        exit_made(s, mid, ready, after, row, val, Err(Error::Infeasible));
    worst_row_sides(s);
    let v = s.basic_vars@[row as int] as int;
    if on_constraints(s, z) && within_limits(s, z) {
        limits_of_rest(s, z);
        row_is_blocked(s, mid, row, val, z);
        assert(v < s.total());
        assert(s.orig_var_mins@[v].finite() ==> s.orig_var_mins@[v].val() <= z(v));
    }
}

/// What the choice of a column comes from.
proof fn column_facts<T: Scalar>(s: Solver<T>, up: bool, k: int)
    requires
        s.wf(),
        0 <= k <= s.row_coeffs.nonzero@.len(),
    ensures
        ({
            let best = s.dual_entering_scan(up, k);
            best.col matches Some(c) ==> {
                &&& c < s.non_basic_vars@.len()
                &&& s.row_coeffs.marked(c as int)
                &&& eligible(s, up, c as int)
                &&& best.coeff == s.row_coeffs.values@[c as int]
                &&& best.diff == cost_ratio(s, c as int)
            }
        }),
    decreases k,
{
    if k > 0 {
        column_facts(s, up, k - 1);
        assert(s.row_coeffs.nonzero@[k - 1] < s.row_coeffs.is_nonzero@.len());
    }
}

/// Column `k` costs no more than any other that is eligible.
pub open spec fn least_cost<T: Scalar>(s: Solver<T>, up: bool, k: int) -> bool {
    forall|c: int|
        0 <= c < s.cur_obj@.len() && #[trigger] eligible(s, up, c) ==> abs_real(
            s.cur_obj@[k].val(),
        ) * abs_real(s.row_coeffs.values@[c].val()) <= abs_real(s.cur_obj@[c].val()) * abs_real(
            s.row_coeffs.values@[k].val(),
        )
}

/// The variable in row `row` leaves with the limit that it goes to, or is set.
pub open spec fn leaves_at_limit<T: Scalar>(s: Solver<T>, row: int, val: T) -> bool {
    let v = s.basic_vars@[row];
    ||| s.set_vars@.contains_key(v)
    ||| val.finite() && if s.cur_bounds@[row].less_spec(val) {
        val == s.orig_var_mins@[v as int]
    } else {
        val == s.orig_var_maxs@[v as int]
    }
}

/// A reduced cost does not change its sign when the pivot has the least ratio.
proof fn cost_keeps_sign(up: bool, ok: real, ak: real, o: real, a: real, theta: real)
    requires
        ak != 0 as real,
        theta == ok / ak,
        up ==> ok * ak >= 0 as real,
        !up ==> ok * ak <= 0 as real,
        ({
            ||| up && o * a < 0 as real
            ||| !up && o * a > 0 as real
            ||| abs_real(ok) * abs_real(a) <= abs_real(o) * abs_real(ak)
        }),
    ensures
        o <= 0 as real ==> o - theta * a <= 0 as real,
        o >= 0 as real ==> o - theta * a >= 0 as real,
{
    let (p, q, x, y) = (abs_real(ok), abs_real(a), abs_real(o), abs_real(ak));
    let r = abs_real(theta);
    assert(theta * ak == ok) by (nonlinear_arith)
        requires
            ak != 0 as real,
            theta == ok / ak,
    ;
    assert(up ==> theta >= 0 as real) by (nonlinear_arith)
        requires
            ak != 0 as real,
            theta * ak == ok,
            up ==> ok * ak >= 0 as real,
    ;
    assert(!up ==> theta <= 0 as real) by (nonlinear_arith)
        requires
            ak != 0 as real,
            theta * ak == ok,
            !up ==> ok * ak <= 0 as real,
    ;
    if up && o * a < 0 as real {
        assert(o < 0 as real ==> theta * a >= 0 as real) by (nonlinear_arith)
            requires
                o * a < 0 as real,
                theta >= 0 as real,
        ;
        assert(o > 0 as real ==> theta * a <= 0 as real) by (nonlinear_arith)
            requires
                o * a < 0 as real,
                theta >= 0 as real,
        ;
        times_zero(a);
    } else if !up && o * a > 0 as real {
        assert(o < 0 as real ==> theta * a >= 0 as real) by (nonlinear_arith)
            requires
                o * a > 0 as real,
                theta <= 0 as real,
        ;
        assert(o > 0 as real ==> theta * a <= 0 as real) by (nonlinear_arith)
            requires
                o * a > 0 as real,
                theta <= 0 as real,
        ;
        times_zero(a);
    } else {
        assert(r * y == p) by (nonlinear_arith)
            requires
                theta * ak == ok,
                r == if theta < 0 as real {
                    -theta
                } else {
                    theta
                },
                y == if ak < 0 as real {
                    -ak
                } else {
                    ak
                },
                p == if ok < 0 as real {
                    -ok
                } else {
                    ok
                },
        ;
        assert(r * q <= x) by (nonlinear_arith)
            requires
                r * y == p,
                p * q <= x * y,
                y > 0 as real,
        ;
        assert(theta * a <= r * q && -(theta * a) <= r * q) by (nonlinear_arith)
            requires
                r == if theta < 0 as real {
                    -theta
                } else {
                    theta
                },
                q == if a < 0 as real {
                    -a
                } else {
                    a
                },
        ;
    }
}

/// A change that starts with a row keeps the signs of the reduced costs if its column costs least.
pub proof fn exit_keeps_signs<T: Scalar>(
    before: Solver<T>,
    mid: Solver<T>,
    ready: Solver<T>,
    after: Solver<T>,
    row: usize,
    val: T,
)
    requires
        exact::<T>(),
        consistent(before),
        signs_fit(before),
        row < before.m(),
        leaves_at_limit(before, row as int, val),
        exit_made(before, mid, ready, after, row, val, Ok(())),
        finite_items(mid.row_coeffs.values@),
        finite_vertex(after),
        sharp_row(mid),
        least_cost(
            mid,
            before.cur_bounds@[row as int].less_spec(val),
            mid.dual_entering(row, val)->Ok_0.col as int,
        ),
    ensures
        signs_fit(after),
{
    let up = before.cur_bounds@[row as int].less_spec(val);
    let best = mid.dual_entering_scan(up, mid.row_coeffs.nonzero@.len() as int);
    column_facts(mid, up, mid.row_coeffs.nonzero@.len() as int);
    let info = mid.dual_entering(row, val)->Ok_0;
    let k = info.col as int;
    let alpha = mid.row_coeffs.values@;
    let (ok, ak) = (before.cur_obj@[k].val(), alpha[k].val());
    assert(mid.row_coeffs.is_nonzero@[k] <==> mid.row_coeffs.marked(k));
    let pivot_obj = before.cur_obj@[k].over_spec(best.coeff);
    assert(after.cur_obj@[k] == shifted_obj(before.cur_obj@, mid.row_coeffs, k, pivot_obj, k));
    assert(after.cur_obj@[k].finite());
    assert(pivot_obj.finite());
    assert(alpha[k].finite());
    assert(before.cur_obj@[k].finite());
    let theta = ok / ak;
    assert(pivot_obj.val() == theta);
    assert(up ==> ok * ak >= 0 as real) by (nonlinear_arith)
        requires
            up ==> !(ak > 0 as real && ok < 0 as real) && !(ak < 0 as real && ok > 0 as real),
    ;
    assert(!up ==> ok * ak <= 0 as real) by (nonlinear_arith)
        requires
            !up ==> !(ak < 0 as real && ok < 0 as real) && !(ak > 0 as real && ok > 0 as real),
    ;
    assert forall|c: int| 0 <= c < after.cur_obj@.len() implies #[trigger] sign_fits(after, c) by {
        let o = before.cur_obj@[c].val();
        assert(after.cur_obj@[c] == shifted_obj(before.cur_obj@, mid.row_coeffs, k, pivot_obj, c));
        assert(after.cur_obj@[c].finite());
        assert(before.cur_obj@[c].finite());
        if c == k {
            assert(after.non_basic_vars@[c] == before.basic_vars@[row as int]);
            assert(after.non_basic_vals@[c] == val);
            assert(theta * ak == ok) by (nonlinear_arith)
                requires
                    ak != 0 as real,
                    theta == ok / ak,
            ;
            assert(up ==> theta >= 0 as real) by (nonlinear_arith)
                requires
                    ak != 0 as real,
                    theta * ak == ok,
                    up ==> ok * ak >= 0 as real,
            ;
            assert(!up ==> theta <= 0 as real) by (nonlinear_arith)
                requires
                    ak != 0 as real,
                    theta * ak == ok,
                    !up ==> ok * ak <= 0 as real,
            ;
        } else {
            assert(sign_fits(before, c));
            assert(after.non_basic_vars@[c] == before.non_basic_vars@[c]);
            assert(after.non_basic_vals@[c] == before.non_basic_vals@[c]);
            if mid.row_coeffs.is_nonzero@[c] && !before.set_vars@.contains_key(
                before.non_basic_vars@[c],
            ) {
                let a = alpha[c].val();
                assert(alpha[c].finite());
                assert(after.cur_obj@[c].val() == o - theta * a);
                if negligible(mid, c) {
                    assert(a == 0 as real);
                    times_zero(theta);
                } else {
                    if !eligible(mid, up, c) {
                        assert(mid.improves(alpha[c], before.cur_obj@[c], up));
                        assert(up ==> o * a < 0 as real) by (nonlinear_arith)
                            requires
                                up ==> a > 0 as real && o < 0 as real || a < 0 as real && o
                                    > 0 as real,
                        ;
                        assert(!up ==> o * a > 0 as real) by (nonlinear_arith)
                            requires
                                !up ==> a < 0 as real && o < 0 as real || a > 0 as real && o
                                    > 0 as real,
                        ;
                    }
                    cost_keeps_sign(up, ok, ak, o, a, theta);
                }
            }
        }
    }
}

/// The tolerance can be taken from and added to what the columns cost.
pub open spec fn costs_have_room<T: Scalar>(s: Solver<T>) -> bool {
    let tol = T::tolerance_spec();
    forall|c: int|
        0 <= c < s.row_coeffs.values@.len() && (#[trigger] cost_ratio(s, c)).finite()
            ==> cost_ratio(s, c).minus_spec(tol).finite() && cost_ratio(s, c).plus_spec(
            tol,
        ).finite()
}

/// Without tolerance the choice of a column finds the least cost.
proof fn scan_costs_least<T: Scalar>(s: Solver<T>, up: bool, k: int)
    requires
        exact::<T>(),
        T::tolerance_spec().val() == 0 as real,
        s.wf(),
        finite_costs(s),
        costs_have_room(s),
        0 <= k <= s.row_coeffs.nonzero@.len(),
    ensures
        ({
            let best = s.dual_entering_scan(up, k);
            &&& best.col is None ==> best.diff == T::infinity_spec()
            &&& best.col is Some ==> best.diff.finite()
            &&& forall|p: int|
                0 <= p < k && eligible(s, up, #[trigger] s.row_coeffs.nonzero@[p] as int)
                    ==> best.col is Some && best.diff.val() <= cost_ratio(
                    s,
                    s.row_coeffs.nonzero@[p] as int,
                ).val()
        }),
    decreases k,
{
    if k > 0 {
        scan_costs_least(s, up, k - 1);
        let old = s.dual_entering_scan(up, k - 1);
        let c = s.row_coeffs.nonzero@[k - 1];
        let d = cost_ratio(s, c as int);
        let a = s.row_coeffs.values@[c as int].absolute_spec();
        assert(s.row_coeffs.values@[c as int].absolute_spec().finite());
        if eligible(s, up, c as int) {
            assert(d.finite());
            match old.col {
                None => {
                    assert(s.enters_before(old, c, d, a));
                },
                Some(j) => {
                    column_facts(s, up, k - 1);
                    assert(cost_ratio(s, j as int).finite());
                    assert(s.enters_before(old, c, d, a) <==> d.val() < old.diff.val());
                },
            }
        }
    }
}

/// Without tolerance the column that is chosen costs least.
pub proof fn choice_costs_least<T: Scalar>(s: Solver<T>, row: usize, val: T)
    requires
        exact::<T>(),
        T::tolerance_spec().val() == 0 as real,
        s.wf(),
        finite_vertex(s),
        finite_costs(s),
        costs_have_room(s),
        s.dual_entering(row, val) is Ok,
    ensures
        least_cost(
            s,
            s.cur_bounds@[row as int].less_spec(val),
            s.dual_entering(row, val)->Ok_0.col as int,
        ),
{
    let up = s.cur_bounds@[row as int].less_spec(val);
    let n = s.row_coeffs.nonzero@.len() as int;
    let k = s.dual_entering(row, val)->Ok_0.col as int;
    scan_costs_least(s, up, n);
    column_facts(s, up, n);
    assert(s.row_coeffs.values@[k].absolute_spec().finite());
    assert forall|c: int|
        0 <= c < s.cur_obj@.len() && #[trigger] eligible(s, up, c) implies abs_real(
        s.cur_obj@[k].val(),
    ) * abs_real(s.row_coeffs.values@[c].val()) <= abs_real(s.cur_obj@[c].val()) * abs_real(
        s.row_coeffs.values@[k].val(),
    ) by {
        let (ok, ak) = (s.cur_obj@[k].val(), s.row_coeffs.values@[k].val());
        let (o, a) = (s.cur_obj@[c].val(), s.row_coeffs.values@[c].val());
        assert(s.row_coeffs.values@[c].absolute_spec().finite());
        assert(cost_ratio(s, c).finite());
        assert(s.row_coeffs.is_nonzero@[c] <==> s.row_coeffs.marked(c));
        assert(s.row_coeffs.marked(c));
        let p = choose|p: int| 0 <= p < n && s.row_coeffs.nonzero@[p] == c;
        assert(eligible(s, up, s.row_coeffs.nonzero@[p] as int));
        let (x, y) = (abs_real(ok / ak), abs_real(o / a));
        assert(x <= y);
        let (p1, q1, p2, q2) = (abs_real(ok), abs_real(ak), abs_real(o), abs_real(a));
        ratio_of_abs(ok, ak);
        ratio_of_abs(o, a);
        assert(p1 * q2 <= p2 * q1) by (nonlinear_arith)
            requires
                x * q1 == p1,
                y * q2 == p2,
                x <= y,
                q1 > 0 as real,
                q2 > 0 as real,
        ;
    }
}

proof fn ratio_of_abs(x: real, y: real)
    requires
        y != 0 as real,
    ensures
        abs_real(x / y) * abs_real(y) == abs_real(x),
        abs_real(y) > 0 as real,
{
    let r = x / y;
    assert(r * y == x) by (nonlinear_arith)
        requires
            y != 0 as real,
            r == x / y,
    ;
    let (p, q, w) = (abs_real(r), abs_real(y), abs_real(x));
    assert(p * q == w) by (nonlinear_arith)
        requires
            r * y == x,
            p == if r < 0 as real {
                -r
            } else {
                r
            },
            q == if y < 0 as real {
                -y
            } else {
                y
            },
            w == if x < 0 as real {
                -x
            } else {
                x
            },
    ;
}

/// A step of the dual method whose numbers are finite, in which the column that enters costs
/// least and no coefficient is lost in the tolerance.
pub open spec fn fair_exit<T: Scalar>(
    before: Solver<T>,
    mid: Solver<T>,
    ready: Solver<T>,
    after: Solver<T>,
    row: usize,
    val: T,
) -> bool {
    &&& exit_made(before, mid, ready, after, row, val, Ok(()))
    &&& finite_exit(mid, ready, after)
    &&& sharp_row(mid)
    &&& least_cost(
        mid,
        before.cur_bounds@[row as int].less_spec(val),
        mid.dual_entering(row, val)->Ok_0.col as int,
    )
}

pub open spec fn fair_dual_at<T: Scalar>(s: Seq<Solver<T>>, i: int) -> bool {
    &&& finite_misses(s[i])
    &&& worst_row(s[i]) matches Some((row, val)) && exists|mid: Solver<T>, ready: Solver<T>|
        #[trigger] fair_exit(s[i], mid, ready, s[i + 1], row, val)
}

/// Every vertex on such a path keeps what the first one has, and the signs of the reduced costs.
pub proof fn fair_path_keeps<T: Scalar>(s: Seq<Solver<T>>, k: int)
    requires
        exact::<T>(),
        dual_path(s),
        forall|i: int| 0 <= i < s.len() - 1 ==> #[trigger] fair_dual_at(s, i),
        sound(s[0]),
        signs_fit(s[0]),
        limits_have_room(s[0]),
        0 <= k < s.len(),
    ensures
        sound(s[k]),
        signs_fit(s[k]),
        limits_have_room(s[k]),
        s[k].same_program(s[0]),
        s[k].set_vars == s[0].set_vars,
    decreases k,
{
    if k > 0 {
        fair_path_keeps(s, k - 1);
        let before = s[k - 1];
        assert(fair_dual_at(s, k - 1));
        let (row, val) = worst_row(before)->0;
        let (mid, ready) = choose|mid: Solver<T>, ready: Solver<T>| #[trigger]
            fair_exit(before, mid, ready, s[k], row, val);
        assert(s[k].wf());
        worst_row_sides(before);
        assert(!before.set_vars@.contains_key(before.basic_vars@[row as int]));
        exit_keeps(before, mid, ready, s[k], row, val);
        exit_keeps_signs(before, mid, ready, s[k], row, val);
        assert forall|v: int| 0 <= v < s[k].total() implies {
            let (min, max) = (#[trigger] s[k].orig_var_mins@[v], s[k].orig_var_maxs@[v]);
            &&& min.finite() ==> min.minus_spec(T::tolerance_spec()).finite()
            &&& max.finite() ==> max.plus_spec(T::tolerance_spec()).finite()
        } by {
            assert(before.orig_var_mins@[v] == s[k].orig_var_mins@[v]);
        }
    }
}

/// Where restoring feasibility ends with the verdict that the program is infeasible, no point
/// meets the constraints and the limits, with the variables that are set at their values.
pub proof fn restore_verdict_is_right<T: Scalar>(
    path: Seq<Solver<T>>,
    before: Solver<T>,
    after: Solver<T>,
    z: spec_fn(int) -> real,
)
    requires
        exact::<T>(),
        restored_by(path, before, after, Err(Error::Infeasible)),
        forall|i: int| 0 <= i < path.len() - 1 ==> #[trigger] fair_dual_at(path, i),
        sound(before),
        signs_fit(before),
        limits_have_room(before),
        finite_misses(path.last()),
        finite_items(after.basis_solver.rhs.values@),
        finite_items(after.row_coeffs.values@),
        finite_costs(after),
        sharp_row(after),
    ensures
        !(on_constraints(before, z) && within_limits(before, z)),
{
    let last = path.last();
    fair_path_keeps(path, path.len() - 1);
    if on_constraints(before, z) && within_limits(before, z) {
        assert forall|i: int| 0 <= i < last.m() implies crate::sums::sum(
            lhs_terms(last.orig_constraints_csc, z, i),
            last.total() as nat,
        ) == (#[trigger] last.orig_bounds@[i]).val() by {
            assert(before.orig_bounds@[i].val() == last.orig_bounds@[i].val());
        }
        assert(within_limits(last, z)) by {
            assert forall|v: int| 0 <= v < last.total() implies {
                let (min, max) = (last.orig_var_mins@[v], last.orig_var_maxs@[v]);
                &&& min.finite() ==> min.val() <= #[trigger] z(v)
                &&& max.finite() ==> z(v) <= max.val()
                &&& last.set_vars@.contains_key(v as usize) ==> z(v)
                    == last.set_vars@[v as usize].val()
            } by {
                let (min, max) = (before.orig_var_mins@[v], before.orig_var_maxs@[v]);
                assert(min.finite() ==> min.val() <= z(v));
            }
        }
        blocked_step_is_right(last, after, z);
    }
}

/// Setting a variable keeps the signs.
pub proof fn set_fits<T: Scalar>(before: Solver<T>, marked: Solver<T>, var: usize, val: T)
    requires
        signs_fit(before),
        with_set(before, marked, var, val),
    ensures
        signs_fit(marked),
{
    assert forall|c: int| 0 <= c < marked.cur_obj@.len() implies #[trigger] sign_fits(marked, c) by {
        assert(sign_fits(before, c));
    }
}

/// Moving a variable that is set keeps the signs.
pub proof fn set_move_fits<T: Scalar>(
    marked: Solver<T>,
    ready: Solver<T>,
    moved: Solver<T>,
    col: int,
    diff: T,
    new_val: T,
)
    requires
        signs_fit(marked),
        marked.wf(),
        0 <= col < marked.non_basic_vars@.len(),
        marked.set_vars@.contains_key(marked.non_basic_vars@[col]),
        value_moved_from(marked, ready, moved, col, diff, new_val),
    ensures
        signs_fit(moved),
{
    assert forall|c: int| 0 <= c < moved.cur_obj@.len() implies #[trigger] sign_fits(moved, c) by {
        assert(sign_fits(marked, c));
    }
}

/// A variable that is not set any more and goes to the better limit keeps the signs.
pub proof fn unset_fits<T: Scalar>(
    before: Solver<T>,
    marked: Solver<T>,
    ready: Solver<T>,
    moved: Solver<T>,
    col: int,
    diff: T,
)
    requires
        exact::<T>(),
        signs_fit(before),
        before.wf(),
        finite_vertex(before),
        0 <= col < before.non_basic_vars@.len(),
        without_set(before, marked, before.non_basic_vars@[col]),
        value_moved_from(marked, ready, moved, col, diff, before.better_limit(col)),
        before.better_limit(col).finite(),
    ensures
        signs_fit(moved),
{
    assert forall|c: int| 0 <= c < moved.cur_obj@.len() implies #[trigger] sign_fits(moved, c) by {
        assert(sign_fits(before, c));
        assert(before.cur_obj@[c].finite());
        let v = before.non_basic_vars@[c];
        if c != col {
            assert(before.non_basic_vars_inv@[v as int] == c);
            assert(before.non_basic_vars_inv@[before.non_basic_vars@[col] as int] == col);
            assert(marked.set_vars@.contains_key(v) == before.set_vars@.contains_key(v));
        }
    }
}

/// One more constraint keeps the signs.
pub proof fn extended_fits<T: Scalar>(
    before: Solver<T>,
    after: Solver<T>,
    coeffs: CsVec<T>,
    rel_op: RelOp,
    bound: T,
)
    requires
        before.wf(),
        signs_fit(before),
        extended(before, after, coeffs, rel_op, bound),
    ensures
        signs_fit(after),
{
    assert forall|c: int| 0 <= c < after.cur_obj@.len() implies #[trigger] sign_fits(after, c) by {
        assert(sign_fits(before, c));
        assert(before.non_basic_vars@[c] < before.total());
    }
}

/// Where setting a basic variable to another value ends at once with the verdict that the program
/// is infeasible, no point meets the constraints and the limits with that value.
pub proof fn set_verdict_is_right<T: Scalar>(
    before: Solver<T>,
    marked: Solver<T>,
    after: Solver<T>,
    var: usize,
    val: T,
    z: spec_fn(int) -> real,
)
    requires
        exact::<T>(),
        sound(before),
        signs_fit(before),
        var < before.total(),
        before.basic_vars_inv@[var as int] != SENTINEL,
        with_set(before, marked, var, val),
        left_basis(
            marked,
            after,
            before.basic_vars_inv@[var as int],
            val,
            Err(Error::Infeasible),
        ),
        val.finite(),
        val.val() != before.value_of(var as int).val(),
        finite_items(after.basis_solver.rhs.values@),
        finite_items(after.row_coeffs.values@),
        finite_costs(after),
        sharp_row(after),
    ensures
        !(on_constraints(marked, z) && within_limits(marked, z)),
{
    let row = before.basic_vars_inv@[var as int];
    assert(before.basic_vars@[row as int] == var);
    marked_is_consistent(before, marked, var);
    set_fits(before, marked, var, val);
    let (mid, ready) = choose|mid: Solver<T>, ready: Solver<T>| #[trigger]
        exit_made(marked, mid, ready, after, row, val, Err(Error::Infeasible));
    if on_constraints(marked, z) && within_limits(marked, z) {
        limits_of_rest(marked, z);
        row_is_blocked(marked, mid, row, val, z);
        assert(marked.cur_bounds@[row as int].finite());
        assert(marked.set_vars@.contains_key(var));
        let v = var as int;
        assert(z(v) == marked.set_vars@[v as usize].val());
    }
}

/// Where a constraint is added at an optimum and the verdict is that the program is infeasible
/// now, no point meets the constraints, the new one among them, and the limits.
pub proof fn constraint_verdict_is_right<T: Scalar>(
    before: Solver<T>,
    mid: Solver<T>,
    path: Seq<Solver<T>>,
    after: Solver<T>,
    coeffs: CsVec<T>,
    rel_op: RelOp,
    bound: T,
    z: spec_fn(int) -> real,
)
    requires
        exact::<T>(),
        sound(before),
        before.num_artificial_vars == 0,
        forall|v: usize| #[trigger] before.set_vars@.contains_key(v) ==> v < before.total(),
        signs_fit(before),
        extended(before, mid, coeffs, rel_op, bound),
        mid.wf(),
        finite_vertex(mid),
        factored_basis(mid),
        sharp_bounds(mid),
        limits_have_room(mid),
        restored_by(path, mid, after, Err(Error::Infeasible)),
        forall|i: int| 0 <= i < path.len() - 1 ==> #[trigger] fair_dual_at(path, i),
        finite_misses(path.last()),
        finite_items(after.basis_solver.rhs.values@),
        finite_items(after.row_coeffs.values@),
        finite_costs(after),
        sharp_row(after),
    ensures
        !(on_constraints(mid, z) && within_limits(mid, z)),
{
    extended_is_sound(before, mid, coeffs, rel_op, bound);
    extended_fits(before, mid, coeffs, rel_op, bound);
    restore_verdict_is_right(path, mid, after, z);
}

} // verus!
