//! Which variables the method chooses to enter and to leave the basis, where arithmetic is exact.
use crate::dual::{cost_ratio, finite_costs, negligible, no_column};
use crate::edited::finite_misses;
use crate::error::Error;
use crate::phases::worst_row;
use crate::pricing::pivot_chosen;
use crate::scalar::{abs_real, exact, Scalar};
use crate::simplex::{PivotInfo, Solver};
use crate::sparse::SparseVec;
use crate::vertex::finite_vertex;
use vstd::prelude::*;

verus! {

/// The rate at which the objective falls when the variable in column `c` leaves its limit: upwards
/// from the lower one, downwards from the upper one.
pub open spec fn rate<T: Scalar>(s: Solver<T>, c: int) -> real {
    let min = s.orig_var_mins@[s.non_basic_vars@[c] as int];
    if min.finite() && s.non_basic_vals@[c].val() == min.val() {
        s.cur_obj@[c].val()
    } else {
        -s.cur_obj@[c].val()
    }
}

/// The variable in column `c` is not set, and the objective falls with it no slower than the
/// tolerance.
pub open spec fn offers<T: Scalar>(s: Solver<T>, c: int) -> bool {
    &&& !s.set_vars@.contains_key(s.non_basic_vars@[c])
    &&& rate(s, c) >= T::tolerance_spec().val()
}

/// What a column is judged by: the square of its rate over the squared length of the edge that it
/// goes along; in the first phase, or where the edges are not measured, the rate alone.
pub open spec fn gain<T: Scalar>(s: Solver<T>, c: int) -> real {
    if s.num_artificial_vars == 0 && s.enable_steepest_edge {
        (rate(s, c) * rate(s, c)) / (s.non_basic_col_sq_norms@[c].val() + 1 as real)
    } else {
        rate(s, c)
    }
}

/// The numbers that the columns are judged by are finite.
pub open spec fn finite_pricing<T: Scalar>(s: Solver<T>) -> bool {
    &&& finite_vertex(s)
    &&& forall|c: int|
        0 <= c < s.cur_obj@.len() ==> (#[trigger] s.direction(c)).finite() && s.score(c).finite()
}

/// Column `c` is one that may enter, and the first of those with the highest gain among the first
/// `k`.
pub open spec fn is_steepest<T: Scalar>(s: Solver<T>, c: int, k: int) -> bool {
    &&& 0 <= c < k
    &&& offers(s, c)
    &&& forall|b: int|
        0 <= b < k && #[trigger] offers(s, b) ==> gain(s, b) <= gain(s, c) && (b < c ==> gain(s, b)
            < gain(s, c))
}

proof fn column_is_judged<T: Scalar>(s: Solver<T>, c: int)
    requires
        exact::<T>(),
        s.wf(),
        finite_pricing(s),
        0 <= c < s.cur_obj@.len(),
    ensures
        s.direction(c).val() == rate(s, c),
        s.may_enter(c) == offers(s, c),
        s.score(c).finite(),
        s.score(c).val() == gain(s, c),
{
    let x = s.non_basic_vals@[c];
    let min = s.orig_var_mins@[s.non_basic_vars@[c] as int];
    assert(x.finite());
    assert(s.direction(c).finite());
    assert(x.same_spec(min) == (min.finite() && x.val() == min.val()));
}

proof fn scan_is_steepest<T: Scalar>(s: Solver<T>, k: int)
    requires
        exact::<T>(),
        s.wf(),
        finite_pricing(s),
        0 <= k <= s.cur_obj@.len(),
    ensures
        match s.entering_scan(k).col {
            Some(c) => is_steepest(s, c as int, k) && s.entering_scan(k).score == s.score(c as int),
            None => s.entering_scan(k).score == T::neg_infinity_spec() && forall|b: int|
                0 <= b < k ==> !#[trigger] offers(s, b),
        },
    decreases k,
{
    if k > 0 {
        scan_is_steepest(s, k - 1);
        column_is_judged(s, k - 1);
        let best = s.entering_scan(k - 1);
        if best.col is Some {
            column_is_judged(s, best.col->0 as int);
        }
    }
}

/// The column that is chosen to enter is the first of those along whose edges the objective falls
/// most, and none is chosen exactly if the objective falls with none.
pub proof fn chosen_column_is_steepest<T: Scalar>(
    before: Solver<T>,
    after: Solver<T>,
    r: Result<Option<PivotInfo<T>>, Error>,
)
    requires
        exact::<T>(),
        before.wf(),
        finite_pricing(before),
        pivot_chosen(before, after, r),
    ensures
        r == Ok::<Option<PivotInfo<T>>, Error>(None) <==> forall|b: int|
            0 <= b < before.cur_obj@.len() ==> !#[trigger] offers(before, b),
        r matches Ok(Some(info)) ==> is_steepest(
            before,
            info.col as int,
            before.cur_obj@.len() as int,
        ),
        r is Err ==> r == Err::<Option<PivotInfo<T>>, Error>(Error::Unbounded),
{
    scan_is_steepest(before, before.cur_obj@.len() as int);
    if before.entering_scan(before.cur_obj@.len() as int).col is Some {
        let c = before.entering_scan(before.cur_obj@.len() as int).col->0;
        assert(offers(before, c as int));
    }
}

/// The limit that the basic variable of row `r` comes to when the entering variable moves up (`up`)
/// or down, and the coefficient of the row is `a`.
pub open spec fn limit_ahead<T: Scalar>(s: Solver<T>, r: int, a: real, up: bool) -> T {
    let v = s.basic_vars@[r] as int;
    if up == (a < 0 as real) {
        s.orig_var_maxs@[v]
    } else {
        s.orig_var_mins@[v]
    }
}

/// A row that lets the entering variable go as far as `d`, with a coefficient of the size `a`, is
/// preferred to one that lets it go as far as `e`, with one of the size `b`: it is nearer by more
/// than the tolerance; or as near, and its coefficient larger by more than the tolerance; or both as
/// near and as large, and it comes before (`first`).
pub open spec fn preferred(d: real, a: real, e: real, b: real, tol: real, first: bool) -> bool {
    ||| d < e - tol
    ||| d < e + tol && (b + tol < a || b - tol < a && first)
}

/// The numbers that row `k` of the column is compared by are finite.
pub open spec fn comparable<T: Scalar>(
    s: Solver<T>,
    coeffs: SparseVec<T>,
    near: T,
    far: T,
    k: int,
) -> bool {
    let best = s.leaving_scan(coeffs, near, far, k);
    let r = coeffs.indices@[k] as int;
    let a = coeffs.values@[k];
    let sign = far.minus_spec(near).signum_spec();
    let limit = s.limit_towards(r, a, sign);
    let tol = T::tolerance_spec();
    &&& a.absolute_spec().finite()
    &&& sign.finite()
    &&& sign.val() == 1 as real || sign.val() == -1 as real
    &&& a.times_spec(sign).finite()
    &&& limit.minus_spec(s.cur_bounds@[r]).over_spec(a).absolute_spec().finite()
    &&& best.diff.minus_spec(tol).finite() && best.diff.plus_spec(tol).finite()
    &&& best.coeff.absolute_spec().plus_spec(tol).finite()
    &&& best.coeff.absolute_spec().minus_spec(tol).finite()
}

/// Of two columns of which one has a row more, the longer one is left by that row exactly if its
/// coefficient is not below the tolerance and it is preferred to the row that leaves the shorter
/// one; and then its variable leaves with the limit that it comes to. Without rows the entering
/// variable goes from limit to limit.
pub proof fn next_row_is_preferred<T: Scalar>(
    s: Solver<T>,
    coeffs: SparseVec<T>,
    near: T,
    far: T,
    k: int,
)
    requires
        exact::<T>(),
        0 <= k < coeffs.indices@.len(),
        comparable(s, coeffs, near, far, k),
    ensures
        ({
            let best = s.leaving_scan(coeffs, near, far, k);
            let next = s.leaving_scan(coeffs, near, far, k + 1);
            let r = coeffs.indices@[k];
            let a = coeffs.values@[k].val();
            let up = far.minus_spec(near).signum_spec().val() > 0 as real;
            let limit = limit_ahead(s, r as int, a, up);
            let tol = T::tolerance_spec().val();
            let d = abs_real((limit.val() - s.cur_bounds@[r as int].val()) / a);
            let chosen = abs_real(a) >= tol && preferred(
                d,
                abs_real(a),
                best.diff.val(),
                abs_real(best.coeff.val()),
                tol,
                best.row is None || r < best.row->0,
            );
            if chosen {
                &&& next.row == Some(r)
                &&& next.diff.val() == d
                &&& next.coeff == coeffs.values@[k]
                &&& next.new_val == limit
            } else {
                next == best
            }
        }),
        s.leaving_scan(coeffs, near, far, 0).row is None,
        s.leaving_scan(coeffs, near, far, 0).diff.finite() ==> s.leaving_scan(
            coeffs,
            near,
            far,
            0,
        ).diff.val() == abs_real(near.val() - far.val()),
{
    let best = s.leaving_scan(coeffs, near, far, k);
    let r = coeffs.indices@[k] as int;
    let a = coeffs.values@[k];
    let sign = far.minus_spec(near).signum_spec();
    let limit = s.limit_towards(r, a, sign);
    let (p, q) = (a.val(), sign.val());
    assert(a.times_spec(sign).less_spec(T::zero_spec()) <==> p * q < 0 as real);
    assert(q == 1 as real ==> p * q == p) by (nonlinear_arith);
    assert(q == -1 as real ==> p * q == -p) by (nonlinear_arith);
    let x = limit.minus_spec(s.cur_bounds@[r]).over_spec(a);
    assert(x.absolute_spec().finite());
    assert(x.finite());
    assert(limit.minus_spec(s.cur_bounds@[r]).finite());
    assert(limit == limit_ahead(s, r, p, q > 0 as real)) by {
        assert(p != 0 as real);
    }
}

/// By how much the basic variable of row `r` misses its limits.
pub open spec fn miss<T: Scalar>(s: Solver<T>, r: int) -> real {
    let v = s.basic_vars@[r] as int;
    let (min, max) = (s.orig_var_mins@[v], s.orig_var_maxs@[v]);
    let x = s.cur_bounds@[r].val();
    if min.finite() && x < min.val() {
        min.val() - x
    } else if max.finite() && x > max.val() {
        x - max.val()
    } else {
        0 as real
    }
}

/// The limits of the basic variables are numbers, or beyond all numbers on their side, also where the
/// tolerance is taken off.
pub open spec fn rows_open<T: Scalar>(s: Solver<T>) -> bool {
    let tol = T::tolerance_spec();
    forall|r: int|
        0 <= r < s.m() ==> {
            let v = (#[trigger] s.basic_vars@[r]) as int;
            let (min, max) = (s.orig_var_mins@[v], s.orig_var_maxs@[v]);
            &&& min.finite() && min.minus_spec(tol).finite() || !min.finite()
                && !s.cur_bounds@[r].less_spec(min.minus_spec(tol))
            &&& max.finite() && max.plus_spec(tol).finite() || !max.finite() && !max.plus_spec(
                tol,
            ).less_spec(s.cur_bounds@[r])
            &&& min.finite() && max.finite() ==> min.val() <= max.val()
        }
}

/// Row `row` misses its limits by more than the tolerance, and is the first of those that miss them
/// most among the first `k`.
pub open spec fn misses_most<T: Scalar>(s: Solver<T>, row: int, k: int) -> bool {
    &&& 0 <= row < k
    &&& miss(s, row) > T::tolerance_spec().val()
    &&& forall|b: int|
        0 <= b < k ==> #[trigger] miss(s, b) <= miss(s, row) && (b < row ==> miss(s, b) < miss(
            s,
            row,
        ))
}

proof fn row_is_judged<T: Scalar>(s: Solver<T>, r: int)
    requires
        exact::<T>(),
        s.wf(),
        finite_vertex(s),
        finite_misses(s),
        rows_open(s),
        0 <= r < s.m(),
    ensures
        s.missed_limit(r) is Some <==> miss(s, r) > T::tolerance_spec().val(),
        s.missed_limit(r) matches Some((d, x)) ==> d.finite() && d.val() == miss(s, r) && x.finite()
            && abs_real(x.val() - s.cur_bounds@[r].val()) == miss(s, r) && (x
            == s.orig_var_mins@[s.basic_vars@[r] as int] || x
            == s.orig_var_maxs@[s.basic_vars@[r] as int]),
{
    let v = s.basic_vars@[r] as int;
    let (min, max) = (s.orig_var_mins@[v], s.orig_var_maxs@[v]);
    assert(s.cur_bounds@[r].finite());
    assert(match s.missed_limit(r) {
        Some((d, _)) => d.finite(),
        None => true,
    });
}

proof fn scan_misses_most<T: Scalar>(s: Solver<T>, k: int)
    requires
        exact::<T>(),
        s.wf(),
        finite_vertex(s),
        finite_misses(s),
        rows_open(s),
        0 <= k <= s.m(),
    ensures
        ({
            let best = s.dual_leaving_scan(k);
            match best.row {
                Some(row) => misses_most(s, row as int, k) && s.missed_limit(row as int) == Some(
                    (best.infeasibility, best.new_val),
                ),
                None => best.infeasibility == T::neg_infinity_spec() && forall|b: int|
                    0 <= b < k ==> #[trigger] miss(s, b) <= T::tolerance_spec().val(),
            }
        }),
    decreases k,
{
    if k > 0 {
        scan_misses_most(s, k - 1);
        row_is_judged(s, k - 1);
        let best = s.dual_leaving_scan(k - 1);
        if best.row is Some {
            row_is_judged(s, best.row->0 as int);
        }
    }
}

/// The row that is to leave first, where feasibility is restored, is the first of those that miss
/// their limits most, and its variable leaves with the limit that it misses; there is none exactly
/// if no row misses its limits by more than the tolerance.
pub proof fn worst_row_misses_most<T: Scalar>(s: Solver<T>)
    requires
        exact::<T>(),
        s.wf(),
        finite_vertex(s),
        finite_misses(s),
        rows_open(s),
    ensures
        worst_row(s) is None <==> forall|b: int|
            0 <= b < s.m() ==> #[trigger] miss(s, b) <= T::tolerance_spec().val(),
        worst_row(s) matches Some((row, val)) ==> misses_most(s, row as int, s.m()) && val.finite()
            && abs_real(val.val() - s.cur_bounds@[row as int].val()) == miss(s, row as int),
{
    scan_misses_most(s, s.m());
    if worst_row(s) is Some {
        let (row, _) = worst_row(s)->0;
        row_is_judged(s, row as int);
        assert(miss(s, row as int) > T::tolerance_spec().val());
    }
}

/// The variable in column `c` may enter when the variable of the row leaves upwards (`up`) or
/// downwards: it is not set, its coefficient is not below the tolerance, and the objective does not
/// improve when it enters, as it would if the signs of coefficient and reduced cost were opposite,
/// or the same.
pub open spec fn may_follow<T: Scalar>(s: Solver<T>, up: bool, c: int) -> bool {
    let (a, o) = (s.row_coeffs.values@[c].val(), s.cur_obj@[c].val());
    &&& !s.set_vars@.contains_key(s.non_basic_vars@[c])
    &&& abs_real(a) >= T::tolerance_spec().val()
    &&& if up {
        !(a < 0 as real && o > 0 as real || a > 0 as real && o < 0 as real)
    } else {
        !(a < 0 as real && o < 0 as real || a > 0 as real && o > 0 as real)
    }
}

/// Of two rows of which one has a column more, the longer one is entered by that column exactly if
/// it may enter and none entered before, or it is preferred to the column that enters the shorter
/// one: by what it costs, which is its reduced cost over its coefficient, then by the size of the
/// coefficient.
pub proof fn next_column_is_preferred<T: Scalar>(s: Solver<T>, up: bool, k: int)
    requires
        exact::<T>(),
        s.wf(),
        finite_vertex(s),
        finite_costs(s),
        0 <= k < s.row_coeffs.nonzero@.len(),
        ({
            let best = s.dual_entering_scan(up, k);
            let tol = T::tolerance_spec();
            best.col is Some ==> best.diff.minus_spec(tol).finite() && best.diff.plus_spec(
                tol,
            ).finite() && best.coeff_abs.minus_spec(tol).finite() && best.coeff_abs.plus_spec(
                tol,
            ).finite()
        }),
    ensures
        ({
            let best = s.dual_entering_scan(up, k);
            let next = s.dual_entering_scan(up, k + 1);
            let c = s.row_coeffs.nonzero@[k];
            let (a, o) = (s.row_coeffs.values@[c as int].val(), s.cur_obj@[c as int].val());
            let d = abs_real(o / a);
            let chosen = may_follow(s, up, c as int) && (best.col is None || preferred(
                d,
                abs_real(a),
                best.diff.val(),
                best.coeff_abs.val(),
                T::tolerance_spec().val(),
                c < best.col->0,
            ));
            if chosen {
                &&& next.col == Some(c)
                &&& next.diff.val() == d
                &&& next.coeff_abs.val() == abs_real(a)
                &&& next.coeff == s.row_coeffs.values@[c as int]
            } else {
                next == best
            }
        }),
        s.dual_entering_scan(up, 0).col is None,
{
    let best = s.dual_entering_scan(up, k);
    let c = s.row_coeffs.nonzero@[k] as int;
    let coeff = s.row_coeffs.values@[c];
    assert(s.row_coeffs.nonzero@[k] < s.row_coeffs.is_nonzero@.len());
    assert(coeff.absolute_spec().finite());
    assert(s.cur_obj@[c].finite());
    assert(negligible(s, c) || cost_ratio(s, c).finite());
    if best.col is None {
        no_column(s, up, k);
    }
    if cost_ratio(s, c).finite() {
        let x = s.cur_obj@[c].over_spec(coeff);
        assert(x.absolute_spec().finite());
        assert(x.finite());
    }
}

} // verus!
