//! Vertices within the limits, where arithmetic is exact.
use crate::phases::{freed, primal_path, step_made};
use crate::pricing::coeffs_prepared;
use crate::scalar::{abs_real, exact, Scalar};
use crate::simplex::{PivotInfo, Solver};
use crate::sparse::{at_place, place, SparseVec};
use crate::start::{started, Input};
use crate::steps::{finite_step, leaving_scan_facts, step_keeps};
use crate::sums::times_zero;
use crate::vertex::{at_limit, finite_vertex, sound};
use vstd::prelude::*;

verus! {

/// The basic variable in row `r` is within its limits.
pub open spec fn row_within<T: Scalar>(s: Solver<T>, r: int) -> bool {
    let v = s.basic_vars@[r] as int;
    let x = s.cur_bounds@[r].val();
    &&& s.orig_var_mins@[v].finite() ==> s.orig_var_mins@[v].val() <= x
    &&& s.orig_var_maxs@[v].finite() ==> x <= s.orig_var_maxs@[v].val()
}

/// The basic variables are within their limits.
pub open spec fn basics_within<T: Scalar>(s: Solver<T>) -> bool {
    forall|r: int| 0 <= r < s.m() ==> #[trigger] row_within(s, r)
}

/// The limits of the variables are numbers or infinite, and in order.
pub open spec fn limits_in_order<T: Scalar>(s: Solver<T>) -> bool {
    forall|v: int|
        0 <= v < s.total() ==> {
            let (min, max) = (#[trigger] s.orig_var_mins@[v], s.orig_var_maxs@[v]);
            &&& min.finite() || min.infinite()
            &&& max.finite() || max.infinite()
            &&& !max.less_spec(min)
        }
}

/// The values of the variables that are set are within the limits.
pub open spec fn sets_within<T: Scalar>(s: Solver<T>) -> bool {
    forall|v: usize| #[trigger]
        s.set_vars@.contains_key(v) ==> {
            let (min, max) = (s.orig_var_mins@[v as int], s.orig_var_maxs@[v as int]);
            &&& min.finite() ==> min.val() <= s.set_vars@[v].val()
            &&& max.finite() ==> s.set_vars@[v].val() <= max.val()
        }
}

/// The direction in which the entering variable leaves its limit.
pub open spec fn heading<T: Scalar>(s: Solver<T>, c: int) -> real {
    if s.non_basic_vals@[c].same_spec(s.orig_var_mins@[s.non_basic_vars@[c] as int]) {
        1 as real
    } else {
        -1 as real
    }
}

/// The numbers that the choice of a row works with are finite, where the limits are.
pub open spec fn finite_ratios<T: Scalar>(
    s: Solver<T>,
    coeffs: SparseVec<T>,
    near: T,
    far: T,
) -> bool {
    let sign = far.minus_spec(near).signum_spec();
    let tol = T::tolerance_spec();
    &&& far.finite() ==> far.minus_spec(near).finite() && near.minus_spec(
        far,
    ).absolute_spec().finite()
    &&& forall|p: int|
        0 <= p < coeffs.indices@.len() ==> {
            let a = #[trigger] coeffs.values@[p];
            let r = coeffs.indices@[p] as int;
            let limit = s.limit_towards(r, a, sign);
            &&& a.times_spec(sign).finite()
            &&& a.absolute_spec().finite()
            &&& limit.finite() ==> limit.minus_spec(s.cur_bounds@[r]).over_spec(
                a,
            ).absolute_spec().finite()
        }
    &&& forall|k: int|
        0 <= k <= coeffs.indices@.len() ==> {
            let d = (#[trigger] s.leaving_scan(coeffs, near, far, k)).diff;
            d.finite() ==> d.minus_spec(tol).finite() && d.plus_spec(tol).finite()
        }
}

/// How far the basic variable in row `r` lets the entering variable go, if its limit is finite;
/// `e` is what it may exceed that limit by.
pub open spec fn allows<T: Scalar>(
    s: Solver<T>,
    a: T,
    r: int,
    sign: T,
    step: real,
    e: real,
) -> bool {
    let limit = s.limit_towards(r, a, sign);
    limit.finite() ==> abs_real(step) * abs_real(a.val()) <= abs_real(
        limit.val() - s.cur_bounds@[r].val(),
    ) + e
}

/// The value is within the limits of the variable `v`, but for `e`.
pub open spec fn value_within<T: Scalar>(s: Solver<T>, v: int, x: real, e: real) -> bool {
    &&& s.orig_var_mins@[v].finite() ==> s.orig_var_mins@[v].val() - e <= x
    &&& s.orig_var_maxs@[v].finite() ==> x <= s.orig_var_maxs@[v].val() + e
}

/// The step goes no farther than any row, and the limit on the other side, allow.
pub open spec fn least_ratio<T: Scalar>(
    s: Solver<T>,
    coeffs: SparseVec<T>,
    near: T,
    far: T,
    step: real,
) -> bool {
    let sign = far.minus_spec(near).signum_spec();
    &&& far.finite() ==> abs_real(step) <= abs_real(far.val() - near.val())
    &&& forall|p: int|
        0 <= p < coeffs.indices@.len() ==> #[trigger] allows(
            s,
            coeffs.values@[p],
            coeffs.indices@[p] as int,
            sign,
            step,
            0 as real,
        )
}

/// The entering variable is at its near limit, and leaves it towards the far one.
pub proof fn near_and_far<T: Scalar>(s: Solver<T>, c: int)
    requires
        exact::<T>(),
        sound(s),
        limits_in_order(s),
        0 <= c < s.non_basic_vars@.len(),
        !s.set_vars@.contains_key(s.non_basic_vars@[c]),
        s.far_limit(c).finite() ==> s.far_limit(c).minus_spec(s.near_limit(c)).finite(),
    ensures
        s.near_limit(c).finite(),
        s.near_limit(c).val() == s.non_basic_vals@[c].val(),
        s.far_limit(c).finite() || s.far_limit(c).infinite(),
        s.far_limit(c).minus_spec(s.near_limit(c)).signum_spec().finite(),
        s.far_limit(c).minus_spec(s.near_limit(c)).signum_spec().val() == heading(s, c),
        s.far_limit(c).finite() ==> heading(s, c) * (s.far_limit(c).val() - s.near_limit(c).val())
            >= 0 as real,
{
    let v = s.non_basic_vars@[c] as int;
    let x = s.non_basic_vals@[c];
    let (min, max) = (s.orig_var_mins@[v], s.orig_var_maxs@[v]);
    assert(at_limit(s, c));
    assert(x.finite());
    assert(s.orig_var_mins@[v] == min);
    if !x.same_spec(min) {
        assert(max.finite() && x.val() == max.val());
        if min.finite() {
            let d = min.val() - max.val();
            assert((-1 as real) * d == -d) by (nonlinear_arith);
        }
    } else {
        times_zero(max.val() - min.val());
    }
}

/// The ratio of a row.
pub open spec fn ratio<T: Scalar>(s: Solver<T>, a: T, r: int, sign: T) -> T {
    s.limit_towards(r, a, sign).minus_spec(s.cur_bounds@[r]).over_spec(a).absolute_spec()
}

/// The coefficient is passed over.
pub open spec fn passed_over<T: Scalar>(a: T) -> bool {
    a.absolute_spec().less_spec(T::tolerance_spec())
}

/// The choice of a row finds the least ratio, but for the tolerance once per entry.
pub proof fn scan_is_near_least<T: Scalar>(
    s: Solver<T>,
    coeffs: SparseVec<T>,
    near: T,
    far: T,
    k: int,
)
    requires
        exact::<T>(),
        near.finite(),
        far.finite() || far.infinite(),
        finite_ratios(s, coeffs, near, far),
        0 <= k <= coeffs.indices@.len(),
    ensures
        ({
            let best = s.leaving_scan(coeffs, near, far, k);
            let sign = far.minus_spec(near).signum_spec();
            let e = (k as real) * T::tolerance_spec().val();
            &&& best.row is None ==> best.diff == near.minus_spec(far).absolute_spec()
            &&& best.row is Some ==> best.diff.finite()
            &&& far.finite() ==> best.diff.finite() && best.diff.val() <= abs_real(
                far.val() - near.val(),
            ) + e
            &&& forall|p: int|
                0 <= p < k && !passed_over(#[trigger] coeffs.values@[p]) && s.limit_towards(
                    coeffs.indices@[p] as int,
                    coeffs.values@[p],
                    sign,
                ).finite() ==> best.diff.finite() && best.diff.val() <= ratio(
                    s,
                    coeffs.values@[p],
                    coeffs.indices@[p] as int,
                    sign,
                ).val() + e
        }),
    decreases k,
{
    let tol = T::tolerance_spec();
    let sign = far.minus_spec(near).signum_spec();
    if k == 0 {
        times_zero(tol.val());
        if far.finite() {
            assert(near.minus_spec(far).absolute_spec().finite());
        }
    } else {
        scan_is_near_least(s, coeffs, near, far, k - 1);
        let old = s.leaving_scan(coeffs, near, far, k - 1);
        let best = s.leaving_scan(coeffs, near, far, k);
        let r = coeffs.indices@[k - 1];
        let a = coeffs.values@[k - 1];
        let limit = s.limit_towards(r as int, a, sign);
        let q = limit.minus_spec(s.cur_bounds@[r as int]).over_spec(a);
        let d = q.absolute_spec();
        let w = tol.val();
        let (e, f) = ((k as real) * w, ((k - 1) as real) * w);
        assert(e == f + w && f >= 0 as real) by (nonlinear_arith)
            requires
                e == (k as real) * w,
                f == ((k - 1) as real) * w,
                k >= 1,
                w >= 0 as real,
        ;
        assert(a.absolute_spec().finite());
        if !passed_over(a) {
            if s.leaves_before(old, r, d, a) {
                assert(d.less_spec(old.diff.minus_spec(tol)) || d.less_spec(
                    old.diff.plus_spec(tol),
                ));
                assert(d.finite());
                if old.diff.finite() {
                    assert(d.val() < old.diff.val() + w);
                }
            } else if limit.finite() {
                assert(d.finite());
                if old.diff.finite() {
                    assert(old.diff.val() - w <= d.val());
                } else {
                    assert(far.infinite());
                    assert(d.less_spec(near.minus_spec(far).absolute_spec().minus_spec(tol)));
                }
            }
        }
        assert forall|p: int|
            0 <= p < k && !passed_over(#[trigger] coeffs.values@[p]) && s.limit_towards(
                coeffs.indices@[p] as int,
                coeffs.values@[p],
                sign,
            ).finite() implies best.diff.finite() && best.diff.val() <= ratio(
            s,
            coeffs.values@[p],
            coeffs.indices@[p] as int,
            sign,
        ).val() + e by {
            if p < k - 1 {
                assert(old.diff.finite() && old.diff.val() <= ratio(
                    s,
                    coeffs.values@[p],
                    coeffs.indices@[p] as int,
                    sign,
                ).val() + f);
            }
        }
    }
}

/// Without tolerance the choice of a row finds the least ratio.
proof fn scan_is_least<T: Scalar>(
    s: Solver<T>,
    coeffs: SparseVec<T>,
    near: T,
    far: T,
    k: int,
)
    requires
        exact::<T>(),
        T::tolerance_spec().val() == 0 as real,
        near.finite(),
        far.finite() || far.infinite(),
        finite_ratios(s, coeffs, near, far),
        0 <= k <= coeffs.indices@.len(),
    ensures
        ({
            let best = s.leaving_scan(coeffs, near, far, k);
            let sign = far.minus_spec(near).signum_spec();
            &&& best.row is None ==> best.diff == near.minus_spec(far).absolute_spec()
            &&& best.row is Some ==> best.diff.finite()
            &&& far.finite() ==> best.diff.finite() && best.diff.val() <= abs_real(
                far.val() - near.val(),
            )
            &&& forall|p: int|
                0 <= p < k && s.limit_towards(
                    coeffs.indices@[p] as int,
                    #[trigger] coeffs.values@[p],
                    sign,
                ).finite() ==> best.diff.finite() && best.diff.val() <= ratio(
                    s,
                    coeffs.values@[p],
                    coeffs.indices@[p] as int,
                    sign,
                ).val()
        }),
{
    scan_is_near_least(s, coeffs, near, far, k);
    times_zero(k as real);
    assert forall|p: int| 0 <= p < k implies !passed_over(#[trigger] coeffs.values@[p]) by {
        assert(coeffs.values@[p].absolute_spec().finite());
    }
}

/// The value of a stored coefficient.
pub proof fn coeff_at<T: Scalar>(coeffs: SparseVec<T>, r: int, m: int) -> (p: int)
    requires
        coeffs.wf(m),
        coeffs.stores(r),
    ensures
        0 <= p < coeffs.indices@.len(),
        coeffs.indices@[p] == r,
        coeffs.value(r) == coeffs.values@[p],
{
    let idx = coeffs.indices@;
    let p = place(idx, 0, idx.len() as int, r);
    at_place(idx, coeffs.values@, 0, idx.len() as int, p);
    p
}

/// A basic variable that moves towards a limit, no farther than that and the excess `e` allow, stays
/// within both but for the excess.
proof fn moved_within<T: Scalar>(
    s: Solver<T>,
    r: int,
    a: T,
    sign: T,
    head: real,
    step: real,
    e: real,
    x: real,
)
    requires
        exact::<T>(),
        row_within(s, r),
        a.finite(),
        a.val() != 0 as real,
        a.times_spec(sign).finite(),
        sign.val() == head,
        head == 1 as real || head == -1 as real,
        head * step >= 0 as real,
        allows(s, a, r, sign, step, e),
        e >= 0 as real,
        x == s.cur_bounds@[r].val() - step * a.val(),
    ensures
        value_within(s, s.basic_vars@[r] as int, x, e),
{
    let v = s.basic_vars@[r] as int;
    let cur = s.cur_bounds@[r].val();
    let (k, t) = (a.val(), step);
    let limit = s.limit_towards(r, a, sign);
    let (p, q) = (abs_real(t), abs_real(k));
    let up = a.times_spec(sign).less_spec(T::zero_spec());
    assert(up <==> k * head < 0 as real);
    if up {
        // the product of step and coefficient is not positive
        assert(t * k <= 0 as real && p * q == -(t * k)) by (nonlinear_arith)
            requires
                k * head < 0 as real,
                head * t >= 0 as real,
                head == 1 as real || head == -1 as real,
                p == if t < 0 as real {
                    -t
                } else {
                    t
                },
                q == if k < 0 as real {
                    -k
                } else {
                    k
                },
        ;
    } else {
        assert(t * k >= 0 as real && p * q == t * k) by (nonlinear_arith)
            requires
                k * head >= 0 as real,
                k != 0 as real,
                head * t >= 0 as real,
                head == 1 as real || head == -1 as real,
                p == if t < 0 as real {
                    -t
                } else {
                    t
                },
                q == if k < 0 as real {
                    -k
                } else {
                    k
                },
        ;
    }
}

/// From a vertex within the limits a step goes in the direction of the far limit.
proof fn step_heads_far<T: Scalar>(
    before: Solver<T>,
    mid: Solver<T>,
    after: Solver<T>,
    info: PivotInfo<T>,
)
    requires
        exact::<T>(),
        sound(before),
        limits_in_order(before),
        basics_within(before),
        step_made(before, mid, after, info, Ok(())),
        finite_step(mid, after, info),
        finite_ratios(
            before,
            mid.col_coeffs,
            before.near_limit(info.col as int),
            before.far_limit(info.col as int),
        ),
    ensures
        info.entering_diff.finite(),
        heading(before, info.col as int) * info.entering_diff.val() >= 0 as real,
{
    let c = info.col as int;
    let near = before.near_limit(c);
    let far = before.far_limit(c);
    let coeffs = mid.col_coeffs;
    let sign = far.minus_spec(near).signum_spec();
    let n = coeffs.indices@.len() as int;
    let best = before.leaving_scan(coeffs, near, far, n);
    let head = heading(before, c);
    let step = info.entering_diff.val();
    let m1 = choose|m1: Solver<T>| #[trigger] coeffs_prepared(before, m1, mid, c, best.row);
    assert(coeffs_prepared(before, m1, mid, c, best.row));
    assert(info == before.pivot_of(c, best));
    assert(!before.set_vars@.contains_key(before.non_basic_vars@[c]));
    near_and_far(before, c);
    leaving_scan_facts(before, coeffs, near, far, n);
    assert(after.cur_obj_val.finite());
    assert(info.entering_diff.finite());
    if info.elem is Some {
        let row = info.elem->0.row as int;
        let cur = before.cur_bounds@[row];
        let p = coeff_at(coeffs, row, before.m());
        let a = coeffs.values@[p];
        assert(row_within(before, row));
        assert(a.finite());
        assert(before.limit_towards(row, a, sign) == best.new_val) by {
            scan_limit(before, coeffs, near, far, n);
        }
        assert(cur.minus_spec(best.new_val).finite());
        let (d, k) = (cur.val() - best.new_val.val(), a.val());
        assert(step == d / k);
        assert(a.times_spec(sign).finite());
        let up = a.times_spec(sign).less_spec(T::zero_spec());
        assert(up <==> k * head < 0 as real);
        assert(head * (d / k) >= 0 as real) by (nonlinear_arith)
            requires
                k != 0 as real,
                head == 1 as real || head == -1 as real,
                k * head < 0 as real ==> d <= 0 as real,
                k * head >= 0 as real ==> d >= 0 as real,
        ;
    }
}

/// From a vertex within the limits a step never makes the objective worse: the objective value
/// falls by the rate of the column times the length of the step.
pub proof fn step_improves<T: Scalar>(
    before: Solver<T>,
    mid: Solver<T>,
    after: Solver<T>,
    info: PivotInfo<T>,
)
    requires
        exact::<T>(),
        sound(before),
        limits_in_order(before),
        basics_within(before),
        step_made(before, mid, after, info, Ok(())),
        finite_step(mid, after, info),
        finite_ratios(
            before,
            mid.col_coeffs,
            before.near_limit(info.col as int),
            before.far_limit(info.col as int),
        ),
        before.direction(info.col as int).finite(),
    ensures
        after.cur_obj_val.val() == before.cur_obj_val.val() - before.direction(
            info.col as int,
        ).val() * abs_real(info.entering_diff.val()),
        after.cur_obj_val.val() <= before.cur_obj_val.val(),
{
    let c = info.col as int;
    let head = heading(before, c);
    let step = info.entering_diff.val();
    step_heads_far(before, mid, after, info);
    let o = before.cur_obj@[c].val();
    assert(after.cur_obj_val.finite());
    assert(before.cur_obj@[c].finite());
    assert(after.cur_obj_val.val() == before.cur_obj_val.val() - o * step);
    let d = before.direction(c).val();
    assert(before.may_enter(c));
    assert(d == head * o) by {
        times_zero(o);
        assert((-1 as real) * o == -o) by (nonlinear_arith);
    }
    assert(d >= 0 as real);
    let len = abs_real(step);
    assert(o * step == d * len && d * len >= 0 as real) by (nonlinear_arith)
        requires
            d == head * o,
            d >= 0 as real,
            head == 1 as real || head == -1 as real,
            head * step >= 0 as real,
            len == if step < 0 as real {
                -step
            } else {
                step
            },
    ;
}

/// A step that goes no farther than the rows allow keeps the basic variables within their limits.
pub proof fn least_ratio_keeps_limits<T: Scalar>(
    before: Solver<T>,
    mid: Solver<T>,
    after: Solver<T>,
    info: PivotInfo<T>,
)
    requires
        exact::<T>(),
        sound(before),
        limits_in_order(before),
        basics_within(before),
        step_made(before, mid, after, info, Ok(())),
        finite_step(mid, after, info),
        finite_ratios(
            before,
            mid.col_coeffs,
            before.near_limit(info.col as int),
            before.far_limit(info.col as int),
        ),
        least_ratio(
            before,
            mid.col_coeffs,
            before.near_limit(info.col as int),
            before.far_limit(info.col as int),
            info.entering_diff.val(),
        ),
    ensures
        basics_within(after),
{
    let c = info.col as int;
    let near = before.near_limit(c);
    let far = before.far_limit(c);
    let coeffs = mid.col_coeffs;
    let sign = far.minus_spec(near).signum_spec();
    let n = coeffs.indices@.len() as int;
    let best = before.leaving_scan(coeffs, near, far, n);
    let head = heading(before, c);
    let step = info.entering_diff.val();
    let m1 = choose|m1: Solver<T>| #[trigger] coeffs_prepared(before, m1, mid, c, best.row);
    assert(coeffs_prepared(before, m1, mid, c, best.row));
    assert(info == before.pivot_of(c, best));
    assert(!before.set_vars@.contains_key(before.non_basic_vars@[c]));
    near_and_far(before, c);
    leaving_scan_facts(before, coeffs, near, far, n);
    step_heads_far(before, mid, after, info);
    assert forall|r: int| 0 <= r < after.m() implies #[trigger] row_within(after, r) by {
        assert(row_within(before, r));
        assert(after.cur_bounds@[r] == crate::pivot::moved_bound(mid, info, r));
        assert(after.cur_bounds@[r].finite());
        if info.elem is Some && info.elem->0.row == r {
            let d = far.val() - near.val();
            assert(far.finite() ==> head * d >= 0 as real);
            assert(far.finite() ==> abs_real(step) <= abs_real(d));
            assert(after.cur_bounds@[r].val() == near.val() + step);
            if head == 1 as real {
                times_zero(step);
                times_zero(d);
            } else {
                assert((-1 as real) * step == -step) by (nonlinear_arith);
                assert((-1 as real) * d == -d) by (nonlinear_arith);
            }
        } else if coeffs.stores(r) {
            let p = coeff_at(coeffs, r, before.m());
            let a = coeffs.values@[p];
            assert(a.finite());
            assert(!a.same_spec(T::zero_spec())) by {
                assert(coeffs.stores(r));
            }
            assert(allows(
                before,
                coeffs.values@[p],
                coeffs.indices@[p] as int,
                sign,
                step,
                0 as real,
            ));
            assert(a.times_spec(sign).finite());
            moved_within(before, r, a, sign, head, step, 0 as real, after.cur_bounds@[r].val());
        }
    }
}

/// The value that a variable leaves with is the limit that it goes to.
proof fn scan_limit<T: Scalar>(s: Solver<T>, coeffs: SparseVec<T>, near: T, far: T, k: int)
    requires
        coeffs.wf(s.m()),
        0 <= k <= coeffs.indices@.len(),
    ensures
        ({
            let best = s.leaving_scan(coeffs, near, far, k);
            best.row matches Some(row) ==> best.new_val == s.limit_towards(
                row as int,
                coeffs.value(row as int),
                far.minus_spec(near).signum_spec(),
            ) && best.diff == ratio(
                s,
                coeffs.value(row as int),
                row as int,
                far.minus_spec(near).signum_spec(),
            )
        }),
    decreases k,
{
    if k > 0 {
        scan_limit(s, coeffs, near, far, k - 1);
        at_place(coeffs.indices@, coeffs.values@, 0, coeffs.indices@.len() as int, k - 1);
    }
}

/// The step has the length that the choice of a row gives it, if that is finite.
pub proof fn step_has_ratio<T: Scalar>(
    before: Solver<T>,
    mid: Solver<T>,
    after: Solver<T>,
    info: PivotInfo<T>,
)
    requires
        exact::<T>(),
        sound(before),
        limits_in_order(before),
        step_made(before, mid, after, info, Ok(())),
        finite_step(mid, after, info),
        finite_ratios(
            before,
            mid.col_coeffs,
            before.near_limit(info.col as int),
            before.far_limit(info.col as int),
        ),
    ensures
        ({
            let c = info.col as int;
            let best = before.leaving_scan(
                mid.col_coeffs,
                before.near_limit(c),
                before.far_limit(c),
                mid.col_coeffs.indices@.len() as int,
            );
            best.diff.finite() ==> abs_real(info.entering_diff.val()) == best.diff.val()
        }),
{
    let c = info.col as int;
    let near = before.near_limit(c);
    let far = before.far_limit(c);
    let coeffs = mid.col_coeffs;
    let n = coeffs.indices@.len() as int;
    let best = before.leaving_scan(coeffs, near, far, n);
    let step = info.entering_diff.val();
    let m1 = choose|m1: Solver<T>| #[trigger] coeffs_prepared(before, m1, mid, c, best.row);
    assert(coeffs_prepared(before, m1, mid, c, best.row));
    assert(info == before.pivot_of(c, best));
    near_and_far(before, c);
    scan_is_near_least(before, coeffs, near, far, n);
    leaving_scan_facts(before, coeffs, near, far, n);
    scan_limit(before, coeffs, near, far, n);
    assert(after.cur_obj_val.finite());
    assert(info.entering_diff.finite());
    if info.elem is Some {
        let row = info.elem->0.row as int;
        let cur = before.cur_bounds@[row];
        let p = coeff_at(coeffs, row, before.m());
        let a = coeffs.values@[p];
        assert(cur.minus_spec(best.new_val).finite());
        let (d, k) = (cur.val() - best.new_val.val(), a.val());
        assert(step == d / k);
        assert((-d) / k == -(d / k)) by (nonlinear_arith)
            requires
                k != 0 as real,
        ;
        assert(best.diff.val() == abs_real((-d) / k));
    }
}

/// A step that is no longer than the ratio of a row and `e`.
pub proof fn row_allows<T: Scalar>(s: Solver<T>, a: T, r: int, sign: T, step: real, e: real)
    requires
        exact::<T>(),
        s.limit_towards(r, a, sign).finite(),
        ratio(s, a, r, sign).finite(),
        abs_real(step) <= ratio(s, a, r, sign).val() + e,
        e >= 0 as real,
    ensures
        allows(s, a, r, sign, step, e * abs_real(a.val())),
{
    let limit = s.limit_towards(r, a, sign);
    let (d, k) = (limit.val() - s.cur_bounds@[r].val(), a.val());
    assert(ratio(s, a, r, sign).val() == abs_real(d / k));
    let (t, u, w) = (abs_real(step), abs_real(k), abs_real(d));
    let x = abs_real(d / k);
    assert(x * u == w) by (nonlinear_arith)
        requires
            k != 0 as real,
            x == if d / k < 0 as real {
                -(d / k)
            } else {
                d / k
            },
            u == if k < 0 as real {
                -k
            } else {
                k
            },
            w == if d < 0 as real {
                -d
            } else {
                d
            },
    ;
    assert(t * u <= x * u + e * u) by (nonlinear_arith)
        requires
            t <= x + e,
            u >= 0 as real,
    ;
}

/// Without tolerance every step of the primal method keeps the basic variables within their
/// limits.
pub proof fn step_stays_feasible<T: Scalar>(
    before: Solver<T>,
    mid: Solver<T>,
    after: Solver<T>,
    info: PivotInfo<T>,
)
    requires
        exact::<T>(),
        T::tolerance_spec().val() == 0 as real,
        sound(before),
        limits_in_order(before),
        basics_within(before),
        step_made(before, mid, after, info, Ok(())),
        finite_step(mid, after, info),
        finite_ratios(
            before,
            mid.col_coeffs,
            before.near_limit(info.col as int),
            before.far_limit(info.col as int),
        ),
    ensures
        basics_within(after),
{
    let c = info.col as int;
    let near = before.near_limit(c);
    let far = before.far_limit(c);
    let coeffs = mid.col_coeffs;
    let sign = far.minus_spec(near).signum_spec();
    let n = coeffs.indices@.len() as int;
    let best = before.leaving_scan(coeffs, near, far, n);
    let step = info.entering_diff.val();
    let m1 = choose|m1: Solver<T>| #[trigger] coeffs_prepared(before, m1, mid, c, best.row);
    assert(coeffs_prepared(before, m1, mid, c, best.row));
    assert(info == before.pivot_of(c, best));
    near_and_far(before, c);
    scan_is_least(before, coeffs, near, far, n);
    leaving_scan_facts(before, coeffs, near, far, n);
    scan_limit(before, coeffs, near, far, n);
    assert(after.cur_obj_val.finite());
    assert(info.entering_diff.finite());
    step_has_ratio(before, mid, after, info);
    assert forall|p: int| 0 <= p < n implies #[trigger] allows(
        before,
        coeffs.values@[p],
        coeffs.indices@[p] as int,
        sign,
        step,
        0 as real,
    ) by {
        let a = coeffs.values@[p];
        let r = coeffs.indices@[p] as int;
        let limit = before.limit_towards(r, a, sign);
        if limit.finite() {
            assert(ratio(before, a, r, sign).finite());
            row_allows(before, a, r, sign, step, 0 as real);
            times_zero(a.val());
        }
    }
    assert(least_ratio(before, coeffs, near, far, step));
    least_ratio_keeps_limits(before, mid, after, info);
}

/// By how much the variable that is basic in row `r` after a step may miss its limits: the entering
/// one by the tolerance per entry of the column, the others by their share of that, or of the
/// step where their coefficient was passed over.
pub open spec fn excess<T: Scalar>(mid: Solver<T>, info: PivotInfo<T>, r: int) -> real {
    let coeffs = mid.col_coeffs;
    let most = (coeffs.indices@.len() as real) * T::tolerance_spec().val();
    if info.elem is Some && info.elem->0.row == r {
        most
    } else if !coeffs.stores(r) {
        0 as real
    } else if passed_over(coeffs.value(r)) {
        abs_real(info.entering_diff.val()) * abs_real(coeffs.value(r).val())
    } else {
        most * abs_real(coeffs.value(r).val())
    }
}

/// From a vertex within the limits every step of the primal method keeps the basic variables within
/// their limits, but for what the tolerance allows.
pub proof fn step_stays_nearly_feasible<T: Scalar>(
    before: Solver<T>,
    mid: Solver<T>,
    after: Solver<T>,
    info: PivotInfo<T>,
)
    requires
        exact::<T>(),
        sound(before),
        limits_in_order(before),
        basics_within(before),
        step_made(before, mid, after, info, Ok(())),
        finite_step(mid, after, info),
        finite_ratios(
            before,
            mid.col_coeffs,
            before.near_limit(info.col as int),
            before.far_limit(info.col as int),
        ),
    ensures
        forall|r: int|
            0 <= r < after.m() ==> #[trigger] value_within(
                after,
                after.basic_vars@[r] as int,
                after.cur_bounds@[r].val(),
                excess(mid, info, r),
            ),
{
    let c = info.col as int;
    let near = before.near_limit(c);
    let far = before.far_limit(c);
    let coeffs = mid.col_coeffs;
    let sign = far.minus_spec(near).signum_spec();
    let n = coeffs.indices@.len() as int;
    let best = before.leaving_scan(coeffs, near, far, n);
    let step = info.entering_diff.val();
    let head = heading(before, c);
    let most = (n as real) * T::tolerance_spec().val();
    assert(most >= 0 as real) by (nonlinear_arith)
        requires
            most == (n as real) * T::tolerance_spec().val(),
            n >= 0,
            T::tolerance_spec().val() >= 0 as real,
    ;
    let m1 = choose|m1: Solver<T>| #[trigger] coeffs_prepared(before, m1, mid, c, best.row);
    assert(coeffs_prepared(before, m1, mid, c, best.row));
    assert(info == before.pivot_of(c, best));
    near_and_far(before, c);
    scan_is_near_least(before, coeffs, near, far, n);
    leaving_scan_facts(before, coeffs, near, far, n);
    step_has_ratio(before, mid, after, info);
    step_heads_far(before, mid, after, info);
    assert forall|r: int| 0 <= r < after.m() implies #[trigger] value_within(
        after,
        after.basic_vars@[r] as int,
        after.cur_bounds@[r].val(),
        excess(mid, info, r),
    ) by {
        assert(row_within(before, r));
        assert(after.cur_bounds@[r] == crate::pivot::moved_bound(mid, info, r));
        assert(after.cur_bounds@[r].finite());
        let e = excess(mid, info, r);
        if info.elem is Some && info.elem->0.row == r {
            let d = far.val() - near.val();
            assert(far.finite() ==> head * d >= 0 as real);
            assert(far.finite() ==> abs_real(step) <= abs_real(d) + most);
            assert(after.cur_bounds@[r].val() == near.val() + step);
            if head == 1 as real {
                times_zero(step);
                times_zero(d);
            } else {
                assert((-1 as real) * step == -step) by (nonlinear_arith);
                assert((-1 as real) * d == -d) by (nonlinear_arith);
            }
        } else if coeffs.stores(r) {
            let p = coeff_at(coeffs, r, before.m());
            let a = coeffs.values@[p];
            assert(a.finite());
            assert(a.times_spec(sign).finite());
            let limit = before.limit_towards(r, a, sign);
            let (t, u) = (abs_real(step), abs_real(a.val()));
            assert(t * u >= 0 as real && most * u >= 0 as real) by (nonlinear_arith)
                requires
                    t >= 0 as real,
                    u >= 0 as real,
                    most >= 0 as real,
            ;
            if limit.finite() && !passed_over(a) {
                assert(ratio(before, coeffs.values@[p], r, sign).finite());
                assert(best.diff.val() <= ratio(
                    before,
                    coeffs.values@[p],
                    coeffs.indices@[p] as int,
                    sign,
                ).val() + most);
                row_allows(before, a, r, sign, step, most);
            }
            assert(allows(before, a, r, sign, step, e));
            moved_within(before, r, a, sign, head, step, e, after.cur_bounds@[r].val());
        }
    }
}

/// A step whose numbers are finite, those of the choice of a row among them.
pub open spec fn finite_choice_step<T: Scalar>(before: Solver<T>, after: Solver<T>) -> bool {
    exists|mid: Solver<T>, info: PivotInfo<T>| #[trigger]
        step_made(before, mid, after, info, Ok(())) && finite_step(mid, after, info)
            && before.direction(info.col as int).finite() && finite_ratios(
            before,
            mid.col_coeffs,
            before.near_limit(info.col as int),
            before.far_limit(info.col as int),
        )
}

pub open spec fn finite_choice_at<T: Scalar>(s: Seq<Solver<T>>, i: int) -> bool {
    finite_choice_step(s[i], s[i + 1])
}

/// Without tolerance all vertices on a path of the primal method are within the limits if the
/// first one is, and none is worse than the first.
pub proof fn path_stays_feasible<T: Scalar>(s: Seq<Solver<T>>, k: int)
    requires
        exact::<T>(),
        T::tolerance_spec().val() == 0 as real,
        primal_path(s),
        forall|i: int| 0 <= i < s.len() - 1 ==> #[trigger] finite_choice_at(s, i),
        sound(s[0]),
        limits_in_order(s[0]),
        basics_within(s[0]),
        0 <= k < s.len(),
    ensures
        sound(s[k]),
        limits_in_order(s[k]),
        basics_within(s[k]),
        s[k].cur_obj_val.val() <= s[0].cur_obj_val.val(),
    decreases k,
{
    if k > 0 {
        path_stays_feasible(s, k - 1);
        assert(finite_choice_at(s, k - 1));
        let before = s[k - 1];
        let (mid, info) = choose|mid: Solver<T>, info: PivotInfo<T>| #[trigger]
            step_made(before, mid, s[k], info, Ok(())) && finite_step(mid, s[k], info)
                && before.direction(info.col as int).finite() && finite_ratios(
                before,
                mid.col_coeffs,
                before.near_limit(info.col as int),
                before.far_limit(info.col as int),
            );
        assert(s[k].wf());
        step_keeps(before, mid, s[k], info);
        step_stays_feasible(before, mid, s[k], info);
        step_improves(before, mid, s[k], info);
        assert forall|v: int| 0 <= v < s[k].total() implies {
            let (min, max) = (#[trigger] s[k].orig_var_mins@[v], s[k].orig_var_maxs@[v]);
            &&& min.finite() || min.infinite()
            &&& max.finite() || max.infinite()
            &&& !max.less_spec(min)
        } by {
            assert(before.orig_var_mins@[v] == s[k].orig_var_mins@[v]);
        }
    }
}

/// The basic variables of the first vertex are within their limits.
pub proof fn start_is_within<T: Scalar>(input: Input<T>, s: Solver<T>)
    requires
        exact::<T>(),
        input.wf(),
        started(input, s),
        s.wf(),
        finite_vertex(s),
    ensures
        basics_within(s),
{
    assert forall|r: int| 0 <= r < s.m() implies #[trigger] row_within(s, r) by {
        input.basic_entry(r, r);
        input.live_facts(input.constraints.len() as int);
        input.counts(0, input.m());
        let v = input.basic_var(r);
        assert(s.basic_vars@[r] == v);
        assert(s.orig_var_mins@[v] == T::zero_spec());
        assert(s.orig_var_maxs@[v] == T::infinity_spec());
        assert(s.cur_bounds@[r].finite());
    }
}

/// When the artificial variables are taken out, the basic variables stay within their limits.
pub proof fn freed_is_within<T: Scalar>(x: Solver<T>, after: Solver<T>)
    requires
        x.wf(),
        after.wf(),
        freed(x, after),
        basics_within(x),
    ensures
        basics_within(after),
{
    assert forall|r: int| 0 <= r < after.m() implies #[trigger] row_within(after, r) by {
        assert(row_within(x, r));
    }
}

} // verus!
