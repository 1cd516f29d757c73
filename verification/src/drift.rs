//! How far the tolerance takes a path of the primal method beyond the limits, where arithmetic is
//! exact.
use crate::feasible::{
    allows, basics_within, coeff_at, finite_choice_at, finite_ratios, heading, least_ratio,
    least_ratio_keeps_limits, limits_in_order, near_and_far, passed_over, ratio, row_allows,
    row_within, scan_is_near_least, step_has_ratio, step_stays_feasible, value_within,
};
use crate::phases::{primal_path, step_made};
use crate::pricing::coeffs_prepared;
use crate::scalar::{abs_real, exact, Scalar};
use crate::simplex::{PivotInfo, Solver};
use crate::steps::{
    finite_primal_at, finite_primal_path, finite_step, leaving_scan_facts, step_keeps,
};
use crate::sums::times_zero;
use crate::vertex::sound;
use vstd::prelude::*;

verus! {

/// The step goes away from the far limit: the row that it was taken from was beyond its own limit.
pub open spec fn goes_back<T: Scalar>(before: Solver<T>, info: PivotInfo<T>) -> bool {
    heading(before, info.col as int) * info.entering_diff.val() < 0 as real
}

/// By how much the variable that is basic in row `r` after a step may miss its limits, if the one
/// that is basic there before it misses them by no more than `e`.
pub open spec fn drift<T: Scalar>(
    before: Solver<T>,
    mid: Solver<T>,
    info: PivotInfo<T>,
    e: real,
    r: int,
) -> real {
    let coeffs = mid.col_coeffs;
    let most = (coeffs.indices@.len() as real) * T::tolerance_spec().val();
    let step = abs_real(info.entering_diff.val());
    let size = abs_real(coeffs.value(r).val());
    if info.elem is Some && info.elem->0.row == r {
        if goes_back(before, info) {
            step
        } else {
            most
        }
    } else if !coeffs.stores(r) {
        e
    } else if goes_back(before, info) || passed_over(coeffs.value(r)) {
        e + step * size
    } else {
        e + e + most * size
    }
}

/// A basic variable that misses its limits by no more than `e`, and moves towards one of them no
/// farther than that and `f` allow.
proof fn drifts_within<T: Scalar>(
    s: Solver<T>,
    r: int,
    a: T,
    sign: T,
    head: real,
    step: real,
    e: real,
    f: real,
    x: real,
)
    requires
        exact::<T>(),
        value_within(s, s.basic_vars@[r] as int, s.cur_bounds@[r].val(), e),
        a.finite(),
        a.val() != 0 as real,
        a.times_spec(sign).finite(),
        sign.val() == head,
        head == 1 as real || head == -1 as real,
        head * step >= 0 as real,
        allows(s, a, r, sign, step, f),
        e >= 0 as real,
        f >= 0 as real,
        x == s.cur_bounds@[r].val() - step * a.val(),
    ensures
        value_within(s, s.basic_vars@[r] as int, x, e + e + f),
{
    let (k, t) = (a.val(), step);
    let (p, q) = (abs_real(t), abs_real(k));
    let up = a.times_spec(sign).less_spec(T::zero_spec());
    assert(up <==> k * head < 0 as real);
    if up {
        assert(t * k <= 0 as real && p * q == -(t * k)) by (nonlinear_arith)
            requires
                k * head < 0 as real,
                head * t >= 0 as real,
                head == 1 as real || head == -1 as real,
                p == if t < 0 as real {
                    -t
                } else {
                    t
                },
                q == if k < 0 as real {
                    -k
                } else {
                    k
                },
        ;
    } else {
        assert(t * k >= 0 as real && p * q == t * k) by (nonlinear_arith)
            requires
                k * head >= 0 as real,
                k != 0 as real,
                head * t >= 0 as real,
                head == 1 as real || head == -1 as real,
                p == if t < 0 as real {
                    -t
                } else {
                    t
                },
                q == if k < 0 as real {
                    -k
                } else {
                    k
                },
        ;
    }
}

proof fn product_size(t: real, k: real)
    ensures
        abs_real(t) * abs_real(k) == abs_real(t * k),
        abs_real(t) * abs_real(k) >= 0 as real,
{
    assert(abs_real(t) * abs_real(k) == abs_real(t * k)) by (nonlinear_arith)
        requires
            abs_real(t) == (if t < 0 as real { -t } else { t }),
            abs_real(k) == (if k < 0 as real { -k } else { k }),
            abs_real(t * k) == (if t * k < 0 as real { -(t * k) } else { t * k }),
    ;
}

/// What a step of the primal method does to the basic variables that miss their limits a little.
pub proof fn step_drifts<T: Scalar>(
    before: Solver<T>,
    mid: Solver<T>,
    after: Solver<T>,
    info: PivotInfo<T>,
    e: real,
    r: int,
)
    requires
        exact::<T>(),
        sound(before),
        limits_in_order(before),
        step_made(before, mid, after, info, Ok(())),
        finite_step(mid, after, info),
        finite_ratios(
            before,
            mid.col_coeffs,
            before.near_limit(info.col as int),
            before.far_limit(info.col as int),
        ),
        0 <= r < before.m(),
        e >= 0 as real,
        value_within(before, before.basic_vars@[r] as int, before.cur_bounds@[r].val(), e),
    ensures
        drift(before, mid, info, e, r) >= 0 as real,
        value_within(
            after,
            after.basic_vars@[r] as int,
            after.cur_bounds@[r].val(),
            drift(before, mid, info, e, r),
        ),
{
    let c = info.col as int;
    let near = before.near_limit(c);
    let far = before.far_limit(c);
    let coeffs = mid.col_coeffs;
    let sign = far.minus_spec(near).signum_spec();
    let n = coeffs.indices@.len() as int;
    let best = before.leaving_scan(coeffs, near, far, n);
    let step = info.entering_diff.val();
    let head = heading(before, c);
    let most = (n as real) * T::tolerance_spec().val();
    assert(most >= 0 as real) by (nonlinear_arith)
        requires
            most == (n as real) * T::tolerance_spec().val(),
            n >= 0,
            T::tolerance_spec().val() >= 0 as real,
    ;
    let m1 = choose|m1: Solver<T>| #[trigger] coeffs_prepared(before, m1, mid, c, best.row);
    assert(coeffs_prepared(before, m1, mid, c, best.row));
    assert(info == before.pivot_of(c, best));
    near_and_far(before, c);
    scan_is_near_least(before, coeffs, near, far, n);
    leaving_scan_facts(before, coeffs, near, far, n);
    step_has_ratio(before, mid, after, info);
    assert(after.cur_obj_val.finite());
    assert(info.entering_diff.finite());
    assert(after.cur_bounds@[r] == crate::pivot::moved_bound(mid, info, r));
    assert(after.cur_bounds@[r].finite());
    let d = drift(before, mid, info, e, r);
    if info.elem is Some && info.elem->0.row == r {
        let gap = far.val() - near.val();
        assert(far.finite() ==> head * gap >= 0 as real);
        assert(far.finite() ==> abs_real(step) <= abs_real(gap) + most);
        assert(after.cur_bounds@[r].val() == near.val() + step);
        if head == 1 as real {
            times_zero(step);
            times_zero(gap);
        } else {
            assert((-1 as real) * step == -step) by (nonlinear_arith);
            assert((-1 as real) * gap == -gap) by (nonlinear_arith);
        }
        assert(value_within(after, after.basic_vars@[r] as int, after.cur_bounds@[r].val(), d));
    } else if coeffs.stores(r) {
        let p = coeff_at(coeffs, r, before.m());
        let a = coeffs.values@[p];
        assert(a.finite());
        assert(a.times_spec(sign).finite());
        let x = after.cur_bounds@[r].val();
        assert(x == before.cur_bounds@[r].val() - step * a.val());
        product_size(step, a.val());
        let u = abs_real(a.val());
        assert(most * u >= 0 as real) by (nonlinear_arith)
            requires
                u >= 0 as real,
                most >= 0 as real,
        ;
        if !(goes_back(before, info) || passed_over(a)) {
            let limit = before.limit_towards(r, a, sign);
            if limit.finite() {
                assert(ratio(before, coeffs.values@[p], r, sign).finite());
                assert(best.diff.val() <= ratio(
                    before,
                    coeffs.values@[p],
                    coeffs.indices@[p] as int,
                    sign,
                ).val() + most);
                row_allows(before, a, r, sign, step, most);
            }
            assert(allows(before, a, r, sign, step, most * u));
            drifts_within(before, r, a, sign, head, step, e, most * u, x);
        }
    }
}

/// The basic variables miss their limits by no more than `e` of their row.
pub open spec fn misses_by<T: Scalar>(s: Solver<T>, e: spec_fn(int) -> real) -> bool {
    forall|r: int|
        0 <= r < s.m() ==> #[trigger] e(r) >= 0 as real && value_within(
            s,
            s.basic_vars@[r] as int,
            s.cur_bounds@[r].val(),
            e(r),
        )
}

/// Basic variables that are within their limits miss them by nothing.
pub proof fn within_misses_nothing<T: Scalar>(s: Solver<T>, e: spec_fn(int) -> real)
    requires
        basics_within(s),
        forall|r: int| 0 <= r < s.m() ==> #[trigger] e(r) >= 0 as real,
    ensures
        misses_by(s, e),
{
    assert forall|r: int| 0 <= r < s.m() implies #[trigger] e(r) >= 0 as real && value_within(
        s,
        s.basic_vars@[r] as int,
        s.cur_bounds@[r].val(),
        e(r),
    ) by {
        assert(row_within(s, r));
    }
}

/// The vertices that a climb comes through, and what its steps are taken with.
pub struct Trail<T> {
    pub path: Seq<Solver<T>>,
    pub mids: Seq<Solver<T>>,
    pub infos: Seq<PivotInfo<T>>,
}

impl<T: Scalar> Trail<T> {
    /// Step `i` is taken, and its numbers are finite, those of the choice of a row among them.
    pub open spec fn step_taken(self, i: int) -> bool {
        &&& step_made(self.path[i], self.mids[i], self.path[i + 1], self.infos[i], Ok(()))
        &&& finite_step(self.mids[i], self.path[i + 1], self.infos[i])
        &&& finite_ratios(
            self.path[i],
            self.mids[i].col_coeffs,
            self.path[i].near_limit(self.infos[i].col as int),
            self.path[i].far_limit(self.infos[i].col as int),
        )
    }

    pub open spec fn taken(self) -> bool {
        &&& self.path.len() >= 1
        &&& forall|i: int| 0 <= i < self.path.len() ==> (#[trigger] self.path[i]).wf()
        &&& forall|i: int| 0 <= i < self.path.len() - 1 ==> #[trigger] self.step_taken(i)
    }

    /// Step `i` goes no farther than the rows and the limit on the other side allow.
    pub open spec fn step_sharp(self, i: int) -> bool {
        let c = self.infos[i].col as int;
        least_ratio(
            self.path[i],
            self.mids[i].col_coeffs,
            self.path[i].near_limit(c),
            self.path[i].far_limit(c),
            self.infos[i].entering_diff.val(),
        )
    }

    /// In no choice of a row is a difference lost in the tolerance. Without tolerance none is.
    pub open spec fn sharp(self) -> bool {
        T::tolerance_spec().val() == 0 as real || forall|i: int|
            0 <= i < self.path.len() - 1 ==> #[trigger] self.step_sharp(i)
    }

    /// By how much the variable that is basic in row `r` may miss its limits after `k` steps, if the
    /// one that is basic there at first misses them by no more than `e(r)`.
    pub open spec fn drifted(self, e: spec_fn(int) -> real, k: int, r: int) -> real
        decreases k,
    {
        if k <= 0 {
            e(r)
        } else {
            drift(
                self.path[k - 1],
                self.mids[k - 1],
                self.infos[k - 1],
                self.drifted(e, k - 1, r),
                r,
            )
        }
    }

    /// What the tolerance adds up to at the end.
    pub open spec fn drift(self, e: spec_fn(int) -> real) -> spec_fn(int) -> real {
        |r: int| self.drifted(e, self.path.len() - 1, r)
    }

    /// The vertices have what every vertex keeps.
    pub proof fn keeps(self, k: int)
        requires
            exact::<T>(),
            self.taken(),
            sound(self.path[0]),
            limits_in_order(self.path[0]),
            0 <= k < self.path.len(),
        ensures
            sound(self.path[k]),
            self.path[k].same_program(self.path[0]),
            self.path[k].set_vars == self.path[0].set_vars,
            limits_in_order(self.path[k]),
        decreases k,
    {
        if k > 0 {
            self.keeps(k - 1);
            assert(self.step_taken(k - 1));
            assert(self.path[k].wf());
            step_keeps(self.path[k - 1], self.mids[k - 1], self.path[k], self.infos[k - 1]);
            order_stays(self.path[0], self.path[k]);
        }
    }

    /// On a path of the primal method the vertices miss their limits by no more than what the first
    /// one misses them by and the tolerance add up to.
    pub proof fn drifts(self, e: spec_fn(int) -> real, k: int)
        requires
            exact::<T>(),
            self.taken(),
            sound(self.path[0]),
            limits_in_order(self.path[0]),
            misses_by(self.path[0], e),
            0 <= k < self.path.len(),
        ensures
            misses_by(self.path[k], |r: int| self.drifted(e, k, r)),
        decreases k,
    {
        let s = self.path[k];
        let f = |r: int| self.drifted(e, k, r);
        if k == 0 {
            assert forall|r: int| 0 <= r < s.m() implies #[trigger] f(r) >= 0 as real
                && value_within(s, s.basic_vars@[r] as int, s.cur_bounds@[r].val(), f(r)) by {
                assert(e(r) >= 0 as real);
            }
        } else {
            let before = self.path[k - 1];
            let (mid, info) = (self.mids[k - 1], self.infos[k - 1]);
            self.drifts(e, k - 1);
            self.keeps(k - 1);
            assert(self.step_taken(k - 1));
            let g = |r: int| self.drifted(e, k - 1, r);
            assert forall|r: int| 0 <= r < s.m() implies #[trigger] f(r) >= 0 as real
                && value_within(s, s.basic_vars@[r] as int, s.cur_bounds@[r].val(), f(r)) by {
                assert(g(r) >= 0 as real);
                step_drifts(before, mid, s, info, g(r), r);
            }
        }
    }

    /// Where no difference is lost in the tolerance, the vertices stay within their limits.
    pub proof fn stays_within(self, k: int)
        requires
            exact::<T>(),
            self.taken(),
            self.sharp(),
            sound(self.path[0]),
            limits_in_order(self.path[0]),
            basics_within(self.path[0]),
            0 <= k < self.path.len(),
        ensures
            basics_within(self.path[k]),
        decreases k,
    {
        if k > 0 {
            self.stays_within(k - 1);
            self.keeps(k - 1);
            assert(self.step_taken(k - 1));
            let (before, after) = (self.path[k - 1], self.path[k]);
            let (mid, info) = (self.mids[k - 1], self.infos[k - 1]);
            if T::tolerance_spec().val() == 0 as real {
                step_stays_feasible(before, mid, after, info);
            } else {
                assert(self.step_sharp(k - 1));
                least_ratio_keeps_limits(before, mid, after, info);
            }
        }
    }
}

/// The limits of the same program are in order.
pub proof fn order_stays<T: Scalar>(s: Solver<T>, t: Solver<T>)
    requires
        limits_in_order(s),
        t.same_program(s),
    ensures
        limits_in_order(t),
{
    assert forall|v: int| 0 <= v < t.total() implies {
        let (min, max) = (#[trigger] t.orig_var_mins@[v], t.orig_var_maxs@[v]);
        &&& min.finite() || min.infinite()
        &&& max.finite() || max.infinite()
        &&& !max.less_spec(min)
    } by {
        assert(s.orig_var_mins@[v] == t.orig_var_mins@[v]);
    }
}

/// A path whose steps are finite, with the choices of rows.
pub open spec fn finite_choices<T: Scalar>(path: Seq<Solver<T>>) -> bool {
    forall|i: int| 0 <= i < path.len() - 1 ==> #[trigger] finite_choice_at(path, i)
}

/// Such a path has a trail.
pub proof fn path_has_trail<T: Scalar>(path: Seq<Solver<T>>) -> (t: Trail<T>)
    requires
        primal_path(path),
        finite_choices(path),
    ensures
        t.path == path,
        t.taken(),
        finite_primal_path(path),
{
    let pick = |i: int|
        choose|mid: Solver<T>, info: PivotInfo<T>| #[trigger]
            step_made(path[i], mid, path[i + 1], info, Ok(())) && finite_step(
                mid,
                path[i + 1],
                info,
            ) && path[i].direction(info.col as int).finite() && finite_ratios(
                path[i],
                mid.col_coeffs,
                path[i].near_limit(info.col as int),
                path[i].far_limit(info.col as int),
            );
    let n = (path.len() - 1) as nat;
    let t = Trail {
        path,
        mids: Seq::new(n, |i: int| pick(i).0),
        infos: Seq::new(n, |i: int| pick(i).1),
    };
    assert forall|i: int| 0 <= i < path.len() - 1 implies #[trigger] t.step_taken(i) by {
        assert(finite_choice_at(path, i));
    }
    assert forall|i: int| 0 <= i < path.len() - 1 implies #[trigger] finite_primal_at(path, i) by {
        assert(t.step_taken(i));
        assert(step_made(path[i], t.mids[i], path[i + 1], t.infos[i], Ok(())) && finite_step(
            t.mids[i],
            path[i + 1],
            t.infos[i],
        ));
    }
    t
}

} // verus!
