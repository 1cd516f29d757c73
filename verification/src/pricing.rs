//! The choice of the variables that enter and leave the basis.
use crate::error::Error;
use crate::scalar::Scalar;
use crate::simplex::{col_coeffs_of, row_coeffs_of, PivotElem, PivotInfo, Solver};
use crate::sparse::SparseVec;
use vstd::prelude::*;

verus! {

/// The best column so far and its score.
#[derive(Clone, Copy, Debug)]
pub struct EnteringScan<T> {
    pub col: Option<usize>,
    pub score: T,
}

/// The best row so far, how far it lets the entering variable go, its coefficient and the value
/// that its variable leaves with.
#[derive(Clone, Copy, Debug)]
pub struct LeavingScan<T> {
    pub row: Option<usize>,
    pub diff: T,
    pub coeff: T,
    pub new_val: T,
}

/// The worst row so far, by how much its variable misses a limit, and that limit.
#[derive(Clone, Copy, Debug)]
pub struct DualLeavingScan<T> {
    pub row: Option<usize>,
    pub infeasibility: T,
    pub new_val: T,
}

/// The best column so far, what it costs, and its coefficient.
#[derive(Clone, Copy, Debug)]
pub struct DualEnteringScan<T> {
    pub col: Option<usize>,
    pub diff: T,
    pub coeff_abs: T,
    pub coeff: T,
}

impl<T: Scalar> Solver<T> {
    /// The rate at which the objective falls when the variable in column `c` leaves its limit.
    pub open spec fn direction(self, c: int) -> T {
        if self.non_basic_vals@[c].same_spec(self.orig_var_mins@[self.non_basic_vars@[c] as int]) {
            self.cur_obj@[c]
        } else {
            self.cur_obj@[c].negated_spec()
        }
    }

    /// Whether the variable in column `c` improves the objective and is not set.
    pub open spec fn may_enter(self, c: int) -> bool {
        &&& !self.direction(c).less_spec(T::tolerance_spec())
        &&& !self.set_vars@.contains_key(self.non_basic_vars@[c])
    }

    pub open spec fn score(self, c: int) -> T {
        let d = self.direction(c);
        if self.num_artificial_vars == 0 && self.enable_steepest_edge {
            d.times_spec(d).over_spec(self.non_basic_col_sq_norms@[c].plus_spec(T::one_spec()))
        } else {
            d
        }
    }

    /// The first of the first `k` columns with the highest score.
    pub open spec fn entering_scan(self, k: int) -> EnteringScan<T>
        decreases k,
    {
        if k <= 0 {
            EnteringScan { col: None, score: T::neg_infinity_spec() }
        } else {
            let best = self.entering_scan(k - 1);
            let score = self.score(k - 1);
            if self.may_enter(k - 1) && best.score.less_spec(score) {
                EnteringScan { col: Some((k - 1) as usize), score }
            } else {
                best
            }
        }
    }

    /// The limit that the variable in column `c` is at.
    pub open spec fn near_limit(self, c: int) -> T {
        let v = self.non_basic_vars@[c] as int;
        if self.non_basic_vals@[c].same_spec(self.orig_var_mins@[v]) {
            self.orig_var_mins@[v]
        } else {
            self.orig_var_maxs@[v]
        }
    }

    /// The limit on the other side.
    pub open spec fn far_limit(self, c: int) -> T {
        let v = self.non_basic_vars@[c] as int;
        if self.non_basic_vals@[c].same_spec(self.orig_var_mins@[v]) {
            self.orig_var_maxs@[v]
        } else {
            self.orig_var_mins@[v]
        }
    }

    /// The limit that the basic variable in row `r` goes to.
    pub open spec fn limit_towards(self, r: int, coeff: T, sign: T) -> T {
        let v = self.basic_vars@[r] as int;
        if coeff.times_spec(sign).less_spec(T::zero_spec()) {
            self.orig_var_maxs@[v]
        } else {
            self.orig_var_mins@[v]
        }
    }

    /// Whether row `r` is a better choice than the best one so far. Among rows that let the
    /// entering variable go equally far the larger coefficient wins, for stability; where the
    /// coefficients are equal too, the smaller index.
    pub open spec fn leaves_before(
        self,
        best: LeavingScan<T>,
        r: usize,
        diff: T,
        coeff: T,
    ) -> bool {
        let tol = T::tolerance_spec();
        let a = coeff.absolute_spec();
        let b = best.coeff.absolute_spec();
        ||| diff.less_spec(best.diff.minus_spec(tol))
        ||| diff.less_spec(best.diff.plus_spec(tol)) && (b.plus_spec(tol).less_spec(a)
            || b.minus_spec(tol).less_spec(a) && match best.row {
            None => true,
            Some(row) => r < row,
        })
    }

    /// The choice among the first `k` entries of the column.
    pub open spec fn leaving_scan(
        self,
        coeffs: SparseVec<T>,
        near: T,
        far: T,
        k: int,
    ) -> LeavingScan<T>
        decreases k,
    {
        if k <= 0 {
            LeavingScan {
                row: None,
                diff: near.minus_spec(far).absolute_spec(),
                coeff: T::zero_spec(),
                new_val: T::zero_spec(),
            }
        } else {
            let best = self.leaving_scan(coeffs, near, far, k - 1);
            let r = coeffs.indices@[k - 1];
            let coeff = coeffs.values@[k - 1];
            let sign = far.minus_spec(near).signum_spec();
            let limit = self.limit_towards(r as int, coeff, sign);
            let diff = limit.minus_spec(self.cur_bounds@[r as int]).over_spec(coeff).absolute_spec();
            if coeff.absolute_spec().less_spec(T::tolerance_spec()) {
                best
            } else if self.leaves_before(best, r, diff, coeff) {
                LeavingScan { row: Some(r), diff, coeff, new_val: limit }
            } else {
                best
            }
        }
    }

    /// The change that the chosen column `c` and the choice of a row make.
    pub open spec fn pivot_of(self, c: int, best: LeavingScan<T>) -> PivotInfo<T> {
        match best.row {
            Some(row) => {
                let diff = self.cur_bounds@[row as int].minus_spec(best.new_val).over_spec(
                    best.coeff,
                );
                PivotInfo {
                    col: c as usize,
                    entering_new_val: self.near_limit(c).plus_spec(diff),
                    entering_diff: diff,
                    elem: Some(
                        PivotElem { row, coeff: best.coeff, leaving_new_val: best.new_val },
                    ),
                }
            },
            None => PivotInfo {
                col: c as usize,
                entering_new_val: self.far_limit(c),
                entering_diff: self.far_limit(c).minus_spec(self.near_limit(c)),
                elem: None,
            },
        }
    }

    /// Looks for the column with the highest score.
    fn choose_entering_col(&self) -> (r: Option<usize>)
        requires
            self.wf(),
        ensures
            r == self.entering_scan(self.cur_obj@.len() as int).col,
            r matches Some(c) ==> c < self.cur_obj@.len() && self.may_enter(c as int),
    {
        broadcast use vstd::std_specs::hash::group_hash_axioms;

        let n: usize = self.cur_obj.len();
        let mut best: EnteringScan<T> = EnteringScan { col: None, score: T::neg_infinity() };
        let mut col: usize = 0;
        while col < n
            invariant
                self.wf(),
                n == self.cur_obj@.len(),
                col <= n,
                best == self.entering_scan(col as int),
                best.col matches Some(c) ==> c < n && self.may_enter(c as int),
            decreases n - col,
        {
            broadcast use vstd::std_specs::hash::group_hash_axioms;

            let var: usize = self.non_basic_vars[col];
            let direction = if self.non_basic_vals[col].same(self.orig_var_mins[var]) {
                self.cur_obj[col]
            } else {
                self.cur_obj[col].negated()
            };
            if !direction.less(T::tolerance()) && !self.set_vars.contains_key(&var) {
                let score = if self.num_artificial_vars == 0 && self.enable_steepest_edge {
                    direction.times(direction).over(
                        self.non_basic_col_sq_norms[col].plus(T::one()),
                    )
                } else {
                    direction
                };
                if best.score.less(score) {
                    best = EnteringScan { col: Some(col), score };
                }
            }
            col += 1;
        }
        best.col
    }

    /// Looks for the row that limits the entering variable most.
    fn choose_leaving_row(&self, near: T, far: T) -> (r: LeavingScan<T>)
        requires
            self.wf(),
        ensures
            r == self.leaving_scan(
                self.col_coeffs,
                near,
                far,
                self.col_coeffs.indices@.len() as int,
            ),
            r.row matches Some(row) ==> row < self.m() && self.col_coeffs.stores(row as int),
    {
        let sign = far.minus(near).signum();
        let n: usize = self.col_coeffs.indices.len();
        let mut best: LeavingScan<T> = LeavingScan {
            row: None,
            diff: near.minus(far).absolute(),
            coeff: T::zero(),
            new_val: T::zero(),
        };
        let mut k: usize = 0;
        while k < n
            invariant
                self.wf(),
                n == self.col_coeffs.indices@.len(),
                k <= n,
                sign == far.minus_spec(near).signum_spec(),
                best == self.leaving_scan(self.col_coeffs, near, far, k as int),
                best.row matches Some(row) ==> row < self.m() && self.col_coeffs.stores(
                    row as int,
                ),
            decreases n - k,
        {
            let r: usize = self.col_coeffs.indices[k];
            let coeff = self.col_coeffs.values[k];
            let coeff_abs = coeff.absolute();
            if !coeff_abs.less(T::tolerance()) {
                let var: usize = self.basic_vars[r];
                let limit_val = if coeff.times(sign).less(T::zero()) {
                    self.orig_var_maxs[var]
                } else {
                    self.orig_var_mins[var]
                };
                let diff = limit_val.minus(self.cur_bounds[r]).over(coeff).absolute();
                let best_abs = best.coeff.absolute();
                let should_choose: bool = diff.less(best.diff.minus(T::tolerance())) || (diff.less(
                    best.diff.plus(T::tolerance()),
                ) && (best_abs.plus(T::tolerance()).less(coeff_abs) || (best_abs.minus(
                    T::tolerance(),
                ).less(coeff_abs) && match best.row {
                    None => true,
                    Some(row) => r < row,
                })));
                if should_choose {
                    best = LeavingScan { row: Some(r), diff, coeff, new_val: limit_val };
                    assert(self.col_coeffs.indices@[k as int] == r);
                }
            }
            k += 1;
        }
        best
    }

    /// Chooses the next change of the vertex that improves the objective, or none where no
    /// change does.
    pub fn choose_pivot(&mut self) -> (r: Result<Option<PivotInfo<T>>, Error>)
        requires
            old(self).wf(),
        ensures
            final(self).wf(),
            pivot_chosen(*old(self), *final(self), r),
            r matches Ok(Some(info)) ==> info.col < old(self).non_basic_vars@.len() && (
            info.elem matches Some(elem) ==> elem.row < old(self).m()),
    {
        let entering_c: usize = match self.choose_entering_col() {
            Some(c) => c,
            None => {
                return Ok(None);
            },
        };
        let var: usize = self.non_basic_vars[entering_c];
        let min = self.orig_var_mins[var];
        let max = self.orig_var_maxs[var];
        let (entering_cur_val, entering_other_val) = if self.non_basic_vals[entering_c].same(min) {
            (min, max)
        } else {
            (max, min)
        };
        self.calc_col_coeffs(entering_c);
        let ghost mid = *self;
        let best = self.choose_leaving_row(entering_cur_val, entering_other_val);
        proof {
            same_scan(
                *old(self),
                mid,
                mid.col_coeffs,
                entering_cur_val,
                entering_other_val,
                mid.col_coeffs.indices@.len() as int,
            );
        }
        match best.row {
            Some(row) => {
                self.calc_row_coeffs(row);
                let entering_diff = self.cur_bounds[row].minus(best.new_val).over(best.coeff);
                let entering_new_val = entering_cur_val.plus(entering_diff);
                let r = Ok(
                    Some(
                        PivotInfo {
                            col: entering_c,
                            entering_new_val,
                            entering_diff,
                            elem: Some(
                                PivotElem {
                                    row,
                                    coeff: best.coeff,
                                    leaving_new_val: best.new_val,
                                },
                            ),
                        },
                    ),
                );
                proof {
                    assert(coeffs_prepared(*old(self), mid, *self, entering_c as int, best.row));
                }
                r
            },
            None => {
                let r = if entering_other_val.is_infinite() {
                    Err(Error::Unbounded)
                } else {
                    Ok(
                        Some(
                            PivotInfo {
                                col: entering_c,
                                entering_new_val: entering_other_val,
                                entering_diff: entering_other_val.minus(entering_cur_val),
                                elem: None,
                            },
                        ),
                    )
                };
                proof {
                    assert(coeffs_prepared(*old(self), mid, *self, entering_c as int, best.row));
                }
                r
            },
        }
    }
}

impl<T: Scalar> Solver<T> {
    /// By how much the basic variable in row `r` misses a limit, and that limit.
    pub open spec fn missed_limit(self, r: int) -> Option<(T, T)> {
        let v = self.basic_vars@[r] as int;
        let (min, max) = (self.orig_var_mins@[v], self.orig_var_maxs@[v]);
        let val = self.cur_bounds@[r];
        if val.less_spec(min.minus_spec(T::tolerance_spec())) {
            Some((min.minus_spec(val), min))
        } else if max.plus_spec(T::tolerance_spec()).less_spec(val) {
            Some((val.minus_spec(max), max))
        } else {
            None
        }
    }

    /// The first of the first `k` rows that misses a limit most.
    pub open spec fn dual_leaving_scan(self, k: int) -> DualLeavingScan<T>
        decreases k,
    {
        if k <= 0 {
            DualLeavingScan {
                row: None,
                infeasibility: T::neg_infinity_spec(),
                new_val: T::zero_spec(),
            }
        } else {
            let best = self.dual_leaving_scan(k - 1);
            match self.missed_limit(k - 1) {
                Some((infeasibility, new_val)) => {
                    if best.infeasibility.less_spec(infeasibility) {
                        DualLeavingScan { row: Some((k - 1) as usize), infeasibility, new_val }
                    } else {
                        best
                    }
                },
                None => best,
            }
        }
    }

    /// The row whose variable misses a limit most, and that limit.
    pub fn choose_pivot_row_dual(&self) -> (r: Option<(usize, T)>)
        requires
            self.wf(),
        ensures
            ({
                let best = self.dual_leaving_scan(self.m());
                r == match best.row {
                    Some(row) => Some((row, best.new_val)),
                    None => None,
                }
            }),
            r matches Some((row, _)) ==> row < self.m() && self.missed_limit(row as int) is Some,
            r is None ==> forall|k: int|
                0 <= k < self.m() ==> match #[trigger] self.missed_limit(k) {
                    Some((infeasibility, _)) => !T::neg_infinity_spec().less_spec(infeasibility),
                    None => true,
                },
    {
        let n: usize = self.num_constraints();
        let mut best: DualLeavingScan<T> = DualLeavingScan {
            row: None,
            infeasibility: T::neg_infinity(),
            new_val: T::zero(),
        };
        let mut r: usize = 0;
        while r < n
            invariant
                self.wf(),
                n == self.m(),
                r <= n,
                best == self.dual_leaving_scan(r as int),
                best.row matches Some(row) ==> row < n && self.missed_limit(row as int) is Some,
                best.row is None ==> best.infeasibility == T::neg_infinity_spec(),
                best.row is None ==> forall|k: int|
                    0 <= k < r ==> match #[trigger] self.missed_limit(k) {
                        Some((infeasibility, _)) => !T::neg_infinity_spec().less_spec(
                            infeasibility,
                        ),
                        None => true,
                    },
            decreases n - r,
        {
            let var: usize = self.basic_vars[r];
            let val = self.cur_bounds[r];
            let min = self.orig_var_mins[var];
            let max = self.orig_var_maxs[var];
            let missed: Option<(T, T)> = if val.less(min.minus(T::tolerance())) {
                Some((min.minus(val), min))
            } else if max.plus(T::tolerance()).less(val) {
                Some((val.minus(max), max))
            } else {
                None
            };
            assert(missed == self.missed_limit(r as int));
            if let Some((infeasibility, new_val)) = missed {
                if best.infeasibility.less(infeasibility) {
                    best = DualLeavingScan { row: Some(r), infeasibility, new_val };
                }
            }
            r += 1;
        }
        match best.row {
            Some(row) => Some((row, best.new_val)),
            None => None,
        }
    }

    /// Whether the objective would improve if the variable in column `c` entered while the
    /// leaving variable grows (`up`) or shrinks; such a change leads away from feasibility.
    pub open spec fn improves(self, coeff: T, obj: T, up: bool) -> bool {
        let zero = T::zero_spec();
        let (coeff_pos, coeff_neg) = (zero.less_spec(coeff), coeff.less_spec(zero));
        let (obj_pos, obj_neg) = (zero.less_spec(obj), obj.less_spec(zero));
        if up {
            coeff_pos && obj_neg || coeff_neg && obj_pos
        } else {
            coeff_neg && obj_neg || coeff_pos && obj_pos
        }
    }

    /// Whether column `c` is a better choice than the best one so far.
    pub open spec fn enters_before(
        self,
        best: DualEnteringScan<T>,
        c: usize,
        diff: T,
        coeff_abs: T,
    ) -> bool {
        let tol = T::tolerance_spec();
        ||| diff.less_spec(best.diff.minus_spec(tol))
        ||| diff.less_spec(best.diff.plus_spec(tol)) && (best.coeff_abs.plus_spec(tol).less_spec(
            coeff_abs,
        ) || best.coeff_abs.minus_spec(tol).less_spec(coeff_abs) && match best.col {
            Some(col) => c < col,
            None => false,
        })
    }

    /// The choice among the first `k` listed columns of the row.
    pub open spec fn dual_entering_scan(self, up: bool, k: int) -> DualEnteringScan<T>
        decreases k,
    {
        if k <= 0 {
            DualEnteringScan {
                col: None,
                diff: T::infinity_spec(),
                coeff_abs: T::neg_infinity_spec(),
                coeff: T::zero_spec(),
            }
        } else {
            let best = self.dual_entering_scan(up, k - 1);
            let c = self.row_coeffs.nonzero@[k - 1];
            let coeff = self.row_coeffs.values@[c as int];
            let coeff_abs = coeff.absolute_spec();
            let obj = self.cur_obj@[c as int];
            let diff = obj.over_spec(coeff).absolute_spec();
            if coeff_abs.less_spec(T::tolerance_spec()) || self.improves(coeff, obj, up)
                || self.set_vars@.contains_key(self.non_basic_vars@[c as int]) {
                best
            } else if self.enters_before(best, c, diff, coeff_abs) {
                DualEnteringScan { col: Some(c), diff, coeff_abs, coeff }
            } else {
                best
            }
        }
    }

    /// The change in which the variable in row `row` leaves with the given value.
    pub open spec fn dual_entering(self, row: usize, leaving_new_val: T) -> Result<
        PivotInfo<T>,
        Error,
    > {
        let up = self.cur_bounds@[row as int].less_spec(leaving_new_val);
        let best = self.dual_entering_scan(up, self.row_coeffs.nonzero@.len() as int);
        let diff = self.cur_bounds@[row as int].minus_spec(leaving_new_val).over_spec(best.coeff);
        match best.col {
            Some(col) => Ok(
                PivotInfo {
                    col,
                    entering_new_val: self.non_basic_vals@[col as int].plus_spec(diff),
                    entering_diff: diff,
                    elem: Some(PivotElem { row, coeff: best.coeff, leaving_new_val }),
                },
            ),
            None => Err(Error::Infeasible),
        }
    }

    /// Chooses the variable that enters when the one in row `row` leaves with the given value.
    pub fn choose_entering_col_dual(
        &self,
        row: usize,
        leaving_new_val: T,
    ) -> (r: Result<PivotInfo<T>, Error>)
        requires
            self.wf(),
            row < self.m(),
        ensures
            r == self.dual_entering(row, leaving_new_val),
            r matches Ok(info) ==> info.col < self.non_basic_vars@.len() && self.row_coeffs.marked(
                info.col as int,
            ) && info.elem is Some && info.elem->0.coeff == self.row_coeffs.values@[info.col as int]
                && !self.set_vars@.contains_key(self.non_basic_vars@[info.col as int]),
    {
        broadcast use vstd::std_specs::hash::group_hash_axioms;

        let up: bool = self.cur_bounds[row].less(leaving_new_val);
        let n: usize = self.row_coeffs.nonzero.len();
        let mut best: DualEnteringScan<T> = DualEnteringScan {
            col: None,
            diff: T::infinity(),
            coeff_abs: T::neg_infinity(),
            coeff: T::zero(),
        };
        let mut k: usize = 0;
        while k < n
            invariant
                self.wf(),
                n == self.row_coeffs.nonzero@.len(),
                k <= n,
                best == self.dual_entering_scan(up, k as int),
                best.col matches Some(c) ==> c < self.non_basic_vars@.len()
                    && self.row_coeffs.marked(c as int) && best.coeff
                    == self.row_coeffs.values@[c as int] && !self.set_vars@.contains_key(
                    self.non_basic_vars@[c as int],
                ),
            decreases n - k,
        {
            broadcast use vstd::std_specs::hash::group_hash_axioms;

            let c: usize = self.row_coeffs.nonzero[k];
            let coeff = self.row_coeffs.values[c];
            let coeff_abs = coeff.absolute();
            let obj_coeff = self.cur_obj[c];
            let zero = T::zero();
            let improves: bool = if up {
                zero.less(coeff) && obj_coeff.less(zero) || coeff.less(zero) && zero.less(obj_coeff)
            } else {
                coeff.less(zero) && obj_coeff.less(zero) || zero.less(coeff) && zero.less(obj_coeff)
            };
            let var: usize = self.non_basic_vars[c];
            if !coeff_abs.less(T::tolerance()) && !improves && !self.set_vars.contains_key(&var) {
                let diff = obj_coeff.over(coeff).absolute();
                let should_choose: bool = diff.less(best.diff.minus(T::tolerance())) || (diff.less(
                    best.diff.plus(T::tolerance()),
                ) && (best.coeff_abs.plus(T::tolerance()).less(coeff_abs) || (best.coeff_abs.minus(
                    T::tolerance(),
                ).less(coeff_abs) && match best.col {
                    Some(col) => c < col,
                    None => false,
                })));
                if should_choose {
                    best = DualEnteringScan { col: Some(c), diff, coeff_abs, coeff };
                    assert(self.row_coeffs.nonzero@[k as int] == c);
                }
            }
            k += 1;
        }
        match best.col {
            Some(col) => {
                let entering_diff = self.cur_bounds[row].minus(leaving_new_val).over(best.coeff);
                let entering_new_val = self.non_basic_vals[col].plus(entering_diff);
                Ok(
                    PivotInfo {
                        col,
                        entering_new_val,
                        entering_diff,
                        elem: Some(PivotElem { row, coeff: best.coeff, leaving_new_val }),
                    },
                )
            },
            None => Err(Error::Infeasible),
        }
    }
}

/// The next change that improves the objective, and the coefficients for it.
pub open spec fn pivot_chosen<T: Scalar>(
    before: Solver<T>,
    after: Solver<T>,
    r: Result<Option<PivotInfo<T>>, Error>,
) -> bool {
    &&& after.wf()
    &&& after.same_program(before)
    &&& after.same_vertex(before)
    &&& after.basis_solver.same_basis(before.basis_solver)
    &&& match before.entering_scan(before.cur_obj@.len() as int).col {
        None => r == Ok::<Option<PivotInfo<T>>, Error>(None) && after == before,
        Some(c) => {
            let near = before.near_limit(c as int);
            let far = before.far_limit(c as int);
            let coeffs = after.col_coeffs;
            let best = before.leaving_scan(coeffs, near, far, coeffs.indices@.len() as int);
            &&& c < before.cur_obj@.len()
            &&& before.may_enter(c as int)
            &&& r == (if best.row is None && far.infinite() {
                Err::<Option<PivotInfo<T>>, Error>(Error::Unbounded)
            } else {
                Ok(Some(before.pivot_of(c as int, best)))
            })
            &&& best.row matches Some(row) ==> row < before.m() && coeffs.stores(row as int)
            &&& exists|mid: Solver<T>| #[trigger]
                coeffs_prepared(before, mid, after, c as int, best.row)
        },
    }
}

/// The coefficients for a change are calculated: first those of its column (`mid`), then those
/// of its row.
pub open spec fn coeffs_prepared<T: Scalar>(
    before: Solver<T>,
    mid: Solver<T>,
    after: Solver<T>,
    c: int,
    row: Option<usize>,
) -> bool {
    &&& mid.wf()
    &&& mid.same_program(before)
    &&& mid.same_vertex(before)
    &&& mid.basis_solver.same_basis(before.basis_solver)
    &&& col_coeffs_of(before, mid, before.non_basic_vars@[c] as int)
    &&& after.col_coeffs == mid.col_coeffs
    &&& match row {
        Some(r) => row_coeffs_of(mid, after, r),
        None => after == mid,
    }
}

/// The choice of a row depends on the vertex alone.
proof fn same_scan<T: Scalar>(
    a: Solver<T>,
    b: Solver<T>,
    coeffs: SparseVec<T>,
    near: T,
    far: T,
    k: int,
)
    requires
        a.same_program(b) || b.same_program(a),
        a.same_vertex(b) || b.same_vertex(a),
    ensures
        a.leaving_scan(coeffs, near, far, k) == b.leaving_scan(coeffs, near, far, k),
    decreases k,
{
    if k > 0 {
        same_scan(a, b, coeffs, near, far, k - 1);
    }
}

} // verus!
