//! Changes of a program that was solved before.
use crate::elim::one_more;
use crate::error::Error;
use crate::lu::stuck;
use crate::phases::{
    climb_keeps_sets, exit_keeps_sets, left_basis, only_unit, optimized, resized_rows,
    restore_keeps_sets, restored,
};
use crate::pivot::subtract_coeffs;
use crate::recalc::snapped;
use crate::scalar::Scalar;
use crate::scattered::ScatteredVec;
use crate::simplex::{
    col_coeffs_of, partitioned, row_coeffs_of, sets_held, sets_non_basic, RelOp, Solver, SENTINEL,
};
use crate::sparse::{ascending, below, distinct, holds, into_resized, place, CsVec, SparseVec};
use crate::vars::{lengths_add_up, places_of, rest_of};
use vstd::prelude::*;

verus! {

/// Everything about the vertex is computed from the given basis.
pub open spec fn rebased<T: Scalar>(
    before: Solver<T>,
    after: Solver<T>,
    basic: Seq<usize>,
) -> bool {
    &&& after.same_program(before)
    &&& after.set_vars == before.set_vars
    &&& after.basic_vars@ == basic
    &&& ascending(after.non_basic_vars@, 0, after.non_basic_vars@.len() as int)
    &&& after.non_basic_vals == before.non_basic_vals
    &&& after.basis_solver.eta_matrices.leaving_rows@.len() == 0
    &&& after.basis_solver.lu_factors.multiplies_to(after.orig_constraints_csc, basic)
    &&& after.basis_solver.lu_factors.eliminated_from(
        after.orig_constraints_csc,
        basic,
        T::stability_spec(),
    )
    &&& forall|r: int|
        0 <= r < after.m() ==> #[trigger] after.cur_bounds@[r] == snapped(
            after.basis_solver.lu_factors.dense_solution(after.residuals())[r],
        )
    &&& after.obj_recalculated()
    &&& after.enable_steepest_edge ==> forall|c: int|
        0 <= c < after.non_basic_vars@.len() ==> after.is_sq_norm(
            after.non_basic_vars@[c] as int,
            #[trigger] after.non_basic_col_sq_norms@[c],
        )
}

impl<T: Scalar> Solver<T> {
    /// Starts again from another basis. The non-basic variables keep the values at their places.
    pub fn reset_basis(&mut self, basic_vars: Vec<usize>) -> (r: Result<(), Error>)
        requires
            old(self).wf(),
            old(self).num_artificial_vars == 0,
            basic_vars@.len() == old(self).m(),
            below(basic_vars@, old(self).total()),
            distinct(basic_vars@, 0, basic_vars@.len() as int),
        ensures
            final(self).wf(),
            match r {
                Ok(_) => rebased(*old(self), *final(self), basic_vars@),
                Err(e) => {
                    &&& e == Error::SingularMatrix
                    &&& final(self).same_program(*old(self))
                    &&& final(self).set_vars == old(self).set_vars
                    &&& final(self).basic_vars@ == basic_vars@
                    &&& stuck(old(self).orig_constraints_csc, basic_vars@, T::stability_spec())
                },
            },
    {
        let total: usize = self.num_total_vars();
        let ghost basic = basic_vars@;
        let inv = places_of(&basic_vars, total);
        let (rest, rest_inv) = rest_of(&inv);
        proof {
            assert forall|v: int| 0 <= v < total implies (#[trigger] inv@[v] == SENTINEL) != (
            rest_inv@[v] == SENTINEL) by {
                assert((rest_inv@[v] == SENTINEL) == (inv@[v] != SENTINEL));
            }
            lengths_add_up(basic, inv@, rest@, rest_inv@, total as int);
        }
        self.basic_vars = basic_vars;
        self.basic_vars_inv = inv;
        self.non_basic_vars = rest;
        self.non_basic_vars_inv = rest_inv;
        let ghost listed = *self;
        proof {
            assert forall|i: int| 0 <= i < basic.len() implies #[trigger] basic[i]
                < self.orig_constraints_csc.ncols by {}
            assert forall|i: int| 0 <= i < self.non_basic_vars@.len() implies
                #[trigger] self.non_basic_vars@[i] < self.total() by {}
        }
        match self.basis_solver.reset(&self.orig_constraints_csc, &self.basic_vars) {
            Err(e) => {
                return Err(e);
            },
            Ok(_) => {},
        }
        self.recalc_cur_bounds();
        let ghost bounded = *self;
        match self.recalc_cur_obj() {
            Err(e) => {
                return Err(e);
            },
            Ok(_) => {},
        }
        let ghost priced = *self;
        if self.enable_steepest_edge {
            self.recalc_cur_sq_norms();
        }
        proof {
            assert(self.residuals() =~= bounded.residuals());
            assert(self.basic_costs() =~= priced.basic_costs());
            if self.enable_steepest_edge {
                assert forall|c: int| 0 <= c < self.non_basic_vars@.len() implies self.is_sq_norm(
                    self.non_basic_vars@[c] as int,
                    #[trigger] self.non_basic_col_sq_norms@[c],
                ) by {
                    assert(priced.is_sq_norm(
                        priced.non_basic_vars@[c] as int,
                        self.non_basic_col_sq_norms@[c],
                    ));
                    same_sq_norm(
                        priced,
                        *self,
                        priced.non_basic_vars@[c] as int,
                        self.non_basic_col_sq_norms@[c],
                    );
                }
            }
        }
        Ok(())
    }
}

proof fn same_sq_norm<T: Scalar>(a: Solver<T>, b: Solver<T>, v: int, x: T)
    requires
        a.orig_constraints == b.orig_constraints,
        a.orig_constraints_csc == b.orig_constraints_csc,
        a.basic_vars@ == b.basic_vars@,
        a.basis_solver.same_basis(b.basis_solver) || b.basis_solver.same_basis(a.basis_solver),
        a.is_sq_norm(v, x),
    ensures
        b.is_sq_norm(v, x),
{
    let mat = a.orig_constraints_csc;
    if b.basis_solver.represents(mat, b.basic_vars@) {
        let bases = choose|bases: Seq<Seq<usize>>| #[trigger]
            b.basis_solver.chain(mat, bases) && bases.last() == b.basic_vars@;
        assert(a.basis_solver.chain(mat, bases));
    }
}

/// A non-basic variable moves by `diff` to the value `new_val`; the coefficients of its column
/// are in `ready`.
pub open spec fn value_moved_from<T: Scalar>(
    before: Solver<T>,
    ready: Solver<T>,
    after: Solver<T>,
    col: int,
    diff: T,
    new_val: T,
) -> bool {
    &&& ready.same_program(before)
    &&& ready.same_vertex(before)
    &&& ready.basis_solver.same_basis(before.basis_solver)
    &&& col_coeffs_of(before, ready, before.non_basic_vars@[col] as int)
    &&& after == (Solver {
        cur_bounds: after.cur_bounds,
        cur_obj_val: before.cur_obj_val.minus_spec(diff.times_spec(before.cur_obj@[col])),
        non_basic_vals: after.non_basic_vals,
        ..ready
    })
    &&& after.non_basic_vals@ == before.non_basic_vals@.update(col, new_val)
    &&& after.cur_bounds@.len() == before.cur_bounds@.len()
    &&& forall|r: int|
        0 <= r < before.cur_bounds@.len() ==> #[trigger] after.cur_bounds@[r]
            == if ready.col_coeffs.stores(r) {
            before.cur_bounds@[r].minus_spec(diff.times_spec(ready.col_coeffs.value(r)))
        } else {
            before.cur_bounds@[r]
        }
}

pub open spec fn value_moved<T: Scalar>(
    before: Solver<T>,
    after: Solver<T>,
    col: int,
    diff: T,
    new_val: T,
) -> bool {
    exists|ready: Solver<T>| #[trigger]
        value_moved_from(before, ready, after, col, diff, new_val)
}

/// Feasibility is restored, and then the best vertex looked for.
pub open spec fn repaired<T: Scalar>(
    before: Solver<T>,
    after: Solver<T>,
    r: Result<(), Error>,
) -> bool {
    ||| r is Err && restored(before, after, r)
    ||| exists|mid: Solver<T>| #[trigger]
        restored(before, mid, Ok(())) && optimized(mid, after, r)
}

/// The same solver with `var` set to `val`.
pub open spec fn with_set<T: Scalar>(
    before: Solver<T>,
    after: Solver<T>,
    var: usize,
    val: T,
) -> bool {
    &&& after == (Solver { set_vars: after.set_vars, ..before })
    &&& after.set_vars@ == before.set_vars@.insert(var, val)
}

/// The same solver with `var` not set.
pub open spec fn without_set<T: Scalar>(before: Solver<T>, after: Solver<T>, var: usize) -> bool {
    &&& after == (Solver { set_vars: after.set_vars, ..before })
    &&& after.set_vars@ == before.set_vars@.remove(var)
}

/// The variable goes to the value that it was set to: `marked` has it in its list, `moved` its
/// value.
pub open spec fn set_by<T: Scalar>(
    before: Solver<T>,
    marked: Solver<T>,
    moved: Solver<T>,
    after: Solver<T>,
    var: usize,
    val: T,
    r: Result<(), Error>,
) -> bool {
    let row = before.basic_vars_inv@[var as int];
    let col = before.non_basic_vars_inv@[var as int] as int;
    &&& with_set(before, marked, var, val)
    &&& if row != SENTINEL {
        ||| r is Err && moved == after && left_basis(marked, moved, row, val, r)
        ||| left_basis(marked, moved, row, val, Ok(())) && repaired(moved, after, r)
    } else {
        value_moved(
            marked,
            moved,
            col,
            val.minus_spec(marked.non_basic_vals@[col]),
            val,
        ) && repaired(moved, after, r)
    }
}

/// How setting a variable ends.
pub open spec fn var_set<T: Scalar>(
    before: Solver<T>,
    after: Solver<T>,
    var: usize,
    val: T,
    r: Result<(), Error>,
) -> bool {
    if before.misses(var, val) {
        r == Err::<(), Error>(Error::Infeasible) && after == before
    } else {
        exists|marked: Solver<T>, moved: Solver<T>| #[trigger]
            set_by(before, marked, moved, after, var, val, r)
    }
}

/// The variable goes back to one of its limits.
pub open spec fn unset_by<T: Scalar>(
    before: Solver<T>,
    marked: Solver<T>,
    moved: Solver<T>,
    after: Solver<T>,
    var: usize,
    r: Result<bool, Error>,
) -> bool {
    let col = before.non_basic_vars_inv@[var as int] as int;
    let new_val = before.better_limit(col);
    &&& without_set(before, marked, var)
    &&& if new_val.infinite() {
        r == Err::<bool, Error>(Error::Unbounded) && col_coeffs_of(marked, after, var as int)
            && after.same_program(marked) && after.same_vertex(marked)
    } else {
        &&& value_moved(
            marked,
            moved,
            col,
            new_val.minus_spec(before.set_vars@[var]),
            new_val,
        )
        &&& match r {
            Ok(b) => b && repaired(moved, after, Ok(())),
            Err(e) => repaired(moved, after, Err(e)),
        }
    }
}

/// How it ends when a variable is not to be set any more.
pub open spec fn var_unset<T: Scalar>(
    before: Solver<T>,
    after: Solver<T>,
    var: usize,
    r: Result<bool, Error>,
) -> bool {
    if before.set_vars@.contains_key(var) {
        exists|marked: Solver<T>, moved: Solver<T>| #[trigger]
            unset_by(before, marked, moved, after, var, r)
    } else {
        r == Ok::<bool, Error>(false) && after == (Solver { set_vars: after.set_vars, ..before })
            && after.set_vars@ == before.set_vars@
    }
}

impl<T: Scalar> Solver<T> {
    /// Whether the value is outside the limits of the variable.
    pub open spec fn misses(self, var: usize, val: T) -> bool {
        val.less_spec(self.orig_var_mins@[var as int]) || self.orig_var_maxs@[var as int].less_spec(
            val,
        )
    }

    /// The limit at which the variable in column `col` serves the objective.
    pub open spec fn better_limit(self, col: int) -> T {
        let v = self.non_basic_vars@[col] as int;
        if T::zero_spec().less_spec(self.cur_obj@[col]) {
            self.orig_var_maxs@[v]
        } else {
            self.orig_var_mins@[v]
        }
    }

    /// Moves a non-basic variable, whose coefficients are calculated, by `diff`.
    fn move_value(&mut self, col: usize, diff: T, new_val: T)
        requires
            old(self).wf(),
            col < old(self).non_basic_vars@.len(),
        ensures
            final(self).wf(),
            *final(self) == (Solver {
                cur_bounds: final(self).cur_bounds,
                cur_obj_val: old(self).cur_obj_val.minus_spec(
                    diff.times_spec(old(self).cur_obj@[col as int]),
                ),
                non_basic_vals: final(self).non_basic_vals,
                ..*old(self)
            }),
            final(self).non_basic_vals@ == old(self).non_basic_vals@.update(col as int, new_val),
            final(self).cur_bounds@.len() == old(self).cur_bounds@.len(),
            forall|r: int|
                0 <= r < old(self).cur_bounds@.len() ==> #[trigger] final(self).cur_bounds@[r]
                    == if old(self).col_coeffs.stores(r) {
                    old(self).cur_bounds@[r].minus_spec(
                        diff.times_spec(old(self).col_coeffs.value(r)),
                    )
                } else {
                    old(self).cur_bounds@[r]
                },
    {
        subtract_coeffs(&mut self.cur_bounds, &self.col_coeffs, diff);
        self.cur_obj_val = self.cur_obj_val.minus(diff.times(self.cur_obj[col]));
        self.non_basic_vals[col] = new_val;
    }

    /// Restores feasibility and looks for the best vertex.
    fn repair(&mut self) -> (r: Result<(), Error>)
        requires
            old(self).wf(),
            old(self).num_artificial_vars == 0,
        ensures
            final(self).wf(),
            final(self).same_program(*old(self)),
            final(self).set_vars == old(self).set_vars,
            repaired(*old(self), *final(self), r),
            sets_non_basic(*old(self)) ==> sets_non_basic(*final(self)) && (sets_held(*old(self))
                ==> sets_held(*final(self))),
    {
        let back = self.restore_feasibility();
        proof {
            only_unit(back);
            if sets_non_basic(*old(self)) {
                restore_keeps_sets(*old(self), *self, back);
            }
        }
        match back {
            Err(e) => Err(e),
            Ok(_) => {
                let ghost mid = *self;
                let r = self.optimize();
                proof {
                    assert(restored(*old(self), mid, Ok(())) && optimized(mid, *self, r));
                    if sets_non_basic(mid) {
                        climb_keeps_sets(mid, *self, r);
                    }
                }
                r
            },
        }
    }

    /// Sets a variable to a value within its limits.
    pub fn set_var(&mut self, var: usize, val: T) -> (r: Result<(), Error>)
        requires
            old(self).wf(),
            old(self).num_artificial_vars == 0,
            var < old(self).total(),
            old(self).misses(var, val) || !old(self).set_vars@.contains_key(var),
        ensures
            final(self).wf(),
            final(self).same_program(*old(self)),
            var_set(*old(self), *final(self), var, val, r),
            !old(self).misses(var, val) ==> final(self).set_vars@ == old(self).set_vars@.insert(
                var,
                val,
            ),
            r is Ok && sets_non_basic(*old(self)) && sets_held(*old(self)) ==> val
                == final(self).value_of(var as int),
            r is Ok && sets_non_basic(*old(self)) ==> sets_non_basic(*final(self))
                && (sets_held(*old(self)) ==> sets_held(*final(self))),
    {
        broadcast use vstd::std_specs::hash::group_hash_axioms;

        if val.less(self.orig_var_mins[var]) || self.orig_var_maxs[var].less(val) {
            return Err(Error::Infeasible);
        }
        self.set_vars.insert(var, val);
        let ghost marked = *self;
        let basic_row: usize = self.basic_vars_inv[var];
        if basic_row != SENTINEL {
            let left = self.leave_basis(basic_row, val);
            proof {
                only_unit(left);
            }
            match left {
                Err(e) => {
                    proof {
                        assert(set_by(*old(self), marked, *self, *self, var, val, Err(e)));
                    }
                    return Err(e);
                },
                Ok(_) => {
                    proof {
                        if sets_non_basic(*old(self)) {
                            assert(marked.basic_vars@[basic_row as int] == var);
                            if sets_held(*old(self)) {
                                assert(sets_held(marked)) by {
                                    assert forall|v: usize| #[trigger]
                                        marked.set_vars@.contains_key(v)
                                            && marked.non_basic_vars_inv@[v as int]
                                            != SENTINEL implies marked.non_basic_vals@[marked.non_basic_vars_inv@[v as int] as int]
                                        == marked.set_vars@[v] by {
                                        assert(v != var);
                                        assert(old(self).set_vars@.contains_key(v));
                                    }
                                }
                            }
                            exit_keeps_sets(marked, *self, basic_row, val, Ok(()));
                        }
                    }
                },
            }
        } else {
            let non_basic_col: usize = self.non_basic_vars_inv[var];
            assert((marked.basic_vars_inv@[var as int] == SENTINEL) != (
            marked.non_basic_vars_inv@[var as int] == SENTINEL));
            self.calc_col_coeffs(non_basic_col);
            let ghost ready = *self;
            let diff = val.minus(self.non_basic_vals[non_basic_col]);
            self.move_value(non_basic_col, diff, val);
            proof {
                assert(value_moved_from(marked, ready, *self, non_basic_col as int, diff, val));
                if sets_non_basic(*old(self)) {
                    assert(sets_non_basic(*self)) by {
                        assert forall|v: usize| #[trigger] self.set_vars@.contains_key(v) implies v
                            < self.total() && self.non_basic_vars_inv@[v as int] != SENTINEL by {
                            if v != var {
                                assert(old(self).set_vars@.contains_key(v));
                            }
                        }
                    }
                    if sets_held(*old(self)) {
                        assert forall|v: usize| #[trigger]
                            self.set_vars@.contains_key(v) && self.non_basic_vars_inv@[v as int]
                                != SENTINEL implies self.non_basic_vals@[self.non_basic_vars_inv@[v as int] as int]
                            == self.set_vars@[v] by {
                            if v != var {
                                assert(old(self).set_vars@.contains_key(v));
                            }
                        }
                    }
                }
            }
        }
        let ghost moved = *self;
        let r = self.repair();
        proof {
            assert(set_by(*old(self), marked, moved, *self, var, val, r));
            assert(self.set_vars@.contains_key(var));
        }
        r
    }

    /// Lets a variable that was set move freely again, and tells whether it was set.
    pub fn unset_var(&mut self, var: usize) -> (r: Result<bool, Error>)
        requires
            old(self).wf(),
            old(self).set_vars@.contains_key(var) ==> old(self).num_artificial_vars == 0 && var
                < old(self).total() && old(self).non_basic_vars_inv@[var as int] != SENTINEL,
        ensures
            final(self).wf(),
            final(self).same_program(*old(self)),
            var_unset(*old(self), *final(self), var, r),
            final(self).set_vars@ == old(self).set_vars@.remove(var),
            sets_non_basic(*old(self)) ==> sets_non_basic(*final(self)) && (sets_held(*old(self))
                ==> sets_held(*final(self))),
    {
        broadcast use vstd::std_specs::hash::group_hash_axioms;

        let removed = self.set_vars.remove(&var);
        match removed {
            None => {
                assert(self.set_vars@ =~= old(self).set_vars@);
                proof {
                    if sets_non_basic(*old(self)) {
                        fewer_sets(*old(self), *self);
                    }
                }
                Ok(false)
            },
            Some(val) => {
                let ghost marked = *self;
                assert(old(self).set_vars@.contains_key(var));
                let col: usize = self.non_basic_vars_inv[var];
                self.calc_col_coeffs(col);
                let ghost ready = *self;
                let new_val = if T::zero().less(self.cur_obj[col]) {
                    self.orig_var_maxs[var]
                } else {
                    self.orig_var_mins[var]
                };
                if new_val.is_infinite() {
                    proof {
                        if sets_non_basic(*old(self)) {
                            fewer_sets(*old(self), *self);
                        }
                        assert(unset_by(
                            *old(self),
                            marked,
                            marked,
                            *self,
                            var,
                            Err(Error::Unbounded),
                        ));
                    }
                    return Err(Error::Unbounded);
                }
                let diff = new_val.minus(val);
                self.move_value(col, diff, new_val);
                let ghost moved = *self;
                proof {
                    assert(value_moved_from(marked, ready, moved, col as int, diff, new_val));
                    if sets_non_basic(*old(self)) {
                        fewer_sets(*old(self), moved);
                    }
                    if sets_non_basic(*old(self)) && sets_held(*old(self)) {
                        assert forall|v: usize| #[trigger]
                            moved.set_vars@.contains_key(v) && moved.non_basic_vars_inv@[v as int]
                                != SENTINEL implies moved.non_basic_vals@[moved.non_basic_vars_inv@[v as int] as int]
                            == moved.set_vars@[v] by {
                            assert(old(self).set_vars@.contains_key(v));
                        }
                    }
                }
                let fixed = self.repair();
                proof {
                    only_unit(fixed);
                }
                let r = match fixed {
                    Ok(_) => Ok(true),
                    Err(e) => Err(e),
                };
                proof {
                    assert(unset_by(*old(self), marked, moved, *self, var, r));
                }
                r
            },
        }
    }
}

/// Fewer variables that are set are still outside the basis, with their values.
proof fn fewer_sets<T: Scalar>(before: Solver<T>, after: Solver<T>)
    requires
        sets_non_basic(before),
        after.total() == before.total(),
        after.non_basic_vars_inv == before.non_basic_vars_inv,
        forall|v: usize| #[trigger]
            after.set_vars@.contains_key(v) ==> before.set_vars@.contains_key(v),
    ensures
        sets_non_basic(after),
        sets_held(before) && after.non_basic_vals == before.non_basic_vals && (forall|v: usize|
            after.set_vars@.contains_key(v) ==> #[trigger] after.set_vars@[v]
                == before.set_vars@[v]) ==> sets_held(after),
{
}

/// The coefficients of a row depend on the program and the basis alone.
proof fn same_row_coeffs<T: Scalar>(before: Solver<T>, after: Solver<T>, r: usize)
    requires
        after.basis_solver.same_basis(before.basis_solver),
        after.same_program(before),
        after.basic_vars == before.basic_vars,
        after.non_basic_vars == before.non_basic_vars,
        after.non_basic_vars_inv == before.non_basic_vars_inv,
        row_coeffs_of(before, after, r),
    ensures
        row_coeffs_of(after, after, r),
{
    let b = choose|b: ScatteredVec<T>| #[trigger]
        crate::basis::holds_entries(b, seq![r], seq![T::one_spec()])
            && before.basis_solver.solved_transp(b, after.basis_solver.rhs);
    assert(crate::basis::holds_entries(b, seq![r], seq![T::one_spec()])
        && after.basis_solver.solved_transp(b, after.basis_solver.rhs));
    if after.basis_solver.represents(after.orig_constraints_csc, after.basic_vars@) {
        let bases = choose|bases: Seq<Seq<usize>>| #[trigger]
            after.basis_solver.chain(after.orig_constraints_csc, bases) && bases.last()
                == after.basic_vars@;
        assert(before.basis_solver.chain(before.orig_constraints_csc, bases));
    }
}

/// Whether a constraint without variables holds.
pub open spec fn tautology<T: Scalar>(rel_op: RelOp, bound: T) -> bool {
    match rel_op {
        RelOp::Eq => T::zero_spec().same_spec(bound),
        RelOp::Le => T::zero_spec().less_eq_spec(bound),
        RelOp::Ge => bound.less_eq_spec(T::zero_spec()),
    }
}

pub fn is_tautology<T: Scalar>(rel_op: RelOp, bound: T) -> (r: bool)
    ensures
        r == tautology(rel_op, bound),
{
    match rel_op {
        RelOp::Eq => T::zero().same(bound),
        RelOp::Le => T::zero().less_eq(bound),
        RelOp::Ge => bound.less_eq(T::zero()),
    }
}

/// The coefficient of the slack variable of an inequality.
pub open spec fn slack_coeff<T: Scalar>(rel_op: RelOp) -> T {
    match rel_op {
        RelOp::Ge => T::one_spec().negated_spec(),
        _ => T::one_spec(),
    }
}

/// One more variable and one more constraint that it is basic for.
pub proof fn one_more_basic(
    basic: Seq<usize>,
    basic_inv: Seq<usize>,
    rest: Seq<usize>,
    rest_inv: Seq<usize>,
    total: int,
)
    requires
        partitioned(basic, basic_inv, rest, rest_inv, total),
        total + 1 < SENTINEL,
    ensures
        partitioned(
            basic.push(total as usize),
            basic_inv.push(basic.len() as usize),
            rest,
            rest_inv.push(SENTINEL),
            total + 1,
        ),
{
    let b = basic.push(total as usize);
    let bi = basic_inv.push(basic.len() as usize);
    let ri = rest_inv.push(SENTINEL);
    assert forall|i: int| 0 <= i < b.len() implies #[trigger] b[i] < total + 1 && bi[b[i] as int]
        == i by {
        if i < basic.len() {
            assert(basic[i] < total);
        }
    }
    assert forall|v: int| 0 <= v < total + 1 implies (#[trigger] bi[v] == SENTINEL || bi[v]
        < b.len() && b[bi[v] as int] == v) by {
        if v < total {
            assert(bi[v] == basic_inv[v]);
        }
    }
    assert forall|i: int| 0 <= i < rest.len() implies #[trigger] rest[i] < total + 1
        && ri[rest[i] as int] == i by {
        assert(rest[i] < total);
    }
    assert forall|v: int| 0 <= v < total + 1 implies (#[trigger] ri[v] == SENTINEL || ri[v]
        < rest.len() && rest[ri[v] as int] == v) by {
        if v < total {
            assert(ri[v] == rest_inv[v]);
        }
    }
    assert forall|v: int| 0 <= v < total + 1 implies (#[trigger] bi[v] == SENTINEL) != (ri[v]
        == SENTINEL) by {
        if v < total {
            assert((basic_inv[v] == SENTINEL) != (rest_inv[v] == SENTINEL));
        }
    }
}

/// The program with one more constraint and its slack variable.
pub open spec fn program_extended<T: Scalar>(
    before: Solver<T>,
    after: Solver<T>,
    coeffs: CsVec<T>,
    rel_op: RelOp,
    bound: T,
) -> bool {
    let slack = before.total();
    let m = before.m();
    &&& after.num_vars == before.num_vars
    &&& after.num_slack_vars == before.num_slack_vars + 1
    &&& after.num_artificial_vars == before.num_artificial_vars
    &&& after.enable_steepest_edge == before.enable_steepest_edge
    &&& after.orig_obj@ == before.orig_obj@.push(T::zero_spec())
    &&& after.orig_var_mins@ == before.orig_var_mins@.push(T::zero_spec())
    &&& after.orig_var_maxs@ == before.orig_var_maxs@.push(T::infinity_spec())
    &&& after.orig_bounds@ == before.orig_bounds@.push(bound)
    &&& after.m() == m + 1
    &&& after.orig_constraints.ncols == slack + 1
    &&& forall|r: int, v: int|
        0 <= r < m && v <= slack ==> #[trigger] after.orig_constraints.line(r, v)
            == before.orig_constraints.line(r, v)
    &&& forall|r: int, v: int|
        0 <= r < m ==> #[trigger] after.orig_constraints.line_has(r, v)
            == before.orig_constraints.line_has(r, v)
    &&& forall|v: int|
        v < slack ==> #[trigger] after.orig_constraints.line(m, v) == coeffs.value(v)
    &&& forall|v: int| #[trigger]
        after.orig_constraints.line_has(m, v) == (coeffs.stores(v) && v < slack || v == slack)
    &&& after.orig_constraints.line(m, slack) == slack_coeff::<T>(rel_op)
}

/// The program with one more constraint, whose slack variable is basic.
pub open spec fn extended<T: Scalar>(
    before: Solver<T>,
    after: Solver<T>,
    coeffs: CsVec<T>,
    rel_op: RelOp,
    bound: T,
) -> bool {
    let slack = before.total();
    let m = before.m();
    &&& program_extended(before, after, coeffs, rel_op, bound)
    &&& after.set_vars == before.set_vars
    &&& after.basic_vars@ == before.basic_vars@.push(slack as usize)
    &&& after.non_basic_vars == before.non_basic_vars
    &&& after.non_basic_vals == before.non_basic_vals
    &&& after.cur_obj == before.cur_obj
    &&& after.cur_obj_val == before.cur_obj_val
    &&& after.basis_solver.eta_matrices.leaving_rows@.len() == 0
    &&& after.basis_solver.lu_factors.multiplies_to(after.orig_constraints_csc, after.basic_vars@)
    &&& after.basis_solver.lu_factors.eliminated_from(
        after.orig_constraints_csc,
        after.basic_vars@,
        T::stability_spec(),
    )
    &&& forall|r: int|
        0 <= r < after.m() ==> #[trigger] after.cur_bounds@[r] == snapped(
            after.basis_solver.lu_factors.dense_solution(after.residuals())[r],
        )
    &&& after.enable_steepest_edge ==> {
        &&& row_coeffs_of(after, after, m as usize)
        &&& forall|c: int|
            0 <= c < after.non_basic_vars@.len() ==> #[trigger] after.non_basic_col_sq_norms@[c]
                == if after.row_coeffs.is_nonzero@[c] {
                before.non_basic_col_sq_norms@[c].plus_spec(
                    after.row_coeffs.values@[c].times_spec(after.row_coeffs.values@[c]),
                )
            } else {
                before.non_basic_col_sq_norms@[c]
            }
    }
}

/// One more constraint leaves the variables that are set outside the basis, with their values.
pub proof fn extended_keeps_sets<T: Scalar>(
    before: Solver<T>,
    after: Solver<T>,
    coeffs: CsVec<T>,
    rel_op: RelOp,
    bound: T,
)
    requires
        before.wf(),
        after.wf(),
        extended(before, after, coeffs, rel_op, bound),
        sets_non_basic(before),
    ensures
        sets_non_basic(after),
        sets_held(before) ==> sets_held(after),
{
    assert forall|v: usize| #[trigger] after.set_vars@.contains_key(v) implies v < after.total()
        && after.non_basic_vars_inv@[v as int] != SENTINEL by {
        assert(before.set_vars@.contains_key(v));
        let c = before.non_basic_vars_inv@[v as int] as int;
        assert(before.non_basic_vars@[c] == v);
        assert(after.non_basic_vars@[c] == v);
        assert(after.non_basic_vars_inv@[v as int] == c);
    }
    if sets_held(before) {
        assert forall|v: usize| #[trigger]
            after.set_vars@.contains_key(v) && after.non_basic_vars_inv@[v as int]
                != SENTINEL implies after.non_basic_vals@[after.non_basic_vars_inv@[v as int] as int]
            == after.set_vars@[v] by {
            assert(before.set_vars@.contains_key(v));
            let c = before.non_basic_vars_inv@[v as int] as int;
            assert(before.non_basic_vars@[c] == v);
            assert(after.non_basic_vars@[c] == v);
            assert(after.non_basic_vars_inv@[v as int] == c);
        }
    }
}

/// What a constraint to be added must be like. The index of the slack variable that it will get is
/// taken; entries behind that are cut off.
pub open spec fn can_extend<T: Scalar>(s: Solver<T>, coeffs: CsVec<T>, rel_op: RelOp) -> bool {
    &&& s.num_artificial_vars == 0
    &&& rel_op != RelOp::Eq
    &&& !coeffs.stores(s.total())
    &&& s.total() + 2 < SENTINEL
    &&& s.m() + 2 < SENTINEL
    &&& s.orig_constraints.indices@.len() + coeffs.indices@.len() + 1 <= usize::MAX / 2
}

/// The basis of the program with one more constraint cannot be factored.
pub open spec fn extension_stuck<T: Scalar>(
    before: Solver<T>,
    after: Solver<T>,
    coeffs: CsVec<T>,
    rel_op: RelOp,
    bound: T,
) -> bool {
    &&& program_extended(before, after, coeffs, rel_op, bound)
    &&& after.data_wf()
    &&& after.set_vars == before.set_vars
    &&& after.basic_vars@ == before.basic_vars@.push(before.total() as usize)
    &&& stuck(after.orig_constraints_csc, after.basic_vars@, T::stability_spec())
}

/// How adding a constraint ends.
pub open spec fn constraint_added<T: Scalar>(
    before: Solver<T>,
    after: Solver<T>,
    coeffs: CsVec<T>,
    rel_op: RelOp,
    bound: T,
    r: Result<(), Error>,
) -> bool {
    if coeffs.indices@.len() == 0 {
        after == before && r == (if tautology(rel_op, bound) {
            Ok::<(), Error>(())
        } else {
            Err(Error::Infeasible)
        })
    } else {
        ||| r == Err::<(), Error>(Error::SingularMatrix) && extension_stuck(
            before,
            after,
            coeffs,
            rel_op,
            bound,
        )
        ||| exists|mid: Solver<T>| #[trigger]
            extended(before, mid, coeffs, rel_op, bound) && repaired(mid, after, r)
    }
}

/// Adds the squares of the listed values.
fn add_squares<T: Scalar>(norms: &mut Vec<T>, row: &ScatteredVec<T>)
    requires
        row.wf(),
        row.values@.len() == old(norms)@.len(),
    ensures
        final(norms)@.len() == old(norms)@.len(),
        forall|c: int|
            0 <= c < old(norms)@.len() ==> #[trigger] final(norms)@[c] == if row.is_nonzero@[c] {
                old(norms)@[c].plus_spec(row.values@[c].times_spec(row.values@[c]))
            } else {
                old(norms)@[c]
            },
{
    let ghost before = norms@;
    let ghost list = row.nonzero@;
    let n: usize = row.nonzero.len();
    let mut k: usize = 0;
    while k < n
        invariant
            row.wf(),
            row.values@.len() == before.len(),
            list == row.nonzero@,
            n == list.len(),
            k <= n,
            norms@.len() == before.len(),
            forall|c: int|
                0 <= c < before.len() ==> #[trigger] norms@[c] == if holds(list, 0, k as int, c) {
                    before[c].plus_spec(row.values@[c].times_spec(row.values@[c]))
                } else {
                    before[c]
                },
        decreases n - k,
    {
        let c: usize = row.nonzero[k];
        proof {
            one_more(list, 0, n as int, k as int);
        }
        let coeff = row.values[c];
        let v = norms[c].plus(coeff.times(coeff));
        norms[c] = v;
        k += 1;
    }
    proof {
        assert forall|c: int| 0 <= c < before.len() implies #[trigger] norms@[c]
            == if row.is_nonzero@[c] {
            before[c].plus_spec(row.values@[c].times_spec(row.values@[c]))
        } else {
            before[c]
        } by {
            assert(row.is_nonzero@[c] <==> row.marked(c));
        }
    }
}

impl<T: Scalar> Solver<T> {
    /// Puts one more row and its slack variable into the program.
    fn extend_program(&mut self, coeffs: CsVec<T>, rel_op: RelOp, bound: T)
        requires
            old(self).wf(),
            coeffs.wf(),
            can_extend(*old(self), coeffs, rel_op),
        ensures
            final(self).data_wf(),
            *final(self) == (Solver {
                num_slack_vars: final(self).num_slack_vars,
                orig_obj: final(self).orig_obj,
                orig_var_mins: final(self).orig_var_mins,
                orig_var_maxs: final(self).orig_var_maxs,
                orig_bounds: final(self).orig_bounds,
                orig_constraints: final(self).orig_constraints,
                orig_constraints_csc: final(self).orig_constraints_csc,
                ..*old(self)
            }),
            program_extended(*old(self), *final(self), coeffs, rel_op, bound),
    {
        let slack_var: usize = self.num_total_vars();
        let total: usize = slack_var + 1;
        let ghost old_mat = self.orig_constraints;
        let ghost m = self.m();
        let mut rows = resized_rows(&self.orig_constraints, total);
        let ghost cut = rows;
        self.num_slack_vars = self.num_slack_vars + 1;
        self.orig_obj.push(T::zero());
        self.orig_var_mins.push(T::zero());
        self.orig_var_maxs.push(T::infinity());
        let coeff = match rel_op {
            RelOp::Ge => T::one().negated(),
            _ => T::one(),
        };
        let ghost given = coeffs;
        let mut row = into_resized(coeffs, total);
        let ghost bare = row;
        proof {
            if row.indices@.len() > 0 {
                let p = row.indices@.len() - 1;
                let v = row.indices@[p] as int;
                assert(row.stores(v));
                let q = place(given.indices@, 0, given.indices@.len() as int, v);
                assert(given.indices@[q] == v);
            }
        }
        row.append(slack_var, coeff);
        proof {
            crate::invert::appended_entry(bare, row);
        }
        rows.append_outer(&row);
        self.orig_constraints = rows;
        self.orig_bounds.push(bound);
        self.orig_constraints_csc = self.orig_constraints.to_csc();
        proof {
            assert forall|r: int, v: int| 0 <= r < m && v <= slack_var implies
                #[trigger] self.orig_constraints.line(r, v) == old_mat.line(r, v) by {
                assert(self.orig_constraints.line(r, v) == cut.line(r, v));
            }
            assert forall|v: int| v < slack_var implies #[trigger] self.orig_constraints.line(m, v)
                == given.value(v) by {
                assert(self.orig_constraints.line(m, v) == row.value(v));
                assert(row.value(v) == bare.value(v));
            }
            assert(self.orig_constraints.line(m, slack_var as int) == row.value(slack_var as int));
            assert forall|r: int, v: int| 0 <= r < m implies
                #[trigger] self.orig_constraints.line_has(r, v) == old_mat.line_has(r, v) by {
                assert(self.orig_constraints.line_has(r, v) == cut.line_has(r, v));
                old_mat.line_wf(r);
                if old_mat.line_has(r, v) {
                    let p = place(old_mat.indices@, old_mat.lo(r), old_mat.hi(r), v);
                    assert(old_mat.indices@[p] == v);
                }
            }
            assert forall|v: int| #[trigger] self.orig_constraints.line_has(m, v) == (given.stores(v)
                && v < slack_var || v == slack_var) by {
                assert(self.orig_constraints.line_has(m, v) == row.stores(v));
                if given.stores(v) {
                    let q = place(given.indices@, 0, given.indices@.len() as int, v);
                    assert(given.indices@[q] == v);
                }
            }
            let mins = self.orig_var_mins@;
            assert forall|v: int| self.num_vars <= v < mins.len() implies #[trigger] mins[v]
                == T::zero_spec() && self.orig_var_maxs@[v] == T::infinity_spec() by {
                if v < mins.len() - 1 {
                    assert(old(self).orig_var_mins@[v] == T::zero_spec());
                }
            }
        }
    }

    /// Puts one more constraint into the program, with its slack variable in the basis.
    fn extend(&mut self, coeffs: CsVec<T>, rel_op: RelOp, bound: T) -> (r: Result<(), Error>)
        requires
            old(self).wf(),
            coeffs.wf(),
            can_extend(*old(self), coeffs, rel_op),
        ensures
            match r {
                Ok(_) => {
                    &&& final(self).wf()
                    &&& extended(*old(self), *final(self), coeffs, rel_op, bound)
                },
                Err(e) => {
                    &&& e == Error::SingularMatrix
                    &&& extension_stuck(*old(self), *final(self), coeffs, rel_op, bound)
                },
            },
    {
        let slack_var: usize = self.num_total_vars();
        let m: usize = self.num_constraints();
        self.extend_program(coeffs, rel_op, bound);
        self.basic_vars_inv.push(m);
        self.basic_vars.push(slack_var);
        self.non_basic_vars_inv.push(SENTINEL);
        proof {
            one_more_basic(
                old(self).basic_vars@,
                old(self).basic_vars_inv@,
                old(self).non_basic_vars@,
                old(self).non_basic_vars_inv@,
                old(self).total(),
            );
            assert forall|i: int| 0 <= i < self.basic_vars@.len() implies
                #[trigger] self.basic_vars@[i] < self.orig_constraints_csc.ncols by {}
            assert forall|i: int| 0 <= i < self.non_basic_vars@.len() implies
                #[trigger] self.non_basic_vars@[i] < self.total() by {}
        }
        match self.basis_solver.reset(&self.orig_constraints_csc, &self.basic_vars) {
            Err(e) => {
                return Err(e);
            },
            Ok(_) => {},
        }
        self.recalc_cur_bounds();
        let ghost bounded = *self;
        if self.enable_steepest_edge {
            self.calc_row_coeffs(m);
            add_squares(&mut self.non_basic_col_sq_norms, &self.row_coeffs);
        }
        proof {
            assert(self.residuals() =~= bounded.residuals());
            if self.enable_steepest_edge {
                same_row_coeffs(bounded, *self, m);
            }
            assert(self.wf());
            assert(extended(*old(self), *self, coeffs, rel_op, bound));
        }
        Ok(())
    }

    /// Adds an inequality to a program that has no artificial variables.
    pub fn add_constraint(
        &mut self,
        coeffs: CsVec<T>,
        rel_op: RelOp,
        bound: T,
    ) -> (r: Result<(), Error>)
        requires
            old(self).wf(),
            coeffs.wf(),
            coeffs.indices@.len() == 0 || can_extend(*old(self), coeffs, rel_op),
        ensures
            r != Err::<(), Error>(Error::SingularMatrix) ==> final(self).wf(),
            constraint_added(*old(self), *final(self), coeffs, rel_op, bound, r),
            r is Ok && sets_non_basic(*old(self)) ==> sets_non_basic(*final(self))
                && (sets_held(*old(self)) ==> sets_held(*final(self))),
    {
        if coeffs.indices.len() == 0 {
            if is_tautology(rel_op, bound) {
                return Ok(());
            } else {
                return Err(Error::Infeasible);
            }
        }
        match self.extend(coeffs, rel_op, bound) {
            Err(e) => Err(e),
            Ok(_) => {
                let ghost mid = *self;
                proof {
                    if sets_non_basic(*old(self)) {
                        extended_keeps_sets(*old(self), mid, coeffs, rel_op, bound);
                    }
                }
                let r = self.repair();
                proof {
                    assert(extended(*old(self), mid, coeffs, rel_op, bound) && repaired(
                        mid,
                        *self,
                        r,
                    ));
                }
                r
            },
        }
    }
}

/// What is missing to the next integer below, as a negative number.
pub open spec fn below_floor<T: Scalar>(x: T) -> T {
    x.floor_spec().minus_spec(x)
}

/// The coefficients of the cut that the row in `s` gives.
pub open spec fn cut_coeffs_of<T: Scalar>(s: Solver<T>, coeffs: CsVec<T>) -> bool {
    &&& coeffs.wf()
    &&& coeffs.dim == s.total()
    &&& coeffs.indices@.len() == s.row_coeffs.nonzero@.len()
    &&& forall|c: int|
        0 <= c < s.non_basic_vars@.len() && s.row_coeffs.is_nonzero@[c] ==> coeffs.stores(
            #[trigger] s.non_basic_vars@[c] as int,
        ) && coeffs.value(s.non_basic_vars@[c] as int) == below_floor(s.row_coeffs.values@[c])
    &&& forall|v: int| #[trigger]
        coeffs.stores(v) ==> 0 <= v < s.total() && s.non_basic_vars_inv@[v] != SENTINEL
            && s.row_coeffs.is_nonzero@[s.non_basic_vars_inv@[v] as int]
}

/// How adding a cut for the variable ends: `mid` has the row of the variable, from which the
/// coefficients come.
pub open spec fn cut_by<T: Scalar>(
    before: Solver<T>,
    mid: Solver<T>,
    coeffs: CsVec<T>,
    after: Solver<T>,
    var: usize,
    r: Result<(), Error>,
) -> bool {
    let row = before.basic_vars_inv@[var as int];
    &&& mid.wf()
    &&& mid.same_program(before)
    &&& mid.same_vertex(before)
    &&& mid.basis_solver.same_basis(before.basis_solver)
    &&& row_coeffs_of(before, mid, row)
    &&& cut_coeffs_of(mid, coeffs)
    &&& constraint_added(
        mid,
        after,
        coeffs,
        RelOp::Le,
        below_floor(before.value_of(var as int)),
        r,
    )
}

pub open spec fn cut_added<T: Scalar>(
    before: Solver<T>,
    after: Solver<T>,
    var: usize,
    r: Result<(), Error>,
) -> bool {
    exists|mid: Solver<T>, coeffs: CsVec<T>| #[trigger]
        cut_by(before, mid, coeffs, after, var, r)
}

impl<T: Scalar> Solver<T> {
    /// The coefficients of the cut that the calculated row gives.
    fn cut_coeffs(&self) -> (r: CsVec<T>)
        requires
            self.wf(),
        ensures
            cut_coeffs_of(*self, r),
    {
        let mut cut: SparseVec<T> = SparseVec::new();
        let ghost list = self.row_coeffs.nonzero@;
        let ghost nb = self.non_basic_vars@;
        let n: usize = self.row_coeffs.nonzero.len();
        let mut k: usize = 0;
        while k < n
            invariant
                self.wf(),
                list == self.row_coeffs.nonzero@,
                nb == self.non_basic_vars@,
                n == list.len(),
                k <= n,
                cut.wf(self.total()),
                cut.indices@.len() == k,
                forall|c: int|
                    0 <= c < nb.len() && holds(list, 0, k as int, c) ==> cut.stores(
                        #[trigger] nb[c] as int,
                    ) && cut.value(nb[c] as int) == below_floor(self.row_coeffs.values@[c]),
                forall|v: int| #[trigger]
                    cut.stores(v) ==> 0 <= v < self.total() && self.non_basic_vars_inv@[v]
                        != SENTINEL && holds(
                        list,
                        0,
                        k as int,
                        self.non_basic_vars_inv@[v] as int,
                    ),
            decreases n - k,
        {
            let col: usize = self.row_coeffs.nonzero[k];
            let coeff = self.row_coeffs.values[col];
            let var: usize = self.non_basic_vars[col];
            let ghost before = cut;
            proof {
                one_more(list, 0, n as int, k as int);
                assert(nb[col as int] < self.total() && self.non_basic_vars_inv@[var as int]
                    == col);
                assert(!cut.stores(var as int));
            }
            cut.push(var, coeff.floor().minus(coeff));
            proof {
                cut.with_entry(before);
                assert forall|c: int| 0 <= c < nb.len() && holds(list, 0, k + 1, c) implies cut.stores(
                    #[trigger] nb[c] as int,
                ) && cut.value(nb[c] as int) == below_floor(self.row_coeffs.values@[c]) by {
                    if c != col {
                        assert(self.non_basic_vars_inv@[nb[c] as int] == c);
                        assert(before.stores(nb[c] as int));
                    }
                }
                assert forall|p: int| 0 <= p < cut.indices@.len() implies #[trigger] cut.indices@[p]
                    < self.total() by {
                    if p < k {
                        assert(before.indices@[p] < self.total());
                    }
                }
            }
            k += 1;
        }
        let r = cut.into_csvec(self.num_total_vars());
        proof {
            assert forall|c: int| 0 <= c < nb.len() && self.row_coeffs.is_nonzero@[c] implies r.stores(
                #[trigger] nb[c] as int,
            ) && r.value(nb[c] as int) == below_floor(self.row_coeffs.values@[c]) by {
                assert(self.row_coeffs.is_nonzero@[c] <==> self.row_coeffs.marked(c));
                assert(cut.stores(nb[c] as int));
            }
            assert forall|v: int| #[trigger] r.stores(v) implies 0 <= v < self.total()
                && self.non_basic_vars_inv@[v] != SENTINEL
                && self.row_coeffs.is_nonzero@[self.non_basic_vars_inv@[v] as int] by {
                assert(cut.stores(v));
                let c = self.non_basic_vars_inv@[v] as int;
                assert(self.row_coeffs.is_nonzero@[c] <==> self.row_coeffs.marked(c));
            }
        }
        r
    }

    /// Cuts off the current value of a basic variable that is to be an integer.
    pub fn add_gomory_cut(&mut self, var: usize) -> (r: Result<(), Error>)
        requires
            old(self).wf(),
            old(self).num_artificial_vars == 0,
            var < old(self).total(),
            old(self).basic_vars_inv@[var as int] != SENTINEL,
            old(self).total() + 2 < SENTINEL,
            old(self).orig_constraints.indices@.len() + old(self).non_basic_vars@.len() + 1
                <= usize::MAX / 2,
        ensures
            r != Err::<(), Error>(Error::SingularMatrix) ==> final(self).wf(),
            cut_added(*old(self), *final(self), var, r),
            r is Ok && sets_non_basic(*old(self)) ==> sets_non_basic(*final(self))
                && (sets_held(*old(self)) ==> sets_held(*final(self))),
    {
        let basic_row: usize = self.basic_vars_inv[var];
        self.calc_row_coeffs(basic_row);
        let ghost mid = *self;
        let coeffs = self.cut_coeffs();
        let b = self.cur_bounds[basic_row];
        let cut_bound = b.floor().minus(b);
        proof {
            crate::perm::distinct_is_short(
                self.row_coeffs.nonzero@,
                self.non_basic_vars@.len() as int,
            );
            if sets_non_basic(*old(self)) {
                fewer_sets(*old(self), *self);
            }
        }
        let r = self.add_constraint(coeffs, RelOp::Le, cut_bound);
        proof {
            assert(cut_by(*old(self), mid, coeffs, *self, var, r));
        }
        r
    }
}

} // verus!
