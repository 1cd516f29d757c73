//! Sequences of calls, where arithmetic is exact.
use crate::drift::{misses_by, within_misses_nothing};
use crate::dual::limits_have_room;
use crate::edits::{constraint_added, cut_added, var_set, var_unset};
use crate::feasible::{basics_within, sets_within};
use crate::limits::{finite_search, nothing, optimization_drifts, sharp_run};
use crate::lu::all_finite;
use crate::normed::{
    cut_keeps_norms, extension_keeps_norms, normed_cut, normed_extension, normed_search, normed_set,
    normed_unset, optimization_keeps_norms, setting_keeps_norms, unsetting_keeps_norms,
};
use crate::norms::{norms_hold, start_norms_hold};
use crate::outcome::{
    cut_settles, cut_strays, extension_settles, extension_strays, finite_cut, finite_extension,
    finite_set, finite_unset, in_order, set_strays, setting_settles, sharp_cut, sharp_extension,
    sharp_set, sharp_unset, unset_strays, unsetting_settles,
};
use crate::phases::{bfs_found, climbed, is_optimal, optimized};
use crate::program::{finite_input, start_is_in_order};
use crate::scalar::{exact, Scalar};
use crate::simplex::{RelOp, Solver, SENTINEL};
use crate::solve::finite_items;
use crate::sparse::CsVec;
use crate::start::{started, Input};
use crate::vertex::finite_vertex;
use vstd::prelude::*;

verus! {

/// A change to a program that is solved.
pub enum Change<T> {
    /// A variable is set to a value.
    Hold(usize, T),
    /// A variable is not set any more.
    Free(usize),
    /// One more constraint.
    Constraint(CsVec<T>, RelOp, T),
    /// A cut for a basic variable.
    Cut(usize),
}

impl<T: Scalar> Change<T> {
    /// The change was asked for and succeeded, and there was something to change.
    pub open spec fn made(self, before: Solver<T>, after: Solver<T>) -> bool {
        match self {
            Change::Hold(var, val) => var < before.total() && var_set(
                before,
                after,
                var,
                val,
                Ok(()),
            ),
            Change::Free(var) => before.set_vars@.contains_key(var) && var_unset(
                before,
                after,
                var,
                Ok(true),
            ),
            Change::Constraint(coeffs, rel_op, bound) => coeffs.indices@.len() > 0
                && constraint_added(before, after, coeffs, rel_op, bound, Ok(())),
            Change::Cut(var) => before.basic_vars_inv@[var as int] != SENTINEL && cut_added(
                before,
                after,
                var,
                Ok(()),
            )
                && after.num_slack_vars != before.num_slack_vars,
        }
    }

    /// The numbers are finite on every way that the change can have gone.
    pub open spec fn finite(self, before: Solver<T>, after: Solver<T>) -> bool {
        match self {
            Change::Hold(var, val) => finite_set(before, after, var, val),
            Change::Free(var) => finite_unset(before, after, var),
            Change::Constraint(coeffs, rel_op, bound) => finite_extension(
                before,
                after,
                coeffs,
                rel_op,
                bound,
            ),
            Change::Cut(var) => finite_cut(before, after, var),
        }
    }

    /// Those for the squared norms among them.
    pub open spec fn normed(self, before: Solver<T>, after: Solver<T>) -> bool {
        match self {
            Change::Hold(var, val) => normed_set(before, after, var, val),
            Change::Free(var) => normed_unset(before, after, var),
            Change::Constraint(coeffs, rel_op, bound) => normed_extension(
                before,
                after,
                coeffs,
                rel_op,
                bound,
            ),
            Change::Cut(var) => normed_cut(before, after, var),
        }
    }

    /// On no way that the change can have gone is a difference or a miss lost in the tolerance.
    pub open spec fn sharp(self, before: Solver<T>, after: Solver<T>) -> bool {
        match self {
            Change::Hold(var, val) => sharp_set(before, after, var, val),
            Change::Free(var) => sharp_unset(before, after, var),
            Change::Constraint(coeffs, rel_op, bound) => sharp_extension(
                before,
                after,
                coeffs,
                rel_op,
                bound,
            ),
            Change::Cut(var) => sharp_cut(before, after, var),
        }
    }

    /// `f` is what the tolerance adds up to with the change.
    pub open spec fn strays(
        self,
        before: Solver<T>,
        after: Solver<T>,
        f: spec_fn(int) -> real,
    ) -> bool {
        match self {
            Change::Hold(var, val) => set_strays(before, after, var, val, f),
            Change::Free(var) => unset_strays(before, after, var, f),
            Change::Constraint(coeffs, rel_op, bound) => extension_strays(
                before,
                after,
                coeffs,
                rel_op,
                bound,
                f,
            ),
            Change::Cut(var) => cut_strays(before, after, var, f),
        }
    }

    /// A change that succeeds leads from order to order, and to an optimum that misses its limits
    /// by no more than what the tolerance adds up to, and by nothing where nothing is lost in it;
    /// and the squared norms stay right.
    pub proof fn settles(self, before: Solver<T>, after: Solver<T>)
        requires
            exact::<T>(),
            in_order(before),
            sets_known(before),
            self.made(before, after),
            self.finite(before, after),
        ensures
            in_order(after),
            sets_known(after),
            is_optimal(after),
            exists|f: spec_fn(int) -> real| #[trigger]
                self.strays(before, after, f) && misses_by(after, f),
            self.sharp(before, after) ==> basics_within(after),
            norms_hold(before) && self.normed(before, after) ==> norms_hold(after),
    {
        match self {
            Change::Hold(var, val) => {
                setting_settles(before, after, var, val);
                let f = choose|f: spec_fn(int) -> real| #[trigger]
                    set_strays(before, after, var, val, f) && misses_by(after, f);
                assert(self.strays(before, after, f));
                if norms_hold(before) && self.normed(before, after) {
                    setting_keeps_norms(before, after, var, val);
                }
            },
            Change::Free(var) => {
                unsetting_settles(before, after, var);
                let f = choose|f: spec_fn(int) -> real| #[trigger]
                    unset_strays(before, after, var, f) && misses_by(after, f);
                assert(self.strays(before, after, f));
                if norms_hold(before) && self.normed(before, after) {
                    unsetting_keeps_norms(before, after, var);
                }
            },
            Change::Constraint(coeffs, rel_op, bound) => {
                extension_settles(before, after, coeffs, rel_op, bound);
                let f = choose|f: spec_fn(int) -> real| #[trigger]
                    extension_strays(before, after, coeffs, rel_op, bound, f) && misses_by(after, f);
                assert(self.strays(before, after, f));
                if norms_hold(before) && self.normed(before, after) {
                    extension_keeps_norms(before, after, coeffs, rel_op, bound);
                }
            },
            Change::Cut(var) => {
                cut_settles(before, after, var);
                let f = choose|f: spec_fn(int) -> real| #[trigger]
                    cut_strays(before, after, var, f) && misses_by(after, f);
                assert(self.strays(before, after, f));
                if norms_hold(before) && self.normed(before, after) {
                    cut_keeps_norms(before, after, var);
                }
            },
        }
        assert forall|v: usize| #[trigger] after.set_vars@.contains_key(v) implies v
            < after.total() by {
            if self matches Change::Hold(var, _) && v == var {
            } else {
                assert(before.set_vars@.contains_key(v));
            }
        }
    }
}

/// Only variables of the program are set.
pub open spec fn sets_known<T: Scalar>(s: Solver<T>) -> bool {
    forall|v: usize| #[trigger] s.set_vars@.contains_key(v) ==> v < s.total()
}

/// The solution of a program is an optimum in order, which changes can start from; and its squared
/// norms are right.
pub proof fn solution_is_in_order<T: Scalar>(input: Input<T>, s: Solver<T>, after: Solver<T>)
    requires
        exact::<T>(),
        input.wf(),
        finite_input(input),
        !input.infeasible(),
        started(input, s),
        s.wf(),
        finite_vertex(s),
        all_finite(s.basis_solver.lu_factors.lower),
        all_finite(s.basis_solver.lu_factors.upper),
        optimized(s, after, Ok(())),
        finite_search(s, after),
        limits_have_room(after),
    ensures
        in_order(after),
        sets_known(after),
        is_optimal(after),
        sharp_run(s, after) ==> basics_within(after),
        finite_items(s.non_basic_col_sq_norms@) && normed_search(s, after) ==> norms_hold(after),
{
    start_is_in_order(input, s);
    within_misses_nothing(s, nothing());
    optimization_drifts(s, after, nothing());
    assert(sets_within(after));
    if s.num_artificial_vars > 0 {
        let start = choose|start: Solver<T>| #[trigger]
            bfs_found(s, start, Ok(())) && climbed(start, after, Ok(()));
        assert(climbed(start, after, Ok(())));
    }
    if finite_items(s.non_basic_col_sq_norms@) && normed_search(s, after) {
        start_norms_hold(input, s);
        optimization_keeps_norms(s, after);
    }
}

/// Change `i` of a sequence was made, with finite numbers.
pub open spec fn change_at<T: Scalar>(
    path: Seq<Solver<T>>,
    changes: Seq<Change<T>>,
    i: int,
) -> bool {
    changes[i].made(path[i], path[i + 1]) && changes[i].finite(path[i], path[i + 1])
}

/// The numbers for the squared norms are finite too with change `i`.
pub open spec fn norms_at<T: Scalar>(
    path: Seq<Solver<T>>,
    changes: Seq<Change<T>>,
    i: int,
) -> bool {
    changes[i].normed(path[i], path[i + 1])
}

/// However a program is changed after it was solved, by any sequence of changes that succeed: every
/// one leads to a vertex in order that is an optimum. It misses its limits by no more than what the
/// tolerance adds up to with the last change, and by nothing where nothing was lost in it; and if
/// the squared norms were right at first, they still are.
pub proof fn changes_settle<T: Scalar>(
    path: Seq<Solver<T>>,
    changes: Seq<Change<T>>,
    k: int,
)
    requires
        exact::<T>(),
        path.len() == changes.len() + 1,
        in_order(path[0]),
        sets_known(path[0]),
        forall|i: int| 0 <= i < changes.len() ==> #[trigger] change_at(path, changes, i),
        0 <= k <= changes.len(),
    ensures
        in_order(path[k]),
        sets_known(path[k]),
        k > 0 ==> is_optimal(path[k]),
        k > 0 ==> exists|f: spec_fn(int) -> real| #[trigger]
            changes[k - 1].strays(path[k - 1], path[k], f) && misses_by(path[k], f),
        k > 0 && changes[k - 1].sharp(path[k - 1], path[k]) ==> basics_within(path[k]),
        norms_hold(path[0]) && (forall|i: int|
            0 <= i < changes.len() ==> #[trigger] norms_at(path, changes, i)) ==> norms_hold(
            path[k],
        ),
    decreases k,
{
    if k > 0 {
        changes_settle(path, changes, k - 1);
        assert(change_at(path, changes, k - 1));
        changes[k - 1].settles(path[k - 1], path[k]);
        if norms_hold(path[0]) && (forall|i: int|
            0 <= i < changes.len() ==> #[trigger] norms_at(path, changes, i)) {
            assert(norms_at(path, changes, k - 1));
        }
    }
}

} // verus!
