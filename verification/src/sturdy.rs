//! Changes of a program do not fail for want of factors, where arithmetic is exact.
use crate::edited::{
    extended_is_sound, marked_is_consistent, set_basic_keeps, set_value_keeps, unset_keeps,
};
use crate::edits::{
    below_floor, constraint_added, cut_added, cut_by, extended, repaired, set_by, unset_by,
    value_moved_from, var_set, var_unset,
};
use crate::error::Error;
use crate::lu::fair_threshold;
use crate::phases::{exit_made, left_basis};
use crate::regular::{
    eliminates, exit_is_not_singular, extension_is_not_singular, finite_choice, plain_repair,
    repair_is_not_singular,
};
use crate::renewed::{factored_basis, sharp_bounds};
use crate::scalar::{exact, Scalar};
use crate::simplex::{RelOp, Solver, SENTINEL};
use crate::solve::finite_items;
use crate::sparse::CsVec;
use crate::steps::finite_exit;
use crate::vertex::{consistent_elsewhere, finite_vertex, sound};
use vstd::prelude::*;

verus! {

/// The numbers are finite on every way that adding a constraint can have gone until there were no
/// factors.
#[verifier::opaque]
pub open spec fn plain_extension<T: Scalar>(
    before: Solver<T>,
    after: Solver<T>,
    coeffs: CsVec<T>,
    rel_op: RelOp,
    bound: T,
) -> bool {
    &&& eliminates(after)
    &&& forall|mid: Solver<T>| #[trigger]
        extended(before, mid, coeffs, rel_op, bound) && repaired(
            mid,
            after,
            Err(Error::SingularMatrix),
        ) ==> mid.wf() && finite_vertex(mid) && factored_basis(mid) && sharp_bounds(mid)
            && plain_repair(mid, after)
}

/// Adding a constraint does not fail for want of factors.
pub proof fn constraint_is_not_singular<T: Scalar>(
    before: Solver<T>,
    after: Solver<T>,
    coeffs: CsVec<T>,
    rel_op: RelOp,
    bound: T,
)
    requires
        exact::<T>(),
        fair_threshold(T::stability_spec()),
        sound(before),
        before.num_artificial_vars == 0,
        forall|v: usize| #[trigger] before.set_vars@.contains_key(v) ==> v < before.total(),
        plain_extension(before, after, coeffs, rel_op, bound),
    ensures
        !constraint_added(before, after, coeffs, rel_op, bound, Err(Error::SingularMatrix)),
{
    reveal(plain_extension);
    let bad = Err::<(), Error>(Error::SingularMatrix);
    if constraint_added(before, after, coeffs, rel_op, bound, bad) {
        extension_is_not_singular(before, after, coeffs, rel_op, bound);
        let mid = choose|mid: Solver<T>| #[trigger]
            extended(before, mid, coeffs, rel_op, bound) && repaired(mid, after, bad);
        extended_is_sound(before, mid, coeffs, rel_op, bound);
        repair_is_not_singular(mid, after);
    }
}

/// The numbers are finite on every way that adding a cut can have gone until there were no factors.
#[verifier::opaque]
pub open spec fn plain_cut<T: Scalar>(before: Solver<T>, after: Solver<T>, var: usize) -> bool {
    forall|mid: Solver<T>, coeffs: CsVec<T>| #[trigger]
        cut_by(before, mid, coeffs, after, var, Err(Error::SingularMatrix)) ==> plain_extension(
            mid,
            after,
            coeffs,
            RelOp::Le,
            below_floor(before.value_of(var as int)),
        )
}

/// Adding a cut does not fail for want of factors.
pub proof fn cut_is_not_singular<T: Scalar>(before: Solver<T>, after: Solver<T>, var: usize)
    requires
        exact::<T>(),
        fair_threshold(T::stability_spec()),
        sound(before),
        before.num_artificial_vars == 0,
        forall|v: usize| #[trigger] before.set_vars@.contains_key(v) ==> v < before.total(),
        plain_cut(before, after, var),
    ensures
        !cut_added(before, after, var, Err(Error::SingularMatrix)),
{
    reveal(plain_cut);
    let bad = Err::<(), Error>(Error::SingularMatrix);
    if cut_added(before, after, var, bad) {
        let (mid, coeffs) = choose|mid: Solver<T>, coeffs: CsVec<T>| #[trigger]
            cut_by(before, mid, coeffs, after, var, bad);
        consistent_elsewhere(before, mid);
        constraint_is_not_singular(
            mid,
            after,
            coeffs,
            RelOp::Le,
            below_floor(before.value_of(var as int)),
        );
    }
}

/// The numbers are finite on every way that unsetting a variable can have gone until there were no
/// factors.
#[verifier::opaque]
pub open spec fn plain_unsetting<T: Scalar>(
    before: Solver<T>,
    after: Solver<T>,
    var: usize,
) -> bool {
    forall|marked: Solver<T>, moved: Solver<T>| #[trigger]
        unset_by(before, marked, moved, after, var, Err(Error::SingularMatrix)) ==> {
            let col = before.non_basic_vars_inv@[var as int] as int;
            let new_val = before.better_limit(col);
            let diff = new_val.minus_spec(before.set_vars@[var]);
            &&& plain_repair(moved, after)
            &&& forall|ready: Solver<T>| #[trigger]
                value_moved_from(marked, ready, moved, col, diff, new_val) ==> moved.wf()
                    && finite_items(ready.col_coeffs.values@) && finite_vertex(moved)
        }
}

/// Unsetting a variable does not fail for want of factors.
pub proof fn unsetting_is_not_singular<T: Scalar>(before: Solver<T>, after: Solver<T>, var: usize)
    requires
        exact::<T>(),
        fair_threshold(T::stability_spec()),
        sound(before),
        before.num_artificial_vars == 0,
        before.set_vars@.contains_key(var),
        var < before.total(),
        plain_unsetting(before, after, var),
    ensures
        !var_unset(before, after, var, Err(Error::SingularMatrix)),
{
    let bad = Err::<bool, Error>(Error::SingularMatrix);
    if var_unset(before, after, var, bad) {
        let (marked, moved) = choose|marked: Solver<T>, moved: Solver<T>| #[trigger]
            unset_by(before, marked, moved, after, var, bad);
        unset_starts_well(before, marked, moved, after, var);
        repair_is_not_singular(moved, after);
    }
}

proof fn unset_starts_well<T: Scalar>(
    before: Solver<T>,
    marked: Solver<T>,
    moved: Solver<T>,
    after: Solver<T>,
    var: usize,
)
    requires
        exact::<T>(),
        sound(before),
        before.num_artificial_vars == 0,
        before.set_vars@.contains_key(var),
        var < before.total(),
        plain_unsetting(before, after, var),
        unset_by(before, marked, moved, after, var, Err(Error::SingularMatrix)),
    ensures
        sound(moved),
        moved.num_artificial_vars == 0,
        plain_repair(moved, after),
        repaired(moved, after, Err(Error::SingularMatrix)),
{
    reveal(plain_unsetting);
    let row = before.basic_vars_inv@[var as int];
    assert((row == SENTINEL) != (before.non_basic_vars_inv@[var as int] == SENTINEL));
    if row != SENTINEL {
        assert(before.basic_vars@[row as int] == var);
        assert(!before.set_vars@.contains_key(before.basic_vars@[row as int]));
    }
    let col = before.non_basic_vars_inv@[var as int] as int;
    let new_val = before.better_limit(col);
    let diff = new_val.minus_spec(before.set_vars@[var]);
    let ready = choose|ready: Solver<T>| #[trigger]
        value_moved_from(marked, ready, moved, col, diff, new_val);
    assert(before.non_basic_vars@[col] == var);
    unset_keeps(before, marked, ready, moved, col);
}

/// The numbers are finite on every way that setting a variable can have gone until there were no
/// factors.
#[verifier::opaque]
pub open spec fn plain_setting<T: Scalar>(
    before: Solver<T>,
    after: Solver<T>,
    var: usize,
    val: T,
) -> bool {
    forall|marked: Solver<T>, moved: Solver<T>| #[trigger]
        set_by(before, marked, moved, after, var, val, Err(Error::SingularMatrix)) ==> {
            let row = before.basic_vars_inv@[var as int];
            let col = before.non_basic_vars_inv@[var as int] as int;
            let diff = val.minus_spec(marked.non_basic_vals@[col]);
            &&& plain_repair(moved, after)
            &&& forall|mid: Solver<T>, ready: Solver<T>| #[trigger]
                exit_made(marked, mid, ready, after, row, val, Err(Error::SingularMatrix))
                    ==> finite_choice(mid, ready, row, val) && eliminates(after)
            &&& forall|mid: Solver<T>, ready: Solver<T>| #[trigger]
                exit_made(marked, mid, ready, moved, row, val, Ok(())) ==> moved.wf()
                    && finite_exit(mid, ready, moved)
            &&& forall|ready: Solver<T>| #[trigger]
                value_moved_from(marked, ready, moved, col, diff, val) ==> moved.wf()
                    && finite_items(ready.col_coeffs.values@) && finite_vertex(moved)
        }
}

/// Setting a variable does not fail for want of factors.
pub proof fn setting_is_not_singular<T: Scalar>(
    before: Solver<T>,
    after: Solver<T>,
    var: usize,
    val: T,
)
    requires
        exact::<T>(),
        fair_threshold(T::stability_spec()),
        sound(before),
        before.num_artificial_vars == 0,
        var < before.total(),
        plain_setting(before, after, var, val),
    ensures
        !var_set(before, after, var, val, Err(Error::SingularMatrix)),
{
    let bad = Err::<(), Error>(Error::SingularMatrix);
    if var_set(before, after, var, val, bad) {
        let (marked, moved) = choose|marked: Solver<T>, moved: Solver<T>| #[trigger]
            set_by(before, marked, moved, after, var, val, bad);
        let row = before.basic_vars_inv@[var as int];
        let exit_failed = row != SENTINEL && left_basis(marked, after, row, val, bad);
        set_starts_well(before, marked, moved, after, var, val);
        if !exit_failed {
            repair_is_not_singular(moved, after);
        }
    }
}

proof fn set_starts_well<T: Scalar>(
    before: Solver<T>,
    marked: Solver<T>,
    moved: Solver<T>,
    after: Solver<T>,
    var: usize,
    val: T,
)
    requires
        exact::<T>(),
        fair_threshold(T::stability_spec()),
        sound(before),
        before.num_artificial_vars == 0,
        var < before.total(),
        plain_setting(before, after, var, val),
        set_by(before, marked, moved, after, var, val, Err(Error::SingularMatrix)),
    ensures
        before.basic_vars_inv@[var as int] != SENTINEL ==> !left_basis(
            marked,
            after,
            before.basic_vars_inv@[var as int],
            val,
            Err(Error::SingularMatrix),
        ),
        sound(moved),
        moved.num_artificial_vars == 0,
        plain_repair(moved, after),
        repaired(moved, after, Err(Error::SingularMatrix)),
{
    reveal(plain_setting);
    let bad = Err::<(), Error>(Error::SingularMatrix);
    let row = before.basic_vars_inv@[var as int];
    let col = before.non_basic_vars_inv@[var as int] as int;
    assert((row == SENTINEL) != (before.non_basic_vars_inv@[var as int] == SENTINEL));
    if row != SENTINEL {
        assert(before.basic_vars@[row as int] == var);
        marked_is_consistent(before, marked, var);
        assert forall|mid: Solver<T>, ready: Solver<T>| !#[trigger]
            exit_made(marked, mid, ready, after, row, val, bad) by {
            if exit_made(marked, mid, ready, after, row, val, bad) {
                exit_is_not_singular(marked, mid, ready, after, row, val);
            }
        }
        let (mid, ready) = choose|mid: Solver<T>, ready: Solver<T>| #[trigger]
            exit_made(marked, mid, ready, moved, row, val, Ok(()));
        set_basic_keeps(before, marked, mid, ready, moved, var, val);
    } else {
        let diff = val.minus_spec(marked.non_basic_vals@[col]);
        let ready = choose|ready: Solver<T>| #[trigger]
            value_moved_from(marked, ready, moved, col, diff, val);
        assert(before.non_basic_vars@[col] == var);
        set_value_keeps(before, marked, ready, moved, col, val);
    }
}

} // verus!
