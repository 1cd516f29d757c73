//! The change from one vertex to the next.
use crate::basis::{dense_of, holds_entries};
use crate::elim::one_more;
use crate::error::Error;
use crate::lu::stuck;
use crate::scalar::{exact, Scalar};
use crate::scattered::ScatteredVec;
use crate::simplex::{add_rows, partitioned, row_sums, PivotInfo, Solver, SENTINEL};
use crate::solve::{finite_items, solves_transp};
use crate::sparse::{at_place, holds, square_sum, SparseVec};
use vstd::prelude::*;

verus! {

/// `values[r] -= diff * coeffs[r]`.
pub fn subtract_coeffs<T: Scalar>(values: &mut Vec<T>, coeffs: &SparseVec<T>, diff: T)
    requires
        coeffs.wf(old(values)@.len() as int),
    ensures
        final(values)@.len() == old(values)@.len(),
        forall|r: int|
            0 <= r < old(values)@.len() ==> #[trigger] final(values)@[r] == if coeffs.stores(r) {
                old(values)@[r].minus_spec(diff.times_spec(coeffs.value(r)))
            } else {
                old(values)@[r]
            },
{
    let ghost before = values@;
    let ghost idx = coeffs.indices@;
    let n: usize = coeffs.indices.len();
    let mut p: usize = 0;
    while p < n
        invariant
            coeffs.wf(before.len() as int),
            idx == coeffs.indices@,
            n == idx.len(),
            p <= n,
            values@.len() == before.len(),
            forall|r: int|
                0 <= r < before.len() ==> #[trigger] values@[r] == if holds(idx, 0, p as int, r) {
                    before[r].minus_spec(diff.times_spec(coeffs.value(r)))
                } else {
                    before[r]
                },
        decreases n - p,
    {
        let r: usize = coeffs.indices[p];
        proof {
            at_place(idx, coeffs.values@, 0, n as int, p as int);
            one_more(idx, 0, n as int, p as int);
        }
        let v = values[r].minus(diff.times(coeffs.values[p]));
        values[r] = v;
        p += 1;
    }
}

/// The objective coefficients after a change in column `col`.
pub open spec fn shifted_obj<T: Scalar>(
    obj: Seq<T>,
    row: ScatteredVec<T>,
    col: int,
    pivot_obj: T,
    c: int,
) -> T {
    if !row.is_nonzero@[c] {
        obj[c]
    } else if c == col {
        pivot_obj.negated_spec()
    } else {
        obj[c].minus_spec(pivot_obj.times_spec(row.values@[c]))
    }
}

fn shift_obj<T: Scalar>(obj: &mut Vec<T>, row: &ScatteredVec<T>, col: usize, pivot_obj: T)
    requires
        row.wf(),
        row.values@.len() == old(obj)@.len(),
    ensures
        final(obj)@.len() == old(obj)@.len(),
        forall|c: int|
            0 <= c < old(obj)@.len() ==> #[trigger] final(obj)@[c] == shifted_obj(
                old(obj)@,
                *row,
                col as int,
                pivot_obj,
                c,
            ),
{
    let ghost before = obj@;
    let ghost list = row.nonzero@;
    let n: usize = row.nonzero.len();
    let mut k: usize = 0;
    while k < n
        invariant
            row.wf(),
            row.values@.len() == before.len(),
            list == row.nonzero@,
            n == list.len(),
            k <= n,
            obj@.len() == before.len(),
            forall|c: int|
                0 <= c < before.len() ==> #[trigger] obj@[c] == if holds(list, 0, k as int, c) {
                    shifted_obj(before, *row, col as int, pivot_obj, c)
                } else {
                    before[c]
                },
        decreases n - k,
    {
        let c: usize = row.nonzero[k];
        proof {
            one_more(list, 0, n as int, k as int);
            assert(row.marked(c as int)) by {
                assert(list[k as int] == c);
            }
            assert(row.is_nonzero@[c as int]);
        }
        if c == col {
            obj[c] = pivot_obj.negated();
        } else {
            let v = obj[c].minus(pivot_obj.times(row.values[c]));
            obj[c] = v;
        }
        k += 1;
    }
    proof {
        assert forall|c: int| 0 <= c < before.len() implies #[trigger] obj@[c] == shifted_obj(
            before,
            *row,
            col as int,
            pivot_obj,
            c,
        ) by {
            assert(row.is_nonzero@[c] <==> row.marked(c));
        }
    }
}

pub open spec fn two<T: Scalar>() -> T {
    T::one_spec().plus_spec(T::one_spec())
}

/// The squared norms of the columns after a change in column `col`.
pub open spec fn shifted_norm<T: Scalar>(
    norms: Seq<T>,
    row: ScatteredVec<T>,
    helper: Seq<T>,
    eta_sq_norm: T,
    col: int,
    pivot: T,
    c: int,
) -> T {
    let a = row.values@[c];
    if !row.is_nonzero@[c] {
        norms[c]
    } else if c == col {
        eta_sq_norm.minus_spec(T::one_spec()).plus_spec(two::<T>().over_spec(pivot))
    } else {
        norms[c].plus_spec(
            two::<T>().negated_spec().times_spec(a).times_spec(helper[c]).plus_spec(
                eta_sq_norm.times_spec(a).times_spec(a),
            ),
        )
    }
}

fn shift_norms<T: Scalar>(
    norms: &mut Vec<T>,
    row: &ScatteredVec<T>,
    helper: &ScatteredVec<T>,
    eta_sq_norm: T,
    col: usize,
    pivot: T,
)
    requires
        row.wf(),
        row.values@.len() == old(norms)@.len(),
        helper.values@.len() == old(norms)@.len(),
    ensures
        final(norms)@.len() == old(norms)@.len(),
        forall|c: int|
            0 <= c < old(norms)@.len() ==> #[trigger] final(norms)@[c] == shifted_norm(
                old(norms)@,
                *row,
                helper.values@,
                eta_sq_norm,
                col as int,
                pivot,
                c,
            ),
{
    let ghost before = norms@;
    let ghost list = row.nonzero@;
    let n: usize = row.nonzero.len();
    let mut k: usize = 0;
    while k < n
        invariant
            row.wf(),
            row.values@.len() == before.len(),
            helper.values@.len() == before.len(),
            list == row.nonzero@,
            n == list.len(),
            k <= n,
            norms@.len() == before.len(),
            forall|c: int|
                0 <= c < before.len() ==> #[trigger] norms@[c] == if holds(list, 0, k as int, c) {
                    shifted_norm(
                        before,
                        *row,
                        helper.values@,
                        eta_sq_norm,
                        col as int,
                        pivot,
                        c,
                    )
                } else {
                    before[c]
                },
        decreases n - k,
    {
        let c: usize = row.nonzero[k];
        proof {
            one_more(list, 0, n as int, k as int);
            assert(row.marked(c as int)) by {
                assert(list[k as int] == c);
            }
            assert(row.is_nonzero@[c as int]);
        }
        let two_val = T::one().plus(T::one());
        if c == col {
            norms[c] = eta_sq_norm.minus(T::one()).plus(two_val.over(pivot));
        } else {
            let a = row.values[c];
            let v = norms[c].plus(
                two_val.negated().times(a).times(*helper.get(c)).plus(
                    eta_sq_norm.times(a).times(a),
                ),
            );
            norms[c] = v;
        }
        k += 1;
    }
    proof {
        assert forall|c: int| 0 <= c < before.len() implies #[trigger] norms@[c] == shifted_norm(
            before,
            *row,
            helper.values@,
            eta_sq_norm,
            col as int,
            pivot,
            c,
        ) by {
            assert(row.is_nonzero@[c] <==> row.marked(c));
        }
    }
}

/// Two variables that change places leave every variable in one of the two lists.
pub proof fn exchanged(
    basic: Seq<usize>,
    basic_inv: Seq<usize>,
    rest: Seq<usize>,
    rest_inv: Seq<usize>,
    total: int,
    row: int,
    col: int,
)
    requires
        partitioned(basic, basic_inv, rest, rest_inv, total),
        0 <= row < basic.len(),
        0 <= col < rest.len(),
    ensures
        basic[row] != rest[col],
        partitioned(
            basic.update(row, rest[col]),
            basic_inv.update(rest[col] as int, row as usize).update(basic[row] as int, SENTINEL),
            rest.update(col, basic[row]),
            rest_inv.update(rest[col] as int, SENTINEL).update(basic[row] as int, col as usize),
            total,
        ),
{
    let e = rest[col] as int;
    let l = basic[row] as int;
    assert(rest_inv[e] == col && basic_inv[l] == row);
    assert(basic_inv[e] == SENTINEL);
    assert(rest_inv[l] == SENTINEL);
    let b2 = basic.update(row, rest[col]);
    let bi2 = basic_inv.update(e, row as usize).update(l, SENTINEL);
    let r2 = rest.update(col, basic[row]);
    let ri2 = rest_inv.update(e, SENTINEL).update(l, col as usize);
    assert forall|i: int| 0 <= i < b2.len() implies #[trigger] b2[i] < total && bi2[b2[i] as int]
        == i by {
        if i != row {
            assert(basic_inv[basic[i] as int] == i);
            assert(basic[i] != e) by {
                if basic[i] == e {
                    assert(basic_inv[e] == i);
                }
            }
        }
    }
    assert forall|i: int| 0 <= i < r2.len() implies #[trigger] r2[i] < total && ri2[r2[i] as int]
        == i by {
        if i != col {
            assert(rest_inv[rest[i] as int] == i);
            assert(rest[i] != l) by {
                if rest[i] == l {
                    assert(rest_inv[l] == i);
                }
            }
        }
    }
    assert forall|v: int| 0 <= v < total implies (#[trigger] bi2[v] == SENTINEL || bi2[v] < b2.len()
        && b2[bi2[v] as int] == v) by {
        if v != e && v != l {
            assert(bi2[v] == basic_inv[v]);
            if basic_inv[v] != SENTINEL {
                assert(basic[basic_inv[v] as int] == v);
                assert(basic_inv[v] != row);
            }
        }
    }
    assert forall|v: int| 0 <= v < total implies (#[trigger] ri2[v] == SENTINEL || ri2[v] < r2.len()
        && r2[ri2[v] as int] == v) by {
        if v != e && v != l {
            assert(ri2[v] == rest_inv[v]);
            if rest_inv[v] != SENTINEL {
                assert(rest[rest_inv[v] as int] == v);
                assert(rest_inv[v] != col);
            }
        }
    }
    assert forall|v: int| 0 <= v < total implies (#[trigger] bi2[v] == SENTINEL) != (ri2[v]
        == SENTINEL) by {
        assert((basic_inv[v] == SENTINEL) != (rest_inv[v] == SENTINEL));
    }
}

/// The values of the basic variables after the change.
pub open spec fn moved_bound<T: Scalar>(before: Solver<T>, info: PivotInfo<T>, r: int) -> T {
    if !before.col_coeffs.stores(r) {
        before.cur_bounds@[r]
    } else if info.elem matches Some(elem) && elem.row == r {
        info.entering_new_val
    } else {
        before.cur_bounds@[r].minus_spec(
            info.entering_diff.times_spec(before.col_coeffs.value(r)),
        )
    }
}

/// The coefficients of the elementary matrix for the change.
pub open spec fn eta_coeffs_of<T: Scalar>(
    col: SparseVec<T>,
    row: int,
    pivot: T,
    eta: SparseVec<T>,
) -> bool {
    &&& eta.indices@ == col.indices@
    &&& eta.values@.len() == col.values@.len()
    &&& forall|p: int|
        0 <= p < col.indices@.len() ==> #[trigger] eta.values@[p] == if col.indices@[p] == row {
            col.values@[p].minus_spec(T::one_spec()).over_spec(pivot)
        } else {
            col.values@[p].over_spec(pivot)
        }
}

/// The squared norms follow the change, with `y` from the coefficients of the elementary matrix.
pub open spec fn norms_follow<T: Scalar>(
    before: Solver<T>,
    after: Solver<T>,
    col: int,
    pivot: T,
    b: ScatteredVec<T>,
    y: ScatteredVec<T>,
) -> bool {
    let eta = after.eta_matrix_coeffs;
    &&& holds_entries(b, eta.indices@, eta.values@)
    &&& before.basis_solver.solved_transp(b, y)
    &&& row_sums(
        before.orig_constraints,
        y,
        before.non_basic_vars@,
        after.sq_norms_update_helper.values@,
    )
    &&& y.wf()
    &&& y.values@.len() == before.m()
    &&& exact::<T>() && before.basis_solver.represents(
        before.orig_constraints_csc,
        before.basic_vars@,
    ) && finite_items(y.values@) ==> solves_transp(
        before.orig_constraints_csc,
        before.basic_vars@,
        y.values@,
        Seq::new(before.m() as nat, |i: int| eta.value(i)),
    )
    &&& after.non_basic_col_sq_norms@.len() == before.non_basic_col_sq_norms@.len()
    &&& forall|c: int|
        0 <= c < before.non_basic_col_sq_norms@.len()
            ==> #[trigger] after.non_basic_col_sq_norms@[c] == shifted_norm(
            before.non_basic_col_sq_norms@,
            before.row_coeffs,
            after.sq_norms_update_helper.values@,
            square_sum(eta.values@, eta.values@.len()),
            col,
            pivot,
            c,
        )
}

/// What a change does to the vertex.
pub open spec fn vertex_moved<T: Scalar>(
    before: Solver<T>,
    after: Solver<T>,
    info: PivotInfo<T>,
) -> bool {
    let col = info.col as int;
    &&& after.same_program(before)
    &&& after.set_vars == before.set_vars
    &&& after.col_coeffs == before.col_coeffs
    &&& after.row_coeffs == before.row_coeffs
    &&& after.cur_obj_val == before.cur_obj_val.minus_spec(
        before.cur_obj@[col].times_spec(info.entering_diff),
    )
    &&& after.cur_bounds@.len() == before.cur_bounds@.len()
    &&& forall|r: int|
        0 <= r < before.cur_bounds@.len() ==> #[trigger] after.cur_bounds@[r] == moved_bound(
            before,
            info,
            r,
        )
    &&& match info.elem {
        None => {
            &&& after.non_basic_vals@ == before.non_basic_vals@.update(col, info.entering_new_val)
            &&& after.basic_vars == before.basic_vars
            &&& after.basic_vars_inv == before.basic_vars_inv
            &&& after.non_basic_vars == before.non_basic_vars
            &&& after.non_basic_vars_inv == before.non_basic_vars_inv
            &&& after.cur_obj == before.cur_obj
            &&& after.non_basic_col_sq_norms == before.non_basic_col_sq_norms
            &&& after.basis_solver == before.basis_solver
        },
        Some(elem) => {
            let row = elem.row as int;
            let entering = before.non_basic_vars@[col];
            let leaving = before.basic_vars@[row];
            let pivot_obj = before.cur_obj@[col].over_spec(elem.coeff);
            &&& after.non_basic_vals@ == before.non_basic_vals@.update(col, elem.leaving_new_val)
            &&& after.basic_vars@ == before.basic_vars@.update(row, entering)
            &&& after.non_basic_vars@ == before.non_basic_vars@.update(col, leaving)
            &&& after.cur_obj@.len() == before.cur_obj@.len()
            &&& forall|c: int|
                0 <= c < before.cur_obj@.len() ==> #[trigger] after.cur_obj@[c] == shifted_obj(
                    before.cur_obj@,
                    before.row_coeffs,
                    col,
                    pivot_obj,
                    c,
                )
            &&& eta_coeffs_of(before.col_coeffs, row, elem.coeff, after.eta_matrix_coeffs)
            &&& before.enable_steepest_edge ==> exists|b: ScatteredVec<T>, y: ScatteredVec<T>|
                #[trigger] norms_follow(before, after, col, elem.coeff, b, y)
            &&& !before.enable_steepest_edge ==> after.non_basic_col_sq_norms
                == before.non_basic_col_sq_norms
        },
    }
}

/// The basis is brought up to date with one more elementary matrix, or, where these have grown
/// too many, factored anew.
pub open spec fn basis_moved<T: Scalar>(
    before: Solver<T>,
    after: Solver<T>,
    row: usize,
    r: Result<(), Error>,
) -> bool {
    let old_basis = before.basis_solver;
    let new_basis = after.basis_solver;
    let etas = old_basis.eta_matrices;
    let lu = old_basis.lu_factors;
    if etas.coeff_cols.data@.len() < (lu.lower.indices@.len() + lu.upper.indices@.len()) / 2 {
        &&& r is Ok
        &&& new_basis.lu_factors == lu
        &&& new_basis.eta_matrices.leaving_rows@ == etas.leaving_rows@.push(row)
        &&& forall|i: int, k: int|
            0 <= k < etas.leaving_rows@.len()
                ==> #[trigger] new_basis.eta_matrices.coeff_cols.entry(i, k)
                == etas.coeff_cols.entry(i, k)
        &&& forall|i: int| #[trigger]
            new_basis.eta_matrices.coeff_cols.entry(i, etas.leaving_rows@.len() as int)
                == after.eta_matrix_coeffs.value(i)
    } else {
        &&& new_basis.eta_matrices.leaving_rows@.len() == 0
        &&& match r {
            Ok(_) => {
                &&& new_basis.lu_factors.multiplies_to(
                    after.orig_constraints_csc,
                    after.basic_vars@,
                )
                &&& new_basis.lu_factors.eliminated_from(
                    after.orig_constraints_csc,
                    after.basic_vars@,
                    T::stability_spec(),
                )
            },
            Err(e) => e == Error::SingularMatrix && stuck(
                after.orig_constraints_csc,
                after.basic_vars@,
                T::stability_spec(),
            ),
        }
    }
}

/// The program of a solver that is well-formed is so wherever it stands.
proof fn same_data<T: Scalar>(s: Solver<T>, t: Solver<T>)
    requires
        s.data_wf(),
        t.same_program(s),
    ensures
        t.data_wf(),
{
}

/// So are the lists of the variables.
proof fn same_lists<T: Scalar>(s: Solver<T>, t: Solver<T>)
    requires
        s.vars_wf(),
        t.same_program(s),
        t.basic_vars == s.basic_vars,
        t.basic_vars_inv == s.basic_vars_inv,
        t.non_basic_vars == s.non_basic_vars,
        t.non_basic_vars_inv == s.non_basic_vars_inv,
        t.cur_bounds == s.cur_bounds,
        t.non_basic_vals == s.non_basic_vals,
        t.cur_obj == s.cur_obj,
    ensures
        t.vars_wf(),
{
}

impl<T: Scalar> Solver<T> {
    /// Moves the values of the basic variables.
    fn move_bounds(&mut self, info: &PivotInfo<T>)
        requires
            old(self).wf(),
        ensures
            *final(self) == (Solver { cur_bounds: final(self).cur_bounds, ..*old(self) }),
            final(self).cur_bounds@.len() == old(self).cur_bounds@.len(),
            forall|r: int|
                0 <= r < old(self).cur_bounds@.len() ==> #[trigger] final(self).cur_bounds@[r]
                    == moved_bound(*old(self), *info, r),
    {
        subtract_coeffs(&mut self.cur_bounds, &self.col_coeffs, info.entering_diff);
        if let Some(elem) = &info.elem {
            let n: usize = self.col_coeffs.indices.len();
            let mut p: usize = 0;
            let ghost shifted = self.cur_bounds@;
            let ghost idx = self.col_coeffs.indices@;
            let row: usize = elem.row;
            while p < n
                invariant
                    idx == self.col_coeffs.indices@,
                    n == idx.len(),
                    p <= n,
                    *self == (Solver { cur_bounds: self.cur_bounds, ..*old(self) }),
                    crate::sparse::below(idx, shifted.len() as int),
                    self.cur_bounds@.len() == shifted.len(),
                    forall|r: int|
                        0 <= r < shifted.len() ==> #[trigger] self.cur_bounds@[r] == if r == row
                            && holds(idx, 0, p as int, r) {
                            info.entering_new_val
                        } else {
                            shifted[r]
                        },
                    crate::sparse::distinct(idx, 0, n as int),
                decreases n - p,
            {
                proof {
                    one_more(idx, 0, n as int, p as int);
                }
                if self.col_coeffs.indices[p] == row {
                    self.cur_bounds[row] = info.entering_new_val;
                }
                p += 1;
            }
        }
    }

    /// Brings the squared norms of the columns up to date.
    fn move_norms(&mut self, col: usize, pivot: T)
        requires
            old(self).wf(),
            old(self).enable_steepest_edge,
        ensures
            final(self).wf(),
            *final(self) == (Solver {
                basis_solver: final(self).basis_solver,
                sq_norms_update_helper: final(self).sq_norms_update_helper,
                non_basic_col_sq_norms: final(self).non_basic_col_sq_norms,
                ..*old(self)
            }),
            final(self).basis_solver.same_basis(old(self).basis_solver),
            exists|b: ScatteredVec<T>, y: ScatteredVec<T>| #[trigger]
                norms_follow(*old(self), *final(self), col as int, pivot, b, y),
    {
        self.basis_solver.solve_transp(
            &self.eta_matrix_coeffs.indices,
            &self.eta_matrix_coeffs.values,
        );
        self.sq_norms_update_helper.clear();
        add_rows(
            &self.orig_constraints,
            &self.basis_solver.rhs,
            &self.non_basic_vars_inv,
            &mut self.sq_norms_update_helper,
            Ghost(self.non_basic_vars@),
        );
        let eta_sq_norm = self.eta_matrix_coeffs.sq_norm();
        shift_norms(
            &mut self.non_basic_col_sq_norms,
            &self.row_coeffs,
            &self.sq_norms_update_helper,
            eta_sq_norm,
            col,
            pivot,
        );
        proof {
            let eta = self.eta_matrix_coeffs;
            let y = self.basis_solver.rhs;
            let b = choose|b: ScatteredVec<T>| #[trigger]
                holds_entries(b, eta.indices@, eta.values@) && old(
                    self).basis_solver.solved_transp(b, y);
            assert(dense_of(
                eta.indices@,
                eta.values@,
                Seq::new(self.m() as nat, |i: int| eta.value(i)),
                self.m(),
            ));
            assert(norms_follow(*old(self), *self, col as int, pivot, b, y));
            same_data(*old(self), *self);
            same_lists(*old(self), *self);
            assert(self.rest_wf());
        }
    }

    /// Lets the variables in a column and a row change places.
    fn exchange(&mut self, row: usize, col: usize)
        requires
            old(self).wf(),
            row < old(self).m(),
            col < old(self).non_basic_vars@.len(),
        ensures
            final(self).wf(),
            *final(self) == (Solver {
                basic_vars: final(self).basic_vars,
                basic_vars_inv: final(self).basic_vars_inv,
                non_basic_vars: final(self).non_basic_vars,
                non_basic_vars_inv: final(self).non_basic_vars_inv,
                ..*old(self)
            }),
            final(self).basic_vars@ == old(self).basic_vars@.update(
                row as int,
                old(self).non_basic_vars@[col as int],
            ),
            final(self).non_basic_vars@ == old(self).non_basic_vars@.update(
                col as int,
                old(self).basic_vars@[row as int],
            ),
    {
        let entering_var: usize = self.non_basic_vars[col];
        let leaving_var: usize = self.basic_vars[row];
        proof {
            exchanged(
                self.basic_vars@,
                self.basic_vars_inv@,
                self.non_basic_vars@,
                self.non_basic_vars_inv@,
                self.total(),
                row as int,
                col as int,
            );
        }
        self.basic_vars[row] = entering_var;
        self.basic_vars_inv[entering_var] = row;
        self.basic_vars_inv[leaving_var] = SENTINEL;
        self.non_basic_vars[col] = leaving_var;
        self.non_basic_vars_inv[entering_var] = SENTINEL;
        self.non_basic_vars_inv[leaving_var] = col;
        proof {
            let (e, l) = (entering_var as int, leaving_var as int);
            let s = old(self);
            assert(self.basic_vars@ =~= s.basic_vars@.update(row as int, entering_var));
            assert(self.basic_vars_inv@ =~= s.basic_vars_inv@.update(e, row).update(l, SENTINEL));
            assert(self.non_basic_vars@ =~= s.non_basic_vars@.update(col as int, leaving_var));
            assert(self.non_basic_vars_inv@ =~= s.non_basic_vars_inv@.update(e, SENTINEL).update(
                l,
                col,
            ));
            assert(self.vars_wf());
            assert(self.data_wf());
            assert(self.rest_wf());
        }
    }

    /// Brings the factors of the basis up to date.
    fn refresh_basis(&mut self, row: usize) -> (r: Result<(), Error>)
        requires
            old(self).wf(),
            row < old(self).m(),
        ensures
            final(self).wf(),
            *final(self) == (Solver { basis_solver: final(self).basis_solver, ..*old(self) }),
            basis_moved(*old(self), *final(self), row, r),
    {
        let eta_matrices_nnz: usize = self.basis_solver.eta_matrices.coeff_cols.nnz();
        if eta_matrices_nnz < self.basis_solver.lu_factors.half_nnz() {
            self.basis_solver.push_eta_matrix(row, &self.eta_matrix_coeffs);
            assert(self.data_wf() && self.vars_wf() && self.rest_wf());
            Ok(())
        } else {
            proof {
                assert forall|i: int| 0 <= i < self.basic_vars@.len() implies
                    #[trigger] self.basic_vars@[i] < self.orig_constraints_csc.ncols by {}
            }
            let r = self.basis_solver.reset(&self.orig_constraints_csc, &self.basic_vars);
            assert(self.data_wf() && self.vars_wf() && self.rest_wf());
            r
        }
    }

    /// Changes the vertex as chosen. An error means that the new basis cannot be factored.
    pub fn pivot(&mut self, pivot_info: &PivotInfo<T>) -> (r: Result<(), Error>)
        requires
            old(self).wf(),
            pivot_info.col < old(self).non_basic_vars@.len(),
            pivot_info.elem matches Some(elem) ==> elem.row < old(self).m(),
        ensures
            final(self).wf(),
            vertex_moved(*old(self), *final(self), *pivot_info),
            match pivot_info.elem {
                Some(elem) => basis_moved(*old(self), *final(self), elem.row, r),
                None => r is Ok,
            },
    {
        let col: usize = pivot_info.col;
        self.cur_obj_val =
        self.cur_obj_val.minus(self.cur_obj[col].times(pivot_info.entering_diff));
        self.move_bounds(pivot_info);
        match &pivot_info.elem {
            None => {
                self.non_basic_vals[col] = pivot_info.entering_new_val;
                assert(self.data_wf() && self.vars_wf() && self.rest_wf());
                Ok(())
            },
            Some(elem) => {
                self.non_basic_vals[col] = elem.leaving_new_val;
                let pivot_obj = self.cur_obj[col].over(elem.coeff);
                shift_obj(&mut self.cur_obj, &self.row_coeffs, col, pivot_obj);
                self.calc_eta_matrix_coeffs(elem.row, elem.coeff);
                let ghost shifted = *self;
                if self.enable_steepest_edge {
                    self.move_norms(col, elem.coeff);
                }
                let ghost normed = *self;
                self.exchange(elem.row, col);
                let r = self.refresh_basis(elem.row);
                proof {
                    if old(self).enable_steepest_edge {
                        let (b, y) = choose|b: ScatteredVec<T>, y: ScatteredVec<T>| #[trigger]
                            norms_follow(shifted, normed, col as int, elem.coeff, b, y);
                        assert(norms_follow(*old(self), *self, col as int, elem.coeff, b, y));
                    }
                }
                r
            },
        }
    }
}

} // verus!
