//! The state of the simplex method.
use crate::basis::{dense_of, holds_entries, listed_too, BasisSolver};
use crate::elim::one_more;
use crate::scalar::{exact, is_zero, Scalar};
use crate::scattered::{solid, ScatteredVec};
use crate::solve::{finite_items, solves, solves_transp};
use crate::sparse::{at_place, below, distinct, holds, place, CsMat, SparseVec, Storage};
use crate::sums::{
    sum, sum_but_one, sum_same, sum_single, sum_swap, sum_times, sum_zero, times_zero,
};
use std::collections::HashMap;
use vstd::prelude::*;

verus! {

/// Stands for "not there" in a list of places.
pub const SENTINEL: usize = usize::MAX;

/// How the two sides of a constraint relate.
#[derive(Clone, Copy, Debug, PartialEq, Eq, Structural)]
pub enum RelOp {
    Eq,
    Le,
    Ge,
}

/// The variable that enters the basis, or goes to its other limit.
#[derive(Clone, Debug)]
pub struct PivotInfo<T> {
    pub col: usize,
    pub entering_new_val: T,
    pub entering_diff: T,
    pub elem: Option<PivotElem<T>>,
}

/// The variable that leaves the basis.
#[derive(Clone, Debug)]
pub struct PivotElem<T> {
    pub row: usize,
    pub coeff: T,
    pub leaving_new_val: T,
}

/// A linear program with a current basis. The variables are those of the user, then slack
/// variables, then artificial ones.
#[derive(Clone, Debug)]
pub struct Solver<T> {
    pub num_vars: usize,
    pub num_slack_vars: usize,
    pub num_artificial_vars: usize,
    /// with negated coefficients
    pub orig_obj: Vec<T>,
    pub orig_var_mins: Vec<T>,
    pub orig_var_maxs: Vec<T>,
    pub orig_constraints: CsMat<T>,
    pub orig_constraints_csc: CsMat<T>,
    pub orig_bounds: Vec<T>,
    pub set_vars: HashMap<usize, T>,
    pub enable_steepest_edge: bool,
    pub basis_solver: BasisSolver<T>,
    pub col_coeffs: SparseVec<T>,
    pub eta_matrix_coeffs: SparseVec<T>,
    pub sq_norms_update_helper: ScatteredVec<T>,
    pub row_coeffs: ScatteredVec<T>,
    /// for each constraint the corresponding basic variable
    pub basic_vars: Vec<usize>,
    /// for each variable its place among the basic ones
    pub basic_vars_inv: Vec<usize>,
    pub cur_bounds: Vec<T>,
    /// the remaining variables
    pub non_basic_vars: Vec<usize>,
    /// for each variable its place among the non-basic ones
    pub non_basic_vars_inv: Vec<usize>,
    pub cur_obj: Vec<T>,
    pub non_basic_vals: Vec<T>,
    pub non_basic_col_sq_norms: Vec<T>,
    pub cur_obj_val: T,
}

/// `inv` tells for every variable below `total` its place in `list`, or `SENTINEL`.
pub open spec fn located(list: Seq<usize>, inv: Seq<usize>, total: int) -> bool {
    &&& inv.len() == total
    &&& list.len() < SENTINEL
    &&& forall|i: int|
        0 <= i < list.len() ==> #[trigger] list[i] < total && inv[list[i] as int] == i
    &&& forall|v: int|
        0 <= v < total ==> (#[trigger] inv[v] == SENTINEL || inv[v] < list.len()
            && list[inv[v] as int] == v)
}

/// Every variable is in one of the two lists.
pub open spec fn partitioned(
    basic: Seq<usize>,
    basic_inv: Seq<usize>,
    rest: Seq<usize>,
    rest_inv: Seq<usize>,
    total: int,
) -> bool {
    &&& located(basic, basic_inv, total)
    &&& located(rest, rest_inv, total)
    &&& basic.len() + rest.len() == total
    &&& forall|v: int|
        0 <= v < total ==> (#[trigger] basic_inv[v] == SENTINEL) != (rest_inv[v] == SENTINEL)
}

/// The same matrix by rows and by columns.
pub open spec fn same_matrix<T: Scalar>(rows: CsMat<T>, cols: CsMat<T>) -> bool {
    &&& rows.wf()
    &&& rows.storage == Storage::Csr
    &&& cols.wf()
    &&& cols.storage == Storage::Csc
    &&& rows.nrows == cols.nrows
    &&& rows.ncols == cols.ncols
    &&& forall|r: int, v: int|
        0 <= r < rows.nrows && 0 <= v < rows.ncols ==> #[trigger] cols.line(v, r) == rows.line(
            r,
            v,
        )
    &&& forall|r: int, v: int|
        0 <= r < rows.nrows && 0 <= v < rows.ncols ==> #[trigger] cols.line_has(v, r)
            == rows.line_has(r, v)
}

/// The terms of row `i` of the product of the chosen columns and the coefficients.
pub open spec fn coeff_row_terms<T: Scalar>(
    mat: CsMat<T>,
    basic: Seq<usize>,
    coeffs: SparseVec<T>,
    i: int,
) -> spec_fn(int) -> real {
    |c: int| mat.line(basic[c] as int, i).val() * coeffs.value(c).val()
}

/// The coefficients express the column `col` by the chosen columns.
pub open spec fn expresses<T: Scalar>(
    mat: CsMat<T>,
    basic: Seq<usize>,
    coeffs: SparseVec<T>,
    col: int,
) -> bool {
    forall|i: int|
        0 <= i < mat.nrows ==> sum(coeff_row_terms(mat, basic, coeffs, i), basic.len()) == (
        #[trigger] mat.line(col, i)).val()
}

/// What the first `k` listed rows add up to in column `v`, each times its value.
pub open spec fn row_sum<T: Scalar>(
    rows: CsMat<T>,
    y: Seq<T>,
    list: Seq<usize>,
    v: int,
    start: T,
    k: int,
) -> T
    decreases k,
{
    if k <= 0 {
        start
    } else {
        let rest = row_sum(rows, y, list, v, start, k - 1);
        let r = list[k - 1] as int;
        if rows.line_has(r, v) {
            rest.plus_spec(rows.line(r, v).times_spec(y[r]))
        } else {
            rest
        }
    }
}

/// `x` is the sum of the listed rows in column `v`, each times its value.
pub open spec fn is_row_sum<T: Scalar>(
    rows: CsMat<T>,
    y: ScatteredVec<T>,
    v: int,
    x: T,
) -> bool {
    x == row_sum(
        rows,
        y.values@,
        y.nonzero@,
        v,
        T::zero_spec(),
        y.nonzero@.len() as int,
    )
}

/// `x` holds for every non-basic variable the sum of the listed rows, each times its value.
pub open spec fn row_sums<T: Scalar>(
    rows: CsMat<T>,
    y: ScatteredVec<T>,
    rest: Seq<usize>,
    x: Seq<T>,
) -> bool {
    &&& x.len() == rest.len()
    &&& forall|c: int|
        0 <= c < rest.len() ==> is_row_sum(rows, y, rest[c] as int, #[trigger] x[c])
}

/// The variables that are set are not basic.
pub open spec fn sets_non_basic<T: Scalar>(s: Solver<T>) -> bool {
    forall|v: usize| #[trigger]
        s.set_vars@.contains_key(v) ==> v < s.total() && s.non_basic_vars_inv@[v as int] != SENTINEL
}

/// The variables that are set and not basic have the values that they were set to.
pub open spec fn sets_held<T: Scalar>(s: Solver<T>) -> bool {
    forall|v: usize| #[trigger]
        s.set_vars@.contains_key(v) && s.non_basic_vars_inv@[v as int] != SENTINEL
            ==> s.non_basic_vals@[s.non_basic_vars_inv@[v as int] as int] == s.set_vars@[v]
}

impl<T: Scalar> Solver<T> {
    /// The number of variables.
    pub open spec fn total(self) -> int {
        self.num_vars + self.num_slack_vars + self.num_artificial_vars
    }

    /// The number of constraints.
    pub open spec fn m(self) -> int {
        self.orig_constraints.nrows as int
    }

    /// The matrices and the limits fit the number of variables.
    pub open spec fn data_wf(self) -> bool {
        &&& same_matrix(self.orig_constraints, self.orig_constraints_csc)
        &&& self.orig_constraints.ncols == self.total()
        &&& self.total() < SENTINEL
        &&& self.m() < SENTINEL
        &&& self.orig_constraints.indices@.len() <= usize::MAX / 2
        &&& self.orig_obj@.len() == self.total()
        &&& self.orig_var_mins@.len() >= self.total()
        &&& self.orig_var_maxs@.len() == self.orig_var_mins@.len()
        &&& self.orig_bounds@.len() == self.m()
        &&& forall|v: int|
            self.num_vars <= v < self.orig_var_mins@.len() ==> #[trigger] self.orig_var_mins@[v]
                == T::zero_spec() && self.orig_var_maxs@[v] == T::infinity_spec()
    }

    /// Every variable is basic or not, with one basic variable for every constraint.
    pub open spec fn vars_wf(self) -> bool {
        &&& partitioned(
            self.basic_vars@,
            self.basic_vars_inv@,
            self.non_basic_vars@,
            self.non_basic_vars_inv@,
            self.total(),
        )
        &&& self.basic_vars@.len() == self.m()
        &&& self.cur_bounds@.len() == self.m()
        &&& self.non_basic_vals@.len() == self.non_basic_vars@.len()
    }

    /// The vectors over the non-basic variables have their length.
    pub open spec fn rest_wf(self) -> bool {
        let n = self.non_basic_vars@.len() as int;
        &&& self.cur_obj@.len() == n
        &&& self.non_basic_col_sq_norms@.len() == if self.enable_steepest_edge {
            n
        } else {
            0
        }
        &&& self.row_coeffs.wf()
        &&& self.row_coeffs.values@.len() == n
        &&& self.sq_norms_update_helper.wf()
        &&& self.sq_norms_update_helper.values@.len() == n
    }

    pub open spec fn wf(self) -> bool {
        &&& self.data_wf()
        &&& self.vars_wf()
        &&& self.rest_wf()
        &&& self.basis_solver.wf(self.m())
        &&& self.col_coeffs.wf(self.m())
        &&& self.eta_matrix_coeffs.wf(self.m())
    }

    /// The value of a variable.
    pub open spec fn value_of(self, v: int) -> T {
        if self.basic_vars_inv@[v] == SENTINEL {
            self.non_basic_vals@[self.non_basic_vars_inv@[v] as int]
        } else {
            self.cur_bounds@[self.basic_vars_inv@[v] as int]
        }
    }

    /// What the program is; the basis does not change it.
    pub open spec fn same_program(self, other: Solver<T>) -> bool {
        &&& self.num_vars == other.num_vars
        &&& self.num_slack_vars == other.num_slack_vars
        &&& self.num_artificial_vars == other.num_artificial_vars
        &&& self.orig_obj == other.orig_obj
        &&& self.orig_var_mins == other.orig_var_mins
        &&& self.orig_var_maxs == other.orig_var_maxs
        &&& self.orig_constraints == other.orig_constraints
        &&& self.orig_constraints_csc == other.orig_constraints_csc
        &&& self.orig_bounds == other.orig_bounds
        &&& self.enable_steepest_edge == other.enable_steepest_edge
    }

    /// What the current vertex is.
    pub open spec fn same_vertex(self, other: Solver<T>) -> bool {
        &&& self.set_vars == other.set_vars
        &&& self.basic_vars == other.basic_vars
        &&& self.basic_vars_inv == other.basic_vars_inv
        &&& self.cur_bounds == other.cur_bounds
        &&& self.non_basic_vars == other.non_basic_vars
        &&& self.non_basic_vars_inv == other.non_basic_vars_inv
        &&& self.cur_obj == other.cur_obj
        &&& self.non_basic_vals == other.non_basic_vals
        &&& self.non_basic_col_sq_norms == other.non_basic_col_sq_norms
        &&& self.cur_obj_val == other.cur_obj_val
    }

    pub fn get_value(&self, var: usize) -> (r: &T)
        requires
            self.vars_wf(),
            var < self.total(),
        ensures
            *r == self.value_of(var as int),
    {
        let basic_idx: usize = self.basic_vars_inv[var];
        if basic_idx == SENTINEL {
            let nb_idx: usize = self.non_basic_vars_inv[var];
            &self.non_basic_vals[nb_idx]
        } else {
            &self.cur_bounds[basic_idx]
        }
    }

    pub fn num_constraints(&self) -> (r: usize)
        ensures
            r == self.m(),
    {
        self.orig_constraints.rows()
    }

    pub fn num_total_vars(&self) -> (r: usize)
        requires
            self.total() <= usize::MAX,
        ensures
            r == self.total(),
    {
        self.num_vars + self.num_slack_vars + self.num_artificial_vars
    }

    pub fn nnz(&self) -> (r: usize)
        requires
            self.basis_solver.lu_factors.lower.indices@.len()
                + self.basis_solver.lu_factors.upper.indices@.len() <= usize::MAX,
        ensures
            r == self.basis_solver.lu_factors.lower.indices@.len()
                + self.basis_solver.lu_factors.upper.indices@.len(),
    {
        self.basis_solver.lu_factors.nnz()
    }

    /// Calculates the coefficients that express the column of a non-basic variable by the basis.
    /// With exact arithmetic they do, wherever they are finite.
    pub fn calc_col_coeffs(&mut self, c_var: usize)
        requires
            old(self).wf(),
            c_var < old(self).non_basic_vars@.len(),
        ensures
            final(self).wf(),
            final(self).same_program(*old(self)),
            final(self).same_vertex(*old(self)),
            final(self).eta_matrix_coeffs == old(self).eta_matrix_coeffs,
            final(self).sq_norms_update_helper == old(self).sq_norms_update_helper,
            final(self).row_coeffs == old(self).row_coeffs,
            final(self).basis_solver.same_basis(old(self).basis_solver),
            col_coeffs_of(*old(self), *final(self), old(self).non_basic_vars@[c_var as int] as int),
    {
        let var: usize = self.non_basic_vars[c_var];
        let orig_col = self.orig_constraints_csc.outer_vec(var);
        let ghost mat = self.orig_constraints_csc;
        let ghost basic = self.basic_vars@;
        self.basis_solver.solve(&orig_col.indices, &orig_col.data);
        self.basis_solver.rhs.to_sparse_vec(&mut self.col_coeffs);
        proof {
            let b = choose|b: ScatteredVec<T>| #[trigger]
                holds_entries(b, orig_col.indices@, orig_col.data@) && old(
                    self).basis_solver.solved(b, self.basis_solver.rhs);
            assert(holds_entries(
                b,
                mat.indices@.subrange(mat.lo(var as int), mat.hi(var as int)),
                mat.data@.subrange(mat.lo(var as int), mat.hi(var as int)),
            ));
            if exact::<T>() && old(self).basis_solver.represents(mat, basic) && finite_items(
                self.col_coeffs.values@,
            ) {
                self.col_expresses(var as int);
            }
        }
    }

    proof fn col_expresses(self, var: int)
        requires
            exact::<T>(),
            self.data_wf(),
            self.basic_vars@.len() == self.m(),
            0 <= var < self.total(),
            self.basis_solver.rhs.wf(),
            self.basis_solver.rhs.values@.len() == self.m(),
            self.col_coeffs.wf(self.m()),
            finite_items(self.col_coeffs.values@),
            forall|i: int| #[trigger]
                self.col_coeffs.stores(i) == (self.basis_solver.rhs.marked(i)
                    && !self.basis_solver.rhs.values@[i].same_spec(T::zero_spec())),
            forall|i: int|
                self.col_coeffs.stores(i) ==> #[trigger] self.col_coeffs.value(i)
                    == self.basis_solver.rhs.values@[i],
            forall|b: Seq<T>|
                finite_items(self.basis_solver.rhs.values@) && #[trigger] dense_of(
                    self.orig_constraints_csc.indices@.subrange(
                        self.orig_constraints_csc.lo(var),
                        self.orig_constraints_csc.hi(var),
                    ),
                    self.orig_constraints_csc.data@.subrange(
                        self.orig_constraints_csc.lo(var),
                        self.orig_constraints_csc.hi(var),
                    ),
                    b,
                    self.m(),
                ) ==> solves(
                    self.orig_constraints_csc,
                    self.basic_vars@,
                    self.basis_solver.rhs.values@,
                    b,
                ),
        ensures
            expresses(self.orig_constraints_csc, self.basic_vars@, self.col_coeffs, var),
    {
        let mat = self.orig_constraints_csc;
        let x = self.basis_solver.rhs;
        let m = self.m();
        mat.line_wf(var);
        let (lo, hi) = (mat.lo(var), mat.hi(var));
        let b = Seq::new(m as nat, |i: int| mat.line(var, i));
        let idx = mat.indices@.subrange(lo, hi);
        let data = mat.data@.subrange(lo, hi);
        assert forall|i: int| 0 <= i < m implies (#[trigger] b[i]).val() == crate::sparse::at(
            idx,
            data,
            0,
            idx.len() as int,
            i,
        ).val() by {
            crate::sparse::at_same(mat.indices@, mat.data@, lo, hi, idx, data, 0, hi - lo, i);
        }
        assert(dense_of(idx, data, b, m));
        assert forall|i: int| 0 <= i < m implies (#[trigger] x.values@[i]).finite()
            && x.values@[i].val() == self.col_coeffs.value(i).val() by {
            assert(x.is_nonzero@[i] <==> x.marked(i));
            assert(self.col_coeffs.stores(i) == (x.marked(i) && !x.values@[i].same_spec(
                T::zero_spec(),
            )));
            if self.col_coeffs.stores(i) {
                let idx = self.col_coeffs.indices@;
                let p = place(idx, 0, idx.len() as int, i);
                assert(self.col_coeffs.values@[p].finite());
                assert(self.col_coeffs.value(i) == x.values@[i]);
            } else {
                assert(is_zero(x.values@[i]) || x.values@[i].same_spec(T::zero_spec()));
            }
        }
        assert(solves(mat, self.basic_vars@, x.values@, b));
        assert forall|i: int| 0 <= i < mat.nrows implies sum(
            coeff_row_terms(mat, self.basic_vars@, self.col_coeffs, i),
            self.basic_vars@.len(),
        ) == (#[trigger] mat.line(var, i)).val() by {
            let f = coeff_row_terms(mat, self.basic_vars@, self.col_coeffs, i);
            let g = crate::solve::row_terms(mat, self.basic_vars@, x.values@, i);
            assert forall|c: int| 0 <= c < m implies #[trigger] f(c) == g(c) by {
                assert(x.values@[c].val() == self.col_coeffs.value(c).val());
            }
            sum_same(f, g, m as nat);
            assert(b[i].val() == mat.line(var, i).val());
        }
    }

    /// Calculates the row of a constraint in terms of the basis, for the non-basic variables.
    /// With exact arithmetic it is that of the inverse of the basis times the constraints,
    /// wherever it is finite.
    pub fn calc_row_coeffs(&mut self, r_constr: usize)
        requires
            old(self).data_wf(),
            old(self).vars_wf(),
            old(self).basis_solver.wf(old(self).m()),
            old(self).row_coeffs.wf(),
            r_constr < old(self).m(),
        ensures
            final(self).same_program(*old(self)),
            final(self).same_vertex(*old(self)),
            final(self).col_coeffs == old(self).col_coeffs,
            final(self).eta_matrix_coeffs == old(self).eta_matrix_coeffs,
            final(self).sq_norms_update_helper == old(self).sq_norms_update_helper,
            final(self).basis_solver.wf(old(self).m()),
            final(self).basis_solver.same_basis(old(self).basis_solver),
            final(self).row_coeffs.wf(),
            final(self).row_coeffs.values@.len() == old(self).non_basic_vars@.len(),
            row_coeffs_of(*old(self), *final(self), r_constr),
    {
        let ghost mat = self.orig_constraints_csc;
        let ghost basic = self.basic_vars@;
        let ghost rest = self.non_basic_vars@;
        let ghost m = self.m();
        let mut indices: Vec<usize> = Vec::new();
        let mut data: Vec<T> = Vec::new();
        indices.push(r_constr);
        data.push(T::one());
        self.basis_solver.solve_transp(&indices, &data);
        self.row_coeffs.clear_and_resize(self.non_basic_vars.len());
        add_rows(
            &self.orig_constraints,
            &self.basis_solver.rhs,
            &self.non_basic_vars_inv,
            &mut self.row_coeffs,
            Ghost(self.non_basic_vars@),
        );
        proof {
            let y = self.basis_solver.rhs;
            let b = choose|b: ScatteredVec<T>| #[trigger]
                holds_entries(b, indices@, data@) && old(self).basis_solver.solved_transp(b, y);
            assert(indices@ =~= seq![r_constr]);
            assert(data@ =~= seq![T::one_spec()]);
            assert(holds_entries(b, seq![r_constr], seq![T::one_spec()]));
            if exact::<T>() && old(self).basis_solver.represents(mat, basic) && finite_items(
                y.values@,
            ) && finite_items(self.row_coeffs.values@) {
                let unit = unit_vec::<T>(r_constr as int, m);
                assert forall|i: int| 0 <= i < m implies (#[trigger] unit[i]).val()
                    == crate::sparse::at(indices@, data@, 0, 1, i).val() by {
                    at_place(indices@, data@, 0, 1, 0);
                    if holds(indices@, 0, 1, i) {
                        let p = place(indices@, 0, 1, i);
                        assert(indices@[p] == i);
                    }
                }
                assert(dense_of(indices@, data@, unit, m));
                assert forall|c: int| 0 <= c < rest.len() implies (
                #[trigger] self.row_coeffs.values@[c]).val() == sum(
                    crate::solve::col_terms(mat, rest[c] as int, y.values@),
                    m as nat,
                ) by {
                    row_sum_value(
                        self.orig_constraints,
                        mat,
                        y,
                        rest[c] as int,
                        self.row_coeffs.values@[c],
                    );
                }
            }
        }
    }

    /// The coefficients of the elementary matrix for a change of the basis.
    pub fn calc_eta_matrix_coeffs(&mut self, r_leaving: usize, pivot_coeff: T)
        requires
            old(self).wf(),
        ensures
            final(self).wf(),
            final(self).same_program(*old(self)),
            final(self).same_vertex(*old(self)),
            final(self).basis_solver == old(self).basis_solver,
            final(self).col_coeffs == old(self).col_coeffs,
            final(self).sq_norms_update_helper == old(self).sq_norms_update_helper,
            final(self).row_coeffs == old(self).row_coeffs,
            final(self).eta_matrix_coeffs.indices@ == old(self).col_coeffs.indices@,
            forall|p: int|
                0 <= p < old(self).col_coeffs.indices@.len() ==> #[trigger] final(
                    self).eta_matrix_coeffs.values@[p] == if old(self).col_coeffs.indices@[p]
                    == r_leaving {
                    old(self).col_coeffs.values@[p].minus_spec(T::one_spec()).over_spec(pivot_coeff)
                } else {
                    old(self).col_coeffs.values@[p].over_spec(pivot_coeff)
                },
    {
        self.eta_matrix_coeffs.clear();
        let n: usize = self.col_coeffs.indices.len();
        let ghost col = self.col_coeffs;
        let mut p: usize = 0;
        while p < n
            invariant
                n == col.indices@.len(),
                col.indices@.len() == col.values@.len(),
                p <= n,
                self.col_coeffs == col,
                self.same_program(*old(self)),
                self.same_vertex(*old(self)),
                self.basis_solver == old(self).basis_solver,
                self.sq_norms_update_helper == old(self).sq_norms_update_helper,
                self.row_coeffs == old(self).row_coeffs,
                self.eta_matrix_coeffs.indices@ == col.indices@.subrange(0, p as int),
                self.eta_matrix_coeffs.values@.len() == p,
                forall|q: int|
                    0 <= q < p ==> #[trigger] self.eta_matrix_coeffs.values@[q]
                        == if col.indices@[q] == r_leaving {
                        col.values@[q].minus_spec(T::one_spec()).over_spec(pivot_coeff)
                    } else {
                        col.values@[q].over_spec(pivot_coeff)
                    },
            decreases n - p,
        {
            let r: usize = self.col_coeffs.indices[p];
            let coeff = self.col_coeffs.values[p];
            let val = if r == r_leaving {
                coeff.minus(T::one()).over(pivot_coeff)
            } else {
                coeff.over(pivot_coeff)
            };
            self.eta_matrix_coeffs.push(r, val);
            proof {
                assert(col.indices@.subrange(0, p + 1) =~= col.indices@.subrange(0, p as int).push(
                    r,
                ));
            }
            p += 1;
        }
        proof {
            assert(col.indices@.subrange(0, n as int) =~= col.indices@);
        }
    }
}

/// The list with the columns of the non-basic variables at the positions `lo..p` of `idx` as well.
pub open spec fn columns_met(
    list: Seq<usize>,
    idx: Seq<usize>,
    inv: Seq<usize>,
    lo: int,
    p: int,
) -> Seq<usize>
    decreases p - lo,
{
    if p <= lo {
        list
    } else {
        let c = inv[idx[p - 1] as int];
        let rest = columns_met(list, idx, inv, lo, p - 1);
        if c == SENTINEL {
            rest
        } else {
            listed_too(rest, c)
        }
    }
}

/// The columns in which the first `k` listed rows have entries, in the order in which they come up.
pub open spec fn columns_listed<T: Scalar>(
    rows: CsMat<T>,
    list: Seq<usize>,
    inv: Seq<usize>,
    k: int,
) -> Seq<usize>
    decreases k,
{
    if k <= 0 {
        Seq::empty()
    } else {
        let r = list[k - 1] as int;
        columns_met(
            columns_listed(rows, list, inv, k - 1),
            rows.indices@,
            inv,
            rows.lo(r),
            rows.hi(r),
        )
    }
}

/// Adds row `r`, times `coeff`, to the places of the listed variables.
fn add_row<T: Scalar>(
    rows: &CsMat<T>,
    r: usize,
    coeff: T,
    inv: &Vec<usize>,
    out: &mut ScatteredVec<T>,
    Ghost(rest): Ghost<Seq<usize>>,
)
    requires
        rows.wf(),
        rows.storage == Storage::Csr,
        r < rows.nrows,
        located(rest, inv@, rows.ncols as int),
        old(out).wf(),
        old(out).values@.len() == rest.len(),
    ensures
        final(out).wf(),
        final(out).values@.len() == rest.len(),
        forall|c: int|
            0 <= c < rest.len() ==> #[trigger] final(out).values@[c] == if rows.line_has(
                r as int,
                rest[c] as int,
            ) {
                old(out).values@[c].plus_spec(
                    rows.line(r as int, rest[c] as int).times_spec(coeff),
                )
            } else {
                old(out).values@[c]
            },
        forall|c: int|
            0 <= c < rest.len() ==> #[trigger] final(out).is_nonzero@[c] == (old(
                out).is_nonzero@[c] || rows.line_has(r as int, rest[c] as int)),
        final(out).nonzero@ == columns_met(
            old(out).nonzero@,
            rows.indices@,
            inv@,
            rows.lo(r as int),
            rows.hi(r as int),
        ),
{
    proof {
        rows.line_wf(r as int);
    }
    let ghost before = *out;
    let lo: usize = rows.indptr[r];
    let hi: usize = rows.indptr[r + 1];
    let mut p: usize = lo;
    while p < hi
        invariant
            rows.wf(),
            rows.storage == Storage::Csr,
            lo == rows.lo(r as int),
            hi == rows.hi(r as int),
            lo <= p <= hi <= rows.indices@.len(),
            distinct(rows.indices@, lo as int, hi as int),
            located(rest, inv@, rows.ncols as int),
            out.wf(),
            out.values@.len() == rest.len(),
            before.values@.len() == rest.len(),
            before.wf(),
            forall|c: int|
                0 <= c < rest.len() ==> #[trigger] out.values@[c] == if holds(
                    rows.indices@,
                    lo as int,
                    p as int,
                    rest[c] as int,
                ) {
                    before.values@[c].plus_spec(
                        rows.line(r as int, rest[c] as int).times_spec(coeff),
                    )
                } else {
                    before.values@[c]
                },
            forall|c: int|
                0 <= c < rest.len() ==> #[trigger] out.is_nonzero@[c] == (before.is_nonzero@[c]
                    || holds(rows.indices@, lo as int, p as int, rest[c] as int)),
            out.nonzero@ == columns_met(
                before.nonzero@,
                rows.indices@,
                inv@,
                lo as int,
                p as int,
            ),
        decreases hi - p,
    {
        let v: usize = rows.indices[p];
        let val = rows.data[p];
        let ghost was = *out;
        proof {
            at_place(rows.indices@, rows.data@, lo as int, hi as int, p as int);
            one_more(rows.indices@, lo as int, hi as int, p as int);
        }
        let idx: usize = inv[v];
        if idx != SENTINEL {
            let x = out.get(idx).plus(val.times(coeff));
            assert(out.is_nonzero@[idx as int] <==> out.marked(idx as int));
            *out.get_mut(idx) = x;
        }
        proof {
            assert forall|c: int| 0 <= c < rest.len() implies (rest[c] == v) == (#[trigger] place_of(
                c,
            ) == idx) by {
                assert(inv@[rest[c] as int] == c);
            }
            assert forall|c: int| 0 <= c < rest.len() implies #[trigger] out.values@[c] == if holds(
                rows.indices@,
                lo as int,
                p + 1,
                rest[c] as int,
            ) {
                before.values@[c].plus_spec(rows.line(r as int, rest[c] as int).times_spec(coeff))
            } else {
                before.values@[c]
            } by {
                assert((rest[c] == v) == (place_of(c) == idx));
            }
            assert forall|c: int| 0 <= c < rest.len() implies #[trigger] out.is_nonzero@[c] == (
            before.is_nonzero@[c] || holds(
                rows.indices@,
                lo as int,
                p + 1,
                rest[c] as int,
            )) by {
                assert((rest[c] == v) == (place_of(c) == idx));
                assert(was.is_nonzero@[c] == (before.is_nonzero@[c] || holds(
                    rows.indices@,
                    lo as int,
                    p as int,
                    rest[c] as int,
                )));
            }
        }
        p += 1;
    }
}

pub open spec fn place_of(c: int) -> int {
    c
}

/// Whether one of the first `k` listed rows has an entry in column `v`.
pub open spec fn touched<T: Scalar>(rows: CsMat<T>, list: Seq<usize>, v: int, k: int) -> bool {
    exists|q: int| 0 <= q < k && rows.line_has(#[trigger] list[q] as int, v)
}

/// Adds up the listed rows, each times its value, for the non-basic variables.
pub fn add_rows<T: Scalar>(
    rows: &CsMat<T>,
    y: &ScatteredVec<T>,
    inv: &Vec<usize>,
    out: &mut ScatteredVec<T>,
    Ghost(rest): Ghost<Seq<usize>>,
)
    requires
        rows.wf(),
        rows.storage == Storage::Csr,
        y.wf(),
        y.values@.len() == rows.nrows,
        located(rest, inv@, rows.ncols as int),
        old(out).wf(),
        old(out).values@.len() == rest.len(),
        old(out).nonzero@.len() == 0,
    ensures
        final(out).wf(),
        row_sums(*rows, *y, rest, final(out).values@),
        forall|c: int|
            0 <= c < rest.len() ==> #[trigger] final(out).is_nonzero@[c] == touched(
                *rows,
                y.nonzero@,
                rest[c] as int,
                y.nonzero@.len() as int,
            ),
        final(out).nonzero@ == columns_listed(
            *rows,
            y.nonzero@,
            inv@,
            y.nonzero@.len() as int,
        ),
{
    let ghost start = out.values@;
    let ghost list = y.nonzero@;
    let n: usize = y.nonzero.len();
    proof {
        assert forall|c: int| 0 <= c < rest.len() implies is_zero(#[trigger] start[c])
            && !out.is_nonzero@[c] by {
            assert(out.is_nonzero@[c] <==> out.marked(c));
        }
    }
    let mut k: usize = 0;
    assert(out.nonzero@ =~= columns_listed(*rows, list, inv@, 0));
    while k < n
        invariant
            rows.wf(),
            rows.storage == Storage::Csr,
            y.wf(),
            y.values@.len() == rows.nrows,
            list == y.nonzero@,
            n == list.len(),
            k <= n,
            located(rest, inv@, rows.ncols as int),
            out.wf(),
            out.values@.len() == rest.len(),
            forall|c: int|
                0 <= c < rest.len() ==> #[trigger] out.values@[c] == row_sum(
                    *rows,
                    y.values@,
                    list,
                    rest[c] as int,
                    start[c],
                    k as int,
                ),
            forall|c: int|
                0 <= c < rest.len() ==> #[trigger] out.is_nonzero@[c] == touched(
                    *rows,
                    list,
                    rest[c] as int,
                    k as int,
                ),
            out.nonzero@ == columns_listed(*rows, list, inv@, k as int),
        decreases n - k,
    {
        let r: usize = y.nonzero[k];
        let coeff = y.values[r];
        let ghost was = *out;
        add_row(rows, r, coeff, inv, out, Ghost(rest));
        proof {
            assert forall|c: int| 0 <= c < rest.len() implies #[trigger] out.values@[c] == row_sum(
                *rows,
                y.values@,
                list,
                rest[c] as int,
                start[c],
                k + 1,
            ) by {
                assert(was.values@[c] == row_sum(
                    *rows,
                    y.values@,
                    list,
                    rest[c] as int,
                    start[c],
                    k as int,
                ));
            }
            assert forall|c: int| 0 <= c < rest.len() implies #[trigger] out.is_nonzero@[c]
                == touched(*rows, list, rest[c] as int, k + 1) by {
                let v = rest[c] as int;
                assert(was.is_nonzero@[c] == touched(*rows, list, v, k as int));
                if touched(*rows, list, v, k as int) {
                    let q = choose|q: int|
                        0 <= q < k && rows.line_has(#[trigger] list[q] as int, v);
                    assert(rows.line_has(list[q] as int, v));
                }
                if touched(*rows, list, v, k + 1) {
                    let q = choose|q: int|
                        0 <= q < k + 1 && rows.line_has(#[trigger] list[q] as int, v);
                    assert(rows.line_has(list[q] as int, v));
                }
                assert(list[k as int] == r);
            }
        }
        k += 1;
    }
    proof {
        assert forall|c: int| 0 <= c < rest.len() implies is_row_sum(
            *rows,
            *y,
            rest[c] as int,
            #[trigger] out.values@[c],
        ) by {
            assert(is_zero(start[c]));
            assert(out.values@[c] == row_sum(
                *rows,
                y.values@,
                list,
                rest[c] as int,
                start[c],
                n as int,
            ));
        }
    }
}

/// A vector with a one at `r` and zeros elsewhere.
pub open spec fn unit_vec<T: Scalar>(r: int, m: int) -> Seq<T> {
    Seq::new(
        m as nat,
        |i: int|
            if i == r {
                T::one_spec()
            } else {
                T::zero_spec()
            },
    )
}

/// `y` is row `r` of the inverse of the basis, and `x` its product with the other columns.
pub open spec fn row_of_inverse<T: Scalar>(
    mat: CsMat<T>,
    basic: Seq<usize>,
    rest: Seq<usize>,
    r: int,
    y: Seq<T>,
    x: Seq<T>,
) -> bool {
    &&& solves_transp(mat, basic, y, unit_vec(r, mat.nrows as int))
    &&& forall|c: int|
        0 <= c < rest.len() ==> (#[trigger] x[c]).val() == sum(
            crate::solve::col_terms(mat, rest[c] as int, y),
            mat.nrows as nat,
        )
}

/// The coefficients in `after` were calculated for the row `r`.
pub open spec fn row_coeffs_of<T: Scalar>(before: Solver<T>, after: Solver<T>, r: usize) -> bool {
    let y = after.basis_solver.rhs;
    let rest = before.non_basic_vars@;
    &&& exists|b: ScatteredVec<T>| #[trigger]
        holds_entries(b, seq![r], seq![T::one_spec()])
            && before.basis_solver.solved_transp(b, y)
    &&& row_sums(before.orig_constraints, y, rest, after.row_coeffs.values@)
    &&& forall|c: int|
        0 <= c < rest.len() ==> #[trigger] after.row_coeffs.is_nonzero@[c] == touched(
            before.orig_constraints,
            y.nonzero@,
            rest[c] as int,
            y.nonzero@.len() as int,
        )
    &&& after.row_coeffs.nonzero@ == columns_listed(
        before.orig_constraints,
        y.nonzero@,
        before.non_basic_vars_inv@,
        y.nonzero@.len() as int,
    )
    &&& exact::<T>() && before.basis_solver.represents(
        before.orig_constraints_csc,
        before.basic_vars@,
    ) && finite_items(y.values@) && finite_items(after.row_coeffs.values@) ==> row_of_inverse(
        before.orig_constraints_csc,
        before.basic_vars@,
        rest,
        r as int,
        y.values@,
        after.row_coeffs.values@,
    )
}

/// The terms of the first `k` listed rows.
pub open spec fn listed_terms<T: Scalar>(
    rows: CsMat<T>,
    y: Seq<T>,
    list: Seq<usize>,
    v: int,
    k: int,
) -> spec_fn(int) -> real {
    |i: int|
        if holds(list, 0, k, i) {
            rows.line(i, v).val() * y[i].val()
        } else {
            0 as real
        }
}

proof fn row_sum_partial<T: Scalar>(
    rows: CsMat<T>,
    y: ScatteredVec<T>,
    v: int,
    start: T,
    k: int,
)
    requires
        exact::<T>(),
        y.wf(),
        y.values@.len() == rows.nrows,
        is_zero(start),
        0 <= k <= y.nonzero@.len(),
        row_sum(rows, y.values@, y.nonzero@, v, start, k).finite(),
    ensures
        row_sum(rows, y.values@, y.nonzero@, v, start, k).val() == sum(
            listed_terms(rows, y.values@, y.nonzero@, v, k),
            rows.nrows as nat,
        ),
    decreases k,
{
    let list = y.nonzero@;
    let n = rows.nrows as nat;
    let g = listed_terms(rows, y.values@, list, v, k);
    if k == 0 {
        assert forall|i: int| 0 <= i < n implies #[trigger] g(i) == 0 as real by {
            assert(!holds(list, 0, 0, i));
        }
        sum_zero(g, n);
    } else {
        row_sum_partial(rows, y, v, start, k - 1);
        let f = listed_terms(rows, y.values@, list, v, k - 1);
        let r = list[k - 1] as int;
        one_more(list, 0, list.len() as int, k - 1);
        assert forall|i: int| 0 <= i < n && i != r implies #[trigger] f(i) == g(i) by {
            assert(holds(list, 0, k - 1 + 1, i) == holds(list, 0, k, i));
        }
        assert(holds(list, 0, k - 1 + 1, r));
        sum_but_one(f, g, n, r);
        if !rows.line_has(r, v) {
            times_zero(y.values@[r].val());
        }
    }
}

/// A sum of listed rows is the product of the whole column and the vector.
pub proof fn row_sum_value<T: Scalar>(
    rows: CsMat<T>,
    cols: CsMat<T>,
    y: ScatteredVec<T>,
    v: int,
    x: T,
)
    requires
        exact::<T>(),
        same_matrix(rows, cols),
        0 <= v < rows.ncols,
        y.wf(),
        y.values@.len() == rows.nrows,
        is_row_sum(rows, y, v, x),
        x.finite(),
    ensures
        x.val() == sum(crate::solve::col_terms(cols, v, y.values@), rows.nrows as nat),
{
    let n = rows.nrows as nat;
    let len = y.nonzero@.len() as int;
    row_sum_partial(rows, y, v, T::zero_spec(), len);
    let f = listed_terms(rows, y.values@, y.nonzero@, v, len);
    let g = crate::solve::col_terms(cols, v, y.values@);
    assert forall|i: int| 0 <= i < n implies #[trigger] f(i) == g(i) by {
        assert(cols.line(v, i) == rows.line(i, v));
        assert(y.is_nonzero@[i] <==> y.marked(i));
        if !y.marked(i) {
            assert(is_zero(y.values@[i]));
            times_zero(cols.line(v, i).val());
        }
    }
    sum_same(f, g, n);
}

/// The coefficient of a column in the pivot row is the coefficient of the pivot row in the
/// column.
pub proof fn row_meets_col<T: Scalar>(
    mat: CsMat<T>,
    basic: Seq<usize>,
    rest: Seq<usize>,
    r: int,
    y: Seq<T>,
    x: Seq<T>,
    coeffs: SparseVec<T>,
    c: int,
)
    requires
        exact::<T>(),
        mat.nrows == basic.len(),
        0 <= r < basic.len(),
        0 <= c < rest.len(),
        row_of_inverse(mat, basic, rest, r, y, x),
        expresses(mat, basic, coeffs, rest[c] as int),
    ensures
        x[c].val() == coeffs.value(r).val(),
{
    let n = basic.len();
    let var = rest[c] as int;
    let unit = unit_vec::<T>(r, n as int);
    let f = |i: int, k: int| (mat.line(basic[k] as int, i).val() * coeffs.value(k).val()) * y[i].val();
    let left = crate::solve::col_terms(mat, var, y);
    let rows = |i: int| sum(|k: int| f(i, k), n);
    assert forall|i: int| 0 <= i < n implies #[trigger] left(i) == rows(i) by {
        let t = coeff_row_terms(mat, basic, coeffs, i);
        let g = |k: int| f(i, k);
        assert(sum(t, n) == mat.line(var, i).val());
        assert forall|k: int| 0 <= k < n implies #[trigger] g(k) == y[i].val() * t(k) by {
            let (p, q) = (t(k), y[i].val());
            assert(p * q == q * p) by (nonlinear_arith);
        }
        sum_times(y[i].val(), t, g, n);
        let (p, q) = (sum(t, n), y[i].val());
        assert(p * q == q * p) by (nonlinear_arith);
    }
    sum_same(left, rows, n);
    sum_swap(f, n, n);
    let cols = |k: int| sum(|i: int| f(i, k), n);
    let ones = |k: int| coeffs.value(k).val() * unit[k].val();
    assert forall|k: int| 0 <= k < n implies #[trigger] cols(k) == ones(k) by {
        let t = crate::solve::col_terms(mat, basic[k] as int, y);
        let g = |i: int| f(i, k);
        let d = coeffs.value(k).val();
        assert forall|i: int| 0 <= i < n implies #[trigger] g(i) == d * t(i) by {
            let (p, q) = (mat.line(basic[k] as int, i).val(), y[i].val());
            assert((p * d) * q == d * (p * q)) by (nonlinear_arith);
        }
        sum_times(d, t, g, n);
        assert(sum(t, n) == unit[k].val());
    }
    sum_same(cols, ones, n);
    assert forall|k: int| 0 <= k < n && k != r implies #[trigger] ones(k) == 0 as real by {
        times_zero(coeffs.value(k).val());
    }
    sum_single(ones, n, r);
    times_zero(coeffs.value(r).val());
}

/// The coefficients in `after` were calculated for the column of the variable `var`.
pub open spec fn col_coeffs_of<T: Scalar>(before: Solver<T>, after: Solver<T>, var: int) -> bool {
    let mat = before.orig_constraints_csc;
    let x = after.basis_solver.rhs;
    &&& exists|b: ScatteredVec<T>| #[trigger]
        holds_entries(
            b,
            mat.indices@.subrange(mat.lo(var), mat.hi(var)),
            mat.data@.subrange(mat.lo(var), mat.hi(var)),
        ) && before.basis_solver.solved(b, x)
    &&& after.col_coeffs.indices@ == solid(x.nonzero@, x.values@, x.nonzero@.len())
    &&& forall|i: int| #[trigger]
        after.col_coeffs.stores(i) == (x.marked(i) && !x.values@[i].same_spec(T::zero_spec()))
    &&& forall|i: int|
        after.col_coeffs.stores(i) ==> #[trigger] after.col_coeffs.value(i) == x.values@[i]
    &&& exact::<T>() && before.basis_solver.represents(mat, before.basic_vars@) && finite_items(
        after.col_coeffs.values@,
    ) ==> expresses(mat, before.basic_vars@, after.col_coeffs, var)
}

} // verus!
