//! Quantities of a vertex computed from scratch.
use crate::basis::{dense_of, holds_entries};
use crate::elim::one_more;
use crate::error::Error;
use crate::lu::stuck;
use crate::scalar::{exact, Scalar};
use crate::scattered::ScatteredVec;
use crate::simplex::Solver;
use crate::solve::{finite_items, solves};
use crate::sparse::{
    at_place, below, copied, dense_dot, distinct, holds, square_sum, CsMat, Storage,
};
use vstd::prelude::*;

verus! {

/// A number below the tolerance counts as zero.
pub open spec fn snapped<T: Scalar>(x: T) -> T {
    if x.absolute_spec().less_spec(T::tolerance_spec()) {
        T::zero_spec()
    } else {
        x
    }
}

fn snap<T: Scalar>(x: T) -> (r: T)
    ensures
        r == snapped(x),
{
    if x.absolute().less(T::tolerance()) {
        T::zero()
    } else {
        x
    }
}

/// What is left of the right-hand side in row `r` when the first `k` variables are taken off.
pub open spec fn residual<T: Scalar>(
    mat: CsMat<T>,
    vars: Seq<usize>,
    vals: Seq<T>,
    b: Seq<T>,
    r: int,
    k: int,
) -> T
    decreases k,
{
    if k <= 0 {
        b[r]
    } else {
        let rest = residual(mat, vars, vals, b, r, k - 1);
        let v = vars[k - 1] as int;
        if vals[k - 1].same_spec(T::zero_spec()) || !mat.line_has(v, r) {
            rest
        } else {
            rest.minus_spec(vals[k - 1].times_spec(mat.line(v, r)))
        }
    }
}

/// `values[r] -= val * mat[r, v]`.
fn subtract_matrix_column<T: Scalar>(mat: &CsMat<T>, v: usize, val: T, values: &mut Vec<T>)
    requires
        mat.wf(),
        mat.storage == Storage::Csc,
        v < mat.ncols,
        old(values)@.len() == mat.nrows,
    ensures
        final(values)@.len() == old(values)@.len(),
        forall|r: int|
            0 <= r < old(values)@.len() ==> #[trigger] final(values)@[r] == if mat.line_has(
                v as int,
                r,
            ) {
                old(values)@[r].minus_spec(val.times_spec(mat.line(v as int, r)))
            } else {
                old(values)@[r]
            },
{
    proof {
        mat.line_wf(v as int);
    }
    let ghost before = values@;
    let lo: usize = mat.indptr[v];
    let hi: usize = mat.indptr[v + 1];
    let mut p: usize = lo;
    while p < hi
        invariant
            lo == mat.lo(v as int),
            hi == mat.hi(v as int),
            lo <= p <= hi <= mat.indices@.len(),
            mat.indices@.len() == mat.data@.len(),
            distinct(mat.indices@, lo as int, hi as int),
            below(mat.indices@, before.len() as int),
            values@.len() == before.len(),
            forall|r: int|
                0 <= r < before.len() ==> #[trigger] values@[r] == if holds(
                    mat.indices@,
                    lo as int,
                    p as int,
                    r,
                ) {
                    before[r].minus_spec(val.times_spec(mat.line(v as int, r)))
                } else {
                    before[r]
                },
        decreases hi - p,
    {
        let r: usize = mat.indices[p];
        proof {
            at_place(mat.indices@, mat.data@, lo as int, hi as int, p as int);
            one_more(mat.indices@, lo as int, hi as int, p as int);
        }
        let x = values[r].minus(val.times(mat.data[p]));
        values[r] = x;
        p += 1;
    }
}

/// What the objective is worth after the first `k` variables.
pub open spec fn objective<T: Scalar>(
    obj: Seq<T>,
    vars: Seq<usize>,
    vals: Seq<T>,
    start: T,
    k: int,
) -> T
    decreases k,
{
    if k <= 0 {
        start
    } else {
        objective(obj, vars, vals, start, k - 1).minus_spec(
            obj[vars[k - 1] as int].times_spec(vals[k - 1]),
        )
    }
}

fn subtract_objective<T: Scalar>(
    obj: &Vec<T>,
    vars: &Vec<usize>,
    vals: &Vec<T>,
    start: T,
) -> (r: T)
    requires
        below(vars@, obj@.len() as int),
        vals@.len() == vars@.len(),
    ensures
        r == objective(obj@, vars@, vals@, start, vars@.len() as int),
{
    let mut r = start;
    let n: usize = vars.len();
    let mut k: usize = 0;
    while k < n
        invariant
            below(vars@, obj@.len() as int),
            vals@.len() == vars@.len(),
            n == vars@.len(),
            k <= n,
            r == objective(obj@, vars@, vals@, start, k as int),
        decreases n - k,
    {
        r = r.minus(obj[vars[k]].times(vals[k]));
        k += 1;
    }
    r
}

impl<T: Scalar> Solver<T> {
    /// The right-hand side without the non-basic variables.
    pub open spec fn residuals(self) -> Seq<T> {
        Seq::new(
            self.orig_bounds@.len(),
            |r: int|
                residual(
                    self.orig_constraints_csc,
                    self.non_basic_vars@,
                    self.non_basic_vals@,
                    self.orig_bounds@,
                    r,
                    self.non_basic_vars@.len() as int,
                ),
        )
    }

    /// The data that the values of the basic variables are computed from.
    pub open spec fn bounds_ready(self) -> bool {
        &&& self.data_wf()
        &&& below(self.non_basic_vars@, self.total())
        &&& self.non_basic_vals@.len() == self.non_basic_vars@.len()
        &&& self.basis_solver.lu_factors.wf()
        &&& self.basis_solver.lu_factors.dim() == self.m()
    }

    /// Computes the values of the basic variables, for a basis without elementary matrices.
    pub fn recalc_cur_bounds(&mut self)
        requires
            old(self).bounds_ready(),
        ensures
            *final(self) == (Solver { cur_bounds: final(self).cur_bounds, ..*old(self) }),
            final(self).cur_bounds@.len() == old(self).m(),
            forall|r: int|
                0 <= r < old(self).m() ==> #[trigger] final(self).cur_bounds@[r] == snapped(
                    old(self).basis_solver.lu_factors.dense_solution(old(self).residuals())[r],
                ),
    {
        let mut cur_bounds = copied(&self.orig_bounds);
        let ghost b = self.orig_bounds@;
        let ghost mat = self.orig_constraints_csc;
        let ghost vars = self.non_basic_vars@;
        let ghost vals = self.non_basic_vals@;
        let n: usize = self.non_basic_vars.len();
        let mut i: usize = 0;
        while i < n
            invariant
                self.bounds_ready(),
                *self == *old(self),
                b == self.orig_bounds@,
                mat == self.orig_constraints_csc,
                vars == self.non_basic_vars@,
                vals == self.non_basic_vals@,
                n == vars.len(),
                i <= n,
                cur_bounds@.len() == b.len(),
                forall|r: int|
                    0 <= r < b.len() ==> #[trigger] cur_bounds@[r] == residual(
                        mat,
                        vars,
                        vals,
                        b,
                        r,
                        i as int,
                    ),
            decreases n - i,
        {
            let ghost before = cur_bounds@;
            let val = self.non_basic_vals[i];
            if !val.same(T::zero()) {
                subtract_matrix_column(
                    &self.orig_constraints_csc,
                    self.non_basic_vars[i],
                    val,
                    &mut cur_bounds,
                );
            }
            proof {
                assert forall|r: int| 0 <= r < b.len() implies #[trigger] cur_bounds@[r]
                    == residual(mat, vars, vals, b, r, i + 1) by {
                    assert(before[r] == residual(mat, vars, vals, b, r, i as int));
                }
            }
            i += 1;
        }
        proof {
            assert(cur_bounds@ =~= self.residuals());
        }
        self.basis_solver.lu_factors.solve_dense(&mut cur_bounds);
        let m: usize = cur_bounds.len();
        let ghost x = cur_bounds@;
        let mut r: usize = 0;
        while r < m
            invariant
                r <= m,
                m == x.len(),
                cur_bounds@.len() == m,
                forall|j: int|
                    0 <= j < m ==> #[trigger] cur_bounds@[j] == if j < r {
                        snapped(x[j])
                    } else {
                        x[j]
                    },
            decreases m - r,
        {
            let v = snap(cur_bounds[r]);
            cur_bounds[r] = v;
            r += 1;
        }
        self.cur_bounds = cur_bounds;
    }

    /// The negated objective coefficients of the basic variables.
    pub open spec fn basic_costs(self) -> Seq<T> {
        Seq::new(
            self.basic_vars@.len(),
            |c: int| self.orig_obj@[self.basic_vars@[c] as int].negated_spec(),
        )
    }

    /// The reduced cost of a variable, given the multipliers of the constraints.
    pub open spec fn reduced_cost(self, multipliers: Seq<T>, v: int) -> T {
        let mat = self.orig_constraints_csc;
        snapped(
            self.orig_obj@[v].plus_spec(
                dense_dot(
                    mat.indices@.subrange(mat.lo(v), mat.hi(v)),
                    mat.data@.subrange(mat.lo(v), mat.hi(v)),
                    multipliers,
                    (mat.hi(v) - mat.lo(v)) as nat,
                ),
            ),
        )
    }

    /// The data that the objective is computed from.
    pub open spec fn obj_ready(self) -> bool {
        &&& self.data_wf()
        &&& self.basis_solver.wf(self.m())
        &&& below(self.basic_vars@, self.total())
        &&& self.basic_vars@.len() == self.m()
        &&& self.cur_bounds@.len() == self.m()
        &&& below(self.non_basic_vars@, self.total())
        &&& self.non_basic_vals@.len() == self.non_basic_vars@.len()
    }

    /// The objective coefficients and value belong to the vertex.
    pub open spec fn obj_recalculated(self) -> bool {
        let multipliers = self.basis_solver.lu_factors.dense_solution_transp(self.basic_costs());
        &&& self.cur_obj@.len() == self.non_basic_vars@.len()
        &&& forall|c: int|
            0 <= c < self.cur_obj@.len() ==> #[trigger] self.cur_obj@[c] == self.reduced_cost(
                multipliers,
                self.non_basic_vars@[c] as int,
            )
        &&& self.cur_obj_val == objective(
            self.orig_obj@,
            self.non_basic_vars@,
            self.non_basic_vals@,
            objective(
                self.orig_obj@,
                self.basic_vars@,
                self.cur_bounds@,
                T::zero_spec(),
                self.basic_vars@.len() as int,
            ),
            self.non_basic_vars@.len() as int,
        )
    }

    /// Computes the objective coefficients and value. An error means that the basis cannot be
    /// factored.
    pub fn recalc_cur_obj(&mut self) -> (r: Result<(), Error>)
        requires
            old(self).obj_ready(),
        ensures
            *final(self) == (Solver {
                basis_solver: final(self).basis_solver,
                cur_obj: final(self).cur_obj,
                cur_obj_val: final(self).cur_obj_val,
                ..*old(self)
            }),
            final(self).basis_solver.wf(old(self).m()),
            old(self).basis_solver.eta_matrices.leaving_rows@.len() == 0 ==> r is Ok
                && final(self).basis_solver == old(self).basis_solver,
            match r {
                Ok(_) => {
                    &&& final(self).obj_recalculated()
                    &&& final(self).basis_solver.eta_matrices.leaving_rows@.len() == 0
                    &&& old(self).basis_solver.eta_matrices.leaving_rows@.len() > 0 ==> final(
                        self).basis_solver.lu_factors.multiplies_to(
                        old(self).orig_constraints_csc,
                        old(self).basic_vars@,
                    ) && final(self).basis_solver.lu_factors.eliminated_from(
                        old(self).orig_constraints_csc,
                        old(self).basic_vars@,
                        T::stability_spec(),
                    )
                },
                Err(e) => {
                    &&& e == Error::SingularMatrix
                    &&& old(self).basis_solver.eta_matrices.leaving_rows@.len() > 0
                    &&& stuck(
                        old(self).orig_constraints_csc,
                        old(self).basic_vars@,
                        T::stability_spec(),
                    )
                    &&& final(self).cur_obj == old(self).cur_obj
                    &&& final(self).cur_obj_val == old(self).cur_obj_val
                },
            },
    {
        if self.basis_solver.eta_matrices.len() > 0 {
            match self.basis_solver.reset(&self.orig_constraints_csc, &self.basic_vars) {
                Ok(_) => {},
                Err(e) => {
                    return Err(e);
                },
            }
        }
        let m: usize = self.basic_vars.len();
        let mut multipliers: Vec<T> = Vec::with_capacity(m);
        let mut c: usize = 0;
        while c < m
            invariant
                self.obj_ready(),
                m == self.basic_vars@.len(),
                c <= m,
                multipliers@ == self.basic_costs().subrange(0, c as int),
            decreases m - c,
        {
            multipliers.push(self.orig_obj[self.basic_vars[c]].negated());
            c += 1;
            proof {
                assert(multipliers@ =~= self.basic_costs().subrange(0, c as int));
            }
        }
        proof {
            assert(multipliers@ =~= self.basic_costs());
        }
        self.basis_solver.lu_factors.solve_dense_transp(&mut multipliers);
        let ghost mult = multipliers@;
        let ghost mid = *self;
        self.cur_obj.clear();
        let n: usize = self.non_basic_vars.len();
        let mut k: usize = 0;
        while k < n
            invariant
                mid.obj_ready(),
                mid.basis_solver.lu_factors.wf(),
                *self == (Solver { cur_obj: self.cur_obj, ..mid }),
                n == self.non_basic_vars@.len(),
                k <= n,
                mult == multipliers@,
                mult.len() == self.m(),
                self.cur_obj@.len() == k,
                forall|j: int|
                    0 <= j < k ==> #[trigger] self.cur_obj@[j] == mid.reduced_cost(
                        mult,
                        mid.non_basic_vars@[j] as int,
                    ),
            decreases n - k,
        {
            let var: usize = self.non_basic_vars[k];
            let col = self.orig_constraints_csc.outer_vec(var);
            proof {
                mid.orig_constraints_csc.line_wf(var as int);
            }
            let val = self.orig_obj[var].plus(col.dot_dense(&multipliers));
            self.cur_obj.push(snap(val));
            k += 1;
        }
        let val = subtract_objective(
            &self.orig_obj,
            &self.basic_vars,
            &self.cur_bounds,
            T::zero(),
        );
        self.cur_obj_val =
        subtract_objective(&self.orig_obj, &self.non_basic_vars, &self.non_basic_vals, val);
        Ok(())
    }

    /// The squared norm of the column of a non-basic variable, in terms of the basis.
    pub open spec fn is_sq_norm(self, v: int, x: T) -> bool {
        let mat = self.orig_constraints_csc;
        exists|b: ScatteredVec<T>, y: ScatteredVec<T>|
            #![trigger holds_entries(b, mat.indices@.subrange(mat.lo(v), mat.hi(v)),
                mat.data@.subrange(mat.lo(v), mat.hi(v))), y.wf()]
            holds_entries(
                b,
                mat.indices@.subrange(mat.lo(v), mat.hi(v)),
                mat.data@.subrange(mat.lo(v), mat.hi(v)),
            ) && y.wf() && self.basis_solver.solved(b, y) && x == square_sum(
                Seq::new(y.nonzero@.len(), |p: int| y.values@[y.nonzero@[p] as int]),
                y.nonzero@.len(),
            ) && y.values@.len() == self.m() && (exact::<T>() && self.basis_solver.represents(
                mat,
                self.basic_vars@,
            ) && finite_items(y.values@) ==> solves(
                mat,
                self.basic_vars@,
                y.values@,
                Seq::new(self.m() as nat, |i: int| mat.line(v, i)),
            ))
    }

    /// Computes the squared norms of the columns.
    pub fn recalc_cur_sq_norms(&mut self)
        requires
            old(self).data_wf(),
            old(self).basis_solver.wf(old(self).m()),
            below(old(self).non_basic_vars@, old(self).total()),
        ensures
            *final(self) == (Solver {
                basis_solver: final(self).basis_solver,
                non_basic_col_sq_norms: final(self).non_basic_col_sq_norms,
                ..*old(self)
            }),
            final(self).basis_solver.wf(old(self).m()),
            final(self).basis_solver.same_basis(old(self).basis_solver),
            final(self).non_basic_col_sq_norms@.len() == old(self).non_basic_vars@.len(),
            forall|c: int|
                0 <= c < old(self).non_basic_vars@.len() ==> old(self).is_sq_norm(
                    old(self).non_basic_vars@[c] as int,
                    #[trigger] final(self).non_basic_col_sq_norms@[c],
                ),
    {
        self.non_basic_col_sq_norms.clear();
        let n: usize = self.non_basic_vars.len();
        let mut k: usize = 0;
        while k < n
            invariant
                *self == (Solver {
                    basis_solver: self.basis_solver,
                    non_basic_col_sq_norms: self.non_basic_col_sq_norms,
                    ..*old(self)
                }),
                self.data_wf(),
                self.basis_solver.wf(self.m()),
                self.basis_solver.same_basis(old(self).basis_solver),
                below(self.non_basic_vars@, self.total()),
                n == self.non_basic_vars@.len(),
                k <= n,
                self.non_basic_col_sq_norms@.len() == k,
                forall|c: int|
                    0 <= c < k ==> old(self).is_sq_norm(
                        old(self).non_basic_vars@[c] as int,
                        #[trigger] self.non_basic_col_sq_norms@[c],
                    ),
            decreases n - k,
        {
            let var: usize = self.non_basic_vars[k];
            let col = self.orig_constraints_csc.outer_vec(var);
            let ghost before = self.basis_solver;
            self.basis_solver.solve(&col.indices, &col.data);
            let sq_norm = self.basis_solver.rhs.sq_norm();
            proof {
                let y = self.basis_solver.rhs;
                let mat = self.orig_constraints_csc;
                let v = var as int;
                let b = choose|b: ScatteredVec<T>| #[trigger]
                    holds_entries(b, col.indices@, col.data@) && before.solved(b, y);
                same_basis_solves(before, old(self).basis_solver, b, y);
                let full = Seq::new(self.m() as nat, |i: int| mat.line(v, i));
                mat.line_wf(v);
                assert(dense_of(col.indices@, col.data@, full, self.m())) by {
                    assert forall|i: int| 0 <= i < self.m() implies (#[trigger] full[i]).val()
                        == crate::sparse::at(
                        col.indices@,
                        col.data@,
                        0,
                        col.indices@.len() as int,
                        i,
                    ).val() by {
                        assert(col.value(i) == mat.line(v, i));
                    }
                }
                if old(self).basis_solver.represents(mat, self.basic_vars@) {
                    let bases = choose|bases: Seq<Seq<usize>>| #[trigger]
                        old(self).basis_solver.chain(mat, bases) && bases.last()
                            == self.basic_vars@;
                    assert(before.chain(mat, bases));
                    assert(before.represents(mat, self.basic_vars@));
                    if exact::<T>() && finite_items(y.values@) {
                        assert(solves(mat, self.basic_vars@, y.values@, full));
                    }
                }
                assert(full =~= Seq::new(
                    old(self).m() as nat,
                    |i: int| old(self).orig_constraints_csc.line(v, i),
                ));
                assert(holds_entries(
                    b,
                    mat.indices@.subrange(mat.lo(v), mat.hi(v)),
                    mat.data@.subrange(mat.lo(v), mat.hi(v)),
                ) && y.wf());
                assert(old(self).is_sq_norm(v, sq_norm));
            }
            self.non_basic_col_sq_norms.push(sq_norm);
            k += 1;
        }
    }
}

/// Solving depends on the basis alone.
proof fn same_basis_solves<T: Scalar>(
    a: crate::basis::BasisSolver<T>,
    b: crate::basis::BasisSolver<T>,
    rhs: ScatteredVec<T>,
    x: ScatteredVec<T>,
)
    requires
        a.same_basis(b),
        a.solved(rhs, x),
    ensures
        b.solved(rhs, x),
{
}

} // verus!
