//! Quantities of a vertex computed from scratch, where arithmetic is exact.
use crate::first::dense_dot_value;
use crate::lu::all_finite;
use crate::recalc::{objective, residual, snapped};
use crate::scalar::{abs_real, exact, Scalar};
use crate::simplex::{Solver, SENTINEL};
use crate::solve::{
    col_terms, dense_solution_solves, dense_solution_transp_solves, finite_items, row_terms,
};
use crate::sparse::{at, at_same, dense_dot, CsMat};
use crate::sums::{sum, sum_same, sum_times, times_zero};
use crate::vertex::{finite_vertex, lhs_terms, on_constraints, over, price, price_terms};
use vstd::prelude::*;

verus! {

/// The terms of the first variables of a list in row `r`.
pub open spec fn taken_terms<T: Scalar>(
    mat: CsMat<T>,
    vars: Seq<usize>,
    vals: Seq<T>,
    r: int,
) -> spec_fn(int) -> real {
    |k: int| mat.line(vars[k] as int, r).val() * vals[k].val()
}

proof fn residual_value<T: Scalar>(
    mat: CsMat<T>,
    vars: Seq<usize>,
    vals: Seq<T>,
    b: Seq<T>,
    r: int,
    k: int,
)
    requires
        exact::<T>(),
        0 <= k,
        residual(mat, vars, vals, b, r, k).finite(),
    ensures
        residual(mat, vars, vals, b, r, k).val() == b[r].val() - sum(
            taken_terms(mat, vars, vals, r),
            k as nat,
        ),
    decreases k,
{
    if k > 0 {
        residual_value(mat, vars, vals, b, r, k - 1);
        let (p, q) = (mat.line(vars[k - 1] as int, r).val(), vals[k - 1].val());
        times_zero(p);
        times_zero(q);
        assert(p * q == q * p) by (nonlinear_arith);
    }
}

/// The values of the basic variables come from the factors, and none is so small that it was
/// taken for zero.
pub open spec fn sharp_bounds<T: Scalar>(s: Solver<T>) -> bool {
    let x = s.basis_solver.lu_factors.dense_solution(s.residuals());
    &&& finite_items(s.residuals())
    &&& finite_items(x)
    &&& forall|r: int|
        0 <= r < s.m() ==> #[trigger] s.cur_bounds@[r] == snapped(x[r]) && snapped(x[r]).val()
            == x[r].val()
}

/// The factors are those of the basis.
pub open spec fn factored_basis<T: Scalar>(s: Solver<T>) -> bool {
    let lu = s.basis_solver.lu_factors;
    &&& lu.multiplies_to(s.orig_constraints_csc, s.basic_vars@)
    &&& all_finite(lu.lower)
    &&& all_finite(lu.upper)
}

/// Values of the basic variables that are computed from scratch put the vertex on the
/// constraints.
pub proof fn bounds_renewed<T: Scalar>(s: Solver<T>)
    requires
        exact::<T>(),
        s.wf(),
        factored_basis(s),
        sharp_bounds(s),
    ensures
        on_constraints(s, s.point()),
{
    let mat = s.orig_constraints_csc;
    let lu = s.basis_solver.lu_factors;
    let x = lu.dense_solution(s.residuals());
    let (m, n) = (s.m() as nat, s.non_basic_vars@.len());
    dense_solution_solves(lu, mat, s.basic_vars@, s.residuals());
    assert forall|i: int| 0 <= i < s.m() implies sum(
        lhs_terms(mat, s.point(), i),
        s.total() as nat,
    ) == (#[trigger] s.orig_bounds@[i]).val() by {
        let f = lhs_terms(mat, s.point(), i);
        s.split(f);
        let b = over(f, s.basic_vars@);
        let t = row_terms(mat, s.basic_vars@, x, i);
        assert forall|r: int| 0 <= r < m implies #[trigger] b(r) == t(r) by {
            let v = s.basic_vars@[r] as int;
            assert(s.basic_vars_inv@[v] == r);
            assert(s.cur_bounds@[r] == snapped(x[r]));
        }
        sum_same(b, t, m);
        assert(sum(t, m) == s.residuals()[i].val());
        let g = over(f, s.non_basic_vars@);
        let h = taken_terms(mat, s.non_basic_vars@, s.non_basic_vals@, i);
        assert forall|c: int| 0 <= c < n implies #[trigger] g(c) == h(c) by {
            let v = s.non_basic_vars@[c] as int;
            assert(s.non_basic_vars_inv@[v] == c);
            assert((s.basic_vars_inv@[v] == SENTINEL) != (s.non_basic_vars_inv@[v] == SENTINEL));
        }
        sum_same(g, h, n);
        assert(s.residuals()[i].finite());
        residual_value(
            mat,
            s.non_basic_vars@,
            s.non_basic_vals@,
            s.orig_bounds@,
            i,
            n as int,
        );
    }
}

impl<T: Scalar> Solver<T> {
    /// The multipliers that the reduced costs are computed with.
    pub open spec fn multipliers(self) -> Seq<T> {
        self.basis_solver.lu_factors.dense_solution_transp(self.basic_costs())
    }

    /// The reduced cost of a variable before small numbers are taken for zero.
    pub open spec fn raw_cost(self, v: int) -> T {
        let mat = self.orig_constraints_csc;
        self.orig_obj@[v].plus_spec(
            dense_dot(
                mat.indices@.subrange(mat.lo(v), mat.hi(v)),
                mat.data@.subrange(mat.lo(v), mat.hi(v)),
                self.multipliers(),
                (mat.hi(v) - mat.lo(v)) as nat,
            ),
        )
    }
}

/// The multipliers and costs are finite, and no reduced cost is so small that it was taken for
/// zero.
pub open spec fn sharp_costs<T: Scalar>(s: Solver<T>) -> bool {
    &&& finite_items(s.basic_costs())
    &&& finite_items(s.multipliers())
    &&& forall|c: int|
        0 <= c < s.non_basic_vars@.len() ==> (#[trigger] s.raw_cost(
            s.non_basic_vars@[c] as int,
        )).finite() && snapped(s.raw_cost(s.non_basic_vars@[c] as int)).val() == s.raw_cost(
            s.non_basic_vars@[c] as int,
        ).val()
}

/// The terms of the objective of the listed variables.
pub open spec fn objective_terms<T: Scalar>(
    obj: Seq<T>,
    vars: Seq<usize>,
    vals: Seq<T>,
) -> spec_fn(int) -> real {
    |k: int| obj[vars[k] as int].val() * vals[k].val()
}

proof fn objective_value<T: Scalar>(
    obj: Seq<T>,
    vars: Seq<usize>,
    vals: Seq<T>,
    start: T,
    k: int,
)
    requires
        exact::<T>(),
        0 <= k,
        objective(obj, vars, vals, start, k).finite(),
    ensures
        start.finite(),
        objective(obj, vars, vals, start, k).val() == start.val() - sum(
            objective_terms(obj, vars, vals),
            k as nat,
        ),
    decreases k,
{
    if k > 0 {
        objective_value(obj, vars, vals, start, k - 1);
    }
}

/// Reduced costs and an objective value that are computed from scratch are those of the vertex.
pub proof fn obj_renewed<T: Scalar>(s: Solver<T>)
    requires
        exact::<T>(),
        s.wf(),
        s.num_artificial_vars == 0,
        finite_vertex(s),
        factored_basis(s),
        s.obj_recalculated(),
        sharp_costs(s),
    ensures
        exists|y: Seq<real>| s.priced(y),
        s.cur_obj_val.val() == -s.worth(s.point()),
{
    let mat = s.orig_constraints_csc;
    let lu = s.basis_solver.lu_factors;
    let mult = s.multipliers();
    let (m, n) = (s.m() as nat, s.non_basic_vars@.len());
    dense_solution_transp_solves(lu, mat, s.basic_vars@, s.basic_costs());
    let y = Seq::new(m, |i: int| -mult[i].val());
    assert forall|v: int| #[trigger] price(mat, v, y) == -sum(col_terms(mat, v, mult), m) by {
        let f = price_terms(mat, v, y);
        let g = col_terms(mat, v, mult);
        assert forall|i: int| 0 <= i < m implies #[trigger] f(i) == (-1 as real) * g(i) by {
            let (p, q) = (mat.line(v, i).val(), mult[i].val());
            assert(p * (-q) == (-1 as real) * (p * q)) by (nonlinear_arith);
        }
        sum_times(-1 as real, g, f, m);
        let t = sum(g, m);
        assert((-1 as real) * t == -t) by (nonlinear_arith);
    }
    assert forall|r: int| 0 <= r < s.m() implies s.cost(#[trigger] s.basic_vars@[r] as int) == price(
        mat,
        s.basic_vars@[r] as int,
        y,
    ) by {
        let costs = s.basic_costs();
        assert(costs[r].finite());
        assert(costs[r] == s.orig_obj@[s.basic_vars@[r] as int].negated_spec());
        assert(sum(col_terms(mat, s.basic_vars@[r] as int, mult), m) == costs[r].val());
    }
    assert forall|c: int| 0 <= c < s.cur_obj@.len() implies (#[trigger] s.cur_obj@[c]).val()
        == s.cost(s.non_basic_vars@[c] as int) - price(mat, s.non_basic_vars@[c] as int, y) by {
        let v = s.non_basic_vars@[c] as int;
        let raw = s.raw_cost(v);
        assert(raw.finite());
        assert(s.cur_obj@[c] == s.reduced_cost(mult, v));
        mat.line_wf(v);
        let (lo, hi) = (mat.lo(v), mat.hi(v));
        let idx = mat.indices@.subrange(lo, hi);
        let data = mat.data@.subrange(lo, hi);
        let terms = col_terms(mat, v, mult);
        assert forall|i: int| 0 <= i < mult.len() implies #[trigger] terms(i) == at(
            idx,
            data,
            0,
            idx.len() as int,
            i,
        ).val() * mult[i].val() by {
            at_same(mat.indices@, mat.data@, lo, hi, idx, data, 0, hi - lo, i);
        }
        assert forall|p: int, q: int| 0 <= p < q < idx.len() implies #[trigger] idx[p]
            != #[trigger] idx[q] by {
            assert(mat.indices@[lo + p] != mat.indices@[lo + q]);
        }
        assert forall|p: int| 0 <= p < idx.len() implies #[trigger] idx[p] < mult.len() by {
            assert(mat.indices@[lo + p] < mat.inner());
        }
        dense_dot_value(idx, data, mult, terms);
    }
    assert(s.priced(y));
    // the value
    let f = s.worth_terms(s.point());
    s.split(f);
    let start = objective(
        s.orig_obj@,
        s.basic_vars@,
        s.cur_bounds@,
        T::zero_spec(),
        s.basic_vars@.len() as int,
    );
    objective_value(s.orig_obj@, s.non_basic_vars@, s.non_basic_vals@, start, n as int);
    objective_value(s.orig_obj@, s.basic_vars@, s.cur_bounds@, T::zero_spec(), m as int);
    let b = over(f, s.basic_vars@);
    let t = objective_terms(s.orig_obj@, s.basic_vars@, s.cur_bounds@);
    assert forall|r: int| 0 <= r < m implies #[trigger] b(r) == t(r) by {
        assert(s.basic_vars_inv@[s.basic_vars@[r] as int] == r);
    }
    sum_same(b, t, m);
    let g = over(f, s.non_basic_vars@);
    let h = objective_terms(s.orig_obj@, s.non_basic_vars@, s.non_basic_vals@);
    assert forall|c: int| 0 <= c < n implies #[trigger] g(c) == h(c) by {
        let v = s.non_basic_vars@[c] as int;
        assert(s.non_basic_vars_inv@[v] == c);
        assert((s.basic_vars_inv@[v] == SENTINEL) != (s.non_basic_vars_inv@[v] == SENTINEL));
    }
    sum_same(g, h, n);
}

/// What is computed from scratch is kept but for numbers below the tolerance, which become zero.
pub proof fn small_numbers_become_zero<T: Scalar>(x: T)
    requires
        exact::<T>(),
        x.absolute_spec().finite(),
    ensures
        abs_real(x.val()) < T::tolerance_spec().val() ==> snapped(x).val() == 0 as real,
        abs_real(x.val()) >= T::tolerance_spec().val() ==> snapped(x) == x,
{
}

} // verus!
