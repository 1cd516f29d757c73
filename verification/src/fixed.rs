//! What a program fixes of its first vertex.
use crate::elim::{column_side, reduced, Entries};
use crate::first::dense_dot_value;
use crate::lu::{
    elimination, elt_count, factors_are_fixed, fair_threshold, row_counts, same_factors, LUFactors,
};
use crate::program::{coeff_terms, constraint_met};
use crate::scalar::{acceptable_alone, exact, Scalar};
use crate::simplex::{located, same_matrix, RelOp, Solver, SENTINEL};
use crate::sparse::{ascending, at, at_place, holds, place, CsMat};
use crate::start::{holds_rows, signs_usable, started, Input};
use crate::sums::times_zero;
use crate::vertex::finite_vertex;
use vstd::prelude::*;

verus! {

/// The matrices store the same, in the same places.
pub open spec fn same_contents<T: Scalar>(a: CsMat<T>, b: CsMat<T>) -> bool {
    &&& a.storage == b.storage
    &&& a.nrows == b.nrows
    &&& a.ncols == b.ncols
    &&& a.indptr@ == b.indptr@
    &&& a.indices@ == b.indices@
    &&& a.data@ == b.data@
}

/// Two stretches of indices that grow and hold the same are the same.
proof fn same_stretch(
    a: Seq<usize>,
    la: int,
    ha: int,
    b: Seq<usize>,
    lb: int,
    hb: int,
    k: int,
)
    requires
        0 <= la <= ha <= a.len(),
        0 <= lb <= hb <= b.len(),
        ascending(a, la, ha),
        ascending(b, lb, hb),
        forall|i: int| #[trigger] holds(a, la, ha, i) == holds(b, lb, hb, i),
        0 <= k <= ha - la,
    ensures
        k <= hb - lb,
        forall|q: int| 0 <= q < k ==> #[trigger] a[la + q] == b[lb + q],
    decreases k,
{
    if k > 0 {
        let j = k - 1;
        same_stretch(a, la, ha, b, lb, hb, j);
        let x = a[la + j] as int;
        assert(holds(a, la, ha, x)) by {
            assert(a[la + j] == x);
        }
        assert(holds(b, lb, hb, x));
        let p = place(b, lb, hb, x);
        assert(b[p] == x && lb <= p < hb);
        let q = p - lb;
        if q < j {
            assert(a[la + q] == b[lb + q]);
            assert(a[la + q] < a[la + j]);
        }
        if q > j {
            let y = b[lb + j] as int;
            assert(b[lb + j] < b[p]);
            assert(holds(b, lb, hb, y)) by {
                assert(b[lb + j] == y);
            }
            assert(holds(a, la, ha, y));
            let r = place(a, la, ha, y);
            assert(a[r] == y && la <= r < ha);
            let t = r - la;
            if t < j {
                assert(a[la + t] == b[lb + t]);
                assert(b[lb + t] < b[lb + j]);
            } else if t > j {
                assert(a[la + j] < a[r]);
            }
        }
    }
}

/// Well-formed matrices with the same lines are the same up to line `o`.
proof fn same_up_to<T: Scalar>(a: CsMat<T>, b: CsMat<T>, o: int)
    requires
        a.wf(),
        b.wf(),
        a.storage == b.storage,
        a.nrows == b.nrows,
        a.ncols == b.ncols,
        forall|l: int, i: int|
            0 <= l < a.outer() ==> #[trigger] a.line_has(l, i) == b.line_has(l, i),
        forall|l: int, i: int| 0 <= l < a.outer() ==> #[trigger] a.line(l, i) == b.line(l, i),
        0 <= o <= a.outer(),
    ensures
        a.indptr@[o] == b.indptr@[o],
        forall|l: int| 0 <= l <= o ==> #[trigger] a.indptr@[l] == b.indptr@[l],
        forall|p: int|
            0 <= p < a.indptr@[o] ==> #[trigger] a.indices@[p] == b.indices@[p],
        forall|p: int| 0 <= p < a.indptr@[o] ==> #[trigger] a.data@[p] == b.data@[p],
    decreases o,
{
    if o > 0 {
        let l = o - 1;
        same_up_to(a, b, l);
        a.line_wf(l);
        b.line_wf(l);
        let (lo, ha, hb) = (a.lo(l), a.hi(l), b.hi(l));
        assert forall|i: int| #[trigger] holds(a.indices@, lo, ha, i) == holds(
            b.indices@,
            lo,
            hb,
            i,
        ) by {
            assert(a.line_has(l, i) == b.line_has(l, i));
        }
        same_stretch(a.indices@, lo, ha, b.indices@, lo, hb, ha - lo);
        same_stretch(b.indices@, lo, hb, a.indices@, lo, ha, hb - lo);
        assert forall|p: int| 0 <= p < a.indptr@[o] implies #[trigger] a.indices@[p]
            == b.indices@[p] by {
            if p >= lo {
                assert(a.indices@[lo + (p - lo)] == b.indices@[lo + (p - lo)]);
            }
        }
        assert forall|p: int| 0 <= p < a.indptr@[o] implies #[trigger] a.data@[p]
            == b.data@[p] by {
            if p >= lo {
                assert(a.indices@[p] == b.indices@[p]);
                let i = a.indices@[p] as int;
                at_place(a.indices@, a.data@, lo, ha, p);
                at_place(b.indices@, b.data@, lo, hb, p);
                assert(a.line(l, i) == b.line(l, i));
            }
        }
    }
}

/// Well-formed matrices with the same lines are the same.
pub proof fn lines_fix_matrix<T: Scalar>(a: CsMat<T>, b: CsMat<T>)
    requires
        a.wf(),
        b.wf(),
        a.storage == b.storage,
        a.nrows == b.nrows,
        a.ncols == b.ncols,
        forall|l: int, i: int|
            0 <= l < a.outer() ==> #[trigger] a.line_has(l, i) == b.line_has(l, i),
        forall|l: int, i: int| 0 <= l < a.outer() ==> #[trigger] a.line(l, i) == b.line(l, i),
    ensures
        same_contents(a, b),
{
    same_up_to(a, b, a.outer());
    assert(a.indptr@ =~= b.indptr@);
    assert(a.indices@ =~= b.indices@);
    assert(a.data@ =~= b.data@);
}

proof fn same_reduced<T: Scalar>(
    a: CsMat<T>,
    b: CsMat<T>,
    col: int,
    lower: Seq<Entries<T>>,
    orig2new: Seq<usize>,
)
    requires
        same_contents(a, b),
    ensures
        reduced(a, col, lower, orig2new) == reduced(b, col, lower, orig2new),
{
    assert forall|above: bool, other: Seq<T>|
        #[trigger] column_side(a, col, orig2new, lower.len() as int, above, other) == column_side(
            b,
            col,
            orig2new,
            lower.len() as int,
            above,
            other,
        ) by {
        assert(column_side(a, col, orig2new, lower.len() as int, above, other) =~= column_side(
            b,
            col,
            orig2new,
            lower.len() as int,
            above,
            other,
        ));
    }
}

proof fn same_counts<T: Scalar>(a: CsMat<T>, b: CsMat<T>, cols: Seq<usize>, k: int, r: int)
    requires
        same_contents(a, b),
    ensures
        elt_count(a, cols, k, r) == elt_count(b, cols, k, r),
    decreases k,
{
    if k > 0 {
        same_counts(a, b, cols, k - 1, r);
    }
}

/// Elimination goes by what the matrix stores.
proof fn same_elimination<T: Scalar>(
    a: CsMat<T>,
    b: CsMat<T>,
    cols: Seq<usize>,
    stability: T,
    k: int,
)
    requires
        same_contents(a, b),
    ensures
        elimination(a, cols, stability, k) == elimination(b, cols, stability, k),
    decreases k,
{
    if k > 0 {
        same_elimination(a, b, cols, stability, k - 1);
        assert(row_counts(a, cols) =~= row_counts(b, cols)) by {
            assert forall|r: int| 0 <= r < a.nrows implies elt_count(
                a,
                cols,
                cols.len() as int,
                r,
            ) == #[trigger] elt_count(b, cols, cols.len() as int, r) by {
                same_counts(a, b, cols, cols.len() as int, r);
            }
        }
        if let Some(s) = elimination(a, cols, stability, k - 1) {
            same_reduced(a, b, cols[k - 1] as int, s.lower, s.orig2new);
        }
    }
}

/// The places of the variables are fixed by the lists.
proof fn same_places(list: Seq<usize>, a: Seq<usize>, b: Seq<usize>, total: int)
    requires
        located(list, a, total),
        located(list, b, total),
    ensures
        a == b,
{
    assert forall|v: int| 0 <= v < total implies a[v] == b[v] by {
        if a[v] != SENTINEL {
            assert(list[a[v] as int] == v);
            assert(b[list[a[v] as int] as int] == a[v]);
        } else if b[v] != SENTINEL {
            assert(list[b[v] as int] == v);
            assert(a[list[b[v] as int] as int] == b[v]);
        }
    }
    assert(a =~= b);
}

/// The two solvers have the same program, the same vertex and the same factors. What they have
/// besides is storage for what is computed next.
pub open spec fn same_start<T: Scalar>(s: Solver<T>, t: Solver<T>) -> bool {
    &&& s.num_vars == t.num_vars
    &&& s.num_slack_vars == t.num_slack_vars
    &&& s.num_artificial_vars == t.num_artificial_vars
    &&& s.enable_steepest_edge == t.enable_steepest_edge
    &&& s.orig_obj@ == t.orig_obj@
    &&& s.orig_var_mins@ == t.orig_var_mins@
    &&& s.orig_var_maxs@ == t.orig_var_maxs@
    &&& s.orig_bounds@ == t.orig_bounds@
    &&& same_contents(s.orig_constraints, t.orig_constraints)
    &&& same_contents(s.orig_constraints_csc, t.orig_constraints_csc)
    &&& s.set_vars@ == t.set_vars@
    &&& s.basic_vars@ == t.basic_vars@
    &&& s.basic_vars_inv@ == t.basic_vars_inv@
    &&& s.cur_bounds@ == t.cur_bounds@
    &&& s.non_basic_vars@ == t.non_basic_vars@
    &&& s.non_basic_vars_inv@ == t.non_basic_vars_inv@
    &&& s.non_basic_vals@ == t.non_basic_vals@
    &&& s.cur_obj@ == t.cur_obj@
    &&& s.cur_obj_val == t.cur_obj_val
    &&& s.non_basic_col_sq_norms@ == t.non_basic_col_sq_norms@
    &&& s.basis_solver.eta_matrices.leaving_rows@.len() == 0
    &&& t.basis_solver.eta_matrices.leaving_rows@.len() == 0
    &&& same_factors(s.basis_solver.lu_factors, t.basis_solver.lu_factors)
}

/// The matrix by columns is fixed by that by rows.
proof fn same_columns<T: Scalar>(
    r: CsMat<T>,
    q: CsMat<T>,
    a: CsMat<T>,
    b: CsMat<T>,
)
    requires
        same_contents(r, q),
        same_matrix(r, a),
        same_matrix(q, b),
    ensures
        same_contents(a, b),
{
    assert forall|l: int, i: int| 0 <= l < a.outer() implies #[trigger] a.line_has(l, i)
        == b.line_has(l, i) by {
        if 0 <= i < a.nrows {
            assert(a.line_has(l, i) == r.line_has(i, l));
            assert(b.line_has(l, i) == q.line_has(i, l));
        } else {
            a.line_wf(l);
            b.line_wf(l);
            if a.line_has(l, i) {
                let p = place(a.indices@, a.lo(l), a.hi(l), i);
                assert(a.indices@[p] == i);
            }
            if b.line_has(l, i) {
                let p = place(b.indices@, b.lo(l), b.hi(l), i);
                assert(b.indices@[p] == i);
            }
        }
    }
    assert forall|l: int, i: int| 0 <= l < a.outer() implies #[trigger] a.line(l, i) == b.line(
        l,
        i,
    ) by {
        assert(a.line_has(l, i) == b.line_has(l, i));
        if 0 <= i < a.nrows {
            assert(a.line(l, i) == r.line(i, l));
            assert(b.line(l, i) == q.line(i, l));
        } else {
            a.line_wf(l);
            if a.line_has(l, i) {
                let p = place(a.indices@, a.lo(l), a.hi(l), i);
                assert(a.indices@[p] == i);
            }
        }
    }
    lines_fix_matrix(a, b);
}

/// A program has one first vertex: whatever two solvers are made of it, they start with the same.
pub proof fn start_is_fixed<T: Scalar>(input: Input<T>, s: Solver<T>, t: Solver<T>)
    requires
        started(input, s),
        s.wf(),
        started(input, t),
        t.wf(),
    ensures
        same_start(s, t),
{
    let (a, b) = (s.orig_constraints, t.orig_constraints);
    assert(holds_rows(input, a) && holds_rows(input, b));
    assert forall|l: int, i: int| 0 <= l < a.outer() implies #[trigger] a.line_has(l, i)
        == b.line_has(l, i) by {
        assert(b.line_has(l, i) == input.entry_has(l, i));
    }
    assert forall|l: int, i: int| 0 <= l < a.outer() implies #[trigger] a.line(l, i) == b.line(
        l,
        i,
    ) by {
        assert(b.line(l, i) == input.entry(l, i));
    }
    lines_fix_matrix(a, b);
    let (c, d) = (s.orig_constraints_csc, t.orig_constraints_csc);
    same_columns(a, b, c, d);
    same_places(s.basic_vars@, s.basic_vars_inv@, t.basic_vars_inv@, s.total());
    same_places(s.non_basic_vars@, s.non_basic_vars_inv@, t.non_basic_vars_inv@, s.total());
    assert(s.cur_obj@ =~= t.cur_obj@) by {
        assert forall|i: int| 0 <= i < s.cur_obj@.len() implies s.cur_obj@[i] == t.cur_obj@[i] by {
            assert(s.non_basic_vars@[i] == t.non_basic_vars@[i]);
        }
    }
    assert(s.non_basic_col_sq_norms@ =~= t.non_basic_col_sq_norms@) by {
        assert forall|i: int|
            0 <= i < s.non_basic_col_sq_norms@.len() implies s.non_basic_col_sq_norms@[i]
            == t.non_basic_col_sq_norms@[i] by {
            let v = s.non_basic_vars@[i] as int;
            assert(c.data@.subrange(c.lo(v), c.hi(v)) == d.data@.subrange(d.lo(v), d.hi(v)));
        }
    }
    let cols = s.basic_vars@;
    same_elimination(c, d, cols, T::stability_spec(), cols.len() as int);
    let x: Result<LUFactors<T>, crate::error::Error> = Ok(s.basis_solver.lu_factors);
    let y: Result<LUFactors<T>, crate::error::Error> = Ok(t.basis_solver.lu_factors);
    factors_are_fixed(x, y, c, cols, T::stability_spec());
}

/// The variables of the program start at their lower limits, or at their upper ones where there is no
/// lower limit.
pub proof fn start_is_at_limits<T: Scalar>(input: Input<T>, s: Solver<T>, v: int)
    requires
        started(input, s),
        s.wf(),
        0 <= v < input.obj.len(),
    ensures
        input.mins[v].finite() ==> s.value_of(v) == input.mins[v],
        !input.mins[v].finite() ==> s.value_of(v) == input.maxs[v],
{
    assert(s.non_basic_vars@[v] == v);
    assert(s.non_basic_vars_inv@[s.non_basic_vars@[v] as int] == v);
    assert((s.basic_vars_inv@[v] == SENTINEL) != (s.non_basic_vars_inv@[v] == SENTINEL));
}

/// A row starts with an artificial variable exactly if its constraint is an equation, or is not met
/// by the values that the variables start with.
pub proof fn artificial_where_not_met<T: Scalar>(input: Input<T>, s: Solver<T>, r: int)
    requires
        exact::<T>(),
        input.wf(),
        started(input, s),
        s.wf(),
        finite_vertex(s),
        0 <= r < input.m(),
    ensures
        s.basic_vars@[r] >= s.num_vars + s.num_slack_vars <==> input.constraints[input.source(r)].1
            == RelOp::Eq || !constraint_met(input, input.source(r), s.point()),
{
    input.basic_entry(r, r);
    input.live_facts(input.constraints.len() as int);
    let j = input.source(r);
    let c = input.constraints[j].0;
    assert(s.cur_bounds@[r].finite());
    assert(input.diff(j).finite());
    let f = coeff_terms(input, j, s.point());
    assert forall|v: int| 0 <= v < input.vals().len() implies #[trigger] f(v) == at(
        c.indices@,
        c.data@,
        0,
        c.indices@.len() as int,
        v,
    ).val() * input.vals()[v].val() by {
        start_is_at_limits(input, s, v);
    }
    dense_dot_value(c.indices@, c.data@, input.vals(), f);
}

/// A program whose numbers are finite is accepted, if it is not refused for its limits or for a
/// constraint without variables: the first basis has factors.
pub proof fn finite_program_is_accepted<T: Scalar>(input: Input<T>)
    requires
        exact::<T>(),
        input.wf(),
        fair_threshold(T::stability_spec()),
        forall|r: int|
            0 <= r < input.m() ==> {
                let d = #[trigger] input.diff(input.source(r));
                &&& d.finite()
                &&& d.signum_spec().absolute_spec().finite()
                &&& T::stability_spec().times_spec(d.signum_spec().absolute_spec()).finite()
            },
    ensures
        signs_usable(input),
{
    assert forall|r: int|
        0 <= r < input.m() && input.needs_art(input.source(r)) implies acceptable_alone(
        (#[trigger] input.diff(input.source(r))).signum_spec(),
        T::stability_spec(),
    ) by {
        let d = input.diff(input.source(r));
        let m = d.signum_spec().absolute_spec();
        assert(d.finite());
        assert(m.val() == 1 as real);
        let t = T::stability_spec().val();
        times_zero(t);
        assert(t * (1 as real) == t) by (nonlinear_arith);
    }
}

} // verus!
