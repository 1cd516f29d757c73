//! What every vertex keeps, where arithmetic is exact.
use crate::basis::{basis_change, eta_terms, BasisSolver};
use crate::lu::all_finite;
use crate::pivot::{basis_moved, eta_coeffs_of, vertex_moved};
use crate::scalar::{exact, is_zero, Scalar};
use crate::simplex::{
    coeff_row_terms, expresses, located, partitioned, row_meets_col, row_of_inverse, unit_vec,
    PivotInfo, Solver, SENTINEL,
};
use crate::solve::{col_terms, finite_items};
use crate::sparse::{place, CsMat, SparseVec};
use crate::sums::{
    sum, sum_but_one, sum_plus, sum_same, sum_single, sum_swap, sum_times, sum_zero, times_zero,
};
use vstd::prelude::*;

verus! {

/// The terms of the listed variables.
pub open spec fn over(f: spec_fn(int) -> real, list: Seq<usize>) -> spec_fn(int) -> real {
    |k: int| f(list[k] as int)
}

/// The terms of those variables that are among the first `k` of a list.
pub open spec fn kept(f: spec_fn(int) -> real, inv: Seq<usize>, k: int) -> spec_fn(int) -> real {
    |v: int|
        if inv[v] < k {
            f(v)
        } else {
            0 as real
        }
}

proof fn sum_listed(
    f: spec_fn(int) -> real,
    list: Seq<usize>,
    inv: Seq<usize>,
    total: int,
    k: int,
)
    requires
        located(list, inv, total),
        0 <= k <= list.len(),
    ensures
        sum(over(f, list), k as nat) == sum(kept(f, inv, k), total as nat),
    decreases k,
{
    let g = kept(f, inv, k);
    if k == 0 {
        assert forall|v: int| 0 <= v < total implies #[trigger] g(v) == 0 as real by {}
        sum_zero(g, total as nat);
    } else {
        sum_listed(f, list, inv, total, k - 1);
        let e = kept(f, inv, k - 1);
        let w = list[k - 1] as int;
        assert(inv[w] == k - 1);
        assert forall|v: int| 0 <= v < total && v != w implies #[trigger] e(v) == g(v) by {
            if inv[v] == k - 1 {
                assert(list[inv[v] as int] == v);
            }
        }
        sum_but_one(e, g, total as nat, w);
    }
}

/// A sum over all variables is one over the basic and one over the other variables.
pub proof fn sum_split(
    f: spec_fn(int) -> real,
    basic: Seq<usize>,
    basic_inv: Seq<usize>,
    rest: Seq<usize>,
    rest_inv: Seq<usize>,
    total: int,
)
    requires
        partitioned(basic, basic_inv, rest, rest_inv, total),
    ensures
        sum(f, total as nat) == sum(over(f, basic), basic.len()) + sum(over(f, rest), rest.len()),
{
    let (m, n) = (basic.len() as int, rest.len() as int);
    sum_listed(f, basic, basic_inv, total, m);
    sum_listed(f, rest, rest_inv, total, n);
    let g = kept(f, basic_inv, m);
    let h = kept(f, rest_inv, n);
    assert forall|v: int| 0 <= v < total implies #[trigger] f(v) == g(v) + h(v) by {
        assert((basic_inv[v] == SENTINEL) != (rest_inv[v] == SENTINEL));
        assert(basic_inv[v] == SENTINEL || basic_inv[v] < m);
        assert(rest_inv[v] == SENTINEL || rest_inv[v] < n);
    }
    sum_plus(g, h, f, total as nat);
}

impl<T: Scalar> Solver<T> {
    pub proof fn split(self, f: spec_fn(int) -> real)
        requires
            self.vars_wf(),
        ensures
            sum(f, self.total() as nat) == sum(over(f, self.basic_vars@), self.basic_vars@.len())
                + sum(over(f, self.non_basic_vars@), self.non_basic_vars@.len()),
    {
        sum_split(
            f,
            self.basic_vars@,
            self.basic_vars_inv@,
            self.non_basic_vars@,
            self.non_basic_vars_inv@,
            self.total(),
        );
    }

    /// The point that the vertex is.
    pub open spec fn point(self) -> spec_fn(int) -> real {
        |v: int| self.value_of(v).val()
    }
}

/// The terms of the left-hand side of constraint `i` at the point `x`.
pub open spec fn lhs_terms<T: Scalar>(
    mat: CsMat<T>,
    x: spec_fn(int) -> real,
    i: int,
) -> spec_fn(int) -> real {
    |v: int| mat.line(v, i).val() * x(v)
}

/// The point meets all constraints with equality (the slack variables count as variables).
pub open spec fn on_constraints<T: Scalar>(s: Solver<T>, x: spec_fn(int) -> real) -> bool {
    forall|i: int|
        0 <= i < s.m() ==> sum(lhs_terms(s.orig_constraints_csc, x, i), s.total() as nat) == (
        #[trigger] s.orig_bounds@[i]).val()
}

/// How the variables change with the variable `e` when it moves by one: it alone moves among the
/// non-basic ones, and the basic ones follow.
pub open spec fn along<T: Scalar>(
    s: Solver<T>,
    coeffs: SparseVec<T>,
    e: int,
) -> spec_fn(int) -> real {
    |v: int|
        if s.basic_vars_inv@[v] != SENTINEL {
            -coeffs.value(s.basic_vars_inv@[v] as int).val()
        } else if v == e {
            1 as real
        } else {
            0 as real
        }
}

/// The weighted sum of the changes.
pub proof fn sum_along<T: Scalar>(
    s: Solver<T>,
    coeffs: SparseVec<T>,
    col: int,
    w: spec_fn(int) -> real,
    terms: spec_fn(int) -> real,
    basic_terms: spec_fn(int) -> real,
)
    requires
        s.vars_wf(),
        0 <= col < s.non_basic_vars@.len(),
        forall|v: int|
            0 <= v < s.total() ==> #[trigger] terms(v) == w(v) * along(
                s,
                coeffs,
                s.non_basic_vars@[col] as int,
            )(v),
        forall|r: int|
            0 <= r < s.basic_vars@.len() ==> #[trigger] basic_terms(r) == w(
                s.basic_vars@[r] as int,
            ) * coeffs.value(r).val(),
    ensures
        sum(terms, s.total() as nat) == w(s.non_basic_vars@[col] as int) - sum(
            basic_terms,
            s.basic_vars@.len(),
        ),
{
    let e = s.non_basic_vars@[col] as int;
    let (m, n) = (s.basic_vars@.len(), s.non_basic_vars@.len());
    s.split(terms);
    let f = over(terms, s.basic_vars@);
    assert forall|r: int| 0 <= r < m implies #[trigger] f(r) == (-1 as real) * basic_terms(r) by {
        let v = s.basic_vars@[r] as int;
        assert(s.basic_vars_inv@[v] == r);
        assert(terms(v) == w(v) * along(s, coeffs, e)(v));
        let (p, q) = (w(v), coeffs.value(r).val());
        assert(p * (-q) == (-1 as real) * (p * q)) by (nonlinear_arith);
    }
    sum_times(-1 as real, basic_terms, f, m);
    let g = over(terms, s.non_basic_vars@);
    assert forall|c: int| 0 <= c < n && c != col implies #[trigger] g(c) == 0 as real by {
        let v = s.non_basic_vars@[c] as int;
        assert(s.non_basic_vars_inv@[v] == c);
        assert(s.non_basic_vars_inv@[e] == col);
        assert((s.basic_vars_inv@[v] == SENTINEL) != (s.non_basic_vars_inv@[v] == SENTINEL));
        assert(terms(v) == w(v) * along(s, coeffs, e)(v));
        times_zero(w(v));
    }
    sum_single(g, n, col);
    assert(s.non_basic_vars_inv@[e] == col);
    assert((s.basic_vars_inv@[e] == SENTINEL) != (s.non_basic_vars_inv@[e] == SENTINEL));
    assert(terms(e) == w(e) * along(s, coeffs, e)(e));
    times_zero(w(e));
    assert(g(col) == terms(e));
    let t = sum(basic_terms, m);
    assert((-1 as real) * t == -t) by (nonlinear_arith);
}

/// The constraints do not notice the move.
pub proof fn along_keeps_constraints<T: Scalar>(
    s: Solver<T>,
    coeffs: SparseVec<T>,
    col: int,
    step: real,
    x: spec_fn(int) -> real,
    z: spec_fn(int) -> real,
)
    requires
        s.data_wf(),
        s.vars_wf(),
        0 <= col < s.non_basic_vars@.len(),
        expresses(
            s.orig_constraints_csc,
            s.basic_vars@,
            coeffs,
            s.non_basic_vars@[col] as int,
        ),
        on_constraints(s, x),
        forall|v: int|
            0 <= v < s.total() ==> #[trigger] z(v) == x(v) + step * along(
                s,
                coeffs,
                s.non_basic_vars@[col] as int,
            )(v),
    ensures
        on_constraints(s, z),
{
    let mat = s.orig_constraints_csc;
    let e = s.non_basic_vars@[col] as int;
    let a = along(s, coeffs, e);
    let total = s.total() as nat;
    assert forall|i: int| 0 <= i < s.m() implies sum(lhs_terms(mat, z, i), total) == (
    #[trigger] s.orig_bounds@[i]).val() by {
        let w = |v: int| mat.line(v, i).val();
        let terms = lhs_terms(mat, a, i);
        sum_along(s, coeffs, col, w, terms, coeff_row_terms(mat, s.basic_vars@, coeffs, i));
        assert(sum(coeff_row_terms(mat, s.basic_vars@, coeffs, i), s.basic_vars@.len())
            == mat.line(e, i).val());
        assert(sum(terms, total) == 0 as real);
        let f = lhs_terms(mat, x, i);
        let g = |v: int| step * terms(v);
        let h = lhs_terms(mat, z, i);
        assert forall|v: int| 0 <= v < total implies #[trigger] h(v) == f(v) + g(v) by {
            assert(z(v) == x(v) + step * a(v));
            let (p, q, t) = (w(v), x(v), a(v));
            assert(p * (q + step * t) == p * q + step * (p * t)) by (nonlinear_arith);
        }
        sum_plus(f, g, h, total);
        sum_times(step, terms, g, total);
        times_zero(step);
        assert(sum(f, total) == s.orig_bounds@[i].val());
    }
}

/// The numbers of the vertex are finite.
pub open spec fn finite_vertex<T: Scalar>(s: Solver<T>) -> bool {
    &&& finite_items(s.cur_bounds@)
    &&& finite_items(s.non_basic_vals@)
    &&& finite_items(s.cur_obj@)
    &&& s.cur_obj_val.finite()
}

/// What a change has to fit: `coeffs` of the solver express the column that enters, and the
/// values are those that the move leads to.
pub open spec fn fitting<T: Scalar>(s: Solver<T>, info: PivotInfo<T>) -> bool {
    let col = info.col as int;
    &&& col < s.non_basic_vars@.len()
    &&& expresses(
        s.orig_constraints_csc,
        s.basic_vars@,
        s.col_coeffs,
        s.non_basic_vars@[col] as int,
    )
    &&& finite_items(s.col_coeffs.values@)
    &&& info.entering_diff.finite()
    &&& info.entering_new_val.val() == s.non_basic_vals@[col].val() + info.entering_diff.val()
    &&& info.elem matches Some(elem) ==> {
        let row = elem.row as int;
        &&& row < s.m()
        &&& s.col_coeffs.stores(row)
        &&& elem.coeff.finite()
        &&& elem.coeff.val() == s.col_coeffs.value(row).val()
        &&& elem.coeff.val() != 0 as real
        &&& elem.leaving_new_val.val() == s.cur_bounds@[row].val() - info.entering_diff.val()
            * elem.coeff.val()
    }
}

/// The values after a change are those before, moved along with the entering variable.
pub proof fn pivot_moves<T: Scalar>(s: Solver<T>, after: Solver<T>, info: PivotInfo<T>)
    requires
        exact::<T>(),
        s.wf(),
        after.wf(),
        finite_vertex(after),
        fitting(s, info),
        vertex_moved(s, after, info),
    ensures
        forall|v: int|
            0 <= v < s.total() ==> #[trigger] after.point()(v) == s.point()(v)
                + info.entering_diff.val() * along(
                s,
                s.col_coeffs,
                s.non_basic_vars@[info.col as int] as int,
            )(v),
{
    let col = info.col as int;
    let e = s.non_basic_vars@[col] as int;
    let a = along(s, s.col_coeffs, e);
    let step = info.entering_diff.val();
    assert forall|v: int| 0 <= v < s.total() implies #[trigger] after.point()(v) == s.point()(v)
        + step * a(v) by {
        times_zero(step);
        assert((s.basic_vars_inv@[v] == SENTINEL) != (s.non_basic_vars_inv@[v] == SENTINEL));
        assert((after.basic_vars_inv@[v] == SENTINEL) != (after.non_basic_vars_inv@[v]
            == SENTINEL));
        if s.basic_vars_inv@[v] != SENTINEL {
            let r = s.basic_vars_inv@[v] as int;
            assert(s.basic_vars@[r] == v);
            assert(after.cur_bounds@[r] == crate::pivot::moved_bound(s, info, r));
            assert(after.cur_bounds@[r].finite());
            let d = s.col_coeffs.value(r).val();
            assert(step * (-d) == -(step * d)) by (nonlinear_arith);
            if info.elem is Some && info.elem->0.row == r {
                assert(after.non_basic_vars@[col] == v);
                assert(after.non_basic_vars_inv@[v] == col);
                assert(after.non_basic_vals@[col] == info.elem->0.leaving_new_val);
            } else {
                assert(after.basic_vars@[r] == v);
                assert(after.basic_vars_inv@[v] == r);
            }
        } else {
            let c = s.non_basic_vars_inv@[v] as int;
            assert(s.non_basic_vars@[c] == v);
            assert(s.non_basic_vars_inv@[e] == col);
            if c == col && info.elem is Some {
                let row = info.elem->0.row as int;
                assert(after.basic_vars@[row] == v);
                assert(after.basic_vars_inv@[v] == row);
                assert(after.cur_bounds@[row] == crate::pivot::moved_bound(s, info, row));
            } else {
                assert(after.non_basic_vars@[c] == v);
                assert(after.non_basic_vars_inv@[v] == c);
            }
        }
    }
}

/// The terms of the product of the column of the variable `v` and the multipliers.
pub open spec fn price_terms<T: Scalar>(
    mat: CsMat<T>,
    v: int,
    y: Seq<real>,
) -> spec_fn(int) -> real {
    |i: int| mat.line(v, i).val() * y[i]
}

pub open spec fn price<T: Scalar>(mat: CsMat<T>, v: int, y: Seq<real>) -> real {
    sum(price_terms(mat, v, y), y.len())
}

impl<T: Scalar> Solver<T> {
    /// The coefficient of a variable in the objective that is maximised: the negated objective
    /// of the program or, as long as there are artificial variables, minus their sum.
    pub open spec fn cost(self, v: int) -> real {
        if self.num_artificial_vars == 0 {
            self.orig_obj@[v].val()
        } else if v >= self.num_vars + self.num_slack_vars {
            -1 as real
        } else {
            0 as real
        }
    }

    pub open spec fn worth_terms(self, x: spec_fn(int) -> real) -> spec_fn(int) -> real {
        |v: int| self.cost(v) * x(v)
    }

    /// What a point is worth.
    pub open spec fn worth(self, x: spec_fn(int) -> real) -> real {
        sum(self.worth_terms(x), self.total() as nat)
    }

    /// With the multipliers `y` of the constraints, the basic variables cost nothing, and the
    /// others their reduced cost.
    pub open spec fn priced(self, y: Seq<real>) -> bool {
        let mat = self.orig_constraints_csc;
        &&& y.len() == self.m()
        &&& forall|r: int|
            0 <= r < self.m() ==> self.cost(#[trigger] self.basic_vars@[r] as int) == price(
                mat,
                self.basic_vars@[r] as int,
                y,
            )
        &&& forall|c: int|
            0 <= c < self.cur_obj@.len() ==> (#[trigger] self.cur_obj@[c]).val() == self.cost(
                self.non_basic_vars@[c] as int,
            ) - price(mat, self.non_basic_vars@[c] as int, y)
    }
}

/// The price of the columns that express another one.
proof fn price_expressed<T: Scalar>(
    s: Solver<T>,
    coeffs: SparseVec<T>,
    e: int,
    y: Seq<real>,
    basic_terms: spec_fn(int) -> real,
)
    requires
        s.data_wf(),
        s.vars_wf(),
        expresses(s.orig_constraints_csc, s.basic_vars@, coeffs, e),
        y.len() == s.m(),
        forall|r: int|
            0 <= r < s.m() ==> #[trigger] basic_terms(r) == price(
                s.orig_constraints_csc,
                s.basic_vars@[r] as int,
                y,
            ) * coeffs.value(r).val(),
    ensures
        sum(basic_terms, s.m() as nat) == price(s.orig_constraints_csc, e, y),
{
    let mat = s.orig_constraints_csc;
    let basic = s.basic_vars@;
    let m = s.m() as nat;
    let f = |i: int, r: int| (mat.line(basic[r] as int, i).val() * coeffs.value(r).val()) * y[i];
    let left = price_terms(mat, e, y);
    let rows = |i: int| sum(|r: int| f(i, r), m);
    assert forall|i: int| 0 <= i < m implies #[trigger] left(i) == rows(i) by {
        let t = coeff_row_terms(mat, basic, coeffs, i);
        let g = |r: int| f(i, r);
        assert(sum(t, m) == mat.line(e, i).val());
        assert forall|r: int| 0 <= r < m implies #[trigger] g(r) == y[i] * t(r) by {
            let (p, q) = (t(r), y[i]);
            assert(p * q == q * p) by (nonlinear_arith);
        }
        sum_times(y[i], t, g, m);
        let (p, q) = (sum(t, m), y[i]);
        assert(p * q == q * p) by (nonlinear_arith);
    }
    sum_same(left, rows, m);
    sum_swap(f, m, m);
    let cols = |r: int| sum(|i: int| f(i, r), m);
    assert forall|r: int| 0 <= r < m implies #[trigger] cols(r) == basic_terms(r) by {
        let t = price_terms(mat, basic[r] as int, y);
        let g = |i: int| f(i, r);
        let d = coeffs.value(r).val();
        assert forall|i: int| 0 <= i < m implies #[trigger] g(i) == d * t(i) by {
            let (p, q) = (mat.line(basic[r] as int, i).val(), y[i]);
            assert((p * d) * q == d * (p * q)) by (nonlinear_arith);
        }
        sum_times(d, t, g, m);
        let p = sum(t, m);
        assert(d * p == p * d) by (nonlinear_arith);
    }
    sum_same(cols, basic_terms, m);
}

/// Along with the entering variable the worth changes at the rate of its reduced cost.
pub proof fn along_is_worth<T: Scalar>(
    s: Solver<T>,
    coeffs: SparseVec<T>,
    col: int,
    step: real,
    x: spec_fn(int) -> real,
    z: spec_fn(int) -> real,
    y: Seq<real>,
)
    requires
        s.data_wf(),
        s.vars_wf(),
        s.cur_obj@.len() == s.non_basic_vars@.len(),
        0 <= col < s.non_basic_vars@.len(),
        expresses(
            s.orig_constraints_csc,
            s.basic_vars@,
            coeffs,
            s.non_basic_vars@[col] as int,
        ),
        s.priced(y),
        forall|v: int|
            0 <= v < s.total() ==> #[trigger] z(v) == x(v) + step * along(
                s,
                coeffs,
                s.non_basic_vars@[col] as int,
            )(v),
    ensures
        s.worth(z) == s.worth(x) + step * s.cur_obj@[col].val(),
{
    let mat = s.orig_constraints_csc;
    let e = s.non_basic_vars@[col] as int;
    let a = along(s, coeffs, e);
    let total = s.total() as nat;
    let w = |v: int| s.cost(v);
    let terms = s.worth_terms(a);
    let basic_terms = |r: int| s.cost(s.basic_vars@[r] as int) * coeffs.value(r).val();
    sum_along(s, coeffs, col, w, terms, basic_terms);
    assert forall|r: int| 0 <= r < s.m() implies #[trigger] basic_terms(r) == price(
        mat,
        s.basic_vars@[r] as int,
        y,
    ) * coeffs.value(r).val() by {
        assert(s.cost(s.basic_vars@[r] as int) == price(mat, s.basic_vars@[r] as int, y));
    }
    price_expressed(s, coeffs, e, y, basic_terms);
    assert(s.cur_obj@[col].val() == s.cost(e) - price(mat, e, y));
    let f = s.worth_terms(x);
    let g = |v: int| step * terms(v);
    let h = s.worth_terms(z);
    assert forall|v: int| 0 <= v < total implies #[trigger] h(v) == f(v) + g(v) by {
        assert(z(v) == x(v) + step * a(v));
        let (p, q, t) = (w(v), x(v), a(v));
        assert(p * (q + step * t) == p * q + step * (p * t)) by (nonlinear_arith);
    }
    sum_plus(f, g, h, total);
    sum_times(step, terms, g, total);
}

/// The multipliers after a change: a multiple of the pivot row of the inverse is added.
pub open spec fn shifted_multipliers<T: Scalar>(
    y: Seq<real>,
    theta: real,
    rho: Seq<T>,
) -> Seq<real> {
    Seq::new(y.len(), |i: int| y[i] + theta * rho[i].val())
}

proof fn shifted_price<T: Scalar>(
    mat: CsMat<T>,
    v: int,
    y: Seq<real>,
    theta: real,
    rho: Seq<T>,
)
    ensures
        price(mat, v, shifted_multipliers(y, theta, rho)) == price(mat, v, y) + theta * sum(
            col_terms(mat, v, rho),
            y.len(),
        ),
{
    let f = price_terms(mat, v, y);
    let t = col_terms(mat, v, rho);
    let g = |i: int| theta * t(i);
    let h = price_terms(mat, v, shifted_multipliers(y, theta, rho));
    let n = y.len();
    assert forall|i: int| 0 <= i < n implies #[trigger] h(i) == f(i) + g(i) by {
        let (p, q, r) = (mat.line(v, i).val(), y[i], rho[i].val());
        assert(p * (q + theta * r) == p * q + theta * (p * r)) by (nonlinear_arith);
    }
    sum_plus(f, g, h, n);
    sum_times(theta, t, g, n);
}

/// The reduced costs after a change belong to the new basis.
pub proof fn pivot_prices<T: Scalar>(
    s: Solver<T>,
    after: Solver<T>,
    info: PivotInfo<T>,
    y: Seq<real>,
    rho: Seq<T>,
)
    requires
        exact::<T>(),
        s.wf(),
        after.wf(),
        finite_vertex(s),
        finite_vertex(after),
        fitting(s, info),
        vertex_moved(s, after, info),
        s.priced(y),
        info.elem matches Some(elem) ==> row_of_inverse(
            s.orig_constraints_csc,
            s.basic_vars@,
            s.non_basic_vars@,
            elem.row as int,
            rho,
            s.row_coeffs.values@,
        ),
    ensures
        exists|w: Seq<real>| after.priced(w),
{
    let mat = s.orig_constraints_csc;
    let col = info.col as int;
    let basic = s.basic_vars@;
    let rest = s.non_basic_vars@;
    if info.elem is None {
        assert forall|r: int| 0 <= r < after.m() implies after.cost(
            #[trigger] after.basic_vars@[r] as int,
        ) == price(mat, after.basic_vars@[r] as int, y) by {
            assert(s.cost(basic[r] as int) == price(mat, basic[r] as int, y));
        }
        assert forall|c: int| 0 <= c < after.cur_obj@.len() implies (
        #[trigger] after.cur_obj@[c]).val() == after.cost(after.non_basic_vars@[c] as int) - price(
            mat,
            after.non_basic_vars@[c] as int,
            y,
        ) by {
            assert(s.cur_obj@[c].val() == s.cost(rest[c] as int) - price(mat, rest[c] as int, y));
        }
        assert(after.priced(y));
    } else {
        let elem = info.elem->0;
        let row = elem.row as int;
        let theta = s.cur_obj@[col].val() / elem.coeff.val();
        let w = shifted_multipliers(y, theta, rho);
        let alpha = s.row_coeffs.values@;
        let pivot_obj = s.cur_obj@[col].over_spec(elem.coeff);
        let unit = unit_vec::<T>(row, mat.nrows as int);
        row_meets_col(mat, basic, rest, row, rho, alpha, s.col_coeffs, col);
        assert(alpha[col].val() == elem.coeff.val());
        let (o, k) = (s.cur_obj@[col].val(), elem.coeff.val());
        assert((o / k) * k == o) by (nonlinear_arith)
            requires
                k != 0 as real,
        ;
        // the row has an entry in the pivot column
        assert(s.row_coeffs.is_nonzero@[col]) by {
            if !s.row_coeffs.is_nonzero@[col] {
                assert(is_zero(s.row_coeffs.values@[col]));
            }
        }
        assert(after.cur_obj@[col] == pivot_obj.negated_spec());
        assert(after.cur_obj@[col].finite());
        assert(pivot_obj.finite() && pivot_obj.val() == theta);
        assert forall|r: int| 0 <= r < s.m() implies price(mat, #[trigger] basic[r] as int, w)
            == s.cost(basic[r] as int) + theta * unit[r].val() by {
            shifted_price(mat, basic[r] as int, y, theta, rho);
            assert(sum(col_terms(mat, basic[r] as int, rho), mat.nrows as nat) == unit[r].val());
            assert(s.cost(basic[r] as int) == price(mat, basic[r] as int, y));
        }
        assert forall|c: int| 0 <= c < rest.len() implies s.cost(#[trigger] rest[c] as int) - price(
            mat,
            rest[c] as int,
            w,
        ) == s.cur_obj@[c].val() - theta * alpha[c].val() by {
            shifted_price(mat, rest[c] as int, y, theta, rho);
            assert(alpha[c].val() == sum(col_terms(mat, rest[c] as int, rho), mat.nrows as nat));
            assert(s.cur_obj@[c].val() == s.cost(rest[c] as int) - price(mat, rest[c] as int, y));
        }
        times_zero(theta);
        assert forall|r: int| 0 <= r < after.m() implies after.cost(
            #[trigger] after.basic_vars@[r] as int,
        ) == price(mat, after.basic_vars@[r] as int, w) by {
            if r == row {
                assert(after.basic_vars@[r] == rest[col]);
                assert(s.cost(rest[col] as int) - price(mat, rest[col] as int, w) == s.cur_obj@[col].val()
                    - theta * alpha[col].val());
            } else {
                assert(after.basic_vars@[r] == basic[r]);
                assert(price(mat, basic[r] as int, w) == s.cost(basic[r] as int) + theta
                    * unit[r].val());
            }
        }
        assert forall|c: int| 0 <= c < after.cur_obj@.len() implies (
        #[trigger] after.cur_obj@[c]).val() == after.cost(after.non_basic_vars@[c] as int) - price(
            mat,
            after.non_basic_vars@[c] as int,
            w,
        ) by {
            assert(after.cur_obj@[c].finite());
            if c == col {
                assert(after.non_basic_vars@[c] == basic[row]);
                assert(price(mat, basic[row] as int, w) == s.cost(basic[row] as int) + theta
                    * unit[row].val());
            } else {
                assert(after.non_basic_vars@[c] == rest[c]);
                assert(s.cost(rest[c] as int) - price(mat, rest[c] as int, w) == s.cur_obj@[c].val()
                    - theta * alpha[c].val());
                if !s.row_coeffs.is_nonzero@[c] {
                    assert(is_zero(s.row_coeffs.values@[c]));
                }
            }
        }
        assert(after.priced(w));
    }
}

/// The factors and elementary matrices of the solver are those of its basis.
pub open spec fn basis_kept<T: Scalar>(s: Solver<T>) -> bool {
    s.basis_solver.represents(s.orig_constraints_csc, s.basic_vars@)
}

/// The numbers that a change of the basis leaves behind are finite.
pub open spec fn finite_basis<T: Scalar>(s: Solver<T>) -> bool {
    &&& finite_items(s.eta_matrix_coeffs.values@)
    &&& all_finite(s.basis_solver.lu_factors.lower)
    &&& all_finite(s.basis_solver.lu_factors.upper)
}

/// Factors of the columns represent them.
pub proof fn fresh_basis<T: Scalar>(bs: BasisSolver<T>, mat: CsMat<T>, basic: Seq<usize>)
    requires
        bs.lu_factors.multiplies_to(mat, basic),
        bs.lu_factors.dim() == basic.len(),
        mat.nrows == basic.len(),
        bs.eta_matrices.leaving_rows@.len() == 0,
        all_finite(bs.lu_factors.lower),
        all_finite(bs.lu_factors.upper),
    ensures
        bs.represents(mat, basic),
{
    let bases = seq![basic];
    assert(bs.chain(mat, bases));
    assert(bases.last() == basic);
}

/// The coefficients of the elementary matrix express the column that leaves.
pub proof fn eta_expresses<T: Scalar>(
    s: Solver<T>,
    eta: SparseVec<T>,
    info: PivotInfo<T>,
    i: int,
    terms: spec_fn(int) -> real,
)
    requires
        exact::<T>(),
        s.wf(),
        fitting(s, info),
        info.elem is Some,
        eta_coeffs_of(s.col_coeffs, info.elem->0.row as int, info.elem->0.coeff, eta),
        finite_items(eta.values@),
        0 <= i < s.m(),
        forall|c: int|
            0 <= c < s.m() ==> #[trigger] terms(c) == s.orig_constraints_csc.line(
                s.basic_vars@.update(
                    info.elem->0.row as int,
                    s.non_basic_vars@[info.col as int],
                )[c] as int,
                i,
            ).val() * eta.value(c).val(),
    ensures
        s.orig_constraints_csc.line(s.basic_vars@[info.elem->0.row as int] as int, i).val()
            == s.orig_constraints_csc.line(s.non_basic_vars@[info.col as int] as int, i).val()
            - sum(terms, s.m() as nat),
        eta.value(info.elem->0.row as int).val() != 1 as real,
{
    let mat = s.orig_constraints_csc;
    let basic = s.basic_vars@;
    let elem = info.elem->0;
    let row = elem.row as int;
    let e = s.non_basic_vars@[info.col as int] as int;
    let m = s.m() as nat;
    let k = elem.coeff.val();
    let f = coeff_row_terms(mat, basic, s.col_coeffs, i);
    assert(sum(f, m) == mat.line(e, i).val());
    let g = |c: int| (1 as real / k) * f(c);
    sum_times(1 as real / k, f, g, m);
    assert forall|c: int| 0 <= c < m implies (#[trigger] eta.value(c)).val() == if c == row {
        (s.col_coeffs.value(c).val() - 1 as real) / k
    } else {
        s.col_coeffs.value(c).val() / k
    } by {
        let idx = s.col_coeffs.indices@;
        if s.col_coeffs.stores(c) {
            let p = place(idx, 0, idx.len() as int, c);
            assert(idx[p] == c);
            assert(eta.values@[p].finite());
        } else {
            assert((0 as real) / k == 0 as real) by (nonlinear_arith)
                requires
                    k != 0 as real,
            ;
        }
    }
    let d = s.col_coeffs.value(row).val();
    assert(d == k);
    assert((k - 1 as real) / k == 1 as real - 1 as real / k && 1 as real / k != 0 as real)
        by (nonlinear_arith)
        requires
            k != 0 as real,
    ;
    assert(eta.value(row).val() == 1 as real - 1 as real / k);
    assert forall|c: int| 0 <= c < m && c != row implies #[trigger] g(c) == terms(c) by {
        let (p, q) = (mat.line(basic[c] as int, i).val(), s.col_coeffs.value(c).val());
        assert((1 as real / k) * (p * q) == p * (q / k)) by (nonlinear_arith)
            requires
                k != 0 as real,
        ;
        assert(eta.value(c).val() == q / k);
    }
    sum_but_one(g, terms, m, row);
    let (b, n) = (mat.line(basic[row] as int, i).val(), mat.line(e, i).val());
    assert((1 as real / k) * n + n * (1 as real - 1 as real / k) - (1 as real / k) * (b * k) == n
        - b) by (nonlinear_arith)
        requires
            k != 0 as real,
    ;
    assert(terms(row) == n * eta.value(row).val());
    assert(g(row) == (1 as real / k) * (b * d));
}

/// A change keeps the basis represented.
pub proof fn pivot_keeps_basis<T: Scalar>(s: Solver<T>, after: Solver<T>, info: PivotInfo<T>)
    requires
        exact::<T>(),
        s.wf(),
        after.wf(),
        fitting(s, info),
        vertex_moved(s, after, info),
        match info.elem {
            Some(elem) => basis_moved(s, after, elem.row, Ok(())) && finite_basis(after),
            None => true,
        },
        basis_kept(s),
    ensures
        basis_kept(after),
{
    let mat = s.orig_constraints_csc;
    if info.elem is Some {
        let elem = info.elem->0;
        let row = elem.row as int;
        let old_basis = s.basis_solver;
        let new_basis = after.basis_solver;
        let etas = old_basis.eta_matrices;
        let etas2 = new_basis.eta_matrices;
        if etas2.leaving_rows@.len() == 0 {
            fresh_basis(new_basis, mat, after.basic_vars@);
        } else {
            let bases = choose|bases: Seq<Seq<usize>>| #[trigger]
                old_basis.chain(mat, bases) && bases.last() == s.basic_vars@;
            let bases2 = bases.push(after.basic_vars@);
            let last = etas.leaving_rows@.len() as int;
            assert forall|k: int| 0 <= k < bases2.len() implies (#[trigger] bases2[k]).len()
                == new_basis.lu_factors.dim() by {
                if k < bases.len() {
                    assert(bases[k].len() == old_basis.lu_factors.dim());
                }
            }
            assert forall|k: int| 0 <= k < bases2.len() - 1 implies #[trigger] basis_change(
                mat,
                etas2,
                bases2,
                k,
            ) by {
                if k < last {
                    assert(basis_change(mat, etas, bases, k));
                    let r = etas.leaving_rows@[k] as int;
                    assert(etas2.leaving_rows@[k] == r);
                    assert(bases2[k] == bases[k] && bases2[k + 1] == bases[k + 1]);
                    assert(etas2.coeff_cols.entry(r, k) == etas.coeff_cols.entry(r, k));
                    assert forall|i: int| 0 <= i < mat.nrows implies (
                    #[trigger] mat.line(bases2[k][r] as int, i)).val() == mat.line(
                        bases2[k + 1][r] as int,
                        i,
                    ).val() - sum(eta_terms(mat, bases2[k + 1], etas2, k, i), bases2[k].len()) by {
                        let f = eta_terms(mat, bases[k + 1], etas, k, i);
                        let g = eta_terms(mat, bases2[k + 1], etas2, k, i);
                        assert forall|c: int| 0 <= c < bases[k].len() implies #[trigger] f(c) == g(
                            c,
                        ) by {
                            assert(etas2.coeff_cols.entry(c, k) == etas.coeff_cols.entry(c, k));
                        }
                        sum_same(f, g, bases[k].len());
                        assert(mat.line(bases[k][r] as int, i).val() == mat.line(
                            bases[k + 1][r] as int,
                            i,
                        ).val() - sum(f, bases[k].len()));
                    }
                } else {
                    assert(bases2[k] == s.basic_vars@);
                    assert(bases2[k + 1] == after.basic_vars@);
                    assert(etas2.leaving_rows@[k] == row);
                    assert(etas2.coeff_cols.entry(row, k) == after.eta_matrix_coeffs.value(row));
                    assert forall|i: int| 0 <= i < mat.nrows implies (
                    #[trigger] mat.line(bases2[k][row] as int, i)).val() == mat.line(
                        bases2[k + 1][row] as int,
                        i,
                    ).val() - sum(eta_terms(mat, bases2[k + 1], etas2, k, i), bases2[k].len()) by {
                        let f = eta_terms(mat, bases2[k + 1], etas2, k, i);
                        assert forall|c: int| 0 <= c < s.m() implies #[trigger] f(c) == mat.line(
                            after.basic_vars@[c] as int,
                            i,
                        ).val() * after.eta_matrix_coeffs.value(c).val() by {
                            assert(etas2.coeff_cols.entry(c, last)
                                == after.eta_matrix_coeffs.value(c));
                        }
                        eta_expresses(s, after.eta_matrix_coeffs, info, i, f);
                    }
                    if s.m() > 0 {
                        let f = eta_terms(mat, bases2[k + 1], etas2, k, 0);
                        assert forall|c: int| 0 <= c < s.m() implies #[trigger] f(c) == mat.line(
                            after.basic_vars@[c] as int,
                            0,
                        ).val() * after.eta_matrix_coeffs.value(c).val() by {
                            assert(etas2.coeff_cols.entry(c, last)
                                == after.eta_matrix_coeffs.value(c));
                        }
                        eta_expresses(s, after.eta_matrix_coeffs, info, 0, f);
                    }
                }
            }
            assert(new_basis.chain(mat, bases2));
            assert(bases2.last() == after.basic_vars@);
        }
    }
}

/// The non-basic variable in column `c` is at one of its limits, or set to its value.
pub open spec fn at_limit<T: Scalar>(s: Solver<T>, c: int) -> bool {
    let v = s.non_basic_vars@[c];
    let x = s.non_basic_vals@[c].val();
    let (min, max) = (s.orig_var_mins@[v as int], s.orig_var_maxs@[v as int]);
    if s.set_vars@.contains_key(v) {
        x == s.set_vars@[v].val()
    } else {
        min.finite() && x == min.val() || max.finite() && x == max.val()
    }
}

/// The variables that are set are not basic.
pub open spec fn sets_outside<T: Scalar>(s: Solver<T>) -> bool {
    forall|r: int|
        0 <= r < s.basic_vars@.len() ==> !s.set_vars@.contains_key(#[trigger] s.basic_vars@[r])
}

/// The parts of the solver agree: the vertex lies on the constraints, with the non-basic
/// variables at their limits; the factors are those of the basis, the reduced costs those of the
/// objective, and the objective value is that of the point.
pub open spec fn consistent<T: Scalar>(s: Solver<T>) -> bool {
    &&& s.wf()
    &&& finite_vertex(s)
    &&& basis_kept(s)
    &&& on_constraints(s, s.point())
    &&& exists|y: Seq<real>| s.priced(y)
    &&& s.cur_obj_val.val() == -s.worth(s.point())
    &&& forall|c: int| 0 <= c < s.non_basic_vars@.len() ==> #[trigger] at_limit(s, c)
}

/// What every vertex keeps.
pub open spec fn sound<T: Scalar>(s: Solver<T>) -> bool {
    consistent(s) && sets_outside(s)
}

/// A change that fits keeps all of it.
pub proof fn pivot_keeps<T: Scalar>(
    s: Solver<T>,
    after: Solver<T>,
    info: PivotInfo<T>,
    rho: Seq<T>,
)
    requires
        exact::<T>(),
        consistent(s),
        forall|r: int|
            0 <= r < s.basic_vars@.len() && !(info.elem matches Some(elem) && elem.row == r)
                ==> !s.set_vars@.contains_key(#[trigger] s.basic_vars@[r]),
        after.wf(),
        finite_vertex(after),
        fitting(s, info),
        vertex_moved(s, after, info),
        match info.elem {
            Some(elem) => {
                &&& finite_basis(after)
                &&& basis_moved(s, after, elem.row, Ok(()))
                &&& row_of_inverse(
                    s.orig_constraints_csc,
                    s.basic_vars@,
                    s.non_basic_vars@,
                    elem.row as int,
                    rho,
                    s.row_coeffs.values@,
                )
                &&& !s.set_vars@.contains_key(s.non_basic_vars@[info.col as int])
            },
            None => true,
        },
        at_limit(after, info.col as int),
    ensures
        sound(after),
{
    let col = info.col as int;
    let e = s.non_basic_vars@[col] as int;
    let mat = s.orig_constraints_csc;
    let step = info.entering_diff.val();
    let (x, z) = (s.point(), after.point());
    let y = choose|y: Seq<real>| s.priced(y);
    pivot_moves(s, after, info);
    pivot_keeps_basis(s, after, info);
    pivot_prices(s, after, info, y, rho);
    along_keeps_constraints(s, s.col_coeffs, col, step, x, z);
    assert forall|i: int| 0 <= i < after.m() implies sum(
        lhs_terms(after.orig_constraints_csc, z, i),
        after.total() as nat,
    ) == (#[trigger] after.orig_bounds@[i]).val() by {
        assert(s.orig_bounds@[i].val() == after.orig_bounds@[i].val());
    }
    along_is_worth(s, s.col_coeffs, col, step, x, z, y);
    sum_same(s.worth_terms(z), after.worth_terms(z), s.total() as nat);
    let (p, q) = (s.cur_obj@[col].val(), step);
    assert(p * q == q * p) by (nonlinear_arith);
    assert forall|c: int| 0 <= c < after.non_basic_vars@.len() implies #[trigger] at_limit(
        after,
        c,
    ) by {
        if c != col {
            assert(at_limit(s, c));
        }
    }
    assert forall|r: int| 0 <= r < after.basic_vars@.len() implies !after.set_vars@.contains_key(
        #[trigger] after.basic_vars@[r],
    ) by {
        if !(info.elem is Some && info.elem->0.row == r) {
            assert(!s.set_vars@.contains_key(s.basic_vars@[r]));
        }
    }
}

/// What is kept depends on the program, the vertex and the basis alone.
pub proof fn consistent_elsewhere<T: Scalar>(s: Solver<T>, t: Solver<T>)
    requires
        consistent(s),
        t.wf(),
        t.same_program(s),
        t.same_vertex(s),
        t.basis_solver.same_basis(s.basis_solver),
    ensures
        consistent(t),
{
    let mat = s.orig_constraints_csc;
    let bases = choose|bases: Seq<Seq<usize>>| #[trigger]
        s.basis_solver.chain(mat, bases) && bases.last() == s.basic_vars@;
    assert(t.basis_solver.chain(mat, bases));
    assert forall|v: int| #[trigger] s.point()(v) == t.point()(v) by {}
    assert forall|i: int| 0 <= i < t.m() implies sum(
        lhs_terms(t.orig_constraints_csc, t.point(), i),
        t.total() as nat,
    ) == (#[trigger] t.orig_bounds@[i]).val() by {
        let f = lhs_terms(mat, s.point(), i);
        let g = lhs_terms(mat, t.point(), i);
        assert forall|v: int| 0 <= v < s.total() implies #[trigger] f(v) == g(v) by {
            assert(s.point()(v) == t.point()(v));
        }
        sum_same(f, g, s.total() as nat);
        assert(s.orig_bounds@[i].val() == t.orig_bounds@[i].val());
    }
    let f = s.worth_terms(s.point());
    let g = t.worth_terms(t.point());
    assert forall|v: int| 0 <= v < s.total() implies #[trigger] f(v) == g(v) by {
        assert(s.point()(v) == t.point()(v));
    }
    sum_same(f, g, s.total() as nat);
    let y = choose|y: Seq<real>| s.priced(y);
    assert forall|r: int| 0 <= r < t.m() implies t.cost(#[trigger] t.basic_vars@[r] as int)
        == price(mat, t.basic_vars@[r] as int, y) by {
        assert(s.cost(s.basic_vars@[r] as int) == price(mat, s.basic_vars@[r] as int, y));
    }
    assert forall|c: int| 0 <= c < t.cur_obj@.len() implies (#[trigger] t.cur_obj@[c]).val()
        == t.cost(t.non_basic_vars@[c] as int) - price(mat, t.non_basic_vars@[c] as int, y) by {
        assert(s.cur_obj@[c].val() == s.cost(s.non_basic_vars@[c] as int) - price(
            mat,
            s.non_basic_vars@[c] as int,
            y,
        ));
    }
    assert(t.priced(y));
    assert forall|c: int| 0 <= c < t.non_basic_vars@.len() implies #[trigger] at_limit(t, c) by {
        assert(at_limit(s, c));
    }
}

} // verus!
