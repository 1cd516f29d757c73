//! Cuts, where arithmetic is exact.
use crate::edits::{below_floor, cut_added, cut_by, cut_coeffs_of, extended, repaired};
use crate::error::Error;
use crate::optimum::{
    dual_terms, prices_add_up, priced_terms, signs_fit, sum_at_most, within_limits,
};
use crate::outcome::{in_order, same_in_order};
use crate::scalar::{exact, is_int, is_zero, whole, Scalar};
use crate::simplex::{row_of_inverse, unit_vec, RelOp, Solver, SENTINEL};
use crate::solve::{col_terms, finite_items};
use crate::sparse::{place, CsVec};
use crate::sums::{sum, sum_plus, sum_same, sum_single, sum_zero, times_zero};
use crate::verdicts::{
    blank_constraint_is_met_or_refused, completes, extension_completes, fair_extension,
    refused_constraint_has_no_point, repair_keeps_program, side_terms,
};
use crate::vertex::{
    consistent_elsewhere, lhs_terms, on_constraints, over, price, price_terms, sound,
};
use vstd::prelude::*;

verus! {

proof fn whole_plus(x: real, y: real)
    requires
        whole(x),
        whole(y),
    ensures
        whole(x + y),
{
    let a = choose|a: int| is_int(x, a);
    let b = choose|b: int| is_int(y, b);
    assert(is_int(x + y, a + b));
}

proof fn whole_times(x: real, y: real)
    requires
        whole(x),
        whole(y),
    ensures
        whole(x * y),
{
    let a = choose|a: int| is_int(x, a);
    let b = choose|b: int| is_int(y, b);
    assert((a * b) as real == (a as real) * (b as real)) by (nonlinear_arith);
    assert(is_int(x * y, a * b));
}

/// An integer that is at most `b` is at most the largest one.
proof fn whole_at_most(x: real, floor: real, b: real)
    requires
        whole(x),
        whole(floor),
        x <= b < floor + 1 as real,
    ensures
        x <= floor,
{
    let k = choose|k: int| is_int(x, k);
    let j = choose|j: int| is_int(floor, j);
    assert(k as real - j as real == (k - j) as real);
    assert(k - j < 1);
}

proof fn zero_floor(floor: real)
    requires
        whole(floor),
        floor <= 0 as real,
        floor + 1 as real > 0 as real,
    ensures
        floor == 0 as real,
{
    let j = choose|j: int| is_int(floor, j);
    assert(j == 0);
}

proof fn whole_sum(f: spec_fn(int) -> real, n: nat)
    requires
        forall|i: int| 0 <= i < n ==> whole(#[trigger] f(i)),
    ensures
        whole(sum(f, n)),
    decreases n,
{
    if n > 0 {
        whole_sum(f, (n - 1) as nat);
        assert(whole(f(n - 1)));
        whole_plus(sum(f, (n - 1) as nat), f(n - 1));
    } else {
        assert(is_int(0 as real, 0));
    }
}

/// The terms of a row of the inverse times the columns.
pub open spec fn row_form<T: Scalar>(
    alpha: Seq<T>,
    rest: Seq<usize>,
    z: spec_fn(int) -> real,
) -> spec_fn(int) -> real {
    |c: int| alpha[c].val() * z(rest[c] as int)
}

/// On the constraints a basic variable is given by the non-basic ones.
pub proof fn row_gives_basic<T: Scalar>(
    s: Solver<T>,
    row: int,
    rho: Seq<T>,
    alpha: Seq<T>,
    z: spec_fn(int) -> real,
    y: Seq<real>,
)
    requires
        exact::<T>(),
        s.wf(),
        0 <= row < s.m(),
        row_of_inverse(
            s.orig_constraints_csc,
            s.basic_vars@,
            s.non_basic_vars@,
            row,
            rho,
            alpha,
        ),
        y == Seq::new(s.m() as nat, |i: int| rho[i].val()),
        on_constraints(s, z),
    ensures
        z(s.basic_vars@[row] as int) + sum(
            row_form(alpha, s.non_basic_vars@, z),
            s.non_basic_vars@.len(),
        ) == sum(dual_terms(s, y), s.m() as nat),
{
    let mat = s.orig_constraints_csc;
    let (m, n) = (s.m() as nat, s.non_basic_vars@.len());
    let unit = unit_vec::<T>(row, mat.nrows as int);
    prices_add_up(s, y, z);
    let f = priced_terms(s, y, z);
    s.split(f);
    assert forall|v: int| #[trigger] price(mat, v, y) == sum(col_terms(mat, v, rho), m) by {
        sum_same(price_terms(mat, v, y), col_terms(mat, v, rho), m);
    }
    let b = over(f, s.basic_vars@);
    assert forall|r: int| 0 <= r < m && r != row implies #[trigger] b(r) == 0 as real by {
        let v = s.basic_vars@[r] as int;
        assert(unit[r].val() == 0 as real);
        assert(sum(col_terms(mat, v, rho), m) == unit[r].val());
        assert(price(mat, v, y) == sum(col_terms(mat, v, rho), m));
        times_zero(z(v));
    }
    sum_single(b, m, row);
    assert(unit[row].val() == 1 as real);
    let e = s.basic_vars@[row] as int;
    assert(price(mat, e, y) == sum(col_terms(mat, e, rho), m));
    times_zero(z(e));
    let g = over(f, s.non_basic_vars@);
    let h = row_form(alpha, s.non_basic_vars@, z);
    assert forall|c: int| 0 <= c < n implies #[trigger] g(c) == h(c) by {
        let v = s.non_basic_vars@[c] as int;
        assert(price(mat, v, y) == sum(col_terms(mat, v, rho), m));
        assert(alpha[c].val() == sum(col_terms(mat, v, rho), m));
    }
    sum_same(g, h, n);
}

/// What a cut is made from: a row of the inverse.
pub open spec fn cut_ready<T: Scalar>(
    s: Solver<T>,
    row: int,
    rho: Seq<T>,
    coeffs: CsVec<T>,
) -> bool {
    &&& sound(s)
    &&& 0 <= row < s.m()
    &&& row_of_inverse(
        s.orig_constraints_csc,
        s.basic_vars@,
        s.non_basic_vars@,
        row,
        rho,
        s.row_coeffs.values@,
    )
    &&& finite_items(s.row_coeffs.values@)
    &&& cut_coeffs_of(s, coeffs)
    &&& finite_items(coeffs.data@)
    &&& below_floor(s.cur_bounds@[row]).finite()
}

/// The terms of the left-hand side of a cut.
pub open spec fn cut_terms<T: Scalar>(
    coeffs: CsVec<T>,
    z: spec_fn(int) -> real,
) -> spec_fn(int) -> real {
    |v: int| coeffs.value(v).val() * z(v)
}

/// The terms of the non-basic variables times the floors of the coefficients of the row.
pub open spec fn floor_terms<T: Scalar>(
    alpha: Seq<T>,
    rest: Seq<usize>,
    z: spec_fn(int) -> real,
) -> spec_fn(int) -> real {
    |c: int| alpha[c].floor_spec().val() * z(rest[c] as int)
}

/// The left-hand side of a cut in terms of the row.
proof fn cut_value<T: Scalar>(
    s: Solver<T>,
    row: int,
    rho: Seq<T>,
    coeffs: CsVec<T>,
    z: spec_fn(int) -> real,
)
    requires
        exact::<T>(),
        cut_ready(s, row, rho, coeffs),
    ensures
        sum(cut_terms(coeffs, z), s.total() as nat) == sum(
            floor_terms(s.row_coeffs.values@, s.non_basic_vars@, z),
            s.non_basic_vars@.len(),
        ) - sum(
            row_form(s.row_coeffs.values@, s.non_basic_vars@, z),
            s.non_basic_vars@.len(),
        ),
{
    let alpha = s.row_coeffs.values@;
    let rest = s.non_basic_vars@;
    let (m, n) = (s.m() as nat, rest.len());
    let f = cut_terms(coeffs, z);
    s.split(f);
    let b = over(f, s.basic_vars@);
    assert forall|r: int| 0 <= r < m implies #[trigger] b(r) == 0 as real by {
        let v = s.basic_vars@[r] as int;
        assert(s.basic_vars_inv@[v] == r);
        assert((s.basic_vars_inv@[v] == SENTINEL) != (s.non_basic_vars_inv@[v] == SENTINEL));
        assert(!coeffs.stores(v));
        times_zero(z(v));
    }
    sum_zero(b, m);
    let g = over(f, rest);
    let fl = floor_terms(alpha, rest, z);
    let rf = row_form(alpha, rest, z);
    assert forall|c: int| 0 <= c < n implies #[trigger] fl(c) == g(c) + rf(c) by {
        let v = rest[c] as int;
        assert(alpha[c].finite());
        assert(s.non_basic_vars_inv@[v] == c);
        let (p, q, t) = (alpha[c].floor_spec().val(), alpha[c].val(), z(v));
        if s.row_coeffs.is_nonzero@[c] {
            assert(coeffs.stores(v));
            let idx = coeffs.indices@;
            let k = place(idx, 0, idx.len() as int, v);
            assert(coeffs.data@[k].finite());
            assert(coeffs.value(v) == below_floor(alpha[c]));
            assert(below_floor(alpha[c]).finite());
            assert(coeffs.value(v).val() == p - q);
            assert(p * t == (p - q) * t + q * t) by (nonlinear_arith);
        } else {
            assert(is_zero(s.row_coeffs.values@[c]));
            assert(!coeffs.stores(v));
            assert(q == 0 as real);
            assert(p == 0 as real) by {
                zero_floor(p);
            }
            assert(coeffs.value(v).val() == 0 as real);
            times_zero(t);
        }
    }
    sum_plus(g, rf, fl, n);
}

/// A cut spares every point on the constraints whose variables are integers, with the non-basic
/// ones not negative.
pub proof fn cut_spares_integers<T: Scalar>(
    s: Solver<T>,
    row: int,
    rho: Seq<T>,
    coeffs: CsVec<T>,
    z: spec_fn(int) -> real,
)
    requires
        exact::<T>(),
        cut_ready(s, row, rho, coeffs),
        rest_is_zero(s),
        on_constraints(s, z),
        forall|v: int| 0 <= v < s.total() ==> whole(#[trigger] z(v)),
        forall|c: int|
            0 <= c < s.non_basic_vars@.len() ==> z(#[trigger] s.non_basic_vars@[c] as int)
                >= 0 as real,
    ensures
        sum(cut_terms(coeffs, z), s.total() as nat) <= below_floor(s.cur_bounds@[row]).val(),
{
    let alpha = s.row_coeffs.values@;
    let rest = s.non_basic_vars@;
    let n = rest.len();
    let x = s.point();
    row_is_given(s, row, rho, coeffs, z);
    cut_value(s, row, rho, coeffs, z);
    let e = s.basic_vars@[row] as int;
    let b = s.cur_bounds@[row].val();
    assert(s.basic_vars_inv@[e] == row);
    assert(x(e) == b);
    let rf = row_form(alpha, rest, z);
    let fl = floor_terms(alpha, rest, z);
    assert forall|c: int| 0 <= c < n implies #[trigger] fl(c) <= rf(c) by {
        assert(alpha[c].finite());
        let (p, q, t) = (alpha[c].floor_spec().val(), alpha[c].val(), z(rest[c] as int));
        assert(p * t <= q * t) by (nonlinear_arith)
            requires
                p <= q,
                t >= 0 as real,
        ;
    }
    sum_at_most(fl, rf, n);
    assert forall|c: int| 0 <= c < n implies whole(#[trigger] fl(c)) by {
        assert(rest[c] < s.total());
        assert(whole(z(rest[c] as int)));
        assert(alpha[c].finite());
        whole_times(alpha[c].floor_spec().val(), z(rest[c] as int));
    }
    whole_sum(fl, n);
    assert(whole(z(e)));
    whole_plus(sum(fl, n), z(e));
    let t = sum(fl, n) + z(e);
    assert(s.cur_bounds@[row].finite());
    assert(t <= b);
    whole_at_most(t, s.cur_bounds@[row].floor_spec().val(), b);
}

/// A cut takes away the vertex that it is made at, unless the basic variable is an integer there.
pub proof fn cut_removes_vertex<T: Scalar>(s: Solver<T>, row: int, rho: Seq<T>, coeffs: CsVec<T>)
    requires
        exact::<T>(),
        cut_ready(s, row, rho, coeffs),
        rest_is_zero(s),
        !whole(s.cur_bounds@[row].val()),
    ensures
        sum(cut_terms(coeffs, s.point()), s.total() as nat) > below_floor(
            s.cur_bounds@[row],
        ).val(),
{
    let alpha = s.row_coeffs.values@;
    let rest = s.non_basic_vars@;
    let n = rest.len();
    let x = s.point();
    cut_value(s, row, rho, coeffs, x);
    let rf = row_form(alpha, rest, x);
    let fl = floor_terms(alpha, rest, x);
    assert forall|c: int| 0 <= c < n implies #[trigger] rf(c) == 0 as real && fl(c)
        == 0 as real by {
        let v = rest[c] as int;
        assert(s.non_basic_vars_inv@[v] == c);
        assert((s.basic_vars_inv@[v] == SENTINEL) != (s.non_basic_vars_inv@[v] == SENTINEL));
        assert(s.non_basic_vals@[c].val() == 0 as real);
        times_zero(alpha[c].val());
        times_zero(alpha[c].floor_spec().val());
    }
    assert forall|c: int| 0 <= c < n implies #[trigger] fl(c) == 0 as real by {
        assert(rf(c) == 0 as real);
    }
    sum_zero(rf, n);
    sum_zero(fl, n);
    assert(s.cur_bounds@[row].finite());
}

/// The numbers of the row that a cut comes from, and of the cut, are finite.
#[verifier::opaque]
pub open spec fn finite_cut_row<T: Scalar>(
    before: Solver<T>,
    after: Solver<T>,
    var: usize,
    r: Result<(), Error>,
) -> bool {
    forall|mid: Solver<T>, coeffs: CsVec<T>| #[trigger]
        cut_by(before, mid, coeffs, after, var, r) ==> {
            &&& finite_items(mid.basis_solver.rhs.values@)
            &&& finite_items(mid.row_coeffs.values@)
            &&& finite_items(coeffs.data@)
            &&& below_floor(before.value_of(var as int)).finite()
        }
}

/// The vertex is one whose non-basic variables are zero.
pub open spec fn rest_is_zero<T: Scalar>(s: Solver<T>) -> bool {
    forall|c: int|
        0 <= c < s.non_basic_vars@.len() ==> (#[trigger] s.non_basic_vals@[c]).val() == 0 as real
}

/// The variables are integers, and those that are not basic not negative.
pub open spec fn is_grid_point<T: Scalar>(s: Solver<T>, z: spec_fn(int) -> real) -> bool {
    &&& forall|v: int| 0 <= v < s.total() ==> whole(#[trigger] z(v))
    &&& forall|c: int|
        0 <= c < s.non_basic_vars@.len() ==> z(#[trigger] s.non_basic_vars@[c] as int) >= 0 as real
}

/// The cut for a variable comes from the row of that variable.
proof fn cut_is_ready<T: Scalar>(
    before: Solver<T>,
    mid: Solver<T>,
    coeffs: CsVec<T>,
    after: Solver<T>,
    var: usize,
    r: Result<(), Error>,
)
    requires
        exact::<T>(),
        sound(before),
        var < before.total(),
        before.basic_vars_inv@[var as int] != SENTINEL,
        cut_by(before, mid, coeffs, after, var, r),
        finite_cut_row(before, after, var, r),
    ensures
        rest_is_zero(before) ==> rest_is_zero(mid),
        cut_ready(
            mid,
            before.basic_vars_inv@[var as int] as int,
            mid.basis_solver.rhs.values@,
            coeffs,
        ),
        mid.cur_bounds@[before.basic_vars_inv@[var as int] as int] == before.value_of(var as int),
{
    reveal(finite_cut_row);
    let row = before.basic_vars_inv@[var as int] as int;
    assert(before.basic_vars@[row] == var);
    consistent_elsewhere(before, mid);
    assert forall|k: int| 0 <= k < mid.basic_vars@.len() implies !mid.set_vars@.contains_key(
        #[trigger] mid.basic_vars@[k],
    ) by {
        assert(!before.set_vars@.contains_key(before.basic_vars@[k]));
    }
    if rest_is_zero(before) {
        assert forall|c: int| 0 <= c < mid.non_basic_vars@.len() implies (
        #[trigger] mid.non_basic_vals@[c]).val() == 0 as real by {
            assert(before.non_basic_vals@[c].val() == 0 as real);
        }
    }
}

/// A cut for a variable separates: it spares every point on the constraints whose variables are
/// integers, with the non-basic ones not negative, and takes away the vertex that it is made at,
/// unless the variable is an integer there.
pub proof fn cut_separates<T: Scalar>(
    before: Solver<T>,
    after: Solver<T>,
    var: usize,
    z: spec_fn(int) -> real,
)
    requires
        exact::<T>(),
        sound(before),
        before.num_artificial_vars == 0,
        rest_is_zero(before),
        var < before.total(),
        before.basic_vars_inv@[var as int] != SENTINEL,
        cut_added(before, after, var, Ok(())),
        finite_cut_row(before, after, var, Ok(())),
        on_constraints(before, z),
    ensures
        after.num_slack_vars == before.num_slack_vars || after.num_slack_vars
            == before.num_slack_vars + 1,
        is_grid_point(before, z) && after.num_slack_vars != before.num_slack_vars
            ==> exists|t: real| #[trigger] completes(before, after, z, t),
        !whole(before.point()(var as int)) ==> after.num_slack_vars == before.num_slack_vars + 1
            && forall|t: real| !#[trigger] completes(before, after, before.point(), t),
{
    let (mid, coeffs) = choose|mid: Solver<T>, coeffs: CsVec<T>| #[trigger]
        cut_by(before, mid, coeffs, after, var, Ok(()));
    cut_is_ready(before, mid, coeffs, after, var, Ok(()));
    let row = before.basic_vars_inv@[var as int] as int;
    let rho = mid.basis_solver.rhs.values@;
    let bound = below_floor(before.value_of(var as int));
    let x = before.point();
    same_points(before, mid, z);
    if !whole(x(var as int)) {
        assert(mid.point() =~= x);
        cut_removes_vertex(mid, row, rho, coeffs);
        same_side(coeffs, mid.total(), x);
    }
    if is_grid_point(before, z) {
        cut_spares_integers(mid, row, rho, coeffs, z);
        same_side(coeffs, mid.total(), z);
    }
    if coeffs.indices@.len() == 0 {
        blank_constraint_is_met_or_refused(mid, after, coeffs, RelOp::Le, bound, Ok(()), x);
    } else {
        let longer = choose|longer: Solver<T>| #[trigger]
            extended(mid, longer, coeffs, RelOp::Le, bound) && repaired(longer, after, Ok(()));
        repair_keeps_program(longer, after);
        extension_completes(mid, after, coeffs, RelOp::Le, bound, z);
        extension_completes(mid, after, coeffs, RelOp::Le, bound, x);
        if is_grid_point(before, z) {
            let t = choose|t: real| #[trigger] completes(mid, after, z, t);
            assert(completes(before, after, z, t));
        }
        if !whole(x(var as int)) {
            assert forall|t: real| !#[trigger] completes(before, after, x, t) by {
                if completes(before, after, x, t) {
                    assert(completes(mid, after, x, t));
                }
            }
        }
    }
}

/// The fractional part of a number.
pub open spec fn is_part(f: real, x: real) -> bool {
    0 as real <= f < 1 as real && whole(x - f)
}

proof fn one_part(f: real, g: real, x: real)
    requires
        is_part(f, x),
        is_part(g, x),
    ensures
        f == g,
{
    let (d, e) = (x - f, x - g);
    let k = choose|k: int| is_int(d, k);
    let j = choose|j: int| is_int(e, j);
    assert(k as real - j as real == (k - j) as real);
    assert(k - j < 1 && j - k < 1);
}

/// The non-basic variables times some coefficients.
pub open spec fn rest_terms<T: Scalar>(
    s: Solver<T>,
    coeffs: spec_fn(int) -> real,
    z: spec_fn(int) -> real,
) -> spec_fn(int) -> real {
    |c: int| coeffs(c) * z(s.non_basic_vars@[c] as int)
}

/// The variable and the non-basic ones times the coefficients add up to the same at all points on
/// the constraints as at the vertex.
pub open spec fn gives_var<T: Scalar>(
    s: Solver<T>,
    var: int,
    alpha: spec_fn(int) -> real,
) -> bool {
    let n = s.non_basic_vars@.len();
    forall|w: spec_fn(int) -> real| #[trigger]
        on_constraints(s, w) ==> w(var) + sum(rest_terms(s, alpha, w), n) == s.point()(var) + sum(
            rest_terms(s, alpha, s.point()),
            n,
        )
}

/// The coefficients that give the variable, and their fractional parts.
pub open spec fn parts_of<T: Scalar>(
    s: Solver<T>,
    var: int,
    alpha: spec_fn(int) -> real,
    part: spec_fn(int) -> real,
) -> bool {
    &&& gives_var(s, var, alpha)
    &&& forall|c: int|
        0 <= c < s.non_basic_vars@.len() ==> is_part(#[trigger] part(c), alpha(c))
}

/// The non-basic variables times the parts come to no less than the fractional part of the
/// variable at the vertex.
pub open spec fn enough<T: Scalar>(
    s: Solver<T>,
    var: int,
    part: spec_fn(int) -> real,
    z: spec_fn(int) -> real,
) -> bool {
    forall|f: real| #[trigger]
        is_part(f, s.point()(var)) ==> sum(rest_terms(s, part, z), s.non_basic_vars@.len()) >= f
}

/// The new constraint says that the non-basic variables times the fractional parts of the
/// coefficients that give the variable are enough. There is none where all these coefficients are
/// zero.
pub open spec fn demands_parts<T: Scalar>(
    before: Solver<T>,
    after: Solver<T>,
    var: int,
    alpha: spec_fn(int) -> real,
    part: spec_fn(int) -> real,
) -> bool {
    &&& parts_of(before, var, alpha, part)
    &&& if after.num_slack_vars == before.num_slack_vars {
        forall|c: int| 0 <= c < before.non_basic_vars@.len() ==> #[trigger] alpha(c) == 0 as real
    } else {
        forall|z: spec_fn(int) -> real| #[trigger]
            on_constraints(before, z) ==> ((exists|t: real| #[trigger]
                completes(before, after, z, t)) <==> enough(before, var, part, z))
    }
}

/// At no point of the program are the non-basic variables times the parts enough.
pub open spec fn defies_parts<T: Scalar>(
    s: Solver<T>,
    var: int,
    alpha: spec_fn(int) -> real,
    part: spec_fn(int) -> real,
) -> bool {
    &&& parts_of(s, var, alpha, part)
    &&& forall|z: spec_fn(int) -> real| #[trigger]
        on_constraints(s, z) && within_limits(s, z) ==> !enough(s, var, part, z)
}

/// The coefficients of a row, as numbers.
spec fn row_numbers<T: Scalar>(s: Solver<T>) -> spec_fn(int) -> real {
    |c: int| s.row_coeffs.values@[c].val()
}

/// What the coefficients of a row are more than integers.
spec fn row_parts<T: Scalar>(s: Solver<T>) -> spec_fn(int) -> real {
    |c: int| s.row_coeffs.values@[c].val() - s.row_coeffs.values@[c].floor_spec().val()
}

proof fn row_has_parts<T: Scalar>(
    before: Solver<T>,
    mid: Solver<T>,
    coeffs: CsVec<T>,
    after: Solver<T>,
    var: usize,
    r: Result<(), Error>,
)
    requires
        exact::<T>(),
        sound(before),
        var < before.total(),
        before.basic_vars_inv@[var as int] != SENTINEL,
        cut_by(before, mid, coeffs, after, var, r),
        finite_cut_row(before, after, var, r),
    ensures
        parts_of(before, var as int, row_numbers(mid), row_parts(mid)),
{
    cut_is_ready(before, mid, coeffs, after, var, r);
    let v = var as int;
    let row = before.basic_vars_inv@[v] as int;
    let rho = mid.basis_solver.rhs.values@;
    let x = before.point();
    let a = mid.row_coeffs.values@;
    let n = before.non_basic_vars@.len();
    let (alpha, part) = (row_numbers(mid), row_parts(mid));
    assert(before.basic_vars@[row] == var);
    assert(mid.point() =~= x);
    assert forall|c: int| 0 <= c < n implies is_part(#[trigger] part(c), alpha(c)) by {
        assert(a[c].finite());
        let w = a[c].floor_spec().val();
        assert(alpha(c) - part(c) == w);
    }
    sum_same(rest_terms(before, alpha, x), row_form(a, mid.non_basic_vars@, x), n);
    assert forall|w: spec_fn(int) -> real| #[trigger] on_constraints(before, w) implies w(v) + sum(
        rest_terms(before, alpha, w),
        n,
    ) == x(v) + sum(rest_terms(before, alpha, x), n) by {
        same_points(before, mid, w);
        row_is_given(mid, row, rho, coeffs, w);
        sum_same(rest_terms(before, alpha, w), row_form(a, mid.non_basic_vars@, w), n);
    }
}

proof fn enough_is_met<T: Scalar>(
    before: Solver<T>,
    mid: Solver<T>,
    coeffs: CsVec<T>,
    after: Solver<T>,
    var: usize,
    r: Result<(), Error>,
    z: spec_fn(int) -> real,
)
    requires
        exact::<T>(),
        sound(before),
        var < before.total(),
        before.basic_vars_inv@[var as int] != SENTINEL,
        cut_by(before, mid, coeffs, after, var, r),
        finite_cut_row(before, after, var, r),
    ensures
        enough(before, var as int, row_parts(mid), z) <==> sum(
            side_terms(coeffs, z),
            mid.total() as nat,
        ) <= below_floor(before.value_of(var as int)).val(),
{
    cut_is_ready(before, mid, coeffs, after, var, r);
    let v = var as int;
    let row = before.basic_vars_inv@[v] as int;
    let x = before.point();
    let b = before.value_of(v);
    let f = b.val() - b.floor_spec().val();
    same_side(coeffs, mid.total(), z);
    cut_value(mid, row, mid.basis_solver.rhs.values@, coeffs, z);
    parts_add_up(before, mid.row_coeffs.values@, row_parts(mid), z);
    assert(b.finite());
    assert(is_part(f, x(v))) by {
        assert(x(v) - f == b.floor_spec().val());
    }
    assert(below_floor(b).val() == -f);
    assert forall|g: real| #[trigger] is_part(g, x(v)) implies g == f by {
        one_part(f, g, x(v));
    }
}

/// The cut for a variable is the one of the fractional parts.
pub proof fn cut_demands_parts<T: Scalar>(before: Solver<T>, after: Solver<T>, var: usize)
    requires
        exact::<T>(),
        sound(before),
        before.num_artificial_vars == 0,
        var < before.total(),
        before.basic_vars_inv@[var as int] != SENTINEL,
        cut_added(before, after, var, Ok(())),
        finite_cut_row(before, after, var, Ok(())),
    ensures
        exists|alpha: spec_fn(int) -> real, part: spec_fn(int) -> real| #[trigger]
            demands_parts(before, after, var as int, alpha, part),
{
    let done = Ok::<(), Error>(());
    let (mid, coeffs) = choose|mid: Solver<T>, coeffs: CsVec<T>| #[trigger]
        cut_by(before, mid, coeffs, after, var, done);
    cut_is_ready(before, mid, coeffs, after, var, done);
    row_has_parts(before, mid, coeffs, after, var, done);
    let v = var as int;
    let bound = below_floor(before.value_of(v));
    let x = before.point();
    let n = before.non_basic_vars@.len();
    let (alpha, part) = (row_numbers(mid), row_parts(mid));
    if coeffs.indices@.len() == 0 {
        blank_constraint_is_met_or_refused(mid, after, coeffs, RelOp::Le, bound, done, x);
        assert forall|c: int| 0 <= c < n implies #[trigger] alpha(c) == 0 as real by {
            if mid.row_coeffs.is_nonzero@[c] {
                assert(coeffs.stores(mid.non_basic_vars@[c] as int));
            }
            assert(is_zero(mid.row_coeffs.values@[c]));
        }
    } else {
        let longer = choose|longer: Solver<T>| #[trigger]
            extended(mid, longer, coeffs, RelOp::Le, bound) && repaired(longer, after, done);
        repair_keeps_program(longer, after);
        assert forall|z: spec_fn(int) -> real| #[trigger] on_constraints(before, z) implies ((
        exists|t: real| #[trigger] completes(before, after, z, t)) <==> enough(
            before,
            v,
            part,
            z,
        )) by {
            same_points(before, mid, z);
            extension_completes(mid, after, coeffs, RelOp::Le, bound, z);
            enough_is_met(before, mid, coeffs, after, var, done, z);
            if exists|t: real| #[trigger] completes(mid, after, z, t) {
                let t = choose|t: real| #[trigger] completes(mid, after, z, t);
                assert(completes(before, after, z, t));
            }
            if exists|t: real| #[trigger] completes(before, after, z, t) {
                let t = choose|t: real| #[trigger] completes(before, after, z, t);
                assert(completes(mid, after, z, t));
            }
        }
    }
    assert(demands_parts(before, after, v, alpha, part));
}

proof fn parts_add_up<T: Scalar>(
    s: Solver<T>,
    a: Seq<T>,
    part: spec_fn(int) -> real,
    z: spec_fn(int) -> real,
)
    requires
        forall|c: int|
            0 <= c < s.non_basic_vars@.len() ==> #[trigger] part(c) == a[c].val()
                - a[c].floor_spec().val(),
    ensures
        sum(row_form(a, s.non_basic_vars@, z), s.non_basic_vars@.len()) == sum(
            rest_terms(s, part, z),
            s.non_basic_vars@.len(),
        ) + sum(floor_terms(a, s.non_basic_vars@, z), s.non_basic_vars@.len()),
{
    let n = s.non_basic_vars@.len();
    let (rf, pt, fl) = (
        row_form(a, s.non_basic_vars@, z),
        rest_terms(s, part, z),
        floor_terms(a, s.non_basic_vars@, z),
    );
    assert forall|c: int| 0 <= c < n implies #[trigger] rf(c) == pt(c) + fl(c) by {
        let (p, q, t) = (a[c].val(), a[c].floor_spec().val(), z(s.non_basic_vars@[c] as int));
        assert(part(c) == p - q);
        assert(p * t == (p - q) * t + q * t) by (nonlinear_arith);
    }
    sum_plus(pt, fl, rf, n);
}

/// The row of a cut gives its variable.
proof fn row_is_given<T: Scalar>(
    s: Solver<T>,
    row: int,
    rho: Seq<T>,
    coeffs: CsVec<T>,
    z: spec_fn(int) -> real,
)
    requires
        exact::<T>(),
        cut_ready(s, row, rho, coeffs),
        on_constraints(s, z),
    ensures
        z(s.basic_vars@[row] as int) + sum(
            row_form(s.row_coeffs.values@, s.non_basic_vars@, z),
            s.non_basic_vars@.len(),
        ) == s.point()(s.basic_vars@[row] as int) + sum(
            row_form(s.row_coeffs.values@, s.non_basic_vars@, s.point()),
            s.non_basic_vars@.len(),
        ),
        rest_is_zero(s) ==> sum(
            row_form(s.row_coeffs.values@, s.non_basic_vars@, s.point()),
            s.non_basic_vars@.len(),
        ) == 0 as real,
{
    let alpha = s.row_coeffs.values@;
    let rest = s.non_basic_vars@;
    let n = rest.len();
    let y = Seq::new(s.m() as nat, |i: int| rho[i].val());
    let x = s.point();
    row_gives_basic(s, row, rho, alpha, z, y);
    row_gives_basic(s, row, rho, alpha, x, y);
    if rest_is_zero(s) {
        let at_x = row_form(alpha, rest, x);
        assert forall|c: int| 0 <= c < n implies #[trigger] at_x(c) == 0 as real by {
            let v = rest[c] as int;
            assert(s.non_basic_vars_inv@[v] == c);
            assert((s.basic_vars_inv@[v] == SENTINEL) != (s.non_basic_vars_inv@[v] == SENTINEL));
            assert(s.non_basic_vals@[c].val() == 0 as real);
            times_zero(alpha[c].val());
        }
        sum_zero(at_x, n);
    }
}

proof fn same_side<T: Scalar>(coeffs: CsVec<T>, n: int, z: spec_fn(int) -> real)
    ensures
        sum(cut_terms(coeffs, z), n as nat) == sum(side_terms(coeffs, z), n as nat),
{
    sum_same(cut_terms(coeffs, z), side_terms(coeffs, z), n as nat);
}

proof fn same_points<T: Scalar>(s: Solver<T>, t: Solver<T>, z: spec_fn(int) -> real)
    requires
        t.same_program(s),
        t.set_vars == s.set_vars,
    ensures
        on_constraints(s, z) ==> on_constraints(t, z),
        within_limits(s, z) ==> within_limits(t, z),
{
    if on_constraints(s, z) {
        assert forall|i: int| 0 <= i < t.m() implies sum(
            lhs_terms(t.orig_constraints_csc, z, i),
            t.total() as nat,
        ) == (#[trigger] t.orig_bounds@[i]).val() by {
            assert(s.orig_bounds@[i].val() == t.orig_bounds@[i].val());
        }
    }
    if within_limits(s, z) {
        assert forall|v: int| 0 <= v < t.total() implies {
            let (min, max) = (t.orig_var_mins@[v], t.orig_var_maxs@[v]);
            &&& min.finite() ==> min.val() <= #[trigger] z(v)
            &&& max.finite() ==> z(v) <= max.val()
            &&& t.set_vars@.contains_key(v as usize) ==> z(v) == t.set_vars@[v as usize].val()
        } by {
            let (min, max) = (s.orig_var_mins@[v], s.orig_var_maxs@[v]);
            assert(min.finite() ==> min.val() <= z(v));
        }
    }
}

/// The ways on which a cut can have been refused have finite numbers; the columns that enter cost
/// least, and no coefficient is lost in the tolerance.
#[verifier::opaque]
pub open spec fn fair_cut<T: Scalar>(before: Solver<T>, after: Solver<T>, var: usize) -> bool {
    forall|mid: Solver<T>, coeffs: CsVec<T>| #[trigger]
        cut_by(before, mid, coeffs, after, var, Err(Error::Infeasible)) ==> fair_extension(
            mid,
            after,
            coeffs,
            RelOp::Le,
            below_floor(before.value_of(var as int)),
        )
}

/// Where a cut is refused, no point of the program has integers for its variables, with the non-basic
/// ones not negative.
pub proof fn refused_cut_has_no_integers<T: Scalar>(
    before: Solver<T>,
    after: Solver<T>,
    var: usize,
    z: spec_fn(int) -> real,
)
    requires
        exact::<T>(),
        in_order(before),
        signs_fit(before),
        rest_is_zero(before),
        forall|v: usize| #[trigger] before.set_vars@.contains_key(v) ==> v < before.total(),
        var < before.total(),
        before.basic_vars_inv@[var as int] != SENTINEL,
        cut_added(before, after, var, Err(Error::Infeasible)),
        finite_cut_row(before, after, var, Err(Error::Infeasible)),
        fair_cut(before, after, var),
        on_constraints(before, z),
        within_limits(before, z),
    ensures
        !is_grid_point(before, z),
{
    let bad = Err::<(), Error>(Error::Infeasible);
    let (mid, coeffs) = choose|mid: Solver<T>, coeffs: CsVec<T>| #[trigger]
        cut_by(before, mid, coeffs, after, var, bad);
    let bound = below_floor(before.value_of(var as int));
    let row = before.basic_vars_inv@[var as int] as int;
    cut_is_ready(before, mid, coeffs, after, var, bad);
    same_points(before, mid, z);
    same_in_order(before, mid);
    assert(fair_extension(mid, after, coeffs, RelOp::Le, bound)) by {
        reveal(fair_cut);
    }
    assert(bound.finite()) by {
        reveal(finite_cut_row);
    }
    refused_constraint_has_no_point(mid, after, coeffs, RelOp::Le, bound, z);
    if is_grid_point(before, z) {
        cut_spares_integers(mid, row, mid.basis_solver.rhs.values@, coeffs, z);
        same_side(coeffs, mid.total(), z);
    }
}

/// Where a cut is refused, its demand is met at no point of the program.
pub proof fn refused_cut_is_not_met<T: Scalar>(before: Solver<T>, after: Solver<T>, var: usize)
    requires
        exact::<T>(),
        in_order(before),
        signs_fit(before),
        forall|v: usize| #[trigger] before.set_vars@.contains_key(v) ==> v < before.total(),
        var < before.total(),
        before.basic_vars_inv@[var as int] != SENTINEL,
        cut_added(before, after, var, Err(Error::Infeasible)),
        finite_cut_row(before, after, var, Err(Error::Infeasible)),
        fair_cut(before, after, var),
    ensures
        exists|alpha: spec_fn(int) -> real, part: spec_fn(int) -> real| #[trigger]
            defies_parts(before, var as int, alpha, part),
{
    let bad = Err::<(), Error>(Error::Infeasible);
    let (mid, coeffs) = choose|mid: Solver<T>, coeffs: CsVec<T>| #[trigger]
        cut_by(before, mid, coeffs, after, var, bad);
    let bound = below_floor(before.value_of(var as int));
    row_has_parts(before, mid, coeffs, after, var, bad);
    same_in_order(before, mid);
    assert(fair_extension(mid, after, coeffs, RelOp::Le, bound)) by {
        reveal(fair_cut);
    }
    assert(bound.finite()) by {
        reveal(finite_cut_row);
    }
    assert forall|z: spec_fn(int) -> real| #[trigger]
        on_constraints(before, z) && within_limits(before, z) implies !enough(
        before,
        var as int,
        row_parts(mid),
        z,
    ) by {
        same_points(before, mid, z);
        refused_constraint_has_no_point(mid, after, coeffs, RelOp::Le, bound, z);
        enough_is_met(before, mid, coeffs, after, var, bad, z);
    }
    assert(defies_parts(before, var as int, row_numbers(mid), row_parts(mid)));
}

} // verus!
