//! The first vertex, where arithmetic is exact.
use crate::elim::one_more;
use crate::lu::all_finite;
use crate::scalar::{abs_real, exact, Scalar};
use crate::simplex::{RelOp, Solver, SENTINEL};
use crate::sparse::{at, at_place, below, dense_dot, distinct, holds};
use crate::start::{first_cost, started, Input};
use crate::sums::{
    sum, sum_but_one, sum_longer, sum_same, sum_single, sum_times, sum_zero, times_zero,
};
use crate::vertex::{
    at_limit, finite_vertex, fresh_basis, lhs_terms, on_constraints, over, price, price_terms,
    sound,
};
use vstd::prelude::*;

verus! {

/// The terms that the first `k` stored values give.
pub open spec fn stored_terms<T: Scalar>(
    idx: Seq<usize>,
    data: Seq<T>,
    x: Seq<T>,
    k: int,
) -> spec_fn(int) -> real {
    |v: int|
        if holds(idx, 0, k, v) {
            at(idx, data, 0, idx.len() as int, v).val() * x[v].val()
        } else {
            0 as real
        }
}

proof fn dense_dot_partial<T: Scalar>(idx: Seq<usize>, data: Seq<T>, x: Seq<T>, k: nat)
    requires
        exact::<T>(),
        distinct(idx, 0, idx.len() as int),
        below(idx, x.len() as int),
        k <= idx.len(),
        dense_dot(idx, data, x, k).finite(),
    ensures
        dense_dot(idx, data, x, k).val() == sum(stored_terms(idx, data, x, k as int), x.len()),
    decreases k,
{
    let g = stored_terms(idx, data, x, k as int);
    if k == 0 {
        assert forall|v: int| 0 <= v < x.len() implies #[trigger] g(v) == 0 as real by {
            assert(!holds(idx, 0, 0, v));
        }
        sum_zero(g, x.len());
    } else {
        dense_dot_partial(idx, data, x, (k - 1) as nat);
        let f = stored_terms(idx, data, x, k - 1);
        let w = idx[k - 1] as int;
        one_more(idx, 0, idx.len() as int, k - 1);
        at_place(idx, data, 0, idx.len() as int, k - 1);
        assert forall|v: int| 0 <= v < x.len() && v != w implies #[trigger] f(v) == g(v) by {
            assert(holds(idx, 0, k - 1 + 1, v) == holds(idx, 0, k as int, v));
        }
        assert(holds(idx, 0, k - 1 + 1, w));
        sum_but_one(f, g, x.len(), w);
    }
}

/// The product of a stored and a dense vector is the sum of the products of all items.
pub proof fn dense_dot_value<T: Scalar>(
    idx: Seq<usize>,
    data: Seq<T>,
    x: Seq<T>,
    terms: spec_fn(int) -> real,
)
    requires
        exact::<T>(),
        distinct(idx, 0, idx.len() as int),
        below(idx, x.len() as int),
        dense_dot(idx, data, x, idx.len()).finite(),
        forall|v: int|
            0 <= v < x.len() ==> #[trigger] terms(v) == at(
                idx,
                data,
                0,
                idx.len() as int,
                v,
            ).val() * x[v].val(),
    ensures
        dense_dot(idx, data, x, idx.len()).val() == sum(terms, x.len()),
{
    let n = idx.len();
    dense_dot_partial(idx, data, x, n);
    let f = stored_terms(idx, data, x, n as int);
    assert forall|v: int| 0 <= v < x.len() implies #[trigger] f(v) == terms(v) by {
        if !holds(idx, 0, n as int, v) {
            times_zero(x[v].val());
        }
    }
    sum_same(f, terms, x.len());
}

/// The matrix of the solver is that of the program.
proof fn start_line<T: Scalar>(input: Input<T>, s: Solver<T>, r: int, v: int)
    requires
        started(input, s),
        s.wf(),
        0 <= r < input.m(),
        0 <= v < input.total(),
    ensures
        s.orig_constraints_csc.line(v, r) == input.entry(r, v),
{
    assert(s.orig_constraints_csc.line(v, r) == s.orig_constraints.line(r, v));
}

/// The basic variable of another row has no entry in the row.
proof fn start_basic<T: Scalar>(input: Input<T>, s: Solver<T>, r: int, i: int)
    requires
        exact::<T>(),
        input.wf(),
        started(input, s),
        s.wf(),
        0 <= r < input.m(),
        0 <= i < input.m(),
    ensures
        s.basic_vars@[r] == input.basic_var(r),
        input.n() <= s.basic_vars@[r] < s.total(),
        s.basic_vars_inv@[s.basic_vars@[r] as int] == r,
        s.point()(s.basic_vars@[r] as int) == s.cur_bounds@[r].val(),
        s.cur_bounds@[r] == input.diff(input.source(r)).absolute_spec(),
        i != r ==> s.orig_constraints_csc.line(s.basic_vars@[r] as int, i).val() == 0 as real,
        s.orig_constraints_csc.line(s.basic_vars@[r] as int, r) == if input.needs_art(
            input.source(r),
        ) {
            input.diff(input.source(r)).signum_spec()
        } else {
            input.slack_coeff(input.source(r))
        },
        s.basic_vars@[r] >= input.n() + input.slacks(input.m()) <==> input.needs_art(
            input.source(r),
        ),
{
    input.basic_entry(r, i);
    input.basic_entry(r, r);
    input.live_facts(input.constraints.len() as int);
    input.counts(0, input.m());
    let v = input.basic_var(r);
    assert(s.basic_vars@[r] == v);
    start_line(input, s, r, v);
    start_line(input, s, i, v);
}

/// The coefficient of the basic variable of a row makes up for what the row misses.
proof fn start_makes_up<T: Scalar>(input: Input<T>, s: Solver<T>, r: int)
    requires
        exact::<T>(),
        input.wf(),
        started(input, s),
        s.wf(),
        finite_vertex(s),
        0 <= r < input.m(),
    ensures
        input.diff(input.source(r)).finite(),
        s.orig_constraints_csc.line(s.basic_vars@[r] as int, r).val() * s.cur_bounds@[r].val()
            == input.diff(input.source(r)).val(),
        input.needs_art(input.source(r)) ==> {
            let sign = s.orig_constraints_csc.line(s.basic_vars@[r] as int, r).val();
            sign * sign == 1 as real
        },
{
    start_basic(input, s, r, r);
    let j = input.source(r);
    let d = input.diff(j);
    assert(s.cur_bounds@[r].finite());
    assert(d.finite());
    let a = s.orig_constraints_csc.line(s.basic_vars@[r] as int, r).val();
    if input.needs_art(j) {
        assert(d.signum_spec().finite());
        assert(a == 1 as real || a == -1 as real);
        assert(a * a == 1 as real) by (nonlinear_arith)
            requires
                a == 1 as real || a == -1 as real,
        ;
        if d.val() < 0 as real {
            assert((-1 as real) * (-d.val()) == d.val()) by (nonlinear_arith);
        } else {
            times_zero(d.val());
        }
    } else {
        match input.constraints[j].1 {
            RelOp::Le => {
                times_zero(d.val());
            },
            RelOp::Ge => {
                let p = abs_real(d.val());
                assert(a == -1 as real);
                assert((-1 as real) * p == -p) by (nonlinear_arith);
            },
            RelOp::Eq => {},
        }
    }
}

proof fn loose_range<T: Scalar>(input: Input<T>, k: int, p: int)
    requires
        input.wf(),
        0 <= k <= input.m(),
        0 <= p < input.loose_slacks(k).len(),
    ensures
        input.n() <= input.loose_slacks(k)[p] < input.n() + input.slacks(k),
    decreases k,
{
    if k > 0 {
        input.live_facts(input.constraints.len() as int);
        input.counts(0, k - 1);
        input.counts(k - 1, k);
        input.counts(k, input.m());
        if p < input.loose_slacks(k - 1).len() {
            loose_range(input, k - 1, p);
        }
    }
}

/// The non-basic variables are those of the program and some slack variables, which are zero.
proof fn start_rest<T: Scalar>(input: Input<T>, s: Solver<T>, c: int)
    requires
        exact::<T>(),
        input.wf(),
        started(input, s),
        s.wf(),
        0 <= c < s.non_basic_vars@.len(),
    ensures
        input.n() <= s.non_basic_vars@.len(),
        c < input.n() ==> s.non_basic_vars@[c] == c && s.non_basic_vals@[c] == input.init(c),
        c >= input.n() ==> input.n() <= s.non_basic_vars@[c] < input.n() + input.slacks(input.m())
            && s.non_basic_vals@[c] == T::zero_spec(),
        s.point()(s.non_basic_vars@[c] as int) == s.non_basic_vals@[c].val(),
{
    let v = s.non_basic_vars@[c] as int;
    assert(s.non_basic_vars_inv@[v] == c);
    assert((s.basic_vars_inv@[v] == SENTINEL) != (s.non_basic_vars_inv@[v] == SENTINEL));
    if c >= input.n() {
        loose_range(input, input.m(), c - input.n());
    }
}

/// The first vertex lies on the constraints.
proof fn start_on_constraints<T: Scalar>(input: Input<T>, s: Solver<T>)
    requires
        exact::<T>(),
        input.wf(),
        started(input, s),
        s.wf(),
        finite_vertex(s),
    ensures
        on_constraints(s, s.point()),
{
    let mat = s.orig_constraints_csc;
    let m = s.m() as nat;
    let n = input.n() as nat;
    assert forall|i: int| 0 <= i < s.m() implies sum(
        lhs_terms(mat, s.point(), i),
        s.total() as nat,
    ) == (#[trigger] s.orig_bounds@[i]).val() by {
        let f = lhs_terms(mat, s.point(), i);
        let j = input.source(i);
        input.live_facts(input.constraints.len() as int);
        s.split(f);
        let b = over(f, s.basic_vars@);
        assert forall|r: int| 0 <= r < m && r != i implies #[trigger] b(r) == 0 as real by {
            start_basic(input, s, r, i);
            times_zero(s.point()(s.basic_vars@[r] as int));
        }
        sum_single(b, m, i);
        start_basic(input, s, i, i);
        start_makes_up(input, s, i);
        let g = over(f, s.non_basic_vars@);
        let count = s.non_basic_vars@.len();
        assert(n <= count) by {
            assert(s.non_basic_vars@ == input.rest_vars(input.m()));
        }
        assert forall|c: int| n <= c < count implies #[trigger] g(c) == 0 as real by {
            start_rest(input, s, c);
            times_zero(mat.line(s.non_basic_vars@[c] as int, i).val());
        }
        sum_longer(g, n, count);
        let c = input.constraints[j].0;
        assert(c.wf());
        assert forall|v: int| 0 <= v < n implies #[trigger] g(v) == c.value(v).val()
            * input.vals()[v].val() by {
            start_rest(input, s, v);
            start_line(input, s, i, v);
        }
        assert(input.lhs(j).finite());
        dense_dot_value(c.indices@, c.data@, input.vals(), g);
        assert(s.orig_bounds@[i] == input.bound(j));
    }
}

/// The terms of the prices of the first multipliers.
pub open spec fn first_multipliers<T: Scalar>(input: Input<T>) -> Seq<real> {
    Seq::new(
        input.m() as nat,
        |i: int|
            if input.needs_art(input.source(i)) {
                -input.diff(input.source(i)).signum_spec().val()
            } else {
                0 as real
            },
    )
}

proof fn infeas_cost_value<T: Scalar>(input: Input<T>, v: int, k: int)
    requires
        exact::<T>(),
        0 <= k <= input.m(),
        input.infeas_cost(v, k).finite(),
        forall|r: int, w: int|
            0 <= r < input.m() && !input.entry_has(r, w) ==> (#[trigger] input.entry(r, w)).val()
                == 0 as real,
    ensures
        input.infeas_cost(v, k).val() == -sum(
            |i: int| input.entry(i, v).val() * first_multipliers(input)[i],
            k as nat,
        ),
    decreases k,
{
    let f = |i: int| input.entry(i, v).val() * first_multipliers(input)[i];
    if k > 0 {
        infeas_cost_value(input, v, k - 1);
        let j = input.source(k - 1);
        let (a, b) = (input.entry(k - 1, v).val(), input.diff(j).signum_spec().val());
        if input.needs_art(j) && input.entry_has(k - 1, v) {
            assert(a * (-b) == -(b * a)) by (nonlinear_arith);
        } else if !input.entry_has(k - 1, v) {
            assert(input.entry(k - 1, v).val() == 0 as real);
            times_zero(first_multipliers(input)[k - 1]);
        } else {
            times_zero(a);
        }
    }
}

/// The reduced costs of the first vertex belong to its basis.
proof fn start_priced<T: Scalar>(input: Input<T>, s: Solver<T>)
    requires
        exact::<T>(),
        input.wf(),
        started(input, s),
        s.wf(),
        finite_vertex(s),
    ensures
        exists|y: Seq<real>| s.priced(y),
{
    let mat = s.orig_constraints_csc;
    let m = s.m() as nat;
    let phase_one = input.arts(input.m()) > 0;
    input.live_facts(input.constraints.len() as int);
    input.counts(0, input.m());
    let y = if phase_one {
        first_multipliers(input)
    } else {
        Seq::new(m, |i: int| 0 as real)
    };
    assert forall|r: int, w: int| 0 <= r < input.m() && !input.entry_has(r, w) implies (
    #[trigger] input.entry(r, w)).val() == 0 as real by {}
    assert forall|r: int| 0 <= r < s.m() implies s.cost(#[trigger] s.basic_vars@[r] as int) == price(
        mat,
        s.basic_vars@[r] as int,
        y,
    ) by {
        let v = s.basic_vars@[r] as int;
        let f = price_terms(mat, v, y);
        assert forall|i: int| 0 <= i < m && i != r implies #[trigger] f(i) == 0 as real by {
            start_basic(input, s, r, i);
            times_zero(y[i]);
        }
        sum_single(f, m, r);
        start_basic(input, s, r, r);
        start_makes_up(input, s, r);
        let a = mat.line(v, r).val();
        times_zero(a);
        if phase_one && input.needs_art(input.source(r)) {
            assert(a * (-a) == -(a * a)) by (nonlinear_arith);
        }
        if !phase_one {
            input.counts(r, input.m());
            assert(s.orig_obj@[v] == T::zero_spec());
        }
    }
    assert forall|c: int| 0 <= c < s.cur_obj@.len() implies (#[trigger] s.cur_obj@[c]).val()
        == s.cost(s.non_basic_vars@[c] as int) - price(mat, s.non_basic_vars@[c] as int, y) by {
        let v = s.non_basic_vars@[c] as int;
        start_rest(input, s, c);
        let f = price_terms(mat, v, y);
        assert(s.cur_obj@[c].finite());
        assert(s.cur_obj@[c] == first_cost(input, v));
        if phase_one {
            infeas_cost_value(input, v, input.m());
            let g = |i: int| input.entry(i, v).val() * first_multipliers(input)[i];
            assert forall|i: int| 0 <= i < m implies #[trigger] f(i) == g(i) by {
                start_line(input, s, i, v);
            }
            sum_same(f, g, m);
        } else {
            assert forall|i: int| 0 <= i < m implies #[trigger] f(i) == 0 as real by {
                times_zero(mat.line(v, i).val());
            }
            sum_zero(f, m);
        }
    }
    assert(s.priced(y));
}

/// The terms of what the rows miss.
pub open spec fn missing_terms<T: Scalar>(input: Input<T>) -> spec_fn(int) -> real {
    |r: int|
        if input.needs_art(input.source(r)) {
            input.diff(input.source(r)).absolute_spec().val()
        } else {
            0 as real
        }
}

proof fn missing_value<T: Scalar>(input: Input<T>, k: int)
    requires
        exact::<T>(),
        0 <= k <= input.m(),
        input.missing(k).finite(),
    ensures
        input.missing(k).val() == sum(missing_terms(input), k as nat),
    decreases k,
{
    if k > 0 {
        missing_value(input, k - 1);
    }
}

/// The terms of the objective at the start.
pub open spec fn start_terms<T: Scalar>(input: Input<T>) -> spec_fn(int) -> real {
    |v: int| input.init(v).val() * input.obj[v].negated_spec().val()
}

proof fn start_obj_value<T: Scalar>(input: Input<T>, k: int)
    requires
        exact::<T>(),
        0 <= k <= input.n(),
        input.start_obj(k).finite(),
    ensures
        input.start_obj(k).val() == -sum(start_terms(input), k as nat),
    decreases k,
{
    if k > 0 {
        start_obj_value(input, k - 1);
    }
}

/// The objective value of the first vertex is that of its point.
proof fn start_valued<T: Scalar>(input: Input<T>, s: Solver<T>)
    requires
        exact::<T>(),
        input.wf(),
        started(input, s),
        s.wf(),
        finite_vertex(s),
    ensures
        s.cur_obj_val.val() == -s.worth(s.point()),
{
    let m = s.m() as nat;
    let n = input.n() as nat;
    let count = s.non_basic_vars@.len();
    let f = s.worth_terms(s.point());
    input.live_facts(input.constraints.len() as int);
    input.counts(0, input.m());
    s.split(f);
    let b = over(f, s.basic_vars@);
    let g = over(f, s.non_basic_vars@);
    assert(n <= count) by {
        assert(s.non_basic_vars@ == input.rest_vars(input.m()));
    }
    if input.arts(input.m()) > 0 {
        missing_value(input, input.m());
        let h = missing_terms(input);
        assert forall|r: int| 0 <= r < m implies #[trigger] b(r) == (-1 as real) * h(r) by {
            start_basic(input, s, r, r);
            times_zero(s.cur_bounds@[r].val());
            times_zero(-1 as real);
        }
        sum_times(-1 as real, h, b, m);
        let t = sum(h, m);
        assert((-1 as real) * t == -t) by (nonlinear_arith);
        assert forall|c: int| 0 <= c < count implies #[trigger] g(c) == 0 as real by {
            start_rest(input, s, c);
            times_zero(s.non_basic_vals@[c].val());
        }
        sum_zero(g, count);
    } else {
        start_obj_value(input, input.n());
        assert forall|r: int| 0 <= r < m implies #[trigger] b(r) == 0 as real by {
            start_basic(input, s, r, r);
            assert(s.orig_obj@[s.basic_vars@[r] as int] == T::zero_spec());
            times_zero(s.cur_bounds@[r].val());
        }
        sum_zero(b, m);
        assert forall|c: int| n <= c < count implies #[trigger] g(c) == 0 as real by {
            start_rest(input, s, c);
            times_zero(s.cost(s.non_basic_vars@[c] as int));
        }
        sum_longer(g, n, count);
        let h = start_terms(input);
        assert forall|c: int| 0 <= c < n implies #[trigger] g(c) == h(c) by {
            start_rest(input, s, c);
            let (p, q) = (input.init(c).val(), input.obj[c].negated_spec().val());
            assert(s.orig_obj@[c] == input.obj[c].negated_spec());
            assert(q * p == p * q) by (nonlinear_arith);
        }
        sum_same(g, h, n);
    }
}

/// The first vertex has what every vertex keeps.
pub proof fn start_is_sound<T: Scalar>(input: Input<T>, s: Solver<T>)
    requires
        exact::<T>(),
        input.wf(),
        !input.infeasible(),
        started(input, s),
        s.wf(),
        finite_vertex(s),
        all_finite(s.basis_solver.lu_factors.lower),
        all_finite(s.basis_solver.lu_factors.upper),
    ensures
        sound(s),
{
    fresh_basis(s.basis_solver, s.orig_constraints_csc, s.basic_vars@);
    start_on_constraints(input, s);
    start_priced(input, s);
    start_valued(input, s);
    assert forall|c: int| 0 <= c < s.non_basic_vars@.len() implies #[trigger] at_limit(s, c) by {
        start_rest(input, s, c);
        let v = s.non_basic_vars@[c] as int;
        if c < input.n() {
            assert forall|u: int| 0 <= u <= c implies !#[trigger] input.maxs[u].less_spec(
                input.mins[u],
            ) by {}
            assert(input.mins[c].finite() || input.maxs[c].finite());
            assert(s.orig_var_mins@[v] == input.mins[c]);
            assert(s.orig_var_maxs@[v] == input.maxs[c]);
        } else {
            assert(s.orig_var_mins@[v] == T::zero_spec());
        }
    }
}

} // verus!
