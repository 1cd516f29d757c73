//! Constraints without variables.
use crate::edits::tautology;
use crate::scalar::{acceptable_alone, Scalar};
use crate::simplex::{RelOp, Solver};
use crate::sparse::CsVec;
use crate::start::{first_cost, holds_rows, signs_usable, started, Input};
use vstd::prelude::*;

verus! {

/// The programs have the same objective and limits, and the same constraints with variables, in the
/// same order.
pub open spec fn same_rows<T: Scalar>(a: Input<T>, b: Input<T>) -> bool {
    &&& a.obj == b.obj
    &&& a.mins == b.mins
    &&& a.maxs == b.maxs
    &&& a.m() == b.m()
    &&& forall|r: int|
        0 <= r < a.m() ==> a.constraints[#[trigger] a.source(r)] == b.constraints[b.source(r)]
}

/// What the start makes of a row is the same.
proof fn row_facts<T: Scalar>(a: Input<T>, b: Input<T>, r: int)
    requires
        same_rows(a, b),
        0 <= r < a.m(),
    ensures
        a.lhs(a.source(r)) == b.lhs(b.source(r)),
        a.bound(a.source(r)) == b.bound(b.source(r)),
        a.is_ineq(a.source(r)) == b.is_ineq(b.source(r)),
        a.needs_art(a.source(r)) == b.needs_art(b.source(r)),
        a.diff(a.source(r)) == b.diff(b.source(r)),
        a.slack_coeff(a.source(r)) == b.slack_coeff(b.source(r)),
{
    assert(a.constraints[a.source(r)] == b.constraints[b.source(r)]);
    assert(a.vals() =~= b.vals());
}

proof fn row_sums<T: Scalar>(a: Input<T>, b: Input<T>, k: int)
    requires
        same_rows(a, b),
        0 <= k <= a.m(),
    ensures
        a.slacks(k) == b.slacks(k),
        a.arts(k) == b.arts(k),
        a.missing(k) == b.missing(k),
        a.loose_slacks(k) == b.loose_slacks(k),
    decreases k,
{
    if k > 0 {
        row_sums(a, b, k - 1);
        row_facts(a, b, k - 1);
    }
}

proof fn row_entries<T: Scalar>(a: Input<T>, b: Input<T>, r: int, v: int)
    requires
        same_rows(a, b),
        0 <= r < a.m(),
    ensures
        a.entry_has(r, v) == b.entry_has(r, v),
        a.entry(r, v) == b.entry(r, v),
        a.basic_var(r) == b.basic_var(r),
{
    row_facts(a, b, r);
    row_sums(a, b, r);
    row_sums(a, b, a.m());
    assert(a.constraints[a.source(r)] == b.constraints[b.source(r)]);
}

proof fn row_costs<T: Scalar>(a: Input<T>, b: Input<T>, v: int, k: int)
    requires
        same_rows(a, b),
        0 <= k <= a.m(),
    ensures
        a.infeas_cost(v, k) == b.infeas_cost(v, k),
    decreases k,
{
    if k > 0 {
        row_costs(a, b, v, k - 1);
        row_facts(a, b, k - 1);
        row_entries(a, b, k - 1, v);
    }
}

proof fn row_objective<T: Scalar>(a: Input<T>, b: Input<T>, k: int)
    requires
        same_rows(a, b),
        0 <= k <= a.n(),
    ensures
        a.start_obj(k) == b.start_obj(k),
    decreases k,
{
    if k > 0 {
        row_objective(a, b, k - 1);
    }
}

proof fn starts_alike<T: Scalar>(a: Input<T>, b: Input<T>, s: Solver<T>)
    requires
        same_rows(a, b),
        started(a, s),
    ensures
        started(b, s),
{
    let m = a.m();
    row_sums(a, b, m);
    row_objective(a, b, a.n());
    assert forall|r: int, v: int| 0 <= r < m implies #[trigger] s.orig_constraints.line_has(r, v)
        == b.entry_has(r, v) by {
        row_entries(a, b, r, v);
        assert(s.orig_constraints.line_has(r, v) == a.entry_has(r, v));
    }
    assert forall|r: int, v: int| 0 <= r < m implies #[trigger] s.orig_constraints.line(r, v)
        == b.entry(r, v) by {
        row_entries(a, b, r, v);
        assert(s.orig_constraints.line(r, v) == a.entry(r, v));
    }
    assert(holds_rows(b, s.orig_constraints));
    assert forall|r: int| 0 <= r < m implies #[trigger] s.orig_bounds@[r] == b.bound(
        b.source(r),
    ) && s.basic_vars@[r] == b.basic_var(r) as usize && s.cur_bounds@[r] == b.diff(
        b.source(r),
    ).absolute_spec() by {
        row_facts(a, b, r);
        row_entries(a, b, r, 0);
    }
    assert(s.orig_bounds@ =~= Seq::new(m as nat, |r: int| b.bound(b.source(r))));
    assert(s.basic_vars@ =~= Seq::new(m as nat, |r: int| b.basic_var(r) as usize)) by {
        assert forall|r: int| 0 <= r < m implies s.basic_vars@[r] == b.basic_var(r) as usize by {
            assert(s.orig_bounds@[r] == b.bound(b.source(r)));
        }
    }
    assert(s.cur_bounds@ =~= Seq::new(m as nat, |r: int| b.diff(b.source(r)).absolute_spec())) by {
        assert forall|r: int| 0 <= r < m implies s.cur_bounds@[r] == b.diff(
            b.source(r),
        ).absolute_spec() by {
            assert(s.orig_bounds@[r] == b.bound(b.source(r)));
        }
    }
    assert(a.rest_vals(m) =~= b.rest_vals(m)) by {
        assert(a.vals() =~= b.vals());
    }
    assert forall|c: int| 0 <= c < s.non_basic_vars@.len() implies #[trigger] s.cur_obj@[c]
        == first_cost(b, s.non_basic_vars@[c] as int) by {
        row_costs(a, b, s.non_basic_vars@[c] as int, m);
    }
    assert(s.orig_obj@ =~= Seq::new(
        b.total() as nat,
        |v: int|
            if v < b.n() {
                b.obj[v].negated_spec()
            } else {
                T::zero_spec()
            },
    ));
    assert(s.orig_var_mins@ =~= Seq::new(
        b.total() as nat,
        |v: int|
            if v < b.n() {
                b.mins[v]
            } else {
                T::zero_spec()
            },
    ));
    assert(s.orig_var_maxs@ =~= Seq::new(
        b.total() as nat,
        |v: int|
            if v < b.n() {
                b.maxs[v]
            } else {
                T::infinity_spec()
            },
    ));
}

/// A constraint without variables that holds.
pub open spec fn is_blank<T: Scalar>(c: (CsVec<T>, RelOp, T)) -> bool {
    c.0.indices@.len() == 0 && tautology(c.1, c.2)
}

/// The constraints without those that are blank.
pub open spec fn without_blanks<T: Scalar>(s: Seq<(CsVec<T>, RelOp, T)>) -> Seq<
    (CsVec<T>, RelOp, T),
>
    decreases s.len(),
{
    if s.len() == 0 {
        Seq::empty()
    } else if is_blank(s.last()) {
        without_blanks(s.drop_last())
    } else {
        without_blanks(s.drop_last()).push(s.last())
    }
}

/// The rows of a program are those of the program without its blank constraints.
proof fn live_without_blanks<T: Scalar>(a: Input<T>, b: Input<T>, k: int)
    requires
        0 <= k <= a.constraints.len(),
        without_blanks(a.constraints.take(k)).len() <= b.constraints.len(),
        forall|i: int|
            0 <= i < without_blanks(a.constraints.take(k)).len() ==> #[trigger] b.constraints[i]
                == without_blanks(a.constraints.take(k))[i],
    ensures
        ({
            let x = a.live(k);
            let y = b.live(without_blanks(a.constraints.take(k)).len() as int);
            &&& x.len() == y.len()
            &&& forall|r: int|
                0 <= r < x.len() ==> a.constraints[#[trigger] x[r]] == b.constraints[y[r]]
        }),
    decreases k,
{
    let w = without_blanks(a.constraints.take(k));
    if k > 0 {
        let c = a.constraints[k - 1];
        let v = without_blanks(a.constraints.take(k - 1));
        assert(a.constraints.take(k).drop_last() =~= a.constraints.take(k - 1));
        assert(a.constraints.take(k).last() == c);
        assert forall|i: int| 0 <= i < v.len() implies #[trigger] b.constraints[i] == v[i] by {
            assert(w[i] == v[i]);
        }
        live_without_blanks(a, b, k - 1);
        if !is_blank(c) {
            assert(b.constraints[v.len() as int] == c);
        }
    }
}

proof fn blanks_are_dropped<T: Scalar>(s: Seq<(CsVec<T>, RelOp, T)>)
    ensures
        forall|j: int|
            0 <= j < s.len() && !is_blank(#[trigger] s[j]) ==> without_blanks(s).contains(s[j]),
        forall|j: int|
            0 <= j < without_blanks(s).len() ==> s.contains(#[trigger] without_blanks(s)[j]),
    decreases s.len(),
{
    if s.len() > 0 {
        let t = s.drop_last();
        let (w, v) = (without_blanks(s), without_blanks(t));
        blanks_are_dropped(t);
        assert forall|j: int| 0 <= j < s.len() && !is_blank(#[trigger] s[j]) implies w.contains(
            s[j],
        ) by {
            if j < t.len() {
                assert(t[j] == s[j]);
                assert(v.contains(s[j]));
                let i = choose|i: int| 0 <= i < v.len() && v[i] == s[j];
                assert(w[i] == s[j]);
            } else {
                assert(w[w.len() - 1] == s[j]);
            }
        }
        assert forall|j: int| 0 <= j < w.len() implies s.contains(#[trigger] w[j]) by {
            if j < v.len() {
                assert(w[j] == v[j]);
                assert(t.contains(v[j]));
                let i = choose|i: int| 0 <= i < t.len() && t[i] == v[j];
                assert(s[i] == w[j]);
            } else {
                assert(s[s.len() - 1] == w[j]);
            }
        }
    }
}

/// Constraints without variables that hold leave no trace: with them and without them there is the
/// same first vertex, or the same error.
pub proof fn blanks_leave_no_trace<T: Scalar>(a: Input<T>, b: Input<T>, s: Solver<T>)
    requires
        b.obj == a.obj,
        b.mins == a.mins,
        b.maxs == a.maxs,
        b.constraints == without_blanks(a.constraints),
    ensures
        a.infeasible() == b.infeasible(),
        signs_usable(a) == signs_usable(b),
        started(a, s) == started(b, s),
{
    let n = a.constraints.len() as int;
    assert(a.constraints.take(n) =~= a.constraints);
    live_without_blanks(a, b, n);
    assert(same_rows(a, b)) by {
        assert forall|r: int| 0 <= r < a.m() implies a.constraints[#[trigger] a.source(r)]
            == b.constraints[b.source(r)] by {
            assert(a.constraints[a.live(n)[r]] == b.constraints[b.live(
                b.constraints.len() as int,
            )[r]]);
        }
    }
    assert(same_rows(b, a));
    if started(a, s) {
        starts_alike(a, b, s);
    }
    if started(b, s) {
        starts_alike(b, a, s);
    }
    if signs_usable(a) {
        signs_alike(a, b);
    }
    if signs_usable(b) {
        signs_alike(b, a);
    }
    blanks_are_dropped(a.constraints);
    if a.infeasible() {
        fails_alike(a, b);
    }
    if b.infeasible() {
        fails_alike(b, a);
    }
}

proof fn fails_alike<T: Scalar>(a: Input<T>, b: Input<T>)
    requires
        a.infeasible(),
        b.obj == a.obj,
        b.mins == a.mins,
        b.maxs == a.maxs,
        forall|j: int|
            0 <= j < a.constraints.len() && !is_blank(#[trigger] a.constraints[j])
                ==> b.constraints.contains(a.constraints[j]),
    ensures
        b.infeasible(),
{
    if exists|v: int| 0 <= v < a.n() && #[trigger] a.maxs[v].less_spec(a.mins[v]) {
        let v = choose|v: int| 0 <= v < a.n() && #[trigger] a.maxs[v].less_spec(a.mins[v]);
        assert(b.maxs[v].less_spec(b.mins[v]));
    } else {
        let j = choose|j: int|
            0 <= j < a.constraints.len() && (#[trigger] a.constraints[j]).0.indices@.len() == 0
                && !tautology(a.constraints[j].1, a.constraints[j].2);
        assert(!is_blank(a.constraints[j]));
        assert(b.constraints.contains(a.constraints[j]));
        let i = choose|i: int|
            0 <= i < b.constraints.len() && b.constraints[i] == a.constraints[j];
        assert(b.constraints[i].0.indices@.len() == 0);
    }
}

proof fn signs_alike<T: Scalar>(a: Input<T>, b: Input<T>)
    requires
        same_rows(a, b),
        signs_usable(a),
    ensures
        signs_usable(b),
{
    assert forall|r: int| 0 <= r < b.m() && b.needs_art(b.source(r)) implies acceptable_alone(
        (#[trigger] b.diff(b.source(r))).signum_spec(),
        T::stability_spec(),
    ) by {
        row_facts(a, b, r);
        assert(a.diff(a.source(r)) == b.diff(b.source(r)));
    }
}

} // verus!
