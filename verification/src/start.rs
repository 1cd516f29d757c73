//! The first vertex of a program.
use crate::basis::BasisSolver;
use crate::edits::{is_tautology, tautology};
use crate::error::Error;
use crate::eta::EtaMatrices;
use crate::lu::{lu_factorize, single_entries, usable_entries, ScratchSpace};
use crate::perm::numbers;
use crate::phases::count_from;
use crate::scalar::{acceptable_alone, Scalar};
use crate::scattered::ScatteredVec;
use crate::simplex::{located, same_matrix, RelOp, Solver, SENTINEL};
use crate::sparse::{
    at_place, below, dense_dot, filled, fit, into_resized, place, sparse_dot, square_sum, CsMat,
    CsVec, SparseVec, Storage,
};
use crate::vars::lengths_add_up;
use std::collections::HashMap;
use vstd::prelude::*;

verus! {

/// A linear program: objective, limits of the variables, constraints.
pub struct Input<T> {
    pub obj: Seq<T>,
    pub mins: Seq<T>,
    pub maxs: Seq<T>,
    pub constraints: Seq<(CsVec<T>, RelOp, T)>,
}

impl<T: Scalar> Input<T> {
    pub open spec fn n(self) -> int {
        self.obj.len() as int
    }

    /// The value that a variable starts with.
    pub open spec fn init(self, v: int) -> T {
        if self.mins[v].finite() {
            self.mins[v]
        } else {
            self.maxs[v]
        }
    }

    pub open spec fn vals(self) -> Seq<T> {
        Seq::new(self.obj.len(), |v: int| self.init(v))
    }

    /// The left-hand side of a constraint at the start.
    pub open spec fn lhs(self, j: int) -> T {
        let c = self.constraints[j].0;
        dense_dot(c.indices@, c.data@, self.vals(), c.indices@.len())
    }

    pub open spec fn bound(self, j: int) -> T {
        self.constraints[j].2
    }

    pub open spec fn is_ineq(self, j: int) -> bool {
        self.constraints[j].1 != RelOp::Eq
    }

    /// Whether the start does not meet the constraint without an artificial variable.
    pub open spec fn needs_art(self, j: int) -> bool {
        match self.constraints[j].1 {
            RelOp::Le => self.bound(j).less_spec(self.lhs(j)),
            RelOp::Ge => self.lhs(j).less_spec(self.bound(j)),
            RelOp::Eq => true,
        }
    }

    /// What the constraint misses at the start.
    pub open spec fn diff(self, j: int) -> T {
        self.bound(j).minus_spec(self.lhs(j))
    }

    pub open spec fn slack_coeff(self, j: int) -> T {
        match self.constraints[j].1 {
            RelOp::Ge => T::one_spec().negated_spec(),
            _ => T::one_spec(),
        }
    }

    /// Those of the first `k` constraints that have variables.
    pub open spec fn live(self, k: int) -> Seq<int>
        decreases k,
    {
        if k <= 0 {
            Seq::empty()
        } else if self.constraints[k - 1].0.indices@.len() == 0 {
            self.live(k - 1)
        } else {
            self.live(k - 1).push(k - 1)
        }
    }

    /// The constraint that row `r` comes from.
    pub open spec fn source(self, r: int) -> int {
        self.live(self.constraints.len() as int)[r]
    }

    /// The number of rows.
    pub open spec fn m(self) -> int {
        self.live(self.constraints.len() as int).len() as int
    }

    /// The number of inequalities among the first `r` rows.
    pub open spec fn slacks(self, r: int) -> int
        decreases r,
    {
        if r <= 0 {
            0
        } else if self.is_ineq(self.source(r - 1)) {
            self.slacks(r - 1) + 1
        } else {
            self.slacks(r - 1)
        }
    }

    /// The number of artificial variables for the first `r` rows.
    pub open spec fn arts(self, r: int) -> int
        decreases r,
    {
        if r <= 0 {
            0
        } else if self.needs_art(self.source(r - 1)) {
            self.arts(r - 1) + 1
        } else {
            self.arts(r - 1)
        }
    }

    /// The slack variable of row `r`.
    pub open spec fn slack_var(self, r: int) -> int {
        self.n() + self.slacks(r)
    }

    /// The artificial variable of row `r`.
    pub open spec fn art_var(self, r: int) -> int {
        self.n() + self.slacks(self.m()) + self.arts(r)
    }

    pub open spec fn total(self) -> int {
        self.n() + self.slacks(self.m()) + self.arts(self.m())
    }

    /// The variable that is basic for row `r` at the start.
    pub open spec fn basic_var(self, r: int) -> int {
        if self.needs_art(self.source(r)) {
            self.art_var(r)
        } else {
            self.slack_var(r)
        }
    }

    /// Whether row `r` has an entry for the variable `v`.
    pub open spec fn entry_has(self, r: int, v: int) -> bool {
        let j = self.source(r);
        ||| v < self.n() && self.constraints[j].0.stores(v)
        ||| self.is_ineq(j) && v == self.slack_var(r)
        ||| self.needs_art(j) && v == self.art_var(r)
    }

    pub open spec fn entry(self, r: int, v: int) -> T {
        let j = self.source(r);
        if v < self.n() {
            self.constraints[j].0.value(v)
        } else if self.is_ineq(j) && v == self.slack_var(r) {
            self.slack_coeff(j)
        } else if self.needs_art(j) && v == self.art_var(r) {
            self.diff(j).signum_spec()
        } else {
            T::zero_spec()
        }
    }

    /// The slack variables of the first `r` rows that are not basic.
    pub open spec fn loose_slacks(self, r: int) -> Seq<usize>
        decreases r,
    {
        if r <= 0 {
            Seq::empty()
        } else {
            let j = self.source(r - 1);
            if self.needs_art(j) && self.is_ineq(j) {
                self.loose_slacks(r - 1).push(self.slack_var(r - 1) as usize)
            } else {
                self.loose_slacks(r - 1)
            }
        }
    }

    /// The sum of what the first `r` rows miss.
    pub open spec fn missing(self, r: int) -> T
        decreases r,
    {
        if r <= 0 {
            T::zero_spec()
        } else if self.needs_art(self.source(r - 1)) {
            self.missing(r - 1).plus_spec(self.diff(self.source(r - 1)).absolute_spec())
        } else {
            self.missing(r - 1)
        }
    }

    /// What the objective is worth with the first `k` variables.
    pub open spec fn start_obj(self, k: int) -> T
        decreases k,
    {
        if k <= 0 {
            T::zero_spec()
        } else {
            self.start_obj(k - 1).minus_spec(self.init(k - 1).times_spec(self.obj[k - 1].negated_spec()))
        }
    }

    /// The limits of a variable exclude each other, or a constraint without variables fails.
    pub open spec fn infeasible(self) -> bool {
        ||| exists|v: int|
            0 <= v < self.n() && #[trigger] self.maxs[v].less_spec(self.mins[v])
        ||| exists|j: int|
            0 <= j < self.constraints.len() && (#[trigger] self.constraints[j]).0.indices@.len()
                == 0 && !tautology(self.constraints[j].1, self.constraints[j].2)
    }

    /// The number of entries of the first `k` constraints.
    pub open spec fn entries(self, k: int) -> int
        decreases k,
    {
        if k <= 0 {
            0
        } else {
            self.entries(k - 1) + self.constraints[k - 1].0.indices@.len()
        }
    }

    /// What a program must be like: no variable is without limits, and no number is too large.
    pub open spec fn wf(self) -> bool {
        &&& self.mins.len() == self.obj.len()
        &&& self.maxs.len() == self.obj.len()
        &&& forall|v: int|
            0 <= v < self.n() && (forall|u: int|
                0 <= u <= v ==> !#[trigger] self.maxs[u].less_spec(self.mins[u]))
                ==> #[trigger] self.mins[v].finite() || self.maxs[v].finite()
        &&& forall|j: int|
            0 <= j < self.constraints.len() ==> (#[trigger] self.constraints[j]).0.wf() && below(
                self.constraints[j].0.indices@,
                self.n(),
            )
        &&& self.n() + 2 * self.constraints.len() + 2 < SENTINEL
        &&& self.entries(self.constraints.len() as int) + 2 * self.constraints.len() <= usize::MAX
            / 2
    }

    pub proof fn live_facts(self, k: int)
        requires
            0 <= k <= self.constraints.len(),
        ensures
            self.live(k).len() <= k,
            forall|r: int|
                0 <= r < self.live(k).len() ==> 0 <= #[trigger] self.live(k)[r] < k
                    && self.constraints[self.live(k)[r]].0.indices@.len() > 0,
        decreases k,
    {
        if k > 0 {
            self.live_facts(k - 1);
            let l = self.live(k - 1);
            assert forall|r: int| 0 <= r < self.live(k).len() implies 0 <= #[trigger] self.live(
                k,
            )[r] < k && self.constraints[self.live(k)[r]].0.indices@.len() > 0 by {
                if r < l.len() {
                    assert(self.live(k)[r] == l[r]);
                }
            }
        }
    }

    pub proof fn counts(self, a: int, b: int)
        requires
            0 <= a <= b,
        ensures
            0 <= self.slacks(a) <= self.slacks(b) <= self.slacks(a) + b - a,
            0 <= self.arts(a) <= self.arts(b) <= self.arts(a) + b - a,
            a < b && self.is_ineq(self.source(a)) ==> self.slacks(a) < self.slacks(b),
            a < b && self.needs_art(self.source(a)) ==> self.arts(a) < self.arts(b),
        decreases b,
    {
        if a < b {
            self.counts(a, b - 1);
        } else if a > 0 {
            self.counts(a - 1, b - 1);
        }
    }
}

/// A constraint together with what the start makes of it.
#[derive(Clone, Debug)]
pub struct ConstraintInfo<T> {
    pub coeffs: CsVec<T>,
    pub bound: T,
    pub lhs_val: T,
    pub slack_var_coeff: Option<T>,
    pub need_art_var: bool,
}

pub open spec fn info_of<T: Scalar>(input: Input<T>, j: int, info: ConstraintInfo<T>) -> bool {
    &&& info.coeffs.dim == input.constraints[j].0.dim
    &&& info.coeffs.indices@ == input.constraints[j].0.indices@
    &&& info.coeffs.data@ == input.constraints[j].0.data@
    &&& info.bound == input.bound(j)
    &&& info.lhs_val == input.lhs(j)
    &&& info.slack_var_coeff == (if input.is_ineq(j) {
        Some(input.slack_coeff(j))
    } else {
        None
    })
    &&& info.need_art_var == input.needs_art(j)
}

/// The sum of the products of the coefficients and the values.
fn lhs_value<T: Scalar>(coeffs: &CsVec<T>, vals: &Vec<T>) -> (r: T)
    requires
        coeffs.wf(),
        below(coeffs.indices@, vals@.len() as int),
    ensures
        r == dense_dot(coeffs.indices@, coeffs.data@, vals@, coeffs.indices@.len()),
{
    let n: usize = coeffs.indices.len();
    let mut sum = T::zero();
    let mut p: usize = 0;
    while p < n
        invariant
            coeffs.wf(),
            below(coeffs.indices@, vals@.len() as int),
            n == coeffs.indices@.len(),
            p <= n,
            sum == dense_dot(coeffs.indices@, coeffs.data@, vals@, p as nat),
        decreases n - p,
    {
        sum = sum.plus(coeffs.data[p].times(vals[coeffs.indices[p]]));
        p += 1;
    }
    sum
}

/// The values that the variables start with, the objective there, and the negated objective.
fn start_values<T: Scalar>(
    orig_obj: &[T],
    mins: &[T],
    maxs: &[T],
    Ghost(input): Ghost<Input<T>>,
) -> (r: Result<(Vec<T>, Vec<T>, T), Error>)
    requires
        input.wf(),
        orig_obj@ == input.obj,
        mins@ == input.mins,
        maxs@ == input.maxs,
    ensures
        match r {
            Ok((vals, obj, obj_val)) => {
                &&& vals@ == input.vals()
                &&& obj@ == Seq::new(input.obj.len(), |v: int| input.obj[v].negated_spec())
                &&& obj_val == input.start_obj(input.n())
                &&& forall|v: int|
                    0 <= v < input.n() ==> !#[trigger] input.maxs[v].less_spec(input.mins[v])
            },
            Err(e) => e == Error::Infeasible && exists|v: int|
                0 <= v < input.n() && #[trigger] input.maxs[v].less_spec(input.mins[v]),
        },
{
    let n: usize = orig_obj.len();
    let mut vals: Vec<T> = Vec::with_capacity(n);
    let mut obj: Vec<T> = Vec::with_capacity(n);
    let mut obj_val = T::zero();
    let mut v: usize = 0;
    while v < n
        invariant
            input.wf(),
            orig_obj@ == input.obj,
            mins@ == input.mins,
            maxs@ == input.maxs,
            n == input.n(),
            v <= n,
            vals@.len() == v,
            forall|u: int| 0 <= u < v ==> #[trigger] vals@[u] == input.init(u),
            obj@.len() == v,
            forall|u: int| 0 <= u < v ==> #[trigger] obj@[u] == input.obj[u].negated_spec(),
            obj_val == input.start_obj(v as int),
            forall|u: int| 0 <= u < v ==> !#[trigger] input.maxs[u].less_spec(input.mins[u]),
        decreases n - v,
    {
        let min = mins[v];
        let max = maxs[v];
        if max.less(min) {
            assert(input.maxs[v as int].less_spec(input.mins[v as int]));
            return Err(Error::Infeasible);
        }
        let init_val = if min.is_finite() {
            min
        } else {
            max
        };
        let c = orig_obj[v].negated();
        obj.push(c);
        vals.push(init_val);
        obj_val = obj_val.minus(init_val.times(c));
        v += 1;
    }
    proof {
        assert(vals@ =~= input.vals());
        assert(obj@ =~= Seq::new(input.obj.len(), |v: int| input.obj[v].negated_spec()));
    }
    Ok((vals, obj, obj_val))
}

/// The constraints that have variables.
fn read_constraints<T: Scalar>(
    constraints: &[(CsVec<T>, RelOp, T)],
    vals: &Vec<T>,
    Ghost(input): Ghost<Input<T>>,
) -> (r: Result<Vec<ConstraintInfo<T>>, Error>)
    requires
        input.wf(),
        constraints@ == input.constraints,
        vals@ == input.vals(),
    ensures
        match r {
            Ok(infos) => {
                &&& infos@.len() == input.m()
                &&& forall|r: int|
                    0 <= r < input.m() ==> info_of(input, input.source(r), #[trigger] infos@[r])
                &&& forall|j: int|
                    0 <= j < input.constraints.len() && (
                    #[trigger] input.constraints[j]).0.indices@.len() == 0 ==> tautology(
                        input.constraints[j].1,
                        input.constraints[j].2,
                    )
            },
            Err(e) => e == Error::Infeasible && exists|j: int|
                0 <= j < input.constraints.len() && (
                #[trigger] input.constraints[j]).0.indices@.len() == 0 && !tautology(
                    input.constraints[j].1,
                    input.constraints[j].2,
                ),
        },
{
    let n: usize = constraints.len();
    let mut infos: Vec<ConstraintInfo<T>> = Vec::new();
    let mut k: usize = 0;
    while k < n
        invariant
            input.wf(),
            constraints@ == input.constraints,
            vals@ == input.vals(),
            n == input.constraints.len(),
            k <= n,
            infos@.len() == input.live(k as int).len(),
            forall|r: int|
                0 <= r < infos@.len() ==> info_of(
                    input,
                    input.live(k as int)[r],
                    #[trigger] infos@[r],
                ),
            forall|j: int|
                0 <= j < k && (#[trigger] input.constraints[j]).0.indices@.len() == 0 ==> tautology(
                    input.constraints[j].1,
                    input.constraints[j].2,
                ),
        decreases n - k,
    {
        let ghost before = infos@;
        let ghost l = input.live(k as int);
        assert(input.constraints[k as int].0.wf());
        let rel_op = constraints[k].1;
        let bound = constraints[k].2;
        if constraints[k].0.indices.len() == 0 {
            if !is_tautology(rel_op, bound) {
                assert(input.constraints[k as int].0.indices@.len() == 0);
                return Err(Error::Infeasible);
            }
        } else {
            let lhs_val = lhs_value(&constraints[k].0, vals);
            let (slack_var_coeff, need_art_var): (Option<T>, bool) = match rel_op {
                RelOp::Le => (Some(T::one()), bound.less(lhs_val)),
                RelOp::Ge => (Some(T::one().negated()), lhs_val.less(bound)),
                RelOp::Eq => (None, true),
            };
            infos.push(
                ConstraintInfo {
                    coeffs: constraints[k].0.copy(),
                    bound,
                    lhs_val,
                    slack_var_coeff,
                    need_art_var,
                },
            );
        }
        k += 1;
        proof {
            let l2 = input.live(k as int);
            assert forall|r: int| 0 <= r < infos@.len() implies info_of(
                input,
                l2[r],
                #[trigger] infos@[r],
            ) by {
                if r < before.len() {
                    assert(infos@[r] == before[r]);
                    assert(l2[r] == l[r]);
                }
            }
        }
    }
    Ok(infos)
}

/// The rows of a program and its first vertex, as far as they are made.
pub struct Builder<T> {
    pub rows: CsMat<T>,
    pub bounds: Vec<T>,
    pub cur_bounds: Vec<T>,
    pub basic_vars: Vec<usize>,
    pub basic_vars_inv: Vec<usize>,
    pub non_basic_vars: Vec<usize>,
    pub non_basic_vars_inv: Vec<usize>,
    pub non_basic_vals: Vec<T>,
    pub multipliers: CsVec<T>,
    pub obj_val: T,
    pub cur_slack_var: usize,
    pub cur_artificial_var: usize,
}

impl<T: Scalar> Input<T> {
    /// Those of the first `k` rows that have an artificial variable.
    pub open spec fn art_rows(self, k: int) -> Seq<usize>
        decreases k,
    {
        if k <= 0 {
            Seq::empty()
        } else if self.needs_art(self.source(k - 1)) {
            self.art_rows(k - 1).push((k - 1) as usize)
        } else {
            self.art_rows(k - 1)
        }
    }

    /// The coefficients of the artificial variables of the first `k` rows.
    pub open spec fn art_signs(self, k: int) -> Seq<T>
        decreases k,
    {
        if k <= 0 {
            Seq::empty()
        } else if self.needs_art(self.source(k - 1)) {
            self.art_signs(k - 1).push(self.diff(self.source(k - 1)).signum_spec())
        } else {
            self.art_signs(k - 1)
        }
    }

    /// What a variable is worth while the objective is the sum of what the rows miss: the sum of
    /// its coefficients in the first `k` rows, each with the sign of the artificial variable.
    pub open spec fn infeas_cost(self, v: int, k: int) -> T
        decreases k,
    {
        if k <= 0 {
            T::zero_spec()
        } else if self.needs_art(self.source(k - 1)) && self.entry_has(k - 1, v) {
            self.infeas_cost(v, k - 1).plus_spec(
                self.diff(self.source(k - 1)).signum_spec().times_spec(self.entry(k - 1, v)),
            )
        } else {
            self.infeas_cost(v, k - 1)
        }
    }

    /// How many entries the first `k` rows have at most.
    pub open spec fn row_entries(self, k: int) -> int
        decreases k,
    {
        if k <= 0 {
            0
        } else {
            self.row_entries(k - 1) + self.constraints[self.source(k - 1)].0.indices@.len() + 2
        }
    }

    /// Whether the variable `v` has its place when the first `k` rows are made.
    pub open spec fn placed(self, v: int, k: int) -> bool {
        ||| v < self.slack_var(k)
        ||| self.n() + self.slacks(self.m()) <= v < self.art_var(k)
    }

    /// The variables that are not basic when the first `k` rows are made.
    pub open spec fn rest_vars(self, k: int) -> Seq<usize> {
        crate::perm::counting(self.obj.len()) + self.loose_slacks(k)
    }

    pub open spec fn rest_vals(self, k: int) -> Seq<T> {
        self.vals() + Seq::new(self.loose_slacks(k).len(), |i: int| T::zero_spec())
    }
}

/// The variables that the first `k` rows place have a place in one of the lists, and only those.
#[verifier::opaque]
pub open spec fn all_placed<T: Scalar>(
    input: Input<T>,
    b: Seq<usize>,
    n: Seq<usize>,
    k: int,
) -> bool {
    forall|v: int| 0 <= v < input.total() ==> #[trigger] place_fits(input, b, n, k, v)
}

/// Variable `v` has a place in one of the lists, if the first `k` rows place it, or in none.
pub open spec fn place_fits<T: Scalar>(
    input: Input<T>,
    b: Seq<usize>,
    n: Seq<usize>,
    k: int,
    v: int,
) -> bool {
    if input.placed(v, k) {
        (b[v] == SENTINEL) != (n[v] == SENTINEL)
    } else {
        b[v] == SENTINEL && n[v] == SENTINEL
    }
}

/// The first `k` rows are made.
pub open spec fn built<T: Scalar>(input: Input<T>, b: Builder<T>, k: int) -> bool {
    let total = input.total();
    &&& b.rows.wf()
    &&& b.rows.storage == Storage::Csr
    &&& b.rows.nrows == k
    &&& b.rows.ncols == total
    &&& b.rows.indices@.len() <= input.row_entries(k)
    &&& forall|r: int, v: int|
        0 <= r < k ==> #[trigger] b.rows.line_has(r, v) == input.entry_has(r, v)
    &&& forall|r: int, v: int| 0 <= r < k ==> #[trigger] b.rows.line(r, v) == input.entry(r, v)
    &&& b.bounds@ == Seq::new(k as nat, |r: int| input.bound(input.source(r)))
    &&& b.cur_bounds@ == Seq::new(
        k as nat,
        |r: int| input.diff(input.source(r)).absolute_spec(),
    )
    &&& b.basic_vars@ == Seq::new(k as nat, |r: int| input.basic_var(r) as usize)
    &&& b.non_basic_vars@ == input.rest_vars(k)
    &&& b.non_basic_vals@ == input.rest_vals(k)
    &&& located(b.basic_vars@, b.basic_vars_inv@, total)
    &&& located(b.non_basic_vars@, b.non_basic_vars_inv@, total)
    &&& all_placed(input, b.basic_vars_inv@, b.non_basic_vars_inv@, k)
    &&& b.multipliers.wf()
    &&& b.multipliers.dim == input.m()
    &&& b.multipliers.indices@ == input.art_rows(k)
    &&& b.multipliers.data@ == input.art_signs(k)
    &&& b.obj_val == input.missing(k)
    &&& b.cur_slack_var == input.slack_var(k)
    &&& b.cur_artificial_var == input.art_var(k)
}

/// Puts a variable at the end of a list.
fn place_var(list: &mut Vec<usize>, inv: &mut Vec<usize>, v: usize)
    requires
        located(old(list)@, old(inv)@, old(inv)@.len() as int),
        v < old(inv)@.len(),
        old(inv)@[v as int] == SENTINEL,
        old(list)@.len() + 1 < SENTINEL,
    ensures
        located(final(list)@, final(inv)@, old(inv)@.len() as int),
        final(list)@ == old(list)@.push(v),
        final(inv)@ == old(inv)@.update(v as int, old(list)@.len() as usize),
{
    inv[v] = list.len();
    list.push(v);
    proof {
        let (l, i, total) = (list@, inv@, old(inv)@.len() as int);
        assert forall|k: int| 0 <= k < l.len() implies #[trigger] l[k] < total && i[l[k] as int]
            == k by {
            if k < old(list)@.len() {
                assert(old(list)@[k] < total);
                assert(old(inv)@[old(list)@[k] as int] == k);
            }
        }
        assert forall|w: int| 0 <= w < total implies (#[trigger] i[w] == SENTINEL || i[w] < l.len()
            && l[i[w] as int] == w) by {
            if w != v {
                assert(i[w] == old(inv)@[w]);
            }
        }
    }
}

/// The row of a constraint, with its slack and artificial variables.
fn make_row<T: Scalar>(
    info: &ConstraintInfo<T>,
    total: usize,
    slack_var: usize,
    artificial_var: usize,
    Ghost(input): Ghost<Input<T>>,
    Ghost(r): Ghost<int>,
) -> (row: CsVec<T>)
    requires
        input.wf(),
        0 <= r < input.m(),
        info_of(input, input.source(r), *info),
        total == input.total(),
        slack_var == input.slack_var(r),
        artificial_var == input.art_var(r),
    ensures
        row.wf(),
        row.dim == total,
        row.indices@.len() <= input.constraints[input.source(r)].0.indices@.len() + 2,
        forall|v: int| #[trigger] row.stores(v) == input.entry_has(r, v),
        forall|v: int| #[trigger] row.value(v) == input.entry(r, v),
{
    let ghost j = input.source(r);
    let ghost given = input.constraints[j].0;
    proof {
        input.live_facts(input.constraints.len() as int);
        input.counts(0, r);
        input.counts(r, input.m());
        assert(input.constraints[j].0.wf());
        assert forall|v: int| #[trigger] info.coeffs.stores(v) implies 0 <= v < input.n() by {
            let p = place(given.indices@, 0, given.indices@.len() as int, v);
            assert(given.indices@[p] < input.n());
        }
        assert forall|v: int| #[trigger] info.coeffs.stores(v) == given.stores(v) by {}
        assert forall|v: int| #[trigger] info.coeffs.value(v) == given.value(v) by {}
    }
    let mut row = into_resized(info.coeffs.copy(), total);
    let ghost bare = row;
    proof {
        assert forall|v: int| #[trigger] bare.stores(v) == given.stores(v) by {
            assert(bare.stores(v) == (info.coeffs.stores(v) && v < total));
        }
        assert forall|v: int| #[trigger] bare.value(v) == given.value(v) by {
            assert(bare.stores(v) == given.stores(v));
            if v < total {
                assert(info.coeffs.value(v) == given.value(v));
            }
        }
        below_all(bare, input.n());
    }
    if let Some(coeff) = info.slack_var_coeff {
        row.append(slack_var, coeff);
        proof {
            crate::invert::appended_entry(bare, row);
        }
    }
    let ghost mid = row;
    proof {
        below_all(mid, input.n() + input.slacks(input.m()));
    }
    if info.need_art_var {
        let diff = info.bound.minus(info.lhs_val);
        row.append(artificial_var, diff.signum());
        proof {
            crate::invert::appended_entry(mid, row);
        }
    }
    proof {
        assert forall|v: int| #[trigger] row.stores(v) == input.entry_has(r, v) by {
            assert(bare.stores(v) == given.stores(v));
            assert(info.coeffs.stores(v) == given.stores(v));
        }
        assert forall|v: int| #[trigger] row.value(v) == input.entry(r, v) by {
            assert(bare.value(v) == given.value(v));
            assert(bare.stores(v) == given.stores(v));
            assert(info.coeffs.stores(v) == given.stores(v));
        }
    }
    row
}

proof fn dot_prefix<T: Scalar>(
    idx: Seq<usize>,
    data: Seq<T>,
    idx2: Seq<usize>,
    data2: Seq<T>,
    rhs: CsVec<T>,
    k: nat,
)
    requires
        k <= idx.len() <= idx2.len(),
        k <= data.len() <= data2.len(),
        forall|i: int| 0 <= i < k ==> #[trigger] idx2[i] == idx[i],
        forall|i: int| 0 <= i < k ==> #[trigger] data2[i] == data[i],
    ensures
        sparse_dot(idx2, data2, rhs, k) == sparse_dot(idx, data, rhs, k),
    decreases k,
{
    if k > 0 {
        dot_prefix(idx, data, idx2, data2, rhs, (k - 1) as nat);
    }
}

/// The last index of a vector is below a limit that all are below.
proof fn below_all<T: Scalar>(v: CsVec<T>, limit: int)
    requires
        v.wf(),
        forall|i: int| #[trigger] v.stores(i) ==> i < limit,
    ensures
        v.indices@.len() > 0 ==> v.indices@.last() < limit,
{
    if v.indices@.len() > 0 {
        let p = v.indices@.len() - 1;
        assert(v.indices@[p] == v.indices@[p] as int);
        assert(v.stores(v.indices@[p] as int));
    }
}

/// The variables of the next row have no place yet.
proof fn places_are_free<T: Scalar>(
    input: Input<T>,
    info: ConstraintInfo<T>,
    k: int,
    b: Seq<usize>,
    n: Seq<usize>,
)
    requires
        input.wf(),
        0 <= k < input.m(),
        info_of(input, input.source(k), info),
        all_placed(input, b, n, k),
    ensures
        info.slack_var_coeff is Some ==> ({
            let s = input.slack_var(k);
            0 <= s < input.total() && b[s] == SENTINEL && n[s] == SENTINEL
        }),
        info.need_art_var ==> ({
            let a = input.art_var(k);
            0 <= a < input.total() && b[a] == SENTINEL && n[a] == SENTINEL
        }),
{
    let s = input.slack_var(k);
    let a = input.art_var(k);
    input.live_facts(input.constraints.len() as int);
    input.counts(0, k);
    input.counts(k, input.m());
    if info.slack_var_coeff is Some {
        assert(0 <= s < input.total());
        assert(!input.placed(s, k));
        placed_at(input, b, n, k, s);
    }
    if info.need_art_var {
        assert(0 <= a < input.total());
        assert(!input.placed(a, k));
        placed_at(input, b, n, k, a);
    }
}

/// Where all variables fit their places, each does.
proof fn placed_at<T: Scalar>(input: Input<T>, b: Seq<usize>, n: Seq<usize>, k: int, v: int)
    requires
        all_placed(input, b, n, k),
        0 <= v < input.total(),
    ensures
        place_fits(input, b, n, k, v),
{
    reveal(all_placed);
}

/// With the variables of one more row placed, all of that row are.
proof fn more_are_placed<T: Scalar>(
    input: Input<T>,
    info: ConstraintInfo<T>,
    k: int,
    b: Seq<usize>,
    n: Seq<usize>,
    x: usize,
    y: usize,
    b2: Seq<usize>,
    n2: Seq<usize>,
)
    requires
        input.wf(),
        0 <= k < input.m(),
        info_of(input, input.source(k), info),
        all_placed(input, b, n, k),
        b.len() == input.total(),
        n.len() == input.total(),
        x != SENTINEL,
        y != SENTINEL,
        b2 == if info.need_art_var {
            b.update(input.art_var(k), x)
        } else {
            b.update(input.slack_var(k), x)
        },
        n2 == if info.need_art_var && info.slack_var_coeff is Some {
            n.update(input.slack_var(k), y)
        } else {
            n
        },
    ensures
        all_placed(input, b2, n2, k + 1),
{
    reveal(all_placed);
    places_are_free(input, info, k, b, n);
    input.live_facts(input.constraints.len() as int);
    input.counts(0, k);
    input.counts(k, input.m());
    input.counts(k + 1, input.m());
    let s = input.slack_var(k);
    let a = input.art_var(k);
    assert forall|v: int| 0 <= v < input.total() implies #[trigger] place_fits(
        input,
        b2,
        n2,
        k + 1,
        v,
    ) by {
        placed_at(input, b, n, k, v);
        assert(input.placed(v, k + 1) == (input.placed(v, k) || info.slack_var_coeff is Some && v
            == s || info.need_art_var && v == a));
    }
}

impl<T: Scalar> Builder<T> {
    /// Gives the slack and artificial variables of a row their places.
    fn place_vars(
        &mut self,
        info: &ConstraintInfo<T>,
        Ghost(input): Ghost<Input<T>>,
        Ghost(k): Ghost<int>,
    )
        requires
            input.wf(),
            0 <= k < input.m(),
            info_of(input, input.source(k), *info),
            built(input, *old(self), k),
        ensures
            *final(self) == (Builder {
                basic_vars: final(self).basic_vars,
                basic_vars_inv: final(self).basic_vars_inv,
                non_basic_vars: final(self).non_basic_vars,
                non_basic_vars_inv: final(self).non_basic_vars_inv,
                non_basic_vals: final(self).non_basic_vals,
                ..*old(self)
            }),
            final(self).basic_vars@ == Seq::new(
                (k + 1) as nat,
                |r: int| input.basic_var(r) as usize,
            ),
            final(self).non_basic_vars@ == input.rest_vars(k + 1),
            final(self).non_basic_vals@ == input.rest_vals(k + 1),
            located(final(self).basic_vars@, final(self).basic_vars_inv@, input.total()),
            located(final(self).non_basic_vars@, final(self).non_basic_vars_inv@, input.total()),
            all_placed(
                input,
                final(self).basic_vars_inv@,
                final(self).non_basic_vars_inv@,
                k + 1,
            ),
    {
        let ghost total = input.total();
        proof {
            input.live_facts(input.constraints.len() as int);
            input.counts(0, k);
            input.counts(k, input.m());
            input.loose_len(k);
            places_are_free(input, *info, k, self.basic_vars_inv@, self.non_basic_vars_inv@);
        }
        if info.need_art_var {
            if info.slack_var_coeff.is_some() {
                place_var(&mut self.non_basic_vars, &mut self.non_basic_vars_inv, self.cur_slack_var);
                self.non_basic_vals.push(T::zero());
            }
            place_var(&mut self.basic_vars, &mut self.basic_vars_inv, self.cur_artificial_var);
        } else {
            place_var(&mut self.basic_vars, &mut self.basic_vars_inv, self.cur_slack_var);
        }
        proof {
            assert(located(self.basic_vars@, self.basic_vars_inv@, total));
            assert(located(self.non_basic_vars@, self.non_basic_vars_inv@, total));
            assert(self.basic_vars@ =~= Seq::new(
                (k + 1) as nat,
                |r: int| input.basic_var(r) as usize,
            ));
            assert(self.non_basic_vars@ =~= input.rest_vars(k + 1));
            assert(self.non_basic_vals@ =~= input.rest_vals(k + 1));
            more_are_placed(
                input,
                *info,
                k,
                old(self).basic_vars_inv@,
                old(self).non_basic_vars_inv@,
                old(self).basic_vars@.len() as usize,
                old(self).non_basic_vars@.len() as usize,
                self.basic_vars_inv@,
                self.non_basic_vars_inv@,
            );
        }
    }

    /// Makes one more row.
    fn add_constraint(
        &mut self,
        info: &ConstraintInfo<T>,
        total: usize,
        Ghost(input): Ghost<Input<T>>,
        Ghost(k): Ghost<int>,
    )
        requires
            input.wf(),
            total == input.total(),
            0 <= k < input.m(),
            info_of(input, input.source(k), *info),
            built(input, *old(self), k),
        ensures
            built(input, *final(self), k + 1),
    {
        proof {
            input.live_facts(input.constraints.len() as int);
            input.counts(0, k);
            input.counts(k, input.m());
        }
        self.place_vars(info, Ghost(input), Ghost(k));
        let row = make_row(
            info,
            total,
            self.cur_slack_var,
            self.cur_artificial_var,
            Ghost(input),
            Ghost(k),
        );
        let diff = info.bound.minus(info.lhs_val);
        if info.slack_var_coeff.is_some() {
            self.cur_slack_var = self.cur_slack_var + 1;
        }
        if info.need_art_var {
            self.obj_val = self.obj_val.plus(diff.absolute());
            let r: usize = self.basic_vars.len() - 1;
            proof {
                input.art_rows_below(k);
            }
            self.multipliers.append(r, diff.signum());
            self.cur_artificial_var = self.cur_artificial_var + 1;
        }
        let ghost rows0 = self.rows;
        self.rows.append_outer(&row);
        self.bounds.push(info.bound);
        self.cur_bounds.push(diff.absolute());
        proof {
            assert(self.bounds@ =~= Seq::new(
                (k + 1) as nat,
                |r: int| input.bound(input.source(r)),
            ));
            assert(self.cur_bounds@ =~= Seq::new(
                (k + 1) as nat,
                |r: int| input.diff(input.source(r)).absolute_spec(),
            ));
            assert forall|r: int, v: int| 0 <= r < k + 1 implies #[trigger] self.rows.line_has(r, v)
                == input.entry_has(r, v) by {
                if r < k {
                    assert(self.rows.line_has(r, v) == rows0.line_has(r, v));
                } else {
                    assert(self.rows.line_has(k, v) == row.stores(v));
                }
            }
            assert forall|r: int, v: int| 0 <= r < k + 1 implies #[trigger] self.rows.line(r, v)
                == input.entry(r, v) by {
                if r < k {
                    assert(self.rows.line(r, v) == rows0.line(r, v));
                } else {
                    assert(self.rows.line(k, v) == row.value(v));
                }
            }
        }
    }
}

impl<T: Scalar> Input<T> {
    pub proof fn loose_len(self, k: int)
        requires
            0 <= k <= self.m(),
        ensures
            self.loose_slacks(k).len() <= k,
        decreases k,
    {
        if k > 0 {
            self.loose_len(k - 1);
        }
    }

    /// The rows have no more entries than the constraints, and two more each.
    pub proof fn row_entries_bound(self, k: int)
        requires
            0 <= k <= self.constraints.len(),
        ensures
            self.row_entries(self.live(k).len() as int) <= self.entries(k) + 2 * k,
        decreases k,
    {
        if k > 0 {
            self.row_entries_bound(k - 1);
            if self.constraints[k - 1].0.indices@.len() != 0 {
                let r = self.live(k - 1).len() as int;
                self.live_prefix(k, self.constraints.len() as int);
                assert(self.live(k)[r] == k - 1);
                assert(self.source(r) == k - 1);
            }
        }
    }

    proof fn art_rows_below(self, k: int)
        requires
            0 <= k <= usize::MAX,
        ensures
            self.art_rows(k).len() == self.art_signs(k).len(),
            below(self.art_rows(k), k),
        decreases k,
    {
        if k > 0 {
            self.art_rows_below(k - 1);
        }
    }

    /// The cost of a variable as a product of vectors.
    proof fn infeas_cost_dot(self, v: int, col: CsVec<T>, k: int)
        requires
            0 <= k <= self.m() <= usize::MAX,
            forall|r: int| 0 <= r < self.m() ==> #[trigger] col.stores(r) == self.entry_has(r, v),
            forall|r: int| 0 <= r < self.m() ==> #[trigger] col.value(r) == self.entry(r, v),
        ensures
            sparse_dot(self.art_rows(k), self.art_signs(k), col, self.art_rows(k).len())
                == self.infeas_cost(v, k),
        decreases k,
    {
        if k > 0 {
            self.infeas_cost_dot(v, col, k - 1);
            self.art_rows_below(k - 1);
            if self.needs_art(self.source(k - 1)) {
                dot_prefix(
                    self.art_rows(k - 1),
                    self.art_signs(k - 1),
                    self.art_rows(k),
                    self.art_signs(k),
                    col,
                    self.art_rows(k - 1).len(),
                );
                assert(col.stores(k - 1) == self.entry_has(k - 1, v));
                assert(col.value(k - 1) == self.entry(k - 1, v));
            }
        }
    }

    /// A variable with a place of its own in the basis has an entry in its row only.
    pub proof fn basic_entry(self, r: int, i: int)
        requires
            self.wf(),
            0 <= r < self.m(),
            0 <= i < self.m(),
        ensures
            self.n() <= self.basic_var(r) < self.total(),
            self.entry_has(i, self.basic_var(r)) <==> i == r,
            self.basic_var(r) >= self.n() + self.slacks(self.m()) <==> self.needs_art(
                self.source(r),
            ),
            self.entry(r, self.basic_var(r)) == if self.needs_art(self.source(r)) {
                self.diff(self.source(r)).signum_spec()
            } else {
                self.slack_coeff(self.source(r))
            },
    {
        self.counts(0, r);
        self.counts(0, i);
        self.counts(r, self.m());
        self.counts(i, self.m());
        if i < r {
            self.counts(i, r);
        } else {
            self.counts(r, i);
        }
    }

    /// As many basic variables are artificial as there are artificial variables.
    pub proof fn all_basic(self, basic: Seq<usize>, k: int)
        requires
            self.wf(),
            0 <= k <= self.m(),
            basic == Seq::new(self.m() as nat, |r: int| self.basic_var(r) as usize),
        ensures
            count_from(basic, self.n() + self.slacks(self.m()), k) == self.arts(k),
        decreases k,
    {
        if k > 0 {
            self.all_basic(basic, k - 1);
            self.live_facts(self.constraints.len() as int);
            self.counts(0, self.m());
            self.basic_entry(k - 1, k - 1);
        }
    }

    pub proof fn live_prefix(self, a: int, b: int)
        requires
            0 <= a <= b,
        ensures
            self.live(a).len() <= self.live(b).len(),
            forall|r: int|
                0 <= r < self.live(a).len() ==> #[trigger] self.live(b)[r] == self.live(a)[r],
        decreases b,
    {
        if a < b {
            self.live_prefix(a, b - 1);
        }
    }
}

/// The matrix holds the rows of the program.
pub open spec fn holds_rows<T: Scalar>(input: Input<T>, rows: CsMat<T>) -> bool {
    &&& rows.nrows == input.m()
    &&& rows.ncols == input.total()
    &&& forall|r: int, v: int|
        0 <= r < input.m() ==> #[trigger] rows.line_has(r, v) == input.entry_has(r, v)
    &&& forall|r: int, v: int|
        0 <= r < input.m() ==> #[trigger] rows.line(r, v) == input.entry(r, v)
}

/// Whether the coefficient of every artificial variable can be a pivot.
pub open spec fn signs_usable<T: Scalar>(input: Input<T>) -> bool {
    forall|r: int|
        0 <= r < input.m() && input.needs_art(input.source(r)) ==> acceptable_alone(
            (#[trigger] input.diff(input.source(r))).signum_spec(),
            T::stability_spec(),
        )
}

/// The columns of the first basis have one entry each.
proof fn first_basis<T: Scalar>(
    input: Input<T>,
    rows: CsMat<T>,
    csc: CsMat<T>,
    basic: Seq<usize>,
    r: int,
)
    requires
        input.wf(),
        0 <= r < input.m(),
        holds_rows(input, rows),
        same_matrix(rows, csc),
        basic == Seq::new(input.m() as nat, |r: int| input.basic_var(r) as usize),
    ensures
        basic[r] < csc.ncols,
        csc.lo(basic[r] as int) + 1 == csc.hi(basic[r] as int),
        csc.indices@[csc.lo(basic[r] as int)] == r,
        csc.data@[csc.lo(basic[r] as int)] == input.entry(r, input.basic_var(r)),
{
    input.live_facts(input.constraints.len() as int);
    input.counts(0, input.m());
    input.basic_entry(r, r);
    let v = input.basic_var(r);
    assert(basic[r] == v);
    csc.line_wf(v);
    let (lo, hi) = (csc.lo(v), csc.hi(v));
    assert forall|p: int| lo <= p < hi implies #[trigger] csc.indices@[p] == r by {
        at_place(csc.indices@, csc.data@, lo, hi, p);
        let i = csc.indices@[p] as int;
        assert(csc.line_has(v, i));
        assert(csc.line_has(v, i) == rows.line_has(i, v));
        input.basic_entry(r, i);
    }
    assert(csc.line_has(v, r) == rows.line_has(r, v));
    assert(rows.line_has(r, v) == input.entry_has(r, v));
    assert(csc.line(v, r) == rows.line(r, v));
    let p = place(csc.indices@, lo, hi, r);
    if hi > lo + 1 {
        assert(csc.indices@[lo] == r && csc.indices@[lo + 1] == r);
    }
    at_place(csc.indices@, csc.data@, lo, hi, p);
}

proof fn first_basis_single<T: Scalar>(
    input: Input<T>,
    rows: CsMat<T>,
    csc: CsMat<T>,
    basic: Seq<usize>,
    stability: T,
)
    requires
        input.wf(),
        holds_rows(input, rows),
        same_matrix(rows, csc),
        basic == Seq::new(input.m() as nat, |r: int| input.basic_var(r) as usize),
        stability == T::stability_spec(),
        acceptable_alone(T::one_spec(), stability),
        acceptable_alone(T::one_spec().negated_spec(), stability),
    ensures
        below(basic, csc.ncols as int),
        single_entries(csc, basic),
        signs_usable(input) <==> usable_entries(csc, basic, stability, basic.len() as int),
{
    assert forall|r: int| 0 <= r < basic.len() implies #[trigger] basic[r] < csc.ncols by {
        first_basis(input, rows, csc, basic, r);
    }
    assert forall|r: int| 0 <= r < basic.len() implies csc.lo(#[trigger] basic[r] as int) + 1
        == csc.hi(basic[r] as int) by {
        first_basis(input, rows, csc, basic, r);
    }
    assert forall|j: int, k: int| 0 <= j < k < basic.len() implies csc.indices@[csc.lo(
        #[trigger] basic[j] as int,
    )] != csc.indices@[csc.lo(#[trigger] basic[k] as int)] by {
        first_basis(input, rows, csc, basic, j);
        first_basis(input, rows, csc, basic, k);
    }
    if signs_usable(input) {
        assert forall|r: int| 0 <= r < basic.len() implies acceptable_alone(
            csc.data@[csc.lo(#[trigger] basic[r] as int)],
            stability,
        ) by {
            first_basis(input, rows, csc, basic, r);
            input.basic_entry(r, r);
        }
    }
    if usable_entries(csc, basic, stability, basic.len() as int) {
        assert forall|r: int| 0 <= r < input.m() && input.needs_art(input.source(r)) implies
            acceptable_alone(
            (#[trigger] input.diff(input.source(r))).signum_spec(),
            T::stability_spec(),
        ) by {
            first_basis(input, rows, csc, basic, r);
            input.basic_entry(r, r);
            assert(acceptable_alone(csc.data@[csc.lo(basic[r] as int)], stability));
        }
    }
}

/// The number of slack and of artificial variables.
fn count_vars<T: Scalar>(
    infos: &Vec<ConstraintInfo<T>>,
    Ghost(input): Ghost<Input<T>>,
) -> (r: (usize, usize))
    requires
        infos@.len() == input.m(),
        forall|r: int| 0 <= r < input.m() ==> info_of(input, input.source(r), #[trigger] infos@[r]),
    ensures
        r.0 == input.slacks(input.m()),
        r.1 == input.arts(input.m()),
{
    let mut num_slack_vars: usize = 0;
    let mut num_artificial_vars: usize = 0;
    let mut k: usize = 0;
    while k < infos.len()
        invariant
            infos@.len() == input.m(),
            forall|r: int|
                0 <= r < input.m() ==> info_of(input, input.source(r), #[trigger] infos@[r]),
            k <= infos@.len(),
            num_slack_vars == input.slacks(k as int) <= k,
            num_artificial_vars == input.arts(k as int) <= k,
        decreases infos@.len() - k,
    {
        assert(info_of(input, input.source(k as int), infos@[k as int]));
        if infos[k].slack_var_coeff.is_some() {
            num_slack_vars += 1;
        }
        if infos[k].need_art_var {
            num_artificial_vars += 1;
        }
        k += 1;
    }
    (num_slack_vars, num_artificial_vars)
}

impl<T: Scalar> Builder<T> {
    /// A program without constraints.
    fn start(
        vals: Vec<T>,
        num_constraints: usize,
        cur_artificial_var: usize,
        total: usize,
        Ghost(input): Ghost<Input<T>>,
    ) -> (r: Builder<T>)
        requires
            input.wf(),
            vals@ == input.vals(),
            num_constraints == input.m(),
            cur_artificial_var == input.art_var(0),
            total == input.total(),
        ensures
            built(input, r, 0),
    {
        let n: usize = vals.len();
        proof {
            input.live_facts(input.constraints.len() as int);
            input.counts(0, input.m());
        }
        let non_basic_vars = numbers(n);
        let mut non_basic_vars_inv = numbers(n);
        fit(&mut non_basic_vars_inv, total, SENTINEL);
        let r = Builder {
            rows: CsMat::empty(Storage::Csr, total),
            bounds: Vec::with_capacity(num_constraints),
            cur_bounds: Vec::with_capacity(num_constraints),
            basic_vars: Vec::new(),
            basic_vars_inv: filled(total, SENTINEL),
            non_basic_vars,
            non_basic_vars_inv,
            non_basic_vals: vals,
            multipliers: CsVec::empty(num_constraints),
            obj_val: T::zero(),
            cur_slack_var: n,
            cur_artificial_var,
        };
        proof {
            assert(r.bounds@ =~= Seq::new(0, |r: int| input.bound(input.source(r))));
            assert(r.cur_bounds@ =~= Seq::new(
                0,
                |r: int| input.diff(input.source(r)).absolute_spec(),
            ));
            assert(r.basic_vars@ =~= Seq::new(0, |r: int| input.basic_var(r) as usize));
            assert(r.non_basic_vars@ =~= input.rest_vars(0));
            assert(r.non_basic_vals@ =~= input.rest_vals(0));
            assert(r.multipliers.indices@ =~= input.art_rows(0));
            assert(r.multipliers.data@ =~= input.art_signs(0));
            reveal(all_placed);
            let (b, c) = (r.basic_vars_inv@, r.non_basic_vars_inv@);
            assert forall|v: int| 0 <= v < input.total() implies #[trigger] place_fits(
                input,
                b,
                c,
                0,
                v,
            ) by {
                assert(b[v] == SENTINEL);
                assert((c[v] == SENTINEL) == (v >= n));
            }
        }
        r
    }
}

/// The reduced cost of a variable at the start.
pub open spec fn first_cost<T: Scalar>(input: Input<T>, v: int) -> T {
    if input.arts(input.m()) > 0 {
        input.infeas_cost(v, input.m())
    } else if v < input.n() {
        input.obj[v].negated_spec()
    } else {
        T::zero_spec()
    }
}

/// The squared norm of a column.
pub open spec fn col_sq_norm<T: Scalar>(csc: CsMat<T>, v: int) -> T {
    square_sum(csc.data@.subrange(csc.lo(v), csc.hi(v)), (csc.hi(v) - csc.lo(v)) as nat)
}

/// The reduced costs of the non-basic variables, and the squared norms of their columns.
fn first_costs<T: Scalar>(
    b: &Builder<T>,
    csc: &CsMat<T>,
    obj: &Vec<T>,
    num_artificial_vars: usize,
    Ghost(input): Ghost<Input<T>>,
) -> (r: (Vec<T>, Vec<T>))
    requires
        input.wf(),
        built(input, *b, input.m()),
        same_matrix(b.rows, *csc),
        obj@ == Seq::new(
            input.total() as nat,
            |v: int|
                if v < input.n() {
                    input.obj[v].negated_spec()
                } else {
                    T::zero_spec()
                },
        ),
        num_artificial_vars == input.arts(input.m()),
    ensures
        r.0@.len() == b.non_basic_vars@.len(),
        forall|c: int|
            0 <= c < b.non_basic_vars@.len() ==> #[trigger] r.0@[c] == first_cost(
                input,
                b.non_basic_vars@[c] as int,
            ),
        r.1@.len() == b.non_basic_vars@.len(),
        forall|c: int|
            0 <= c < b.non_basic_vars@.len() ==> #[trigger] r.1@[c] == col_sq_norm(
                *csc,
                b.non_basic_vars@[c] as int,
            ),
{
    let n: usize = b.non_basic_vars.len();
    let mut cur_obj: Vec<T> = Vec::with_capacity(n);
    let mut sq_norms: Vec<T> = Vec::with_capacity(n);
    let mut c: usize = 0;
    while c < n
        invariant
            input.wf(),
            built(input, *b, input.m()),
            same_matrix(b.rows, *csc),
            obj@ == Seq::new(
                input.total() as nat,
                |v: int|
                    if v < input.n() {
                        input.obj[v].negated_spec()
                    } else {
                        T::zero_spec()
                    },
            ),
            num_artificial_vars == input.arts(input.m()),
            n == b.non_basic_vars@.len(),
            c <= n,
            cur_obj@.len() == c,
            forall|k: int|
                0 <= k < c ==> #[trigger] cur_obj@[k] == first_cost(
                    input,
                    b.non_basic_vars@[k] as int,
                ),
            sq_norms@.len() == c,
            forall|k: int|
                0 <= k < c ==> #[trigger] sq_norms@[k] == col_sq_norm(
                    *csc,
                    b.non_basic_vars@[k] as int,
                ),
        decreases n - c,
    {
        let var: usize = b.non_basic_vars[c];
        proof {
            input.live_facts(input.constraints.len() as int);
            assert(b.non_basic_vars@[c as int] < input.total());
            csc.line_wf(var as int);
        }
        let col = csc.outer_vec(var);
        if num_artificial_vars > 0 {
            proof {
                assert forall|r: int| 0 <= r < input.m() implies #[trigger] col.stores(r)
                    == input.entry_has(r, var as int) by {
                    assert(csc.line_has(var as int, r) == b.rows.line_has(r, var as int));
                }
                assert forall|r: int| 0 <= r < input.m() implies #[trigger] col.value(r)
                    == input.entry(r, var as int) by {
                    assert(csc.line(var as int, r) == b.rows.line(r, var as int));
                }
                input.infeas_cost_dot(var as int, col, input.m());
            }
            cur_obj.push(b.multipliers.dot(&col));
        } else {
            cur_obj.push(obj[var]);
        }
        sq_norms.push(col.squared_l2_norm());
        c += 1;
    }
    (cur_obj, sq_norms)
}

/// What the solver is before the first step.
pub open spec fn started<T: Scalar>(input: Input<T>, s: Solver<T>) -> bool {
    let m = input.m();
    &&& s.num_vars == input.n()
    &&& s.num_slack_vars == input.slacks(m)
    &&& s.num_artificial_vars == input.arts(m)
    &&& s.orig_obj@ == Seq::new(
        input.total() as nat,
        |v: int|
            if v < input.n() {
                input.obj[v].negated_spec()
            } else {
                T::zero_spec()
            },
    )
    &&& s.orig_var_mins@ == Seq::new(
        input.total() as nat,
        |v: int|
            if v < input.n() {
                input.mins[v]
            } else {
                T::zero_spec()
            },
    )
    &&& s.orig_var_maxs@ == Seq::new(
        input.total() as nat,
        |v: int|
            if v < input.n() {
                input.maxs[v]
            } else {
                T::infinity_spec()
            },
    )
    &&& holds_rows(input, s.orig_constraints)
    &&& s.orig_bounds@ == Seq::new(m as nat, |r: int| input.bound(input.source(r)))
    &&& s.set_vars@ == Map::<usize, T>::empty()
    &&& s.enable_steepest_edge
    &&& s.basis_solver.eta_matrices.leaving_rows@.len() == 0
    &&& s.basis_solver.lu_factors.multiplies_to(s.orig_constraints_csc, s.basic_vars@)
    &&& s.basis_solver.lu_factors.eliminated_from(
        s.orig_constraints_csc,
        s.basic_vars@,
        T::stability_spec(),
    )
    &&& s.basic_vars@ == Seq::new(m as nat, |r: int| input.basic_var(r) as usize)
    &&& s.cur_bounds@ == Seq::new(
        m as nat,
        |r: int| input.diff(input.source(r)).absolute_spec(),
    )
    &&& s.non_basic_vars@ == input.rest_vars(m)
    &&& s.non_basic_vals@ == input.rest_vals(m)
    &&& forall|c: int|
        0 <= c < s.non_basic_vars@.len() ==> #[trigger] s.cur_obj@[c] == first_cost(
            input,
            s.non_basic_vars@[c] as int,
        )
    &&& forall|c: int|
        0 <= c < s.non_basic_vars@.len() ==> #[trigger] s.non_basic_col_sq_norms@[c] == col_sq_norm(
            s.orig_constraints_csc,
            s.non_basic_vars@[c] as int,
        )
    &&& s.cur_obj_val == if input.arts(m) > 0 {
        input.missing(m)
    } else {
        input.start_obj(input.n())
    }
}

impl<T: Scalar> Solver<T> {
    /// The solver for the program that minimises the objective, at a first vertex. Where the
    /// variables at one of their limits do not meet a constraint, an artificial variable makes up
    /// for it.
    ///
    /// The coefficient of an artificial variable is one with the sign of what the constraint
    /// misses; where that is no pivot (a sum that is not a number has no sign), the first basis
    /// is singular.
    pub fn try_new(
        orig_obj: &[T],
        orig_var_mins: &[T],
        orig_var_maxs: &[T],
        orig_constraints: &[(CsVec<T>, RelOp, T)],
    ) -> (r: Result<Self, Error>)
        requires
            (Input {
                obj: orig_obj@,
                mins: orig_var_mins@,
                maxs: orig_var_maxs@,
                constraints: orig_constraints@,
            }).wf(),
        ensures
            ({
                let input = Input {
                    obj: orig_obj@,
                    mins: orig_var_mins@,
                    maxs: orig_var_maxs@,
                    constraints: orig_constraints@,
                };
                &&& r is Err && r->Err_0 == Error::Infeasible <==> input.infeasible()
                &&& r is Err && r->Err_0 == Error::SingularMatrix <==> !input.infeasible()
                    && !signs_usable(input)
                &&& match r {
                    Ok(s) => s.wf() && started(input, s),
                    Err(e) => e == Error::Infeasible || e == Error::SingularMatrix,
                }
            }),
    {
        let ghost input = Input {
            obj: orig_obj@,
            mins: orig_var_mins@,
            maxs: orig_var_maxs@,
            constraints: orig_constraints@,
        };
        let enable_steepest_edge = true;
        let num_vars: usize = orig_obj.len();
        let (vals, mut obj, obj_val): (Vec<T>, Vec<T>, T) = match start_values(
            orig_obj,
            orig_var_mins,
            orig_var_maxs,
            Ghost(input),
        ) {
            Ok(x) => x,
            Err(e) => return Err(e),
        };
        let infos = match read_constraints(orig_constraints, &vals, Ghost(input)) {
            Ok(x) => x,
            Err(e) => return Err(e),
        };
        assert(!input.infeasible());
        let num_constraints: usize = infos.len();
        let (num_slack_vars, num_artificial_vars): (usize, usize) = count_vars(
            &infos,
            Ghost(input),
        );
        proof {
            input.live_facts(input.constraints.len() as int);
            input.counts(0, input.m());
        }
        let total: usize = num_vars + num_slack_vars + num_artificial_vars;
        fit(&mut obj, total, T::zero());
        let mut mins = copied_slice(orig_var_mins);
        fit(&mut mins, total, T::zero());
        let mut maxs = copied_slice(orig_var_maxs);
        fit(&mut maxs, total, T::infinity());
        let mut b = Builder::start(
            vals,
            num_constraints,
            num_vars + num_slack_vars,
            total,
            Ghost(input),
        );
        let mut k: usize = 0;
        while k < num_constraints
            invariant
                input.wf(),
                num_constraints == input.m(),
                infos@.len() == input.m(),
                forall|r: int|
                    0 <= r < input.m() ==> info_of(input, input.source(r), #[trigger] infos@[r]),
                total == input.total(),
                k <= num_constraints,
                built(input, b, k as int),
            decreases num_constraints - k,
        {
            b.add_constraint(&infos[k], total, Ghost(input), Ghost(k as int));
            k += 1;
        }
        proof {
            input.row_entries_bound(input.constraints.len() as int);
        }
        let csc = b.rows.to_csc();
        proof {
            assert(same_matrix(b.rows, csc));
            assert(holds_rows(input, b.rows));
            assert(obj@ =~= Seq::new(
                input.total() as nat,
                |v: int|
                    if v < input.n() {
                        input.obj[v].negated_spec()
                    } else {
                        T::zero_spec()
                    },
            ));
        }
        let (cur_obj, sq_norms): (Vec<T>, Vec<T>) = first_costs(
            &b,
            &csc,
            &obj,
            num_artificial_vars,
            Ghost(input),
        );
        let cur_obj_val = if num_artificial_vars > 0 {
            b.obj_val
        } else {
            obj_val
        };
        let mut scratch: ScratchSpace<T> = ScratchSpace::with_capacity(num_constraints);
        let stability = T::stability();
        proof {
            first_basis_single(input, b.rows, csc, b.basic_vars@, stability);
        }
        let lu_factors = match lu_factorize(&csc, b.basic_vars.as_slice(), stability, &mut scratch) {
            Ok(x) => x,
            Err(e) => return Err(e),
        };
        let n: usize = b.non_basic_vars.len();
        let s = Solver {
            num_vars,
            num_slack_vars,
            num_artificial_vars,
            orig_obj: obj,
            orig_var_mins: mins,
            orig_var_maxs: maxs,
            orig_constraints: b.rows,
            orig_constraints_csc: csc,
            orig_bounds: b.bounds,
            set_vars: HashMap::new(),
            enable_steepest_edge,
            basis_solver: BasisSolver {
                lu_factors,
                scratch,
                eta_matrices: EtaMatrices::new(num_constraints),
                rhs: ScatteredVec::empty(num_constraints),
            },
            col_coeffs: SparseVec::new(),
            eta_matrix_coeffs: SparseVec::new(),
            sq_norms_update_helper: ScatteredVec::empty(n),
            row_coeffs: ScatteredVec::empty(n),
            basic_vars: b.basic_vars,
            basic_vars_inv: b.basic_vars_inv,
            cur_bounds: b.cur_bounds,
            non_basic_vars: b.non_basic_vars,
            non_basic_vars_inv: b.non_basic_vars_inv,
            cur_obj,
            non_basic_vals: b.non_basic_vals,
            non_basic_col_sq_norms: sq_norms,
            cur_obj_val,
        };
        proof {
            assert forall|v: int| 0 <= v < input.total() implies (#[trigger] s.basic_vars_inv@[v]
                == SENTINEL) != (s.non_basic_vars_inv@[v] == SENTINEL) by {
                assert(input.placed(v, input.m()));
                placed_at(input, s.basic_vars_inv@, s.non_basic_vars_inv@, input.m(), v);
            }
            lengths_add_up(
                s.basic_vars@,
                s.basic_vars_inv@,
                s.non_basic_vars@,
                s.non_basic_vars_inv@,
                input.total(),
            );
            input.all_basic(s.basic_vars@, input.m());
            assert(s.orig_var_mins@ =~= Seq::new(
                input.total() as nat,
                |v: int|
                    if v < input.n() {
                        input.mins[v]
                    } else {
                        T::zero_spec()
                    },
            ));
            assert(s.orig_var_maxs@ =~= Seq::new(
                input.total() as nat,
                |v: int|
                    if v < input.n() {
                        input.maxs[v]
                    } else {
                        T::infinity_spec()
                    },
            ));
        }
        Ok(s)
    }
}

/// A copy of the items.
fn copied_slice<A: Copy>(v: &[A]) -> (r: Vec<A>)
    ensures
        r@ == v@,
{
    let mut r: Vec<A> = Vec::with_capacity(v.len());
    let mut i: usize = 0;
    while i < v.len()
        invariant
            i <= v@.len(),
            r@ == v@.subrange(0, i as int),
        decreases v@.len() - i,
    {
        r.push(v[i]);
        i += 1;
    }
    assert(v@.subrange(0, v@.len() as int) =~= v@);
    r
}

} // verus!
