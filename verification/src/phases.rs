//! The phases of the simplex method.
use crate::convert::resized_view;
use crate::error::Error;
use crate::lu::stuck;
use crate::pivot::{basis_moved, vertex_moved};
use crate::pricing::pivot_chosen;
use crate::scalar::Scalar;
use crate::simplex::{
    col_coeffs_of, located, partitioned, row_coeffs_of, sets_held, sets_non_basic, PivotInfo, Solver,
    SENTINEL,
};
use crate::sparse::{below, CsMat, Storage};
use crate::vars::lengths_add_up;
use vstd::prelude::*;

verus! {

/// The chosen change is made; `r` tells whether the new basis could be factored.
pub open spec fn step_made<T: Scalar>(
    before: Solver<T>,
    mid: Solver<T>,
    after: Solver<T>,
    info: PivotInfo<T>,
    r: Result<(), Error>,
) -> bool {
    &&& pivot_chosen(before, mid, Ok(Some(info)))
    &&& vertex_moved(mid, after, info)
    &&& match info.elem {
        Some(elem) => basis_moved(mid, after, elem.row, r),
        None => r is Ok,
    }
}

/// One step towards a better vertex.
pub open spec fn primal_step<T: Scalar>(before: Solver<T>, after: Solver<T>) -> bool {
    exists|mid: Solver<T>, info: PivotInfo<T>| #[trigger]
        step_made(before, mid, after, info, Ok(()))
}

/// A sequence of steps.
pub open spec fn primal_path<T: Scalar>(s: Seq<Solver<T>>) -> bool {
    &&& s.len() >= 1
    &&& forall|i: int| 0 <= i < s.len() ==> (#[trigger] s[i]).wf()
    &&& forall|i: int| 0 <= i < s.len() - 1 ==> #[trigger] steps_at(s, i)
}

pub open spec fn steps_at<T: Scalar>(s: Seq<Solver<T>>, i: int) -> bool {
    primal_step(s[i], s[i + 1])
}

/// No change improves the objective.
pub open spec fn is_optimal<T: Scalar>(s: Solver<T>) -> bool {
    s.entering_scan(s.cur_obj@.len() as int).col is None
}

/// The end of a path: the next step failed, or there were too many.
pub open spec fn path_failed<T: Scalar>(
    s: Seq<Solver<T>>,
    after: Solver<T>,
    e: Error,
) -> bool {
    match e {
        Error::Unbounded => pivot_chosen(s.last(), after, Err(Error::Unbounded)),
        Error::SingularMatrix => exists|mid: Solver<T>, info: PivotInfo<T>| #[trigger]
            step_made(s.last(), mid, after, info, Err(Error::SingularMatrix)),
        Error::IterationLimit => s.last() == after && s.len() == i32::MAX + 2,
        _ => false,
    }
}

/// The best vertex is reached by a path, or the path ends in an error.
pub open spec fn climbed_by<T: Scalar>(
    s: Seq<Solver<T>>,
    before: Solver<T>,
    after: Solver<T>,
    r: Result<(), Error>,
) -> bool {
    &&& primal_path(s)
    &&& s[0] == before
    &&& match r {
        Ok(_) => s.last() == after && is_optimal(after),
        Err(e) => path_failed(s, after, e),
    }
}

pub open spec fn climbed<T: Scalar>(
    before: Solver<T>,
    after: Solver<T>,
    r: Result<(), Error>,
) -> bool {
    exists|s: Seq<Solver<T>>| #[trigger] climbed_by(s, before, after, r)
}

/// How many of the first `k` variables are `start` or behind.
pub open spec fn count_from(vars: Seq<usize>, start: int, k: int) -> int
    decreases k,
{
    if k <= 0 {
        0
    } else if vars[k - 1] >= start {
        count_from(vars, start, k - 1) + 1
    } else {
        count_from(vars, start, k - 1)
    }
}

proof fn count_bounds(vars: Seq<usize>, start: int, k: int)
    ensures
        0 <= count_from(vars, start, k),
        k >= 0 ==> count_from(vars, start, k) <= k,
    decreases k,
{
    if k > 0 {
        count_bounds(vars, start, k - 1);
    }
}

proof fn count_update(vars: Seq<usize>, start: int, k: int, i: int, x: usize)
    requires
        0 <= k <= vars.len(),
        0 <= i < vars.len(),
    ensures
        count_from(vars.update(i, x), start, k) == count_from(vars, start, k) + if i < k {
            (if x >= start {
                1int
            } else {
                0
            }) - (if vars[i] >= start {
                1int
            } else {
                0
            })
        } else {
            0
        },
    decreases k,
{
    if k > 0 {
        count_update(vars, start, k - 1, i, x);
    }
}

proof fn count_zero(vars: Seq<usize>, start: int, k: int)
    requires
        0 <= k <= vars.len(),
        count_from(vars, start, k) == 0,
    ensures
        forall|i: int| 0 <= i < k ==> #[trigger] vars[i] < start,
    decreases k,
{
    if k > 0 {
        count_bounds(vars, start, k - 1);
        count_zero(vars, start, k - 1);
    }
}

/// The items among the first `k` whose variable is below the limit.
pub open spec fn kept_items<A>(vars: Seq<usize>, items: Seq<A>, limit: int, k: int) -> Seq<A>
    decreases k,
{
    if k <= 0 {
        Seq::empty()
    } else if vars[k - 1] < limit {
        kept_items(vars, items, limit, k - 1).push(items[k - 1])
    } else {
        kept_items(vars, items, limit, k - 1)
    }
}

/// The same rows, cut down to the first columns.
pub open spec fn cut_matrix<T: Scalar>(before: CsMat<T>, after: CsMat<T>, limit: int) -> bool {
    &&& after.nrows == before.nrows
    &&& after.ncols == limit
    &&& forall|r: int, v: int|
        0 <= r < before.nrows && v < limit ==> #[trigger] after.line(r, v) == before.line(r, v)
    &&& forall|r: int, v: int|
        0 <= r < before.nrows ==> #[trigger] after.line_has(r, v) == (v < limit && before.line_has(
            r,
            v,
        ))
}

/// The rows of a matrix with another number of columns.
pub fn resized_rows<T: Scalar>(mat: &CsMat<T>, len: usize) -> (r: CsMat<T>)
    requires
        mat.wf(),
        mat.storage == Storage::Csr,
        mat.nrows < usize::MAX,
    ensures
        r.wf(),
        r.storage == Storage::Csr,
        cut_matrix(*mat, r, len as int),
        r.indices@.len() <= mat.indices@.len(),
{
    let n: usize = mat.nrows;
    let mut out: CsMat<T> = CsMat::empty(Storage::Csr, len);
    let mut k: usize = 0;
    proof {
        assert(mat.indptr@[0] == 0);
    }
    while k < n
        invariant
            mat.wf(),
            mat.storage == Storage::Csr,
            n == mat.nrows,
            n < usize::MAX,
            k <= n,
            out.wf(),
            out.storage == Storage::Csr,
            out.nrows == k,
            out.ncols == len,
            out.indices@.len() <= mat.indptr@[k as int],
            forall|r: int, v: int|
                0 <= r < k && v < len ==> #[trigger] out.line(r, v) == mat.line(r, v),
            forall|r: int, v: int|
                0 <= r < k ==> #[trigger] out.line_has(r, v) == (v < len && mat.line_has(r, v)),
        decreases n - k,
    {
        let ghost before = out;
        let row = mat.outer_vec(k);
        let cut = resized_view(&row, len);
        proof {
            mat.line_wf(k as int);
        }
        out.append_outer(&cut);
        proof {
            assert forall|r: int, v: int| 0 <= r < k + 1 && v < len implies #[trigger] out.line(
                r,
                v,
            ) == mat.line(r, v) by {
                if r < k {
                    assert(out.line(r, v) == before.line(r, v));
                } else {
                    assert(out.line(k as int, v) == cut.value(v));
                }
            }
            assert forall|r: int, v: int| 0 <= r < k + 1 implies #[trigger] out.line_has(r, v) == (v
                < len && mat.line_has(r, v)) by {
                if r < k {
                    assert(out.line_has(r, v) == before.line_has(r, v));
                } else {
                    assert(out.line_has(k as int, v) == cut.stores(v));
                }
            }
        }
        k += 1;
    }
    out
}

impl<T: Scalar> Solver<T> {
    /// The first artificial variable.
    pub open spec fn art_start(self) -> int {
        self.num_vars + self.num_slack_vars
    }

    /// The number of artificial variables in the basis.
    pub open spec fn basic_artificial(self) -> int {
        count_from(self.basic_vars@, self.art_start(), self.basic_vars@.len() as int)
    }

    /// Takes the artificial variables out of the program.
    pub fn remove_artificial_vars(&mut self)
        requires
            old(self).data_wf(),
        ensures
            final(self).data_wf(),
            old(self).num_artificial_vars == 0 ==> *final(self) == *old(self),
            *final(self) == (Solver {
                num_artificial_vars: 0,
                orig_obj: final(self).orig_obj,
                orig_constraints: final(self).orig_constraints,
                orig_constraints_csc: final(self).orig_constraints_csc,
                ..*old(self)
            }),
            final(self).orig_obj@ == old(self).orig_obj@.subrange(0, old(self).art_start()),
            cut_matrix(
                old(self).orig_constraints,
                final(self).orig_constraints,
                old(self).art_start(),
            ),
    {
        if self.num_artificial_vars == 0 {
            proof {
                assert(self.orig_obj@.subrange(0, self.art_start()) =~= self.orig_obj@);
                let mat = self.orig_constraints;
                assert forall|r: int, v: int| 0 <= r < mat.nrows implies #[trigger] mat.line_has(
                    r,
                    v,
                ) == (v < self.art_start() && mat.line_has(r, v)) by {
                    mat.line_wf(r);
                    if mat.line_has(r, v) {
                        let p = crate::sparse::place(mat.indices@, mat.lo(r), mat.hi(r), v);
                        assert(mat.indices@[p] == v);
                    }
                }
            }
            return ;
        }
        self.num_artificial_vars = 0;
        let total: usize = self.num_total_vars();
        self.orig_obj.truncate(total);
        self.orig_constraints = resized_rows(&self.orig_constraints, total);
        self.orig_constraints_csc = self.orig_constraints.to_csc();
    }

    /// Takes the variables that are no more out of the lists over the non-basic variables.
    fn drop_non_basic(&mut self, Ghost(total): Ghost<int>)
        requires
            old(self).total() <= total < SENTINEL,
            partitioned(
                old(self).basic_vars@,
                old(self).basic_vars_inv@,
                old(self).non_basic_vars@,
                old(self).non_basic_vars_inv@,
                total,
            ),
            below(old(self).basic_vars@, old(self).total()),
            old(self).non_basic_vals@.len() == old(self).non_basic_vars@.len(),
            old(self).non_basic_col_sq_norms@.len() == if old(self).enable_steepest_edge {
                old(self).non_basic_vars@.len()
            } else {
                0
            },
        ensures
            *final(self) == (Solver {
                basic_vars_inv: final(self).basic_vars_inv,
                non_basic_vars: final(self).non_basic_vars,
                non_basic_vars_inv: final(self).non_basic_vars_inv,
                non_basic_vals: final(self).non_basic_vals,
                non_basic_col_sq_norms: final(self).non_basic_col_sq_norms,
                ..*old(self)
            }),
            partitioned(
                final(self).basic_vars@,
                final(self).basic_vars_inv@,
                final(self).non_basic_vars@,
                final(self).non_basic_vars_inv@,
                old(self).total(),
            ),
            final(self).non_basic_vars@ == kept_items(
                old(self).non_basic_vars@,
                old(self).non_basic_vars@,
                old(self).total(),
                old(self).non_basic_vars@.len() as int,
            ),
            final(self).non_basic_vals@ == kept_items(
                old(self).non_basic_vars@,
                old(self).non_basic_vals@,
                old(self).total(),
                old(self).non_basic_vars@.len() as int,
            ),
            final(self).non_basic_vals@.len() == final(self).non_basic_vars@.len(),
            final(self).enable_steepest_edge ==> final(self).non_basic_col_sq_norms@ == kept_items(
                old(self).non_basic_vars@,
                old(self).non_basic_col_sq_norms@,
                old(self).total(),
                old(self).non_basic_vars@.len() as int,
            ),
            final(self).non_basic_col_sq_norms@.len() == if final(self).enable_steepest_edge {
                final(self).non_basic_vars@.len()
            } else {
                0
            },
    {
        let limit: usize = self.num_total_vars();
        self.basic_vars_inv.truncate(limit);
        self.non_basic_vars_inv.truncate(limit);
        let ghost nb = self.non_basic_vars@;
        let ghost inv0 = old(self).non_basic_vars_inv@;
        let ghost binv = old(self).basic_vars_inv@;
        let n: usize = self.non_basic_vars.len();
        let mut vars: Vec<usize> = Vec::new();
        let mut vals: Vec<T> = Vec::new();
        let mut norms: Vec<T> = Vec::new();
        let mut k: usize = 0;
        while k < n
            invariant
                *self == (Solver {
                    basic_vars_inv: self.basic_vars_inv,
                    non_basic_vars_inv: self.non_basic_vars_inv,
                    ..*old(self)
                }),
                nb == self.non_basic_vars@,
                n == nb.len(),
                k <= n,
                limit == self.total(),
                limit <= total < SENTINEL,
                located(nb, inv0, total),
                self.non_basic_vals@.len() == n,
                self.non_basic_col_sq_norms@.len() == if self.enable_steepest_edge {
                    n
                } else {
                    0
                },
                self.non_basic_vars_inv@.len() == limit,
                self.basic_vars_inv@ == binv.subrange(0, limit as int),
                vars@ == kept_items(nb, nb, limit as int, k as int),
                vals@ == kept_items(nb, self.non_basic_vals@, limit as int, k as int),
                self.enable_steepest_edge ==> norms@ == kept_items(
                    nb,
                    self.non_basic_col_sq_norms@,
                    limit as int,
                    k as int,
                ),
                vals@.len() == vars@.len(),
                norms@.len() == if self.enable_steepest_edge {
                    vars@.len() as int
                } else {
                    0
                },
                vars@.len() <= k,
                forall|i: int|
                    0 <= i < vars@.len() ==> #[trigger] vars@[i] < limit
                        && self.non_basic_vars_inv@[vars@[i] as int] == i && inv0[vars@[i] as int]
                        < k,
                forall|v: int|
                    0 <= v < limit ==> if inv0[v] == SENTINEL {
                        #[trigger] self.non_basic_vars_inv@[v] == SENTINEL
                    } else if inv0[v] < k {
                        self.non_basic_vars_inv@[v] < vars@.len()
                            && vars@[self.non_basic_vars_inv@[v] as int] == v
                    } else {
                        self.non_basic_vars_inv@[v] == inv0[v]
                    },
            decreases n - k,
        {
            let var: usize = self.non_basic_vars[k];
            assert(nb[k as int] < total && inv0[var as int] == k);
            if var < limit {
                let ghost vars0 = vars@;
                let ghost now = self.non_basic_vars_inv@;
                self.non_basic_vars_inv[var] = vars.len();
                vars.push(var);
                vals.push(self.non_basic_vals[k]);
                if self.enable_steepest_edge {
                    norms.push(self.non_basic_col_sq_norms[k]);
                }
                proof {
                    assert forall|i: int| 0 <= i < vars@.len() implies #[trigger] vars@[i] < limit
                        && self.non_basic_vars_inv@[vars@[i] as int] == i && inv0[vars@[i] as int]
                        < k + 1 by {
                        if i < vars0.len() {
                            assert(vars0[i] == vars@[i]);
                        }
                    }
                    assert forall|v: int| 0 <= v < limit implies if inv0[v] == SENTINEL {
                        #[trigger] self.non_basic_vars_inv@[v] == SENTINEL
                    } else if inv0[v] < k + 1 {
                        self.non_basic_vars_inv@[v] < vars@.len()
                            && vars@[self.non_basic_vars_inv@[v] as int] == v
                    } else {
                        self.non_basic_vars_inv@[v] == inv0[v]
                    } by {
                        if v != var {
                            assert(self.non_basic_vars_inv@[v] == now[v]);
                            if inv0[v] == k {
                                assert(nb[inv0[v] as int] == v);
                            }
                        }
                    }
                }
            } else {
                proof {
                    assert forall|v: int| 0 <= v < limit implies #[trigger] inv0[v] != k by {
                        if inv0[v] == k {
                            assert(nb[inv0[v] as int] == v);
                        }
                    }
                }
            }
            k += 1;
        }
        proof {
            let lim = limit as int;
            let inv = self.non_basic_vars_inv@;
            assert(located(vars@, inv, lim)) by {
                assert forall|v: int| 0 <= v < lim implies (#[trigger] inv[v] == SENTINEL || inv[v]
                    < vars@.len() && vars@[inv[v] as int] == v) by {
                    if inv0[v] != SENTINEL {
                        assert(inv0[v] < n);
                    }
                }
            }
            let b = self.basic_vars@;
            let bi = self.basic_vars_inv@;
            assert(located(b, bi, lim)) by {
                assert forall|i: int| 0 <= i < b.len() implies #[trigger] b[i] < lim && bi[b[i] as int]
                    == i by {
                    assert(binv[b[i] as int] == i);
                }
                assert forall|v: int| 0 <= v < lim implies (#[trigger] bi[v] == SENTINEL || bi[v]
                    < b.len() && b[bi[v] as int] == v) by {
                    assert(bi[v] == binv[v]);
                }
            }
            assert forall|v: int| 0 <= v < lim implies (#[trigger] bi[v] == SENTINEL) != (inv[v]
                == SENTINEL) by {
                assert(bi[v] == binv[v]);
                assert((binv[v] == SENTINEL) != (inv0[v] == SENTINEL));
                if inv0[v] != SENTINEL {
                    assert(inv0[v] < n);
                }
            }
            lengths_add_up(b, bi, vars@, inv, lim);
        }
        self.non_basic_vars = vars;
        self.non_basic_vals = vals;
        self.non_basic_col_sq_norms = norms;
    }
}

/// The vertex `x`, which has no artificial variable in its basis, without artificial variables.
pub open spec fn freed<T: Scalar>(x: Solver<T>, after: Solver<T>) -> bool {
    let limit = x.art_start();
    let n = x.non_basic_vars@.len() as int;
    &&& after.num_vars == x.num_vars
    &&& after.num_slack_vars == x.num_slack_vars
    &&& after.num_artificial_vars == 0
    &&& after.orig_obj@ == x.orig_obj@.subrange(0, limit)
    &&& after.orig_var_mins == x.orig_var_mins
    &&& after.orig_var_maxs == x.orig_var_maxs
    &&& after.orig_bounds == x.orig_bounds
    &&& cut_matrix(x.orig_constraints, after.orig_constraints, limit)
    &&& after.set_vars == x.set_vars
    &&& after.enable_steepest_edge == x.enable_steepest_edge
    &&& after.basic_vars == x.basic_vars
    &&& after.cur_bounds == x.cur_bounds
    &&& after.non_basic_vars@ == kept_items(x.non_basic_vars@, x.non_basic_vars@, limit, n)
    &&& after.non_basic_vals@ == kept_items(x.non_basic_vars@, x.non_basic_vals@, limit, n)
    &&& x.enable_steepest_edge ==> after.non_basic_col_sq_norms@ == kept_items(
        x.non_basic_vars@,
        x.non_basic_col_sq_norms@,
        limit,
        n,
    )
}

/// The factors of the basis of `x`, made anew where there were elementary matrices.
pub open spec fn freed_basis<T: Scalar>(x: Solver<T>, after: Solver<T>) -> bool {
    &&& after.basis_solver.eta_matrices.leaving_rows@.len() == 0
    &&& x.basis_solver.eta_matrices.leaving_rows@.len() == 0 ==> after.basis_solver.same_basis(
        x.basis_solver,
    )
    &&& x.basis_solver.eta_matrices.leaving_rows@.len() > 0
        ==> after.basis_solver.lu_factors.multiplies_to(
        after.orig_constraints_csc,
        after.basic_vars@,
    ) && after.basis_solver.lu_factors.eliminated_from(
        after.orig_constraints_csc,
        after.basic_vars@,
        T::stability_spec(),
    )
}

/// The basis of `x` cannot be factored without the artificial variables.
pub open spec fn freed_stuck<T: Scalar>(x: Solver<T>, after: Solver<T>) -> bool {
    &&& freed(x, after)
    &&& after.data_wf()
    &&& x.basis_solver.eta_matrices.leaving_rows@.len() > 0
    &&& stuck(after.orig_constraints_csc, after.basic_vars@, T::stability_spec())
}

/// How many artificial variables the search that began at `before` still counts at `x`: those that
/// were not basic at the start are counted to the end.
pub open spec fn left_to_remove<T: Scalar>(before: Solver<T>, x: Solver<T>) -> int {
    before.num_artificial_vars - before.basic_artificial() + x.basic_artificial()
}

/// How the search for a first feasible vertex, which goes along the path `s`, ends.
pub open spec fn bfs_found_by<T: Scalar>(
    s: Seq<Solver<T>>,
    before: Solver<T>,
    after: Solver<T>,
    r: Result<(), Error>,
) -> bool {
    let x = s.last();
    let none_left = left_to_remove(before, x) == 0;
    let too_large = T::tolerance_spec().less_spec(x.cur_obj_val);
    &&& primal_path(s)
    &&& s[0] == before
    &&& forall|i: int| 0 <= i < s.len() - 1 ==> left_to_remove(before, #[trigger] s[i]) > 0
    &&& match r {
        Ok(_) => {
            &&& none_left
            &&& !too_large
            &&& freed(x, after)
            &&& after.obj_recalculated()
            &&& freed_basis(x, after)
        },
        Err(Error::Infeasible) => (none_left || is_optimal(x)) && too_large && after == x,
        Err(Error::ArtificialVarsLeft) => {
            is_optimal(x) && !none_left && !too_large && after == x
        },
        Err(Error::SingularMatrix) => {
            ||| !none_left && path_failed(s, after, Error::SingularMatrix)
            ||| none_left && !too_large && freed_stuck(x, after)
        },
        Err(Error::Unbounded) => !none_left && path_failed(s, after, Error::Unbounded),
        Err(e) => path_failed(s, after, e),
    }
}

/// How the search for a first feasible vertex ends.
pub open spec fn bfs_found<T: Scalar>(
    before: Solver<T>,
    after: Solver<T>,
    r: Result<(), Error>,
) -> bool {
    exists|s: Seq<Solver<T>>| #[trigger] bfs_found_by(s, before, after, r)
}

impl<T: Scalar> Solver<T> {
    /// Makes the chosen change and keeps count of the artificial variables in the basis.
    fn pivot_counting(
        &mut self,
        info: &PivotInfo<T>,
        count: usize,
    ) -> (r: Result<usize, Error>)
        requires
            old(self).wf(),
            info.col < old(self).non_basic_vars@.len(),
            info.elem matches Some(elem) ==> elem.row < old(self).m(),
            count == old(self).basic_artificial(),
        ensures
            final(self).wf(),
            vertex_moved(*old(self), *final(self), *info),
            match info.elem {
                Some(elem) => basis_moved(
                    *old(self),
                    *final(self),
                    elem.row,
                    match r {
                        Ok(_) => Ok(()),
                        Err(e) => Err(e),
                    },
                ),
                None => r is Ok,
            },
            r matches Ok(c) ==> c == final(self).basic_artificial(),
            r matches Err(e) ==> e == Error::SingularMatrix,
    {
        let mut c: usize = count;
        proof {
            count_bounds(self.basic_vars@, self.art_start(), self.basic_vars@.len() as int);
            if info.elem is Some {
                let elem = info.elem->0;
                count_update(
                    self.basic_vars@,
                    self.art_start(),
                    self.basic_vars@.len() as int,
                    elem.row as int,
                    self.non_basic_vars@[info.col as int],
                );
                count_bounds(
                    self.basic_vars@.update(
                        elem.row as int,
                        self.non_basic_vars@[info.col as int],
                    ),
                    self.art_start(),
                    self.basic_vars@.len() as int,
                );
            }
        }
        if let Some(elem) = &info.elem {
            let entering_var: usize = self.non_basic_vars[info.col];
            let leaving_var: usize = self.basic_vars[elem.row];
            let art_vars_start: usize = self.num_vars + self.num_slack_vars;
            if entering_var < art_vars_start && leaving_var >= art_vars_start {
                c -= 1;
            } else if entering_var >= art_vars_start && leaving_var < art_vars_start {
                c += 1;
            }
        }
        match self.pivot(info) {
            Ok(_) => Ok(c),
            Err(e) => Err(e),
        }
    }

    /// Takes the artificial variables, none of which is basic, out of the solver.
    fn free(&mut self) -> (r: Result<(), Error>)
        requires
            old(self).wf(),
            old(self).basic_artificial() == 0,
        ensures
            freed(*old(self), *final(self)),
            match r {
                Ok(_) => {
                    &&& final(self).wf()
                    &&& final(self).obj_recalculated()
                    &&& freed_basis(*old(self), *final(self))
                },
                Err(e) => e == Error::SingularMatrix && freed_stuck(*old(self), *final(self)),
            },
    {
        proof {
            count_zero(self.basic_vars@, self.art_start(), self.basic_vars@.len() as int);
        }
        self.remove_artificial_vars();
        self.drop_non_basic(Ghost(old(self).total()));
        let n: usize = self.non_basic_vars.len();
        self.row_coeffs.clear_and_resize(n);
        self.sq_norms_update_helper.clear_and_resize(n);
        proof {
            assert forall|i: int| 0 <= i < self.non_basic_vars@.len() implies
                #[trigger] self.non_basic_vars@[i] < self.total() by {}
        }
        let ghost trimmed = *self;
        let r = self.recalc_cur_obj();
        proof {
            assert(trimmed.basis_solver == old(self).basis_solver);
            if r is Ok {
                assert(freed_basis(*old(self), *self));
            }
        }
        r
    }

    /// The number of artificial variables in the basis.
    fn count_artificial(&self) -> (r: usize)
        requires
            self.wf(),
        ensures
            r == self.basic_artificial(),
            r <= self.num_artificial_vars,
    {
        let start: usize = self.num_vars + self.num_slack_vars;
        let n: usize = self.basic_vars.len();
        let mut r: usize = 0;
        let mut k: usize = 0;
        while k < n
            invariant
                n == self.basic_vars@.len(),
                k <= n,
                start == self.art_start(),
                r == count_from(self.basic_vars@, start as int, k as int),
                r <= k,
            decreases n - k,
        {
            if self.basic_vars[k] >= start {
                r += 1;
            }
            k += 1;
        }
        proof {
            count_within(*self);
        }
        r
    }

    /// Looks for a vertex without artificial variables.
    pub fn find_initial_bfs(&mut self) -> (r: Result<(), Error>)
        requires
            old(self).wf(),
            old(self).num_artificial_vars != 0,
        ensures
            r != Err::<(), Error>(Error::SingularMatrix) ==> final(self).wf(),
            bfs_found(*old(self), *final(self), r),
    {
        let mut cur_artificial_vars: usize = self.count_artificial();
        let missing: usize = self.num_artificial_vars - cur_artificial_vars;
        let ghost mut path: Seq<Solver<T>> = seq![*self];
        let mut iter: i32 = 0;
        let mut stop: bool = false;
        while !stop && !(cur_artificial_vars == 0 && missing == 0)
            invariant
                missing == old(self).num_artificial_vars - old(self).basic_artificial(),
                forall|i: int|
                    0 <= i < path.len() - 1 ==> left_to_remove(*old(self), #[trigger] path[i]) > 0,
                self.wf(),
                primal_path(path),
                path[0] == *old(self),
                path.last() == *self,
                iter >= 0,
                path.len() == iter + 1,
                cur_artificial_vars == self.basic_artificial(),
                stop ==> is_optimal(*self),
            decreases
                i32::MAX - iter,
                if stop {
                    0int
                } else {
                    1int
                },
        {
            let ghost before = *self;
            proof {
                count_bounds(
                    before.basic_vars@,
                    before.art_start(),
                    before.basic_vars@.len() as int,
                );
            }
            match self.choose_pivot() {
                Err(e) => {
                    proof {
                        assert(bfs_found_by(path, *old(self), *self, Err(e)));
                    }
                    return Err(e);
                },
                Ok(None) => {
                    stop = true;
                },
                Ok(Some(info)) => {
                    let ghost mid = *self;
                    match self.pivot_counting(&info, cur_artificial_vars) {
                        Err(e) => {
                            proof {
                                assert(step_made(before, mid, *self, info, Err(e)));
                                assert(bfs_found_by(path, *old(self), *self, Err(e)));
                            }
                            return Err(e);
                        },
                        Ok(c) => {
                            cur_artificial_vars = c;
                        },
                    }
                    proof {
                        assert(step_made(before, mid, *self, info, Ok(())));
                        longer_path(path, *self);
                        count_bounds(
                            before.basic_vars@,
                            before.art_start(),
                            before.basic_vars@.len() as int,
                        );
                        path = path.push(*self);
                    }
                    if iter == i32::MAX {
                        proof {
                            assert(bfs_found_by(
                                path,
                                *old(self),
                                *self,
                                Err(Error::IterationLimit),
                            ));
                        }
                        return Err(Error::IterationLimit);
                    }
                    iter += 1;
                },
            }
        }
        if T::tolerance().less(self.cur_obj_val) {
            proof {
                assert(bfs_found_by(path, *old(self), *self, Err(Error::Infeasible)));
            }
            return Err(Error::Infeasible);
        }
        if cur_artificial_vars > 0 || missing > 0 {
            proof {
                count_bounds(self.basic_vars@, self.art_start(), self.basic_vars@.len() as int);
                assert(bfs_found_by(path, *old(self), *self, Err(Error::ArtificialVarsLeft)));
            }
            return Err(Error::ArtificialVarsLeft);
        }
        let r = self.free();
        proof {
            assert(bfs_found_by(path, *old(self), *self, r));
        }
        r
    }
}

/// The basic variables from `start` on among the first `k`, counted from there.
proof fn counted_vars(vars: Seq<usize>, inv: Seq<usize>, start: int, total: int, k: int) -> (t: Seq<
    usize,
>)
    requires
        0 <= k <= vars.len(),
        0 <= start <= total,
        located(vars, inv, total),
    ensures
        t.len() == count_from(vars, start, k),
        crate::sparse::distinct(t, 0, t.len() as int),
        crate::sparse::below(t, total - start),
        forall|i: int| 0 <= i < t.len() ==> inv[start + #[trigger] t[i]] < k,
    decreases k,
{
    if k == 0 {
        Seq::empty()
    } else {
        let s = counted_vars(vars, inv, start, total, k - 1);
        let v = vars[k - 1];
        assert(v < total && inv[v as int] == k - 1);
        if v >= start {
            let t = s.push((v - start) as usize);
            assert forall|i: int, j: int| 0 <= i < j < t.len() implies #[trigger] t[i]
                != #[trigger] t[j] by {
                if j == s.len() {
                    assert(inv[start + s[i]] < k - 1);
                } else {
                    assert(s[i] != s[j]);
                }
            }
            assert forall|i: int| 0 <= i < t.len() implies inv[start + #[trigger] t[i]] < k by {
                if i < s.len() {
                    assert(inv[start + s[i]] < k - 1);
                }
            }
            assert forall|i: int| 0 <= i < t.len() implies #[trigger] t[i] < total - start by {
                if i < s.len() {
                    assert(s[i] < total - start);
                }
            }
            t
        } else {
            s
        }
    }
}

/// No more artificial variables are basic than there are.
pub proof fn count_within<T: Scalar>(s: Solver<T>)
    requires
        s.wf(),
    ensures
        0 <= s.basic_artificial() <= s.num_artificial_vars,
{
    let t = counted_vars(
        s.basic_vars@,
        s.basic_vars_inv@,
        s.art_start(),
        s.total(),
        s.basic_vars@.len() as int,
    );
    crate::perm::distinct_is_short(t, s.total() - s.art_start());
}

/// There is one value without content.
pub proof fn only_unit(r: Result<(), Error>)
    ensures
        r is Ok ==> r == Ok::<(), Error>(()),
{
    if r is Ok {
        let u = r->Ok_0;
        assert(u == ());
    }
}

proof fn longer_path<T: Scalar>(s: Seq<Solver<T>>, x: Solver<T>)
    requires
        primal_path(s),
        primal_step(s.last(), x),
        x.wf(),
    ensures
        primal_path(s.push(x)),
{
    let t = s.push(x);
    assert forall|i: int| 0 <= i < t.len() - 1 implies #[trigger] steps_at(t, i) by {
        if i < s.len() - 1 {
            assert(steps_at(s, i));
        }
    }
}

/// The row `row` is to leave with the value `val`: its coefficients are in `mid`, and those of
/// the column that enters, if there is one, in `ready`.
pub open spec fn exit_prepared<T: Scalar>(
    before: Solver<T>,
    mid: Solver<T>,
    ready: Solver<T>,
    row: usize,
    val: T,
) -> bool {
    &&& mid.wf()
    &&& mid.same_program(before)
    &&& mid.same_vertex(before)
    &&& mid.basis_solver.same_basis(before.basis_solver)
    &&& row_coeffs_of(before, mid, row)
    &&& match mid.dual_entering(row, val) {
        Ok(info) => {
            &&& info.col < before.non_basic_vars@.len()
            &&& ready.wf()
            &&& ready.same_program(before)
            &&& ready.same_vertex(before)
            &&& ready.basis_solver.same_basis(before.basis_solver)
            &&& ready.row_coeffs == mid.row_coeffs
            &&& col_coeffs_of(mid, ready, mid.non_basic_vars@[info.col as int] as int)
        },
        Err(_) => ready == mid,
    }
}

/// The variable in row `row` leaves the basis with the value `val`.
pub open spec fn exit_made<T: Scalar>(
    before: Solver<T>,
    mid: Solver<T>,
    ready: Solver<T>,
    after: Solver<T>,
    row: usize,
    val: T,
    r: Result<(), Error>,
) -> bool {
    &&& exit_prepared(before, mid, ready, row, val)
    &&& match mid.dual_entering(row, val) {
        Ok(info) => vertex_moved(ready, after, info) && basis_moved(ready, after, row, r),
        Err(e) => after == ready && r == Err::<(), Error>(e),
    }
}

/// How the change ends in which the variable in row `row` leaves with the value `val`.
pub open spec fn left_basis<T: Scalar>(
    before: Solver<T>,
    after: Solver<T>,
    row: usize,
    val: T,
    r: Result<(), Error>,
) -> bool {
    exists|mid: Solver<T>, ready: Solver<T>| #[trigger]
        exit_made(before, mid, ready, after, row, val, r)
}

/// The row whose variable misses a limit most, and that limit.
pub open spec fn worst_row<T: Scalar>(s: Solver<T>) -> Option<(usize, T)> {
    let best = s.dual_leaving_scan(s.m());
    match best.row {
        Some(row) => Some((row, best.new_val)),
        None => None,
    }
}

/// One step towards feasibility.
pub open spec fn dual_step<T: Scalar>(
    before: Solver<T>,
    after: Solver<T>,
    r: Result<(), Error>,
) -> bool {
    worst_row(before) matches Some((row, val)) && left_basis(before, after, row, val, r)
}

pub open spec fn dual_steps_at<T: Scalar>(s: Seq<Solver<T>>, i: int) -> bool {
    dual_step(s[i], s[i + 1], Ok(()))
}

pub open spec fn dual_path<T: Scalar>(s: Seq<Solver<T>>) -> bool {
    &&& s.len() >= 1
    &&& forall|i: int| 0 <= i < s.len() ==> (#[trigger] s[i]).wf()
    &&& forall|i: int| 0 <= i < s.len() - 1 ==> #[trigger] dual_steps_at(s, i)
}

/// A feasible vertex is reached by a path, or the path ends in an error.
pub open spec fn restored_by<T: Scalar>(
    s: Seq<Solver<T>>,
    before: Solver<T>,
    after: Solver<T>,
    r: Result<(), Error>,
) -> bool {
    &&& dual_path(s)
    &&& s[0] == before
    &&& match r {
        Ok(_) => s.last() == after && worst_row(after) is None,
        Err(Error::IterationLimit) => s.last() == after && s.len() == i32::MAX + 2,
        Err(e) => dual_step(s.last(), after, r),
    }
}

pub open spec fn restored<T: Scalar>(
    before: Solver<T>,
    after: Solver<T>,
    r: Result<(), Error>,
) -> bool {
    exists|s: Seq<Solver<T>>| #[trigger] restored_by(s, before, after, r)
}

proof fn longer_dual_path<T: Scalar>(s: Seq<Solver<T>>, x: Solver<T>)
    requires
        dual_path(s),
        dual_step(s.last(), x, Ok(())),
        x.wf(),
    ensures
        dual_path(s.push(x)),
{
    let t = s.push(x);
    assert forall|i: int| 0 <= i < t.len() - 1 implies #[trigger] dual_steps_at(t, i) by {
        if i < s.len() - 1 {
            assert(dual_steps_at(s, i));
        }
    }
}

/// How an optimization ends: where there are artificial variables, a first feasible vertex is
/// looked for, then the best one.
pub open spec fn optimized<T: Scalar>(
    before: Solver<T>,
    after: Solver<T>,
    r: Result<(), Error>,
) -> bool {
    if before.num_artificial_vars == 0 {
        climbed(before, after, r)
    } else {
        ||| r is Err && bfs_found(before, after, r)
        ||| exists|start: Solver<T>| #[trigger]
            bfs_found(before, start, Ok(())) && climbed(start, after, r)
    }
}

impl<T: Scalar> Solver<T> {
    /// Goes from vertex to vertex as long as the objective improves.
    pub fn optimize(&mut self) -> (r: Result<(), Error>)
        requires
            old(self).wf(),
        ensures
            r != Err::<(), Error>(Error::SingularMatrix) ==> final(self).wf(),
            old(self).num_artificial_vars == 0 ==> final(self).wf(),
            final(self).set_vars == old(self).set_vars,
            old(self).num_artificial_vars == 0 ==> final(self).same_program(*old(self)),
            optimized(*old(self), *final(self), r),
    {
        if self.num_artificial_vars > 0 {
            let found = self.find_initial_bfs();
            proof {
                only_unit(found);
            }
            match found {
                Err(e) => {
                    proof {
                        bfs_keeps(*old(self), *self, Err(e));
                    }
                    return Err(e);
                },
                Ok(()) => {
                    proof {
                        bfs_keeps(*old(self), *self, Ok(()));
                    }
                },
            }
        }
        let ghost start = *self;
        let ghost mut path: Seq<Solver<T>> = seq![*self];
        let mut iter: i32 = 0;
        loop
            invariant
                self.wf(),
                self.set_vars == old(self).set_vars,
                self.same_program(start),
                old(self).num_artificial_vars == 0 ==> start == *old(self),
                old(self).num_artificial_vars != 0 ==> bfs_found(*old(self), start, Ok(())),
                primal_path(path),
                path[0] == start,
                path.last() == *self,
                iter >= 0,
                path.len() == iter + 1,
            decreases i32::MAX - iter,
        {
            let ghost before = *self;
            match self.choose_pivot() {
                Err(e) => {
                    proof {
                        assert(climbed_by(path, start, *self, Err(e)));
                    }
                    return Err(e);
                },
                Ok(None) => {
                    proof {
                        assert(climbed_by(path, start, *self, Ok(())));
                    }
                    return Ok(());
                },
                Ok(Some(info)) => {
                    let ghost mid = *self;
                    match self.pivot(&info) {
                        Err(e) => {
                            proof {
                                assert(step_made(before, mid, *self, info, Err(e)));
                                assert(climbed_by(path, start, *self, Err(e)));
                            }
                            return Err(e);
                        },
                        Ok(_) => {},
                    }
                    proof {
                        assert(step_made(before, mid, *self, info, Ok(())));
                        longer_path(path, *self);
                        path = path.push(*self);
                    }
                    if iter == i32::MAX {
                        proof {
                            assert(climbed_by(
                                path,
                                start,
                                *self,
                                Err(Error::IterationLimit),
                            ));
                        }
                        return Err(Error::IterationLimit);
                    }
                    iter += 1;
                },
            }
        }
    }

    /// Lets the variable in row `row` leave the basis with the given value.
    pub fn leave_basis(&mut self, row: usize, val: T) -> (r: Result<(), Error>)
        requires
            old(self).wf(),
            row < old(self).m(),
        ensures
            final(self).wf(),
            final(self).same_program(*old(self)),
            final(self).set_vars == old(self).set_vars,
            left_basis(*old(self), *final(self), row, val, r),
            r matches Err(e) ==> e == Error::Infeasible || e == Error::SingularMatrix,
    {
        self.calc_row_coeffs(row);
        let ghost mid = *self;
        let info = match self.choose_entering_col_dual(row, val) {
            Ok(info) => info,
            Err(e) => {
                proof {
                    assert(exit_made(*old(self), mid, mid, *self, row, val, Err(e)));
                }
                return Err(e);
            },
        };
        self.calc_col_coeffs(info.col);
        let ghost ready = *self;
        let r = self.pivot(&info);
        proof {
            assert(exit_prepared(*old(self), mid, ready, row, val));
            assert(exit_made(*old(self), mid, ready, *self, row, val, r));
        }
        r
    }

    /// Goes from vertex to vertex until every basic variable is within its limits.
    pub fn restore_feasibility(&mut self) -> (r: Result<(), Error>)
        requires
            old(self).wf(),
            old(self).num_artificial_vars == 0,
        ensures
            final(self).wf(),
            final(self).same_program(*old(self)),
            final(self).set_vars == old(self).set_vars,
            restored(*old(self), *final(self), r),
    {
        let ghost mut path: Seq<Solver<T>> = seq![*self];
        let mut iter: i32 = 0;
        loop
            invariant
                self.wf(),
                self.same_program(*old(self)),
                self.set_vars == old(self).set_vars,
                dual_path(path),
                path[0] == *old(self),
                path.last() == *self,
                iter >= 0,
                path.len() == iter + 1,
            decreases i32::MAX - iter,
        {
            let ghost before = *self;
            match self.choose_pivot_row_dual() {
                None => {
                    proof {
                        assert(restored_by(path, *old(self), *self, Ok(())));
                    }
                    return Ok(());
                },
                Some((row, leaving_new_val)) => {
                    let left = self.leave_basis(row, leaving_new_val);
                    proof {
                        only_unit(left);
                    }
                    match left {
                        Err(e) => {
                            proof {
                                assert(dual_step(before, *self, Err(e)));
                                assert(restored_by(path, *old(self), *self, Err(e)));
                            }
                            return Err(e);
                        },
                        Ok(()) => {},
                    }
                    proof {
                        assert(dual_step(before, *self, Ok(())));
                        longer_dual_path(path, *self);
                        path = path.push(*self);
                    }
                    if iter == i32::MAX {
                        proof {
                            assert(restored_by(
                                path,
                                *old(self),
                                *self,
                                Err(Error::IterationLimit),
                            ));
                        }
                        return Err(Error::IterationLimit);
                    }
                    iter += 1;
                },
            }
        }
    }
}

/// Steps keep the program and the variables that are set.
proof fn path_keeps<T: Scalar>(s: Seq<Solver<T>>, k: int)
    requires
        primal_path(s),
        0 <= k < s.len(),
    ensures
        s[k].same_program(s[0]),
        s[k].set_vars == s[0].set_vars,
    decreases k,
{
    if k > 0 {
        path_keeps(s, k - 1);
        assert(steps_at(s, k - 1));
        let (mid, info) = choose|mid: Solver<T>, info: PivotInfo<T>| #[trigger]
            step_made(s[k - 1], mid, s[k], info, Ok(()));
        assert(step_made(s[k - 1], mid, s[k], info, Ok(())));
    }
}

proof fn bfs_keeps<T: Scalar>(before: Solver<T>, after: Solver<T>, r: Result<(), Error>)
    requires
        bfs_found(before, after, r),
    ensures
        after.set_vars == before.set_vars,
        r is Ok ==> after.num_artificial_vars == 0,
{
    let s = choose|s: Seq<Solver<T>>| #[trigger] bfs_found_by(s, before, after, r);
    path_keeps(s, s.len() - 1);
    if r is Err {
        let e = r->Err_0;
        if e == Error::SingularMatrix && path_failed(s, after, e) {
            let (mid, info) = choose|mid: Solver<T>, info: PivotInfo<T>| #[trigger]
                step_made(s.last(), mid, after, info, Err(Error::SingularMatrix));
            assert(step_made(s.last(), mid, after, info, Err(Error::SingularMatrix)));
        }
    }
}

/// A change in which no variable enters that is set leaves those that are set outside
/// the basis, with their values.
pub proof fn change_keeps_sets<T: Scalar>(s: Solver<T>, after: Solver<T>, info: PivotInfo<T>)
    requires
        s.wf(),
        after.wf(),
        vertex_moved(s, after, info),
        info.col < s.non_basic_vars@.len(),
        !s.set_vars@.contains_key(s.non_basic_vars@[info.col as int]),
        sets_non_basic(s),
    ensures
        sets_non_basic(after),
        sets_held(s) ==> sets_held(after),
{
    assert forall|v: usize| #[trigger] after.set_vars@.contains_key(v) implies v < after.total()
        && after.non_basic_vars_inv@[v as int] != SENTINEL by {
        assert(s.set_vars@.contains_key(v));
        let c = s.non_basic_vars_inv@[v as int] as int;
        assert(s.non_basic_vars@[c] == v);
        assert(after.non_basic_vars@[c] == v);
        assert(after.non_basic_vars_inv@[v as int] == c);
    }
    if sets_held(s) {
        assert forall|v: usize| #[trigger]
            after.set_vars@.contains_key(v) && after.non_basic_vars_inv@[v as int]
                != SENTINEL implies after.non_basic_vals@[after.non_basic_vars_inv@[v as int] as int]
            == after.set_vars@[v] by {
            assert(s.set_vars@.contains_key(v));
            let c = s.non_basic_vars_inv@[v as int] as int;
            assert(s.non_basic_vars@[c] == v);
            assert(after.non_basic_vars@[c] == v);
            assert(after.non_basic_vars_inv@[v as int] == c);
        }
    }
}

/// A step leaves the variables that are set outside the basis, with their values.
pub proof fn step_keeps_sets<T: Scalar>(
    before: Solver<T>,
    mid: Solver<T>,
    after: Solver<T>,
    info: PivotInfo<T>,
    r: Result<(), Error>,
)
    requires
        step_made(before, mid, after, info, r),
        after.wf(),
        sets_non_basic(before),
    ensures
        sets_non_basic(after),
        sets_held(before) ==> sets_held(after),
{
    assert(sets_non_basic(mid)) by {
        assert forall|v: usize| #[trigger] mid.set_vars@.contains_key(v) implies v < mid.total()
            && mid.non_basic_vars_inv@[v as int] != SENTINEL by {
            assert(before.set_vars@.contains_key(v));
        }
    }
    change_keeps_sets(mid, after, info);
}

/// So does a path.
pub proof fn path_keeps_sets<T: Scalar>(s: Seq<Solver<T>>, k: int)
    requires
        primal_path(s),
        0 <= k < s.len(),
        sets_non_basic(s[0]),
    ensures
        sets_non_basic(s[k]),
        sets_held(s[0]) ==> sets_held(s[k]),
    decreases k,
{
    if k > 0 {
        path_keeps_sets(s, k - 1);
        assert(steps_at(s, k - 1));
        let (mid, info) = choose|mid: Solver<T>, info: PivotInfo<T>| #[trigger]
            step_made(s[k - 1], mid, s[k], info, Ok(()));
        step_keeps_sets(s[k - 1], mid, s[k], info, Ok(()));
    }
}

/// An optimization leaves the variables that are set outside the basis, with their values.
pub proof fn climb_keeps_sets<T: Scalar>(
    before: Solver<T>,
    after: Solver<T>,
    r: Result<(), Error>,
)
    requires
        climbed(before, after, r),
        after.wf(),
        sets_non_basic(before),
    ensures
        sets_non_basic(after),
        sets_held(before) ==> sets_held(after),
{
    let s = choose|s: Seq<Solver<T>>| #[trigger] climbed_by(s, before, after, r);
    path_keeps_sets(s, s.len() - 1);
    if r is Err && r->Err_0 == Error::Unbounded {
        assert forall|v: usize| #[trigger] after.set_vars@.contains_key(v) implies v
            < after.total() && after.non_basic_vars_inv@[v as int] != SENTINEL by {
            assert(s.last().set_vars@.contains_key(v));
        }
    } else if r is Err && r->Err_0 == Error::SingularMatrix {
        let (mid, info) = choose|mid: Solver<T>, info: PivotInfo<T>| #[trigger]
            step_made(s.last(), mid, after, info, Err(Error::SingularMatrix));
        step_keeps_sets(s.last(), mid, after, info, Err(Error::SingularMatrix));
    }
}

/// What the choice of a column comes from.
pub proof fn dual_scan_facts<T: Scalar>(s: Solver<T>, up: bool, k: int)
    requires
        s.wf(),
        0 <= k <= s.row_coeffs.nonzero@.len(),
    ensures
        ({
            let best = s.dual_entering_scan(up, k);
            best.col matches Some(c) ==> {
                &&& c < s.non_basic_vars@.len()
                &&& best.coeff == s.row_coeffs.values@[c as int]
                &&& !s.set_vars@.contains_key(s.non_basic_vars@[c as int])
            }
        }),
    decreases k,
{
    if k > 0 {
        dual_scan_facts(s, up, k - 1);
        assert(s.row_coeffs.nonzero@[k - 1] < s.row_coeffs.is_nonzero@.len());
    }
}

/// When a variable leaves the basis, those that are set are outside it afterwards, also where
/// that variable was set before.
pub proof fn exit_keeps_sets<T: Scalar>(
    before: Solver<T>,
    after: Solver<T>,
    row: usize,
    val: T,
    r: Result<(), Error>,
)
    requires
        left_basis(before, after, row, val, r),
        before.wf(),
        after.wf(),
        row < before.m(),
        forall|v: usize| #[trigger]
            before.set_vars@.contains_key(v) ==> v < before.total()
                && (before.non_basic_vars_inv@[v as int] != SENTINEL || v
                == before.basic_vars@[row as int]),
        r is Ok || sets_non_basic(before),
    ensures
        sets_non_basic(after),
        sets_held(before) && (before.set_vars@.contains_key(before.basic_vars@[row as int])
            ==> before.set_vars@[before.basic_vars@[row as int]] == val) ==> sets_held(after),
{
    let (mid, ready) = choose|mid: Solver<T>, ready: Solver<T>| #[trigger]
        exit_made(before, mid, ready, after, row, val, r);
    let up = mid.cur_bounds@[row as int].less_spec(val);
    dual_scan_facts(mid, up, mid.row_coeffs.nonzero@.len() as int);
    assert forall|v: usize| #[trigger] after.set_vars@.contains_key(v) implies v < after.total()
        && after.non_basic_vars_inv@[v as int] != SENTINEL by {
        assert(before.set_vars@.contains_key(v));
        if mid.dual_entering(row, val) is Ok {
            let info = mid.dual_entering(row, val)->Ok_0;
            let c = before.non_basic_vars_inv@[v as int] as int;
            if before.non_basic_vars_inv@[v as int] != SENTINEL {
                assert(before.non_basic_vars@[c] == v);
                assert(after.non_basic_vars@[c] == v);
                assert(after.non_basic_vars_inv@[v as int] == c);
            } else {
                assert(after.non_basic_vars@[info.col as int] == v);
                assert(after.non_basic_vars_inv@[v as int] == info.col);
            }
        }
    }
    if sets_held(before) && (before.set_vars@.contains_key(before.basic_vars@[row as int])
        ==> before.set_vars@[before.basic_vars@[row as int]] == val) {
        assert forall|v: usize| #[trigger]
            after.set_vars@.contains_key(v) && after.non_basic_vars_inv@[v as int]
                != SENTINEL implies after.non_basic_vals@[after.non_basic_vars_inv@[v as int] as int]
            == after.set_vars@[v] by {
            assert(before.set_vars@.contains_key(v));
            if mid.dual_entering(row, val) is Ok {
                let info = mid.dual_entering(row, val)->Ok_0;
                let c = before.non_basic_vars_inv@[v as int] as int;
                if before.non_basic_vars_inv@[v as int] != SENTINEL {
                    assert(before.non_basic_vars@[c] == v);
                    assert(after.non_basic_vars@[c] == v);
                    assert(after.non_basic_vars_inv@[v as int] == c);
                } else {
                    assert(after.non_basic_vars@[info.col as int] == v);
                    assert(after.non_basic_vars_inv@[v as int] == info.col);
                }
            }
        }
    }
}

/// Restoring feasibility leaves the variables that are set outside the basis, with their values.
pub proof fn restore_keeps_sets<T: Scalar>(
    before: Solver<T>,
    after: Solver<T>,
    r: Result<(), Error>,
)
    requires
        restored(before, after, r),
        after.wf(),
        sets_non_basic(before),
    ensures
        sets_non_basic(after),
        sets_held(before) ==> sets_held(after),
{
    let s = choose|s: Seq<Solver<T>>| #[trigger] restored_by(s, before, after, r);
    dual_path_keeps_sets(s, s.len() - 1);
    if r is Err && r->Err_0 != Error::IterationLimit {
        dual_step_keeps_sets(s.last(), after, r);
    }
}

proof fn worst_row_below<T: Scalar>(s: Solver<T>, k: int)
    requires
        0 <= k <= s.m() <= usize::MAX,
    ensures
        s.dual_leaving_scan(k).row matches Some(row) ==> row < k,
    decreases k,
{
    if k > 0 {
        worst_row_below(s, k - 1);
    }
}

proof fn dual_step_keeps_sets<T: Scalar>(before: Solver<T>, after: Solver<T>, r: Result<(), Error>)
    requires
        dual_step(before, after, r),
        before.wf(),
        after.wf(),
        sets_non_basic(before),
    ensures
        sets_non_basic(after),
        sets_held(before) ==> sets_held(after),
{
    let (row, val) = worst_row(before)->0;
    worst_row_below(before, before.m());
    exit_keeps_sets(before, after, row, val, r);
}

proof fn dual_path_keeps_sets<T: Scalar>(s: Seq<Solver<T>>, k: int)
    requires
        dual_path(s),
        0 <= k < s.len(),
        sets_non_basic(s[0]),
    ensures
        sets_non_basic(s[k]),
        sets_held(s[0]) ==> sets_held(s[k]),
    decreases k,
{
    if k > 0 {
        dual_path_keeps_sets(s, k - 1);
        assert(dual_steps_at(s, k - 1));
        dual_step_keeps_sets(s[k - 1], s[k], Ok(()));
    }
}

} // verus!
