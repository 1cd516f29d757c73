//! The basis matrix of the simplex method and its changes.
use crate::elim::one_more;
use crate::error::Error;
use crate::eta::EtaMatrices;
use crate::lu::{
    all_finite, lu_factorize, single_entries, stuck, usable_entries, LUFactors, ScratchSpace,
};
use crate::scalar::{exact, Scalar};
use crate::scattered::ScatteredVec;
use crate::solve::{
    col_terms, finite_items, row_terms, solves, solves_transp, sparse_steps, sparse_steps_transp,
};
use crate::sparse::{at_place, below, distinct, holds, place, CsMat, SparseMat, SparseVec, Storage};
use crate::sums::{sum, sum_but_one, sum_plus, sum_same, sum_times, times_zero};
use vstd::prelude::*;

verus! {

/// The factors of a basis matrix and the elementary matrices for the changes since then.
#[derive(Clone, Debug)]
pub struct BasisSolver<T> {
    pub lu_factors: LUFactors<T>,
    pub scratch: ScratchSpace<T>,
    pub eta_matrices: EtaMatrices<T>,
    pub rhs: ScatteredVec<T>,
}

/// Whether column `k` has an entry in row `i`.
pub open spec fn col_has<T: Scalar>(cols: SparseMat<T>, k: int, i: int) -> bool {
    holds(cols.indices@, cols.lo(k), cols.hi(k), i)
}

/// A vector after the elementary matrix `k`.
pub open spec fn eta_step<T: Scalar>(etas: EtaMatrices<T>, v: Seq<T>, k: int) -> Seq<T> {
    let coeff = v[etas.leaving_rows@[k] as int];
    Seq::new(
        v.len(),
        |i: int|
            if col_has(etas.coeff_cols, k, i) {
                v[i].minus_spec(coeff.times_spec(etas.coeff_cols.entry(i, k)))
            } else {
                v[i]
            },
    )
}

/// A vector after the first `k` elementary matrices.
pub open spec fn eta_steps<T: Scalar>(etas: EtaMatrices<T>, v: Seq<T>, k: int) -> Seq<T>
    decreases k,
{
    if k <= 0 {
        v
    } else {
        eta_step(etas, eta_steps(etas, v, k - 1), k - 1)
    }
}

/// The list with one more place, unless it is there already.
pub open spec fn listed_too(list: Seq<usize>, i: usize) -> Seq<usize> {
    if holds(list, 0, list.len() as int, i as int) {
        list
    } else {
        list.push(i)
    }
}

/// The list with the places at the positions `lo..p` of `idx` as well.
pub open spec fn listed_all(list: Seq<usize>, idx: Seq<usize>, lo: int, p: int) -> Seq<usize>
    decreases p - lo,
{
    if p <= lo {
        list
    } else {
        listed_too(listed_all(list, idx, lo, p - 1), idx[p - 1])
    }
}

/// The list of a vector after the first `k` elementary matrices.
pub open spec fn eta_list<T: Scalar>(etas: EtaMatrices<T>, list: Seq<usize>, k: int) -> Seq<usize>
    decreases k,
{
    if k <= 0 {
        list
    } else {
        let cols = etas.coeff_cols;
        listed_all(eta_list(etas, list, k - 1), cols.indices@, cols.lo(k - 1), cols.hi(k - 1))
    }
}

/// The list of a row vector after the elementary matrices from the last one down to number `k`.
pub open spec fn eta_list_transp<T: Scalar>(
    etas: EtaMatrices<T>,
    list: Seq<usize>,
    k: int,
) -> Seq<usize>
    decreases etas.leaving_rows@.len() - k,
{
    if k >= etas.leaving_rows@.len() {
        list
    } else {
        listed_too(eta_list_transp(etas, list, k + 1), etas.leaving_rows@[k])
    }
}

/// The sum of the products of the entries at the positions `lo..p` and the items that they
/// belong to.
pub open spec fn entries_dot<T: Scalar>(cols: SparseMat<T>, v: Seq<T>, lo: int, p: int) -> T
    decreases p - lo,
{
    if p <= lo {
        T::zero_spec()
    } else {
        entries_dot(cols, v, lo, p - 1).plus_spec(
            cols.data@[p - 1].times_spec(v[cols.indices@[p - 1] as int]),
        )
    }
}

/// A row vector after the elementary matrix `k`.
pub open spec fn eta_step_transp<T: Scalar>(etas: EtaMatrices<T>, v: Seq<T>, k: int) -> Seq<T> {
    let r = etas.leaving_rows@[k] as int;
    v.update(
        r,
        v[r].minus_spec(
            entries_dot(etas.coeff_cols, v, etas.coeff_cols.lo(k), etas.coeff_cols.hi(k)),
        ),
    )
}

/// A row vector after the elementary matrices from the last one down to number `k`.
pub open spec fn eta_steps_transp<T: Scalar>(etas: EtaMatrices<T>, v: Seq<T>, k: int) -> Seq<T>
    decreases etas.leaving_rows@.len() - k,
{
    if k >= etas.leaving_rows@.len() {
        v
    } else {
        eta_step_transp(etas, eta_steps_transp(etas, v, k + 1), k)
    }
}

/// The vector of the given entries.
pub open spec fn holds_entries<T: Scalar>(
    v: ScatteredVec<T>,
    indices: Seq<usize>,
    data: Seq<T>,
) -> bool {
    &&& v.wf()
    &&& v.nonzero@ == indices
    &&& forall|p: int|
        0 <= p < indices.len() ==> v.values@[#[trigger] indices[p] as int] == data[p]
}

impl<T: Scalar> BasisSolver<T> {
    /// The parts fit a basis of `m` columns.
    pub open spec fn wf(self, m: int) -> bool {
        &&& self.lu_factors.wf()
        &&& self.lu_factors.dim() == m
        &&& self.scratch.wf()
        &&& self.scratch.fits(m)
        &&& self.eta_matrices.wf()
        &&& self.eta_matrices.coeff_cols.n_rows == m
        &&& self.rhs.wf()
        &&& self.rhs.values@.len() == m
    }

    /// Takes one more change of the basis into account.
    pub fn push_eta_matrix(&mut self, r_leaving: usize, coeffs: &SparseVec<T>)
        requires
            old(self).eta_matrices.wf(),
            r_leaving < old(self).eta_matrices.coeff_cols.n_rows,
            coeffs.wf(old(self).eta_matrices.coeff_cols.n_rows as int),
        ensures
            final(self).lu_factors == old(self).lu_factors,
            final(self).scratch == old(self).scratch,
            final(self).rhs == old(self).rhs,
            final(self).eta_matrices.wf(),
            final(self).eta_matrices.coeff_cols.n_rows == old(
                self).eta_matrices.coeff_cols.n_rows,
            final(self).eta_matrices.leaving_rows@ == old(self).eta_matrices.leaving_rows@.push(
                r_leaving,
            ),
            forall|r: int, c: int|
                0 <= c < old(self).eta_matrices.leaving_rows@.len() ==> #[trigger] final(
                    self).eta_matrices.coeff_cols.entry(r, c) == old(
                    self).eta_matrices.coeff_cols.entry(r, c),
            forall|r: int| #[trigger]
                final(self).eta_matrices.coeff_cols.entry(
                    r,
                    old(self).eta_matrices.leaving_rows@.len() as int,
                ) == coeffs.value(r),
    {
        self.eta_matrices.push(r_leaving, coeffs);
    }

    /// Factors the matrix of the given columns anew.
    pub fn reset(
        &mut self,
        orig_constraints_csc: &CsMat<T>,
        basic_vars: &[usize],
    ) -> (r: Result<(), Error>)
        requires
            old(self).scratch.wf(),
            old(self).rhs.wf(),
            orig_constraints_csc.wf(),
            orig_constraints_csc.storage == Storage::Csc,
            orig_constraints_csc.nrows == basic_vars@.len(),
            below(basic_vars@, orig_constraints_csc.ncols as int),
            basic_vars@.len() < usize::MAX,
        ensures
            final(self).eta_matrices.leaving_rows@.len() == 0,
            match r {
                Ok(_) => {
                    &&& final(self).wf(basic_vars@.len() as int)
                    &&& final(self).lu_factors.multiplies_to(*orig_constraints_csc, basic_vars@)
                    &&& final(self).lu_factors.eliminated_from(
                        *orig_constraints_csc,
                        basic_vars@,
                        T::stability_spec(),
                    )
                },
                Err(e) => {
                    &&& e == Error::SingularMatrix
                    &&& stuck(*orig_constraints_csc, basic_vars@, T::stability_spec())
                    &&& final(self).lu_factors == old(self).lu_factors
                    &&& old(self).wf(basic_vars@.len() as int) ==> final(self).wf(
                        basic_vars@.len() as int,
                    )
                },
            },
            single_entries(*orig_constraints_csc, basic_vars@) ==> r is Ok == usable_entries(
                *orig_constraints_csc,
                basic_vars@,
                T::stability_spec(),
                basic_vars@.len() as int,
            ),
    {
        let n: usize = basic_vars.len();
        self.eta_matrices.clear_and_resize(n);
        self.rhs.clear_and_resize(n);
        match lu_factorize(orig_constraints_csc, basic_vars, T::stability(), &mut self.scratch) {
            Ok(lu) => {
                self.lu_factors = lu;
                Ok(())
            },
            Err(e) => Err(e),
        }
    }

    /// Applies the elementary matrix `idx` to `rhs`.
    fn apply_eta(&mut self, idx: usize)
        requires
            old(self).eta_matrices.wf(),
            old(self).rhs.wf(),
            old(self).rhs.values@.len() == old(self).eta_matrices.coeff_cols.n_rows,
            idx < old(self).eta_matrices.leaving_rows@.len(),
        ensures
            final(self).lu_factors == old(self).lu_factors,
            final(self).scratch == old(self).scratch,
            final(self).eta_matrices == old(self).eta_matrices,
            final(self).rhs.wf(),
            final(self).rhs.values@ == eta_step(
                old(self).eta_matrices,
                old(self).rhs.values@,
                idx as int,
            ),
            final(self).rhs.nonzero@ == listed_all(
                old(self).rhs.nonzero@,
                old(self).eta_matrices.coeff_cols.indices@,
                old(self).eta_matrices.coeff_cols.lo(idx as int),
                old(self).eta_matrices.coeff_cols.hi(idx as int),
            ),
    {
        let ghost etas = self.eta_matrices;
        let ghost cols = etas.coeff_cols;
        let ghost v = self.rhs.values@;
        proof {
            cols.col_wf(idx as int);
            assert(idx < self.eta_matrices.leaving_rows.len());
        }
        let r_leaving: usize = self.eta_matrices.leaving_rows[idx];
        let coeff = *self.rhs.get(r_leaving);
        let lo: usize = self.eta_matrices.coeff_cols.indptr[idx];
        let hi: usize = self.eta_matrices.coeff_cols.indptr[idx + 1];
        let mut p: usize = lo;
        while p < hi
            invariant
                self.lu_factors == old(self).lu_factors,
                self.scratch == old(self).scratch,
                self.eta_matrices == etas,
                cols == etas.coeff_cols,
                etas.wf(),
                lo == cols.lo(idx as int),
                hi == cols.hi(idx as int),
                lo <= p <= hi <= cols.indices@.len(),
                distinct(cols.indices@, lo as int, hi as int),
                self.rhs.wf(),
                self.rhs.values@.len() == v.len(),
                v.len() == cols.n_rows,
                self.rhs.nonzero@ == listed_all(
                    old(self).rhs.nonzero@,
                    cols.indices@,
                    lo as int,
                    p as int,
                ),
                forall|i: int|
                    0 <= i < v.len() ==> #[trigger] self.rhs.values@[i] == if holds(
                        cols.indices@,
                        lo as int,
                        p as int,
                        i,
                    ) {
                        v[i].minus_spec(coeff.times_spec(cols.entry(i, idx as int)))
                    } else {
                        v[i]
                    },
            decreases hi - p,
        {
            let r: usize = self.eta_matrices.coeff_cols.indices[p];
            let val = self.eta_matrices.coeff_cols.data[p];
            proof {
                at_place(cols.indices@, cols.data@, lo as int, hi as int, p as int);
                one_more(cols.indices@, lo as int, hi as int, p as int);
            }
            let x = self.rhs.get(r).minus(coeff.times(val));
            assert(self.rhs.is_nonzero@[r as int] <==> self.rhs.marked(r as int));
            *self.rhs.get_mut(r) = x;
            p += 1;
        }
        proof {
            assert(self.rhs.values@ =~= eta_step(etas, v, idx as int));
        }
    }

    /// Applies the elementary matrix `idx` to `rhs` from the other side.
    fn apply_eta_transp(&mut self, idx: usize)
        requires
            old(self).eta_matrices.wf(),
            old(self).rhs.wf(),
            old(self).rhs.values@.len() == old(self).eta_matrices.coeff_cols.n_rows,
            idx < old(self).eta_matrices.leaving_rows@.len(),
        ensures
            final(self).lu_factors == old(self).lu_factors,
            final(self).scratch == old(self).scratch,
            final(self).eta_matrices == old(self).eta_matrices,
            final(self).rhs.wf(),
            final(self).rhs.values@ == eta_step_transp(
                old(self).eta_matrices,
                old(self).rhs.values@,
                idx as int,
            ),
            final(self).rhs.nonzero@ == listed_too(
                old(self).rhs.nonzero@,
                old(self).eta_matrices.leaving_rows@[idx as int],
            ),
    {
        let ghost cols = self.eta_matrices.coeff_cols;
        let ghost v = self.rhs.values@;
        proof {
            cols.col_wf(idx as int);
            assert(idx < self.eta_matrices.leaving_rows.len());
        }
        let mut coeff = T::zero();
        let lo: usize = self.eta_matrices.coeff_cols.indptr[idx];
        let hi: usize = self.eta_matrices.coeff_cols.indptr[idx + 1];
        let mut p: usize = lo;
        while p < hi
            invariant
                *self == *old(self),
                cols == self.eta_matrices.coeff_cols,
                cols.wf(),
                v == self.rhs.values@,
                v.len() == cols.n_rows,
                lo == cols.lo(idx as int),
                hi == cols.hi(idx as int),
                lo <= p <= hi <= cols.indices@.len(),
                coeff == entries_dot(cols, v, lo as int, p as int),
            decreases hi - p,
        {
            let i: usize = self.eta_matrices.coeff_cols.indices[p];
            coeff = coeff.plus(self.eta_matrices.coeff_cols.data[p].times(*self.rhs.get(i)));
            p += 1;
        }
        let r_leaving: usize = self.eta_matrices.leaving_rows[idx];
        let x = self.rhs.get(r_leaving).minus(coeff);
        assert(self.rhs.is_nonzero@[r_leaving as int] <==> self.rhs.marked(r_leaving as int));
        *self.rhs.get_mut(r_leaving) = x;
    }
}

impl<T: Scalar> BasisSolver<T> {
    /// `x` comes from the right-hand side `b` by the factors and the elementary matrices.
    pub open spec fn solved(self, b: ScatteredVec<T>, x: ScatteredVec<T>) -> bool {
        exists|
            y: ScatteredVec<T>,
            z: ScatteredVec<T>,
            w: ScatteredVec<T>,
            first: Seq<usize>,
            second: Seq<usize>,
        | #[trigger]
            sparse_steps(self.lu_factors, b, y, z, w, first, second) && x.values@
                == eta_steps(
                self.eta_matrices,
                w.values@,
                self.eta_matrices.leaving_rows@.len() as int,
            ) && x.nonzero@ == eta_list(
                self.eta_matrices,
                w.nonzero@,
                self.eta_matrices.leaving_rows@.len() as int,
            )
    }

    /// `x` comes from the right-hand side `b` of the transposed system by the elementary
    /// matrices and the factors.
    pub open spec fn solved_transp(self, b: ScatteredVec<T>, x: ScatteredVec<T>) -> bool {
        exists|
            c: ScatteredVec<T>,
            z: ScatteredVec<T>,
            w: ScatteredVec<T>,
            first: Seq<usize>,
            second: Seq<usize>,
        | #[trigger]
            sparse_steps_transp(self.lu_factors, c, z, w, x, first, second) && c.values@
                == eta_steps_transp(self.eta_matrices, b.values@, 0) && c.nonzero@
                == eta_list_transp(self.eta_matrices, b.nonzero@, 0)
    }

    /// What stays while systems are solved.
    pub open spec fn same_basis(self, other: BasisSolver<T>) -> bool {
        self.lu_factors == other.lu_factors && self.eta_matrices == other.eta_matrices
    }

    /// Solves the system with the given right-hand side; the result is left in `rhs`. With
    /// exact arithmetic it is a solution for the basis that the parts represent, wherever it is
    /// finite.
    pub fn solve(&mut self, indices: &Vec<usize>, data: &Vec<T>)
        requires
            old(self).wf(old(self).lu_factors.dim()),
            indices@.len() == data@.len(),
            distinct(indices@, 0, indices@.len() as int),
            below(indices@, old(self).lu_factors.dim()),
        ensures
            final(self).wf(old(self).lu_factors.dim()),
            final(self).same_basis(*old(self)),
            exists|b: ScatteredVec<T>| #[trigger]
                holds_entries(b, indices@, data@) && old(self).solved(b, final(self).rhs),
            forall|mat: CsMat<T>, basic: Seq<usize>, b: Seq<T>|
                exact::<T>() && #[trigger] old(self).represents(mat, basic) && finite_items(
                    final(self).rhs.values@,
                ) && #[trigger] dense_of(indices@, data@, b, old(self).lu_factors.dim()) ==> solves(
                    mat,
                    basic,
                    final(self).rhs.values@,
                    b,
                ),
    {
        let ghost n = self.lu_factors.dim();
        self.rhs.set_entries(indices, data);
        let ghost b = self.rhs;
        proof {
            assert forall|p: int| 0 <= p < indices@.len() implies b.values@[
                #[trigger] indices@[p] as int] == data@[p] by {
                at_place(indices@, data@, 0, indices@.len() as int, p);
            }
        }
        self.lu_factors.solve(&mut self.rhs, &mut self.scratch);
        let ghost w = self.rhs;
        let count: usize = self.eta_matrices.len();
        let mut idx: usize = 0;
        while idx < count
            invariant
                self.wf(n),
                self.lu_factors == old(self).lu_factors,
                self.eta_matrices == old(self).eta_matrices,
                count == self.eta_matrices.leaving_rows@.len(),
                idx <= count,
                self.rhs.values@ == eta_steps(self.eta_matrices, w.values@, idx as int),
                self.rhs.nonzero@ == eta_list(self.eta_matrices, w.nonzero@, idx as int),
            decreases count - idx,
        {
            self.apply_eta(idx);
            idx += 1;
        }
        proof {
            let (y, z, first, second) = choose|
                y: ScatteredVec<T>,
                z: ScatteredVec<T>,
                first: Seq<usize>,
                second: Seq<usize>,
            | #[trigger]
                sparse_steps(self.lu_factors, b, y, z, w, first, second);
            assert(sparse_steps(old(self).lu_factors, b, y, z, w, first, second));
            assert(old(self).solved(b, self.rhs));
            assert(holds_entries(b, indices@, data@));
            let x = self.rhs.values@;
            assert forall|mat: CsMat<T>, basic: Seq<usize>, d: Seq<T>|
                exact::<T>() && #[trigger] old(self).represents(mat, basic) && finite_items(x)
                    && #[trigger] dense_of(indices@, data@, d, n) implies solves(
                mat,
                basic,
                x,
                d,
            ) by {
                let bases = choose|bases: Seq<Seq<usize>>| #[trigger]
                    old(self).chain(mat, bases) && bases.last() == basic;
                let k = self.eta_matrices.leaving_rows@.len() as int;
                eta_finite(self.eta_matrices, w.values@, k);
                assert(old(self).lu_factors.multiplies_to(mat, bases[0]));
                dense_values(b, indices@, data@, d);
                assert(solves(mat, bases[0], w.values@, b.values@));
                same_rhs(mat, bases[0], w.values@, b.values@, d);
                eta_solve(*old(self), mat, bases, w.values@, d, k);
                assert(bases[k] == basic);
            }
        }
    }

    /// Solves the transposed system with the given right-hand side; the result is left in `rhs`.
    /// With exact arithmetic it is a solution for the basis that the parts represent, wherever it
    /// is finite.
    pub fn solve_transp(&mut self, indices: &Vec<usize>, data: &Vec<T>)
        requires
            old(self).wf(old(self).lu_factors.dim()),
            indices@.len() == data@.len(),
            distinct(indices@, 0, indices@.len() as int),
            below(indices@, old(self).lu_factors.dim()),
        ensures
            final(self).wf(old(self).lu_factors.dim()),
            final(self).same_basis(*old(self)),
            exists|b: ScatteredVec<T>| #[trigger]
                holds_entries(b, indices@, data@) && old(self).solved_transp(b, final(self).rhs),
            forall|mat: CsMat<T>, basic: Seq<usize>, b: Seq<T>|
                exact::<T>() && #[trigger] old(self).represents(mat, basic) && finite_items(
                    final(self).rhs.values@,
                ) && #[trigger] dense_of(indices@, data@, b, old(self).lu_factors.dim())
                    ==> solves_transp(mat, basic, final(self).rhs.values@, b),
    {
        let ghost n = self.lu_factors.dim();
        self.rhs.set_entries(indices, data);
        let ghost b = self.rhs;
        proof {
            assert forall|p: int| 0 <= p < indices@.len() implies b.values@[
                #[trigger] indices@[p] as int] == data@[p] by {
                at_place(indices@, data@, 0, indices@.len() as int, p);
            }
        }
        let mut idx: usize = self.eta_matrices.len();
        while idx > 0
            invariant
                self.wf(n),
                self.lu_factors == old(self).lu_factors,
                self.eta_matrices == old(self).eta_matrices,
                idx <= self.eta_matrices.leaving_rows@.len(),
                self.rhs.values@ == eta_steps_transp(self.eta_matrices, b.values@, idx as int),
                self.rhs.nonzero@ == eta_list_transp(
                    self.eta_matrices,
                    b.nonzero@,
                    idx as int,
                ),
            decreases idx,
        {
            idx -= 1;
            self.apply_eta_transp(idx);
        }
        let ghost c = self.rhs;
        self.lu_factors.solve_transp(&mut self.rhs, &mut self.scratch);
        proof {
            let (z, w, first, second) = choose|
                z: ScatteredVec<T>,
                w: ScatteredVec<T>,
                first: Seq<usize>,
                second: Seq<usize>,
            | #[trigger]
                sparse_steps_transp(self.lu_factors, c, z, w, self.rhs, first, second);
            assert(sparse_steps_transp(old(self).lu_factors, c, z, w, self.rhs, first, second));
            assert(old(self).solved_transp(b, self.rhs));
            assert(holds_entries(b, indices@, data@));
            let y = self.rhs.values@;
            assert forall|mat: CsMat<T>, basic: Seq<usize>, d: Seq<T>|
                exact::<T>() && #[trigger] old(self).represents(mat, basic) && finite_items(y)
                    && #[trigger] dense_of(indices@, data@, d, n) implies solves_transp(
                mat,
                basic,
                y,
                d,
            ) by {
                let bases = choose|bases: Seq<Seq<usize>>| #[trigger]
                    old(self).chain(mat, bases) && bases.last() == basic;
                let k = self.eta_matrices.leaving_rows@.len() as int;
                assert(old(self).lu_factors.multiplies_to(mat, bases[0]));
                assert(solves_transp(mat, bases[0], y, c.values@));
                eta_transp_solve(*old(self), mat, bases, y, b.values@, k);
                dense_values(b, indices@, data@, d);
                assert(bases[k] == basic);
                assert forall|i: int| 0 <= i < d.len() implies sum(
                    col_terms(mat, basic[i] as int, y),
                    mat.nrows as nat,
                ) == (#[trigger] d[i]).val() by {
                    assert(d[i].val() == b.values@[i].val());
                }
            }
        }
    }

    /// The product of the factors and the inverses of the elementary matrices is the matrix of
    /// the columns `bases[k]`, after the first `k` changes.
    pub open spec fn chain(self, mat: CsMat<T>, bases: Seq<Seq<usize>>) -> bool {
        &&& bases.len() == self.eta_matrices.leaving_rows@.len() + 1
        &&& forall|k: int|
            0 <= k < bases.len() ==> (#[trigger] bases[k]).len() == self.lu_factors.dim()
        &&& mat.nrows == self.lu_factors.dim()
        &&& self.lu_factors.multiplies_to(mat, bases[0])
        &&& all_finite(self.lu_factors.lower)
        &&& all_finite(self.lu_factors.upper)
        &&& forall|k: int|
            0 <= k < bases.len() - 1 ==> #[trigger] basis_change(
                mat,
                self.eta_matrices,
                bases,
                k,
            )
    }

    /// The parts represent the matrix of the given columns.
    pub open spec fn represents(self, mat: CsMat<T>, basic: Seq<usize>) -> bool {
        exists|bases: Seq<Seq<usize>>| #[trigger] self.chain(mat, bases) && bases.last() == basic
    }
}

/// `b` is the vector of the given entries, in full.
pub open spec fn dense_of<T: Scalar>(
    indices: Seq<usize>,
    data: Seq<T>,
    b: Seq<T>,
    n: int,
) -> bool {
    &&& b.len() == n
    &&& forall|i: int|
        0 <= i < n ==> (#[trigger] b[i]).val() == crate::sparse::at(
            indices,
            data,
            0,
            indices.len() as int,
            i,
        ).val()
}

/// The terms of row `i` of the product of the columns and the coefficients of change `k`.
pub open spec fn eta_terms<T: Scalar>(
    mat: CsMat<T>,
    basic: Seq<usize>,
    etas: EtaMatrices<T>,
    k: int,
    i: int,
) -> spec_fn(int) -> real {
    |c: int| mat.line(basic[c] as int, i).val() * etas.coeff_cols.entry(c, k).val()
}

/// Change `k` replaces the column in place of the leaving row, which the coefficients express
/// by the new columns; it can be undone.
pub open spec fn basis_change<T: Scalar>(
    mat: CsMat<T>,
    etas: EtaMatrices<T>,
    bases: Seq<Seq<usize>>,
    k: int,
) -> bool {
    let r = etas.leaving_rows@[k] as int;
    &&& bases[k + 1] == bases[k].update(r, bases[k + 1][r])
    &&& etas.coeff_cols.entry(r, k).val() != 1 as real
    &&& forall|i: int|
        0 <= i < mat.nrows ==> (#[trigger] mat.line(bases[k][r] as int, i)).val() == mat.line(
            bases[k + 1][r] as int,
            i,
        ).val() - sum(eta_terms(mat, bases[k + 1], etas, k, i), bases[k].len())
}

/// Finite results come from finite vectors.
proof fn eta_finite<T: Scalar>(etas: EtaMatrices<T>, v: Seq<T>, k: int)
    requires
        exact::<T>(),
        0 <= k <= etas.leaving_rows@.len(),
        finite_items(eta_steps(etas, v, k)),
    ensures
        eta_steps(etas, v, k).len() == v.len(),
        finite_items(v),
    decreases k,
{
    if k > 0 {
        let x = eta_steps(etas, v, k - 1);
        eta_step_finite(etas, x, k - 1);
        eta_finite(etas, v, k - 1);
    }
}

proof fn eta_step_finite<T: Scalar>(etas: EtaMatrices<T>, x: Seq<T>, k: int)
    requires
        exact::<T>(),
        finite_items(eta_step(etas, x, k)),
    ensures
        finite_items(x),
        forall|c: int|
            0 <= c < x.len() ==> (#[trigger] eta_step(etas, x, k)[c]).val() == x[c].val()
                - x[etas.leaving_rows@[k] as int].val() * etas.coeff_cols.entry(c, k).val(),
{
    let y = eta_step(etas, x, k);
    let a = x[etas.leaving_rows@[k] as int];
    assert forall|c: int| 0 <= c < x.len() implies (#[trigger] x[c]).finite() by {
        assert(y[c].finite());
    }
    assert forall|c: int| 0 <= c < x.len() implies (#[trigger] y[c]).val() == x[c].val() - a.val()
        * etas.coeff_cols.entry(c, k).val() by {
        assert(y[c].finite());
        if !col_has(etas.coeff_cols, k, c) {
            times_zero(a.val());
        }
    }
}

proof fn dense_values<T: Scalar>(
    v: ScatteredVec<T>,
    indices: Seq<usize>,
    data: Seq<T>,
    d: Seq<T>,
)
    requires
        exact::<T>(),
        holds_entries(v, indices, data),
        distinct(indices, 0, indices.len() as int),
        dense_of(indices, data, d, v.values@.len() as int),
    ensures
        forall|i: int| 0 <= i < d.len() ==> (#[trigger] d[i]).val() == v.values@[i].val(),
{
    assert forall|i: int| 0 <= i < d.len() implies (#[trigger] d[i]).val() == v.values@[i].val() by {
        assert(v.is_nonzero@[i] <==> v.marked(i));
        if v.marked(i) {
            let p = place(indices, 0, indices.len() as int, i);
            assert(indices[p] == i);
            at_place(indices, data, 0, indices.len() as int, p);
        }
    }
}

proof fn same_rhs<T: Scalar>(
    mat: CsMat<T>,
    basic: Seq<usize>,
    x: Seq<T>,
    b: Seq<T>,
    d: Seq<T>,
)
    requires
        b.len() == d.len(),
        forall|i: int| 0 <= i < d.len() ==> (#[trigger] d[i]).val() == b[i].val(),
        solves(mat, basic, x, b),
    ensures
        solves(mat, basic, x, d),
{
    assert forall|r: int| 0 <= r < d.len() implies sum(row_terms(mat, basic, x, r), basic.len()) == (
    #[trigger] d[r]).val() by {
        assert(d[r].val() == b[r].val());
    }
}

/// An elementary matrix turns a solution for one basis into a solution for the next.
proof fn eta_solve_step<T: Scalar>(
    bs: BasisSolver<T>,
    mat: CsMat<T>,
    bases: Seq<Seq<usize>>,
    x: Seq<T>,
    d: Seq<T>,
    k: int,
)
    requires
        exact::<T>(),
        bs.chain(mat, bases),
        0 <= k < bases.len() - 1,
        bs.eta_matrices.wf(),
        bs.eta_matrices.coeff_cols.n_rows == bs.lu_factors.dim(),
        x.len() == bs.lu_factors.dim(),
        d.len() == mat.nrows,
        solves(mat, bases[k], x, d),
        finite_items(eta_step(bs.eta_matrices, x, k)),
    ensures
        solves(mat, bases[k + 1], eta_step(bs.eta_matrices, x, k), d),
{
    let etas = bs.eta_matrices;
    let y = eta_step(etas, x, k);
    let r = etas.leaving_rows@[k] as int;
    let (old_basis, new_basis) = (bases[k], bases[k + 1]);
    let n = old_basis.len();
    assert(new_basis.len() == bs.lu_factors.dim());
    assert(basis_change(mat, etas, bases, k));
    assert(etas.leaving_rows@[k] < etas.coeff_cols.n_rows);
    eta_step_finite(etas, x, k);
    let a = x[r].val();
    assert forall|i: int| 0 <= i < d.len() implies sum(row_terms(mat, new_basis, y, i), n) == (
    #[trigger] d[i]).val() by {
        let f = row_terms(mat, old_basis, x, i);
        let g = row_terms(mat, new_basis, x, i);
        let e = eta_terms(mat, new_basis, etas, k, i);
        let s = |c: int| (-a) * e(c);
        let h = row_terms(mat, new_basis, y, i);
        assert forall|c: int| 0 <= c < n && c != r implies #[trigger] f(c) == g(c) by {
            assert(new_basis[c] == old_basis[c]);
        }
        sum_but_one(f, g, n, r);
        assert forall|c: int| 0 <= c < n implies #[trigger] h(c) == g(c) + s(c) by {
            assert(y[c].val() == x[c].val() - a * etas.coeff_cols.entry(c, k).val());
            let (p, q, t) = (
                mat.line(new_basis[c] as int, i).val(),
                x[c].val(),
                etas.coeff_cols.entry(c, k).val(),
            );
            assert(p * (q - a * t) == p * q + (-a) * (p * t)) by (nonlinear_arith);
        }
        sum_plus(g, s, h, n);
        sum_times(-a, e, s, n);
        let (p, q) = (
            mat.line(old_basis[r] as int, i).val(),
            mat.line(new_basis[r] as int, i).val(),
        );
        let t = sum(e, n);
        assert(p == q - t);
        assert(q * a - p * a + (-a) * t == 0 as real) by (nonlinear_arith)
            requires
                p == q - t,
        ;
        assert(d[i].val() == sum(f, n));
    }
}

proof fn eta_solve<T: Scalar>(
    bs: BasisSolver<T>,
    mat: CsMat<T>,
    bases: Seq<Seq<usize>>,
    w: Seq<T>,
    d: Seq<T>,
    k: int,
)
    requires
        exact::<T>(),
        bs.chain(mat, bases),
        0 <= k < bases.len(),
        bs.eta_matrices.wf(),
        bs.eta_matrices.coeff_cols.n_rows == bs.lu_factors.dim(),
        w.len() == bs.lu_factors.dim(),
        d.len() == mat.nrows,
        solves(mat, bases[0], w, d),
        finite_items(eta_steps(bs.eta_matrices, w, k)),
    ensures
        solves(mat, bases[k], eta_steps(bs.eta_matrices, w, k), d),
    decreases k,
{
    if k > 0 {
        let x = eta_steps(bs.eta_matrices, w, k - 1);
        eta_step_finite(bs.eta_matrices, x, k - 1);
        eta_finite(bs.eta_matrices, w, k - 1);
        eta_solve(bs, mat, bases, w, d, k - 1);
        eta_solve_step(bs, mat, bases, x, d, k - 1);
    }
}

/// The terms of the product of the coefficients of change `k` and `v`.
pub open spec fn coeff_terms<T: Scalar>(
    cols: SparseMat<T>,
    k: int,
    v: Seq<T>,
) -> spec_fn(int) -> real {
    |c: int| cols.entry(c, k).val() * v[c].val()
}

/// The terms that the positions `lo..p` give.
pub open spec fn some_terms<T: Scalar>(
    cols: SparseMat<T>,
    k: int,
    v: Seq<T>,
    lo: int,
    p: int,
) -> spec_fn(int) -> real {
    |c: int|
        if holds(cols.indices@, lo, p, c) {
            cols.entry(c, k).val() * v[c].val()
        } else {
            0 as real
        }
}

proof fn dot_value<T: Scalar>(cols: SparseMat<T>, k: int, v: Seq<T>, p: int)
    requires
        exact::<T>(),
        cols.wf(),
        0 <= k < cols.ncols(),
        v.len() == cols.n_rows,
        cols.lo(k) <= p <= cols.hi(k),
        entries_dot(cols, v, cols.lo(k), p).finite(),
    ensures
        entries_dot(cols, v, cols.lo(k), p).val() == sum(
            some_terms(cols, k, v, cols.lo(k), p),
            v.len(),
        ),
    decreases p,
{
    cols.col_wf(k);
    let lo = cols.lo(k);
    let hi = cols.hi(k);
    let n = v.len();
    let g = some_terms(cols, k, v, lo, p);
    if p == lo {
        assert forall|c: int| 0 <= c < n implies #[trigger] g(c) == 0 as real by {
            assert(!holds(cols.indices@, lo, p, c));
        }
        crate::sums::sum_zero(g, n);
    } else {
        dot_value(cols, k, v, p - 1);
        let f = some_terms(cols, k, v, lo, p - 1);
        let i = cols.indices@[p - 1] as int;
        one_more(cols.indices@, lo, hi, p - 1);
        at_place(cols.indices@, cols.data@, lo, hi, p - 1);
        assert forall|c: int| 0 <= c < n && c != i implies #[trigger] f(c) == g(c) by {
            assert(holds(cols.indices@, lo, p - 1 + 1, c) == holds(cols.indices@, lo, p, c));
        }
        assert(holds(cols.indices@, lo, p - 1 + 1, i));
        sum_but_one(f, g, n, i);
    }
}

/// The product of the coefficients and a vector.
proof fn whole_dot<T: Scalar>(cols: SparseMat<T>, k: int, v: Seq<T>)
    requires
        exact::<T>(),
        cols.wf(),
        0 <= k < cols.ncols(),
        v.len() == cols.n_rows,
        entries_dot(cols, v, cols.lo(k), cols.hi(k)).finite(),
    ensures
        entries_dot(cols, v, cols.lo(k), cols.hi(k)).val() == sum(coeff_terms(cols, k, v), v.len()),
{
    cols.col_wf(k);
    dot_value(cols, k, v, cols.hi(k));
    let f = some_terms(cols, k, v, cols.lo(k), cols.hi(k));
    let g = coeff_terms(cols, k, v);
    assert forall|c: int| 0 <= c < v.len() implies #[trigger] f(c) == g(c) by {
        times_zero(v[c].val());
    }
    sum_same(f, g, v.len());
}

/// A solution of the transposed system for one basis is one for the next, with the right-hand
/// side from before the elementary matrix.
proof fn eta_transp_step<T: Scalar>(
    bs: BasisSolver<T>,
    mat: CsMat<T>,
    bases: Seq<Seq<usize>>,
    y: Seq<T>,
    v: Seq<T>,
    k: int,
)
    requires
        exact::<T>(),
        bs.chain(mat, bases),
        0 <= k < bases.len() - 1,
        bs.eta_matrices.wf(),
        bs.eta_matrices.coeff_cols.n_rows == bs.lu_factors.dim(),
        v.len() == bs.lu_factors.dim(),
        solves_transp(mat, bases[k], y, eta_step_transp(bs.eta_matrices, v, k)),
        finite_items(eta_step_transp(bs.eta_matrices, v, k)),
    ensures
        solves_transp(mat, bases[k + 1], y, v),
        finite_items(v),
{
    let etas = bs.eta_matrices;
    let cols = etas.coeff_cols;
    let r = etas.leaving_rows@[k] as int;
    let (old_basis, new_basis) = (bases[k], bases[k + 1]);
    let n = v.len();
    let m = mat.nrows as nat;
    assert(new_basis.len() == bs.lu_factors.dim());
    assert(basis_change(mat, etas, bases, k));
    assert(etas.leaving_rows@[k] < cols.n_rows);
    let w = eta_step_transp(etas, v, k);
    let dot = entries_dot(cols, v, cols.lo(k), cols.hi(k));
    assert(w[r].finite());
    assert(w[r] == v[r].minus_spec(dot));
    whole_dot(cols, k, v);
    assert forall|i: int| 0 <= i < n implies (#[trigger] v[i]).finite() by {
        assert(w[i].finite());
    }
    let s = |c: int| sum(col_terms(mat, new_basis[c] as int, y), m);
    assert forall|c: int| 0 <= c < n && c != r implies #[trigger] s(c) == v[c].val() by {
        assert(new_basis[c] == old_basis[c]);
        assert(w[c] == v[c]);
        assert(w[c].val() == v[c].val());
    }
    // the column that left, in terms of the new ones
    let eta = |c: int| cols.entry(c, k).val();
    let f = |i: int, c: int| (mat.line(new_basis[c] as int, i).val() * eta(c)) * y[i].val();
    let left = col_terms(mat, old_basis[r] as int, y);
    let entered = col_terms(mat, new_basis[r] as int, y);
    let rows = |i: int| sum(|c: int| f(i, c), n);
    let neg = |i: int| (-1 as real) * rows(i);
    assert forall|i: int| 0 <= i < m implies #[trigger] left(i) == entered(i) + neg(i) by {
        let e = eta_terms(mat, new_basis, etas, k, i);
        let g = |c: int| f(i, c);
        let t = y[i].val();
        assert forall|c: int| 0 <= c < n implies #[trigger] g(c) == t * e(c) by {
            let p = e(c);
            assert(p * t == t * p) by (nonlinear_arith);
        }
        sum_times(t, e, g, n);
        assert(mat.line(old_basis[r] as int, i).val() == mat.line(new_basis[r] as int, i).val()
            - sum(e, n));
        let (p, q) = (mat.line(new_basis[r] as int, i).val(), sum(e, n));
        assert((p - q) * t == p * t + (-1 as real) * (t * q)) by (nonlinear_arith);
    }
    sum_plus(entered, neg, left, m);
    sum_times(-1 as real, rows, neg, m);
    crate::sums::sum_swap(f, m, n);
    let across = |c: int| sum(|i: int| f(i, c), m);
    let weighted = |c: int| eta(c) * s(c);
    assert forall|c: int| 0 <= c < n implies #[trigger] across(c) == weighted(c) by {
        let g = |i: int| f(i, c);
        let t = col_terms(mat, new_basis[c] as int, y);
        assert forall|i: int| 0 <= i < m implies #[trigger] g(i) == eta(c) * t(i) by {
            let (p, q, u) = (mat.line(new_basis[c] as int, i).val(), eta(c), y[i].val());
            assert((p * q) * u == q * (p * u)) by (nonlinear_arith);
        }
        sum_times(eta(c), t, g, m);
    }
    sum_same(across, weighted, n);
    // compare with the right-hand side
    let dots = coeff_terms(cols, k, v);
    assert forall|c: int| 0 <= c < n && c != r implies #[trigger] dots(c) == weighted(c) by {
        assert(s(c) == v[c].val());
    }
    sum_but_one(dots, weighted, n, r);
    assert(w[r].val() == v[r].val() - sum(dots, n));
    assert(sum(left, m) == w[r].val());
    let (a, b, h) = (s(r), v[r].val(), eta(r));
    assert(a - (h * a - h * b) == b);
    assert(a == b) by (nonlinear_arith)
        requires
            a - (h * a - h * b) == b,
            h != 1 as real,
    ;
    assert forall|c: int| 0 <= c < v.len() implies sum(
        col_terms(mat, new_basis[c] as int, y),
        mat.nrows as nat,
    ) == (#[trigger] v[c]).val() by {
        assert(s(c) == v[c].val());
    }
}

proof fn eta_transp_len<T: Scalar>(etas: EtaMatrices<T>, v: Seq<T>, k: int)
    requires
        etas.wf(),
        v.len() == etas.coeff_cols.n_rows,
        0 <= k <= etas.leaving_rows@.len(),
    ensures
        eta_steps_transp(etas, v, k).len() == v.len(),
    decreases etas.leaving_rows@.len() - k,
{
    if k < etas.leaving_rows@.len() {
        eta_transp_len(etas, v, k + 1);
        assert(etas.leaving_rows@[k] < etas.coeff_cols.n_rows);
    }
}

proof fn eta_transp_solve<T: Scalar>(
    bs: BasisSolver<T>,
    mat: CsMat<T>,
    bases: Seq<Seq<usize>>,
    y: Seq<T>,
    b: Seq<T>,
    k: int,
)
    requires
        exact::<T>(),
        bs.chain(mat, bases),
        0 <= k < bases.len(),
        bs.eta_matrices.wf(),
        bs.eta_matrices.coeff_cols.n_rows == bs.lu_factors.dim(),
        b.len() == bs.lu_factors.dim(),
        solves_transp(mat, bases[0], y, eta_steps_transp(bs.eta_matrices, b, 0)),
        finite_items(eta_steps_transp(bs.eta_matrices, b, 0)),
    ensures
        solves_transp(mat, bases[k], y, eta_steps_transp(bs.eta_matrices, b, k)),
        finite_items(eta_steps_transp(bs.eta_matrices, b, k)),
    decreases k,
{
    if k > 0 {
        eta_transp_solve(bs, mat, bases, y, b, k - 1);
        eta_transp_len(bs.eta_matrices, b, k);
        eta_transp_step(
            bs,
            mat,
            bases,
            y,
            eta_steps_transp(bs.eta_matrices, b, k),
            k - 1,
        );
    }
}

} // verus!
