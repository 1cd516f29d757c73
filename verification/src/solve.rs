//! Linear systems with a factored matrix.
use crate::elim::one_more;
use crate::lu::{all_finite, transposes, LUFactors, ScratchSpace};
use crate::perm::{counting, inverse, swap_at, swap_items, swapped, swapped_index};
use crate::scalar::{exact, is_zero, Scalar};
use crate::scattered::ScatteredVec;
use crate::sparse::{below, holds, CsMat};
use crate::sums::{sum, sum_same, sum_single, sum_swap, sum_times};
use crate::sweep::{solve_sparse_csc, sparsely_solved, Triangle};
use crate::tri::{
    backward_solution, backward_solves, backward_transp_solution, backward_transp_solves,
    forward_solution, forward_solves, lsolve_csc, lsolve_transp, rows_hold, tri_terms, usolve_csc,
    usolve_transp,
};
use vstd::prelude::*;

verus! {

/// The terms of row `r` of the product of the chosen columns and `x`.
pub open spec fn row_terms<T: Scalar>(
    mat: CsMat<T>,
    cols: Seq<usize>,
    x: Seq<T>,
    r: int,
) -> spec_fn(int) -> real {
    |c: int| mat.line(cols[c] as int, r).val() * x[c].val()
}

/// The product of the chosen columns and `x` is `b`.
pub open spec fn solves<T: Scalar>(
    mat: CsMat<T>,
    cols: Seq<usize>,
    x: Seq<T>,
    b: Seq<T>,
) -> bool {
    forall|r: int|
        0 <= r < b.len() ==> sum(row_terms(mat, cols, x, r), cols.len()) == (#[trigger] b[r]).val()
}

/// The terms of the product of column `col` and `x`.
pub open spec fn col_terms<T: Scalar>(mat: CsMat<T>, col: int, x: Seq<T>) -> spec_fn(int) -> real {
    |r: int| mat.line(col, r).val() * x[r].val()
}

/// The product of every chosen column and `x` is the item of `b`.
pub open spec fn solves_transp<T: Scalar>(
    mat: CsMat<T>,
    cols: Seq<usize>,
    x: Seq<T>,
    b: Seq<T>,
) -> bool {
    forall|c: int|
        0 <= c < b.len() ==> sum(col_terms(mat, cols[c] as int, x), mat.nrows as nat) == (
        #[trigger] b[c]).val()
}

pub open spec fn finite_items<T: Scalar>(x: Seq<T>) -> bool {
    forall|i: int| 0 <= i < x.len() ==> (#[trigger] x[i]).finite()
}

/// Listed values moved to other places, those that are zero left out if `drop_zeros`.
pub open spec fn moved<T: Scalar>(
    from: ScatteredVec<T>,
    to: ScatteredVec<T>,
    perm: Seq<usize>,
    drop_zeros: bool,
) -> bool {
    forall|i: int|
        0 <= i < perm.len() ==> if from.is_nonzero@[i] && !(drop_zeros
            && from.values@[i].same_spec(T::zero_spec())) {
            #[trigger] to.is_nonzero@[perm[i] as int] && to.values@[perm[i] as int]
                == from.values@[i]
        } else {
            !to.is_nonzero@[perm[i] as int] && is_zero(to.values@[perm[i] as int])
        }
}

/// The places to which the listed values are moved, in the order of the list.
pub open spec fn moved_list<T: Scalar>(
    from: ScatteredVec<T>,
    perm: Seq<usize>,
    drop_zeros: bool,
    k: nat,
) -> Seq<usize>
    decreases k,
{
    if k == 0 {
        Seq::empty()
    } else {
        let i = from.nonzero@[k - 1] as int;
        let rest = moved_list(from, perm, drop_zeros, (k - 1) as nat);
        if drop_zeros && from.values@[i].same_spec(T::zero_spec()) {
            rest
        } else {
            rest.push(perm[i])
        }
    }
}

/// Replaces the contents of `to` by the listed values of `from`, moved to other places.
fn move_entries<T: Scalar>(
    from: &ScatteredVec<T>,
    to: &mut ScatteredVec<T>,
    perm: &Vec<usize>,
    drop_zeros: bool,
    Ghost(back): Ghost<Seq<usize>>,
)
    requires
        from.wf(),
        old(to).wf(),
        inverse(perm@, back),
        from.values@.len() == perm@.len(),
        old(to).values@.len() == perm@.len(),
    ensures
        final(to).wf(),
        final(to).values@.len() == perm@.len(),
        final(to).nonzero@.len() <= from.nonzero@.len(),
        moved(*from, *final(to), perm@, drop_zeros),
        final(to).nonzero@ == moved_list(*from, perm@, drop_zeros, from.nonzero@.len()),
{
    to.clear();
    let ghost list = from.nonzero@;
    let len: usize = from.nonzero.len();
    let mut k: usize = 0;
    assert(to.nonzero@ =~= moved_list(*from, perm@, drop_zeros, 0));
    while k < len
        invariant
            from.wf(),
            to.wf(),
            inverse(perm@, back),
            from.values@.len() == perm@.len(),
            to.values@.len() == perm@.len(),
            list == from.nonzero@,
            len == list.len(),
            k <= len,
            to.nonzero@.len() <= k,
            to.nonzero@ == moved_list(*from, perm@, drop_zeros, k as nat),
            forall|i: int|
                0 <= i < perm@.len() ==> if holds(list, 0, k as int, i) && !(drop_zeros
                    && from.values@[i].same_spec(T::zero_spec())) {
                    #[trigger] to.is_nonzero@[perm@[i] as int] && to.values@[perm@[i] as int]
                        == from.values@[i]
                } else {
                    !to.is_nonzero@[perm@[i] as int] && is_zero(to.values@[perm@[i] as int])
                },
        decreases len - k,
    {
        let i: usize = from.nonzero[k];
        let val = from.values[i];
        proof {
            one_more(list, 0, len as int, k as int);
            assert(!to.is_nonzero@[perm@[i as int] as int]);
            assert forall|j: int| 0 <= j < perm@.len() && j != i implies #[trigger] perm@[j]
                != perm@[i as int] by {
                assert(back[perm@[j] as int] == j);
                assert(back[perm@[i as int] as int] == i);
            }
        }
        if !(drop_zeros && val.same(T::zero())) {
            let new_i: usize = perm[i];
            to.mark(new_i);
            to.values[new_i] = val;
        }
        k += 1;
    }
    proof {
        assert forall|i: int| 0 <= i < perm@.len() implies from.is_nonzero@[i] == #[trigger] holds(
            list,
            0,
            len as int,
            i,
        ) by {
            assert(from.is_nonzero@[i] <==> from.marked(i));
        }
    }
}

impl<T: Scalar> LUFactors<T> {
    /// The right-hand side in the new order of the rows.
    pub open spec fn reordered(self, b: Seq<T>) -> Seq<T> {
        Seq::new(b.len(), |i: int| b[self.new2orig_row@[i] as int])
    }

    /// What forward substitution makes of the right-hand side.
    pub open spec fn half_solution(self, b: Seq<T>) -> Seq<T> {
        Seq::new(b.len(), |i: int| forward_solution(self.lower, false, self.reordered(b), i))
    }

    /// What forward and backward substitution make of the right-hand side.
    pub open spec fn dense_solution(self, b: Seq<T>) -> Seq<T> {
        Seq::new(b.len(), |i: int| backward_solution(self.upper, self.half_solution(b), i))
    }

    /// What forward substitution makes of the right-hand side of the transposed system.
    pub open spec fn half_solution_transp(self, b: Seq<T>) -> Seq<T> {
        Seq::new(b.len(), |i: int| forward_solution(self.upper, true, b, i))
    }

    /// What substitution makes of the right-hand side of the transposed system.
    pub open spec fn dense_solution_transp(self, b: Seq<T>) -> Seq<T> {
        Seq::new(
            b.len(),
            |r: int|
                backward_transp_solution(
                    self.lower,
                    self.half_solution_transp(b),
                    self.orig2new_row@[r] as int,
                ),
        )
    }

    /// Solves the system with a dense right-hand side.
    pub fn solve_dense(&self, rhs: &mut [T])
        requires
            self.wf(),
            old(rhs)@.len() == self.dim(),
        ensures
            final(rhs)@ == self.dense_solution(old(rhs)@),
    {
        let ghost b = rhs@;
        let ghost n = self.dim();
        let len: usize = rhs.len();
        let mut i: usize = 0;
        while i < len
            invariant
                self.wf(),
                n == self.dim(),
                len == n,
                b.len() == n,
                rhs@.len() == n,
                i <= len,
                rhs@ == swapped(self.swaps@.subrange(0, i as int), b),
            decreases len - i,
        {
            swap_items(rhs, i, self.swaps[i]);
            proof {
                let next = self.swaps@.subrange(0, i + 1);
                assert(next.drop_last() =~= self.swaps@.subrange(0, i as int));
            }
            i += 1;
        }
        proof {
            assert(self.swaps@.subrange(0, n) =~= self.swaps@);
            swapped_index(self.swaps@, b);
            assert(rhs@ =~= self.reordered(b));
        }
        lsolve_csc(&self.lower, rhs);
        assert(rhs@ =~= self.half_solution(b));
        usolve_csc(&self.upper, rhs);
        assert(rhs@ =~= self.dense_solution(b));
    }

    /// Solves the transposed system with a dense right-hand side.
    pub fn solve_dense_transp(&self, rhs: &mut [T])
        requires
            self.wf(),
            old(rhs)@.len() == self.dim(),
        ensures
            final(rhs)@ == self.dense_solution_transp(old(rhs)@),
    {
        let ghost b = rhs@;
        let ghost n = self.dim();
        lsolve_transp(&self.upper, rhs);
        assert(rhs@ =~= self.half_solution_transp(b));
        usolve_transp(&self.lower, rhs);
        let ghost w = rhs@;
        let mut i: usize = rhs.len();
        proof {
            assert(self.swaps@.subrange(0, n) =~= self.swaps@);
        }
        let ghost mut result: Seq<T> = unswapped(self.swaps@, w);
        proof {
            unswapped_len(self.swaps@, w);
        }
        while i > 0
            invariant
                self.wf(),
                n == self.dim(),
                rhs@.len() == n,
                w.len() == n,
                i <= n,
                unswapped(self.swaps@.subrange(0, i as int), rhs@) == result,
            decreases i,
        {
            i -= 1;
            swap_items(rhs, i, self.swaps[i]);
            proof {
                let all = self.swaps@.subrange(0, i + 1);
                assert(all.drop_last() =~= self.swaps@.subrange(0, i as int));
            }
        }
        proof {
            assert(self.swaps@.subrange(0, 0).len() == 0);
            assert(rhs@ == result);
            unswapped_index(self.swaps@, w);
            assert forall|r: int| 0 <= r < n implies #[trigger] rhs@[r] == self.dense_solution_transp(
                b,
            )[r] by {
                let k = self.orig2new_row@[r] as int;
                assert(self.new2orig_row@[k] == r);
                assert(swapped(self.swaps@, counting(n as nat))[k] == r);
            }
            assert(rhs@ =~= self.dense_solution_transp(b));
        }
    }
}

/// The steps of a sparse solve: the rows are reordered, then the system is solved with the
/// lower and with the upper factor.
pub open spec fn sparse_steps<T: Scalar>(
    lu: LUFactors<T>,
    b: ScatteredVec<T>,
    y: ScatteredVec<T>,
    z: ScatteredVec<T>,
    x: ScatteredVec<T>,
    first: Seq<usize>,
    second: Seq<usize>,
) -> bool {
    &&& y.wf()
    &&& z.wf()
    &&& moved(b, y, lu.orig2new_row@, false)
    &&& y.nonzero@ == moved_list(b, lu.orig2new_row@, false, b.nonzero@.len())
    &&& sparsely_solved(lu.lower, y, z, first)
    &&& sparsely_solved(lu.upper, z, x, second)
}

/// The steps of a sparse solve of the transposed system.
pub open spec fn sparse_steps_transp<T: Scalar>(
    lu: LUFactors<T>,
    b: ScatteredVec<T>,
    z: ScatteredVec<T>,
    w: ScatteredVec<T>,
    x: ScatteredVec<T>,
    first: Seq<usize>,
    second: Seq<usize>,
) -> bool {
    &&& z.wf()
    &&& w.wf()
    &&& sparsely_solved(lu.upper_transp_csc, b, z, first)
    &&& sparsely_solved(lu.lower_transp_csc, z, w, second)
    &&& moved(w, x, lu.new2orig_row@, true)
    &&& x.nonzero@ == moved_list(w, lu.new2orig_row@, true, w.nonzero@.len())
}

impl<T: Scalar> LUFactors<T> {
    /// Solves the system with a sparse right-hand side. With exact arithmetic the result solves
    /// it, wherever it is finite.
    pub fn solve(&self, rhs: &mut ScatteredVec<T>, scratch: &mut ScratchSpace<T>)
        requires
            self.wf(),
            old(rhs).wf(),
            old(rhs).values@.len() == self.dim(),
            old(scratch).wf(),
            old(scratch).fits(self.dim()),
        ensures
            final(rhs).wf(),
            final(rhs).values@.len() == self.dim(),
            final(scratch).wf(),
            final(scratch).fits(self.dim()),
            exists|
                y: ScatteredVec<T>,
                z: ScatteredVec<T>,
                first: Seq<usize>,
                second: Seq<usize>,
            | #[trigger]
                sparse_steps(*self, *old(rhs), y, z, *final(rhs), first, second),
            exact::<T>() && finite_items(final(rhs).values@) ==> finite_items(old(rhs).values@),
            forall|mat: CsMat<T>, cols: Seq<usize>|
                exact::<T>() && #[trigger] self.multiplies_to(mat, cols) && cols.len() == self.dim()
                    && mat.nrows == cols.len() && all_finite(self.lower) && all_finite(self.upper)
                    && finite_items(final(rhs).values@) ==> solves(
                    mat,
                    cols,
                    final(rhs).values@,
                    old(rhs).values@,
                ),
    {
        let ghost b = *rhs;
        move_entries(
            rhs,
            &mut scratch.rhs,
            &self.orig2new_row,
            false,
            Ghost(self.new2orig_row@),
        );
        let ghost y = scratch.rhs;
        solve_sparse_csc(&self.lower, Triangle::Lower, scratch);
        let ghost z = scratch.rhs;
        let ghost first = scratch.mark_nonzero.visited@;
        solve_sparse_csc(&self.upper, Triangle::Upper, scratch);
        let ghost second = scratch.mark_nonzero.visited@;
        std::mem::swap(rhs, &mut scratch.rhs);
        proof {
            assert(sparse_steps(*self, b, y, z, *rhs, first, second));
            if exact::<T>() && finite_items(rhs.values@) {
                assert forall|r: int| 0 <= r < b.values@.len() implies (#[trigger] b.values@[r]).finite() by {
                    let i = self.orig2new_row@[r] as int;
                    assert(rhs.values@[i].finite());
                    assert(z.values@[i].finite());
                    assert(y.values@[i].finite());
                    assert(y.is_nonzero@[self.orig2new_row@[r] as int] == b.is_nonzero@[r]);
                }
            }
            assert forall|mat: CsMat<T>, cols: Seq<usize>|
                exact::<T>() && #[trigger] self.multiplies_to(mat, cols) && cols.len() == self.dim()
                    && mat.nrows == cols.len() && all_finite(self.lower) && all_finite(self.upper)
                    && finite_items(rhs.values@) implies solves(
                mat,
                cols,
                rhs.values@,
                b.values@,
            ) by {
                assert forall|r: int| 0 <= r < b.values@.len() implies (#[trigger] b.values@[r]).val()
                    == y.values@[self.orig2new_row@[r] as int].val() by {
                    assert(y.is_nonzero@[self.orig2new_row@[r] as int] == b.is_nonzero@[r]);
                }
                factors_solve(*self, mat, cols, b.values@, y.values@, z.values@, rhs.values@);
            }
        }
    }

    /// Solves the transposed system with a sparse right-hand side. With exact arithmetic the
    /// result solves it, wherever it is finite.
    pub fn solve_transp(&self, rhs: &mut ScatteredVec<T>, scratch: &mut ScratchSpace<T>)
        requires
            self.wf(),
            old(rhs).wf(),
            old(rhs).values@.len() == self.dim(),
            old(scratch).wf(),
            old(scratch).fits(self.dim()),
        ensures
            final(rhs).wf(),
            final(rhs).values@.len() == self.dim(),
            final(scratch).wf(),
            final(scratch).fits(self.dim()),
            exists|
                z: ScatteredVec<T>,
                w: ScatteredVec<T>,
                first: Seq<usize>,
                second: Seq<usize>,
            | #[trigger]
                sparse_steps_transp(*self, *old(rhs), z, w, *final(rhs), first, second),
            exact::<T>() && finite_items(final(rhs).values@) ==> finite_items(old(rhs).values@),
            forall|mat: CsMat<T>, cols: Seq<usize>|
                exact::<T>() && #[trigger] self.multiplies_to(mat, cols) && cols.len() == self.dim()
                    && mat.nrows == cols.len() && all_finite(self.lower) && all_finite(self.upper)
                    && finite_items(final(rhs).values@) ==> solves_transp(
                    mat,
                    cols,
                    final(rhs).values@,
                    old(rhs).values@,
                ),
    {
        let ghost b = *rhs;
        std::mem::swap(rhs, &mut scratch.rhs);
        solve_sparse_csc(&self.upper_transp_csc, Triangle::Lower, scratch);
        let ghost z = scratch.rhs;
        let ghost first = scratch.mark_nonzero.visited@;
        solve_sparse_csc(&self.lower_transp_csc, Triangle::Upper, scratch);
        let ghost w = scratch.rhs;
        let ghost second = scratch.mark_nonzero.visited@;
        move_entries(
            &scratch.rhs,
            rhs,
            &self.new2orig_row,
            true,
            Ghost(self.orig2new_row@),
        );
        proof {
            assert(sparse_steps_transp(*self, b, z, w, *rhs, first, second));
            if exact::<T>() && finite_items(rhs.values@) {
                assert forall|i: int| 0 <= i < b.values@.len() implies (#[trigger] b.values@[i]).finite() by {
                    let r = self.new2orig_row@[i] as int;
                    assert(rhs.values@[r].finite());
                    moved_value(w, *rhs, self.new2orig_row@, i);
                    assert(z.values@[i].finite());
                }
            }
            assert forall|mat: CsMat<T>, cols: Seq<usize>|
                exact::<T>() && #[trigger] self.multiplies_to(mat, cols) && cols.len() == self.dim()
                    && mat.nrows == cols.len() && all_finite(self.lower) && all_finite(self.upper)
                    && finite_items(rhs.values@) implies solves_transp(
                mat,
                cols,
                rhs.values@,
                b.values@,
            ) by {
                let n = self.dim();
                transposed_rows(
                    self.upper,
                    self.upper_transp_csc,
                    n,
                    z.values@,
                    b.values@,
                );
                transposed_rows(
                    self.lower,
                    self.lower_transp_csc,
                    n,
                    w.values@,
                    z.values@,
                );
                assert forall|i: int| 0 <= i < n implies (#[trigger] w.values@[i]).finite()
                    && w.values@[i].val() == rhs.values@[self.new2orig_row@[i] as int].val() by {
                    let r = self.new2orig_row@[i] as int;
                    assert(rhs.values@[r].finite());
                    moved_value(w, *rhs, self.new2orig_row@, i);
                }
                assert forall|r: int| 0 <= r < n implies (#[trigger] rhs.values@[r]).val()
                    == w.values@[self.orig2new_row@[r] as int].val() by {
                    let i = self.orig2new_row@[r] as int;
                    assert(self.new2orig_row@[i] == r);
                    assert(w.values@[i].finite());
                }
                factors_solve_transp(
                    *self,
                    mat,
                    cols,
                    b.values@,
                    z.values@,
                    w.values@,
                    rhs.values@,
                );
            }
        }
    }
}

/// A value and what was moved of it stand for the same number.
proof fn moved_value<T: Scalar>(
    from: ScatteredVec<T>,
    to: ScatteredVec<T>,
    perm: Seq<usize>,
    i: int,
)
    requires
        exact::<T>(),
        from.wf(),
        from.values@.len() == perm.len(),
        moved(from, to, perm, true),
        0 <= i < perm.len(),
        to.values@[perm[i] as int].finite(),
    ensures
        from.values@[i].finite(),
        from.values@[i].val() == to.values@[perm[i] as int].val(),
{
    assert(to.is_nonzero@[perm[i] as int] == (from.is_nonzero@[i] && !from.values@[i].same_spec(
        T::zero_spec(),
    )));
    if !from.is_nonzero@[i] {
        assert(is_zero(from.values@[i]));
    }
}

/// Rows of a matrix are columns of its transpose.
proof fn transposed_rows<T: Scalar>(
    m: CsMat<T>,
    t: CsMat<T>,
    n: int,
    x: Seq<T>,
    b: Seq<T>,
)
    requires
        b.len() == n,
        transposes(m, t, n),
        rows_hold(t, false, x, b),
    ensures
        rows_hold(m, true, x, b),
{
    assert forall|i: int| 0 <= i < b.len() && (#[trigger] x[i]).finite() implies b[i].finite()
        && sum(tri_terms(m, true, x, i), b.len()) == b[i].val() by {
        let f = tri_terms(t, false, x, i);
        let g = tri_terms(m, true, x, i);
        assert forall|j: int| 0 <= j < n implies #[trigger] f(j) == g(j) by {
            assert(m.line(i, j) == t.line(j, i));
        }
        sum_same(f, g, b.len());
    }
}

/// Solving with the lower and then with the upper factor solves the system.
pub proof fn factors_solve<T: Scalar>(
    lu: LUFactors<T>,
    mat: CsMat<T>,
    cols: Seq<usize>,
    b: Seq<T>,
    y: Seq<T>,
    z: Seq<T>,
    x: Seq<T>,
)
    requires
        exact::<T>(),
        lu.wf(),
        lu.dim() == cols.len(),
        mat.nrows == cols.len(),
        lu.multiplies_to(mat, cols),
        all_finite(lu.lower),
        all_finite(lu.upper),
        b.len() == cols.len(),
        y.len() == cols.len(),
        z.len() == cols.len(),
        x.len() == cols.len(),
        forall|r: int|
            0 <= r < b.len() ==> (#[trigger] b[r]).val() == y[lu.orig2new_row@[r] as int].val(),
        rows_hold(lu.lower, false, z, y),
        rows_hold(lu.upper, false, x, z),
        finite_items(x),
    ensures
        solves(mat, cols, x, b),
{
    let n = cols.len();
    assert forall|r: int| 0 <= r < b.len() implies sum(row_terms(mat, cols, x, r), n) == (
    #[trigger] b[r]).val() by {
        let i = lu.orig2new_row@[r] as int;
        let l = |k: int| lu.lower.line(k, i).val();
        let u = |k: int, c: int| lu.upper.line(c, k).val();
        let f = |c: int, k: int| (l(k) * u(k, c)) * x[c].val();
        // sum over the columns of the matrix
        let rows = row_terms(mat, cols, x, r);
        let outer = |c: int| sum(|k: int| f(c, k), n);
        assert forall|c: int| 0 <= c < n implies #[trigger] rows(c) == outer(c) by {
            let t = lu.terms(r, c);
            let g = |k: int| f(c, k);
            assert(mat.line(cols[c] as int, r).val() == sum(t, n));
            assert forall|k: int| 0 <= k < n implies #[trigger] g(k) == x[c].val() * t(k) by {
                let (p, q) = (t(k), x[c].val());
                assert(p * q == q * p) by (nonlinear_arith);
            }
            sum_times(x[c].val(), t, g, n);
            let (p, q) = (sum(t, n), x[c].val());
            assert(p * q == q * p) by (nonlinear_arith);
        }
        sum_same(rows, outer, n);
        // exchange the sums
        sum_swap(f, n, n);
        let inner = |k: int| sum(|c: int| f(c, k), n);
        let low = tri_terms(lu.lower, false, z, i);
        assert forall|k: int| 0 <= k < n implies #[trigger] inner(k) == low(k) by {
            let up = tri_terms(lu.upper, false, x, k);
            let g = |c: int| f(c, k);
            assert forall|c: int| 0 <= c < n implies #[trigger] g(c) == l(k) * up(c) by {
                let (p, q, v) = (l(k), u(k, c), x[c].val());
                assert((p * q) * v == p * (q * v)) by (nonlinear_arith);
            }
            sum_times(l(k), up, g, n);
            assert(x[k].finite());
        }
        sum_same(inner, low, n);
        // the lower factor gives the right-hand side
        assert(z[i].finite()) by {
            assert(x[i].finite());
        }
    }
}

/// A sum does not depend on the order of its terms.
pub proof fn sum_reordered(perm: Seq<usize>, back: Seq<usize>, f: spec_fn(int) -> real)
    requires
        inverse(perm, back),
    ensures
        sum(|r: int| f(perm[r] as int), perm.len()) == sum(f, perm.len()),
{
    let n = perm.len();
    let g = |r: int| f(perm[r] as int);
    let h = |r: int, i: int|
        if i == perm[r] {
            f(i)
        } else {
            0 as real
        };
    let rows = |r: int| sum(|i: int| h(r, i), n);
    let cols = |i: int| sum(|r: int| h(r, i), n);
    sum_swap(h, n, n);
    assert forall|r: int| 0 <= r < n implies #[trigger] g(r) == rows(r) by {
        let t = |i: int| h(r, i);
        assert(perm[r] < n);
        sum_single(t, n, perm[r] as int);
    }
    assert forall|i: int| 0 <= i < n implies #[trigger] f(i) == cols(i) by {
        let t = |r: int| h(r, i);
        let k = back[i] as int;
        assert(perm[k] == i);
        assert forall|r: int| 0 <= r < n && r != k implies #[trigger] t(r) == 0 as real by {
            assert(back[perm[r] as int] == r);
        }
        sum_single(t, n, k);
    }
    sum_same(g, rows, n);
    sum_same(f, cols, n);
}

/// Solving with the transposes of the upper and then of the lower factor solves the transposed
/// system.
pub proof fn factors_solve_transp<T: Scalar>(
    lu: LUFactors<T>,
    mat: CsMat<T>,
    cols: Seq<usize>,
    b: Seq<T>,
    z: Seq<T>,
    w: Seq<T>,
    x: Seq<T>,
)
    requires
        exact::<T>(),
        lu.wf(),
        lu.dim() == cols.len(),
        mat.nrows == cols.len(),
        lu.multiplies_to(mat, cols),
        all_finite(lu.lower),
        all_finite(lu.upper),
        b.len() == cols.len(),
        z.len() == cols.len(),
        w.len() == cols.len(),
        x.len() == cols.len(),
        rows_hold(lu.upper, true, z, b),
        rows_hold(lu.lower, true, w, z),
        forall|r: int|
            0 <= r < x.len() ==> (#[trigger] x[r]).val() == w[lu.orig2new_row@[r] as int].val(),
        finite_items(w),
    ensures
        solves_transp(mat, cols, x, b),
{
    let n = cols.len();
    let o = lu.orig2new_row@;
    assert forall|c: int| 0 <= c < b.len() implies sum(
        col_terms(mat, cols[c] as int, x),
        mat.nrows as nat,
    ) == (#[trigger] b[c]).val() by {
        let l = |k: int, i: int| lu.lower.line(k, i).val();
        let u = |k: int| lu.upper.line(c, k).val();
        let f = |r: int, k: int| (l(k, o[r] as int) * u(k)) * x[r].val();
        let start = col_terms(mat, cols[c] as int, x);
        let outer = |r: int| sum(|k: int| f(r, k), n);
        assert forall|r: int| 0 <= r < n implies #[trigger] start(r) == outer(r) by {
            let t = lu.terms(r, c);
            let g = |k: int| f(r, k);
            assert(mat.line(cols[c] as int, r).val() == sum(t, n));
            assert forall|k: int| 0 <= k < n implies #[trigger] g(k) == x[r].val() * t(k) by {
                let (p, q) = (t(k), x[r].val());
                assert(p * q == q * p) by (nonlinear_arith);
            }
            sum_times(x[r].val(), t, g, n);
            let (p, q) = (sum(t, n), x[r].val());
            assert(p * q == q * p) by (nonlinear_arith);
        }
        sum_same(start, outer, n);
        sum_swap(f, n, n);
        let inner = |k: int| sum(|r: int| f(r, k), n);
        let up = tri_terms(lu.upper, true, z, c);
        assert forall|k: int| 0 <= k < n implies #[trigger] inner(k) == up(k) by {
            let low = tri_terms(lu.lower, true, w, k);
            let e = |r: int| low(o[r] as int);
            let g = |r: int| f(r, k);
            assert forall|r: int| 0 <= r < n implies #[trigger] g(r) == u(k) * e(r) by {
                assert(x[r].val() == w[o[r] as int].val());
                let (p, q, v) = (l(k, o[r] as int), u(k), x[r].val());
                assert((p * q) * v == q * (p * v)) by (nonlinear_arith);
            }
            sum_times(u(k), e, g, n);
            sum_reordered(o, lu.new2orig_row@, low);
            assert(w[k].finite());
        }
        sum_same(inner, up, n);
        assert(z[c].finite()) by {
            assert(w[c].finite());
        }
    }
}

/// With exact arithmetic the dense solution solves the system, wherever it is finite.
pub proof fn dense_solution_solves<T: Scalar>(
    lu: LUFactors<T>,
    mat: CsMat<T>,
    cols: Seq<usize>,
    b: Seq<T>,
)
    requires
        exact::<T>(),
        lu.wf(),
        lu.dim() == cols.len(),
        mat.nrows == cols.len(),
        lu.multiplies_to(mat, cols),
        all_finite(lu.lower),
        all_finite(lu.upper),
        b.len() == cols.len(),
        finite_items(lu.dense_solution(b)),
    ensures
        solves(mat, cols, lu.dense_solution(b), b),
{
    let y = lu.reordered(b);
    let z = lu.half_solution(b);
    let x = lu.dense_solution(b);
    forward_solves(lu.lower, false, y, z);
    backward_solves(lu.upper, z, x);
    assert forall|r: int| 0 <= r < b.len() implies (#[trigger] b[r]).val()
        == y[lu.orig2new_row@[r] as int].val() by {
        assert(lu.new2orig_row@[lu.orig2new_row@[r] as int] == r);
    }
    factors_solve(lu, mat, cols, b, y, z, x);
}

/// With exact arithmetic the dense solution of the transposed system solves it, wherever it is
/// finite.
pub proof fn dense_solution_transp_solves<T: Scalar>(
    lu: LUFactors<T>,
    mat: CsMat<T>,
    cols: Seq<usize>,
    b: Seq<T>,
)
    requires
        exact::<T>(),
        lu.wf(),
        lu.dim() == cols.len(),
        mat.nrows == cols.len(),
        lu.multiplies_to(mat, cols),
        all_finite(lu.lower),
        all_finite(lu.upper),
        b.len() == cols.len(),
        finite_items(lu.dense_solution_transp(b)),
    ensures
        solves_transp(mat, cols, lu.dense_solution_transp(b), b),
{
    let z = lu.half_solution_transp(b);
    let w = Seq::new(b.len(), |i: int| backward_transp_solution(lu.lower, z, i));
    let x = lu.dense_solution_transp(b);
    forward_solves(lu.upper, true, b, z);
    backward_transp_solves(lu.lower, z, w);
    assert forall|i: int| 0 <= i < w.len() implies (#[trigger] w[i]).finite() by {
        let r = lu.new2orig_row@[i] as int;
        assert(lu.orig2new_row@[r] == i);
        assert(x[r].finite());
    }
    factors_solve_transp(lu, mat, cols, b, z, w, x);
}

/// The list before the exchanges: they are undone, the last one first.
pub open spec fn unswapped<A>(swaps: Seq<usize>, s: Seq<A>) -> Seq<A>
    decreases swaps.len(),
{
    if swaps.len() == 0 {
        s
    } else {
        unswapped(
            swaps.drop_last(),
            swap_at(s, swaps.len() - 1, swaps.last() as int),
        )
    }
}

proof fn unswapped_len<A>(swaps: Seq<usize>, s: Seq<A>)
    requires
        swaps.len() <= s.len(),
        below(swaps, s.len() as int),
    ensures
        unswapped(swaps, s).len() == s.len(),
    decreases swaps.len(),
{
    if swaps.len() > 0 {
        let t = swaps.drop_last();
        assert forall|p: int| 0 <= p < t.len() implies #[trigger] t[p] < s.len() by {
            assert(swaps[p] < s.len());
        }
        assert(swaps[swaps.len() - 1] < s.len());
        unswapped_len(t, swap_at(s, swaps.len() - 1, swaps.last() as int));
    }
}

/// Undoing the exchanges takes every item back.
proof fn unswapped_index<A>(swaps: Seq<usize>, s: Seq<A>)
    requires
        swaps.len() <= s.len(),
        s.len() <= usize::MAX,
        below(swaps, s.len() as int),
    ensures
        unswapped(swaps, s).len() == s.len(),
        forall|i: int|
            0 <= i < s.len() ==> unswapped(swaps, s)[#[trigger] swapped(
                swaps,
                counting(s.len()),
            )[i] as int] == s[i],
    decreases swaps.len(),
{
    let id = counting(s.len());
    unswapped_len(swaps, s);
    if swaps.len() > 0 {
        let t = swaps.drop_last();
        assert(below(t, s.len() as int)) by {
            assert forall|p: int| 0 <= p < t.len() implies #[trigger] t[p] < s.len() by {
                assert(swaps[p] < s.len());
            }
        }
        let i = swaps.len() - 1;
        let j = swaps.last() as int;
        assert(swaps[i] < s.len());
        let u = swap_at(s, i, j);
        unswapped_index(t, u);
        swapped_index(t, id);
        let a = swapped(t, id);
        assert forall|k: int| 0 <= k < s.len() implies unswapped(swaps, s)[#[trigger] swapped(
            swaps,
            id,
        )[k] as int] == s[k] by {
            let m = if k == i {
                j
            } else if k == j {
                i
            } else {
                k
            };
            assert(swapped(swaps, id)[k] == a[m]);
            assert(unswapped(t, u)[a[m] as int] == u[m]);
        }
    }
}

} // verus!
