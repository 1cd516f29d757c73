//! Sparse vectors in dense storage.
use crate::scalar::Scalar;
use crate::sparse::{filled, fit, square_sum, CsVec, SparseVec};
use vstd::prelude::*;

verus! {

/// A dense vector together with the list of the places that may hold something else than zero.
#[derive(Clone, Debug)]
pub struct ScatteredVec<T> {
    pub values: Vec<T>,
    pub is_nonzero: Vec<bool>,
    pub nonzero: Vec<usize>,
}

/// The first `k` places of the list that do not hold zero.
pub open spec fn solid<T: Scalar>(list: Seq<usize>, values: Seq<T>, k: nat) -> Seq<usize>
    decreases k,
{
    if k == 0 {
        Seq::empty()
    } else if values[list[k - 1] as int].same_spec(T::zero_spec()) {
        solid(list, values, (k - 1) as nat)
    } else {
        solid(list, values, (k - 1) as nat).push(list[k - 1])
    }
}

impl<T: Scalar> ScatteredVec<T> {
    /// The list and the flags name the same places, each once; all others hold zero.
    pub open spec fn wf(self) -> bool {
        &&& self.is_nonzero@.len() == self.values@.len()
        &&& self.listed()
        &&& forall|i: int|
            0 <= i < self.values@.len() && !self.is_nonzero@[i] ==> crate::scalar::is_zero(
                #[trigger] self.values@[i],
            )
    }

    pub open spec fn listed(self) -> bool {
        &&& crate::sparse::distinct(self.nonzero@, 0, self.nonzero@.len() as int)
        &&& crate::sparse::below(self.nonzero@, self.is_nonzero@.len() as int)
        &&& forall|i: int|
            0 <= i < self.is_nonzero@.len() ==> (#[trigger] self.is_nonzero@[i] <==> self.marked(i))
    }

    /// Whether the place `i` is on the list.
    pub open spec fn marked(self, i: int) -> bool {
        crate::sparse::holds(self.nonzero@, 0, self.nonzero@.len() as int, i)
    }

    pub fn empty(n: usize) -> (r: ScatteredVec<T>)
        ensures
            r.wf(),
            r.nonzero@.len() == 0,
            r.values@.len() == n,
            forall|i: int| 0 <= i < n ==> #[trigger] r.values@[i] == T::zero_spec(),
            forall|i: int| 0 <= i < n ==> !#[trigger] r.is_nonzero@[i],
    {
        ScatteredVec {
            values: filled(n, T::zero()),
            is_nonzero: filled(n, false),
            nonzero: Vec::new(),
        }
    }

    pub fn len(&self) -> (r: usize)
        ensures
            r == self.values@.len(),
    {
        self.values.len()
    }

    /// Sets the listed places to zero and empties the list.
    pub fn clear(&mut self)
        requires
            old(self).wf(),
        ensures
            final(self).wf(),
            final(self).nonzero@.len() == 0,
            final(self).values@.len() == old(self).values@.len(),
            forall|i: int|
                0 <= i < old(self).values@.len() ==> !#[trigger] final(self).is_nonzero@[i],
            forall|i: int|
                0 <= i < old(self).values@.len() ==> #[trigger] final(self).values@[i]
                    == T::zero_spec(),
    {
        let n: usize = self.nonzero.len();
        let mut k: usize = 0;
        while k < n
            invariant
                old(self).wf(),
                self.nonzero@ == old(self).nonzero@,
                n == self.nonzero@.len(),
                k <= n,
                self.values@.len() == old(self).values@.len(),
                self.is_nonzero@.len() == old(self).values@.len(),
                forall|i: int|
                    0 <= i < self.values@.len() ==> (#[trigger] self.is_nonzero@[i] <==> old(
                        self,
                    ).is_nonzero@[i] && !crate::sparse::holds(self.nonzero@, 0, k as int, i)),
                forall|i: int|
                    0 <= i < self.values@.len() ==> #[trigger] self.values@[i]
                        == if crate::sparse::holds(self.nonzero@, 0, k as int, i) {
                        T::zero_spec()
                    } else {
                        old(self).values@[i]
                    },
            decreases n - k,
        {
            let i: usize = self.nonzero[k];
            let ghost nz = self.nonzero@;
            self.values[i] = T::zero();
            self.is_nonzero[i] = false;
            proof {
                assert forall|j: int| 0 <= j < self.values@.len() implies crate::sparse::holds(
                    nz,
                    0,
                    k + 1,
                    j,
                ) == (crate::sparse::holds(nz, 0, k as int, j) || j == i) by {
                    if crate::sparse::holds(nz, 0, k + 1, j) {
                        let p = crate::sparse::place(nz, 0, k + 1, j);
                        assert(nz[p] == j);
                    }
                    if crate::sparse::holds(nz, 0, k as int, j) {
                        let p = crate::sparse::place(nz, 0, k as int, j);
                        assert(nz[p] == j);
                    }
                    assert(nz[k as int] == i);
                }
            }
            k += 1;
        }
        proof {
            assert forall|i: int| 0 <= i < self.values@.len() implies !#[trigger] self.is_nonzero@[i] by {
                assert(old(self).is_nonzero@[i] <==> old(self).marked(i));
            }
        }
        self.nonzero.clear();
        proof {
            assert forall|i: int|
                0 <= i < self.values@.len() implies #[trigger] self.values@[i] == T::zero_spec() by {
                assert(old(self).is_nonzero@[i] <==> old(self).marked(i));
            }
        }
    }

    pub fn clear_and_resize(&mut self, n: usize)
        requires
            old(self).wf(),
        ensures
            final(self).wf(),
            final(self).nonzero@.len() == 0,
            final(self).values@.len() == n,
            forall|i: int| 0 <= i < n ==> !#[trigger] final(self).is_nonzero@[i],
            forall|i: int|
                0 <= i < n ==> #[trigger] final(self).values@[i] == T::zero_spec(),
    {
        self.clear();
        fit(&mut self.values, n, T::zero());
        fit(&mut self.is_nonzero, n, false);
    }

    /// Puts one more place on the list.
    pub fn mark(&mut self, i: usize)
        requires
            old(self).listed(),
            i < old(self).is_nonzero@.len(),
            !old(self).is_nonzero@[i as int],
        ensures
            final(self).listed(),
            final(self).values@ == old(self).values@,
            final(self).is_nonzero@ == old(self).is_nonzero@.update(i as int, true),
            final(self).nonzero@ == old(self).nonzero@.push(i),
    {
        self.is_nonzero[i] = true;
        self.nonzero.push(i);
        proof {
            let n = old(self).nonzero@.len() as int;
            let nz = old(self).nonzero@;
            let nz2 = self.nonzero@;
            assert forall|j: int| 0 <= j < self.is_nonzero@.len() implies (
            #[trigger] self.is_nonzero@[j] <==> self.marked(j)) by {
                assert(old(self).is_nonzero@[j] <==> old(self).marked(j));
                if old(self).marked(j) {
                    let p = crate::sparse::place(nz, 0, n, j);
                    assert(nz2[p] == j);
                }
                if self.marked(j) {
                    let p = crate::sparse::place(nz2, 0, n + 1, j);
                    if p < n {
                        assert(nz[p] == j);
                    }
                }
                assert(nz2[n] == i);
            }
            assert forall|p: int, q: int| 0 <= p < q < n + 1 implies #[trigger] nz2[p]
                != #[trigger] nz2[q] by {
                if q == n && nz2[p] == i {
                    assert(nz[p] == i);
                    assert(old(self).is_nonzero@[i as int] <==> old(self).marked(i as int));
                }
            }
        }
    }

    /// Replaces the contents by the given entries.
    pub fn set_entries(&mut self, indices: &Vec<usize>, data: &Vec<T>)
        requires
            old(self).wf(),
            indices@.len() == data@.len(),
            crate::sparse::distinct(indices@, 0, indices@.len() as int),
            crate::sparse::below(indices@, old(self).values@.len() as int),
        ensures
            final(self).wf(),
            final(self).values@.len() == old(self).values@.len(),
            final(self).nonzero@ == indices@,
            forall|i: int|
                0 <= i < old(self).values@.len() ==> #[trigger] final(self).values@[i]
                    == if crate::sparse::holds(indices@, 0, indices@.len() as int, i) {
                    crate::sparse::at(indices@, data@, 0, indices@.len() as int, i)
                } else {
                    T::zero_spec()
                },
    {
        self.clear();
        let ghost cleared = self.values@;
        let n: usize = indices.len();
        let mut k: usize = 0;
        while k < n
            invariant
                n == indices@.len(),
                n == data@.len(),
                k <= n,
                crate::sparse::distinct(indices@, 0, n as int),
                crate::sparse::below(indices@, self.values@.len() as int),
                self.wf(),
                self.values@.len() == cleared.len(),
                self.nonzero@ == indices@.subrange(0, k as int),
                forall|i: int|
                    0 <= i < cleared.len() && !self.is_nonzero@[i] ==> #[trigger] self.values@[i]
                        == cleared[i],
                forall|p: int|
                    0 <= p < k ==> self.values@[#[trigger] indices@[p] as int] == data@[p],
            decreases n - k,
        {
            let i: usize = indices[k];
            proof {
                assert(self.is_nonzero@[i as int] <==> self.marked(i as int));
                if self.marked(i as int) {
                    let p = crate::sparse::place(self.nonzero@, 0, k as int, i as int);
                    assert(indices@[p] == indices@[k as int]);
                }
            }
            self.mark(i);
            self.values[i] = data[k];
            proof {
                assert(indices@.subrange(0, k + 1) =~= indices@.subrange(0, k as int).push(i));
            }
            k += 1;
        }
        proof {
            assert(indices@.subrange(0, n as int) =~= indices@);
            assert forall|i: int|
                0 <= i < cleared.len() && crate::sparse::holds(
                    indices@,
                    0,
                    n as int,
                    i,
                ) implies #[trigger] self.values@[i] == crate::sparse::at(
                indices@,
                data@,
                0,
                n as int,
                i,
            ) by {
                let p = crate::sparse::place(indices@, 0, n as int, i);
                assert(self.values@[indices@[p] as int] == data@[p]);
            }
            assert forall|i: int|
                0 <= i < cleared.len() && !crate::sparse::holds(
                    indices@,
                    0,
                    n as int,
                    i,
                ) implies #[trigger] self.values@[i] == cleared[i] by {
                assert(self.is_nonzero@[i] <==> self.marked(i));
            }
        }
    }

    /// Replaces the contents by those of `rhs`.
    pub fn set(&mut self, rhs: &CsVec<T>)
        requires
            old(self).wf(),
            rhs.wf(),
            crate::sparse::below(rhs.indices@, old(self).values@.len() as int),
        ensures
            final(self).wf(),
            final(self).values@.len() == old(self).values@.len(),
            final(self).nonzero@ == rhs.indices@,
            forall|i: int|
                0 <= i < old(self).values@.len() ==> #[trigger] final(self).values@[i]
                    == if rhs.stores(i) {
                    rhs.value(i)
                } else {
                    T::zero_spec()
                },
    {
        self.set_entries(&rhs.indices, &rhs.data);
    }

    /// Adds `coeff` times `rhs`; a place that becomes other than zero is put on the list, and one
    /// that is not listed stays zero.
    pub fn mul_add(&mut self, coeff: T, rhs: &CsVec<T>)
        requires
            old(self).wf(),
            rhs.wf(),
            crate::sparse::below(rhs.indices@, old(self).values@.len() as int),
        ensures
            final(self).wf(),
            final(self).values@.len() == old(self).values@.len(),
            forall|i: int|
                0 <= i < old(self).values@.len() ==> #[trigger] final(self).values@[i]
                    == if rhs.stores(i) && final(self).is_nonzero@[i] {
                    old(self).values@[i].plus_spec(coeff.times_spec(rhs.value(i)))
                } else {
                    old(self).values@[i]
                },
            forall|i: int|
                0 <= i < old(self).values@.len() ==> #[trigger] final(self).is_nonzero@[i] == (old(
                    self,
                ).is_nonzero@[i] || (rhs.stores(i) && !old(self).values@[i].plus_spec(
                    coeff.times_spec(rhs.value(i)),
                ).same_spec(T::zero_spec()))),
            old(self).nonzero@ == final(self).nonzero@.subrange(0, old(self).nonzero@.len() as int),
            crate::sparse::ascending(
                final(self).nonzero@,
                old(self).nonzero@.len() as int,
                final(self).nonzero@.len() as int,
            ),
    {
        let ghost idx = rhs.indices@;
        let n: usize = rhs.indices.len();
        let mut k: usize = 0;
        let ghost m = self.nonzero@.len() as int;
        proof {
            assert(self.nonzero@.subrange(0, m) =~= self.nonzero@);
        }
        while k < n
            invariant
                rhs.wf(),
                idx == rhs.indices@,
                n == idx.len(),
                k <= n,
                crate::sparse::below(idx, self.values@.len() as int),
                self.wf(),
                self.values@.len() == old(self).values@.len(),
                old(self).is_nonzero@.len() == old(self).values@.len(),
                m == old(self).nonzero@.len(),
                m <= self.nonzero@.len(),
                old(self).nonzero@ == self.nonzero@.subrange(0, m),
                crate::sparse::ascending(self.nonzero@, m, self.nonzero@.len() as int),
                forall|p: int| m <= p < self.nonzero@.len() && k < n ==> #[trigger] self.nonzero@[p] < idx[k as int],
                forall|i: int|
                    0 <= i < self.values@.len() ==> #[trigger] self.values@[i]
                        == if crate::sparse::holds(idx, 0, k as int, i) && self.is_nonzero@[i] {
                        old(self).values@[i].plus_spec(coeff.times_spec(rhs.value(i)))
                    } else {
                        old(self).values@[i]
                    },
                forall|i: int|
                    0 <= i < self.values@.len() ==> #[trigger] self.is_nonzero@[i] == (old(
                        self,
                    ).is_nonzero@[i] || (crate::sparse::holds(idx, 0, k as int, i) && !old(
                        self,
                    ).values@[i].plus_spec(coeff.times_spec(rhs.value(i))).same_spec(
                        T::zero_spec(),
                    ))),
            decreases n - k,
        {
            let i: usize = rhs.indices[k];
            let val: T = rhs.data[k];
            proof {
                crate::sparse::at_place(idx, rhs.data@, 0, n as int, k as int);
                if crate::sparse::holds(idx, 0, k as int, i as int) {
                    let p = crate::sparse::place(idx, 0, k as int, i as int);
                    assert(idx[p] < idx[k as int]);
                }
            }
            let new_val: T = self.values[i].plus(coeff.times(val));
            let ghost before = *self;
            if !self.is_nonzero[i] && !new_val.same(T::zero()) {
                self.mark(i);
            }
            if self.is_nonzero[i] {
                self.values[i] = new_val;
            }
            proof {
                assert forall|j: int| 0 <= j < self.values@.len() implies crate::sparse::holds(
                    idx,
                    0,
                    k + 1,
                    j,
                ) == (crate::sparse::holds(idx, 0, k as int, j) || j == i) by {
                    if crate::sparse::holds(idx, 0, k + 1, j) {
                        let p = crate::sparse::place(idx, 0, k + 1, j);
                        assert(idx[p] == j);
                    }
                    if crate::sparse::holds(idx, 0, k as int, j) {
                        let p = crate::sparse::place(idx, 0, k as int, j);
                        assert(idx[p] == j);
                    }
                    assert(idx[k as int] == i);
                }
                assert(self.nonzero@.subrange(0, m) =~= before.nonzero@.subrange(0, m));
                if k + 1 < n {
                    assert(idx[k as int] < idx[k + 1]);
                }
            }
            k += 1;
        }
    }

    /// Puts the listed places that do not hold zero into `lhs`, in the order of the list.
    pub fn to_sparse_vec(&self, lhs: &mut SparseVec<T>)
        requires
            self.wf(),
        ensures
            final(lhs).wf(self.values@.len() as int),
            final(lhs).indices@ == solid(self.nonzero@, self.values@, self.nonzero@.len()),
            forall|i: int| #[trigger]
                final(lhs).stores(i) == (self.marked(i) && !self.values@[i].same_spec(
                    T::zero_spec(),
                )),
            forall|i: int| final(lhs).stores(i) ==> #[trigger] final(lhs).value(i) == self.values@[i],
    {
        lhs.clear();
        let n: usize = self.nonzero.len();
        let ghost nz = self.nonzero@;
        let mut k: usize = 0;
        assert(lhs.indices@ =~= solid(nz, self.values@, 0));
        while k < n
            invariant
                self.wf(),
                nz == self.nonzero@,
                n == nz.len(),
                k <= n,
                lhs.wf(self.values@.len() as int),
                lhs.indices@ == solid(nz, self.values@, k as nat),
                forall|i: int| #[trigger]
                    lhs.stores(i) == (crate::sparse::holds(nz, 0, k as int, i)
                        && !self.values@[i].same_spec(T::zero_spec())),
                forall|i: int| lhs.stores(i) ==> #[trigger] lhs.value(i) == self.values@[i],
            decreases n - k,
        {
            let i: usize = self.nonzero[k];
            let val: T = self.values[i];
            proof {
                crate::elim::one_more(nz, 0, n as int, k as int);
                assert(!lhs.stores(i as int));
            }
            if !val.same(T::zero()) {
                let ghost before = *lhs;
                lhs.push(i, val);
                proof {
                    lhs.with_entry(before);
                }
            }
            k += 1;
        }
    }

    /// The listed places that do not hold zero, as a sparse vector.
    pub fn to_csvec(&self) -> (r: CsVec<T>)
        requires
            self.wf(),
        ensures
            r.wf(),
            r.dim == self.values@.len(),
            forall|i: int| #[trigger]
                r.stores(i) == (self.marked(i) && !self.values@[i].same_spec(T::zero_spec())),
            forall|i: int| r.stores(i) ==> #[trigger] r.value(i) == self.values@[i],
    {
        let mut v: SparseVec<T> = SparseVec::new();
        self.to_sparse_vec(&mut v);
        v.into_csvec(self.values.len())
    }

    /// The sum of the squares of the listed values.
    pub fn sq_norm(&self) -> (r: T)
        requires
            self.wf(),
        ensures
            r == square_sum(
                Seq::new(self.nonzero@.len(), |p: int| self.values@[self.nonzero@[p] as int]),
                self.nonzero@.len(),
            ),
    {
        let listed = crate::sparse::picked(&self.values, &self.nonzero);
        proof {
            assert(listed@ =~= Seq::new(
                self.nonzero@.len(),
                |p: int| self.values@[self.nonzero@[p] as int],
            ));
        }
        crate::sparse::sq_norm(&listed)
    }

    pub fn get(&self, i: usize) -> (r: &T)
        requires
            i < self.values@.len(),
        ensures
            *r == self.values@[i as int],
    {
        &self.values[i]
    }

    /// The value at `i`, to be changed; the place is on the list from now on.
    pub fn get_mut(&mut self, i: usize) -> (r: &mut T)
        requires
            old(self).wf(),
            i < old(self).values@.len(),
        ensures
            *r == old(self).values@[i as int],
            final(self).wf(),
            final(self).values@ == old(self).values@.update(i as int, *final(r)),
            final(self).is_nonzero@ == old(self).is_nonzero@.update(i as int, true),
            final(self).nonzero@ == if old(self).is_nonzero@[i as int] {
                old(self).nonzero@
            } else {
                old(self).nonzero@.push(i)
            },
    {
        if !self.is_nonzero[i] {
            self.mark(i);
        }
        &mut self.values[i]
    }
}

} // verus!
