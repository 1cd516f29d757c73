//! The elementary matrices that bring the factors of a basis up to date.
use crate::scalar::Scalar;
use crate::sparse::{SparseMat, SparseVec};
use vstd::prelude::*;

verus! {

/// For every change of the basis the row that left it and a column of coefficients.
#[derive(Clone, Debug)]
pub struct EtaMatrices<T> {
    pub leaving_rows: Vec<usize>,
    pub coeff_cols: SparseMat<T>,
}

impl<T: Scalar> EtaMatrices<T> {
    pub open spec fn wf(self) -> bool {
        &&& self.coeff_cols.wf()
        &&& self.leaving_rows@.len() == self.coeff_cols.ncols()
        &&& crate::sparse::below(self.leaving_rows@, self.coeff_cols.n_rows as int)
    }

    pub fn new(n_rows: usize) -> (r: EtaMatrices<T>)
        ensures
            r.wf(),
            r.coeff_cols.n_rows == n_rows,
            r.leaving_rows@.len() == 0,
            r.coeff_cols.indices@.len() == 0,
    {
        EtaMatrices { leaving_rows: Vec::new(), coeff_cols: SparseMat::new(n_rows) }
    }

    pub fn len(&self) -> (r: usize)
        ensures
            r == self.leaving_rows@.len(),
    {
        self.leaving_rows.len()
    }

    pub fn clear_and_resize(&mut self, n_rows: usize)
        ensures
            final(self).wf(),
            final(self).coeff_cols.n_rows == n_rows,
            final(self).leaving_rows@.len() == 0,
            final(self).coeff_cols.indices@.len() == 0,
    {
        self.leaving_rows.clear();
        self.coeff_cols.clear_and_resize(n_rows);
    }

    pub fn push(&mut self, leaving_row: usize, coeffs: &SparseVec<T>)
        requires
            old(self).wf(),
            leaving_row < old(self).coeff_cols.n_rows,
            coeffs.wf(old(self).coeff_cols.n_rows as int),
        ensures
            final(self).wf(),
            final(self).coeff_cols.n_rows == old(self).coeff_cols.n_rows,
            final(self).leaving_rows@ == old(self).leaving_rows@.push(leaving_row),
            final(self).coeff_cols.indptr@ == old(self).coeff_cols.indptr@.push(
                final(self).coeff_cols.indices@.len() as usize,
            ),
            final(self).coeff_cols.indices@ == old(self).coeff_cols.indices@ + coeffs.indices@,
            final(self).coeff_cols.data@ == old(self).coeff_cols.data@ + coeffs.values@,
            forall|r: int, c: int|
                0 <= c < old(self).leaving_rows@.len() ==> #[trigger] final(
                    self).coeff_cols.entry(r, c) == old(self).coeff_cols.entry(r, c),
            forall|r: int| #[trigger]
                final(self).coeff_cols.entry(r, old(self).leaving_rows@.len() as int)
                    == coeffs.value(r),
    {
        self.leaving_rows.push(leaving_row);
        self.coeff_cols.append_col(coeffs);
    }
}

} // verus!
