use rand::{Rng, SeedableRng};
use simplex::convert::{to_dense, to_sparse};
use simplex::invert::invert_mat;
use simplex::lu::{lu_factorize, ScratchSpace};
use simplex::scalar::Scalar;
use simplex::scattered::ScatteredVec;
use simplex::sparse::{CsMat, CsVec, Storage};
use simplex::triplets::TriMat;

#[derive(Clone, Copy, Debug, PartialEq)]
struct F(f64);

impl Scalar for F {
    fn zero() -> F {
        F(0.0)
    }
    fn one() -> F {
        F(1.0)
    }
    fn infinity() -> F {
        F(f64::INFINITY)
    }
    fn neg_infinity() -> F {
        F(f64::NEG_INFINITY)
    }
    fn tolerance() -> F {
        F(1e-8)
    }
    fn stability() -> F {
        F(0.1)
    }
    fn plus(self, other: F) -> F {
        F(self.0 + other.0)
    }
    fn minus(self, other: F) -> F {
        F(self.0 - other.0)
    }
    fn times(self, other: F) -> F {
        F(self.0 * other.0)
    }
    fn over(self, other: F) -> F {
        F(self.0 / other.0)
    }
    fn negated(self) -> F {
        F(-self.0)
    }
    fn absolute(self) -> F {
        F(self.0.abs())
    }
    fn signum(self) -> F {
        F(self.0.signum())
    }
    fn floor(self) -> F {
        F(self.0.floor())
    }
    fn same(self, other: F) -> bool {
        self.0 == other.0
    }
    fn less(self, other: F) -> bool {
        self.0 < other.0
    }
    fn less_eq(self, other: F) -> bool {
        self.0 <= other.0
    }
    fn is_finite(self) -> bool {
        self.0.is_finite()
    }
    fn is_infinite(self) -> bool {
        self.0.is_infinite()
    }
    fn is_normal(self) -> bool {
        self.0.is_normal()
    }
}

fn fs(values: &[f64]) -> Vec<F> {
    values.iter().map(|&x| F(x)).collect()
}

fn floats(values: &[F]) -> Vec<f64> {
    values.iter().map(|x| x.0).collect()
}

fn dense(mat: &CsMat<F>) -> Vec<Vec<f64>> {
    let mut res = vec![vec![0.0; mat.ncols]; mat.nrows];
    let outer = match mat.storage {
        Storage::Csr => mat.nrows,
        Storage::Csc => mat.ncols,
    };
    for o in 0..outer {
        let line = mat.outer_vec(o);
        for (i, x) in line.indices.iter().zip(&line.data) {
            match mat.storage {
                Storage::Csr => res[o][*i] = x.0,
                Storage::Csc => res[*i][o] = x.0,
            }
        }
    }
    res
}

fn assert_matrix_eq(mat: &CsMat<F>, reference: &[Vec<f64>]) {
    assert_eq!(mat.nrows, reference.len());
    assert_eq!(dense(mat), reference);
}

#[test]
fn lu_simple() {
    let triplets = [
        (0, 1, 2.0),
        (0, 0, 2.0),
        (0, 2, 123.0),
        (1, 2, 456.0),
        (1, 3, 1.0),
        (2, 1, 4.0),
        (2, 0, 3.0),
        (2, 2, 789.0),
        (2, 3, 1.0),
    ];
    let mut mat = TriMat::new(3, 4);
    for (r, c, val) in &triplets {
        mat.add_triplet(*r, *c, F(*val));
    }
    let mat = mat.to_csc();
    let mut scratch = ScratchSpace::with_capacity(mat.rows());
    let lu = lu_factorize(&mat, &[1, 0, 3], F(0.9), &mut scratch).unwrap();

    let l_ref = [
        vec![1.0, 0.0, 0.0],
        vec![0.5, 1.0, 0.0],
        vec![0.0, 0.0, 1.0],
    ];
    assert_matrix_eq(&lu.lower, &l_ref);

    let u_ref = [
        vec![4.0, 3.0, 1.0],
        vec![0.0, 0.5, -0.5],
        vec![0.0, 0.0, 1.0],
    ];
    assert_matrix_eq(&lu.upper, &u_ref);

    assert_eq!(&*lu.orig2new_row, &[1, 2, 0]);
    assert_eq!(&*lu.new2orig_row, &[2, 0, 1]);
    assert_eq!(&*lu.swaps, &[2, 2, 2]);

    {
        let mut rhs_dense = fs(&[6.0, 3.0, 13.0]);
        lu.solve_dense(&mut rhs_dense);
        assert_eq!(floats(&rhs_dense), [1.0, 2.0, 3.0]);
    }

    {
        let mut rhs_dense_t = fs(&[14.0, 11.0, 5.0]);
        lu.solve_dense_transp(&mut rhs_dense_t);
        assert_eq!(floats(&rhs_dense_t), [1.0, 2.0, 3.0]);
    }

    {
        let mut rhs = ScatteredVec::empty(3);
        rhs.set(&to_sparse(&fs(&[0.0, -1.0, 0.0])));
        lu.solve(&mut rhs, &mut scratch);
        assert_eq!(floats(&to_dense(&rhs.to_csvec())), vec![1.0, -1.0, -1.0]);
    }

    {
        let mut rhs = ScatteredVec::empty(3);
        rhs.set(&to_sparse(&fs(&[0.0, -1.0, 1.0])));
        lu.solve_transp(&mut rhs, &mut scratch);
        assert_eq!(floats(&to_dense(&rhs.to_csvec())), vec![-2.0, 0.0, 1.0]);
    }
}

fn times(mat: &[Vec<f64>], x: &[f64]) -> Vec<f64> {
    mat.iter()
        .map(|row| row.iter().zip(x).map(|(a, b)| a * b).sum())
        .collect()
}

fn transposed(mat: &[Vec<f64>]) -> Vec<Vec<f64>> {
    (0..mat[0].len())
        .map(|c| mat.iter().map(|row| row[c]).collect())
        .collect()
}

fn l1_distance(a: &[f64], b: &[f64]) -> f64 {
    a.iter().zip(b).map(|(x, y)| (x - y).abs()).sum()
}

fn l2_distance(a: &[f64], b: &[f64]) -> f64 {
    let squares: f64 = a.iter().zip(b).map(|(x, y)| (x - y) * (x - y)).sum();
    squares.sqrt()
}

#[test]
fn lu_rand() {
    let size = 10;

    let mut rng = rand_pcg::Pcg64::seed_from_u64(12345);

    let mut mat = TriMat::new(size, size);
    for r in 0..size {
        for c in 0..size {
            if rng.gen_range(0, 2) == 0 {
                mat.add_triplet(r, c, F(rng.gen_range(0.0, 1.0)));
            }
        }
    }
    let mat = mat.to_csc();

    let mut scratch = ScratchSpace::with_capacity(mat.rows());

    let cols: Vec<usize> = (0..size).collect();

    let lu = lu_factorize(&mat, &cols, F(0.1), &mut scratch).unwrap();

    let full = dense(&mat);
    let upper_cols = transposed(&dense(&lu.upper));
    for (i, &c) in cols.iter().enumerate() {
        let product = times(&dense(&lu.lower), &upper_cols[i]);
        let permuted = {
            let col = mat.outer_vec(c);
            let mut is = vec![];
            let mut vs = vec![];
            for (i, val) in col.indices.iter().zip(&col.data) {
                is.push(lu.orig2new_row[*i]);
                vs.push(*val);
            }
            CsVec::new(size, is, vs)
        };
        assert!(l1_distance(&product, &floats(&to_dense(&permuted))) < 1e-5);
    }

    let dense_rhs: Vec<f64> = (0..size).map(|_| rng.gen_range(0.0, 1.0)).collect();

    {
        let mut dense_sol = fs(&dense_rhs);
        lu.solve_dense(&mut dense_sol);
        assert!(l2_distance(&dense_rhs, &times(&full, &floats(&dense_sol))) < 1e-5);
    }

    {
        let mut dense_sol_t = fs(&dense_rhs);
        lu.solve_dense_transp(&mut dense_sol_t);
        let product = times(&transposed(&full), &floats(&dense_sol_t));
        assert!(l2_distance(&dense_rhs, &product) < 1e-5);
    }

    let sparse_rhs = {
        let mut res = CsVec::empty(size);
        for i in 0..size {
            if rng.gen_range(0, 3) == 0 {
                res.append(i, F(rng.gen_range(0.0, 1.0)));
            }
        }
        res
    };

    {
        let mut rhs = ScatteredVec::empty(size);
        rhs.set(&sparse_rhs);
        lu.solve(&mut rhs, &mut scratch);
        let product = times(&full, &floats(&to_dense(&rhs.to_csvec())));
        assert!(l1_distance(&floats(&to_dense(&sparse_rhs)), &product) < 1e-5);
    }

    {
        let mut rhs_t = ScatteredVec::empty(size);
        rhs_t.set(&sparse_rhs);
        lu.solve_transp(&mut rhs_t, &mut scratch);
        let product = times(&transposed(&full), &floats(&to_dense(&rhs_t.to_csvec())));
        assert!(l1_distance(&floats(&to_dense(&sparse_rhs)), &product) < 1e-5);
    }
}

#[test]
fn inv_simple() {
    let triplets = [
        (0, 0, 2.0),
        (0, 1, 2.0),
        (1, 0, 4.0),
        (1, 1, 3.0),
        (1, 2, 1.0),
        (2, 0, 3.0),
        (2, 2, 1.0),
    ];
    let mut mat = CsMat::empty(Storage::Csr, 3);
    for r in 0..3 {
        let mut row = CsVec::empty(3);
        for (_, c, val) in triplets.iter().filter(|t| t.0 == r) {
            row.append(*c, F(*val));
        }
        mat.append_outer(&row);
    }

    let inv = invert_mat(mat).unwrap();

    let inv_ref = [
        vec![0.75, -0.5, 0.5],
        vec![-0.25, 0.5, -0.5],
        vec![-2.25, 1.5, -0.5],
    ];
    assert_matrix_eq(&inv, &inv_ref);
}
