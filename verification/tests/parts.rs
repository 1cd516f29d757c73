use simplex::convert::{resized_view, to_dense, to_sparse};
use simplex::error::Error;
use simplex::eta::EtaMatrices;
use simplex::invert::{invert_mat, mul_add_sparse};
use simplex::lu::{lu_factorize, ScratchSpace};
use simplex::rational::Rational;
use simplex::reach::MarkNonzero;
use simplex::scalar::Scalar;
use simplex::scattered::ScatteredVec;
use simplex::sparse::{into_resized, CsMat, CsVec, SparseVec, Storage};
use simplex::triplets::TriMat;

fn q(num: i64, den: u32) -> Rational {
    Rational::new(num, den)
}

fn qs(nums: &[i64]) -> Vec<Rational> {
    nums.iter().map(|&n| q(n, 1)).collect()
}

fn parts(x: &Rational) -> (i64, u32) {
    (x.num(), x.den())
}

fn list(values: &[Rational]) -> Vec<(i64, u32)> {
    values.iter().map(parts).collect()
}

fn ints(nums: &[i64]) -> Vec<(i64, u32)> {
    nums.iter().map(|&n| (n, 1)).collect()
}

fn rows(mat: &[Vec<i64>]) -> CsMat<Rational> {
    let mut res = CsMat::empty(Storage::Csr, mat[0].len());
    for row in mat {
        res.append_outer(&to_sparse(&qs(row)));
    }
    res
}

fn dense(mat: &CsMat<Rational>) -> Vec<Vec<(i64, u32)>> {
    let mut res = vec![vec![(0, 1); mat.ncols]; mat.nrows];
    let outer = if mat.is_csr() { mat.nrows } else { mat.ncols };
    for o in 0..outer {
        let line = mat.outer_vec(o);
        for (i, x) in line.indices.iter().zip(&line.data) {
            if mat.is_csr() {
                res[o][*i] = parts(x);
            } else {
                res[*i][o] = parts(x);
            }
        }
    }
    res
}

#[test]
fn vector_entries_are_sorted() {
    let v = CsVec::new(5, vec![3, 0, 2], qs(&[30, 1, 20]));
    assert_eq!(v.indices, vec![0, 2, 3]);
    assert_eq!(list(&v.data), ints(&[1, 20, 30]));
    assert_eq!(v.nnz(), 3);
    assert_eq!(v.get(2).map(|x| parts(&x)), Some((20, 1)));
    assert!(v.get(1).is_none());
    assert_eq!(list(&to_dense(&v)), ints(&[1, 0, 20, 30, 0]));
}

#[test]
fn triplets_become_columns() {
    let mut tri = TriMat::new(3, 2);
    tri.add_triplet(2, 0, q(5, 1));
    tri.add_triplet(0, 1, q(7, 1));
    tri.add_triplet(0, 0, q(3, 1));
    assert_eq!(tri.nnz(), 3);
    let mat = tri.to_csc();
    assert!(mat.is_csc());
    assert_eq!(mat.indptr, vec![0, 2, 3]);
    assert_eq!(mat.indices, vec![0, 2, 0]);
    assert_eq!(list(&mat.data), ints(&[3, 5, 7]));
    let turned = tri.transposed().to_csc();
    assert_eq!((turned.rows(), turned.cols()), (2, 3));
    assert_eq!(turned.indptr, vec![0, 2, 2, 3]);
    assert_eq!(turned.indices, vec![0, 1, 0]);
    assert_eq!(list(&turned.data), ints(&[3, 7, 5]));
}

#[test]
fn rows_become_columns() {
    let mat = rows(&[vec![0, 4, 5], vec![1, 0, 6]]);
    assert!(mat.is_csr());
    let turned = mat.to_csc();
    assert!(turned.is_csc());
    assert_eq!((turned.rows(), turned.cols(), turned.nnz()), (2, 3, 4));
    assert_eq!(turned.indptr, vec![0, 1, 2, 4]);
    assert_eq!(turned.indices, vec![1, 0, 0, 1]);
    assert_eq!(list(&turned.data), ints(&[1, 4, 5, 6]));
    assert_eq!(dense(&turned), dense(&mat));
}

#[test]
fn vectors_multiply_and_resize() {
    let a = to_sparse(&qs(&[1, 0, 3, 4]));
    let b = to_sparse(&qs(&[0, 2, 5, 6]));
    assert_eq!(a.indices, vec![0, 2, 3]);
    assert_eq!(parts(&a.dot(&b)), (39, 1));
    assert_eq!(parts(&a.dot_dense(&qs(&[1, 1, 1, 2]))), (12, 1));
    assert_eq!(parts(&a.squared_l2_norm()), (26, 1));
    assert_eq!(list(&a.divided_by(q(2, 1)).data), vec![(1, 2), (3, 2), (2, 1)]);
    let c = mul_add_sparse(&a, &b, q(2, 1));
    assert_eq!(list(&to_dense(&c)), ints(&[1, 4, 13, 16]));
    let short = into_resized(a.copy(), 3);
    assert_eq!((short.dim, short.indices.len()), (3, 2));
    let long = into_resized(a.copy(), 9);
    assert_eq!((long.dim, long.indices.len()), (9, 3));
    let view = resized_view(&a, 1);
    assert_eq!((view.dim, view.indices.clone()), (1, vec![0]));
}

#[test]
fn scattered_vector_keeps_its_list() {
    let mut v: ScatteredVec<Rational> = ScatteredVec::empty(4);
    assert_eq!(v.len(), 4);
    v.set(&to_sparse(&qs(&[0, 5, 0, 7])));
    assert_eq!(v.nonzero, vec![1, 3]);
    assert_eq!(v.is_nonzero, vec![false, true, false, true]);
    v.mul_add(q(2, 1), &to_sparse(&qs(&[1, 1, 0, 0])));
    assert_eq!(list(&v.values), ints(&[2, 7, 0, 7]));
    assert_eq!(v.nonzero, vec![1, 3, 0]);
    *v.get_mut(2) = q(9, 1);
    assert_eq!(parts(v.get(2)), (9, 1));
    assert_eq!(v.nonzero, vec![1, 3, 0, 2]);
    *v.get_mut(1) = q(0, 1);
    let sparse = v.to_csvec();
    assert_eq!(sparse.indices, vec![0, 2, 3]);
    assert_eq!(list(&sparse.data), ints(&[2, 9, 7]));
    assert_eq!(parts(&v.sq_norm()), (134, 1));
    v.clear();
    assert_eq!(list(&v.values), ints(&[0, 0, 0, 0]));
    assert!(v.nonzero.is_empty());
    v.mark(3);
    v.clear_and_resize(2);
    assert_eq!((v.len(), v.nonzero.len()), (2, 0));
    assert_eq!(v.is_nonzero, vec![false, false]);
}

#[test]
fn search_is_cleared_and_resized() {
    let mut search = MarkNonzero::with_capacity(2);
    assert_eq!(search.is_visited, vec![false, false]);
    search.is_visited[1] = true;
    search.visited.push(1);
    search.clear();
    assert_eq!(search.is_visited, vec![false, false]);
    assert!(search.visited.is_empty());
    search.clear_and_resize(3);
    assert_eq!(search.is_visited, vec![false, false, false]);
}

#[test]
fn elementary_matrices_are_kept_in_order() {
    let mut etas: EtaMatrices<Rational> = EtaMatrices::new(3);
    assert_eq!(etas.len(), 0);
    let mut col = SparseVec::new();
    col.push(2, q(1, 2));
    col.push(0, q(3, 1));
    etas.push(1, &col);
    col.clear();
    col.push(1, q(4, 1));
    etas.push(0, &col);
    assert_eq!(etas.len(), 2);
    assert_eq!(etas.leaving_rows, vec![1, 0]);
    assert_eq!(etas.coeff_cols.indptr, vec![0, 2, 3]);
    assert_eq!(etas.coeff_cols.indices, vec![2, 0, 1]);
    assert_eq!(list(&etas.coeff_cols.data), vec![(1, 2), (3, 1), (4, 1)]);
    etas.clear_and_resize(5);
    assert_eq!((etas.len(), etas.coeff_cols.n_rows), (0, 5));
}

#[test]
fn factors_multiply_to_the_columns() {
    let mat = rows(&[vec![2, 1, 0], vec![4, 3, 1], vec![0, 1, 5]]).to_csc();
    let mut scratch = ScratchSpace::with_capacity(3);
    let lu = lu_factorize(&mat, &[0, 1, 2], q(1, 1), &mut scratch).unwrap();
    let (lower, upper, full) = (dense(&lu.lower), dense(&lu.upper), dense(&mat));
    for r in 0..3 {
        for c in 0..3 {
            let mut sum = q(0, 1);
            for k in 0..3 {
                let (a, b) = (lower[lu.orig2new_row[r]][k], upper[k][c]);
                sum = sum.plus(q(a.0, a.1).times(q(b.0, b.1)));
            }
            assert_eq!(parts(&sum), full[r][c]);
        }
    }
    assert_eq!(lu.new2orig_row[0], 1);
    assert_eq!(lu.nnz(), lu.lower.nnz() + lu.upper.nnz());
}

#[test]
fn solutions_solve_the_systems() {
    let mat = rows(&[vec![2, 1, 0], vec![4, 3, 1], vec![0, 1, 5]]).to_csc();
    let mut scratch = ScratchSpace::with_capacity(3);
    let lu = lu_factorize(&mat, &[0, 1, 2], q(1, 10), &mut scratch).unwrap();
    let mut x = qs(&[5, 14, 22]);
    lu.solve_dense(&mut x);
    let products: Vec<(i64, u32)> = dense(&mat)
        .iter()
        .map(|row| {
            let mut sum = q(0, 1);
            for (a, b) in row.iter().zip(&x) {
                sum = sum.plus(q(a.0, a.1).times(*b));
            }
            parts(&sum)
        })
        .collect();
    assert_eq!(products, ints(&[5, 14, 22]));
    let mut sparse = ScatteredVec::empty(3);
    sparse.set(&to_sparse(&qs(&[5, 14, 22])));
    lu.solve(&mut sparse, &mut scratch);
    assert_eq!(list(&sparse.values), list(&x));
    let mut y = qs(&[6, 5, 6]);
    lu.solve_dense_transp(&mut y);
    let mut sparse_y = ScatteredVec::empty(3);
    sparse_y.set(&to_sparse(&qs(&[6, 5, 6])));
    lu.solve_transp(&mut sparse_y, &mut scratch);
    assert_eq!(list(&sparse_y.values), list(&y));
    let full = dense(&mat);
    for c in 0..3 {
        let mut sum = q(0, 1);
        for r in 0..3 {
            sum = sum.plus(q(full[r][c].0, full[r][c].1).times(y[r]));
        }
        assert_eq!(parts(&sum), ints(&[6, 5, 6])[c]);
    }
}

#[test]
fn dependent_columns_have_no_factors() {
    let mat = rows(&[vec![1, 2], vec![2, 4]]).to_csc();
    let mut scratch = ScratchSpace::with_capacity(2);
    let lu = lu_factorize(&mat, &[0, 1], q(1, 10), &mut scratch);
    assert_eq!(lu.unwrap_err(), Error::SingularMatrix);
    assert_eq!(
        invert_mat(rows(&[vec![1, 2], vec![2, 4]])).unwrap_err(),
        Error::SingularMatrix
    );
}

#[test]
fn columns_with_one_entry_are_pivots() {
    let mat = rows(&[vec![0, 3, 0], vec![0, 0, -1], vec![5, 0, 0]]).to_csc();
    let mut scratch = ScratchSpace::with_capacity(3);
    let lu = lu_factorize(&mat, &[1, 2, 0], q(1, 10), &mut scratch).unwrap();
    assert_eq!(lu.new2orig_row, vec![0, 1, 2]);
    let lu = lu_factorize(&mat, &[0, 1, 2], q(1, 10), &mut scratch).unwrap();
    assert_eq!(lu.new2orig_row, vec![2, 0, 1]);
}

#[test]
fn inverse_is_exact() {
    let inv = invert_mat(rows(&[vec![2, 2, 0], vec![4, 3, 1], vec![3, 0, 1]])).unwrap();
    assert_eq!(
        dense(&inv),
        vec![
            vec![(3, 4), (-1, 2), (1, 2)],
            vec![(-1, 4), (1, 2), (-1, 2)],
            vec![(-9, 4), (3, 2), (-1, 2)],
        ]
    );
}

#[test]
fn fractions_do_not_round() {
    assert_eq!(parts(&q(6, 4)), (3, 2));
    assert_eq!(parts(&q(1, 3).plus(q(1, 6))), (1, 2));
    assert_eq!(parts(&q(1, 3).minus(q(1, 2))), (-1, 6));
    assert_eq!(parts(&q(2, 3).times(q(-3, 8))), (-1, 4));
    assert_eq!(parts(&q(2, 3).over(q(-4, 9))), (-3, 2));
    assert_eq!(parts(&q(-7, 2).floor()), (-4, 1));
    assert_eq!(parts(&q(7, 2).floor()), (3, 1));
    assert_eq!(parts(&q(-7, 2).absolute()), (7, 2));
    assert_eq!(parts(&q(-7, 2).signum()), (-1, 1));
    assert_eq!(parts(&q(0, 1).signum()), (1, 1));
    assert!(q(1, 3).less(q(1, 2)) && !q(1, 2).less(q(1, 2)));
    assert!(q(2, 4).same(q(1, 2)) && q(1, 2).less_eq(q(1, 2)));
}

#[test]
fn fractions_that_do_not_fit_are_undefined() {
    let big = q(i64::MAX, 1);
    let sum = big.plus(big);
    assert!(!sum.is_finite() && !sum.is_infinite());
    assert!(q(1, 1).over(q(0, 1)).is_infinite());
    let none = Rational::infinity().minus(Rational::infinity());
    assert!(!none.is_finite() && !none.is_infinite() && !none.same(none));
    assert!(q(5, 1).less(Rational::infinity()));
    assert!(Rational::neg_infinity().less(q(-5, 1)));
    assert!(q(1, 2).is_normal() && !q(0, 1).is_normal());
}

fn product(a: &[Vec<(i64, u32)>], b: &[Vec<(i64, u32)>]) -> Vec<Vec<(i64, u32)>> {
    let n = b[0].len();
    a.iter()
        .map(|row| {
            (0..n)
                .map(|c| {
                    let mut sum = q(0, 1);
                    for (x, line) in row.iter().zip(b) {
                        sum = sum.plus(q(x.0, x.1).times(q(line[c].0, line[c].1)));
                    }
                    parts(&sum)
                })
                .collect()
        })
        .collect()
}

#[test]
fn threshold_decides_between_size_and_sparsity() {
    let mat = rows(&[
        vec![2, 2, 123, 0],
        vec![0, 0, 456, 1],
        vec![3, 4, 789, 1],
    ])
    .to_csc();
    let mut scratch = ScratchSpace::with_capacity(3);
    let lu = lu_factorize(&mat, &[1, 0, 3], q(9, 10), &mut scratch).unwrap();
    assert_eq!(
        dense(&lu.lower),
        vec![ints(&[1, 0, 0]), vec![(1, 2), (1, 1), (0, 1)], ints(&[0, 0, 1])]
    );
    assert_eq!(
        dense(&lu.upper),
        vec![
            ints(&[4, 3, 1]),
            vec![(0, 1), (1, 2), (-1, 2)],
            ints(&[0, 0, 1]),
        ]
    );
    assert_eq!(lu.orig2new_row, vec![1, 2, 0]);
    assert_eq!(lu.new2orig_row, vec![2, 0, 1]);
    assert_eq!(lu.swaps, vec![2, 2, 2]);
    let lu = lu_factorize(&mat, &[1, 0, 3], q(1, 10), &mut scratch).unwrap();
    assert_eq!(
        dense(&lu.lower),
        vec![ints(&[1, 0, 0]), ints(&[2, 1, 0]), ints(&[0, 0, 1])]
    );
    assert_eq!(
        dense(&lu.upper),
        vec![ints(&[2, 2, 0]), ints(&[0, -1, 1]), ints(&[0, 0, 1])]
    );
    assert_eq!(lu.orig2new_row, vec![0, 2, 1]);
    assert_eq!(lu.new2orig_row, vec![0, 2, 1]);
    assert_eq!(lu.swaps, vec![0, 2, 2]);
}

#[test]
fn threshold_bounds_the_lower_factor() {
    let mat = rows(&[
        vec![1, 7, -2, 5],
        vec![8, 1, 3, -1],
        vec![-5, 4, 6, 2],
        vec![2, -3, 1, 9],
    ])
    .to_csc();
    let mut scratch = ScratchSpace::with_capacity(4);
    for (num, den) in [(1, 10), (1, 2), (9, 10), (1, 1)] {
        let threshold = q(num, den);
        let lu = lu_factorize(&mat, &[2, 0, 3, 1], threshold, &mut scratch).unwrap();
        let bounded = |x: &Rational| x.absolute().times(threshold).less_eq(q(1, 1));
        assert!(lu.lower.data.iter().all(bounded));
    }
}

#[test]
fn earlier_use_of_the_scratch_space_does_not_matter() {
    let mat = rows(&[vec![2, 1, 0], vec![4, 3, 1], vec![0, 1, 5]]).to_csc();
    let mut fresh = ScratchSpace::with_capacity(3);
    let a = lu_factorize(&mat, &[2, 0, 1], q(1, 10), &mut fresh).unwrap();
    let mut used = ScratchSpace::with_capacity(2);
    let other = rows(&[vec![1, 2], vec![2, 4]]).to_csc();
    assert!(lu_factorize(&other, &[0, 1], q(1, 10), &mut used).is_err());
    let b = lu_factorize(&mat, &[2, 0, 1], q(1, 10), &mut used).unwrap();
    assert_eq!(dense(&a.lower), dense(&b.lower));
    assert_eq!(dense(&a.upper), dense(&b.upper));
    assert_eq!(a.orig2new_row, b.orig2new_row);
    assert_eq!(a.swaps, b.swaps);
}

#[test]
fn zero_is_no_pivot_under_any_threshold() {
    let mut scratch = ScratchSpace::with_capacity(2);
    let mat = rows(&[vec![1, 0], vec![2, 0]]).to_csc();
    for threshold in [q(1, 10), q(0, 1), q(-1, 1)] {
        let lu = lu_factorize(&mat, &[0, 1], threshold, &mut scratch);
        assert_eq!(lu.unwrap_err(), Error::SingularMatrix);
    }
}

#[test]
fn solutions_of_both_systems_are_dual() {
    let mat = rows(&[vec![2, 1, 0], vec![4, 3, 1], vec![0, 1, 5]]).to_csc();
    let mut scratch = ScratchSpace::with_capacity(3);
    let lu = lu_factorize(&mat, &[0, 1, 2], q(1, 10), &mut scratch).unwrap();
    let (b, g) = (qs(&[1, -2, 3]), qs(&[4, 0, -1]));
    let (mut x, mut y) = (b.clone(), g.clone());
    lu.solve_dense(&mut x);
    lu.solve_dense_transp(&mut y);
    let dot = |a: &[Rational], b: &[Rational]| {
        let mut sum = q(0, 1);
        for (p, r) in a.iter().zip(b) {
            sum = sum.plus(p.times(*r));
        }
        parts(&sum)
    };
    assert_eq!(dot(&y, &b), dot(&g, &x));
}

#[test]
fn inverse_works_from_both_sides() {
    let mat = vec![vec![2, 2, 0], vec![4, 3, 1], vec![3, 0, 1]];
    let inv = invert_mat(rows(&mat)).unwrap();
    let one = vec![ints(&[1, 0, 0]), ints(&[0, 1, 0]), ints(&[0, 0, 1])];
    assert_eq!(product(&dense(&rows(&mat)), &dense(&inv)), one);
    assert_eq!(product(&dense(&inv), &dense(&rows(&mat))), one);
    let again = invert_mat(inv).unwrap();
    assert_eq!(dense(&again), dense(&rows(&mat)));
}

#[test]
fn longer_vectors_with_small_indices_fit() {
    let mut v: ScatteredVec<Rational> = ScatteredVec::empty(2);
    v.set(&to_sparse(&qs(&[3, 0, 0, 0])));
    assert_eq!(list(&v.values), ints(&[3, 0]));
    v.mul_add(q(2, 1), &to_sparse(&qs(&[1, 5, 0])));
    assert_eq!(list(&v.values), ints(&[5, 10]));
    assert_eq!(v.nonzero, vec![0, 1]);
}
