use simplex::convert::to_sparse;
use simplex::error::Error;
use simplex::scalar::Scalar;
use simplex::simplex::{RelOp, Solver};
use simplex::sparse::{CsMat, CsVec, Storage};

#[derive(Clone, Copy, Debug, PartialEq)]
struct F(f64);

impl Scalar for F {
    fn zero() -> F {
        F(0.0)
    }
    fn one() -> F {
        F(1.0)
    }
    fn infinity() -> F {
        F(f64::INFINITY)
    }
    fn neg_infinity() -> F {
        F(f64::NEG_INFINITY)
    }
    fn tolerance() -> F {
        F(1e-8)
    }
    fn stability() -> F {
        F(0.1)
    }
    fn plus(self, other: F) -> F {
        F(self.0 + other.0)
    }
    fn minus(self, other: F) -> F {
        F(self.0 - other.0)
    }
    fn times(self, other: F) -> F {
        F(self.0 * other.0)
    }
    fn over(self, other: F) -> F {
        F(self.0 / other.0)
    }
    fn negated(self) -> F {
        F(-self.0)
    }
    fn absolute(self) -> F {
        F(self.0.abs())
    }
    fn signum(self) -> F {
        F(self.0.signum())
    }
    fn floor(self) -> F {
        F(self.0.floor())
    }
    fn same(self, other: F) -> bool {
        self.0 == other.0
    }
    fn less(self, other: F) -> bool {
        self.0 < other.0
    }
    fn less_eq(self, other: F) -> bool {
        self.0 <= other.0
    }
    fn is_finite(self) -> bool {
        self.0.is_finite()
    }
    fn is_infinite(self) -> bool {
        self.0.is_infinite()
    }
    fn is_normal(self) -> bool {
        self.0.is_normal()
    }
}

fn fs(values: &[f64]) -> Vec<F> {
    values.iter().map(|&x| F(x)).collect()
}

fn floats(values: &[F]) -> Vec<f64> {
    values.iter().map(|x| x.0).collect()
}

fn dense(mat: &CsMat<F>) -> Vec<Vec<f64>> {
    let mut res = vec![vec![0.0; mat.ncols]; mat.nrows];
    let outer = match mat.storage {
        Storage::Csr => mat.nrows,
        Storage::Csc => mat.ncols,
    };
    for o in 0..outer {
        let line = mat.outer_vec(o);
        for (i, x) in line.indices.iter().zip(&line.data) {
            match mat.storage {
                Storage::Csr => res[o][*i] = x.0,
                Storage::Csc => res[*i][o] = x.0,
            }
        }
    }
    res
}

fn assert_matrix_eq(mat: &CsMat<F>, reference: &[Vec<f64>]) {
    assert_eq!(mat.nrows, reference.len());
    assert_eq!(dense(mat), reference);
}

fn sparse(values: &[f64]) -> CsVec<F> {
    to_sparse(&fs(values))
}

#[test]
fn initialize() {
    let sol = Solver::try_new(
        &fs(&[2.0, 1.0]),
        &fs(&[f64::NEG_INFINITY, 5.0]),
        &fs(&[0.0, f64::INFINITY]),
        &[
            (sparse(&[1.0, 1.0]), RelOp::Le, F(6.0)),
            (sparse(&[1.0, 2.0]), RelOp::Le, F(8.0)),
            (sparse(&[1.0, 1.0]), RelOp::Ge, F(2.0)),
            (sparse(&[0.0, 1.0]), RelOp::Eq, F(3.0)),
        ],
    )
    .unwrap();

    assert_eq!(sol.num_vars, 2);
    assert_eq!(sol.num_slack_vars, 3);
    assert_eq!(sol.num_artificial_vars, 2);

    assert_eq!(floats(&sol.orig_obj), [-2.0, -1.0, 0.0, 0.0, 0.0, 0.0, 0.0]);

    assert_eq!(
        floats(&sol.orig_var_mins),
        [f64::NEG_INFINITY, 5.0, 0.0, 0.0, 0.0, 0.0, 0.0]
    );
    assert_eq!(
        floats(&sol.orig_var_maxs),
        [
            0.0,
            f64::INFINITY,
            f64::INFINITY,
            f64::INFINITY,
            f64::INFINITY,
            f64::INFINITY,
            f64::INFINITY
        ]
    );

    let orig_constraints_ref = vec![
        vec![1.0, 1.0, 1.0, 0.0, 0.0, 0.0, 0.0],
        vec![1.0, 2.0, 0.0, 1.0, 0.0, -1.0, 0.0],
        vec![1.0, 1.0, 0.0, 0.0, -1.0, 0.0, 0.0],
        vec![0.0, 1.0, 0.0, 0.0, 0.0, 0.0, -1.0],
    ];
    assert_matrix_eq(&sol.orig_constraints, &orig_constraints_ref);

    assert_eq!(floats(&sol.orig_bounds), [6.0, 8.0, 2.0, 3.0]);

    assert_eq!(&sol.basic_vars, &[2, 5, 4, 6]);
    assert_eq!(floats(&sol.cur_bounds), [1.0, 2.0, 3.0, 2.0]);

    assert_eq!(&sol.non_basic_vars, &[0, 1, 3]);
    assert_eq!(floats(&sol.cur_obj), [-1.0, -3.0, -1.0]);
    assert_eq!(floats(&sol.non_basic_vals), [0.0, 5.0, 0.0]);
    assert_eq!(floats(&sol.non_basic_col_sq_norms), [3.0, 7.0, 1.0]);

    assert_eq!(sol.cur_obj_val.0, 4.0);
}

#[test]
fn find_initial_bfs() {
    let mut sol = Solver::try_new(
        &fs(&[-3.0, -4.0]),
        &fs(&[f64::NEG_INFINITY, 5.0]),
        &fs(&[20.0, f64::INFINITY]),
        &[
            (sparse(&[1.0, 1.0]), RelOp::Le, F(20.0)),
            (sparse(&[-1.0, 4.0]), RelOp::Le, F(20.0)),
        ],
    )
    .unwrap();
    sol.find_initial_bfs().unwrap();

    assert_eq!(sol.num_vars, 2);
    assert_eq!(sol.num_slack_vars, 2);
    assert_eq!(sol.num_artificial_vars, 0);

    assert_eq!(&sol.basic_vars, &[0, 3]);
    assert_eq!(floats(&sol.cur_bounds), [15.0, 15.0]);
    assert_eq!(&sol.non_basic_vars, &[1, 2]);
    assert_eq!(floats(&sol.non_basic_vals), [5.0, 0.0]);
    assert_eq!(floats(&sol.cur_obj), [1.0, -3.0]);
    assert_eq!(sol.cur_obj_val.0, -65.0);

    let infeasible = Solver::try_new(
        &fs(&[1.0, 1.0]),
        &fs(&[0.0, 0.0]),
        &fs(&[f64::INFINITY, f64::INFINITY]),
        &[
            (sparse(&[1.0, 1.0]), RelOp::Ge, F(10.0)),
            (sparse(&[1.0, 1.0]), RelOp::Le, F(5.0)),
        ],
    )
    .unwrap()
    .find_initial_bfs();
    assert_eq!(infeasible.unwrap_err(), Error::Infeasible);
}
