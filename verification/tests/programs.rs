use simplex::convert::to_sparse;
use simplex::error::Error;
use simplex::rational::Rational;
use simplex::scalar::Scalar;
use simplex::simplex::{RelOp, Solver};
use simplex::sparse::CsVec;

fn q(num: i64, den: u32) -> Rational {
    Rational::new(num, den)
}

fn qs(nums: &[i64]) -> Vec<Rational> {
    nums.iter().map(|&n| q(n, 1)).collect()
}

fn sparse(nums: &[i64]) -> CsVec<Rational> {
    to_sparse(&qs(nums))
}

fn parts(x: &Rational) -> (i64, u32) {
    (x.num(), x.den())
}

fn list(values: &[Rational]) -> Vec<(i64, u32)> {
    values.iter().map(parts).collect()
}

fn ints(nums: &[i64]) -> Vec<(i64, u32)> {
    nums.iter().map(|&n| (n, 1)).collect()
}

fn inf() -> Rational {
    Rational::infinity()
}

/// Minimise `-3x - 4y` with `x + y <= 4`, `x + 3y <= 6`, `0 <= x <= 3`, `0 <= y`.
fn plain() -> Solver<Rational> {
    Solver::try_new(
        &qs(&[-3, -4]),
        &qs(&[0, 0]),
        &[q(3, 1), inf()],
        &[
            (sparse(&[1, 1]), RelOp::Le, q(4, 1)),
            (sparse(&[1, 3]), RelOp::Le, q(6, 1)),
        ],
    )
    .unwrap()
}

/// The left-hand sides of the constraints at the current vertex.
fn left_hand_sides(sol: &Solver<Rational>) -> Vec<(i64, u32)> {
    (0..sol.num_constraints())
        .map(|r| {
            let row = sol.orig_constraints.outer_vec(r);
            let mut sum = q(0, 1);
            for (v, a) in row.indices.iter().zip(&row.data) {
                sum = sum.plus(a.times(*sol.get_value(*v)));
            }
            parts(&sum)
        })
        .collect()
}

/// The objective at the current vertex.
fn objective(sol: &Solver<Rational>) -> (i64, u32) {
    let mut sum = q(0, 1);
    for v in 0..sol.num_total_vars() {
        sum = sum.minus(sol.orig_obj[v].times(*sol.get_value(v)));
    }
    parts(&sum)
}

#[test]
fn optimum_is_reached() {
    let mut sol = plain();
    assert_eq!((sol.num_constraints(), sol.num_total_vars()), (2, 4));
    sol.optimize().unwrap();
    assert_eq!(parts(sol.get_value(0)), (3, 1));
    assert_eq!(parts(sol.get_value(1)), (1, 1));
    assert_eq!(parts(&sol.cur_obj_val), (-13, 1));
    assert_eq!(sol.nnz(), sol.basis_solver.lu_factors.nnz());
}

#[test]
fn every_vertex_is_on_the_constraints() {
    let mut sol = plain();
    assert_eq!(left_hand_sides(&sol), list(&sol.orig_bounds));
    assert_eq!(objective(&sol), parts(&sol.cur_obj_val));
    sol.optimize().unwrap();
    assert_eq!(left_hand_sides(&sol), list(&sol.orig_bounds));
    assert_eq!(objective(&sol), parts(&sol.cur_obj_val));
    sol.set_var(0, q(2, 1)).unwrap();
    assert_eq!(left_hand_sides(&sol), list(&sol.orig_bounds));
    assert_eq!(objective(&sol), parts(&sol.cur_obj_val));
    sol.add_constraint(sparse(&[0, 2, 0, 0]), RelOp::Le, q(1, 1)).unwrap();
    assert_eq!(left_hand_sides(&sol), list(&sol.orig_bounds));
    assert_eq!(objective(&sol), parts(&sol.cur_obj_val));
}

#[test]
fn one_step_of_the_simplex_method() {
    let mut sol = plain();
    let info = sol.choose_pivot().unwrap().unwrap();
    // scores: 9 / 3 for x, 16 / 11 for y
    assert_eq!(info.col, 0);
    assert_eq!(parts(&info.entering_new_val), (3, 1));
    assert_eq!(parts(&info.entering_diff), (3, 1));
    assert!(info.elem.is_none());
    sol.pivot(&info).unwrap();
    assert_eq!(list(&sol.non_basic_vals), ints(&[3, 0]));
    assert_eq!(list(&sol.cur_bounds), ints(&[1, 3]));
    assert_eq!(parts(&sol.cur_obj_val), (-9, 1));
    let info = sol.choose_pivot().unwrap().unwrap();
    assert_eq!(info.col, 1);
    let elem = info.elem.as_ref().unwrap();
    // both rows allow y to grow by one; the coefficient 3 is the larger one
    assert_eq!(elem.row, 1);
    assert_eq!(parts(&elem.coeff), (3, 1));
    assert_eq!(parts(&elem.leaving_new_val), (0, 1));
    assert_eq!(list(&sol.row_coeffs.values), ints(&[1, 3]));
    sol.pivot(&info).unwrap();
    assert_eq!(sol.basic_vars, vec![2, 1]);
    assert_eq!(sol.non_basic_vars, vec![0, 3]);
    assert_eq!(list(&sol.cur_bounds), ints(&[0, 1]));
    assert_eq!(list(&sol.cur_obj), vec![(5, 3), (-4, 3)]);
    assert_eq!(parts(&sol.cur_obj_val), (-13, 1));
    assert!(sol.choose_pivot_row_dual().is_none());
}

#[test]
fn a_step_never_makes_the_objective_worse() {
    let mut sol = plain();
    let mut steps = 0;
    while let Some(info) = sol.choose_pivot().unwrap() {
        let before = sol.cur_obj_val;
        let rate = sol.cur_obj[info.col];
        sol.pivot(&info).unwrap();
        // every variable leaves its lower limit here
        assert_eq!(
            parts(&sol.cur_obj_val),
            parts(&before.minus(rate.times(info.entering_diff)))
        );
        assert!(sol.cur_obj_val.less_eq(before));
        assert!(sol.choose_pivot_row_dual().is_none());
        steps += 1;
    }
    assert_eq!(steps, 2);
    assert_eq!(parts(&sol.cur_obj_val), (-13, 1));
}

#[test]
fn set_variables_keep_their_values() {
    let mut sol = plain();
    sol.optimize().unwrap();
    sol.set_var(0, q(2, 1)).unwrap();
    sol.set_var(1, q(1, 2)).unwrap();
    assert_eq!(parts(sol.get_value(0)), (2, 1));
    assert_eq!(parts(sol.get_value(1)), (1, 2));
    sol.add_constraint(sparse(&[1, 1, 0, 0]), RelOp::Le, q(3, 1)).unwrap();
    assert_eq!(parts(sol.get_value(0)), (2, 1));
    assert_eq!(parts(sol.get_value(1)), (1, 2));
    assert_eq!(parts(&sol.cur_obj_val), (-8, 1));
}

#[test]
fn values_that_exclude_each_other_are_infeasible() {
    let mut sol = plain();
    sol.optimize().unwrap();
    sol.set_var(1, q(2, 1)).unwrap();
    assert_eq!(parts(sol.get_value(0)), (0, 1));
    assert_eq!(parts(sol.get_value(1)), (2, 1));
    assert_eq!(parts(&sol.cur_obj_val), (-8, 1));
    // x + 3y <= 6 leaves no room for x
    assert_eq!(sol.set_var(0, q(3, 1)), Err(Error::Infeasible));
}

#[test]
fn limits_that_exclude_each_other_are_infeasible() {
    let res = Solver::try_new(&qs(&[1]), &qs(&[2]), &qs(&[1]), &[]);
    assert_eq!(res.unwrap_err(), Error::Infeasible);
}

#[test]
fn constraints_without_variables_hold_or_not() {
    let cases = [
        (RelOp::Eq, 0, true),
        (RelOp::Eq, 1, false),
        (RelOp::Le, 1, true),
        (RelOp::Le, -1, false),
        (RelOp::Ge, -1, true),
        (RelOp::Ge, 1, false),
    ];
    for (rel_op, bound, holds) in cases.iter() {
        let res = Solver::try_new(
            &qs(&[1]),
            &qs(&[0]),
            &[inf()],
            &[(sparse(&[0]), *rel_op, q(*bound, 1))],
        );
        let mut sol = plain();
        let added = sol.add_constraint(sparse(&[0, 0, 0, 0]), *rel_op, q(*bound, 1));
        if *holds {
            assert_eq!(res.unwrap().num_constraints(), 0);
            assert_eq!(added, Ok(()));
        } else {
            assert_eq!(res.unwrap_err(), Error::Infeasible);
            assert_eq!(added, Err(Error::Infeasible));
        }
        assert_eq!(sol.num_constraints(), 2);
    }
}

#[test]
fn unbounded_objective_is_an_error() {
    let mut sol = Solver::try_new(
        &qs(&[-1, 0]),
        &qs(&[0, 0]),
        &[inf(), inf()],
        &[(sparse(&[-1, 1]), RelOp::Le, q(1, 1))],
    )
    .unwrap();
    assert_eq!(sol.optimize(), Err(Error::Unbounded));
}

#[test]
fn artificial_variables_lead_to_a_vertex() {
    // minimise x + y with x + 2y >= 4, x - y = 1
    let mut sol = Solver::try_new(
        &qs(&[1, 1]),
        &qs(&[0, 0]),
        &[inf(), inf()],
        &[
            (sparse(&[1, 2]), RelOp::Ge, q(4, 1)),
            (sparse(&[1, -1]), RelOp::Eq, q(1, 1)),
        ],
    )
    .unwrap();
    assert_eq!((sol.num_slack_vars, sol.num_artificial_vars), (1, 2));
    assert_eq!(parts(&sol.cur_obj_val), (5, 1));
    sol.optimize().unwrap();
    assert_eq!(sol.num_artificial_vars, 0);
    assert_eq!(sol.num_total_vars(), 3);
    assert_eq!(parts(sol.get_value(0)), (2, 1));
    assert_eq!(parts(sol.get_value(1)), (1, 1));
    assert_eq!(parts(&sol.cur_obj_val), (3, 1));
    assert_eq!(left_hand_sides(&sol), list(&sol.orig_bounds));
}

#[test]
fn contradictory_constraints_are_infeasible() {
    let mut sol = Solver::try_new(
        &qs(&[1, 1]),
        &qs(&[0, 0]),
        &[inf(), inf()],
        &[
            (sparse(&[1, 1]), RelOp::Ge, q(10, 1)),
            (sparse(&[1, 1]), RelOp::Le, q(5, 1)),
        ],
    )
    .unwrap();
    assert_eq!(sol.optimize(), Err(Error::Infeasible));
}

#[test]
fn a_repeated_equation_leaves_an_artificial_variable() {
    let mut sol = Solver::try_new(
        &qs(&[1, 1]),
        &qs(&[0, 0]),
        &[inf(), inf()],
        &[
            (sparse(&[1, 1]), RelOp::Eq, q(1, 1)),
            (sparse(&[1, 1]), RelOp::Eq, q(1, 1)),
        ],
    )
    .unwrap();
    assert_eq!(sol.find_initial_bfs(), Err(Error::ArtificialVarsLeft));
}

#[test]
fn a_bound_without_a_sign_is_singular() {
    let undefined = inf().minus(inf());
    let res = Solver::try_new(
        &qs(&[1]),
        &qs(&[0]),
        &[inf()],
        &[(sparse(&[1]), RelOp::Eq, undefined)],
    );
    assert_eq!(res.unwrap_err(), Error::SingularMatrix);
}

#[test]
fn a_variable_is_set_and_freed_again() {
    let mut sol = plain();
    sol.optimize().unwrap();
    sol.set_var(0, q(2, 1)).unwrap();
    assert_eq!(parts(sol.get_value(0)), (2, 1));
    assert_eq!(parts(sol.get_value(1)), (4, 3));
    assert_eq!(parts(&sol.cur_obj_val), (-34, 3));
    assert_eq!(sol.unset_var(1), Ok(false));
    assert_eq!(parts(&sol.cur_obj_val), (-34, 3));
    assert_eq!(sol.unset_var(0), Ok(true));
    assert_eq!(parts(sol.get_value(0)), (3, 1));
    assert_eq!(parts(&sol.cur_obj_val), (-13, 1));
    assert_eq!(sol.set_var(0, q(4, 1)), Err(Error::Infeasible));
    assert_eq!(sol.set_var(0, q(-1, 1)), Err(Error::Infeasible));
    assert_eq!(parts(&sol.cur_obj_val), (-13, 1));
}

#[test]
fn a_basic_variable_is_set() {
    let mut sol = plain();
    sol.optimize().unwrap();
    sol.set_var(1, q(1, 2)).unwrap();
    assert_eq!(parts(sol.get_value(1)), (1, 2));
    assert_eq!(parts(sol.get_value(0)), (3, 1));
    assert_eq!(parts(&sol.cur_obj_val), (-11, 1));
    // the objective improves with y, which has no upper limit
    assert_eq!(sol.unset_var(1), Err(Error::Unbounded));
}

#[test]
fn a_set_variable_does_not_become_basic() {
    let mut sol = plain();
    sol.optimize().unwrap();
    sol.set_var(1, q(0, 1)).unwrap();
    sol.add_constraint(sparse(&[1, 0, 0, 0]), RelOp::Le, q(2, 1)).unwrap();
    assert!(!sol.basic_vars.contains(&1));
    assert_eq!(parts(sol.get_value(0)), (2, 1));
    assert_eq!(parts(sol.get_value(1)), (0, 1));
    assert_eq!(parts(&sol.cur_obj_val), (-6, 1));
}

#[test]
fn a_constraint_is_added() {
    let mut sol = plain();
    sol.optimize().unwrap();
    sol.add_constraint(sparse(&[1, 2, 0, 0]), RelOp::Le, q(4, 1)).unwrap();
    assert_eq!((sol.num_constraints(), sol.num_slack_vars), (3, 3));
    assert_eq!(parts(sol.get_value(0)), (3, 1));
    assert_eq!(parts(sol.get_value(1)), (1, 2));
    assert_eq!(parts(&sol.cur_obj_val), (-11, 1));
    assert_eq!(left_hand_sides(&sol), list(&sol.orig_bounds));
    assert_eq!(
        sol.add_constraint(sparse(&[1, 0, 0, 0, 0]), RelOp::Ge, q(5, 1)),
        Err(Error::Infeasible)
    );
}

#[test]
fn a_cut_takes_away_the_fraction() {
    // minimise -y with 3x + 2y <= 6, -3x + 2y <= 0
    let mut sol = Solver::try_new(
        &qs(&[0, -1]),
        &qs(&[0, 0]),
        &[inf(), inf()],
        &[
            (sparse(&[3, 2]), RelOp::Le, q(6, 1)),
            (sparse(&[-3, 2]), RelOp::Le, q(0, 1)),
        ],
    )
    .unwrap();
    sol.optimize().unwrap();
    assert_eq!(parts(sol.get_value(0)), (1, 1));
    assert_eq!(parts(sol.get_value(1)), (3, 2));
    sol.add_gomory_cut(1).unwrap();
    let cut = sol.orig_constraints.outer_vec(2);
    assert_eq!(cut.indices, vec![2, 3, 4]);
    assert_eq!(list(&cut.data), vec![(-1, 4), (-1, 4), (1, 1)]);
    assert_eq!(parts(&sol.orig_bounds[2]), (-1, 2));
    assert_eq!(parts(sol.get_value(1)), (1, 1));
    assert_eq!(parts(&sol.cur_obj_val), (-1, 1));
}

#[test]
fn another_basis_is_taken_up() {
    let mut sol = plain();
    sol.reset_basis(vec![0, 1]).unwrap();
    assert_eq!(sol.non_basic_vars, vec![2, 3]);
    assert_eq!(list(&sol.cur_bounds), ints(&[3, 1]));
    assert_eq!(list(&sol.cur_obj), vec![(-5, 2), (-1, 2)]);
    assert_eq!(list(&sol.non_basic_col_sq_norms), vec![(5, 2), (1, 2)]);
    assert_eq!(parts(&sol.cur_obj_val), (-13, 1));
    sol.recalc_cur_bounds();
    assert_eq!(list(&sol.cur_bounds), ints(&[3, 1]));
}

#[test]
fn a_singular_basis_is_refused() {
    let mut sol = Solver::try_new(
        &qs(&[-1, -1]),
        &qs(&[0, 0]),
        &[inf(), inf()],
        &[
            (sparse(&[1, 2]), RelOp::Le, q(4, 1)),
            (sparse(&[2, 4]), RelOp::Le, q(6, 1)),
        ],
    )
    .unwrap();
    assert_eq!(sol.reset_basis(vec![0, 1]), Err(Error::SingularMatrix));
}

#[test]
fn quantities_from_scratch_agree_with_those_kept() {
    let mut sol = plain();
    sol.optimize().unwrap();
    let (obj, val, norms) = (
        list(&sol.cur_obj),
        parts(&sol.cur_obj_val),
        list(&sol.non_basic_col_sq_norms),
    );
    sol.recalc_cur_obj().unwrap();
    sol.recalc_cur_sq_norms();
    assert_eq!(list(&sol.cur_obj), obj);
    assert_eq!(parts(&sol.cur_obj_val), val);
    assert_eq!(list(&sol.non_basic_col_sq_norms), norms);
}

#[test]
fn a_value_outside_is_brought_back() {
    let mut sol = plain();
    sol.reset_basis(vec![2, 1]).unwrap();
    // y alone: y = 2, and the first row has 2 left
    assert_eq!(list(&sol.cur_bounds), ints(&[2, 2]));
    sol.add_constraint(sparse(&[0, 1, 0, 0]), RelOp::Le, q(1, 1)).unwrap();
    assert_eq!(parts(sol.get_value(0)), (3, 1));
    assert_eq!(parts(sol.get_value(1)), (1, 1));
    assert!(sol.choose_pivot_row_dual().is_none());
    assert_eq!(parts(&sol.cur_obj_val), (-13, 1));
}

#[test]
fn the_larger_coefficient_wins_a_tie() {
    // minimise -3x - y with -x / 2 <= 0, x + y / 10 <= 4
    let mut sol = Solver::try_new(
        &qs(&[-3, -1]),
        &qs(&[0, 0]),
        &[inf(), inf()],
        &[
            (CsVec::new(2, vec![0], vec![q(-1, 2)]), RelOp::Le, q(0, 1)),
            (CsVec::new(2, vec![0, 1], vec![q(1, 1), q(1, 10)]), RelOp::Le, q(4, 1)),
        ],
    )
    .unwrap();
    let info = sol.choose_pivot().unwrap().unwrap();
    assert_eq!(info.col, 0);
    assert_eq!(info.elem.as_ref().unwrap().row, 1);
    sol.pivot(&info).unwrap();
    assert_eq!(list(&sol.cur_bounds), ints(&[2, 4]));
    let info = sol.choose_pivot().unwrap().unwrap();
    assert_eq!(info.col, 1);
    assert_eq!(sol.col_coeffs.indices, vec![1, 0]);
    assert_eq!(list(&sol.col_coeffs.values), vec![(1, 10), (1, 20)]);
    // both rows let y grow by forty
    let elem = info.elem.as_ref().unwrap();
    assert_eq!(parts(&info.entering_diff), (40, 1));
    assert_eq!(elem.row, 1);
    assert_eq!(parts(&elem.coeff), (1, 10));
}

#[test]
fn an_infeasible_program_stays_infeasible() {
    let mut sol = Solver::try_new(
        &qs(&[1]),
        &qs(&[0]),
        &[inf()],
        &[
            (sparse(&[1]), RelOp::Ge, q(5, 1)),
            (sparse(&[1]), RelOp::Le, q(3, 1)),
        ],
    )
    .unwrap();
    assert_eq!(sol.optimize(), Err(Error::Infeasible));
    assert_eq!(sol.optimize(), Err(Error::Infeasible));
}

#[test]
fn unsetting_what_is_not_set_needs_no_vertex() {
    let mut sol = Solver::try_new(
        &qs(&[1]),
        &qs(&[0]),
        &[inf()],
        &[(sparse(&[1]), RelOp::Ge, q(5, 1))],
    )
    .unwrap();
    assert_eq!(sol.num_artificial_vars, 1);
    assert_eq!(sol.unset_var(0), Ok(false));
    assert_eq!(sol.unset_var(17), Ok(false));
    sol.optimize().unwrap();
    assert_eq!(parts(&sol.cur_obj_val), (5, 1));
}

#[test]
fn a_lower_bound_is_added() {
    let mut sol = Solver::try_new(
        &qs(&[1]),
        &qs(&[0]),
        &qs(&[10]),
        &[(sparse(&[1]), RelOp::Le, q(8, 1))],
    )
    .unwrap();
    sol.optimize().unwrap();
    assert_eq!(parts(&sol.cur_obj_val), (0, 1));
    sol.add_constraint(sparse(&[1, 0]), RelOp::Ge, q(2, 1)).unwrap();
    assert_eq!(sol.num_slack_vars, 2);
    let values: Vec<_> = (0..3).map(|v| parts(sol.get_value(v))).collect();
    assert_eq!(values, ints(&[2, 6, 0]));
    // one more constraint never makes the objective better
    assert_eq!(parts(&sol.cur_obj_val), (2, 1));
}

#[test]
fn blank_constraints_leave_no_trace() {
    let blanks = [
        (sparse(&[0, 0]), RelOp::Le, q(1, 1)),
        (sparse(&[0, 0]), RelOp::Eq, q(0, 1)),
        (sparse(&[0, 0]), RelOp::Ge, q(-1, 1)),
    ];
    let with = |places: [usize; 3]| {
        let mut constraints = vec![
            (sparse(&[1, 1]), RelOp::Le, q(4, 1)),
            (sparse(&[1, 3]), RelOp::Ge, q(6, 1)),
        ];
        for (blank, &place) in blanks.iter().zip(&places) {
            if place <= constraints.len() {
                constraints.insert(place, blank.clone());
            }
        }
        Solver::try_new(&qs(&[-3, -4]), &qs(&[0, 0]), &[q(3, 1), inf()], &constraints).unwrap()
    };
    let a = with([9, 9, 9]);
    assert_eq!((a.num_slack_vars, a.num_artificial_vars), (2, 1));
    for places in [[1, 9, 9], [0, 9, 9], [0, 0, 4], [1, 2, 3]] {
        let b = with(places);
        assert_eq!((b.num_slack_vars, b.num_artificial_vars), (2, 1));
        assert_eq!(a.basic_vars, b.basic_vars);
        assert_eq!(a.non_basic_vars, b.non_basic_vars);
        assert_eq!(list(&a.cur_bounds), list(&b.cur_bounds));
        assert_eq!(list(&a.cur_obj), list(&b.cur_obj));
        assert_eq!(list(&a.orig_bounds), list(&b.orig_bounds));
        assert_eq!(list(&a.non_basic_col_sq_norms), list(&b.non_basic_col_sq_norms));
        assert_eq!(a.orig_constraints.indptr, b.orig_constraints.indptr);
        assert_eq!(a.orig_constraints.indices, b.orig_constraints.indices);
        assert_eq!(list(&a.orig_constraints.data), list(&b.orig_constraints.data));
        let (p, q) = (&a.basis_solver.lu_factors, &b.basis_solver.lu_factors);
        assert_eq!(list(&p.lower.data), list(&q.lower.data));
        assert_eq!(list(&p.upper.data), list(&q.upper.data));
        assert_eq!(p.new2orig_row, q.new2orig_row);
    }
}

fn is_within(sol: &Solver<Rational>) -> bool {
    (0..sol.num_total_vars()).all(|v| {
        let x = *sol.get_value(v);
        sol.orig_var_mins[v].less_eq(x) && x.less_eq(sol.orig_var_maxs[v])
    })
}

fn norms_are_right(sol: &mut Solver<Rational>) -> bool {
    let kept = list(&sol.non_basic_col_sq_norms);
    sol.recalc_cur_sq_norms();
    list(&sol.non_basic_col_sq_norms) == kept
}

#[test]
fn every_change_leads_to_a_vertex_within_the_limits() {
    let mut sol = plain();
    sol.optimize().unwrap();
    let mut values = vec![sol.cur_obj_val];
    sol.set_var(0, q(2, 1)).unwrap();
    assert!(is_within(&sol) && norms_are_right(&mut sol));
    values.push(sol.cur_obj_val);
    sol.unset_var(0).unwrap();
    assert!(is_within(&sol) && norms_are_right(&mut sol));
    values.push(sol.cur_obj_val);
    sol.add_constraint(sparse(&[1, 2, 0, 0]), RelOp::Le, q(4, 1)).unwrap();
    assert!(is_within(&sol) && norms_are_right(&mut sol));
    values.push(sol.cur_obj_val);
    assert_eq!(parts(sol.get_value(1)), (1, 2));
    sol.add_gomory_cut(1).unwrap();
    assert!(is_within(&sol) && norms_are_right(&mut sol));
    values.push(sol.cur_obj_val);
    assert_eq!(sol.num_constraints(), 4);
    assert_eq!(left_hand_sides(&sol), list(&sol.orig_bounds));
    // x is at its upper limit, so the cut spares the vertex
    assert_eq!(list(&values), vec![(-13, 1), (-34, 3), (-13, 1), (-11, 1), (-11, 1)]);
}

#[test]
fn norms_are_right_after_both_phases() {
    let mut sol = with_artificial();
    sol.optimize().unwrap();
    assert!(is_within(&sol) && norms_are_right(&mut sol));
}

#[test]
fn an_objective_without_a_least_value_is_found_after_the_first_phase() {
    // minimise -x - y with x - y >= 1
    let mut sol = Solver::try_new(
        &qs(&[-1, -1]),
        &qs(&[0, 0]),
        &[inf(), inf()],
        &[(sparse(&[1, -1]), RelOp::Ge, q(1, 1))],
    )
    .unwrap();
    assert_eq!(sol.num_artificial_vars, 1);
    assert_eq!(sol.optimize(), Err(Error::Unbounded));
    assert_eq!(sol.num_artificial_vars, 0);
}

#[test]
fn entries_behind_the_new_slack_variable_are_cut_off() {
    let mut sol = plain();
    sol.optimize().unwrap();
    let coeffs = CsVec::new(8, vec![0, 1, 6], qs(&[1, 2, 9]));
    sol.add_constraint(coeffs, RelOp::Le, q(4, 1)).unwrap();
    let row = sol.orig_constraints.outer_vec(2);
    assert_eq!(row.indices, vec![0, 1, 4]);
    assert_eq!(list(&row.data), ints(&[1, 2, 1]));
    assert_eq!(parts(&sol.cur_obj_val), (-11, 1));
}

#[test]
fn every_vertex_is_within_the_limits() {
    let mut sol = plain();
    loop {
        assert!(is_within(&sol));
        match sol.choose_pivot().unwrap() {
            Some(info) => sol.pivot(&info).unwrap(),
            None => break,
        }
    }
    assert_eq!(parts(&sol.cur_obj_val), (-13, 1));
}

#[test]
fn squared_norms_are_kept_right() {
    let mut sol = Solver::try_new(
        &qs(&[-5, -4, -3]),
        &qs(&[0, 0, 0]),
        &[inf(), inf(), inf()],
        &[
            (sparse(&[2, 3, 1]), RelOp::Le, q(5, 1)),
            (sparse(&[4, 1, 2]), RelOp::Le, q(11, 1)),
            (sparse(&[3, 4, 2]), RelOp::Le, q(8, 1)),
        ],
    )
    .unwrap();
    assert_eq!(list(&sol.non_basic_col_sq_norms), ints(&[29, 26, 9]));
    while let Some(info) = sol.choose_pivot().unwrap() {
        sol.pivot(&info).unwrap();
        let kept = list(&sol.non_basic_col_sq_norms);
        sol.recalc_cur_sq_norms();
        assert_eq!(list(&sol.non_basic_col_sq_norms), kept);
    }
    assert_eq!(parts(&sol.cur_obj_val), (-13, 1));
}

#[test]
fn no_feasible_point_has_a_smaller_objective() {
    let mut sol = plain();
    sol.optimize().unwrap();
    let mut count = 0;
    for a in 0..13 {
        for b in 0..13 {
            // quarters
            let (x, y) = (q(a, 4), q(b, 4));
            let first = x.plus(y).less_eq(q(4, 1));
            let second = x.plus(y.times(q(3, 1))).less_eq(q(6, 1));
            if first && second {
                let obj = q(-3, 1).times(x).minus(q(4, 1).times(y));
                assert!(sol.cur_obj_val.less_eq(obj));
                count += 1;
            }
        }
    }
    assert!(count > 40);
}

/// Minimise `-3x - 4y` with `x + y <= 20`, `-x + 4y <= 20`, `x <= 20`, `5 <= y`.
fn with_artificial() -> Solver<Rational> {
    Solver::try_new(
        &qs(&[-3, -4]),
        &[Rational::neg_infinity(), q(5, 1)],
        &[q(20, 1), inf()],
        &[
            (sparse(&[1, 1]), RelOp::Le, q(20, 1)),
            (sparse(&[-1, 4]), RelOp::Le, q(20, 1)),
        ],
    )
    .unwrap()
}

#[test]
fn a_variable_at_its_upper_limit_moves_down() {
    let mut sol = with_artificial();
    let info = sol.choose_pivot().unwrap().unwrap();
    assert_eq!(info.col, 0);
    assert_eq!(parts(&info.entering_diff), (-5, 1));
    assert_eq!(parts(&info.entering_new_val), (15, 1));
    let elem = info.elem.as_ref().unwrap();
    assert_eq!(elem.row, 0);
    assert_eq!(parts(&elem.coeff), (-1, 1));
    assert_eq!(parts(&elem.leaving_new_val), (0, 1));
}

#[test]
fn both_phases_lead_to_the_optimum() {
    let mut sol = with_artificial();
    assert_eq!(sol.num_artificial_vars, 1);
    sol.optimize().unwrap();
    assert_eq!(sol.num_artificial_vars, 0);
    assert_eq!(parts(sol.get_value(0)), (12, 1));
    assert_eq!(parts(sol.get_value(1)), (8, 1));
    assert_eq!(parts(&sol.cur_obj_val), (-68, 1));
}
