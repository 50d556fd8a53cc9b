//! Dimensions and their driving constraints.
use nalgebra::DMatrix;
use rustcad::constraint::{Constraint, ConstraintError};
use rustcad::dimension::{DimensionKind, DimensionTarget};
use rustcad::expr::Expr;
use rustcad::ids::PointId;
use rustcad::sketch::Sketch;
use rustcad::solver::{Factors, SolveResult, SolverOps};

const SOLVE_TOLERANCE: f64 = 1e-9;

/// Double precision arithmetic on formulas.
fn eval(e: &Expr<f64>, v: &Vec<f64>) -> f64 {
    match e {
        Expr::Ratio(n, d) => *n as f64 / *d as f64,
        Expr::Value(x) => *x,
        Expr::Var(id) => v[id.index],
        Expr::Neg(a) => -eval(a, v),
        Expr::Add(a, b) => eval(a, v) + eval(b, v),
        Expr::Sub(a, b) => eval(a, v) - eval(b, v),
        Expr::Mul(a, b) => eval(a, v) * eval(b, v),
        Expr::Div(a, b) => eval(a, v) / eval(b, v),
        Expr::Sqrt(a) => eval(a, v).sqrt(),
        Expr::Abs(a) => eval(a, v).abs(),
        Expr::Max(a, b) => eval(a, v).max(eval(b, v)),
        Expr::Clamp(a) => eval(a, v).clamp(0.0, 1.0),
        Expr::IfTiny(test, small, large) => {
            if eval(test, v) <= f64::EPSILON {
                eval(small, v)
            } else {
                eval(large, v)
            }
        }
    }
}

fn less(a: &f64, b: &f64) -> bool {
    a < b
}

fn matrix(rows: &Vec<Vec<f64>>) -> DMatrix<f64> {
    DMatrix::from_fn(rows.len(), rows[0].len(), |i, j| rows[i][j])
}

fn rows_of(m: &DMatrix<f64>) -> Vec<Vec<f64>> {
    m.row_iter().map(|row| row.iter().copied().collect()).collect()
}

fn singular(rows: &Vec<Vec<f64>>) -> Vec<f64> {
    let values = matrix(rows).svd(false, false).singular_values;
    values.iter().copied().collect()
}

fn factor(rows: &Vec<Vec<f64>>) -> Option<Factors<f64>> {
    let svd = matrix(rows).svd(true, true);
    Some(Factors {
        u: rows_of(&svd.u?),
        s: svd.singular_values.iter().copied().collect(),
        v_t: rows_of(&svd.v_t?),
    })
}

type Ops = SolverOps<
    fn(&Expr<f64>, &Vec<f64>) -> f64,
    fn(&f64, &f64) -> bool,
    fn(&Vec<Vec<f64>>) -> Option<Factors<f64>>,
>;

fn ops() -> Ops {
    SolverOps { eval, less, factor }
}

fn line(s: &mut Sketch<f64>) -> (PointId, PointId) {
    let p1 = s.add_point([0.0, 0.0]);
    let p2 = s.add_point([10.0, 0.0]);
    s.add_line(p1, p2);
    (p1, p2)
}

fn line_length(s: &Sketch<f64>, p1: PointId, p2: PointId) -> f64 {
    let a = s.point_pos(p1);
    let b = s.point_pos(p2);
    ((a[0] - b[0]).powi(2) + (a[1] - b[1]).powi(2)).sqrt()
}

#[test]
fn set_linear_dimension_value_drives_the_solver() {
    let mut s = Sketch::new();
    let (p1, p2) = line(&mut s);
    let offset = [0.0, 2.0];
    let dim = s
        .add_dimension(DimensionTarget::Linear(p1, p2), 10.0, offset, &eval)
        .expect("linear dimension");
    assert_eq!(s.solve(&ops()), SolveResult::Solved { iterations: 0 });

    let result = s.set_dimension_value(dim, 15.0, &ops());
    assert!(matches!(result, SolveResult::Solved { .. }));
    assert!((line_length(&s, p1, p2) - 15.0).abs() < SOLVE_TOLERANCE.sqrt());
    assert_eq!(s.dimension_value(dim, &eval), Some(15.0));
    // the solver does not touch the offset
    assert_eq!(s.dimension(dim).unwrap().offset, offset);
}

#[test]
fn diameter_is_stored_as_radius_but_displayed_doubled() {
    let mut s = Sketch::new();
    let c = s.add_point([0.0, 0.0]);
    let circle = s.add_circle(c, 1.0);
    let dim = s
        .add_dimension(DimensionTarget::Diameter(circle), 8.0, [1.0, 1.0], &eval)
        .expect("diameter dimension");
    s.set_dimension_value(dim, 8.0, &ops());
    // the radius is 4, shown is 8
    assert!((s.circle_radius(circle).unwrap() - 4.0).abs() < SOLVE_TOLERANCE.sqrt());
    assert!((s.dimension_value(dim, &eval).unwrap() - 8.0).abs() < SOLVE_TOLERANCE.sqrt());
}

#[test]
fn removing_dimension_removes_driving_constraint() {
    let mut s = Sketch::new();
    let (p1, p2) = line(&mut s);
    let dim = s
        .add_dimension(DimensionTarget::Linear(p1, p2), 10.0, [0.0, 0.0], &eval)
        .expect("dimension");
    assert_eq!(s.constraint_count(), 1);
    s.remove_dimension(dim);
    assert_eq!(s.dimension_count(), 0);
    assert_eq!(s.constraint_count(), 0);
}

#[test]
fn dimension_deleting_driving_constraint_removes_dimension() {
    let mut s = Sketch::new();
    let (p1, p2) = line(&mut s);
    let dim = s
        .add_dimension(DimensionTarget::Linear(p1, p2), 10.0, [0.0, 0.0], &eval)
        .expect("dimension");
    let cid = s.dimension(dim).unwrap().constraint;
    s.delete_constraint(cid);
    assert_eq!(s.dimension_count(), 0);
}

#[test]
fn deleting_dimensioned_entity_cascades_to_dimension() {
    let mut s = Sketch::new();
    let c = s.add_point([0.0, 0.0]);
    let circle = s.add_circle(c, 2.0);
    let dim = s
        .add_dimension(DimensionTarget::Radius(circle), 2.0, [0.0, 0.0], &eval)
        .expect("dimension");
    s.delete_entity(circle);
    assert!(s.dimension(dim).is_none());
    assert_eq!(s.constraint_count(), 0);
}

#[test]
fn set_dimension_offset_moves_only_the_label() {
    let mut s = Sketch::new();
    let (p1, p2) = line(&mut s);
    let dim = s
        .add_dimension(DimensionTarget::Linear(p1, p2), 10.0, [0.0, 1.0], &eval)
        .expect("dimension");
    s.set_dimension_offset(dim, [3.0, -2.0]);
    assert_eq!(s.dimension(dim).unwrap().offset, [3.0, -2.0]);
    // the value is as it was
    assert_eq!(s.dimension_value(dim, &eval), Some(10.0));
}

#[test]
fn a_diameter_is_halved_in_its_constraint() {
    let mut s = Sketch::new();
    let c = s.add_point([0.0, 0.0]);
    let circle = s.add_circle(c, 1.0);
    let dim = s
        .add_dimension(DimensionTarget::Diameter(circle), 7.0, [0.0, 0.0], &eval)
        .expect("dimension");
    let held = s.dimension(dim).unwrap();
    assert_eq!(held.kind, DimensionKind::Diameter);
    assert_eq!(s.constraint(held.constraint), Some(Constraint::Radius(circle, 3.5)));
    s.store_dimension_value(dim, 5.0, &eval);
    assert_eq!(s.constraint(held.constraint), Some(Constraint::Radius(circle, 2.5)));
    assert_eq!(s.dimension_value(dim, &eval), Some(5.0));
}

#[test]
fn a_dimension_of_what_does_not_exist_is_refused() {
    let mut s = Sketch::new();
    let (p1, _) = line(&mut s);
    let stranger = PointId { raw: 77 };
    assert_eq!(
        s.add_dimension(DimensionTarget::Linear(p1, stranger), 1.0, [0.0, 0.0], &eval),
        Err(ConstraintError::UnknownRef)
    );
    let edge = s.entities()[0].0;
    assert_eq!(
        s.add_dimension(DimensionTarget::Radius(edge), 1.0, [0.0, 0.0], &eval),
        Err(ConstraintError::NotACircle)
    );
    assert_eq!(s.dimension_count(), 0);
    assert_eq!(s.constraint_count(), 0);
}

#[test]
fn a_dimension_that_does_not_exist_has_no_value() {
    let mut s = Sketch::new();
    let (p1, p2) = line(&mut s);
    let dim = s
        .add_dimension(DimensionTarget::Linear(p1, p2), 10.0, [0.0, 1.0], &eval)
        .expect("dimension");
    s.remove_dimension(dim);
    assert_eq!(s.dimension_value(dim, &eval), None);
    s.set_dimension_offset(dim, [1.0, 1.0]);
    s.store_dimension_value(dim, 3.0, &eval);
    assert_eq!(s.constraint_count(), 0);
}

#[test]
fn points_with_the_same_variables_move_together() {
    let mut s = Sketch::new();
    let a = s.add_point([0.0, 0.0]);
    let b = s.add_point([3.0, 0.0]);
    let c = s.add_point([9.0, 9.0]);
    s.add_constraint(Constraint::Distance(a, b, 5.0)).expect("both points exist");
    let mut data = s.to_data();
    data.points[3].0 = data.points[2].0;
    let mut s = Sketch::from_data(data).expect("the slots are good");
    assert_eq!(s.point_pos(c), s.point_pos(b));
    let result = s.solve(&ops());
    assert!(matches!(result, SolveResult::Solved { .. }));
    let (p, q) = (s.point_pos(a), s.point_pos(b));
    assert!(((p[0] - q[0]).hypot(p[1] - q[1]) - 5.0).abs() < SOLVE_TOLERANCE);
    assert_eq!(s.point_pos(c), q);
    // every variable counts as often as a point has it
    assert_eq!(s.dof(&eval, &less, &singular), 5);
}
