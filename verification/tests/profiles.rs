//! Closed profiles.
use nalgebra::DMatrix;
use rustcad::constraint::Constraint;
use rustcad::expr::Expr;
use rustcad::ids::PointId;
use rustcad::profiles::{signed_area, Profile};
use rustcad::sketch::Sketch;
use rustcad::solver::{Factors, SolverOps};
use rustcad::union_find::UnionFind;

/// Double precision arithmetic on formulas.
fn eval(e: &Expr<f64>, v: &Vec<f64>) -> f64 {
    match e {
        Expr::Ratio(n, d) => *n as f64 / *d as f64,
        Expr::Value(x) => *x,
        Expr::Var(id) => v[id.index],
        Expr::Neg(a) => -eval(a, v),
        Expr::Add(a, b) => eval(a, v) + eval(b, v),
        Expr::Sub(a, b) => eval(a, v) - eval(b, v),
        Expr::Mul(a, b) => eval(a, v) * eval(b, v),
        Expr::Div(a, b) => eval(a, v) / eval(b, v),
        Expr::Sqrt(a) => eval(a, v).sqrt(),
        Expr::Abs(a) => eval(a, v).abs(),
        Expr::Max(a, b) => eval(a, v).max(eval(b, v)),
        Expr::Clamp(a) => eval(a, v).clamp(0.0, 1.0),
        Expr::IfTiny(test, small, large) => {
            if eval(test, v) <= f64::EPSILON {
                eval(small, v)
            } else {
                eval(large, v)
            }
        }
    }
}

fn less(a: &f64, b: &f64) -> bool {
    a < b
}

fn matrix(rows: &Vec<Vec<f64>>) -> DMatrix<f64> {
    DMatrix::from_fn(rows.len(), rows[0].len(), |i, j| rows[i][j])
}

fn rows_of(m: &DMatrix<f64>) -> Vec<Vec<f64>> {
    m.row_iter().map(|row| row.iter().copied().collect()).collect()
}

fn factor(rows: &Vec<Vec<f64>>) -> Option<Factors<f64>> {
    let svd = matrix(rows).svd(true, true);
    Some(Factors {
        u: rows_of(&svd.u?),
        s: svd.singular_values.iter().copied().collect(),
        v_t: rows_of(&svd.v_t?),
    })
}

type Ops = SolverOps<
    fn(&Expr<f64>, &Vec<f64>) -> f64,
    fn(&f64, &f64) -> bool,
    fn(&Vec<Vec<f64>>) -> Option<Factors<f64>>,
>;

fn ops() -> Ops {
    SolverOps { eval, less, factor }
}

fn area(points: &Vec<[f64; 2]>) -> f64 {
    eval(&signed_area(points), &Vec::new())
}

fn square(sketch: &mut Sketch<f64>) -> Vec<PointId> {
    let pts = vec![
        sketch.add_point([0.0, 0.0]),
        sketch.add_point([10.0, 0.0]),
        sketch.add_point([10.0, 10.0]),
        sketch.add_point([0.0, 10.0]),
    ];
    for i in 0..4 {
        sketch.add_line(pts[i], pts[(i + 1) % 4]);
    }
    pts
}

#[test]
fn chained_square_is_one_ccw_polygon() {
    let mut s = Sketch::new();
    square(&mut s);
    let profiles = s.find_profiles(&eval, &less);
    assert_eq!(profiles.len(), 1);
    let Profile::Polygon(points) = &profiles[0] else {
        panic!("polygon expected");
    };
    assert_eq!(points.len(), 4);
    assert!(area(points) > 0.0, "counterclockwise expected");
}

#[test]
fn clockwise_drawing_is_normalized_to_ccw() {
    let mut s = Sketch::new();
    let pts = [
        s.add_point([0.0, 0.0]),
        s.add_point([0.0, 10.0]),
        s.add_point([10.0, 10.0]),
        s.add_point([10.0, 0.0]),
    ];
    for i in 0..4 {
        s.add_line(pts[i], pts[(i + 1) % 4]);
    }
    let profiles = s.find_profiles(&eval, &less);
    let Profile::Polygon(points) = &profiles[0] else {
        panic!("polygon expected");
    };
    assert!(area(points) > 0.0);
}

#[test]
fn open_chain_and_branch_are_no_profile() {
    let mut s = Sketch::new();
    let a = s.add_point([0.0, 0.0]);
    let b = s.add_point([5.0, 0.0]);
    let c = s.add_point([5.0, 5.0]);
    s.add_line(a, b);
    s.add_line(b, c);
    assert!(s.find_profiles(&eval, &less).is_empty());

    // a branch at the closed square: no profile either
    let mut s2 = Sketch::new();
    let pts = square(&mut s2);
    let extra = s2.add_point([20.0, 0.0]);
    s2.add_line(pts[1], extra);
    assert!(s2.find_profiles(&eval, &less).is_empty());
}

#[test]
fn circle_is_a_profile() {
    let mut s = Sketch::new();
    let c = s.add_point([3.0, 4.0]);
    s.add_circle(c, 2.5);
    assert_eq!(
        s.find_profiles(&eval, &less),
        vec![Profile::Circle {
            center: [3.0, 4.0],
            radius: 2.5
        }]
    );
}

#[test]
fn coincident_constraint_closes_loop() {
    // a triangle of three loose lines whose ends coincide by constraints
    let mut s = Sketch::new();
    let a1 = s.add_point([0.0, 0.0]);
    let b1 = s.add_point([10.0, 0.0]);
    let b2 = s.add_point([10.0, 0.1]);
    let c1 = s.add_point([5.0, 8.0]);
    let c2 = s.add_point([5.1, 8.0]);
    let a2 = s.add_point([0.1, 0.0]);
    s.add_line(a1, b1);
    s.add_line(b2, c1);
    s.add_line(c2, a2);
    s.add_constraint(Constraint::Coincident(b1, b2)).unwrap();
    s.add_constraint(Constraint::Coincident(c1, c2)).unwrap();
    s.add_constraint(Constraint::Coincident(a2, a1)).unwrap();
    s.solve(&ops());

    let profiles = s.find_profiles(&eval, &less);
    assert_eq!(profiles.len(), 1);
    let Profile::Polygon(points) = &profiles[0] else {
        panic!("polygon expected");
    };
    assert_eq!(points.len(), 3);
}

#[test]
fn the_area_of_a_polygon_changes_sign_with_its_direction() {
    let forth = vec![[0.0, 0.0], [4.0, 0.0], [4.0, 3.0]];
    let back = vec![[4.0, 3.0], [4.0, 0.0], [0.0, 0.0]];
    assert_eq!(area(&forth), 6.0);
    assert_eq!(area(&back), -6.0);
}

#[test]
fn circles_come_before_polygons() {
    let mut s = Sketch::new();
    square(&mut s);
    let c = s.add_point([30.0, 4.0]);
    s.add_circle(c, 2.5);
    let profiles = s.find_profiles(&eval, &less);
    assert_eq!(profiles.len(), 2);
    assert!(matches!(profiles[0], Profile::Circle { .. }));
    assert_eq!(
        profiles[1],
        Profile::Polygon(vec![[0.0, 0.0], [10.0, 0.0], [10.0, 10.0], [0.0, 10.0]])
    );
}

#[test]
fn every_circle_is_a_profile() {
    let mut s = Sketch::new();
    let c = s.add_point([3.0, 4.0]);
    s.add_circle(c, 0.0);
    assert_eq!(
        s.find_profiles(&eval, &less),
        vec![Profile::Circle { center: [3.0, 4.0], radius: 0.0 }]
    );
}

#[test]
fn two_separate_squares_are_two_profiles() {
    let mut s = Sketch::new();
    square(&mut s);
    let far = [
        s.add_point([20.0, 0.0]),
        s.add_point([21.0, 0.0]),
        s.add_point([21.0, 1.0]),
    ];
    for i in 0..3 {
        s.add_line(far[i], far[(i + 1) % 3]);
    }
    let profiles = s.find_profiles(&eval, &less);
    assert_eq!(profiles.len(), 2);
}

#[test]
fn merged_points_have_one_representative() {
    let mut groups = UnionFind::new();
    groups.union(1, 2);
    groups.union(3, 4);
    assert_eq!(groups.find(1), groups.find(2));
    assert_ne!(groups.find(1), groups.find(3));
    groups.union(2, 3);
    assert_eq!(groups.find(1), groups.find(4));
    assert_eq!(groups.find(9), 9);
}
