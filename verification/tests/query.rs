//! Questions about constraints.
use nalgebra::DMatrix;
use rustcad::constraint::Constraint;
use rustcad::dimension::DimensionTarget;
use rustcad::expr::Expr;
use rustcad::ids::{EntityId, PointId};
use rustcad::query::{kind_of, refs_of, ConstraintKind, ConstraintRef};
use rustcad::sketch::Sketch;

/// Double precision arithmetic on formulas.
fn eval(e: &Expr<f64>, v: &Vec<f64>) -> f64 {
    match e {
        Expr::Ratio(n, d) => *n as f64 / *d as f64,
        Expr::Value(x) => *x,
        Expr::Var(id) => v[id.index],
        Expr::Neg(a) => -eval(a, v),
        Expr::Add(a, b) => eval(a, v) + eval(b, v),
        Expr::Sub(a, b) => eval(a, v) - eval(b, v),
        Expr::Mul(a, b) => eval(a, v) * eval(b, v),
        Expr::Div(a, b) => eval(a, v) / eval(b, v),
        Expr::Sqrt(a) => eval(a, v).sqrt(),
        Expr::Abs(a) => eval(a, v).abs(),
        Expr::Max(a, b) => eval(a, v).max(eval(b, v)),
        Expr::Clamp(a) => eval(a, v).clamp(0.0, 1.0),
        Expr::IfTiny(test, small, large) => {
            if eval(test, v) <= f64::EPSILON {
                eval(small, v)
            } else {
                eval(large, v)
            }
        }
    }
}

fn less(a: &f64, b: &f64) -> bool {
    a < b
}

fn matrix(rows: &Vec<Vec<f64>>) -> DMatrix<f64> {
    DMatrix::from_fn(rows.len(), rows[0].len(), |i, j| rows[i][j])
}

fn singular(rows: &Vec<Vec<f64>>) -> Vec<f64> {
    let values = matrix(rows).svd(false, false).singular_values;
    values.iter().copied().collect()
}

fn rectangle() -> (Sketch<f64>, [EntityId; 4], [PointId; 4]) {
    let mut s = Sketch::new();
    let bl = s.add_point([0.0, 0.0]);
    let br = s.add_point([10.0, 0.0]);
    let tr = s.add_point([10.0, 6.0]);
    let tl = s.add_point([0.0, 6.0]);
    let bottom = s.add_line(bl, br);
    let right = s.add_line(br, tr);
    let top = s.add_line(tr, tl);
    let left = s.add_line(tl, bl);
    (s, [bottom, right, top, left], [bl, br, tr, tl])
}

#[test]
fn constraint_info_reports_kind_and_refs() {
    let (mut s, [bottom, right, ..], [bl, br, ..]) = rectangle();
    let hor = s.add_constraint(Constraint::Horizontal(bottom)).unwrap();
    let perp = s.add_constraint(Constraint::Perpendicular(bottom, right)).unwrap();
    let coin = s.add_constraint(Constraint::Coincident(bl, br)).unwrap();

    let h = s.constraint_info(hor).unwrap();
    assert_eq!(h.kind, ConstraintKind::Horizontal);
    assert_eq!(h.refs, vec![ConstraintRef::Entity(bottom)]);
    assert_eq!(h.dimension, None);

    let p = s.constraint_info(perp).unwrap();
    assert_eq!(p.kind, ConstraintKind::Perpendicular);
    assert_eq!(
        p.refs,
        vec![ConstraintRef::Entity(bottom), ConstraintRef::Entity(right)]
    );

    let c = s.constraint_info(coin).unwrap();
    assert_eq!(c.kind, ConstraintKind::Coincident);
    assert_eq!(
        c.refs,
        vec![ConstraintRef::Point(bl), ConstraintRef::Point(br)]
    );
}

#[test]
fn constraints_on_finds_by_entity_and_point() {
    let (mut s, [bottom, right, top, _left], [bl, br, ..]) = rectangle();
    let hor = s.add_constraint(Constraint::Horizontal(bottom)).unwrap();
    let perp = s
        .add_constraint(Constraint::Perpendicular(bottom, right))
        .unwrap();
    let par = s.add_constraint(Constraint::Parallel(top, bottom)).unwrap();
    let coin = s.add_constraint(Constraint::Coincident(bl, br)).unwrap();

    // three constraints refer to the bottom
    let mut on_bottom = s.constraints_on(ConstraintRef::Entity(bottom));
    on_bottom.sort();
    let mut expected = vec![hor, perp, par];
    expected.sort();
    assert_eq!(on_bottom, expected);

    // one to the right side
    assert_eq!(s.constraints_on(ConstraintRef::Entity(right)), vec![perp]);
    // one to the first corner
    assert_eq!(s.constraints_on(ConstraintRef::Point(bl)), vec![coin]);
}

#[test]
fn constraint_info_flags_driving_dimension() {
    let (mut s, _, [bl, br, ..]) = rectangle();
    let dim = s
        .add_dimension(DimensionTarget::Linear(bl, br), 10.0, [0.0, -2.0], &eval)
        .expect("dimension");
    let driver = s.dimension(dim).unwrap().constraint;

    let info = s.constraint_info(driver).unwrap();
    assert_eq!(info.kind, ConstraintKind::Distance);
    assert_eq!(info.dimension, Some(dim));
}

#[test]
fn deleting_perpendicular_frees_one_dof() {
    let (mut s, [bottom, right, ..], _) = rectangle();
    let perp = s
        .add_constraint(Constraint::Perpendicular(bottom, right))
        .unwrap();
    let dof_with = s.dof(&eval, &less, &singular);
    s.delete_constraint(perp);
    assert_eq!(s.dof(&eval, &less, &singular), dof_with + 1);
    // there is nothing to tell of it any more
    assert!(s.constraint_info(perp).is_none());
}

#[test]
fn query_deleting_driving_constraint_removes_dimension() {
    let (mut s, _, [bl, br, ..]) = rectangle();
    let dim = s
        .add_dimension(DimensionTarget::Linear(bl, br), 10.0, [0.0, -2.0], &eval)
        .expect("dimension");
    let driver = s.dimension(dim).unwrap().constraint;
    assert_eq!(s.dimension_count(), 1);

    s.delete_constraint(driver);
    assert_eq!(s.dimension_count(), 0);
    assert!(s.dimension(dim).is_none());
}

#[test]
fn every_kind_of_constraint_has_its_references() {
    let (_, [bottom, right, ..], [bl, br, ..]) = rectangle();
    let cases: Vec<(Constraint<f64>, ConstraintKind, usize)> = vec![
        (Constraint::Coincident(bl, br), ConstraintKind::Coincident, 2),
        (Constraint::Horizontal(bottom), ConstraintKind::Horizontal, 1),
        (Constraint::Vertical(bottom), ConstraintKind::Vertical, 1),
        (Constraint::Parallel(bottom, right), ConstraintKind::Parallel, 2),
        (Constraint::Perpendicular(bottom, right), ConstraintKind::Perpendicular, 2),
        (Constraint::Distance(bl, br, 1.0), ConstraintKind::Distance, 2),
        (Constraint::Radius(bottom, 1.0), ConstraintKind::Radius, 1),
        (Constraint::Equal(bottom, right), ConstraintKind::Equal, 2),
    ];
    for (c, kind, refs) in cases {
        assert_eq!(kind_of(&c), kind);
        assert_eq!(refs_of(&c).len(), refs);
    }
}
