//! Points, entities, constraints and measuring.
use rustcad::arith::{first_least, order_key, Order};
use rustcad::constraint::{Constraint, ConstraintError};
use rustcad::expr::Expr;
use rustcad::ids::{EntityId, PointId};
use rustcad::sketch::{Sketch, SketchEntity};

/// Double precision arithmetic on formulas.
fn eval(e: &Expr<f64>, v: &Vec<f64>) -> f64 {
    match e {
        Expr::Ratio(n, d) => *n as f64 / *d as f64,
        Expr::Value(x) => *x,
        Expr::Var(id) => v[id.index],
        Expr::Neg(a) => -eval(a, v),
        Expr::Add(a, b) => eval(a, v) + eval(b, v),
        Expr::Sub(a, b) => eval(a, v) - eval(b, v),
        Expr::Mul(a, b) => eval(a, v) * eval(b, v),
        Expr::Div(a, b) => eval(a, v) / eval(b, v),
        Expr::Sqrt(a) => eval(a, v).sqrt(),
        Expr::Abs(a) => eval(a, v).abs(),
        Expr::Max(a, b) => eval(a, v).max(eval(b, v)),
        Expr::Clamp(a) => eval(a, v).clamp(0.0, 1.0),
        Expr::IfTiny(test, small, large) => {
            if eval(test, v) <= f64::EPSILON {
                eval(small, v)
            } else {
                eval(large, v)
            }
        }
    }
}

/// The place of a distance in the total order, if it is within the limit.
fn at_most(a: &f64, b: &f64) -> bool {
    a <= b
}

fn key(distance: &f64) -> i64 {
    order_key(distance.to_bits())
}

fn order() -> Order<fn(&f64, &f64) -> bool, fn(&f64) -> i64> {
    Order { at_most, key }
}

fn line_sketch() -> (Sketch<f64>, PointId, PointId, EntityId) {
    let mut s = Sketch::new();
    let p1 = s.add_point([0.0, 0.0]);
    let p2 = s.add_point([10.0, 0.0]);
    let line = s.add_line(p1, p2);
    (s, p1, p2, line)
}

#[test]
fn points_live_in_flat_var_vector() {
    let (s, p1, p2, _) = line_sketch();
    assert_eq!(s.var_count(), 4);
    assert_eq!(s.point_pos(p1), [0.0, 0.0]);
    assert_eq!(s.point_pos(p2), [10.0, 0.0]);
}

#[test]
fn snapping_picks_nearest_endpoint_within_radius() {
    let (s, p1, _, _) = line_sketch();
    let hit = s.nearest_point([0.3, 0.4], 1.0, &eval, &order());
    assert_eq!(hit, Some((p1, [0.0, 0.0])));
    // outside of the radius nothing snaps
    assert_eq!(s.nearest_point([3.0, 4.0], 1.0, &eval, &order()), None);
}

#[test]
fn hit_test_finds_line_and_circle() {
    let (mut s, _, _, line) = line_sketch();
    let c = s.add_point([5.0, 5.0]);
    let circle = s.add_circle(c, 2.0);

    // near the middle of the segment
    assert_eq!(s.hit_test([5.0, 0.2], 0.5, &eval, &order()), Some(line));
    // on the ring
    assert_eq!(s.hit_test([5.0, 7.1], 0.5, &eval, &order()), Some(circle));
    // inside the circle, far from the ring
    assert_eq!(s.hit_test([5.0, 5.0], 0.5, &eval, &order()), None);
}

#[test]
fn hit_test_prefers_closest_entity() {
    let mut s = Sketch::new();
    let a = s.add_point([0.0, 0.0]);
    let b = s.add_point([10.0, 0.0]);
    let c = s.add_point([0.0, 1.0]);
    let d = s.add_point([10.0, 1.0]);
    let near = s.add_line(a, b);
    let _far = s.add_line(c, d);
    assert_eq!(s.hit_test([5.0, 0.3], 2.0, &eval, &order()), Some(near));
}

#[test]
fn delete_removes_orphaned_points_but_keeps_shared() {
    let (mut s, p1, p2, line1) = line_sketch();
    let p3 = s.add_point([10.0, 5.0]);
    let _line2 = s.add_line(p2, p3);

    s.delete_entity(line1);
    // p1 was an end of line1 only; p2 is an end of line2 too
    assert!(s.point(p1).is_none());
    assert!(s.point(p2).is_some());
    assert_eq!(s.entity_count(), 1);
}

#[test]
fn circle_radius_roundtrip() {
    let mut s: Sketch<f64> = Sketch::new();
    let c = s.add_point([1.0, 2.0]);
    let circle = s.add_circle(c, 3.5);
    assert_eq!(s.circle_radius(circle), Some(3.5));
    s.delete_entity(circle);
    assert_eq!(s.circle_radius(circle), None);
    assert_eq!(s.entity_count(), 0);
}

#[test]
fn hit_test_beyond_the_ends_measures_to_the_end() {
    let (s, _, _, line) = line_sketch();
    // (13, 4) is 5 away from the end (10, 0)
    assert_eq!(s.hit_test([13.0, 4.0], 5.0, &eval, &order()), Some(line));
    assert_eq!(s.hit_test([13.0, 4.0], 4.9, &eval, &order()), None);
}

#[test]
fn hit_test_of_a_line_without_length_measures_to_its_point() {
    let mut s = Sketch::new();
    let a = s.add_point([1.0, 1.0]);
    let b = s.add_point([1.0, 1.0]);
    let line = s.add_line(a, b);
    assert_eq!(s.hit_test([4.0, 5.0], 5.0, &eval, &order()), Some(line));
    assert_eq!(s.hit_test([4.0, 5.0], 4.9, &eval, &order()), None);
}

#[test]
fn of_equally_near_points_the_first_is_taken() {
    let mut s = Sketch::new();
    let a = s.add_point([-1.0, 0.0]);
    let _b = s.add_point([1.0, 0.0]);
    assert_eq!(s.nearest_point([0.0, 0.0], 1.0, &eval, &order()), Some((a, [-1.0, 0.0])));
}

#[test]
fn constraints_are_checked() {
    let (mut s, p1, p2, line) = line_sketch();
    let c = s.add_point([5.0, 5.0]);
    let circle = s.add_circle(c, 2.0);
    assert_eq!(
        s.add_constraint(Constraint::Horizontal(circle)),
        Err(ConstraintError::NotALine)
    );
    assert_eq!(
        s.add_constraint(Constraint::Radius(line, 1.0)),
        Err(ConstraintError::NotACircle)
    );
    let stranger = PointId { raw: 77 };
    assert_eq!(
        s.add_constraint(Constraint::Coincident(p1, stranger)),
        Err(ConstraintError::UnknownRef)
    );
    assert_eq!(s.constraint_count(), 0);
    let id = s.add_constraint(Constraint::Distance(p1, p2, 10.0)).unwrap();
    assert_eq!(s.constraint(id), Some(Constraint::Distance(p1, p2, 10.0)));
    assert_eq!(s.constraint_valid(&Constraint::Horizontal(line)), Ok(()));
}

#[test]
fn deleted_keys_are_not_given_out_again() {
    let (mut s, _, _, line) = line_sketch();
    s.delete_entity(line);
    let a = s.add_point([0.0, 0.0]);
    let b = s.add_point([1.0, 0.0]);
    let again = s.add_line(a, b);
    assert_ne!(again, line);
    assert_eq!(s.entity(line), None);
    assert_eq!(s.entity(again), Some(SketchEntity::Line { p1: a, p2: b }));
}

#[test]
fn moving_a_point_sets_its_variables() {
    let (mut s, p1, p2, _) = line_sketch();
    s.set_point_pos(p1, [2.0, 3.0]);
    assert_eq!(s.point_pos(p1), [2.0, 3.0]);
    assert_eq!(s.point_pos(p2), [10.0, 0.0]);
    let x = s.point(p1).unwrap().x;
    assert_eq!(s.var(x), 2.0);
    s.set_var(x, 4.0);
    assert_eq!(s.point_pos(p1), [4.0, 3.0]);
    assert_eq!(s.var_values(), vec![4.0, 3.0, 10.0, 0.0]);
}

#[test]
fn lists_are_in_order_of_creation() {
    let (mut s, p1, p2, line) = line_sketch();
    let c = s.add_point([5.0, 5.0]);
    let circle = s.add_circle(c, 2.0);
    assert_eq!(
        s.points(),
        vec![(p1, [0.0, 0.0]), (p2, [10.0, 0.0]), (c, [5.0, 5.0])]
    );
    let ids: Vec<EntityId> = s.entities().into_iter().map(|(id, _)| id).collect();
    assert_eq!(ids, vec![line, circle]);
}

#[test]
fn a_copy_goes_its_own_way() {
    let (s, p1, _, line) = line_sketch();
    let mut copy = s.duplicate();
    assert_eq!(copy.points(), s.points());
    assert_eq!(copy.entities(), s.entities());
    copy.delete_entity(line);
    copy.add_point([1.0, 1.0]);
    assert_eq!(s.entity_count(), 1);
    assert_eq!(s.point_pos(p1), [0.0, 0.0]);
}

#[test]
fn double_precision_numbers_are_ordered_by_their_bits() {
    let numbers = [f64::NEG_INFINITY, -2.5, -1.0, -0.0, 0.0, 1e-300, 1.0, 2.5, f64::INFINITY];
    for pair in numbers.windows(2) {
        assert!(order_key(pair[0].to_bits()) < order_key(pair[1].to_bits()));
    }
    assert_eq!(order_key(0.0f64.to_bits()), 0);
    assert_eq!(order_key((-0.0f64).to_bits()), -1);
}

#[test]
fn the_first_least_rank_wins() {
    assert_eq!(first_least(&vec![None, Some(3), Some(1), Some(1)]), Some(2));
    assert_eq!(first_least(&vec![None, None]), None);
    assert_eq!(first_least(&vec![]), None);
}
