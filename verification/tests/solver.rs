//! The solver.
use std::collections::HashMap;

use nalgebra::DMatrix;
use rustcad::constraint::Constraint;
use rustcad::expr::Expr;
use rustcad::ids::{EntityId, PointId, VarId};
use rustcad::sketch::Sketch;
use rustcad::solver::{
    damped_step, var_index, Factors, SolveResult, SolverOps, MAX_ITERATIONS,
};

/// Double precision arithmetic on formulas.
fn eval(e: &Expr<f64>, v: &Vec<f64>) -> f64 {
    match e {
        Expr::Ratio(n, d) => *n as f64 / *d as f64,
        Expr::Value(x) => *x,
        Expr::Var(id) => v[id.index],
        Expr::Neg(a) => -eval(a, v),
        Expr::Add(a, b) => eval(a, v) + eval(b, v),
        Expr::Sub(a, b) => eval(a, v) - eval(b, v),
        Expr::Mul(a, b) => eval(a, v) * eval(b, v),
        Expr::Div(a, b) => eval(a, v) / eval(b, v),
        Expr::Sqrt(a) => eval(a, v).sqrt(),
        Expr::Abs(a) => eval(a, v).abs(),
        Expr::Max(a, b) => eval(a, v).max(eval(b, v)),
        Expr::Clamp(a) => eval(a, v).clamp(0.0, 1.0),
        Expr::IfTiny(test, small, large) => {
            if eval(test, v) <= f64::EPSILON {
                eval(small, v)
            } else {
                eval(large, v)
            }
        }
    }
}

fn less(a: &f64, b: &f64) -> bool {
    a < b
}

fn matrix(rows: &Vec<Vec<f64>>) -> DMatrix<f64> {
    DMatrix::from_fn(rows.len(), rows[0].len(), |i, j| rows[i][j])
}

fn rows_of(m: &DMatrix<f64>) -> Vec<Vec<f64>> {
    m.row_iter().map(|row| row.iter().copied().collect()).collect()
}

fn factor(rows: &Vec<Vec<f64>>) -> Option<Factors<f64>> {
    let svd = matrix(rows).svd(true, true);
    Some(Factors {
        u: rows_of(&svd.u?),
        s: svd.singular_values.iter().copied().collect(),
        v_t: rows_of(&svd.v_t?),
    })
}

fn singular(rows: &Vec<Vec<f64>>) -> Vec<f64> {
    let values = matrix(rows).svd(false, false).singular_values;
    values.iter().copied().collect()
}

type Ops = SolverOps<
    fn(&Expr<f64>, &Vec<f64>) -> f64,
    fn(&f64, &f64) -> bool,
    fn(&Vec<Vec<f64>>) -> Option<Factors<f64>>,
>;

fn ops() -> Ops {
    SolverOps { eval, less, factor }
}

fn test_sketch() -> (Sketch<f64>, [EntityId; 3], [PointId; 4]) {
    let mut s = Sketch::new();
    let a = s.add_point([0.0, 0.0]);
    let b = s.add_point([10.0, 1.0]);
    let c = s.add_point([0.0, 5.0]);
    let d = s.add_point([8.0, 9.0]);
    let center = s.add_point([3.0, -2.0]);
    let l1 = s.add_line(a, b);
    let l2 = s.add_line(c, d);
    let circle = s.add_circle(center, 2.0);
    (s, [l1, l2, circle], [a, b, c, d])
}

fn max_residual(sketch: &Sketch<f64>) -> f64 {
    let vars = sketch.var_values();
    sketch
        .lowered_equations()
        .iter()
        .map(|eq| eval(&eq.residual(), &vars).abs())
        .fold(0.0, f64::max)
}

#[test]
fn jacobian_matches_numerical_difference() {
    let (s, [l1, l2, circle], [a, b, c, _]) = test_sketch();
    let constraints = [
        Constraint::Coincident(a, c),
        Constraint::Horizontal(l1),
        Constraint::Vertical(l1),
        Constraint::Parallel(l1, l2),
        Constraint::Perpendicular(l1, l2),
        Constraint::Distance(a, b, 7.0),
        Constraint::Radius(circle, 3.0),
        Constraint::Equal(l1, l2),
    ];

    for constraint in constraints {
        let mut equations = Vec::new();
        s.lower_constraint(&constraint, &mut equations);
        assert!(!equations.is_empty(), "{constraint:?} has no equations");

        for eq in &equations {
            let vars = s.var_values();
            let mut analytic: HashMap<VarId, f64> = HashMap::new();
            for partial in eq.jacobian() {
                *analytic.entry(partial.var).or_insert(0.0) += eval(&partial.slope, &vars);
            }

            let h = 1e-6;
            for &id in s.active_vars().iter() {
                let at = |value: f64| {
                    let mut moved = vars.clone();
                    moved[id.index] = value;
                    eval(&eq.residual(), &moved)
                };
                let base = s.var(id);
                let numeric = (at(base + h) - at(base - h)) / (2.0 * h);
                let exact = analytic.get(&id).copied().unwrap_or(0.0);
                assert!(
                    (numeric - exact).abs() < 1e-5,
                    "{constraint:?}: slope along {id:?} is {exact}, measured {numeric}"
                );
            }
        }
    }
}

#[test]
fn horizontal_solves_with_least_motion() {
    let (mut s, [l1, ..], [a, b, ..]) = test_sketch();
    s.add_constraint(Constraint::Horizontal(l1)).unwrap();
    assert!(matches!(s.solve(&ops()), SolveResult::Solved { .. }));

    let (pa, pb) = (s.point_pos(a), s.point_pos(b));
    assert!((pa[1] - pb[1]).abs() < 1e-9);
    // both ends move half of the way, and neither sideways
    assert!((pa[1] - 0.5).abs() < 1e-6, "p1.y = {}", pa[1]);
    assert!((pb[1] - 0.5).abs() < 1e-6, "p2.y = {}", pb[1]);
    assert!((pa[0] - 0.0).abs() < 1e-9 && (pb[0] - 10.0).abs() < 1e-9);
}

#[test]
fn coincident_pulls_points_together() {
    let (mut s, _, [a, _, c, _]) = test_sketch();
    s.add_constraint(Constraint::Coincident(a, c)).unwrap();
    assert!(matches!(s.solve(&ops()), SolveResult::Solved { .. }));
    let (pa, pc) = (s.point_pos(a), s.point_pos(c));
    assert!((pa[0] - pc[0]).abs() < 1e-9 && (pa[1] - pc[1]).abs() < 1e-9);
}

#[test]
fn rectangle_constraints_solve_and_reduce_dof() {
    let mut s = Sketch::new();
    let bl = s.add_point([0.1, -0.2]);
    let br = s.add_point([9.7, 0.3]);
    let tr = s.add_point([10.2, 5.4]);
    let tl = s.add_point([-0.3, 4.8]);
    let bottom = s.add_line(bl, br);
    let right = s.add_line(br, tr);
    let top = s.add_line(tr, tl);
    let left = s.add_line(tl, bl);

    // eight free variables, no constraints
    assert_eq!(s.dof(&eval, &less, &singular), 8);

    s.add_constraint(Constraint::Horizontal(bottom)).unwrap();
    s.add_constraint(Constraint::Horizontal(top)).unwrap();
    s.add_constraint(Constraint::Vertical(left)).unwrap();
    s.add_constraint(Constraint::Vertical(right)).unwrap();
    s.add_constraint(Constraint::Distance(bl, br, 10.0)).unwrap();
    s.add_constraint(Constraint::Distance(bl, tl, 5.0)).unwrap();

    assert!(matches!(s.solve(&ops()), SolveResult::Solved { .. }));
    assert!(max_residual(&s) < 1e-9);
    // what is left is to move it in both directions
    assert_eq!(s.dof(&eval, &less, &singular), 2);
}

#[test]
fn contradictory_constraints_do_not_converge() {
    let (mut s, [l1, ..], [a, b, ..]) = test_sketch();
    s.add_constraint(Constraint::Horizontal(l1)).unwrap();
    s.add_constraint(Constraint::Vertical(l1)).unwrap();
    // horizontal and vertical make the length zero, not five
    s.add_constraint(Constraint::Distance(a, b, 5.0)).unwrap();
    assert!(matches!(s.solve(&ops()), SolveResult::DidNotConverge { .. }));
}

#[test]
fn drag_respects_hard_constraints() {
    let (mut s, [l1, ..], [a, b, ..]) = test_sketch();
    s.add_constraint(Constraint::Horizontal(l1)).unwrap();
    s.solve(&ops());

    s.solve_drag(a, [-3.0, 4.0], &ops());
    let (pa, pb) = (s.point_pos(a), s.point_pos(b));
    // the line stays horizontal, the dragged point follows
    assert!((pa[1] - pb[1]).abs() < 1e-6);
    assert!((pa[0] + 3.0).abs() < 1e-6 && (pa[1] - 4.0).abs() < 1e-6);
}

#[test]
fn radius_constraint_drives_circle() {
    let (mut s, [_, _, circle], _) = test_sketch();
    s.add_constraint(Constraint::Radius(circle, 3.5)).unwrap();
    assert!(matches!(s.solve(&ops()), SolveResult::Solved { .. }));
    assert!((s.circle_radius(circle).unwrap() - 3.5).abs() < 1e-9);
}

#[test]
fn deleting_entity_removes_dependent_constraints() {
    let (mut s, [l1, l2, _], _) = test_sketch();
    s.add_constraint(Constraint::Parallel(l1, l2)).unwrap();
    s.add_constraint(Constraint::Horizontal(l2)).unwrap();
    s.delete_entity(l1);
    // the first referred to the deleted line, the second stays
    assert_eq!(s.constraint_count(), 1);
}

/// A deterministic source of numbers between zero and one.
struct Noise(u64);

impl Noise {
    fn unit(&mut self) -> f64 {
        self.0 = self.0.wrapping_mul(6364136223846793005).wrapping_add(1442695040888963407);
        (self.0 >> 33) as f64 / 2f64.powi(31)
    }

    fn within(&mut self, low: f64, high: f64) -> f64 {
        low + (high - low) * self.unit()
    }
}

#[test]
fn perturbed_rectangles_converge() {
    for seed in 0..256 {
        let mut noise = Noise(seed);
        let width = noise.within(1.0, 20.0);
        let height = noise.within(1.0, 20.0);
        let origin = [noise.within(-10.0, 10.0), noise.within(-10.0, 10.0)];
        let mut s = Sketch::new();
        let corners = [
            [origin[0], origin[1]],
            [origin[0] + width, origin[1]],
            [origin[0] + width, origin[1] + height],
            [origin[0], origin[1] + height],
        ];
        let pts: Vec<PointId> = corners
            .iter()
            .map(|c| {
                let place = [c[0] + noise.within(-0.3, 0.3), c[1] + noise.within(-0.3, 0.3)];
                s.add_point(place)
            })
            .collect();
        let bottom = s.add_line(pts[0], pts[1]);
        let right = s.add_line(pts[1], pts[2]);
        let top = s.add_line(pts[2], pts[3]);
        let left = s.add_line(pts[3], pts[0]);

        s.add_constraint(Constraint::Horizontal(bottom)).unwrap();
        s.add_constraint(Constraint::Vertical(right)).unwrap();
        s.add_constraint(Constraint::Parallel(top, bottom)).unwrap();
        s.add_constraint(Constraint::Perpendicular(left, bottom)).unwrap();
        s.add_constraint(Constraint::Distance(pts[0], pts[1], width)).unwrap();
        s.add_constraint(Constraint::Equal(left, right)).unwrap();

        assert!(matches!(s.solve(&ops()), SolveResult::Solved { .. }), "seed {seed}");
        assert!(max_residual(&s) < 1e-9);
    }
}

#[test]
fn perturbed_hv_chains_converge() {
    for seed in 0..256 {
        let mut choice = Noise(seed + 1000);
        let mut noise = Noise(seed);
        let mut s = Sketch::new();
        let mut pos = [0.0, 0.0];
        let mut prev = s.add_point(pos);
        let mut lines = Vec::new();
        let steps = 2 + (choice.unit() * 4.0) as usize;
        for _ in 0..steps {
            let len = choice.within(1.0, 5.0);
            let horizontal = choice.unit() < 0.5;
            if horizontal {
                pos[0] += len;
            } else {
                pos[1] += len;
            }
            let next = s.add_point([
                pos[0] + (noise.unit() - 0.5) * 0.4,
                pos[1] + (noise.unit() - 0.5) * 0.4,
            ]);
            lines.push((s.add_line(prev, next), horizontal));
            prev = next;
        }
        for &(line, horizontal) in &lines {
            let c = if horizontal {
                Constraint::Horizontal(line)
            } else {
                Constraint::Vertical(line)
            };
            s.add_constraint(c).unwrap();
        }

        assert!(matches!(s.solve(&ops()), SolveResult::Solved { .. }), "seed {seed}");
        assert!(max_residual(&s) < 1e-9);
    }
}

#[test]
fn a_sketch_without_constraints_is_solved_at_once() {
    let (mut s, _, [a, ..]) = test_sketch();
    assert_eq!(s.solve(&ops()), SolveResult::Solved { iterations: 0 });
    assert_eq!(s.point_pos(a), [0.0, 0.0]);
}

#[test]
fn solving_keeps_what_is_drawn() {
    let (mut s, [l1, l2, _], _) = test_sketch();
    s.add_constraint(Constraint::Equal(l1, l2)).unwrap();
    let before = s.entities();
    match s.solve(&ops()) {
        SolveResult::Solved { iterations } => assert!(iterations < MAX_ITERATIONS),
        other => panic!("{other:?}"),
    }
    assert_eq!(s.entities(), before);
    assert_eq!(s.constraint_count(), 1);
}

#[test]
fn dragging_a_point_that_does_not_exist_solves() {
    let (mut s, [l1, ..], [a, b, ..]) = test_sketch();
    s.add_constraint(Constraint::Horizontal(l1)).unwrap();
    let stranger = PointId { raw: 77 };
    assert!(matches!(
        s.solve_drag(stranger, [0.0, 0.0], &ops()),
        SolveResult::Solved { .. }
    ));
    assert!((s.point_pos(a)[1] - s.point_pos(b)[1]).abs() < 1e-9);
}

#[test]
fn deleted_points_are_no_active_variables() {
    let (mut s, [l1, ..], _) = test_sketch();
    assert_eq!(s.active_vars().len(), 11);
    s.delete_entity(l1);
    assert_eq!(s.active_vars().len(), 7);
    assert_eq!(s.var_count(), 11);
}

#[test]
fn repeated_constraints_bind_once() {
    let (mut s, [l1, ..], _) = test_sketch();
    s.add_constraint(Constraint::Horizontal(l1)).unwrap();
    s.add_constraint(Constraint::Horizontal(l1)).unwrap();
    assert_eq!(s.dof(&eval, &less, &singular), 10);
}

#[test]
fn a_solved_sketch_stays_as_it_is() {
    let (mut s, [l1, l2, _], [a, b, ..]) = test_sketch();
    s.add_constraint(Constraint::Perpendicular(l1, l2)).unwrap();
    s.add_constraint(Constraint::Distance(a, b, 7.0)).unwrap();
    assert!(matches!(s.solve(&ops()), SolveResult::Solved { .. }));
    assert!(max_residual(&s) < 1e-9);
    let before = s.var_values();
    assert_eq!(s.solve(&ops()), SolveResult::Solved { iterations: 0 });
    assert_eq!(s.var_values(), before);
}

#[test]
fn a_free_point_is_dragged_to_its_target() {
    let (mut s, [l1, ..], [a, b, ..]) = test_sketch();
    s.add_constraint(Constraint::Horizontal(l1)).unwrap();
    let target = [12.5, 3.25];
    assert!(matches!(s.solve_drag(b, target, &ops()), SolveResult::Solved { .. }));
    let there = s.point_pos(b);
    assert!((there[0] - target[0]).abs() < 1e-6);
    assert!((there[1] - target[1]).abs() < 1e-6);
    assert!((there[1] - s.point_pos(a)[1]).abs() < 1e-9);
}

#[test]
fn the_step_is_damped() {
    let d = Factors { u: vec![vec![1.0], vec![0.0]], s: vec![1.0], v_t: vec![vec![0.0, 1.0]] };
    let there = damped_step(&eval, &d, &vec![4.0, 9.0], &vec![7.0, 5.0], 1.0);
    assert_eq!(there, vec![7.0, 3.0]);
    let undamped = damped_step(&eval, &d, &vec![4.0, 9.0], &vec![7.0, 5.0], 0.0);
    assert_eq!(undamped, vec![7.0, 1.0]);
}

#[test]
fn a_variable_is_found_at_its_last_place() {
    let var = |index| VarId { index };
    let index = var_index(&vec![var(4), var(2), var(4)]);
    assert_eq!(index.len(), 2);
    assert_eq!(index.get(&4), Some(&2));
    assert_eq!(index.get(&2), Some(&1));
    assert_eq!(index.get(&0), None);
}
