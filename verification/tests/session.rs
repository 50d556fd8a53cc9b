//! The editing of a sketch.
use nalgebra::DMatrix;
use rustcad::arith::{order_key, Order};
use rustcad::constraint::Constraint;
use rustcad::dimension::DimensionTarget;
use rustcad::document::SketchPlane;
use rustcad::drawing::{Emphasis, Mark, entity_marks};
use rustcad::expr::Expr;
use rustcad::ids::{DimensionId, PointId};
use rustcad::input::{Hover, ViewportInput};
use rustcad::session::{DimLayout, Selected, SketchAction, SketchSession, SketchTool, ToolKind};
use rustcad::sketch::SketchEntity;
use rustcad::solver::{Factors, SolveResult, SolverOps};

/// Double precision arithmetic on formulas.
fn eval(e: &Expr<f64>, v: &Vec<f64>) -> f64 {
    match e {
        Expr::Ratio(n, d) => *n as f64 / *d as f64,
        Expr::Value(x) => *x,
        Expr::Var(id) => v[id.index],
        Expr::Neg(a) => -eval(a, v),
        Expr::Add(a, b) => eval(a, v) + eval(b, v),
        Expr::Sub(a, b) => eval(a, v) - eval(b, v),
        Expr::Mul(a, b) => eval(a, v) * eval(b, v),
        Expr::Div(a, b) => eval(a, v) / eval(b, v),
        Expr::Sqrt(a) => eval(a, v).sqrt(),
        Expr::Abs(a) => eval(a, v).abs(),
        Expr::Max(a, b) => eval(a, v).max(eval(b, v)),
        Expr::Clamp(a) => eval(a, v).clamp(0.0, 1.0),
        Expr::IfTiny(test, small, large) => {
            if eval(test, v) <= f64::EPSILON {
                eval(small, v)
            } else {
                eval(large, v)
            }
        }
    }
}

fn less(a: &f64, b: &f64) -> bool {
    a < b
}

/// The place of a distance in the total order, if it is within the limit.
fn at_most(a: &f64, b: &f64) -> bool {
    a <= b
}

fn key(distance: &f64) -> i64 {
    order_key(distance.to_bits())
}

fn order() -> Order<fn(&f64, &f64) -> bool, fn(&f64) -> i64> {
    Order { at_most, key }
}

fn matrix(rows: &Vec<Vec<f64>>) -> DMatrix<f64> {
    DMatrix::from_fn(rows.len(), rows[0].len(), |i, j| rows[i][j])
}

fn rows_of(m: &DMatrix<f64>) -> Vec<Vec<f64>> {
    m.row_iter().map(|row| row.iter().copied().collect()).collect()
}

fn factor(rows: &Vec<Vec<f64>>) -> Option<Factors<f64>> {
    let svd = matrix(rows).svd(true, true);
    Some(Factors {
        u: rows_of(&svd.u?),
        s: svd.singular_values.iter().copied().collect(),
        v_t: rows_of(&svd.v_t?),
    })
}

type Ops = SolverOps<
    fn(&Expr<f64>, &Vec<f64>) -> f64,
    fn(&f64, &f64) -> bool,
    fn(&Vec<Vec<f64>>) -> Option<Factors<f64>>,
>;

fn ops() -> Ops {
    SolverOps { eval, less, factor }
}

fn format_dimension(value: f64) -> String {
    format!("{value:.2}")
}

/// A plane seen in a view of 800 by 600 pixels.
struct PlaneMap {
    per_px: f32,
}

impl PlaneMap {
    fn new() -> Self {
        PlaneMap { per_px: 2.0 * 9.0 * (45.0f32.to_radians() * 0.5).tan() / 600.0 }
    }

    fn to_screen(&self, p: [f64; 2]) -> [f32; 2] {
        [400.0 + p[0] as f32 / self.per_px, 300.0 - p[1] as f32 / self.per_px]
    }
}

fn to_segment(p: [f32; 2], a: [f32; 2], b: [f32; 2]) -> f32 {
    let ab = [b[0] - a[0], b[1] - a[1]];
    let ap = [p[0] - a[0], p[1] - a[1]];
    let len = ab[0] * ab[0] + ab[1] * ab[1];
    let t = if len <= f32::EPSILON {
        0.0
    } else {
        ((ap[0] * ab[0] + ap[1] * ab[1]) / len).clamp(0.0, 1.0)
    };
    (ap[0] - t * ab[0]).hypot(ap[1] - t * ab[1])
}

/// The label of a dimension, its place and its lines on the screen.
fn drawn(map: &PlaneMap, layout: &DimLayout<f64>) -> (String, [f32; 2], Vec<[[f32; 2]; 2]>) {
    match *layout {
        DimLayout::Linear { a, b, da, db, value } => {
            let (sa, sb) = (map.to_screen(a), map.to_screen(b));
            let (sda, sdb) = (map.to_screen(da), map.to_screen(db));
            let way = [sdb[0] - sda[0], sdb[1] - sda[1]];
            let len = way[0].hypot(way[1]);
            let mid = [sda[0] + way[0] * 0.5, sda[1] + way[1] * 0.5];
            let beside = 13.0 * 0.5 + 3.0;
            let label = [mid[0] - way[1] / len * beside, mid[1] + way[0] / len * beside];
            let text = format!("{}{}", layout.prefix(), format_dimension(value));
            (text, label, vec![[sa, sda], [sb, sdb], [sda, sdb]])
        }
        DimLayout::Round { edge, label, value, .. } => {
            let text = format!("{}{}", layout.prefix(), format_dimension(value));
            let place = map.to_screen(label);
            (text, place, vec![[map.to_screen(edge), place]])
        }
    }
}

/// The dimension under the cursor.
fn dimension_at(session: &SketchSession<f64>, map: &PlaneMap, cursor: [f32; 2]) -> Option<DimensionId> {
    let near = |layout: &DimLayout<f64>| {
        let (text, label, lines) = drawn(map, layout);
        let half = [text.chars().count() as f32 * 3.8 + 4.0, 13.0 * 0.7];
        let inside = (cursor[0] - label[0]).abs() <= half[0] && (cursor[1] - label[1]).abs() <= half[1];
        let mut d = if inside { 0.0 } else { f32::INFINITY };
        for line in lines {
            d = d.min(to_segment(cursor, line[0], line[1]));
        }
        d as f64
    };
    session.dimension_at(6.0, &eval, &less, &near, &order())
}

fn linear_session() -> (SketchSession<f64>, DimensionId) {
    let mut session = SketchSession::start(SketchPlane::XY);
    let p1 = session.sketch.add_point([0.0, 0.0]);
    let p2 = session.sketch.add_point([10.0, 0.0]);
    session.sketch.add_line(p1, p2);
    let dim = session
        .sketch
        .add_dimension(DimensionTarget::Linear(p1, p2), 10.0, [0.0, -2.0], &eval)
        .expect("dimension");
    (session, dim)
}

#[test]
fn linear_reference_is_segment_midpoint() {
    let (session, dim) = linear_session();
    assert_eq!(session.dim_reference(dim, &eval), Some([5.0, 0.0]));
}

#[test]
fn radius_reference_is_circle_center() {
    let mut session = SketchSession::start(SketchPlane::XY);
    let c = session.sketch.add_point([2.0, 3.0]);
    let circle = session.sketch.add_circle(c, 1.0);
    let dim = session
        .sketch
        .add_dimension(DimensionTarget::Radius(circle), 1.0, [1.0, 1.0], &eval)
        .expect("dimension");
    assert_eq!(session.dim_reference(dim, &eval), Some([2.0, 3.0]));
}

#[test]
fn label_offset_change_leaves_geometry_untouched() {
    let (mut session, dim) = linear_session();
    let before: Vec<[f64; 2]> = session.sketch.points().into_iter().map(|(_, p)| p).collect();
    // a label is moved relative to its reference
    let reference = session.dim_reference(dim, &eval).unwrap();
    let target = [7.0, 9.0];
    session.sketch.set_dimension_offset(
        dim,
        [target[0] - reference[0], target[1] - reference[1]],
    );
    let after: Vec<[f64; 2]> = session.sketch.points().into_iter().map(|(_, p)| p).collect();
    assert_eq!(before, after);
    assert_eq!(session.sketch.dimension(dim).unwrap().offset, [2.0, 9.0]);
}

#[test]
fn hit_test_finds_dimension_under_label() {
    let (session, dim) = linear_session();
    let map = PlaneMap::new();
    let layout = session.dim_layout(dim, &eval, &less).expect("geometry");
    let (_, label, _) = drawn(&map, &layout);
    assert_eq!(dimension_at(&session, &map, label), Some(dim));
    // a place far away hits nothing
    assert_eq!(dimension_at(&session, &map, [5.0, 5.0]), None);
}

#[test]
fn diameter_label_shows_doubled_value() {
    let mut session = SketchSession::start(SketchPlane::XY);
    let c = session.sketch.add_point([0.0, 0.0]);
    let circle = session.sketch.add_circle(c, 2.0);
    let dim = session
        .sketch
        .add_dimension(DimensionTarget::Diameter(circle), 4.0, [1.5, 1.5], &eval)
        .expect("dimension");
    let map = PlaneMap::new();
    let layout = session.dim_layout(dim, &eval, &less).expect("geometry");
    let (text, _, _) = drawn(&map, &layout);
    assert_eq!(text, "⌀4.00");
}

fn click(session: &mut SketchSession<f64>, at: [f64; 2]) {
    let snap = session.snap(Some(at), 0.1, &eval, &order());
    session.on_click(at, snap, None, 0.1, false, &eval, &less, &order());
}

fn shift_click(session: &mut SketchSession<f64>, at: [f64; 2]) {
    session.on_click(at, None, None, 0.1, true, &eval, &less, &order());
}

#[test]
fn lines_are_drawn_in_a_chain() {
    let mut session: SketchSession<f64> = SketchSession::start(SketchPlane::XY);
    session.set_tool(ToolKind::Line);
    click(&mut session, [0.0, 0.0]);
    assert_eq!(session.sketch.entity_count(), 0);
    assert!(session.tool.has_pending());
    click(&mut session, [4.0, 0.0]);
    click(&mut session, [4.0, 3.0]);
    click(&mut session, [0.05, 0.0]);
    assert_eq!(session.sketch.entity_count(), 3);
    // the last click snapped to the first point
    assert_eq!(session.sketch.points().len(), 3);
    assert_eq!(session.sketch.find_profiles(&eval, &less).len(), 1);
    // a click at the same place draws nothing
    click(&mut session, [0.0, 0.0]);
    assert_eq!(session.sketch.entity_count(), 3);
    session.on_escape();
    assert!(!session.tool.has_pending());
    assert_eq!(session.tool.kind(), ToolKind::Line);
    session.on_escape();
    assert_eq!(session.tool.kind(), ToolKind::Select);
}

#[test]
fn circles_are_drawn_from_their_centre() {
    let mut session: SketchSession<f64> = SketchSession::start(SketchPlane::XY);
    session.set_tool(ToolKind::Circle);
    click(&mut session, [1.0, 1.0]);
    click(&mut session, [1.0, 1.0]);
    assert_eq!(session.sketch.entity_count(), 0);
    click(&mut session, [4.0, 5.0]);
    let (id, entity) = session.sketch.entities()[0];
    assert!(matches!(entity, SketchEntity::Circle { .. }));
    assert_eq!(session.sketch.circle_radius(id), Some(5.0));
    assert!(!session.tool.has_pending());
}

#[test]
fn shift_extends_the_selection() {
    let (mut session, _) = linear_session();
    let points: Vec<PointId> = session.sketch.points().into_iter().map(|(id, _)| id).collect();
    let (line, _) = session.sketch.entities()[0];
    click(&mut session, [0.0, 0.0]);
    assert_eq!(session.selection, vec![Selected::Point(points[0])]);
    shift_click(&mut session, [10.0, 0.0]);
    assert_eq!(
        session.selection,
        vec![Selected::Point(points[0]), Selected::Point(points[1])]
    );
    shift_click(&mut session, [0.0, 0.0]);
    assert_eq!(session.selection, vec![Selected::Point(points[1])]);
    shift_click(&mut session, [50.0, 50.0]);
    assert_eq!(session.selection.len(), 1);
    click(&mut session, [5.0, 0.0]);
    assert_eq!(session.selection, vec![Selected::Entity(line)]);
    click(&mut session, [50.0, 50.0]);
    assert!(session.selection.is_empty());
}

#[test]
fn points_come_before_dimensions_and_these_before_entities() {
    let (mut session, dim) = linear_session();
    session.on_click([5.0, 0.0], None, Some(dim), 0.1, false, &eval, &less, &order());
    assert_eq!(session.selection, vec![Selected::Dimension(dim)]);
    let (p1, _) = session.sketch.points()[0];
    session.on_click([0.0, 0.0], None, Some(dim), 0.1, false, &eval, &less, &order());
    assert_eq!(session.selection, vec![Selected::Point(p1)]);
}

fn labels(session: &SketchSession<f64>) -> Vec<&'static str> {
    session.available_actions(&eval).iter().map(|item| item.label).collect()
}

#[test]
fn actions_depend_on_the_selection() {
    let mut session: SketchSession<f64> = SketchSession::start(SketchPlane::XY);
    let a = session.sketch.add_point([0.0, 0.0]);
    let b = session.sketch.add_point([3.0, 4.0]);
    let l1 = session.sketch.add_line(a, b);
    let l2 = session.sketch.add_line(b, a);
    let circle = session.sketch.add_circle(a, 2.0);
    assert!(labels(&session).is_empty());
    session.selection = vec![Selected::Entity(l1)];
    assert_eq!(labels(&session), ["Horizontal", "Vertikal"]);
    session.selection = vec![Selected::Entity(circle)];
    assert_eq!(labels(&session), ["⌀ bemaßen", "R bemaßen"]);
    assert_eq!(
        session.available_actions(&eval)[0].action,
        SketchAction::Dimension(DimensionTarget::Diameter(circle), 4.0)
    );
    session.selection = vec![Selected::Entity(l1), Selected::Entity(l2)];
    assert_eq!(labels(&session), ["Parallel", "Senkrecht", "Gleich lang"]);
    session.selection = vec![Selected::Point(a), Selected::Point(b)];
    assert_eq!(labels(&session), ["Koinzident", "Abstand bemaßen"]);
    assert_eq!(
        session.available_actions(&eval)[1].action,
        SketchAction::Dimension(DimensionTarget::Linear(a, b), 5.0)
    );
    session.selection = vec![Selected::Entity(l1), Selected::Entity(circle)];
    assert!(labels(&session).is_empty());
}

#[test]
fn an_action_solves_and_clears_the_selection() {
    let mut session: SketchSession<f64> = SketchSession::start(SketchPlane::XY);
    let a = session.sketch.add_point([0.0, 0.0]);
    let b = session.sketch.add_point([10.0, 1.0]);
    let line = session.sketch.add_line(a, b);
    session.selection = vec![Selected::Entity(line)];
    session.apply_action(SketchAction::Constraint(Constraint::Horizontal(line)), &ops());
    assert!(matches!(session.last_solve, Some(SolveResult::Solved { .. })));
    assert!(session.selection.is_empty());
    assert!((session.sketch.point_pos(a)[1] - session.sketch.point_pos(b)[1]).abs() < 1e-9);

    // an action that is refused changes nothing
    session.selection = vec![Selected::Entity(line)];
    session.apply_action(SketchAction::Constraint(Constraint::Radius(line, 1.0)), &ops());
    assert_eq!(session.selection.len(), 1);
    assert_eq!(session.sketch.constraint_count(), 1);
}

#[test]
fn a_new_dimension_stands_beside_what_it_measures() {
    let mut session: SketchSession<f64> = SketchSession::start(SketchPlane::XY);
    let a = session.sketch.add_point([0.0, 0.0]);
    let b = session.sketch.add_point([10.0, 0.0]);
    let circle = session.sketch.add_circle(a, 1.0);
    let linear = SketchAction::Dimension(DimensionTarget::Linear(a, b), 10.0);
    session.apply_action(linear, &ops());
    let round = SketchAction::Dimension(DimensionTarget::Radius(circle), 1.0);
    session.apply_action(round, &ops());
    let dims = session.sketch.dimensions();
    assert_eq!(dims[0].1.offset, [0.0, 2.0]);
    let k = std::f64::consts::FRAC_1_SQRT_2 * 1.6;
    assert!((dims[1].1.offset[0] - k).abs() < 1e-12);
    assert!((dims[1].1.offset[1] - k).abs() < 1e-12);
}

#[test]
fn the_delete_key_removes_entities_and_dimensions() {
    let (mut session, dim) = linear_session();
    let (line, _) = session.sketch.entities()[0];
    session.selection = vec![Selected::Dimension(dim)];
    session.on_delete();
    assert_eq!(session.sketch.dimension_count(), 0);
    assert_eq!(session.sketch.constraint_count(), 0);
    let (p1, _) = session.sketch.points()[0];
    session.selection = vec![Selected::Point(p1)];
    session.on_delete();
    assert_eq!(session.sketch.points().len(), 2);
    session.selection = vec![Selected::Entity(line)];
    session.on_delete();
    assert_eq!(session.sketch.points().len(), 0);
    assert!(session.selection.is_empty());
}

#[test]
fn points_are_dragged_before_labels() {
    let (mut session, dim) = linear_session();
    let points: Vec<PointId> = session.sketch.points().into_iter().map(|(id, _)| id).collect();
    session.begin_drag(Some([10.05, 0.0]), 0.1, Some(dim), &eval, &order());
    assert_eq!(session.dragging, Some(points[1]));
    session.drag_to([0.0, 10.0], &ops());
    assert!(session.last_solve.is_some());
    session.end_drag(&ops());
    assert_eq!(session.dragging, None);
    let (a, b) = (session.sketch.point_pos(points[0]), session.sketch.point_pos(points[1]));
    let length = (a[0] - b[0]).hypot(a[1] - b[1]);
    assert!((length - 10.0).abs() < 1e-6);
}

#[test]
fn a_dragged_label_changes_its_offset_only() {
    let (mut session, dim) = linear_session();
    let before = session.sketch.points();
    session.begin_drag(Some([5.0, -2.0]), 0.1, Some(dim), &eval, &order());
    assert_eq!(session.dragging_dim, Some(dim));
    session.drag_to([7.0, 9.0], &ops());
    assert!(session.last_solve.is_none());
    session.end_drag(&ops());
    assert_eq!(session.dragging_dim, None);
    assert_eq!(session.sketch.dimension(dim).unwrap().offset, [2.0, 9.0]);
    assert_eq!(session.sketch.points(), before);
}

#[test]
fn nothing_snaps_while_selecting() {
    let (session, _) = linear_session();
    assert!(session.snap(Some([0.0, 0.0]), 1.0, &eval, &order()).is_none());
}

#[test]
fn the_layout_of_a_linear_dimension_is_moved_by_its_offset() {
    let (session, dim) = linear_session();
    assert_eq!(
        session.dim_layout(dim, &eval, &less),
        Some(DimLayout::Linear {
            a: [0.0, 0.0],
            b: [10.0, 0.0],
            da: [0.0, -2.0],
            db: [10.0, -2.0],
            value: 10.0,
        })
    );
}

#[test]
fn tools_have_names() {
    let kinds = [ToolKind::Select, ToolKind::Line, ToolKind::Circle];
    let names: Vec<&str> = kinds.iter().map(|k| SketchTool::<f64>::new(*k).label()).collect();
    assert_eq!(names, ["Auswählen", "Linie", "Kreis"]);
}

/// A frame in which the cursor rests at a place.
fn rest(mouse: Option<[f64; 2]>) -> ViewportInput<f64> {
    ViewportInput {
        mouse,
        snap_radius: 0.1,
        select_tol: 0.1,
        dim_tol: 6.0,
        drag_started: false,
        dragged: false,
        drag_stopped: false,
        clicked: false,
        shift: false,
        escape: false,
        delete: false,
    }
}

fn far(_: &DimLayout<f64>) -> f64 {
    6.5
}

fn near(_: &DimLayout<f64>) -> f64 {
    6.0
}

#[test]
fn a_frame_without_input_changes_nothing() {
    let (mut session, dim) = linear_session();
    let points = session.sketch.points();
    let hover = session.handle_viewport(&rest(Some([5.0, 5.0])), &ops(), &order(), &near);
    assert_eq!(hover, Hover { snap: None, dim_hit: Some(dim) });
    let hover = session.handle_viewport(&rest(None), &ops(), &order(), &near);
    assert_eq!(hover, Hover { snap: None, dim_hit: None });
    assert_eq!(session.sketch.points(), points);
    assert!(session.selection.is_empty());
    assert!(session.last_solve.is_none());
    assert_eq!(session.dragging, None);
    assert_eq!(session.dragging_dim, None);
}

#[test]
fn a_drag_may_begin_move_and_end_in_one_frame() {
    let (mut session, _) = linear_session();
    let points: Vec<PointId> = session.sketch.points().into_iter().map(|(id, _)| id).collect();
    let input = ViewportInput {
        drag_started: true,
        dragged: true,
        drag_stopped: true,
        ..rest(Some([10.05, 0.0]))
    };
    session.handle_viewport(&input, &ops(), &order(), &far);
    assert_eq!(session.dragging, None);
    assert!(session.last_solve.is_some());
    let (a, b) = (session.sketch.point_pos(points[0]), session.sketch.point_pos(points[1]));
    assert!(((a[0] - b[0]).hypot(a[1] - b[1]) - 10.0).abs() < 1e-6);
}

#[test]
fn a_drag_without_a_place_moves_nothing() {
    let (mut session, dim) = linear_session();
    session.dragging_dim = Some(dim);
    let before = session.sketch.dimension(dim).unwrap().offset;
    let input = ViewportInput { dragged: true, ..rest(None) };
    session.handle_viewport(&input, &ops(), &order(), &far);
    assert_eq!(session.sketch.dimension(dim).unwrap().offset, before);
    assert_eq!(session.dragging_dim, Some(dim));
}

#[test]
fn the_click_comes_before_the_keys() {
    let (mut session, dim) = linear_session();
    let click = ViewportInput { clicked: true, delete: true, ..rest(Some([5.0, 5.0])) };
    session.handle_viewport(&click, &ops(), &order(), &near);
    assert!(session.sketch.dimension(dim).is_none());
    assert!(session.selection.is_empty());

    session.set_tool(ToolKind::Line);
    let click = ViewportInput { clicked: true, escape: true, ..rest(Some([10.05, 0.0])) };
    let hover = session.handle_viewport(&click, &ops(), &order(), &far);
    assert_eq!(hover.snap.map(|(_, pos)| pos), Some([10.0, 0.0]));
    assert_eq!(session.tool, SketchTool::Line { start: None });
    let escape = ViewportInput { escape: true, ..rest(None) };
    session.handle_viewport(&escape, &ops(), &order(), &far);
    assert_eq!(session.tool, SketchTool::Select);
}

#[test]
fn a_drawing_goes_from_lines_to_points_and_marks_the_selection() {
    let (mut session, dim) = linear_session();
    let (line, _) = session.sketch.entities()[0];
    let (p1, _) = session.sketch.points()[0];
    session.selection = vec![Selected::Entity(line), Selected::Point(p1)];
    let hover = Hover { snap: None, dim_hit: Some(dim) };
    let layout = session.dim_layout(dim, &eval, &less).unwrap();
    assert_eq!(
        session.drawing(Some([5.0, 5.0]), hover, &eval, &less),
        vec![
            Mark::Line { from: [0.0, 0.0], to: [10.0, 0.0], emphasis: Emphasis::Selected },
            Mark::Dimension { layout, emphasis: Emphasis::Hovered },
            Mark::Point { pos: [0.0, 0.0], emphasis: Emphasis::Selected },
            Mark::Point { pos: [10.0, 0.0], emphasis: Emphasis::Plain },
        ]
    );
    session.selection = vec![Selected::Dimension(dim)];
    let marks = session.drawing(None, hover, &eval, &less);
    assert_eq!(marks[1], Mark::Dimension { layout, emphasis: Emphasis::Selected });
    assert_eq!(
        entity_marks(&session.sketch, &Vec::new()),
        vec![Mark::Line { from: [0.0, 0.0], to: [10.0, 0.0], emphasis: Emphasis::Plain }]
    );
}

#[test]
fn what_the_next_click_would_draw_is_previewed() {
    let mut session: SketchSession<f64> = SketchSession::start(SketchPlane::XY);
    let p = session.sketch.add_point([4.0, 0.0]);
    session.set_tool(ToolKind::Line);
    let click = ViewportInput { clicked: true, ..rest(Some([0.0, 0.0])) };
    session.handle_viewport(&click, &ops(), &order(), &far);
    let hover = session.handle_viewport(&rest(Some([4.05, 0.0])), &ops(), &order(), &far);
    assert_eq!(hover.snap, Some((p, [4.0, 0.0])));
    let point = Mark::Point { pos: [4.0, 0.0], emphasis: Emphasis::Plain };
    assert_eq!(
        session.drawing(Some([4.05, 0.0]), hover, &eval, &less),
        vec![
            point,
            Mark::PreviewLine { from: [0.0, 0.0], to: [4.0, 0.0] },
            Mark::Snap { pos: [4.0, 0.0] },
        ]
    );
    assert_eq!(
        session.drawing(None, Hover { snap: None, dim_hit: None }, &eval, &less),
        vec![point]
    );

    session.set_tool(ToolKind::Circle);
    session.handle_viewport(&click, &ops(), &order(), &far);
    let hover = session.handle_viewport(&rest(Some([3.0, 4.0])), &ops(), &order(), &far);
    assert_eq!(
        session.drawing(Some([3.0, 4.0]), hover, &eval, &less),
        vec![
            point,
            Mark::PreviewCircle { center: [0.0, 0.0], radius: 5.0 },
            Mark::PreviewLine { from: [0.0, 0.0], to: [3.0, 4.0] },
        ]
    );
}
