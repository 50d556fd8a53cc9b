//! The application's state and what its panels show.
use std::collections::HashSet;

use truck_meshalgo::prelude::MeshableShape;
use truck_modeling::{builder, Invertible, Point3, Rad, Solid, Vector3, Wire, TOLERANCE};

use nalgebra::DMatrix;
use rustcad::constraint::Constraint;
use rustcad::document::{Document, Feature, RevolveAxis, SketchPlane};
use rustcad::editor::{AppMode, Edit, Editor, PendingFeature, MAX_UNDO};
use rustcad::expr::Expr;
use rustcad::geometry::{SolidPlan, Sweep, WireEdge};
use rustcad::ids::FeatureId;
use rustcad::mesh::{append_polygon, triangle_normal, Corner, TriMesh};
use rustcad::panels::{choice_of, sketch_summary, Command, ToolbarItem};
use rustcad::rebuild::RebuildOps;
use rustcad::session::{Selected, SketchAction, ToolKind};
use rustcad::sketch::Sketch;
use rustcad::solver::{Factors, SolverOps};

/// Double precision arithmetic on formulas.
fn eval(e: &Expr<f64>, v: &Vec<f64>) -> f64 {
    match e {
        Expr::Ratio(n, d) => *n as f64 / *d as f64,
        Expr::Value(x) => *x,
        Expr::Var(id) => v[id.index],
        Expr::Neg(a) => -eval(a, v),
        Expr::Add(a, b) => eval(a, v) + eval(b, v),
        Expr::Sub(a, b) => eval(a, v) - eval(b, v),
        Expr::Mul(a, b) => eval(a, v) * eval(b, v),
        Expr::Div(a, b) => eval(a, v) / eval(b, v),
        Expr::Sqrt(a) => eval(a, v).sqrt(),
        Expr::Abs(a) => eval(a, v).abs(),
        Expr::Max(a, b) => eval(a, v).max(eval(b, v)),
        Expr::Clamp(a) => eval(a, v).clamp(0.0, 1.0),
        Expr::IfTiny(test, small, large) => {
            if eval(test, v) <= f64::EPSILON {
                eval(small, v)
            } else {
                eval(large, v)
            }
        }
    }
}

fn less(a: &f64, b: &f64) -> bool {
    a < b
}

fn at_most(a: &f64, b: &f64) -> bool {
    a <= b
}

fn matrix(rows: &Vec<Vec<f64>>) -> DMatrix<f64> {
    DMatrix::from_fn(rows.len(), rows[0].len(), |i, j| rows[i][j])
}

fn rows_of(m: &DMatrix<f64>) -> Vec<Vec<f64>> {
    m.row_iter().map(|row| row.iter().copied().collect()).collect()
}

fn factor(rows: &Vec<Vec<f64>>) -> Option<Factors<f64>> {
    let svd = matrix(rows).svd(true, true);
    Some(Factors {
        u: rows_of(&svd.u?),
        s: svd.singular_values.iter().copied().collect(),
        v_t: rows_of(&svd.v_t?),
    })
}

fn singular(rows: &Vec<Vec<f64>>) -> Vec<f64> {
    let values = matrix(rows).svd(false, false).singular_values;
    values.iter().copied().collect()
}

fn point(p: [f64; 3]) -> Point3 {
    Point3::new(p[0], p[1], p[2])
}

/// Builds the solid that a plan describes.
fn build(plan: &SolidPlan<f64>) -> Result<Solid, String> {
    let vertices: Vec<_> = plan.wire.vertices.iter().map(|p| builder::vertex(point(*p))).collect();
    let wire: Wire = plan
        .wire
        .edges
        .iter()
        .map(|edge| match edge {
            WireEdge::Line { from, to } => builder::line(&vertices[*from], &vertices[*to]),
            WireEdge::Arc { from, to, via } => {
                builder::circle_arc(&vertices[*from], &vertices[*to], point(*via))
            }
        })
        .collect();
    let face = builder::try_attach_plane(&[wire])
        .map_err(|e| e.to_string())?;
    Ok(match plan.sweep {
        Sweep::Along(v) => builder::tsweep(&face, Vector3::new(v[0], v[1], v[2])),
        Sweep::Around { origin, direction, angle } => builder::rsweep(
            &face,
            point(origin),
            Vector3::new(direction[0], direction[1], direction[2]),
            Rad(angle),
        ),
    })
}

fn narrow(p: [f64; 3]) -> [f32; 3] {
    [p[0] as f32, p[1] as f32, p[2] as f32]
}

/// The mesh of a solid, face by face.
fn tessellate(solid: &Solid, tolerance: f64) -> TriMesh<f32> {
    let meshed = solid.triangulation(tolerance.max(TOLERANCE * 2.0));
    let mut mesh: TriMesh<f32> = TriMesh::new();
    for (face_id, face) in meshed.face_iter().enumerate() {
        let Some(mut polygon) = face.surface() else {
            continue;
        };
        if !face.orientation() {
            polygon.invert();
        }
        let wide: Vec<[f64; 3]> = polygon.positions().iter().map(|p| [p.x, p.y, p.z]).collect();
        let positions: Vec<[f32; 3]> = wide.iter().map(|p| narrow(*p)).collect();
        let normals: Vec<[f32; 3]> =
            polygon.normals().iter().map(|n| narrow([n.x, n.y, n.z])).collect();
        let mut corners = Vec::new();
        for tri in polygon.faces().triangle_iter() {
            let (a, b, c) = (&wide[tri[0].pos], &wide[tri[1].pos], &wide[tri[2].pos]);
            let none = Vec::new();
            let normal = [0, 1, 2].map(|i| eval(&triangle_normal(a, b, c, i), &none) as f32);
            for v in tri {
                corners.push(Corner { position: v.pos, normal: v.nor, fallback: normal });
            }
        }
        append_polygon(&mut mesh, &positions, &normals, &corners, face_id as u32);
    }
    let mut seen = HashSet::new();
    for edge in meshed.edge_iter() {
        if seen.insert(edge.id()) {
            let polyline = edge.curve();
            mesh.edges.push(polyline.0.iter().map(|p| narrow([p.x, p.y, p.z])).collect());
        }
    }
    mesh
}

fn kernel(plan: &SolidPlan<f64>) -> Result<TriMesh<f32>, String> {
    Ok(tessellate(&build(plan)?, 0.005))
}

type Ops = RebuildOps<
    fn(&Expr<f64>, &Vec<f64>) -> f64,
    fn(&f64, &f64) -> bool,
    fn(&f64, &f64) -> bool,
    fn(&SolidPlan<f64>) -> Result<TriMesh<f32>, String>,
>;

fn ops() -> Ops {
    RebuildOps { eval, less, at_most, kernel }
}

/// The signed volume that a mesh encloses.
fn signed_volume(mesh: &TriMesh<f32>) -> f64 {
    let p = |i: u32| mesh.positions[i as usize].map(|x| x as f64);
    mesh.indices
        .chunks_exact(3)
        .map(|t| {
            let (a, b, c) = (p(t[0]), p(t[1]), p(t[2]));
            (a[0] * (b[1] * c[2] - b[2] * c[1])
                + a[1] * (b[2] * c[0] - b[0] * c[2])
                + a[2] * (b[0] * c[1] - b[1] * c[0]))
                / 6.0
        })
        .sum()
}

fn square_sketch(size: f64) -> Sketch<f64> {
    let mut s = Sketch::new();
    let pts = [
        s.add_point([0.0, 0.0]),
        s.add_point([size, 0.0]),
        s.add_point([size, size]),
        s.add_point([0.0, size]),
    ];
    for i in 0..4 {
        s.add_line(pts[i], pts[(i + 1) % 4]);
    }
    s
}

type Solver = SolverOps<
    fn(&Expr<f64>, &Vec<f64>) -> f64,
    fn(&f64, &f64) -> bool,
    fn(&Vec<Vec<f64>>) -> Option<Factors<f64>>,
>;

fn solver() -> Solver {
    SolverOps { eval, less, factor }
}

fn radians(degrees: &f64) -> f64 {
    degrees.to_radians()
}

fn distance_text(distance: &f64) -> String {
    format!("{distance:.2}")
}

fn angle_text(angle: &f64) -> String {
    format!("{:.0}", angle.to_degrees())
}

fn session_of(editor: &mut Editor<f64, f32>) -> &mut rustcad::session::SketchSession<f64> {
    match &mut editor.mode {
        AppMode::SketchEdit(session) => session,
        _ => panic!("a sketch is edited"),
    }
}

/// An editor with a sketch and an extrusion of it.
fn with_box() -> (Editor<f64, f32>, FeatureId, FeatureId) {
    let mut editor = Editor::new();
    editor.enter_sketch(SketchPlane::XY);
    session_of(&mut editor).sketch = square_sketch(10.0);
    editor.finish_sketch(&ops());
    let sketch = editor.selected_feature.expect("the sketch is selected");
    editor.open_extrude(&eval);
    assert!(editor.confirm(&radians, &ops()));
    let body = editor.selected_feature.expect("the body is selected");
    (editor, sketch, body)
}

fn volume(editor: &Editor<f64, f32>) -> f64 {
    editor.rebuild_state.bodies().iter().map(|(_, m)| signed_volume(m).abs()).sum()
}

#[test]
fn a_sketch_becomes_a_feature_and_a_body() {
    let (editor, sketch, body) = with_box();
    assert_eq!(editor.document.len(), 2);
    assert_eq!(editor.document.index_of(sketch), Some(0));
    assert_eq!(editor.body_features, vec![body]);
    assert!((volume(&editor) - 200.0).abs() < 1e-6);
    assert!(matches!(editor.mode, AppMode::Idle));
    assert!(editor.info.is_none());
    assert_eq!(editor.undo_stack.len(), 2);
}

#[test]
fn an_empty_sketch_is_dropped() {
    let mut editor: Editor<f64, f32> = Editor::new();
    editor.enter_sketch(SketchPlane::YZ);
    editor.finish_sketch(&ops());
    assert!(editor.document.is_empty());
    assert!(editor.undo_stack.is_empty());
    assert!(matches!(editor.mode, AppMode::Idle));
}

#[test]
fn undo_takes_changes_back() {
    let (mut editor, sketch, body) = with_box();
    editor.edit_selected(&vec![Edit::Distance(7.0)], false, false, &ops());
    assert!((volume(&editor) - 700.0).abs() < 1e-6);
    editor.undo(&ops());
    assert!((volume(&editor) - 200.0).abs() < 1e-6);
    assert_eq!(editor.selected_feature, Some(body));
    editor.undo(&ops());
    assert_eq!(editor.document.len(), 1);
    assert_eq!(editor.selected_feature, None);
    assert!(editor.body_features.is_empty());
    assert!(editor.document.feature(sketch).is_some());
    editor.undo(&ops());
    assert!(editor.document.is_empty());
    editor.undo(&ops());
    assert!(editor.document.is_empty());
}

#[test]
fn a_drag_is_taken_back_as_a_whole() {
    let (mut editor, _, _) = with_box();
    let kept = editor.undo_stack.len();
    editor.edit_selected(&vec![Edit::Distance(3.0)], true, true, &ops());
    editor.edit_selected(&vec![Edit::Distance(4.0)], false, true, &ops());
    editor.edit_selected(&vec![Edit::Distance(5.0)], false, true, &ops());
    assert_eq!(editor.undo_stack.len(), kept + 1);
    assert!((volume(&editor) - 500.0).abs() < 1e-6);
    editor.undo(&ops());
    assert!((volume(&editor) - 200.0).abs() < 1e-6);
}

#[test]
fn only_so_many_documents_are_kept() {
    let (mut editor, _, _) = with_box();
    for i in 0..40 {
        editor.edit_selected(&vec![Edit::Distance(1.0 + i as f64)], false, false, &ops());
    }
    assert_eq!(editor.undo_stack.len(), MAX_UNDO);
    assert_eq!(MAX_UNDO, 32);
    for _ in 0..40 {
        editor.undo(&ops());
    }
    // the oldest document that was kept has the eighth distance
    assert!((volume(&editor) - 800.0).abs() < 1e-3);
}

#[test]
fn deleting_a_sketch_deletes_its_bodies() {
    let (mut editor, sketch, _) = with_box();
    editor.select_feature(sketch);
    editor.delete_selected(&ops());
    assert!(editor.document.is_empty());
    assert!(editor.body_features.is_empty());
    assert_eq!(editor.selected_feature, None);
    editor.undo(&ops());
    assert_eq!(editor.document.len(), 2);
    assert_eq!(editor.body_features.len(), 1);
}

#[test]
fn an_edited_sketch_takes_its_place() {
    let (mut editor, sketch, body) = with_box();
    editor.open_sketch_editor(body);
    assert!(matches!(editor.mode, AppMode::Idle));
    editor.open_sketch_editor(sketch);
    assert!(!editor.history_shown());
    session_of(&mut editor).sketch = square_sketch(2.0);
    editor.finish_sketch(&ops());
    assert!(editor.history_shown());
    assert_eq!(editor.document.len(), 2);
    assert!((volume(&editor) - 8.0).abs() < 1e-6);
    editor.undo(&ops());
    assert!((volume(&editor) - 200.0).abs() < 1e-6);
}

#[test]
fn a_failed_feature_is_told_and_stays() {
    let mut editor: Editor<f64, f32> = Editor::new();
    editor.enter_sketch(SketchPlane::XY);
    let sketch = &mut session_of(&mut editor).sketch;
    let a = sketch.add_point([0.0, 0.0]);
    let b = sketch.add_point([1.0, 0.0]);
    sketch.add_line(a, b);
    editor.finish_sketch(&ops());
    editor.open_revolve(&eval);
    match &editor.mode {
        AppMode::FeatureDialog(PendingFeature::Revolve { profile, angle_deg, axis, .. }) => {
            assert_eq!((*profile, *angle_deg, *axis), (0, 360.0, RevolveAxis::V));
        }
        _ => panic!("the dialog is open"),
    }
    assert!(!editor.confirm(&radians, &ops()));
    assert_eq!(
        editor.info.as_deref(),
        Some("Skizze enthält keine geschlossene Schleife")
    );
    assert_eq!(editor.document.len(), 2);
    let rows = editor.feature_tree(&distance_text, &angle_text);
    assert_eq!(rows[0].text, "1 · Skizze (XY)");
    assert!(rows[0].is_sketch);
    assert_eq!(rows[1].text, "⚠ 2 · Revolve (360°)");
    assert!(rows[1].failed.is_some() && rows[1].selected);
}

#[test]
fn dialogs_are_edited_and_cancelled() {
    let (mut editor, sketch, _) = with_box();
    editor.open_extrude(&eval);
    let AppMode::FeatureDialog(pending) = &mut editor.mode else {
        panic!("the dialog is open");
    };
    assert_eq!(pending.title(), "Extrude");
    assert_eq!(pending.source(), (sketch, 0));
    pending.apply(Edit::Distance(9.0));
    pending.apply(Edit::Profile(3));
    pending.apply(Edit::Angle(1.0));
    assert_eq!(*pending, PendingFeature::Extrude { sketch, profile: 2, distance: 9.0 });
    pending.apply(Edit::Profile(-4));
    assert_eq!(pending.source().1, 0);
    let other = FeatureId { raw: 77 };
    pending.set_sketch(other);
    assert_eq!(pending.source(), (other, 0));
    editor.cancel();
    assert!(matches!(editor.mode, AppMode::Idle));
    assert_eq!(editor.document.len(), 2);
    assert!(!editor.confirm(&radians, &ops()));
}

#[test]
fn without_a_sketch_no_dialog_opens() {
    let mut editor: Editor<f64, f32> = Editor::new();
    editor.open_extrude(&eval);
    editor.open_revolve(&eval);
    assert!(matches!(editor.mode, AppMode::Idle));
}

#[test]
fn a_confirmed_revolution_is_in_radians() {
    let (mut editor, _, _) = with_box();
    editor.open_revolve(&eval);
    if let AppMode::FeatureDialog(pending) = &mut editor.mode {
        pending.apply(Edit::Angle(180.0));
        pending.apply(Edit::Axis(RevolveAxis::U));
    }
    editor.confirm(&radians, &ops());
    let id = editor.selected_feature.unwrap();
    match editor.document.feature(id) {
        Some(Feature::Revolve(r)) => {
            assert_eq!(r.angle, std::f64::consts::PI);
            assert_eq!(r.axis, RevolveAxis::U);
        }
        _ => panic!("a revolution was added"),
    }
    editor.edit_selected(&vec![Edit::Profile(2)], false, false, &ops());
    match editor.document.feature(id) {
        Some(Feature::Revolve(r)) => assert_eq!(r.profile, 1),
        _ => panic!("the revolution stays"),
    }
}

#[test]
fn an_opened_document_cannot_be_taken_back() {
    let (mut editor, _, _) = with_box();
    let mut doc = Document::new();
    let s = doc.add_sketch(SketchPlane::XZ, square_sketch(1.0));
    doc.add_extrude(s, 0, 1.0);
    editor.opened(doc, &ops());
    assert!(editor.undo_stack.is_empty());
    assert_eq!(editor.selected_feature, None);
    assert!((volume(&editor) - 1.0).abs() < 1e-6);
}

fn texts(items: &[ToolbarItem<f64>]) -> Vec<String> {
    items
        .iter()
        .map(|item| match item {
            ToolbarItem::Separator => "|".to_string(),
            ToolbarItem::Title(t) | ToolbarItem::Label(t) | ToolbarItem::Notice(t) => t.clone(),
            ToolbarItem::Button(t, enabled, _) => {
                format!("[{t}{}]", if *enabled { "" } else { " -" })
            }
            ToolbarItem::Choice(t, active, _) => {
                format!("({t}{})", if *active { " *" } else { "" })
            }
        })
        .collect()
}

#[test]
fn the_toolbar_follows_the_mode() {
    let mut editor: Editor<f64, f32> = Editor::new();
    editor.tell("Hallo".to_string());
    assert_eq!(
        texts(&editor.toolbar(&eval, &less, &singular)),
        [
            "RustCAD", "|", "[📂 Öffnen]", "[💾 Speichern]", "[STL Export -]", "|", "Skizze:",
            "[XY]", "[XZ]", "[YZ]", "|", "[Extrude -]", "[Revolve -]", "|",
            "Features: 0 · Bodies: 0", "Hallo",
        ]
    );
    editor.enter_sketch(SketchPlane::XZ);
    editor.set_tool(ToolKind::Line);
    assert_eq!(
        texts(&editor.toolbar(&eval, &less, &singular)),
        [
            "RustCAD", "|", "(Auswählen)", "(Linie *)", "(Kreis)", "|", "|", "[✔ Fertig]", "|",
            "XZ · 0 Entities · 0 Constraints · 0 Maße · 0 Freiheitsgrade",
        ]
    );
}

#[test]
fn actions_of_the_toolbar_are_carried_out() {
    let mut editor: Editor<f64, f32> = Editor::new();
    editor.enter_sketch(SketchPlane::XY);
    let session = session_of(&mut editor);
    session.sketch = square_sketch(4.0);
    let (line, _) = session.sketch.entities()[0];
    session.selection = vec![Selected::Entity(line)];
    let items = editor.toolbar(&eval, &less, &singular);
    match &items[6] {
        ToolbarItem::Button(label, true, Command::AddAction(action)) => {
            assert_eq!(label, "Horizontal");
            editor.add_action(*action, &solver());
        }
        _ => panic!("the selection has actions"),
    }
    assert_eq!(session_of(&mut editor).sketch.constraint_count(), 1);
    let (a, _) = session_of(&mut editor).sketch.points()[0];
    let (b, _) = session_of(&mut editor).sketch.points()[1];
    let apart = SketchAction::Constraint(Constraint::Distance(a, b, 3.0));
    editor.add_action(SketchAction::Constraint(Constraint::Coincident(a, b)), &solver());
    editor.add_action(apart, &solver());
    let status = texts(&editor.toolbar(&eval, &less, &singular)).pop().unwrap();
    assert!(status.ends_with(" · ⚠ nicht lösbar"), "{status}");
}

#[test]
fn a_selected_face_is_named() {
    let (mut editor, _, _) = with_box();
    editor.select_face(Some((0, 4)));
    let status = |editor: &Editor<f64, f32>| texts(&editor.toolbar(&eval, &less, &singular)).pop();
    assert_eq!(
        status(&editor).as_deref(),
        Some("Features: 2 · Bodies: 1 · Feature 2, Face 4")
    );
    editor.select_face(Some((3, 1)));
    assert_eq!(
        status(&editor).as_deref(),
        Some("Features: 2 · Bodies: 1 · Body 3, Face 1")
    );
    editor.do_rebuild(0, &ops());
    assert_eq!(editor.selected_face, None);
}

#[test]
fn panels_describe_sketches() {
    let (editor, sketch, _) = with_box();
    let choices = editor.dialog_sketches(&eval, &less);
    assert_eq!(choices.len(), 1);
    let choice = choice_of(&choices, sketch).expect("it is listed");
    assert_eq!((choice.label.as_str(), choice.profiles), ("1 · Skizze (XY)", 1));
    assert!(choice_of(&choices, FeatureId { raw: 77 }).is_none());
    let (_, feature) = editor.document.sketch_features()[0];
    assert_eq!(
        sketch_summary(feature, &eval, &less),
        ["Skizze auf XY", "4 Entities · 0 Constraints", "1 geschlossene Profile"]
    );
    let rows = editor.feature_tree(&distance_text, &angle_text);
    assert_eq!(rows[1].text, "2 · Extrude (T=2.00)");
    assert!(rows[1].failed.is_none());
}

#[test]
fn the_edited_sketch_is_not_drawn_twice() {
    let (mut editor, sketch, _) = with_box();
    assert_eq!(editor.overlay_sketches().len(), 1);
    assert!(editor.hint().starts_with("Klick: Fläche"));
    editor.open_sketch_editor(sketch);
    assert!(editor.overlay_sketches().is_empty());
    assert!(editor.hint().starts_with("Klick: Zeichnen"));
}

fn low(a: &f32, b: &f32) -> f32 {
    a.min(*b)
}

fn high(a: &f32, b: &f32) -> f32 {
    a.max(*b)
}

#[test]
fn the_scene_is_bounded_and_exported_as_a_whole() {
    let mut empty: Editor<f64, f32> = Editor::new();
    assert!(empty.scene_bounds(&low, &high).is_none());
    assert!(empty.export_mesh().is_none());
    assert_eq!(empty.info.as_deref(), Some("Keine Bodies zum Exportieren"));

    let (mut editor, sketch, _) = with_box();
    editor.open_extrude(&eval);
    if let AppMode::FeatureDialog(pending) = &mut editor.mode {
        assert_eq!(pending.source().0, sketch);
        pending.apply(Edit::Distance(-3.0));
    }
    editor.confirm(&radians, &ops());
    assert_eq!(
        editor.scene_bounds(&low, &high),
        Some(([0.0, 0.0, -3.0], [10.0, 10.0, 2.0]))
    );
    let parts: usize = editor.rebuild_state.bodies().iter().map(|(_, m)| m.indices.len()).sum();
    let whole = editor.export_mesh().expect("there are bodies");
    assert_eq!(whole.indices.len(), parts);
    assert!(whole.indices.iter().all(|i| (*i as usize) < whole.positions.len()));
    assert!(editor.info.is_none());
}

#[test]
fn all_changes_of_a_frame_are_made() {
    let (mut editor, _, body) = with_box();
    let kept = editor.undo_stack.len();
    editor.edit_selected(&vec![Edit::Distance(7.0), Edit::Profile(3)], false, false, &ops());
    assert_eq!(editor.undo_stack.len(), kept + 1);
    match editor.document.feature(body) {
        Some(Feature::Extrude(e)) => assert_eq!((e.distance, e.profile), (7.0, 2)),
        _ => panic!("an extrusion was expected"),
    }
    editor.edit_selected(&Vec::new(), true, true, &ops());
    assert_eq!(editor.undo_stack.len(), kept + 1);
}
