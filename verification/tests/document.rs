//! Documents and their rebuild.
use std::collections::HashSet;

use truck_meshalgo::prelude::MeshableShape;
use truck_modeling::{builder, Invertible, Point3, Rad, Solid, Vector3, Wire, TOLERANCE};

use rustcad::document::{Document, Feature, RevolveAxis, SketchPlane};
use rustcad::expr::Expr;
use rustcad::geometry::{SolidPlan, Sweep, WireEdge};
use rustcad::mesh::{append_polygon, triangle_normal, Corner, TriMesh};
use rustcad::profiles::Profile;
use rustcad::rebuild::{rebuild, select_profile, FeatureStatus, RebuildOps, RebuildState};
use rustcad::sketch::Sketch;

/// Double precision arithmetic on formulas.
fn eval(e: &Expr<f64>, v: &Vec<f64>) -> f64 {
    match e {
        Expr::Ratio(n, d) => *n as f64 / *d as f64,
        Expr::Value(x) => *x,
        Expr::Var(id) => v[id.index],
        Expr::Neg(a) => -eval(a, v),
        Expr::Add(a, b) => eval(a, v) + eval(b, v),
        Expr::Sub(a, b) => eval(a, v) - eval(b, v),
        Expr::Mul(a, b) => eval(a, v) * eval(b, v),
        Expr::Div(a, b) => eval(a, v) / eval(b, v),
        Expr::Sqrt(a) => eval(a, v).sqrt(),
        Expr::Abs(a) => eval(a, v).abs(),
        Expr::Max(a, b) => eval(a, v).max(eval(b, v)),
        Expr::Clamp(a) => eval(a, v).clamp(0.0, 1.0),
        Expr::IfTiny(test, small, large) => {
            if eval(test, v) <= f64::EPSILON {
                eval(small, v)
            } else {
                eval(large, v)
            }
        }
    }
}

fn less(a: &f64, b: &f64) -> bool {
    a < b
}

fn at_most(a: &f64, b: &f64) -> bool {
    a <= b
}

fn point(p: [f64; 3]) -> Point3 {
    Point3::new(p[0], p[1], p[2])
}

/// Builds the solid that a plan describes.
fn build(plan: &SolidPlan<f64>) -> Result<Solid, String> {
    let vertices: Vec<_> = plan.wire.vertices.iter().map(|p| builder::vertex(point(*p))).collect();
    let wire: Wire = plan
        .wire
        .edges
        .iter()
        .map(|edge| match edge {
            WireEdge::Line { from, to } => builder::line(&vertices[*from], &vertices[*to]),
            WireEdge::Arc { from, to, via } => {
                builder::circle_arc(&vertices[*from], &vertices[*to], point(*via))
            }
        })
        .collect();
    let face = builder::try_attach_plane(&[wire])
        .map_err(|e| e.to_string())?;
    Ok(match plan.sweep {
        Sweep::Along(v) => builder::tsweep(&face, Vector3::new(v[0], v[1], v[2])),
        Sweep::Around { origin, direction, angle } => builder::rsweep(
            &face,
            point(origin),
            Vector3::new(direction[0], direction[1], direction[2]),
            Rad(angle),
        ),
    })
}

fn narrow(p: [f64; 3]) -> [f32; 3] {
    [p[0] as f32, p[1] as f32, p[2] as f32]
}

/// The mesh of a solid, face by face.
fn tessellate(solid: &Solid, tolerance: f64) -> TriMesh<f32> {
    let meshed = solid.triangulation(tolerance.max(TOLERANCE * 2.0));
    let mut mesh: TriMesh<f32> = TriMesh::new();
    for (face_id, face) in meshed.face_iter().enumerate() {
        let Some(mut polygon) = face.surface() else {
            continue;
        };
        if !face.orientation() {
            polygon.invert();
        }
        let wide: Vec<[f64; 3]> = polygon.positions().iter().map(|p| [p.x, p.y, p.z]).collect();
        let positions: Vec<[f32; 3]> = wide.iter().map(|p| narrow(*p)).collect();
        let normals: Vec<[f32; 3]> =
            polygon.normals().iter().map(|n| narrow([n.x, n.y, n.z])).collect();
        let mut corners = Vec::new();
        for tri in polygon.faces().triangle_iter() {
            let (a, b, c) = (&wide[tri[0].pos], &wide[tri[1].pos], &wide[tri[2].pos]);
            let none = Vec::new();
            let normal = [0, 1, 2].map(|i| eval(&triangle_normal(a, b, c, i), &none) as f32);
            for v in tri {
                corners.push(Corner { position: v.pos, normal: v.nor, fallback: normal });
            }
        }
        append_polygon(&mut mesh, &positions, &normals, &corners, face_id as u32);
    }
    let mut seen = HashSet::new();
    for edge in meshed.edge_iter() {
        if seen.insert(edge.id()) {
            let polyline = edge.curve();
            mesh.edges.push(polyline.0.iter().map(|p| narrow([p.x, p.y, p.z])).collect());
        }
    }
    mesh
}

fn kernel(plan: &SolidPlan<f64>) -> Result<TriMesh<f32>, String> {
    Ok(tessellate(&build(plan)?, 0.005))
}

type Ops = RebuildOps<
    fn(&Expr<f64>, &Vec<f64>) -> f64,
    fn(&f64, &f64) -> bool,
    fn(&f64, &f64) -> bool,
    fn(&SolidPlan<f64>) -> Result<TriMesh<f32>, String>,
>;

fn ops() -> Ops {
    RebuildOps { eval, less, at_most, kernel }
}

/// The signed volume that a mesh encloses.
fn signed_volume(mesh: &TriMesh<f32>) -> f64 {
    let p = |i: u32| mesh.positions[i as usize].map(|x| x as f64);
    mesh.indices
        .chunks_exact(3)
        .map(|t| {
            let (a, b, c) = (p(t[0]), p(t[1]), p(t[2]));
            (a[0] * (b[1] * c[2] - b[2] * c[1])
                + a[1] * (b[2] * c[0] - b[0] * c[2])
                + a[2] * (b[0] * c[1] - b[1] * c[0]))
                / 6.0
        })
        .sum()
}

fn mesh_volume(mesh: &TriMesh<f32>) -> f64 {
    signed_volume(mesh).abs()
}

fn square_sketch(size: f64) -> Sketch<f64> {
    let mut s = Sketch::new();
    let pts = [
        s.add_point([0.0, 0.0]),
        s.add_point([size, 0.0]),
        s.add_point([size, size]),
        s.add_point([0.0, size]),
    ];
    for i in 0..4 {
        s.add_line(pts[i], pts[(i + 1) % 4]);
    }
    s
}

#[test]
fn extrude_rebuild_produces_expected_volume() {
    let mut doc = Document::new();
    let sketch = doc.add_sketch(SketchPlane::XY, square_sketch(10.0));
    doc.add_extrude(sketch, 0, 5.0);

    let mut state = RebuildState::new();
    rebuild(&doc, 0, &mut state, &ops());

    assert_eq!(state.entries.len(), 2);
    assert!(state.entries.iter().all(|e| matches!(e.status, FeatureStatus::Built)));
    let bodies = state.bodies();
    assert_eq!(bodies.len(), 1);
    assert!((mesh_volume(bodies[0].1) - 500.0).abs() < 1e-6);
}

#[test]
fn parameter_edit_rebuilds_from_feature() {
    let mut doc = Document::new();
    let sketch = doc.add_sketch(SketchPlane::XY, square_sketch(10.0));
    let extrude = doc.add_extrude(sketch, 0, 5.0);

    let mut state = RebuildState::new();
    rebuild(&doc, 0, &mut state, &ops());

    if let Some(Feature::Extrude(e)) = doc.feature_mut(extrude) {
        e.distance = 10.0;
    }
    let from = doc.index_of(extrude).unwrap();
    rebuild(&doc, from, &mut state, &ops());

    let bodies = state.bodies();
    assert!((mesh_volume(bodies[0].1) - 1000.0).abs() < 1e-6);
}

#[test]
fn open_sketch_marks_feature_failed() {
    let mut doc = Document::new();
    let mut s = Sketch::new();
    let a = s.add_point([0.0, 0.0]);
    let b = s.add_point([10.0, 0.0]);
    s.add_line(a, b); // an open chain
    let sketch = doc.add_sketch(SketchPlane::XY, s);
    let extrude = doc.add_extrude(sketch, 0, 5.0);

    let mut state = RebuildState::new();
    rebuild(&doc, 0, &mut state, &ops());

    match state.status_of(extrude) {
        Some(FeatureStatus::Failed(msg)) => {
            assert!(msg.contains("geschlossene"), "the message was {msg}")
        }
        _ => panic!("a failure was expected"),
    }
    assert!(state.bodies().is_empty());
}

#[test]
fn partial_rebuild_keeps_earlier_entries() {
    let mut doc = Document::new();
    let s1 = doc.add_sketch(SketchPlane::XY, square_sketch(10.0));
    doc.add_extrude(s1, 0, 5.0);
    let s2 = doc.add_sketch(SketchPlane::XZ, square_sketch(2.0));
    let e2 = doc.add_extrude(s2, 0, 1.0);

    let mut state = RebuildState::new();
    rebuild(&doc, 0, &mut state, &ops());
    assert_eq!(state.bodies().len(), 2);

    if let Some(Feature::Extrude(e)) = doc.feature_mut(e2) {
        e.distance = 3.0;
    }
    rebuild(&doc, doc.index_of(e2).unwrap(), &mut state, &ops());

    let bodies = state.bodies();
    assert_eq!(bodies.len(), 2);
    assert!((mesh_volume(bodies[0].1) - 500.0).abs() < 1e-6);
    assert!((mesh_volume(bodies[1].1) - 12.0).abs() < 1e-6);
}

#[test]
fn removing_sketch_removes_dependents() {
    let mut doc = Document::new();
    let sketch = doc.add_sketch(SketchPlane::XY, square_sketch(10.0));
    doc.add_extrude(sketch, 0, 5.0);

    let from = doc.remove(sketch);
    assert_eq!(from, 0);
    assert!(doc.is_empty());

    // there is nothing left to rebuild
    let mut state = RebuildState::new();
    rebuild(&doc, 0, &mut state, &ops());
    assert!(state.entries.is_empty());
}

#[test]
fn entries_of_other_features_are_not_kept() {
    let mut doc = Document::new();
    let s1 = doc.add_sketch(SketchPlane::XY, square_sketch(10.0));
    doc.add_extrude(s1, 0, 5.0);
    let mut state = RebuildState::new();
    rebuild(&doc, 0, &mut state, &ops());

    let mut other = Document::new();
    other.add_sketch(SketchPlane::XY, square_sketch(1.0));
    other.remove(other.id_at(0));
    let s2 = other.add_sketch(SketchPlane::XY, square_sketch(2.0));
    other.add_extrude(s2, 0, 1.0);
    rebuild(&other, 1, &mut state, &ops());
    assert_eq!(state.entries.len(), 2);
    assert_eq!(state.entries[0].feature, s2);
    assert!((mesh_volume(state.bodies()[0].1) - 4.0).abs() < 1e-6);
}

#[test]
fn a_revolution_is_built() {
    let mut doc = Document::new();
    let sketch = doc.add_sketch(SketchPlane::XZ, {
        let mut s = Sketch::new();
        let pts = [
            s.add_point([1.0, 0.0]),
            s.add_point([2.0, 0.0]),
            s.add_point([2.0, 1.0]),
            s.add_point([1.0, 1.0]),
        ];
        for i in 0..4 {
            s.add_line(pts[i], pts[(i + 1) % 4]);
        }
        s
    });
    doc.add_revolve(sketch, 0, RevolveAxis::V, std::f64::consts::TAU);
    let mut state = RebuildState::new();
    rebuild(&doc, 0, &mut state, &ops());
    let volume = mesh_volume(state.bodies()[0].1);
    let expected = 3.0 * std::f64::consts::PI;
    assert!((volume - expected).abs() / expected < 0.02, "the volume was {volume}");
}

#[test]
fn missing_sketches_and_profiles_are_told() {
    let mut doc = Document::new();
    let sketch = doc.add_sketch(SketchPlane::XY, square_sketch(10.0));
    let second = doc.add_extrude(sketch, 1, 5.0);
    let nested = doc.add_extrude(second, 0, 5.0);
    let flat = doc.add_extrude(sketch, 0, 0.0);
    let mut state = RebuildState::new();
    rebuild(&doc, 0, &mut state, &ops());
    let reason = |id| match state.status_of(id) {
        Some(FeatureStatus::Failed(reason)) => reason.clone(),
        _ => String::new(),
    };
    assert_eq!(reason(second), "Profil 2 existiert nicht (1 vorhanden)");
    assert_eq!(reason(nested), "referenzierte Skizze existiert nicht mehr");
    assert_eq!(reason(flat), "Profil ist degeneriert");
    assert!(state.status_of(sketch).is_some());
}

#[test]
fn profiles_are_selected_by_number() {
    let none: Vec<Profile<f64>> = Vec::new();
    match select_profile(&none, 0) {
        Err(reason) => assert_eq!(reason, "Skizze enthält keine geschlossene Schleife"),
        Ok(_) => panic!("there is no profile"),
    }
    let one = vec![Profile::Circle { center: [0.0, 0.0], radius: 1.0 }];
    assert!(select_profile(&one, 0).is_ok());
    match select_profile(&one, 11) {
        Err(reason) => assert_eq!(reason, "Profil 12 existiert nicht (1 vorhanden)"),
        Ok(_) => panic!("there is one profile"),
    }
}

#[test]
fn removing_a_feature_keeps_what_stands_before_it() {
    let mut doc: Document<f64> = Document::new();
    let s1 = doc.add_sketch(SketchPlane::XY, square_sketch(1.0));
    let e1 = doc.add_extrude(s1, 0, 1.0);
    let s2 = doc.add_sketch(SketchPlane::YZ, square_sketch(1.0));
    let e2 = doc.add_extrude(s2, 0, 1.0);
    let e3 = doc.add_extrude(s1, 0, 2.0);
    assert_eq!(doc.remove(s2), 2);
    assert_eq!(doc.len(), 3);
    assert_eq!(doc.index_of(e3), Some(2));
    assert_eq!(doc.index_of(e2), None);
    assert!(doc.feature(s2).is_none());
    assert_eq!(doc.remove(e1), 1);
    assert_eq!(doc.remove(e1), 2);
    let ids: Vec<_> = doc.features().iter().map(|(id, _)| *id).collect();
    assert_eq!(ids, vec![s1, e3]);
}

#[test]
fn features_have_names_and_references() {
    let mut doc: Document<f64> = Document::new();
    let s = doc.add_sketch(SketchPlane::XY, square_sketch(1.0));
    let e = doc.add_extrude(s, 0, 1.0);
    let r = doc.add_revolve(s, 0, RevolveAxis::U, 1.0);
    let names: Vec<_> = [s, e, r].iter().map(|id| doc.feature(*id).unwrap().type_label()).collect();
    assert_eq!(names, ["Skizze", "Extrude", "Revolve"]);
    assert_eq!(doc.feature(s).unwrap().sketch_ref(), None);
    assert_eq!(doc.feature(e).unwrap().sketch_ref(), Some(s));
    assert_eq!(doc.feature(r).unwrap().sketch_ref(), Some(s));
    assert_eq!(doc.sketch_features().len(), 1);
}

#[test]
fn planes_have_axes_and_labels() {
    let labels: Vec<_> = SketchPlane::ALL.iter().map(|p| p.label()).collect();
    assert_eq!(labels, ["XY", "XZ", "YZ"]);
    for plane in SketchPlane::ALL {
        let (u, v, n) = plane.axes();
        let cross = [
            u[1] * v[2] - u[2] * v[1],
            u[2] * v[0] - u[0] * v[2],
            u[0] * v[1] - u[1] * v[0],
        ];
        assert_eq!(cross, n);
        assert_eq!(plane.to_geom().u, u);
        assert_eq!(plane.to_geom().origin, [0, 0, 0]);
    }
}

#[test]
fn a_copy_of_a_document_goes_its_own_way() {
    let mut doc: Document<f64> = Document::new();
    let s = doc.add_sketch(SketchPlane::XY, square_sketch(1.0));
    let mut copy = doc.duplicate();
    copy.remove(s);
    assert_eq!(doc.len(), 1);
    assert!(copy.is_empty());
}

#[test]
fn removing_tells_the_first_feature_that_goes() {
    let mut doc: Document<f64> = Document::new();
    let s1 = doc.add_sketch(SketchPlane::XY, square_sketch(1.0));
    let e = doc.add_extrude(s1, 0, 1.0);
    let s2 = doc.add_sketch(SketchPlane::YZ, square_sketch(2.0));
    let last = doc.add_extrude(s1, 0, 3.0);
    // the body before the second sketch now hangs on it
    if let Some(Feature::Extrude(extrude)) = doc.feature_mut(e) {
        extrude.sketch = s2;
    }
    assert_eq!(doc.remove(s2), 1);
    let ids: Vec<_> = doc.features().iter().map(|(id, _)| *id).collect();
    assert_eq!(ids, vec![s1, last]);
    // no id comes back
    let next = doc.add_extrude(s1, 0, 1.0);
    let later = doc.add_extrude(s1, 0, 1.0);
    assert!([e, s2].iter().all(|gone| *gone != next && *gone != later));
}

#[test]
fn a_body_may_stand_before_its_sketch() {
    let mut doc: Document<f64> = Document::new();
    let s1 = doc.add_sketch(SketchPlane::XY, Sketch::new());
    let e = doc.add_extrude(s1, 0, 5.0);
    doc.add_sketch(SketchPlane::XY, Sketch::new());
    let s2 = doc.add_sketch(SketchPlane::XY, Sketch::new());
    if let Some(Feature::Extrude(extrude)) = doc.feature_mut(e) {
        extrude.sketch = s2;
    }
    assert_eq!(doc.remove(s2), 1);
    assert_eq!(doc.len(), 2);
    assert_eq!(doc.remove(s2), 2);
}

#[test]
fn a_partial_rebuild_gives_what_a_full_one_gives() {
    let mut doc = Document::new();
    let s1 = doc.add_sketch(SketchPlane::XY, square_sketch(10.0));
    doc.add_extrude(s1, 0, 5.0);
    let s2 = doc.add_sketch(SketchPlane::XZ, square_sketch(2.0));
    let e2 = doc.add_extrude(s2, 0, 1.0);
    let mut partial = RebuildState::new();
    rebuild(&doc, 0, &mut partial, &ops());
    if let Some(Feature::Extrude(e)) = doc.feature_mut(e2) {
        e.distance = 3.0;
    }
    rebuild(&doc, doc.index_of(e2).unwrap(), &mut partial, &ops());
    let mut full = RebuildState::new();
    rebuild(&doc, 0, &mut full, &ops());
    assert_eq!(partial.entries.len(), full.entries.len());
    for (a, b) in partial.bodies().iter().zip(full.bodies()) {
        assert_eq!(a.0, b.0);
        assert_eq!(a.1.positions, b.1.positions);
        assert_eq!(a.1.normals, b.1.normals);
        assert_eq!(a.1.indices, b.1.indices);
    }
}
