//! The file format.
use std::collections::HashSet;

use truck_meshalgo::prelude::MeshableShape;
use truck_modeling::{builder, Invertible, Point3, Rad, Solid, Vector3, Wire, TOLERANCE};

use rustcad::dimension::DimensionTarget;
use rustcad::document::{Document, DocumentData, FeatureData, RevolveAxis, SketchPlane};
use rustcad::expr::Expr;
use rustcad::geometry::{SolidPlan, Sweep, WireEdge};
use rustcad::ids::{ConstraintId, FeatureId};
use rustcad::mesh::{append_polygon, triangle_normal, Corner, TriMesh};
use rustcad::persist::{
    pack_document, unpack_document, DocumentFile, PersistError, FORMAT_VERSION,
};
use rustcad::rebuild::{rebuild, RebuildOps, RebuildState};
use rustcad::sketch::{Sketch, SketchData, SketchPoint};
use rustcad::slots::Arena;

/// Double precision arithmetic on formulas.
fn eval(e: &Expr<f64>, v: &Vec<f64>) -> f64 {
    match e {
        Expr::Ratio(n, d) => *n as f64 / *d as f64,
        Expr::Value(x) => *x,
        Expr::Var(id) => v[id.index],
        Expr::Neg(a) => -eval(a, v),
        Expr::Add(a, b) => eval(a, v) + eval(b, v),
        Expr::Sub(a, b) => eval(a, v) - eval(b, v),
        Expr::Mul(a, b) => eval(a, v) * eval(b, v),
        Expr::Div(a, b) => eval(a, v) / eval(b, v),
        Expr::Sqrt(a) => eval(a, v).sqrt(),
        Expr::Abs(a) => eval(a, v).abs(),
        Expr::Max(a, b) => eval(a, v).max(eval(b, v)),
        Expr::Clamp(a) => eval(a, v).clamp(0.0, 1.0),
        Expr::IfTiny(test, small, large) => {
            if eval(test, v) <= f64::EPSILON {
                eval(small, v)
            } else {
                eval(large, v)
            }
        }
    }
}

fn less(a: &f64, b: &f64) -> bool {
    a < b
}

fn at_most(a: &f64, b: &f64) -> bool {
    a <= b
}

fn point(p: [f64; 3]) -> Point3 {
    Point3::new(p[0], p[1], p[2])
}

/// Builds the solid that a plan describes.
fn build(plan: &SolidPlan<f64>) -> Result<Solid, String> {
    let vertices: Vec<_> = plan.wire.vertices.iter().map(|p| builder::vertex(point(*p))).collect();
    let wire: Wire = plan
        .wire
        .edges
        .iter()
        .map(|edge| match edge {
            WireEdge::Line { from, to } => builder::line(&vertices[*from], &vertices[*to]),
            WireEdge::Arc { from, to, via } => {
                builder::circle_arc(&vertices[*from], &vertices[*to], point(*via))
            }
        })
        .collect();
    let face = builder::try_attach_plane(&[wire])
        .map_err(|e| e.to_string())?;
    Ok(match plan.sweep {
        Sweep::Along(v) => builder::tsweep(&face, Vector3::new(v[0], v[1], v[2])),
        Sweep::Around { origin, direction, angle } => builder::rsweep(
            &face,
            point(origin),
            Vector3::new(direction[0], direction[1], direction[2]),
            Rad(angle),
        ),
    })
}

fn narrow(p: [f64; 3]) -> [f32; 3] {
    [p[0] as f32, p[1] as f32, p[2] as f32]
}

/// The mesh of a solid, face by face.
fn tessellate(solid: &Solid, tolerance: f64) -> TriMesh<f32> {
    let meshed = solid.triangulation(tolerance.max(TOLERANCE * 2.0));
    let mut mesh: TriMesh<f32> = TriMesh::new();
    for (face_id, face) in meshed.face_iter().enumerate() {
        let Some(mut polygon) = face.surface() else {
            continue;
        };
        if !face.orientation() {
            polygon.invert();
        }
        let wide: Vec<[f64; 3]> = polygon.positions().iter().map(|p| [p.x, p.y, p.z]).collect();
        let positions: Vec<[f32; 3]> = wide.iter().map(|p| narrow(*p)).collect();
        let normals: Vec<[f32; 3]> =
            polygon.normals().iter().map(|n| narrow([n.x, n.y, n.z])).collect();
        let mut corners = Vec::new();
        for tri in polygon.faces().triangle_iter() {
            let (a, b, c) = (&wide[tri[0].pos], &wide[tri[1].pos], &wide[tri[2].pos]);
            let none = Vec::new();
            let normal = [0, 1, 2].map(|i| eval(&triangle_normal(a, b, c, i), &none) as f32);
            for v in tri {
                corners.push(Corner { position: v.pos, normal: v.nor, fallback: normal });
            }
        }
        append_polygon(&mut mesh, &positions, &normals, &corners, face_id as u32);
    }
    let mut seen = HashSet::new();
    for edge in meshed.edge_iter() {
        if seen.insert(edge.id()) {
            let polyline = edge.curve();
            mesh.edges.push(polyline.0.iter().map(|p| narrow([p.x, p.y, p.z])).collect());
        }
    }
    mesh
}

fn kernel(plan: &SolidPlan<f64>) -> Result<TriMesh<f32>, String> {
    Ok(tessellate(&build(plan)?, 0.005))
}

type Ops = RebuildOps<
    fn(&Expr<f64>, &Vec<f64>) -> f64,
    fn(&f64, &f64) -> bool,
    fn(&f64, &f64) -> bool,
    fn(&SolidPlan<f64>) -> Result<TriMesh<f32>, String>,
>;

fn ops() -> Ops {
    RebuildOps { eval, less, at_most, kernel }
}

/// The signed volume that a mesh encloses.
fn signed_volume(mesh: &TriMesh<f32>) -> f64 {
    let p = |i: u32| mesh.positions[i as usize].map(|x| x as f64);
    mesh.indices
        .chunks_exact(3)
        .map(|t| {
            let (a, b, c) = (p(t[0]), p(t[1]), p(t[2]));
            (a[0] * (b[1] * c[2] - b[2] * c[1])
                + a[1] * (b[2] * c[0] - b[0] * c[2])
                + a[2] * (b[0] * c[1] - b[1] * c[0]))
                / 6.0
        })
        .sum()
}

fn mesh_stats(state: &RebuildState<f32>) -> Vec<(usize, usize, f64)> {
    state
        .bodies()
        .iter()
        .map(|(_, m)| (m.positions.len(), m.indices.len(), signed_volume(m)))
        .collect()
}

/// Written and read again.
fn reloaded(doc: &Document<f64>) -> Document<f64> {
    match unpack_document(pack_document(doc)) {
        Ok(doc) => doc,
        Err(error) => panic!("{}", error.message()),
    }
}

#[test]
fn rcad_roundtrip_preserves_mesh_statistics() {
    let mut doc = Document::new();
    let mut sketch = Sketch::new();
    let pts = [
        sketch.add_point([1.0, 0.0]),
        sketch.add_point([4.0, 0.0]),
        sketch.add_point([4.0, 2.0]),
        sketch.add_point([1.0, 2.0]),
    ];
    for i in 0..4 {
        sketch.add_line(pts[i], pts[(i + 1) % 4]);
    }
    let mut circle_sketch = Sketch::new();
    let center = circle_sketch.add_point([0.0, 0.0]);
    circle_sketch.add_circle(center, 1.5);

    let s1 = doc.add_sketch(SketchPlane::XY, sketch);
    doc.add_extrude(s1, 0, 3.0);
    let s2 = doc.add_sketch(SketchPlane::XZ, circle_sketch);
    doc.add_revolve(s1, 0, RevolveAxis::V, std::f64::consts::TAU);
    doc.add_extrude(s2, 0, 1.0);

    let mut state = RebuildState::new();
    rebuild(&doc, 0, &mut state, &ops());
    let stats_before = mesh_stats(&state);
    assert_eq!(stats_before.len(), 3);

    let loaded = reloaded(&doc);

    let mut state_after = RebuildState::new();
    rebuild(&loaded, 0, &mut state_after, &ops());
    let stats_after = mesh_stats(&state_after);

    assert_eq!(stats_before, stats_after);
}

#[test]
fn rcad_roundtrip_preserves_dimensions_and_offsets() {
    let mut doc = Document::new();
    let mut sketch = Sketch::new();
    let p1 = sketch.add_point([0.0, 0.0]);
    let p2 = sketch.add_point([4.0, 0.0]);
    let p3 = sketch.add_point([4.0, 2.0]);
    let p4 = sketch.add_point([0.0, 2.0]);
    for (a, b) in [(p1, p2), (p2, p3), (p3, p4), (p4, p1)] {
        sketch.add_line(a, b);
    }
    let center = sketch.add_point([2.0, 1.0]);
    let circle = sketch.add_circle(center, 0.5);

    sketch
        .add_dimension(DimensionTarget::Linear(p1, p2), 4.0, [0.0, -1.5], &eval)
        .expect("linear dimension");
    sketch
        .add_dimension(DimensionTarget::Diameter(circle), 1.0, [0.7, 0.7], &eval)
        .expect("diameter dimension");

    let before: Vec<_> = sketch.dimensions().into_iter().map(|(_, d)| d).collect();
    assert_eq!(before.len(), 2);

    doc.add_sketch(SketchPlane::XY, sketch);

    let loaded = reloaded(&doc);

    let (_, feature) = loaded.sketch_features()[0];
    let after: Vec<_> = feature.sketch.dimensions().into_iter().map(|(_, d)| d).collect();

    assert_eq!(before, after);
}

#[test]
fn newer_format_version_is_rejected() {
    let empty: Document<f64> = Document::new();
    let file = DocumentFile {
        format_version: 99,
        document: empty.to_data(),
    };
    let result = unpack_document(file);
    assert!(matches!(result, Err(PersistError::UnsupportedVersion(99))));
}

#[test]
fn older_versions_are_read() {
    let doc: Document<f64> = Document::new();
    for version in 0..=FORMAT_VERSION {
        let file = DocumentFile { format_version: version, document: doc.to_data() };
        assert!(unpack_document(file).is_ok());
    }
    assert_eq!(pack_document(&doc).format_version, 2);
}

#[test]
fn file_errors_have_messages() {
    let reason = || "x".to_string();
    assert_eq!(PersistError::Io(reason()).message(), "E/A-Fehler: x");
    assert_eq!(PersistError::Serialize(reason()).message(), "Serialisierung fehlgeschlagen: x");
    assert_eq!(PersistError::Deserialize(reason()).message(), "Datei nicht lesbar: x");
    assert_eq!(
        PersistError::UnsupportedVersion(99).message(),
        "Dateiformat-Version 99 wird nicht unterstützt (max. 2)"
    );
}

#[test]
fn keys_survive_a_round_trip() {
    let mut sketch: Sketch<f64> = Sketch::new();
    let a = sketch.add_point([0.0, 0.0]);
    let b = sketch.add_point([1.0, 0.0]);
    let c = sketch.add_point([2.0, 0.0]);
    let first = sketch.add_line(a, b);
    let second = sketch.add_line(b, c);
    // the slots of what is deleted are used again
    sketch.delete_entity(first);
    let d = sketch.add_point([3.0, 0.0]);
    let third = sketch.add_line(c, d);
    sketch.delete_entity(third);
    let fourth = sketch.add_line(b, c);
    let data = sketch.to_data();
    let again = Sketch::from_data(data.clone()).expect("it describes a sketch");
    assert_eq!(again.points(), sketch.points());
    assert_eq!(again.entities(), sketch.entities());
    assert!(again.entity(second).is_some());
    assert!(again.entity(fourth).is_some());
    assert!(again.entity(first).is_none());
    assert!(again.entity(third).is_none());
    assert_eq!(again.to_data(), data);
}

/// A line with its length as a dimension.
fn measured_line() -> SketchData<f64> {
    let mut sketch: Sketch<f64> = Sketch::new();
    let a = sketch.add_point([0.0, 0.0]);
    let b = sketch.add_point([1.0, 0.0]);
    sketch.add_line(a, b);
    sketch
        .add_dimension(DimensionTarget::Linear(a, b), 1.0, [0.0, 1.0], &eval)
        .expect("dimension");
    sketch.to_data()
}

#[test]
fn slots_that_cannot_be_are_refused() {
    let good = measured_line();
    assert!(Sketch::from_data(good.clone()).is_some());

    let mut vacant = good.clone();
    vacant.entities[1].1 = 2;
    assert!(Sketch::from_data(vacant).is_none());

    let mut occupied = good;
    occupied.points[0] = occupied.points[1];
    assert!(Sketch::from_data(occupied).is_none());
}

#[test]
fn loose_sketches_are_read_as_they_are() {
    let good = measured_line();

    let mut shared: SketchData<f64> = good.clone();
    shared.points[2].0 = shared.points[1].0;
    let sketch = Sketch::from_data(shared.clone()).expect("two points with the same variables");
    assert!(sketch.is_linked());
    assert_eq!(sketch.points().len(), 2);
    assert_eq!(sketch.to_data(), shared);

    let mut missing = good.clone();
    missing.vars.truncate(3);
    let sketch = Sketch::from_data(missing.clone()).expect("a point without its variable");
    assert!(!sketch.is_readable());
    assert!(!sketch.is_linked());
    assert_eq!(sketch.to_data(), missing);

    let mut dangling = good.clone();
    dangling.points[2] = (None, 2);
    let sketch = Sketch::from_data(dangling.clone()).expect("a line without its point");
    assert!(sketch.is_readable());
    assert!(!sketch.is_joined());
    assert!(!sketch.is_linked());
    assert_eq!(sketch.to_data(), dangling);

    let mut undriven = good.clone();
    if let Some(dimension) = &mut undriven.dimensions[1].0 {
        dimension.constraint = ConstraintId { raw: 77 };
    }
    let sketch = Sketch::from_data(undriven.clone()).expect("a dimension without its constraint");
    assert!(sketch.is_linked());
    let id = sketch.dimensions()[0].0;
    assert_eq!(sketch.dimension_value(id, &eval), None);
    assert_eq!(sketch.to_data(), undriven);

    let mut twice = good;
    twice.dimensions.push(twice.dimensions[1]);
    let mut sketch = Sketch::from_data(twice.clone()).expect("two dimensions of one constraint");
    assert_eq!(sketch.to_data(), twice);
    let ids: Vec<_> = sketch.dimensions().iter().map(|(id, _)| *id).collect();
    assert_eq!(sketch.dimension_value(ids[1], &eval), Some(1.0));
    // the constraint goes with the first, and the second measures nothing
    sketch.remove_dimension(ids[0]);
    assert_eq!(sketch.dimension_value(ids[1], &eval), None);
    assert_eq!(sketch.constraint_count(), 0);
}

#[test]
fn histories_are_read_as_they_are() {
    let mut doc: Document<f64> = Document::new();
    let s = doc.add_sketch(SketchPlane::XY, Sketch::new());
    let e = doc.add_extrude(s, 0, 1.0);
    let good = doc.to_data();
    assert!(Document::from_data(good.clone()).is_some());

    let mut short: DocumentData<f64> = good.clone();
    short.features.pop();
    let mut orphan = Document::from_data(short.clone()).expect("a feature without its place");
    assert!(orphan.is_linked());
    assert_eq!((orphan.len(), orphan.stored_count()), (1, 2));
    assert!(orphan.feature(e).is_some());
    assert_eq!(orphan.index_of(e), None);
    assert_eq!(orphan.to_data(), short);
    // only what the history lists goes with the sketch
    assert_eq!(orphan.remove(s), 0);
    assert_eq!((orphan.len(), orphan.stored_count()), (0, 1));
    assert_eq!(orphan.remove(e), 0);
    assert!(orphan.feature(e).is_some());

    let mut twice = good.clone();
    twice.features[1] = s;
    let mut again = Document::from_data(twice.clone()).expect("a feature with two places");
    assert!(again.is_linked());
    assert_eq!(again.index_of(s), Some(0));
    assert_eq!(again.features().len(), 2);
    assert_eq!(again.to_data(), twice);
    assert_eq!(again.remove(s), 0);
    assert_eq!((again.len(), again.stored_count()), (0, 1));

    let mut stranger = good.clone();
    stranger.features.push(FeatureId { raw: 77 });
    let file = DocumentFile { format_version: 2, document: stranger.clone() };
    let loaded = unpack_document(file).ok().expect("a place without its feature");
    assert!(!loaded.is_listed());
    assert!(!loaded.is_linked());
    assert_eq!(loaded.to_data(), stranger);

    let bare: DocumentData<f64> = DocumentData { features: good.features, store: Vec::new() };
    let file = DocumentFile { format_version: 2, document: bare };
    assert!(matches!(unpack_document(file), Err(PersistError::Deserialize(_))));
}

#[test]
fn documents_are_described_by_plain_data() {
    let mut doc: Document<f64> = Document::new();
    let s = doc.add_sketch(SketchPlane::YZ, Sketch::new());
    doc.add_extrude(s, 3, 1.5);
    let data = doc.to_data();
    assert_eq!(data.features.len(), 2);
    assert_eq!(data.store.len(), 3);
    assert_eq!(data.store[0], (None, 0));
    assert_eq!((s.raw, data.store[1].1), (0x1_0000_0001, 1));
    assert!(matches!(data.store[1].0, Some(FeatureData::Sketch(SketchPlane::YZ, _))));
    match &data.store[2].0 {
        Some(FeatureData::Extrude(e)) => {
            assert_eq!((e.sketch, e.profile, e.distance), (s, 3, 1.5));
        }
        _ => panic!("an extrusion was expected"),
    }
}

#[test]
fn unlinked_sketches_are_recognized() {
    let mut sketch: Sketch<f64> = Sketch::new();
    let a = sketch.add_point([0.0, 0.0]);
    let b = sketch.add_point([1.0, 0.0]);
    sketch.add_line(a, b);
    assert!(sketch.is_linked());
    let mut data = sketch.to_data();
    data.points[2] = (None, 2);
    let broken = Sketch::from_data(data).expect("the slots are good");
    assert!(!broken.is_linked());
    let mut doc = Document::new();
    doc.add_sketch(SketchPlane::XY, sketch);
    assert!(doc.is_linked());
    doc.add_sketch(SketchPlane::XY, broken);
    assert!(!doc.is_linked());
    assert!(!reloaded(&doc).is_linked());
    let id = doc.sketch_features()[1].0;
    doc.remove(id);
    assert!(reloaded(&doc).is_linked());
    assert_eq!(reloaded(&doc).to_data(), doc.to_data());
}

#[test]
fn an_arena_is_restored_with_its_keys() {
    let slots = vec![(None, 0), (None, 4), (Some('a'), 7), (Some('b'), 1), (None, 0), (None, 2)];
    let mut arena = Arena::restore(slots.clone()).expect("the slots are good");
    assert_eq!(arena.keys(), vec![0x7_0000_0002, 0x1_0000_0003]);
    assert_eq!(arena.get(0x7_0000_0002), Some(&'a'));
    assert_eq!(arena.get(0x5_0000_0002), None);
    // the vacant slots from the last to the first, then a new one
    assert_eq!(arena.insert('c'), 0x3_0000_0005);
    assert_eq!(arena.insert('d'), 0x1_0000_0004);
    assert_eq!(arena.insert('e'), 0x5_0000_0001);
    assert_eq!(arena.insert('f'), 0x1_0000_0006);
    assert_eq!(arena.len(), 6);
    assert!(Arena::<char>::restore(vec![(None, 0)]).is_some());
    assert!(Arena::<char>::restore(vec![]).is_none());
    assert!(Arena::restore(vec![(Some('a'), 1)]).is_none());
    assert!(Arena::<char>::restore(vec![(None, 1)]).is_none());
    assert!(Arena::restore(vec![(None, 0), (Some('a'), 2)]).is_none());
    assert!(Arena::<char>::restore(vec![(None, 0), (None, 3)]).is_none());
}

#[test]
fn deleted_keys_do_not_come_back_after_a_round_trip() {
    let mut arena = Arena::new();
    let keys: Vec<u64> = (0..4).map(|n| arena.insert(n)).collect();
    arena.remove(keys[1]);
    let again = arena.insert(7);
    arena.remove(again);
    arena.remove(keys[3]);
    let slots = arena.slots();
    assert_eq!(slots, vec![(None, 0), (Some(0), 1), (None, 4), (Some(2), 1), (None, 2)]);
    let mut back = Arena::restore(slots).expect("the slots are good");
    let fresh: Vec<u64> = (0..3).map(|n| back.insert(n)).collect();
    assert_eq!(fresh, vec![0x3_0000_0004, 0x5_0000_0002, 0x1_0000_0005]);
    assert!(!fresh.contains(&again));
    assert!(keys.iter().all(|key| !fresh.contains(key)));
}

#[test]
fn points_are_restored_as_they_were() {
    let mut sketch: Sketch<f64> = Sketch::new();
    let p = sketch.add_point([1.25, -2.5]);
    let data = sketch.to_data();
    let held: SketchPoint = sketch.point(p).unwrap();
    assert_eq!(p.raw, 0x1_0000_0001);
    assert_eq!(data.points, vec![(None, 0), (Some(held), 1)]);
    assert_eq!(data.vars, vec![1.25, -2.5]);
}

#[test]
fn deleted_ids_of_a_sketch_do_not_come_back_after_a_round_trip() {
    let mut sketch: Sketch<f64> = Sketch::new();
    let a = sketch.add_point([0.0, 0.0]);
    let b = sketch.add_point([1.0, 0.0]);
    let line = sketch.add_line(a, b);
    sketch.delete_entity(line);
    let mut doc = Document::new();
    doc.add_sketch(SketchPlane::XY, sketch);
    let loaded = reloaded(&doc);
    let mut copy = loaded.sketch_features()[0].1.sketch.duplicate();
    let c = copy.add_point([2.0, 0.0]);
    let d = copy.add_point([3.0, 0.0]);
    let other = copy.add_line(c, d);
    assert_eq!((c.raw, d.raw), (0x3_0000_0002, 0x3_0000_0001));
    assert_eq!((line.raw, other.raw), (0x1_0000_0001, 0x3_0000_0001));
    assert!(c != a && c != b && d != a && d != b);
}

#[test]
fn copies_do_not_give_out_deleted_ids() {
    let mut doc: Document<f64> = Document::new();
    let gone = doc.add_sketch(SketchPlane::XY, Sketch::new());
    doc.remove(gone);
    let mut copy = doc.duplicate();
    let fresh = copy.add_sketch(SketchPlane::XY, Sketch::new());
    assert_eq!((gone.raw, fresh.raw), (0x1_0000_0001, 0x3_0000_0001));
    assert_eq!(doc.add_sketch(SketchPlane::XY, Sketch::new()), fresh);
}
