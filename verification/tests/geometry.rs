//! Solids, meshes and their export.
use std::collections::HashSet;

use truck_meshalgo::prelude::MeshableShape;
use truck_modeling::{builder, Invertible, Point3, Rad, Solid, Vector3, Wire, TOLERANCE};

use rustcad::expr::Expr;
use rustcad::geometry::{
    extrude, profile_face, revolve, Axis2D, GeomError, Plane, Profile2D, SolidPlan, Sweep, WireEdge,
};
use rustcad::mesh::{append_polygon, export_stl, triangle_normal, Corner, TriMesh};

/// Double precision arithmetic on formulas.
fn eval(e: &Expr<f64>, v: &Vec<f64>) -> f64 {
    match e {
        Expr::Ratio(n, d) => *n as f64 / *d as f64,
        Expr::Value(x) => *x,
        Expr::Var(id) => v[id.index],
        Expr::Neg(a) => -eval(a, v),
        Expr::Add(a, b) => eval(a, v) + eval(b, v),
        Expr::Sub(a, b) => eval(a, v) - eval(b, v),
        Expr::Mul(a, b) => eval(a, v) * eval(b, v),
        Expr::Div(a, b) => eval(a, v) / eval(b, v),
        Expr::Sqrt(a) => eval(a, v).sqrt(),
        Expr::Abs(a) => eval(a, v).abs(),
        Expr::Max(a, b) => eval(a, v).max(eval(b, v)),
        Expr::Clamp(a) => eval(a, v).clamp(0.0, 1.0),
        Expr::IfTiny(test, small, large) => {
            if eval(test, v) <= f64::EPSILON {
                eval(small, v)
            } else {
                eval(large, v)
            }
        }
    }
}

fn less(a: &f64, b: &f64) -> bool {
    a < b
}

fn at_most(a: &f64, b: &f64) -> bool {
    a <= b
}

fn point(p: [f64; 3]) -> Point3 {
    Point3::new(p[0], p[1], p[2])
}

/// Builds the solid that a plan describes.
fn build(plan: &SolidPlan<f64>) -> Result<Solid, String> {
    let vertices: Vec<_> = plan.wire.vertices.iter().map(|p| builder::vertex(point(*p))).collect();
    let wire: Wire = plan
        .wire
        .edges
        .iter()
        .map(|edge| match edge {
            WireEdge::Line { from, to } => builder::line(&vertices[*from], &vertices[*to]),
            WireEdge::Arc { from, to, via } => {
                builder::circle_arc(&vertices[*from], &vertices[*to], point(*via))
            }
        })
        .collect();
    let face = builder::try_attach_plane(&[wire])
        .map_err(|e| e.to_string())?;
    Ok(match plan.sweep {
        Sweep::Along(v) => builder::tsweep(&face, Vector3::new(v[0], v[1], v[2])),
        Sweep::Around { origin, direction, angle } => builder::rsweep(
            &face,
            point(origin),
            Vector3::new(direction[0], direction[1], direction[2]),
            Rad(angle),
        ),
    })
}

fn narrow(p: [f64; 3]) -> [f32; 3] {
    [p[0] as f32, p[1] as f32, p[2] as f32]
}

/// The mesh of a solid, face by face.
fn tessellate(solid: &Solid, tolerance: f64) -> TriMesh<f32> {
    let meshed = solid.triangulation(tolerance.max(TOLERANCE * 2.0));
    let mut mesh: TriMesh<f32> = TriMesh::new();
    for (face_id, face) in meshed.face_iter().enumerate() {
        let Some(mut polygon) = face.surface() else {
            continue;
        };
        if !face.orientation() {
            polygon.invert();
        }
        let wide: Vec<[f64; 3]> = polygon.positions().iter().map(|p| [p.x, p.y, p.z]).collect();
        let positions: Vec<[f32; 3]> = wide.iter().map(|p| narrow(*p)).collect();
        let normals: Vec<[f32; 3]> =
            polygon.normals().iter().map(|n| narrow([n.x, n.y, n.z])).collect();
        let mut corners = Vec::new();
        for tri in polygon.faces().triangle_iter() {
            let (a, b, c) = (&wide[tri[0].pos], &wide[tri[1].pos], &wide[tri[2].pos]);
            let none = Vec::new();
            let normal = [0, 1, 2].map(|i| eval(&triangle_normal(a, b, c, i), &none) as f32);
            for v in tri {
                corners.push(Corner { position: v.pos, normal: v.nor, fallback: normal });
            }
        }
        append_polygon(&mut mesh, &positions, &normals, &corners, face_id as u32);
    }
    let mut seen = HashSet::new();
    for edge in meshed.edge_iter() {
        if seen.insert(edge.id()) {
            let polyline = edge.curve();
            mesh.edges.push(polyline.0.iter().map(|p| narrow([p.x, p.y, p.z])).collect());
        }
    }
    mesh
}

/// The signed volume that a mesh encloses.
fn signed_volume(mesh: &TriMesh<f32>) -> f64 {
    let p = |i: u32| mesh.positions[i as usize].map(|x| x as f64);
    mesh.indices
        .chunks_exact(3)
        .map(|t| {
            let (a, b, c) = (p(t[0]), p(t[1]), p(t[2]));
            (a[0] * (b[1] * c[2] - b[2] * c[1])
                + a[1] * (b[2] * c[0] - b[0] * c[2])
                + a[2] * (b[0] * c[1] - b[1] * c[0]))
                / 6.0
        })
        .sum()
}

fn mesh_volume(mesh: &TriMesh<f32>) -> f64 {
    signed_volume(mesh)
}

/// A cube with axes along those of space.
fn cube(origin: [f64; 3], size: f64) -> Solid {
    let vertex = builder::vertex(point(origin));
    let edge = builder::tsweep(&vertex, Vector3::new(size, 0.0, 0.0));
    let face = builder::tsweep(&edge, Vector3::new(0.0, size, 0.0));
    builder::tsweep(&face, Vector3::new(0.0, 0.0, size))
}

fn low(a: &f32, b: &f32) -> f32 {
    a.min(*b)
}

fn high(a: &f32, b: &f32) -> f32 {
    a.max(*b)
}

#[test]
fn cube_tessellation_volume_and_bbox() {
    let solid = cube([-1.0, -1.0, 0.0], 2.0);
    let mesh = tessellate(&solid, 0.01);

    assert_eq!(mesh.positions.len(), mesh.normals.len());
    assert_eq!(mesh.indices.len() % 3, 0);
    assert!(!mesh.indices.is_empty());

    let volume = mesh_volume(&mesh).abs();
    assert!((volume - 8.0).abs() < 1e-6, "the volume was {volume}");

    let (min, max) = mesh.bounding_box(&low, &high).expect("there are vertices");
    assert_eq!(min, [-1.0, -1.0, 0.0]);
    assert_eq!(max, [1.0, 1.0, 2.0]);
}

#[test]
fn cube_has_twelve_edges_and_six_faces() {
    let mesh = tessellate(&cube([0.0; 3], 1.0), 0.01);
    assert_eq!(mesh.edges.len(), 12);
    assert!(mesh.edges.iter().all(|e| e.len() >= 2));
    assert_eq!(mesh.face_ids.len(), mesh.positions.len());
    let max_face = mesh.face_ids.iter().max().copied().unwrap();
    assert_eq!(max_face, 5, "a cube has six faces");
}

const XY: Plane<f64> = Plane {
    origin: [0.0; 3],
    u: [1.0, 0.0, 0.0],
    v: [0.0, 1.0, 0.0],
};

fn extruded(profile: &Profile2D<f64>, distance: f64) -> Result<SolidPlan<f64>, GeomError> {
    extrude(profile, &XY, distance, &eval, &less, &at_most)
}

fn planned(result: Result<SolidPlan<f64>, GeomError>) -> Solid {
    match result {
        Ok(plan) => build(&plan).expect("the kernel builds it"),
        Err(error) => panic!("{}", error.message()),
    }
}

#[test]
fn extrude_square_golden_volume() {
    let profile = Profile2D::Polygon(vec![[0.0, 0.0], [10.0, 0.0], [10.0, 10.0], [0.0, 10.0]]);
    let solid = planned(extruded(&profile, 5.0));
    let mesh = tessellate(&solid, 0.01);
    let volume = mesh_volume(&mesh).abs();
    assert!((volume - 500.0).abs() < 1e-6, "the volume was {volume}");
}

#[test]
fn extrude_circle_volume_is_cylinder() {
    let profile = Profile2D::Circle {
        center: [2.0, 3.0],
        radius: 1.0,
    };
    let solid = planned(extruded(&profile, 2.0));
    let mesh = tessellate(&solid, 0.001);
    let volume = mesh_volume(&mesh).abs();
    let expected = std::f64::consts::PI * 2.0;
    let relative = (volume - expected).abs() / expected;
    assert!(relative < 0.005, "the volume was {volume}, expected {expected}");
}

#[test]
fn revolve_square_full_turn_pappus() {
    let profile = Profile2D::Polygon(vec![[1.0, 0.0], [2.0, 0.0], [2.0, 1.0], [1.0, 1.0]]);
    let axis = Axis2D {
        origin: [0.0, 0.0],
        dir: [0.0, 1.0],
    };
    let angle = std::f64::consts::TAU;
    let solid = planned(revolve(&profile, &XY, &axis, angle, &eval, &less, &at_most));
    let mesh = tessellate(&solid, 0.001);
    let volume = mesh_volume(&mesh).abs();
    let expected = 3.0 * std::f64::consts::PI;
    let relative = (volume - expected).abs() / expected;
    assert!(relative < 0.005, "the volume was {volume}, expected {expected}");
}

/// The bytes of the export of a mesh.
fn exported(mesh: &TriMesh<f32>) -> Vec<u8> {
    export_stl(mesh, &eval, &|x: &f32| *x as f64, &|x: &f64| (*x as f32).to_bits())
}

#[test]
fn a_triangle_is_exported_with_its_own_normal() {
    let mut mesh: TriMesh<f32> = TriMesh::new();
    mesh.positions = vec![[0.0, 0.0, 0.0], [1.0, 0.0, 0.0], [0.0, 1.0, 0.0]];
    mesh.normals = vec![[1.0, 0.0, 0.0]; 3];
    mesh.face_ids = vec![0; 3];
    mesh.indices = vec![0, 1, 2];
    let data = exported(&mesh);
    assert_eq!(data.len(), 134);
    assert_eq!(data[80..84], [1, 0, 0, 0]);
    let numbers: Vec<f32> = (0..12)
        .map(|i| f32::from_le_bytes(data[84 + 4 * i..88 + 4 * i].try_into().expect("f32")))
        .collect();
    assert_eq!(numbers[..3], [0.0, 0.0, 1.0]);
    assert_eq!(numbers[3..], [0.0, 0.0, 0.0, 1.0, 0.0, 0.0, 0.0, 1.0, 0.0]);
    assert_eq!(data[132..], [0, 0]);
}

#[test]
fn stl_export_writes_valid_binary_layout() {
    let mesh = tessellate(&cube([0.0; 3], 2.0), 0.01);
    let data = exported(&mesh);

    let triangle_count = mesh.indices.len() / 3;
    assert_eq!(data.len(), 84 + 50 * triangle_count);
    let count_in_file = u32::from_le_bytes(data[80..84].try_into().expect("u32"));
    assert_eq!(count_in_file as usize, triangle_count);
    // the first normal has length one
    let n: Vec<f32> = (0..3)
        .map(|i| f32::from_le_bytes(data[84 + 4 * i..88 + 4 * i].try_into().expect("f32")))
        .collect();
    let len = (n[0] * n[0] + n[1] * n[1] + n[2] * n[2]).sqrt();
    assert!((len - 1.0).abs() < 1e-5, "the length was {len}");
}

#[test]
fn the_export_begins_with_its_name_and_holds_the_corners() {
    let mesh = tessellate(&cube([0.0; 3], 2.0), 0.01);
    let data = exported(&mesh);
    assert_eq!(&data[..18], b"RustCAD binary STL");
    assert!(data[18..80].iter().all(|b| *b == 0));
    for corner in 0..3 {
        let p = mesh.positions[mesh.indices[corner] as usize];
        for (i, x) in p.iter().enumerate() {
            let at = 84 + 12 + 12 * corner + 4 * i;
            assert_eq!(data[at..at + 4], x.to_le_bytes());
        }
    }
    assert_eq!(data[132..134], [0, 0]);
}

#[test]
fn merge_combines_meshes() {
    let mut a = tessellate(&cube([0.0; 3], 1.0), 0.01);
    let b = tessellate(&cube([2.0, 0.0, 0.0], 1.0), 0.01);
    let (a_pos, a_idx) = (a.positions.len(), a.indices.len());
    a.merge(&b);
    assert_eq!(a.positions.len(), a_pos + b.positions.len());
    assert_eq!(a.indices.len(), a_idx + b.indices.len());
    let volume = mesh_volume(&a);
    assert!((volume - 2.0).abs() < 1e-6, "the volume was {volume}");
}

#[test]
fn degenerate_profiles_are_rejected() {
    assert!(extruded(&Profile2D::Polygon(vec![[0.0, 0.0], [1.0, 0.0]]), 1.0).is_err());
    assert!(extruded(
        &Profile2D::Circle {
            center: [0.0, 0.0],
            radius: 0.0
        },
        1.0
    )
    .is_err());
    let square = Profile2D::Polygon(vec![[0.0, 0.0], [1.0, 0.0], [1.0, 1.0], [0.0, 1.0]]);
    assert!(extruded(&square, 0.0).is_err());
}

#[test]
fn geometry_errors_have_messages() {
    assert_eq!(GeomError::DegenerateProfile.message(), "Profil ist degeneriert");
    assert_eq!(
        GeomError::FaceCreation("x".to_string()).message(),
        "Fläche nicht erzeugbar: x"
    );
}

#[test]
fn plans_stand_in_space() {
    let plane = Plane { origin: [1.0, 2.0, 3.0], u: [0.0, 1.0, 0.0], v: [0.0, 0.0, 1.0] };
    let triangle = Profile2D::Polygon(vec![[0.0, 0.0], [2.0, 0.0], [0.0, 3.0]]);
    match extrude(&triangle, &plane, -4.0, &eval, &less, &at_most) {
        Ok(plan) => {
            assert_eq!(
                plan.wire.vertices,
                vec![[1.0, 2.0, 3.0], [1.0, 4.0, 3.0], [1.0, 2.0, 6.0]]
            );
            assert_eq!(plan.wire.edges[2], WireEdge::Line { from: 2, to: 0 });
            assert_eq!(plan.sweep, Sweep::Along([-4.0, 0.0, 0.0]));
        }
        Err(_) => panic!("a triangle has an extent"),
    }
    let axis = Axis2D { origin: [1.0, 0.0], dir: [0.0, 5.0] };
    match revolve(&triangle, &plane, &axis, 1.5, &eval, &less, &at_most) {
        Ok(plan) => assert_eq!(
            plan.sweep,
            Sweep::Around { origin: [1.0, 3.0, 3.0], direction: [0.0, 0.0, 1.0], angle: 1.5 }
        ),
        Err(_) => panic!("a triangle has an extent"),
    }
    assert!(revolve(&triangle, &plane, &axis, 1e-7, &eval, &less, &at_most).is_err());
}

#[test]
fn a_circle_is_two_arcs() {
    let circle = Profile2D::Circle { center: [1.0, 1.0], radius: 2.0 };
    match profile_face(&circle, &XY, &eval, &at_most) {
        Ok(wire) => {
            assert_eq!(wire.vertices, vec![[3.0, 1.0, 0.0], [-1.0, 1.0, 0.0]]);
            assert_eq!(
                wire.edges,
                vec![
                    WireEdge::Arc { from: 0, to: 1, via: [1.0, 3.0, 0.0] },
                    WireEdge::Arc { from: 1, to: 0, via: [1.0, -1.0, 0.0] },
                ]
            );
        }
        Err(_) => panic!("the radius is positive"),
    }
}

#[test]
fn corners_of_one_vertex_are_welded() {
    let mut mesh: TriMesh<u32> = TriMesh::new();
    let positions = vec![[0, 0, 0], [1, 0, 0], [0, 1, 0], [1, 1, 0]];
    let normals = vec![[0, 0, 1]];
    let corner = |position, normal| Corner { position, normal, fallback: [7, 7, 7] };
    let corners = vec![
        corner(0, Some(0)),
        corner(1, Some(0)),
        corner(2, None),
        corner(1, Some(0)),
        corner(3, Some(0)),
        corner(2, Some(0)),
    ];
    append_polygon(&mut mesh, &positions, &normals, &corners, 4);
    assert_eq!(mesh.indices, vec![0, 1, 2, 1, 3, 4]);
    assert_eq!(mesh.positions.len(), 5);
    assert_eq!(mesh.normals[2], [7, 7, 7]);
    assert_eq!(mesh.normals[4], [0, 0, 1]);
    assert_eq!(mesh.face_ids, vec![4; 5]);
}

#[test]
fn the_normal_of_a_flat_triangle_points_up() {
    let a = [1.0, 1.0, 1.0];
    let none = Vec::new();
    let normal = [0, 1, 2].map(|i| eval(&triangle_normal(&a, &a, &a, i), &none));
    assert_eq!(normal, [0.0, 0.0, 1.0]);
    let b = [2.0, 1.0, 1.0];
    let c = [1.0, 1.0, 4.0];
    let normal = [0, 1, 2].map(|i| eval(&triangle_normal(&a, &b, &c, i), &none));
    assert_eq!(normal, [0.0, -1.0, 0.0]);
}

#[test]
fn a_mesh_without_vertices_has_no_box() {
    let mesh: TriMesh<f32> = TriMesh::new();
    assert!(mesh.bounding_box(&low, &high).is_none());
}

#[test]
fn loose_meshes_are_merged_as_they_are() {
    let mut a: TriMesh<f32> = TriMesh::new();
    a.positions.push([0.0; 3]);
    a.indices.push(7);
    let mut b: TriMesh<f32> = TriMesh::new();
    b.normals.push([1.0; 3]);
    b.indices.push(4);
    b.face_ids.push(9);
    a.merge(&b);
    assert_eq!(a.positions, vec![[0.0; 3]]);
    assert_eq!(a.normals, vec![[1.0; 3]]);
    assert_eq!(a.indices, vec![7, 5]);
    assert_eq!(a.face_ids, vec![9]);
}
