//! What is drawn and picked.
use rustcad::mesh::TriMesh;
use rustcad::scene::{
    decode_pick, decode_readback, edge_segments, encode_pick, grid_lines, pixel_in_view,
    scene_mesh, selection_code, GRID_HALF_EXTENT,
};

#[test]
fn pick_codes_are_taken_apart_again() {
    for (body, face) in [(0u16, 0u16), (0, 7), (3, 65534), (65535, 1)] {
        let code = encode_pick(body, face);
        assert_eq!(decode_pick(code), (body, face));
    }
    assert_eq!(encode_pick(3, 7), 0x3_0007);
}

#[test]
fn zero_is_no_selection() {
    assert_eq!(selection_code(None), 0);
    assert_eq!(selection_code(Some((0, 0))), 1);
    assert_eq!(decode_readback(0), None);
    for pick in [(0, 0), (0, 5), (2, 9)] {
        assert_eq!(decode_readback(selection_code(Some(pick))), Some(pick));
    }
}

#[test]
fn pixels_outside_are_not_picked() {
    assert!(pixel_in_view([800, 600], [799, 599]));
    assert!(!pixel_in_view([800, 600], [800, 0]));
    assert!(!pixel_in_view([800, 600], [0, 600]));
    assert!(!pixel_in_view([0, 600], [0, 0]));
}

fn triangle(at: i32, face: u32) -> TriMesh<i32> {
    let mut mesh = TriMesh::new();
    mesh.positions = vec![[at, 0, 0], [at + 1, 0, 0], [at, 1, 0]];
    mesh.normals = vec![[0, 0, 1]; 3];
    mesh.indices = vec![0, 1, 2];
    mesh.face_ids = vec![face; 3];
    mesh.edges = vec![mesh.positions.clone(), vec![[at, 0, 0]]];
    mesh
}

#[test]
fn bodies_follow_each_other_in_the_scene() {
    let (a, b) = (triangle(0, 3), triangle(5, 4));
    let (vertices, indices) = scene_mesh(&vec![&a, &b]);
    assert_eq!(indices, vec![0, 1, 2, 3, 4, 5]);
    assert_eq!(vertices.len(), 6);
    assert_eq!(vertices[4].position, [6, 0, 0]);
    assert_eq!(vertices[4].pick, encode_pick(1, 4));
    assert_eq!(vertices[0].pick, encode_pick(0, 3));
    assert_eq!(vertices[0].normal, [0, 0, 1]);
}

#[test]
fn edges_become_segments() {
    let segments = edge_segments(&triangle(0, 0));
    assert_eq!(
        segments,
        vec![([0, 0, 0], [1, 0, 0]), ([1, 0, 0], [0, 1, 0])]
    );
}

#[test]
fn the_grid_leaves_the_axes_out() {
    let lines = grid_lines();
    assert_eq!(lines.len(), 4 * GRID_HALF_EXTENT as usize);
    assert_eq!(
        lines[0],
        ([-GRID_HALF_EXTENT, -GRID_HALF_EXTENT, 0], [-GRID_HALF_EXTENT, GRID_HALF_EXTENT, 0])
    );
    assert!(lines.iter().all(|(a, b)| !(a[0] == 0 && b[0] == 0) && !(a[1] == 0 && b[1] == 0)));
}
