//! What is drawn and picked in the viewport.
use vstd::prelude::*;

use crate::mesh::{TriMesh, moved_on};

verus! {

/// A face that can be picked: the index of its body and its number there.
pub type PickId = (u16, u16);

/// The number that stands for a face.
pub open spec fn pick_code(id: PickId) -> int {
    id.0 * 0x1_0000 + id.1
}

/// The number that stands for a face.
pub fn encode_pick(body: u16, face: u16) -> (code: u32)
    ensures
        code == pick_code((body, face)),
{
    body as u32 * 0x1_0000 + face as u32
}

/// The face that a number stands for.
pub fn decode_pick(id: u32) -> (pick: PickId)
    ensures
        pick.0 == id / 0x1_0000,
        pick.1 == id % 0x1_0000,
        pick_code(pick) == id,
{
    ((id / 0x1_0000) as u16, (id % 0x1_0000) as u16)
}

/// Different faces have different numbers.
pub proof fn lemma_pick_code_injective(a: PickId, b: PickId)
    requires
        pick_code(a) == pick_code(b),
    ensures
        a == b,
{
}

/// The number that is drawn for a selection: zero for none, else one more than
/// the number of the face.
pub open spec fn shown_code(selection: Option<PickId>) -> int {
    match selection {
        Some(id) => pick_code(id) + 1,
        None => 0,
    }
}

/// The number that is drawn for a selection.
pub fn selection_code(selection: Option<PickId>) -> (code: u32)
    requires
        selection != Some((0xffffu16, 0xffffu16)),
    ensures
        code == shown_code(selection),
{
    match selection {
        Some((body, face)) => encode_pick(body, face) + 1,
        None => 0,
    }
}

/// The face that was drawn where a number was read back.
pub fn decode_readback(value: u32) -> (selection: Option<PickId>)
    ensures
        shown_code(selection) == value,
{
    if value == 0 {
        None
    } else {
        Some(decode_pick(value - 1))
    }
}

/// What is read back where a selection was drawn is that selection.
pub proof fn lemma_readback_round_trip(a: Option<PickId>, b: Option<PickId>)
    requires
        shown_code(a) == shown_code(b),
    ensures
        a == b,
{
}

/// Whether a pixel lies in an image of the given size.
pub fn pixel_in_view(size: [u32; 2], pixel: [u32; 2]) -> (inside: bool)
    ensures
        inside == (size[0] > 0 && size[1] > 0 && pixel[0] < size[0] && pixel[1] < size[1]),
{
    size[0] > 0 && size[1] > 0 && pixel[0] < size[0] && pixel[1] < size[1]
}

/// A vertex of the scene.
#[derive(Debug, Clone, Copy, PartialEq)]
pub struct SceneVertex<V> {
    /// Its position.
    pub position: [V; 3],
    /// Its normal.
    pub normal: [V; 3],
    /// The number of its face.
    pub pick: u32,
}

/// The vertices of one body.
pub open spec fn body_vertices<V>(mesh: TriMesh<V>, body: int) -> Seq<SceneVertex<V>> {
    Seq::new(
        mesh.positions@.len(),
        |i: int|
            SceneVertex {
                position: mesh.positions@[i],
                normal: mesh.normals@[i],
                pick: pick_code(
                    ((body % 0x1_0000) as u16, (mesh.face_ids@[i] % 0x1_0000) as u16),
                ) as u32,
            },
    )
}

/// The vertices of the first `n` bodies.
pub open spec fn scene_vertices<V>(meshes: Seq<&TriMesh<V>>, n: int) -> Seq<SceneVertex<V>>
    decreases n,
{
    if n <= 0 {
        seq![]
    } else {
        scene_vertices(meshes, n - 1) + body_vertices(*meshes[n - 1], n - 1)
    }
}

/// The indices of the first `n` bodies, each moved on behind the vertices of
/// those before it.
pub open spec fn scene_indices<V>(meshes: Seq<&TriMesh<V>>, n: int) -> Seq<u32>
    decreases n,
{
    if n <= 0 {
        seq![]
    } else {
        scene_indices(meshes, n - 1) + moved_on(
            meshes[n - 1].indices@,
            scene_vertices(meshes, n - 1).len() as int,
        )
    }
}

proof fn lemma_scene_grows<V>(meshes: Seq<&TriMesh<V>>, i: int, n: int)
    requires
        0 <= i <= n,
    ensures
        scene_vertices(meshes, i).len() <= scene_vertices(meshes, n).len(),
    decreases n - i,
{
    if i < n {
        lemma_scene_grows(meshes, i, n - 1);
    }
}

/// The vertices and indices of all bodies.
pub fn scene_mesh<V: Copy>(meshes: &Vec<&TriMesh<V>>) -> (scene: (Vec<SceneVertex<V>>, Vec<u32>))
    requires
        forall|i: int| 0 <= i < meshes@.len() ==> (#[trigger] meshes@[i]).wf(),
        scene_vertices(meshes@, meshes@.len() as int).len() <= u32::MAX,
    ensures
        scene.0@ == scene_vertices(meshes@, meshes@.len() as int),
        scene.1@ == scene_indices(meshes@, meshes@.len() as int),
{
    let mut vertices: Vec<SceneVertex<V>> = Vec::new();
    let mut indices: Vec<u32> = Vec::new();
    let mut b: usize = 0;
    while b < meshes.len()
        invariant
            forall|i: int| 0 <= i < meshes@.len() ==> (#[trigger] meshes@[i]).wf(),
            scene_vertices(meshes@, meshes@.len() as int).len() <= u32::MAX,
            b <= meshes@.len(),
            vertices@ == scene_vertices(meshes@, b as int),
            indices@ == scene_indices(meshes@, b as int),
        decreases meshes@.len() - b,
    {
        let mesh = meshes[b];
        assert(meshes@[b as int].wf());
        proof {
            lemma_scene_grows(meshes@, b + 1, meshes@.len() as int);
        }
        let ghost held = vertices@;
        let ghost listed = indices@;
        assert(held.len() + mesh.positions@.len() == scene_vertices(meshes@, b + 1).len());
        let base: u32 = vertices.len() as u32;
        let body: u16 = (b % 0x1_0000) as u16;
        let mut i: usize = 0;
        while i < mesh.positions.len()
            invariant
                mesh.wf(),
                body == b % 0x1_0000,
                i <= mesh.positions@.len(),
                vertices@ == held + body_vertices(*mesh, b as int).take(i as int),
            decreases mesh.positions@.len() - i,
        {
            let face: u16 = (mesh.face_ids[i] % 0x1_0000) as u16;
            vertices.push(
                SceneVertex {
                    position: mesh.positions[i],
                    normal: mesh.normals[i],
                    pick: encode_pick(body, face),
                },
            );
            assert(vertices@ =~= held + body_vertices(*mesh, b as int).take(i + 1));
            i = i + 1;
        }
        assert(body_vertices(*mesh, b as int).take(i as int) =~= body_vertices(*mesh, b as int));
        let mut k: usize = 0;
        while k < mesh.indices.len()
            invariant
                mesh.wf(),
                base == held.len(),
                held.len() + mesh.positions@.len() <= u32::MAX,
                k <= mesh.indices@.len(),
                indices@ == listed + moved_on(mesh.indices@, base as int).take(k as int),
            decreases mesh.indices@.len() - k,
        {
            assert(mesh.indices@[k as int] < mesh.positions@.len());
            indices.push(base + mesh.indices[k]);
            assert(indices@ =~= listed + moved_on(mesh.indices@, base as int).take(k + 1));
            k = k + 1;
        }
        assert(moved_on(mesh.indices@, base as int).take(k as int) =~= moved_on(
            mesh.indices@,
            base as int,
        ));
        b = b + 1;
    }
    (vertices, indices)
}

/// No index of the scene names a vertex that does not exist.
pub proof fn lemma_scene_indices_valid<V>(meshes: Seq<&TriMesh<V>>, n: int, k: int)
    requires
        0 <= n <= meshes.len(),
        forall|i: int| 0 <= i < meshes.len() ==> (#[trigger] meshes[i]).wf(),
        scene_vertices(meshes, n).len() <= u32::MAX,
        0 <= k < scene_indices(meshes, n).len(),
    ensures
        scene_indices(meshes, n)[k] < scene_vertices(meshes, n).len(),
    decreases n,
{
    if n > 0 {
        let part = scene_indices(meshes, n - 1);
        assert(meshes[n - 1].wf());
        if k < part.len() {
            lemma_scene_indices_valid(meshes, n - 1, k);
        } else {
            let j = k - part.len();
            assert(meshes[n - 1].indices@[j] < meshes[n - 1].positions@.len());
        }
    }
}

/// The segments of one polyline: each point with the next.
pub open spec fn segments_of<V>(line: Seq<[V; 3]>) -> Seq<([V; 3], [V; 3])> {
    if line.len() < 2 {
        seq![]
    } else {
        Seq::new((line.len() - 1) as nat, |i: int| (line[i], line[i + 1]))
    }
}

/// The segments of the first `n` polylines.
pub open spec fn line_segments<V>(lines: Seq<Vec<[V; 3]>>, n: int) -> Seq<([V; 3], [V; 3])>
    decreases n,
{
    if n <= 0 {
        seq![]
    } else {
        line_segments(lines, n - 1) + segments_of(lines[n - 1]@)
    }
}

/// The segments of all edges of a mesh.
pub fn edge_segments<V: Copy>(mesh: &TriMesh<V>) -> (list: Vec<([V; 3], [V; 3])>)
    ensures
        list@ == line_segments(mesh.edges@, mesh.edges@.len() as int),
{
    let mut list: Vec<([V; 3], [V; 3])> = Vec::new();
    let mut n: usize = 0;
    while n < mesh.edges.len()
        invariant
            n <= mesh.edges@.len(),
            list@ == line_segments(mesh.edges@, n as int),
        decreases mesh.edges@.len() - n,
    {
        let line = &mesh.edges[n];
        let ghost held = list@;
        let total: usize = line.len();
        let mut i: usize = 0;
        assert(list@ =~= held + segments_of(line@).take(0));
        while i + 1 < total
            invariant
                total == line@.len(),
                i == 0 || i < line@.len(),
                list@ == held + segments_of(line@).take(i as int),
            decreases line@.len() - i,
        {
            list.push((line[i], line[i + 1]));
            assert(list@ =~= held + segments_of(line@).take(i + 1));
            i = i + 1;
        }
        assert(segments_of(line@).take(i as int) =~= segments_of(line@));
        n = n + 1;
    }
    list
}

/// Half the extent of the grid.
pub const GRID_HALF_EXTENT: i32 = 10;

/// The lines of the grid on the ground: for every whole number but zero, up to
/// the extent, one along each axis. The lines through the origin are left to
/// the axes.
pub open spec fn grid_spec() -> Seq<([i32; 3], [i32; 3])> {
    grid_upto(2 * GRID_HALF_EXTENT + 1)
}

/// The first `n` steps of the grid.
pub open spec fn grid_upto(n: int) -> Seq<([i32; 3], [i32; 3])>
    decreases n,
{
    if n <= 0 {
        seq![]
    } else {
        let t = (n - 1 - GRID_HALF_EXTENT) as i32;
        let half = GRID_HALF_EXTENT;
        let low = (-GRID_HALF_EXTENT) as i32;
        if t == 0 {
            grid_upto(n - 1)
        } else {
            grid_upto(n - 1).push(([t, low, 0], [t, half, 0])).push(([low, t, 0], [half, t, 0]))
        }
    }
}

/// The lines of the grid on the ground.
pub fn grid_lines() -> (list: Vec<([i32; 3], [i32; 3])>)
    ensures
        list@ == grid_spec(),
{
    let mut list: Vec<([i32; 3], [i32; 3])> = Vec::new();
    let low: i32 = -GRID_HALF_EXTENT;
    let mut n: i32 = 0;
    while n < 2 * GRID_HALF_EXTENT + 1
        invariant
            low == -GRID_HALF_EXTENT,
            0 <= n <= 2 * GRID_HALF_EXTENT + 1,
            list@ == grid_upto(n as int),
        decreases 2 * GRID_HALF_EXTENT + 1 - n,
    {
        let t: i32 = n - GRID_HALF_EXTENT;
        if t != 0 {
            list.push(([t, low, 0], [t, GRID_HALF_EXTENT, 0]));
            list.push(([low, t, 0], [GRID_HALF_EXTENT, t, 0]));
        }
        n = n + 1;
    }
    list
}

} // verus!
