//! Laws of what is shown: the scene, its bounds, and numbers as text.
use vstd::prelude::*;

use crate::editor::{AppMode, Editor};
use crate::ids::FeatureId;
use crate::laws::history::lemma_filter_places;
use crate::laws::meshes::{lemma_box, picks_larger, picks_smaller};
use crate::mesh::{TriMesh, column, folds, moved_on, moves_on, polylines};
use crate::panels::{
    all_indices, all_of, all_positions, all_wf, body_meshes, can_join, encloses, is_mesh_box,
    is_scene_box, is_union, joins, overlay_ids,
};
use crate::rebuild::RebuildEntry;
use crate::scene::{
    PickId, body_vertices, grid_spec, grid_upto, line_segments, pick_code, scene_indices,
    scene_vertices, segments_of, shown_code,
};
use crate::text::{decimal_spec, digit_spec};

verus! {

/// The number of a face holds its body in the upper half and its number there in
/// the lower half. What is drawn for it is another number than what is drawn for
/// no face.
pub proof fn lemma_face_numbers(id: PickId)
    ensures
        0 <= pick_code(id) < 0x1_0000_0000,
        pick_code(id) / 0x1_0000 == id.0,
        pick_code(id) % 0x1_0000 == id.1,
        shown_code(Some(id)) - 1 == pick_code(id),
        shown_code(None) == 0,
        shown_code(Some(id)) != shown_code(None),
{
}

/// How many vertices the first meshes have.
pub open spec fn vertices_before<V>(meshes: Seq<&TriMesh<V>>, n: int) -> int
    decreases n,
{
    if n <= 0 {
        0
    } else {
        vertices_before(meshes, n - 1) + meshes[n - 1].positions@.len()
    }
}

/// How many indices the first meshes have.
pub open spec fn indices_before<V>(meshes: Seq<&TriMesh<V>>, n: int) -> int
    decreases n,
{
    if n <= 0 {
        0
    } else {
        indices_before(meshes, n - 1) + meshes[n - 1].indices@.len()
    }
}

/// All vertices of all bodies are in the scene, one body after the other, where
/// they are and with their normals; each carries the number of its face. Every
/// corner of a triangle is the same vertex there as in its body.
pub proof fn lemma_scene<V>(meshes: Seq<&TriMesh<V>>, n: int, b: int)
    requires
        0 <= b < n <= meshes.len(),
        forall|i: int| 0 <= i < meshes.len() ==> (#[trigger] meshes[i]).wf(),
        scene_vertices(meshes, n).len() <= u32::MAX,
    ensures
        ({
            let vertices = scene_vertices(meshes, n);
            let indices = scene_indices(meshes, n);
            let (from, first) = (vertices_before(meshes, b), indices_before(meshes, b));
            let mesh = *meshes[b];
            &&& 0 <= from && 0 <= first
            &&& vertices.len() == vertices_before(meshes, n)
            &&& indices.len() == indices_before(meshes, n)
            &&& from + mesh.positions@.len() <= vertices.len()
            &&& first + mesh.indices@.len() <= indices.len()
            &&& forall|i: int|
                0 <= i < mesh.positions@.len() ==> {
                    let v = #[trigger] vertices[from + i];
                    &&& v.position == mesh.positions@[i]
                    &&& v.normal == mesh.normals@[i]
                    &&& v.pick as int / 0x1_0000 == b % 0x1_0000
                    &&& v.pick as int % 0x1_0000 == mesh.face_ids@[i] as int % 0x1_0000
                }
            &&& forall|k: int|
                0 <= k < mesh.indices@.len() ==> #[trigger] indices[first + k] == from
                    + mesh.indices@[k]
        }),
    decreases n,
{
    lemma_scene_sizes(meshes, n);
    lemma_scene_sizes(meshes, n - 1);
    lemma_scene_sizes(meshes, b);
    let vertices = scene_vertices(meshes, n);
    let indices = scene_indices(meshes, n);
    let (from, first) = (vertices_before(meshes, b), indices_before(meshes, b));
    let mesh = *meshes[b];
    assert(meshes[b].wf());
    if b < n - 1 {
        lemma_scene(meshes, n - 1, b);
        let some = scene_vertices(meshes, n - 1);
        let listed = scene_indices(meshes, n - 1);
        assert forall|i: int| 0 <= i < mesh.positions@.len() implies #[trigger] vertices[from + i]
            == some[from + i] by {}
        assert forall|k: int| 0 <= k < mesh.indices@.len() implies #[trigger] indices[first + k]
            == listed[first + k] by {}
    } else {
        let own = body_vertices(mesh, b);
        assert forall|i: int| 0 <= i < mesh.positions@.len() implies ({
            let v = #[trigger] vertices[from + i];
            &&& v.position == mesh.positions@[i]
            &&& v.normal == mesh.normals@[i]
            &&& v.pick as int / 0x1_0000 == b % 0x1_0000
            &&& v.pick as int % 0x1_0000 == mesh.face_ids@[i] as int % 0x1_0000
        }) by {
            assert(vertices[from + i] == own[i]);
            let id = ((b % 0x1_0000) as u16, (mesh.face_ids@[i] % 0x1_0000) as u16);
            lemma_face_numbers(id);
        }
        assert forall|k: int| 0 <= k < mesh.indices@.len() implies #[trigger] indices[first + k]
            == from + mesh.indices@[k] by {
            assert(indices[first + k] == moved_on(mesh.indices@, from)[k]);
            assert(mesh.indices@[k] < mesh.positions@.len());
        }
    }
}

proof fn lemma_scene_sizes<V>(meshes: Seq<&TriMesh<V>>, n: int)
    ensures
        scene_vertices(meshes, n).len() == vertices_before(meshes, n),
        scene_indices(meshes, n).len() == indices_before(meshes, n),
    decreases n,
{
    if n > 0 {
        lemma_scene_sizes(meshes, n - 1);
    }
}

/// How many items the parts of the meshes have together.
pub open spec fn total<V, A>(meshes: Seq<TriMesh<V>>, part: spec_fn(TriMesh<V>) -> Seq<A>) -> int
    decreases meshes.len(),
{
    if meshes.len() == 0 {
        0
    } else {
        total(meshes.drop_last(), part) + part(meshes.last()).len()
    }
}

/// The parts of all meshes stand one behind the other.
pub proof fn lemma_parts<V, A>(
    meshes: Seq<TriMesh<V>>,
    part: spec_fn(TriMesh<V>) -> Seq<A>,
    b: int,
    i: int,
)
    requires
        0 <= b < meshes.len(),
        0 <= i < part(meshes[b]).len(),
    ensures
        0 <= total(meshes.take(b), part) + i < all_of(meshes, part).len(),
        all_of(meshes, part).len() == total(meshes, part),
        all_of(meshes, part)[total(meshes.take(b), part) + i] == part(meshes[b])[i],
    decreases meshes.len(),
{
    let rest = meshes.drop_last();
    lemma_total(meshes, part);
    lemma_total(rest, part);
    lemma_total(meshes.take(b), part);
    if b < meshes.len() - 1 {
        assert(rest.take(b) =~= meshes.take(b));
        lemma_parts(rest, part, b, i);
    } else {
        assert(meshes.take(b) =~= rest);
    }
}

proof fn lemma_total<V, A>(meshes: Seq<TriMesh<V>>, part: spec_fn(TriMesh<V>) -> Seq<A>)
    ensures
        all_of(meshes, part).len() == total(meshes, part),
    decreases meshes.len(),
{
    if meshes.len() > 0 {
        lemma_total(meshes.drop_last(), part);
    }
}

/// How many indices the meshes have.
pub open spec fn all_corners<V>(meshes: Seq<TriMesh<V>>) -> int {
    total(meshes, |m: TriMesh<V>| m.indices@)
}

/// Where the vertices of a mesh begin.
pub open spec fn starts_at<V>(meshes: Seq<TriMesh<V>>, b: int) -> int {
    total(meshes.take(b), |m: TriMesh<V>| m.positions@)
}

proof fn lemma_all_indices<V>(meshes: Seq<TriMesh<V>>, b: int, k: int)
    requires
        0 <= b < meshes.len(),
        can_join(meshes),
        0 <= k < meshes[b].indices@.len(),
    ensures
        all_indices(meshes).len() == all_corners(meshes),
        0 <= all_corners(meshes.take(b)) + k < all_indices(meshes).len(),
        all_indices(meshes)[all_corners(meshes.take(b)) + k] == starts_at(meshes, b)
            + meshes[b].indices@[k],
    decreases meshes.len(),
{
    let rest = meshes.drop_last();
    let n = meshes.len() - 1;
    lemma_corner_count(meshes);
    lemma_corner_count(rest);
    lemma_corner_count(meshes.take(b));
    if b < n {
        assert(rest.take(b) =~= meshes.take(b));
        assert forall|i: int| 0 <= i < rest.len() implies moves_on(
            (#[trigger] rest[i]).indices@,
            all_positions(rest.take(i)).len() as int,
        ) by {
            assert(rest.take(i) =~= meshes.take(i));
            assert(rest[i] == meshes[i]);
        }
        lemma_all_indices(rest, b, k);
    } else {
        assert(meshes.take(b) =~= rest);
        lemma_total(rest, |m: TriMesh<V>| m.positions@);
        let base = all_positions(rest).len() as int;
        assert(moves_on(meshes[b].indices@, all_positions(meshes.take(b)).len() as int));
        assert(base + meshes[b].indices@[k] <= u32::MAX);
        assert(all_indices(meshes)[all_corners(rest) + k] == moved_on(meshes[b].indices@, base)[k]);
    }
}

proof fn lemma_corner_count<V>(meshes: Seq<TriMesh<V>>)
    ensures
        all_indices(meshes).len() == all_corners(meshes),
    decreases meshes.len(),
{
    if meshes.len() > 0 {
        lemma_corner_count(meshes.drop_last());
    }
}

/// All meshes in one have the triangles of all of them, in their order: each
/// corner has the position, the normal and the face that it has in its own mesh.
pub proof fn lemma_union<V>(meshes: Seq<TriMesh<V>>, mesh: TriMesh<V>, b: int, k: int)
    requires
        is_union(meshes, mesh),
        all_wf(meshes),
        can_join(meshes),
        0 <= b < meshes.len(),
        0 <= k < meshes[b].indices@.len(),
    ensures
        mesh.indices@.len() == all_corners(meshes),
        0 <= all_corners(meshes.take(b)) + k < mesh.indices@.len(),
        ({
            let own = meshes[b].indices@[k] as int;
            let there = mesh.indices@[all_corners(meshes.take(b)) + k] as int;
            &&& there < mesh.positions@.len()
            &&& mesh.positions@[there] == meshes[b].positions@[own]
            &&& mesh.normals@[there] == meshes[b].normals@[own]
            &&& mesh.face_ids@[there] == meshes[b].face_ids@[own]
        }),
{
    lemma_all_indices(meshes, b, k);
    assert(meshes[b].wf());
    let own = meshes[b].indices@[k] as int;
    assert(own < meshes[b].positions@.len());
    lemma_parts(meshes, |m: TriMesh<V>| m.positions@, b, own);
    lemma_parts(meshes, |m: TriMesh<V>| m.normals@, b, own);
    lemma_parts(meshes, |m: TriMesh<V>| m.face_ids@, b, own);
    lemma_same_totals(meshes.take(b));
}

proof fn lemma_same_totals<V>(meshes: Seq<TriMesh<V>>)
    requires
        all_wf(meshes),
    ensures
        total(meshes, |m: TriMesh<V>| m.normals@) == total(meshes, |m: TriMesh<V>| m.positions@),
        total(meshes, |m: TriMesh<V>| m.face_ids@) == total(meshes, |m: TriMesh<V>| m.positions@),
    decreases meshes.len(),
{
    if meshes.len() > 0 {
        let rest = meshes.drop_last();
        assert(all_wf(rest)) by {
            assert forall|i: int| 0 <= i < rest.len() implies (#[trigger] rest[i]).wf() by {
                assert(rest[i] == meshes[i]);
            }
        }
        lemma_same_totals(rest);
        assert(meshes[meshes.len() - 1].wf());
    }
}

/// All meshes in one have the edges of all of them, in their order.
pub proof fn lemma_union_edges<V>(meshes: Seq<TriMesh<V>>, mesh: TriMesh<V>, b: int, i: int)
    requires
        is_union(meshes, mesh),
        0 <= b < meshes.len(),
        0 <= i < meshes[b].edges@.len(),
    ensures
        ({
            let part = |m: TriMesh<V>| polylines(m.edges@);
            &&& mesh.edges@.len() == total(meshes, part)
            &&& 0 <= total(meshes.take(b), part) + i < mesh.edges@.len()
            &&& mesh.edges@[total(meshes.take(b), part) + i]@ == meshes[b].edges@[i]@
        }),
{
    let part = |m: TriMesh<V>| polylines(m.edges@);
    lemma_parts(meshes, part, b, i);
    let at = total(meshes.take(b), part) + i;
    assert(polylines(mesh.edges@).len() == mesh.edges@.len());
    assert(polylines(mesh.edges@)[at] == mesh.edges@[at]@);
    assert(polylines(meshes[b].edges@)[i] == meshes[b].edges@[i]@);
}

/// How many segments the first polylines have: one fewer each than points.
pub open spec fn segments_before<V>(lines: Seq<Vec<[V; 3]>>, n: int) -> int
    decreases n,
{
    if n <= 0 {
        0
    } else {
        segments_before(lines, n - 1) + if lines[n - 1]@.len() > 0 {
            lines[n - 1]@.len() - 1
        } else {
            0
        }
    }
}

/// Every polyline is drawn from each of its points to the next, and nothing else
/// is drawn.
pub proof fn lemma_segments<V>(lines: Seq<Vec<[V; 3]>>, n: int, b: int, i: int)
    requires
        0 <= b < n <= lines.len(),
        0 <= i < lines[b]@.len() - 1,
    ensures
        line_segments(lines, n).len() == segments_before(lines, n),
        0 <= segments_before(lines, b) + i < line_segments(lines, n).len(),
        line_segments(lines, n)[segments_before(lines, b) + i] == (
            lines[b]@[i],
            lines[b]@[i + 1],
        ),
    decreases n,
{
    lemma_segment_count(lines, n);
    lemma_segment_count(lines, n - 1);
    lemma_segment_count(lines, b);
    if b < n - 1 {
        lemma_segments(lines, n - 1, b, i);
    } else {
        assert(segments_of(lines[b]@)[i] == (lines[b]@[i], lines[b]@[i + 1]));
    }
}

proof fn lemma_segment_count<V>(lines: Seq<Vec<[V; 3]>>, n: int)
    ensures
        line_segments(lines, n).len() == segments_before(lines, n),
    decreases n,
{
    if n > 0 {
        lemma_segment_count(lines, n - 1);
    }
}

/// The line is one of the grid: it lies on the ground, along an axis, at a whole
/// number other than zero and at most ten, and reaches ten to either side.
pub open spec fn is_grid_line(line: ([i32; 3], [i32; 3]), t: int) -> bool {
    &&& -10 <= t <= 10 && t != 0
    &&& line.0[2] == 0 && line.1[2] == 0
    &&& {
        ||| line.0[0] == t && line.1[0] == t && line.0[1] == -10 && line.1[1] == 10
        ||| line.0[1] == t && line.1[1] == t && line.0[0] == -10 && line.1[0] == 10
    }
}

/// The line is one of the grid.
pub open spec fn is_some_grid_line(line: ([i32; 3], [i32; 3])) -> bool {
    exists|t: int| #[trigger] is_grid_line(line, t)
}

/// The grid has the lines that it should have, and each once.
pub proof fn lemma_grid(t: i32)
    ensures
        grid_spec().len() == 40,
        forall|i: int|
            0 <= i < 40 ==> is_some_grid_line(#[trigger] grid_spec()[i]),
        -10 <= t <= 10 && t != 0 ==> {
            &&& exists|i: int|
                0 <= i < 40 && {
                    let line = #[trigger] grid_spec()[i];
                    line.0[0] == t && line.1[0] == t && line.0[1] == -10 && line.1[1] == 10
                        && line.0[2] == 0 && line.1[2] == 0
                }
            &&& exists|i: int|
                0 <= i < 40 && {
                    let line = #[trigger] grid_spec()[i];
                    line.0[1] == t && line.1[1] == t && line.0[0] == -10 && line.1[0] == 10
                        && line.0[2] == 0 && line.1[2] == 0
                }
        },
{
    lemma_grid_upto(21);
    assert forall|i: int| 0 <= i < 40 implies is_some_grid_line(#[trigger] grid_spec()[i]) by {
        let step = if i / 2 < 10 {
            i / 2
        } else {
            i / 2 + 1
        };
        assert(grid_spec()[i] == grid_upto(21)[i]);
        assert(is_grid_line(grid_spec()[i], step - 10));
    }
    if -10 <= t <= 10 && t != 0 {
        let at = if t < 0 {
            2 * (t + 10)
        } else {
            2 * (t + 9)
        };
        assert(at / 2 == if t < 0 {
            t + 10
        } else {
            t + 9
        });
        assert(grid_spec()[at] == grid_upto(21)[at]);
        assert(grid_spec()[at + 1] == grid_upto(21)[at + 1]);
    }
}

proof fn lemma_grid_upto(n: int)
    requires
        0 <= n <= 21,
    ensures
        grid_upto(n).len() == if n <= 10 {
            2 * n
        } else {
            2 * (n - 1)
        },
        forall|i: int|
            0 <= i < grid_upto(n).len() ==> {
                let line = #[trigger] grid_upto(n)[i];
                let t = if i / 2 < 10 {
                    i / 2 - 10
                } else {
                    i / 2 - 9
                };
                &&& line.0[2] == 0 && line.1[2] == 0
                &&& i % 2 == 0 ==> line.0[0] == t && line.1[0] == t && line.0[1] == -10
                    && line.1[1] == 10
                &&& i % 2 == 1 ==> line.0[1] == t && line.1[1] == t && line.0[0] == -10
                    && line.1[0] == 10
            },
    decreases n,
{
    if n > 0 {
        lemma_grid_upto(n - 1);
    }
}

/// What a row of digits says.
pub open spec fn number_in(digits: Seq<char>) -> int
    decreases digits.len(),
{
    if digits.len() == 0 {
        0
    } else {
        10 * number_in(digits.drop_last()) + (digits.last() as int - '0' as int)
    }
}

/// The digits of a number say that number. They are digits, and there is no zero
/// before them.
pub proof fn lemma_decimal(n: nat)
    ensures
        number_in(decimal_spec(n)) == n,
        decimal_spec(n).len() > 0,
        forall|i: int|
            0 <= i < decimal_spec(n).len() ==> '0' as int <= #[trigger] decimal_spec(n)[i] as int
                <= '9' as int,
        decimal_spec(n).len() > 1 ==> decimal_spec(n)[0] != '0',
        n > 0 ==> decimal_spec(n)[0] != '0',
    decreases n,
{
    if n < 10 {
        lemma_digit(n);
        let one = digit_spec(n);
        assert(one.drop_last().len() == 0);
        assert(number_in(one.drop_last()) == 0);
    } else {
        lemma_decimal(n / 10);
        lemma_digit(n % 10);
        let all = decimal_spec(n);
        assert(all.drop_last() =~= decimal_spec(n / 10));
        assert(all.last() == digit_spec(n % 10)[0]);
    }
}

proof fn lemma_digit(d: nat)
    requires
        d < 10,
    ensures
        digit_spec(d).len() == 1,
        digit_spec(d)[0] as int == '0' as int + d,
{
    reveal_strlit("0");
    reveal_strlit("1");
    reveal_strlit("2");
    reveal_strlit("3");
    reveal_strlit("4");
    reveal_strlit("5");
    reveal_strlit("6");
    reveal_strlit("7");
    reveal_strlit("8");
    reveal_strlit("9");
}

/// The sketches that are drawn are all sketches of the history but the one that
/// is edited, in their order.
pub proof fn lemma_overlay<T, V>(editor: Editor<T, V>, f: FeatureId)
    ensures
        overlay_ids(editor).contains(f) <==> {
            &&& editor.document@.features.contains(f)
            &&& editor.document@.store[f.raw] is Sketch
            &&& match editor.mode {
                AppMode::SketchEdit(session) => session.editing != Some(f),
                _ => true,
            }
        },
{
    let doc = editor.document@;
    let editing = match editor.mode {
        AppMode::SketchEdit(session) => session.editing,
        _ => None,
    };
    let is_sketch = |g: FeatureId| doc.store[g.raw] is Sketch;
    let is_other = |g: FeatureId| Some(g) != editing;
    let sketches = doc.features.filter(is_sketch);
    lemma_in_filter(doc.features, is_sketch, f);
    lemma_in_filter(sketches, is_other, f);
}

proof fn lemma_in_filter<A>(list: Seq<A>, stays: spec_fn(A) -> bool, a: A)
    ensures
        list.filter(stays).contains(a) <==> list.contains(a) && stays(a),
{
    let places = lemma_filter_places(list, stays);
    let some = list.filter(stays);
    if some.contains(a) {
        let i = choose|i: int| 0 <= i < some.len() && some[i] == a;
        assert(0 <= places[i] < list.len());
        assert(list[places[i]] == a);
    }
    if list.contains(a) && stays(a) {
        let t = choose|t: int| 0 <= t < list.len() && list[t] == a;
        assert(stays(list[t]));
        assert(places.contains(t));
        let i = choose|i: int| 0 <= i < places.len() && places[i] == t;
        assert(some[i] == a);
    }
}

/// The bodies are those of the entries that have one, in their order.
pub proof fn lemma_bodies<V>(entries: Seq<RebuildEntry<V>>) -> (places: Seq<int>)
    ensures
        places.len() == body_meshes(entries).len(),
        forall|i: int, j: int|
            0 <= i < j < places.len() ==> #[trigger] places[i] < #[trigger] places[j],
        forall|i: int|
            0 <= i < places.len() ==> 0 <= #[trigger] places[i] < entries.len()
                && entries[places[i]].body == Some(body_meshes(entries)[i]),
        forall|t: int|
            0 <= t < entries.len() && (#[trigger] entries[t]).body is Some ==> places.contains(t),
{
    let wanted = |e: RebuildEntry<V>| e.body is Some;
    let places = lemma_filter_places(entries, wanted);
    assert forall|i: int| 0 <= i < places.len() implies 0 <= #[trigger] places[i] < entries.len()
        && entries[places[i]].body == Some(body_meshes(entries)[i]) by {
        assert(entries.filter(wanted)[i] == entries[places[i]]);
        assert(wanted(entries[places[i]]));
    }
    assert forall|t: int| 0 <= t < entries.len() && (
    #[trigger] entries[t]).body is Some implies places.contains(t) by {
        assert(wanted(entries[t]));
    }
    places
}

/// The vertex of a mesh of the list.
pub open spec fn vertex<V>(meshes: Seq<TriMesh<V>>, b: int, j: int) -> [V; 3] {
    meshes[b].positions@[j]
}

/// There is such a vertex.
pub open spec fn is_vertex<V>(meshes: Seq<TriMesh<V>>, b: int, j: int) -> bool {
    0 <= b < meshes.len() && 0 <= j < meshes[b].positions@.len()
}

/// The box of the scene is the smallest that holds all vertices of all meshes:
/// each of them lies inside, and one lies on each side. There is none only where
/// there is no vertex.
pub proof fn lemma_scene_box<V, L: Fn(&V, &V) -> V, H: Fn(&V, &V) -> V>(
    num: spec_fn(V) -> real,
    min: L,
    max: H,
    meshes: Seq<TriMesh<V>>,
    corners: Option<([V; 3], [V; 3])>,
    i: int,
)
    requires
        picks_smaller(num, min),
        picks_larger(num, max),
        is_scene_box(min, max, meshes, corners),
        0 <= i < 3,
    ensures
        match corners {
            Some((low, high)) => {
                &&& forall|b: int, j: int|
                    is_vertex(meshes, b, j) ==> num(low[i]) <= num(
                        (#[trigger] vertex(meshes, b, j))[i],
                    ) <= num(high[i])
                &&& exists|b: int, j: int|
                    is_vertex(meshes, b, j) && (#[trigger] vertex(meshes, b, j))[i] == low[i]
                &&& exists|b: int, j: int|
                    is_vertex(meshes, b, j) && (#[trigger] vertex(meshes, b, j))[i] == high[i]
            },
            None => forall|b: int, j: int| !#[trigger] is_vertex(meshes, b, j),
        },
    decreases meshes.len(),
{
    if meshes.len() > 0 {
        let rest = meshes.drop_last();
        let n = meshes.len() - 1;
        if meshes.last().positions@.len() == 0 {
            lemma_scene_box(num, min, max, rest, corners, i);
            lemma_wider(meshes);
            if let Some((low, high)) = corners {
                let (b, j) = choose|b: int, j: int|
                    is_vertex(rest, b, j) && (#[trigger] vertex(rest, b, j))[i] == low[i];
                assert(is_vertex(meshes, b, j) && vertex(meshes, b, j)[i] == low[i]);
                let (c, k) = choose|b: int, j: int|
                    is_vertex(rest, b, j) && (#[trigger] vertex(rest, b, j))[i] == high[i];
                assert(is_vertex(meshes, c, k) && vertex(meshes, c, k)[i] == high[i]);
            }
            assert forall|b: int, j: int| is_vertex(meshes, b, j) implies is_vertex(rest, b, j)
                && #[trigger] vertex(meshes, b, j) == vertex(rest, b, j) by {}
        } else {
            let (before, own) = choose|
                before: Option<([V; 3], [V; 3])>,
                own: ([V; 3], [V; 3]),
            |
                {
                    &&& is_scene_box(min, max, rest, before)
                    &&& is_mesh_box(min, max, meshes.last(), own)
                    &&& #[trigger] joins(min, max, before, own, corners)
                };
            lemma_scene_box(num, min, max, rest, before, i);
            lemma_one_more(num, min, max, meshes, before, own, corners->Some_0, i);
        }
    }
}

proof fn lemma_wider<V>(meshes: Seq<TriMesh<V>>)
    requires
        meshes.len() > 0,
    ensures
        forall|b: int, j: int| #[trigger]
            is_vertex(meshes.drop_last(), b, j) ==> is_vertex(meshes, b, j) && vertex(meshes, b, j)
                == vertex(meshes.drop_last(), b, j),
        forall|b: int, j: int| #[trigger]
            is_vertex(meshes, b, j) && b < meshes.len() - 1 ==> is_vertex(
                meshes.drop_last(),
                b,
                j,
            ) && vertex(meshes, b, j) == vertex(meshes.drop_last(), b, j),
{
}

proof fn lemma_one_more<V, L: Fn(&V, &V) -> V, H: Fn(&V, &V) -> V>(
    num: spec_fn(V) -> real,
    min: L,
    max: H,
    meshes: Seq<TriMesh<V>>,
    before: Option<([V; 3], [V; 3])>,
    own: ([V; 3], [V; 3]),
    corners: ([V; 3], [V; 3]),
    i: int,
)
    requires
        picks_smaller(num, min),
        picks_larger(num, max),
        0 <= i < 3,
        meshes.len() > 0,
        is_mesh_box(min, max, meshes.last(), own),
        joins(min, max, before, own, Some(corners)),
        match before {
            Some((low, high)) => {
                let rest = meshes.drop_last();
                &&& forall|b: int, j: int|
                    is_vertex(rest, b, j) ==> num(low[i]) <= num(
                        (#[trigger] vertex(rest, b, j))[i],
                    ) <= num(high[i])
                &&& exists|b: int, j: int|
                    is_vertex(rest, b, j) && (#[trigger] vertex(rest, b, j))[i] == low[i]
                &&& exists|b: int, j: int|
                    is_vertex(rest, b, j) && (#[trigger] vertex(rest, b, j))[i] == high[i]
            },
            None => forall|b: int, j: int| !#[trigger] is_vertex(meshes.drop_last(), b, j),
        },
    ensures
        forall|b: int, j: int|
            is_vertex(meshes, b, j) ==> num(corners.0[i]) <= num(
                (#[trigger] vertex(meshes, b, j))[i],
            ) <= num(corners.1[i]),
        exists|b: int, j: int|
            is_vertex(meshes, b, j) && (#[trigger] vertex(meshes, b, j))[i] == corners.0[i],
        exists|b: int, j: int|
            is_vertex(meshes, b, j) && (#[trigger] vertex(meshes, b, j))[i] == corners.1[i],
{
    let rest = meshes.drop_last();
    let n = meshes.len() - 1;
    let positions = meshes.last().positions@;
    assert(folds(min, positions[0][i], column(positions, i), own.0[i]));
    lemma_box(num, min, max, positions, own.0, own.1, i);
    lemma_wider(meshes);
    let p = choose|j: int| 0 <= j < positions.len() && (#[trigger] positions[j])[i] == own.0[i];
    let q = choose|j: int| 0 <= j < positions.len() && (#[trigger] positions[j])[i] == own.1[i];
    assert(is_vertex(meshes, n, p) && vertex(meshes, n, p)[i] == own.0[i]);
    assert(is_vertex(meshes, n, q) && vertex(meshes, n, q)[i] == own.1[i]);
    if let Some((low, high)) = before {
        let (b, j) = choose|b: int, j: int|
            is_vertex(rest, b, j) && (#[trigger] vertex(rest, b, j))[i] == low[i];
        let (c, k) = choose|b: int, j: int|
            is_vertex(rest, b, j) && (#[trigger] vertex(rest, b, j))[i] == high[i];
        assert(is_vertex(meshes, b, j) && vertex(meshes, b, j)[i] == low[i]);
        assert(is_vertex(meshes, c, k) && vertex(meshes, c, k)[i] == high[i]);
        assert(encloses(min, max, (low, high), own, corners));
        assert(call_ensures(min, (&low[i], &own.0[i]), corners.0[i]));
        assert(call_ensures(max, (&high[i], &own.1[i]), corners.1[i]));
    }
    assert forall|b: int, j: int| is_vertex(meshes, b, j) implies num(corners.0[i]) <= num(
        (#[trigger] vertex(meshes, b, j))[i],
    ) <= num(corners.1[i]) by {
        if b < n {
            assert(is_vertex(rest, b, j));
            assert(vertex(rest, b, j) == vertex(meshes, b, j));
        } else {
            assert(positions[j] == vertex(meshes, b, j));
        }
    }
}

} // verus!
