//! Triangle meshes and their binary export.
use std::collections::HashMap;

use vstd::prelude::*;

use crate::arith::{computes, eval_closed, evaluates_all, means};
use crate::expr::{Expr, Reading, epsilon};
use crate::geometry::length;
use crate::rings::after;

verus! {

/// A triangle mesh, with the polylines of its edges.
#[derive(Debug, Clone, PartialEq)]
pub struct TriMesh<V> {
    /// Positions of the vertices.
    pub positions: Vec<[V; 3]>,
    /// Normals of the vertices.
    pub normals: Vec<[V; 3]>,
    /// Indices of vertices; each three make a triangle.
    pub indices: Vec<u32>,
    /// Number of the face that each vertex belongs to.
    pub face_ids: Vec<u32>,
    /// Polylines of the edges.
    pub edges: Vec<Vec<[V; 3]>>,
}

impl<V> TriMesh<V> {
    /// There is a normal and a face for each vertex, and no index names a
    /// vertex that does not exist.
    pub open spec fn wf(&self) -> bool {
        &&& self.normals@.len() == self.positions@.len()
        &&& self.face_ids@.len() == self.positions@.len()
        &&& self.indexed()
    }

    /// No index names a vertex that does not exist.
    pub open spec fn indexed(&self) -> bool {
        forall|i: int|
            0 <= i < self.indices@.len() ==> #[trigger] self.indices@[i] < self.positions@.len()
    }

    /// A mesh without vertices.
    pub fn new() -> (mesh: Self)
        ensures
            mesh.wf(),
            mesh.positions@.len() == 0,
            mesh.indices@.len() == 0,
            mesh.edges@.len() == 0,
    {
        TriMesh {
            positions: Vec::new(),
            normals: Vec::new(),
            indices: Vec::new(),
            face_ids: Vec::new(),
            edges: Vec::new(),
        }
    }
}

/// The indices of a mesh, moved on by `base`.
pub open spec fn moved_on(indices: Seq<u32>, base: int) -> Seq<u32> {
    indices.map_values(|i: u32| (base + i) as u32)
}

/// The indices of a mesh can be moved on by `base`.
pub open spec fn moves_on(indices: Seq<u32>, base: int) -> bool {
    forall|i: int| 0 <= i < indices.len() ==> base + #[trigger] indices[i] <= u32::MAX
}

/// Adds copies of all items of a list.
fn extend_copied<A: Copy>(list: &mut Vec<A>, more: &Vec<A>)
    ensures
        final(list)@ == old(list)@ + more@,
{
    let mut i: usize = 0;
    while i < more.len()
        invariant
            i <= more@.len(),
            list@ == old(list)@ + more@.take(i as int),
        decreases more@.len() - i,
    {
        list.push(more[i]);
        assert(more@.take(i + 1) =~= more@.take(i as int).push(more@[i as int]));
        assert(list@ =~= old(list)@ + more@.take(i + 1));
        i = i + 1;
    }
    assert(more@.take(i as int) =~= more@);
}

/// The polylines as sequences of points.
pub open spec fn polylines<V>(edges: Seq<Vec<[V; 3]>>) -> Seq<Seq<[V; 3]>> {
    edges.map_values(|line: Vec<[V; 3]>| line@)
}

impl<V: Copy> TriMesh<V> {
    /// Adds another mesh. Its indices are moved on behind the vertices that
    /// are there already; its face numbers stay.
    pub fn merge(&mut self, other: &TriMesh<V>)
        requires
            moves_on(other.indices@, old(self).positions@.len() as int),
        ensures
            old(self).wf() && other.wf() ==> final(self).wf(),
            old(self).indexed() && other.indexed() ==> final(self).indexed(),
            final(self).positions@ == old(self).positions@ + other.positions@,
            final(self).normals@ == old(self).normals@ + other.normals@,
            final(self).face_ids@ == old(self).face_ids@ + other.face_ids@,
            final(self).indices@ == old(self).indices@ + moved_on(
                other.indices@,
                old(self).positions@.len() as int,
            ),
            polylines(final(self).edges@) == polylines(old(self).edges@) + polylines(other.edges@),
    {
        let base: u32 = self.positions.len() as u32;
        extend_copied(&mut self.positions, &other.positions);
        extend_copied(&mut self.normals, &other.normals);
        extend_copied(&mut self.face_ids, &other.face_ids);
        let mut i: usize = 0;
        proof {
            if other.indices@.len() > 0 {
                assert(old(self).positions@.len() + other.indices@[0] <= u32::MAX);
            }
            assert(moved_on(other.indices@.take(0), old(self).positions@.len() as int)
                =~= Seq::empty());
        }
        while i < other.indices.len()
            invariant
                moves_on(other.indices@, old(self).positions@.len() as int),
                other.indices@.len() > 0 ==> base == old(self).positions@.len(),
                i <= other.indices@.len(),
                self.positions@ == old(self).positions@ + other.positions@,
                self.normals@ == old(self).normals@ + other.normals@,
                self.face_ids@ == old(self).face_ids@ + other.face_ids@,
                self.edges@ == old(self).edges@,
                self.indices@ == old(self).indices@ + moved_on(
                    other.indices@.take(i as int),
                    old(self).positions@.len() as int,
                ),
            decreases other.indices@.len() - i,
        {
            assert(old(self).positions@.len() + other.indices@[i as int] <= u32::MAX);
            self.indices.push(base + other.indices[i]);
            assert(self.indices@ =~= old(self).indices@ + moved_on(
                other.indices@.take(i + 1),
                base as int,
            )) by {
                assert(other.indices@.take(i + 1) =~= other.indices@.take(i as int).push(
                    other.indices@[i as int],
                ));
                assert(moved_on(other.indices@.take(i + 1), base as int) =~= moved_on(
                    other.indices@.take(i as int),
                    base as int,
                ).push((base + other.indices@[i as int]) as u32));
            }
            i = i + 1;
        }
        assert(other.indices@.take(i as int) =~= other.indices@);
        let mut k: usize = 0;
        while k < other.edges.len()
            invariant
                k <= other.edges@.len(),
                self.positions@ == old(self).positions@ + other.positions@,
                self.normals@ == old(self).normals@ + other.normals@,
                self.face_ids@ == old(self).face_ids@ + other.face_ids@,
                self.indices@ == old(self).indices@ + moved_on(
                    other.indices@,
                    old(self).positions@.len() as int,
                ),
                polylines(self.edges@) == polylines(old(self).edges@) + polylines(
                    other.edges@.take(k as int),
                ),
            decreases other.edges@.len() - k,
        {
            let ghost before = self.edges@;
            let mut line: Vec<[V; 3]> = Vec::new();
            extend_copied(&mut line, &other.edges[k]);
            assert(line@ =~= other.edges@[k as int]@);
            self.edges.push(line);
            assert(polylines(self.edges@) =~= polylines(before).push(line@));
            assert(polylines(other.edges@.take(k + 1)) =~= polylines(
                other.edges@.take(k as int),
            ).push(line@));
            assert(polylines(self.edges@) =~= polylines(old(self).edges@) + polylines(
                other.edges@.take(k + 1),
            ));
            k = k + 1;
        }
        proof {
            assert(other.edges@.take(k as int) =~= other.edges@);
            if old(self).indexed() && other.indexed() {
                let held = old(self).indices@.len() as int;
                assert forall|j: int| 0 <= j < self.indices@.len() implies #[trigger] self.indices@[j]
                    < self.positions@.len() by {
                    if j < held {
                        assert(self.indices@[j] == old(self).indices@[j]);
                    } else {
                        assert(old(self).positions@.len() + other.indices@[j - held] <= u32::MAX);
                        assert(other.indices@[j - held] < other.positions@.len());
                    }
                }
            }
        }
    }
}

/// A corner of a triangle: which position it has, which normal if it has one,
/// and the normal that it takes if not.
#[derive(Debug, Clone, Copy, PartialEq)]
pub struct Corner<V> {
    /// Index of its position.
    pub position: usize,
    /// Index of its normal, if it has one.
    pub normal: Option<usize>,
    /// Normal of the triangle.
    pub fallback: [V; 3],
}

/// Two corners are the same vertex: they have the same position and normal.
pub open spec fn same_vertex<V>(a: Corner<V>, b: Corner<V>) -> bool {
    a.position == b.position && a.normal == b.normal
}

/// One of the corners is the same vertex.
pub open spec fn has_vertex<V>(corners: Seq<Corner<V>>, corner: Corner<V>) -> bool {
    exists|i: int| 0 <= i < corners.len() && same_vertex(#[trigger] corners[i], corner)
}

/// The corners without those that are the same vertex as an earlier one.
pub open spec fn welded<V>(corners: Seq<Corner<V>>) -> Seq<Corner<V>>
    decreases corners.len(),
{
    if corners.len() == 0 {
        seq![]
    } else {
        let rest = welded(corners.drop_last());
        if has_vertex(rest, corners.last()) {
            rest
        } else {
            rest.push(corners.last())
        }
    }
}

/// The normal of a corner.
pub open spec fn corner_normal<V>(normals: Seq<[V; 3]>, corner: Corner<V>) -> [V; 3] {
    match corner.normal {
        Some(i) => normals[i as int],
        None => corner.fallback,
    }
}

/// The mesh has one more vertex for each welded corner, and each corner names
/// its vertex.
pub open spec fn is_appended<V>(
    before: TriMesh<V>,
    after: TriMesh<V>,
    positions: Seq<[V; 3]>,
    normals: Seq<[V; 3]>,
    corners: Seq<Corner<V>>,
    face: u32,
) -> bool {
    let fresh = welded(corners);
    let base = before.positions@.len();
    &&& after.positions@ == before.positions@ + fresh.map_values(
        |c: Corner<V>| positions[c.position as int],
    )
    &&& after.normals@ == before.normals@ + fresh.map_values(
        |c: Corner<V>| corner_normal(normals, c),
    )
    &&& after.face_ids@ == before.face_ids@ + fresh.map_values(|c: Corner<V>| face)
    &&& after.edges == before.edges
    &&& after.indices@.len() == before.indices@.len() + corners.len()
    &&& forall|i: int| 0 <= i < before.indices@.len() ==> after.indices@[i] == before.indices@[i]
    &&& forall|k: int|
        0 <= k < corners.len() ==> {
            let index = #[trigger] after.indices@[before.indices@.len() + k];
            &&& base <= index < base + fresh.len()
            &&& same_vertex(fresh[index - base], corners[k])
        }
}

fn same_index(a: Option<usize>, b: Option<usize>) -> (same: bool)
    ensures
        same == (a == b),
{
    match (a, b) {
        (Some(i), Some(j)) => i == j,
        (None, None) => true,
        _ => false,
    }
}

/// The vertices of one position: the normal of each and its index.
type Fan = Vec<(Option<usize>, u32)>;

/// The fan lists exactly the fresh vertices at a position.
spec fn fan_ok<V>(fan: Seq<(Option<usize>, u32)>, fresh: Seq<Corner<V>>, base: int, p: usize) -> bool {
    &&& forall|k: int|
        0 <= k < fan.len() ==> {
            &&& base <= (#[trigger] fan[k]).1 < base + fresh.len()
            &&& fresh[fan[k].1 - base].position == p
            &&& fresh[fan[k].1 - base].normal == fan[k].0
        }
    &&& forall|j: int|
        0 <= j < fresh.len() && (#[trigger] fresh[j]).position == p ==> exists|k: int|
            0 <= k < fan.len() && #[trigger] fan[k] == (fresh[j].normal, (base + j) as u32)
}

/// The index of the vertex of a fan with the given normal.
fn find_vertex(fan: &Fan, normal: Option<usize>) -> (index: Option<u32>)
    ensures
        match index {
            Some(index) => exists|k: int|
                0 <= k < fan@.len() && #[trigger] fan@[k] == (normal, index),
            None => forall|k: int| 0 <= k < fan@.len() ==> (#[trigger] fan@[k]).0 != normal,
        },
{
    let mut k: usize = 0;
    while k < fan.len()
        invariant
            k <= fan@.len(),
            forall|j: int| 0 <= j < k ==> (#[trigger] fan@[j]).0 != normal,
        decreases fan@.len() - k,
    {
        let (other, index) = fan[k];
        if same_index(other, normal) {
            assert(fan@[k as int] == (normal, index));
            return Some(index);
        }
        k = k + 1;
    }
    None
}

/// Adds the triangles of one face. Corners that are the same vertex share
/// one; the others become new vertices, in order of their first corner.
pub fn append_polygon<V: Copy>(
    mesh: &mut TriMesh<V>,
    positions: &Vec<[V; 3]>,
    normals: &Vec<[V; 3]>,
    corners: &Vec<Corner<V>>,
    face_id: u32,
)
    requires
        old(mesh).wf(),
        old(mesh).positions@.len() + corners@.len() <= u32::MAX,
        forall|k: int|
            0 <= k < corners@.len() ==> (#[trigger] corners@[k]).position < positions@.len() && (
            corners@[k].normal matches Some(n) ==> n < normals@.len()),
    ensures
        final(mesh).wf(),
        is_appended(*old(mesh), *final(mesh), positions@, normals@, corners@, face_id),
{
    broadcast use vstd::std_specs::hash::group_hash_axioms;

    let ghost base = mesh.positions@.len() as int;
    let mut cache: HashMap<usize, Fan> = HashMap::new();
    let mut i: usize = 0;
    let ghost pick = |c: Corner<V>| positions@[c.position as int];
    let ghost turn = |c: Corner<V>| corner_normal(normals@, c);
    let ghost mark = |c: Corner<V>| face_id;
    proof {
        assert(corners@.take(0) =~= Seq::empty());
        assert(mesh.positions@ =~= old(mesh).positions@ + welded(corners@.take(0)).map_values(pick));
        assert(mesh.normals@ =~= old(mesh).normals@ + welded(corners@.take(0)).map_values(turn));
        assert(mesh.face_ids@ =~= old(mesh).face_ids@ + welded(corners@.take(0)).map_values(mark));
    }
    while i < corners.len()
        invariant
            base == old(mesh).positions@.len(),
            base + corners@.len() <= u32::MAX,
            old(mesh).wf(),
            pick == (|c: Corner<V>| positions@[c.position as int]),
            turn == (|c: Corner<V>| corner_normal(normals@, c)),
            mark == (|c: Corner<V>| face_id),
            forall|k: int|
                0 <= k < corners@.len() ==> (#[trigger] corners@[k]).position < positions@.len()
                    && (corners@[k].normal matches Some(n) ==> n < normals@.len()),
            i <= corners@.len(),
            welded(corners@.take(i as int)).len() <= i,
            forall|p: usize|
                #![trigger cache@.contains_key(p)]
                cache@.contains_key(p) ==> fan_ok(
                    cache@[p]@,
                    welded(corners@.take(i as int)),
                    base,
                    p,
                ),
            forall|j: int|
                0 <= j < welded(corners@.take(i as int)).len() ==> cache@.contains_key(
                    (#[trigger] welded(corners@.take(i as int))[j]).position,
                ),
            is_appended(
                *old(mesh),
                *mesh,
                positions@,
                normals@,
                corners@.take(i as int),
                face_id,
            ),
        decreases corners@.len() - i,
    {
        broadcast use vstd::std_specs::hash::group_hash_axioms;

        let ghost done = corners@.take(i as int);
        let ghost fresh = welded(done);
        let ghost held = *mesh;
        let ghost known = cache@;
        let corner = corners[i];
        assert(corners@[i as int] == corner);
        assert(corners@.take(i + 1).drop_last() =~= done);
        assert(corners@.take(i + 1).last() == corner);
        assert(mesh.positions@.len() == base + fresh.len());
        let mut fan: Fan = match cache.remove(&corner.position) {
            Some(fan) => fan,
            None => Vec::new(),
        };
        let ghost old_fan = fan@;
        assert(fan_ok(old_fan, fresh, base, corner.position));
        let index = match find_vertex(&fan, corner.normal) {
            Some(index) => {
                proof {
                    let k = choose|k: int|
                        0 <= k < old_fan.len() && #[trigger] old_fan[k] == (corner.normal, index);
                    assert(same_vertex(fresh[index - base], corner));
                    assert(has_vertex(fresh, corner));
                }
                index
            },
            None => {
                let index: u32 = mesh.positions.len() as u32;
                let normal = match corner.normal {
                    Some(n) => normals[n],
                    None => corner.fallback,
                };
                mesh.positions.push(positions[corner.position]);
                mesh.normals.push(normal);
                mesh.face_ids.push(face_id);
                fan.push((corner.normal, index));
                proof {
                    assert(!has_vertex(fresh, corner)) by {
                        if has_vertex(fresh, corner) {
                            let j = choose|j: int|
                                0 <= j < fresh.len() && same_vertex(#[trigger] fresh[j], corner);
                            let k = choose|k: int|
                                0 <= k < old_fan.len() && #[trigger] old_fan[k] == (
                                    fresh[j].normal,
                                    (base + j) as u32,
                                );
                            assert(old_fan[k].0 == corner.normal);
                        }
                    }
                    let more = fresh.push(corner);
                    assert(more.map_values(pick) =~= fresh.map_values(pick).push(pick(corner)));
                    assert(more.map_values(turn) =~= fresh.map_values(turn).push(turn(corner)));
                    assert(more.map_values(mark) =~= fresh.map_values(mark).push(mark(corner)));
                    assert(mesh.positions@ =~= old(mesh).positions@ + more.map_values(pick));
                    assert(mesh.normals@ =~= old(mesh).normals@ + more.map_values(turn));
                    assert(mesh.face_ids@ =~= old(mesh).face_ids@ + more.map_values(mark));
                    assert(more[index - base] == corner);
                    assert(same_vertex(more[index - base], corner));
                }
                index
            },
        };
        let ghost now = welded(corners@.take(i + 1));
        mesh.indices.push(index);
        proof {
            assert(now.len() <= fresh.len() + 1);
            assert(forall|j: int| 0 <= j < fresh.len() ==> now[j] == fresh[j]);
            lemma_fan_grows(old_fan, fan@, fresh, now, base, corner);
        }
        cache.insert(corner.position, fan);
        proof {
            assert forall|p: usize| #[trigger] cache@.contains_key(p) implies fan_ok(
                cache@[p]@,
                now,
                base,
                p,
            ) by {
                if p != corner.position {
                    assert(known.contains_key(p));
                    assert(cache@[p] == known[p]);
                    lemma_fan_stays(known[p]@, fresh, now, base, p, corner);
                }
            }
            assert forall|j: int| 0 <= j < now.len() implies cache@.contains_key(
                (#[trigger] now[j]).position,
            ) by {
                if j < fresh.len() {
                    assert(known.contains_key(fresh[j].position));
                }
            }
            assert forall|k: int| 0 <= k < i + 1 implies ({
                let at = #[trigger] mesh.indices@[old(mesh).indices@.len() + k];
                base <= at < base + now.len() && same_vertex(now[at - base], corners@.take(i + 1)[k])
            }) by {
                if k < i {
                    let at = held.indices@[old(mesh).indices@.len() + k];
                    assert(mesh.indices@[old(mesh).indices@.len() + k] == at);
                    assert(corners@.take(i + 1)[k] == done[k]);
                    assert(same_vertex(fresh[at - base], done[k]));
                }
            }
            assert forall|k: int| 0 <= k < old(mesh).indices@.len() implies mesh.indices@[k]
                == old(mesh).indices@[k] by {
                assert(held.indices@[k] == old(mesh).indices@[k]);
            }
        }
        i = i + 1;
    }
    proof {
        assert(corners@.take(i as int) =~= corners@);
        let fresh = welded(corners@);
        assert forall|k: int| 0 <= k < mesh.indices@.len() implies #[trigger] mesh.indices@[k]
            < mesh.positions@.len() by {
            let n = old(mesh).indices@.len() as int;
            if k < n {
                assert(mesh.indices@[k] == old(mesh).indices@[k]);
            } else {
                assert(mesh.indices@[n + (k - n)] < base + fresh.len());
            }
        }
    }
}

proof fn lemma_fan_grows<V>(
    old_fan: Seq<(Option<usize>, u32)>,
    fan: Seq<(Option<usize>, u32)>,
    fresh: Seq<Corner<V>>,
    now: Seq<Corner<V>>,
    base: int,
    corner: Corner<V>,
)
    requires
        fan_ok(old_fan, fresh, base, corner.position),
        0 <= base,
        base + now.len() <= u32::MAX,
        (now == fresh && fan == old_fan) || (now == fresh.push(corner) && fan == old_fan.push(
            (corner.normal, (base + fresh.len()) as u32),
        )),
    ensures
        fan_ok(fan, now, base, corner.position),
{
    if now != fresh {
        assert forall|k: int| 0 <= k < fan.len() implies ({
            &&& base <= (#[trigger] fan[k]).1 < base + now.len()
            &&& now[fan[k].1 - base].position == corner.position
            &&& now[fan[k].1 - base].normal == fan[k].0
        }) by {
            if k < old_fan.len() {
                assert(fan[k] == old_fan[k]);
            }
        }
        assert forall|j: int|
            0 <= j < now.len() && (#[trigger] now[j]).position
                == corner.position implies exists|k: int|
            0 <= k < fan.len() && #[trigger] fan[k] == (now[j].normal, (base + j) as u32) by {
            if j < fresh.len() {
                assert(now[j] == fresh[j]);
                let k = choose|k: int|
                    0 <= k < old_fan.len() && #[trigger] old_fan[k] == (
                        fresh[j].normal,
                        (base + j) as u32,
                    );
                assert(fan[k] == old_fan[k]);
            } else {
                assert(fan[old_fan.len() as int] == (now[j].normal, (base + j) as u32));
            }
        }
    }
}

proof fn lemma_fan_stays<V>(
    fan: Seq<(Option<usize>, u32)>,
    fresh: Seq<Corner<V>>,
    now: Seq<Corner<V>>,
    base: int,
    p: usize,
    corner: Corner<V>,
)
    requires
        fan_ok(fan, fresh, base, p),
        corner.position != p,
        now == fresh || now == fresh.push(corner),
    ensures
        fan_ok(fan, now, base, p),
{
    assert forall|j: int| 0 <= j < now.len() && (#[trigger] now[j]).position == p implies exists|
        k: int,
    |
        0 <= k < fan.len() && #[trigger] fan[k] == (now[j].normal, (base + j) as u32) by {
        assert(j < fresh.len());
        assert(now[j] == fresh[j]);
    }
}

/// One coordinate of the normal of the triangle `a`, `b`, `c`, before it is
/// brought to length one.
pub open spec fn raw_normal<T>(
    num: spec_fn(T) -> real,
    a: [T; 3],
    b: [T; 3],
    c: [T; 3],
    i: int,
) -> real {
    let (j, k) = (after(3, i), after(3, after(3, i)));
    (num(b[j]) - num(a[j])) * (num(c[k]) - num(a[k])) - (num(b[k]) - num(a[k])) * (num(c[j]) - num(
        a[j],
    ))
}

/// One coordinate of the normal of a triangle, of length one; for a triangle
/// without extent, of the third axis.
pub open spec fn face_normal<T>(
    num: spec_fn(T) -> real,
    a: [T; 3],
    b: [T; 3],
    c: [T; 3],
    i: int,
) -> real {
    let n = |k: int| raw_normal(num, a, b, c, k);
    let size = length(n(0), n(1), n(2));
    if size <= epsilon() {
        if i == 2 {
            1real
        } else {
            0real
        }
    } else {
        n(i) / size
    }
}

fn edge_formula<T: Copy>(b: &[T; 3], a: &[T; 3], i: usize) -> (e: Expr<T>)
    requires
        i < 3,
    ensures
        forall|at: Reading<T>| #[trigger]
            e.eval(at) == (at.num)(b[i as int]) - (at.num)(a[i as int]),
{
    Expr::difference(Expr::value(b[i]), Expr::value(a[i]))
}

fn raw_normal_formula<T: Copy>(a: &[T; 3], b: &[T; 3], c: &[T; 3], i: usize) -> (e: Expr<T>)
    requires
        i < 3,
    ensures
        forall|at: Reading<T>| #[trigger] e.eval(at) == raw_normal(at.num, *a, *b, *c, i as int),
{
    let j: usize = if i + 1 < 3 {
        i + 1
    } else {
        0
    };
    let k: usize = if j + 1 < 3 {
        j + 1
    } else {
        0
    };
    Expr::difference(
        Expr::product(edge_formula(b, a, j), edge_formula(c, a, k)),
        Expr::product(edge_formula(b, a, k), edge_formula(c, a, j)),
    )
}

fn normal_length_formula<T: Copy>(a: &[T; 3], b: &[T; 3], c: &[T; 3]) -> (e: Expr<T>)
    ensures
        forall|at: Reading<T>| #[trigger]
            e.eval(at) == length(
                raw_normal(at.num, *a, *b, *c, 0),
                raw_normal(at.num, *a, *b, *c, 1),
                raw_normal(at.num, *a, *b, *c, 2),
            ),
{
    Expr::sqrt(
        Expr::sum(
            Expr::sum(
                Expr::product(raw_normal_formula(a, b, c, 0), raw_normal_formula(a, b, c, 0)),
                Expr::product(raw_normal_formula(a, b, c, 1), raw_normal_formula(a, b, c, 1)),
            ),
            Expr::product(raw_normal_formula(a, b, c, 2), raw_normal_formula(a, b, c, 2)),
        ),
    )
}

/// Formula of one coordinate of the normal of a triangle.
pub fn triangle_normal<T: Copy>(a: &[T; 3], b: &[T; 3], c: &[T; 3], i: usize) -> (e: Expr<T>)
    requires
        i < 3,
    ensures
        means(e, |at: Reading<T>| face_normal(at.num, *a, *b, *c, i as int)),
{
    assert((0 as int) as real / (1 as int) as real == 0real);
    assert((1 as int) as real / (1 as int) as real == 1real);
    let fallback = if i == 2 {
        Expr::ratio(1, 1)
    } else {
        Expr::ratio(0, 1)
    };
    Expr::if_tiny(
        normal_length_formula(a, b, c),
        fallback,
        Expr::quotient(raw_normal_formula(a, b, c, i), normal_length_formula(a, b, c)),
    )
}

/// `r` comes from folding the numbers one after the other into the first.
pub open spec fn folds<V, F: Fn(&V, &V) -> V>(f: F, first: V, list: Seq<V>, r: V) -> bool
    decreases list.len(),
{
    if list.len() == 0 {
        r == first
    } else {
        exists|part: V|
            folds(f, first, list.drop_last(), part) && #[trigger] call_ensures(
                f,
                (&part, &list.last()),
                r,
            )
    }
}

/// One coordinate of all points.
pub open spec fn column<V>(points: Seq<[V; 3]>, i: int) -> Seq<V> {
    points.map_values(|p: [V; 3]| p[i])
}

impl<V: Copy> TriMesh<V> {
    /// The corners of the smallest box with axes along those of space that
    /// holds all vertices; `None` if there are none. `min` and `max` pick the
    /// smaller and the larger of two numbers.
    pub fn bounding_box<L: Fn(&V, &V) -> V, H: Fn(&V, &V) -> V>(&self, min: &L, max: &H) -> (found:
        Option<([V; 3], [V; 3])>)
        requires
            forall|a: &V, b: &V| #[trigger] call_requires(min, (a, b)),
            forall|a: &V, b: &V| #[trigger] call_requires(max, (a, b)),
        ensures
            found is None <==> self.positions@.len() == 0,
            found matches Some((low, high)) ==> forall|i: int|
                0 <= i < 3 ==> folds(
                    *min,
                    self.positions@[0][i],
                    column(self.positions@, i),
                    #[trigger] low[i],
                ) && folds(*max, self.positions@[0][i], column(self.positions@, i), high[i]),
    {
        if self.positions.len() == 0 {
            return None;
        }
        let first = self.positions[0];
        let mut low = first;
        let mut high = first;
        let mut k: usize = 0;
        assert forall|i: int| 0 <= i < 3 implies folds(
            *min,
            first[i],
            column(self.positions@.take(0), i),
            #[trigger] low[i],
        ) && folds(*max, first[i], column(self.positions@.take(0), i), high[i]) by {
            assert(column(self.positions@.take(0), i).len() == 0);
        }
        while k < self.positions.len()
            invariant
                forall|a: &V, b: &V| #[trigger] call_requires(min, (a, b)),
                forall|a: &V, b: &V| #[trigger] call_requires(max, (a, b)),
                k <= self.positions@.len(),
                forall|i: int|
                    0 <= i < 3 ==> folds(
                        *min,
                        first[i],
                        column(self.positions@.take(k as int), i),
                        #[trigger] low[i],
                    ) && folds(
                        *max,
                        first[i],
                        column(self.positions@.take(k as int), i),
                        high[i],
                    ),
            decreases self.positions@.len() - k,
        {
            let p = self.positions[k];
            let ghost (was_low, was_high) = (low, high);
            let l0 = min(&low[0], &p[0]);
            let l1 = min(&low[1], &p[1]);
            let l2 = min(&low[2], &p[2]);
            let h0 = max(&high[0], &p[0]);
            let h1 = max(&high[1], &p[1]);
            let h2 = max(&high[2], &p[2]);
            low = [l0, l1, l2];
            high = [h0, h1, h2];
            proof {
                assert forall|i: int| 0 <= i < 3 implies folds(
                    *min,
                    first[i],
                    column(self.positions@.take(k + 1), i),
                    #[trigger] low[i],
                ) && folds(*max, first[i], column(self.positions@.take(k + 1), i), high[i]) by {
                    let longer = column(self.positions@.take(k + 1), i);
                    assert(longer.drop_last() =~= column(self.positions@.take(k as int), i));
                    assert(longer.last() == p[i]);
                    assert(folds(*min, first[i], longer.drop_last(), was_low[i]));
                    assert(folds(*max, first[i], longer.drop_last(), was_high[i]));
                    assert(i == 0 || i == 1 || i == 2);
                    assert(call_ensures(min, (&was_low[i], &p[i]), low[i]));
                    assert(call_ensures(max, (&was_high[i], &p[i]), high[i]));
                }
            }
            k = k + 1;
        }
        assert(self.positions@.take(k as int) =~= self.positions@);
        Some((low, high))
    }
}

/// The four bytes of a number, lowest first.
pub open spec fn little_endian(x: u32) -> Seq<u8> {
    seq![
        (x % 0x100) as u8,
        ((x / 0x100) % 0x100) as u8,
        ((x / 0x1_0000) % 0x100) as u8,
        (x / 0x100_0000) as u8,
    ]
}

/// The bytes of the three coordinates of a vector.
pub open spec fn vector_bytes(v: [u32; 3]) -> Seq<u8> {
    little_endian(v[0]) + little_endian(v[1]) + little_endian(v[2])
}

/// The bytes of one triangle: its normal, its corners and no attributes.
pub open spec fn triangle_bytes(mesh: TriMesh<u32>, normals: Seq<[u32; 3]>, t: int) -> Seq<u8> {
    let corner = |k: int| mesh.positions@[mesh.indices@[3 * t + k] as int];
    vector_bytes(normals[t]) + vector_bytes(corner(0)) + vector_bytes(corner(1)) + vector_bytes(
        corner(2),
    ) + seq![0u8, 0u8]
}

/// The bytes of the first `n` triangles.
pub open spec fn triangles_bytes(mesh: TriMesh<u32>, normals: Seq<[u32; 3]>, n: int) -> Seq<u8>
    decreases n,
{
    if n <= 0 {
        seq![]
    } else {
        triangles_bytes(mesh, normals, n - 1) + triangle_bytes(mesh, normals, n - 1)
    }
}

/// The text that the file begins with.
pub open spec fn stl_tag() -> Seq<u8> {
    seq![
        0x52, 0x75, 0x73, 0x74, 0x43, 0x41, 0x44, 0x20, 0x62, 0x69, 0x6e, 0x61, 0x72, 0x79, 0x20,
        0x53, 0x54, 0x4c,
    ]
}

/// The first 80 bytes of the file: the tag, filled up with zeros.
pub open spec fn stl_header() -> Seq<u8> {
    Seq::new(
        80,
        |i: int|
            if i < stl_tag().len() {
                stl_tag()[i]
            } else {
                0u8
            },
    )
}

/// The whole file.
pub open spec fn stl_file(mesh: TriMesh<u32>, normals: Seq<[u32; 3]>) -> Seq<u8> {
    let n = mesh.indices@.len() / 3;
    stl_header() + little_endian(n as u32) + triangles_bytes(mesh, normals, n as int)
}

/// A file holds 84 bytes and then 50 for each triangle.
pub proof fn lemma_stl_length(mesh: TriMesh<u32>, normals: Seq<[u32; 3]>)
    ensures
        stl_file(mesh, normals).len() == 84 + 50 * (mesh.indices@.len() / 3),
{
    lemma_triangles_length(mesh, normals, (mesh.indices@.len() / 3) as int);
}

proof fn lemma_triangles_length(mesh: TriMesh<u32>, normals: Seq<[u32; 3]>, n: int)
    requires
        0 <= n,
    ensures
        triangles_bytes(mesh, normals, n).len() == 50 * n,
    decreases n,
{
    if n > 0 {
        lemma_triangles_length(mesh, normals, n - 1);
    }
}

/// Each triangle stands in its own 50 bytes, in order.
pub proof fn lemma_stl_triangle(mesh: TriMesh<u32>, normals: Seq<[u32; 3]>, t: int)
    requires
        0 <= t < mesh.indices@.len() / 3,
    ensures
        stl_file(mesh, normals).subrange(84 + 50 * t, 84 + 50 * (t + 1)) == triangle_bytes(
            mesh,
            normals,
            t,
        ),
{
    let n = (mesh.indices@.len() / 3) as int;
    lemma_stl_length(mesh, normals);
    lemma_triangle_place(mesh, normals, n, t);
    let body = triangles_bytes(mesh, normals, n);
    lemma_triangles_length(mesh, normals, n);
    assert(stl_file(mesh, normals).subrange(84 + 50 * t, 84 + 50 * (t + 1)) =~= body.subrange(
        50 * t,
        50 * (t + 1),
    ));
}

proof fn lemma_triangle_place(mesh: TriMesh<u32>, normals: Seq<[u32; 3]>, n: int, t: int)
    requires
        0 <= t < n,
    ensures
        triangles_bytes(mesh, normals, n).len() == 50 * n,
        triangles_bytes(mesh, normals, n).subrange(50 * t, 50 * (t + 1)) == triangle_bytes(
            mesh,
            normals,
            t,
        ),
    decreases n,
{
    lemma_triangles_length(mesh, normals, n);
    lemma_triangles_length(mesh, normals, n - 1);
    let all = triangles_bytes(mesh, normals, n);
    let part = triangles_bytes(mesh, normals, n - 1);
    if t < n - 1 {
        lemma_triangle_place(mesh, normals, n - 1, t);
        assert(all.subrange(50 * t, 50 * (t + 1)) =~= part.subrange(50 * t, 50 * (t + 1)));
    } else {
        assert(all.subrange(50 * t, 50 * (t + 1)) =~= triangle_bytes(mesh, normals, t));
    }
}

fn push_number(out: &mut Vec<u8>, x: u32)
    ensures
        final(out)@ == old(out)@ + little_endian(x),
{
    out.push((x % 0x100) as u8);
    out.push(((x / 0x100) % 0x100) as u8);
    out.push(((x / 0x1_0000) % 0x100) as u8);
    out.push((x / 0x100_0000) as u8);
    assert(out@ =~= old(out)@ + little_endian(x));
}

fn push_vector(out: &mut Vec<u8>, v: [u32; 3])
    ensures
        final(out)@ == old(out)@ + vector_bytes(v),
{
    push_number(out, v[0]);
    push_number(out, v[1]);
    push_number(out, v[2]);
    assert(out@ =~= old(out)@ + vector_bytes(v));
}

fn push_triangle(out: &mut Vec<u8>, mesh: &TriMesh<u32>, normals: &Vec<[u32; 3]>, t: usize)
    requires
        mesh.indexed(),
        t < mesh.indices@.len() / 3,
        t < normals@.len(),
    ensures
        final(out)@ == old(out)@ + triangle_bytes(*mesh, normals@, t as int),
{
    let total: usize = mesh.indices.len();
    assert(3 * t + 2 < total);
    assert(mesh.indices@[3 * t as int] < mesh.positions@.len());
    assert(mesh.indices@[3 * t + 1] < mesh.positions@.len());
    assert(mesh.indices@[3 * t + 2] < mesh.positions@.len());
    let a = mesh.positions[mesh.indices[3 * t] as usize];
    let b = mesh.positions[mesh.indices[3 * t + 1] as usize];
    let c = mesh.positions[mesh.indices[3 * t + 2] as usize];
    let ghost n = vector_bytes(normals@[t as int]);
    let ghost (x, y, z) = (vector_bytes(a), vector_bytes(b), vector_bytes(c));
    push_vector(out, normals[t]);
    push_vector(out, a);
    push_vector(out, b);
    push_vector(out, c);
    let ghost corners = out@;
    out.push(0);
    out.push(0);
    proof {
        assert(triangle_bytes(*mesh, normals@, t as int) == n + x + y + z + seq![0u8, 0u8]);
        lemma_joined(old(out)@, n, x, y, z, seq![0u8, 0u8]);
        assert(out@ =~= corners + seq![0u8, 0u8]);
    }
}

proof fn lemma_joined(a: Seq<u8>, b: Seq<u8>, c: Seq<u8>, d: Seq<u8>, e: Seq<u8>, f: Seq<u8>)
    ensures
        a + b + c + d + e + f == a + (b + c + d + e + f),
{
    assert(a + b + c + d + e + f =~= a + (b + c + d + e + f));
}

/// The bytes of a binary STL file. The mesh and the normals of its triangles
/// are given by the bits of their single precision numbers.
pub fn stl_bytes(mesh: &TriMesh<u32>, normals: &Vec<[u32; 3]>) -> (out: Vec<u8>)
    requires
        mesh.indexed(),
        mesh.indices@.len() / 3 <= u32::MAX,
        normals@.len() == mesh.indices@.len() / 3,
    ensures
        out@ == stl_file(*mesh, normals@),
{
    let tag: [u8; 18] = [
        0x52, 0x75, 0x73, 0x74, 0x43, 0x41, 0x44, 0x20, 0x62, 0x69, 0x6e, 0x61, 0x72, 0x79, 0x20,
        0x53, 0x54, 0x4c,
    ];
    assert(tag@ =~= stl_tag());
    let mut out: Vec<u8> = Vec::new();
    let mut i: usize = 0;
    while i < 80
        invariant
            tag@ == stl_tag(),
            i <= 80,
            out@ == stl_header().take(i as int),
        decreases 80 - i,
    {
        let byte = if i < 18 {
            tag[i]
        } else {
            0
        };
        assert(byte == stl_header()[i as int]);
        out.push(byte);
        assert(out@ =~= stl_header().take(i + 1));
        i = i + 1;
    }
    assert(out@ =~= stl_header());
    let count: usize = mesh.indices.len() / 3;
    push_number(&mut out, count as u32);
    let ghost head = out@;
    let mut t: usize = 0;
    assert(out@ =~= head + triangles_bytes(*mesh, normals@, 0));
    while t < count
        invariant
            mesh.indexed(),
            count == mesh.indices@.len() / 3,
            normals@.len() == count,
            t <= count,
            out@ == head + triangles_bytes(*mesh, normals@, t as int),
        decreases count - t,
    {
        let ghost before = out@;
        push_triangle(&mut out, mesh, normals, t);
        assert(out@ =~= head + (triangles_bytes(*mesh, normals@, t as int) + triangle_bytes(
            *mesh,
            normals@,
            t as int,
        )));
        t = t + 1;
    }
    assert(out@ =~= stl_file(*mesh, normals@));
    out
}

/// `q` is what `f` gives for each coordinate of a point.
pub open spec fn maps_point<A, B, F: Fn(&A) -> B>(f: F, p: [A; 3], q: [B; 3]) -> bool {
    forall|k: int| 0 <= k < 3 ==> call_ensures(f, (&p[k],), #[trigger] q[k])
}

/// `there` is what `f` gives for each coordinate of the points.
pub open spec fn maps_points<A, B, F: Fn(&A) -> B>(
    f: F,
    points: Seq<[A; 3]>,
    there: Seq<[B; 3]>,
) -> bool {
    &&& there.len() == points.len()
    &&& forall|i: int| 0 <= i < points.len() ==> maps_point(f, points[i], #[trigger] there[i])
}

/// `normal` holds the bits of what `eval` gives for the normal of a triangle.
pub open spec fn is_face_normal<T, E: Fn(&Expr<T>, &Vec<T>) -> T, B: Fn(&T) -> u32>(
    eval: E,
    bits: B,
    a: [T; 3],
    b: [T; 3],
    c: [T; 3],
    normal: [u32; 3],
) -> bool {
    forall|k: int|
        0 <= k < 3 ==> is_normal_coordinate(eval, bits, a, b, c, k, #[trigger] normal[k])
}

/// `x` holds the bits of one coordinate of the normal of a triangle.
pub open spec fn is_normal_coordinate<T, E: Fn(&Expr<T>, &Vec<T>) -> T, B: Fn(&T) -> u32>(
    eval: E,
    bits: B,
    a: [T; 3],
    b: [T; 3],
    c: [T; 3],
    k: int,
    x: u32,
) -> bool {
    exists|r: T| #[trigger]
        call_ensures(bits, (&r,), x) && computes(
            eval,
            |at: Reading<T>| face_normal(at.num, a, b, c, k),
            Seq::empty(),
            r,
        )
}

/// `normals` are those of the triangles of a mesh, in order.
pub open spec fn are_face_normals<T, E: Fn(&Expr<T>, &Vec<T>) -> T, B: Fn(&T) -> u32>(
    eval: E,
    bits: B,
    indices: Seq<u32>,
    points: Seq<[T; 3]>,
    normals: Seq<[u32; 3]>,
) -> bool {
    &&& normals.len() == indices.len() / 3
    &&& forall|t: int|
        0 <= t < normals.len() ==> is_face_normal(
            eval,
            bits,
            points[indices[3 * t] as int],
            points[indices[3 * t + 1] as int],
            points[indices[3 * t + 2] as int],
            #[trigger] normals[t],
        )
}

/// `out` is the binary STL file of a mesh: each triangle with its own normal,
/// whatever the normals of its vertices are, and its corners.
pub open spec fn is_export<
    T,
    V,
    E: Fn(&Expr<T>, &Vec<T>) -> T,
    W: Fn(&V) -> T,
    B: Fn(&T) -> u32,
>(eval: E, widen: W, bits: B, mesh: TriMesh<V>, out: Seq<u8>) -> bool {
    exists|points: Seq<[T; 3]>, plain: TriMesh<u32>, normals: Seq<[u32; 3]>|
        {
            &&& #[trigger] maps_points(widen, mesh.positions@, points)
            &&& maps_points(bits, points, plain.positions@)
            &&& plain.indices@ == mesh.indices@
            &&& are_face_normals(eval, bits, mesh.indices@, points, normals)
            &&& out == #[trigger] stl_file(plain, normals)
        }
}

fn map_point<A: Copy, B: Copy, F: Fn(&A) -> B>(f: &F, p: [A; 3]) -> (q: [B; 3])
    requires
        forall|a: &A| #[trigger] call_requires(f, (a,)),
    ensures
        maps_point(*f, p, q),
{
    let x = f(&p[0]);
    let y = f(&p[1]);
    let z = f(&p[2]);
    let q = [x, y, z];
    assert(q[0] == x && q[1] == y && q[2] == z);
    q
}

fn map_points<A: Copy, B: Copy, F: Fn(&A) -> B>(f: &F, points: &Vec<[A; 3]>) -> (there: Vec<[B; 3]>)
    requires
        forall|a: &A| #[trigger] call_requires(f, (a,)),
    ensures
        maps_points(*f, points@, there@),
{
    let mut there: Vec<[B; 3]> = Vec::new();
    let mut i: usize = 0;
    while i < points.len()
        invariant
            forall|a: &A| #[trigger] call_requires(f, (a,)),
            i <= points@.len(),
            there@.len() == i,
            forall|j: int| 0 <= j < i ==> maps_point(*f, points@[j], #[trigger] there@[j]),
        decreases points@.len() - i,
    {
        there.push(map_point(f, points[i]));
        i = i + 1;
    }
    there
}

fn normal_coordinate<T: Copy, E: Fn(&Expr<T>, &Vec<T>) -> T, B: Fn(&T) -> u32>(
    eval: &E,
    bits: &B,
    a: &[T; 3],
    b: &[T; 3],
    c: &[T; 3],
    k: usize,
) -> (x: u32)
    requires
        evaluates_all(*eval),
        forall|t: &T| #[trigger] call_requires(bits, (t,)),
        k < 3,
    ensures
        is_normal_coordinate(*eval, *bits, *a, *b, *c, k as int, x),
{
    let r = eval_closed(
        eval,
        triangle_normal(a, b, c, k),
        Ghost(|at: Reading<T>| face_normal(at.num, *a, *b, *c, k as int)),
    );
    bits(&r)
}

/// The bytes of the binary STL file of a mesh. `widen` makes numbers to
/// calculate with of the coordinates, and `bits` gives the bits of a number in
/// single precision.
pub fn export_stl<
    T: Copy,
    V: Copy,
    E: Fn(&Expr<T>, &Vec<T>) -> T,
    W: Fn(&V) -> T,
    B: Fn(&T) -> u32,
>(mesh: &TriMesh<V>, eval: &E, widen: &W, bits: &B) -> (out: Vec<u8>)
    requires
        mesh.indexed(),
        mesh.indices@.len() / 3 <= u32::MAX,
        evaluates_all(*eval),
        forall|v: &V| #[trigger] call_requires(widen, (v,)),
        forall|t: &T| #[trigger] call_requires(bits, (t,)),
    ensures
        is_export(*eval, *widen, *bits, *mesh, out@),
{
    let points = map_points(widen, &mesh.positions);
    let mut plain: TriMesh<u32> = TriMesh::new();
    plain.positions = map_points(bits, &points);
    extend_copied(&mut plain.indices, &mesh.indices);
    assert(plain.indices@ =~= mesh.indices@);
    let count: usize = mesh.indices.len() / 3;
    let mut normals: Vec<[u32; 3]> = Vec::new();
    let mut t: usize = 0;
    while t < count
        invariant
            mesh.indexed(),
            evaluates_all(*eval),
            forall|t: &T| #[trigger] call_requires(bits, (t,)),
            count == mesh.indices@.len() / 3,
            points@.len() == mesh.positions@.len(),
            t <= count,
            normals@.len() == t,
            forall|s: int|
                0 <= s < t ==> is_face_normal(
                    *eval,
                    *bits,
                    points@[mesh.indices@[3 * s] as int],
                    points@[mesh.indices@[3 * s + 1] as int],
                    points@[mesh.indices@[3 * s + 2] as int],
                    #[trigger] normals@[s],
                ),
        decreases count - t,
    {
        let total: usize = mesh.indices.len();
        assert(3 * t + 2 < total);
        let a = points[mesh.indices[3 * t] as usize];
        let b = points[mesh.indices[3 * t + 1] as usize];
        let c = points[mesh.indices[3 * t + 2] as usize];
        let x = normal_coordinate(eval, bits, &a, &b, &c, 0);
        let y = normal_coordinate(eval, bits, &a, &b, &c, 1);
        let z = normal_coordinate(eval, bits, &a, &b, &c, 2);
        let normal = [x, y, z];
        assert(normal[0] == x && normal[1] == y && normal[2] == z);
        assert(is_face_normal(*eval, *bits, a, b, c, normal));
        normals.push(normal);
        t = t + 1;
    }
    assert(are_face_normals(*eval, *bits, mesh.indices@, points@, normals@));
    stl_bytes(&plain, &normals)
}

} // verus!
