//! Laws of the meshes and of the file that they are exported to.
use vstd::prelude::*;

use crate::arith::computes;
use crate::expr::{Expr, Reading, epsilon};
use crate::laws::reals::{
    lemma_cancel, lemma_quotient, lemma_root_is, lemma_round, lemma_scaled_sum, lemma_times,
    lemma_triple,
};
use crate::geometry::length;
use crate::mesh::{
    Corner, TriMesh, are_face_normals, column, face_normal, folds, is_appended, is_export,
    is_face_normal, is_normal_coordinate, lemma_stl_length, lemma_stl_triangle, little_endian,
    maps_point, maps_points, raw_normal, same_vertex, stl_file, stl_header, stl_tag, triangle_bytes,
    vector_bytes, welded,
};

use crate::solver::reading;

verus! {

/// The arithmetic computes exactly.
pub open spec fn exact_eval<T, E: Fn(&Expr<T>, &Vec<T>) -> T>(
    num: spec_fn(T) -> real,
    eval: E,
) -> bool {
    forall|meaning: spec_fn(Reading<T>) -> real, values: Seq<T>, r: T| #[trigger]
        computes(eval, meaning, values, r) ==> num(r) == meaning(reading(num, values))
}

/// The number that stands at a place of a file, lowest byte first.
pub open spec fn word_at(bytes: Seq<u8>, i: int) -> u32 {
    (bytes[i] + 0x100 * bytes[i + 1] + 0x1_0000 * bytes[i + 2] + 0x100_0000 * bytes[i + 3]) as u32
}

/// The file has, for a corner of a triangle, one coordinate of the vertex that
/// the index of that corner names.
pub open spec fn has_corner<T, B: Fn(&T) -> u32>(
    bits: B,
    points: Seq<[T; 3]>,
    indices: Seq<u32>,
    out: Seq<u8>,
    t: int,
    k: int,
    c: int,
) -> bool {
    call_ensures(
        bits,
        (&points[indices[3 * t + k] as int][c],),
        word_at(out, 84 + 50 * t + 12 + 12 * k + 4 * c),
    )
}

/// `n` stands perpendicular on the triangle, has length one, and points to the
/// side from which the corners run counterclockwise.
pub open spec fn is_upright(
    n: (real, real, real),
    a: (real, real, real),
    b: (real, real, real),
    c: (real, real, real),
) -> bool {
    let p = (b.0 - a.0, b.1 - a.1, b.2 - a.2);
    let q = (c.0 - a.0, c.1 - a.1, c.2 - a.2);
    &&& n.0 * p.0 + n.1 * p.1 + n.2 * p.2 == 0real
    &&& n.0 * q.0 + n.1 * q.1 + n.2 * q.2 == 0real
    &&& n.0 * n.0 + n.1 * n.1 + n.2 * n.2 == 1real
    &&& n.0 * (p.1 * q.2 - p.2 * q.1) + n.1 * (p.2 * q.0 - p.0 * q.2) + n.2 * (p.0 * q.1 - p.1
        * q.0) > 0real
}

/// `size` is twice the area of a triangle.
pub open spec fn is_double_area(
    size: real,
    a: (real, real, real),
    b: (real, real, real),
    c: (real, real, real),
) -> bool {
    let p = (b.0 - a.0, b.1 - a.1, b.2 - a.2);
    let q = (c.0 - a.0, c.1 - a.1, c.2 - a.2);
    let n = (p.1 * q.2 - p.2 * q.1, p.2 * q.0 - p.0 * q.2, p.0 * q.1 - p.1 * q.0);
    size >= 0real && size * size == n.0 * n.0 + n.1 * n.1 + n.2 * n.2
}

/// The real numbers behind a point.
pub open spec fn spot<T>(num: spec_fn(T) -> real, p: [T; 3]) -> (real, real, real) {
    (num(p[0]), num(p[1]), num(p[2]))
}

/// The file has, for a triangle, its own normal; that of the third axis if the
/// triangle has no extent.
pub open spec fn has_normal<T, B: Fn(&T) -> u32>(
    num: spec_fn(T) -> real,
    bits: B,
    points: Seq<[T; 3]>,
    indices: Seq<u32>,
    out: Seq<u8>,
    t: int,
) -> bool {
    let a = spot(num, points[indices[3 * t] as int]);
    let b = spot(num, points[indices[3 * t + 1] as int]);
    let c = spot(num, points[indices[3 * t + 2] as int]);
    exists|x: T, y: T, z: T|
        {
            &&& #[trigger] call_ensures(bits, (&x,), word_at(out, 84 + 50 * t))
            &&& #[trigger] call_ensures(bits, (&y,), word_at(out, 84 + 50 * t + 4))
            &&& #[trigger] call_ensures(bits, (&z,), word_at(out, 84 + 50 * t + 8))
            &&& forall|size: real| #[trigger]
                is_double_area(size, a, b, c) ==> if size <= 1real / 4503599627370496real {
                    num(x) == 0real && num(y) == 0real && num(z) == 1real
                } else {
                    is_upright((num(x), num(y), num(z)), a, b, c)
                }
        }
}

proof fn lemma_word(bytes: Seq<u8>, i: int, x: u32)
    requires
        0 <= i,
        i + 4 <= bytes.len(),
        forall|j: int| 0 <= j < 4 ==> #[trigger] bytes[i + j] == little_endian(x)[j],
    ensures
        word_at(bytes, i) == x,
{
    let e = little_endian(x);
    assert(bytes[i + 0] == e[0] && bytes[i + 1] == e[1] && bytes[i + 2] == e[2] && bytes[i + 3]
        == e[3]);
    assert(bytes[i] == e[0]);
    assert(e[0] as int + 0x100 * e[1] as int + 0x1_0000 * e[2] as int + 0x100_0000 * e[3] as int
        == x);
}

proof fn lemma_vector(bytes: Seq<u8>, i: int, v: [u32; 3], c: int)
    requires
        0 <= i,
        i + 12 <= bytes.len(),
        forall|j: int| 0 <= j < 12 ==> #[trigger] bytes[i + j] == vector_bytes(v)[j],
        0 <= c < 3,
    ensures
        word_at(bytes, i + 4 * c) == v[c],
{
    assert forall|j: int| 0 <= j < 4 implies #[trigger] bytes[i + 4 * c + j] == little_endian(
        v[c],
    )[j] by {
        assert(bytes[i + (4 * c + j)] == vector_bytes(v)[4 * c + j]);
        assert(c == 0 || c == 1 || c == 2);
    }
    lemma_word(bytes, i + 4 * c, v[c]);
}

/// What stands in the bytes of a triangle.
proof fn lemma_triangle(mesh: TriMesh<u32>, normals: Seq<[u32; 3]>, t: int)
    requires
        0 <= t < mesh.indices@.len() / 3,
    ensures
        ({
            let out = stl_file(mesh, normals);
            let start = 84 + 50 * t;
            &&& out.len() >= start + 50
            &&& forall|c: int|
                0 <= c < 3 ==> word_at(out, #[trigger] (start + 4 * c)) == normals[t][c]
            &&& forall|k: int, c: int|
                0 <= k < 3 && 0 <= c < 3 ==> word_at(
                    out,
                    #[trigger] (start + 12 + 12 * k + 4 * c),
                ) == mesh.positions@[mesh.indices@[3 * t + k] as int][c]
            &&& out[start + 48] == 0
            &&& out[start + 49] == 0
        }),
{
    let out = stl_file(mesh, normals);
    let start = 84 + 50 * t;
    lemma_stl_length(mesh, normals);
    lemma_stl_triangle(mesh, normals, t);
    let part = out.subrange(84 + 50 * t, 84 + 50 * (t + 1));
    assert(part == triangle_bytes(mesh, normals, t));
    assert(out.len() >= start + 50);
    assert forall|j: int| 0 <= j < 50 implies #[trigger] out[start + j] == part[j] by {}
    let corner = |k: int| mesh.positions@[mesh.indices@[3 * t + k] as int];
    let n = vector_bytes(normals[t]);
    let (x, y, z) = (vector_bytes(corner(0)), vector_bytes(corner(1)), vector_bytes(corner(2)));
    assert(part =~= n + x + y + z + seq![0u8, 0u8]);
    assert forall|c: int| 0 <= c < 3 implies word_at(out, #[trigger] (start + 4 * c))
        == normals[t][c] by {
        assert forall|j: int| 0 <= j < 12 implies #[trigger] out[start + j] == n[j] by {}
        lemma_vector(out, start, normals[t], c);
    }
    assert forall|k: int, c: int| 0 <= k < 3 && 0 <= c < 3 implies word_at(
        out,
        #[trigger] (start + 12 + 12 * k + 4 * c),
    ) == mesh.positions@[mesh.indices@[3 * t + k] as int][c] by {
        assert(k == 0 || k == 1 || k == 2);
        let at = start + 12 + 12 * k;
        assert forall|j: int| 0 <= j < 12 implies #[trigger] out[at + j] == vector_bytes(
            corner(k),
        )[j] by {
            assert(out[start + (12 + 12 * k + j)] == part[12 + 12 * k + j]);
        }
        lemma_vector(out, at, corner(k), c);
    }
    assert(out[start + 48] == part[48] && out[start + 49] == part[49]);
}

proof fn lemma_upright(
    size: real,
    p: (real, real, real),
    q: (real, real, real),
    n: (real, real, real),
    m: (real, real, real),
)
    requires
        n == (p.1 * q.2 - p.2 * q.1, p.2 * q.0 - p.0 * q.2, p.0 * q.1 - p.1 * q.0),
        size > 0real,
        size * size == n.0 * n.0 + n.1 * n.1 + n.2 * n.2,
        m == (n.0 / size, n.1 / size, n.2 / size),
    ensures
        m.0 * p.0 + m.1 * p.1 + m.2 * p.2 == 0real,
        m.0 * q.0 + m.1 * q.1 + m.2 * q.2 == 0real,
        m.0 * m.0 + m.1 * m.1 + m.2 * m.2 == 1real,
        m.0 * n.0 + m.1 * n.1 + m.2 * n.2 > 0real,
{
    lemma_quotient(n.0, size);
    lemma_quotient(n.1, size);
    lemma_quotient(n.2, size);
    lemma_triple(p.0, p.1, p.2, q.0, q.1, q.2);
    lemma_scaled_sum(size, m, n, p);
    lemma_scaled_sum(size, m, n, q);
    lemma_scaled_sum(size, m, n, n);
    lemma_scaled_sum(size, m, n, m);
    lemma_times(size, 0real);
    lemma_times(size, 1real);
    lemma_cancel(size, m.0 * p.0 + m.1 * p.1 + m.2 * p.2, 0real);
    lemma_cancel(size, m.0 * q.0 + m.1 * q.1 + m.2 * q.2, 0real);
    lemma_cancel(size, m.0 * n.0 + m.1 * n.1 + m.2 * n.2, size);
    lemma_round(n.0, m.0, 1real);
    lemma_round(n.1, m.1, 1real);
    lemma_round(n.2, m.2, 1real);
    lemma_cancel(size, m.0 * m.0 + m.1 * m.1 + m.2 * m.2, 1real);
}

/// The normal of a triangle, in exact arithmetic.
proof fn lemma_normal<T>(num: spec_fn(T) -> real, a: [T; 3], b: [T; 3], c: [T; 3], size: real)
    requires
        is_double_area(size, spot(num, a), spot(num, b), spot(num, c)),
    ensures
        ({
            let n = (
                face_normal(num, a, b, c, 0),
                face_normal(num, a, b, c, 1),
                face_normal(num, a, b, c, 2),
            );
            if size <= 1real / 4503599627370496real {
                n == (0real, 0real, 1real)
            } else {
                is_upright(n, spot(num, a), spot(num, b), spot(num, c))
            }
        }),
{
    let p = (num(b[0]) - num(a[0]), num(b[1]) - num(a[1]), num(b[2]) - num(a[2]));
    let q = (num(c[0]) - num(a[0]), num(c[1]) - num(a[1]), num(c[2]) - num(a[2]));
    let n = (p.1 * q.2 - p.2 * q.1, p.2 * q.0 - p.0 * q.2, p.0 * q.1 - p.1 * q.0);
    let raw = |k: int| raw_normal(num, a, b, c, k);
    assert(raw(0) == n.0);
    assert(raw(1) == n.1);
    assert(raw(2) == n.2);
    lemma_root_is(size, n.0 * n.0 + n.1 * n.1 + n.2 * n.2);
    assert(length(raw(0), raw(1), raw(2)) == size);
    if size > epsilon() {
        assert(1real / 4503599627370496real > 0real);
        lemma_upright(size, p, q, n, (n.0 / size, n.1 / size, n.2 / size));
    }
}

/// A binary STL file has the tag and the number of triangles first. Then it has
/// fifty bytes for every three indices of the mesh: the normal of the triangle,
/// the coordinates of the three vertices that these indices name, in order, and
/// two zeros.
pub proof fn lemma_export<
    T,
    V,
    E: Fn(&Expr<T>, &Vec<T>) -> T,
    W: Fn(&V) -> T,
    B: Fn(&T) -> u32,
>(num: spec_fn(T) -> real, eval: E, widen: W, bits: B, mesh: TriMesh<V>, out: Seq<u8>)
    requires
        exact_eval(num, eval),
        mesh.indexed(),
        mesh.indices@.len() / 3 <= u32::MAX,
        is_export(eval, widen, bits, mesh, out),
    ensures
        out.len() == 84 + 50 * (mesh.indices@.len() / 3),
        forall|i: int| 0 <= i < 18 ==> #[trigger] out[i] == "RustCAD binary STL"@[i] as u8,
        forall|i: int| 18 <= i < 80 ==> #[trigger] out[i] == 0,
        word_at(out, 80) == mesh.indices@.len() / 3,
        exists|points: Seq<[T; 3]>|
            {
                &&& points.len() == mesh.positions@.len()
                &&& forall|i: int, c: int|
                    0 <= i < points.len() && 0 <= c < 3 ==> call_ensures(
                        widen,
                        (&mesh.positions@[i][c],),
                        #[trigger] points[i][c],
                    )
                &&& forall|t: int, k: int, c: int|
                    0 <= t < mesh.indices@.len() / 3 && 0 <= k < 3 && 0 <= c < 3
                        ==> #[trigger] has_corner(bits, points, mesh.indices@, out, t, k, c)
                &&& forall|t: int|
                    0 <= t < mesh.indices@.len() / 3 ==> #[trigger] has_normal(
                        num,
                        bits,
                        points,
                        mesh.indices@,
                        out,
                        t,
                    )
            },
        forall|t: int|
            0 <= t < mesh.indices@.len() / 3 ==> out[#[trigger] (84 + 50 * t + 48)] == 0 && out[84
                + 50 * t + 49] == 0,
{
    let (points, plain, normals) = choose|
        points: Seq<[T; 3]>,
        plain: TriMesh<u32>,
        normals: Seq<[u32; 3]>,
    |
        {
            &&& #[trigger] maps_points(widen, mesh.positions@, points)
            &&& maps_points(bits, points, plain.positions@)
            &&& plain.indices@ == mesh.indices@
            &&& are_face_normals(eval, bits, mesh.indices@, points, normals)
            &&& out == #[trigger] stl_file(plain, normals)
        };
    let indices = mesh.indices@;
    let count = indices.len() / 3;
    lemma_stl_length(plain, normals);
    reveal_strlit("RustCAD binary STL");
    assert forall|i: int| 0 <= i < 80 implies #[trigger] out[i] == stl_header()[i] by {}
    assert forall|i: int| 0 <= i < 18 implies #[trigger] out[i] == "RustCAD binary STL"@[i] as u8 by {
        assert(stl_header()[i] == stl_tag()[i]);
    }
    assert forall|j: int| 0 <= j < 4 implies #[trigger] out[80 + j] == little_endian(
        count as u32,
    )[j] by {}
    lemma_word(out, 80, count as u32);
    assert forall|i: int, c: int| 0 <= i < points.len() && 0 <= c < 3 implies call_ensures(
        widen,
        (&mesh.positions@[i][c],),
        #[trigger] points[i][c],
    ) by {
        assert(maps_point(widen, mesh.positions@[i], points[i]));
    }
    assert forall|t: int, k: int, c: int|
        0 <= t < count && 0 <= k < 3 && 0 <= c < 3 implies #[trigger] has_corner(
        bits,
        points,
        indices,
        out,
        t,
        k,
        c,
    ) by {
        lemma_triangle(plain, normals, t);
        let v = indices[3 * t + k] as int;
        assert(3 * t + k < indices.len());
        assert(indices[3 * t + k] < mesh.positions@.len());
        assert(maps_point(bits, points[v], plain.positions@[v]));
        let at = 84 + 50 * t;
        assert(word_at(out, at + 12 + 12 * k + 4 * c) == plain.positions@[v][c]);
        assert(call_ensures(bits, (&points[v][c],), plain.positions@[v][c]));
    }
    assert forall|t: int| 0 <= t < count implies #[trigger] has_normal(
        num,
        bits,
        points,
        indices,
        out,
        t,
    ) by {
        lemma_triangle(plain, normals, t);
        let a = points[indices[3 * t] as int];
        let b = points[indices[3 * t + 1] as int];
        let c = points[indices[3 * t + 2] as int];
        assert(is_face_normal(eval, bits, a, b, c, normals[t]));
        let at = 84 + 50 * t;
        assert(word_at(out, at + 4 * 0) == normals[t][0]);
        assert(word_at(out, at + 4 * 1) == normals[t][1]);
        assert(word_at(out, at + 4 * 2) == normals[t][2]);
        assert(is_normal_coordinate(eval, bits, a, b, c, 0, normals[t][0]));
        assert(is_normal_coordinate(eval, bits, a, b, c, 1, normals[t][1]));
        assert(is_normal_coordinate(eval, bits, a, b, c, 2, normals[t][2]));
        let x = lemma_coordinate(num, eval, bits, a, b, c, 0, normals[t][0]);
        let y = lemma_coordinate(num, eval, bits, a, b, c, 1, normals[t][1]);
        let z = lemma_coordinate(num, eval, bits, a, b, c, 2, normals[t][2]);
        assert(call_ensures(bits, (&x,), word_at(out, at)));
        assert(call_ensures(bits, (&y,), word_at(out, at + 4)));
        assert(call_ensures(bits, (&z,), word_at(out, at + 8)));
        assert forall|size: real| #[trigger]
            is_double_area(size, spot(num, a), spot(num, b), spot(num, c)) implies if size <= 1real
            / 4503599627370496real {
            num(x) == 0real && num(y) == 0real && num(z) == 1real
        } else {
            is_upright((num(x), num(y), num(z)), spot(num, a), spot(num, b), spot(num, c))
        } by {
            lemma_normal(num, a, b, c, size);
        }
    }
    assert forall|t: int| 0 <= t < count implies out[#[trigger] (84 + 50 * t + 48)] == 0 && out[84
        + 50 * t + 49] == 0 by {
        lemma_triangle(plain, normals, t);
    }
}

proof fn lemma_coordinate<T, E: Fn(&Expr<T>, &Vec<T>) -> T, B: Fn(&T) -> u32>(
    num: spec_fn(T) -> real,
    eval: E,
    bits: B,
    a: [T; 3],
    b: [T; 3],
    c: [T; 3],
    k: int,
    x: u32,
) -> (r: T)
    requires
        exact_eval(num, eval),
        is_normal_coordinate(eval, bits, a, b, c, k, x),
    ensures
        call_ensures(bits, (&r,), x),
        num(r) == face_normal(num, a, b, c, k),
{
    let meaning = |at: Reading<T>| face_normal(at.num, a, b, c, k);
    let r = choose|r: T| #[trigger]
        call_ensures(bits, (&r,), x) && computes(eval, meaning, Seq::empty(), r);
    assert(computes(eval, meaning, Seq::empty(), r));
    assert(num(r) == meaning(reading(num, Seq::empty())));
    r
}

/// One of the indices from a place on names the vertex.
pub open spec fn is_named(indices: Seq<u32>, from: int, v: int) -> bool {
    exists|k: int| from <= k < indices.len() && #[trigger] indices[k] == v
}

/// A corner of a polygon has the vertex with its position, its normal if it has
/// one, and the number of its face. Corners share a vertex exactly where they
/// have the same position and the same normal. No other vertex is added, and
/// what was there stays.
pub proof fn lemma_appended<V>(
    before: TriMesh<V>,
    later: TriMesh<V>,
    positions: Seq<[V; 3]>,
    normals: Seq<[V; 3]>,
    corners: Seq<Corner<V>>,
    face: u32,
)
    requires
        is_appended(before, later, positions, normals, corners, face),
    ensures
        later.edges == before.edges,
        later.indices@.len() == before.indices@.len() + corners.len(),
        forall|i: int|
            0 <= i < before.positions@.len() ==> #[trigger] later.positions@[i]
                == before.positions@[i],
        forall|i: int|
            0 <= i < before.normals@.len() ==> #[trigger] later.normals@[i] == before.normals@[i],
        forall|i: int|
            0 <= i < before.face_ids@.len() ==> #[trigger] later.face_ids@[i]
                == before.face_ids@[i],
        forall|i: int|
            0 <= i < before.indices@.len() ==> #[trigger] later.indices@[i]
                == before.indices@[i],
        before.normals@.len() == before.positions@.len() && before.face_ids@.len()
            == before.positions@.len() ==> forall|k: int|
            0 <= k < corners.len() ==> {
                let v = #[trigger] later.indices@[before.indices@.len() + k];
                let c = corners[k];
                &&& before.positions@.len() <= v < later.positions@.len()
                &&& later.positions@[v as int] == positions[c.position as int]
                &&& c.normal matches Some(n) ==> later.normals@[v as int] == normals[n as int]
                &&& c.normal is None ==> exists|j: int|
                    0 <= j < corners.len() && corners[j].position == c.position
                        && corners[j].normal is None && later.normals@[v as int]
                        == (#[trigger] corners[j]).fallback
                &&& later.face_ids@[v as int] == face
            },
        forall|j: int, k: int|
            0 <= j < corners.len() && 0 <= k < corners.len() ==> (
            #[trigger] later.indices@[before.indices@.len() + j]
                == #[trigger] later.indices@[before.indices@.len() + k] <==> corners[j].position
                == corners[k].position && corners[j].normal == corners[k].normal),
        forall|v: int|
            before.positions@.len() <= v < later.positions@.len() ==> #[trigger] is_named(
                later.indices@,
                before.indices@.len() as int,
                v,
            ),
{
    let fresh = welded(corners);
    let base = before.positions@.len() as int;
    let start = before.indices@.len() as int;
    lemma_welded(corners);
    let place = |c: Corner<V>| positions[c.position as int];
    assert forall|k: int| 0 <= k < corners.len() implies base <= (
    #[trigger] later.indices@[start + k]) < base + fresh.len() && same_vertex(
        fresh[later.indices@[start + k] - base],
        corners[k],
    ) by {}
    assert forall|v: int| base <= v < later.positions@.len() implies #[trigger] is_named(
        later.indices@,
        start,
        v,
    ) by {
        assert(later.positions@.len() == base + fresh.len());
        let k = choose|k: int| 0 <= k < corners.len() && #[trigger] corners[k] == fresh[v - base];
        let w = later.indices@[start + k] - base;
        assert(same_vertex(fresh[w], corners[k]));
        assert(same_vertex(fresh[w], fresh[v - base]));
        assert(w == v - base);
        assert(later.indices@[start + k] == v);
    }
    if before.normals@.len() == before.positions@.len() && before.face_ids@.len()
        == before.positions@.len() {
        assert forall|k: int| 0 <= k < corners.len() implies {
            let v = #[trigger] later.indices@[start + k];
            let c = corners[k];
            &&& base <= v < later.positions@.len()
            &&& later.positions@[v as int] == positions[c.position as int]
            &&& c.normal matches Some(n) ==> later.normals@[v as int] == normals[n as int]
            &&& c.normal is None ==> exists|j: int|
                0 <= j < corners.len() && corners[j].position == c.position && corners[j].normal is None
                    && later.normals@[v as int] == (#[trigger] corners[j]).fallback
            &&& later.face_ids@[v as int] == face
        } by {
            let v = later.indices@[start + k];
            let w = fresh[v - base];
            assert(same_vertex(w, corners[k]));
            assert(later.positions@[v as int] == place(w));
            let j = choose|j: int| 0 <= j < corners.len() && #[trigger] corners[j] == fresh[v - base];
            assert(corners[j] == w);
        }
    }
}

proof fn lemma_welded<V>(corners: Seq<Corner<V>>)
    ensures
        forall|i: int|
            0 <= i < welded(corners).len() ==> exists|k: int|
                0 <= k < corners.len() && #[trigger] corners[k] == #[trigger] welded(corners)[i],
        forall|i: int, j: int|
            0 <= i < welded(corners).len() && 0 <= j < welded(corners).len() && same_vertex(
                #[trigger] welded(corners)[i],
                #[trigger] welded(corners)[j],
            ) ==> i == j,
    decreases corners.len(),
{
    if corners.len() > 0 {
        let shorter = corners.drop_last();
        let rest = welded(shorter);
        let all = welded(corners);
        lemma_welded(shorter);
        assert forall|i: int| 0 <= i < all.len() implies exists|k: int|
            0 <= k < corners.len() && #[trigger] corners[k] == #[trigger] all[i] by {
            if i < rest.len() {
                assert(all[i] == rest[i]);
                let k = choose|k: int| 0 <= k < shorter.len() && #[trigger] shorter[k] == rest[i];
                assert(corners[k] == all[i]);
            } else {
                assert(corners[corners.len() - 1] == all[i]);
            }
        }
        assert forall|i: int, j: int|
            0 <= i < all.len() && 0 <= j < all.len() && same_vertex(
                #[trigger] all[i],
                #[trigger] all[j],
            ) implies i == j by {
            if i < rest.len() && j < rest.len() {
                assert(same_vertex(rest[i], rest[j]));
            } else if i < rest.len() {
                assert(same_vertex(rest[i], corners.last()));
            } else if j < rest.len() {
                assert(same_vertex(rest[j], corners.last()));
            }
        }
    }
}

/// `f` picks the smaller of two numbers.
pub open spec fn picks_smaller<V, F: Fn(&V, &V) -> V>(num: spec_fn(V) -> real, f: F) -> bool {
    forall|a: &V, b: &V, r: V| #[trigger]
        call_ensures(f, (a, b), r) ==> (r == *a || r == *b) && num(r) <= num(*a) && num(r) <= num(
            *b,
        )
}

/// `f` picks the larger of two numbers.
pub open spec fn picks_larger<V, F: Fn(&V, &V) -> V>(num: spec_fn(V) -> real, f: F) -> bool {
    forall|a: &V, b: &V, r: V| #[trigger]
        call_ensures(f, (a, b), r) ==> (r == *a || r == *b) && num(r) >= num(*a) && num(r) >= num(
            *b,
        )
}

proof fn lemma_least<V, F: Fn(&V, &V) -> V>(
    num: spec_fn(V) -> real,
    f: F,
    first: V,
    list: Seq<V>,
    r: V,
)
    requires
        picks_smaller(num, f),
        folds(f, first, list, r),
    ensures
        num(r) <= num(first),
        forall|i: int| 0 <= i < list.len() ==> num(r) <= num(#[trigger] list[i]),
        r == first || list.contains(r),
    decreases list.len(),
{
    if list.len() > 0 {
        let rest = list.drop_last();
        let part = choose|part: V|
            folds(f, first, rest, part) && #[trigger] call_ensures(f, (&part, &list.last()), r);
        lemma_least(num, f, first, rest, part);
        assert forall|i: int| 0 <= i < list.len() implies num(r) <= num(#[trigger] list[i]) by {
            if i < rest.len() {
                assert(rest[i] == list[i]);
            }
        }
        if r == list.last() {
            assert(list[list.len() - 1] == r);
        } else if part != first {
            let i = choose|i: int| 0 <= i < rest.len() && rest[i] == part;
            assert(list[i] == r);
        }
    }
}

proof fn lemma_greatest<V, F: Fn(&V, &V) -> V>(
    num: spec_fn(V) -> real,
    f: F,
    first: V,
    list: Seq<V>,
    r: V,
)
    requires
        picks_larger(num, f),
        folds(f, first, list, r),
    ensures
        num(r) >= num(first),
        forall|i: int| 0 <= i < list.len() ==> num(r) >= num(#[trigger] list[i]),
        r == first || list.contains(r),
    decreases list.len(),
{
    if list.len() > 0 {
        let rest = list.drop_last();
        let part = choose|part: V|
            folds(f, first, rest, part) && #[trigger] call_ensures(f, (&part, &list.last()), r);
        lemma_greatest(num, f, first, rest, part);
        assert forall|i: int| 0 <= i < list.len() implies num(r) >= num(#[trigger] list[i]) by {
            if i < rest.len() {
                assert(rest[i] == list[i]);
            }
        }
        if r == list.last() {
            assert(list[list.len() - 1] == r);
        } else if part != first {
            let i = choose|i: int| 0 <= i < rest.len() && rest[i] == part;
            assert(list[i] == r);
        }
    }
}

/// The box of a mesh is the smallest that holds all its vertices: each of them
/// lies inside, and one lies on each side.
pub proof fn lemma_box<V, L: Fn(&V, &V) -> V, H: Fn(&V, &V) -> V>(
    num: spec_fn(V) -> real,
    min: L,
    max: H,
    positions: Seq<[V; 3]>,
    low: [V; 3],
    high: [V; 3],
    i: int,
)
    requires
        picks_smaller(num, min),
        picks_larger(num, max),
        positions.len() > 0,
        0 <= i < 3,
        folds(min, positions[0][i], column(positions, i), low[i]),
        folds(max, positions[0][i], column(positions, i), high[i]),
    ensures
        forall|j: int|
            0 <= j < positions.len() ==> num(low[i]) <= num((#[trigger] positions[j])[i]) <= num(
                high[i],
            ),
        exists|j: int| 0 <= j < positions.len() && (#[trigger] positions[j])[i] == low[i],
        exists|j: int| 0 <= j < positions.len() && (#[trigger] positions[j])[i] == high[i],
{
    let list = column(positions, i);
    lemma_least(num, min, positions[0][i], list, low[i]);
    lemma_greatest(num, max, positions[0][i], list, high[i]);
    assert forall|j: int| 0 <= j < positions.len() implies num(low[i]) <= num(
        (#[trigger] positions[j])[i],
    ) <= num(high[i]) by {
        assert(list[j] == positions[j][i]);
    }
    assert(positions[0][i] == positions[0][i]);
    if low[i] != positions[0][i] {
        let j = choose|j: int| 0 <= j < list.len() && list[j] == low[i];
        assert(positions[j][i] == low[i]);
    }
    if high[i] != positions[0][i] {
        let j = choose|j: int| 0 <= j < list.len() && list[j] == high[i];
        assert(positions[j][i] == high[i]);
    }
}

} // verus!
