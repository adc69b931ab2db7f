//! The triangles of a mesh: the objects of a model, each with its own
//! vertices and its own vertex numbering, merged into one list of triangles
//! over one list of vertices, and checked on the way.

use vstd::prelude::*;

verus! {

/// Why a model gives no mesh.
#[derive(Clone, Copy, Debug, PartialEq, Eq)]
pub enum GeometryError {
    /// The coordinates of an object do not come in threes, or its indices do not.
    Ragged,
    /// The vertices of all objects together cannot be numbered in a `u32`.
    TooManyVertices,
    /// The model has no vertex or no triangle.
    Empty,
    /// An index names a vertex that its object does not have.
    IndexOutOfRange,
}

/// One object of a model.
#[derive(Clone, Debug)]
pub struct Part {
    /// How many position coordinates the object has: three for each vertex.
    pub coords: usize,
    /// The corners of the object's triangles, three for each triangle, each
    /// a vertex of the object counted from 0.
    pub indices: Vec<u32>,
}

impl Part {
    /// The number of vertices of the object.
    pub open spec fn vertices(self) -> int {
        self.coords as int / 3
    }

    /// The coordinates or the indices do not come in threes.
    pub open spec fn ragged(self) -> bool {
        self.coords as int % 3 != 0 || self.indices@.len() % 3 != 0
    }

    /// Every index names a vertex of the object.
    pub open spec fn in_range(self) -> bool {
        forall|j: int| 0 <= j < self.indices@.len() ==> (#[trigger] self.indices@[j]) < self.vertices()
    }

    /// The triangles of the object, where its first vertex has the number `base`.
    pub open spec fn triangles(self, base: int) -> Seq<[u32; 3]> {
        Seq::new(
            (self.indices@.len() / 3) as nat,
            |t: int|
                [
                    (base + self.indices@[3 * t]) as u32,
                    (base + self.indices@[3 * t + 1]) as u32,
                    (base + self.indices@[3 * t + 2]) as u32,
                ],
        )
    }
}

/// The number of vertices of all the objects together.
pub open spec fn vertex_total(parts: Seq<Part>) -> int
    decreases parts.len(),
{
    if parts.len() == 0 {
        0
    } else {
        vertex_total(parts.drop_last()) + parts.last().vertices()
    }
}

/// The triangles of all the objects in order, the vertices numbered
/// through: those of each object follow those of the objects before it.
pub open spec fn merged(parts: Seq<Part>) -> Seq<[u32; 3]>
    decreases parts.len(),
{
    if parts.len() == 0 {
        Seq::empty()
    } else {
        merged(parts.drop_last()) + parts.last().triangles(vertex_total(parts.drop_last()))
    }
}

/// Some object has an index.
pub open spec fn has_indices(parts: Seq<Part>) -> bool {
    exists|k: int| 0 <= k < parts.len() && (#[trigger] parts[k]).indices@.len() > 0
}

/// What is wrong with the objects, if anything: the first that applies of
/// ragged data, too many vertices, no vertex or no triangle, and an index
/// out of range.
pub open spec fn fault(parts: Seq<Part>) -> Option<GeometryError> {
    if exists|k: int| 0 <= k < parts.len() && (#[trigger] parts[k]).ragged() {
        Some(GeometryError::Ragged)
    } else if vertex_total(parts) > u32::MAX {
        Some(GeometryError::TooManyVertices)
    } else if vertex_total(parts) == 0 || !has_indices(parts) {
        Some(GeometryError::Empty)
    } else if exists|k: int| 0 <= k < parts.len() && !(#[trigger] parts[k]).in_range() {
        Some(GeometryError::IndexOutOfRange)
    } else {
        None
    }
}

/// Every corner of every triangle is one of `n` vertices.
pub open spec fn corners_in_range(triangles: Seq<[u32; 3]>, n: int) -> bool {
    forall|t: int, c: int|
        0 <= t < triangles.len() && 0 <= c < 3 ==> (#[trigger] triangles[t][c]) < n
}

/// The triangles of a mesh over `vertex_count` vertices.
#[derive(Clone, Debug)]
pub struct Topology {
    pub vertex_count: u32,
    pub triangles: Vec<[u32; 3]>,
}

impl Topology {
    /// The mesh has a vertex and a triangle, and every corner of every
    /// triangle is one of its vertices.
    pub open spec fn wf(self) -> bool {
        &&& self.vertex_count > 0
        &&& self.triangles@.len() > 0
        &&& corners_in_range(self.triangles@, self.vertex_count as int)
    }
}

/// The vertex count only grows along the objects.
pub proof fn lemma_vertex_total_grows(parts: Seq<Part>, k: int)
    requires
        0 <= k <= parts.len(),
    ensures
        0 <= vertex_total(parts.take(k)) <= vertex_total(parts),
    decreases parts.len() - k,
{
    lemma_vertex_total_nonneg(parts.take(k));
    if k < parts.len() {
        lemma_vertex_total_grows(parts, k + 1);
        assert(parts.take(k + 1).drop_last() =~= parts.take(k));
    } else {
        assert(parts.take(k) =~= parts);
    }
}

/// No vertex count is negative.
proof fn lemma_vertex_total_nonneg(parts: Seq<Part>)
    ensures
        0 <= vertex_total(parts),
    decreases parts.len(),
{
    if parts.len() > 0 {
        lemma_vertex_total_nonneg(parts.drop_last());
    }
}

/// Where every index names a vertex of its object, every corner of every
/// merged triangle is one of the vertices of the mesh.
pub proof fn lemma_merged_in_range(parts: Seq<Part>)
    requires
        forall|k: int| 0 <= k < parts.len() ==> (#[trigger] parts[k]).in_range(),
        vertex_total(parts) <= u32::MAX,
    ensures
        corners_in_range(merged(parts), vertex_total(parts)),
    decreases parts.len(),
{
    if parts.len() > 0 {
        let init = parts.drop_last();
        let last = parts.last();
        let base = vertex_total(init);
        lemma_vertex_total_nonneg(init);
        assert forall|k: int| 0 <= k < init.len() implies (#[trigger] init[k]).in_range() by {
            assert(init[k] == parts[k]);
        }
        assert(last == parts[parts.len() - 1]);
        lemma_merged_in_range(init);
        assert forall|t: int, c: int|
            0 <= t < merged(parts).len() && 0 <= c < 3 implies (#[trigger] merged(parts)[t][c])
            < vertex_total(parts) by {
            if t >= merged(init).len() {
                let u = t - merged(init).len();
                assert(merged(parts)[t] == last.triangles(base)[u]);
                assert(last.indices@[3 * u] < last.vertices());
                assert(last.indices@[3 * u + 1] < last.vertices());
                assert(last.indices@[3 * u + 2] < last.vertices());
            } else {
                assert(merged(parts)[t] == merged(init)[t]);
            }
        }
    }
}

/// Merges the objects of a model into the triangles of one mesh, or says
/// what is wrong with them.
pub fn assemble(parts: &[Part]) -> (r: Result<Topology, GeometryError>)
    ensures
        match r {
            Ok(mesh) => {
                &&& fault(parts@) is None
                &&& mesh.vertex_count == vertex_total(parts@)
                &&& mesh.triangles@ == merged(parts@)
                &&& mesh.wf()
            },
            Err(e) => fault(parts@) == Some(e),
        },
{
    let n: usize = parts.len();
    let mut k: usize = 0;
    while k < n
        invariant
            k <= n,
            n == parts@.len(),
            forall|j: int| 0 <= j < k ==> !(#[trigger] parts@[j]).ragged(),
        decreases n - k,
    {
        if parts[k].coords % 3 != 0 || parts[k].indices.len() % 3 != 0 {
            return Err(GeometryError::Ragged);
        }
        k = k + 1;
    }
    let mut total: u64 = 0;
    let mut any_index: bool = false;
    k = 0;
    while k < n
        invariant
            k <= n,
            n == parts@.len(),
            total == vertex_total(parts@.take(k as int)),
            total <= u32::MAX,
            any_index <==> has_indices(parts@.take(k as int)),
            forall|j: int| 0 <= j < n ==> !(#[trigger] parts@[j]).ragged(),
        decreases n - k,
    {
        proof {
            assert(parts@.take(k + 1).drop_last() =~= parts@.take(k as int));
            assert(parts@.take(k + 1).last() == parts@[k as int]);
            lemma_vertex_total_grows(parts@, k + 1);
        }
        total = total + (parts[k].coords / 3) as u64;
        if total > 0xFFFF_FFFF {
            return Err(GeometryError::TooManyVertices);
        }
        proof {
            let before = parts@.take(k as int);
            let now = parts@.take(k + 1);
            if has_indices(before) {
                let j = choose|j: int| 0 <= j < before.len() && (#[trigger] before[j]).indices@.len() > 0;
                assert(now[j] == before[j]);
            }
            if parts@[k as int].indices@.len() > 0 {
                assert(now[k as int].indices@.len() > 0);
            }
            if has_indices(now) {
                let j = choose|j: int| 0 <= j < now.len() && (#[trigger] now[j]).indices@.len() > 0;
                if j < k {
                    assert(before[j] == now[j]);
                }
            }
        }
        if parts[k].indices.len() > 0 {
            any_index = true;
        }
        k = k + 1;
    }
    assert(parts@.take(n as int) =~= parts@);
    if total == 0 || !any_index {
        return Err(GeometryError::Empty);
    }
    let mut triangles: Vec<[u32; 3]> = Vec::new();
    let mut base: u32 = 0;
    k = 0;
    while k < n
        invariant
            k <= n,
            n == parts@.len(),
            total == vertex_total(parts@),
            0 < total <= u32::MAX,
            has_indices(parts@),
            base == vertex_total(parts@.take(k as int)),
            triangles@ == merged(parts@.take(k as int)),
            forall|j: int| 0 <= j < n ==> !(#[trigger] parts@[j]).ragged(),
            forall|j: int| 0 <= j < k ==> (#[trigger] parts@[j]).in_range(),
        decreases n - k,
    {
        let part = &parts[k];
        let count: usize = part.coords / 3;
        let m: usize = part.indices.len();
        proof {
            assert(parts@.take(k + 1).drop_last() =~= parts@.take(k as int));
            assert(parts@.take(k + 1).last() == parts@[k as int]);
            lemma_vertex_total_grows(parts@, k + 1);
        }
        let ghost done = triangles@;
        let mut t: usize = 0;
        while t < m / 3
            invariant
                t <= m / 3,
                k < n,
                n == parts@.len(),
                *part == parts@[k as int],
                total == vertex_total(parts@),
                0 < total <= u32::MAX,
                has_indices(parts@),
                forall|j: int| 0 <= j < n ==> !(#[trigger] parts@[j]).ragged(),
                m == part.indices@.len(),
                m % 3 == 0,
                count == part.vertices(),
                base + count <= u32::MAX,
                triangles@ == done + part.triangles(base as int).take(t as int),
                forall|j: int| 0 <= j < 3 * t ==> (#[trigger] part.indices@[j]) < count,
            decreases m / 3 - t,
        {
            let a: u32 = part.indices[3 * t];
            let b: u32 = part.indices[3 * t + 1];
            let c: u32 = part.indices[3 * t + 2];
            if a as usize >= count || b as usize >= count || c as usize >= count {
                proof {
                    assert(!parts@[k as int].in_range());
                }
                return Err(GeometryError::IndexOutOfRange);
            }
            triangles.push([base + a, base + b, base + c]);
            proof {
                let all = part.triangles(base as int);
                assert(all[t as int]@ =~= [(base + a) as u32, (base + b) as u32, (base + c) as u32]@);
                assert(all.take(t + 1) =~= all.take(t as int).push(all[t as int]));
                assert(triangles@ =~= done + all.take(t + 1));
                assert forall|j: int| 0 <= j < 3 * (t + 1) implies (#[trigger] part.indices@[j])
                    < count by {
                    if j >= 3 * t {
                        assert(j == 3 * t || j == 3 * t + 1 || j == 3 * t + 2);
                    }
                }
            }
            t = t + 1;
        }
        proof {
            let all = part.triangles(base as int);
            assert(all.take((m / 3) as int) =~= all);
            assert(parts@[k as int].in_range());
        }
        base = base + count as u32;
        k = k + 1;
    }
    proof {
        assert(parts@.take(n as int) =~= parts@);
        lemma_merged_in_range(parts@);
        lemma_has_triangle(parts@);
    }
    Ok(Topology { vertex_count: base, triangles })
}

/// Objects whose indices come in threes, one of which has an index, merge
/// into at least one triangle.
proof fn lemma_has_triangle(parts: Seq<Part>)
    requires
        has_indices(parts),
        forall|j: int| 0 <= j < parts.len() ==> !(#[trigger] parts[j]).ragged(),
    ensures
        merged(parts).len() > 0,
    decreases parts.len(),
{
    let j = choose|j: int| 0 <= j < parts.len() && (#[trigger] parts[j]).indices@.len() > 0;
    let init = parts.drop_last();
    if j == parts.len() - 1 {
        assert(parts.last().indices@.len() >= 3);
    } else {
        assert(init[j] == parts[j]);
        assert forall|i: int| 0 <= i < init.len() implies !(#[trigger] init[i]).ragged() by {
            assert(init[i] == parts[i]);
        }
        lemma_has_triangle(init);
    }
}

} // verus!
