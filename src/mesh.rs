use std::collections::HashMap;
use vstd::prelude::*;

use crate::primitives::{dot_spec, in_coord_range, within, Face, Vertex, COORD_LIMIT};
use crate::rotation::{rotated, CubeRotation};

verus! {

broadcast use vstd::std_specs::hash::group_hash_axioms;

/// What a mesh holds: its points, and each face as the positions of its
/// corners in the list of points.
pub struct MeshView {
    pub vertices: Seq<Seq<int>>,
    pub faces: Seq<Seq<int>>,
}

/// Every corner of `f` names one of the first `n` points.
pub open spec fn face_in_bounds(f: Seq<int>, n: int) -> bool {
    forall|j: int| 0 <= j < f.len() ==> 0 <= #[trigger] f[j] < n
}

impl MeshView {
    /// Every point is within the coordinate range and every face names
    /// existing points only.
    pub open spec fn wf(self) -> bool {
        &&& forall|i: int| 0 <= i < self.vertices.len() ==> in_coord_range(#[trigger] self.vertices[i])
        &&& forall|f: int|
            0 <= f < self.faces.len() ==> face_in_bounds(
                #[trigger] self.faces[f],
                self.vertices.len() as int,
            )
    }
}

impl MeshView {
    /// Every coordinate of every point lies within `limit` in magnitude.
    pub open spec fn coords_within(self, limit: int) -> bool {
        forall|i: int| 0 <= i < self.vertices.len() ==> within(#[trigger] self.vertices[i], limit)
    }
}

/// The mesh with no points and no faces.
pub open spec fn empty_mesh() -> MeshView {
    MeshView { vertices: Seq::empty(), faces: Seq::empty() }
}

/// The meshes of `ms` merged in their order into an empty one.
pub open spec fn merge_all(ms: Seq<MeshView>) -> MeshView
    decreases ms.len(),
{
    if ms.len() == 0 {
        empty_mesh()
    } else {
        merged(merge_all(ms.drop_last()), ms.last())
    }
}

/// The number of points over all meshes of `ms`.
pub open spec fn total_vertices(ms: Seq<MeshView>) -> int
    decreases ms.len(),
{
    if ms.len() == 0 {
        0
    } else {
        total_vertices(ms.drop_last()) + ms.last().vertices.len()
    }
}

/// The number of faces over all meshes of `ms`.
pub open spec fn total_faces(ms: Seq<MeshView>) -> int
    decreases ms.len(),
{
    if ms.len() == 0 {
        0
    } else {
        total_faces(ms.drop_last()) + ms.last().faces.len()
    }
}

/// The point `p` moved by `d`.
pub open spec fn translated(p: Seq<int>, d: Seq<int>) -> Seq<int> {
    seq![p[0] + d[0], p[1] + d[1], p[2] + d[2]]
}

/// The face `f` with every corner position increased by `n`.
pub open spec fn shifted(f: Seq<int>, n: int) -> Seq<int> {
    f.map_values(|i: int| i + n)
}

/// Every point of `m` carried by `r`; faces unchanged.
pub open spec fn rotated_mesh(m: MeshView, r: CubeRotation) -> MeshView {
    MeshView { vertices: m.vertices.map_values(|p: Seq<int>| rotated(r, p)), faces: m.faces }
}

/// Every point of `m` moved by `d`; faces unchanged.
pub open spec fn translated_mesh(m: MeshView, d: Seq<int>) -> MeshView {
    MeshView { vertices: m.vertices.map_values(|p: Seq<int>| translated(p, d)), faces: m.faces }
}

/// The points of `b` after those of `a`, and the faces of `b`, renumbered
/// to their points' new positions, after those of `a`.
pub open spec fn merged(a: MeshView, b: MeshView) -> MeshView {
    MeshView {
        vertices: a.vertices + b.vertices,
        faces: a.faces + b.faces.map_values(|f: Seq<int>| shifted(f, a.vertices.len() as int)),
    }
}

/// `p` lies on the kept side of the plane through the origin with normal
/// `n`: their dot product is at most zero.
pub open spec fn keeps(p: Seq<int>, n: Seq<int>) -> bool {
    dot_spec(p, n) <= 0
}

pub open spec fn keep_pred(n: Seq<int>) -> spec_fn(Seq<int>) -> bool {
    |p: Seq<int>| keeps(p, n)
}

/// The points of `vs` on the kept side, in their order.
pub open spec fn kept_vertices(vs: Seq<Seq<int>>, n: Seq<int>) -> Seq<Seq<int>> {
    vs.filter(keep_pred(n))
}

/// Where point `i` of `vs` lands among the kept points: the number of kept
/// points before it.
pub open spec fn new_position(vs: Seq<Seq<int>>, n: Seq<int>, i: int) -> int {
    kept_vertices(vs.take(i), n).len() as int
}

/// Every corner of `f` is a kept point.
pub open spec fn face_survives(vs: Seq<Seq<int>>, n: Seq<int>, f: Seq<int>) -> bool {
    forall|j: int| 0 <= j < f.len() ==> keeps(vs[#[trigger] f[j]], n)
}

pub open spec fn survive_pred(vs: Seq<Seq<int>>, n: Seq<int>) -> spec_fn(Seq<int>) -> bool {
    |f: Seq<int>| face_survives(vs, n, f)
}

/// The face `f` with its corners renumbered among the kept points.
pub open spec fn renumbered(vs: Seq<Seq<int>>, n: Seq<int>, f: Seq<int>) -> Seq<int> {
    f.map_values(|i: int| new_position(vs, n, i))
}

pub open spec fn renumber_fn(vs: Seq<Seq<int>>, n: Seq<int>) -> spec_fn(Seq<int>) -> Seq<int> {
    |f: Seq<int>| renumbered(vs, n, f)
}

/// `m` clipped by the half-space of normal `n`: the kept points, and the
/// faces whose corners are all kept, renumbered.
pub open spec fn clipped_mesh(m: MeshView, n: Seq<int>) -> MeshView {
    MeshView {
        vertices: kept_vertices(m.vertices, n),
        faces: m.faces.filter(survive_pred(m.vertices, n)).map_values(renumber_fn(m.vertices, n)),
    }
}

/// Every corner of `f` is a key of `keepers`.
pub open spec fn all_kept(f: Seq<int>, keepers: Map<usize, usize>) -> bool {
    forall|j: int| 0 <= j < f.len() ==> #[trigger] keepers.contains_key(f[j] as usize)
}

/// A polygon mesh: vertices in the order they were added, and faces that
/// name their corners by position in that order.
pub struct Mesh {
    pub vertices: Vec<Vertex>,
    pub faces: Vec<Face>,
}

impl View for Mesh {
    type V = MeshView;

    open spec fn view(&self) -> MeshView {
        MeshView {
            vertices: self.vertices@.map_values(|v: Vertex| v@),
            faces: self.faces@.map_values(|f: Face| f@),
        }
    }
}

/// The face `f` with `n` added to each corner position.
fn shift_face(f: &Face, n: usize, bound: usize) -> (r: Face)
    requires
        face_in_bounds(f@, bound as int),
        n + bound <= usize::MAX,
    ensures
        r@ == shifted(f@, n as int),
{
    match *f {
        Face::Triangle(a) => {
            let r = Face::Triangle([a[0] + n, a[1] + n, a[2] + n]);
            assert(r@ =~= shifted(f@, n as int));
            r
        },
        Face::Quad(a) => {
            let r = Face::Quad([a[0] + n, a[1] + n, a[2] + n, a[3] + n]);
            assert(r@ =~= shifted(f@, n as int));
            r
        },
    }
}

impl Mesh {
    pub fn new() -> (m: Self)
        ensures
            m@ == empty_mesh(),
            m@.wf(),
    {
        let m = Mesh { vertices: Vec::new(), faces: Vec::new() };
        assert(m@.vertices =~= empty_mesh().vertices);
        assert(m@.faces =~= empty_mesh().faces);
        m
    }

    pub fn vertex_count(&self) -> (n: usize)
        ensures
            n == self@.vertices.len(),
    {
        self.vertices.len()
    }

    pub fn face_count(&self) -> (n: usize)
        ensures
            n == self@.faces.len(),
    {
        self.faces.len()
    }

    /// Whether every coordinate is within the coordinate range and every
    /// face names existing vertices only.
    pub fn is_valid(&self) -> (r: bool)
        ensures
            r == self@.wf(),
    {
        let mut i: usize = 0;
        while i < self.vertices.len()
            invariant
                i <= self.vertices.len(),
                forall|k: int| 0 <= k < i ==> in_coord_range(#[trigger] self@.vertices[k]),
            decreases self.vertices.len() - i,
        {
            let v = self.vertices[i];
            assert(self@.vertices[i as int] == v@);
            if v.0[0] < -COORD_LIMIT || v.0[0] > COORD_LIMIT || v.0[1] < -COORD_LIMIT || v.0[1]
                > COORD_LIMIT || v.0[2] < -COORD_LIMIT || v.0[2] > COORD_LIMIT {
                return false;
            }
            i += 1;
        }
        let n = self.vertices.len();
        let mut f: usize = 0;
        while f < self.faces.len()
            invariant
                f <= self.faces.len(),
                n == self@.vertices.len(),
                forall|k: int| 0 <= k < self@.vertices.len() ==> in_coord_range(#[trigger] self@.vertices[k]),
                forall|k: int| 0 <= k < f ==> face_in_bounds(#[trigger] self@.faces[k], n as int),
            decreases self.faces.len() - f,
        {
            let face = self.faces[f];
            assert(self@.faces[f as int] == face@);
            let ok = match face {
                Face::Triangle(a) => a[0] < n && a[1] < n && a[2] < n,
                Face::Quad(a) => a[0] < n && a[1] < n && a[2] < n && a[3] < n,
            };
            if !ok {
                assert(!face_in_bounds(face@, n as int));
                return false;
            }
            f += 1;
        }
        true
    }

    /// Whether every coordinate lies within `limit` in magnitude.
    pub fn coords_bounded_by(&self, limit: i64) -> (r: bool)
        requires
            limit >= 0,
        ensures
            r == self@.coords_within(limit as int),
    {
        let mut i: usize = 0;
        while i < self.vertices.len()
            invariant
                i <= self.vertices.len(),
                limit >= 0,
                forall|k: int| 0 <= k < i ==> within(#[trigger] self@.vertices[k], limit as int),
            decreases self.vertices.len() - i,
        {
            let v = self.vertices[i];
            assert(self@.vertices[i as int] == v@);
            if v.0[0] < -limit || v.0[0] > limit || v.0[1] < -limit || v.0[1] > limit || v.0[2]
                < -limit || v.0[2] > limit {
                return false;
            }
            i += 1;
        }
        true
    }

    /// Every vertex carried by `rotation`; faces unchanged.
    pub fn rotate(&self, rotation: &CubeRotation) -> (m: Self)
        requires
            self@.wf(),
            rotation.is_signed_permutation(),
        ensures
            m@ == rotated_mesh(self@, *rotation),
            m@.wf(),
    {
        let mut vertices: Vec<Vertex> = Vec::new();
        let mut i: usize = 0;
        while i < self.vertices.len()
            invariant
                self@.wf(),
                rotation.is_signed_permutation(),
                i <= self.vertices.len(),
                vertices.len() == i,
                forall|k: int|
                    0 <= k < i ==> #[trigger] vertices[k]@ == rotated(*rotation, self@.vertices[k]),
            decreases self.vertices.len() - i,
        {
            assert(self@.vertices[i as int] == self.vertices[i as int]@);
            let w = rotation.apply(&self.vertices[i]);
            vertices.push(w);
            i += 1;
        }
        let m = Mesh { vertices, faces: copy_faces(&self.faces) };
        assert(m@.vertices =~= rotated_mesh(self@, *rotation).vertices);
        assert(m@.faces =~= self@.faces);
        proof {
            assert forall|k: int| 0 <= k < m@.vertices.len() implies in_coord_range(
                #[trigger] m@.vertices[k],
            ) by {
                crate::rotation::lemma_rotation_keeps_bound(*rotation, self@.vertices[k], COORD_LIMIT as int);
            }
        }
        m
    }
}

impl Mesh {
    /// Every vertex moved by `translation`; faces unchanged.
    pub fn translate(&self, translation: &[i64; 3]) -> (m: Self)
        requires
            self@.wf(),
            forall|i: int|
                0 <= i < self@.vertices.len() ==> in_coord_range(
                    translated(#[trigger] self@.vertices[i], Vertex(*translation)@),
                ),
        ensures
            m@ == translated_mesh(self@, Vertex(*translation)@),
            m@.wf(),
    {
        let ghost d = Vertex(*translation)@;
        let mut vertices: Vec<Vertex> = Vec::new();
        let mut i: usize = 0;
        while i < self.vertices.len()
            invariant
                i <= self.vertices.len(),
                d == Vertex(*translation)@,
                forall|k: int|
                    0 <= k < self@.vertices.len() ==> in_coord_range(
                        translated(#[trigger] self@.vertices[k], d),
                    ),
                vertices.len() == i,
                forall|k: int|
                    0 <= k < i ==> #[trigger] vertices[k]@ == translated(self@.vertices[k], d),
            decreases self.vertices.len() - i,
        {
            let v = self.vertices[i];
            assert(self@.vertices[i as int] == v@);
            assert(in_coord_range(translated(v@, d)));
            let w = Vertex([v.0[0] + translation[0], v.0[1] + translation[1], v.0[2] + translation[2]]);
            assert(w@ =~= translated(self@.vertices[i as int], d));
            vertices.push(w);
            i += 1;
        }
        let m = Mesh { vertices, faces: copy_faces(&self.faces) };
        assert(m@.vertices =~= translated_mesh(self@, d).vertices);
        assert(m@.faces =~= self@.faces);
        m
    }

    /// Appends the vertices of `other`, then its faces with every corner
    /// position shifted by the number of vertices held before.
    pub fn add_geometry(&mut self, other: &Mesh)
        requires
            old(self)@.wf(),
            other@.wf(),
            old(self)@.vertices.len() + other@.vertices.len() <= usize::MAX,
        ensures
            final(self)@ == merged(old(self)@, other@),
            final(self)@.wf(),
    {
        let ghost start = self@;
        let n = self.vertices.len();
        let mut i: usize = 0;
        while i < other.vertices.len()
            invariant
                i <= other.vertices.len(),
                n == start.vertices.len(),
                self.vertices.len() == n + i,
                forall|k: int| 0 <= k < n ==> #[trigger] self.vertices[k]@ == start.vertices[k],
                forall|k: int|
                    0 <= k < i ==> #[trigger] self.vertices[n + k]@ == other@.vertices[k],
                self@.faces == start.faces,
            decreases other.vertices.len() - i,
        {
            self.vertices.push(other.vertices[i]);
            i += 1;
        }
        assert(self@.vertices =~= start.vertices + other@.vertices) by {
            assert forall|k: int| n <= k < self@.vertices.len() implies self@.vertices[k] == (
            start.vertices + other@.vertices)[k] by {
                assert(self.vertices[n + (k - n)]@ == other@.vertices[k - n]);
            }
        }
        let ghost shifted_faces = other@.faces.map_values(|f: Seq<int>| shifted(f, n as int));
        let nf = self.faces.len();
        let mut j: usize = 0;
        while j < other.faces.len()
            invariant
                j <= other.faces.len(),
                n == start.vertices.len(),
                nf == start.faces.len(),
                other@.wf(),
                n + other@.vertices.len() <= usize::MAX,
                shifted_faces == other@.faces.map_values(|f: Seq<int>| shifted(f, n as int)),
                self@.vertices == start.vertices + other@.vertices,
                self.faces.len() == nf + j,
                forall|k: int| 0 <= k < nf ==> #[trigger] self.faces[k]@ == start.faces[k],
                forall|k: int|
                    0 <= k < j ==> #[trigger] self.faces[nf + k]@ == shifted_faces[k],
            decreases other.faces.len() - j,
        {
            assert(other@.faces[j as int] == other.faces[j as int]@);
            let g = shift_face(&other.faces[j], n, other.vertices.len());
            self.faces.push(g);
            j += 1;
        }
        assert(self@.faces =~= start.faces + shifted_faces) by {
            assert forall|k: int| nf <= k < self@.faces.len() implies self@.faces[k] == (
            start.faces + shifted_faces)[k] by {
                assert(self.faces[nf + (k - nf)]@ == shifted_faces[k - nf]);
            }
        }
        proof {
            let m = self@;
            assert forall|f: int| 0 <= f < m.faces.len() implies face_in_bounds(
                #[trigger] m.faces[f],
                m.vertices.len() as int,
            ) by {
                if f >= nf {
                    let g = other@.faces[f - nf];
                    assert(face_in_bounds(g, other@.vertices.len() as int));
                    assert(m.faces[f] == shifted(g, n as int));
                }
            }
        }
    }
}

impl Mesh {
    /// Keeps the vertices whose dot product with `normal` is at most zero,
    /// in their order, and the faces all of whose corners are kept,
    /// renumbered; other faces are dropped whole.
    pub fn simple_clip(&self, normal: [i64; 3]) -> (m: Self)
        requires
            self@.wf(),
            in_coord_range(Vertex(normal)@),
        ensures
            m@ == clipped_mesh(self@, Vertex(normal)@),
            m@.wf(),
    {
        let normal_vertex = Vertex(normal);
        let ghost nv = normal_vertex@;
        let ghost vs = self@.vertices;
        let mut keepers: HashMap<usize, usize> = HashMap::new();
        let mut new_vertices: Vec<Vertex> = Vec::new();
        let mut i: usize = 0;
        while i < self.vertices.len()
            invariant
                self@.wf(),
                vs == self@.vertices,
                nv == normal_vertex@,
                in_coord_range(nv),
                i <= vs.len(),
                new_vertices@.map_values(|v: Vertex| v@) == kept_vertices(vs.take(i as int), nv),
                forall|k: int|
                    0 <= k < new_vertices.len() ==> in_coord_range(#[trigger] new_vertices[k]@),
                forall|k: usize|
                    #[trigger] keepers@.contains_key(k) <==> (k < i && keeps(vs[k as int], nv)),
                forall|k: usize|
                    #[trigger] keepers@.contains_key(k) ==> keepers@[k] == new_position(
                        vs,
                        nv,
                        k as int,
                    ) && keepers@[k] < new_vertices.len(),
            decreases self.vertices.len() - i,
        {
            let vertex = self.vertices[i];
            assert(vs[i as int] == vertex@);
            let product = vertex.dot(&normal_vertex);
            let ghost before = new_vertices@.map_values(|v: Vertex| v@);
            assert(vs.take(i + 1) =~= vs.take(i as int).push(vs[i as int]));
            proof {
                vs.take(i as int).lemma_filter_push(vs[i as int], keep_pred(nv));
            }
            if product <= 0 {
                new_vertices.push(vertex);
                keepers.insert(i, new_vertices.len() - 1);
                assert(new_vertices@.map_values(|v: Vertex| v@) =~= before.push(vertex@));
            }
            i += 1;
        }
        assert(vs.take(i as int) =~= vs);
        let ghost kept = keepers@;
        let ghost fs = self@.faces;
        let mut new_faces: Vec<Face> = Vec::new();
        let mut fi: usize = 0;
        while fi < self.faces.len()
            invariant
                self@.wf(),
                vs == self@.vertices,
                fs == self@.faces,
                keepers@ == kept,
                fi <= fs.len(),
                forall|k: int|
                    0 <= k < new_vertices.len() ==> in_coord_range(#[trigger] new_vertices[k]@),
                forall|k: usize|
                    #[trigger] kept.contains_key(k) <==> (k < vs.len() && keeps(vs[k as int], nv)),
                forall|k: usize|
                    #[trigger] kept.contains_key(k) ==> kept[k] == new_position(vs, nv, k as int)
                        && kept[k] < new_vertices.len(),
                new_faces@.map_values(|f: Face| f@) == fs.take(fi as int).filter(
                    survive_pred(vs, nv),
                ).map_values(renumber_fn(vs, nv)),
                forall|k: int|
                    0 <= k < new_faces.len() ==> face_in_bounds(
                        #[trigger] new_faces[k]@,
                        new_vertices.len() as int,
                    ),
            decreases self.faces.len() - fi,
        {
            let face = self.faces[fi];
            let ghost f = face@;
            assert(fs[fi as int] == f);
            assert(face_in_bounds(f, vs.len() as int));
            assert(all_kept(f, kept) == face_survives(vs, nv, f)) by {
                if face_survives(vs, nv, f) {
                    assert forall|j: int| 0 <= j < f.len() implies #[trigger] kept.contains_key(
                        f[j] as usize,
                    ) by {
                        assert(keeps(vs[f[j]], nv));
                    }
                } else if all_kept(f, kept) {
                    assert forall|j: int| 0 <= j < f.len() implies keeps(vs[#[trigger] f[j]], nv) by {
                        assert(kept.contains_key(f[j] as usize));
                    }
                }
            }
            let ghost before = new_faces@.map_values(|g: Face| g@);
            assert(fs.take(fi + 1) =~= fs.take(fi as int).push(f));
            proof {
                fs.take(fi as int).lemma_filter_push(f, survive_pred(vs, nv));
            }
            let new_face = reindex_face(&face, &keepers);
            if let Some(g) = new_face {
                assert forall|j: int| 0 <= j < f.len() implies #[trigger] g@[j] == renumbered(
                    vs,
                    nv,
                    f,
                )[j] by {
                    assert(kept.contains_key(f[j] as usize));
                }
                assert(g@ =~= renumbered(vs, nv, f));
                new_faces.push(g);
                assert(new_faces@.map_values(|g: Face| g@) =~= before.push(g@));
                assert(face_in_bounds(g@, new_vertices.len() as int)) by {
                    assert forall|j: int| 0 <= j < g@.len() implies 0 <= #[trigger] g@[j]
                        < new_vertices.len() by {
                        assert(kept.contains_key(f[j] as usize));
                    }
                }
            }
            fi += 1;
        }
        assert(fs.take(fi as int) =~= fs);
        let m = Mesh { vertices: new_vertices, faces: new_faces };
        proof {
            assert forall|k: int| 0 <= k < m@.vertices.len() implies in_coord_range(
                #[trigger] m@.vertices[k],
            ) by {
                assert(m@.vertices[k] == m.vertices[k]@);
            }
        }
        m
    }
}

/// Whether every index of `face_indices` is a key of `keepers`.
fn accept_face(face_indices: &[usize], keepers: &HashMap<usize, usize>) -> (r: bool)
    ensures
        r == forall|j: int|
            0 <= j < face_indices@.len() ==> #[trigger] keepers@.contains_key(face_indices@[j]),
{
    let mut j: usize = 0;
    while j < face_indices.len()
        invariant
            j <= face_indices@.len(),
            forall|k: int| 0 <= k < j ==> #[trigger] keepers@.contains_key(face_indices@[k]),
        decreases face_indices.len() - j,
    {
        if !keepers.contains_key(&face_indices[j]) {
            return false;
        }
        j += 1;
    }
    true
}

/// The face with each corner replaced by its value in `keepers`, or `None`
/// where some corner is not a key.
fn reindex_face(face: &Face, keepers: &HashMap<usize, usize>) -> (r: Option<Face>)
    ensures
        r is None <==> !all_kept(face@, keepers@),
        r matches Some(g) ==> g@.len() == face@.len() && forall|j: int|
            0 <= j < face@.len() ==> #[trigger] g@[j] == keepers@[face@[j] as usize],
{
    let accept = match face {
        Face::Triangle(vertices) => {
            let s = vertices.as_slice();
            assert(forall|j: int| 0 <= j < 3 ==> #[trigger] s@[j] == face@[j] as usize);
            accept_face(s, keepers)
        },
        Face::Quad(vertices) => {
            let s = vertices.as_slice();
            assert(forall|j: int| 0 <= j < 4 ==> #[trigger] s@[j] == face@[j] as usize);
            accept_face(s, keepers)
        },
    };
    if !accept {
        return None;
    }
    match face {
        Face::Triangle(v) => {
            let r = Face::Triangle([
                *keepers.get(&v[0]).unwrap(),
                *keepers.get(&v[1]).unwrap(),
                *keepers.get(&v[2]).unwrap(),
            ]);
            Some(r)
        },
        Face::Quad(v) => {
            let r = Face::Quad([
                *keepers.get(&v[0]).unwrap(),
                *keepers.get(&v[1]).unwrap(),
                *keepers.get(&v[2]).unwrap(),
                *keepers.get(&v[3]).unwrap(),
            ]);
            Some(r)
        },
    }
}

/// Merging adds up the counts of points and faces, and every corner of the
/// appended faces names a point of the result.
pub proof fn lemma_merge_counts(a: MeshView, b: MeshView)
    requires
        a.wf(),
        b.wf(),
    ensures
        merged(a, b).vertices.len() == a.vertices.len() + b.vertices.len(),
        merged(a, b).faces.len() == a.faces.len() + b.faces.len(),
        forall|f: int|
            a.faces.len() <= f < merged(a, b).faces.len() ==> face_in_bounds(
                #[trigger] merged(a, b).faces[f],
                merged(a, b).vertices.len() as int,
            ),
        merged(a, b).wf(),
{
    let m = merged(a, b);
    let n = a.vertices.len() as int;
    assert forall|f: int| 0 <= f < m.faces.len() implies face_in_bounds(
        #[trigger] m.faces[f],
        m.vertices.len() as int,
    ) by {
        if f >= a.faces.len() {
            let g = b.faces[f - a.faces.len()];
            assert(face_in_bounds(g, b.vertices.len() as int));
            assert(m.faces[f] == shifted(g, n));
        }
    }
    assert forall|i: int| 0 <= i < m.vertices.len() implies in_coord_range(
        #[trigger] m.vertices[i],
    ) by {
        if i >= n {
            assert(m.vertices[i] == b.vertices[i - n]);
        }
    }
}

/// Merging meshes one after another gives as many points and faces as they
/// hold together.
pub proof fn lemma_merge_all_counts(ms: Seq<MeshView>)
    ensures
        merge_all(ms).vertices.len() == total_vertices(ms),
        merge_all(ms).faces.len() == total_faces(ms),
    decreases ms.len(),
{
    if ms.len() > 0 {
        lemma_merge_all_counts(ms.drop_last());
    }
}

/// Rotation keeps a mesh well formed, its counts, and every bound on its
/// coordinates.
pub proof fn lemma_rotated_within(m: MeshView, r: CubeRotation, limit: int)
    requires
        m.wf(),
        m.coords_within(limit),
        r.is_signed_permutation(),
    ensures
        rotated_mesh(m, r).coords_within(limit),
        rotated_mesh(m, r).vertices.len() == m.vertices.len(),
        rotated_mesh(m, r).faces.len() == m.faces.len(),
{
    assert forall|i: int| 0 <= i < m.vertices.len() implies within(
        #[trigger] rotated_mesh(m, r).vertices[i],
        limit,
    ) by {
        crate::rotation::lemma_rotation_keeps_bound(r, m.vertices[i], limit);
    }
}

/// Merging keeps a common bound on the coordinates.
pub proof fn lemma_merged_within(a: MeshView, b: MeshView, limit: int)
    requires
        a.coords_within(limit),
        b.coords_within(limit),
    ensures
        merged(a, b).coords_within(limit),
{
    let m = merged(a, b);
    assert forall|i: int| 0 <= i < m.vertices.len() implies within(#[trigger] m.vertices[i], limit) by {
        if i >= a.vertices.len() {
            assert(m.vertices[i] == b.vertices[i - a.vertices.len()]);
        }
    }
}

/// Clipping keeps a bound on the coordinates and never adds points.
pub proof fn lemma_clipped_within(m: MeshView, n: Seq<int>, limit: int)
    requires
        m.coords_within(limit),
    ensures
        clipped_mesh(m, n).coords_within(limit),
        clipped_mesh(m, n).vertices.len() <= m.vertices.len(),
{
    let c = clipped_mesh(m, n);
    m.vertices.lemma_filter_len(keep_pred(n));
    assert forall|i: int| 0 <= i < c.vertices.len() implies within(#[trigger] c.vertices[i], limit) by {
        assert(c.vertices.contains(c.vertices[i]));
        m.vertices.lemma_filter_contains_rev(keep_pred(n), c.vertices[i]);
    }
}

/// Moving every point by `d` turns a bound `limit` on the coordinates into
/// `limit + shift`, where `shift` bounds `d`.
pub proof fn lemma_translated_within(m: MeshView, d: Seq<int>, limit: int, shift: int)
    requires
        m.coords_within(limit),
        within(d, shift),
    ensures
        translated_mesh(m, d).coords_within(limit + shift),
        translated_mesh(m, d).vertices.len() == m.vertices.len(),
{
}

proof fn lemma_filter_prefix(s: Seq<Seq<int>>, pred: spec_fn(Seq<int>) -> bool, k: int)
    requires
        0 <= k <= s.len(),
    ensures
        s.take(k).filter(pred).len() <= s.filter(pred).len(),
        s.take(k).filter(pred) == s.filter(pred).take(s.take(k).filter(pred).len() as int),
    decreases s.len(),
{
    if k == s.len() {
        assert(s.take(k) =~= s);
        assert(s.filter(pred).take(s.filter(pred).len() as int) =~= s.filter(pred));
    } else {
        let dl = s.drop_last();
        assert(s.take(k) =~= dl.take(k));
        lemma_filter_prefix(dl, pred, k);
        assert(dl.push(s.last()) =~= s);
        dl.lemma_filter_push(s.last(), pred);
        let a = dl.take(k).filter(pred);
        assert(s.filter(pred).take(a.len() as int) =~= dl.filter(pred).take(a.len() as int));
    }
}

/// Clipping keeps exactly the points on the kept side, in their order: each
/// kept point lands at its new position, and kept points keep their
/// relative order. A face survives exactly when all its corners are kept,
/// and it is renumbered to its corners' new positions.
pub proof fn lemma_clip_correct(m: MeshView, n: Seq<int>)
    ensures
        clipped_mesh(m, n).vertices.len() <= m.vertices.len(),
        forall|i: int|
            0 <= i < m.vertices.len() && keeps(m.vertices[i], n) ==> 0 <= #[trigger] new_position(
                m.vertices,
                n,
                i,
            ) < clipped_mesh(m, n).vertices.len() && clipped_mesh(m, n).vertices[new_position(
                m.vertices,
                n,
                i,
            )] == m.vertices[i],
        forall|i: int, j: int|
            0 <= i < j < m.vertices.len() && keeps(m.vertices[i], n) ==> #[trigger] new_position(
                m.vertices,
                n,
                i,
            ) < #[trigger] new_position(m.vertices, n, j),
        forall|k: int|
            0 <= k < clipped_mesh(m, n).vertices.len() ==> keeps(
                #[trigger] clipped_mesh(m, n).vertices[k],
                n,
            ),
        clipped_mesh(m, n).faces == m.faces.filter(survive_pred(m.vertices, n)).map_values(
            renumber_fn(m.vertices, n),
        ),
        forall|f: int|
            0 <= f < m.faces.len() ==> (face_survives(m.vertices, n, #[trigger] m.faces[f]) <==> forall|
                j: int,
            |
                0 <= j < m.faces[f].len() ==> keeps(m.vertices[#[trigger] m.faces[f][j]], n)),
{
    let vs = m.vertices;
    let p = keep_pred(n);
    vs.lemma_filter_len(p);
    assert forall|i: int| 0 <= i < vs.len() && keeps(vs[i], n) implies 0 <= #[trigger] new_position(
        vs,
        n,
        i,
    ) < clipped_mesh(m, n).vertices.len() && clipped_mesh(m, n).vertices[new_position(vs, n, i)]
        == vs[i] by {
        assert(vs.take(i + 1) =~= vs.take(i).push(vs[i]));
        vs.take(i).lemma_filter_push(vs[i], p);
        assert(p(vs[i]));
        lemma_filter_prefix(vs, p, i + 1);
        let a = vs.take(i).filter(p);
        let b = vs.take(i + 1).filter(p);
        assert(b == a.push(vs[i]));
        assert(b[a.len() as int] == vs[i]);
        assert(vs.filter(p).take(b.len() as int)[a.len() as int] == vs.filter(p)[a.len() as int]);
    }
    assert forall|i: int, j: int| 0 <= i < j < vs.len() && keeps(vs[i], n) implies #[trigger] new_position(
        vs,
        n,
        i,
    ) < #[trigger] new_position(vs, n, j) by {
        assert(vs.take(i + 1) =~= vs.take(i).push(vs[i]));
        vs.take(i).lemma_filter_push(vs[i], p);
        assert(p(vs[i]));
        lemma_filter_prefix(vs.take(j), p, i + 1);
        assert(vs.take(j).take(i + 1) =~= vs.take(i + 1));
    }
    assert forall|k: int| 0 <= k < clipped_mesh(m, n).vertices.len() implies keeps(
        #[trigger] clipped_mesh(m, n).vertices[k],
        n,
    ) by {
        vs.lemma_filter_pred(p, k);
    }
}

/// A copy of a list of faces.
fn copy_faces(faces: &Vec<Face>) -> (r: Vec<Face>)
    ensures
        r@ == faces@,
{
    let mut r: Vec<Face> = Vec::new();
    let mut i: usize = 0;
    while i < faces.len()
        invariant
            i <= faces.len(),
            r@ =~= faces@.take(i as int),
        decreases faces.len() - i,
    {
        r.push(faces[i]);
        i += 1;
    }
    assert(faces@.take(i as int) =~= faces@);
    r
}

} // verus!
