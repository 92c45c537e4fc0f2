use vstd::prelude::*;
use vstd::string::StringExecFns;

use crate::mesh::{
    clipped_mesh, empty_mesh, lemma_clipped_within, lemma_merge_all_counts, lemma_merge_counts,
    lemma_merged_within, lemma_rotated_within, lemma_translated_within, merge_all, merged,
    rotated_mesh, total_faces, total_vertices, translated, translated_mesh, Mesh, MeshView,
};
use crate::primitives::{in_coord_range, within, Vertex, COORD_LIMIT, UNITS_PER_LENGTH};
use crate::rotation::{
    lemma_named_rotations_proper, rotation_of, rot_identity, rot_x, rot_x2, rot_x3, rot_y, rot_y2, rot_y3,
    rot_z, rot_z2, rot_z3, CubeRotation,
};

verus! {

/// A cell of the lattice, by its integer coordinates.
#[derive(Clone, Copy, Debug, PartialEq, Eq)]
pub struct CellID(pub u32, pub u32, pub u32);

/// Where a coordinate stands in an inclusive range.
#[derive(Clone, Copy, Debug, PartialEq, Eq)]
pub enum RangeComparison {
    Min,
    Between,
    Max,
}

/// A cell's standing against the grid's extent, one axis at a time.
#[derive(Clone, Copy, Debug, PartialEq, Eq)]
pub struct BoundsClassification(pub RangeComparison, pub RangeComparison, pub RangeComparison);

/// An inclusive range of integers, lowest and highest.
#[derive(Clone, Copy, Debug, PartialEq, Eq)]
pub struct Range(pub u32, pub u32);

/// The extent of the grid along each axis.
#[derive(Clone, Copy, Debug, PartialEq, Eq)]
pub struct Bounds(pub Range, pub Range, pub Range);

/// The extent of a grid of `n` by `m` by `p` cells.
pub open spec fn bounds_of(n: u32, m: u32, p: u32) -> Bounds {
    Bounds(Range(0, (n - 1) as u32), Range(0, (m - 1) as u32), Range(0, (p - 1) as u32))
}

impl Bounds {
    pub fn new(n: u32, m: u32, p: u32) -> (b: Self)
        requires
            n >= 1,
            m >= 1,
            p >= 1,
        ensures
            b == bounds_of(n, m, p),
    {
        Bounds(Range(0, n - 1), Range(0, m - 1), Range(0, p - 1))
    }
}

/// `Min` at the range's lowest value, else `Max` at its highest, else `Between`.
pub open spec fn compare_spec(x: u32, range: Range) -> RangeComparison {
    if x == range.0 {
        RangeComparison::Min
    } else if x == range.1 {
        RangeComparison::Max
    } else {
        RangeComparison::Between
    }
}

pub open spec fn classify_spec(cell: CellID, bounds: Bounds) -> BoundsClassification {
    BoundsClassification(
        compare_spec(cell.0, bounds.0),
        compare_spec(cell.1, bounds.1),
        compare_spec(cell.2, bounds.2),
    )
}

pub fn compare_range(x: u32, range: Range) -> (c: RangeComparison)
    ensures
        c == compare_spec(x, range),
{
    if x == range.0 {
        RangeComparison::Min
    } else if x == range.1 {
        RangeComparison::Max
    } else {
        RangeComparison::Between
    }
}

pub fn classify_bounds(cell_id: CellID, bounds: Bounds) -> (c: BoundsClassification)
    ensures
        c == classify_spec(cell_id, bounds),
{
    BoundsClassification(
        compare_range(cell_id.0, bounds.0),
        compare_range(cell_id.1, bounds.1),
        compare_range(cell_id.2, bounds.2),
    )
}

/// Twist layers alternate by the parity of their height.
pub open spec fn twist_rotation_spec(k: u32) -> CubeRotation {
    if k % 2 == 0 {
        rot_x()
    } else {
        rot_identity()
    }
}

pub fn twist_rotation(k: u32) -> (r: CubeRotation)
    ensures
        r == twist_rotation_spec(k),
{
    let layer_parity = k % 2;
    if layer_parity == 0 {
        CubeRotation::rx()
    } else {
        CubeRotation::identity()
    }
}

/// The parity class of a cell holds a twist piece.
pub open spec fn is_twist_cell(cell: CellID) -> bool {
    let (a, b, c) = (cell.0 % 2, cell.1 % 2, cell.2 % 2);
    (a == 1 && b == 1 && c == 0) || (a == 0 && b == 0 && c == 1)
}

/// The parity class of a cell holds a connector with no base rotation.
pub open spec fn is_plain_connector_cell(cell: CellID) -> bool {
    let (a, b, c) = (cell.0 % 2, cell.1 % 2, cell.2 % 2);
    (a == 1 && b == 0 && c == 1) || (a == 0 && b == 1 && c == 0)
}

/// The parity class of a cell holds a connector turned about the y axis.
pub open spec fn is_y_connector_cell(cell: CellID) -> bool {
    let (a, b, c) = (cell.0 % 2, cell.1 % 2, cell.2 % 2);
    (a == 0 && b == 0 && c == 0) || (a == 1 && b == 1 && c == 1)
}

/// The parity class of a cell holds a connector turned about the z axis.
pub open spec fn is_z_connector_cell(cell: CellID) -> bool {
    let (a, b, c) = (cell.0 % 2, cell.1 % 2, cell.2 % 2);
    (a == 1 && b == 0 && c == 0) || (a == 0 && b == 1 && c == 1)
}

/// The base orientation of a connector cell.
pub open spec fn connector_rotation_spec(cell: CellID) -> CubeRotation {
    if is_y_connector_cell(cell) {
        rot_y()
    } else if is_z_connector_cell(cell) {
        rot_z()
    } else {
        rot_identity()
    }
}

/// The four parity classes cover every cell, each cell exactly once.
pub proof fn lemma_parity_classes_partition(cell: CellID)
    ensures
        is_twist_cell(cell) || is_plain_connector_cell(cell) || is_y_connector_cell(cell)
            || is_z_connector_cell(cell),
        !(is_twist_cell(cell) && is_plain_connector_cell(cell)),
        !(is_twist_cell(cell) && is_y_connector_cell(cell)),
        !(is_twist_cell(cell) && is_z_connector_cell(cell)),
        !(is_plain_connector_cell(cell) && is_y_connector_cell(cell)),
        !(is_plain_connector_cell(cell) && is_z_connector_cell(cell)),
        !(is_y_connector_cell(cell) && is_z_connector_cell(cell)),
{
}

/// The piece that caps a twist cell on the boundary.
#[derive(Clone, Copy, Debug, PartialEq, Eq)]
pub enum CapPiece {
    EndCap,
    EdgeCap,
}

/// The cap of a twist cell and its rotation, by the cell's standing: an end
/// cap on each of the six faces of the grid, an edge cap on each of its
/// twelve edges, and none inside or at a corner. The edge cap is authored
/// along the z axis at the low x and low y sides; each edge's rotation carries
/// that direction onto the edge's own axis, pointing its way, and the cap's
/// outward sides onto the edge's two boundary sides.
pub open spec fn twist_cap_spec(c: BoundsClassification) -> Option<(CapPiece, CubeRotation)> {
    match (c.0, c.1, c.2) {
        (RangeComparison::Min, RangeComparison::Between, RangeComparison::Between) => Some(
            (CapPiece::EndCap, rot_y3()),
        ),
        (RangeComparison::Max, RangeComparison::Between, RangeComparison::Between) => Some(
            (CapPiece::EndCap, rot_y()),
        ),
        (RangeComparison::Between, RangeComparison::Min, RangeComparison::Between) => Some(
            (CapPiece::EndCap, rot_x()),
        ),
        (RangeComparison::Between, RangeComparison::Max, RangeComparison::Between) => Some(
            (CapPiece::EndCap, rot_x3()),
        ),
        (RangeComparison::Between, RangeComparison::Between, RangeComparison::Min) => Some(
            (CapPiece::EndCap, rot_y2()),
        ),
        (RangeComparison::Between, RangeComparison::Between, RangeComparison::Max) => Some(
            (CapPiece::EndCap, rot_identity()),
        ),
        (RangeComparison::Min, RangeComparison::Min, RangeComparison::Between) => Some(
            (CapPiece::EdgeCap, rot_identity()),
        ),
        (RangeComparison::Min, RangeComparison::Max, RangeComparison::Between) => Some(
            (CapPiece::EdgeCap, rot_z3()),
        ),
        (RangeComparison::Max, RangeComparison::Min, RangeComparison::Between) => Some(
            (CapPiece::EdgeCap, rot_z()),
        ),
        (RangeComparison::Max, RangeComparison::Max, RangeComparison::Between) => Some(
            (CapPiece::EdgeCap, rot_z2()),
        ),
        (RangeComparison::Between, RangeComparison::Min, RangeComparison::Min) => Some(
            (CapPiece::EdgeCap, rotation_of([2, 0, 1], [1i8, 1i8, 1i8])),
        ),
        (RangeComparison::Between, RangeComparison::Min, RangeComparison::Max) => Some(
            (CapPiece::EdgeCap, rot_y()),
        ),
        (RangeComparison::Between, RangeComparison::Max, RangeComparison::Min) => Some(
            (CapPiece::EdgeCap, rotation_of([2, 1, 0], [1i8, -1i8, 1i8])),
        ),
        (RangeComparison::Between, RangeComparison::Max, RangeComparison::Max) => Some(
            (CapPiece::EdgeCap, rotation_of([2, 0, 1], [1i8, -1i8, -1i8])),
        ),
        (RangeComparison::Min, RangeComparison::Between, RangeComparison::Min) => Some(
            (CapPiece::EdgeCap, rotation_of([1, 2, 0], [1i8, 1i8, 1i8])),
        ),
        (RangeComparison::Min, RangeComparison::Between, RangeComparison::Max) => Some(
            (CapPiece::EdgeCap, rot_x3()),
        ),
        (RangeComparison::Max, RangeComparison::Between, RangeComparison::Min) => Some(
            (CapPiece::EdgeCap, rotation_of([0, 2, 1], [-1i8, 1i8, 1i8])),
        ),
        (RangeComparison::Max, RangeComparison::Between, RangeComparison::Max) => Some(
            (CapPiece::EdgeCap, rotation_of([1, 2, 0], [-1i8, 1i8, -1i8])),
        ),
        _ => None,
    }
}

/// Each cap rotation is one of the 24 cube rotations.
pub proof fn lemma_twist_caps_proper(c: BoundsClassification)
    ensures
        twist_cap_spec(c) matches Some((_, r)) ==> r.is_proper(),
{
    lemma_named_rotations_proper();
    let r1 = rotation_of([2, 0, 1], [1i8, 1i8, 1i8]);
    let r2 = rotation_of([2, 1, 0], [1i8, -1i8, 1i8]);
    let r3 = rotation_of([2, 0, 1], [1i8, -1i8, -1i8]);
    let r4 = rotation_of([1, 2, 0], [1i8, 1i8, 1i8]);
    let r5 = rotation_of([0, 2, 1], [-1i8, 1i8, 1i8]);
    let r6 = rotation_of([1, 2, 0], [-1i8, 1i8, -1i8]);
    assert(r1.axes[0] == 2 && r1.axes[1] == 0 && r1.axes[2] == 1);
    assert(r1.orientations[0] == 1 && r1.orientations[1] == 1 && r1.orientations[2] == 1);
    assert(r2.axes[0] == 2 && r2.axes[1] == 1 && r2.axes[2] == 0);
    assert(r2.orientations[0] == 1 && r2.orientations[1] == -1 && r2.orientations[2] == 1);
    assert(r3.axes[0] == 2 && r3.axes[1] == 0 && r3.axes[2] == 1);
    assert(r3.orientations[0] == 1 && r3.orientations[1] == -1 && r3.orientations[2] == -1);
    assert(r4.axes[0] == 1 && r4.axes[1] == 2 && r4.axes[2] == 0);
    assert(r4.orientations[0] == 1 && r4.orientations[1] == 1 && r4.orientations[2] == 1);
    assert(r5.axes[0] == 0 && r5.axes[1] == 2 && r5.axes[2] == 1);
    assert(r5.orientations[0] == -1 && r5.orientations[1] == 1 && r5.orientations[2] == 1);
    assert(r6.axes[0] == 1 && r6.axes[1] == 2 && r6.axes[2] == 0);
    assert(r6.orientations[0] == -1 && r6.orientations[1] == 1 && r6.orientations[2] == -1);
}

pub fn twist_cap(c: BoundsClassification) -> (r: Option<(CapPiece, CubeRotation)>)
    ensures
        r == twist_cap_spec(c),
{
    match (c.0, c.1, c.2) {
        (RangeComparison::Min, RangeComparison::Between, RangeComparison::Between) => Some(
            (CapPiece::EndCap, CubeRotation::ry3()),
        ),
        (RangeComparison::Max, RangeComparison::Between, RangeComparison::Between) => Some(
            (CapPiece::EndCap, CubeRotation::ry()),
        ),
        (RangeComparison::Between, RangeComparison::Min, RangeComparison::Between) => Some(
            (CapPiece::EndCap, CubeRotation::rx()),
        ),
        (RangeComparison::Between, RangeComparison::Max, RangeComparison::Between) => Some(
            (CapPiece::EndCap, CubeRotation::rx3()),
        ),
        (RangeComparison::Between, RangeComparison::Between, RangeComparison::Min) => Some(
            (CapPiece::EndCap, CubeRotation::ry2()),
        ),
        (RangeComparison::Between, RangeComparison::Between, RangeComparison::Max) => Some(
            (CapPiece::EndCap, CubeRotation::identity()),
        ),
        (RangeComparison::Min, RangeComparison::Min, RangeComparison::Between) => Some(
            (CapPiece::EdgeCap, CubeRotation::identity()),
        ),
        (RangeComparison::Min, RangeComparison::Max, RangeComparison::Between) => Some(
            (CapPiece::EdgeCap, CubeRotation::rz3()),
        ),
        (RangeComparison::Max, RangeComparison::Min, RangeComparison::Between) => Some(
            (CapPiece::EdgeCap, CubeRotation::rz()),
        ),
        (RangeComparison::Max, RangeComparison::Max, RangeComparison::Between) => Some(
            (CapPiece::EdgeCap, CubeRotation::rz2()),
        ),
        (RangeComparison::Between, RangeComparison::Min, RangeComparison::Min) => Some(
            (CapPiece::EdgeCap, CubeRotation::new([2, 0, 1], [1, 1, 1])),
        ),
        (RangeComparison::Between, RangeComparison::Min, RangeComparison::Max) => Some(
            (CapPiece::EdgeCap, CubeRotation::ry()),
        ),
        (RangeComparison::Between, RangeComparison::Max, RangeComparison::Min) => Some(
            (CapPiece::EdgeCap, CubeRotation::new([2, 1, 0], [1, -1, 1])),
        ),
        (RangeComparison::Between, RangeComparison::Max, RangeComparison::Max) => Some(
            (CapPiece::EdgeCap, CubeRotation::new([2, 0, 1], [1, -1, -1])),
        ),
        (RangeComparison::Min, RangeComparison::Between, RangeComparison::Min) => Some(
            (CapPiece::EdgeCap, CubeRotation::new([1, 2, 0], [1, 1, 1])),
        ),
        (RangeComparison::Min, RangeComparison::Between, RangeComparison::Max) => Some(
            (CapPiece::EdgeCap, CubeRotation::rx3()),
        ),
        (RangeComparison::Max, RangeComparison::Between, RangeComparison::Min) => Some(
            (CapPiece::EdgeCap, CubeRotation::new([0, 2, 1], [-1, 1, 1])),
        ),
        (RangeComparison::Max, RangeComparison::Between, RangeComparison::Max) => Some(
            (CapPiece::EdgeCap, CubeRotation::new([1, 2, 0], [-1, 1, -1])),
        ),
        _ => None,
    }
}

/// The unit normal of sign `s` along `axis`.
pub open spec fn axis_normal(axis: int, s: int) -> Seq<int> {
    seq![if axis == 0 { s } else { 0 }, if axis == 1 { s } else { 0 }, if axis == 2 { s } else { 0 }]
}

/// The clip normal a boundary along `axis` calls for: outward at `Min` and
/// at `Max`, none `Between`.
pub open spec fn axis_clips(c: RangeComparison, axis: int) -> Seq<Seq<int>> {
    match c {
        RangeComparison::Min => seq![axis_normal(axis, -1)],
        RangeComparison::Max => seq![axis_normal(axis, 1)],
        RangeComparison::Between => Seq::empty(),
    }
}

/// The clip normals of a connector cell, x first, then y, then z.
pub open spec fn clip_normals_spec(c: BoundsClassification) -> Seq<Seq<int>> {
    axis_clips(c.0, 0) + axis_clips(c.1, 1) + axis_clips(c.2, 2)
}

/// Appends the clip normal, if any, that `c` calls for along `axis`.
fn push_axis_clip(normals: &mut Vec<[i64; 3]>, c: RangeComparison, axis: usize)
    requires
        axis < 3,
    ensures
        final(normals)@.len() == old(normals)@.len() + axis_clips(c, axis as int).len(),
        forall|q: int| 0 <= q < old(normals)@.len() ==> #[trigger] final(normals)@[q] == old(normals)@[q],
        forall|q: int|
            0 <= q < axis_clips(c, axis as int).len() ==> Vertex(
                #[trigger] final(normals)@[old(normals)@.len() + q],
            )@ == axis_clips(c, axis as int)[q],
{
    let s: i64 = match c {
        RangeComparison::Min => -1,
        RangeComparison::Max => 1,
        RangeComparison::Between => 0,
    };
    if s != 0 {
        let n = [
            if axis == 0 { s } else { 0 },
            if axis == 1 { s } else { 0 },
            if axis == 2 { s } else { 0 },
        ];
        normals.push(n);
        assert(Vertex(n)@ =~= axis_normal(axis as int, s as int));
    }
}

/// The clip normals of a connector cell, as integer direction vectors.
pub fn clip_normals(c: BoundsClassification) -> (r: Vec<[i64; 3]>)
    ensures
        r@.len() == clip_normals_spec(c).len(),
        forall|q: int| 0 <= q < r@.len() ==> Vertex(#[trigger] r@[q])@ == clip_normals_spec(c)[q],
{
    let mut normals: Vec<[i64; 3]> = Vec::new();
    let ghost n0 = normals@;
    push_axis_clip(&mut normals, c.0, 0);
    let ghost n1 = normals@;
    push_axis_clip(&mut normals, c.1, 1);
    let ghost n2 = normals@;
    push_axis_clip(&mut normals, c.2, 2);
    let ghost spec = clip_normals_spec(c);
    assert forall|q: int| 0 <= q < normals@.len() implies Vertex(#[trigger] normals@[q])@ == spec[q] by {
        let l0 = axis_clips(c.0, 0).len() as int;
        let l1 = axis_clips(c.1, 1).len() as int;
        if q >= l0 + l1 {
            assert(Vertex(normals@[l0 + l1 + (q - l0 - l1)])@ == axis_clips(c.2, 2)[q - l0 - l1]);
        } else if q >= l0 {
            assert(normals@[q] == n2[q]);
            assert(Vertex(n2[l0 + (q - l0)])@ == axis_clips(c.1, 1)[q - l0]);
        } else {
            assert(normals@[q] == n2[q]);
            assert(n2[q] == n1[q]);
            assert(Vertex(n1[n0.len() + q])@ == axis_clips(c.0, 0)[q]);
        }
    }
    normals
}

/// The largest magnitude of a coordinate of a tile piece.
pub const PIECE_COORD_LIMIT: i64 = 1000000000000000000;

/// The largest offset of a cell along an axis: its highest coordinate in
/// fixed-point units.
pub const CELL_OFFSET_LIMIT: i64 = 4294967295000000;

/// A mesh fit to be a tile piece: well formed, with coordinates within
/// `PIECE_COORD_LIMIT`.
pub open spec fn piece_ok(m: MeshView) -> bool {
    m.wf() && m.coords_within(PIECE_COORD_LIMIT as int)
}

/// The hand-authored pieces that skin the lattice.
pub struct Tileset {
    pub twist: Mesh,
    pub corner: Mesh,
    pub end_cap: Mesh,
    pub edge: Mesh,
}

pub open spec fn max_of(a: int, b: int) -> int {
    if a >= b {
        a
    } else {
        b
    }
}

impl Tileset {
    /// The number of vertices of the largest piece.
    pub open spec fn largest_piece(&self) -> int {
        max_of(
            max_of(self.twist@.vertices.len() as int, self.corner@.vertices.len() as int),
            max_of(self.end_cap@.vertices.len() as int, self.edge@.vertices.len() as int),
        )
    }

    /// Every piece is fit, and eight copies of the largest can be counted.
    pub open spec fn wf(&self) -> bool {
        &&& piece_ok(self.twist@)
        &&& piece_ok(self.corner@)
        &&& piece_ok(self.end_cap@)
        &&& piece_ok(self.edge@)
        &&& 8 * self.largest_piece() <= usize::MAX
    }

    /// The tileset of the given pieces, or `None` where one is unfit or
    /// they are too large to count.
    pub fn new(twist: Mesh, corner: Mesh, end_cap: Mesh, edge: Mesh) -> (r: Option<Tileset>)
        ensures
            r matches Some(t) ==> t.wf() && t.twist == twist && t.corner == corner && t.end_cap
                == end_cap && t.edge == edge,
            r is None ==> !(Tileset { twist, corner, end_cap, edge }).wf(),
    {
        let t = Tileset { twist, corner, end_cap, edge };
        if !t.twist.is_valid() || !t.corner.is_valid() || !t.end_cap.is_valid()
            || !t.edge.is_valid() {
            return None;
        }
        if !t.twist.coords_bounded_by(PIECE_COORD_LIMIT) || !t.corner.coords_bounded_by(
            PIECE_COORD_LIMIT,
        ) || !t.end_cap.coords_bounded_by(PIECE_COORD_LIMIT) || !t.edge.coords_bounded_by(
            PIECE_COORD_LIMIT,
        ) {
            return None;
        }
        let a = t.twist.vertex_count();
        let b = t.corner.vertex_count();
        let c = t.end_cap.vertex_count();
        let d = t.edge.vertex_count();
        let ab = if a >= b { a } else { b };
        let cd = if c >= d { c } else { d };
        let largest = if ab >= cd { ab } else { cd };
        if largest > usize::MAX / 8 {
            return None;
        }
        Some(t)
    }
}

/// Where a piece of a tileset is stored: `data/<tileset>/<piece>.obj`.
pub open spec fn path_spec(tileset_name: Seq<char>, obj_name: Seq<char>) -> Seq<char> {
    seq!['d', 'a', 't', 'a', '/'] + tileset_name + seq!['/'] + obj_name + seq!['.', 'o', 'b', 'j']
}

pub fn format_path(tileset_name: &str, obj_name: &str) -> (r: String)
    ensures
        r@ == path_spec(tileset_name@, obj_name@),
{
    let mut r = String::from_str("data/");
    r.append(tileset_name);
    r.append("/");
    r.append(obj_name);
    r.append(".obj");
    proof {
        reveal_strlit("data/");
        reveal_strlit("/");
        reveal_strlit(".obj");
    }
    assert(r@ =~= path_spec(tileset_name@, obj_name@));
    r
}

/// Four copies of the twist piece, each a quarter turn about the z axis from
/// the one before.
pub open spec fn quad_twist_spec(t: MeshView) -> MeshView {
    let t2 = rotated_mesh(t, rot_z());
    let t3 = rotated_mesh(t2, rot_z());
    let t4 = rotated_mesh(t3, rot_z());
    merged(merged(merged(merged(empty_mesh(), t), t2), t3), t4)
}

/// A closed loop of eight copies of the corner piece: the corner with its
/// quarter turn about x, that pair with its half turn about x, and those
/// four with their half turn about z.
pub open spec fn connector_spec(c: MeshView) -> MeshView {
    let r1 = merged(merged(empty_mesh(), c), rotated_mesh(c, rot_x()));
    let r2 = merged(r1, rotated_mesh(r1, rot_x2()));
    merged(r2, rotated_mesh(r2, rot_z2()))
}

/// `m` clipped by each normal of `ns` in turn.
pub open spec fn clipped_all(m: MeshView, ns: Seq<Seq<int>>) -> MeshView
    decreases ns.len(),
{
    if ns.len() == 0 {
        m
    } else {
        clipped_mesh(clipped_all(m, ns.drop_last()), ns.last())
    }
}

/// Where a cell's piece is placed: the cell's coordinates in fixed-point units.
pub open spec fn cell_offset(cell: CellID) -> Seq<int> {
    seq![
        cell.0 as int * UNITS_PER_LENGTH,
        cell.1 as int * UNITS_PER_LENGTH,
        cell.2 as int * UNITS_PER_LENGTH,
    ]
}

/// The piece of a twist cell before placement: its cap where it has one,
/// else the four twists turned for the cell's layer.
pub open spec fn twist_cell_mesh(t: Tileset, cell: CellID, bounds: Bounds) -> MeshView {
    match twist_cap_spec(classify_spec(cell, bounds)) {
        Some((CapPiece::EndCap, r)) => rotated_mesh(t.end_cap@, r),
        Some((CapPiece::EdgeCap, r)) => rotated_mesh(t.edge@, r),
        None => rotated_mesh(quad_twist_spec(t.twist@), twist_rotation_spec(cell.2)),
    }
}

/// The piece of a connector cell before placement: the connector turned by
/// `rotation` and clipped at every boundary the cell touches.
pub open spec fn connector_cell_mesh(
    t: Tileset,
    cell: CellID,
    rotation: CubeRotation,
    bounds: Bounds,
) -> MeshView {
    clipped_all(
        rotated_mesh(connector_spec(t.corner@), rotation),
        clip_normals_spec(classify_spec(cell, bounds)),
    )
}

/// The mesh a cell contributes to the grid, placed at the cell.
pub open spec fn cell_mesh(t: Tileset, cell: CellID, bounds: Bounds) -> MeshView {
    translated_mesh(
        if is_twist_cell(cell) {
            twist_cell_mesh(t, cell, bounds)
        } else {
            connector_cell_mesh(t, cell, connector_rotation_spec(cell), bounds)
        },
        cell_offset(cell),
    )
}

/// Merges the piece `m` into `acc`, keeping both fit to be pieces.
fn append_piece(acc: &mut Mesh, m: &Mesh)
    requires
        piece_ok(old(acc)@),
        piece_ok(m@),
        old(acc)@.vertices.len() + m@.vertices.len() <= usize::MAX,
    ensures
        final(acc)@ == merged(old(acc)@, m@),
        piece_ok(final(acc)@),
        final(acc)@.vertices.len() == old(acc)@.vertices.len() + m@.vertices.len(),
{
    proof {
        lemma_merge_counts(acc@, m@);
        lemma_merged_within(acc@, m@, PIECE_COORD_LIMIT as int);
    }
    acc.add_geometry(m);
}

/// Four copies of the twist piece about the z axis.
fn make_quad_twist(twist: &Mesh) -> (r: Mesh)
    requires
        piece_ok(twist@),
        4 * twist@.vertices.len() <= usize::MAX,
    ensures
        r@ == quad_twist_spec(twist@),
        piece_ok(r@),
        r@.vertices.len() == 4 * twist@.vertices.len(),
{
    let ghost limit = PIECE_COORD_LIMIT as int;
    proof {
        lemma_named_rotations_proper();
    }
    let rz = CubeRotation::rz();
    let twist2 = twist.rotate(&rz);
    proof {
        lemma_rotated_within(twist@, rz, limit);
    }
    let twist3 = twist2.rotate(&rz);
    proof {
        lemma_rotated_within(twist2@, rz, limit);
    }
    let twist4 = twist3.rotate(&rz);
    proof {
        lemma_rotated_within(twist3@, rz, limit);
    }
    let mut result = Mesh::new();
    append_piece(&mut result, twist);
    append_piece(&mut result, &twist2);
    append_piece(&mut result, &twist3);
    append_piece(&mut result, &twist4);
    result
}

/// The closed loop of eight corner pieces.
fn make_connector(corner: &Mesh) -> (r: Mesh)
    requires
        piece_ok(corner@),
        8 * corner@.vertices.len() <= usize::MAX,
    ensures
        r@ == connector_spec(corner@),
        piece_ok(r@),
        r@.vertices.len() == 8 * corner@.vertices.len(),
{
    let ghost limit = PIECE_COORD_LIMIT as int;
    proof {
        lemma_named_rotations_proper();
    }
    let rx = CubeRotation::rx();
    let rx2 = CubeRotation::rx2();
    let rz2 = CubeRotation::rz2();
    let mut result = Mesh::new();
    append_piece(&mut result, corner);
    let one_rotated = corner.rotate(&rx);
    proof {
        lemma_rotated_within(corner@, rx, limit);
    }
    append_piece(&mut result, &one_rotated);
    let two_rotated = result.rotate(&rx2);
    proof {
        lemma_rotated_within(result@, rx2, limit);
    }
    append_piece(&mut result, &two_rotated);
    let four_rotated = result.rotate(&rz2);
    proof {
        lemma_rotated_within(result@, rz2, limit);
    }
    append_piece(&mut result, &four_rotated);
    result
}

/// `m` moved to the position of `cell`.
fn translate_to_cell(m: &Mesh, cell: CellID) -> (r: Mesh)
    requires
        m@.wf(),
        m@.coords_within(PIECE_COORD_LIMIT as int),
    ensures
        r@ == translated_mesh(m@, cell_offset(cell)),
        r@.wf(),
        r@.vertices.len() == m@.vertices.len(),
{
    let offset = [
        cell.0 as i64 * UNITS_PER_LENGTH,
        cell.1 as i64 * UNITS_PER_LENGTH,
        cell.2 as i64 * UNITS_PER_LENGTH,
    ];
    assert(Vertex(offset)@ =~= cell_offset(cell));
    proof {
        lemma_translated_within(m@, cell_offset(cell), PIECE_COORD_LIMIT as int, CELL_OFFSET_LIMIT as int);
        assert forall|i: int| 0 <= i < m@.vertices.len() implies in_coord_range(
            translated(#[trigger] m@.vertices[i], Vertex(offset)@),
        ) by {
            assert(translated_mesh(m@, cell_offset(cell)).vertices[i] == translated(m@.vertices[i], cell_offset(cell)));
        }
    }
    m.translate(&offset)
}

/// The end cap turned by `rotation` and placed at `cell_id`.
fn generate_end_cap(tileset: &Tileset, cell_id: CellID, rotation: CubeRotation) -> (r: Mesh)
    requires
        tileset.wf(),
        rotation.is_signed_permutation(),
    ensures
        r@ == translated_mesh(rotated_mesh(tileset.end_cap@, rotation), cell_offset(cell_id)),
        r@.wf(),
        r@.vertices.len() == tileset.end_cap@.vertices.len(),
{
    proof {
        lemma_rotated_within(tileset.end_cap@, rotation, PIECE_COORD_LIMIT as int);
    }
    translate_to_cell(&tileset.end_cap.rotate(&rotation), cell_id)
}

/// The edge cap turned by `rotation` and placed at `cell_id`.
fn generate_edge_cap(tileset: &Tileset, cell_id: CellID, rotation: CubeRotation) -> (r: Mesh)
    requires
        tileset.wf(),
        rotation.is_signed_permutation(),
    ensures
        r@ == translated_mesh(rotated_mesh(tileset.edge@, rotation), cell_offset(cell_id)),
        r@.wf(),
        r@.vertices.len() == tileset.edge@.vertices.len(),
{
    proof {
        lemma_rotated_within(tileset.edge@, rotation, PIECE_COORD_LIMIT as int);
    }
    translate_to_cell(&tileset.edge.rotate(&rotation), cell_id)
}

/// The four twists turned for the cell's layer and placed at `cell_id`.
fn orient_twist_cell(tileset: &Tileset, cell_id: CellID) -> (r: Mesh)
    requires
        tileset.wf(),
    ensures
        r@ == translated_mesh(
            rotated_mesh(quad_twist_spec(tileset.twist@), twist_rotation_spec(cell_id.2)),
            cell_offset(cell_id),
        ),
        r@.wf(),
        r@.vertices.len() == 4 * tileset.twist@.vertices.len(),
{
    proof {
        lemma_named_rotations_proper();
    }
    let twist_tile = make_quad_twist(&tileset.twist);
    let rotation = twist_rotation(cell_id.2);
    proof {
        lemma_rotated_within(twist_tile@, rotation, PIECE_COORD_LIMIT as int);
    }
    translate_to_cell(&twist_tile.rotate(&rotation), cell_id)
}

/// The mesh of a twist cell: its cap where the cell's standing calls for
/// one, else the four twists.
pub fn generate_twist_cell(tileset: &Tileset, cell_id: CellID, bounds: Bounds) -> (r: Mesh)
    requires
        tileset.wf(),
    ensures
        r@ == translated_mesh(twist_cell_mesh(*tileset, cell_id, bounds), cell_offset(cell_id)),
        r@.wf(),
        r@.vertices.len() <= 8 * tileset.largest_piece(),
{
    proof {
        lemma_named_rotations_proper();
    }
    let classification = classify_bounds(cell_id, bounds);
    proof {
        lemma_twist_caps_proper(classification);
    }
    match twist_cap(classification) {
        Some((CapPiece::EndCap, rotation)) => generate_end_cap(tileset, cell_id, rotation),
        Some((CapPiece::EdgeCap, rotation)) => generate_edge_cap(tileset, cell_id, rotation),
        None => orient_twist_cell(tileset, cell_id),
    }
}

/// The connector turned by `rotation`.
fn generate_connector(tileset: &Tileset, rotation: CubeRotation) -> (r: Mesh)
    requires
        tileset.wf(),
        rotation.is_signed_permutation(),
    ensures
        r@ == rotated_mesh(connector_spec(tileset.corner@), rotation),
        piece_ok(r@),
        r@.vertices.len() == 8 * tileset.corner@.vertices.len(),
{
    let connector = make_connector(&tileset.corner);
    proof {
        lemma_rotated_within(connector@, rotation, PIECE_COORD_LIMIT as int);
    }
    connector.rotate(&rotation)
}

/// The mesh of a connector cell: the connector turned by `rotation`, clipped
/// at every boundary of the grid that the cell touches, placed at the cell.
pub fn generate_connector_cell(
    tileset: &Tileset,
    cell_id: CellID,
    rotation: CubeRotation,
    bounds: Bounds,
) -> (r: Mesh)
    requires
        tileset.wf(),
        rotation.is_signed_permutation(),
    ensures
        r@ == translated_mesh(
            connector_cell_mesh(*tileset, cell_id, rotation, bounds),
            cell_offset(cell_id),
        ),
        r@.wf(),
        r@.vertices.len() <= 8 * tileset.largest_piece(),
{
    let connector = generate_connector(tileset, rotation);
    let ghost start = connector@;
    let classification = classify_bounds(cell_id, bounds);
    let normals = clip_normals(classification);
    let ghost ns = clip_normals_spec(classification);
    let mut clipped = connector;
    let mut q: usize = 0;
    while q < normals.len()
        invariant
            q <= normals@.len(),
            normals@.len() == ns.len(),
            forall|k: int| 0 <= k < normals@.len() ==> Vertex(#[trigger] normals@[k])@ == ns[k],
            forall|k: int| 0 <= k < ns.len() ==> within(#[trigger] ns[k], 1),
            clipped@ == clipped_all(start, ns.take(q as int)),
            piece_ok(clipped@),
            clipped@.vertices.len() <= start.vertices.len(),
        decreases normals.len() - q,
    {
        let normal = normals[q];
        assert(Vertex(normal)@ == ns[q as int]);
        proof {
            lemma_clipped_within(clipped@, ns[q as int], PIECE_COORD_LIMIT as int);
        }
        clipped = clipped.simple_clip(normal);
        q += 1;
        assert(ns.take(q as int).drop_last() =~= ns.take(q - 1));
    }
    assert(ns.take(q as int) =~= ns);
    translate_to_cell(&clipped, cell_id)
}

/// The mesh that `cell_id` contributes to the grid.
pub fn generate_cell(tileset: &Tileset, cell_id: CellID, bounds: Bounds) -> (r: Mesh)
    requires
        tileset.wf(),
    ensures
        r@ == cell_mesh(*tileset, cell_id, bounds),
        r@.wf(),
        r@.vertices.len() <= 8 * tileset.largest_piece(),
{
    proof {
        lemma_named_rotations_proper();
        lemma_parity_classes_partition(cell_id);
    }
    let i = cell_id.0 % 2;
    let j = cell_id.1 % 2;
    let k = cell_id.2 % 2;
    if (i == 1 && j == 1 && k == 0) || (i == 0 && j == 0 && k == 1) {
        generate_twist_cell(tileset, cell_id, bounds)
    } else if (i == 1 && j == 0 && k == 1) || (i == 0 && j == 1 && k == 0) {
        generate_connector_cell(tileset, cell_id, CubeRotation::identity(), bounds)
    } else if (i == 0 && j == 0 && k == 0) || (i == 1 && j == 1 && k == 1) {
        generate_connector_cell(tileset, cell_id, CubeRotation::ry(), bounds)
    } else {
        generate_connector_cell(tileset, cell_id, CubeRotation::rz(), bounds)
    }
}

/// The cell at position `q` of the row-major order (x slowest, z fastest)
/// of a grid `m` cells deep along y and `p` along z.
pub open spec fn cell_at(q: int, m: int, p: int) -> CellID {
    CellID(((q / p) / m) as u32, ((q / p) % m) as u32, (q % p) as u32)
}

/// The cells of a grid of `n` by `m` by `p`, in row-major order.
pub open spec fn grid_cells(n: u32, m: u32, p: u32) -> Seq<CellID> {
    Seq::new((n * m * p) as nat, |q: int| cell_at(q, m as int, p as int))
}

/// The mesh of each cell of the grid, in row-major order.
pub open spec fn cell_meshes(t: Tileset, n: u32, m: u32, p: u32) -> Seq<MeshView> {
    grid_cells(n, m, p).map_values(|c: CellID| cell_mesh(t, c, bounds_of(n, m, p)))
}

/// The assembled grid: every cell's mesh merged in row-major order.
pub open spec fn grid_mesh(t: Tileset, n: u32, m: u32, p: u32) -> MeshView {
    merge_all(cell_meshes(t, n, m, p))
}

proof fn lemma_cell_position(i: int, j: int, k: int, m: int, p: int)
    requires
        0 <= i <= u32::MAX,
        0 <= j < m,
        0 <= k < p,
    ensures
        cell_at((i * m + j) * p + k, m, p) == CellID(i as u32, j as u32, k as u32),
{
    let q = (i * m + j) * p + k;
    vstd::arithmetic::div_mod::lemma_fundamental_div_mod_converse(q, p, i * m + j, k);
    vstd::arithmetic::div_mod::lemma_fundamental_div_mod_converse(i * m + j, m, i, j);
}

proof fn lemma_position_bound(i: int, j: int, k: int, n: int, m: int, p: int)
    requires
        0 <= i < n,
        0 <= j < m,
        0 <= k < p,
    ensures
        (i * m + j) * p + k + 1 <= n * m * p,
{
    assert((i * m + j) * p + k + 1 <= (i * m + j + 1) * p) by (nonlinear_arith)
        requires
            0 <= k < p,
    ;
    assert(i * m + j + 1 <= (i + 1) * m) by (nonlinear_arith)
        requires
            0 <= j < m,
    ;
    assert((i * m + j + 1) * p <= (i + 1) * m * p) by (nonlinear_arith)
        requires
            i * m + j + 1 <= (i + 1) * m,
            0 <= p,
    ;
    assert((i + 1) * m * p <= n * m * p) by (nonlinear_arith)
        requires
            i + 1 <= n,
            0 <= m,
            0 <= p,
    ;
}

/// Assembles the grid of `n` by `m` by `p` cells: each cell's mesh, merged
/// in row-major order.
pub fn generate_grid(tileset: &Tileset, n: u32, m: u32, p: u32) -> (r: Mesh)
    requires
        tileset.wf(),
        n >= 1,
        m >= 1,
        p >= 1,
        n * m * p * (8 * tileset.largest_piece()) <= usize::MAX,
    ensures
        r@ == grid_mesh(*tileset, n, m, p),
        r@.wf(),
{
    let bounds = Bounds::new(n, m, p);
    let ghost cells = cell_meshes(*tileset, n, m, p);
    let ghost per_cell = 8 * tileset.largest_piece();
    let ghost total = n * m * p;
    let mut grid = Mesh::new();
    let mut i: u32 = 0;
    assert((i * m) * p == 0);
    assert(cells.take(0).len() == 0);
    assert(merge_all(cells.take(0)) == empty_mesh());
    while i < n
        invariant
            tileset.wf(),
            bounds == bounds_of(n, m, p),
            cells == cell_meshes(*tileset, n, m, p),
            per_cell == 8 * tileset.largest_piece(),
            total == n * m * p,
            total * per_cell <= usize::MAX,
            m >= 1,
            p >= 1,
            i <= n,
            grid@ == merge_all(cells.take((i * m) * p)),
            grid@.wf(),
            grid@.vertices.len() <= (i * m) * p * per_cell,
        decreases n - i,
    {
        let mut j: u32 = 0;
        while j < m
            invariant
                tileset.wf(),
                bounds == bounds_of(n, m, p),
                cells == cell_meshes(*tileset, n, m, p),
                per_cell == 8 * tileset.largest_piece(),
                total == n * m * p,
                total * per_cell <= usize::MAX,
                p >= 1,
                i < n,
                j <= m,
                grid@ == merge_all(cells.take((i * m + j) * p)),
                grid@.wf(),
                grid@.vertices.len() <= (i * m + j) * p * per_cell,
            decreases m - j,
        {
            let mut k: u32 = 0;
            while k < p
                invariant
                    tileset.wf(),
                    bounds == bounds_of(n, m, p),
                    cells == cell_meshes(*tileset, n, m, p),
                    per_cell == 8 * tileset.largest_piece(),
                    total == n * m * p,
                    total * per_cell <= usize::MAX,
                    i < n,
                    j < m,
                    k <= p,
                    grid@ == merge_all(cells.take((i * m + j) * p + k)),
                    grid@.wf(),
                    grid@.vertices.len() <= ((i * m + j) * p + k) * per_cell,
                decreases p - k,
            {
                let cell_id = CellID(i, j, k);
                let mesh = generate_cell(tileset, cell_id, bounds);
                let ghost q = (i * m + j) * p + k;
                proof {
                    lemma_cell_position(i as int, j as int, k as int, m as int, p as int);
                    lemma_position_bound(i as int, j as int, k as int, n as int, m as int, p as int);
                    assert(cells[q] == mesh@);
                    assert((q + 1) * per_cell <= total * per_cell) by (nonlinear_arith)
                        requires
                            q + 1 <= total,
                            per_cell >= 0,
                    ;
                    assert(q * per_cell + per_cell == (q + 1) * per_cell) by (nonlinear_arith);
                    assert(cells.take(q + 1).drop_last() =~= cells.take(q));
                    lemma_merge_counts(grid@, mesh@);
                }
                grid.add_geometry(&mesh);
                k += 1;
            }
            j += 1;
            assert((i * m + (j - 1)) * p + p == (i * m + j) * p) by (nonlinear_arith);
        }
        i += 1;
        assert(((i - 1) * m + m) * p == (i * m) * p) by (nonlinear_arith);
    }
    assert(cells.len() == total);
    assert(cells.take((n * m) * p) =~= cells);
    grid
}

/// The assembled grid holds as many vertices and faces as its cells' meshes
/// together: no cell is skipped or counted twice.
pub proof fn lemma_grid_is_sum_of_cells(t: Tileset, n: u32, m: u32, p: u32)
    ensures
        cell_meshes(t, n, m, p).len() == n * m * p,
        grid_mesh(t, n, m, p).vertices.len() == total_vertices(cell_meshes(t, n, m, p)),
        grid_mesh(t, n, m, p).faces.len() == total_faces(cell_meshes(t, n, m, p)),
{
    lemma_merge_all_counts(cell_meshes(t, n, m, p));
}

} // verus!
