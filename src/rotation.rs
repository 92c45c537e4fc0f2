use vstd::prelude::*;
use vstd::string::StringExecFns;

use crate::primitives::{in_coord_range, norm_squared, within, Vertex, COORD_LIMIT};

verus! {

/// A signed permutation of the three coordinate axes: output axis `i` takes
/// source axis `axes[i]`, multiplied by `orientations[i]` (either 1 or -1).
#[derive(Clone, Copy, Debug, PartialEq, Eq)]
pub struct CubeRotation {
    pub axes: [usize; 3],
    pub orientations: [i8; 3],
}

pub open spec fn is_unit(s: i8) -> bool {
    s == 1 || s == -1
}

/// `a` maps the three axes one-to-one onto themselves.
pub open spec fn is_axis_permutation(a: [usize; 3]) -> bool {
    &&& a[0] < 3 && a[1] < 3 && a[2] < 3
    &&& a[0] != a[1] && a[0] != a[2] && a[1] != a[2]
}

/// The composition `c` of `a` (outer) with `b` (inner), chased index by index:
/// `c.axes[i] == b.axes[a.axes[i]]` and
/// `c.orientations[i] == a.orientations[i] * b.orientations[a.axes[i]]`.
pub open spec fn composes(a: CubeRotation, b: CubeRotation, c: CubeRotation) -> bool {
    &&& forall|i: int| 0 <= i < 3 ==> #[trigger] c.axes[i] == b.axes[a.axes[i] as int]
    &&& forall|i: int|
        0 <= i < 3 ==> #[trigger] c.orientations[i] == a.orientations[i] * b.orientations[a.axes[i] as int]
}

/// The rotation with the given axes and orientations.
pub open spec fn rotation_of(axes: [usize; 3], orientations: [i8; 3]) -> CubeRotation {
    CubeRotation { axes, orientations }
}

/// The identity.
pub open spec fn rot_identity() -> CubeRotation {
    rotation_of([0, 1, 2], [1i8, 1i8, 1i8])
}

/// A quarter turn about the x axis.
pub open spec fn rot_x() -> CubeRotation {
    rotation_of([0, 2, 1], [1i8, -1i8, 1i8])
}

/// A half turn about the x axis.
pub open spec fn rot_x2() -> CubeRotation {
    rotation_of([0, 1, 2], [1i8, -1i8, -1i8])
}

/// Three quarter turns about the x axis.
pub open spec fn rot_x3() -> CubeRotation {
    rotation_of([0, 2, 1], [1i8, 1i8, -1i8])
}

/// A quarter turn about the y axis.
pub open spec fn rot_y() -> CubeRotation {
    rotation_of([2, 1, 0], [1i8, 1i8, -1i8])
}

/// A half turn about the y axis.
pub open spec fn rot_y2() -> CubeRotation {
    rotation_of([0, 1, 2], [-1i8, 1i8, -1i8])
}

/// Three quarter turns about the y axis.
pub open spec fn rot_y3() -> CubeRotation {
    rotation_of([2, 1, 0], [-1i8, 1i8, 1i8])
}

/// A quarter turn about the z axis.
pub open spec fn rot_z() -> CubeRotation {
    rotation_of([1, 0, 2], [-1i8, 1i8, 1i8])
}

/// A half turn about the z axis.
pub open spec fn rot_z2() -> CubeRotation {
    rotation_of([0, 1, 2], [-1i8, -1i8, 1i8])
}

/// Three quarter turns about the z axis.
pub open spec fn rot_z3() -> CubeRotation {
    rotation_of([1, 0, 2], [1i8, -1i8, 1i8])
}

/// The point `p` carried by `r`: coordinate `i` is
/// `r.orientations[i] * p[r.axes[i]]`.
pub open spec fn rotated(r: CubeRotation, p: Seq<int>) -> Seq<int> {
    seq![
        r.orientations[0] * p[r.axes[0] as int],
        r.orientations[1] * p[r.axes[1] as int],
        r.orientations[2] * p[r.axes[2] as int],
    ]
}

/// `c` multiplied by the sign `s`.
fn signed_coord(s: i8, c: i64) -> (r: i64)
    requires
        is_unit(s),
        -COORD_LIMIT <= c <= COORD_LIMIT,
    ensures
        r == s * c,
        -COORD_LIMIT <= r <= COORD_LIMIT,
{
    if s == 1 {
        c
    } else {
        -c
    }
}

/// An axis by its name, with a minus sign in front where its sign is -1.
pub open spec fn axis_label_spec(axis: usize, orientation: i8) -> Seq<char> {
    let sign = if orientation == 1 {
        Seq::<char>::empty()
    } else {
        seq!['-']
    };
    sign + seq![
        if axis == 0 {
            'x'
        } else if axis == 1 {
            'y'
        } else {
            'z'
        },
    ]
}

/// A rotation as its three signed output axes, as in `[x -z y]`.
pub open spec fn label_spec(r: CubeRotation) -> Seq<char> {
    seq!['['] + axis_label_spec(r.axes[0], r.orientations[0]) + seq![' '] + axis_label_spec(
        r.axes[1],
        r.orientations[1],
    ) + seq![' '] + axis_label_spec(r.axes[2], r.orientations[2]) + seq![']']
}

fn axis_label(axis: usize, orientation: i8) -> (s: String)
    ensures
        s@ == axis_label_spec(axis, orientation),
{
    let mut s = if orientation == 1 {
        String::new()
    } else {
        String::from_str("-")
    };
    proof {
        reveal_strlit("-");
        reveal_strlit("x");
        reveal_strlit("y");
        reveal_strlit("z");
    }
    if axis == 0 {
        s.append("x");
    } else if axis == 1 {
        s.append("y");
    } else {
        s.append("z");
    }
    assert(s@ =~= axis_label_spec(axis, orientation));
    s
}

/// Position of a permutation of three axes in lexicographic order.
pub open spec fn permutation_rank(a: [usize; 3]) -> int {
    if a[0] == 0 {
        if a[1] == 1 { 0 } else { 1 }
    } else if a[0] == 1 {
        if a[1] == 0 { 2 } else { 3 }
    } else {
        if a[1] == 0 { 4 } else { 5 }
    }
}

/// The entries of the quarter and half turns.
proof fn lemma_quarter_turn_tables()
    ensures
        rot_x().axes[0] == 0 && rot_x().axes[1] == 2 && rot_x().axes[2] == 1,
        rot_x().orientations[0] == 1 && rot_x().orientations[1] == -1 && rot_x().orientations[2] == 1,
        rot_x2().axes[0] == 0 && rot_x2().axes[1] == 1 && rot_x2().axes[2] == 2,
        rot_x2().orientations[0] == 1 && rot_x2().orientations[1] == -1 && rot_x2().orientations[2] == -1,
        rot_y().axes[0] == 2 && rot_y().axes[1] == 1 && rot_y().axes[2] == 0,
        rot_y().orientations[0] == 1 && rot_y().orientations[1] == 1 && rot_y().orientations[2] == -1,
        rot_y2().axes[0] == 0 && rot_y2().axes[1] == 1 && rot_y2().axes[2] == 2,
        rot_y2().orientations[0] == -1 && rot_y2().orientations[1] == 1 && rot_y2().orientations[2] == -1,
        rot_z().axes[0] == 1 && rot_z().axes[1] == 0 && rot_z().axes[2] == 2,
        rot_z().orientations[0] == -1 && rot_z().orientations[1] == 1 && rot_z().orientations[2] == 1,
        rot_z2().axes[0] == 0 && rot_z2().axes[1] == 1 && rot_z2().axes[2] == 2,
        rot_z2().orientations[0] == -1 && rot_z2().orientations[1] == -1 && rot_z2().orientations[2] == 1,
{
}

/// The composition of `a` with `b`, entry by entry, as `compose` computes it.
pub open spec fn compose_spec(a: CubeRotation, b: CubeRotation) -> CubeRotation {
    rotation_of(
        [b.axes[a.axes[0] as int], b.axes[a.axes[1] as int], b.axes[a.axes[2] as int]],
        [
            (a.orientations[0] * b.orientations[a.axes[0] as int]) as i8,
            (a.orientations[1] * b.orientations[a.axes[1] as int]) as i8,
            (a.orientations[2] * b.orientations[a.axes[2] as int]) as i8,
        ],
    )
}

/// The composition of two given tables, entry by entry.
proof fn lemma_compose_tables(a: CubeRotation, b: CubeRotation, c: CubeRotation)
    requires
        composes(a, b, c),
    ensures
        c == compose_spec(a, b),
{
    let t = compose_spec(a, b);
    assert(c.axes[0] == t.axes[0] && c.axes[1] == t.axes[1] && c.axes[2] == t.axes[2]);
    assert(c.orientations[0] == t.orientations[0] && c.orientations[1] == t.orientations[1]
        && c.orientations[2] == t.orientations[2]);
    assert(c.axes =~= t.axes);
    assert(c.orientations =~= t.orientations);
}

/// The product of two signs.
fn unit_product(a: i8, b: i8) -> (r: i8)
    requires
        is_unit(a),
        is_unit(b),
    ensures
        r == a * b,
        is_unit(r),
{
    if a == 1 {
        b
    } else {
        -b
    }
}

impl CubeRotation {
    proof fn lemma_signs_are_units(self)
        requires
            self.is_signed_permutation(),
        ensures
            forall|i: int| 0 <= i < 3 ==> is_unit(#[trigger] self.orientations[i]),
    {
        assert forall|i: int| 0 <= i < 3 implies is_unit(#[trigger] self.orientations[i]) by {
            assert(i == 0 || i == 1 || i == 2);
        }
    }

    /// A permutation of the axes with a sign of 1 or -1 on each output axis.
    pub open spec fn is_signed_permutation(self) -> bool {
        &&& is_axis_permutation(self.axes)
        &&& is_unit(self.orientations[0])
        &&& is_unit(self.orientations[1])
        &&& is_unit(self.orientations[2])
    }

    /// 1 for an even permutation of the axes, -1 for an odd one.
    pub open spec fn permutation_sign(self) -> int {
        let a = self.axes;
        if (a[0] == 0 && a[1] == 1) || (a[0] == 1 && a[1] == 2) || (a[0] == 2 && a[1] == 0) {
            1
        } else {
            -1
        }
    }

    /// The determinant of the signed permutation matrix.
    pub open spec fn determinant(self) -> int {
        self.permutation_sign() * (self.orientations[0] * self.orientations[1]
            * self.orientations[2])
    }

    /// One of the 24 orientation-preserving symmetries of a cube.
    pub open spec fn is_proper(self) -> bool {
        self.is_signed_permutation() && self.determinant() == 1
    }

    /// Index of a proper rotation among the 24: the rank of its permutation
    /// times four, plus two bits for the signs of the first two axes.
    pub open spec fn index_spec(self) -> int {
        permutation_rank(self.axes) * 4 + (if self.orientations[0] == -1 { 2int } else { 0 })
            + (if self.orientations[1] == -1 { 1int } else { 0 })
    }

    pub fn new(axes: [usize; 3], orientations: [i8; 3]) -> (r: Self)
        ensures
            r == rotation_of(axes, orientations),
    {
        Self { axes, orientations }
    }

    pub fn identity() -> (r: Self)
        ensures
            r == rot_identity(),
    {
        Self::new([0, 1, 2], [1, 1, 1])
    }

    /// A quarter turn about the z axis.
    pub fn rz() -> (r: Self)
        ensures
            r == rot_z(),
    {
        Self::new([1, 0, 2], [-1, 1, 1])
    }

    /// A quarter turn about the x axis.
    pub fn rx() -> (r: Self)
        ensures
            r == rot_x(),
    {
        Self::new([0, 2, 1], [1, -1, 1])
    }

    /// A quarter turn about the y axis.
    pub fn ry() -> (r: Self)
        ensures
            r == rot_y(),
    {
        Self::new([2, 1, 0], [1, 1, -1])
    }

    /// A half turn about the x axis.
    pub fn rx2() -> (r: Self)
        ensures
            r == rot_x2(),
    {
        let a = Self::rx();
        let b = Self::rx();
        let r = a.compose(&b);
        proof {
            lemma_quarter_turn_tables();
            lemma_compose_tables(a, b, r);
        }
        r
    }

    /// Three quarter turns about the x axis.
    pub fn rx3() -> (r: Self)
        ensures
            r == rot_x3(),
    {
        let a = Self::rx2();
        let b = Self::rx();
        let r = a.compose(&b);
        proof {
            lemma_quarter_turn_tables();
            lemma_compose_tables(a, b, r);
        }
        r
    }

    /// A half turn about the y axis.
    pub fn ry2() -> (r: Self)
        ensures
            r == rot_y2(),
    {
        let a = Self::ry();
        let b = Self::ry();
        let r = a.compose(&b);
        proof {
            lemma_quarter_turn_tables();
            lemma_compose_tables(a, b, r);
        }
        r
    }

    /// Three quarter turns about the y axis.
    pub fn ry3() -> (r: Self)
        ensures
            r == rot_y3(),
    {
        let a = Self::ry2();
        let b = Self::ry();
        let r = a.compose(&b);
        proof {
            lemma_quarter_turn_tables();
            lemma_compose_tables(a, b, r);
        }
        r
    }

    /// A half turn about the z axis.
    pub fn rz2() -> (r: Self)
        ensures
            r == rot_z2(),
    {
        let a = Self::rz();
        let b = Self::rz();
        let r = a.compose(&b);
        proof {
            lemma_quarter_turn_tables();
            lemma_compose_tables(a, b, r);
        }
        r
    }

    /// Three quarter turns about the z axis.
    pub fn rz3() -> (r: Self)
        ensures
            r == rot_z3(),
    {
        let a = Self::rz2();
        let b = Self::rz();
        let r = a.compose(&b);
        proof {
            lemma_quarter_turn_tables();
            lemma_compose_tables(a, b, r);
        }
        r
    }

    /// The rotation at position `k` among the 24 cube rotations.
    pub fn from_index(k: usize) -> (r: Self)
        requires
            k < 24,
        ensures
            r.is_proper(),
            r.index_spec() == k,
    {
        let rank = k / 4;
        let axes: [usize; 3] = if rank == 0 {
            [0, 1, 2]
        } else if rank == 1 {
            [0, 2, 1]
        } else if rank == 2 {
            [1, 0, 2]
        } else if rank == 3 {
            [1, 2, 0]
        } else if rank == 4 {
            [2, 0, 1]
        } else {
            [2, 1, 0]
        };
        let even = rank == 0 || rank == 3 || rank == 4;
        let s0: i8 = if k % 4 >= 2 {
            -1
        } else {
            1
        };
        let s1: i8 = if k % 2 == 1 {
            -1
        } else {
            1
        };
        let s2: i8 = if (s0 == s1) == even {
            1
        } else {
            -1
        };
        let r = CubeRotation { axes, orientations: [s0, s1, s2] };
        assert(r.axes[0] == axes[0] && r.axes[1] == axes[1] && r.axes[2] == axes[2]);
        assert(r.orientations[0] == s0 && r.orientations[1] == s1 && r.orientations[2] == s2);
        assert(r.permutation_sign() == if even { 1int } else { -1int });
        assert(r.determinant() == 1) by {
            let p: int = if even { 1 } else { -1 };
            let (x, y, z) = (s0 as int, s1 as int, s2 as int);
            assert(p * (x * y * z) == 1) by (nonlinear_arith)
                requires
                    p == 1 || p == -1,
                    x == 1 || x == -1,
                    y == 1 || y == -1,
                    z == (if (x == y) == (p == 1) { 1int } else { -1int }),
            ;
        }
        r
    }

    /// The position of this rotation among the 24 cube rotations.
    pub fn index(&self) -> (k: usize)
        requires
            self.is_proper(),
        ensures
            k == self.index_spec(),
            k < 24,
    {
        let a = self.axes;
        let rank: usize = if a[0] == 0 {
            if a[1] == 1 {
                0
            } else {
                1
            }
        } else if a[0] == 1 {
            if a[1] == 0 {
                2
            } else {
                3
            }
        } else {
            if a[1] == 0 {
                4
            } else {
                5
            }
        };
        let b0: usize = if self.orientations[0] == -1 {
            2
        } else {
            0
        };
        let b1: usize = if self.orientations[1] == -1 {
            1
        } else {
            0
        };
        rank * 4 + b0 + b1
    }

    /// The rotation that undoes this one: composed with it on either side,
    /// it gives the identity.
    pub fn inverse(&self) -> (r: Self)
        requires
            self.is_proper(),
        ensures
            r.is_proper(),
            composes(*self, r, rot_identity()),
            composes(r, *self, rot_identity()),
    {
        let a = self.axes;
        let o = self.orientations;
        let k0: usize = if a[0] == 0 {
            0
        } else if a[1] == 0 {
            1
        } else {
            2
        };
        let k1: usize = if a[0] == 1 {
            0
        } else if a[1] == 1 {
            1
        } else {
            2
        };
        let k2: usize = if a[0] == 2 {
            0
        } else if a[1] == 2 {
            1
        } else {
            2
        };
        let r = CubeRotation { axes: [k0, k1, k2], orientations: [o[k0], o[k1], o[k2]] };
        let ghost id = rot_identity();
        proof {
            self.lemma_signs_are_units();
            assert(id.axes[0] == 0 && id.axes[1] == 1 && id.axes[2] == 2);
            assert(id.orientations[0] == 1 && id.orientations[1] == 1 && id.orientations[2] == 1);
            assert(r.axes[0] == k0 && r.axes[1] == k1 && r.axes[2] == k2);
            assert(r.orientations[0] == o[k0 as int] && r.orientations[1] == o[k1 as int]
                && r.orientations[2] == o[k2 as int]);
            assert(a[0] == 0 || a[0] == 1 || a[0] == 2);
            assert(a[1] == 0 || a[1] == 1 || a[1] == 2);
            assert(a[2] == 0 || a[2] == 1 || a[2] == 2);
            let (x, y, z) = (o[0] as int, o[1] as int, o[2] as int);
            lemma_product_orders(x, y, z);
            assert(x * x == 1 && y * y == 1 && z * z == 1) by (nonlinear_arith)
                requires
                    x == 1 || x == -1,
                    y == 1 || y == -1,
                    z == 1 || z == -1,
            ;
        }
        r
    }

    /// The rotation as its three signed output axes, as in `[x -z y]`.
    pub fn label(&self) -> (s: String)
        ensures
            s@ == label_spec(*self),
    {
        let l0 = axis_label(self.axes[0], self.orientations[0]);
        let l1 = axis_label(self.axes[1], self.orientations[1]);
        let l2 = axis_label(self.axes[2], self.orientations[2]);
        let mut s = String::from_str("[");
        s.append(l0.as_str());
        s.append(" ");
        s.append(l1.as_str());
        s.append(" ");
        s.append(l2.as_str());
        s.append("]");
        proof {
            reveal_strlit("[");
            reveal_strlit(" ");
            reveal_strlit("]");
        }
        assert(s@ =~= label_spec(*self));
        s
    }

    /// The point `v` carried by this rotation.
    pub fn apply(&self, v: &Vertex) -> (w: Vertex)
        requires
            self.is_signed_permutation(),
            in_coord_range(v@),
        ensures
            w@ == rotated(*self, v@),
            in_coord_range(w@),
    {
        proof {
            self.lemma_signs_are_units();
        }
        let c0 = signed_coord(self.orientations[0], v.0[self.axes[0]]);
        let c1 = signed_coord(self.orientations[1], v.0[self.axes[1]]);
        let c2 = signed_coord(self.orientations[2], v.0[self.axes[2]]);
        let w = Vertex([c0, c1, c2]);
        assert(self.axes[0] == 0 || self.axes[0] == 1 || self.axes[0] == 2);
        assert(self.axes[1] == 0 || self.axes[1] == 1 || self.axes[1] == 2);
        assert(self.axes[2] == 0 || self.axes[2] == 1 || self.axes[2] == 2);
        assert(v@[self.axes[0] as int] == v.0[self.axes[0] as int]);
        assert(v@[self.axes[1] as int] == v.0[self.axes[1] as int]);
        assert(v@[self.axes[2] as int] == v.0[self.axes[2] as int]);
        assert(w@ =~= rotated(*self, v@));
        proof {
            lemma_rotation_keeps_bound(*self, v@, COORD_LIMIT as int);
        }
        w
    }

    /// `self` composed with `other`.
    pub fn compose(&self, other: &CubeRotation) -> (c: CubeRotation)
        requires
            self.is_signed_permutation(),
            other.is_signed_permutation(),
        ensures
            composes(*self, *other, c),
            c == compose_spec(*self, *other),
            c.is_signed_permutation(),
    {
        let a0 = self.axes[0];
        let a1 = self.axes[1];
        let a2 = self.axes[2];
        proof {
            other.lemma_signs_are_units();
        }
        let c = CubeRotation {
            axes: [other.axes[a0], other.axes[a1], other.axes[a2]],
            orientations: [
                unit_product(self.orientations[0], other.orientations[a0]),
                unit_product(self.orientations[1], other.orientations[a1]),
                unit_product(self.orientations[2], other.orientations[a2]),
            ],
        };
        proof {
            lemma_compose_tables(*self, *other, c);
        }
        c
    }
}

proof fn lemma_mul_swap(a: int, b: int, c: int, d: int)
    ensures
        (a * b) * (c * d) == (a * c) * (b * d),
{
    assert((a * b) * (c * d) == (a * c) * (b * d)) by (nonlinear_arith);
}

proof fn lemma_product_orders(x: int, y: int, z: int)
    ensures
        x * y * z == x * z * y,
        x * y * z == y * x * z,
        x * y * z == y * z * x,
        x * y * z == z * x * y,
        x * y * z == z * y * x,
{
    assert(x * y * z == x * z * y) by (nonlinear_arith);
    assert(x * y * z == y * x * z) by (nonlinear_arith);
    assert(x * y * z == y * z * x) by (nonlinear_arith);
    assert(x * y * z == z * x * y) by (nonlinear_arith);
    assert(x * y * z == z * y * x) by (nonlinear_arith);
}

/// The composition of two of the 24 cube rotations is again one of the 24.
pub proof fn lemma_composition_closed(a: CubeRotation, b: CubeRotation, c: CubeRotation)
    requires
        a.is_proper(),
        b.is_proper(),
        composes(a, b, c),
    ensures
        c.is_proper(),
{
    a.lemma_signs_are_units();
    b.lemma_signs_are_units();
    let (a0, a1, a2) = (a.axes[0] as int, a.axes[1] as int, a.axes[2] as int);
    assert(c.axes[0] == b.axes[a0] && c.axes[1] == b.axes[a1] && c.axes[2] == b.axes[a2]);
    let (s0, s1, s2) = (a.orientations[0] as int, a.orientations[1] as int, a.orientations[2] as int);
    let (t0, t1, t2) = (b.orientations[0] as int, b.orientations[1] as int, b.orientations[2] as int);
    let (u0, u1, u2) = (b.orientations[a0] as int, b.orientations[a1] as int, b.orientations[a2] as int);
    assert(c.orientations[0] == s0 * u0);
    assert(c.orientations[1] == s1 * u1);
    assert(c.orientations[2] == s2 * u2);
    assert(u0 * u1 * u2 == t0 * t1 * t2) by {
        lemma_product_orders(t0, t1, t2);
        assert(a0 == 0 || a0 == 1 || a0 == 2);
        assert(a1 == 0 || a1 == 1 || a1 == 2);
        assert(a2 == 0 || a2 == 1 || a2 == 2);
    }
    let (c0, c1, c2) = (c.orientations[0] as int, c.orientations[1] as int, c.orientations[2] as int);
    lemma_mul_swap(s0, u0, s1, u1);
    lemma_mul_swap(s0 * s1, u0 * u1, s2, u2);
    assert(c0 * c1 * c2 == (s0 * s1 * s2) * (t0 * t1 * t2));
    assert(c.permutation_sign() == a.permutation_sign() * b.permutation_sign()) by {
        assert(a0 == 0 || a0 == 1 || a0 == 2);
        assert(a1 == 0 || a1 == 1 || a1 == 2);
        assert(b.axes[0] == 0 || b.axes[0] == 1 || b.axes[0] == 2);
        assert(b.axes[1] == 0 || b.axes[1] == 1 || b.axes[1] == 2);
    }
    let (pa, pb, pc) = (a.permutation_sign(), b.permutation_sign(), c.permutation_sign());
    let (qa, qb, qc) = (s0 * s1 * s2, t0 * t1 * t2, c0 * c1 * c2);
    assert(pc * qc == (pa * qa) * (pb * qb)) by (nonlinear_arith)
        requires
            qc == qa * qb,
            pc == pa * pb,
    ;
    assert(c.determinant() == pc * qc);
    assert(a.determinant() == pa * qa);
    assert(b.determinant() == pb * qb);
    assert(is_unit(b.orientations[a0]));
    assert(is_unit(b.orientations[a1]) && is_unit(b.orientations[a2]));
    assert(s0 * u0 == 1 || s0 * u0 == -1) by (nonlinear_arith)
        requires
            s0 == 1 || s0 == -1,
            u0 == 1 || u0 == -1,
    ;
    assert(s1 * u1 == 1 || s1 * u1 == -1) by (nonlinear_arith)
        requires
            s1 == 1 || s1 == -1,
            u1 == 1 || u1 == -1,
    ;
    assert(s2 * u2 == 1 || s2 * u2 == -1) by (nonlinear_arith)
        requires
            s2 == 1 || s2 == -1,
            u2 == 1 || u2 == -1,
    ;
    assert(is_unit(c.orientations[0]) && is_unit(c.orientations[1]) && is_unit(
        c.orientations[2],
    ));
}

/// The named rotations are among the 24 cube rotations.
pub proof fn lemma_named_rotations_proper()
    ensures
        rot_identity().is_proper(),
        rot_x().is_proper(),
        rot_x2().is_proper(),
        rot_x3().is_proper(),
        rot_y().is_proper(),
        rot_y2().is_proper(),
        rot_y3().is_proper(),
        rot_z().is_proper(),
        rot_z2().is_proper(),
        rot_z3().is_proper(),
{
    assert(rot_identity().axes[0] == 0 && rot_identity().axes[1] == 1 && rot_identity().axes[2] == 2);
    assert(rot_x().axes[0] == 0 && rot_x().axes[1] == 2 && rot_x().axes[2] == 1);
    assert(rot_x2().axes[0] == 0 && rot_x2().axes[1] == 1 && rot_x2().axes[2] == 2);
    assert(rot_x3().axes[0] == 0 && rot_x3().axes[1] == 2 && rot_x3().axes[2] == 1);
    assert(rot_y().axes[0] == 2 && rot_y().axes[1] == 1 && rot_y().axes[2] == 0);
    assert(rot_y2().axes[0] == 0 && rot_y2().axes[1] == 1 && rot_y2().axes[2] == 2);
    assert(rot_y3().axes[0] == 2 && rot_y3().axes[1] == 1 && rot_y3().axes[2] == 0);
    assert(rot_z().axes[0] == 1 && rot_z().axes[1] == 0 && rot_z().axes[2] == 2);
    assert(rot_z2().axes[0] == 0 && rot_z2().axes[1] == 1 && rot_z2().axes[2] == 2);
    assert(rot_z3().axes[0] == 1 && rot_z3().axes[1] == 0 && rot_z3().axes[2] == 2);
    assert(rot_identity().orientations[0] == 1 && rot_identity().orientations[1] == 1
        && rot_identity().orientations[2] == 1);
    assert(rot_x().orientations[0] == 1 && rot_x().orientations[1] == -1 && rot_x().orientations[2] == 1);
    assert(rot_x2().orientations[0] == 1 && rot_x2().orientations[1] == -1 && rot_x2().orientations[2] == -1);
    assert(rot_x3().orientations[0] == 1 && rot_x3().orientations[1] == 1 && rot_x3().orientations[2] == -1);
    assert(rot_y().orientations[0] == 1 && rot_y().orientations[1] == 1 && rot_y().orientations[2] == -1);
    assert(rot_y2().orientations[0] == -1 && rot_y2().orientations[1] == 1 && rot_y2().orientations[2] == -1);
    assert(rot_y3().orientations[0] == -1 && rot_y3().orientations[1] == 1 && rot_y3().orientations[2] == 1);
    assert(rot_z().orientations[0] == -1 && rot_z().orientations[1] == 1 && rot_z().orientations[2] == 1);
    assert(rot_z2().orientations[0] == -1 && rot_z2().orientations[1] == -1 && rot_z2().orientations[2] == 1);
    assert(rot_z3().orientations[0] == 1 && rot_z3().orientations[1] == -1 && rot_z3().orientations[2] == 1);
}

/// Rotating a point keeps every bound on the magnitude of its coordinates.
pub proof fn lemma_rotation_keeps_bound(r: CubeRotation, p: Seq<int>, limit: int)
    requires
        r.is_signed_permutation(),
        within(p, limit),
    ensures
        within(rotated(r, p), limit),
{
    r.lemma_signs_are_units();
    assert forall|i: int| 0 <= i < 3 implies #[trigger] (r.orientations[i] * p[r.axes[i] as int])
        == p[r.axes[i] as int] || r.orientations[i] * p[r.axes[i] as int] == -p[
        r.axes[i] as int] by {
        let s = r.orientations[i] as int;
        let x = p[r.axes[i] as int];
        assert(s * x == x || s * x == -x) by (nonlinear_arith)
            requires
                s == 1 || s == -1,
        ;
    }
    assert(r.axes[0] == 0 || r.axes[0] == 1 || r.axes[0] == 2);
    assert(r.axes[1] == 0 || r.axes[1] == 1 || r.axes[1] == 2);
    assert(r.axes[2] == 0 || r.axes[2] == 1 || r.axes[2] == 2);
}

/// Rotating a point keeps its distance from the origin.
pub proof fn lemma_rotation_preserves_norm(r: CubeRotation, p: Seq<int>)
    requires
        r.is_signed_permutation(),
        p.len() == 3,
    ensures
        norm_squared(rotated(r, p)) == norm_squared(p),
{
    r.lemma_signs_are_units();
    let q = rotated(r, p);
    assert forall|i: int| 0 <= i < 3 implies #[trigger] q[i] * q[i] == p[r.axes[i] as int] * p[
        r.axes[i] as int] by {
        let s = r.orientations[i] as int;
        let x = p[r.axes[i] as int];
        assert(q[i] == s * x);
        assert((s * x) * (s * x) == x * x) by (nonlinear_arith)
            requires
                s == 1 || s == -1,
        ;
    }
    assert(q[0] * q[0] == p[r.axes[0] as int] * p[r.axes[0] as int]);
    assert(q[1] * q[1] == p[r.axes[1] as int] * p[r.axes[1] as int]);
    assert(q[2] * q[2] == p[r.axes[2] as int] * p[r.axes[2] as int]);
    assert(r.axes[0] == 0 || r.axes[0] == 1 || r.axes[0] == 2);
    assert(r.axes[1] == 0 || r.axes[1] == 1 || r.axes[1] == 2);
    assert(r.axes[2] == 0 || r.axes[2] == 1 || r.axes[2] == 2);
}

/// Two of the 24 cube rotations with the same index are the same: the index
/// numbers the 24 one to one.
pub proof fn lemma_index_identifies(a: CubeRotation, b: CubeRotation)
    requires
        a.is_proper(),
        b.is_proper(),
        a.index_spec() == b.index_spec(),
    ensures
        a == b,
{
    assert(a.axes[0] == b.axes[0] && a.axes[1] == b.axes[1] && a.axes[2] == b.axes[2]);
    assert(a.orientations[0] == b.orientations[0] && a.orientations[1] == b.orientations[1]);
    assert(a.orientations[2] == b.orientations[2]) by {
        assert(a.permutation_sign() == b.permutation_sign());
        let p = a.permutation_sign();
        let (x, y) = (a.orientations[0] as int, a.orientations[1] as int);
        let (z, w) = (a.orientations[2] as int, b.orientations[2] as int);
        assert(p * (x * y * z) == 1 && p * (x * y * w) == 1 ==> z == w) by (nonlinear_arith)
            requires
                p == 1 || p == -1,
                x == 1 || x == -1,
                y == 1 || y == -1,
                z == 1 || z == -1,
                w == 1 || w == -1,
        ;
    }
    assert(a.axes =~= b.axes);
    assert(a.orientations =~= b.orientations);
}

/// Composing with the identity on either side gives back the rotation.
pub proof fn lemma_identity_law(r: CubeRotation, left: CubeRotation, right: CubeRotation)
    requires
        r.is_signed_permutation(),
        composes(rot_identity(), r, left),
        composes(r, rot_identity(), right),
    ensures
        left == r,
        right == r,
{
    r.lemma_signs_are_units();
    let id = rot_identity();
    assert(id.axes[0] == 0 && id.axes[1] == 1 && id.axes[2] == 2);
    assert(id.orientations[0] == 1 && id.orientations[1] == 1 && id.orientations[2] == 1);
    assert(r.axes[0] == 0 || r.axes[0] == 1 || r.axes[0] == 2);
    assert(r.axes[1] == 0 || r.axes[1] == 1 || r.axes[1] == 2);
    assert(r.axes[2] == 0 || r.axes[2] == 1 || r.axes[2] == 2);
    assert(left.axes[0] == r.axes[0] && left.axes[1] == r.axes[1] && left.axes[2] == r.axes[2]);
    assert(right.axes[0] == r.axes[0] && right.axes[1] == r.axes[1] && right.axes[2] == r.axes[2]);
    assert(left.orientations[0] == r.orientations[0]);
    assert(left.orientations[1] == r.orientations[1]);
    assert(left.orientations[2] == r.orientations[2]);
    assert(right.orientations[0] == r.orientations[0]);
    assert(right.orientations[1] == r.orientations[1]);
    assert(right.orientations[2] == r.orientations[2]);
    assert(left.axes =~= r.axes);
    assert(right.axes =~= r.axes);
    assert(left.orientations =~= r.orientations);
    assert(right.orientations =~= r.orientations);
}

/// The generator with number `g`: the quarter turns about x, y and z.
pub open spec fn generator(g: int) -> CubeRotation {
    if g == 0 {
        rot_x()
    } else if g == 1 {
        rot_y()
    } else {
        rot_z()
    }
}

/// A word of generators: every letter is 0, 1 or 2.
pub open spec fn is_generator_word(w: Seq<int>) -> bool {
    forall|i: int| 0 <= i < w.len() ==> 0 <= #[trigger] w[i] < 3
}

/// The identity composed with the generators of `w`, in order.
pub open spec fn word_product(w: Seq<int>) -> CubeRotation
    decreases w.len(),
{
    if w.len() == 0 {
        rot_identity()
    } else {
        compose_spec(word_product(w.drop_last()), generator(w.last()))
    }
}

proof fn lemma_compose_literal(a: CubeRotation, b: CubeRotation, c: CubeRotation)
    requires
        a.axes[0] < 3 && a.axes[1] < 3 && a.axes[2] < 3,
        c.axes[0] == b.axes[a.axes[0] as int],
        c.axes[1] == b.axes[a.axes[1] as int],
        c.axes[2] == b.axes[a.axes[2] as int],
        c.orientations[0] == a.orientations[0] * b.orientations[a.axes[0] as int],
        c.orientations[1] == a.orientations[1] * b.orientations[a.axes[1] as int],
        c.orientations[2] == a.orientations[2] * b.orientations[a.axes[2] as int],
    ensures
        compose_spec(a, b) == c,
{
    let t = compose_spec(a, b);
    assert(c.axes[0] == t.axes[0] && c.axes[1] == t.axes[1] && c.axes[2] == t.axes[2]);
    assert(c.orientations[0] == t.orientations[0] && c.orientations[1] == t.orientations[1]
        && c.orientations[2] == t.orientations[2]);
    assert(c.axes =~= t.axes);
    assert(c.orientations =~= t.orientations);
}

proof fn lemma_literal_proper(r: CubeRotation)
    requires
        is_axis_permutation(r.axes),
        is_unit(r.orientations[0]) && is_unit(r.orientations[1]) && is_unit(r.orientations[2]),
        r.determinant() == 1,
    ensures
        r.is_proper(),
{
}

/// The quarter turns about x, y and z generate all 24 cube rotations: each
/// is the product of a word of them.
pub proof fn lemma_generators_reach_all(r: CubeRotation)
    requires
        r.is_proper(),
    ensures
        exists|w: Seq<int>| is_generator_word(w) && word_product(w) == r,
{
    let k = r.index_spec();
    assert(0 <= k < 24);
    if k < 0 {
    } else if k == 0 {
        assert(word_product(Seq::<int>::empty()) == rotation_of([0, 1, 2], [1i8, 1i8, 1i8])) by {

        }
        lemma_literal_proper(rotation_of([0, 1, 2], [1i8, 1i8, 1i8]));
        lemma_index_identifies(r, rotation_of([0, 1, 2], [1i8, 1i8, 1i8]));
        assert(word_product(Seq::<int>::empty()) == r);
        assert(is_generator_word(Seq::<int>::empty()));
    } else if k == 1 {
        assert(word_product(seq![0int, 0int]) == rotation_of([0, 1, 2], [1i8, -1i8, -1i8])) by {
            assert(seq![0int].drop_last() =~= Seq::<int>::empty());
            assert(word_product(Seq::<int>::empty()) == rot_identity());
            lemma_compose_literal(rotation_of([0, 1, 2], [1i8, 1i8, 1i8]), rotation_of([0, 2, 1], [1i8, -1i8, 1i8]), rotation_of([0, 2, 1], [1i8, -1i8, 1i8]));
            assert(word_product(seq![0int]) == rotation_of([0, 2, 1], [1i8, -1i8, 1i8]));
            assert(seq![0int, 0int].drop_last() =~= seq![0int]);
            lemma_compose_literal(rotation_of([0, 2, 1], [1i8, -1i8, 1i8]), rotation_of([0, 2, 1], [1i8, -1i8, 1i8]), rotation_of([0, 1, 2], [1i8, -1i8, -1i8]));
            assert(word_product(seq![0int, 0int]) == rotation_of([0, 1, 2], [1i8, -1i8, -1i8]));
        }
        lemma_literal_proper(rotation_of([0, 1, 2], [1i8, -1i8, -1i8]));
        lemma_index_identifies(r, rotation_of([0, 1, 2], [1i8, -1i8, -1i8]));
        assert(word_product(seq![0int, 0int]) == r);
        assert(is_generator_word(seq![0int, 0int]));
    } else if k == 2 {
        assert(word_product(seq![1int, 1int]) == rotation_of([0, 1, 2], [-1i8, 1i8, -1i8])) by {
            assert(seq![1int].drop_last() =~= Seq::<int>::empty());
            assert(word_product(Seq::<int>::empty()) == rot_identity());
            lemma_compose_literal(rotation_of([0, 1, 2], [1i8, 1i8, 1i8]), rotation_of([2, 1, 0], [1i8, 1i8, -1i8]), rotation_of([2, 1, 0], [1i8, 1i8, -1i8]));
            assert(word_product(seq![1int]) == rotation_of([2, 1, 0], [1i8, 1i8, -1i8]));
            assert(seq![1int, 1int].drop_last() =~= seq![1int]);
            lemma_compose_literal(rotation_of([2, 1, 0], [1i8, 1i8, -1i8]), rotation_of([2, 1, 0], [1i8, 1i8, -1i8]), rotation_of([0, 1, 2], [-1i8, 1i8, -1i8]));
            assert(word_product(seq![1int, 1int]) == rotation_of([0, 1, 2], [-1i8, 1i8, -1i8]));
        }
        lemma_literal_proper(rotation_of([0, 1, 2], [-1i8, 1i8, -1i8]));
        lemma_index_identifies(r, rotation_of([0, 1, 2], [-1i8, 1i8, -1i8]));
        assert(word_product(seq![1int, 1int]) == r);
        assert(is_generator_word(seq![1int, 1int]));
    } else if k == 3 {
        assert(word_product(seq![2int, 2int]) == rotation_of([0, 1, 2], [-1i8, -1i8, 1i8])) by {
            assert(seq![2int].drop_last() =~= Seq::<int>::empty());
            assert(word_product(Seq::<int>::empty()) == rot_identity());
            lemma_compose_literal(rotation_of([0, 1, 2], [1i8, 1i8, 1i8]), rotation_of([1, 0, 2], [-1i8, 1i8, 1i8]), rotation_of([1, 0, 2], [-1i8, 1i8, 1i8]));
            assert(word_product(seq![2int]) == rotation_of([1, 0, 2], [-1i8, 1i8, 1i8]));
            assert(seq![2int, 2int].drop_last() =~= seq![2int]);
            lemma_compose_literal(rotation_of([1, 0, 2], [-1i8, 1i8, 1i8]), rotation_of([1, 0, 2], [-1i8, 1i8, 1i8]), rotation_of([0, 1, 2], [-1i8, -1i8, 1i8]));
            assert(word_product(seq![2int, 2int]) == rotation_of([0, 1, 2], [-1i8, -1i8, 1i8]));
        }
        lemma_literal_proper(rotation_of([0, 1, 2], [-1i8, -1i8, 1i8]));
        lemma_index_identifies(r, rotation_of([0, 1, 2], [-1i8, -1i8, 1i8]));
        assert(word_product(seq![2int, 2int]) == r);
        assert(is_generator_word(seq![2int, 2int]));
    } else if k == 4 {
        assert(word_product(seq![0int, 0int, 0int]) == rotation_of([0, 2, 1], [1i8, 1i8, -1i8])) by {
            assert(seq![0int].drop_last() =~= Seq::<int>::empty());
            assert(word_product(Seq::<int>::empty()) == rot_identity());
            lemma_compose_literal(rotation_of([0, 1, 2], [1i8, 1i8, 1i8]), rotation_of([0, 2, 1], [1i8, -1i8, 1i8]), rotation_of([0, 2, 1], [1i8, -1i8, 1i8]));
            assert(word_product(seq![0int]) == rotation_of([0, 2, 1], [1i8, -1i8, 1i8]));
            assert(seq![0int, 0int].drop_last() =~= seq![0int]);
            lemma_compose_literal(rotation_of([0, 2, 1], [1i8, -1i8, 1i8]), rotation_of([0, 2, 1], [1i8, -1i8, 1i8]), rotation_of([0, 1, 2], [1i8, -1i8, -1i8]));
            assert(word_product(seq![0int, 0int]) == rotation_of([0, 1, 2], [1i8, -1i8, -1i8]));
            assert(seq![0int, 0int, 0int].drop_last() =~= seq![0int, 0int]);
            lemma_compose_literal(rotation_of([0, 1, 2], [1i8, -1i8, -1i8]), rotation_of([0, 2, 1], [1i8, -1i8, 1i8]), rotation_of([0, 2, 1], [1i8, 1i8, -1i8]));
            assert(word_product(seq![0int, 0int, 0int]) == rotation_of([0, 2, 1], [1i8, 1i8, -1i8]));
        }
        lemma_literal_proper(rotation_of([0, 2, 1], [1i8, 1i8, -1i8]));
        lemma_index_identifies(r, rotation_of([0, 2, 1], [1i8, 1i8, -1i8]));
        assert(word_product(seq![0int, 0int, 0int]) == r);
        assert(is_generator_word(seq![0int, 0int, 0int]));
    } else if k == 5 {
        assert(word_product(seq![0int]) == rotation_of([0, 2, 1], [1i8, -1i8, 1i8])) by {
            assert(seq![0int].drop_last() =~= Seq::<int>::empty());
            assert(word_product(Seq::<int>::empty()) == rot_identity());
            lemma_compose_literal(rotation_of([0, 1, 2], [1i8, 1i8, 1i8]), rotation_of([0, 2, 1], [1i8, -1i8, 1i8]), rotation_of([0, 2, 1], [1i8, -1i8, 1i8]));
            assert(word_product(seq![0int]) == rotation_of([0, 2, 1], [1i8, -1i8, 1i8]));
        }
        lemma_literal_proper(rotation_of([0, 2, 1], [1i8, -1i8, 1i8]));
        lemma_index_identifies(r, rotation_of([0, 2, 1], [1i8, -1i8, 1i8]));
        assert(word_product(seq![0int]) == r);
        assert(is_generator_word(seq![0int]));
    } else if k == 6 {
        assert(word_product(seq![0int, 1int, 1int]) == rotation_of([0, 2, 1], [-1i8, 1i8, 1i8])) by {
            assert(seq![0int].drop_last() =~= Seq::<int>::empty());
            assert(word_product(Seq::<int>::empty()) == rot_identity());
            lemma_compose_literal(rotation_of([0, 1, 2], [1i8, 1i8, 1i8]), rotation_of([0, 2, 1], [1i8, -1i8, 1i8]), rotation_of([0, 2, 1], [1i8, -1i8, 1i8]));
            assert(word_product(seq![0int]) == rotation_of([0, 2, 1], [1i8, -1i8, 1i8]));
            assert(seq![0int, 1int].drop_last() =~= seq![0int]);
            lemma_compose_literal(rotation_of([0, 2, 1], [1i8, -1i8, 1i8]), rotation_of([2, 1, 0], [1i8, 1i8, -1i8]), rotation_of([2, 0, 1], [1i8, 1i8, 1i8]));
            assert(word_product(seq![0int, 1int]) == rotation_of([2, 0, 1], [1i8, 1i8, 1i8]));
            assert(seq![0int, 1int, 1int].drop_last() =~= seq![0int, 1int]);
            lemma_compose_literal(rotation_of([2, 0, 1], [1i8, 1i8, 1i8]), rotation_of([2, 1, 0], [1i8, 1i8, -1i8]), rotation_of([0, 2, 1], [-1i8, 1i8, 1i8]));
            assert(word_product(seq![0int, 1int, 1int]) == rotation_of([0, 2, 1], [-1i8, 1i8, 1i8]));
        }
        lemma_literal_proper(rotation_of([0, 2, 1], [-1i8, 1i8, 1i8]));
        lemma_index_identifies(r, rotation_of([0, 2, 1], [-1i8, 1i8, 1i8]));
        assert(word_product(seq![0int, 1int, 1int]) == r);
        assert(is_generator_word(seq![0int, 1int, 1int]));
    } else if k == 7 {
        assert(word_product(seq![0int, 2int, 2int]) == rotation_of([0, 2, 1], [-1i8, -1i8, -1i8])) by {
            assert(seq![0int].drop_last() =~= Seq::<int>::empty());
            assert(word_product(Seq::<int>::empty()) == rot_identity());
            lemma_compose_literal(rotation_of([0, 1, 2], [1i8, 1i8, 1i8]), rotation_of([0, 2, 1], [1i8, -1i8, 1i8]), rotation_of([0, 2, 1], [1i8, -1i8, 1i8]));
            assert(word_product(seq![0int]) == rotation_of([0, 2, 1], [1i8, -1i8, 1i8]));
            assert(seq![0int, 2int].drop_last() =~= seq![0int]);
            lemma_compose_literal(rotation_of([0, 2, 1], [1i8, -1i8, 1i8]), rotation_of([1, 0, 2], [-1i8, 1i8, 1i8]), rotation_of([1, 2, 0], [-1i8, -1i8, 1i8]));
            assert(word_product(seq![0int, 2int]) == rotation_of([1, 2, 0], [-1i8, -1i8, 1i8]));
            assert(seq![0int, 2int, 2int].drop_last() =~= seq![0int, 2int]);
            lemma_compose_literal(rotation_of([1, 2, 0], [-1i8, -1i8, 1i8]), rotation_of([1, 0, 2], [-1i8, 1i8, 1i8]), rotation_of([0, 2, 1], [-1i8, -1i8, -1i8]));
            assert(word_product(seq![0int, 2int, 2int]) == rotation_of([0, 2, 1], [-1i8, -1i8, -1i8]));
        }
        lemma_literal_proper(rotation_of([0, 2, 1], [-1i8, -1i8, -1i8]));
        lemma_index_identifies(r, rotation_of([0, 2, 1], [-1i8, -1i8, -1i8]));
        assert(word_product(seq![0int, 2int, 2int]) == r);
        assert(is_generator_word(seq![0int, 2int, 2int]));
    } else if k == 8 {
        assert(word_product(seq![0int, 1int, 0int]) == rotation_of([1, 0, 2], [1i8, 1i8, -1i8])) by {
            assert(seq![0int].drop_last() =~= Seq::<int>::empty());
            assert(word_product(Seq::<int>::empty()) == rot_identity());
            lemma_compose_literal(rotation_of([0, 1, 2], [1i8, 1i8, 1i8]), rotation_of([0, 2, 1], [1i8, -1i8, 1i8]), rotation_of([0, 2, 1], [1i8, -1i8, 1i8]));
            assert(word_product(seq![0int]) == rotation_of([0, 2, 1], [1i8, -1i8, 1i8]));
            assert(seq![0int, 1int].drop_last() =~= seq![0int]);
            lemma_compose_literal(rotation_of([0, 2, 1], [1i8, -1i8, 1i8]), rotation_of([2, 1, 0], [1i8, 1i8, -1i8]), rotation_of([2, 0, 1], [1i8, 1i8, 1i8]));
            assert(word_product(seq![0int, 1int]) == rotation_of([2, 0, 1], [1i8, 1i8, 1i8]));
            assert(seq![0int, 1int, 0int].drop_last() =~= seq![0int, 1int]);
            lemma_compose_literal(rotation_of([2, 0, 1], [1i8, 1i8, 1i8]), rotation_of([0, 2, 1], [1i8, -1i8, 1i8]), rotation_of([1, 0, 2], [1i8, 1i8, -1i8]));
            assert(word_product(seq![0int, 1int, 0int]) == rotation_of([1, 0, 2], [1i8, 1i8, -1i8]));
        }
        lemma_literal_proper(rotation_of([1, 0, 2], [1i8, 1i8, -1i8]));
        lemma_index_identifies(r, rotation_of([1, 0, 2], [1i8, 1i8, -1i8]));
        assert(word_product(seq![0int, 1int, 0int]) == r);
        assert(is_generator_word(seq![0int, 1int, 0int]));
    } else if k == 9 {
        assert(word_product(seq![2int, 2int, 2int]) == rotation_of([1, 0, 2], [1i8, -1i8, 1i8])) by {
            assert(seq![2int].drop_last() =~= Seq::<int>::empty());
            assert(word_product(Seq::<int>::empty()) == rot_identity());
            lemma_compose_literal(rotation_of([0, 1, 2], [1i8, 1i8, 1i8]), rotation_of([1, 0, 2], [-1i8, 1i8, 1i8]), rotation_of([1, 0, 2], [-1i8, 1i8, 1i8]));
            assert(word_product(seq![2int]) == rotation_of([1, 0, 2], [-1i8, 1i8, 1i8]));
            assert(seq![2int, 2int].drop_last() =~= seq![2int]);
            lemma_compose_literal(rotation_of([1, 0, 2], [-1i8, 1i8, 1i8]), rotation_of([1, 0, 2], [-1i8, 1i8, 1i8]), rotation_of([0, 1, 2], [-1i8, -1i8, 1i8]));
            assert(word_product(seq![2int, 2int]) == rotation_of([0, 1, 2], [-1i8, -1i8, 1i8]));
            assert(seq![2int, 2int, 2int].drop_last() =~= seq![2int, 2int]);
            lemma_compose_literal(rotation_of([0, 1, 2], [-1i8, -1i8, 1i8]), rotation_of([1, 0, 2], [-1i8, 1i8, 1i8]), rotation_of([1, 0, 2], [1i8, -1i8, 1i8]));
            assert(word_product(seq![2int, 2int, 2int]) == rotation_of([1, 0, 2], [1i8, -1i8, 1i8]));
        }
        lemma_literal_proper(rotation_of([1, 0, 2], [1i8, -1i8, 1i8]));
        lemma_index_identifies(r, rotation_of([1, 0, 2], [1i8, -1i8, 1i8]));
        assert(word_product(seq![2int, 2int, 2int]) == r);
        assert(is_generator_word(seq![2int, 2int, 2int]));
    } else if k == 10 {
        assert(word_product(seq![2int]) == rotation_of([1, 0, 2], [-1i8, 1i8, 1i8])) by {
            assert(seq![2int].drop_last() =~= Seq::<int>::empty());
            assert(word_product(Seq::<int>::empty()) == rot_identity());
            lemma_compose_literal(rotation_of([0, 1, 2], [1i8, 1i8, 1i8]), rotation_of([1, 0, 2], [-1i8, 1i8, 1i8]), rotation_of([1, 0, 2], [-1i8, 1i8, 1i8]));
            assert(word_product(seq![2int]) == rotation_of([1, 0, 2], [-1i8, 1i8, 1i8]));
        }
        lemma_literal_proper(rotation_of([1, 0, 2], [-1i8, 1i8, 1i8]));
        lemma_index_identifies(r, rotation_of([1, 0, 2], [-1i8, 1i8, 1i8]));
        assert(word_product(seq![2int]) == r);
        assert(is_generator_word(seq![2int]));
    } else if k == 11 {
        assert(word_product(seq![0int, 0int, 2int]) == rotation_of([1, 0, 2], [-1i8, -1i8, -1i8])) by {
            assert(seq![0int].drop_last() =~= Seq::<int>::empty());
            assert(word_product(Seq::<int>::empty()) == rot_identity());
            lemma_compose_literal(rotation_of([0, 1, 2], [1i8, 1i8, 1i8]), rotation_of([0, 2, 1], [1i8, -1i8, 1i8]), rotation_of([0, 2, 1], [1i8, -1i8, 1i8]));
            assert(word_product(seq![0int]) == rotation_of([0, 2, 1], [1i8, -1i8, 1i8]));
            assert(seq![0int, 0int].drop_last() =~= seq![0int]);
            lemma_compose_literal(rotation_of([0, 2, 1], [1i8, -1i8, 1i8]), rotation_of([0, 2, 1], [1i8, -1i8, 1i8]), rotation_of([0, 1, 2], [1i8, -1i8, -1i8]));
            assert(word_product(seq![0int, 0int]) == rotation_of([0, 1, 2], [1i8, -1i8, -1i8]));
            assert(seq![0int, 0int, 2int].drop_last() =~= seq![0int, 0int]);
            lemma_compose_literal(rotation_of([0, 1, 2], [1i8, -1i8, -1i8]), rotation_of([1, 0, 2], [-1i8, 1i8, 1i8]), rotation_of([1, 0, 2], [-1i8, -1i8, -1i8]));
            assert(word_product(seq![0int, 0int, 2int]) == rotation_of([1, 0, 2], [-1i8, -1i8, -1i8]));
        }
        lemma_literal_proper(rotation_of([1, 0, 2], [-1i8, -1i8, -1i8]));
        lemma_index_identifies(r, rotation_of([1, 0, 2], [-1i8, -1i8, -1i8]));
        assert(word_product(seq![0int, 0int, 2int]) == r);
        assert(is_generator_word(seq![0int, 0int, 2int]));
    } else if k == 12 {
        assert(word_product(seq![0int, 0int, 1int, 0int]) == rotation_of([1, 2, 0], [1i8, 1i8, 1i8])) by {
            assert(seq![0int].drop_last() =~= Seq::<int>::empty());
            assert(word_product(Seq::<int>::empty()) == rot_identity());
            lemma_compose_literal(rotation_of([0, 1, 2], [1i8, 1i8, 1i8]), rotation_of([0, 2, 1], [1i8, -1i8, 1i8]), rotation_of([0, 2, 1], [1i8, -1i8, 1i8]));
            assert(word_product(seq![0int]) == rotation_of([0, 2, 1], [1i8, -1i8, 1i8]));
            assert(seq![0int, 0int].drop_last() =~= seq![0int]);
            lemma_compose_literal(rotation_of([0, 2, 1], [1i8, -1i8, 1i8]), rotation_of([0, 2, 1], [1i8, -1i8, 1i8]), rotation_of([0, 1, 2], [1i8, -1i8, -1i8]));
            assert(word_product(seq![0int, 0int]) == rotation_of([0, 1, 2], [1i8, -1i8, -1i8]));
            assert(seq![0int, 0int, 1int].drop_last() =~= seq![0int, 0int]);
            lemma_compose_literal(rotation_of([0, 1, 2], [1i8, -1i8, -1i8]), rotation_of([2, 1, 0], [1i8, 1i8, -1i8]), rotation_of([2, 1, 0], [1i8, -1i8, 1i8]));
            assert(word_product(seq![0int, 0int, 1int]) == rotation_of([2, 1, 0], [1i8, -1i8, 1i8]));
            assert(seq![0int, 0int, 1int, 0int].drop_last() =~= seq![0int, 0int, 1int]);
            lemma_compose_literal(rotation_of([2, 1, 0], [1i8, -1i8, 1i8]), rotation_of([0, 2, 1], [1i8, -1i8, 1i8]), rotation_of([1, 2, 0], [1i8, 1i8, 1i8]));
            assert(word_product(seq![0int, 0int, 1int, 0int]) == rotation_of([1, 2, 0], [1i8, 1i8, 1i8]));
        }
        lemma_literal_proper(rotation_of([1, 2, 0], [1i8, 1i8, 1i8]));
        lemma_index_identifies(r, rotation_of([1, 2, 0], [1i8, 1i8, 1i8]));
        assert(word_product(seq![0int, 0int, 1int, 0int]) == r);
        assert(is_generator_word(seq![0int, 0int, 1int, 0int]));
    } else if k == 13 {
        assert(word_product(seq![1int, 0int]) == rotation_of([1, 2, 0], [1i8, -1i8, -1i8])) by {
            assert(seq![1int].drop_last() =~= Seq::<int>::empty());
            assert(word_product(Seq::<int>::empty()) == rot_identity());
            lemma_compose_literal(rotation_of([0, 1, 2], [1i8, 1i8, 1i8]), rotation_of([2, 1, 0], [1i8, 1i8, -1i8]), rotation_of([2, 1, 0], [1i8, 1i8, -1i8]));
            assert(word_product(seq![1int]) == rotation_of([2, 1, 0], [1i8, 1i8, -1i8]));
            assert(seq![1int, 0int].drop_last() =~= seq![1int]);
            lemma_compose_literal(rotation_of([2, 1, 0], [1i8, 1i8, -1i8]), rotation_of([0, 2, 1], [1i8, -1i8, 1i8]), rotation_of([1, 2, 0], [1i8, -1i8, -1i8]));
            assert(word_product(seq![1int, 0int]) == rotation_of([1, 2, 0], [1i8, -1i8, -1i8]));
        }
        lemma_literal_proper(rotation_of([1, 2, 0], [1i8, -1i8, -1i8]));
        lemma_index_identifies(r, rotation_of([1, 2, 0], [1i8, -1i8, -1i8]));
        assert(word_product(seq![1int, 0int]) == r);
        assert(is_generator_word(seq![1int, 0int]));
    } else if k == 14 {
        assert(word_product(seq![2int, 1int]) == rotation_of([1, 2, 0], [-1i8, 1i8, -1i8])) by {
            assert(seq![2int].drop_last() =~= Seq::<int>::empty());
            assert(word_product(Seq::<int>::empty()) == rot_identity());
            lemma_compose_literal(rotation_of([0, 1, 2], [1i8, 1i8, 1i8]), rotation_of([1, 0, 2], [-1i8, 1i8, 1i8]), rotation_of([1, 0, 2], [-1i8, 1i8, 1i8]));
            assert(word_product(seq![2int]) == rotation_of([1, 0, 2], [-1i8, 1i8, 1i8]));
            assert(seq![2int, 1int].drop_last() =~= seq![2int]);
            lemma_compose_literal(rotation_of([1, 0, 2], [-1i8, 1i8, 1i8]), rotation_of([2, 1, 0], [1i8, 1i8, -1i8]), rotation_of([1, 2, 0], [-1i8, 1i8, -1i8]));
            assert(word_product(seq![2int, 1int]) == rotation_of([1, 2, 0], [-1i8, 1i8, -1i8]));
        }
        lemma_literal_proper(rotation_of([1, 2, 0], [-1i8, 1i8, -1i8]));
        lemma_index_identifies(r, rotation_of([1, 2, 0], [-1i8, 1i8, -1i8]));
        assert(word_product(seq![2int, 1int]) == r);
        assert(is_generator_word(seq![2int, 1int]));
    } else if k == 15 {
        assert(word_product(seq![0int, 2int]) == rotation_of([1, 2, 0], [-1i8, -1i8, 1i8])) by {
            assert(seq![0int].drop_last() =~= Seq::<int>::empty());
            assert(word_product(Seq::<int>::empty()) == rot_identity());
            lemma_compose_literal(rotation_of([0, 1, 2], [1i8, 1i8, 1i8]), rotation_of([0, 2, 1], [1i8, -1i8, 1i8]), rotation_of([0, 2, 1], [1i8, -1i8, 1i8]));
            assert(word_product(seq![0int]) == rotation_of([0, 2, 1], [1i8, -1i8, 1i8]));
            assert(seq![0int, 2int].drop_last() =~= seq![0int]);
            lemma_compose_literal(rotation_of([0, 2, 1], [1i8, -1i8, 1i8]), rotation_of([1, 0, 2], [-1i8, 1i8, 1i8]), rotation_of([1, 2, 0], [-1i8, -1i8, 1i8]));
            assert(word_product(seq![0int, 2int]) == rotation_of([1, 2, 0], [-1i8, -1i8, 1i8]));
        }
        lemma_literal_proper(rotation_of([1, 2, 0], [-1i8, -1i8, 1i8]));
        lemma_index_identifies(r, rotation_of([1, 2, 0], [-1i8, -1i8, 1i8]));
        assert(word_product(seq![0int, 2int]) == r);
        assert(is_generator_word(seq![0int, 2int]));
    } else if k == 16 {
        assert(word_product(seq![0int, 1int]) == rotation_of([2, 0, 1], [1i8, 1i8, 1i8])) by {
            assert(seq![0int].drop_last() =~= Seq::<int>::empty());
            assert(word_product(Seq::<int>::empty()) == rot_identity());
            lemma_compose_literal(rotation_of([0, 1, 2], [1i8, 1i8, 1i8]), rotation_of([0, 2, 1], [1i8, -1i8, 1i8]), rotation_of([0, 2, 1], [1i8, -1i8, 1i8]));
            assert(word_product(seq![0int]) == rotation_of([0, 2, 1], [1i8, -1i8, 1i8]));
            assert(seq![0int, 1int].drop_last() =~= seq![0int]);
            lemma_compose_literal(rotation_of([0, 2, 1], [1i8, -1i8, 1i8]), rotation_of([2, 1, 0], [1i8, 1i8, -1i8]), rotation_of([2, 0, 1], [1i8, 1i8, 1i8]));
            assert(word_product(seq![0int, 1int]) == rotation_of([2, 0, 1], [1i8, 1i8, 1i8]));
        }
        lemma_literal_proper(rotation_of([2, 0, 1], [1i8, 1i8, 1i8]));
        lemma_index_identifies(r, rotation_of([2, 0, 1], [1i8, 1i8, 1i8]));
        assert(word_product(seq![0int, 1int]) == r);
        assert(is_generator_word(seq![0int, 1int]));
    } else if k == 17 {
        assert(word_product(seq![0int, 0int, 0int, 1int]) == rotation_of([2, 0, 1], [1i8, -1i8, -1i8])) by {
            assert(seq![0int].drop_last() =~= Seq::<int>::empty());
            assert(word_product(Seq::<int>::empty()) == rot_identity());
            lemma_compose_literal(rotation_of([0, 1, 2], [1i8, 1i8, 1i8]), rotation_of([0, 2, 1], [1i8, -1i8, 1i8]), rotation_of([0, 2, 1], [1i8, -1i8, 1i8]));
            assert(word_product(seq![0int]) == rotation_of([0, 2, 1], [1i8, -1i8, 1i8]));
            assert(seq![0int, 0int].drop_last() =~= seq![0int]);
            lemma_compose_literal(rotation_of([0, 2, 1], [1i8, -1i8, 1i8]), rotation_of([0, 2, 1], [1i8, -1i8, 1i8]), rotation_of([0, 1, 2], [1i8, -1i8, -1i8]));
            assert(word_product(seq![0int, 0int]) == rotation_of([0, 1, 2], [1i8, -1i8, -1i8]));
            assert(seq![0int, 0int, 0int].drop_last() =~= seq![0int, 0int]);
            lemma_compose_literal(rotation_of([0, 1, 2], [1i8, -1i8, -1i8]), rotation_of([0, 2, 1], [1i8, -1i8, 1i8]), rotation_of([0, 2, 1], [1i8, 1i8, -1i8]));
            assert(word_product(seq![0int, 0int, 0int]) == rotation_of([0, 2, 1], [1i8, 1i8, -1i8]));
            assert(seq![0int, 0int, 0int, 1int].drop_last() =~= seq![0int, 0int, 0int]);
            lemma_compose_literal(rotation_of([0, 2, 1], [1i8, 1i8, -1i8]), rotation_of([2, 1, 0], [1i8, 1i8, -1i8]), rotation_of([2, 0, 1], [1i8, -1i8, -1i8]));
            assert(word_product(seq![0int, 0int, 0int, 1int]) == rotation_of([2, 0, 1], [1i8, -1i8, -1i8]));
        }
        lemma_literal_proper(rotation_of([2, 0, 1], [1i8, -1i8, -1i8]));
        lemma_index_identifies(r, rotation_of([2, 0, 1], [1i8, -1i8, -1i8]));
        assert(word_product(seq![0int, 0int, 0int, 1int]) == r);
        assert(is_generator_word(seq![0int, 0int, 0int, 1int]));
    } else if k == 18 {
        assert(word_product(seq![0int, 1int, 0int, 0int]) == rotation_of([2, 0, 1], [-1i8, 1i8, -1i8])) by {
            assert(seq![0int].drop_last() =~= Seq::<int>::empty());
            assert(word_product(Seq::<int>::empty()) == rot_identity());
            lemma_compose_literal(rotation_of([0, 1, 2], [1i8, 1i8, 1i8]), rotation_of([0, 2, 1], [1i8, -1i8, 1i8]), rotation_of([0, 2, 1], [1i8, -1i8, 1i8]));
            assert(word_product(seq![0int]) == rotation_of([0, 2, 1], [1i8, -1i8, 1i8]));
            assert(seq![0int, 1int].drop_last() =~= seq![0int]);
            lemma_compose_literal(rotation_of([0, 2, 1], [1i8, -1i8, 1i8]), rotation_of([2, 1, 0], [1i8, 1i8, -1i8]), rotation_of([2, 0, 1], [1i8, 1i8, 1i8]));
            assert(word_product(seq![0int, 1int]) == rotation_of([2, 0, 1], [1i8, 1i8, 1i8]));
            assert(seq![0int, 1int, 0int].drop_last() =~= seq![0int, 1int]);
            lemma_compose_literal(rotation_of([2, 0, 1], [1i8, 1i8, 1i8]), rotation_of([0, 2, 1], [1i8, -1i8, 1i8]), rotation_of([1, 0, 2], [1i8, 1i8, -1i8]));
            assert(word_product(seq![0int, 1int, 0int]) == rotation_of([1, 0, 2], [1i8, 1i8, -1i8]));
            assert(seq![0int, 1int, 0int, 0int].drop_last() =~= seq![0int, 1int, 0int]);
            lemma_compose_literal(rotation_of([1, 0, 2], [1i8, 1i8, -1i8]), rotation_of([0, 2, 1], [1i8, -1i8, 1i8]), rotation_of([2, 0, 1], [-1i8, 1i8, -1i8]));
            assert(word_product(seq![0int, 1int, 0int, 0int]) == rotation_of([2, 0, 1], [-1i8, 1i8, -1i8]));
        }
        lemma_literal_proper(rotation_of([2, 0, 1], [-1i8, 1i8, -1i8]));
        lemma_index_identifies(r, rotation_of([2, 0, 1], [-1i8, 1i8, -1i8]));
        assert(word_product(seq![0int, 1int, 0int, 0int]) == r);
        assert(is_generator_word(seq![0int, 1int, 0int, 0int]));
    } else if k == 19 {
        assert(word_product(seq![0int, 1int, 1int, 1int]) == rotation_of([2, 0, 1], [-1i8, -1i8, 1i8])) by {
            assert(seq![0int].drop_last() =~= Seq::<int>::empty());
            assert(word_product(Seq::<int>::empty()) == rot_identity());
            lemma_compose_literal(rotation_of([0, 1, 2], [1i8, 1i8, 1i8]), rotation_of([0, 2, 1], [1i8, -1i8, 1i8]), rotation_of([0, 2, 1], [1i8, -1i8, 1i8]));
            assert(word_product(seq![0int]) == rotation_of([0, 2, 1], [1i8, -1i8, 1i8]));
            assert(seq![0int, 1int].drop_last() =~= seq![0int]);
            lemma_compose_literal(rotation_of([0, 2, 1], [1i8, -1i8, 1i8]), rotation_of([2, 1, 0], [1i8, 1i8, -1i8]), rotation_of([2, 0, 1], [1i8, 1i8, 1i8]));
            assert(word_product(seq![0int, 1int]) == rotation_of([2, 0, 1], [1i8, 1i8, 1i8]));
            assert(seq![0int, 1int, 1int].drop_last() =~= seq![0int, 1int]);
            lemma_compose_literal(rotation_of([2, 0, 1], [1i8, 1i8, 1i8]), rotation_of([2, 1, 0], [1i8, 1i8, -1i8]), rotation_of([0, 2, 1], [-1i8, 1i8, 1i8]));
            assert(word_product(seq![0int, 1int, 1int]) == rotation_of([0, 2, 1], [-1i8, 1i8, 1i8]));
            assert(seq![0int, 1int, 1int, 1int].drop_last() =~= seq![0int, 1int, 1int]);
            lemma_compose_literal(rotation_of([0, 2, 1], [-1i8, 1i8, 1i8]), rotation_of([2, 1, 0], [1i8, 1i8, -1i8]), rotation_of([2, 0, 1], [-1i8, -1i8, 1i8]));
            assert(word_product(seq![0int, 1int, 1int, 1int]) == rotation_of([2, 0, 1], [-1i8, -1i8, 1i8]));
        }
        lemma_literal_proper(rotation_of([2, 0, 1], [-1i8, -1i8, 1i8]));
        lemma_index_identifies(r, rotation_of([2, 0, 1], [-1i8, -1i8, 1i8]));
        assert(word_product(seq![0int, 1int, 1int, 1int]) == r);
        assert(is_generator_word(seq![0int, 1int, 1int, 1int]));
    } else if k == 20 {
        assert(word_product(seq![1int]) == rotation_of([2, 1, 0], [1i8, 1i8, -1i8])) by {
            assert(seq![1int].drop_last() =~= Seq::<int>::empty());
            assert(word_product(Seq::<int>::empty()) == rot_identity());
            lemma_compose_literal(rotation_of([0, 1, 2], [1i8, 1i8, 1i8]), rotation_of([2, 1, 0], [1i8, 1i8, -1i8]), rotation_of([2, 1, 0], [1i8, 1i8, -1i8]));
            assert(word_product(seq![1int]) == rotation_of([2, 1, 0], [1i8, 1i8, -1i8]));
        }
        lemma_literal_proper(rotation_of([2, 1, 0], [1i8, 1i8, -1i8]));
        lemma_index_identifies(r, rotation_of([2, 1, 0], [1i8, 1i8, -1i8]));
        assert(word_product(seq![1int]) == r);
        assert(is_generator_word(seq![1int]));
    } else if k == 21 {
        assert(word_product(seq![0int, 0int, 1int]) == rotation_of([2, 1, 0], [1i8, -1i8, 1i8])) by {
            assert(seq![0int].drop_last() =~= Seq::<int>::empty());
            assert(word_product(Seq::<int>::empty()) == rot_identity());
            lemma_compose_literal(rotation_of([0, 1, 2], [1i8, 1i8, 1i8]), rotation_of([0, 2, 1], [1i8, -1i8, 1i8]), rotation_of([0, 2, 1], [1i8, -1i8, 1i8]));
            assert(word_product(seq![0int]) == rotation_of([0, 2, 1], [1i8, -1i8, 1i8]));
            assert(seq![0int, 0int].drop_last() =~= seq![0int]);
            lemma_compose_literal(rotation_of([0, 2, 1], [1i8, -1i8, 1i8]), rotation_of([0, 2, 1], [1i8, -1i8, 1i8]), rotation_of([0, 1, 2], [1i8, -1i8, -1i8]));
            assert(word_product(seq![0int, 0int]) == rotation_of([0, 1, 2], [1i8, -1i8, -1i8]));
            assert(seq![0int, 0int, 1int].drop_last() =~= seq![0int, 0int]);
            lemma_compose_literal(rotation_of([0, 1, 2], [1i8, -1i8, -1i8]), rotation_of([2, 1, 0], [1i8, 1i8, -1i8]), rotation_of([2, 1, 0], [1i8, -1i8, 1i8]));
            assert(word_product(seq![0int, 0int, 1int]) == rotation_of([2, 1, 0], [1i8, -1i8, 1i8]));
        }
        lemma_literal_proper(rotation_of([2, 1, 0], [1i8, -1i8, 1i8]));
        lemma_index_identifies(r, rotation_of([2, 1, 0], [1i8, -1i8, 1i8]));
        assert(word_product(seq![0int, 0int, 1int]) == r);
        assert(is_generator_word(seq![0int, 0int, 1int]));
    } else if k == 22 {
        assert(word_product(seq![1int, 1int, 1int]) == rotation_of([2, 1, 0], [-1i8, 1i8, 1i8])) by {
            assert(seq![1int].drop_last() =~= Seq::<int>::empty());
            assert(word_product(Seq::<int>::empty()) == rot_identity());
            lemma_compose_literal(rotation_of([0, 1, 2], [1i8, 1i8, 1i8]), rotation_of([2, 1, 0], [1i8, 1i8, -1i8]), rotation_of([2, 1, 0], [1i8, 1i8, -1i8]));
            assert(word_product(seq![1int]) == rotation_of([2, 1, 0], [1i8, 1i8, -1i8]));
            assert(seq![1int, 1int].drop_last() =~= seq![1int]);
            lemma_compose_literal(rotation_of([2, 1, 0], [1i8, 1i8, -1i8]), rotation_of([2, 1, 0], [1i8, 1i8, -1i8]), rotation_of([0, 1, 2], [-1i8, 1i8, -1i8]));
            assert(word_product(seq![1int, 1int]) == rotation_of([0, 1, 2], [-1i8, 1i8, -1i8]));
            assert(seq![1int, 1int, 1int].drop_last() =~= seq![1int, 1int]);
            lemma_compose_literal(rotation_of([0, 1, 2], [-1i8, 1i8, -1i8]), rotation_of([2, 1, 0], [1i8, 1i8, -1i8]), rotation_of([2, 1, 0], [-1i8, 1i8, 1i8]));
            assert(word_product(seq![1int, 1int, 1int]) == rotation_of([2, 1, 0], [-1i8, 1i8, 1i8]));
        }
        lemma_literal_proper(rotation_of([2, 1, 0], [-1i8, 1i8, 1i8]));
        lemma_index_identifies(r, rotation_of([2, 1, 0], [-1i8, 1i8, 1i8]));
        assert(word_product(seq![1int, 1int, 1int]) == r);
        assert(is_generator_word(seq![1int, 1int, 1int]));
    } else if k == 23 {
        assert(word_product(seq![1int, 0int, 0int]) == rotation_of([2, 1, 0], [-1i8, -1i8, -1i8])) by {
            assert(seq![1int].drop_last() =~= Seq::<int>::empty());
            assert(word_product(Seq::<int>::empty()) == rot_identity());
            lemma_compose_literal(rotation_of([0, 1, 2], [1i8, 1i8, 1i8]), rotation_of([2, 1, 0], [1i8, 1i8, -1i8]), rotation_of([2, 1, 0], [1i8, 1i8, -1i8]));
            assert(word_product(seq![1int]) == rotation_of([2, 1, 0], [1i8, 1i8, -1i8]));
            assert(seq![1int, 0int].drop_last() =~= seq![1int]);
            lemma_compose_literal(rotation_of([2, 1, 0], [1i8, 1i8, -1i8]), rotation_of([0, 2, 1], [1i8, -1i8, 1i8]), rotation_of([1, 2, 0], [1i8, -1i8, -1i8]));
            assert(word_product(seq![1int, 0int]) == rotation_of([1, 2, 0], [1i8, -1i8, -1i8]));
            assert(seq![1int, 0int, 0int].drop_last() =~= seq![1int, 0int]);
            lemma_compose_literal(rotation_of([1, 2, 0], [1i8, -1i8, -1i8]), rotation_of([0, 2, 1], [1i8, -1i8, 1i8]), rotation_of([2, 1, 0], [-1i8, -1i8, -1i8]));
            assert(word_product(seq![1int, 0int, 0int]) == rotation_of([2, 1, 0], [-1i8, -1i8, -1i8]));
        }
        lemma_literal_proper(rotation_of([2, 1, 0], [-1i8, -1i8, -1i8]));
        lemma_index_identifies(r, rotation_of([2, 1, 0], [-1i8, -1i8, -1i8]));
        assert(word_product(seq![1int, 0int, 0int]) == r);
        assert(is_generator_word(seq![1int, 0int, 0int]));
    }
}

} // verus!
