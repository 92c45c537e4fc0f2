use vstd::prelude::*;

verus! {

/// Coordinates are fixed-point numbers: this many units make one unit of length.
pub const UNITS_PER_LENGTH: i64 = 1000000;

/// The largest magnitude a coordinate may have, so that sums and dot
/// products of coordinates stay within machine integers.
pub const COORD_LIMIT: i64 = 4000000000000000000;

/// A point of space, each coordinate counted in millionths of a unit of length.
#[derive(Clone, Copy, Debug, PartialEq, Eq)]
pub struct Vertex(pub [i64; 3]);

impl View for Vertex {
    type V = Seq<int>;

    open spec fn view(&self) -> Seq<int> {
        seq![self.0[0] as int, self.0[1] as int, self.0[2] as int]
    }
}

/// A point whose three coordinates lie within `limit` in magnitude.
pub open spec fn within(p: Seq<int>, limit: int) -> bool {
    &&& p.len() == 3
    &&& -limit <= p[0] <= limit
    &&& -limit <= p[1] <= limit
    &&& -limit <= p[2] <= limit
}

/// A point whose three coordinates lie within `COORD_LIMIT` in magnitude.
pub open spec fn in_coord_range(p: Seq<int>) -> bool {
    within(p, COORD_LIMIT as int)
}

pub open spec fn dot_spec(p: Seq<int>, q: Seq<int>) -> int {
    p[0] * q[0] + p[1] * q[1] + p[2] * q[2]
}

/// The sum of the squares of the coordinates.
pub open spec fn norm_squared(p: Seq<int>) -> int {
    dot_spec(p, p)
}

impl Vertex {
    pub fn dot(&self, other: &Vertex) -> (r: i128)
        requires
            in_coord_range(self@),
            in_coord_range(other@),
        ensures
            r == dot_spec(self@, other@),
    {
        proof {
            lemma_product_bound(self.0[0] as int, other.0[0] as int);
            lemma_product_bound(self.0[1] as int, other.0[1] as int);
            lemma_product_bound(self.0[2] as int, other.0[2] as int);
        }
        let x = (self.0[0] as i128) * (other.0[0] as i128);
        let y = (self.0[1] as i128) * (other.0[1] as i128);
        let z = (self.0[2] as i128) * (other.0[2] as i128);
        x + y + z
    }
}

proof fn lemma_product_bound(a: int, b: int)
    requires
        -COORD_LIMIT <= a <= COORD_LIMIT,
        -COORD_LIMIT <= b <= COORD_LIMIT,
    ensures
        -COORD_LIMIT * COORD_LIMIT <= a * b <= COORD_LIMIT * COORD_LIMIT,
{
    assert(-COORD_LIMIT * COORD_LIMIT <= a * b <= COORD_LIMIT * COORD_LIMIT) by (nonlinear_arith)
        requires
            -COORD_LIMIT <= a <= COORD_LIMIT,
            -COORD_LIMIT <= b <= COORD_LIMIT,
    ;
}

/// A polygon of a mesh, given by the positions of its corners in the
/// mesh's vertex list.
#[derive(Clone, Copy, Debug, PartialEq, Eq)]
pub enum Face {
    Triangle([usize; 3]),
    Quad([usize; 4]),
}

impl View for Face {
    type V = Seq<int>;

    open spec fn view(&self) -> Seq<int> {
        match *self {
            Face::Triangle(a) => seq![a[0] as int, a[1] as int, a[2] as int],
            Face::Quad(a) => seq![a[0] as int, a[1] as int, a[2] as int, a[3] as int],
        }
    }
}

} // verus!
