use vstd::prelude::*;

use crate::mesh::{empty_mesh, face_in_bounds, Mesh, MeshView};
use crate::primitives::{within, Face, Vertex, COORD_LIMIT};

verus! {

/// The largest magnitude of a coordinate that the text format reads, in
/// fixed-point units: the whole coordinate range, so that every well-formed
/// mesh can be written and read back.
pub const MAX_COORD_TEXT: i64 = 4000000000000000000;

/// Why a text could not be read as a mesh.
#[derive(Clone, Copy, Debug, PartialEq, Eq)]
pub enum ParseError {
    /// A `v` line without exactly three coordinates.
    VertexArity,
    /// A coordinate that is not a decimal number, optionally with an
    /// exponent, within `MAX_COORD_TEXT`.
    BadCoordinate,
    /// An `f` line with fewer than three or more than four corners.
    FaceArity,
    /// A corner whose first field is not a positive integer.
    BadFaceIndex,
    /// A corner that names no vertex of the text.
    IndexOutOfRange,
}

/// `s` cut at every `sep`: the pieces between separators, empty ones
/// included; there is always at least one piece.
pub open spec fn split(s: Seq<u8>, sep: u8) -> Seq<Seq<u8>>
    decreases s.len(),
{
    if s.len() == 0 {
        seq![Seq::empty()]
    } else {
        let pieces = split(s.drop_last(), sep);
        if s.last() == sep {
            pieces.push(Seq::empty())
        } else {
            pieces.update(pieces.len() - 1, pieces.last().push(s.last()))
        }
    }
}

pub proof fn lemma_split_nonempty(s: Seq<u8>, sep: u8)
    ensures
        split(s, sep).len() >= 1,
    decreases s.len(),
{
    if s.len() > 0 {
        lemma_split_nonempty(s.drop_last(), sep);
    }
}

pub open spec fn is_digit(b: u8) -> bool {
    48 <= b <= 57
}

pub open spec fn all_digits(s: Seq<u8>) -> bool {
    forall|i: int| 0 <= i < s.len() ==> is_digit(#[trigger] s[i])
}

/// The value of a string of decimal digits; zero for the empty string.
pub open spec fn digits_value(s: Seq<u8>) -> int
    decreases s.len(),
{
    if s.len() == 0 {
        0
    } else {
        digits_value(s.drop_last()) * 10 + (s.last() - 48)
    }
}

pub proof fn lemma_digits_value_grows(s: Seq<u8>, i: int)
    requires
        all_digits(s),
        0 <= i <= s.len(),
    ensures
        0 <= digits_value(s.take(i)) <= digits_value(s),
    decreases s.len(),
{
    if s.len() > 0 {
        if i == s.len() {
            assert(s.take(i) =~= s);
            lemma_digits_value_grows(s.drop_last(), i - 1);
            assert(s.drop_last().take(i - 1) =~= s.drop_last());
        } else {
            lemma_digits_value_grows(s.drop_last(), i);
            assert(s.drop_last().take(i) =~= s.take(i));
            lemma_digits_value_grows(s.drop_last(), s.len() - 1);
            assert(s.drop_last().take(s.len() - 1) =~= s.drop_last());
        }
    }
}

pub open spec fn pow10(e: nat) -> int
    decreases e,
{
    if e == 0 {
        1
    } else {
        10 * pow10((e - 1) as nat)
    }
}

/// The digits after the sixth after a decimal point make at least half a
/// millionth: the seventh is 5 or more.
pub open spec fn rounds_up(f: Seq<u8>) -> bool {
    f.len() > 6 && f[6] >= 53
}

/// The digits after a decimal point as millionths, to the nearest one: the
/// first six digits, as many zeros appended as make six, and one more where
/// the rest is at least half a millionth.
pub open spec fn fraction_millionths(f: Seq<u8>) -> int {
    let k = if f.len() < 6 {
        f.len()
    } else {
        6
    };
    digits_value(f.take(k as int)) * pow10((6 - k) as nat) + (if rounds_up(f) {
        1int
    } else {
        0int
    })
}

/// Position of the first `b` in `s`, or the length of `s` where there is none.
pub open spec fn find(s: Seq<u8>, b: u8) -> int
    decreases s.len(),
{
    if s.len() == 0 {
        0
    } else if s[0] == b {
        0
    } else {
        1 + find(s.drop_first(), b)
    }
}

/// The token of a coordinate without its sign, if any.
pub open spec fn coord_unsigned(t: Seq<u8>) -> Seq<u8> {
    if t.len() > 0 && (t[0] == 45 || t[0] == 43) {
        t.drop_first()
    } else {
        t
    }
}

/// The digits before the decimal point.
pub open spec fn coord_whole(t: Seq<u8>) -> Seq<u8> {
    coord_unsigned(t).take(find(coord_unsigned(t), 46))
}

/// The digits after the decimal point; none where there is no point.
pub open spec fn coord_fraction(t: Seq<u8>) -> Seq<u8> {
    let u = coord_unsigned(t);
    if find(u, 46) < u.len() {
        u.skip(find(u, 46) + 1)
    } else {
        Seq::empty()
    }
}

/// A coordinate without exponent: an optional sign, digits, and optionally
/// a point and more digits, with at least one digit in all. Its value is in
/// millionths, rounded to the nearest one (a half goes up).
pub open spec fn decimal_value(t: Seq<u8>) -> Option<int> {
    let whole = coord_whole(t);
    let fraction = coord_fraction(t);
    let magnitude = digits_value(whole) * 1000000 + fraction_millionths(fraction);
    if all_digits(whole) && all_digits(fraction) && whole.len() + fraction.len() > 0
        && magnitude <= MAX_COORD_TEXT {
        Some(
            if t.len() > 0 && t[0] == 45 {
                -magnitude
            } else {
                magnitude
            },
        )
    } else {
        None
    }
}

/// Position of the first exponent mark (`e` or `E`) in `t`, or its length.
pub open spec fn exp_mark(t: Seq<u8>) -> int
    decreases t.len(),
{
    if t.len() == 0 {
        0
    } else if t[0] == 101 || t[0] == 69 {
        0
    } else {
        1 + exp_mark(t.drop_first())
    }
}

/// The digits of an exponent, without its sign.
pub open spec fn exponent_digits(x: Seq<u8>) -> Seq<u8> {
    if x.len() > 0 && (x[0] == 45 || x[0] == 43) {
        x.drop_first()
    } else {
        x
    }
}

/// An exponent: an optional sign and at least one digit.
pub open spec fn exponent_value(x: Seq<u8>) -> Option<int> {
    let d = exponent_digits(x);
    if d.len() > 0 && all_digits(d) {
        Some(
            if x.len() > 0 && x[0] == 45 {
                -digits_value(d)
            } else {
                digits_value(d)
            },
        )
    } else {
        None
    }
}

/// `d` times ten to the power `shift`, to the nearest integer (a half
/// goes up).
pub open spec fn scaled(d: int, shift: int) -> int {
    if shift >= 0 {
        d * pow10(shift as nat)
    } else {
        let p = pow10((-shift) as nat);
        d / p + (if 2 * (d % p) >= p {
            1int
        } else {
            0int
        })
    }
}

/// A coordinate with exponent: the mantissa `m` as for a coordinate without
/// one, and the exponent `x`. Its value is in millionths, to the nearest
/// one.
pub open spec fn scientific_value(m: Seq<u8>, x: Seq<u8>) -> Option<int> {
    let whole = coord_whole(m);
    let fraction = coord_fraction(m);
    if all_digits(whole) && all_digits(fraction) && whole.len() + fraction.len() > 0
        && exponent_value(x) is Some {
        let magnitude = scaled(
            digits_value(whole + fraction),
            6 + exponent_value(x)->Some_0 - fraction.len(),
        );
        if magnitude <= MAX_COORD_TEXT {
            Some(
                if m.len() > 0 && m[0] == 45 {
                    -magnitude
                } else {
                    magnitude
                },
            )
        } else {
            None
        }
    } else {
        None
    }
}

/// A coordinate in the text: a decimal number, optionally followed by an
/// exponent mark and an exponent, within `MAX_COORD_TEXT` millionths.
pub open spec fn coord_value(t: Seq<u8>) -> Option<int> {
    let k = exp_mark(t);
    if k == t.len() {
        decimal_value(t)
    } else {
        scientific_value(t.take(k), t.skip(k + 1))
    }
}

/// A corner of a face in the text: a one-based position, optionally
/// followed by `/` and fields that are not read. Its value is zero-based.
pub open spec fn face_index_value(t: Seq<u8>) -> Option<int> {
    let first = t.take(find(t, 47));
    if first.len() > 0 && all_digits(first) && 1 <= digits_value(first) <= usize::MAX {
        Some(digits_value(first) - 1)
    } else {
        None
    }
}

/// What one line of the text contributes.
pub enum ObjLine {
    Ignored,
    VertexLine(Seq<int>),
    FaceLine(Seq<int>),
    Bad(ParseError),
}

/// A byte that separates words: space, tab, vertical tab, form feed or
/// carriage return.
pub open spec fn is_space(b: u8) -> bool {
    b == 32 || b == 9 || b == 11 || b == 12 || b == 13
}

/// Reading `s` word by word: the words finished so far, and the word being
/// read.
pub open spec fn words_state(s: Seq<u8>) -> (Seq<Seq<u8>>, Seq<u8>)
    decreases s.len(),
{
    if s.len() == 0 {
        (Seq::empty(), Seq::empty())
    } else {
        let (done, cur) = words_state(s.drop_last());
        if is_space(s.last()) {
            if cur.len() > 0 {
                (done.push(cur), Seq::empty())
            } else {
                (done, Seq::empty())
            }
        } else {
            (done, cur.push(s.last()))
        }
    }
}

/// The words of `s`: its maximal runs of bytes that are not spaces.
pub open spec fn words(s: Seq<u8>) -> Seq<Seq<u8>> {
    let (done, cur) = words_state(s);
    if cur.len() > 0 {
        done.push(cur)
    } else {
        done
    }
}

/// The coordinates after a `v` tag: exactly three, each readable.
pub open spec fn vertex_line(toks: Seq<Seq<u8>>) -> ObjLine {
    if toks.len() != 3 {
        ObjLine::Bad(ParseError::VertexArity)
    } else if coord_value(toks[0]) is Some && coord_value(toks[1]) is Some && coord_value(
        toks[2],
    ) is Some {
        ObjLine::VertexLine(
            seq![
                coord_value(toks[0])->Some_0,
                coord_value(toks[1])->Some_0,
                coord_value(toks[2])->Some_0,
            ],
        )
    } else {
        ObjLine::Bad(ParseError::BadCoordinate)
    }
}

/// The corners after an `f` tag: three or four, each readable.
pub open spec fn face_line(toks: Seq<Seq<u8>>) -> ObjLine {
    if toks.len() < 3 || toks.len() > 4 {
        ObjLine::Bad(ParseError::FaceArity)
    } else if forall|j: int| 0 <= j < toks.len() ==> #[trigger] face_index_value(toks[j]) is Some {
        ObjLine::FaceLine(Seq::new(toks.len(), |j: int| face_index_value(toks[j])->Some_0))
    } else {
        ObjLine::Bad(ParseError::BadFaceIndex)
    }
}

/// A line is cut into words at runs of spaces; its first word is its tag.
/// `v` and `f` lines are read, every other line is ignored.
pub open spec fn parse_line_spec(line: Seq<u8>) -> ObjLine {
    let toks = words(line);
    if toks.len() == 0 {
        ObjLine::Ignored
    } else if toks[0] == seq![118u8] {
        vertex_line(toks.drop_first())
    } else if toks[0] == seq![102u8] {
        face_line(toks.drop_first())
    } else {
        ObjLine::Ignored
    }
}

/// The vertices and faces of the lines, in order, or the first line's error.
pub open spec fn parse_lines(ls: Seq<Seq<u8>>) -> Result<MeshView, ParseError>
    decreases ls.len(),
{
    if ls.len() == 0 {
        Ok(empty_mesh())
    } else {
        match parse_lines(ls.drop_last()) {
            Err(e) => Err(e),
            Ok(m) => match parse_line_spec(ls.last()) {
                ObjLine::Ignored => Ok(m),
                ObjLine::VertexLine(p) => Ok(MeshView { vertices: m.vertices.push(p), faces: m.faces }),
                ObjLine::FaceLine(f) => Ok(MeshView { vertices: m.vertices, faces: m.faces.push(f) }),
                ObjLine::Bad(e) => Err(e),
            },
        }
    }
}

/// The mesh a text describes: its lines read in order, and every corner
/// naming one of its vertices.
pub open spec fn parse_obj_spec(text: Seq<u8>) -> Result<MeshView, ParseError> {
    match parse_lines(split(text, 10)) {
        Err(e) => Err(e),
        Ok(m) => if forall|f: int|
            0 <= f < m.faces.len() ==> face_in_bounds(#[trigger] m.faces[f], m.vertices.len() as int) {
            Ok(m)
        } else {
            Err(ParseError::IndexOutOfRange)
        },
    }
}

/// The pieces of `ls` with `sep` between each two; the inverse of `split`.
pub open spec fn join(ls: Seq<Seq<u8>>, sep: u8) -> Seq<u8>
    decreases ls.len(),
{
    if ls.len() <= 1 {
        if ls.len() == 0 {
            Seq::empty()
        } else {
            ls[0]
        }
    } else {
        join(ls.drop_last(), sep) + seq![sep] + ls.last()
    }
}

/// The decimal digits of `n`, without leading zeros.
pub open spec fn uint_text(n: nat) -> Seq<u8>
    decreases n,
{
    if n < 10 {
        seq![(48 + n) as u8]
    } else {
        uint_text(n / 10).push((48 + n % 10) as u8)
    }
}

/// The decimal digits of `n`, with zeros in front to make at least six.
pub open spec fn six_digits(n: nat) -> Seq<u8> {
    let u = uint_text(n);
    if u.len() < 6 {
        Seq::new((6 - u.len()) as nat, |i: int| 48u8) + u
    } else {
        u
    }
}

/// `s` without the zeros at its end.
pub open spec fn trim_zeros(s: Seq<u8>) -> Seq<u8>
    decreases s.len(),
{
    if s.len() > 0 && s.last() == 48 {
        trim_zeros(s.drop_last())
    } else {
        s
    }
}

/// The fraction of a coordinate as text: nothing where it is zero, else a
/// point and its six digits without the zeros at their end.
pub open spec fn fraction_text(r: nat) -> Seq<u8> {
    if r == 0 {
        Seq::empty()
    } else {
        seq![46u8] + trim_zeros(six_digits(r))
    }
}

/// A coordinate in millionths as text, in its shortest form: a minus sign
/// where it is negative, the whole units, and the fraction where there is
/// one, as in `1`, `-0.5` or `2.25`.
pub open spec fn coord_text(c: int) -> Seq<u8> {
    let a = if c < 0 {
        -c
    } else {
        c
    };
    let sign = if c < 0 {
        seq![45u8]
    } else {
        Seq::empty()
    };
    sign + uint_text((a / 1000000) as nat) + fraction_text((a % 1000000) as nat)
}

/// The line of a vertex: `v` and its three coordinates.
pub open spec fn vertex_text(p: Seq<int>) -> Seq<u8> {
    join(seq![seq![118u8], coord_text(p[0]), coord_text(p[1]), coord_text(p[2])], 32)
}

/// The line of a face: `f` and its corners, one-based.
pub open spec fn face_text(f: Seq<int>) -> Seq<u8> {
    join(seq![seq![102u8]] + f.map_values(|i: int| uint_text((i + 1) as nat)), 32)
}

/// Each piece of `ls` followed by `sep`.
pub open spec fn terminated(ls: Seq<Seq<u8>>, sep: u8) -> Seq<u8>
    decreases ls.len(),
{
    if ls.len() == 0 {
        Seq::empty()
    } else {
        terminated(ls.drop_last(), sep) + ls.last() + seq![sep]
    }
}

pub proof fn lemma_join_push_empty(ls: Seq<Seq<u8>>, sep: u8)
    ensures
        join(ls.push(Seq::empty()), sep) == terminated(ls, sep),
    decreases ls.len(),
{
    if ls.len() == 0 {
        assert(ls.push(Seq::empty()) =~= seq![Seq::<u8>::empty()]);
    } else {
        let dl = ls.drop_last();
        lemma_join_push_empty(dl, sep);
        assert(ls.push(Seq::empty()).drop_last() =~= ls);
        if dl.len() == 0 {
            assert(join(ls, sep) == ls[0]);
            assert(join(dl.push(Seq::empty()), sep) =~= Seq::empty());
            assert(join(ls, sep) =~= join(dl.push(Seq::empty()), sep) + ls.last());
        } else {
            assert(ls.drop_last() == dl);
            assert(dl.push(Seq::empty()).drop_last() =~= dl);
            assert(join(dl.push(Seq::empty()), sep) =~= join(dl, sep) + seq![sep]);
            assert(join(ls, sep) =~= join(dl.push(Seq::empty()), sep) + ls.last());
        }
        assert(join(ls.push(Seq::empty()), sep) =~= join(ls, sep) + seq![sep]);
    }
}

pub proof fn lemma_join4(a: Seq<u8>, b: Seq<u8>, c: Seq<u8>, d: Seq<u8>, sep: u8)
    ensures
        join(seq![a, b, c, d], sep) == a + seq![sep] + b + seq![sep] + c + seq![sep] + d,
{
    assert(seq![a, b, c, d].drop_last() =~= seq![a, b, c]);
    assert(seq![a, b, c].drop_last() =~= seq![a, b]);
    assert(seq![a, b].drop_last() =~= seq![a]);
    assert(join(seq![a], sep) == a);
    assert(join(seq![a, b], sep) == a + seq![sep] + b);
    assert(join(seq![a, b, c], sep) == a + seq![sep] + b + seq![sep] + c);
    assert(join(seq![a, b, c, d], sep) =~= a + seq![sep] + b + seq![sep] + c + seq![sep] + d);
}

pub proof fn lemma_join5(a: Seq<u8>, b: Seq<u8>, c: Seq<u8>, d: Seq<u8>, e: Seq<u8>, sep: u8)
    ensures
        join(seq![a, b, c, d, e], sep) == a + seq![sep] + b + seq![sep] + c + seq![sep] + d
            + seq![sep] + e,
{
    assert(seq![a, b, c, d, e].drop_last() =~= seq![a, b, c, d]);
    lemma_join4(a, b, c, d, sep);
    assert(join(seq![a, b, c, d, e], sep) =~= a + seq![sep] + b + seq![sep] + c + seq![sep] + d
        + seq![sep] + e);
}

/// The lines of a mesh: its vertices, then its faces.
pub open spec fn obj_lines(m: MeshView) -> Seq<Seq<u8>> {
    m.vertices.map_values(|p: Seq<int>| vertex_text(p)) + m.faces.map_values(
        |f: Seq<int>| face_text(f),
    )
}

/// The text of a mesh: each of its lines followed by a line break.
pub open spec fn obj_text(m: MeshView) -> Seq<u8> {
    join(obj_lines(m).push(Seq::empty()), 10)
}

pub proof fn lemma_find(s: Seq<u8>, b: u8, j: int)
    requires
        0 <= j <= s.len(),
        forall|k: int| 0 <= k < j ==> s[k] != b,
        j == s.len() || s[j] == b,
    ensures
        find(s, b) == j,
    decreases s.len(),
{
    if s.len() > 0 && j > 0 {
        lemma_find(s.drop_first(), b, j - 1);
    }
}

/// `s` cut at every `sep`.
pub fn split_bytes(s: &[u8], sep: u8) -> (r: Vec<Vec<u8>>)
    ensures
        r@.map_values(|t: Vec<u8>| t@) == split(s@, sep),
{
    let mut pieces: Vec<Vec<u8>> = Vec::new();
    let mut cur: Vec<u8> = Vec::new();
    let mut i: usize = 0;
    assert(s@.take(0) =~= Seq::<u8>::empty());
    assert(pieces@.map_values(|t: Vec<u8>| t@).push(cur@) =~= split(s@.take(0), sep));
    while i < s.len()
        invariant
            i <= s@.len(),
            pieces@.map_values(|t: Vec<u8>| t@).push(cur@) == split(s@.take(i as int), sep),
        decreases s.len() - i,
    {
        let ghost before = pieces@.map_values(|t: Vec<u8>| t@);
        assert(s@.take(i + 1).drop_last() =~= s@.take(i as int));
        if s[i] == sep {
            pieces.push(cur);
            cur = Vec::new();
            assert(pieces@.map_values(|t: Vec<u8>| t@) =~= before.push(
                pieces@[pieces@.len() - 1]@,
            ));
            assert(pieces@.map_values(|t: Vec<u8>| t@).push(cur@) =~= split(
                s@.take(i + 1),
                sep,
            ));
        } else {
            cur.push(s[i]);
            assert(pieces@.map_values(|t: Vec<u8>| t@).push(cur@) =~= split(
                s@.take(i + 1),
                sep,
            ));
        }
        i += 1;
    }
    assert(s@.take(i as int) =~= s@);
    let ghost before = pieces@.map_values(|t: Vec<u8>| t@);
    let ghost last = cur@;
    pieces.push(cur);
    assert(pieces@.map_values(|t: Vec<u8>| t@) =~= before.push(last));
    pieces
}

pub proof fn lemma_find_props(s: Seq<u8>, b: u8)
    ensures
        0 <= find(s, b) <= s.len(),
        forall|k: int| 0 <= k < find(s, b) ==> s[k] != b,
        find(s, b) < s.len() ==> s[find(s, b)] == b,
    decreases s.len(),
{
    if s.len() > 0 && s[0] != b {
        lemma_find_props(s.drop_first(), b);
        assert forall|k: int| 0 <= k < find(s, b) implies s[k] != b by {
            if k > 0 {
                assert(s[k] == s.drop_first()[k - 1]);
            }
        }
    }
}

pub proof fn lemma_digits_bound(s: Seq<u8>)
    requires
        all_digits(s),
    ensures
        0 <= digits_value(s) < pow10(s.len()),
    decreases s.len(),
{
    if s.len() > 0 {
        lemma_digits_bound(s.drop_last());
        let v = digits_value(s.drop_last());
        let d = s.last() - 48;
        assert(0 <= d <= 9);
        assert(pow10(s.len()) == 10 * pow10((s.len() - 1) as nat));
        assert(0 <= v * 10 + d < 10 * pow10((s.len() - 1) as nat)) by (nonlinear_arith)
            requires
                0 <= v < pow10((s.len() - 1) as nat),
                0 <= d <= 9,
        ;
    }
}

proof fn lemma_pow10_positive(e: nat)
    ensures
        pow10(e) >= 1,
    decreases e,
{
    if e > 0 {
        lemma_pow10_positive((e - 1) as nat);
    }
}

proof fn lemma_pow10_six()
    ensures
        pow10(6) == 1000000,
{
    assert(pow10(0) == 1);
    assert(pow10(1) == 10);
    assert(pow10(2) == 100);
    assert(pow10(3) == 1000);
    assert(pow10(4) == 10000);
    assert(pow10(5) == 100000);
}

/// Exponents beyond this are read only as far as telling that they are.
const EXP_CAP: u128 = 100000000000000000000;

proof fn lemma_exp_mark_props(t: Seq<u8>)
    ensures
        0 <= exp_mark(t) <= t.len(),
        forall|k: int| 0 <= k < exp_mark(t) ==> t[k] != 101 && t[k] != 69,
        exp_mark(t) < t.len() ==> (t[exp_mark(t)] == 101 || t[exp_mark(t)] == 69),
    decreases t.len(),
{
    if t.len() > 0 && t[0] != 101 && t[0] != 69 {
        lemma_exp_mark_props(t.drop_first());
        assert forall|k: int| 0 <= k < exp_mark(t) implies t[k] != 101 && t[k] != 69 by {
            if k > 0 {
                assert(t[k] == t.drop_first()[k - 1]);
            }
        }
    }
}

/// Position of the first exponent mark in `t`, or its length.
fn find_exponent_mark(t: &[u8]) -> (k: usize)
    ensures
        k == exp_mark(t@),
{
    proof {
        lemma_exp_mark_props(t@);
    }
    let mut k: usize = 0;
    while k < t.len() && t[k] != 101 && t[k] != 69
        invariant
            k <= t@.len(),
            k <= exp_mark(t@),
            0 <= exp_mark(t@) <= t@.len(),
            exp_mark(t@) < t@.len() ==> (t@[exp_mark(t@)] == 101 || t@[exp_mark(t@)] == 69),
        decreases t.len() - k,
    {
        k += 1;
    }
    proof {
        lemma_exp_mark_props(t@);
    }
    k
}

proof fn lemma_pow10_add(a: nat, b: nat)
    ensures
        pow10(a + b) == pow10(a) * pow10(b),
    decreases b,
{
    if b > 0 {
        lemma_pow10_add(a, (b - 1) as nat);
        assert(pow10(a + b) == 10 * pow10((a + b - 1) as nat));
        assert(pow10(b) == 10 * pow10((b - 1) as nat));
        assert(10 * (pow10(a) * pow10((b - 1) as nat)) == pow10(a) * (10 * pow10((b - 1) as nat)))
            by (nonlinear_arith);
    }
}

proof fn lemma_pow10_large()
    ensures
        pow10(19) == 10000000000000000000,
        pow10(20) == 100000000000000000000,
{
    lemma_pow10_six();
    lemma_pow10_add(6, 6);
    lemma_pow10_add(12, 6);
    assert(pow10(19) == 10 * pow10(18));
    assert(pow10(20) == 10 * pow10(19));
}

/// A digit string that does not start with zero is at least ten to the
/// power of its length less one.
proof fn lemma_digits_lower(s: Seq<u8>)
    requires
        all_digits(s),
        s.len() >= 1,
        s[0] != 48,
    ensures
        digits_value(s) >= pow10((s.len() - 1) as nat),
{
    let head = seq![s[0]];
    let rest = s.drop_first();
    assert(head + rest =~= s);
    lemma_digits_concat(head, rest);
    assert(head.drop_last() =~= Seq::<u8>::empty());
    assert(head.last() == s[0]);
    assert(digits_value(head) == digits_value(head.drop_last()) * 10 + (head.last() - 48));
    assert(digits_value(head) == s[0] - 48);
    assert(all_digits(rest));
    lemma_digits_bound(rest);
    let p = pow10(rest.len());
    lemma_pow10_positive(rest.len());
    assert((s[0] - 48) * p + digits_value(rest) >= p) by (nonlinear_arith)
        requires
            s[0] - 48 >= 1,
            p >= 1,
            digits_value(rest) >= 0,
    ;
}

/// Leading zeros add nothing to the value of a digit string.
proof fn lemma_leading_zeros(d: Seq<u8>, z: int)
    requires
        0 <= z <= d.len(),
        forall|i: int| 0 <= i < z ==> #[trigger] d[i] == 48,
    ensures
        digits_value(d) == digits_value(d.skip(z)),
{
    assert(d.take(z) + d.skip(z) =~= d);
    assert(d.take(z) =~= Seq::new(z as nat, |i: int| 48u8));
    lemma_zeros_value(z as nat);
    lemma_digits_concat(d.take(z), d.skip(z));
}

/// The digits of the mantissa `m`: those before the point, then those after,
/// and how many come after.
fn mantissa_digits(m: &[u8]) -> (r: Option<(Vec<u8>, usize)>)
    ensures
        r matches Some((d, f)) ==> all_digits(coord_whole(m@)) && all_digits(coord_fraction(m@))
            && d@ == coord_whole(m@) + coord_fraction(m@) && f == coord_fraction(m@).len(),
        r is None ==> !(all_digits(coord_whole(m@)) && all_digits(coord_fraction(m@))),
{
    let n = m.len();
    let start: usize = if n > 0 && (m[0] == 45 || m[0] == 43) {
        1
    } else {
        0
    };
    let ghost u = m@.skip(start as int);
    assert(u =~= coord_unsigned(m@));
    let ghost dot = find(u, 46);
    let ghost whole_s = coord_whole(m@);
    let ghost fraction_s = coord_fraction(m@);
    proof {
        lemma_find_props(u, 46);
    }
    let mut digits: Vec<u8> = Vec::new();
    let mut pos = start;
    while pos < n && m[pos] != 46
        invariant
            start <= pos <= n,
            n == m@.len(),
            u == m@.skip(start as int),
            u == coord_unsigned(m@),
            dot == find(u, 46),
            0 <= dot <= u.len(),
            forall|k: int| 0 <= k < dot ==> u[k] != 46,
            dot < u.len() ==> u[dot] == 46,
            pos - start <= dot,
            whole_s == u.take(dot),
            fraction_s == coord_fraction(m@),
            digits@ == u.take(pos - start),
            all_digits(digits@),
        decreases n - pos,
    {
        let b = m[pos];
        assert(u[pos - start] == b);
        assert(pos - start < dot) by {
            if pos - start == dot {
                assert(dot < u.len());
            }
        }
        if b < 48 || b > 57 {
            assert(whole_s[pos - start] == b);
            return None;
        }
        digits.push(b);
        pos += 1;
        assert(digits@ =~= u.take(pos - start));
    }
    assert(pos - start == dot) by {
        if pos - start < dot {
            assert(u[pos - start] == m@[pos as int]);
        }
    }
    assert(digits@ =~= whole_s);
    let mut flen: usize = 0;
    if pos < n {
        pos += 1;
        let fstart = pos;
        assert(fraction_s =~= m@.skip(fstart as int));
        while pos < n
            invariant
                fstart <= pos <= n,
                n == m@.len(),
                fraction_s == m@.skip(fstart as int),
                fraction_s == coord_fraction(m@),
                whole_s == coord_whole(m@),
                all_digits(whole_s),
                digits@ == whole_s + fraction_s.take(pos - fstart),
                all_digits(fraction_s.take(pos - fstart)),
            decreases n - pos,
        {
            let b = m[pos];
            assert(fraction_s[pos - fstart] == b);
            if b < 48 || b > 57 {
                return None;
            }
            digits.push(b);
            pos += 1;
            assert(digits@ =~= whole_s + fraction_s.take(pos - fstart));
            assert(all_digits(fraction_s.take(pos - fstart))) by {
                assert forall|k: int| 0 <= k < pos - fstart implies is_digit(
                    #[trigger] fraction_s.take(pos - fstart)[k],
                ) by {
                    if k < pos - fstart - 1 {
                        assert(fraction_s.take(pos - fstart)[k] == fraction_s.take(pos - fstart - 1)[k]);
                    }
                }
            }
        }
        assert(fraction_s.take(pos - fstart) =~= fraction_s);
        flen = pos - fstart;
    } else {
        assert(fraction_s.len() == 0);
        assert(digits@ =~= whole_s + fraction_s);
    }
    Some((digits, flen))
}

/// The sign of an exponent, and its magnitude where it is at most `EXP_CAP`
/// (else something larger).
fn parse_exponent(x: &[u8]) -> (r: Option<(bool, u128)>)
    ensures
        r is None <==> exponent_value(x@) is None,
        r matches Some((neg, v)) ==> {
            &&& neg == (x@.len() > 0 && x@[0] == 45)
            &&& v <= EXP_CAP ==> v == digits_value(exponent_digits(x@))
            &&& v > EXP_CAP ==> digits_value(exponent_digits(x@)) > EXP_CAP
        },
{
    let n = x.len();
    let start: usize = if n > 0 && (x[0] == 45 || x[0] == 43) {
        1
    } else {
        0
    };
    let neg = n > 0 && x[0] == 45;
    let ghost d = x@.skip(start as int);
    assert(d =~= exponent_digits(x@));
    let mut v: u128 = 0;
    let mut pos = start;
    while pos < n
        invariant
            start <= pos <= n,
            n == x@.len(),
            d == x@.skip(start as int),
            d == exponent_digits(x@),
            all_digits(d.take(pos - start)),
            v <= EXP_CAP ==> v == digits_value(d.take(pos - start)),
            v > EXP_CAP ==> digits_value(d.take(pos - start)) > EXP_CAP,
            v <= EXP_CAP * 10 + 9,
        decreases n - pos,
    {
        let b = x[pos];
        assert(d[pos - start] == b);
        if b < 48 || b > 57 {
            assert(!all_digits(d));
            return None;
        }
        assert(d.take(pos - start + 1).drop_last() =~= d.take(pos - start));
        if v <= EXP_CAP {
            v = v * 10 + (b - 48) as u128;
        } else {
            proof {
                lemma_digits_bound(d.take(pos - start));
            }
        }
        pos += 1;
        assert(all_digits(d.take(pos - start))) by {
            assert forall|k: int| 0 <= k < pos - start implies is_digit(
                #[trigger] d.take(pos - start)[k],
            ) by {
                if k < pos - start - 1 {
                    assert(d.take(pos - start)[k] == d.take(pos - start - 1)[k]);
                }
            }
        }
    }
    assert(d.take(pos - start) =~= d);
    if pos == start {
        return None;
    }
    Some((neg, v))
}

/// The value of `count` digits of `d` from `from` on.
fn digits_range_value(d: &Vec<u8>, from: usize, count: usize) -> (v: u128)
    requires
        all_digits(d@),
        from + count <= d@.len(),
        count <= 19,
    ensures
        v == digits_value(d@.subrange(from as int, from + count)),
        v < pow10(count as nat),
{
    proof {
        lemma_pow10_large();
    }
    let dl = d.len();
    let mut v: u128 = 0;
    let mut i: usize = 0;
    assert(d@.subrange(from as int, from as int) =~= Seq::<u8>::empty());
    assert(pow10(0) == 1);
    while i < count
        invariant
            i <= count <= 19,
            dl == d@.len(),
            from + count <= d@.len(),
            all_digits(d@),
            pow10(19) == 10000000000000000000,
            v == digits_value(d@.subrange(from as int, from + i)),
            v < pow10(i as nat),
        decreases count - i,
    {
        let b = d[from + i];
        assert(is_digit(d@[from + i]));
        assert(d@.subrange(from as int, from + i + 1).drop_last() =~= d@.subrange(from as int, from + i));
        assert(pow10((i + 1) as nat) == 10 * pow10(i as nat));
        proof {
            lemma_pow10_monotone(i + 1, 19);
        }
        assert(v * 10 + (b - 48) < 10 * pow10(i as nat)) by (nonlinear_arith)
            requires
                v < pow10(i as nat),
                48 <= b <= 57,
        ;
        v = v * 10 + (b - 48) as u128;
        i += 1;
    }
    v
}

/// Ten to the power `e`.
fn pow10_exec(e: u32) -> (r: u128)
    requires
        e <= 19,
    ensures
        r == pow10(e as nat),
{
    proof {
        lemma_pow10_large();
    }
    let mut r: u128 = 1;
    let mut i: u32 = 0;
    assert(pow10(0) == 1);
    while i < e
        invariant
            i <= e <= 19,
            pow10(19) == 10000000000000000000,
            r == pow10(i as nat),
        decreases e - i,
    {
        assert(pow10((i + 1) as nat) == 10 * pow10(i as nat));
        proof {
            lemma_pow10_monotone(i + 1, 19);
        }
        r = r * 10;
        i += 1;
    }
    r
}

/// The coordinate that the mantissa `m` and exponent `x` hold, in millionths.
fn parse_scientific(m: &[u8], x: &[u8]) -> (r: Option<i64>)
    ensures
        r matches Some(v) ==> scientific_value(m@, x@) == Some(v as int),
        r is None ==> scientific_value(m@, x@) is None,
{
    let ghost whole = coord_whole(m@);
    let ghost fraction = coord_fraction(m@);
    let (digits, flen) = match mantissa_digits(m) {
        Some(p) => p,
        None => return None,
    };
    if digits.len() == 0 {
        return None;
    }
    let (eneg, ev) = match parse_exponent(x) {
        Some(p) => p,
        None => return None,
    };
    let negative = m.len() > 0 && m[0] == 45;
    let ghost dd = digits@;
    let ghost e = exponent_value(x@)->Some_0;
    let ghost shift_s = 6 + e - fraction.len();
    proof {
        lemma_all_digits_concat(whole, fraction);
        lemma_pow10_large();
    }
    let mut z: usize = 0;
    while z < digits.len() && digits[z] == 48
        invariant
            z <= digits@.len(),
            forall|i: int| 0 <= i < z ==> #[trigger] digits@[i] == 48,
        decreases digits.len() - z,
    {
        z += 1;
    }
    let ghost dp = dd.skip(z as int);
    proof {
        lemma_leading_zeros(dd, z as int);
    }
    let len = digits.len() - z;
    if len == 0 {
        assert(dp.len() == 0);
        assert(digits_value(dp) == 0);
        proof {
            lemma_scaled_zero(shift_s);
        }
        return Some(0);
    }
    assert(dp[0] != 48);
    assert(all_digits(dp));
    proof {
        lemma_digits_lower(dp);
        lemma_digits_bound(dp);
    }
    if ev > EXP_CAP {
        if eneg {
            proof {
                assert(-shift_s >= len + 1);
                lemma_pow10_monotone(len + 1, -shift_s);
                assert(pow10((len + 1) as nat) == 10 * pow10(len as nat));
                vstd::arithmetic::div_mod::lemma_fundamental_div_mod_converse(
                    digits_value(dd),
                    pow10((-shift_s) as nat),
                    0,
                    digits_value(dd),
                );
            }
            return Some(0);
        } else {
            proof {
                lemma_pow10_monotone(20, shift_s);
                lemma_pow10_positive((len - 1) as nat);
                assert(digits_value(dd) * pow10(shift_s as nat) >= pow10(shift_s as nat))
                    by (nonlinear_arith)
                    requires
                        digits_value(dd) >= 1,
                        pow10(shift_s as nat) >= 1,
                ;
            }
            return None;
        }
    }
    let e_exec: i128 = if eneg {
        -(ev as i128)
    } else {
        ev as i128
    };
    assert(e_exec == e);
    let shift: i128 = 6 + e_exec - flen as i128;
    let n: i128 = len as i128 + shift;
    if n > 19 {
        proof {
            lemma_pow10_monotone(19, n - 1);
            if shift >= 0 {
                lemma_pow10_positive(shift as nat);
                lemma_pow10_add((len - 1) as nat, shift as nat);
                assert(digits_value(dd) * pow10(shift as nat) >= pow10((len - 1) as nat) * pow10(
                    shift as nat,
                )) by (nonlinear_arith)
                    requires
                        digits_value(dd) >= pow10((len - 1) as nat),
                        pow10(shift as nat) >= 0,
                ;
            } else {
                lemma_pow10_add((n - 1) as nat, (-shift) as nat);
                lemma_pow10_positive((-shift) as nat);
                vstd::arithmetic::div_mod::lemma_div_is_ordered(
                    pow10((len - 1) as nat),
                    digits_value(dd),
                    pow10((-shift) as nat),
                );
                vstd::arithmetic::div_mod::lemma_fundamental_div_mod_converse(
                    pow10((len - 1) as nat),
                    pow10((-shift) as nat),
                    pow10((n - 1) as nat),
                    0,
                );
            }
        }
        return None;
    }
    if n <= 0 {
        let up = n == 0 && digits[z] >= 53;
        proof {
            lemma_pow10_monotone(len as int, -shift);
            vstd::arithmetic::div_mod::lemma_fundamental_div_mod_converse(
                digits_value(dd),
                pow10((-shift) as nat),
                0,
                digits_value(dd),
            );
            if n == 0 {
                lemma_half(dp);
                assert(dp[0] == digits@[z as int]);
            } else {
                lemma_pow10_monotone(len + 1, -shift);
                assert(pow10((len + 1) as nat) == 10 * pow10(len as nat));
            }
        }
        let small: i64 = if up {
            1
        } else {
            0
        };
        return Some(
            if negative {
                -small
            } else {
                small
            },
        );
    }
    let magnitude: u128 = if shift >= 0 {
        let v = digits_range_value(&digits, z, len);
        let p = pow10_exec(shift as u32);
        assert(dd.subrange(z as int, z + len) =~= dp);
        proof {
            lemma_pow10_positive(shift as nat);
            lemma_pow10_add(len as nat, shift as nat);
            lemma_pow10_monotone(n as int, 19);
        }
        assert(v * p < pow10(len as nat) * p) by (nonlinear_arith)
            requires
                v < pow10(len as nat),
                p >= 1,
        ;
        v * p
    } else {
        let k = n as usize;
        let v = digits_range_value(&digits, z, k);
        let up = digits[z + k] >= 53;
        let ghost head = dp.take(k as int);
        let ghost tail = dp.skip(k as int);
        assert(dd.subrange(z as int, z + k) =~= head);
        assert(head + tail =~= dp);
        assert(tail.len() == -shift);
        proof {
            lemma_digits_concat(head, tail);
            assert(all_digits(tail));
            lemma_digits_bound(tail);
            lemma_digits_bound(head);
            vstd::arithmetic::div_mod::lemma_fundamental_div_mod_converse(
                digits_value(dp),
                pow10((-shift) as nat),
                digits_value(head),
                digits_value(tail),
            );
            lemma_half(tail);
            assert(tail[0] == digits@[z + k]);
            lemma_pow10_monotone(k as int, 19);
        }
        if up {
            v + 1
        } else {
            v
        }
    };
    assert(magnitude == scaled(digits_value(whole + fraction), shift_s));
    if magnitude > MAX_COORD_TEXT as u128 {
        return None;
    }
    let v = magnitude as i64;
    if negative {
        Some(-v)
    } else {
        Some(v)
    }
}

/// The coordinate that the token `t` holds, in millionths.
pub fn parse_coord(t: &[u8]) -> (r: Option<i64>)
    ensures
        r matches Some(v) ==> coord_value(t@) == Some(v as int),
        r is None ==> coord_value(t@) is None,
{
    let k = find_exponent_mark(t);
    proof {
        lemma_exp_mark_props(t@);
    }
    if k == t.len() {
        parse_decimal(t)
    } else {
        let m = vstd::slice::slice_subrange(t, 0, k);
        let x = vstd::slice::slice_subrange(t, k + 1, t.len());
        assert(m@ =~= t@.take(k as int));
        assert(x@ =~= t@.skip(k + 1));
        parse_scientific(m, x)
    }
}

/// The coordinate that a token without exponent holds, in millionths.
fn parse_decimal(t: &[u8]) -> (r: Option<i64>)
    ensures
        r matches Some(v) ==> decimal_value(t@) == Some(v as int),
        r is None ==> decimal_value(t@) is None,
{
    let n = t.len();
    let mut pos: usize = 0;
    let mut negative = false;
    if n > 0 && (t[0] == 45 || t[0] == 43) {
        negative = t[0] == 45;
        pos = 1;
    }
    let start = pos;
    let ghost unsigned = t@.skip(start as int);
    assert(unsigned =~= coord_unsigned(t@));
    let ghost dot = find(unsigned, 46);
    let ghost whole_s = coord_whole(t@);
    let ghost fraction_s = coord_fraction(t@);
    proof {
        lemma_find_props(unsigned, 46);
        lemma_pow10_six();
        lemma_pow10_positive(0);
    }
    let mut whole: u64 = 0;
    while pos < n && t[pos] != 46
        invariant
            start <= pos <= n,
            n == t@.len(),
            unsigned == t@.skip(start as int),
            dot == find(unsigned, 46),
            0 <= dot <= unsigned.len(),
            forall|k: int| 0 <= k < dot ==> unsigned[k] != 46,
            dot < unsigned.len() ==> unsigned[dot] == 46,
            pos - start <= dot,
            whole_s == unsigned.take(dot),
            whole_s == coord_whole(t@),
            fraction_s == coord_fraction(t@),
            unsigned == coord_unsigned(t@),
            pow10(6) == 1000000,
            forall|k: int| 0 <= k < pos - start ==> is_digit(#[trigger] unsigned[k]),
            whole == digits_value(unsigned.take(pos - start)),
            whole <= 4000000000000,
        decreases n - pos,
    {
        let b = t[pos];
        assert(unsigned[pos - start] == b);
        assert(pos - start < dot) by {
            if pos - start == dot {
                assert(dot < unsigned.len());
            }
        }
        if b < 48 || b > 57 {
            assert(whole_s[pos - start] == b);
            assert(!all_digits(whole_s));
            return None;
        }
        assert(unsigned.take(pos - start + 1).drop_last() =~= unsigned.take(pos - start));
        whole = whole * 10 + (b - 48) as u64;
        pos += 1;
        if whole > 4000000000000 {
            proof {
                if all_digits(whole_s) {
                    lemma_digits_value_grows(whole_s, pos - start);
                    assert(whole_s.take(pos - start) =~= unsigned.take(pos - start));
                    if all_digits(fraction_s) {
                        lemma_digits_bound(fraction_s);
                    }
                    let k = if fraction_s.len() < 6 { fraction_s.len() } else { 6 };
                    assert(all_digits(fraction_s) ==> all_digits(fraction_s.take(k as int)));
                    if all_digits(fraction_s) {
                        lemma_digits_bound(fraction_s.take(k as int));
                        lemma_pow10_positive((6 - k) as nat);
                        assert(fraction_millionths(fraction_s) >= 0) by (nonlinear_arith)
                            requires
                                fraction_millionths(fraction_s) >= digits_value(
                                    fraction_s.take(k as int),
                                ) * pow10((6 - k) as nat),
                                digits_value(fraction_s.take(k as int)) >= 0,
                                pow10((6 - k) as nat) >= 1,
                        ;
                    }
                }
            }
            return None;
        }
    }
    let whole_len = pos - start;
    assert(pos - start == dot) by {
        if pos - start < dot {
            assert(pos < n);
            assert(unsigned[pos - start] == t@[pos as int]);
        }
    }
    assert(whole_s =~= unsigned.take(pos - start));
    let mut fraction: u64 = 0;
    let mut taken: usize = 0;
    let mut fraction_len: usize = 0;
    let mut round_up = false;
    if pos < n {
        pos += 1;
        let fstart = pos;
        assert(fraction_s =~= t@.skip(fstart as int));
        while pos < n
            invariant
                fstart <= pos <= n,
                n == t@.len(),
                fraction_s == t@.skip(fstart as int),
                fraction_s == coord_fraction(t@),
                forall|k: int| 0 <= k < pos - fstart ==> is_digit(#[trigger] fraction_s[k]),
                taken == if pos - fstart < 6 { pos - fstart } else { 6 },
                round_up == (pos - fstart > 6 && fraction_s[6] >= 53),
                fraction == digits_value(fraction_s.take(taken as int)),
                fraction < pow10(taken as nat),
                pow10(6) == 1000000,
            decreases n - pos,
        {
            let b = t[pos];
            assert(fraction_s[pos - fstart] == b);
            if b < 48 || b > 57 {
                return None;
            }
            if pos - fstart == 6 {
                round_up = b >= 53;
            }
            if taken < 6 {
                assert(fraction_s.take(taken + 1).drop_last() =~= fraction_s.take(taken as int));
                assert(fraction * 10 + (b - 48) < pow10((taken + 1) as nat)) by (nonlinear_arith)
                    requires
                        fraction < pow10(taken as nat),
                        pow10((taken + 1) as nat) == 10 * pow10(taken as nat),
                        48 <= b <= 57,
                ;
                proof {
                    lemma_pow10_monotone(taken + 1, 6);
                }
                fraction = fraction * 10 + (b - 48) as u64;
                taken += 1;
            }
            pos += 1;
        }
        assert(fraction_s.len() == pos - fstart);
        fraction_len = pos - fstart;
    } else {
        assert(fraction_s.len() == 0);
        assert(fraction_s.take(0) =~= Seq::<u8>::empty());
    }
    assert(all_digits(fraction_s));
    assert(round_up == rounds_up(fraction_s));
    let ghost dv = fraction;
    let mut e: usize = taken;
    assert(pow10(0) == 1);
    assert(e - taken == 0);
    assert(dv * pow10(0) == dv);
    while e < 6
        invariant
            taken <= e <= 6,
            pow10(6) == 1000000,
            fraction == dv * pow10((e - taken) as nat),
            fraction < pow10(e as nat),
        decreases 6 - e,
    {
        assert(pow10((e + 1 - taken) as nat) == 10 * pow10((e - taken) as nat));
        assert(pow10((e + 1) as nat) == 10 * pow10(e as nat));
        proof {
            lemma_pow10_monotone(e + 1, 6);
        }
        assert(fraction * 10 == dv * pow10((e + 1 - taken) as nat)) by (nonlinear_arith)
            requires
                fraction == dv * pow10((e - taken) as nat),
                pow10((e + 1 - taken) as nat) == 10 * pow10((e - taken) as nat),
        ;
        fraction = fraction * 10;
        e += 1;
    }
    if round_up {
        fraction = fraction + 1;
    }
    assert(fraction == fraction_millionths(fraction_s));
    if whole_len == 0 && fraction_len == 0 {
        return None;
    }
    assert(whole_s.len() + fraction_s.len() > 0);
    let magnitude = whole * 1000000 + fraction;
    if magnitude > MAX_COORD_TEXT as u64 {
        return None;
    }
    let v = magnitude as i64;
    if negative {
        Some(-v)
    } else {
        Some(v)
    }
}

/// The zero-based vertex position that the corner token `t` holds.
pub fn parse_face_index(t: &[u8]) -> (r: Option<usize>)
    ensures
        r matches Some(v) ==> face_index_value(t@) == Some(v as int),
        r is None ==> face_index_value(t@) is None,
{
    let n = t.len();
    let ghost first = t@.take(find(t@, 47));
    proof {
        lemma_find_props(t@, 47);
    }
    let mut value: u128 = 0;
    let mut pos: usize = 0;
    while pos < n && t[pos] != 47
        invariant
            pos <= n,
            n == t@.len(),
            first == t@.take(find(t@, 47)),
            0 <= find(t@, 47) <= t@.len(),
            forall|k: int| 0 <= k < find(t@, 47) ==> t@[k] != 47,
            find(t@, 47) < t@.len() ==> t@[find(t@, 47)] == 47,
            pos <= find(t@, 47),
            forall|k: int| 0 <= k < pos ==> is_digit(#[trigger] t@[k]),
            value == digits_value(t@.take(pos as int)),
            value <= usize::MAX,
        decreases n - pos,
    {
        let b = t[pos];
        assert(pos < find(t@, 47)) by {
            if pos == find(t@, 47) {
                assert(pos < t@.len());
            }
        }
        if b < 48 || b > 57 {
            assert(first[pos as int] == b);
            return None;
        }
        assert(t@.take(pos + 1).drop_last() =~= t@.take(pos as int));
        value = value * 10 + (b - 48) as u128;
        pos += 1;
        if value > usize::MAX as u128 {
            proof {
                if all_digits(first) {
                    lemma_digits_value_grows(first, pos as int);
                    assert(first.take(pos as int) =~= t@.take(pos as int));
                }
            }
            return None;
        }
    }
    assert(pos == find(t@, 47)) by {
        if pos < find(t@, 47) {
            assert(t@[pos as int] != 47);
        }
    }
    assert(first =~= t@.take(pos as int));
    if pos == 0 || value == 0 {
        return None;
    }
    Some((value - 1) as usize)
}

proof fn lemma_all_digits_concat(a: Seq<u8>, b: Seq<u8>)
    requires
        all_digits(a),
        all_digits(b),
    ensures
        all_digits(a + b),
{
    assert forall|i: int| 0 <= i < (a + b).len() implies is_digit(#[trigger] (a + b)[i]) by {
        if i < a.len() {
            assert((a + b)[i] == a[i]);
        } else {
            assert((a + b)[i] == b[i - a.len()]);
        }
    }
}

proof fn lemma_scaled_nonnegative(d: int, shift: int)
    requires
        d >= 0,
    ensures
        scaled(d, shift) >= 0,
{
    if shift >= 0 {
        lemma_pow10_positive(shift as nat);
        assert(d * pow10(shift as nat) >= 0) by (nonlinear_arith)
            requires
                d >= 0,
                pow10(shift as nat) >= 1,
        ;
    } else {
        lemma_pow10_positive((-shift) as nat);
        assert(d / pow10((-shift) as nat) >= 0) by (nonlinear_arith)
            requires
                d >= 0,
                pow10((-shift) as nat) >= 1,
        ;
    }
}

/// A digit string is at least half of ten to the power of its length exactly
/// when its first digit is 5 or more.
proof fn lemma_half(s: Seq<u8>)
    requires
        all_digits(s),
        s.len() >= 1,
    ensures
        (2 * digits_value(s) >= pow10(s.len())) == (s[0] >= 53),
{
    let head = seq![s[0]];
    let rest = s.drop_first();
    assert(head + rest =~= s);
    lemma_digits_concat(head, rest);
    assert(head.drop_last() =~= Seq::<u8>::empty());
    assert(head.last() == s[0]);
    assert(digits_value(head) == digits_value(head.drop_last()) * 10 + (head.last() - 48));
    assert(all_digits(rest));
    lemma_digits_bound(rest);
    let p = pow10(rest.len());
    let h = s[0] - 48;
    let r = digits_value(rest);
    assert(pow10(s.len()) == 10 * p);
    assert((2 * (h * p + r) >= 10 * p) == (h >= 5)) by (nonlinear_arith)
        requires
            0 <= h <= 9,
            0 <= r < p,
    ;
}

proof fn lemma_scaled_zero(shift: int)
    ensures
        scaled(0, shift) == 0,
{
    if shift >= 0 {
        assert(0 * pow10(shift as nat) == 0);
    } else {
        let p = pow10((-shift) as nat);
        lemma_pow10_positive((-shift) as nat);
        assert(0int / p == 0 && 0int % p == 0) by (nonlinear_arith)
            requires
                p >= 1,
        ;
    }
}

/// A coordinate read from text lies within `MAX_COORD_TEXT`.
pub proof fn lemma_coord_value_bound(t: Seq<u8>)
    ensures
        coord_value(t) matches Some(v) ==> -MAX_COORD_TEXT <= v <= MAX_COORD_TEXT,
{
    let k = exp_mark(t);
    if k == t.len() {
        let whole = coord_whole(t);
        let fraction = coord_fraction(t);
        if decimal_value(t) is Some {
            lemma_digits_bound(whole);
            let j = if fraction.len() < 6 { fraction.len() } else { 6 };
            assert(all_digits(fraction.take(j as int)));
            lemma_digits_bound(fraction.take(j as int));
            lemma_pow10_positive((6 - j) as nat);
            assert(fraction_millionths(fraction) >= 0) by (nonlinear_arith)
                requires
                    fraction_millionths(fraction) >= digits_value(fraction.take(j as int)) * pow10(
                        (6 - j) as nat,
                    ),
                    digits_value(fraction.take(j as int)) >= 0,
                    pow10((6 - j) as nat) >= 1,
            ;
        }
    } else {
        let m = t.take(k);
        let x = t.skip(k + 1);
        let whole = coord_whole(m);
        let fraction = coord_fraction(m);
        if scientific_value(m, x) is Some {
            lemma_all_digits_concat(whole, fraction);
            lemma_digits_bound(whole + fraction);
            lemma_scaled_nonnegative(
                digits_value(whole + fraction),
                6 + exponent_value(x)->Some_0 - fraction.len(),
            );
        }
    }
}

/// The vertex of a `v` line, cut into `toks` with its tag first.
fn parse_vertex(toks: &Vec<Vec<u8>>) -> (r: Result<Vertex, ParseError>)
    requires
        toks@.len() >= 1,
    ensures
        match r {
            Ok(v) => vertex_line(toks@.map_values(|t: Vec<u8>| t@).drop_first()) == ObjLine::VertexLine(v@),
            Err(e) => vertex_line(toks@.map_values(|t: Vec<u8>| t@).drop_first()) == ObjLine::Bad(e),
        },
{
    let ghost args = toks@.map_values(|t: Vec<u8>| t@).drop_first();
    if toks.len() != 4 {
        return Err(ParseError::VertexArity);
    }
    assert(args[0] == toks@[1]@ && args[1] == toks@[2]@ && args[2] == toks@[3]@);
    let x = parse_coord(toks[1].as_slice());
    let y = parse_coord(toks[2].as_slice());
    let z = parse_coord(toks[3].as_slice());
    match (x, y, z) {
        (Some(x), Some(y), Some(z)) => {
            let v = Vertex([x, y, z]);
            assert(v@ =~= seq![
                coord_value(args[0])->Some_0,
                coord_value(args[1])->Some_0,
                coord_value(args[2])->Some_0,
            ]);
            Ok(v)
        },
        _ => Err(ParseError::BadCoordinate),
    }
}

/// The face of an `f` line, cut into `toks` with its tag first.
fn parse_face(toks: &Vec<Vec<u8>>) -> (r: Result<Face, ParseError>)
    requires
        toks@.len() >= 1,
    ensures
        match r {
            Ok(f) => face_line(toks@.map_values(|t: Vec<u8>| t@).drop_first()) == ObjLine::FaceLine(f@),
            Err(e) => face_line(toks@.map_values(|t: Vec<u8>| t@).drop_first()) == ObjLine::Bad(e),
        },
{
    let ghost args = toks@.map_values(|t: Vec<u8>| t@).drop_first();
    if toks.len() < 4 || toks.len() > 5 {
        return Err(ParseError::FaceArity);
    }
    assert(forall|j: int| 0 <= j < args.len() ==> #[trigger] args[j] == toks@[j + 1]@);
    let v1 = parse_face_index(toks[1].as_slice());
    let v2 = parse_face_index(toks[2].as_slice());
    let v3 = parse_face_index(toks[3].as_slice());
    if v1.is_none() || v2.is_none() || v3.is_none() {
        assert(face_index_value(args[0]) is None || face_index_value(args[1]) is None
            || face_index_value(args[2]) is None);
        return Err(ParseError::BadFaceIndex);
    }
    let (a, b, c) = (v1.unwrap(), v2.unwrap(), v3.unwrap());
    if toks.len() == 4 {
        let f = Face::Triangle([a, b, c]);
        assert(f@ =~= Seq::new(args.len(), |j: int| face_index_value(args[j])->Some_0));
        return Ok(f);
    }
    let v4 = parse_face_index(toks[4].as_slice());
    match v4 {
        Some(d) => {
            let f = Face::Quad([a, b, c, d]);
            assert(f@ =~= Seq::new(args.len(), |j: int| face_index_value(args[j])->Some_0));
            Ok(f)
        },
        None => {
            assert(face_index_value(args[3]) is None);
            Err(ParseError::BadFaceIndex)
        },
    }
}

/// What one line of the text holds.
enum LineItem {
    Nothing,
    Point(Vertex),
    Polygon(Face),
}

/// The words of `s`: its maximal runs of bytes that are not spaces.
pub fn split_words(s: &[u8]) -> (r: Vec<Vec<u8>>)
    ensures
        r@.map_values(|t: Vec<u8>| t@) == words(s@),
{
    let mut done: Vec<Vec<u8>> = Vec::new();
    let mut cur: Vec<u8> = Vec::new();
    let mut i: usize = 0;
    assert(s@.take(0) =~= Seq::<u8>::empty());
    assert(done@.map_values(|t: Vec<u8>| t@) =~= Seq::<Seq<u8>>::empty());
    while i < s.len()
        invariant
            i <= s@.len(),
            (done@.map_values(|t: Vec<u8>| t@), cur@) == words_state(s@.take(i as int)),
        decreases s.len() - i,
    {
        let ghost before = done@.map_values(|t: Vec<u8>| t@);
        assert(s@.take(i + 1).drop_last() =~= s@.take(i as int));
        let b = s[i];
        if b == 32 || b == 9 || b == 11 || b == 12 || b == 13 {
            if cur.len() > 0 {
                let ghost last = cur@;
                done.push(cur);
                cur = Vec::new();
                assert(done@.map_values(|t: Vec<u8>| t@) =~= before.push(last));
            }
        } else {
            cur.push(b);
        }
        i += 1;
    }
    assert(s@.take(i as int) =~= s@);
    if cur.len() > 0 {
        let ghost before = done@.map_values(|t: Vec<u8>| t@);
        let ghost last = cur@;
        done.push(cur);
        assert(done@.map_values(|t: Vec<u8>| t@) =~= before.push(last));
    }
    done
}

fn parse_line(line: &[u8]) -> (r: Result<LineItem, ParseError>)
    ensures
        match r {
            Ok(LineItem::Nothing) => parse_line_spec(line@) == ObjLine::Ignored,
            Ok(LineItem::Point(v)) => parse_line_spec(line@) == ObjLine::VertexLine(v@),
            Ok(LineItem::Polygon(f)) => parse_line_spec(line@) == ObjLine::FaceLine(f@),
            Err(e) => parse_line_spec(line@) == ObjLine::Bad(e),
        },
{
    let toks = split_words(line);
    let ghost pieces = toks@.map_values(|t: Vec<u8>| t@);
    if toks.len() == 0 {
        return Ok(LineItem::Nothing);
    }
    assert(pieces[0] == toks@[0]@);
    let tag = &toks[0];
    if tag.len() == 1 && tag[0] == 118 {
        assert(pieces[0] =~= seq![118u8]);
        match parse_vertex(&toks) {
            Ok(v) => Ok(LineItem::Point(v)),
            Err(e) => Err(e),
        }
    } else if tag.len() == 1 && tag[0] == 102 {
        assert(pieces[0] =~= seq![102u8]);
        assert(pieces[0] != seq![118u8]);
        match parse_face(&toks) {
            Ok(f) => Ok(LineItem::Polygon(f)),
            Err(e) => Err(e),
        }
    } else {
        assert(pieces[0] != seq![118u8]) by {
            if pieces[0] == seq![118u8] {
                assert(pieces[0].len() == 1);
            }
        }
        assert(pieces[0] != seq![102u8]) by {
            if pieces[0] == seq![102u8] {
                assert(pieces[0].len() == 1);
            }
        }
        Ok(LineItem::Nothing)
    }
}

proof fn lemma_parse_lines_error_stays(ls: Seq<Seq<u8>>, i: int, e: ParseError)
    requires
        0 <= i <= ls.len(),
        parse_lines(ls.take(i)) == Err::<MeshView, ParseError>(e),
    ensures
        parse_lines(ls) == Err::<MeshView, ParseError>(e),
    decreases ls.len() - i,
{
    if i < ls.len() {
        assert(ls.take(i + 1).drop_last() =~= ls.take(i));
        lemma_parse_lines_error_stays(ls, i + 1, e);
    } else {
        assert(ls.take(i) =~= ls);
    }
}

impl Mesh {
    /// Reads a mesh from the text format: `v` lines give vertices, `f` lines
    /// give faces by one-based vertex positions, other lines are ignored.
    pub fn parse_obj(text: &[u8]) -> (r: Result<Mesh, ParseError>)
        ensures
            r matches Ok(m) ==> parse_obj_spec(text@) == Ok::<MeshView, ParseError>(m@),
            r matches Err(e) ==> parse_obj_spec(text@) == Err::<MeshView, ParseError>(e),
            r matches Ok(m) ==> m@.wf() && m@.coords_within(MAX_COORD_TEXT as int),
    {
        let lines = split_bytes(text, 10);
        let ghost ls = lines@.map_values(|t: Vec<u8>| t@);
        let mut vertices: Vec<Vertex> = Vec::new();
        let mut faces: Vec<Face> = Vec::new();
        let mut li: usize = 0;
        assert(ls.take(0).len() == 0);
        assert(vertices@.map_values(|v: Vertex| v@) =~= empty_mesh().vertices);
        assert(faces@.map_values(|f: Face| f@) =~= empty_mesh().faces);
        while li < lines.len()
            invariant
                li <= lines@.len(),
                ls == lines@.map_values(|t: Vec<u8>| t@),
                ls == split(text@, 10),
                parse_lines(ls.take(li as int)) == Ok::<MeshView, ParseError>(
                    MeshView {
                        vertices: vertices@.map_values(|v: Vertex| v@),
                        faces: faces@.map_values(|f: Face| f@),
                    },
                ),
                forall|k: int|
                    0 <= k < vertices@.len() ==> within(#[trigger] vertices@[k]@, MAX_COORD_TEXT as int),
            decreases lines.len() - li,
        {
            assert(ls.take(li + 1).drop_last() =~= ls.take(li as int));
            assert(ls[li as int] == lines@[li as int]@);
            let ghost before_v = vertices@.map_values(|v: Vertex| v@);
            let ghost before_f = faces@.map_values(|f: Face| f@);
            match parse_line(lines[li].as_slice()) {
                Err(e) => {
                    proof {
                        lemma_parse_lines_error_stays(ls, li + 1, e);
                    }
                    return Err(e);
                },
                Ok(LineItem::Nothing) => {},
                Ok(LineItem::Point(v)) => {
                    proof {
                        let toks = words(ls[li as int]).drop_first();
                        lemma_coord_value_bound(toks[0]);
                        lemma_coord_value_bound(toks[1]);
                        lemma_coord_value_bound(toks[2]);
                    }
                    vertices.push(v);
                    assert(vertices@.map_values(|v: Vertex| v@) =~= before_v.push(v@));
                },
                Ok(LineItem::Polygon(f)) => {
                    faces.push(f);
                    assert(faces@.map_values(|f: Face| f@) =~= before_f.push(f@));
                },
            }
            li += 1;
        }
        assert(ls.take(li as int) =~= ls);
        let m = Mesh { vertices, faces };
        let n = m.vertices.len();
        let mut fi: usize = 0;
        while fi < m.faces.len()
            invariant
                fi <= m.faces@.len(),
                n == m@.vertices.len(),
                parse_lines(split(text@, 10)) == Ok::<MeshView, ParseError>(m@),
                forall|k: int| 0 <= k < fi ==> face_in_bounds(#[trigger] m@.faces[k], n as int),
            decreases m.faces.len() - fi,
        {
            let face = m.faces[fi];
            assert(m@.faces[fi as int] == face@);
            let ok = match face {
                Face::Triangle(a) => a[0] < n && a[1] < n && a[2] < n,
                Face::Quad(a) => a[0] < n && a[1] < n && a[2] < n && a[3] < n,
            };
            if !ok {
                assert(!face_in_bounds(m@.faces[fi as int], n as int));
                return Err(ParseError::IndexOutOfRange);
            }
            fi += 1;
        }
        assert forall|k: int| 0 <= k < m@.vertices.len() implies within(
            #[trigger] m@.vertices[k],
            MAX_COORD_TEXT as int,
        ) by {
            assert(m@.vertices[k] == m.vertices@[k]@);
        }
        Ok(m)
    }
}

/// Appends the decimal digits of `n`.
fn push_uint(out: &mut Vec<u8>, n: u64)
    ensures
        final(out)@ == old(out)@ + uint_text(n as nat),
    decreases n,
{
    if n >= 10 {
        push_uint(out, n / 10);
    }
    out.push(48 + (n % 10) as u8);
    if n < 10 {
        assert(final(out)@ =~= old(out)@ + uint_text(n as nat));
    } else {
        assert(final(out)@ =~= old(out)@ + uint_text(n as nat));
    }
}

proof fn lemma_uint_text_len(n: nat, k: nat)
    requires
        n < pow10(k),
        k >= 1,
    ensures
        1 <= uint_text(n).len() <= k,
    decreases n,
{
    if n >= 10 {
        assert(pow10(k) == 10 * pow10((k - 1) as nat));
        if k == 1 {
            assert(pow10(0) == 1);
        } else {
            lemma_uint_text_len(n / 10, (k - 1) as nat);
        }
    }
}

/// Appends `n` as at least six digits.
fn push_six_digits(out: &mut Vec<u8>, n: u64)
    requires
        n < 1000000,
    ensures
        final(out)@ == old(out)@ + six_digits(n as nat),
{
    let mut digits: Vec<u8> = Vec::new();
    push_uint(&mut digits, n);
    assert(digits@ =~= uint_text(n as nat));
    proof {
        lemma_pow10_six();
        lemma_uint_text_len(n as nat, 6);
    }
    let mut k = digits.len();
    let ghost start = out@;
    while k < 6
        invariant
            digits@.len() <= k <= 6,
            out@ == start + Seq::new((k - digits@.len()) as nat, |i: int| 48u8),
        decreases 6 - k,
    {
        out.push(48);
        k += 1;
        assert(out@ =~= start + Seq::new((k - digits@.len()) as nat, |i: int| 48u8));
    }
    let mut j: usize = 0;
    let ghost mid = out@;
    while j < digits.len()
        invariant
            j <= digits@.len(),
            out@ == mid + digits@.take(j as int),
        decreases digits.len() - j,
    {
        out.push(digits[j]);
        j += 1;
        assert(out@ =~= mid + digits@.take(j as int));
    }
    assert(digits@.take(j as int) =~= digits@);
    assert(out@ =~= start + six_digits(n as nat));
}

/// Appends the text of a coordinate.
fn push_coord(out: &mut Vec<u8>, c: i64)
    requires
        -COORD_LIMIT <= c <= COORD_LIMIT,
    ensures
        final(out)@ == old(out)@ + coord_text(c as int),
{
    let ghost start = out@;
    let a: u64 = if c < 0 {
        out.push(45);
        (-c) as u64
    } else {
        c as u64
    };
    push_uint(out, a / 1000000);
    push_fraction(out, a % 1000000);
    assert(out@ =~= start + coord_text(c as int));
}

/// Appends the fraction of a coordinate, in its shortest form.
fn push_fraction(out: &mut Vec<u8>, r: u64)
    requires
        r < 1000000,
    ensures
        final(out)@ == old(out)@ + fraction_text(r as nat),
{
    if r == 0 {
        assert(old(out)@ + fraction_text(0) =~= old(out)@);
        return;
    }
    let ghost start = out@;
    out.push(46);
    let mut digits: Vec<u8> = Vec::new();
    push_six_digits(&mut digits, r);
    assert(digits@ =~= six_digits(r as nat));
    let mut k = digits.len();
    assert(digits@.take(k as int) =~= digits@);
    while k > 0 && digits[k - 1] == 48
        invariant
            k <= digits@.len(),
            trim_zeros(digits@) == trim_zeros(digits@.take(k as int)),
        decreases k,
    {
        assert(digits@.take(k as int).drop_last() =~= digits@.take(k - 1));
        k -= 1;
    }
    assert(trim_zeros(digits@.take(k as int)) == digits@.take(k as int));
    let ghost mid = out@;
    let mut j: usize = 0;
    while j < k
        invariant
            j <= k <= digits@.len(),
            out@ == mid + digits@.take(j as int),
        decreases k - j,
    {
        out.push(digits[j]);
        j += 1;
        assert(out@ =~= mid + digits@.take(j as int));
    }
    assert(out@ =~= start + fraction_text(r as nat));
}

/// Appends the line of a face, without its line break.
fn push_face_line(out: &mut Vec<u8>, f: &Face, n: usize)
    requires
        face_in_bounds(f@, n as int),
    ensures
        final(out)@ == old(out)@ + face_text(f@),
{
    let ghost start = out@;
    out.push(102);
    match f {
        Face::Triangle(a) => {
            out.push(32);
            push_uint(out, a[0] as u64 + 1);
            out.push(32);
            push_uint(out, a[1] as u64 + 1);
            out.push(32);
            push_uint(out, a[2] as u64 + 1);
            let ghost us = f@.map_values(|i: int| uint_text((i + 1) as nat));
            assert(seq![seq![102u8]] + us =~= seq![seq![102u8], us[0], us[1], us[2]]);
            proof {
                lemma_join4(seq![102u8], us[0], us[1], us[2], 32);
            }
            assert(out@ =~= start + face_text(f@));
        },
        Face::Quad(a) => {
            out.push(32);
            push_uint(out, a[0] as u64 + 1);
            out.push(32);
            push_uint(out, a[1] as u64 + 1);
            out.push(32);
            push_uint(out, a[2] as u64 + 1);
            out.push(32);
            push_uint(out, a[3] as u64 + 1);
            let ghost us = f@.map_values(|i: int| uint_text((i + 1) as nat));
            assert(seq![seq![102u8]] + us =~= seq![seq![102u8], us[0], us[1], us[2], us[3]]);
            proof {
                lemma_join5(seq![102u8], us[0], us[1], us[2], us[3], 32);
            }
            assert(out@ =~= start + face_text(f@));
        },
    }
}

impl Mesh {
    /// The text of the mesh: each vertex as `v x y z`, then each face as
    /// `f` and its one-based corners, one line each.
    pub fn to_obj_text(&self) -> (r: Vec<u8>)
        requires
            self@.wf(),
        ensures
            r@ == obj_text(self@),
    {
        let ghost ls = obj_lines(self@);
        let nv = self.vertices.len();
        let mut out: Vec<u8> = Vec::new();
        let mut i: usize = 0;
        assert(ls.take(0) =~= Seq::<Seq<u8>>::empty());
        while i < nv
            invariant
                i <= nv,
                nv == self@.vertices.len(),
                self@.wf(),
                ls == obj_lines(self@),
                out@ == terminated(ls.take(i as int), 10),
            decreases nv - i,
        {
            let v = self.vertices[i];
            assert(self@.vertices[i as int] == v@);
            let ghost before = out@;
            out.push(118);
            out.push(32);
            push_coord(&mut out, v.0[0]);
            out.push(32);
            push_coord(&mut out, v.0[1]);
            out.push(32);
            push_coord(&mut out, v.0[2]);
            proof {
                lemma_join4(seq![118u8], coord_text(v@[0]), coord_text(v@[1]), coord_text(v@[2]), 32);
            }
            assert(out@ =~= before + vertex_text(v@));
            out.push(10);
            assert(ls[i as int] == vertex_text(v@));
            assert(ls.take(i + 1).drop_last() =~= ls.take(i as int));
            i += 1;
        }
        let nf = self.faces.len();
        let mut fi: usize = 0;
        while fi < nf
            invariant
                fi <= nf,
                nv == self@.vertices.len(),
                nf == self@.faces.len(),
                self@.wf(),
                ls == obj_lines(self@),
                out@ == terminated(ls.take(nv + fi), 10),
            decreases nf - fi,
        {
            let f = self.faces[fi];
            assert(self@.faces[fi as int] == f@);
            let ghost before = out@;
            push_face_line(&mut out, &f, nv);
            out.push(10);
            assert(ls[nv + fi] == face_text(f@));
            assert(ls.take(nv + fi + 1).drop_last() =~= ls.take(nv + fi));
            fi += 1;
        }
        assert(ls.take(nv + fi) =~= ls);
        proof {
            lemma_join_push_empty(ls, 10);
        }
        out
    }
}

proof fn lemma_pow10_monotone(a: int, b: int)
    requires
        0 <= a <= b,
    ensures
        pow10(a as nat) <= pow10(b as nat),
    decreases b - a,
{
    if a < b {
        lemma_pow10_monotone(a, b - 1);
        lemma_pow10_positive((b - 1) as nat);
        assert(pow10(b as nat) == 10 * pow10((b - 1) as nat));
    }
}

/// No byte of `s` is `b`.
pub open spec fn lacks(s: Seq<u8>, b: u8) -> bool {
    forall|i: int| 0 <= i < s.len() ==> #[trigger] s[i] != b
}

proof fn lemma_split_append(a: Seq<u8>, b: Seq<u8>, sep: u8)
    requires
        lacks(b, sep),
    ensures
        split(a + b, sep) == split(a, sep).update(
            split(a, sep).len() - 1,
            split(a, sep).last() + b,
        ),
        split(a + b, sep).len() == split(a, sep).len(),
    decreases b.len(),
{
    lemma_split_nonempty(a, sep);
    if b.len() == 0 {
        assert(a + b =~= a);
        assert(split(a, sep).last() + b =~= split(a, sep).last());
        assert(split(a, sep).update(split(a, sep).len() - 1, split(a, sep).last())
            =~= split(a, sep));
    } else {
        let b2 = b.drop_last();
        assert(lacks(b2, sep)) by {
            assert forall|i: int| 0 <= i < b2.len() implies #[trigger] b2[i] != sep by {
                assert(b2[i] == b[i]);
            }
        }
        lemma_split_append(a, b2, sep);
        assert((a + b).drop_last() =~= a + b2);
        assert((a + b).last() == b.last());
        assert(b.last() != sep);
        let pa = split(a, sep);
        assert((pa.last() + b2).push(b.last()) =~= pa.last() + b);
        assert(split(a + b, sep) =~= pa.update(pa.len() - 1, pa.last() + b));
    }
}

/// Cutting pieces joined by a separator that none of them holds gives
/// the pieces back.
pub proof fn lemma_split_join(ls: Seq<Seq<u8>>, sep: u8)
    requires
        ls.len() >= 1,
        forall|i: int| 0 <= i < ls.len() ==> lacks(#[trigger] ls[i], sep),
    ensures
        split(join(ls, sep), sep) == ls,
    decreases ls.len(),
{
    if ls.len() == 1 {
        lemma_split_append(Seq::empty(), ls[0], sep);
        assert(Seq::<u8>::empty() + ls[0] =~= ls[0]);
        assert(split(Seq::<u8>::empty(), sep) =~= seq![Seq::<u8>::empty()]);
        assert(split(join(ls, sep), sep) =~= ls);
    } else {
        let dl = ls.drop_last();
        lemma_split_join(dl, sep);
        let a = join(dl, sep) + seq![sep];
        assert(a.drop_last() =~= join(dl, sep));
        assert(split(a, sep) == dl.push(Seq::empty()));
        lemma_split_append(a, ls.last(), sep);
        assert(Seq::<u8>::empty() + ls.last() =~= ls.last());
        assert(split(join(ls, sep), sep) =~= ls);
    }
}

proof fn lemma_digits_concat(a: Seq<u8>, b: Seq<u8>)
    ensures
        digits_value(a + b) == digits_value(a) * pow10(b.len()) + digits_value(b),
    decreases b.len(),
{
    if b.len() == 0 {
        assert(a + b =~= a);
    } else {
        lemma_digits_concat(a, b.drop_last());
        assert((a + b).drop_last() =~= a + b.drop_last());
        assert((a + b).last() == b.last());
        let x = digits_value(a);
        let p = pow10((b.len() - 1) as nat);
        let y = digits_value(b.drop_last());
        assert((x * p + y) * 10 + (b.last() - 48) == x * (10 * p) + (y * 10 + (b.last() - 48)))
            by (nonlinear_arith);
    }
}

proof fn lemma_zeros_value(k: nat)
    ensures
        digits_value(Seq::new(k, |i: int| 48u8)) == 0,
        all_digits(Seq::new(k, |i: int| 48u8)),
    decreases k,
{
    if k > 0 {
        lemma_zeros_value((k - 1) as nat);
        assert(Seq::new(k, |i: int| 48u8).drop_last() =~= Seq::new((k - 1) as nat, |i: int| 48u8));
    }
}

proof fn lemma_uint_text(n: nat)
    ensures
        digits_value(uint_text(n)) == n,
        all_digits(uint_text(n)),
        uint_text(n).len() >= 1,
    decreases n,
{
    if n >= 10 {
        lemma_uint_text(n / 10);
        let u = uint_text(n);
        assert(u.drop_last() =~= uint_text(n / 10));
        assert(u.last() == (48 + n % 10) as u8);
        assert((n / 10) * 10 + n % 10 == n);
        assert(digits_value(u) == digits_value(u.drop_last()) * 10 + (u.last() - 48));
        assert forall|i: int| 0 <= i < u.len() implies is_digit(#[trigger] u[i]) by {
            if i < u.len() - 1 {
                assert(u[i] == uint_text(n / 10)[i]);
            }
        }
    } else {
        let u = uint_text(n);
        assert(u.drop_last() =~= Seq::<u8>::empty());
        assert(digits_value(u) == digits_value(u.drop_last()) * 10 + (u.last() - 48));
    }
}

proof fn lemma_lacks_concat(a: Seq<u8>, b: Seq<u8>, x: u8)
    requires
        lacks(a, x),
        lacks(b, x),
    ensures
        lacks(a + b, x),
{
    assert forall|i: int| 0 <= i < (a + b).len() implies #[trigger] (a + b)[i] != x by {
        if i < a.len() {
            assert((a + b)[i] == a[i]);
        } else {
            assert((a + b)[i] == b[i - a.len()]);
        }
    }
}

proof fn lemma_trim_zeros(s: Seq<u8>)
    ensures
        trim_zeros(s).len() <= s.len(),
        trim_zeros(s) == s.take(trim_zeros(s).len() as int),
        all_digits(s) ==> digits_value(trim_zeros(s)) * pow10(
            (s.len() - trim_zeros(s).len()) as nat,
        ) == digits_value(s),
    decreases s.len(),
{
    if s.len() > 0 && s.last() == 48 {
        let dl = s.drop_last();
        lemma_trim_zeros(dl);
        let t = trim_zeros(dl);
        assert(dl.take(t.len() as int) =~= s.take(t.len() as int));
        if all_digits(s) {
            assert(all_digits(dl));
            let e = (dl.len() - t.len()) as nat;
            assert(pow10((s.len() - t.len()) as nat) == 10 * pow10(e));
            assert(digits_value(s) == digits_value(dl) * 10);
            assert(digits_value(t) * (10 * pow10(e)) == (digits_value(t) * pow10(e)) * 10)
                by (nonlinear_arith);
        }
    } else {
        assert(s.take(s.len() as int) =~= s);
        assert(pow10(0) == 1);
    }
}

proof fn lemma_fraction_text_lacks(r: nat, x: u8)
    requires
        r < 1000000,
        !is_digit(x),
        x != 46,
    ensures
        lacks(fraction_text(r), x),
{
    if r > 0 {
        lemma_six_digits(r);
        lemma_digits_lack(six_digits(r), x);
        lemma_trim_zeros(six_digits(r));
        let t = trim_zeros(six_digits(r));
        assert(lacks(t, x)) by {
            assert forall|i: int| 0 <= i < t.len() implies #[trigger] t[i] != x by {
                assert(t[i] == six_digits(r)[i]);
            }
        }
        assert(lacks(seq![46u8], x));
        lemma_lacks_concat(seq![46u8], t, x);
    }
}

proof fn lemma_coord_text_lacks(c: int, x: u8)
    requires
        !is_digit(x),
        x != 45,
        x != 46,
    ensures
        lacks(coord_text(c), x),
{
    let a = if c < 0 { -c } else { c };
    let q = (a / 1000000) as nat;
    let r = (a % 1000000) as nat;
    lemma_uint_text(q);
    lemma_uint_text(r);
    lemma_digits_lack(uint_text(q), x);
    lemma_fraction_text_lacks(r, x);
    let sign = if c < 0 { seq![45u8] } else { Seq::empty() };
    assert(lacks(sign, x));
    lemma_lacks_concat(sign, uint_text(q), x);
    lemma_lacks_concat(sign + uint_text(q), fraction_text(r), x);
}

proof fn lemma_six_digits(n: nat)
    requires
        n < 1000000,
    ensures
        digits_value(six_digits(n)) == n,
        all_digits(six_digits(n)),
        six_digits(n).len() == 6,
{
    lemma_uint_text(n);
    lemma_pow10_six();
    lemma_uint_text_len(n, 6);
    let u = uint_text(n);
    if u.len() < 6 {
        let z = Seq::new((6 - u.len()) as nat, |i: int| 48u8);
        lemma_zeros_value((6 - u.len()) as nat);
        lemma_digits_concat(z, u);
        assert forall|i: int| 0 <= i < (z + u).len() implies is_digit(#[trigger] (z + u)[i]) by {
            if i < z.len() {
                assert((z + u)[i] == z[i]);
            } else {
                assert((z + u)[i] == u[i - z.len()]);
            }
        }
    }
}

proof fn lemma_digits_lack(s: Seq<u8>, b: u8)
    requires
        all_digits(s),
        !is_digit(b),
    ensures
        lacks(s, b),
{
    assert forall|i: int| 0 <= i < s.len() implies #[trigger] s[i] != b by {
        assert(is_digit(s[i]));
    }
}

proof fn lemma_exp_mark_absent(t: Seq<u8>)
    requires
        lacks(t, 101),
        lacks(t, 69),
    ensures
        exp_mark(t) == t.len(),
    decreases t.len(),
{
    if t.len() > 0 {
        assert(t[0] != 101 && t[0] != 69);
        let r = t.drop_first();
        assert(lacks(r, 101) && lacks(r, 69)) by {
            assert forall|i: int| 0 <= i < r.len() implies #[trigger] r[i] != 101 && r[i] != 69 by {
                assert(r[i] == t[i + 1]);
            }
        }
        lemma_exp_mark_absent(r);
    }
}

/// Reading back the text of a coordinate gives the coordinate.
pub proof fn lemma_coord_round_trip(c: int)
    requires
        -MAX_COORD_TEXT <= c <= MAX_COORD_TEXT,
    ensures
        coord_value(coord_text(c)) == Some(c),
        lacks(coord_text(c), 32),
        lacks(coord_text(c), 10),
        lacks(coord_text(c), 13),
{
    lemma_coord_text_lacks(c, 32);
    lemma_coord_text_lacks(c, 10);
    lemma_coord_text_lacks(c, 13);
    lemma_coord_text_lacks(c, 101);
    lemma_coord_text_lacks(c, 69);
    lemma_exp_mark_absent(coord_text(c));
    let a = if c < 0 { -c } else { c };
    let q = (a / 1000000) as nat;
    let r = (a % 1000000) as nat;
    let w = uint_text(q);
    lemma_uint_text(q);
    let u = w + fraction_text(r);
    let t = coord_text(c);
    if c < 0 {
        assert(t =~= seq![45u8] + u);
        assert(coord_unsigned(t) =~= u);
    } else {
        assert(t =~= u);
        assert(is_digit(w[0]));
        assert(coord_unsigned(t) =~= u);
    }
    assert forall|k: int| 0 <= k < w.len() implies u[k] != 46 by {
        assert(u[k] == w[k]);
        assert(is_digit(w[k]));
    }
    assert(q * 1000000 + r == a);
    if r == 0 {
        assert(u =~= w);
        lemma_find(u, 46, w.len() as int);
        assert(coord_whole(t) =~= w);
        assert(coord_fraction(t) =~= Seq::<u8>::empty());
        assert(Seq::<u8>::empty().take(0) =~= Seq::<u8>::empty());
        assert(fraction_millionths(Seq::empty()) == 0);
    } else {
        let six = six_digits(r);
        lemma_six_digits(r);
        lemma_trim_zeros(six);
        let f = trim_zeros(six);
        assert(all_digits(f)) by {
            assert forall|i: int| 0 <= i < f.len() implies is_digit(#[trigger] f[i]) by {
                assert(f[i] == six[i]);
            }
        }
        assert(u =~= w + seq![46u8] + f);
        lemma_find(u, 46, w.len() as int);
        assert(coord_whole(t) =~= w);
        assert(coord_fraction(t) =~= f);
        assert(f.take(f.len() as int) =~= f);
        assert(fraction_millionths(f) == digits_value(f) * pow10((6 - f.len()) as nat));
    }
}

proof fn lemma_index_round_trip(i: int)
    requires
        0 <= i,
        i + 1 <= usize::MAX,
    ensures
        face_index_value(uint_text((i + 1) as nat)) == Some(i),
        lacks(uint_text((i + 1) as nat), 32),
        lacks(uint_text((i + 1) as nat), 10),
        lacks(uint_text((i + 1) as nat), 13),
{
    let u = uint_text((i + 1) as nat);
    lemma_uint_text((i + 1) as nat);
    lemma_digits_lack(u, 32);
    lemma_digits_lack(u, 10);
    lemma_digits_lack(u, 13);
    lemma_digits_lack(u, 47);
    lemma_find(u, 47, u.len() as int);
    assert(u.take(u.len() as int) =~= u);
}

/// No byte of `s` is a space.
pub open spec fn no_space(s: Seq<u8>) -> bool {
    forall|i: int| 0 <= i < s.len() ==> !is_space(#[trigger] s[i])
}

proof fn lemma_no_space(s: Seq<u8>)
    requires
        lacks(s, 32),
        lacks(s, 9),
        lacks(s, 11),
        lacks(s, 12),
        lacks(s, 13),
    ensures
        no_space(s),
{
    assert forall|i: int| 0 <= i < s.len() implies !is_space(#[trigger] s[i]) by {
        assert(s[i] != 32 && s[i] != 9 && s[i] != 11 && s[i] != 12 && s[i] != 13);
    }
}

proof fn lemma_words_append(a: Seq<u8>, b: Seq<u8>)
    requires
        no_space(b),
    ensures
        words_state(a + b) == (words_state(a).0, words_state(a).1 + b),
    decreases b.len(),
{
    if b.len() == 0 {
        assert(a + b =~= a);
        assert(words_state(a).1 + b =~= words_state(a).1);
    } else {
        let b2 = b.drop_last();
        assert(no_space(b2)) by {
            assert forall|i: int| 0 <= i < b2.len() implies !is_space(#[trigger] b2[i]) by {
                assert(b2[i] == b[i]);
            }
        }
        lemma_words_append(a, b2);
        assert((a + b).drop_last() =~= a + b2);
        assert((a + b).last() == b.last());
        assert(!is_space(b.last()));
        assert((words_state(a).1 + b2).push(b.last()) =~= words_state(a).1 + b);
    }
}

/// Words joined by single spaces are read back as the same words.
pub proof fn lemma_words_join(ls: Seq<Seq<u8>>)
    requires
        ls.len() >= 1,
        forall|i: int| 0 <= i < ls.len() ==> (#[trigger] ls[i]).len() > 0 && no_space(ls[i]),
    ensures
        words_state(join(ls, 32)) == (ls.drop_last(), ls.last()),
        words(join(ls, 32)) == ls,
    decreases ls.len(),
{
    if ls.len() == 1 {
        lemma_words_append(Seq::empty(), ls[0]);
        assert(Seq::<u8>::empty() + ls[0] =~= ls[0]);
        assert(Seq::<Seq<u8>>::empty() =~= ls.drop_last());
        assert(Seq::<u8>::empty() + ls[0] == ls.last());
    } else {
        let dl = ls.drop_last();
        assert(forall|i: int| 0 <= i < dl.len() ==> #[trigger] dl[i] == ls[i]);
        lemma_words_join(dl);
        let a = join(dl, 32) + seq![32u8];
        assert(a.drop_last() =~= join(dl, 32));
        assert(dl.drop_last().push(dl.last()) =~= dl);
        assert(words_state(a) == (dl, Seq::<u8>::empty()));
        lemma_words_append(a, ls.last());
        assert(Seq::<u8>::empty() + ls.last() =~= ls.last());
    }
    assert(ls.drop_last().push(ls.last()) =~= ls);
}

proof fn lemma_join_lacks(ls: Seq<Seq<u8>>, sep: u8, x: u8)
    requires
        sep != x,
        forall|i: int| 0 <= i < ls.len() ==> lacks(#[trigger] ls[i], x),
    ensures
        lacks(join(ls, sep), x),
    decreases ls.len(),
{
    if ls.len() == 0 {
    } else if ls.len() == 1 {
        assert(lacks(ls[0], x));
    } else {
        let dl = ls.drop_last();
        assert(forall|i: int| 0 <= i < dl.len() ==> #[trigger] dl[i] == ls[i]);
        lemma_join_lacks(dl, sep, x);
        assert(lacks(seq![sep], x));
        lemma_lacks_concat(join(dl, sep), seq![sep], x);
        lemma_lacks_concat(join(dl, sep) + seq![sep], ls.last(), x);
    }
}

proof fn lemma_vertex_line_round_trip(p: Seq<int>)
    requires
        within(p, MAX_COORD_TEXT as int),
    ensures
        parse_line_spec(vertex_text(p)) == ObjLine::VertexLine(p),
        lacks(vertex_text(p), 10),
{
    let pieces = seq![seq![118u8], coord_text(p[0]), coord_text(p[1]), coord_text(p[2])];
    lemma_coord_round_trip(p[0]);
    lemma_coord_round_trip(p[1]);
    lemma_coord_round_trip(p[2]);
    assert forall|i: int| 0 <= i < pieces.len() implies (#[trigger] pieces[i]).len() > 0
        && no_space(pieces[i]) && lacks(pieces[i], 10) by {
        if i == 0 {
            assert(no_space(seq![118u8]));
            assert(lacks(seq![118u8], 10));
        } else {
            let c = p[i - 1];
            assert(pieces[i] == coord_text(c));
            lemma_coord_text_lacks(c, 9);
            lemma_coord_text_lacks(c, 11);
            lemma_coord_text_lacks(c, 12);
            lemma_no_space(coord_text(c));
        }
    }
    lemma_words_join(pieces);
    lemma_join_lacks(pieces, 32, 10);
    assert(pieces.drop_first() =~= seq![coord_text(p[0]), coord_text(p[1]), coord_text(p[2])]);
    assert(seq![p[0], p[1], p[2]] =~= p);
}

proof fn lemma_face_line_round_trip(f: Seq<int>)
    requires
        f.len() == 3 || f.len() == 4,
        forall|j: int| 0 <= j < f.len() ==> 0 <= #[trigger] f[j] && f[j] + 1 <= usize::MAX,
    ensures
        parse_line_spec(face_text(f)) == ObjLine::FaceLine(f),
        lacks(face_text(f), 10),
{
    let us = f.map_values(|i: int| uint_text((i + 1) as nat));
    let pieces = seq![seq![102u8]] + us;
    assert forall|j: int| 0 <= j < f.len() implies face_index_value(#[trigger] us[j]) == Some(f[j])
        && us[j].len() > 0 && no_space(us[j]) && lacks(us[j], 10) by {
        lemma_index_round_trip(f[j]);
        lemma_uint_text((f[j] + 1) as nat);
        lemma_digits_lack(us[j], 9);
        lemma_digits_lack(us[j], 11);
        lemma_digits_lack(us[j], 12);
        lemma_no_space(us[j]);
    }
    assert forall|i: int| 0 <= i < pieces.len() implies (#[trigger] pieces[i]).len() > 0
        && no_space(pieces[i]) && lacks(pieces[i], 10) by {
        if i == 0 {
            assert(no_space(seq![102u8]));
            assert(lacks(seq![102u8], 10));
        } else {
            assert(pieces[i] == us[i - 1]);
        }
    }
    lemma_words_join(pieces);
    lemma_join_lacks(pieces, 32, 10);
    let t = face_text(f);
    assert(pieces.drop_first() =~= us);
    assert(words(t)[0] == seq![102u8]);
    assert(seq![102u8][0] != seq![118u8][0]);
    assert(seq![102u8] != seq![118u8]);
    assert(forall|j: int| 0 <= j < us.len() ==> #[trigger] face_index_value(us[j]) is Some);
    assert(Seq::new(us.len(), |j: int| face_index_value(us[j])->Some_0) =~= f);
    assert(face_line(us) == ObjLine::FaceLine(f));
}

/// The mesh read from the first `k` lines of the text of `m`.
pub open spec fn lines_prefix(m: MeshView, k: int) -> MeshView {
    if k <= m.vertices.len() {
        MeshView { vertices: m.vertices.take(k), faces: Seq::empty() }
    } else {
        MeshView { vertices: m.vertices, faces: m.faces.take(k - m.vertices.len()) }
    }
}

/// What the lines of a mesh's text need to be read back.
pub open spec fn printable(m: MeshView) -> bool {
    &&& forall|i: int| 0 <= i < m.vertices.len() ==> within(#[trigger] m.vertices[i], MAX_COORD_TEXT as int)
    &&& forall|f: int|
        0 <= f < m.faces.len() ==> (#[trigger] m.faces[f]).len() == 3 || m.faces[f].len() == 4
    &&& forall|f: int, j: int|
        0 <= f < m.faces.len() && 0 <= j < m.faces[f].len() ==> 0 <= #[trigger] m.faces[f][j] && m.faces[f][j]
            + 1 <= usize::MAX
}

proof fn lemma_parse_obj_lines(m: MeshView, k: int)
    requires
        printable(m),
        0 <= k <= obj_lines(m).len(),
    ensures
        parse_lines(obj_lines(m).take(k)) == Ok::<MeshView, ParseError>(lines_prefix(m, k)),
        forall|i: int| 0 <= i < k ==> lacks(#[trigger] obj_lines(m)[i], 10),
    decreases k,
{
    let ls = obj_lines(m);
    let nv = m.vertices.len() as int;
    if k == 0 {
        assert(ls.take(0).len() == 0);
        assert(lines_prefix(m, 0).vertices =~= empty_mesh().vertices);
        assert(lines_prefix(m, 0).faces =~= empty_mesh().faces);
    } else {
        lemma_parse_obj_lines(m, k - 1);
        assert(ls.take(k).drop_last() =~= ls.take(k - 1));
        if k - 1 < nv {
            assert(ls[k - 1] == vertex_text(m.vertices[k - 1]));
            lemma_vertex_line_round_trip(m.vertices[k - 1]);
            assert(m.vertices.take(k - 1).push(m.vertices[k - 1]) =~= m.vertices.take(k));
            assert(lines_prefix(m, k - 1).faces =~= lines_prefix(m, k).faces);
        } else {
            let f = m.faces[k - 1 - nv];
            assert(ls[k - 1] == face_text(f));
            lemma_face_line_round_trip(f);
            if k - 1 == nv {
                assert(m.vertices.take(nv) =~= m.vertices);
                assert(m.faces.take(0) =~= Seq::<Seq<int>>::empty());
            }
            assert(m.faces.take(k - 1 - nv).push(f) =~= m.faces.take(k - nv));
        }
    }
}

/// Saving a mesh as text and reading the text back gives the same mesh.
pub proof fn lemma_save_load_round_trip(m: Mesh)
    requires
        m@.wf(),
        m@.vertices.len() <= usize::MAX,
    ensures
        parse_obj_spec(obj_text(m@)) == Ok::<MeshView, ParseError>(m@),
{
    let v = m@;
    assert forall|f: int| 0 <= f < v.faces.len() implies (#[trigger] v.faces[f]).len() == 3
        || v.faces[f].len() == 4 by {
        assert(v.faces[f] == m.faces@[f]@);
    }
    assert forall|f: int, j: int| 0 <= f < v.faces.len() && 0 <= j < v.faces[f].len() implies 0
        <= #[trigger] v.faces[f][j] && v.faces[f][j] + 1 <= usize::MAX by {
        assert(face_in_bounds(v.faces[f], v.vertices.len() as int));
    }
    let ls = obj_lines(v);
    lemma_parse_obj_lines(v, ls.len() as int);
    assert(ls.take(ls.len() as int) =~= ls);
    let all = ls.push(Seq::empty());
    assert forall|i: int| 0 <= i < all.len() implies lacks(#[trigger] all[i], 10) by {
        if i < ls.len() {
            assert(all[i] == ls[i]);
        }
    }
    lemma_split_join(all, 10);
    assert(all.drop_last() =~= ls);
    assert(words(Seq::empty()).len() == 0);
    assert(parse_line_spec(Seq::empty()) == ObjLine::Ignored);
    assert(ls.len() == v.vertices.len() + v.faces.len());
    assert(v.vertices.take(v.vertices.len() as int) =~= v.vertices);
    assert(v.faces.take(v.faces.len() as int) =~= v.faces);
    if v.faces.len() == 0 {
        assert(v.faces =~= Seq::<Seq<int>>::empty());
    }
    assert(lines_prefix(v, ls.len() as int).vertices =~= v.vertices);
    assert(lines_prefix(v, ls.len() as int).faces =~= v.faces);
    assert(lines_prefix(v, ls.len() as int) == v);
}

} // verus!
