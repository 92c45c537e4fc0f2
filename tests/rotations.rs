use cube_tiles::{CubeRotation, Vertex};

fn named() -> Vec<CubeRotation> {
    vec![
        CubeRotation::identity(),
        CubeRotation::rx(),
        CubeRotation::rx2(),
        CubeRotation::rx3(),
        CubeRotation::ry(),
        CubeRotation::ry2(),
        CubeRotation::ry3(),
        CubeRotation::rz(),
        CubeRotation::rz2(),
        CubeRotation::rz3(),
    ]
}

fn determinant(r: &CubeRotation) -> i32 {
    let a = r.axes;
    let even = (a[0] == 0 && a[1] == 1) || (a[0] == 1 && a[1] == 2) || (a[0] == 2 && a[1] == 0);
    let parity = if even { 1 } else { -1 };
    parity * (r.orientations[0] as i32) * (r.orientations[1] as i32) * (r.orientations[2] as i32)
}

fn is_signed_permutation(r: &CubeRotation) -> bool {
    let a = r.axes;
    a.iter().all(|&x| x < 3)
        && a[0] != a[1]
        && a[0] != a[2]
        && a[1] != a[2]
        && r.orientations.iter().all(|&s| s == 1 || s == -1)
}

/// Every rotation reachable from the named ones by composition.
fn generated() -> Vec<CubeRotation> {
    let mut all: Vec<CubeRotation> = vec![CubeRotation::identity()];
    let gens = named();
    let mut i = 0;
    while i < all.len() {
        for g in gens.iter() {
            let c = all[i].compose(g);
            if !all.contains(&c) {
                all.push(c);
            }
        }
        i += 1;
    }
    all
}

#[test]
fn quarter_turns_have_expected_tables() {
    assert_eq!(CubeRotation::rz(), CubeRotation::new([1, 0, 2], [-1, 1, 1]));
    assert_eq!(CubeRotation::rx(), CubeRotation::new([0, 2, 1], [1, -1, 1]));
    assert_eq!(CubeRotation::ry(), CubeRotation::new([2, 1, 0], [1, 1, -1]));
}

#[test]
fn powers_are_self_compositions() {
    let rx = CubeRotation::rx();
    let ry = CubeRotation::ry();
    let rz = CubeRotation::rz();
    assert_eq!(CubeRotation::rx2(), rx.compose(&rx));
    assert_eq!(CubeRotation::rx3(), rx.compose(&rx).compose(&rx));
    assert_eq!(CubeRotation::ry2(), ry.compose(&ry));
    assert_eq!(CubeRotation::ry3(), ry.compose(&ry).compose(&ry));
    assert_eq!(CubeRotation::rz2(), rz.compose(&rz));
    assert_eq!(CubeRotation::rz3(), rz.compose(&rz).compose(&rz));
    assert_eq!(CubeRotation::rz2(), CubeRotation::new([0, 1, 2], [-1, -1, 1]));
    assert_eq!(rz.compose(&CubeRotation::rz3()), CubeRotation::identity());
}

#[test]
fn compose_chases_indices_and_signs() {
    let a = CubeRotation::new([2, 0, 1], [1, -1, 1]);
    let b = CubeRotation::new([1, 2, 0], [-1, 1, -1]);
    let c = a.compose(&b);
    assert_eq!(c.axes, [0, 1, 2]);
    assert_eq!(c.orientations, [-1, 1, 1]);
}

#[test]
fn generators_reach_exactly_24_proper_rotations() {
    let all = generated();
    assert_eq!(all.len(), 24);
    for r in all.iter() {
        assert!(is_signed_permutation(r));
        assert_eq!(determinant(r), 1);
    }
}

#[test]
fn composition_is_closed() {
    let all = generated();
    for a in all.iter() {
        for b in all.iter() {
            assert!(all.contains(&a.compose(b)));
        }
    }
}

#[test]
fn identity_is_neutral_on_both_sides() {
    let id = CubeRotation::identity();
    for r in generated().iter() {
        assert_eq!(id.compose(r), *r);
        assert_eq!(r.compose(&id), *r);
    }
}

#[test]
fn composition_is_not_commutative() {
    let rx = CubeRotation::rx();
    let ry = CubeRotation::ry();
    assert_ne!(rx.compose(&ry), ry.compose(&rx));
}

#[test]
fn apply_is_a_signed_permutation() {
    let v = Vertex([1, 2, 3]);
    assert_eq!(CubeRotation::rz().apply(&v), Vertex([-2, 1, 3]));
    assert_eq!(CubeRotation::rx().apply(&v), Vertex([1, -3, 2]));
    assert_eq!(CubeRotation::ry().apply(&v), Vertex([3, 2, -1]));
    assert_eq!(CubeRotation::identity().apply(&v), v);
}

#[test]
fn apply_preserves_norm() {
    let v = Vertex([1500000, -250000, 7000000]);
    let n = |w: &Vertex| w.dot(w);
    for r in generated().iter() {
        let w = r.apply(&v);
        assert_eq!(n(&w), n(&v));
        let mut a: Vec<i64> = v.0.iter().map(|x| x.abs()).collect();
        let mut b: Vec<i64> = w.0.iter().map(|x| x.abs()).collect();
        a.sort();
        b.sort();
        assert_eq!(a, b);
    }
}

#[test]
fn labels_show_signed_axes() {
    assert_eq!(CubeRotation::identity().label(), "[x y z]");
    assert_eq!(CubeRotation::rx().label(), "[x -z y]");
    assert_eq!(CubeRotation::rz().label(), "[-y x z]");
}

#[test]
fn dot_product_of_vertices() {
    assert_eq!(Vertex([1, 2, 3]).dot(&Vertex([4, -5, 6])), 12);
    let big = 4_000_000_000_000_000_000i64;
    assert_eq!(
        Vertex([big, big, big]).dot(&Vertex([big, big, big])),
        3 * (big as i128) * (big as i128)
    );
}

#[test]
fn index_enumerates_the_24_rotations() {
    let table: Vec<CubeRotation> = (0..24).map(CubeRotation::from_index).collect();
    for (k, r) in table.iter().enumerate() {
        assert!(is_signed_permutation(r));
        assert_eq!(determinant(r), 1);
        assert_eq!(r.index(), k);
    }
    for a in generated().iter() {
        assert!(table.contains(a));
        assert_eq!(table[a.index()], *a);
    }
    assert_eq!(CubeRotation::from_index(0), CubeRotation::identity());
    assert_eq!(CubeRotation::rz().index(), 2 * 4 + 2);
}

#[test]
fn composition_closed_over_index_table() {
    for i in 0..24 {
        for j in 0..24 {
            let c = CubeRotation::from_index(i).compose(&CubeRotation::from_index(j));
            assert!(is_signed_permutation(&c));
            assert_eq!(determinant(&c), 1);
            assert_eq!(CubeRotation::from_index(c.index()), c);
        }
    }
}

#[test]
fn every_rotation_has_an_inverse() {
    let id = CubeRotation::identity();
    for r in generated().iter() {
        let inv = r.inverse();
        assert_eq!(r.compose(&inv), id);
        assert_eq!(inv.compose(r), id);
        assert_eq!(determinant(&inv), 1);
    }
    assert_eq!(CubeRotation::rz().inverse(), CubeRotation::rz3());
    assert_eq!(CubeRotation::rx2().inverse(), CubeRotation::rx2());
}
