use hpvca::blockhash::HashTable;
use hpvca::ibc::{
    amvp_predictors, boundary_strength, mvd_for, pack_bv, parity_ok, source_area, unpack_bv,
    CuGeom, BV_INTRA,
};

fn geom(x: usize, y: usize, size: usize) -> CuGeom {
    CuGeom { x, y, size, pic_w: 256, pic_h: 256, ctb_log2: 6 }
}

#[test]
fn block_vectors_must_not_overlap_the_current_block() {
    let cu = geom(64, 64, 16);
    assert!(source_area(&cu, -16, 0).is_some());
    assert!(source_area(&cu, -15, 0).is_none());
    assert!(source_area(&cu, 0, -16).is_some());
    assert!(source_area(&cu, 0, -15).is_none());
    assert!(source_area(&cu, -16, -16).is_some());
}

#[test]
fn block_vectors_stay_inside_the_picture() {
    let cu = geom(0, 64, 16);
    assert!(source_area(&cu, -1, 0).is_none(), "source starts at x=-1");
    let cu = geom(64, 0, 16);
    assert!(source_area(&cu, 0, -1).is_none(), "source starts at y=-1");
}

#[test]
fn the_ctb_wavefront_bounds_how_far_right_an_above_reference_reaches() {
    let cu = geom(64, 64, 16);
    assert!(source_area(&cu, 64, -64).is_some(), "one CTB right, one up");
    assert!(
        source_area(&cu, 128, -64).is_none(),
        "two CTBs right of the current CTB is past the wavefront"
    );
}

#[test]
fn amvp_uses_the_left_group_first_and_drops_the_duplicate() {
    let always = |_: usize, _: usize| true;
    let motion = |x: usize, y: usize| -> Option<(i16, i16)> {
        if x < 64 {
            Some((-8, 0))
        } else if y < 64 {
            Some((0, -8))
        } else {
            None
        }
    };
    let preds = amvp_predictors(64, 64, 16, &always, &motion);
    assert_eq!(preds[0], (-8, 0));
    assert_eq!(preds[1], (0, -8));

    let no_left = |x: usize, _y: usize| x >= 64;
    let above_only = |_: usize, _: usize| Some((0i16, -8i16));
    let preds = amvp_predictors(64, 64, 16, &no_left, &above_only);
    assert_eq!(preds[0], (0, -8));
    assert_eq!(preds[1], (0, 0));
}

#[test]
fn intra_neighbors_give_boundary_strength_two() {
    assert_eq!(boundary_strength(BV_INTRA, pack_bv(-8, 0)), 2);
    assert_eq!(boundary_strength(pack_bv(-8, 0), BV_INTRA), 2);
    assert_eq!(boundary_strength(pack_bv(-8, 0), pack_bv(-8, 0)), 0);
    assert_eq!(boundary_strength(pack_bv(-8, 0), pack_bv(-9, 0)), 1);
    assert_eq!(boundary_strength(pack_bv(-8, 0), pack_bv(-8, -1)), 1);
}

#[test]
fn packing_round_trips_negative_vectors() {
    for bv in [(-1i16, -1i16), (0, 0), (-4096, 4095), (1234, -5678)] {
        assert_eq!(unpack_bv(pack_bv(bv.0, bv.1)), Some(bv));
    }
    assert_eq!(unpack_bv(BV_INTRA), None);
}

#[test]
fn the_hash_table_finds_a_repeated_block_and_skips_flat_ones() {
    let (w, h) = (64usize, 16usize);
    let mut y = vec![0u16; w * h];
    for row in 0..8 {
        for col in 0..8 {
            let v = ((row * 8 + col) * 3) as u16;
            y[row * w + col] = v;
            y[row * w + 32 + col] = v;
        }
    }
    let table = HashTable::build(&y, w, h);
    let hash = table.hash_at(8, 32, 0).expect("pattern is not flat");
    let matches = table.matches(8, hash);
    assert!(matches.contains(&(0, 0)));
    assert!(matches.contains(&(32, 0)));
    assert!(table.hash_at(8, 8, 0).is_none());
    assert_eq!(table.hash_at(8, 0, 0), table.hash_at(8, 32, 0));
}

#[test]
fn chroma_parity_only_constrains_subsampled_axes() {
    assert!(parity_ok(-3, -3, 1, 1));
    assert!(!parity_ok(-3, -4, 2, 2));
    assert!(parity_ok(-4, -4, 2, 2));
    assert!(parity_ok(-4, -3, 2, 1));
    assert!(!parity_ok(-3, -4, 2, 1));
}

#[test]
fn differences_of_vectors_are_exact() {
    assert_eq!(mvd_for((-8, 3), (4, -2)), (-12, 5));
}

#[test]
fn a_list_holds_the_places_of_its_hash() {
    let (w, h) = (48usize, 32usize);
    // Columns repeat every sixteen samples, rows every eight.
    let y: Vec<u16> =
        (0..w * h).map(|i| ((i % w % 16) * 5 + (i / w % 8) * (i % w % 16 + 1) * 11) as u16).collect();
    let table = HashTable::build(&y, w, h);
    let hash = table.hash_at(8, 8, 0).expect("not flat");
    let mut expected = Vec::new();
    for row in 0..=h - 8 {
        for col in 0..=w - 8 {
            if table.hash_at(8, col, row) == Some(hash) {
                expected.push((col as u32, row as u32));
            }
        }
    }
    assert_eq!(table.matches(8, hash), expected.as_slice());
    // Places lie eight samples apart.
    let places: Vec<(u32, u32)> =
        (0..4).flat_map(|row| [8, 24, 40].map(|col| (col, 8 * row))).collect();
    assert_eq!(expected, places);
    assert_eq!(table.hash_at(8, 9, 0), None);
}
