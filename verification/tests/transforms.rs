use simple_tiled::array_utils::{reflect, rotate, tile, weighted_random};
use simple_tiled::bitmap::{compose_bitmap, expand_tile_variants, pack_rgba, unpack_rgba};
use simple_tiled::symmetry::{get_variant_functions, symmetry_from_label, Symmetry};

#[test]
fn rotation_four_times_and_reflection_twice_are_identity() {
    for label in ["", "I", "L", "T", "\\", "//", "F", "weird"] {
        let (count, a, b) = get_variant_functions(label);
        for x in 0..count {
            let mut r = x;
            for _ in 0..4 {
                r = a[r as usize];
            }
            assert_eq!(r, x, "rotation order broken for label {label:?}");
            let twice = b[b[x as usize] as usize];
            assert_eq!(twice, x, "reflection not an involution for label {label:?}");
        }
    }
}

#[test]
fn symmetry_labels_resolve_as_documented() {
    assert_eq!(symmetry_from_label("I"), Symmetry::I);
    assert_eq!(symmetry_from_label("L"), Symmetry::L);
    assert_eq!(symmetry_from_label("T"), Symmetry::T);
    assert_eq!(symmetry_from_label("F"), Symmetry::F);
    assert_eq!(symmetry_from_label("\\"), Symmetry::Backslash);
    assert_eq!(symmetry_from_label("//"), Symmetry::Backslash);
    assert_eq!(symmetry_from_label(""), Symmetry::X);
    assert_eq!(symmetry_from_label("Q"), Symmetry::X);
    let (count, _, _) = get_variant_functions("T");
    assert_eq!(count, 4);
}

#[test]
fn weighted_random_zero_threshold_picks_first_positive() {
    assert_eq!(weighted_random(&vec![0, 0, 5, 3], 0), 2);
    assert_eq!(weighted_random(&vec![2, 3], 0), 0);
}

#[test]
fn weighted_random_threshold_beyond_total_picks_last_positive() {
    assert_eq!(weighted_random(&vec![2, 3, 0], 6), 1);
    assert_eq!(weighted_random(&vec![1, 1, 1], 100), 2);
}

#[test]
fn weighted_random_single_positive_weight_always_wins() {
    for threshold in [0u64, 1, 2, 3, 4] {
        assert_eq!(weighted_random(&vec![0, 4, 0], threshold), 1);
    }
}

#[test]
fn weighted_random_exact_threshold_counts_as_hit() {
    // Cumulative sums are 2 then 5: a threshold of exactly 2 stays at index 0.
    assert_eq!(weighted_random(&vec![2, 3], 2), 0);
    assert_eq!(weighted_random(&vec![2, 3], 3), 1);
}

#[test]
fn rotate_and_reflect_square_grids() {
    let grid = vec![1, 2, 3, 4];
    assert_eq!(rotate(&grid), vec![2, 4, 1, 3]);
    assert_eq!(reflect(&grid), vec![2, 1, 4, 3]);
    let nine: Vec<u32> = (1..=9).collect();
    assert_eq!(rotate(&nine), vec![3, 6, 9, 2, 5, 8, 1, 4, 7]);
    assert_eq!(reflect(&nine), vec![3, 2, 1, 6, 5, 4, 9, 8, 7]);
}

#[test]
fn tile_fills_row_major() {
    let filled = tile(|x, y| (x + 2 * y) as u32, 2);
    assert_eq!(filled, vec![0, 1, 2, 3]);
}

#[test]
fn rgba_packing_round_trips() {
    assert_eq!(pack_rgba(1, 2, 3, 4), 0x04030201);
    let (r, g, b, a) = unpack_rgba(0xCAFEBABE);
    assert_eq!(pack_rgba(r, g, b, a), 0xCAFEBABE);
    assert_eq!((r, g, b, a), (0xBE, 0xBA, 0xFE, 0xCA));
}

#[test]
fn tile_variants_expand_by_rotation_then_reflection() {
    let base = vec![1, 2, 3, 4];
    let variants = expand_tile_variants(base.clone(), 4);
    assert_eq!(variants.len(), 4);
    assert_eq!(variants[0], vec![1, 2, 3, 4]);
    assert_eq!(variants[1], vec![2, 4, 1, 3]);
    assert_eq!(variants[2], vec![4, 3, 2, 1]);
    assert_eq!(variants[3], vec![3, 1, 4, 2]);
    let eight = expand_tile_variants(base.clone(), 8);
    assert_eq!(eight[4], reflect(&eight[0]));
    assert_eq!(eight[7], reflect(&eight[3]));
}

#[test]
fn composition_places_tile_pixels_and_zeroes_unresolved() {
    let observed = vec![Some(0), None, Some(1), Some(0)];
    let tiles = vec![vec![7], vec![9]];
    let bitmap = compose_bitmap(&observed, &tiles, 2, 2, 1);
    assert_eq!(bitmap, vec![7, 0, 9, 7]);

    let observed_one = vec![Some(0)];
    let tiles_big = vec![vec![1, 2, 3, 4]];
    let bitmap_one = compose_bitmap(&observed_one, &tiles_big, 1, 1, 2);
    assert_eq!(bitmap_one, vec![1, 2, 3, 4]);
}
