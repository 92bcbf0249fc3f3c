use simple_tiled::simple_tiled::{ConfigError, NeighborRule, SimpleTiledModel, TileRecord};
use simple_tiled::symmetry::Symmetry;

fn tile(name: &str, symmetry: Symmetry, weight: u32) -> TileRecord {
    TileRecord { name: String::from(name), symmetry, weight }
}

fn rule(left: &str, lo: usize, right: &str, ro: usize) -> NeighborRule {
    NeighborRule {
        left: String::from(left),
        left_orientation: lo,
        right: String::from(right),
        right_orientation: ro,
    }
}

#[test]
fn action_table_identity_transform() {
    let tiles = vec![
        tile("corner", Symmetry::L, 2),
        tile("line", Symmetry::I, 3),
        tile("blob", Symmetry::X, 1),
        tile("free", Symmetry::F, 1),
    ];
    let rules = vec![rule("corner", 0, "line", 0)];
    let model = SimpleTiledModel::new(&tiles, &rules, 3).unwrap();
    assert_eq!(model.t, 4 + 2 + 1 + 8);
    for v in 0..model.t {
        assert_eq!(model.action[v][0], v);
    }
}

#[test]
fn propagator_direction_symmetric() {
    let tiles = vec![
        tile("corner", Symmetry::L, 1),
        tile("line", Symmetry::I, 1),
        tile("blob", Symmetry::X, 1),
    ];
    let rules = vec![
        rule("corner", 0, "line", 0),
        rule("line", 1, "blob", 0),
        rule("blob", 0, "blob", 0),
        rule("corner", 2, "corner", 1),
    ];
    let model = SimpleTiledModel::new(&tiles, &rules, 2).unwrap();
    for x in 0..model.t {
        for y in 0..model.t {
            assert_eq!(
                model.propagator[0][x].contains(&y),
                model.propagator[2][y].contains(&x),
            );
            assert_eq!(
                model.propagator[1][x].contains(&y),
                model.propagator[3][y].contains(&x),
            );
        }
    }
}

#[test]
fn identical_seeds_reproduce_identical_grids() {
    let tiles = vec![
        tile("grass", Symmetry::X, 5),
        tile("road", Symmetry::I, 2),
        tile("bend", Symmetry::L, 1),
    ];
    let rules = vec![
        rule("grass", 0, "grass", 0),
        rule("grass", 0, "road", 1),
        rule("road", 0, "road", 0),
        rule("road", 1, "bend", 0),
        rule("bend", 2, "grass", 0),
    ];
    let seed: [u8; 32] = [7; 32];
    let mut first = SimpleTiledModel::new(&tiles, &rules, 6).unwrap();
    let mut second = SimpleTiledModel::new(&tiles, &rules, 6).unwrap();
    let a = first.run(-1, seed);
    let b = second.run(-1, seed);
    assert_eq!(a, b);
    assert_eq!(first.observed, second.observed);
    // A different seed is at least allowed to differ; the runs above must not.
    let mut third = SimpleTiledModel::new(&tiles, &rules, 6).unwrap();
    let c = third.run(-1, seed);
    assert_eq!(a, c);
    assert_eq!(first.observed, third.observed);
}

#[test]
fn trivial_tileset_always_resolves() {
    let tiles = vec![tile("only", Symmetry::X, 1)];
    let rules = vec![rule("only", 0, "only", 0)];
    for size in [1usize, 2, 5, 8] {
        let mut model = SimpleTiledModel::new(&tiles, &rules, size).unwrap();
        let ok = model.run(-1, [3; 32]);
        assert!(ok);
        for cell in 0..size * size {
            assert_eq!(model.observed[cell], Some(0));
        }
    }
}

#[test]
fn incompatible_orientations_forced_adjacent_contradict() {
    // A two-orientation stripe whose only rule chains orientation 0 with
    // itself: collapsing a cell to orientation 0 forces its whole column to
    // orientation 0, while orientation 1 forces its whole row to orientation
    // 1; the two orientations have no compatible neighbor rule in any
    // direction, so once both appear their stripes cross and the crossing
    // cell runs out of candidates.
    let tiles = vec![tile("stripe", Symmetry::I, 1)];
    let rules = vec![rule("stripe", 0, "stripe", 0)];
    let mut model = SimpleTiledModel::new(&tiles, &rules, 8).unwrap();
    let ok = model.run(-1, [5; 32]);
    assert!(!ok);
    assert!(model.contradiction);
    assert!(model.sums_of_ones.iter().any(|&c| c == 0));
}

#[test]
fn zero_iteration_limit_leaves_grid_unresolved() {
    let tiles = vec![tile("only", Symmetry::X, 1)];
    let rules = vec![rule("only", 0, "only", 0)];
    let mut model = SimpleTiledModel::new(&tiles, &rules, 2).unwrap();
    let ok = model.run(0, [3; 32]);
    assert!(ok);
    for cell in 0..4 {
        assert_eq!(model.observed[cell], None);
    }
}

#[test]
fn ban_lowers_weight_key_and_bottoms_out_at_contradiction() {
    let tiles = vec![tile("a", Symmetry::X, 3), tile("b", Symmetry::X, 5)];
    let rules = vec![rule("a", 0, "a", 0), rule("b", 0, "b", 0)];
    let mut model = SimpleTiledModel::new(&tiles, &rules, 2).unwrap();
    assert_eq!(model.sums_of_weights[0], 8);
    assert_eq!(model.sums_of_ones[0], 2);
    model.ban(0, 1);
    assert_eq!(model.sums_of_weights[0], 3);
    assert_eq!(model.sums_of_ones[0], 1);
    assert!(!model.contradiction);
    model.ban(0, 0);
    assert_eq!(model.sums_of_weights[0], 0);
    assert_eq!(model.sums_of_ones[0], 0);
    assert!(model.contradiction);
}

fn expect_error(result: Result<SimpleTiledModel, ConfigError>, expected: ConfigError) {
    match result {
        Err(e) => assert_eq!(e, expected),
        Ok(_) => panic!("construction unexpectedly succeeded"),
    }
}

#[test]
fn construction_rejects_bad_tilesets() {
    let no_tiles: Vec<TileRecord> = Vec::new();
    let no_rules: Vec<NeighborRule> = Vec::new();
    expect_error(
        SimpleTiledModel::new(&no_tiles, &no_rules, 2),
        ConfigError::EmptyTileset,
    );

    let zero = vec![tile("a", Symmetry::X, 1), tile("b", Symmetry::X, 0)];
    expect_error(SimpleTiledModel::new(&zero, &no_rules, 2), ConfigError::ZeroWeight);

    let heavy = vec![tile("a", Symmetry::X, 4294967295), tile("b", Symmetry::X, 2)];
    expect_error(
        SimpleTiledModel::new(&heavy, &no_rules, 2),
        ConfigError::WeightOverflow,
    );

    let tiles = vec![tile("a", Symmetry::I, 1)];
    let unknown = vec![rule("a", 0, "missing", 0)];
    expect_error(SimpleTiledModel::new(&tiles, &unknown, 2), ConfigError::UnknownTile);

    let twisted = vec![rule("a", 5, "a", 0)];
    expect_error(SimpleTiledModel::new(&tiles, &twisted, 2), ConfigError::BadOrientation);
}

#[test]
fn text_output_names_cells_row_by_row() {
    let tiles = vec![tile("a", Symmetry::X, 1)];
    let rules = vec![rule("a", 0, "a", 0)];
    let mut model = SimpleTiledModel::new(&tiles, &rules, 2).unwrap();
    assert_eq!(
        model.text_output(),
        "unobserved, unobserved, \nunobserved, unobserved, \n",
    );
    let ok = model.run(-1, [9; 32]);
    assert!(ok);
    assert_eq!(model.text_output(), "a 0, a 0, \na 0, a 0, \n");
}

#[test]
fn support_counters_count_admissible_supporters() {
    let tiles = vec![
        tile("grass", Symmetry::X, 2),
        tile("road", Symmetry::I, 1),
    ];
    let rules = vec![
        rule("grass", 0, "grass", 0),
        rule("grass", 0, "road", 1),
        rule("road", 0, "road", 0),
    ];
    let mut model = SimpleTiledModel::new(&tiles, &rules, 3).unwrap();
    let ok = model.run(-1, [11; 32]);
    assert!(ok);
    assert!(model.stack.is_empty());
    // After the final drain, each admissible variant's counter equals the
    // number of admissible variants in the opposite neighbor that list it as
    // compatible; spot-check every cell with all four in-grid directions.
    let opposite = [2, 3, 0, 1];
    let deltas: [(isize, isize); 4] = [(-1, 0), (0, 1), (1, 0), (0, -1)];
    for y in 0..3isize {
        for x in 0..3isize {
            let c = (x + y * 3) as usize;
            for v in 0..model.t {
                if !model.wave[c][v] {
                    continue;
                }
                for d in 0..4 {
                    let (dx, dy) = deltas[opposite[d]];
                    let (px, py) = (x + dx, y + dy);
                    if px < 0 || px >= 3 || py < 0 || py >= 3 {
                        continue;
                    }
                    let p = (px + py * 3) as usize;
                    let expected = (0..model.t)
                        .filter(|&u| model.wave[p][u] && model.propagator[d][u].contains(&v))
                        .count();
                    assert_eq!(model.compatible[c][v][d], expected);
                }
            }
        }
    }
}
