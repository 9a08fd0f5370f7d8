use hex_world::graph_functions::GraphError;
use hex_world::hex_tile::{hex_neighbours, HexPlugin};
use hex_world::local_terrain::{
    biome_at, classify_biome, elevation_at, BiomeTag, HeightMap, TerrainPlugin, HIGHLAND_CUTOFF,
};

/// Fill heights for every tile of `g` and every neighbour coordinate, taking
/// given values where listed and `default` elsewhere.
fn heights_for(
    g: &hex_world::hex_tile::HexGraph,
    given: &[((i32, i32), i64)],
    default: i64,
) -> HeightMap {
    let mut hm = HeightMap::new();
    for &(p, h) in given.iter() {
        hm.insert(p, h);
    }
    for t in g.tiles.iter() {
        if hm.height_at(&t.position).is_none() {
            hm.insert(t.position, default);
        }
        for n in hex_neighbours(&t.position) {
            if hm.height_at(&n).is_none() {
                hm.insert(n, default);
            }
        }
    }
    hm
}

#[test]
fn height_map_lookup_and_overwrite() {
    let mut hm = HeightMap::new();
    assert_eq!(hm.height_at(&(0, 0)), None);
    hm.insert((0, 0), 42);
    hm.insert((1, 2), -7);
    assert_eq!(hm.height_at(&(0, 0)), Some(42));
    assert_eq!(hm.height_at(&(1, 2)), Some(-7));
    hm.insert((0, 0), 99);
    assert_eq!(hm.height_at(&(0, 0)), Some(99));
    assert_eq!(hm.height_at(&(1, 2)), Some(-7));
    assert_eq!(hm.height_at(&(5, 5)), None);
}

#[test]
fn classification_cutoffs_are_exact() {
    // exactly at the cutoff is lowland, just above is not
    assert_eq!(classify_biome(HIGHLAND_CUTOFF, 6), BiomeTag::Lowland);
    assert_eq!(classify_biome(HIGHLAND_CUTOFF + 1, 0), BiomeTag::Highland);
    // exactly three neighbours at or below is still highland, four is rock
    assert_eq!(classify_biome(600_000, 3), BiomeTag::Highland);
    assert_eq!(classify_biome(600_000, 4), BiomeTag::Rock);
    assert_eq!(classify_biome(-100_000, 6), BiomeTag::Lowland);
}

#[test]
fn high_tile_above_four_neighbours_is_rock() {
    let mut g = HexPlugin.build(1);
    // four neighbours at or below 0.6 units, two above
    let hm = heights_for(
        &g,
        &[
            ((0, 0), 600_000),
            ((1, 0), 600_000),
            ((1, -1), 100_000),
            ((0, 1), 0),
            ((0, -1), -50_000),
            ((-1, 0), 700_000),
            ((-1, -1), 900_000),
        ],
        999_999,
    );
    TerrainPlugin.build(&mut g, &hm);
    assert_eq!(biome_at(&g, &(0, 0)), Ok(BiomeTag::Rock));
    assert_eq!(elevation_at(&g, &(0, 0)), Ok(600_000));
}

#[test]
fn high_tile_above_only_two_neighbours_is_highland() {
    let mut g = HexPlugin.build(1);
    let hm = heights_for(
        &g,
        &[
            ((0, 0), 600_000),
            ((1, 0), 700_000),
            ((1, -1), 700_000),
            ((0, 1), 0),
            ((0, -1), -50_000),
            ((-1, 0), 700_000),
            ((-1, -1), 900_000),
        ],
        999_999,
    );
    TerrainPlugin.build(&mut g, &hm);
    assert_eq!(biome_at(&g, &(0, 0)), Ok(BiomeTag::Highland));
}

#[test]
fn low_tile_is_lowland_regardless_of_ridge_count() {
    let mut g = HexPlugin.build(1);
    let hm = heights_for(&g, &[((0, 0), 400_000)], 999_999);
    TerrainPlugin.build(&mut g, &hm);
    assert_eq!(biome_at(&g, &(0, 0)), Ok(BiomeTag::Lowland));
}

#[test]
fn terrain_queries_are_deterministic_across_repeated_calls() {
    let mut g = HexPlugin.build(1);
    let hm = heights_for(&g, &[((0, 0), 600_000)], 100_000);
    TerrainPlugin.build(&mut g, &hm);
    let e1 = elevation_at(&g, &(0, 0));
    let e2 = elevation_at(&g, &(0, 0));
    assert_eq!(e1, e2);
    let b1 = biome_at(&g, &(1, 0));
    let b2 = biome_at(&g, &(1, 0));
    assert_eq!(b1, b2);
}

#[test]
fn terrain_query_outside_the_world_is_an_invalid_coordinate() {
    let g = HexPlugin.build(1);
    assert_eq!(
        elevation_at(&g, &(9, 9)),
        Err(GraphError::InvalidCoordinate)
    );
    assert_eq!(biome_at(&g, &(9, 9)), Err(GraphError::InvalidCoordinate));
}
