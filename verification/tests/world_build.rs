use hex_world::hex_tile::{hex_neighbours, hex_region, HexGraph, HexPlugin, TileExploredState};

fn assert_fully_symmetric(g: &HexGraph) {
    for (i, tile) in g.tiles.iter().enumerate() {
        for &n in tile.neighbours.iter() {
            assert!(
                g.tiles[n].neighbours.contains(&i),
                "edge {} -> {} has no reverse",
                i,
                n
            );
            assert!(
                hex_neighbours(&tile.position).contains(&g.tiles[n].position),
                "edge {} -> {} joins non-adjacent cells",
                i,
                n
            );
        }
    }
}

fn neighbour_coords_of(g: &HexGraph, pos: (i32, i32)) -> Vec<(i32, i32)> {
    let id = g.node_at(&pos).unwrap();
    let mut v: Vec<(i32, i32)> = g.tiles[id]
        .neighbours
        .iter()
        .map(|&n| g.tiles[n].position)
        .collect();
    v.sort();
    v
}

#[test]
fn built_world_has_one_tile_per_region_cell() {
    let g = HexPlugin.build(2);
    assert_eq!(g.tiles.len(), 19);
    assert_eq!(g.pending.len(), 0);
    for p in hex_region(2) {
        assert!(g.node_at(&p).is_some());
    }
    assert!(g.node_at(&(3, 0)).is_none());
    assert!(g.node_at(&(0, 3)).is_none());
}

#[test]
fn built_world_adjacency_is_symmetric() {
    let g = HexPlugin.build(3);
    assert_fully_symmetric(&g);
    // interior tiles have all six neighbours
    let centre = g.node_at(&(0, 0)).unwrap();
    assert_eq!(g.tiles[centre].neighbours.len(), 6);
}

#[test]
fn adjacency_is_independent_of_insertion_order() {
    let coords = hex_region(2);
    let mut reversed = coords.clone();
    reversed.reverse();

    let mut g1 = HexGraph::new();
    g1.spawn_hexes(&coords);
    g1.apply_neighbour_changes();

    let mut g2 = HexGraph::new();
    g2.spawn_hexes(&reversed);
    g2.apply_neighbour_changes();

    assert_fully_symmetric(&g1);
    assert_fully_symmetric(&g2);
    for p in coords {
        assert_eq!(
            neighbour_coords_of(&g1, p),
            neighbour_coords_of(&g2, p),
            "neighbour sets differ at {:?}",
            p
        );
    }
}

#[test]
fn back_edges_appear_only_after_the_deferred_pass() {
    let mut g = HexGraph::new();
    g.spawn_hexes(&vec![(0, 0), (0, 1)]);
    let first = g.node_at(&(0, 0)).unwrap();
    let second = g.node_at(&(0, 1)).unwrap();
    // the later tile found the earlier one at once
    assert_eq!(g.tiles[second].neighbours, vec![first]);
    // the earlier tile still owes the back-edge
    assert!(g.tiles[first].neighbours.is_empty());
    assert_eq!(g.pending, vec![(first, second)]);
    g.apply_neighbour_changes();
    assert_eq!(g.tiles[first].neighbours, vec![second]);
    assert!(g.pending.is_empty());
}

#[test]
fn new_tiles_start_hidden() {
    let g = HexPlugin.build(1);
    assert_eq!(g.tiles.len(), 7);
    for t in g.tiles.iter() {
        assert!(matches!(t.explored_state, TileExploredState::Hidden));
        assert_eq!(t.elevation, 0);
    }
}
