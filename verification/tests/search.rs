use hex_world::graph_functions::{within_steps, GraphError};
use hex_world::hex_tile::HexPlugin;

#[test]
fn radius_zero_returns_exactly_the_start() {
    let g = HexPlugin.build(2);
    let start = g.node_at(&(0, 0)).unwrap();
    let found = within_steps(start, 0, &g.tiles).unwrap();
    assert_eq!(found, vec![(start, 0)]);
}

#[test]
fn radius_one_from_centre_is_centre_plus_six_neighbours() {
    let g = HexPlugin.build(2);
    let start = g.node_at(&(0, 0)).unwrap();
    let found = within_steps(start, 1, &g.tiles).unwrap();
    assert_eq!(found.len(), 7);
    assert_eq!(found[0], (start, 0));
    let mut coords: Vec<((i32, i32), usize)> = found
        .iter()
        .map(|&(id, d)| (g.tiles[id].position, d))
        .collect();
    coords.sort();
    let mut expected = vec![
        ((0, 0), 0),
        ((1, 0), 1),
        ((1, -1), 1),
        ((0, 1), 1),
        ((0, -1), 1),
        ((-1, 0), 1),
        ((-1, -1), 1),
    ];
    expected.sort();
    assert_eq!(coords, expected);
}

#[test]
fn radius_large_enough_covers_the_whole_region() {
    let g = HexPlugin.build(2);
    let start = g.node_at(&(0, 0)).unwrap();
    let found = within_steps(start, 2, &g.tiles).unwrap();
    assert_eq!(found.len(), 19);
    let again = within_steps(start, 10, &g.tiles).unwrap();
    assert_eq!(again.len(), 19);
}

#[test]
fn distances_are_nondecreasing_and_each_node_appears_once() {
    let g = HexPlugin.build(3);
    let start = g.node_at(&(-1, 0)).unwrap();
    let found = within_steps(start, 3, &g.tiles).unwrap();
    for w in found.windows(2) {
        assert!(w[0].1 <= w[1].1);
    }
    for i in 0..found.len() {
        for j in (i + 1)..found.len() {
            assert_ne!(found[i].0, found[j].0);
        }
    }
}

#[test]
fn reported_distance_is_the_true_hop_distance() {
    // on the staggered layout, (2, 1) is two hops from (0, 0)
    let g = HexPlugin.build(2);
    let start = g.node_at(&(0, 0)).unwrap();
    let found = within_steps(start, 2, &g.tiles).unwrap();
    let far = g.node_at(&(2, 1)).unwrap();
    let entry = found.iter().find(|&&(id, _)| id == far).unwrap();
    assert_eq!(entry.1, 2);
    // and it is absent from a radius-1 search
    let near = within_steps(start, 1, &g.tiles).unwrap();
    assert!(near.iter().all(|&(id, _)| id != far));
}

#[test]
fn unknown_start_is_an_invalid_entity() {
    let g = HexPlugin.build(1);
    let r = within_steps(g.tiles.len(), 3, &g.tiles);
    assert!(matches!(r, Err(GraphError::InvalidEntity)));
}

#[test]
fn search_on_empty_graph_fails() {
    let g = hex_world::hex_tile::HexGraph::new();
    let r = within_steps(0, 0, &g.tiles);
    assert!(matches!(r, Err(GraphError::InvalidEntity)));
}
