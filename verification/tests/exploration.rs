use hex_world::graph_functions::GraphError;
use hex_world::hex_tile::{hex_region, HexGraph, HexPlugin, TileExploredState};
use hex_world::local_world::{update_tile_states, PlayerMovedEvent};

fn states_of(g: &HexGraph) -> Vec<TileExploredState> {
    g.tiles.iter().map(|t| t.explored_state).collect()
}

/// Two patches far enough apart that their radius-3 regions cannot meet.
fn two_patch_world() -> HexGraph {
    let mut coords = hex_region(2);
    for p in hex_region(1) {
        coords.push((p.0 + 20, p.1 + 20));
    }
    let mut g = HexGraph::new();
    g.spawn_hexes(&coords);
    g.apply_neighbour_changes();
    g
}

#[test]
fn disjoint_regions_end_explored_and_visible() {
    let mut g = two_patch_world();
    let ev = PlayerMovedEvent {
        from: (0, 0),
        to: (20, 20),
    };
    let (left, entered) = update_tile_states(&mut g, &ev).unwrap();
    // radius 3 covers each patch completely
    assert_eq!(left.len(), 19);
    assert_eq!(entered.len(), 7);
    for t in g.tiles.iter() {
        if t.position.0 < 10 {
            assert!(
                matches!(t.explored_state, TileExploredState::Explored),
                "{:?} should be explored",
                t.position
            );
        } else {
            assert!(
                matches!(t.explored_state, TileExploredState::Visible),
                "{:?} should be visible",
                t.position
            );
        }
    }
}

#[test]
fn entered_region_overrides_vacated_region() {
    // moving within one patch: the overlap of the two radius-3 regions ends
    // visible, tiles only in the vacated region end explored
    let mut g = HexPlugin.build(5);
    let ev = PlayerMovedEvent {
        from: (-5, 0),
        to: (5, 0),
    };
    update_tile_states(&mut g, &ev).unwrap();
    let near_to = g.node_at(&(5, 0)).unwrap();
    assert!(matches!(
        g.tiles[near_to].explored_state,
        TileExploredState::Visible
    ));
    let near_from = g.node_at(&(-5, 0)).unwrap();
    assert!(matches!(
        g.tiles[near_from].explored_state,
        TileExploredState::Explored
    ));
}

#[test]
fn untouched_tiles_stay_hidden() {
    let mut g = two_patch_world();
    let ev = PlayerMovedEvent {
        from: (0, 0),
        to: (0, 0),
    };
    update_tile_states(&mut g, &ev).unwrap();
    // the far patch was never within reach
    let far = g.node_at(&(20, 20)).unwrap();
    assert!(matches!(
        g.tiles[far].explored_state,
        TileExploredState::Hidden
    ));
}

#[test]
fn moving_away_demotes_visible_to_explored() {
    let mut g = two_patch_world();
    let stay = PlayerMovedEvent {
        from: (0, 0),
        to: (0, 0),
    };
    update_tile_states(&mut g, &stay).unwrap();
    let origin = g.node_at(&(0, 0)).unwrap();
    assert!(matches!(
        g.tiles[origin].explored_state,
        TileExploredState::Visible
    ));
    let away = PlayerMovedEvent {
        from: (0, 0),
        to: (20, 20),
    };
    update_tile_states(&mut g, &away).unwrap();
    assert!(matches!(
        g.tiles[origin].explored_state,
        TileExploredState::Explored
    ));
}

#[test]
fn replaying_an_event_twice_equals_replaying_it_once() {
    let ev = PlayerMovedEvent {
        from: (0, 0),
        to: (20, 20),
    };
    let mut once = two_patch_world();
    update_tile_states(&mut once, &ev).unwrap();
    let mut twice = two_patch_world();
    update_tile_states(&mut twice, &ev).unwrap();
    update_tile_states(&mut twice, &ev).unwrap();
    assert_eq!(states_of(&once), states_of(&twice));
}

#[test]
fn event_with_unknown_endpoint_is_dropped() {
    let mut g = two_patch_world();
    let before = states_of(&g);
    let bad_to = PlayerMovedEvent {
        from: (0, 0),
        to: (50, 50),
    };
    assert!(matches!(
        update_tile_states(&mut g, &bad_to),
        Err(GraphError::InvalidEntity)
    ));
    let bad_from = PlayerMovedEvent {
        from: (50, 50),
        to: (0, 0),
    };
    assert!(matches!(
        update_tile_states(&mut g, &bad_from),
        Err(GraphError::InvalidEntity)
    ));
    assert_eq!(before, states_of(&g));
}
