//! Movement events and the per-tile exploration state machine.
//!
//! Each movement event is replayed through two bounded searches: every tile
//! within the visibility radius of the vacated coordinate becomes `Explored`
//! (a visible tile the actor walks away from is demoted, a hidden one is
//! revealed as previously seen), then every tile within the radius of the
//! entered coordinate becomes `Visible`, overriding the first step where the
//! two regions overlap. A tile the actor has never been near stays `Hidden`.

use vstd::prelude::*;

use crate::graph_functions::{
    bfs_result_correct, discovered, graph_view, lemma_bfs_discovers_iff_reachable,
    reachable_within, within_steps, GraphError,
};
use crate::hex_tile::{HexGraph, TileExploredState};
use crate::local_terrain::HeightMap;

verus! {

/// A discrete jump of the tracked actor from one coordinate to another.
#[derive(Clone, Copy, Debug)]
pub struct PlayerMovedEvent {
    pub from: (i32, i32),
    pub to: (i32, i32),
}

/// Marker for the tracked actor whose movement events drive the exploration
/// states.
pub struct CharacterMarker;

/// How many hops around the actor are visible.
pub const VISIBILITY_RADIUS: usize = 3;

/// The state a tile with prior state `prior` ends in after one movement from
/// `from` to `to` over the adjacency `adj`: tiles of the entered region end
/// `Visible`, remaining tiles of the vacated region end `Explored`, and every
/// other tile keeps its state.
pub open spec fn spec_updated_state(
    adj: Seq<Seq<usize>>,
    from: int,
    to: int,
    prior: TileExploredState,
    t: int,
) -> TileExploredState {
    if reachable_within(adj, to, t, VISIBILITY_RADIUS as nat) {
        TileExploredState::Visible
    } else if reachable_within(adj, from, t, VISIBILITY_RADIUS as nat) {
        TileExploredState::Explored
    } else {
        prior
    }
}

/// Replaying one movement event twice is the same as replaying it once: the
/// regions a movement event touches depend only on the adjacency and the two
/// endpoints, which an update never changes, and the state it writes into
/// them does not depend on the prior state.
pub proof fn lemma_update_idempotent(
    adj: Seq<Seq<usize>>,
    from: int,
    to: int,
    prior: TileExploredState,
    t: int,
)
    ensures
        spec_updated_state(adj, from, to, spec_updated_state(adj, from, to, prior, t), t)
            == spec_updated_state(adj, from, to, prior, t),
{
}

/// The local-world entry point: builds the tile graph for a hex-shaped
/// region and assigns its terrain, handing out a world ready for movement
/// events.
pub struct LocalWorldPlugin;

impl LocalWorldPlugin {
    /// Build the world: a fully linked tile graph over the hex-shaped region
    /// of the given size, every tile hidden, with elevation and biome
    /// assigned from the height table.
    pub fn build(&self, hex_size: i32, heights: &HeightMap) -> (g: HexGraph)
        requires
            0 <= hex_size <= i32::MAX / 4,
            heights.wf(),
            forall|p: (i32, i32)|
                crate::hex_tile::in_hex_region(hex_size as int, p.0 as int, p.1 as int)
                    ==> crate::local_terrain::heights_cover(*heights, p),
        ensures
            g.wf(),
            g.pending@.len() == 0,
            g.fully_linked(),
            forall|p: (i32, i32)| #[trigger]
                g.spec_has_node(p) <==> crate::hex_tile::in_hex_region(
                    hex_size as int,
                    p.0 as int,
                    p.1 as int,
                ),
            forall|i: int|
                0 <= i < g.spec_len() ==> (#[trigger] g.tiles@[i]).explored_state
                    == TileExploredState::Hidden,
            forall|i: int|
                0 <= i < g.spec_len() ==> #[trigger] g.tiles@[i].elevation
                    == heights.spec_height(g.position_of(i)),
            forall|i: int|
                0 <= i < g.spec_len() ==> #[trigger] g.tiles@[i].biome
                    == crate::local_terrain::spec_biome_at(*heights, g.position_of(i)),
    {
        let hex_plugin = crate::hex_tile::HexPlugin;
        let mut g = hex_plugin.build(hex_size);
        let ghost g0 = g;
        proof {
            assert forall|i: int| 0 <= i < g0.spec_len() implies crate::local_terrain::heights_cover(
                *heights,
                #[trigger] g0.position_of(i),
            ) by {
                assert(crate::hex_tile::in_hex_region(
                    hex_size as int,
                    g0.position_of(i).0 as int,
                    g0.position_of(i).1 as int,
                ));
            }
        }
        let terrain_plugin = crate::local_terrain::TerrainPlugin;
        terrain_plugin.build(&mut g, heights);
        proof {
            assert forall|p: (i32, i32)| #[trigger] g.spec_has_node(p)
                <==> crate::hex_tile::in_hex_region(hex_size as int, p.0 as int, p.1 as int) by {
                assert forall|i: int| 0 <= i < g.spec_len() implies #[trigger] g.position_of(i)
                    == g0.position_of(i) by {
                    assert(g.tiles@[i].position == g0.tiles@[i].position);
                }
                if g.spec_has_node(p) {
                    let i = choose|i: int|
                        0 <= i < g.spec_len() && #[trigger] g.position_of(i) == p;
                    assert(g0.position_of(i) == p);
                    assert(g0.spec_has_node(p));
                }
                if g0.spec_has_node(p) {
                    let i = choose|i: int|
                        0 <= i < g0.spec_len() && #[trigger] g0.position_of(i) == p;
                    assert(g.position_of(i) == p);
                    assert(g.spec_has_node(p));
                }
            }
            assert(g.fully_linked()) by {
                g.lemma_settled_graph_fully_linked();
            }
            assert forall|i: int| 0 <= i < g.spec_len() implies (#[trigger] g.tiles@[i])
                .explored_state == TileExploredState::Hidden by {
                assert(g.tiles@[i].explored_state == g0.tiles@[i].explored_state);
            }
            assert forall|i: int| 0 <= i < g.spec_len() implies #[trigger] g.tiles@[i].elevation
                == heights.spec_height(g.position_of(i)) by {
                assert(g.tiles@[i].elevation == heights.spec_height(g0.position_of(i)));
                assert(g.tiles@[i].position == g0.tiles@[i].position);
            }
            assert forall|i: int| 0 <= i < g.spec_len() implies #[trigger] g.tiles@[i].biome
                == crate::local_terrain::spec_biome_at(*heights, g.position_of(i)) by {
                assert(g.tiles@[i].biome == crate::local_terrain::spec_biome_at(
                    *heights,
                    g0.position_of(i),
                ));
                assert(g.tiles@[i].position == g0.tiles@[i].position);
            }
        }
        g
    }
}

/// An entry among the first `k` of a search result reports node `i`.
spec fn prefix_reports(out: Seq<(usize, usize)>, k: int, i: int) -> bool {
    exists|t: int| 0 <= t < k && (#[trigger] out[t]).0 as int == i
}

/// Mark every tile a search reported with one state; nothing else changes.
fn mark_tiles(graph: &mut HexGraph, found: &Vec<(usize, usize)>, state: TileExploredState)
    requires
        old(graph).wf(),
        forall|k: int|
            0 <= k < found@.len() ==> (#[trigger] found@[k]).0 < old(graph).spec_len(),
    ensures
        final(graph).wf(),
        final(graph).spec_len() == old(graph).spec_len(),
        final(graph).pending@ == old(graph).pending@,
        forall|i: int|
            0 <= i < old(graph).spec_len() ==> {
                let t0 = #[trigger] old(graph).tiles@[i];
                let t1 = final(graph).tiles@[i];
                &&& t1.position == t0.position
                &&& t1.neighbours@ == t0.neighbours@
                &&& t1.elevation == t0.elevation
                &&& t1.biome == t0.biome
            },
        forall|i: int|
            0 <= i < old(graph).spec_len() ==> (#[trigger] final(graph).tiles@[i]).explored_state
                == (if discovered(found@, i) {
                state
            } else {
                old(graph).tiles@[i].explored_state
            }),
{
    let ghost g0 = *old(graph);
    let n = graph.tiles.len();
    let mut k: usize = 0;
    while k < found.len()
        invariant
            g0.wf(),
            n == g0.spec_len(),
            k <= found@.len(),
            graph.spec_len() == n,
            graph.pending@ == g0.pending@,
            forall|t: int| 0 <= t < found@.len() ==> (#[trigger] found@[t]).0 < n,
            forall|i: int|
                0 <= i < n ==> {
                    let t0 = #[trigger] g0.tiles@[i];
                    let t1 = graph.tiles@[i];
                    &&& t1.position == t0.position
                    &&& t1.neighbours@ == t0.neighbours@
                    &&& t1.elevation == t0.elevation
                    &&& t1.biome == t0.biome
                },
            forall|i: int|
                0 <= i < n ==> (#[trigger] graph.tiles@[i]).explored_state == (if prefix_reports(
                    found@,
                    k as int,
                    i,
                ) {
                    state
                } else {
                    g0.tiles@[i].explored_state
                }),
        decreases found@.len() - k,
    {
        let id = found[k].0;
        let ghost gp = *graph;
        graph.tiles[id].explored_state = state;
        proof {
            assert(found@[k as int].0 as int == id as int);
            assert forall|i: int| 0 <= i < n implies (#[trigger] graph.tiles@[i]).explored_state
                == (if prefix_reports(found@, k + 1, i) {
                state
            } else {
                g0.tiles@[i].explored_state
            }) by {
                if i == id as int {
                    assert(prefix_reports(found@, k + 1, i));
                } else {
                    assert(graph.tiles@[i] == gp.tiles@[i]);
                    if prefix_reports(found@, k + 1, i) {
                        let t = choose|t: int|
                            0 <= t < k + 1 && (#[trigger] found@[t]).0 as int == i;
                        assert(t < k);
                        assert(prefix_reports(found@, k as int, i));
                    }
                    if prefix_reports(found@, k as int, i) {
                        let t = choose|t: int|
                            0 <= t < k && (#[trigger] found@[t]).0 as int == i;
                        assert(prefix_reports(found@, k + 1, i));
                    }
                }
            }
        }
        k = k + 1;
    }
    proof {
        HexGraph::lemma_wf_transfer(g0, *graph);
        assert forall|i: int| 0 <= i < n implies (#[trigger] graph.tiles@[i]).explored_state == (
        if discovered(found@, i) {
            state
        } else {
            g0.tiles@[i].explored_state
        }) by {
            if discovered(found@, i) {
                let t = choose|t: int|
                    0 <= t < found@.len() && (#[trigger] found@[t]).0 as int == i;
                assert(prefix_reports(found@, found@.len() as int, i));
            }
            if prefix_reports(found@, found@.len() as int, i) {
                let t = choose|t: int|
                    0 <= t < found@.len() && (#[trigger] found@[t]).0 as int == i;
                assert(discovered(found@, i));
            }
        }
    }
}

/// Replay one movement event: tiles within the visibility radius of the
/// vacated coordinate become `Explored`, then tiles within the radius of the
/// entered coordinate become `Visible`. Returns the two search results — the
/// writes of the two steps, in order, as `(id, hop distance)` pairs — for a
/// collaborator to turn into change notifications. When either endpoint has
/// no tile the event is dropped: the graph is unchanged and `InvalidEntity`
/// is reported.
pub fn update_tile_states(graph: &mut HexGraph, event: &PlayerMovedEvent) -> (r: Result<
    (Vec<(usize, usize)>, Vec<(usize, usize)>),
    GraphError,
>)
    requires
        old(graph).wf(),
    ensures
        final(graph).wf(),
        final(graph).spec_len() == old(graph).spec_len(),
        final(graph).pending@ == old(graph).pending@,
        forall|i: int|
            0 <= i < old(graph).spec_len() ==> {
                let t0 = #[trigger] old(graph).tiles@[i];
                let t1 = final(graph).tiles@[i];
                &&& t1.position == t0.position
                &&& t1.neighbours@ == t0.neighbours@
                &&& t1.elevation == t0.elevation
                &&& t1.biome == t0.biome
            },
        match r {
            Ok(found) => {
                let adj = graph_view(old(graph).tiles@);
                let f = old(graph).spec_node_at(event.from);
                let t = old(graph).spec_node_at(event.to);
                &&& old(graph).spec_has_node(event.from)
                &&& old(graph).spec_has_node(event.to)
                &&& bfs_result_correct(adj, f, VISIBILITY_RADIUS as int, found.0@)
                &&& bfs_result_correct(adj, t, VISIBILITY_RADIUS as int, found.1@)
                &&& forall|i: int|
                    0 <= i < old(graph).spec_len() ==> (#[trigger] final(graph).tiles@[i])
                        .explored_state == spec_updated_state(
                        adj,
                        f,
                        t,
                        old(graph).tiles@[i].explored_state,
                        i,
                    )
            },
            Err(e) => {
                &&& e == GraphError::InvalidEntity
                &&& *final(graph) == *old(graph)
                &&& !(old(graph).spec_has_node(event.from) && old(graph).spec_has_node(event.to))
            },
        },
{
    let ghost g0 = *old(graph);
    let from_id = match graph.node_at(&event.from) {
        Some(i) => i,
        None => {
            return Err(GraphError::InvalidEntity);
        }
    };
    let to_id = match graph.node_at(&event.to) {
        Some(i) => i,
        None => {
            return Err(GraphError::InvalidEntity);
        }
    };
    proof {
        assert(g0.spec_has_node(event.from));
        assert(g0.spec_has_node(event.to));
        assert(g0.spec_node_at(event.from) == from_id as int) by {
            let i = g0.spec_node_at(event.from);
            assert(0 <= i < g0.spec_len() && g0.position_of(i) == event.from);
        }
        assert(g0.spec_node_at(event.to) == to_id as int) by {
            let i = g0.spec_node_at(event.to);
            assert(0 <= i < g0.spec_len() && g0.position_of(i) == event.to);
        }
        assert(graph_view(g0.tiles@).len() == g0.spec_len());
    }
    let left = match within_steps(from_id, VISIBILITY_RADIUS, &graph.tiles) {
        Ok(v) => v,
        Err(e) => {
            proof {
                assert(false);
            }
            return Err(e);
        }
    };
    let entered = match within_steps(to_id, VISIBILITY_RADIUS, &graph.tiles) {
        Ok(v) => v,
        Err(e) => {
            proof {
                assert(false);
            }
            return Err(e);
        }
    };
    let ghost adj = graph_view(g0.tiles@);
    mark_tiles(graph, &left, TileExploredState::Explored);
    proof {
        // the second search's contract is stated over the unchanged adjacency
        assert(graph_view(graph.tiles@) =~= adj) by {
            assert forall|i: int| 0 <= i < g0.spec_len() implies graph_view(
                graph.tiles@,
            )[i] == adj[i] by {
                assert(graph.tiles@[i].neighbours@ == g0.tiles@[i].neighbours@);
            }
        }
    }
    let ghost g1 = *graph;
    mark_tiles(graph, &entered, TileExploredState::Visible);
    proof {
        lemma_bfs_discovers_iff_reachable(adj, from_id as int, VISIBILITY_RADIUS as int, left@);
        lemma_bfs_discovers_iff_reachable(adj, to_id as int, VISIBILITY_RADIUS as int, entered@);
        assert forall|i: int| 0 <= i < g0.spec_len() implies (#[trigger] graph.tiles@[i])
            .explored_state == spec_updated_state(
            adj,
            from_id as int,
            to_id as int,
            g0.tiles@[i].explored_state,
            i,
        ) by {
            assert(g1.tiles@[i].explored_state == (if discovered(left@, i) {
                TileExploredState::Explored
            } else {
                g0.tiles@[i].explored_state
            }));
            assert(graph.tiles@[i].explored_state == (if discovered(entered@, i) {
                TileExploredState::Visible
            } else {
                g1.tiles@[i].explored_state
            }));
        }
    }
    Ok((left, entered))
}

} // verus!
