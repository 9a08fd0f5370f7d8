//! Terrain assignment over a fixed-point height field.
//!
//! Elevations are fixed-point values: `ELEVATION_UNIT` fractions make one
//! unit of height, so the highland cutoff of half a unit is exact integer
//! arithmetic. A tile is classified from its own elevation and its local
//! ridge count — how many of its six neighbour coordinates (tiles or not)
//! have an elevation at most its own. The cutoffs are fixed; they are not
//! run-time configuration.

use vstd::prelude::*;

use crate::graph_functions::GraphError;
use crate::hex_tile::{coord_in_range, hex_neighbours, spec_hex_neighbours, HexGraph};

verus! {

/// Coarse terrain classification of a tile, derived from its elevation and
/// the count of neighbours at or below it.
#[derive(Clone, Copy, PartialEq, Eq, Structural, Debug)]
pub enum BiomeTag {
    Lowland,
    Highland,
    Rock,
}

/// Fractions of one unit of elevation.
pub const ELEVATION_UNIT: i64 = 1_000_000;

/// Tiles strictly above this elevation are highland or rock.
pub const HIGHLAND_CUTOFF: i64 = 500_000;

/// Strictly more than this many neighbours at or below a tile make it rock.
pub const RIDGE_CUTOFF: usize = 3;

/// The classification policy: above the highland cutoff a tile is rock when
/// more than `RIDGE_CUTOFF` of its six neighbours sit at or below it and
/// highland otherwise; at or below the cutoff it is lowland.
pub open spec fn spec_classify_biome(elevation: i64, ridge_count: int) -> BiomeTag {
    if elevation > HIGHLAND_CUTOFF && ridge_count > RIDGE_CUTOFF {
        BiomeTag::Rock
    } else if elevation > HIGHLAND_CUTOFF {
        BiomeTag::Highland
    } else {
        BiomeTag::Lowland
    }
}

/// Classify one tile from its elevation and its local ridge count.
pub fn classify_biome(elevation: i64, ridge_count: usize) -> (b: BiomeTag)
    ensures
        b == spec_classify_biome(elevation, ridge_count as int),
{
    if elevation > HIGHLAND_CUTOFF {
        if ridge_count > RIDGE_CUTOFF {
            BiomeTag::Rock
        } else {
            BiomeTag::Highland
        }
    } else {
        BiomeTag::Lowland
    }
}

/// A finite table of elevations keyed by coordinate. It carries the sampled
/// height field into the graph: tile coordinates for their elevation, and
/// the ring of coordinates around the world for the neighbour comparisons of
/// biome classification.
pub struct HeightMap {
    pub entries: Vec<((i32, i32), i64)>,
}

impl HeightMap {
    /// Keys are unique, so a coordinate determines its elevation.
    pub open spec fn wf(self) -> bool {
        forall|k1: int, k2: int|
            0 <= k1 < k2 < self.entries@.len() ==> (#[trigger] self.entries@[k1]).0 != (
            #[trigger] self.entries@[k2]).0
    }

    /// Whether an elevation is recorded for `p`.
    pub open spec fn spec_contains(self, p: (i32, i32)) -> bool {
        exists|k: int| 0 <= k < self.entries@.len() && (#[trigger] self.entries@[k]).0 == p
    }

    /// The recorded elevation at `p`.
    pub open spec fn spec_height(self, p: (i32, i32)) -> i64 {
        let k = choose|k: int| 0 <= k < self.entries@.len() && (#[trigger] self.entries@[k]).0
            == p;
        self.entries@[k].1
    }

    /// An empty table.
    pub fn new() -> (h: HeightMap)
        ensures
            h.wf(),
            h.entries@.len() == 0,
            forall|p: (i32, i32)| !h.spec_contains(p),
    {
        HeightMap { entries: Vec::new() }
    }

    /// Record the elevation at `p`, replacing an earlier record for the same
    /// coordinate; every other coordinate keeps its record.
    pub fn insert(&mut self, p: (i32, i32), height: i64)
        requires
            old(self).wf(),
        ensures
            final(self).wf(),
            final(self).spec_contains(p),
            final(self).spec_height(p) == height,
            forall|q: (i32, i32)|
                q != p ==> (final(self).spec_contains(q) <==> old(self).spec_contains(q)),
            forall|q: (i32, i32)|
                q != p && old(self).spec_contains(q) ==> final(self).spec_height(q) == old(
                    self,
                ).spec_height(q),
    {
        let ghost e0 = self.entries@;
        let mut k: usize = 0;
        while k < self.entries.len()
            invariant
                old(self).wf(),
                self.entries@ == e0,
                e0 == old(self).entries@,
                k <= e0.len(),
                forall|t: int| 0 <= t < k ==> (#[trigger] e0[t]).0 != p,
            decreases e0.len() - k,
        {
            let q = self.entries[k].0;
            if q.0 == p.0 && q.1 == p.1 {
                self.entries[k] = (p, height);
                proof {
                    let e1 = self.entries@;
                    assert(e1 == e0.update(k as int, (p, height)));
                    assert forall|k1: int, k2: int| 0 <= k1 < k2 < e1.len() implies (
                    #[trigger] e1[k1]).0 != (#[trigger] e1[k2]).0 by {
                        assert(e0[k1].0 != e0[k2].0);
                        if k1 == k as int || k2 == k as int {
                            assert(e0[k as int].0 == p);
                        }
                    }
                    assert(e1[k as int].0 == p);
                    assert(self.spec_contains(p));
                    let kc = choose|t: int| 0 <= t < e1.len() && (#[trigger] e1[t]).0 == p;
                    assert(kc == k as int) by {
                        if kc != k as int {
                            assert(e0[kc].0 == p);
                            assert(e0[k as int].0 == p);
                        }
                    }
                    assert forall|q: (i32, i32)| q != p implies (self.spec_contains(q)
                        <==> old(self).spec_contains(q)) by {
                        if self.spec_contains(q) {
                            let t = choose|t: int|
                                0 <= t < e1.len() && (#[trigger] e1[t]).0 == q;
                            assert(e0[t].0 == q);
                        }
                        if old(self).spec_contains(q) {
                            let t = choose|t: int|
                                0 <= t < e0.len() && (#[trigger] e0[t]).0 == q;
                            assert(e1[t].0 == q);
                        }
                    }
                    assert forall|q: (i32, i32)| q != p && old(self).spec_contains(q)
                        implies self.spec_height(q) == old(self).spec_height(q) by {
                        let t0 = choose|t: int| 0 <= t < e0.len() && (#[trigger] e0[t]).0 == q;
                        assert(e1[t0].0 == q);
                        let t1 = choose|t: int| 0 <= t < e1.len() && (#[trigger] e1[t]).0 == q;
                        assert(t1 == t0) by {
                            if t1 != t0 {
                                assert(e0[t1].0 == q);
                            }
                        }
                    }
                }
                return;
            }
            k = k + 1;
        }
        self.entries.push((p, height));
        proof {
            let e1 = self.entries@;
            assert(e1 == e0.push((p, height)));
            assert forall|k1: int, k2: int| 0 <= k1 < k2 < e1.len() implies (
            #[trigger] e1[k1]).0 != (#[trigger] e1[k2]).0 by {
                if k2 < e0.len() {
                    assert(e0[k1].0 != e0[k2].0);
                } else {
                    assert(e1[k2] == (p, height));
                    assert(e0[k1].0 != p);
                }
            }
            assert(e1[e1.len() - 1].0 == p);
            assert(self.spec_contains(p));
            let kc = choose|t: int| 0 <= t < e1.len() && (#[trigger] e1[t]).0 == p;
            assert(kc == e1.len() - 1) by {
                if kc < e1.len() - 1 {
                    assert(e0[kc].0 == p);
                }
            }
            assert forall|q: (i32, i32)| q != p implies (self.spec_contains(q) <==> old(
                self,
            ).spec_contains(q)) by {
                if self.spec_contains(q) {
                    let t = choose|t: int| 0 <= t < e1.len() && (#[trigger] e1[t]).0 == q;
                    assert(t < e0.len());
                    assert(e0[t].0 == q);
                }
                if old(self).spec_contains(q) {
                    let t = choose|t: int| 0 <= t < e0.len() && (#[trigger] e0[t]).0 == q;
                    assert(e1[t].0 == q);
                }
            }
            assert forall|q: (i32, i32)| q != p && old(self).spec_contains(q)
                implies self.spec_height(q) == old(self).spec_height(q) by {
                let t0 = choose|t: int| 0 <= t < e0.len() && (#[trigger] e0[t]).0 == q;
                assert(e1[t0].0 == q);
                let t1 = choose|t: int| 0 <= t < e1.len() && (#[trigger] e1[t]).0 == q;
                assert(t1 == t0) by {
                    if t1 != t0 {
                        if t1 < e0.len() {
                            assert(e0[t1].0 == q);
                        } else {
                            assert(e1[t1].0 == p);
                        }
                    }
                }
            }
        }
    }

    /// Look the recorded elevation at `p` up.
    pub fn height_at(&self, p: &(i32, i32)) -> (r: Option<i64>)
        requires
            self.wf(),
        ensures
            match r {
                Some(h) => self.spec_contains(*p) && h == self.spec_height(*p),
                None => !self.spec_contains(*p),
            },
    {
        let mut k: usize = 0;
        while k < self.entries.len()
            invariant
                self.wf(),
                k <= self.entries@.len(),
                forall|t: int| 0 <= t < k ==> (#[trigger] self.entries@[t]).0 != *p,
            decreases self.entries@.len() - k,
        {
            let q = self.entries[k].0;
            if q.0 == p.0 && q.1 == p.1 {
                proof {
                    assert(self.entries@[k as int].0 == *p);
                    assert(self.spec_contains(*p));
                    let kc = choose|t: int|
                        0 <= t < self.entries@.len() && (#[trigger] self.entries@[t]).0 == *p;
                    assert(kc == k as int) by {
                        if kc != k as int {
                            assert(self.entries@[kc].0 == *p);
                        }
                    }
                }
                return Some(self.entries[k].1);
            }
            k = k + 1;
        }
        None
    }
}

/// The `k`-th neighbour coordinate of `pos`, as a representable pair.
pub open spec fn spec_neighbour_coord(pos: (i32, i32), k: int) -> (i32, i32) {
    (
        spec_hex_neighbours(pos)[k].0 as i32,
        spec_hex_neighbours(pos)[k].1 as i32,
    )
}

/// How many of the first `k` neighbour coordinates of `pos` have a recorded
/// elevation at most the one recorded at `pos`.
pub open spec fn spec_ridge_count_upto(hm: HeightMap, pos: (i32, i32), k: int) -> int
    decreases k,
{
    if k <= 0 {
        0
    } else {
        spec_ridge_count_upto(hm, pos, k - 1) + (if hm.spec_height(
            spec_neighbour_coord(pos, k - 1),
        ) <= hm.spec_height(pos) {
            1int
        } else {
            0int
        })
    }
}

/// The local ridge count of `pos`: its neighbours at or below it.
pub open spec fn spec_ridge_count(hm: HeightMap, pos: (i32, i32)) -> int {
    spec_ridge_count_upto(hm, pos, 6)
}

/// The biome the height field assigns at `pos`.
pub open spec fn spec_biome_at(hm: HeightMap, pos: (i32, i32)) -> BiomeTag {
    spec_classify_biome(hm.spec_height(pos), spec_ridge_count(hm, pos))
}

/// The height table covers `pos` and all six of its neighbour coordinates.
pub open spec fn heights_cover(hm: HeightMap, pos: (i32, i32)) -> bool {
    &&& hm.spec_contains(pos)
    &&& forall|k: int| 0 <= k < 6 ==> hm.spec_contains(#[trigger] spec_neighbour_coord(pos, k))
}

/// Set every tile's elevation from the height table. Coordinates, adjacency
/// and exploration states are untouched.
pub fn add_elevation(graph: &mut HexGraph, heights: &HeightMap)
    requires
        old(graph).wf(),
        heights.wf(),
        forall|i: int|
            0 <= i < old(graph).spec_len() ==> heights.spec_contains(
                #[trigger] old(graph).position_of(i),
            ),
    ensures
        final(graph).wf(),
        final(graph).spec_len() == old(graph).spec_len(),
        forall|i: int|
            0 <= i < old(graph).spec_len() ==> {
                let t0 = #[trigger] old(graph).tiles@[i];
                let t1 = final(graph).tiles@[i];
                &&& t1.position == t0.position
                &&& t1.neighbours@ == t0.neighbours@
                &&& t1.biome == t0.biome
                &&& t1.explored_state == t0.explored_state
            },
        final(graph).pending@ == old(graph).pending@,
        forall|i: int|
            0 <= i < old(graph).spec_len() ==> #[trigger] final(graph).tiles@[i].elevation
                == heights.spec_height(old(graph).position_of(i)),
{
    let ghost g0 = *old(graph);
    let n = graph.tiles.len();
    let mut i: usize = 0;
    while i < n
        invariant
            g0.wf(),
            heights.wf(),
            n == g0.spec_len(),
            i <= n,
            graph.spec_len() == n,
            graph.pending@ == g0.pending@,
            forall|t: int|
                0 <= t < n ==> heights.spec_contains(#[trigger] g0.position_of(t)),
            forall|t: int|
                0 <= t < n ==> {
                    let t0 = #[trigger] g0.tiles@[t];
                    let t1 = graph.tiles@[t];
                    &&& t1.position == t0.position
                    &&& t1.neighbours@ == t0.neighbours@
                    &&& t1.biome == t0.biome
                    &&& t1.explored_state == t0.explored_state
                },
            forall|t: int|
                0 <= t < i ==> #[trigger] graph.tiles@[t].elevation == heights.spec_height(
                    g0.position_of(t),
                ),
        decreases n - i,
    {
        let pos = graph.tiles[i].position;
        proof {
            assert(graph.tiles@[i as int].position == g0.tiles@[i as int].position);
            assert(pos == g0.position_of(i as int));
            assert(heights.spec_contains(g0.position_of(i as int)));
        }
        match heights.height_at(&pos) {
            Some(h) => {
                graph.tiles[i].elevation = h;
            }
            None => {
                proof {
                    assert(false);
                }
            }
        }
        i = i + 1;
    }
    proof {
        HexGraph::lemma_wf_transfer(g0, *graph);
    }
}

/// Classify every tile from the height table: its recorded elevation against
/// those of its six neighbour coordinates, whether or not a tile exists
/// there, exactly as the height field would answer. Everything but the biome
/// is untouched.
pub fn determine_biomes(graph: &mut HexGraph, heights: &HeightMap)
    requires
        old(graph).wf(),
        heights.wf(),
        forall|i: int|
            0 <= i < old(graph).spec_len() ==> heights_cover(
                *heights,
                #[trigger] old(graph).position_of(i),
            ),
    ensures
        final(graph).wf(),
        final(graph).spec_len() == old(graph).spec_len(),
        forall|i: int|
            0 <= i < old(graph).spec_len() ==> {
                let t0 = #[trigger] old(graph).tiles@[i];
                let t1 = final(graph).tiles@[i];
                &&& t1.position == t0.position
                &&& t1.neighbours@ == t0.neighbours@
                &&& t1.elevation == t0.elevation
                &&& t1.explored_state == t0.explored_state
            },
        final(graph).pending@ == old(graph).pending@,
        forall|i: int|
            0 <= i < old(graph).spec_len() ==> #[trigger] final(graph).tiles@[i].biome
                == spec_biome_at(*heights, old(graph).position_of(i)),
{
    let ghost g0 = *old(graph);
    let n = graph.tiles.len();
    let mut i: usize = 0;
    while i < n
        invariant
            g0.wf(),
            heights.wf(),
            n == g0.spec_len(),
            i <= n,
            graph.spec_len() == n,
            graph.pending@ == g0.pending@,
            forall|t: int|
                0 <= t < n ==> heights_cover(*heights, #[trigger] g0.position_of(t)),
            forall|t: int|
                0 <= t < n ==> {
                    let t0 = #[trigger] g0.tiles@[t];
                    let t1 = graph.tiles@[t];
                    &&& t1.position == t0.position
                    &&& t1.neighbours@ == t0.neighbours@
                    &&& t1.elevation == t0.elevation
                    &&& t1.explored_state == t0.explored_state
                },
            forall|t: int|
                0 <= t < i ==> #[trigger] graph.tiles@[t].biome == spec_biome_at(
                    *heights,
                    g0.position_of(t),
                ),
        decreases n - i,
    {
        let pos = graph.tiles[i].position;
        proof {
            assert(graph.tiles@[i as int].position == g0.tiles@[i as int].position);
            assert(coord_in_range(g0.position_of(i as int)));
            assert(heights_cover(*heights, pos));
        }
        let self_h = match heights.height_at(&pos) {
            Some(h) => h,
            None => {
                proof {
                    assert(false);
                }
                0
            }
        };
        let nbr_coords = hex_neighbours(&pos);
        let mut count: usize = 0;
        let mut k: usize = 0;
        while k < 6
            invariant
                heights.wf(),
                heights_cover(*heights, pos),
                k <= 6,
                count <= k,
                self_h == heights.spec_height(pos),
                nbr_coords@.len() == 6,
                forall|t: int|
                    0 <= t < 6 ==> (#[trigger] nbr_coords@[t].0 as int, nbr_coords@[t].1 as int)
                        == spec_hex_neighbours(pos)[t],
                count == spec_ridge_count_upto(*heights, pos, k as int),
            decreases 6 - k,
        {
            proof {
                assert((nbr_coords@[k as int].0 as int, nbr_coords@[k as int].1 as int)
                    == spec_hex_neighbours(pos)[k as int]);
                assert(nbr_coords@[k as int].0 as int == spec_hex_neighbours(pos)[k as int].0);
                assert(nbr_coords@[k as int].1 as int == spec_hex_neighbours(pos)[k as int].1);
                assert(nbr_coords@[k as int] == spec_neighbour_coord(pos, k as int));
                assert(heights.spec_contains(spec_neighbour_coord(pos, k as int)));
            }
            let other = match heights.height_at(&nbr_coords[k]) {
                Some(h) => h,
                None => {
                    proof {
                        assert(false);
                    }
                    0
                }
            };
            if self_h >= other {
                count = count + 1;
            }
            k = k + 1;
        }
        let b = classify_biome(self_h, count);
        graph.tiles[i].biome = b;
        i = i + 1;
    }
    proof {
        HexGraph::lemma_wf_transfer(g0, *graph);
    }
}

/// The elevation recorded for the tile at `pos`, or `InvalidCoordinate` when
/// no tile exists there.
pub fn elevation_at(graph: &HexGraph, pos: &(i32, i32)) -> (r: Result<i64, GraphError>)
    requires
        graph.wf(),
    ensures
        match r {
            Ok(h) => exists|i: int|
                0 <= i < graph.spec_len() && #[trigger] graph.position_of(i) == *pos
                    && graph.tiles@[i].elevation == h,
            Err(e) => e == GraphError::InvalidCoordinate && forall|i: int|
                0 <= i < graph.spec_len() ==> #[trigger] graph.position_of(i) != *pos,
        },
{
    match graph.node_at(pos) {
        Some(id) => Ok(graph.tile(id).elevation),
        None => Err(GraphError::InvalidCoordinate),
    }
}

/// The biome recorded for the tile at `pos`, or `InvalidCoordinate` when no
/// tile exists there.
pub fn biome_at(graph: &HexGraph, pos: &(i32, i32)) -> (r: Result<BiomeTag, GraphError>)
    requires
        graph.wf(),
    ensures
        match r {
            Ok(b) => exists|i: int|
                0 <= i < graph.spec_len() && #[trigger] graph.position_of(i) == *pos
                    && graph.tiles@[i].biome == b,
            Err(e) => e == GraphError::InvalidCoordinate && forall|i: int|
                0 <= i < graph.spec_len() ==> #[trigger] graph.position_of(i) != *pos,
        },
{
    match graph.node_at(pos) {
        Some(id) => Ok(graph.tile(id).biome),
        None => Err(GraphError::InvalidCoordinate),
    }
}

/// The terrain assignment entry point: feeds every tile its elevation from
/// the height table and classifies its biome, in that order, once the tiles
/// have been spawned.
pub struct TerrainPlugin;

impl TerrainPlugin {
    /// Assign elevation and biome to every tile from the height table.
    pub fn build(&self, graph: &mut HexGraph, heights: &HeightMap)
        requires
            old(graph).wf(),
            heights.wf(),
            forall|i: int|
                0 <= i < old(graph).spec_len() ==> heights_cover(
                    *heights,
                    #[trigger] old(graph).position_of(i),
                ),
        ensures
            final(graph).wf(),
            final(graph).spec_len() == old(graph).spec_len(),
            final(graph).pending@ == old(graph).pending@,
            forall|i: int|
                0 <= i < old(graph).spec_len() ==> {
                    let t0 = #[trigger] old(graph).tiles@[i];
                    let t1 = final(graph).tiles@[i];
                    &&& t1.position == t0.position
                    &&& t1.neighbours@ == t0.neighbours@
                    &&& t1.explored_state == t0.explored_state
                },
            forall|i: int|
                0 <= i < old(graph).spec_len() ==> #[trigger] final(graph).tiles@[i].elevation
                    == heights.spec_height(old(graph).position_of(i)),
            forall|i: int|
                0 <= i < old(graph).spec_len() ==> #[trigger] final(graph).tiles@[i].biome
                    == spec_biome_at(*heights, old(graph).position_of(i)),
    {
        let ghost g0 = *old(graph);
        add_elevation(graph, heights);
        let ghost g1 = *graph;
        proof {
            assert forall|i: int| 0 <= i < g1.spec_len() implies heights_cover(
                *heights,
                #[trigger] g1.position_of(i),
            ) by {
                assert(g1.tiles@[i].position == g0.tiles@[i].position);
                assert(heights_cover(*heights, g0.position_of(i)));
            }
        }
        determine_biomes(graph, heights);
        proof {
            assert forall|i: int| 0 <= i < g0.spec_len() implies #[trigger] graph.tiles@[i].biome
                == spec_biome_at(*heights, g0.position_of(i)) by {
                assert(graph.tiles@[i].biome == spec_biome_at(*heights, g1.position_of(i)));
                assert(g1.position_of(i) == g0.position_of(i));
            }
        }
    }
}

/// A coordinate identifies at most one tile of a well-formed graph, so the
/// terrain queries are deterministic: any two results that `elevation_at` or
/// `biome_at` may return for the same graph and coordinate are equal.
pub proof fn lemma_coordinate_lookup_deterministic(g: HexGraph, i1: int, i2: int)
    requires
        g.wf(),
        0 <= i1 < g.spec_len(),
        0 <= i2 < g.spec_len(),
        g.position_of(i1) == g.position_of(i2),
    ensures
        i1 == i2,
{
}

} // verus!

