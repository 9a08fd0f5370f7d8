//! Offset hex coordinates and their adjacency.
//!
//! Coordinates are `(column, row)` pairs on a staggered layout: odd columns
//! sit half a row lower than even ones, and the six neighbour offsets of a
//! cell mirror their sign with the parity of its column. Using one delta set
//! for both parities would produce an inconsistent adjacency relation, so the
//! parity split here is load-bearing.

use vstd::prelude::*;

use crate::graph_functions::GraphVertex;
use crate::local_terrain::BiomeTag;

verus! {

/// Whether a column index is even; both parities use the same neighbour
/// offsets up to a sign flip.
pub open spec fn column_is_even(c: int) -> bool {
    c % 2 == 0
}

/// The six neighbour coordinates of `pos`, in a fixed order, as unbounded
/// integers. The sign `m` mirrors the offset set for odd columns.
pub open spec fn spec_hex_neighbours(pos: (i32, i32)) -> Seq<(int, int)> {
    let c = pos.0 as int;
    let r = pos.1 as int;
    let m: int = if column_is_even(c) { 1 } else { -1 };
    seq![
        (c + m, r),
        (c + m, r - m),
        (c, r + m),
        (c, r - m),
        (c - m, r),
        (c - m, r - m),
    ]
}

/// Two representable coordinates are hex-adjacent when the second appears
/// among the six neighbours of the first.
pub open spec fn hex_adjacent(a: (i32, i32), b: (i32, i32)) -> bool {
    spec_hex_neighbours(a).contains((b.0 as int, b.1 as int))
}

/// A coordinate whose neighbours are all representable as `i32` pairs.
pub open spec fn coord_in_range(pos: (i32, i32)) -> bool {
    &&& i32::MIN < pos.0 < i32::MAX
    &&& i32::MIN < pos.1 < i32::MAX
}

/// No cell is its own neighbour.
pub proof fn lemma_hex_adjacent_irreflexive(a: (i32, i32))
    ensures
        !hex_adjacent(a, a),
{
    let s = spec_hex_neighbours(a);
    assert forall|k: int| 0 <= k < s.len() implies s[k] != (a.0 as int, a.1 as int) by {
    }
}

/// Hex adjacency is symmetric: if `b` is one of `a`'s six neighbours then `a`
/// is one of `b`'s.
pub proof fn lemma_hex_adjacent_symmetric(a: (i32, i32), b: (i32, i32))
    requires
        hex_adjacent(a, b),
    ensures
        hex_adjacent(b, a),
{
    let sa = spec_hex_neighbours(a);
    let sb = spec_hex_neighbours(b);
    let k = choose|k: int| 0 <= k < sa.len() && sa[k] == (b.0 as int, b.1 as int);
    let ai = (a.0 as int, a.1 as int);
    if column_is_even(a.0 as int) {
        if k == 0 || k == 1 || k == 4 || k == 5 {
            // neighbours in the adjacent columns have opposite parity
            assert(!column_is_even(b.0 as int));
        } else {
            assert(column_is_even(b.0 as int));
        }
    } else {
        if k == 0 || k == 1 || k == 4 || k == 5 {
            assert(column_is_even(b.0 as int));
        } else {
            assert(!column_is_even(b.0 as int));
        }
    }
    assert(sb.contains(ai)) by {
        if sb[0] == ai || sb[1] == ai || sb[2] == ai || sb[3] == ai || sb[4] == ai || sb[5] == ai {
        }
    }
}

/// The six grid-adjacent coordinates of `pos`, mirroring the offset set for
/// odd columns.
pub fn hex_neighbours(pos: &(i32, i32)) -> (r: Vec<(i32, i32)>)
    requires
        coord_in_range(*pos),
    ensures
        r@.len() == 6,
        forall|k: int|
            0 <= k < 6 ==> (#[trigger] r@[k].0 as int, r@[k].1 as int)
                == spec_hex_neighbours(*pos)[k],
        forall|b: (i32, i32)| r@.contains(b) <==> hex_adjacent(*pos, b),
        forall|t1: int, t2: int| 0 <= t1 < t2 < 6 ==> r@[t1] != r@[t2],
{
    let m: i32 = if pos.0 % 2 == 0 {
        1
    } else {
        -1
    };
    proof {
        assert((m as int == 1) == column_is_even(pos.0 as int));
    }
    let mut v: Vec<(i32, i32)> = Vec::new();
    v.push((pos.0 + m, pos.1));
    v.push((pos.0 + m, pos.1 - m));
    v.push((pos.0, pos.1 + m));
    v.push((pos.0, pos.1 - m));
    v.push((pos.0 - m, pos.1));
    v.push((pos.0 - m, pos.1 - m));
    proof {
        assert forall|b: (i32, i32)| v@.contains(b) <==> hex_adjacent(*pos, b) by {
            let s = spec_hex_neighbours(*pos);
            if v@.contains(b) {
                let k = choose|k: int| 0 <= k < v@.len() && v@[k] == b;
                assert(s[k] == (b.0 as int, b.1 as int));
            }
            if hex_adjacent(*pos, b) {
                let k = choose|k: int| 0 <= k < s.len() && s[k] == (b.0 as int, b.1 as int);
                assert((v@[k].0 as int, v@[k].1 as int) == s[k]);
                assert(v@[k] == b);
            }
        }
    }
    v
}

/// The world position of a coordinate in exact units: the first component in
/// multiples of the horizontal column spacing (a fixed geometric constant of
/// the hexagon), the second in half-row steps — odd columns sit half a row
/// lower than even ones. Defined for every coordinate; a renderer scales the
/// two by its spacing constants.
pub fn world_position_units(pos: &(i32, i32)) -> (r: (i32, i64))
    ensures
        r.0 == pos.0,
        r.1 as int == 2 * (pos.1 as int) + (if column_is_even(pos.0 as int) {
            0int
        } else {
            1int
        }),
{
    let half: i64 = if pos.0 % 2 == 0 {
        0
    } else {
        1
    };
    proof {
        assert((half as int == 0) == column_is_even(pos.0 as int));
    }
    (pos.0, 2 * (pos.1 as i64) + half)
}

/// A coordinate lies in the hex-shaped region of the given size: columns run
/// from `-size` to `size`, and each column holds the rows from
/// `|column| / 2 - size` to `size - (|column| + 1) / 2`.
pub open spec fn in_hex_region(size: int, i: int, j: int) -> bool {
    &&& -size <= i <= size
    &&& vstd::math::abs(i) / 2 - size <= j <= size - (vstd::math::abs(i) + 1) / 2
}

/// All coordinates of the hex-shaped region of the given size, column by
/// column, each exactly once: the world layout that construction is fed, in
/// the order tiles are spawned, so region position determines a tile's id.
pub fn hex_region(hex_size: i32) -> (r: Vec<(i32, i32)>)
    requires
        0 <= hex_size <= i32::MAX / 4,
    ensures
        forall|p: (i32, i32)| #[trigger]
            r@.contains(p) <==> in_hex_region(hex_size as int, p.0 as int, p.1 as int),
        forall|t1: int, t2: int| 0 <= t1 < t2 < r@.len() ==> r@[t1] != r@[t2],
        // column-major emission: later entries are strictly greater, first by
        // column, then by row
        forall|t1: int, t2: int|
            0 <= t1 < t2 < r@.len() ==> ((#[trigger] r@[t1]).0 < (#[trigger] r@[t2]).0 || (
            r@[t1].0 == r@[t2].0 && r@[t1].1 < r@[t2].1)),
{
    let mut v: Vec<(i32, i32)> = Vec::new();
    let mut i: i32 = -hex_size;
    while i <= hex_size
        invariant
            0 <= hex_size <= i32::MAX / 4,
            -hex_size <= i <= hex_size + 1,
            forall|p: (i32, i32)| #[trigger]
                v@.contains(p) <==> (in_hex_region(hex_size as int, p.0 as int, p.1 as int)
                    && p.0 < i),
            forall|t1: int, t2: int| 0 <= t1 < t2 < v@.len() ==> v@[t1] != v@[t2],
            forall|t1: int, t2: int|
                0 <= t1 < t2 < v@.len() ==> ((#[trigger] v@[t1]).0 < (#[trigger] v@[t2]).0 || (
                v@[t1].0 == v@[t2].0 && v@[t1].1 < v@[t2].1)),
            forall|t: int| 0 <= t < v@.len() ==> (#[trigger] v@[t]).0 < i,
        decreases hex_size + 1 - i,
    {
        let ai = if i < 0 {
            -i
        } else {
            i
        };
        proof {
            assert(ai as int == vstd::math::abs(i as int));
        }
        let min_j = ai / 2 - hex_size;
        let max_j = hex_size - (ai + 1) / 2;
        proof {
            assert(min_j as int == vstd::math::abs(i as int) / 2 - hex_size);
            assert(max_j as int == hex_size - (vstd::math::abs(i as int) + 1) / 2);
        }
        let mut j: i32 = min_j;
        while j <= max_j
            invariant
                0 <= hex_size <= i32::MAX / 4,
                -hex_size <= i <= hex_size,
                min_j as int == vstd::math::abs(i as int) / 2 - hex_size,
                max_j as int == hex_size - (vstd::math::abs(i as int) + 1) / 2,
                min_j <= j <= max_j + 1,
                forall|p: (i32, i32)| #[trigger]
                    v@.contains(p) <==> (in_hex_region(hex_size as int, p.0 as int, p.1 as int)
                        && (p.0 < i || (p.0 == i && p.1 < j))),
                forall|t1: int, t2: int| 0 <= t1 < t2 < v@.len() ==> v@[t1] != v@[t2],
                forall|t1: int, t2: int|
                    0 <= t1 < t2 < v@.len() ==> ((#[trigger] v@[t1]).0 < (#[trigger] v@[t2]).0
                        || (v@[t1].0 == v@[t2].0 && v@[t1].1 < v@[t2].1)),
                forall|t: int|
                    0 <= t < v@.len() ==> ((#[trigger] v@[t]).0 < i || (v@[t].0 == i && v@[t].1
                        < j)),
            decreases max_j + 1 - j,
        {
            let ghost v0 = v@;
            v.push((i, j));
            proof {
                assert(v@ == v0.push((i, j)));
                assert(in_hex_region(hex_size as int, i as int, j as int));
                assert forall|p: (i32, i32)| #[trigger] v@.contains(p) <==> (in_hex_region(
                    hex_size as int,
                    p.0 as int,
                    p.1 as int,
                ) && (p.0 < i || (p.0 == i && p.1 < j + 1))) by {
                    if v@.contains(p) {
                        let t = choose|t: int| 0 <= t < v@.len() && v@[t] == p;
                        if t < v0.len() {
                            assert(v0[t] == p);
                            assert(v0.contains(p));
                        } else {
                            assert(p == (i, j));
                        }
                    }
                    if in_hex_region(hex_size as int, p.0 as int, p.1 as int) && (p.0 < i || (
                    p.0 == i && p.1 < j + 1)) {
                        if p.0 < i || (p.0 == i && p.1 < j) {
                            assert(v0.contains(p));
                            let t = choose|t: int| 0 <= t < v0.len() && v0[t] == p;
                            assert(v@[t] == p);
                        } else {
                            assert(p == (i, j));
                            assert(v@[v@.len() - 1] == p);
                        }
                    }
                }
            }
            j = j + 1;
        }
        proof {
            assert forall|p: (i32, i32)| #[trigger] v@.contains(p) <==> (in_hex_region(
                hex_size as int,
                p.0 as int,
                p.1 as int,
            ) && p.0 < i + 1) by {
                if in_hex_region(hex_size as int, p.0 as int, p.1 as int) && p.0 < i + 1 {
                    if p.0 == i {
                        // the whole row of column i has been emitted
                        assert(min_j as int <= p.1 as int <= max_j as int);
                    }
                }
            }
        }
        i = i + 1;
    }
    proof {
        assert forall|p: (i32, i32)| #[trigger] v@.contains(p) <==> in_hex_region(
            hex_size as int,
            p.0 as int,
            p.1 as int,
        ) by {
            if in_hex_region(hex_size as int, p.0 as int, p.1 as int) {
                assert(p.0 as int <= hex_size as int);
                assert(p.0 < i);
            }
        }
    }
    v
}

/// Per-tile visibility classification, driven by actor proximity history.
/// Every tile starts `Hidden`; only the exploration state machine moves it.
#[derive(Clone, Copy, PartialEq, Eq, Structural, Debug)]
pub enum TileExploredState {
    Hidden,
    Explored,
    Visible,
}

/// One cell of the hexagonal world: its coordinate, its undirected adjacency
/// (as ids into the owning graph), its terrain attributes and its exploration
/// state.
pub struct HexTile {
    pub position: (i32, i32),
    pub neighbours: Vec<usize>,
    pub elevation: i64,
    pub biome: BiomeTag,
    pub explored_state: TileExploredState,
}

impl GraphVertex for HexTile {
    open spec fn spec_neighbours(&self) -> Seq<usize> {
        self.neighbours@
    }

    fn get_neighbours(&self) -> (r: Vec<usize>) {
        let mut r: Vec<usize> = Vec::new();
        let mut i: usize = 0;
        while i < self.neighbours.len()
            invariant
                i <= self.neighbours@.len(),
                r@ == self.neighbours@.subrange(0, i as int),
            decreases self.neighbours@.len() - i,
        {
            r.push(self.neighbours[i]);
            proof {
                assert(r@ =~= self.neighbours@.subrange(0, i + 1));
            }
            i = i + 1;
        }
        proof {
            assert(r@ =~= self.neighbours@);
        }
        r
    }
}

/// The id `j` occurs in the id sequence `s`.
pub open spec fn seq_has_id(s: Seq<usize>, j: int) -> bool {
    exists|t: int| 0 <= t < s.len() && (#[trigger] s[t]) as int == j
}

/// The coordinate `p` occurs among the first `k` entries of `cs`.
spec fn prefix_has_coord(cs: Seq<(i32, i32)>, k: int, p: (i32, i32)) -> bool {
    exists|t: int| 0 <= t < k && #[trigger] cs[t] == p
}

/// The hexagonal world graph: it owns the tiles, indexes them by coordinate,
/// and records back-edges still owed to earlier tiles while a construction
/// batch is open.
///
/// Construction is two-phase. Inserting a tile immediately links it to every
/// neighbour that already exists (the edge from the new tile), and records a
/// deferred pair for the reverse direction; `apply_neighbour_changes` then
/// completes those back-edges. After it runs, adjacency is exactly the hex
/// adjacency of the tile coordinates, in both directions, regardless of
/// insertion order.
pub struct HexGraph {
    pub tiles: Vec<HexTile>,
    pub pending: Vec<(usize, usize)>,
}

impl HexGraph {
    /// Number of tiles.
    pub open spec fn spec_len(self) -> int {
        self.tiles@.len() as int
    }

    /// Coordinate of the tile with id `i`.
    pub open spec fn position_of(self, i: int) -> (i32, i32) {
        self.tiles@[i].position
    }

    /// Adjacency list of the tile with id `i`.
    pub open spec fn neighbours_of(self, i: int) -> Seq<usize> {
        self.tiles@[i].neighbours@
    }

    /// The tile with id `i` lists `j` as a neighbour.
    pub open spec fn linked(self, i: int, j: int) -> bool {
        seq_has_id(self.neighbours_of(i), j)
    }

    /// A back-edge from `i` to `j` is still owed from an open batch.
    pub open spec fn pending_has(self, i: int, j: int) -> bool {
        exists|k: int|
            0 <= k < self.pending@.len() && (#[trigger] self.pending@[k]).0 as int == i
                && self.pending@[k].1 as int == j
    }

    /// A tile exists at `pos`.
    pub open spec fn spec_has_node(self, pos: (i32, i32)) -> bool {
        exists|i: int| 0 <= i < self.spec_len() && #[trigger] self.position_of(i) == pos
    }

    /// The id of the tile at `pos` (unique in a well-formed graph).
    pub open spec fn spec_node_at(self, pos: (i32, i32)) -> int {
        choose|i: int| 0 <= i < self.spec_len() && #[trigger] self.position_of(i) == pos
    }

    /// Structural well-formedness, maintained by every operation: ids in
    /// range, coordinates distinct and representable, adjacency lists
    /// duplicate-free and pointing only at hex-adjacent tiles, and deferred
    /// pairs recording exactly the reverse directions of edges added by a
    /// later tile.
    pub open spec fn wf(self) -> bool {
        let n = self.spec_len();
        &&& forall|i: int| 0 <= i < n ==> coord_in_range(#[trigger] self.position_of(i))
        &&& forall|i: int, j: int|
            0 <= i < j < n ==> #[trigger] self.position_of(i) != #[trigger] self.position_of(j)
        &&& forall|i: int| 0 <= i < n ==> (#[trigger] self.neighbours_of(i)).no_duplicates()
        &&& forall|i: int, k: int|
            0 <= i < n && 0 <= k < self.neighbours_of(i).len() ==> (#[trigger] self.neighbours_of(
                i,
            )[k]) < n && hex_adjacent(
                self.position_of(i),
                self.position_of(self.neighbours_of(i)[k] as int),
            )
        &&& forall|k: int|
            0 <= k < self.pending@.len() ==> {
                let p = #[trigger] self.pending@[k];
                &&& p.0 < n
                &&& p.1 < n
                &&& hex_adjacent(self.position_of(p.0 as int), self.position_of(p.1 as int))
                &&& self.linked(p.1 as int, p.0 as int)
                &&& !self.linked(p.0 as int, p.1 as int)
            }
        &&& forall|k1: int, k2: int|
            0 <= k1 < k2 < self.pending@.len() ==> (#[trigger] self.pending@[k1]) != (
            #[trigger] self.pending@[k2])
        &&& forall|i: int, j: int|
            0 <= i < n && 0 <= j < n && hex_adjacent(
                #[trigger] self.position_of(i),
                #[trigger] self.position_of(j),
            ) ==> self.linked(i, j) || self.pending_has(i, j)
    }

    /// After a batch completes, adjacency lists realise exactly the hex
    /// adjacency of the coordinates, in both directions.
    pub open spec fn fully_linked(self) -> bool {
        forall|i: int, j: int|
            0 <= i < self.spec_len() && 0 <= j < self.spec_len() ==> (#[trigger] self.linked(i, j)
                <==> hex_adjacent(self.position_of(i), self.position_of(j)))
    }

    /// A well-formed graph with no deferred pairs left is fully linked.
    pub proof fn lemma_settled_graph_fully_linked(self)
        requires
            self.wf(),
            self.pending@.len() == 0,
        ensures
            self.fully_linked(),
    {
        assert forall|i: int, j: int|
            0 <= i < self.spec_len() && 0 <= j < self.spec_len() implies (#[trigger] self.linked(
            i,
            j,
        ) <==> hex_adjacent(self.position_of(i), self.position_of(j))) by {
            if self.linked(i, j) {
                let k = choose|k: int|
                    0 <= k < self.neighbours_of(i).len() && (#[trigger] self.neighbours_of(i)[k])
                        as int == j;
                assert(self.neighbours_of(i)[k] < self.spec_len());
                assert(hex_adjacent(
                    self.position_of(i),
                    self.position_of(self.neighbours_of(i)[k] as int),
                ));
            }
            if hex_adjacent(self.position_of(i), self.position_of(j)) {
                assert(!self.pending_has(i, j));
                assert(self.linked(i, j));
            }
        }
    }

    /// Well-formedness depends only on the graph structure: a graph with the
    /// same coordinates, adjacency lists and deferred pairs as a well-formed
    /// one is well-formed, whatever its terrain attributes or exploration
    /// states.
    pub proof fn lemma_wf_transfer(g0: HexGraph, g1: HexGraph)
        requires
            g0.wf(),
            g1.spec_len() == g0.spec_len(),
            g1.pending@ == g0.pending@,
            forall|i: int|
                0 <= i < g0.spec_len() ==> #[trigger] g1.position_of(i) == g0.position_of(i),
            forall|i: int|
                0 <= i < g0.spec_len() ==> #[trigger] g1.neighbours_of(i) == g0.neighbours_of(i),
        ensures
            g1.wf(),
    {
        let n = g0.spec_len();
        assert forall|i: int| 0 <= i < n implies coord_in_range(#[trigger] g1.position_of(i)) by {
            assert(coord_in_range(g0.position_of(i)));
        }
        assert forall|i: int, j: int| 0 <= i < j < n implies #[trigger] g1.position_of(i)
            != #[trigger] g1.position_of(j) by {
            assert(g0.position_of(i) != g0.position_of(j));
        }
        assert forall|i: int| 0 <= i < n implies (#[trigger] g1.neighbours_of(
            i,
        )).no_duplicates() by {
            assert(g1.neighbours_of(i) == g0.neighbours_of(i));
        }
        assert forall|i: int, k: int|
            0 <= i < n && 0 <= k < g1.neighbours_of(i).len() implies (#[trigger] g1.neighbours_of(
            i,
        )[k]) < n && hex_adjacent(
            g1.position_of(i),
            g1.position_of(g1.neighbours_of(i)[k] as int),
        ) by {
            assert(g0.neighbours_of(i)[k] < n);
            assert(hex_adjacent(
                g0.position_of(i),
                g0.position_of(g0.neighbours_of(i)[k] as int),
            ));
            assert(g1.position_of(g1.neighbours_of(i)[k] as int) == g0.position_of(
                g0.neighbours_of(i)[k] as int,
            ));
        }
        assert forall|k: int| 0 <= k < g1.pending@.len() implies {
            let p = #[trigger] g1.pending@[k];
            &&& p.0 < n
            &&& p.1 < n
            &&& hex_adjacent(g1.position_of(p.0 as int), g1.position_of(p.1 as int))
            &&& g1.linked(p.1 as int, p.0 as int)
            &&& !g1.linked(p.0 as int, p.1 as int)
        } by {
            let p = g1.pending@[k];
            assert(p == g0.pending@[k]);
            assert(g1.position_of(p.0 as int) == g0.position_of(p.0 as int));
            assert(g1.position_of(p.1 as int) == g0.position_of(p.1 as int));
            assert(g1.neighbours_of(p.0 as int) == g0.neighbours_of(p.0 as int));
            assert(g1.neighbours_of(p.1 as int) == g0.neighbours_of(p.1 as int));
            assert(g0.linked(p.1 as int, p.0 as int));
        }
        assert forall|k1: int, k2: int| 0 <= k1 < k2 < g1.pending@.len() implies (
        #[trigger] g1.pending@[k1]) != (#[trigger] g1.pending@[k2]) by {
            assert(g0.pending@[k1] != g0.pending@[k2]);
        }
        assert forall|i: int, j: int|
            0 <= i < n && 0 <= j < n && hex_adjacent(
                #[trigger] g1.position_of(i),
                #[trigger] g1.position_of(j),
            ) implies g1.linked(i, j) || g1.pending_has(i, j) by {
            assert(hex_adjacent(g0.position_of(i), g0.position_of(j)));
            assert(g1.neighbours_of(i) == g0.neighbours_of(i));
            if g0.linked(i, j) {
            } else {
                assert(g0.pending_has(i, j));
                let t = choose|t: int|
                    0 <= t < g0.pending@.len() && (#[trigger] g0.pending@[t]).0 as int == i
                        && g0.pending@[t].1 as int == j;
                assert(g1.pending@[t].0 as int == i && g1.pending@[t].1 as int == j);
            }
        }
    }

    /// An empty graph.
    pub fn new() -> (g: HexGraph)
        ensures
            g.wf(),
            g.spec_len() == 0,
            g.pending@.len() == 0,
    {
        HexGraph { tiles: Vec::new(), pending: Vec::new() }
    }

    /// Number of tiles.
    pub fn len(&self) -> (n: usize)
        ensures
            n == self.spec_len(),
    {
        self.tiles.len()
    }

    /// Read access to the tile with id `id`.
    pub fn tile(&self, id: usize) -> (t: &HexTile)
        requires
            id < self.spec_len(),
        ensures
            *t == self.tiles@[id as int],
    {
        &self.tiles[id]
    }

    /// Look the coordinate index up: the id of the tile at `pos`, if one
    /// exists.
    pub fn node_at(&self, pos: &(i32, i32)) -> (r: Option<usize>)
        ensures
            match r {
                Some(i) => i < self.spec_len() && self.position_of(i as int) == *pos,
                None => forall|i: int|
                    0 <= i < self.spec_len() ==> #[trigger] self.position_of(i) != *pos,
            },
    {
        let mut i: usize = 0;
        while i < self.tiles.len()
            invariant
                i <= self.spec_len(),
                forall|k: int| 0 <= k < i ==> #[trigger] self.position_of(k) != *pos,
            decreases self.spec_len() - i,
        {
            let p = self.tiles[i].position;
            if p.0 == pos.0 && p.1 == pos.1 {
                return Some(i);
            }
            i = i + 1;
        }
        None
    }

    /// Insert a tile at a fresh coordinate. The new tile immediately links
    /// to every already-existing neighbour, and for each of those a deferred
    /// back-edge towards the new tile is recorded, to be completed by
    /// `apply_neighbour_changes`; tiles inserted earlier are not touched.
    pub fn insert(&mut self, pos: (i32, i32)) -> (id: usize)
        requires
            old(self).wf(),
            coord_in_range(pos),
            forall|i: int|
                0 <= i < old(self).spec_len() ==> #[trigger] old(self).position_of(i) != pos,
        ensures
            final(self).wf(),
            id == old(self).spec_len(),
            final(self).spec_len() == old(self).spec_len() + 1,
            forall|i: int|
                0 <= i < old(self).spec_len() ==> #[trigger] final(self).tiles@[i] == old(
                    self,
                ).tiles@[i],
            final(self).position_of(id as int) == pos,
            final(self).tiles@[id as int].explored_state == TileExploredState::Hidden,
            final(self).tiles@[id as int].elevation == 0,
            final(self).tiles@[id as int].biome == BiomeTag::Lowland,
            forall|j: int|
                0 <= j < old(self).spec_len() ==> (final(self).linked(id as int, j)
                    <==> hex_adjacent(pos, #[trigger] old(self).position_of(j))),
            // deferred pairs: the old ones survive unchanged, and exactly one
            // new pair is recorded per adjacent existing tile, owing it the
            // back-edge towards the new tile
            final(self).pending@.len() >= old(self).pending@.len(),
            forall|t: int|
                0 <= t < old(self).pending@.len() ==> #[trigger] final(self).pending@[t] == old(
                    self,
                ).pending@[t],
            forall|t: int|
                old(self).pending@.len() <= t < final(self).pending@.len() ==> {
                    let p = #[trigger] final(self).pending@[t];
                    &&& p.1 == id
                    &&& p.0 < id
                    &&& hex_adjacent(old(self).position_of(p.0 as int), pos)
                },
            forall|j: int|
                0 <= j < old(self).spec_len() && hex_adjacent(
                    #[trigger] old(self).position_of(j),
                    pos,
                ) ==> final(self).pending_has(j, id as int),
    {
        let id = self.tiles.len();
        let ghost n0 = old(self).spec_len();
        let ghost p0 = old(self).pending@.len() as int;
        let nbr_coords = hex_neighbours(&pos);
        let mut neighbours: Vec<usize> = Vec::new();
        let mut k: usize = 0;
        while k < nbr_coords.len()
            invariant
                old(self).wf(),
                k <= 6,
                self.tiles@ == old(self).tiles@,
                n0 == old(self).spec_len(),
                p0 == old(self).pending@.len(),
                id == n0,
                coord_in_range(pos),
                forall|i: int| 0 <= i < n0 ==> #[trigger] old(self).position_of(i) != pos,
                nbr_coords@.len() == 6,
                forall|b: (i32, i32)| nbr_coords@.contains(b) <==> hex_adjacent(pos, b),
                forall|t1: int, t2: int|
                    0 <= t1 < t2 < 6 ==> nbr_coords@[t1] != nbr_coords@[t2],
                self.pending@.len() == p0 + neighbours@.len(),
                forall|t: int| 0 <= t < p0 ==> #[trigger] self.pending@[t] == old(self).pending@[t],
                forall|t: int|
                    0 <= t < neighbours@.len() ==> #[trigger] self.pending@[p0 + t] == (
                    neighbours@[t],
                    id,
                    ),
                neighbours@.no_duplicates(),
                forall|t: int|
                    0 <= t < neighbours@.len() ==> (#[trigger] neighbours@[t]) < n0 && hex_adjacent(
                        pos,
                        old(self).position_of(neighbours@[t] as int),
                    ),
                forall|j: int|
                    0 <= j < n0 ==> (prefix_has_coord(
                        nbr_coords@,
                        k as int,
                        #[trigger] old(self).position_of(j),
                    ) <==> seq_has_id(neighbours@, j)),
            decreases 6 - k,
        {
            let c = nbr_coords[k];
            let found = self.node_at(&c);
            let ghost nb_pre = neighbours@;
            match found {
                Some(ent) => {
                    proof {
                        assert(nbr_coords@.contains(c));
                        assert(hex_adjacent(pos, c));
                        assert(old(self).position_of(ent as int) == c);
                        // the same tile cannot have been found at an earlier,
                        // distinct coordinate
                        assert(!seq_has_id(nb_pre, ent as int)) by {
                            if seq_has_id(nb_pre, ent as int) {
                                assert(prefix_has_coord(
                                    nbr_coords@,
                                    k as int,
                                    old(self).position_of(ent as int),
                                ));
                                let t0 = choose|t: int|
                                    0 <= t < k && #[trigger] nbr_coords@[t] == old(
                                        self,
                                    ).position_of(ent as int);
                                assert(nbr_coords@[t0] == c);
                            }
                        }
                    }
                    neighbours.push(ent);
                    let ghost pend_pre = self.pending@;
                    self.pending.push((ent, id));
                    proof {
                        assert(neighbours@ == nb_pre.push(ent));
                        assert(self.pending@ == pend_pre.push((ent, id)));
                        assert forall|t: int| 0 <= t < p0 implies #[trigger] self.pending@[t]
                            == old(self).pending@[t] by {
                            assert(self.pending@[t] == pend_pre[t]);
                        }
                        assert forall|t: int| 0 <= t < neighbours@.len()
                            implies #[trigger] self.pending@[p0 + t] == (neighbours@[t], id) by {
                            if t < nb_pre.len() {
                                assert(pend_pre.len() == p0 + nb_pre.len());
                                assert(0 <= p0 + t < pend_pre.len());
                                assert(pend_pre[p0 + t] == (nb_pre[t], id));
                                assert(self.pending@[p0 + t] == pend_pre[p0 + t]);
                            } else {
                                assert(self.pending@[p0 + t] == (ent, id));
                            }
                        }
                        assert forall|i1: int, i2: int|
                            0 <= i1 < neighbours@.len() && 0 <= i2 < neighbours@.len() && i1 != i2
                            implies neighbours@[i1] != neighbours@[i2] by {
                            if i1 < nb_pre.len() && i2 < nb_pre.len() {
                            } else if i1 < nb_pre.len() {
                                if nb_pre[i1] == ent {
                                    assert(nb_pre[i1] as int == ent as int);
                                    assert(seq_has_id(nb_pre, ent as int));
                                }
                            } else if i2 < nb_pre.len() {
                                if nb_pre[i2] == ent {
                                    assert(nb_pre[i2] as int == ent as int);
                                    assert(seq_has_id(nb_pre, ent as int));
                                }
                            }
                        }
                        assert(neighbours@.no_duplicates());
                        assert forall|j: int| 0 <= j < n0 implies (prefix_has_coord(
                            nbr_coords@,
                            k + 1,
                            #[trigger] old(self).position_of(j),
                        ) <==> seq_has_id(neighbours@, j)) by {
                            if prefix_has_coord(nbr_coords@, k + 1, old(self).position_of(j)) {
                                let t0 = choose|t: int|
                                    0 <= t < k + 1 && #[trigger] nbr_coords@[t] == old(
                                        self,
                                    ).position_of(j);
                                if t0 < k {
                                    assert(prefix_has_coord(
                                        nbr_coords@,
                                        k as int,
                                        old(self).position_of(j),
                                    ));
                                    assert(seq_has_id(nb_pre, j));
                                    let t1 = choose|t: int|
                                        0 <= t < nb_pre.len() && (#[trigger] nb_pre[t]) as int
                                            == j;
                                    assert(neighbours@[t1] as int == j);
                                } else {
                                    // found at this very step: positions are
                                    // distinct, so j is the found tile
                                    if j != ent as int {
                                        assert(old(self).position_of(j) == old(self).position_of(
                                            ent as int,
                                        ));
                                        assert(false);
                                    }
                                    assert(neighbours@[neighbours@.len() - 1] as int == j);
                                }
                                assert(seq_has_id(neighbours@, j));
                            }
                            if seq_has_id(neighbours@, j) {
                                let t1 = choose|t: int|
                                    0 <= t < neighbours@.len() && (#[trigger] neighbours@[t])
                                        as int == j;
                                if t1 < nb_pre.len() {
                                    assert(nb_pre[t1] as int == j);
                                    assert(seq_has_id(nb_pre, j));
                                    assert(prefix_has_coord(
                                        nbr_coords@,
                                        k as int,
                                        old(self).position_of(j),
                                    ));
                                    let t0 = choose|t: int|
                                        0 <= t < k && #[trigger] nbr_coords@[t] == old(
                                            self,
                                        ).position_of(j);
                                    assert(nbr_coords@[t0] == old(self).position_of(j));
                                } else {
                                    assert(j == ent as int);
                                    assert(nbr_coords@[k as int] == old(self).position_of(j));
                                }
                                assert(prefix_has_coord(
                                    nbr_coords@,
                                    k + 1,
                                    old(self).position_of(j),
                                ));
                            }
                        }
                    }
                }
                None => {
                    proof {
                        assert forall|j: int| 0 <= j < n0 implies (prefix_has_coord(
                            nbr_coords@,
                            k + 1,
                            #[trigger] old(self).position_of(j),
                        ) <==> seq_has_id(neighbours@, j)) by {
                            if prefix_has_coord(nbr_coords@, k + 1, old(self).position_of(j)) {
                                let t0 = choose|t: int|
                                    0 <= t < k + 1 && #[trigger] nbr_coords@[t] == old(
                                        self,
                                    ).position_of(j);
                                assert(t0 != k) by {
                                    if t0 == k {
                                        assert(self.position_of(j) != c);
                                        assert(old(self).position_of(j) == self.position_of(j));
                                    }
                                }
                                assert(prefix_has_coord(
                                    nbr_coords@,
                                    k as int,
                                    old(self).position_of(j),
                                ));
                            }
                            if seq_has_id(neighbours@, j) {
                                assert(prefix_has_coord(
                                    nbr_coords@,
                                    k as int,
                                    old(self).position_of(j),
                                ));
                                let t0 = choose|t: int|
                                    0 <= t < k && #[trigger] nbr_coords@[t] == old(
                                        self,
                                    ).position_of(j);
                                assert(nbr_coords@[t0] == old(self).position_of(j));
                                assert(prefix_has_coord(
                                    nbr_coords@,
                                    k + 1,
                                    old(self).position_of(j),
                                ));
                            }
                        }
                    }
                }
            }
            k = k + 1;
        }
        let ghost nbs = neighbours@;
        let ghost pend1 = self.pending@;
        self.tiles.push(
            HexTile {
                position: pos,
                neighbours,
                elevation: 0,
                biome: BiomeTag::Lowland,
                explored_state: TileExploredState::Hidden,
            },
        );
        proof {
            let g = *self;
            let g0 = *old(self);
            assert(g.spec_len() == n0 + 1);
            assert(g.tiles@[n0].neighbours@ == nbs);
            assert(g.pending@ == pend1);
            assert forall|i: int| 0 <= i < n0 implies #[trigger] g.tiles@[i] == g0.tiles@[i] by {}
            // the new tile links exactly to the adjacent tiles already present
            assert forall|j: int| 0 <= j < n0 implies (g.linked(n0, j) <==> hex_adjacent(
                pos,
                #[trigger] g0.position_of(j),
            )) by {
                if g.linked(n0, j) {
                    let t = choose|t: int|
                        0 <= t < g.neighbours_of(n0).len() && (#[trigger] g.neighbours_of(n0)[t])
                            as int == j;
                    assert(nbs[t] as int == j);
                    assert(hex_adjacent(pos, g0.position_of(j)));
                }
                if hex_adjacent(pos, g0.position_of(j)) {
                    assert(nbr_coords@.contains(g0.position_of(j)));
                    let t0 = choose|t: int|
                        0 <= t < nbr_coords@.len() && nbr_coords@[t] == g0.position_of(j);
                    assert(nbr_coords@[t0] == g0.position_of(j));
                    assert(prefix_has_coord(nbr_coords@, 6, g0.position_of(j)));
                    assert(seq_has_id(nbs, j));
                    let t1 = choose|t: int|
                        0 <= t < nbs.len() && (#[trigger] nbs[t]) as int == j;
                    assert(g.neighbours_of(n0)[t1] as int == j);
                }
            }
            // well-formedness of the grown graph
            assert forall|i: int| 0 <= i < g.spec_len() implies coord_in_range(
                #[trigger] g.position_of(i),
            ) by {
                if i < n0 {
                    assert(g.position_of(i) == g0.position_of(i));
                }
            }
            assert forall|i: int, j: int| 0 <= i < j < g.spec_len() implies #[trigger] g
                .position_of(i) != #[trigger] g.position_of(j) by {
                if j < n0 {
                    assert(g0.position_of(i) != g0.position_of(j));
                } else {
                    assert(g.position_of(j) == pos);
                    assert(g0.position_of(i) != pos);
                }
            }
            assert forall|i: int| 0 <= i < g.spec_len() implies (#[trigger] g.neighbours_of(
                i,
            )).no_duplicates() by {
                if i < n0 {
                    assert(g.neighbours_of(i) == g0.neighbours_of(i));
                } else {
                    assert(g.neighbours_of(i) == nbs);
                }
            }
            assert forall|i: int, kk: int|
                0 <= i < g.spec_len() && 0 <= kk < g.neighbours_of(i).len() implies (
            #[trigger] g.neighbours_of(i)[kk]) < g.spec_len() && hex_adjacent(
                g.position_of(i),
                g.position_of(g.neighbours_of(i)[kk] as int),
            ) by {
                if i < n0 {
                    assert(g.neighbours_of(i) == g0.neighbours_of(i));
                    assert(g0.neighbours_of(i)[kk] < n0);
                    assert(g.position_of(g0.neighbours_of(i)[kk] as int) == g0.position_of(
                        g0.neighbours_of(i)[kk] as int,
                    ));
                } else {
                    assert(g.neighbours_of(i) == nbs);
                    assert(nbs[kk] < n0);
                    assert(g.position_of(nbs[kk] as int) == g0.position_of(nbs[kk] as int));
                }
            }
            assert forall|kk: int| 0 <= kk < g.pending@.len() implies {
                let p = #[trigger] g.pending@[kk];
                &&& p.0 < g.spec_len()
                &&& p.1 < g.spec_len()
                &&& hex_adjacent(g.position_of(p.0 as int), g.position_of(p.1 as int))
                &&& g.linked(p.1 as int, p.0 as int)
                &&& !g.linked(p.0 as int, p.1 as int)
            } by {
                let p = g.pending@[kk];
                if kk < p0 {
                    assert(p == g0.pending@[kk]);
                    assert(p.0 < n0 && p.1 < n0);
                    assert(g.position_of(p.0 as int) == g0.position_of(p.0 as int));
                    assert(g.position_of(p.1 as int) == g0.position_of(p.1 as int));
                    assert(g.neighbours_of(p.1 as int) == g0.neighbours_of(p.1 as int));
                    assert(g.neighbours_of(p.0 as int) == g0.neighbours_of(p.0 as int));
                    assert(g0.linked(p.1 as int, p.0 as int));
                    let t = choose|t: int|
                        0 <= t < g0.neighbours_of(p.1 as int).len() && (#[trigger] g0
                            .neighbours_of(p.1 as int)[t]) as int == p.0 as int;
                    assert(g.neighbours_of(p.1 as int)[t] as int == p.0 as int);
                    assert(!g.linked(p.0 as int, p.1 as int)) by {
                        if g.linked(p.0 as int, p.1 as int) {
                            let t2 = choose|t: int|
                                0 <= t < g.neighbours_of(p.0 as int).len() && (#[trigger] g
                                    .neighbours_of(p.0 as int)[t]) as int == p.1 as int;
                            assert(g0.neighbours_of(p.0 as int)[t2] as int == p.1 as int);
                            assert(g0.linked(p.0 as int, p.1 as int));
                        }
                    }
                } else {
                    let t = kk - p0;
                    assert(g.pending@[p0 + t] == (nbs[t], id));
                    assert(p.0 as int == nbs[t] as int && p.1 as int == n0);
                    assert(nbs[t] < n0);
                    assert(g.position_of(p.1 as int) == pos);
                    assert(g.position_of(p.0 as int) == g0.position_of(nbs[t] as int));
                    assert(hex_adjacent(pos, g0.position_of(nbs[t] as int)));
                    lemma_hex_adjacent_symmetric(pos, g0.position_of(nbs[t] as int));
                    assert(g.neighbours_of(n0)[t] as int == p.0 as int);
                    assert(g.linked(p.1 as int, p.0 as int));
                    assert(!g.linked(p.0 as int, p.1 as int)) by {
                        if g.linked(p.0 as int, p.1 as int) {
                            let t2 = choose|tt: int|
                                0 <= tt < g.neighbours_of(p.0 as int).len() && (#[trigger] g
                                    .neighbours_of(p.0 as int)[tt]) as int == p.1 as int;
                            assert(g0.neighbours_of(p.0 as int)[t2] < n0);
                        }
                    }
                }
            }
            assert forall|k1: int, k2: int| 0 <= k1 < k2 < g.pending@.len() implies (
            #[trigger] g.pending@[k1]) != (#[trigger] g.pending@[k2]) by {
                if k2 < p0 {
                    assert(g0.pending@[k1] != g0.pending@[k2]);
                } else if k1 < p0 {
                    // an old pair targets an old tile, a new pair the new one
                    assert(g.pending@[k1] == g0.pending@[k1]);
                    assert(g0.pending@[k1].1 < n0);
                    let t2 = k2 - p0;
                    assert(g.pending@[p0 + t2] == (nbs[t2], id));
                } else {
                    let t1 = k1 - p0;
                    let t2 = k2 - p0;
                    assert(g.pending@[p0 + t1] == (nbs[t1], id));
                    assert(g.pending@[p0 + t2] == (nbs[t2], id));
                    assert(nbs[t1] != nbs[t2]);
                }
            }
            assert forall|i: int, j: int|
                0 <= i < g.spec_len() && 0 <= j < g.spec_len() && hex_adjacent(
                    #[trigger] g.position_of(i),
                    #[trigger] g.position_of(j),
                ) implies g.linked(i, j) || g.pending_has(i, j) by {
                if i < n0 && j < n0 {
                    assert(hex_adjacent(g0.position_of(i), g0.position_of(j)));
                    if g0.linked(i, j) {
                        let t = choose|t: int|
                            0 <= t < g0.neighbours_of(i).len() && (#[trigger] g0.neighbours_of(
                                i,
                            )[t]) as int == j;
                        assert(g.neighbours_of(i)[t] as int == j);
                        assert(g.linked(i, j));
                    } else {
                        assert(g0.pending_has(i, j));
                        let t = choose|t: int|
                            0 <= t < g0.pending@.len() && (#[trigger] g0.pending@[t]).0 as int
                                == i && g0.pending@[t].1 as int == j;
                        assert(g.pending@[t].0 as int == i && g.pending@[t].1 as int == j);
                        assert(g.pending_has(i, j));
                    }
                } else if i == n0 && j == n0 {
                    lemma_hex_adjacent_irreflexive(pos);
                } else if i == n0 {
                    // adjacency found during the scan: the new tile links out
                    assert(g.position_of(i) == pos);
                    assert(g.position_of(j) == g0.position_of(j));
                    assert(hex_adjacent(pos, g0.position_of(j)));
                    assert(g.linked(n0, j));
                } else {
                    // the reverse direction was recorded as a deferred pair
                    assert(j == n0);
                    assert(g.position_of(i) == g0.position_of(i));
                    lemma_hex_adjacent_symmetric(g0.position_of(i), pos);
                    assert(hex_adjacent(pos, g0.position_of(i)));
                    assert(g.linked(n0, i));
                    let t = choose|t: int|
                        0 <= t < g.neighbours_of(n0).len() && (#[trigger] g.neighbours_of(n0)[t])
                            as int == i;
                    assert(g.pending@[p0 + t] == (nbs[t], id));
                    assert(g.pending@[p0 + t].0 as int == i && g.pending@[p0 + t].1 as int == j);
                    assert(g.pending_has(i, j));
                }
            }
            // the deferred pairs, described exactly
            assert forall|t: int| 0 <= t < p0 implies #[trigger] g.pending@[t]
                == g0.pending@[t] by {
                assert(pend1[t] == g0.pending@[t]);
            }
            assert forall|t: int| p0 <= t < g.pending@.len() implies {
                let p = #[trigger] g.pending@[t];
                &&& p.1 == id
                &&& p.0 < id
                &&& hex_adjacent(g0.position_of(p.0 as int), pos)
            } by {
                let t2 = t - p0;
                assert(pend1[p0 + t2] == (nbs[t2], id));
                assert(nbs[t2] < n0);
                assert(hex_adjacent(pos, g0.position_of(nbs[t2] as int)));
                lemma_hex_adjacent_symmetric(pos, g0.position_of(nbs[t2] as int));
            }
            assert forall|j: int|
                0 <= j < n0 && hex_adjacent(#[trigger] g0.position_of(j), pos) implies g
                .pending_has(j, id as int) by {
                lemma_hex_adjacent_symmetric(g0.position_of(j), pos);
                assert(hex_adjacent(pos, g0.position_of(j)));
                assert(g.linked(n0, j));
                let t1 = choose|t: int|
                    0 <= t < g.neighbours_of(n0).len() && (#[trigger] g.neighbours_of(n0)[t])
                        as int == j;
                assert(g.pending@[p0 + t1] == (nbs[t1], id));
                assert(g.pending@[p0 + t1].0 as int == j && g.pending@[p0 + t1].1 as int
                    == id as int);
                assert(g.pending_has(j, id as int));
            }
        }
        id
    }

    /// Complete the deferred back-edges recorded by `insert` (the second
    /// phase of a construction batch). Afterwards every pair of hex-adjacent
    /// tiles lists each other, whatever order the batch was inserted in;
    /// adjacency lists change only by appending the owed back-edges, and
    /// coordinates, terrain attributes and exploration states are untouched.
    pub fn apply_neighbour_changes(&mut self)
        requires
            old(self).wf(),
        ensures
            final(self).wf(),
            final(self).pending@.len() == 0,
            final(self).fully_linked(),
            final(self).spec_len() == old(self).spec_len(),
            forall|i: int|
                0 <= i < old(self).spec_len() ==> {
                    let t0 = #[trigger] old(self).tiles@[i];
                    let t1 = final(self).tiles@[i];
                    &&& t1.position == t0.position
                    &&& t1.elevation == t0.elevation
                    &&& t1.biome == t0.biome
                    &&& t1.explored_state == t0.explored_state
                },
            forall|i: int|
                0 <= i < old(self).spec_len() ==> (#[trigger] old(self).neighbours_of(
                    i,
                )).is_prefix_of(final(self).neighbours_of(i)),
    {
        let ghost gs = *old(self);
        proof {
            assert forall|i: int| 0 <= i < gs.spec_len() implies (#[trigger] gs.neighbours_of(
                i,
            )).is_prefix_of(self.neighbours_of(i)) by {
                assert(gs.neighbours_of(i) =~= self.neighbours_of(i).subrange(
                    0,
                    gs.neighbours_of(i).len() as int,
                ));
            }
        }
        while self.pending.len() > 0
            invariant
                self.wf(),
                self.spec_len() == gs.spec_len(),
                forall|i: int|
                    0 <= i < gs.spec_len() ==> {
                        let t0 = #[trigger] gs.tiles@[i];
                        let t1 = self.tiles@[i];
                        &&& t1.position == t0.position
                        &&& t1.elevation == t0.elevation
                        &&& t1.biome == t0.biome
                        &&& t1.explored_state == t0.explored_state
                    },
                forall|i: int|
                    0 <= i < gs.spec_len() ==> (#[trigger] gs.neighbours_of(i)).is_prefix_of(
                        self.neighbours_of(i),
                    ),
            decreases self.pending@.len(),
        {
            let ghost g0 = *self;
            let idx = self.pending.len() - 1;
            let pr = self.pending[idx];
            let (a, b) = pr;
            proof {
                assert(g0.pending@[idx as int] == (a, b));
                assert(a < g0.spec_len() && b < g0.spec_len());
            }
            self.pending.truncate(idx);
            self.tiles[a].neighbours.push(b);
            proof {
                let g1 = *self;
                let n = g1.spec_len();
                assert(g1.pending@ == g0.pending@.subrange(0, idx as int));
                assert(g1.tiles@[a as int].neighbours@ == g0.neighbours_of(a as int).push(b));
                assert forall|i: int| 0 <= i < n && i != a as int implies #[trigger] g1.tiles@[i]
                    == g0.tiles@[i] by {}
                assert(g1.tiles@[a as int].position == g0.tiles@[a as int].position);
                assert(g1.tiles@[a as int].elevation == g0.tiles@[a as int].elevation);
                assert(g1.tiles@[a as int].biome == g0.tiles@[a as int].biome);
                assert(g1.tiles@[a as int].explored_state == g0.tiles@[a as int].explored_state);
                assert forall|i: int| 0 <= i < n implies #[trigger] g1.position_of(i)
                    == g0.position_of(i) by {}
                // old adjacency lists stay prefixes: this pass only appends
                assert forall|i: int| 0 <= i < n implies (#[trigger] gs.neighbours_of(
                    i,
                )).is_prefix_of(g1.neighbours_of(i)) by {
                    assert(gs.neighbours_of(i).is_prefix_of(g0.neighbours_of(i)));
                    if i == a as int {
                        let s0 = g0.neighbours_of(a as int);
                        let pre = gs.neighbours_of(i);
                        assert(g1.neighbours_of(i) == s0.push(b));
                        assert(pre =~= s0.subrange(0, pre.len() as int));
                        assert(pre =~= s0.push(b).subrange(0, pre.len() as int));
                    } else {
                        assert(g1.neighbours_of(i) == g0.neighbours_of(i));
                    }
                }
                // the popped pair was a recorded deferred edge
                assert(!g0.linked(a as int, b as int));
                assert(hex_adjacent(g0.position_of(a as int), g0.position_of(b as int)));
                // coordinates
                assert forall|i: int| 0 <= i < n implies coord_in_range(
                    #[trigger] g1.position_of(i),
                ) by {
                    assert(coord_in_range(g0.position_of(i)));
                }
                assert forall|i: int, j: int| 0 <= i < j < n implies #[trigger] g1.position_of(i)
                    != #[trigger] g1.position_of(j) by {
                    assert(g0.position_of(i) != g0.position_of(j));
                }
                // duplicate-freedom of the grown adjacency list
                assert forall|i: int| 0 <= i < n implies (#[trigger] g1.neighbours_of(
                    i,
                )).no_duplicates() by {
                    if i != a as int {
                        assert(g1.neighbours_of(i) == g0.neighbours_of(i));
                    } else {
                        let s0 = g0.neighbours_of(a as int);
                        assert(g1.neighbours_of(i) == s0.push(b));
                        assert forall|i1: int, i2: int|
                            0 <= i1 < s0.push(b).len() && 0 <= i2 < s0.push(b).len() && i1 != i2
                            implies s0.push(b)[i1] != s0.push(b)[i2] by {
                            if i1 < s0.len() && i2 < s0.len() {
                            } else if i1 < s0.len() {
                                if s0[i1] == b {
                                    assert(s0[i1] as int == b as int);
                                    assert(g0.linked(a as int, b as int));
                                }
                            } else if i2 < s0.len() {
                                if s0[i2] == b {
                                    assert(s0[i2] as int == b as int);
                                    assert(g0.linked(a as int, b as int));
                                }
                            }
                        }
                    }
                }
                // edge validity
                assert forall|i: int, kk: int|
                    0 <= i < n && 0 <= kk < g1.neighbours_of(i).len() implies (#[trigger] g1
                    .neighbours_of(i)[kk]) < n && hex_adjacent(
                    g1.position_of(i),
                    g1.position_of(g1.neighbours_of(i)[kk] as int),
                ) by {
                    if i != a as int || kk < g0.neighbours_of(i).len() {
                        assert(g0.neighbours_of(i)[kk] < n);
                        assert(hex_adjacent(
                            g0.position_of(i),
                            g0.position_of(g0.neighbours_of(i)[kk] as int),
                        ));
                    } else {
                        assert(g1.neighbours_of(i)[kk] == b);
                    }
                }
                // remaining deferred pairs are still exactly the missing
                // back-edges
                assert forall|kk: int| 0 <= kk < g1.pending@.len() implies {
                    let p = #[trigger] g1.pending@[kk];
                    &&& p.0 < n
                    &&& p.1 < n
                    &&& hex_adjacent(g1.position_of(p.0 as int), g1.position_of(p.1 as int))
                    &&& g1.linked(p.1 as int, p.0 as int)
                    &&& !g1.linked(p.0 as int, p.1 as int)
                } by {
                    let p = g1.pending@[kk];
                    assert(p == g0.pending@[kk]);
                    assert(g0.linked(p.1 as int, p.0 as int));
                    let t = choose|t: int|
                        0 <= t < g0.neighbours_of(p.1 as int).len() && (#[trigger] g0
                            .neighbours_of(p.1 as int)[t]) as int == p.0 as int;
                    if p.1 == a {
                        assert(g1.neighbours_of(p.1 as int)[t] as int == p.0 as int);
                    } else {
                        assert(g1.neighbours_of(p.1 as int) == g0.neighbours_of(p.1 as int));
                        assert(g1.neighbours_of(p.1 as int)[t] as int == p.0 as int);
                    }
                    assert(g1.linked(p.1 as int, p.0 as int));
                    assert(!g1.linked(p.0 as int, p.1 as int)) by {
                        if g1.linked(p.0 as int, p.1 as int) {
                            let t2 = choose|tt: int|
                                0 <= tt < g1.neighbours_of(p.0 as int).len() && (#[trigger] g1
                                    .neighbours_of(p.0 as int)[tt]) as int == p.1 as int;
                            if p.0 == a {
                                if t2 < g0.neighbours_of(p.0 as int).len() {
                                    assert(g0.neighbours_of(p.0 as int)[t2] as int
                                        == p.1 as int);
                                    assert(g0.linked(p.0 as int, p.1 as int));
                                } else {
                                    // the new edge: then p would be the very
                                    // pair just completed, which was removed
                                    assert(g1.neighbours_of(p.0 as int)[t2] == b);
                                    assert(p.1 == b);
                                    assert(p == (a, b));
                                    assert(g0.pending@[kk] != g0.pending@[idx as int]);
                                    assert(false);
                                }
                            } else {
                                assert(g0.neighbours_of(p.0 as int)[t2] as int == p.1 as int);
                                assert(g0.linked(p.0 as int, p.1 as int));
                            }
                        }
                    }
                }
                assert forall|k1: int, k2: int| 0 <= k1 < k2 < g1.pending@.len() implies (
                #[trigger] g1.pending@[k1]) != (#[trigger] g1.pending@[k2]) by {
                    assert(g0.pending@[k1] != g0.pending@[k2]);
                }
                // completeness: every adjacent pair is linked or still owed
                assert forall|i: int, j: int|
                    0 <= i < n && 0 <= j < n && hex_adjacent(
                        #[trigger] g1.position_of(i),
                        #[trigger] g1.position_of(j),
                    ) implies g1.linked(i, j) || g1.pending_has(i, j) by {
                    assert(hex_adjacent(g0.position_of(i), g0.position_of(j)));
                    if g0.linked(i, j) {
                        let t = choose|t: int|
                            0 <= t < g0.neighbours_of(i).len() && (#[trigger] g0.neighbours_of(
                                i,
                            )[t]) as int == j;
                        if i == a as int {
                            assert(g1.neighbours_of(i)[t] as int == j);
                        } else {
                            assert(g1.neighbours_of(i) == g0.neighbours_of(i));
                            assert(g1.neighbours_of(i)[t] as int == j);
                        }
                        assert(g1.linked(i, j));
                    } else {
                        assert(g0.pending_has(i, j));
                        let t = choose|t: int|
                            0 <= t < g0.pending@.len() && (#[trigger] g0.pending@[t]).0 as int
                                == i && g0.pending@[t].1 as int == j;
                        if t < idx as int {
                            assert(g1.pending@[t].0 as int == i && g1.pending@[t].1 as int == j);
                            assert(g1.pending_has(i, j));
                        } else {
                            // the pair just completed became a real edge
                            assert(g0.pending@[t] == (a, b));
                            assert(i == a as int && j == b as int);
                            let s0 = g0.neighbours_of(a as int);
                            assert(g1.neighbours_of(a as int)[s0.len() as int] as int == j);
                            assert(g1.linked(i, j));
                        }
                    }
                }
            }
        }
        proof {
            self.lemma_settled_graph_fully_linked();
        }
    }

    /// Both directions of every adjacency are present once a batch has been
    /// completed: for any two tiles at hex-adjacent coordinates, each lists
    /// the other, regardless of the order the batch was inserted in.
    pub proof fn lemma_adjacency_symmetric(self, a: int, b: int)
        requires
            self.wf(),
            self.pending@.len() == 0,
            0 <= a < self.spec_len(),
            0 <= b < self.spec_len(),
            hex_adjacent(self.position_of(a), self.position_of(b)),
        ensures
            self.linked(a, b),
            self.linked(b, a),
    {
        self.lemma_settled_graph_fully_linked();
        lemma_hex_adjacent_symmetric(self.position_of(a), self.position_of(b));
    }

    /// Insert a whole batch of fresh, pairwise-distinct coordinates, in the
    /// order given (the first phase of a construction batch). Call
    /// `apply_neighbour_changes` afterwards to complete the back-edges.
    pub fn spawn_hexes(&mut self, positions: &Vec<(i32, i32)>)
        requires
            old(self).wf(),
            forall|k: int|
                0 <= k < positions@.len() ==> coord_in_range(#[trigger] positions@[k]),
            forall|k1: int, k2: int|
                0 <= k1 < k2 < positions@.len() ==> positions@[k1] != positions@[k2],
            forall|k: int, i: int|
                0 <= k < positions@.len() && 0 <= i < old(self).spec_len() ==> (
                #[trigger] positions@[k]) != #[trigger] old(self).position_of(i),
        ensures
            final(self).wf(),
            final(self).spec_len() == old(self).spec_len() + positions@.len(),
            forall|i: int|
                0 <= i < old(self).spec_len() ==> #[trigger] final(self).tiles@[i] == old(
                    self,
                ).tiles@[i],
            forall|k: int|
                0 <= k < positions@.len() ==> #[trigger] final(self).position_of(
                    old(self).spec_len() + k,
                ) == positions@[k],
            forall|k: int|
                0 <= k < positions@.len() ==> {
                    let t = #[trigger] final(self).tiles@[old(self).spec_len() + k];
                    &&& t.explored_state == TileExploredState::Hidden
                    &&& t.elevation == 0
                    &&& t.biome == BiomeTag::Lowland
                },
            // each batch tile links exactly the hex-adjacent tiles created
            // before it — pre-batch tiles and earlier batch siblings alike —
            // and none created after it
            forall|k: int, j: int|
                0 <= k < positions@.len() && 0 <= j < old(self).spec_len() + positions@.len()
                    ==> (final(self).linked(old(self).spec_len() + k, j) <==> (j < old(
                    self,
                ).spec_len() + k && hex_adjacent(positions@[k], final(self).position_of(j)))),
            // deferred pairs: the old ones survive unchanged ...
            forall|t: int|
                0 <= t < old(self).pending@.len() ==> #[trigger] final(self).pending@[t] == old(
                    self,
                ).pending@[t],
            // ... and each new one owes exactly the back-edge from a tile to
            // a hex-adjacent batch tile created after it (well-formedness
            // keeps the pairs pairwise distinct)
            forall|t: int|
                old(self).pending@.len() <= t < final(self).pending@.len() ==> {
                    let p = #[trigger] final(self).pending@[t];
                    &&& old(self).spec_len() <= p.1 as int
                    &&& (p.1 as int) < final(self).spec_len()
                    &&& (p.0 as int) < (p.1 as int)
                    &&& hex_adjacent(
                        final(self).position_of(p.0 as int),
                        final(self).position_of(p.1 as int),
                    )
                },
            // every adjacency towards a later batch tile is owed as a pair
            forall|k: int, j: int|
                0 <= k < positions@.len() && 0 <= j < old(self).spec_len() + k && hex_adjacent(
                    positions@[k],
                    final(self).position_of(j),
                ) ==> final(self).pending_has(j, old(self).spec_len() + k),
    {
        let ghost n0 = old(self).spec_len();
        let ghost p0 = old(self).pending@.len() as int;
        let mut k: usize = 0;
        while k < positions.len()
            invariant
                self.wf(),
                k <= positions@.len(),
                n0 == old(self).spec_len(),
                self.spec_len() == n0 + k,
                forall|t: int|
                    0 <= t < positions@.len() ==> coord_in_range(#[trigger] positions@[t]),
                forall|k1: int, k2: int|
                    0 <= k1 < k2 < positions@.len() ==> positions@[k1] != positions@[k2],
                forall|t: int, i: int|
                    0 <= t < positions@.len() && 0 <= i < n0 ==> (#[trigger] positions@[t]) != (
                    #[trigger] old(self).position_of(i)),
                forall|i: int|
                    0 <= i < n0 ==> #[trigger] self.tiles@[i] == old(self).tiles@[i],
                forall|t: int|
                    0 <= t < k ==> #[trigger] self.position_of(n0 + t) == positions@[t],
                forall|t: int|
                    0 <= t < k ==> {
                        let tl = #[trigger] self.tiles@[n0 + t];
                        &&& tl.explored_state == TileExploredState::Hidden
                        &&& tl.elevation == 0
                        &&& tl.biome == BiomeTag::Lowland
                    },
                p0 == old(self).pending@.len(),
                p0 <= self.pending@.len(),
                forall|t: int, j: int|
                    0 <= t < k && 0 <= j < n0 + k ==> (self.linked(n0 + t, j) <==> (j < n0 + t
                        && hex_adjacent(positions@[t], self.position_of(j)))),
                forall|t: int|
                    0 <= t < p0 ==> #[trigger] self.pending@[t] == old(self).pending@[t],
                forall|t: int|
                    p0 <= t < self.pending@.len() ==> {
                        let p = #[trigger] self.pending@[t];
                        &&& n0 <= p.1 as int
                        &&& (p.1 as int) < n0 + k
                        &&& (p.0 as int) < (p.1 as int)
                        &&& hex_adjacent(
                            self.position_of(p.0 as int),
                            self.position_of(p.1 as int),
                        )
                    },
                forall|t: int, j: int|
                    0 <= t < k && 0 <= j < n0 + t && hex_adjacent(
                        positions@[t],
                        self.position_of(j),
                    ) ==> self.pending_has(j, n0 + t),
            decreases positions@.len() - k,
        {
            let ghost g0 = *self;
            let pos = positions[k];
            proof {
                assert forall|i: int| 0 <= i < g0.spec_len() implies #[trigger] g0.position_of(i)
                    != pos by {
                    if i < n0 {
                        assert(g0.tiles@[i] == old(self).tiles@[i]);
                        assert(g0.position_of(i) == old(self).position_of(i));
                    } else {
                        let t = i - n0;
                        assert(g0.position_of(n0 + t) == positions@[t]);
                        assert(positions@[t] != positions@[k as int]);
                    }
                }
            }
            self.insert(pos);
            proof {
                assert forall|i: int| 0 <= i < n0 implies #[trigger] self.tiles@[i] == old(
                    self,
                ).tiles@[i] by {
                    assert(self.tiles@[i] == g0.tiles@[i]);
                }
                assert forall|t: int| 0 <= t < k + 1 implies #[trigger] self.position_of(n0 + t)
                    == positions@[t] by {
                    if t < k {
                        assert(self.tiles@[n0 + t] == g0.tiles@[n0 + t]);
                        assert(g0.position_of(n0 + t) == positions@[t]);
                    }
                }
                assert forall|t: int| 0 <= t < k + 1 implies {
                    let tl = #[trigger] self.tiles@[n0 + t];
                    &&& tl.explored_state == TileExploredState::Hidden
                    &&& tl.elevation == 0
                    &&& tl.biome == BiomeTag::Lowland
                } by {
                    if t < k {
                        assert(self.tiles@[n0 + t] == g0.tiles@[n0 + t]);
                    }
                }
                let g1 = *self;
                // positions are untouched by the insertion
                assert forall|j: int| 0 <= j < n0 + k implies #[trigger] g1.position_of(j)
                    == g0.position_of(j) by {
                    assert(g1.tiles@[j] == g0.tiles@[j]);
                }
                // adjacency of each batch tile so far
                assert forall|t: int, j: int|
                    0 <= t < k + 1 && 0 <= j < n0 + k + 1 implies (g1.linked(n0 + t, j) <==> (j
                        < n0 + t && hex_adjacent(positions@[t], g1.position_of(j)))) by {
                    if t < k {
                        assert(g1.tiles@[n0 + t] == g0.tiles@[n0 + t]);
                        assert(g1.neighbours_of(n0 + t) == g0.neighbours_of(n0 + t));
                        if j < n0 + k {
                            assert(g0.linked(n0 + t, j) <==> (j < n0 + t && hex_adjacent(
                                positions@[t],
                                g0.position_of(j),
                            )));
                            if g1.linked(n0 + t, j) {
                                let e = choose|e: int|
                                    0 <= e < g1.neighbours_of(n0 + t).len() && (#[trigger] g1
                                        .neighbours_of(n0 + t)[e]) as int == j;
                                assert(g0.neighbours_of(n0 + t)[e] as int == j);
                                assert(g0.linked(n0 + t, j));
                            }
                            if g0.linked(n0 + t, j) {
                                let e = choose|e: int|
                                    0 <= e < g0.neighbours_of(n0 + t).len() && (#[trigger] g0
                                        .neighbours_of(n0 + t)[e]) as int == j;
                                assert(g1.neighbours_of(n0 + t)[e] as int == j);
                                assert(g1.linked(n0 + t, j));
                            }
                        } else {
                            // the tile created this step is not listed by an
                            // earlier one yet
                            assert(!g1.linked(n0 + t, j)) by {
                                if g1.linked(n0 + t, j) {
                                    let e = choose|e: int|
                                        0 <= e < g1.neighbours_of(n0 + t).len() && (
                                        #[trigger] g1.neighbours_of(n0 + t)[e]) as int == j;
                                    assert(g0.neighbours_of(n0 + t)[e] < n0 + k);
                                }
                            }
                        }
                    } else {
                        if j < n0 + k {
                            assert(g1.linked(n0 + k, j) <==> hex_adjacent(
                                pos,
                                g0.position_of(j),
                            ));
                        } else {
                            // no self-edge: the new tile's entries all point
                            // at hex-adjacent, hence distinct, tiles
                            assert(!g1.linked(n0 + k, j)) by {
                                if g1.linked(n0 + k, j) {
                                    let e = choose|e: int|
                                        0 <= e < g1.neighbours_of(n0 + k).len() && (
                                        #[trigger] g1.neighbours_of(n0 + k)[e]) as int == j;
                                    assert(hex_adjacent(
                                        g1.position_of(n0 + k),
                                        g1.position_of(g1.neighbours_of(n0 + k)[e] as int),
                                    ));
                                    lemma_hex_adjacent_irreflexive(pos);
                                }
                            }
                        }
                    }
                }
                // the deferred pairs grow by exactly the new tile's debts
                assert forall|t: int| 0 <= t < p0 implies #[trigger] g1.pending@[t] == old(
                    self,
                ).pending@[t] by {
                    assert(g1.pending@[t] == g0.pending@[t]);
                }
                assert forall|t: int| p0 <= t < g1.pending@.len() implies {
                    let p = #[trigger] g1.pending@[t];
                    &&& n0 <= p.1 as int
                    &&& (p.1 as int) < n0 + k + 1
                    &&& (p.0 as int) < (p.1 as int)
                    &&& hex_adjacent(g1.position_of(p.0 as int), g1.position_of(p.1 as int))
                } by {
                    let p = g1.pending@[t];
                    if t < g0.pending@.len() {
                        assert(g1.pending@[t] == g0.pending@[t]);
                        assert(g1.position_of(p.0 as int) == g0.position_of(p.0 as int));
                        assert(g1.position_of(p.1 as int) == g0.position_of(p.1 as int));
                    } else {
                        assert(p.1 == n0 + k && p.0 < n0 + k);
                        assert(hex_adjacent(g0.position_of(p.0 as int), pos));
                        assert(g1.position_of(p.0 as int) == g0.position_of(p.0 as int));
                        assert(g1.position_of(n0 + k) == pos);
                    }
                }
                assert forall|t: int, j: int|
                    0 <= t < k + 1 && 0 <= j < n0 + t && hex_adjacent(
                        positions@[t],
                        g1.position_of(j),
                    ) implies g1.pending_has(j, n0 + t) by {
                    assert(g1.position_of(j) == g0.position_of(j));
                    if t < k {
                        assert(g0.pending_has(j, n0 + t));
                        let tt = choose|tt: int|
                            0 <= tt < g0.pending@.len() && (#[trigger] g0.pending@[tt]).0 as int
                                == j && g0.pending@[tt].1 as int == n0 + t;
                        assert(g1.pending@[tt] == g0.pending@[tt]);
                        assert(g1.pending_has(j, n0 + t));
                    } else {
                        lemma_hex_adjacent_symmetric(positions@[k as int], g0.position_of(j));
                        assert(hex_adjacent(g0.position_of(j), pos));
                        assert(g1.pending_has(j, n0 + k));
                    }
                }
            }
            k = k + 1;
        }
    }
}

/// Label for the tile-spawning stage of world construction: everything that
/// runs under it happens before terrain assignment and before any search.
#[derive(Debug, Clone, Copy, PartialEq, Eq, Hash)]
pub struct HexSpawnSet;

/// The tile-graph construction entry point: lays out the hex-shaped region,
/// spawns its tiles and completes the deferred back-edges, handing out a
/// fully linked world.
pub struct HexPlugin;

impl HexPlugin {
    /// Build the tile graph for the hex-shaped region of the given size:
    /// a tile exists exactly for every coordinate of the region, adjacency
    /// realises hex adjacency in both directions, and every tile starts
    /// hidden with default terrain.
    pub fn build(&self, hex_size: i32) -> (g: HexGraph)
        requires
            0 <= hex_size <= i32::MAX / 4,
        ensures
            g.wf(),
            g.pending@.len() == 0,
            g.fully_linked(),
            forall|p: (i32, i32)| #[trigger]
                g.spec_has_node(p) <==> in_hex_region(hex_size as int, p.0 as int, p.1 as int),
            forall|i: int|
                0 <= i < g.spec_len() ==> {
                    let t = #[trigger] g.tiles@[i];
                    &&& t.explored_state == TileExploredState::Hidden
                    &&& t.elevation == 0
                    &&& t.biome == BiomeTag::Lowland
                },
            forall|i: int|
                0 <= i < g.spec_len() ==> in_hex_region(
                    hex_size as int,
                    (#[trigger] g.position_of(i)).0 as int,
                    g.position_of(i).1 as int,
                ),
    {
        let coords = hex_region(hex_size);
        let mut g = HexGraph::new();
        proof {
            assert forall|k: int| 0 <= k < coords@.len() implies coord_in_range(
                #[trigger] coords@[k],
            ) by {
                assert(coords@.contains(coords@[k]));
                assert(in_hex_region(hex_size as int, coords@[k].0 as int, coords@[k].1 as int));
            }
        }
        g.spawn_hexes(&coords);
        let ghost g1 = g;
        g.apply_neighbour_changes();
        proof {
            assert forall|i: int| 0 <= i < g.spec_len() implies #[trigger] g.position_of(i)
                == coords@[i] by {
                assert(g1.position_of(0 + i) == coords@[i]);
                assert(g.tiles@[i].position == g1.tiles@[i].position);
            }
            assert forall|p: (i32, i32)| #[trigger] g.spec_has_node(p) <==> in_hex_region(
                hex_size as int,
                p.0 as int,
                p.1 as int,
            ) by {
                if g.spec_has_node(p) {
                    let i = choose|i: int|
                        0 <= i < g.spec_len() && #[trigger] g.position_of(i) == p;
                    assert(coords@[i] == p);
                    assert(coords@.contains(p));
                } else {
                    if in_hex_region(hex_size as int, p.0 as int, p.1 as int) {
                        assert(coords@.contains(p));
                        let t = choose|t: int| 0 <= t < coords@.len() && coords@[t] == p;
                        assert(g.position_of(t) == p);
                        assert(false);
                    }
                }
            }
            assert forall|i: int| 0 <= i < g.spec_len() implies {
                let t = #[trigger] g.tiles@[i];
                &&& t.explored_state == TileExploredState::Hidden
                &&& t.elevation == 0
                &&& t.biome == BiomeTag::Lowland
            } by {
                assert(g1.tiles@[0 + i].explored_state == TileExploredState::Hidden);
                assert(g1.tiles@[0 + i].elevation == 0);
                assert(g1.tiles@[0 + i].biome == BiomeTag::Lowland);
            }
            assert forall|i: int| 0 <= i < g.spec_len() implies in_hex_region(
                hex_size as int,
                (#[trigger] g.position_of(i)).0 as int,
                g.position_of(i).1 as int,
            ) by {
                assert(coords@.contains(coords@[i]));
            }
        }
        g
    }
}

} // verus!
