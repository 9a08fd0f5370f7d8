//! Bounded breadth-first traversal over an abstract neighbour-lookup
//! capability.
//!
//! `within_steps` is generic over any vertex type that can enumerate its
//! neighbours by id, so it is usable for graph analyses beyond hex tiles.
//! Its contract pins the output down completely: each emitted pair carries
//! the true shortest-path hop distance of its node, every node within the
//! hop cap appears exactly once, and hop distances are non-decreasing in
//! emission order.

use vstd::prelude::*;
use vstd::seq_lib::*;
use vstd::set_lib::*;

verus! {

/// Error kinds raised by graph construction and search. `NoPath` and
/// `NegativeWeight` are reserved for future weighted variants; the unweighted
/// bounded search never produces them.
#[derive(Clone, Copy, PartialEq, Eq, Structural, Debug)]
pub enum GraphError {
    NoPath,
    InvalidEntity,
    InvalidCoordinate,
    NegativeWeight,
}

/// A node of some graph, able to enumerate its neighbours by id. Ids index
/// the vector of vertices handed to `within_steps`; an id out of range is
/// tolerated there and simply never visited.
pub trait GraphVertex {
    /// The neighbour ids this vertex reports.
    spec fn spec_neighbours(&self) -> Seq<usize>;

    /// Enumerate the neighbour ids of this vertex.
    fn get_neighbours(&self) -> (r: Vec<usize>)
        ensures
            r@ == self.spec_neighbours(),
    ;
}

/// The adjacency lists of a vertex sequence, id by id.
pub open spec fn graph_view<V: GraphVertex>(g: Seq<V>) -> Seq<Seq<usize>> {
    Seq::new(g.len(), |i: int| g[i].spec_neighbours())
}

/// A directed edge between two in-range ids.
pub open spec fn has_edge(adj: Seq<Seq<usize>>, a: int, b: int) -> bool {
    &&& 0 <= a < adj.len()
    &&& 0 <= b < adj.len()
    &&& adj[a].contains(b as usize)
}

/// Whether `t` can be reached from `s` along at most `d` edges.
pub open spec fn reachable_within(adj: Seq<Seq<usize>>, s: int, t: int, d: nat) -> bool
    decreases d,
{
    if t == s {
        true
    } else if d == 0 {
        false
    } else {
        exists|m: int| reachable_within(adj, s, m, (d - 1) as nat) && has_edge(adj, m, t)
    }
}

/// `d` is the true shortest-path hop distance from `s` to `t`.
pub open spec fn hop_distance_is(adj: Seq<Seq<usize>>, s: int, t: int, d: nat) -> bool {
    &&& reachable_within(adj, s, t, d)
    &&& d > 0 ==> !reachable_within(adj, s, t, (d - 1) as nat)
}

/// Reachability within a bound is monotone in the bound.
pub proof fn lemma_reachable_monotonic(adj: Seq<Seq<usize>>, s: int, t: int, d1: nat, d2: nat)
    requires
        reachable_within(adj, s, t, d1),
        d1 <= d2,
    ensures
        reachable_within(adj, s, t, d2),
    decreases d2,
{
    if t != s {
        let m = choose|m: int|
            reachable_within(adj, s, m, (d1 - 1) as nat) && has_edge(adj, m, t);
        lemma_reachable_monotonic(adj, s, m, (d1 - 1) as nat, (d2 - 1) as nat);
        assert(reachable_within(adj, s, m, (d2 - 1) as nat) && has_edge(adj, m, t));
    }
}

/// The shortest-path distance never exceeds any bound within which the node
/// is reachable.
pub proof fn lemma_hop_distance_le(adj: Seq<Seq<usize>>, s: int, t: int, d: nat, bound: nat)
    requires
        hop_distance_is(adj, s, t, d),
        reachable_within(adj, s, t, bound),
    ensures
        d <= bound,
{
    if d > bound {
        lemma_reachable_monotonic(adj, s, t, bound, (d - 1) as nat);
    }
}

/// Whether some emitted pair reports node `t`.
pub open spec fn discovered(out: Seq<(usize, usize)>, t: int) -> bool {
    exists|k: int| 0 <= k < out.len() && (#[trigger] out[k]).0 as int == t
}

/// Full functional correctness of a bounded breadth-first search result:
/// the start pair comes first, every pair reports the true hop distance of
/// its node within the cap, every node reachable within the cap is reported,
/// no node is reported twice, and distances are non-decreasing in emission
/// order.
pub open spec fn bfs_result_correct(
    adj: Seq<Seq<usize>>,
    s: int,
    max: int,
    out: Seq<(usize, usize)>,
) -> bool {
    &&& out.len() >= 1
    &&& out[0].0 as int == s && out[0].1 == 0
    &&& forall|k: int|
        0 <= k < out.len() ==> hop_distance_is(adj, s, (#[trigger] out[k]).0 as int, out[k].1 as nat)
            && out[k].1 <= max && out[k].0 < adj.len()
    &&& forall|t: int|
        0 <= t < adj.len() && reachable_within(adj, s, t, max as nat) ==> discovered(out, t)
    &&& forall|k1: int, k2: int|
        0 <= k1 < k2 < out.len() ==> (#[trigger] out[k1]).0 != (#[trigger] out[k2]).0
    &&& forall|k1: int, k2: int|
        0 <= k1 <= k2 < out.len() ==> (#[trigger] out[k1]).1 <= (#[trigger] out[k2]).1
}

/// A sequence of pairwise-distinct ids below `n` has at most `n` entries.
proof fn lemma_distinct_ids_len(out: Seq<(usize, usize)>, n: int)
    requires
        n >= 0,
        forall|k: int| 0 <= k < out.len() ==> (#[trigger] out[k]).0 < n,
        forall|k1: int, k2: int|
            0 <= k1 < k2 < out.len() ==> (#[trigger] out[k1]).0 != (#[trigger] out[k2]).0,
    ensures
        out.len() <= n,
{
    broadcast use vstd::seq_lib::group_seq_properties;
    broadcast use vstd::set::group_set_axioms;
    broadcast use vstd::seq_lib::seq_to_set_is_finite;

    let ids = Seq::new(out.len(), |k: int| out[k].0 as int);
    assert forall|i: int, j: int| 0 <= i < ids.len() && 0 <= j < ids.len() && i != j
        implies ids[i] != ids[j] by {
        if i < j {
            assert(out[i].0 != out[j].0);
        } else {
            assert(out[j].0 != out[i].0);
        }
    }
    ids.unique_seq_to_set();
    assert(ids.to_set().subset_of(set_int_range(0, n))) by {
        assert forall|x: int| ids.to_set().contains(x) implies set_int_range(0, n).contains(x) by {
            let k = choose|k: int| 0 <= k < ids.len() && ids[k] == x;
            assert(out[k].0 < n);
        }
    }
    lemma_int_range(0, n);
    lemma_len_subset(ids.to_set(), set_int_range(0, n));
}

/// A discovered set that contains the start node and is closed under edges
/// out of its members contains every reachable node.
proof fn lemma_closed_discovers_reachable(
    adj: Seq<Seq<usize>>,
    s: int,
    out: Seq<(usize, usize)>,
    t: int,
    d: nat,
)
    requires
        discovered(out, s),
        forall|k: int, b: int|
            0 <= k < out.len() && #[trigger] has_edge(adj, out[k].0 as int, b) ==> discovered(
                out,
                b,
            ),
        reachable_within(adj, s, t, d),
    ensures
        discovered(out, t),
    decreases d,
{
    if t != s {
        let m = choose|m: int|
            reachable_within(adj, s, m, (d - 1) as nat) && has_edge(adj, m, t);
        lemma_closed_discovers_reachable(adj, s, out, m, (d - 1) as nat);
        let k = choose|k: int| 0 <= k < out.len() && (#[trigger] out[k]).0 as int == m;
        assert(has_edge(adj, out[k].0 as int, t));
    }
}

/// A correct bounded search reports a node if and only if it is reachable
/// within the hop cap.
pub proof fn lemma_bfs_discovers_iff_reachable(
    adj: Seq<Seq<usize>>,
    s: int,
    max: int,
    out: Seq<(usize, usize)>,
)
    requires
        bfs_result_correct(adj, s, max, out),
        0 <= max,
    ensures
        forall|t: int|
            0 <= t < adj.len() ==> (discovered(out, t) <==> reachable_within(
                adj,
                s,
                t,
                max as nat,
            )),
{
    assert forall|t: int| 0 <= t < adj.len() implies (discovered(out, t) <==> reachable_within(
        adj,
        s,
        t,
        max as nat,
    )) by {
        if discovered(out, t) {
            let k = choose|k: int| 0 <= k < out.len() && (#[trigger] out[k]).0 as int == t;
            assert(hop_distance_is(adj, s, out[k].0 as int, out[k].1 as nat));
            lemma_reachable_monotonic(adj, s, t, out[k].1 as nat, max as nat);
        }
    }
}

/// With a hop cap of zero the search returns exactly the start pair.
pub proof fn lemma_radius_zero_search(adj: Seq<Seq<usize>>, s: int, out: Seq<(usize, usize)>)
    requires
        bfs_result_correct(adj, s, 0, out),
    ensures
        out =~= seq![(s as usize, 0usize)],
{
    assert(0 <= out[0].0 as int);
    assert forall|k: int| 0 <= k < out.len() implies out[k] == (s as usize, 0usize) by {
        assert(hop_distance_is(adj, s, out[k].0 as int, out[k].1 as nat));
        assert(out[k].1 <= 0);
        assert(reachable_within(adj, s, out[k].0 as int, 0));
        assert(out[k].0 as int == s);
    }
    if out.len() >= 2 {
        assert(out[0].0 != out[1].0);
        assert(false);
    }
}

/// The hop distance a search entry carries for the layer currently being
/// expanded: the distance at the queue head, or one past the last emitted
/// distance once the queue has drained.
spec fn frontier_layer(out: Seq<(usize, usize)>, head: int) -> nat
    recommends
        1 <= out.len(),
        0 <= head <= out.len(),
{
    if head < out.len() {
        out[head].1 as nat
    } else {
        (out[out.len() - 1].1 + 1) as nat
    }
}

/// Breadth-first traversal from `start_ent`, visiting each node reachable in
/// at most `max_steps` hops exactly once and reporting its hop distance, in
/// discovery order. Fails with `InvalidEntity` when `start_ent` is not a
/// vertex of `graph`; neighbour ids out of range are skipped, as a lookup of
/// a missing vertex would be.
pub fn within_steps<V: GraphVertex>(
    start_ent: usize,
    max_steps: usize,
    graph: &Vec<V>,
) -> (r: Result<Vec<(usize, usize)>, GraphError>)
    ensures
        match r {
            Ok(valid) => start_ent < graph.len() && bfs_result_correct(
                graph_view(graph@),
                start_ent as int,
                max_steps as int,
                valid@,
            ),
            Err(e) => e == GraphError::InvalidEntity && start_ent >= graph.len(),
        },
{
    let ghost adj = graph_view(graph@);
    let n = graph.len();
    if start_ent >= n {
        return Err(GraphError::InvalidEntity);
    }
    let mut seen: Vec<bool> = Vec::new();
    let mut i: usize = 0;
    while i < n
        invariant
            i <= n,
            seen@.len() == i,
            forall|v: int| 0 <= v < i ==> !(#[trigger] seen@[v]),
        decreases n - i,
    {
        seen.push(false);
        i = i + 1;
    }
    seen[start_ent] = true;
    let mut valid: Vec<(usize, usize)> = Vec::new();
    valid.push((start_ent, 0));
    let mut head: usize = 0;
    proof {
        assert(valid@[0].0 as int == start_ent as int);
        assert(discovered(valid@, start_ent as int));
    }
    while head < valid.len()
        invariant
            n == graph.len(),
            adj == graph_view(graph@),
            adj.len() == n,
            start_ent < n,
            1 <= valid@.len() <= n,
            head <= valid@.len(),
            seen@.len() == n,
            valid@[0].0 == start_ent && valid@[0].1 == 0,
            // every reported id is in range
            forall|k: int| 0 <= k < valid@.len() ==> (#[trigger] valid@[k]).0 < n,
            // ids are reported at most once
            forall|k1: int, k2: int|
                0 <= k1 < k2 < valid@.len() ==> (#[trigger] valid@[k1]).0 != (
                #[trigger] valid@[k2]).0,
            // hop distances are non-decreasing in emission order
            forall|k1: int, k2: int|
                0 <= k1 <= k2 < valid@.len() ==> (#[trigger] valid@[k1]).1 <= (
                #[trigger] valid@[k2]).1,
            // `seen` marks exactly the discovered ids
            forall|v: int| 0 <= v < n ==> (#[trigger] seen@[v] <==> discovered(valid@, v)),
            // every reported pair carries the true hop distance, within the cap
            forall|k: int|
                0 <= k < valid@.len() ==> hop_distance_is(
                    adj,
                    start_ent as int,
                    (#[trigger] valid@[k]).0 as int,
                    valid@[k].1 as nat,
                ) && valid@[k].1 <= max_steps,
            // all neighbours of already-expanded nodes are discovered
            forall|k: int, b: int|
                0 <= k < head && #[trigger] has_edge(adj, valid@[k].0 as int, b) ==> discovered(
                    valid@,
                    b,
                ),
            // everything reachable within the frontier layer is discovered
            forall|t: int|
                0 <= t < n && reachable_within(
                    adj,
                    start_ent as int,
                    t,
                    frontier_layer(valid@, head as int),
                ) ==> discovered(valid@, t),
            // the queue spans at most two consecutive layers
            head < valid@.len() ==> valid@[valid@.len() - 1].1 <= valid@[head as int].1 + 1,
        ensures
            head == valid@.len() || (head < valid@.len() && valid@[head as int].1 == max_steps),
        decreases n - head,
    {
        let (u, du) = valid[head];
        if du == max_steps {
            break;
        }
        let ghost out0 = valid@;
        let vtx: &V = &graph[u];
        let nbrs = vtx.get_neighbours();
        proof {
            assert(adj[u as int] == nbrs@);
        }
        let mut j: usize = 0;
        while j < nbrs.len()
            invariant
                n == graph.len(),
                adj == graph_view(graph@),
                adj.len() == n,
                start_ent < n,
                1 <= valid@.len() <= n,
                head < valid@.len(),
                seen@.len() == n,
                valid@[0].0 == start_ent && valid@[0].1 == 0,
                j <= nbrs@.len(),
                valid@[head as int] == (u, du),
                u < n,
                du < max_steps,
                adj[u as int] == nbrs@,
                forall|k: int| 0 <= k < valid@.len() ==> (#[trigger] valid@[k]).0 < n,
                forall|k1: int, k2: int|
                    0 <= k1 < k2 < valid@.len() ==> (#[trigger] valid@[k1]).0 != (
                    #[trigger] valid@[k2]).0,
                forall|k1: int, k2: int|
                    0 <= k1 <= k2 < valid@.len() ==> (#[trigger] valid@[k1]).1 <= (
                    #[trigger] valid@[k2]).1,
                forall|v: int| 0 <= v < n ==> (#[trigger] seen@[v] <==> discovered(valid@, v)),
                forall|k: int|
                    0 <= k < valid@.len() ==> hop_distance_is(
                        adj,
                        start_ent as int,
                        (#[trigger] valid@[k]).0 as int,
                        valid@[k].1 as nat,
                    ) && valid@[k].1 <= max_steps,
                forall|k: int, b: int|
                    0 <= k < head && #[trigger] has_edge(adj, valid@[k].0 as int, b)
                        ==> discovered(valid@, b),
                forall|t: int|
                    0 <= t < n && reachable_within(
                        adj,
                        start_ent as int,
                        t,
                        du as nat,
                    ) ==> discovered(valid@, t),
                // entries beyond the head stay within the current two layers
                forall|k: int|
                    head <= k < valid@.len() ==> du <= (#[trigger] valid@[k]).1 <= du + 1,
                // the neighbours looked at so far are all discovered
                forall|jj: int|
                    0 <= jj < j && (#[trigger] nbrs@[jj]) < n ==> discovered(
                        valid@,
                        nbrs@[jj] as int,
                    ),
            decreases nbrs@.len() - j,
        {
            let nb = nbrs[j];
            if nb < n && !seen[nb] {
                let ghost out_pre = valid@;
                seen[nb] = true;
                proof {
                    // the new node's true hop distance is du + 1
                    assert(reachable_within(adj, start_ent as int, u as int, du as nat));
                    assert(has_edge(adj, u as int, nb as int)) by {
                        assert(nbrs@[j as int] == nb);
                        assert(adj[u as int].contains(nb));
                    }
                    assert(reachable_within(adj, start_ent as int, nb as int, (du + 1) as nat));
                    assert(!reachable_within(adj, start_ent as int, nb as int, du as nat)) by {
                        if reachable_within(adj, start_ent as int, nb as int, du as nat) {
                            assert(discovered(out_pre, nb as int));
                            assert(seen@[nb as int]);
                        }
                    }
                }
                valid.push((nb, du + 1));
                proof {
                    let outp = valid@;
                    assert(outp[outp.len() - 1] == (nb, (du + 1) as usize));
                    assert forall|k: int| 0 <= k < out_pre.len()
                        implies outp[k] == out_pre[k] by {}
                    assert forall|v: int| 0 <= v < n
                        implies (seen@[v] <==> discovered(outp, v)) by {
                        if seen@[v] {
                            if v == nb as int {
                                assert(outp[outp.len() - 1].0 as int == v);
                            } else {
                                let k = choose|k: int|
                                    0 <= k < out_pre.len() && (#[trigger] out_pre[k]).0 as int
                                        == v;
                                assert(outp[k].0 as int == v);
                            }
                        }
                        if discovered(outp, v) {
                            let k = choose|k: int|
                                0 <= k < outp.len() && (#[trigger] outp[k]).0 as int == v;
                            if k < out_pre.len() {
                                assert(discovered(out_pre, v));
                            } else {
                                assert(v == nb as int);
                            }
                        }
                    }
                    assert forall|k: int, b: int|
                        0 <= k < head && #[trigger] has_edge(adj, outp[k].0 as int, b)
                        implies discovered(outp, b) by {
                        assert(outp[k] == out_pre[k]);
                        assert(discovered(out_pre, b));
                        let kk = choose|kk: int|
                            0 <= kk < out_pre.len() && (#[trigger] out_pre[kk]).0 as int == b;
                        assert(outp[kk].0 as int == b);
                    }
                    assert forall|t: int|
                        0 <= t < n && reachable_within(adj, start_ent as int, t, du as nat)
                        implies discovered(outp, t) by {
                        assert(discovered(out_pre, t));
                        let kk = choose|kk: int|
                            0 <= kk < out_pre.len() && (#[trigger] out_pre[kk]).0 as int == t;
                        assert(outp[kk].0 as int == t);
                    }
                    assert forall|jj: int| 0 <= jj < j + 1 && (#[trigger] nbrs@[jj]) < n
                        implies discovered(outp, nbrs@[jj] as int) by {
                        if jj < j {
                            assert(discovered(out_pre, nbrs@[jj] as int));
                            let kk = choose|kk: int|
                                0 <= kk < out_pre.len() && (#[trigger] out_pre[kk]).0 as int
                                    == nbrs@[jj] as int;
                            assert(outp[kk].0 as int == nbrs@[jj] as int);
                        } else {
                            assert(outp[outp.len() - 1].0 as int == nb as int);
                        }
                    }
                    lemma_distinct_ids_len(outp, n as int);
                }
            } else {
                proof {
                    if nb < n {
                        assert(seen@[nb as int]);
                    }
                }
            }
            j = j + 1;
        }
        head = head + 1;
        proof {
            let out1 = valid@;
            let h0 = head - 1;
            // all neighbours of the newly expanded node are discovered
            assert forall|k: int, b: int|
                0 <= k < head && #[trigger] has_edge(adj, out1[k].0 as int, b)
                implies discovered(out1, b) by {
                if k == h0 {
                    assert(out1[k].0 == u);
                    let bb = b as usize;
                    let jj = choose|jj: int| 0 <= jj < nbrs@.len() && nbrs@[jj] == bb;
                    assert(nbrs@[jj] < n);
                } else {
                }
            }
            // re-establish the frontier invariant for the next layer
            assert forall|t: int|
                0 <= t < n && reachable_within(
                    adj,
                    start_ent as int,
                    t,
                    frontier_layer(out1, head as int),
                ) implies discovered(out1, t) by {
                let layer = frontier_layer(out1, head as int);
                if head < out1.len() && out1[head as int].1 == du {
                    assert(layer == du as nat);
                } else {
                    // the next layer is du + 1: go through a predecessor at
                    // distance at most du, which is already expanded
                    assert(layer == (du + 1) as nat) by {
                        if head < out1.len() {
                            assert(du <= out1[head as int].1 <= du + 1);
                        } else {
                            assert(out1[out1.len() - 1].1 == du);
                        }
                    }
                    if t != start_ent as int && !reachable_within(
                        adj,
                        start_ent as int,
                        t,
                        du as nat,
                    ) {
                        let m = choose|m: int|
                            reachable_within(adj, start_ent as int, m, du as nat) && has_edge(
                                adj,
                                m,
                                t,
                            );
                        assert(discovered(out1, m));
                        let k = choose|k: int|
                            0 <= k < out1.len() && (#[trigger] out1[k]).0 as int == m;
                        // the predecessor's reported distance is at most du,
                        // so it sits at or before the old head and has been
                        // expanded
                        assert(hop_distance_is(adj, start_ent as int, m, out1[k].1 as nat));
                        lemma_hop_distance_le(
                            adj,
                            start_ent as int,
                            m,
                            out1[k].1 as nat,
                            du as nat,
                        );
                        assert(out1[k].1 <= du);
                        if k >= head {
                            if head < out1.len() {
                                assert(out1[head as int].1 <= out1[k].1);
                                assert(out1[head as int].1 == du + 1);
                            }
                            assert(false);
                        }
                        assert(has_edge(adj, out1[k].0 as int, t));
                    }
                }
            }
        }
    }
    proof {
        let out = valid@;
        assert forall|t: int|
            0 <= t < n && reachable_within(adj, start_ent as int, t, max_steps as nat)
            implies discovered(out, t) by {
            if head < out.len() {
                // stopped at the hop cap: the frontier invariant covers the
                // whole cap
                assert(frontier_layer(out, head as int) == max_steps as nat);
            } else {
                // queue drained: the discovered set is closed under edges
                lemma_closed_discovers_reachable(
                    adj,
                    start_ent as int,
                    out,
                    t,
                    max_steps as nat,
                );
            }
        }
        assert(discovered(out, start_ent as int));
    }
    Ok(valid)
}

} // verus!
