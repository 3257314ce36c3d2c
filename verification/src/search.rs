//! Breadth-first shortest-path search over the grid graph.

use crate::graph::{step_coord, Direction, Graph, NodeId};
use vstd::prelude::*;
use vstd::set_lib::{lemma_int_range, lemma_len_subset, set_int_range};

verus! {

/// A route from `from` to `to` through `g`: a non-empty sequence of node
/// identifiers that starts at `from`, ends at `to`, hops only between
/// orthogonally adjacent cells, and stays on walkable cells after the first.
pub open spec fn is_route(g: Graph, p: Seq<NodeId>, from: NodeId, to: NodeId) -> bool {
    &&& p.len() >= 1
    &&& p[0] == from
    &&& p.last() == to
    &&& g.valid_id(from)
    &&& forall|k: int| 0 <= k < p.len() - 1 ==> #[trigger] g.adjacent(p[k], p[k + 1])
    &&& forall|k: int| 1 <= k < p.len() ==> g.walkable(#[trigger] p[k])
}

/// Whether some route leads from `from` to `to`.
pub open spec fn reachable(g: Graph, from: NodeId, to: NodeId) -> bool {
    exists|p: Seq<NodeId>| is_route(g, p, from, to)
}

/// Adjacency between cells is symmetric.
pub proof fn lemma_adjacent_sym(g: Graph, a: NodeId, b: NodeId)
    requires
        g.adjacent(a, b),
    ensures
        g.adjacent(b, a),
{
    let d = choose|d: Direction|
        step_coord(g.node_at(a).x as int, g.node_at(a).y as int, d)
            == (g.node_at(b).x as int, g.node_at(b).y as int);
    assert(step_coord(g.node_at(b).x as int, g.node_at(b).y as int, d.spec_opposite())
        == (g.node_at(a).x as int, g.node_at(a).y as int));
}

/// Two shortest routes between the same endpoints have the same length:
/// however a search breaks ties between equally short routes, the number of
/// cells it answers with is determined by the graph and the endpoints alone.
pub proof fn lemma_shortest_length_determined(
    g: Graph,
    from: NodeId,
    to: NodeId,
    p1: Seq<NodeId>,
    p2: Seq<NodeId>,
)
    requires
        is_route(g, p1, from, to),
        is_route(g, p2, from, to),
        forall|q: Seq<NodeId>| is_route(g, q, from, to) ==> p1.len() <= q.len(),
        forall|q: Seq<NodeId>| is_route(g, q, from, to) ==> p2.len() <= q.len(),
    ensures
        p1.len() == p2.len(),
{
}

/// Every identifier on a route names a node of the graph.
pub proof fn lemma_route_ids_valid(g: Graph, p: Seq<NodeId>, from: NodeId, to: NodeId)
    requires
        is_route(g, p, from, to),
    ensures
        forall|k: int| 0 <= k < p.len() ==> g.valid_id(#[trigger] p[k]),
{
    assert forall|k: int| 0 <= k < p.len() implies g.valid_id(#[trigger] p[k]) by {
        if k < p.len() - 1 {
            assert(g.adjacent(p[k], p[k + 1]));
        } else if p.len() >= 2 {
            assert(g.adjacent(p[k - 1], p[k - 1 + 1]));
        }
    }
}

/// Routes read nothing of a graph but its node table: two graphs with the
/// same nodes admit the same routes.
pub proof fn lemma_same_nodes_same_reachable(g1: Graph, g2: Graph, a: NodeId, b: NodeId)
    requires
        g1.nodes@ == g2.nodes@,
    ensures
        reachable(g1, a, b) == reachable(g2, a, b),
{
    assert forall|p: Seq<NodeId>| #[trigger] is_route(g1, p, a, b) implies is_route(
        g2,
        p,
        a,
        b,
    ) by {
        lemma_same_nodes_route(g1, g2, p, a, b);
    }
    assert forall|p: Seq<NodeId>| #[trigger] is_route(g2, p, a, b) implies is_route(
        g1,
        p,
        a,
        b,
    ) by {
        lemma_same_nodes_route(g2, g1, p, a, b);
    }
    if reachable(g1, a, b) {
        let p = choose|p: Seq<NodeId>| is_route(g1, p, a, b);
        assert(is_route(g2, p, a, b));
    }
    if reachable(g2, a, b) {
        let p = choose|p: Seq<NodeId>| is_route(g2, p, a, b);
        assert(is_route(g1, p, a, b));
    }
}

proof fn lemma_same_nodes_route(g1: Graph, g2: Graph, p: Seq<NodeId>, a: NodeId, b: NodeId)
    requires
        g1.nodes@ == g2.nodes@,
        is_route(g1, p, a, b),
    ensures
        is_route(g2, p, a, b),
{
    assert forall|k: int| 0 <= k < p.len() - 1 implies #[trigger] g2.adjacent(p[k], p[k + 1]) by {
        assert(g1.adjacent(p[k], p[k + 1]));
        let d = choose|d: Direction|
            step_coord(g1.node_at(p[k]).x as int, g1.node_at(p[k]).y as int, d)
                == (g1.node_at(p[k + 1]).x as int, g1.node_at(p[k + 1]).y as int);
        assert(step_coord(g2.node_at(p[k]).x as int, g2.node_at(p[k]).y as int, d)
            == (g2.node_at(p[k + 1]).x as int, g2.node_at(p[k + 1]).y as int));
    }
    assert forall|k: int| 1 <= k < p.len() implies g2.walkable(#[trigger] p[k]) by {
        assert(g1.walkable(p[k]));
    }
}

/// During a search, `v` is visited once its predecessor slot is filled;
/// slot 0 is never a node, so 0 marks an unvisited slot.
spec fn visited(pred: Seq<NodeId>, v: NodeId) -> bool {
    &&& 1 <= v as int
    &&& v as int <= pred.len() as int
    &&& pred[v as int - 1] != 0
}

/// The predecessor slots form well-founded chains: the search anchor `from`
/// points at itself at depth 0, and every other visited node points at an
/// earlier visited node one cell away, is walkable, and sits one level
/// deeper than its predecessor.
spec fn chain_ok(
    g: Graph,
    pred: Seq<NodeId>,
    dist: Map<NodeId, int>,
    from: NodeId,
) -> bool {
    &&& pred.len() == g.nodes@.len()
    &&& visited(pred, from)
    &&& pred[from as int - 1] == from
    &&& dist.dom().contains(from)
    &&& dist[from] == 0
    &&& forall|v: NodeId|
        #[trigger] visited(pred, v) && v != from ==> {
            let u = pred[v as int - 1];
            &&& visited(pred, u)
            &&& g.adjacent(u, v)
            &&& g.walkable(v)
            &&& dist.dom().contains(v)
            &&& dist[v] == dist[u] + 1
            &&& dist[v] >= 1
        }
}

/// The visited region is closed under walkable edges, and levels grow by at
/// most one along any edge.
spec fn edge_closed(g: Graph, pred: Seq<NodeId>, dist: Map<NodeId, int>) -> bool {
    forall|v: NodeId, d: Direction|
        visited(pred, v) && (#[trigger] g.node_at(v).nbr(d)) is Some && g.walkable(
            g.node_at(v).nbr(d)->Some_0,
        ) ==> {
            let w = g.node_at(v).nbr(d)->Some_0;
            &&& visited(pred, w)
            &&& dist.dom().contains(w)
            &&& dist[w] <= dist[v] + 1
        }
}

/// A sequence of distinct identifiers drawn from `1 ..= n` has at most `n`
/// elements.
proof fn lemma_distinct_bounded(s: Seq<NodeId>, n: nat)
    requires
        s.no_duplicates(),
        forall|i: int| 0 <= i < s.len() ==> 1 <= #[trigger] s[i] as int <= n as int,
    ensures
        s.len() <= n,
{
    let f = |v: NodeId| v as int;
    let si = s.map_values(f);
    s.lemma_no_duplicates_injective(f);
    si.unique_seq_to_set();
    assert(si.to_set().subset_of(set_int_range(1, n as int + 1))) by {
        assert forall|x: int| si.to_set().contains(x) implies set_int_range(
            1,
            n as int + 1,
        ).contains(x) by {
            let i = choose|i: int| 0 <= i < si.len() && si[i] == x;
            assert(1 <= s[i] as int <= n as int);
        }
    }
    lemma_int_range(1, n as int + 1);
    lemma_len_subset(si.to_set(), set_int_range(1, n as int + 1));
}

/// Once the visited region is closed under walkable edges, every route from
/// a visited node stays inside it, and the level of its endpoint exceeds the
/// level of its start by at most the number of hops.
proof fn lemma_route_visited(
    g: Graph,
    pred: Seq<NodeId>,
    dist: Map<NodeId, int>,
    anchor: NodeId,
    p: Seq<NodeId>,
    to: NodeId,
)
    requires
        g.wf(),
        chain_ok(g, pred, dist, anchor),
        edge_closed(g, pred, dist),
        is_route(g, p, p[0], to),
        visited(pred, p[0]),
        dist.dom().contains(p[0]),
    ensures
        visited(pred, to),
        dist.dom().contains(to),
        dist[to] <= dist[p[0]] + p.len() - 1,
    decreases p.len(),
{
    if p.len() == 1 {
        assert(to == p[0]);
    } else {
        let a = p[0];
        let b = p[1];
        assert(g.adjacent(a, b));
        assert(g.walkable(b));
        let d = choose|d: Direction|
            step_coord(g.node_at(a).x as int, g.node_at(a).y as int, d)
                == (g.node_at(b).x as int, g.node_at(b).y as int);
        // the well-formed graph stores an edge for every adjacent pair
        assert(g.nodes@[a as int - 1].nbr(d) == Some((b as int - 1 + 1) as NodeId));
        assert(g.node_at(a).nbr(d) == Some(b));
        assert(visited(pred, b) && dist.dom().contains(b) && dist[b] <= dist[a] + 1);
        let q = p.subrange(1, p.len() as int);
        assert(q[0] == b && q.last() == to && q.len() == p.len() - 1);
        assert(is_route(g, q, b, to)) by {
            assert forall|k: int| 0 <= k < q.len() - 1 implies #[trigger] g.adjacent(
                q[k],
                q[k + 1],
            ) by {
                assert(q[k] == p[k + 1] && q[k + 1] == p[k + 2]);
                assert(g.adjacent(p[k + 1], p[k + 1 + 1]));
            }
            assert forall|k: int| 1 <= k < q.len() implies g.walkable(#[trigger] q[k]) by {
                assert(q[k] == p[k + 1]);
                assert(g.walkable(p[k + 1]));
            }
        }
        lemma_route_visited(g, pred, dist, anchor, q, to);
    }
}

impl Graph {
    /// Breadth-first search from `from` to `to`, expanding only into
    /// walkable neighbors, in the fixed direction order north, south, east,
    /// west.
    ///
    /// Returns a shortest route on success: it starts at `from`, ends at
    /// `to`, hops only between orthogonally adjacent cells, visits no cell
    /// twice, stays on walkable cells after the first, and no route through
    /// the current graph is shorter.  Returns `None` exactly when no route
    /// exists; asking for a path from a node to itself yields the one-entry
    /// route.
    pub fn shortest_path(&self, from: NodeId, to: NodeId) -> (r: Option<Vec<NodeId>>)
        requires
            self.wf(),
            self.valid_id(from),
            self.valid_id(to),
        ensures
            r is Some <==> reachable(*self, from, to),
            r matches Some(p) ==> {
                &&& is_route(*self, p@, from, to)
                &&& p@.no_duplicates()
                &&& forall|q: Seq<NodeId>| is_route(*self, q, from, to) ==> p@.len() <= q.len()
            },
            from == to ==> (r matches Some(p) && p@ == seq![from]),
    {
        let n = self.nodes.len();
        // predecessor slot per node; 0 marks an unvisited node
        let mut pred: Vec<NodeId> = Vec::new();
        let mut k: usize = 0;
        while k < n
            invariant
                k <= n,
                pred@.len() == k,
                forall|i: int| 0 <= i < k ==> pred@[i] == 0,
            decreases n - k,
        {
            pred.push(0);
            k += 1;
        }
        pred[(from - 1) as usize] = from;
        let mut q: Vec<NodeId> = Vec::new();
        q.push(from);
        let ghost mut dist: Map<NodeId, int> = Map::empty().insert(from, 0);
        let mut head: usize = 0;
        proof {
            assert forall|v: NodeId| #[trigger] visited(pred@, v) implies q@.contains(v) by {
                assert(v == from);
                assert(q@[0] == from);
            }
        }
        while head < q.len()
            invariant
                self.wf(),
                self.valid_id(from),
                self.valid_id(to),
                n == self.nodes@.len(),
                chain_ok(*self, pred@, dist, from),
                q@.no_duplicates(),
                head <= q@.len() <= n,
                q@[0] == from,
                forall|i: int| 0 <= i < q@.len() ==> #[trigger] visited(pred@, q@[i]),
                forall|v: NodeId| #[trigger] visited(pred@, v) ==> q@.contains(v),
                // levels never decrease along the queue
                forall|i: int, j: int|
                    #![trigger q@[i], q@[j]]
                    0 <= i <= j < q@.len() ==> dist[q@[i]] <= dist[q@[j]],
                // and the unprocessed part spans at most two levels
                forall|i: int, j: int|
                    #![trigger q@[i], q@[j]]
                    head <= i <= j < q@.len() ==> dist[q@[j]] <= dist[q@[i]] + 1,
                // every walkable edge out of a processed node is covered
                forall|i: int, d: Direction|
                    0 <= i < head && (#[trigger] self.node_at(q@[i]).nbr(d)) is Some
                        && self.walkable(self.node_at(q@[i]).nbr(d)->Some_0) ==> {
                        let w = self.node_at(q@[i]).nbr(d)->Some_0;
                        &&& visited(pred@, w)
                        &&& dist.dom().contains(w)
                        &&& dist[w] <= dist[q@[i]] + 1
                    },
            decreases n - head,
        {
            let current = q[head];
            let ghost q_snap = q@;
            let ghost pred_snap = pred@;
            let nbrs = self.get_neighbors(current);
            let slots: [Option<NodeId>; 4] = [nbrs.north, nbrs.south, nbrs.east, nbrs.west];
            proof {
                assert(q@.subrange(0, q@.len() as int) =~= q@);
                assert(visited(pred@, current));
                assert(self.valid_id(current));
                assert(nbrs.spec_get(Direction::North) == self.node_at(current).nbr(
                    Direction::North,
                ));
                assert(nbrs.spec_get(Direction::South) == self.node_at(current).nbr(
                    Direction::South,
                ));
                assert(nbrs.spec_get(Direction::East) == self.node_at(current).nbr(
                    Direction::East,
                ));
                assert(nbrs.spec_get(Direction::West) == self.node_at(current).nbr(
                    Direction::West,
                ));
            }
            let mut s: usize = 0;
            while s < 4
                invariant
                    self.wf(),
                    self.valid_id(from),
                    n == self.nodes@.len(),
                    chain_ok(*self, pred@, dist, from),
                    q@.no_duplicates(),
                    head < q@.len() <= n,
                    q@[0] == from,
                    head < q_snap.len(),
                    q_snap.len() <= q@.len(),
                    q_snap == q@.subrange(0, q_snap.len() as int),
                    q@[head as int] == current,
                    visited(pred@, current),
                    dist.dom().contains(current),
                    slots[0] == self.node_at(current).nbr(Direction::North),
                    slots[1] == self.node_at(current).nbr(Direction::South),
                    slots[2] == self.node_at(current).nbr(Direction::East),
                    slots[3] == self.node_at(current).nbr(Direction::West),
                    forall|v: NodeId| visited(pred_snap, v) ==> #[trigger] visited(pred@, v),
                    forall|v: NodeId|
                        #[trigger] visited(pred@, v) && !visited(pred_snap, v) ==> dist[v]
                            == dist[current] + 1,
                    forall|i: int| 0 <= i < q@.len() ==> #[trigger] visited(pred@, q@[i]),
                    forall|v: NodeId| #[trigger] visited(pred@, v) ==> q@.contains(v),
                    forall|i: int, j: int|
                        #![trigger q@[i], q@[j]]
                        0 <= i <= j < q@.len() ==> dist[q@[i]] <= dist[q@[j]],
                    forall|i: int, j: int|
                        #![trigger q@[i], q@[j]]
                        head <= i <= j < q@.len() ==> dist[q@[j]] <= dist[q@[i]] + 1,
                    forall|i: int, d: Direction|
                        0 <= i < head && (#[trigger] self.node_at(q@[i]).nbr(d)) is Some
                            && self.walkable(self.node_at(q@[i]).nbr(d)->Some_0) ==> {
                            let w = self.node_at(q@[i]).nbr(d)->Some_0;
                            &&& visited(pred@, w)
                            &&& dist.dom().contains(w)
                            &&& dist[w] <= dist[q@[i]] + 1
                        },
                    // slots already handled are covered too
                    forall|t: int|
                        0 <= t < s && (#[trigger] slots@[t]) is Some && self.walkable(
                            slots@[t]->Some_0,
                        ) ==> {
                            let w = slots@[t]->Some_0;
                            &&& visited(pred@, w)
                            &&& dist.dom().contains(w)
                            &&& dist[w] <= dist[current] + 1
                        },
                decreases 4 - s,
            {
                if let Some(w) = slots[s] {
                    if self.is_walkable(w) {
                        if pred[(w - 1) as usize] == 0 {
                            proof {
                                // an unvisited node is not yet queued
                                assert(!q@.contains(w)) by {
                                    if q@.contains(w) {
                                        let ii = choose|ii: int|
                                            0 <= ii < q@.len() && q@[ii] == w;
                                        assert(visited(pred@, q@[ii]));
                                        assert(false);
                                    }
                                }
                                assert(w != from);
                                // the slot index names the direction of the
                                // edge that reached `w`
                                let dd: Direction = if s == 0 {
                                    Direction::North
                                } else if s == 1 {
                                    Direction::South
                                } else if s == 2 {
                                    Direction::East
                                } else {
                                    Direction::West
                                };
                                assert(self.node_at(current).nbr(dd) == Some(w));
                                assert(step_coord(
                                    self.node_at(current).x as int,
                                    self.node_at(current).y as int,
                                    dd,
                                ) == (self.node_at(w).x as int, self.node_at(w).y as int));
                                assert(self.adjacent(current, w));
                                assert(dist[current] >= 0) by {
                                    if current != from {
                                        assert(visited(pred@, current));
                                    }
                                }
                            }
                            let ghost q_old = q@;
                            let ghost pred_old = pred@;
                            pred[(w - 1) as usize] = current;
                            proof {
                                dist = dist.insert(w, dist[current] + 1);
                                assert forall|v: NodeId|
                                    #[trigger] visited(pred@, v) && v != w implies visited(
                                    pred_old,
                                    v,
                                ) && pred@[v as int - 1] == pred_old[v as int - 1] by {}
                                assert forall|v: NodeId| visited(pred_old, v) implies #[trigger]
                                visited(pred@, v) by {}
                            }
                            q.push(w);
                            proof {
                                assert forall|i: int, j: int|
                                    0 <= i < q@.len() && 0 <= j < q@.len() && i != j implies q@[i]
                                    != q@[j] by {
                                    if i < q@.len() - 1 && j < q@.len() - 1 {
                                        assert(q_old[i] != q_old[j]);
                                    } else if i == q@.len() - 1 {
                                        assert(q@[j] == q_old[j]);
                                        assert(q_old.contains(q_old[j]));
                                    } else {
                                        assert(q@[i] == q_old[i]);
                                        assert(q_old.contains(q_old[i]));
                                    }
                                }
                                assert(q@.no_duplicates());
                                assert forall|i: int| 0 <= i < q@.len() implies 1 <= #[trigger] q@[
                                    i] as int <= n as int by {
                                    if i < q@.len() - 1 {
                                        assert(q@[i] == q_old[i]);
                                        assert(visited(pred_old, q_old[i]));
                                    }
                                    assert(visited(pred@, q@[i]));
                                }
                                lemma_distinct_bounded(q@, n as nat);
                                assert forall|v: NodeId| #[trigger] visited(pred@, v) implies q@
                                    .contains(v) by {
                                    if v == w {
                                        assert(q@[q@.len() - 1] == w);
                                    } else {
                                        assert(visited(pred_old, v));
                                        assert(q_old.contains(v));
                                        let ii = choose|ii: int|
                                            0 <= ii < q_old.len() && q_old[ii] == v;
                                        assert(q@[ii] == v);
                                    }
                                }
                                assert(q@.subrange(0, q_snap.len() as int) =~= q_snap) by {
                                    assert forall|i: int| 0 <= i < q_snap.len() implies q@.subrange(
                                        0,
                                        q_snap.len() as int,
                                    )[i] == q_snap[i] by {
                                        assert(q@[i] == q_old[i]);
                                        assert(q_snap[i] == q_old.subrange(
                                            0,
                                            q_snap.len() as int,
                                        )[i]);
                                    }
                                }
                                // levels stay sorted: the new entry sits one
                                // above the level now being processed
                                assert forall|i: int, j: int|
                                    #![trigger q@[i], q@[j]]
                                    0 <= i <= j < q@.len() implies dist[q@[i]] <= dist[q@[j]] by {
                                    if j < q@.len() - 1 {
                                        assert(dist[q_old[i]] <= dist[q_old[j]]);
                                    } else if i < q@.len() - 1 {
                                        if i <= head as int {
                                            assert(dist[q_old[i]] <= dist[q_old[head as int]]);
                                        } else {
                                            assert(dist[q_old[head as int]] <= dist[q_old[i]]);
                                        }
                                    }
                                }
                                assert forall|i: int, j: int|
                                    #![trigger q@[i], q@[j]]
                                    head <= i <= j < q@.len() implies dist[q@[j]] <= dist[q@[i]]
                                    + 1 by {
                                    if j < q@.len() - 1 {
                                        assert(dist[q_old[j]] <= dist[q_old[i]] + 1);
                                    } else if i < q@.len() - 1 {
                                        assert(dist[q_old[head as int]] <= dist[q_old[i]]);
                                    }
                                }
                            }
                        } else {
                            proof {
                                assert(visited(pred@, w));
                                let jj = choose|jj: int| 0 <= jj < q@.len() && q@[jj] == w;
                                if jj <= head as int {
                                    assert(dist[q@[jj]] <= dist[q@[head as int]]);
                                } else {
                                    assert(dist[q@[jj]] <= dist[q@[head as int]] + 1);
                                }
                                assert(dist[w] <= dist[current] + 1);
                            }
                        }
                    }
                }
                s += 1;
            }
            proof {
                // the four handled slots cover every direction out of `current`
                assert forall|d: Direction|
                    (#[trigger] self.node_at(current).nbr(d)) is Some && self.walkable(
                        self.node_at(current).nbr(d)->Some_0,
                    ) implies {
                    let w = self.node_at(current).nbr(d)->Some_0;
                    &&& visited(pred@, w)
                    &&& dist.dom().contains(w)
                    &&& dist[w] <= dist[current] + 1
                } by {
                    match d {
                        Direction::North => {
                            assert(slots@[0] == self.node_at(current).nbr(Direction::North));
                        },
                        Direction::South => {
                            assert(slots@[1] == self.node_at(current).nbr(Direction::South));
                        },
                        Direction::East => {
                            assert(slots@[2] == self.node_at(current).nbr(Direction::East));
                        },
                        Direction::West => {
                            assert(slots@[3] == self.node_at(current).nbr(Direction::West));
                        },
                    }
                }
            }
            head += 1;
        }
        // the frontier is exhausted: the visited region is closed
        proof {
            assert(edge_closed(*self, pred@, dist)) by {
                assert forall|v: NodeId, d: Direction|
                    visited(pred@, v) && (#[trigger] self.node_at(v).nbr(d)) is Some
                        && self.walkable(self.node_at(v).nbr(d)->Some_0) implies {
                    let w = self.node_at(v).nbr(d)->Some_0;
                    &&& visited(pred@, w)
                    &&& dist.dom().contains(w)
                    &&& dist[w] <= dist[v] + 1
                } by {
                    let ii = choose|ii: int| 0 <= ii < q@.len() && q@[ii] == v;
                }
            }
        }
        if pred[(to - 1) as usize] == 0 {
            // `to` was never reached, so no route exists
            proof {
                assert(!reachable(*self, from, to)) by {
                    if reachable(*self, from, to) {
                        let p = choose|p: Seq<NodeId>| is_route(*self, p, from, to);
                        lemma_route_visited(*self, pred@, dist, from, p, to);
                        assert(false);
                    }
                }
            }
            return None;
        }
        // walk the predecessor chain backward from `to`, then reverse it
        proof {
            assert(visited(pred@, to));
            assert(dist.dom().contains(to));
            assert(dist[to] >= 0);
        }
        let mut rev: Vec<NodeId> = Vec::new();
        let mut cur: NodeId = to;
        while cur != from
            invariant
                self.wf(),
                n == self.nodes@.len(),
                chain_ok(*self, pred@, dist, from),
                visited(pred@, cur),
                dist.dom().contains(cur),
                dist[cur] >= 0,
                rev@.len() == dist[to] - dist[cur],
                rev@.len() == 0 ==> cur == to,
                rev@.len() > 0 ==> rev@[0] == to && pred@[rev@.last() as int - 1] == cur
                    && self.adjacent(cur, rev@.last()),
                forall|k: int|
                    0 <= k < rev@.len() ==> dist[#[trigger] rev@[k]] == dist[to] - k
                        && self.walkable(rev@[k]) && rev@[k] != from,
                forall|k: int|
                    0 <= k < rev@.len() - 1 ==> pred@[#[trigger] rev@[k] as int - 1] == rev@[k
                        + 1] && self.adjacent(rev@[k + 1], rev@[k]),
            decreases dist[cur],
        {
            rev.push(cur);
            cur = pred[(cur - 1) as usize];
        }
        rev.push(from);
        let ghost full = rev@;
        let mut path: Vec<NodeId> = Vec::new();
        let mut i: usize = rev.len();
        while i > 0
            invariant
                i <= rev@.len(),
                rev@ == full,
                path@.len() == full.len() - i,
                forall|k: int|
                    0 <= k < path@.len() ==> #[trigger] path@[k] == full[full.len() - 1 - k],
            decreases i,
        {
            i -= 1;
            path.push(rev[i]);
        }
        proof {
            let p = path@;
            let len = full.len() as int;
            assert(p.len() == len);
            assert(p[0] == full[len - 1] == from);
            assert(p.last() == full[0]);
            assert(full[0] == to);
            assert(is_route(*self, p, from, to)) by {
                assert forall|k: int| 0 <= k < p.len() - 1 implies #[trigger] self.adjacent(
                    p[k],
                    p[k + 1],
                ) by {
                    let k1 = len - 1 - k;
                    assert(p[k] == full[k1] && p[k + 1] == full[k1 - 1]);
                    assert(self.adjacent(full[k1], full[k1 - 1]));
                }
                assert forall|k: int| 1 <= k < p.len() implies self.walkable(
                    #[trigger] p[k],
                ) by {
                    assert(p[k] == full[len - 1 - k]);
                }
            }
            assert(p.no_duplicates()) by {
                assert forall|k1: int, k2: int|
                    0 <= k1 < p.len() && 0 <= k2 < p.len() && k1 != k2 implies p[k1] != p[
                    k2] by {
                    assert(p[k1] == full[len - 1 - k1] && p[k2] == full[len - 1 - k2]);
                }
            }
            assert(reachable(*self, from, to));
            assert(p.len() == dist[to] + 1);
            assert forall|qq: Seq<NodeId>| is_route(*self, qq, from, to) implies p.len()
                <= qq.len() by {
                lemma_route_visited(*self, pred@, dist, from, qq, to);
            }
            if from == to {
                assert(p =~= seq![from]);
            }
        }
        Some(path)
    }
}

} // verus!
