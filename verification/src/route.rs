//! The path sequencer: stitches shortest paths through an ordered list of
//! waypoints into one committed route, and serves it step by step.

use crate::graph::{Graph, Node, NodeId};
use crate::search::{
    is_route, lemma_route_ids_valid, lemma_same_nodes_same_reachable, reachable,
};
use vstd::prelude::*;

verus! {

/// `idx` places each waypoint on the route `p`, in order: the first waypoint
/// opens the route, the last closes it, positions never decrease, and they
/// strictly increase between distinct consecutive waypoints.
pub open spec fn waypoint_index_map(wps: Seq<NodeId>, p: Seq<NodeId>, idx: Seq<int>) -> bool {
    &&& idx.len() == wps.len()
    &&& idx[0] == 0
    &&& idx.last() == p.len() - 1
    &&& forall|j: int|
        0 <= j < idx.len() ==> 0 <= #[trigger] idx[j] < p.len() && p[idx[j]] == wps[j]
    &&& forall|j: int|
        0 <= j < idx.len() - 1 ==> #[trigger] idx[j] <= idx[j + 1] && (wps[j] != wps[j + 1]
            ==> idx[j] < idx[j + 1])
}

/// The slice of `p` between the positions of waypoints `j` and `j + 1` is a
/// shortest route joining them.
pub open spec fn segment_shortest(
    g: Graph,
    wps: Seq<NodeId>,
    p: Seq<NodeId>,
    idx: Seq<int>,
    j: int,
) -> bool {
    let s = p.subrange(idx[j], idx[j + 1] + 1);
    &&& is_route(g, s, wps[j], wps[j + 1])
    &&& forall|q: Seq<NodeId>| is_route(g, q, wps[j], wps[j + 1]) ==> s.len() <= q.len()
}

/// `idx` decomposes the route `p` into one shortest segment per consecutive
/// waypoint pair.
pub open spec fn route_decomposition(
    g: Graph,
    wps: Seq<NodeId>,
    p: Seq<NodeId>,
    idx: Seq<int>,
) -> bool {
    &&& waypoint_index_map(wps, p, idx)
    &&& forall|j: int| 0 <= j < wps.len() - 1 ==> #[trigger] segment_shortest(g, wps, p, idx, j)
}

/// A committed route for the waypoint list `wps` through graph `g`: it leads
/// from the first waypoint to the last, hops only between orthogonally
/// adjacent cells, never repeats a cell twice in a row, stays on walkable
/// cells after the first, and decomposes into one shortest segment per
/// consecutive waypoint pair, so it passes through every waypoint in order.
pub open spec fn committed_route_ok(g: Graph, wps: Seq<NodeId>, p: Seq<NodeId>) -> bool {
    &&& wps.len() >= 2
    &&& p.len() >= 1
    &&& p[0] == wps[0]
    &&& p.last() == wps.last()
    &&& forall|k: int|
        0 <= k < p.len() - 1 ==> #[trigger] g.adjacent(p[k], p[k + 1]) && p[k] != p[k + 1]
    &&& forall|k: int| 1 <= k < p.len() ==> g.walkable(#[trigger] p[k])
    &&& exists|idx: Seq<int>| route_decomposition(g, wps, p, idx)
}

/// Orchestrates shortest-path computation across a fixed ordered list of
/// waypoints (start, zero or more checkpoints, end) and holds the committed
/// route of the last successful recomputation.
pub struct PathSequencer {
    pub waypoints: Vec<NodeId>,
    pub path: Vec<NodeId>,
}

impl PathSequencer {
    /// The sequencer is usable with `g`: there are at least two waypoints
    /// (start and end), and every stored identifier names a node of `g`.
    pub open spec fn wf_for(self, g: Graph) -> bool {
        &&& self.waypoints@.len() >= 2
        &&& forall|j: int|
            0 <= j < self.waypoints@.len() ==> g.valid_id(#[trigger] self.waypoints@[j])
        &&& forall|k: int| 0 <= k < self.path@.len() ==> g.valid_id(#[trigger] self.path@[k])
    }

    /// Every pair of consecutive waypoints is joined by some route.
    pub open spec fn all_segments_reachable(self, g: Graph) -> bool {
        forall|j: int|
            0 <= j < self.waypoints@.len() - 1 ==> reachable(
                g,
                #[trigger] self.waypoints@[j],
                self.waypoints@[j + 1],
            )
    }

    /// Whether `id` is one of the designated waypoints.
    pub open spec fn is_waypoint(self, id: NodeId) -> bool {
        self.waypoints@.contains(id)
    }

    /// What `position_at_step` answers: the coordinate of the route entry
    /// after `index`, or `None` once the end is reached.
    pub open spec fn step_position(self, g: Graph, index: int) -> Option<(usize, usize)> {
        if 0 <= index && index + 1 < self.path@.len() {
            Some(
                (
                    g.node_at(self.path@[index + 1]).x,
                    g.node_at(self.path@[index + 1]).y,
                ),
            )
        } else {
            None
        }
    }

    /// Returns a sequencer for the waypoint order start, checkpoints, end,
    /// with no route committed yet.
    pub fn new(start: NodeId, checkpoints: &Vec<NodeId>, end: NodeId) -> (s: PathSequencer)
        ensures
            s.waypoints@ == seq![start] + checkpoints@ + seq![end],
            s.path@ == Seq::<NodeId>::empty(),
    {
        let mut waypoints: Vec<NodeId> = Vec::new();
        waypoints.push(start);
        let mut j: usize = 0;
        while j < checkpoints.len()
            invariant
                j <= checkpoints@.len(),
                waypoints@ == seq![start] + checkpoints@.subrange(0, j as int),
            decreases checkpoints@.len() - j,
        {
            waypoints.push(checkpoints[j]);
            j += 1;
            proof {
                assert(waypoints@ =~= seq![start] + checkpoints@.subrange(0, j as int));
            }
        }
        waypoints.push(end);
        proof {
            assert(checkpoints@.subrange(0, checkpoints@.len() as int) =~= checkpoints@);
            assert(waypoints@ =~= seq![start] + checkpoints@ + seq![end]);
        }
        PathSequencer { waypoints, path: Vec::new() }
    }

    /// Recomputes the committed route: one shortest path per consecutive
    /// waypoint pair, concatenated with the junction node kept once.
    ///
    /// Returns `true` and commits the stitched route exactly when every
    /// segment admits a path; on any segment failure it returns `false` and
    /// leaves the previously committed route untouched.
    pub fn recompute(&mut self, g: &Graph) -> (ok: bool)
        requires
            g.wf(),
            old(self).wf_for(*g),
        ensures
            final(self).wf_for(*g),
            final(self).waypoints@ == old(self).waypoints@,
            ok == old(self).all_segments_reachable(*g),
            !ok ==> final(self).path@ == old(self).path@,
            ok ==> committed_route_ok(*g, old(self).waypoints@, final(self).path@),
    {
        let wcount = self.waypoints.len();
        let mut acc: Vec<NodeId> = Vec::new();
        let ghost mut idx: Seq<int> = Seq::empty();
        let mut j: usize = 0;
        while j < wcount - 1
            invariant
                g.wf(),
                self.wf_for(*g),
                self.waypoints@ == old(self).waypoints@,
                self.path@ == old(self).path@,
                wcount == self.waypoints@.len(),
                j <= wcount - 1,
                forall|t: int|
                    0 <= t < j ==> reachable(
                        *g,
                        #[trigger] self.waypoints@[t],
                        self.waypoints@[t + 1],
                    ),
                j == 0 ==> acc@.len() == 0,
                j > 0 ==> {
                    &&& acc@.len() >= 1
                    &&& acc@[0] == self.waypoints@[0]
                    &&& acc@.last() == self.waypoints@[j as int]
                    &&& forall|k: int|
                        0 <= k < acc@.len() - 1 ==> #[trigger] g.adjacent(acc@[k], acc@[k + 1])
                            && acc@[k] != acc@[k + 1]
                    &&& forall|k: int| 1 <= k < acc@.len() ==> g.walkable(#[trigger] acc@[k])
                    &&& forall|k: int| 0 <= k < acc@.len() ==> g.valid_id(#[trigger] acc@[k])
                    &&& idx.len() == j + 1
                    &&& idx[0] == 0
                    &&& idx.last() == acc@.len() - 1
                    &&& forall|t: int|
                        0 <= t < idx.len() ==> 0 <= #[trigger] idx[t] < acc@.len() && acc@[idx[t]]
                            == self.waypoints@[t]
                    &&& forall|t: int|
                        0 <= t < idx.len() - 1 ==> #[trigger] idx[t] <= idx[t + 1]
                            && (self.waypoints@[t] != self.waypoints@[t + 1] ==> idx[t] < idx[t
                            + 1])
                
                    &&& forall|t: int|
                        0 <= t < j ==> #[trigger] segment_shortest(
                            *g,
                            self.waypoints@,
                            acc@,
                            idx,
                            t,
                        )
                },
            decreases wcount - 1 - j,
        {
            let a = self.waypoints[j];
            let b = self.waypoints[j + 1];
            match g.shortest_path(a, b) {
                None => {
                    proof {
                        assert(!reachable(*g, self.waypoints@[j as int], self.waypoints@[j as int
                            + 1]));
                    }
                    return false;
                },
                Some(seg) => {
                    proof {
                        lemma_route_ids_valid(*g, seg@, a, b);
                    }
                    let ghost acc_snap = acc@;
                    let ghost idx_snap = idx;
                    if j == 0 {
                        acc = seg;
                        proof {
                            idx = seq![0];
                        }
                    } else {
                        let mut t: usize = 1;
                        while t < seg.len()
                            invariant
                                1 <= t <= seg@.len(),
                                acc@ == acc_snap + seg@.subrange(1, t as int),
                            decreases seg@.len() - t,
                        {
                            acc.push(seg[t]);
                            let ghost tt = t as int;
                            proof {
                                assert(acc@ =~= acc_snap + seg@.subrange(1, tt + 1));
                            }
                            t += 1;
                        }
                        proof {
                            assert(acc@ == acc_snap + seg@.subrange(1, seg@.len() as int));
                            idx = idx.push(acc@.len() - 1);
                        }
                    }
                    proof {
                        if j == 0 {
                            idx = idx.push(acc@.len() - 1);
                            assert(acc@ == seg@);
                        }
                        assert(acc@.last() == seg@.last());
                        let jj = j as int;
                        // the slice just appended is exactly the fresh
                        // shortest segment
                        assert(acc@.subrange(idx[jj], idx[jj + 1] + 1) =~= seg@);
                        assert(segment_shortest(*g, self.waypoints@, acc@, idx, jj));
                        // the slices of segments committed earlier are
                        // untouched by the append
                        assert forall|t: int| 0 <= t < jj implies #[trigger] segment_shortest(
                            *g,
                            self.waypoints@,
                            acc@,
                            idx,
                            t,
                        ) by {
                            assert(segment_shortest(*g, self.waypoints@, acc_snap, idx_snap, t));
                            assert(idx[t] == idx_snap[t] && idx[t + 1] == idx_snap[t + 1]);
                            assert(acc@.subrange(idx[t], idx[t + 1] + 1) =~= acc_snap.subrange(
                                idx_snap[t],
                                idx_snap[t + 1] + 1,
                            ));
                        }
                    }
                },
            }
            j += 1;
        }
        proof {
            assert(j == wcount - 1 && wcount >= 2);
            assert(route_decomposition(*g, self.waypoints@, acc@, idx));
        }
        self.path = acc;
        proof {
            assert(committed_route_ok(*g, self.waypoints@, self.path@)) by {
                assert(route_decomposition(*g, self.waypoints@, self.path@, idx));
            }
        }
        true
    }

    /// Returns the grid coordinate of the route entry after `index` — the
    /// next target of a consumer whose current step is `index` — or `None`
    /// once no further step exists.
    pub fn position_at_step(&self, g: &Graph, index: usize) -> (r: Option<(usize, usize)>)
        requires
            self.wf_for(*g),
        ensures
            r == self.step_position(*g, index as int),
    {
        if self.path.len() > 0 && index < self.path.len() - 1 {
            let id = self.path[index + 1];
            g.get_node_coordinates(id)
        } else {
            None
        }
    }

    /// Returns the grid coordinate of the node named by `node_id`, or `None`
    /// for an identifier that names no node.
    pub fn current_coordinate_of(&self, g: &Graph, node_id: NodeId) -> (r: Option<
        (usize, usize),
    >)
        ensures
            g.valid_id(node_id) ==> r == Some(
                (g.node_at(node_id).x, g.node_at(node_id).y),
            ),
            !g.valid_id(node_id) ==> r is None,
    {
        g.get_node_coordinates(node_id)
    }

    /// Places an obstacle on `node_id` as one transaction: blocks the cell,
    /// recomputes the route, and undoes the block when no route remains.
    ///
    /// Succeeds exactly when the cell is walkable, is no waypoint, and the
    /// route can still be stitched with the cell blocked.  On failure the
    /// graph and the committed route are exactly as before.
    pub fn try_place_obstacle(&mut self, g: &mut Graph, node_id: NodeId) -> (ok: bool)
        requires
            old(g).wf(),
            old(self).wf_for(*old(g)),
        ensures
            final(g).wf(),
            final(self).wf_for(*final(g)),
            final(self).waypoints@ == old(self).waypoints@,
            !ok ==> final(g).nodes@ == old(g).nodes@ && final(self).path@ == old(self).path@,
            ok ==> {
                &&& old(g).walkable(node_id)
                &&& !old(self).is_waypoint(node_id)
                &&& final(g).nodes@ == old(g).nodes@.update(
                    node_id - 1,
                    Node { walkable: false, ..old(g).node_at(node_id) },
                )
                &&& final(self).all_segments_reachable(*final(g))
                &&& committed_route_ok(*final(g), old(self).waypoints@, final(self).path@)
            },
            !old(g).walkable(node_id) || old(self).is_waypoint(node_id) ==> !ok,
            !ok && old(g).walkable(node_id) && !old(self).is_waypoint(node_id)
                ==> forall|g2: Graph|
                g2.nodes@ == old(g).nodes@.update(
                    node_id - 1,
                    Node { walkable: false, ..old(g).node_at(node_id) },
                ) ==> !old(self).all_segments_reachable(g2),
    {
        if !g.is_walkable(node_id) {
            return false;
        }
        let mut j: usize = 0;
        while j < self.waypoints.len()
            invariant
                g.wf(),
                g.nodes@ == old(g).nodes@,
                self.waypoints@ == old(self).waypoints@,
                self.path@ == old(self).path@,
                old(self).wf_for(*old(g)),
                j <= self.waypoints@.len(),
                forall|t: int| 0 <= t < j ==> #[trigger] self.waypoints@[t] != node_id,
            decreases self.waypoints@.len() - j,
        {
            if self.waypoints[j] == node_id {
                proof {
                    assert(self.is_waypoint(node_id));
                }
                return false;
            }
            j += 1;
        }
        proof {
            assert(!self.is_waypoint(node_id)) by {
                if self.is_waypoint(node_id) {
                    let t = choose|t: int|
                        0 <= t < self.waypoints@.len() && self.waypoints@[t] == node_id;
                    assert(false);
                }
            }
        }
        let ghost g_before = *g;
        let r = g.set_node_walkability(node_id, false);
        proof {
            assert(r is Ok);
        }
        let ghost g_blocked = *g;
        if self.recompute(g) {
            true
        } else {
            let r2 = g.set_node_walkability(node_id, true);
            proof {
                assert(r2 is Ok);
                assert(g.nodes@ =~= g_before.nodes@);
                assert forall|g2: Graph| g2.nodes@ == g_blocked.nodes@ implies !old(self)
                    .all_segments_reachable(g2) by {
                    if old(self).all_segments_reachable(g2) {
                        assert forall|t: int| 0 <= t < self.waypoints@.len() - 1 implies reachable(
                            g_blocked,
                            #[trigger] self.waypoints@[t],
                            self.waypoints@[t + 1],
                        ) by {
                            assert(self.waypoints@[t] == old(self).waypoints@[t]);
                            assert(reachable(g2, old(self).waypoints@[t], old(self).waypoints@[t
                                + 1]));
                            lemma_same_nodes_same_reachable(
                                g2,
                                g_blocked,
                                self.waypoints@[t],
                                self.waypoints@[t + 1],
                            );
                        }
                        assert(false);
                    }
                }
            }
            false
        }
    }
}

/// A failed recomputation commits nothing: with the stored route unchanged
/// and every cell at its old coordinate, each step lookup answers exactly as
/// before the attempt.
pub proof fn lemma_no_commit_on_failure(
    before: PathSequencer,
    after: PathSequencer,
    g_before: Graph,
    g_after: Graph,
    index: int,
)
    requires
        before.wf_for(g_before),
        after.path@ == before.path@,
        g_after.nodes@.len() == g_before.nodes@.len(),
        forall|k: int|
            0 <= k < g_before.nodes@.len() ==> (#[trigger] g_after.nodes@[k]).x
                == g_before.nodes@[k].x && g_after.nodes@[k].y == g_before.nodes@[k].y,
    ensures
        after.step_position(g_after, index) == before.step_position(g_before, index),
{
    if 0 <= index && index + 1 < before.path@.len() {
        let id = before.path@[index + 1];
        assert(g_before.valid_id(id));
        assert(g_after.nodes@[id as int - 1].x == g_before.nodes@[id as int - 1].x);
        assert(g_after.nodes@[id as int - 1].y == g_before.nodes@[id as int - 1].y);
    }
}

/// The committed route meets its waypoints in order: with distinct
/// consecutive waypoints, the waypoint numbered `j` appears at a position
/// strictly between the route's first and last entries.
pub proof fn lemma_checkpoint_between(g: Graph, wps: Seq<NodeId>, p: Seq<NodeId>, j: int)
    requires
        committed_route_ok(g, wps, p),
        0 < j < wps.len() - 1,
        forall|t: int| 0 <= t < wps.len() - 1 ==> wps[t] != #[trigger] wps[t + 1],
    ensures
        exists|m: int| 0 < m < p.len() - 1 && p[m] == wps[j],
{
    let idx = choose|idx: Seq<int>| route_decomposition(g, wps, p, idx);
    lemma_strictly_climbs(wps, p, idx, 0, j);
    lemma_strictly_climbs(wps, p, idx, j, wps.len() as int - 1);
    assert(idx[0] == 0 && idx[wps.len() - 1] == p.len() - 1);
    assert(0 < idx[j] < p.len() - 1);
    assert(p[idx[j]] == wps[j]);
}

/// Between two waypoint numbers, the positions of a waypoint index map grow
/// at least as fast as the numbers, as long as consecutive waypoints differ.
proof fn lemma_strictly_climbs(wps: Seq<NodeId>, p: Seq<NodeId>, idx: Seq<int>, lo: int, hi: int)
    requires
        waypoint_index_map(wps, p, idx),
        forall|t: int| 0 <= t < wps.len() - 1 ==> wps[t] != #[trigger] wps[t + 1],
        0 <= lo <= hi < idx.len(),
    ensures
        idx[lo] + (hi - lo) <= idx[hi],
    decreases hi - lo,
{
    if lo < hi {
        lemma_strictly_climbs(wps, p, idx, lo, hi - 1);
        assert(idx[hi - 1] < idx[hi - 1 + 1]);
    }
}

} // verus!
