//! The grid graph: one node per grid cell, a walkability flag on each node,
//! and four-directional adjacency kept symmetric by construction.

use vstd::prelude::*;

verus! {

/// Identifier of a node.  Identifiers are assigned monotonically starting at
/// 1; 0 is reserved and never names a node.
pub type NodeId = u32;

/// One of the four orthogonal grid directions.
///
/// A `North` edge leads to the cell whose first coordinate is one smaller;
/// `South` one larger; an `East` edge leads to the cell whose second
/// coordinate is one larger; `West` one smaller.
#[derive(Clone, Copy, PartialEq, Eq, Structural, Debug)]
pub enum Direction {
    North,
    South,
    East,
    West,
}

impl Direction {
    /// The direction pointing the opposite way.
    pub open spec fn spec_opposite(self) -> Direction {
        match self {
            Direction::North => Direction::South,
            Direction::South => Direction::North,
            Direction::East => Direction::West,
            Direction::West => Direction::East,
        }
    }

    /// Returns the direction pointing the opposite way.
    pub fn opposite(&self) -> (d: Direction)
        ensures
            d == self.spec_opposite(),
    {
        match self {
            Direction::North => Direction::South,
            Direction::South => Direction::North,
            Direction::East => Direction::West,
            Direction::West => Direction::East,
        }
    }
}

/// The coordinate one step from `(x, y)` in direction `d`.
pub open spec fn step_coord(x: int, y: int, d: Direction) -> (int, int) {
    match d {
        Direction::North => (x - 1, y),
        Direction::South => (x + 1, y),
        Direction::East => (x, y + 1),
        Direction::West => (x, y - 1),
    }
}

/// An operation named a node identifier that is not present in the graph.
#[derive(Clone, Copy, PartialEq, Eq, Structural, Debug)]
pub enum GraphError {
    UnknownNode,
}

/// One grid cell in the graph.
///
/// Nodes are created once, when the grid is populated, and never removed;
/// `walkable` is the only field that changes afterwards.  The four neighbor
/// fields hold the identifiers of the orthogonally adjacent cells that have
/// been added to the graph, or `None` where no such cell exists.
#[derive(Clone, Copy, Debug)]
pub struct Node {
    pub id: NodeId,
    pub x: usize,
    pub y: usize,
    pub walkable: bool,
    pub north: Option<NodeId>,
    pub south: Option<NodeId>,
    pub east: Option<NodeId>,
    pub west: Option<NodeId>,
}

impl Node {
    /// The neighbor identifier stored for direction `d`.
    pub open spec fn nbr(self, d: Direction) -> Option<NodeId> {
        match d {
            Direction::North => self.north,
            Direction::South => self.south,
            Direction::East => self.east,
            Direction::West => self.west,
        }
    }

    /// This node with its neighbor field for direction `d` replaced by `v`.
    pub open spec fn with_nbr(self, d: Direction, v: Option<NodeId>) -> Node {
        match d {
            Direction::North => Node { north: v, ..self },
            Direction::South => Node { south: v, ..self },
            Direction::East => Node { east: v, ..self },
            Direction::West => Node { west: v, ..self },
        }
    }
}

/// Nodes are identified by their identifier alone: two nodes with the same
/// identifier are the same node, whatever their other fields hold.
impl PartialEq for Node {
    fn eq(&self, other: &Node) -> (r: bool) {
        self.id == other.id
    }
}

impl vstd::std_specs::cmp::PartialEqSpecImpl for Node {
    open spec fn obeys_eq_spec() -> bool {
        true
    }

    open spec fn eq_spec(&self, other: &Node) -> bool {
        self.id == other.id
    }
}

/// The 0 to 4 directional edges of one node; a direction without an edge
/// holds `None`.
#[derive(Clone, Copy, PartialEq, Eq, Structural, Debug)]
pub struct Neighbors {
    pub north: Option<NodeId>,
    pub south: Option<NodeId>,
    pub east: Option<NodeId>,
    pub west: Option<NodeId>,
}

impl Neighbors {
    /// The edge stored for direction `d`.
    pub open spec fn spec_get(self, d: Direction) -> Option<NodeId> {
        match d {
            Direction::North => self.north,
            Direction::South => self.south,
            Direction::East => self.east,
            Direction::West => self.west,
        }
    }

    /// Returns the edge stored for direction `d`.
    pub fn get(&self, d: Direction) -> (r: Option<NodeId>)
        ensures
            r == self.spec_get(d),
    {
        match d {
            Direction::North => self.north,
            Direction::South => self.south,
            Direction::East => self.east,
            Direction::West => self.west,
        }
    }
}

/// The grid graph.  Node `id` lives at index `id - 1` of `nodes`.
pub struct Graph {
    pub nodes: Vec<Node>,
}

impl Graph {
    /// How many nodes the graph holds.
    pub open spec fn node_count(self) -> nat {
        self.nodes@.len()
    }

    /// Whether `id` names a node of the graph.
    pub open spec fn valid_id(self, id: NodeId) -> bool {
        1 <= id <= self.nodes@.len()
    }

    /// The node named by `id`.
    pub open spec fn node_at(self, id: NodeId) -> Node
        recommends
            self.valid_id(id),
    {
        self.nodes@[id - 1]
    }

    /// Whether `id` names a walkable node.  An identifier that names no node
    /// counts as not walkable.
    pub open spec fn walkable(self, id: NodeId) -> bool {
        self.valid_id(id) && self.node_at(id).walkable
    }

    /// Whether some node of the graph sits at `(x, y)`.
    pub open spec fn coord_taken(self, x: usize, y: usize) -> bool {
        exists|i: int|
            0 <= i < self.nodes@.len() && self.nodes@[i].x == x && self.nodes@[i].y == y
    }

    /// Whether the nodes named by `a` and `b` sit on orthogonally adjacent
    /// cells (sharing an edge, no diagonals).
    pub open spec fn adjacent(self, a: NodeId, b: NodeId) -> bool {
        &&& self.valid_id(a)
        &&& self.valid_id(b)
        &&& exists|d: Direction|
            step_coord(self.node_at(a).x as int, self.node_at(a).y as int, d)
                == (self.node_at(b).x as int, self.node_at(b).y as int)
    }

    /// Well-formedness of the graph:
    /// - node `id` sits at index `id - 1`, so identifiers are 1-based and
    ///   dense;
    /// - no two nodes share a coordinate;
    /// - the stored edges are exactly the pairs of orthogonally adjacent
    ///   cells, which makes adjacency symmetric.
    pub open spec fn wf(self) -> bool {
        &&& forall|i: int|
            0 <= i < self.nodes@.len() ==> (#[trigger] self.nodes@[i]).id == i + 1
        &&& forall|i: int, j: int|
            0 <= i < self.nodes@.len() && 0 <= j < self.nodes@.len() && i != j
                ==> !((#[trigger] self.nodes@[i]).x == (#[trigger] self.nodes@[j]).x
                    && self.nodes@[i].y == self.nodes@[j].y)
        &&& forall|i: int, d: Direction|
            0 <= i < self.nodes@.len() && (#[trigger] self.nodes@[i].nbr(d)) is Some
                ==> {
                    let m = self.nodes@[i].nbr(d)->Some_0;
                    &&& self.valid_id(m)
                    &&& step_coord(self.nodes@[i].x as int, self.nodes@[i].y as int, d)
                        == (self.node_at(m).x as int, self.node_at(m).y as int)
                }
        &&& forall|i: int, j: int, d: Direction|
            #![trigger step_coord(self.nodes@[i].x as int, self.nodes@[i].y as int, d), self.nodes@[j]]
            #![trigger self.nodes@[i].nbr(d), self.nodes@[j]]
            0 <= i < self.nodes@.len() && 0 <= j < self.nodes@.len()
                && step_coord(self.nodes@[i].x as int, self.nodes@[i].y as int, d)
                    == (self.nodes@[j].x as int, self.nodes@[j].y as int)
                ==> self.nodes@[i].nbr(d) == Some((j + 1) as NodeId)
    }

    /// Returns an empty graph.
    pub fn new() -> (g: Graph)
        ensures
            g.wf(),
            g.node_count() == 0,
    {
        Graph { nodes: Vec::new() }
    }

    /// Returns whether `id` names a walkable node; an unknown identifier
    /// counts as not walkable.
    pub fn is_walkable(&self, id: NodeId) -> (r: bool)
        ensures
            r == self.walkable(id),
    {
        if 1 <= id && (id as usize) <= self.nodes.len() {
            self.nodes[(id - 1) as usize].walkable
        } else {
            false
        }
    }

    /// Returns the grid coordinate of the node named by `id`, or `None` for
    /// an identifier that names no node.
    pub fn get_node_coordinates(&self, id: NodeId) -> (r: Option<(usize, usize)>)
        ensures
            self.valid_id(id) ==> r == Some((self.node_at(id).x, self.node_at(id).y)),
            !self.valid_id(id) ==> r is None,
    {
        if 1 <= id && (id as usize) <= self.nodes.len() {
            let n = &self.nodes[(id - 1) as usize];
            Some((n.x, n.y))
        } else {
            None
        }
    }

    /// Returns the directional edges of the node named by `id`; for an
    /// identifier that names no node, every direction is empty.
    pub fn get_neighbors(&self, id: NodeId) -> (r: Neighbors)
        ensures
            self.valid_id(id) ==> forall|d: Direction|
                #[trigger] r.spec_get(d) == self.node_at(id).nbr(d),
            !self.valid_id(id) ==> r == (Neighbors {
                north: None,
                south: None,
                east: None,
                west: None,
            }),
    {
        if 1 <= id && (id as usize) <= self.nodes.len() {
            let n = &self.nodes[(id - 1) as usize];
            Neighbors { north: n.north, south: n.south, east: n.east, west: n.west }
        } else {
            Neighbors { north: None, south: None, east: None, west: None }
        }
    }

    /// Returns the identifier of the node at `(x, y)`, or `None` when no
    /// node sits there.
    fn find_node_at(&self, x: usize, y: usize) -> (r: Option<NodeId>)
        requires
            self.wf(),
        ensures
            match r {
                Some(id) => self.valid_id(id) && self.node_at(id).x == x && self.node_at(id).y
                    == y,
                None => !self.coord_taken(x, y),
            },
    {
        let mut i: usize = 0;
        while i < self.nodes.len()
            invariant
                self.wf(),
                i <= self.nodes@.len(),
                forall|k: int|
                    0 <= k < i ==> !((#[trigger] self.nodes@[k]).x == x && self.nodes@[k].y
                        == y),
            decreases self.nodes@.len() - i,
        {
            if self.nodes[i].x == x && self.nodes[i].y == y {
                return Some(self.nodes[i].id);
            }
            i += 1;
        }
        None
    }

    /// Where `m` names a node, replaces that node's neighbor field for
    /// direction `d` with an edge to `target`; with `None` this is a no-op.
    fn link_back(&mut self, m: Option<NodeId>, d: Direction, target: NodeId)
        requires
            m is Some ==> old(self).valid_id(m->Some_0),
        ensures
            final(self).nodes@ == match m {
                Some(mm) => old(self).nodes@.update(
                    mm - 1,
                    old(self).node_at(mm).with_nbr(d, Some(target)),
                ),
                None => old(self).nodes@,
            },
    {
        if let Some(mm) = m {
            let i = (mm - 1) as usize;
            let n = self.nodes[i];
            let patched = match d {
                Direction::North => Node { north: Some(target), ..n },
                Direction::South => Node { south: Some(target), ..n },
                Direction::East => Node { east: Some(target), ..n },
                Direction::West => Node { west: Some(target), ..n },
            };
            self.nodes[i] = patched;
        }
    }

    /// Adds a node for the cell `(x, y)`, allocates the next identifier for
    /// it, and links it both ways to every already-present node on an
    /// orthogonally adjacent cell.  Coordinates must be fresh: the graph is
    /// populated with one node per cell.
    pub fn add_node(&mut self, walkable: bool, x: usize, y: usize) -> (id: NodeId)
        requires
            old(self).wf(),
            !old(self).coord_taken(x, y),
            old(self).node_count() < u32::MAX,
        ensures
            final(self).wf(),
            id == old(self).node_count() + 1,
            final(self).node_count() == old(self).node_count() + 1,
            final(self).node_at(id).x == x,
            final(self).node_at(id).y == y,
            final(self).node_at(id).walkable == walkable,
            forall|i: NodeId|
                old(self).valid_id(i) ==> {
                    &&& (#[trigger] final(self).node_at(i)).x == old(self).node_at(i).x
                    &&& final(self).node_at(i).y == old(self).node_at(i).y
                    &&& final(self).node_at(i).walkable == old(self).node_at(i).walkable
                },
    {
        let id = (self.nodes.len() + 1) as NodeId;
        let north = if x > 0 {
            self.find_node_at(x - 1, y)
        } else {
            None
        };
        let south = if x < usize::MAX {
            self.find_node_at(x + 1, y)
        } else {
            None
        };
        let east = if y < usize::MAX {
            self.find_node_at(x, y + 1)
        } else {
            None
        };
        let west = if y > 0 {
            self.find_node_at(x, y - 1)
        } else {
            None
        };
        let node = Node { id, x, y, walkable, north, south, east, west };
        let ghost g0 = *self;
        self.nodes.push(node);
        self.link_back(north, Direction::South, id);
        self.link_back(south, Direction::North, id);
        self.link_back(east, Direction::West, id);
        self.link_back(west, Direction::East, id);
        proof {
            assert(probe_ok(g0, north, x as int - 1, y as int)) by {
                if x > 0 && north is None {
                    assert forall|i: int|
                        0 <= i < g0.nodes@.len() implies !((#[trigger] g0.nodes@[i]).x as int
                        == x as int - 1 && g0.nodes@[i].y as int == y as int) by {
                        if g0.nodes@[i].x as int == x as int - 1 && g0.nodes@[i].y as int
                            == y as int {
                            assert(g0.coord_taken((x - 1) as usize, y));
                            assert(false);
                        }
                    }
                }
            }
            assert(probe_ok(g0, south, x as int + 1, y as int)) by {
                if x < usize::MAX && south is None {
                    assert forall|i: int|
                        0 <= i < g0.nodes@.len() implies !((#[trigger] g0.nodes@[i]).x as int
                        == x as int + 1 && g0.nodes@[i].y as int == y as int) by {
                        if g0.nodes@[i].x as int == x as int + 1 && g0.nodes@[i].y as int
                            == y as int {
                            assert(g0.coord_taken((x + 1) as usize, y));
                            assert(false);
                        }
                    }
                }
            }
            assert(probe_ok(g0, east, x as int, y as int + 1)) by {
                if y < usize::MAX && east is None {
                    assert forall|i: int|
                        0 <= i < g0.nodes@.len() implies !((#[trigger] g0.nodes@[i]).x as int
                        == x as int && g0.nodes@[i].y as int == y as int + 1) by {
                        if g0.nodes@[i].x as int == x as int && g0.nodes@[i].y as int == y as int
                            + 1 {
                            assert(g0.coord_taken(x, (y + 1) as usize));
                            assert(false);
                        }
                    }
                }
            }
            assert(probe_ok(g0, west, x as int, y as int - 1)) by {
                if y > 0 && west is None {
                    assert forall|i: int|
                        0 <= i < g0.nodes@.len() implies !((#[trigger] g0.nodes@[i]).x as int
                        == x as int && g0.nodes@[i].y as int == y as int - 1) by {
                        if g0.nodes@[i].x as int == x as int && g0.nodes@[i].y as int == y as int
                            - 1 {
                            assert(g0.coord_taken(x, (y - 1) as usize));
                            assert(false);
                        }
                    }
                }
            }
            assert(self.nodes@ == linked(
                linked(
                    linked(
                        linked(g0.nodes@.push(node), north, Direction::South, id),
                        south,
                        Direction::North,
                        id,
                    ),
                    east,
                    Direction::West,
                    id,
                ),
                west,
                Direction::East,
                id,
            ));
            lemma_add_node_wf(g0, *self, node, x, y);
        }
        id
    }

    /// Sets the walkability flag of the node named by `node_id`, or fails
    /// with `UnknownNode` when no node has that identifier.  Nothing else of
    /// the graph changes, and a failed call changes nothing at all.
    pub fn set_node_walkability(&mut self, node_id: NodeId, walkable: bool) -> (r: Result<
        (),
        GraphError,
    >)
        requires
            old(self).wf(),
        ensures
            final(self).wf(),
            old(self).valid_id(node_id) ==> {
                &&& r == Ok::<(), GraphError>(())
                &&& final(self).nodes@ == old(self).nodes@.update(
                    node_id - 1,
                    Node { walkable, ..old(self).node_at(node_id) },
                )
            },
            !old(self).valid_id(node_id) ==> {
                &&& r == Err::<(), GraphError>(GraphError::UnknownNode)
                &&& final(self).nodes@ == old(self).nodes@
            },
    {
        if 1 <= node_id && (node_id as usize) <= self.nodes.len() {
            let i = (node_id - 1) as usize;
            let n = self.nodes[i];
            self.nodes[i] = Node { walkable, ..n };
            proof {
                assert forall|a: int, dd: Direction|
                    0 <= a < self.nodes@.len() && (#[trigger] self.nodes@[a].nbr(dd)) is Some
                        implies {
                        let m = self.nodes@[a].nbr(dd)->Some_0;
                        &&& self.valid_id(m)
                        &&& step_coord(self.nodes@[a].x as int, self.nodes@[a].y as int, dd)
                            == (self.node_at(m).x as int, self.node_at(m).y as int)
                    } by {
                    assert(old(self).nodes@[a].nbr(dd) == self.nodes@[a].nbr(dd));
                }
            }
            Ok(())
        } else {
            Err(GraphError::UnknownNode)
        }
    }
}

/// The node table after giving the node that `m` names (if any) an edge to
/// `id` in direction `d`.
pub open spec fn linked(s: Seq<Node>, m: Option<NodeId>, d: Direction, id: NodeId) -> Seq<Node> {
    match m {
        Some(mm) => s.update(mm - 1, s[mm - 1].with_nbr(d, Some(id))),
        None => s,
    }
}

/// What a coordinate probe answers: the node at `(cx, cy)` when one exists,
/// `None` when no node sits there.
pub open spec fn probe_ok(g: Graph, m: Option<NodeId>, cx: int, cy: int) -> bool {
    match m {
        Some(mm) => g.valid_id(mm) && g.node_at(mm).x as int == cx && g.node_at(mm).y as int
            == cy,
        None => forall|i: int|
            0 <= i < g.nodes@.len() ==> !((#[trigger] g.nodes@[i]).x as int == cx
                && g.nodes@[i].y as int == cy),
    }
}

/// Pushing a node on a fresh cell and linking it back from the up to four
/// probed neighbors keeps the graph well formed and every old node's cell
/// and walkability in place.
#[verifier::rlimit(100)]
proof fn lemma_add_node_wf(g0: Graph, g1: Graph, node: Node, x: usize, y: usize)
    requires
        g0.wf(),
        !g0.coord_taken(x, y),
        g0.nodes@.len() < u32::MAX,
        node.id == g0.nodes@.len() + 1,
        node.x == x,
        node.y == y,
        probe_ok(g0, node.north, x as int - 1, y as int),
        probe_ok(g0, node.south, x as int + 1, y as int),
        probe_ok(g0, node.east, x as int, y as int + 1),
        probe_ok(g0, node.west, x as int, y as int - 1),
        g1.nodes@ == linked(
            linked(
                linked(
                    linked(g0.nodes@.push(node), node.north, Direction::South, node.id),
                    node.south,
                    Direction::North,
                    node.id,
                ),
                node.east,
                Direction::West,
                node.id,
            ),
            node.west,
            Direction::East,
            node.id,
        ),
    ensures
        g1.wf(),
        g1.nodes@.len() == g0.nodes@.len() + 1,
        g1.nodes@[g0.nodes@.len() as int] == node,
        forall|i: int|
            0 <= i < g0.nodes@.len() ==> {
                &&& (#[trigger] g1.nodes@[i]).id == g0.nodes@[i].id
                &&& g1.nodes@[i].x == g0.nodes@[i].x
                &&& g1.nodes@[i].y == g0.nodes@[i].y
                &&& g1.nodes@[i].walkable == g0.nodes@[i].walkable
            },
{

    let len0 = g0.nodes@.len() as int;
    assert(g1.nodes@.len() == len0 + 1);
    assert(g1.nodes@[len0] == node);
    // every old index keeps its node, except that the node a fresh
    // edge points back from gains that one neighbor field
    assert forall|i: int| 0 <= i < len0 implies {
        let b = g0.nodes@[i];
        let f = #[trigger] g1.nodes@[i];
        &&& f.id == b.id
        &&& f.x == b.x
        &&& f.y == b.y
        &&& f.walkable == b.walkable
        &&& f.nbr(Direction::North) == (if node.south == Some((i + 1) as NodeId) {
            Some(node.id)
        } else {
            b.nbr(Direction::North)
        })
        &&& f.nbr(Direction::South) == (if node.north == Some((i + 1) as NodeId) {
            Some(node.id)
        } else {
            b.nbr(Direction::South)
        })
        &&& f.nbr(Direction::West) == (if node.east == Some((i + 1) as NodeId) {
            Some(node.id)
        } else {
            b.nbr(Direction::West)
        })
        &&& f.nbr(Direction::East) == (if node.west == Some((i + 1) as NodeId) {
            Some(node.id)
        } else {
            b.nbr(Direction::East)
        })
    } by {
        assert(g0.nodes@[i] == g0.nodes@.push(node)[i]);
    }
    // identifiers stay dense
    assert forall|i: int| 0 <= i < g1.nodes@.len() implies (#[trigger] g1.nodes@[i]).id
        == i + 1 by {}
    // coordinates stay unique: the new cell was fresh
    assert forall|i: int, j: int|
        0 <= i < g1.nodes@.len() && 0 <= j < g1.nodes@.len() && i != j implies !((
    #[trigger] g1.nodes@[i]).x == (#[trigger] g1.nodes@[j]).x && g1.nodes@[i].y
        == g1.nodes@[j].y) by {
        if i < len0 && j < len0 {
            assert(!(g0.nodes@[i].x == g0.nodes@[j].x && g0.nodes@[i].y
                == g0.nodes@[j].y));
        } else if i == len0 {
            assert(!(g0.nodes@[j].x == x && g0.nodes@[j].y == y));
        } else {
            assert(!(g0.nodes@[i].x == x && g0.nodes@[i].y == y));
        }
    }
    // every stored edge still points one step away
    assert forall|i: int, d: Direction|
        0 <= i < g1.nodes@.len() && (#[trigger] g1.nodes@[i].nbr(d)) is Some implies {
        let m = g1.nodes@[i].nbr(d)->Some_0;
        &&& g1.valid_id(m)
        &&& step_coord(g1.nodes@[i].x as int, g1.nodes@[i].y as int, d)
            == (g1.node_at(m).x as int, g1.node_at(m).y as int)
    } by {
        let m = g1.nodes@[i].nbr(d)->Some_0;
        if i == len0 {
            // a field of the new node, filled from a coordinate
            // probe; the probed node may have gained a back edge but
            // kept its coordinates
            assert(g1.nodes@[m - 1].x == g0.nodes@[m - 1].x && g1.nodes@[m - 1].y
                == g0.nodes@[m - 1].y);
        } else {
            let b = g0.nodes@[i];
            if g1.nodes@[i].nbr(d) == b.nbr(d) {
                // untouched field: the old edge, to an old node
                assert(g0.nodes@[m - 1].x == g1.nodes@[m - 1].x && g0.nodes@[m
                    - 1].y == g1.nodes@[m - 1].y);
            } else {
                // a fresh back edge to the new node
                assert(m == node.id);
                assert(g1.node_at(node.id).x == x && g1.node_at(node.id).y == y);
            }
        }
    }
    // every pair of adjacent cells is linked
    assert forall|i: int, j: int, d: Direction|
        #![trigger step_coord(g1.nodes@[i].x as int, g1.nodes@[i].y as int, d), g1.nodes@[j]]
        #![trigger g1.nodes@[i].nbr(d), g1.nodes@[j]]
        0 <= i < g1.nodes@.len() && 0 <= j < g1.nodes@.len()
            && step_coord(g1.nodes@[i].x as int, g1.nodes@[i].y as int, d)
                == (g1.nodes@[j].x as int, g1.nodes@[j].y as int)
        implies g1.nodes@[i].nbr(d) == Some((j + 1) as NodeId) by {
        if i == len0 && j == len0 {
            // a step always leaves the cell
            assert(false);
        } else if i == len0 {
            // the new node sees old node j one step away, so the
            // matching coordinate probe answered, and the unique
            // coordinate pins the answer to j
            assert(g0.coord_taken(g0.nodes@[j].x, g0.nodes@[j].y));
            match d {
                Direction::North => {
                    assert(g0.nodes@[j].x as int == x as int - 1);
                    assert(node.north is Some);
                    assert(node.north->Some_0 - 1 == j);
                },
                Direction::South => {
                    assert(g0.nodes@[j].x as int == x as int + 1);
                    assert(node.south is Some);
                    assert(node.south->Some_0 - 1 == j);
                },
                Direction::East => {
                    assert(g0.nodes@[j].y as int == y as int + 1);
                    assert(node.east is Some);
                    assert(node.east->Some_0 - 1 == j);
                },
                Direction::West => {
                    assert(g0.nodes@[j].y as int == y as int - 1);
                    assert(node.west is Some);
                    assert(node.west->Some_0 - 1 == j);
                },
            }
        } else if j == len0 {
            // old node i sits one step from the new cell, so the
            // probe in the mirrored direction found exactly i, and
            // its back edge was just linked
            assert(g0.coord_taken(g0.nodes@[i].x, g0.nodes@[i].y));
            match d {
                Direction::South => {
                    assert(g0.nodes@[i].x as int == x as int - 1);
                    assert(node.north is Some);
                    assert(node.north->Some_0 - 1 == i);
                },
                Direction::North => {
                    assert(g0.nodes@[i].x as int == x as int + 1);
                    assert(node.south is Some);
                    assert(node.south->Some_0 - 1 == i);
                },
                Direction::West => {
                    assert(g0.nodes@[i].y as int == y as int + 1);
                    assert(node.east is Some);
                    assert(node.east->Some_0 - 1 == i);
                },
                Direction::East => {
                    assert(g0.nodes@[i].y as int == y as int - 1);
                    assert(node.west is Some);
                    assert(node.west->Some_0 - 1 == i);
                },
            }
            assert(g1.nodes@[i].nbr(d) == Some(node.id));
        } else {
            // two old nodes: the new cell was fresh, so neither field
            // involved was touched
            if node.north == Some((i + 1) as NodeId) && d == Direction::South {
                assert(g0.coord_taken(g1.nodes@[j].x, g1.nodes@[j].y));
                assert(false);
            }
            if node.south == Some((i + 1) as NodeId) && d == Direction::North {
                assert(g0.coord_taken(g1.nodes@[j].x, g1.nodes@[j].y));
                assert(false);
            }
            if node.east == Some((i + 1) as NodeId) && d == Direction::West {
                assert(g0.coord_taken(g1.nodes@[j].x, g1.nodes@[j].y));
                assert(false);
            }
            if node.west == Some((i + 1) as NodeId) && d == Direction::East {
                assert(g0.coord_taken(g1.nodes@[j].x, g1.nodes@[j].y));
                assert(false);
            }
            assert(g0.nodes@[i].nbr(d) == Some((j + 1) as NodeId));
        }
    }
}

/// Adjacency is bidirectional: whenever two nodes sit one step apart in
/// direction `d`, the first stores the second as its `d` neighbor and the
/// second stores the first in the opposite direction.
pub proof fn lemma_bidirectional(g: Graph, a: NodeId, b: NodeId, d: Direction)
    requires
        g.wf(),
        g.valid_id(a),
        g.valid_id(b),
        step_coord(g.node_at(a).x as int, g.node_at(a).y as int, d)
            == (g.node_at(b).x as int, g.node_at(b).y as int),
    ensures
        g.node_at(a).nbr(d) == Some(b),
        g.node_at(b).nbr(d.spec_opposite()) == Some(a),
{
    let i = a - 1;
    let j = b - 1;
    assert(g.nodes@[i].nbr(d) == Some((j + 1) as NodeId));
    assert(step_coord(g.node_at(b).x as int, g.node_at(b).y as int, d.spec_opposite())
        == (g.node_at(a).x as int, g.node_at(a).y as int));
    assert(g.nodes@[j].nbr(d.spec_opposite()) == Some((i + 1) as NodeId));
}

} // verus!
