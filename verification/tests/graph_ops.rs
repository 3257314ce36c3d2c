use gridpath::graph::{Direction, Graph, GraphError, Node};

/// Builds an n-by-n grid of walkable cells in row-major order, so that the
/// cell (x, y) gets the identifier y * n + x + 1.
fn grid(n: usize) -> Graph {
    let mut g = Graph::new();
    for y in 0..n {
        for x in 0..n {
            g.add_node(true, x, y);
        }
    }
    g
}

fn id_at(n: usize, x: usize, y: usize) -> u32 {
    (y * n + x + 1) as u32
}

#[test]
fn identifiers_are_dense_from_one() {
    let mut g = Graph::new();
    assert_eq!(g.add_node(true, 0, 0), 1);
    assert_eq!(g.add_node(false, 1, 0), 2);
    assert_eq!(g.add_node(true, 0, 1), 3);
    assert_eq!(g.get_node_coordinates(1), Some((0, 0)));
    assert_eq!(g.get_node_coordinates(2), Some((1, 0)));
    assert_eq!(g.get_node_coordinates(3), Some((0, 1)));
    assert_eq!(g.get_node_coordinates(0), None);
    assert_eq!(g.get_node_coordinates(4), None);
    assert!(g.is_walkable(1));
    assert!(!g.is_walkable(2));
}

#[test]
fn adjacency_is_bidirectional() {
    let n = 3;
    let g = grid(n);
    for y in 0..n {
        for x in 0..n {
            let a = id_at(n, x, y);
            let na = g.get_neighbors(a);
            // a North edge leads to (x - 1, y), and the neighbor points back
            if x > 0 {
                let b = id_at(n, x - 1, y);
                assert_eq!(na.get(Direction::North), Some(b));
                let nb = g.get_neighbors(b);
                assert_eq!(nb.get(Direction::North.opposite()), Some(a));
            }
            if x + 1 < n {
                let b = id_at(n, x + 1, y);
                assert_eq!(na.get(Direction::South), Some(b));
                let nb = g.get_neighbors(b);
                assert_eq!(nb.get(Direction::South.opposite()), Some(a));
            }
            if y + 1 < n {
                let b = id_at(n, x, y + 1);
                assert_eq!(na.get(Direction::East), Some(b));
                let nb = g.get_neighbors(b);
                assert_eq!(nb.get(Direction::East.opposite()), Some(a));
            }
            if y > 0 {
                let b = id_at(n, x, y - 1);
                assert_eq!(na.get(Direction::West), Some(b));
                let nb = g.get_neighbors(b);
                assert_eq!(nb.get(Direction::West.opposite()), Some(a));
            }
        }
    }
}

#[test]
fn border_cells_lack_outward_edges() {
    let g = grid(3);
    let corner = g.get_neighbors(1); // cell (0, 0)
    assert_eq!(corner.north, None);
    assert_eq!(corner.west, None);
    assert_eq!(corner.south, Some(2)); // cell (1, 0)
    assert_eq!(corner.east, Some(4)); // cell (0, 1)
    let unknown = g.get_neighbors(42);
    assert_eq!(unknown.north, None);
    assert_eq!(unknown.south, None);
    assert_eq!(unknown.east, None);
    assert_eq!(unknown.west, None);
}

#[test]
fn opposite_directions_pair_up() {
    assert_eq!(Direction::North.opposite(), Direction::South);
    assert_eq!(Direction::South.opposite(), Direction::North);
    assert_eq!(Direction::East.opposite(), Direction::West);
    assert_eq!(Direction::West.opposite(), Direction::East);
}

#[test]
fn nodes_are_equal_by_identifier() {
    let a = Node {
        id: 7,
        x: 1,
        y: 2,
        walkable: true,
        north: None,
        south: None,
        east: None,
        west: None,
    };
    let b = Node { walkable: false, x: 3, ..a };
    let c = Node { id: 8, ..a };
    assert!(a == b);
    assert!(a != c);
}

#[test]
fn self_path_is_single_entry() {
    let g = grid(3);
    for id in 1..=9u32 {
        assert_eq!(g.shortest_path(id, id), Some(vec![id]));
    }
}

#[test]
fn walkability_fails_for_unknown_node() {
    let mut g = grid(3);
    assert_eq!(g.set_node_walkability(9999, false), Err(GraphError::UnknownNode));
    assert_eq!(g.set_node_walkability(0, false), Err(GraphError::UnknownNode));
    assert_eq!(g.set_node_walkability(10, false), Err(GraphError::UnknownNode));
    assert!(!g.is_walkable(9999));
}

#[test]
fn walkability_mutates_in_place() {
    let mut g = grid(3);
    assert!(g.is_walkable(5));
    assert_eq!(g.set_node_walkability(5, false), Ok(()));
    assert!(!g.is_walkable(5));
    assert_eq!(g.set_node_walkability(5, true), Ok(()));
    assert!(g.is_walkable(5));
    // nothing else moved
    assert_eq!(g.get_node_coordinates(5), Some((1, 1)));
    assert!(g.is_walkable(4));
}

#[test]
fn search_is_deterministic() {
    let build = || {
        let mut g = grid(4);
        g.set_node_walkability(6, false).unwrap();
        g.set_node_walkability(11, false).unwrap();
        g
    };
    let g1 = build();
    let g2 = build();
    for from in 1..=16u32 {
        for to in 1..=16u32 {
            let first = g1.shortest_path(from, to);
            assert_eq!(first, g1.shortest_path(from, to));
            assert_eq!(first, g2.shortest_path(from, to));
        }
    }
}

#[test]
fn five_by_five_shortest_path_has_nine_nodes() {
    let n = 5;
    let g = grid(n);
    let start = id_at(n, 0, 0);
    let end = id_at(n, 4, 4);
    let path = g.shortest_path(start, end).unwrap();
    assert_eq!(path.len(), 9);
    assert_eq!(path[0], start);
    assert_eq!(path[8], end);
    for k in 0..path.len() - 1 {
        let (ax, ay) = g.get_node_coordinates(path[k]).unwrap();
        let (bx, by) = g.get_node_coordinates(path[k + 1]).unwrap();
        let dx = if ax > bx { ax - bx } else { bx - ax };
        let dy = if ay > by { ay - by } else { by - ay };
        assert_eq!(dx + dy, 1);
    }
}

#[test]
fn blocked_row_obstructs_and_one_gap_reopens() {
    let n = 5;
    let mut g = grid(n);
    let start = id_at(n, 0, 0);
    let end = id_at(n, 4, 4);
    // block the whole row y = 2
    for x in 0..n {
        g.set_node_walkability(id_at(n, x, 2), false).unwrap();
    }
    assert_eq!(g.shortest_path(start, end), None);
    // one gap in that row lets the path through, and through that very gap
    let gap = id_at(n, 3, 2);
    g.set_node_walkability(gap, true).unwrap();
    let path = g.shortest_path(start, end).unwrap();
    assert!(path.contains(&gap));
    assert_eq!(path[0], start);
    assert_eq!(*path.last().unwrap(), end);
}

#[test]
fn adjacency_holds_for_any_insertion_order() {
    // cells added out of scan order still end up fully linked
    let mut g = Graph::new();
    let center = g.add_node(true, 1, 1);
    let south = g.add_node(true, 2, 1);
    let east = g.add_node(true, 1, 2);
    let north = g.add_node(true, 0, 1);
    let west = g.add_node(true, 1, 0);
    let n = g.get_neighbors(center);
    assert_eq!(n.north, Some(north));
    assert_eq!(n.south, Some(south));
    assert_eq!(n.east, Some(east));
    assert_eq!(n.west, Some(west));
    assert_eq!(g.get_neighbors(north).south, Some(center));
    assert_eq!(g.get_neighbors(south).north, Some(center));
    assert_eq!(g.get_neighbors(east).west, Some(center));
    assert_eq!(g.get_neighbors(west).east, Some(center));
}

#[test]
fn unreachable_start_side_still_reports_not_found() {
    // a 1-by-5 corridor severed in the middle
    let mut g = Graph::new();
    for x in 0..5 {
        g.add_node(true, x, 0);
    }
    g.set_node_walkability(3, false).unwrap();
    assert_eq!(g.shortest_path(1, 5), None);
    assert_eq!(g.shortest_path(5, 1), None);
    assert_eq!(g.shortest_path(1, 2), Some(vec![1, 2]));
    assert_eq!(g.shortest_path(4, 5), Some(vec![4, 5]));
}
