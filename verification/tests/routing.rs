use gridpath::graph::Graph;
use gridpath::route::PathSequencer;

/// Builds an n-by-n grid of walkable cells in row-major order, so that the
/// cell (x, y) gets the identifier y * n + x + 1.
fn grid(n: usize) -> Graph {
    let mut g = Graph::new();
    for y in 0..n {
        for x in 0..n {
            g.add_node(true, x, y);
        }
    }
    g
}

fn id_at(n: usize, x: usize, y: usize) -> u32 {
    (y * n + x + 1) as u32
}

/// Reads the whole committed route through the step interface.
fn steps(seq: &PathSequencer, g: &Graph) -> Vec<(usize, usize)> {
    let mut out = Vec::new();
    let mut index = 0;
    while let Some(c) = seq.position_at_step(g, index) {
        out.push(c);
        index += 1;
    }
    out
}

#[test]
fn direct_route_commits_a_shortest_path() {
    let n = 5;
    let g = grid(n);
    let mut seq = PathSequencer::new(id_at(n, 0, 0), &Vec::new(), id_at(n, 4, 4));
    assert!(seq.recompute(&g));
    assert_eq!(seq.path.len(), 9);
    assert_eq!(seq.path[0], id_at(n, 0, 0));
    assert_eq!(*seq.path.last().unwrap(), id_at(n, 4, 4));
}

#[test]
fn no_route_before_first_recompute() {
    let n = 3;
    let g = grid(n);
    let seq = PathSequencer::new(1, &Vec::new(), 9);
    assert_eq!(seq.position_at_step(&g, 0), None);
    assert!(seq.path.is_empty());
}

#[test]
fn checkpoint_lies_strictly_between_start_and_end() {
    let n = 5;
    let g = grid(n);
    let start = id_at(n, 0, 0);
    let checkpoint = id_at(n, 2, 2);
    let end = id_at(n, 4, 4);
    let mut seq = PathSequencer::new(start, &vec![checkpoint], end);
    assert!(seq.recompute(&g));
    let path = &seq.path;
    assert_eq!(path[0], start);
    assert_eq!(*path.last().unwrap(), end);
    let pos = path.iter().position(|&id| id == checkpoint).unwrap();
    assert!(0 < pos && pos < path.len() - 1);
    // the junction node appears once: no two equal identifiers in a row
    for k in 0..path.len() - 1 {
        assert_ne!(path[k], path[k + 1]);
    }
}

#[test]
fn checkpoints_are_visited_in_order() {
    let n = 5;
    let g = grid(n);
    let start = id_at(n, 0, 0);
    let c1 = id_at(n, 4, 0);
    let c2 = id_at(n, 0, 4);
    let end = id_at(n, 4, 4);
    let mut seq = PathSequencer::new(start, &vec![c1, c2], end);
    assert!(seq.recompute(&g));
    let find = |id: u32| seq.path.iter().position(|&v| v == id).unwrap();
    assert!(find(start) < find(c1));
    assert!(find(c1) < find(c2));
    assert!(find(c2) <= find(end));
    // each segment is itself shortest, with junction nodes kept once:
    // 5 + 9 + 5 cells, minus the two shared junctions
    assert_eq!(seq.path.len(), 17);
}

#[test]
fn failed_recompute_commits_nothing() {
    let n = 5;
    let mut g = grid(n);
    let start = id_at(n, 0, 0);
    let end = id_at(n, 4, 4);
    let mut seq = PathSequencer::new(start, &Vec::new(), end);
    assert!(seq.recompute(&g));
    let before_steps = steps(&seq, &g);
    let before_coord = seq.current_coordinate_of(&g, id_at(n, 2, 2));
    // sever the grid along the row y = 2, then ask again
    for x in 0..n {
        g.set_node_walkability(id_at(n, x, 2), false).unwrap();
    }
    assert!(!seq.recompute(&g));
    assert_eq!(steps(&seq, &g), before_steps);
    assert_eq!(seq.current_coordinate_of(&g, id_at(n, 2, 2)), before_coord);
}

#[test]
fn step_lookup_reports_the_next_target() {
    let n = 3;
    let g = grid(n);
    let mut seq = PathSequencer::new(1, &Vec::new(), 9);
    assert!(seq.recompute(&g));
    let path = seq.path.clone();
    for index in 0..path.len() - 1 {
        let expected = g.get_node_coordinates(path[index + 1]);
        assert_eq!(seq.position_at_step(&g, index), expected);
    }
    assert_eq!(seq.position_at_step(&g, path.len() - 1), None);
    assert_eq!(seq.position_at_step(&g, path.len()), None);
}

#[test]
fn current_coordinate_resolves_known_nodes_only() {
    let n = 3;
    let g = grid(n);
    let seq = PathSequencer::new(1, &Vec::new(), 9);
    assert_eq!(seq.current_coordinate_of(&g, 5), Some((1, 1)));
    assert_eq!(seq.current_coordinate_of(&g, 0), None);
    assert_eq!(seq.current_coordinate_of(&g, 10), None);
}

#[test]
fn placing_an_obstacle_reroutes_around_it() {
    let n = 5;
    let mut g = grid(n);
    let start = id_at(n, 0, 0);
    let end = id_at(n, 4, 4);
    let mut seq = PathSequencer::new(start, &Vec::new(), end);
    assert!(seq.recompute(&g));
    let rock = id_at(n, 2, 2);
    assert!(seq.try_place_obstacle(&mut g, rock));
    assert!(!g.is_walkable(rock));
    assert!(!seq.path.contains(&rock));
    assert_eq!(seq.path[0], start);
    assert_eq!(*seq.path.last().unwrap(), end);
}

#[test]
fn obstacle_on_a_waypoint_is_rejected() {
    let n = 5;
    let mut g = grid(n);
    let start = id_at(n, 0, 0);
    let checkpoint = id_at(n, 2, 2);
    let end = id_at(n, 4, 4);
    let mut seq = PathSequencer::new(start, &vec![checkpoint], end);
    assert!(seq.recompute(&g));
    let before = seq.path.clone();
    assert!(!seq.try_place_obstacle(&mut g, start));
    assert!(!seq.try_place_obstacle(&mut g, checkpoint));
    assert!(!seq.try_place_obstacle(&mut g, end));
    assert!(g.is_walkable(start));
    assert!(g.is_walkable(checkpoint));
    assert!(g.is_walkable(end));
    assert_eq!(seq.path, before);
}

#[test]
fn obstacle_on_a_blocked_cell_is_rejected() {
    let n = 3;
    let mut g = grid(n);
    let mut seq = PathSequencer::new(1, &Vec::new(), 9);
    assert!(seq.recompute(&g));
    g.set_node_walkability(2, false).unwrap();
    let before = seq.path.clone();
    assert!(!seq.try_place_obstacle(&mut g, 2));
    assert!(!g.is_walkable(2));
    assert_eq!(seq.path, before);
}

#[test]
fn severing_obstacle_is_undone() {
    // a 1-by-5 corridor: blocking any middle cell cuts the only route
    let mut g = Graph::new();
    for x in 0..5 {
        g.add_node(true, x, 0);
    }
    let mut seq = PathSequencer::new(1, &Vec::new(), 5);
    assert!(seq.recompute(&g));
    let before = seq.path.clone();
    assert!(!seq.try_place_obstacle(&mut g, 3));
    // the cell is walkable again and the committed route still stands
    assert!(g.is_walkable(3));
    assert_eq!(seq.path, before);
    assert!(seq.recompute(&g));
}

#[test]
fn route_with_coincident_waypoints_stays_sound() {
    let n = 3;
    let g = grid(n);
    // checkpoint equal to the start: the empty segment adds nothing
    let mut seq = PathSequencer::new(1, &vec![1], 9);
    assert!(seq.recompute(&g));
    assert_eq!(seq.path[0], 1);
    assert_eq!(*seq.path.last().unwrap(), 9);
    for k in 0..seq.path.len() - 1 {
        assert_ne!(seq.path[k], seq.path[k + 1]);
    }
    // start equal to end: the route is the single cell
    let mut loopback = PathSequencer::new(5, &Vec::new(), 5);
    assert!(loopback.recompute(&g));
    assert_eq!(loopback.path, vec![5]);
}
