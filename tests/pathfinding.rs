use cartographer::astar::AStar;
use cartographer::bfs::BreadthFirstSearch;
use cartographer::dijkstra::Dijkstra;
use cartographer::distances::{Chebyshev, Distances, Euclidean, Manhattan};
use cartographer::map::{Graph, Position};
use cartographer::PathError;

type Cell = Option<(&'static str, u32, (i32, i32))>;

fn demo_grid() -> Vec<Vec<Cell>> {
    vec![
        vec![Some(("(1,1)", 1, (1, 1))), Some(("(1,2)", 1, (1, 2))), Some(("(1,3)", 2, (1, 3))), None],
        vec![Some(("(2,1)", 5, (2, 1))), None, Some(("(2,3)", 2, (2, 3))), Some(("(2,4)", 1, (2, 4)))],
        vec![Some(("(3,1)", 5, (3, 1))), Some(("(3,2)", 1, (3, 2))), None, Some(("(3,4)", 2, (3, 4)))],
        vec![None, Some(("(4,2)", 1, (4, 2))), Some(("(4,3)", 1, (4, 3))), Some(("(4,4)", 1, (4, 4)))],
    ]
}

/// Every cell becomes a node; each joins its four neighbours, at the neighbour's weight.
fn build(grid: &Vec<Vec<Cell>>) -> Graph {
    let mut map = Graph::new();
    for row in grid {
        for cell in row {
            if let Some((id, _, pos)) = cell {
                map.add_node(id, *pos);
            }
        }
    }
    let dirs: [(i32, i32); 4] = [(-1, 0), (0, -1), (1, 0), (0, 1)];
    for (r, row) in grid.iter().enumerate() {
        for (c, cell) in row.iter().enumerate() {
            if let Some((id, _, _)) = cell {
                for (dr, dc) in dirs.iter() {
                    let nr = r as i32 + dr;
                    let nc = c as i32 + dc;
                    if nr >= 0 && nc >= 0 && (nr as usize) < grid.len() && (nc as usize) < row.len() {
                        if let Some((nid, w, _)) = grid[nr as usize][nc as usize] {
                            assert!(map.connect_nodes(id, nid, w).is_ok());
                        }
                    }
                }
            }
        }
    }
    map
}

fn names(v: &[&str]) -> Vec<String> {
    v.iter().map(|s| s.to_string()).collect()
}

#[test]
fn it_works() {
    assert_eq!(2 + 2, 4);
}

#[test]
fn bfs_grid_path_fewest_steps() {
    let map = build(&demo_grid());
    let mut bfs = BreadthFirstSearch::new();
    let r = bfs.calculate_path(&map, "(1,1)", "(4,3)").unwrap();
    assert_eq!(r.path, names(&["(1,1)", "(2,1)", "(3,1)", "(3,2)", "(4,2)", "(4,3)"]));
    assert_eq!(r.cost, 6);
}

#[test]
fn dijkstra_grid_path_least_weight() {
    let map = build(&demo_grid());
    let mut d = Dijkstra::new();
    let r = d.calculate_path(&map, "(1,1)", "(4,3)").unwrap();
    assert_eq!(
        r.path,
        names(&["(1,1)", "(1,2)", "(1,3)", "(2,3)", "(2,4)", "(3,4)", "(4,4)", "(4,3)"])
    );
    assert_eq!(r.cost, 10);
}

#[test]
fn astar_matches_dijkstra_cost() {
    let map = build(&demo_grid());
    let mut d = Dijkstra::new();
    let mut a = AStar::new();
    a.set_heuristic(Distances::Manhattan);
    let rd = d.calculate_path(&map, "(1,1)", "(4,3)").unwrap();
    let ra = a.calculate_path(&map, "(1,1)", "(4,3)").unwrap();
    assert_eq!(ra.cost, rd.cost);
    assert_eq!(ra.path, rd.path);
    let mut e = AStar::new();
    let re = e.calculate_path(&map, "(1,1)", "(4,3)").unwrap();
    assert_eq!(re.cost, 10);
}

#[test]
fn path_cost_is_sum_of_edge_weights() {
    let map = build(&demo_grid());
    let mut d = Dijkstra::new();
    let r = d.calculate_path(&map, "(2,1)", "(3,2)").unwrap();
    assert_eq!(r.path, names(&["(2,1)", "(3,1)", "(3,2)"]));
    assert_eq!(r.cost, 6);
}

#[test]
fn path_to_itself() {
    let map = build(&demo_grid());
    let mut bfs = BreadthFirstSearch::new();
    let r = bfs.calculate_path(&map, "(1,1)", "(1,1)").unwrap();
    assert_eq!(r.path, names(&["(1,1)"]));
    assert_eq!(r.cost, 1);
    let mut d = Dijkstra::new();
    let r = d.calculate_path(&map, "(1,1)", "(1,1)").unwrap();
    assert_eq!(r.path, names(&["(1,1)"]));
    assert_eq!(r.cost, 0);
}

#[test]
fn unknown_destination_is_an_error() {
    let map = build(&demo_grid());
    let mut d = Dijkstra::new();
    assert_eq!(d.calculate_path(&map, "(1,1)", "(9,9)").unwrap_err(), PathError::UnknownNode);
    let mut bfs = BreadthFirstSearch::new();
    assert_eq!(bfs.calculate_path(&map, "(1,1)", "(2,2)").unwrap_err(), PathError::UnknownNode);
}

#[test]
fn unreachable_destination_is_no_path() {
    let mut map = build(&demo_grid());
    map.add_node("island", (9, 9));
    let mut d = Dijkstra::new();
    assert_eq!(d.calculate_path(&map, "(1,1)", "island").unwrap_err(), PathError::NoPath);
    let mut a = AStar::new();
    assert_eq!(a.calculate_path(&map, "nowhere", "(1,1)").unwrap_err(), PathError::NoPath);
}

#[test]
fn removed_node_is_never_traversed() {
    let mut map = build(&demo_grid());
    assert!(map.remove_node("(2,1)").is_ok());
    let mut bfs = BreadthFirstSearch::new();
    let r = bfs.calculate_path(&map, "(1,1)", "(4,3)").unwrap();
    assert!(!r.path.contains(&"(2,1)".to_string()));
    assert_eq!(r.cost, 8);
    let mut d = Dijkstra::new();
    assert_eq!(d.calculate_path(&map, "(1,1)", "(2,1)").unwrap_err(), PathError::UnknownNode);
    assert!(map.remove_node("(2,1)").is_ok());
}

#[test]
fn dijkstra_moves_within_budget_two() {
    let map = build(&demo_grid());
    let mut d = Dijkstra::new();
    assert_eq!(d.calculate_moves(&map, "(1,1)", 2), names(&["(1,1)", "(1,2)"]));
    assert_eq!(d.calculate_moves(&map, "(1,1)", 3), names(&["(1,1)", "(1,2)", "(1,3)"]));
}

#[test]
fn bfs_moves_within_two_steps() {
    let map = build(&demo_grid());
    let mut bfs = BreadthFirstSearch::new();
    assert_eq!(
        bfs.calculate_moves(&map, "(1,1)", 2),
        names(&["(1,1)", "(1,2)", "(1,3)", "(2,1)", "(3,1)"])
    );
}

#[test]
fn moves_include_start_and_grow_with_budget() {
    let map = build(&demo_grid());
    let mut d = Dijkstra::new();
    assert_eq!(d.calculate_moves(&map, "(4,4)", 0), names(&["(4,4)"]));
    let small = d.calculate_moves(&map, "(4,4)", 2);
    let large = d.calculate_moves(&map, "(4,4)", 5);
    for n in &small {
        assert!(large.contains(n));
    }
    assert!(large.len() > small.len());
    assert_eq!(d.calculate_moves(&map, "ghost", 4), names(&["ghost"]));
}

#[test]
fn first_edge_and_first_position_win() {
    let mut map = Graph::new();
    map.add_node("a", (0, 0));
    map.add_node("b", (1, 0));
    map.add_node("a", (5, 5));
    assert!(map.connect_nodes("a", "b", 5).is_ok());
    assert!(map.connect_nodes("a", "b", 1).is_ok());
    assert!(map.connect_nodes("a", "missing", 1).is_ok());
    let mut d = Dijkstra::new();
    let r = d.calculate_path(&map, "a", "b").unwrap();
    assert_eq!(r.cost, 5);
    assert_eq!(d.calculate_path(&map, "b", "a").unwrap_err(), PathError::NoPath);
}

#[test]
fn heuristic_distances() {
    let o = Position { x: 0, y: 0 };
    let p = Position { x: 3, y: -4 };
    assert_eq!(Euclidean::calculate(&o, &p), 5);
    assert_eq!(Manhattan::calculate(&o, &p), 7);
    assert_eq!(Chebyshev::calculate(&o, &p), 4);
    let q = Position { x: 2, y: 2 };
    assert_eq!(Euclidean::calculate(&o, &q), 2);
    let far = Position { x: i32::MIN, y: i32::MAX };
    let near = Position { x: i32::MAX, y: i32::MIN };
    assert_eq!(Manhattan::calculate(&far, &near), 2 * 4294967295);
    assert_eq!(Euclidean::calculate(&far, &near), 6074000998);
    let mut a = AStar::new();
    a.set_heuristic(Distances::Chebyshev);
    assert_eq!(a.heuristic_cost(&o, &p), 4);
}

#[test]
fn neighbour_lookup() {
    let map = build(&demo_grid());
    let mut n = map.neighbours("(1,1)");
    n.sort();
    assert_eq!(n, vec![("(1,2)".to_string(), 1), ("(2,1)".to_string(), 5)]);
    assert!(map.neighbours("(2,2)").is_empty());
    let mut after = build(&demo_grid());
    assert!(after.remove_node("(1,2)").is_ok());
    assert_eq!(after.neighbours("(1,1)"), vec![("(2,1)".to_string(), 5)]);
}
