use boulder_graph::cell::Cell;
use boulder_graph::grid::{
    fill_reachable_cells, grid_to_movement_graph, move_one, walk_graph_from, Direction,
};
use boulder_graph::state_graph::{extend_state, find_solvable_states, StateGraph};

#[test]
fn test_search() {
    let grid = vec![
        Cell::BoulderInHole,
        Cell::Unreachable,
        Cell::Unreachable,
        Cell::BoulderInHole,
        Cell::Unreachable,
        Cell::Unreachable,
        Cell::Unreachable,
        Cell::Unreachable,
        Cell::Unreachable,
        Cell::Unreachable,
        Cell::Unreachable,
        Cell::Unreachable,
        Cell::BoulderInHole,
        Cell::Unreachable,
        Cell::Unreachable,
        Cell::BoulderInHole,
    ];
    find_solvable_states(8, grid, 4);
}

#[test]
fn test_walk_movement_graph() {
    let grid = vec![
        Cell::Hole,
        Cell::Unreachable,
        Cell::Unreachable,
        Cell::Hole,
        Cell::Unreachable,
        Cell::Boulder,
        Cell::Unreachable,
        Cell::Boulder,
        Cell::Boulder,
        Cell::Unreachable,
        Cell::Unreachable,
        Cell::Unreachable,
        Cell::Hole,
        Cell::Unreachable,
        Cell::Boulder,
        Cell::Hole,
    ];
    let graph = grid_to_movement_graph(&grid, 4);
    let reachable = walk_graph_from(1, &graph);
    assert_eq!(reachable.len(), 7);
    assert!(reachable.contains(&1));
    assert!(reachable.contains(&2));
    assert!(reachable.contains(&6));
    assert!(reachable.contains(&9));
    assert!(reachable.contains(&10));
    assert!(reachable.contains(&11));
    assert!(reachable.contains(&13));
}

#[test]
fn test_walk_movement_graph_2() {
    let grid = vec![
        Cell::Hole,
        Cell::Unreachable,
        Cell::Unreachable,
        Cell::BoulderInHole,
        Cell::Boulder,
        Cell::Unreachable,
        Cell::Unreachable,
        Cell::Unreachable,
        Cell::Unreachable,
        Cell::Unreachable,
        Cell::Unreachable,
        Cell::Unreachable,
        Cell::BoulderInHole,
        Cell::Unreachable,
        Cell::Unreachable,
        Cell::BoulderInHole,
    ];
    let graph = grid_to_movement_graph(&grid, 4);
    let reachable = walk_graph_from(8, &graph);
    assert_eq!(reachable.len(), 11);
    assert!(reachable.contains(&1));
    assert!(reachable.contains(&2));
    assert!(reachable.contains(&5));
    assert!(reachable.contains(&6));
    assert!(reachable.contains(&7));
    assert!(reachable.contains(&8));
    assert!(reachable.contains(&9));
    assert!(reachable.contains(&10));
    assert!(reachable.contains(&11));
    assert!(reachable.contains(&13));
    assert!(reachable.contains(&14));
}

#[test]
fn test_build_movement_graph() {
    let grid = vec![
        Cell::Hole,
        Cell::Unreachable,
        Cell::Unreachable,
        Cell::Hole,
        Cell::Unreachable,
        Cell::Boulder,
        Cell::Unreachable,
        Cell::Boulder,
        Cell::Boulder,
        Cell::Unreachable,
        Cell::Unreachable,
        Cell::Unreachable,
        Cell::Hole,
        Cell::Unreachable,
        Cell::Boulder,
        Cell::Hole,
    ];

    let graph = grid_to_movement_graph(&grid, 4);
    assert_eq!(graph.len(), 8);

    assert!(!graph.contains_key(&0));

    assert!(graph.contains_key(&1));
    assert_eq!(graph[&1].len(), 1);
    assert_eq!(graph[&1][0], 2);

    assert!(graph.contains_key(&2));
    assert_eq!(graph[&2].len(), 2);
    assert_eq!(graph[&2][0], 6);
    assert_eq!(graph[&2][1], 1);

    assert!(!graph.contains_key(&3));

    assert!(graph.contains_key(&4));
    assert_eq!(graph[&4].len(), 0);

    assert!(!graph.contains_key(&5));

    assert!(graph.contains_key(&6));
    assert_eq!(graph[&6].len(), 2);
    assert_eq!(graph[&6][0], 2);
    assert_eq!(graph[&6][1], 10);

    assert!(!graph.contains_key(&7));

    assert!(!graph.contains_key(&8));

    assert!(graph.contains_key(&9));
    assert_eq!(graph[&9].len(), 2);
    assert_eq!(graph[&9][0], 13);
    assert_eq!(graph[&9][1], 10);

    assert!(graph.contains_key(&10));
    assert_eq!(graph[&10].len(), 3);
    assert_eq!(graph[&10][0], 6);
    assert_eq!(graph[&10][1], 9);
    assert_eq!(graph[&10][2], 11);

    assert!(graph.contains_key(&11));
    assert_eq!(graph[&11].len(), 1);
    assert_eq!(graph[&11][0], 10);

    assert!(!graph.contains_key(&12));

    assert!(graph.contains_key(&13));
    assert_eq!(graph[&13].len(), 1);
    assert_eq!(graph[&13][0], 9);

    assert!(!graph.contains_key(&14));

    assert!(!graph.contains_key(&15));
}

fn puzzle_grid() -> Vec<Cell> {
    vec![
        Cell::Hole,
        Cell::Unreachable,
        Cell::Unreachable,
        Cell::Hole,
        Cell::Unreachable,
        Cell::Boulder,
        Cell::Unreachable,
        Cell::Boulder,
        Cell::Boulder,
        Cell::Unreachable,
        Cell::Unreachable,
        Cell::Unreachable,
        Cell::Hole,
        Cell::Unreachable,
        Cell::Boulder,
        Cell::Hole,
    ]
}

#[test]
fn test_fill_reachable_cells_marks_exactly_the_reachable_set() {
    let mut grid = puzzle_grid();
    let before = grid.clone();
    fill_reachable_cells(1, &mut grid, 4);
    let marked = vec![1, 2, 6, 9, 10, 11, 13];
    for i in 0..16 {
        if marked.contains(&i) {
            assert_eq!(grid[i], Cell::Reachable);
        } else {
            assert_eq!(grid[i], before[i]);
        }
    }
}

#[test]
fn test_explorer_is_deterministic() {
    let first = find_solvable_states(1, puzzle_grid(), 4);
    let second = find_solvable_states(1, puzzle_grid(), 4);
    assert_eq!(first.len(), second.len());
    for id in 0..first.len() {
        assert_eq!(first.get_state(&id).unwrap(), second.get_state(&id).unwrap());
        assert_eq!(
            first.get_neighbors(&id).unwrap(),
            second.get_neighbors(&id).unwrap()
        );
    }
}

#[test]
fn test_no_duplicate_configurations() {
    let graph = find_solvable_states(1, puzzle_grid(), 4);
    let n = graph.len();
    assert!(n >= 1);
    for i in 0..n {
        for j in 0..n {
            if i != j {
                assert_ne!(graph.get_state(&i).unwrap(), graph.get_state(&j).unwrap());
            }
        }
    }
}

#[test]
fn test_id_density() {
    let graph = find_solvable_states(1, puzzle_grid(), 4);
    let n = graph.len();
    for id in 0..n {
        assert!(graph.contains_id(&id));
        assert!(graph.get_state(&id).is_some());
        assert!(graph.get_neighbors(&id).is_some());
    }
    assert!(!graph.contains_id(&n));
    assert!(graph.get_state(&n).is_none());
    assert!(graph.get_neighbors(&n).is_none());
}

#[test]
fn test_root_identity() {
    let root = puzzle_grid();
    let graph = StateGraph::new(root.clone());
    assert_eq!(graph.len(), 1);
    assert_eq!(graph.get_state(&0).unwrap(), &root);

    // The explorer's root is the input grid with the tractor's cell
    // emptied and reachability marked.
    let mut expected = puzzle_grid();
    expected[1] = Cell::Unreachable;
    fill_reachable_cells(1, &mut expected, 4);
    let explored = find_solvable_states(1, puzzle_grid(), 4);
    assert_eq!(explored.get_state(&0).unwrap(), &expected);
}

#[test]
fn test_push_shape() {
    // On a 4x4 grid with a single boulder at 5, a push down is legal when
    // the landing cell 9 and the cell beyond it, 13, are both reachable:
    // the boulder lands on 9 and the tractor ends one step beyond, on 13.
    let mut grid = vec![Cell::Unreachable; 16];
    grid[5] = Cell::Boulder;
    fill_reachable_cells(13, &mut grid, 4);
    assert_eq!(grid[9], Cell::Reachable);
    assert_eq!(grid[13], Cell::Reachable);

    let pushed = extend_state(5, Direction::Down, &grid, 4).unwrap();
    assert_eq!(pushed[9], Cell::Boulder);
    assert_eq!(pushed[13], Cell::Reachable);
    // The vacated cell is empty again, and reachable around the boulder.
    assert_eq!(pushed[5], Cell::Reachable);

    // Pushing the boulder at 9 further down needs a cell beyond the
    // bottom edge: illegal.
    assert!(extend_state(9, Direction::Down, &pushed, 4).is_none());
}

#[test]
fn test_move_one_edges() {
    assert_eq!(move_one(0, Direction::Up, 4), None);
    assert_eq!(move_one(0, Direction::Left, 4), None);
    assert_eq!(move_one(0, Direction::Down, 4), Some(4));
    assert_eq!(move_one(0, Direction::Right, 4), Some(1));
    assert_eq!(move_one(15, Direction::Down, 4), None);
    assert_eq!(move_one(15, Direction::Right, 4), None);
    assert_eq!(move_one(15, Direction::Up, 4), Some(11));
    assert_eq!(move_one(15, Direction::Left, 4), Some(14));
}

#[test]
fn test_search_returns_at_least_the_root() {
    let grid = vec![
        Cell::BoulderInHole,
        Cell::Unreachable,
        Cell::Unreachable,
        Cell::BoulderInHole,
        Cell::Unreachable,
        Cell::Unreachable,
        Cell::Unreachable,
        Cell::Unreachable,
        Cell::Unreachable,
        Cell::Unreachable,
        Cell::Unreachable,
        Cell::Unreachable,
        Cell::BoulderInHole,
        Cell::Unreachable,
        Cell::Unreachable,
        Cell::BoulderInHole,
    ];
    let graph = find_solvable_states(8, grid, 4);
    assert!(graph.len() >= 1);
    assert!(graph.get_state(&0).is_some());
}
