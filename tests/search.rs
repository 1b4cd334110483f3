use maze_path::{find_path, find_start_end, get_adjacent_cells, reconstruct_path, Point};

fn grid(rows: &[&str]) -> Vec<Vec<char>> {
    rows.iter().map(|r| r.chars().collect()).collect()
}

fn scenario_a() -> Vec<Vec<char>> {
    vec![
        vec!['#', '#', '#', '#', '#'],
        vec!['1', '_', '_', '_', '#'],
        vec!['#', '#', '#', '_', '#'],
        vec!['#', '_', '_', '_', '#'],
        vec!['#', 'F', '#', '#', '#'],
    ]
}

fn scenario_b() -> Vec<Vec<char>> {
    vec![
        vec!['#', '#', '#', '#', '#'],
        vec!['1', '_', '_', '_', '#'],
        vec!['#', '#', '#', '#', '#'],
        vec!['#', '_', '_', '_', '#'],
        vec!['#', 'F', '#', '#', '#'],
    ]
}

fn is_valid_path(maze: &Vec<Vec<char>>, path: &Vec<Point>) -> bool {
    for (i, p) in path.iter().enumerate() {
        if maze[p.y][p.x] == '#' {
            return false;
        }
        if path[..i].contains(p) {
            return false;
        }
        if i > 0 {
            let q = path[i - 1];
            if p.x.abs_diff(q.x) + p.y.abs_diff(q.y) != 1 {
                return false;
            }
        }
    }
    true
}

#[test]
fn main_test_path_exists() {
    let maze = scenario_a();
    let path = find_path(&maze, 5, 5).unwrap();
    assert_eq!(path.len(), 9);
    assert_eq!(path[0], Point { x: 0, y: 1 });
    assert_eq!(path[8], Point { x: 1, y: 4 });
}

#[test]
fn main_test_no_path() {
    let maze = scenario_b();
    assert_eq!(find_path(&maze, 5, 5), None);
}

#[test]
fn maze_test_test_path_exists() {
    let maze = scenario_a();
    let path = find_path(&maze, 5, 5).unwrap();
    assert_eq!(path.len(), 9);
    assert_eq!(path[0], Point { x: 0, y: 1 });
    assert_eq!(path[8], Point { x: 1, y: 4 });
}

#[test]
fn maze_test_test_no_path() {
    let maze = scenario_b();
    assert_eq!(find_path(&maze, 5, 5), None);
}

#[test]
fn test_find_start_end() {
    let maze = scenario_a();
    let (start, end) = find_start_end(&maze, 5, 5).unwrap();
    assert_eq!(start, Point { x: 0, y: 1 });
    assert_eq!(end, Point { x: 1, y: 4 });
}

#[test]
fn test_adjacent_cells() {
    let point = Point { x: 2, y: 2 };
    let maze = vec![
        vec!['#', '#', '#', '#', '#'],
        vec!['1', '_', '_', '_', '#'],
        vec!['#', '_', '_', '_', '#'],
        vec!['#', '_', '_', '_', '#'],
        vec!['#', 'F', '#', '#', '#'],
    ];
    let adjacent = get_adjacent_cells(&point, &maze, 5, 5);
    assert_eq!(adjacent.len(), 4);
    assert!(adjacent.contains(&Point { x: 2, y: 1 }));
    assert!(adjacent.contains(&Point { x: 3, y: 2 }));
    assert!(adjacent.contains(&Point { x: 2, y: 3 }));
    assert!(adjacent.contains(&Point { x: 1, y: 2 }));
}

#[test]
fn test_reconstruct_path() {
    // The table is indexed by row, then column: the parent of the cell
    // (x: 2, y: 1) is stored at parent[1][2]. The chain here runs
    // (2,2) -> (2,1) -> (1,1) -> (0,1).
    let mut parent = vec![vec![None; 5]; 5];
    parent[2][2] = Some(Point { x: 2, y: 1 });
    parent[1][2] = Some(Point { x: 1, y: 1 });
    parent[1][1] = Some(Point { x: 0, y: 1 });
    let path = reconstruct_path(&parent, Point { x: 2, y: 2 }, Point { x: 0, y: 1 });
    assert_eq!(path.len(), 4);
    assert_eq!(path[0], Point { x: 0, y: 1 });
    assert_eq!(path[1], Point { x: 1, y: 1 });
    assert_eq!(path[2], Point { x: 2, y: 1 });
    assert_eq!(path[3], Point { x: 2, y: 2 });
}

#[test]
fn adjacent_cells_order_and_edges() {
    let maze = grid(&["1_", "_F"]);
    let corner = get_adjacent_cells(&Point { x: 0, y: 0 }, &maze, 2, 2);
    assert_eq!(corner, vec![Point { x: 0, y: 1 }, Point { x: 1, y: 0 }]);
    let other = get_adjacent_cells(&Point { x: 1, y: 1 }, &maze, 2, 2);
    assert_eq!(other, vec![Point { x: 1, y: 0 }, Point { x: 0, y: 1 }]);
    let walled = grid(&["1#", "#F"]);
    assert!(get_adjacent_cells(&Point { x: 0, y: 0 }, &walled, 2, 2).is_empty());
}

#[test]
fn scenario_a_path_is_valid() {
    let maze = scenario_a();
    let path = find_path(&maze, 5, 5).unwrap();
    assert!(is_valid_path(&maze, &path));
    assert_eq!(path[1], Point { x: 1, y: 1 });
    assert_eq!(path[4], Point { x: 3, y: 2 });
}

#[test]
fn shortest_among_several_routes() {
    let maze = grid(&["1___", "_##_", "___F"]);
    let path = find_path(&maze, 4, 3).unwrap();
    assert_eq!(path.len(), 6);
    assert!(is_valid_path(&maze, &path));
    assert_eq!(path[0], Point { x: 0, y: 0 });
    assert_eq!(path[5], Point { x: 3, y: 2 });
}

#[test]
fn open_room_path_has_manhattan_length() {
    let maze = grid(&["1____", "_____", "_____", "____F"]);
    let path = find_path(&maze, 5, 4).unwrap();
    assert_eq!(path.len(), 8);
    assert!(is_valid_path(&maze, &path));
}

#[test]
fn start_next_to_goal() {
    let maze = grid(&["1F"]);
    let path = find_path(&maze, 2, 1).unwrap();
    assert_eq!(path, vec![Point { x: 0, y: 0 }, Point { x: 1, y: 0 }]);
}

#[test]
fn missing_start_gives_no_path() {
    let maze = grid(&["__", "_F"]);
    assert_eq!(find_start_end(&maze, 2, 2), None);
    assert_eq!(find_path(&maze, 2, 2), None);
}

#[test]
fn missing_goal_gives_no_path() {
    let maze = grid(&["1_", "__"]);
    assert_eq!(find_start_end(&maze, 2, 2), None);
    assert_eq!(find_path(&maze, 2, 2), None);
}

#[test]
fn enclosed_goal_gives_no_path() {
    let maze = grid(&["1_#F"]);
    assert_eq!(find_path(&maze, 4, 1), None);
}

#[test]
fn duplicate_markers_first_in_scan_wins() {
    let maze = grid(&["_F1", "1__", "F__"]);
    let (start, end) = find_start_end(&maze, 3, 3).unwrap();
    assert_eq!(start, Point { x: 2, y: 0 });
    assert_eq!(end, Point { x: 1, y: 0 });
    let path = find_path(&maze, 3, 3).unwrap();
    assert_eq!(path, vec![Point { x: 2, y: 0 }, Point { x: 1, y: 0 }]);
}

#[test]
fn search_is_deterministic() {
    let maze = grid(&["1___", "____", "___F"]);
    let first = find_path(&maze, 4, 3);
    let second = find_path(&maze, 4, 3);
    assert!(first.is_some());
    assert_eq!(first, second);
}

#[test]
fn single_cell_grid_without_goal() {
    let maze = grid(&["1"]);
    assert_eq!(find_path(&maze, 1, 1), None);
}

#[test]
fn reconstruct_path_at_start() {
    let parent: Vec<Vec<Option<Point>>> = vec![vec![None; 2]; 2];
    let path = reconstruct_path(&parent, Point { x: 1, y: 1 }, Point { x: 1, y: 1 });
    assert_eq!(path, vec![Point { x: 1, y: 1 }]);
}
