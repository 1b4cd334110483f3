use maze_path::{
    build_maze, divide_maze, divide_maze_from, generate_maze, lay_wall, parse_maze, place_markers,
    render_maze, Point,
};

#[test]
fn generated_maze_shape() {
    for &(w, h) in &[(2usize, 2usize), (3, 3), (7, 9), (20, 20), (15, 4)] {
        let maze = generate_maze(w, h);
        assert_eq!(maze.len(), h);
        for (y, row) in maze.iter().enumerate() {
            assert_eq!(row.len(), w);
            for (x, &c) in row.iter().enumerate() {
                assert!(matches!(c, '#' | '_' | '1' | 'F'));
                if x == 0 || y == 0 || x == w - 1 || y == h - 1 {
                    assert_eq!(c, '#');
                }
            }
        }
        let text = render_maze(&maze, w, h);
        assert_eq!(parse_maze(&text).unwrap().0, maze);
    }
}

#[test]
fn generated_maze_places_start_and_goal() {
    let maze = generate_maze(20, 20);
    let starts = maze.iter().flatten().filter(|&&c| c == '1').count();
    let goals = maze.iter().flatten().filter(|&&c| c == 'F').count();
    assert_eq!(starts, 1);
    assert_eq!(goals, 1);
}

#[test]
fn division_keeps_outside_cells() {
    let mut maze = vec![vec!['_'; 8]; 8];
    divide_maze(&mut maze, 2, 2, 4, 4);
    for y in 0..8 {
        for x in 0..8 {
            if !(2..6).contains(&x) || !(2..6).contains(&y) {
                assert_eq!(maze[y][x], '_');
            }
        }
    }
    assert!(maze.iter().flatten().any(|&c| c == '#'));
}

#[test]
fn lay_wall_row_and_column() {
    let mut maze = vec![vec!['_'; 5]; 4];
    lay_wall(&mut maze, 1, 1, 3, 2, true, 1, 0);
    assert_eq!(maze[2], vec!['_', '_', '#', '#', '_']);
    assert!(maze.iter().enumerate().all(|(y, row)| y == 2 || row.iter().all(|&c| c == '_')));

    let mut maze = vec![vec!['_'; 4]; 4];
    lay_wall(&mut maze, 0, 0, 4, 4, false, 2, 3);
    for y in 0..4 {
        assert_eq!(maze[y][2], if y == 3 { '_' } else { '#' });
        assert_eq!(maze[y][0], '_');
    }
}

#[test]
fn division_of_thin_region_changes_nothing() {
    let mut maze = vec![vec!['_'; 3]; 3];
    divide_maze(&mut maze, 0, 0, 1, 3);
    divide_maze(&mut maze, 0, 0, 3, 1);
    divide_maze(&mut maze, 50, 50, 0, 9);
    assert_eq!(maze, vec![vec!['_'; 3]; 3]);
}

#[test]
fn division_leaves_a_gap() {
    for _ in 0..20 {
        let mut maze = vec![vec!['_'; 2]; 2];
        divide_maze(&mut maze, 0, 0, 2, 2);
        let walls = maze.iter().flatten().filter(|&&c| c == '#').count();
        assert_eq!(walls, 1);
    }
}

#[test]
fn tiny_maze_has_no_markers() {
    let maze = generate_maze(3, 3);
    assert_eq!(maze, vec![vec!['#'; 3], vec!['#', '_', '#'], vec!['#'; 3]]);
}

#[test]
fn division_from_given_draws() {
    let mut maze = vec![vec!['_'; 5]; 5];
    let next = divide_maze_from(&mut maze, 0, 0, 3, 2, &vec![1, 0, 7], 0);
    assert_eq!(next, 2);
    let mut expected = vec![vec!['_'; 5]; 5];
    expected[1][1] = '#';
    assert_eq!(maze, expected);
}

#[test]
fn equal_draws_give_equal_mazes() {
    let draws: Vec<usize> = (0..200).map(|i| (i * 7919 + 13) % 101).collect();
    let a = build_maze(12, 9, &draws);
    let b = build_maze(12, 9, &draws);
    assert_eq!(a, b);
}

#[test]
fn build_with_no_draws() {
    let maze = build_maze(4, 4, &vec![]);
    let expected: Vec<Vec<char>> =
        ["####", "#_##", "#__#", "####"].iter().map(|r| r.chars().collect()).collect();
    assert_eq!(maze, expected);
}

#[test]
fn markers_on_first_two_cells() {
    let mut maze = vec![vec!['_'; 3]; 2];
    place_markers(&mut maze, &vec![Point { x: 2, y: 1 }, Point { x: 0, y: 0 }, Point { x: 1, y: 1 }]);
    assert_eq!(maze, vec![vec!['F', '_', '_'], vec!['_', '_', '1']]);
    let mut lone = vec![vec!['_'; 2]; 2];
    place_markers(&mut lone, &vec![Point { x: 1, y: 1 }]);
    assert_eq!(lone, vec![vec!['_'; 2]; 2]);
}
