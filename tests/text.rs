use maze_path::{
    find_path, format_json, format_text, overlay_path, parse_maze, render_maze, MazeError, Point,
};

fn grid(rows: &[&str]) -> Vec<Vec<char>> {
    rows.iter().map(|r| r.chars().collect()).collect()
}

#[test]
fn test_parse_maze_file() {
    let content = "5\n5\n#####\n1___#\n###_#\n#___#\n#F###\n";
    let (maze, width, height) = parse_maze(content).unwrap();
    assert_eq!(width, 5);
    assert_eq!(height, 5);
    assert_eq!(maze[0][0], '#');
    assert_eq!(maze[1][0], '1');
    assert_eq!(maze[4][1], 'F');
}

#[test]
fn parse_then_search_scenario_a() {
    let content = "5\n5\n#####\n1___#\n###_#\n#___#\n#F###\n";
    let (maze, width, height) = parse_maze(content).unwrap();
    let path = find_path(&maze, width, height).unwrap();
    assert_eq!(path.len(), 9);
}

#[test]
fn parse_accepts_crlf_and_missing_final_newline() {
    let (maze, width, height) = parse_maze("3\r\n1\r\n1_F").unwrap();
    assert_eq!((width, height), (3, 1));
    assert_eq!(maze, vec![vec!['1', '_', 'F']]);
}

#[test]
fn parse_errors() {
    assert_eq!(parse_maze(""), Err(MazeError::MissingWidth));
    assert_eq!(parse_maze("x\n1\n_\n"), Err(MazeError::InvalidWidth));
    assert_eq!(parse_maze("5"), Err(MazeError::MissingHeight));
    assert_eq!(parse_maze("1\n-1\n_\n"), Err(MazeError::InvalidHeight));
    assert_eq!(parse_maze("1\n99999999999999999999999\n"), Err(MazeError::InvalidHeight));
    assert_eq!(parse_maze("2\n2\n__\n"), Err(MazeError::SizeMismatch));
    assert_eq!(parse_maze("2\n1\n___\n"), Err(MazeError::SizeMismatch));
    assert_eq!(parse_maze("2\n1\n__\n__\n"), Err(MazeError::SizeMismatch));
    assert_eq!(parse_maze("2\n1\n1x\n"), Err(MazeError::InvalidSymbol));
    assert_eq!(parse_maze("2\n2\n1_\n_?\n"), Err(MazeError::InvalidSymbol));
    assert_eq!(parse_maze("0\n0\n"), Err(MazeError::ZeroSize));
    assert_eq!(parse_maze("3\n0\n"), Err(MazeError::ZeroSize));
    assert_eq!(parse_maze("0\n1\n\n"), Err(MazeError::ZeroSize));
}

#[test]
fn json_of_path() {
    let path = vec![Point { x: 0, y: 1 }, Point { x: 9, y: 0 }];
    assert_eq!(format_json(&path), r#"{"path":[{"x":1,"y":2},{"x":10,"y":1}]}"#);
    assert_eq!(format_json(&vec![]), r#"{"path":[]}"#);
}

#[test]
fn text_of_path() {
    let path = vec![Point { x: 0, y: 1 }, Point { x: 123, y: 4 }];
    assert_eq!(format_text(&path), "x:1, y:2\nx:124, y:5\n");
}

#[test]
fn overlay_marks_interior_only() {
    let maze = grid(&["1__", "#_#", "__F"]);
    let path = find_path(&maze, 3, 3).unwrap();
    let drawn = overlay_path(&maze, &path);
    assert_eq!(drawn, grid(&["1*_", "#*#", "_*F"]));
}

#[test]
fn maze_file_text() {
    let maze = grid(&["#####", "1___#", "#F###"]);
    let text = render_maze(&maze, 5, 3);
    assert_eq!(text, "5\n3\n#####\n1___#\n#F###\n");
    let (back, w, h) = parse_maze(&text).unwrap();
    assert_eq!((back, w, h), (maze, 5, 3));
}
