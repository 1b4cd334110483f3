//! Shortest paths through a rectangular maze of wall and open cells: the
//! maze model, its text format, breadth-first search between the start and
//! goal cells, the text forms of a result, and random maze generation.

pub mod generate;
pub mod grid;
pub mod loader;
pub mod render;
pub mod search;

pub use generate::{
    build_maze, divide_maze, divide_maze_from, generate_maze, lay_wall, place_markers,
};
pub use grid::Point;
pub use loader::{parse_maze, MazeError};
pub use render::{format_json, format_text, overlay_path, render_maze};
pub use search::{find_path, find_start_end, get_adjacent_cells, reconstruct_path};
