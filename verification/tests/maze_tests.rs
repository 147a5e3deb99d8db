use maze::geometry::{all_directions, Axis, Direction, Position, Size};
use maze::maze::{Maze, Tile};

fn open_neighbors(m: &Maze, x: usize, y: usize) -> Vec<(usize, usize)> {
    let mut out = Vec::new();
    let tile = *m.get_tile(Position(x, y)).unwrap();
    if !tile.up && y > 0 {
        out.push((x, y - 1));
    }
    if !tile.right && x + 1 < m.size.0 {
        out.push((x + 1, y));
    }
    if !tile.down && y + 1 < m.size.1 {
        out.push((x, y + 1));
    }
    if !tile.left && x > 0 {
        out.push((x - 1, y));
    }
    out
}

/// Flood fill over open sides from (0, 0); returns how many cells were
/// reached, visiting each at most once.
fn flood_fill_count(m: &Maze) -> usize {
    let w = m.size.0;
    let h = m.size.1;
    let mut visited = vec![false; w * h];
    let mut stack = vec![(0usize, 0usize)];
    visited[0] = true;
    let mut count = 1;
    while let Some((x, y)) = stack.pop() {
        for (nx, ny) in open_neighbors(m, x, y) {
            if !visited[ny * w + nx] {
                visited[ny * w + nx] = true;
                count += 1;
                stack.push((nx, ny));
            }
        }
    }
    count
}

/// The number of open wall pairs, counted once per undirected connection.
fn open_pair_count(m: &Maze) -> usize {
    let w = m.size.0;
    let h = m.size.1;
    let mut count = 0;
    for y in 0..h {
        for x in 0..w {
            let tile = *m.get_tile(Position(x, y)).unwrap();
            if x + 1 < w && !tile.right {
                count += 1;
            }
            if y + 1 < h && !tile.down {
                count += 1;
            }
        }
    }
    count
}

fn assert_walls_symmetric(m: &Maze) {
    let w = m.size.0;
    let h = m.size.1;
    for y in 0..h {
        for x in 0..w {
            let tile = *m.get_tile(Position(x, y)).unwrap();
            // boundary sides stay walled
            if x == 0 {
                assert!(tile.left);
            }
            if y == 0 {
                assert!(tile.up);
            }
            if x == w - 1 {
                assert!(tile.right);
            }
            if y == h - 1 {
                assert!(tile.down);
            }
            // interior sides agree with the facing side
            if x + 1 < w {
                let east = *m.get_tile(Position(x + 1, y)).unwrap();
                assert_eq!(tile.right, east.left);
            }
            if y + 1 < h {
                let south = *m.get_tile(Position(x, y + 1)).unwrap();
                assert_eq!(tile.down, south.up);
            }
        }
    }
}

#[test]
fn generated_maze_is_spanning_tree() {
    // W*H - 1 wall pairs removed, flood fill reaches all cells: together
    // with the edge count this is exactly the tree property (no cycles).
    let mut m = Maze::new(Size(5, 4), true);
    m.generate_maze();
    assert_walls_symmetric(&m);
    assert_eq!(flood_fill_count(&m), 20);
    assert_eq!(open_pair_count(&m), 19);
}

#[test]
fn generated_maze_has_no_cycles() {
    // a connected graph on n vertices with n - 1 edges is acyclic; check
    // both counts on several sizes
    for (w, h) in [(1, 1), (2, 1), (1, 3), (4, 4), (7, 3)] {
        let mut m = Maze::new(Size(w, h), true);
        m.generate_maze();
        assert_eq!(flood_fill_count(&m), w * h);
        assert_eq!(open_pair_count(&m), w * h - 1);
    }
}

#[test]
fn solver_returns_simple_path_to_exit() {
    let mut m = Maze::new(Size(6, 5), true);
    m.generate_maze();
    let path = m.solve_maze();
    assert_eq!(path[0], Position(0, 0));
    assert_eq!(*path.last().unwrap(), Position(5, 4));
    for i in 0..path.len() {
        for j in i + 1..path.len() {
            assert_ne!(path[i], path[j]);
        }
    }
    for pair in path.windows(2) {
        let (a, b) = (pair[0], pair[1]);
        let dx = (a.0 as isize - b.0 as isize).abs();
        let dy = (a.1 as isize - b.1 as isize).abs();
        assert_eq!(dx + dy, 1, "consecutive positions must be unit distance");
        let tile = *m.get_tile(a).unwrap();
        let open = if b.0 == a.0 + 1 {
            !tile.right
        } else if a.0 == b.0 + 1 {
            !tile.left
        } else if b.1 == a.1 + 1 {
            !tile.down
        } else {
            !tile.up
        };
        assert!(open, "no wall may separate consecutive path positions");
    }
}

#[test]
fn one_by_one_maze_is_trivial() {
    let mut m = Maze::new(Size(1, 1), true);
    m.generate_maze();
    let tile = *m.get_tile(Position(0, 0)).unwrap();
    assert!(tile.up && tile.right && tile.down && tile.left);
    assert_eq!(open_pair_count(&m), 0);
    assert_eq!(m.solve_maze(), vec![Position(0, 0)]);
}

#[test]
fn two_by_one_maze_opens_its_single_wall() {
    let mut m = Maze::new(Size(2, 1), true);
    m.generate_maze();
    let left = *m.get_tile(Position(0, 0)).unwrap();
    let right = *m.get_tile(Position(1, 0)).unwrap();
    assert!(!left.right, "the only internal wall must be carved");
    assert!(!right.left);
    assert!(left.up && left.down && left.left);
    assert!(right.up && right.down && right.right);
    assert_eq!(m.solve_maze(), vec![Position(0, 0), Position(1, 0)]);
}

#[test]
fn new_maze_is_fully_walled_or_fully_open() {
    let walled = Maze::new(Size(3, 2), true);
    for y in 0..2 {
        for x in 0..3 {
            let t = *walled.get_tile(Position(x, y)).unwrap();
            assert!(t.up && t.right && t.down && t.left);
        }
    }
    let open = Maze::new(Size(3, 2), false);
    let t = *open.get_tile(Position(2, 1)).unwrap();
    assert!(!t.up && !t.right && !t.down && !t.left);
}

#[test]
fn get_tile_out_of_bounds_is_none() {
    let m = Maze::new(Size(3, 2), true);
    assert!(m.get_tile(Position(3, 0)).is_none());
    assert!(m.get_tile(Position(0, 2)).is_none());
    assert!(m.get_tile(Position(2, 1)).is_some());
}

#[test]
fn tile_set_side_touches_one_side() {
    let mut t = Tile::new(true);
    t.set_side(Direction::East, false);
    assert!(t.up && !t.right && t.down && t.left);
    t.set_side(Direction::North, false);
    assert!(!t.up && !t.right && t.down && t.left);
    let sides = t.get_sides();
    assert_eq!(sides[0], (Direction::North, false));
    assert_eq!(sides[1], (Direction::East, false));
    assert_eq!(sides[2], (Direction::South, true));
    assert_eq!(sides[3], (Direction::West, true));
}

#[test]
fn all_directions_lists_the_four_in_order() {
    assert_eq!(
        all_directions(),
        [Direction::North, Direction::East, Direction::South, Direction::West]
    );
}

#[test]
fn direction_axes_opposites_perpendiculars() {
    assert_eq!(Direction::North.get_axis(), Axis::Y);
    assert_eq!(Direction::South.get_axis(), Axis::Y);
    assert_eq!(Direction::East.get_axis(), Axis::X);
    assert_eq!(Direction::West.get_axis(), Axis::X);
    assert_eq!(Direction::North.get_opposite(), Direction::South);
    assert_eq!(Direction::South.get_opposite(), Direction::North);
    assert_eq!(Direction::East.get_opposite(), Direction::West);
    assert_eq!(Direction::West.get_opposite(), Direction::East);
    assert_eq!(Direction::East.get_perpendiculars(), [Direction::North, Direction::South]);
    assert_eq!(Direction::North.get_perpendiculars(), [Direction::East, Direction::West]);
}

#[test]
fn position_and_size_conversions() {
    let p = Position(3, 7);
    assert_eq!(p.as_array(), [3, 7]);
    assert_eq!(p.as_rev_array(), [7, 3]);
    assert_eq!(Position::from_array([4, 5]), Position(4, 5));
    assert_eq!(p.translate(Direction::North), Position(3, 6));
    assert_eq!(p.translate(Direction::East), Position(4, 7));
    assert_eq!(p.translate(Direction::South), Position(3, 8));
    assert_eq!(p.translate(Direction::West), Position(2, 7));
    let s = Size(10, 20);
    assert_eq!(s.as_array(), [10, 20]);
    assert_eq!(s.as_rev_array(), [20, 10]);
    assert_eq!(Size::from_array([2, 9]), Size(2, 9));
    assert_eq!(s.get_max_pos(), Position(9, 19));
    assert_eq!(Position::from_size(s), Position(10, 20));
}

#[test]
fn to_display_pos_doubles_and_offsets() {
    assert_eq!(Maze::to_display_pos(Position(0, 0)), Position(1, 1));
    assert_eq!(Maze::to_display_pos(Position(2, 3)), Position(5, 7));
}
