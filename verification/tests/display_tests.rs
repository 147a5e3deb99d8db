use maze::display::{Display, BLOCK_CHAR, EMPTY_CHAR, POINT_CHAR};
use maze::geometry::{Direction, DrawError, Position, Rectangle, Size, Vector};
use maze::maze::Maze;

fn canvas_string(d: &Display) -> String {
    let mut out = String::new();
    for y in 0..d.size.1 {
        for x in 0..d.size.0 {
            out.push(d.get_pixel(Position(x, y)));
        }
        out.push('\n');
    }
    out
}

#[test]
fn draw_line_ascending_and_descending_match() {
    // same physical segment, both construction orders
    let a = Position(1, 2);
    let b = Position(4, 2);
    let v1 = Vector::new_from_points(a, b).unwrap();
    let v2 = Vector::new_from_points(b, a).unwrap();
    let mut d1 = Display::new(Position(0, 0), Size(6, 5));
    let mut d2 = Display::new(Position(0, 0), Size(6, 5));
    d1.draw_line(v1, POINT_CHAR);
    d2.draw_line(v2, POINT_CHAR);
    assert_eq!(canvas_string(&d1), canvas_string(&d2));
    // and vertically
    let c = Position(3, 0);
    let e = Position(3, 4);
    let v3 = Vector::new_from_points(c, e).unwrap();
    let v4 = Vector::new_from_points(e, c).unwrap();
    let mut d3 = Display::new(Position(0, 0), Size(6, 5));
    let mut d4 = Display::new(Position(0, 0), Size(6, 5));
    d3.draw_line(v3, BLOCK_CHAR);
    d4.draw_line(v4, BLOCK_CHAR);
    assert_eq!(canvas_string(&d3), canvas_string(&d4));
}

#[test]
fn draw_line_covers_exact_cells() {
    let mut d = Display::new(Position(0, 0), Size(5, 3));
    d.draw_line(Vector::new(Position(1, 1), Direction::East, 3), BLOCK_CHAR);
    assert_eq!(canvas_string(&d), "     \n \u{2588}\u{2588}\u{2588} \n     \n");
}

#[test]
fn vector_from_points_requires_axis_alignment() {
    assert_eq!(
        Vector::new_from_points(Position(1, 1), Position(2, 2)),
        Err(DrawError::InvalidInput)
    );
    assert_eq!(
        Vector::new_from_points(Position(3, 3), Position(3, 3)),
        Err(DrawError::InvalidInput)
    );
    let v = Vector::new_from_points(Position(2, 5), Position(2, 1)).unwrap();
    assert_eq!(v.origin, Position(2, 5));
    assert_eq!(v.direction, Direction::North);
    assert_eq!(v.magnitude, 5);
    assert_eq!(v.get_end(), Position(2, 1));
    let w = Vector::new_from_points(Position(2, 1), Position(6, 1)).unwrap();
    assert_eq!(w.direction, Direction::East);
    assert_eq!(w.magnitude, 5);
    assert_eq!(w.get_end(), Position(6, 1));
}

#[test]
fn vector_get_end_walks_magnitude_minus_one() {
    assert_eq!(Vector::new(Position(2, 2), Direction::North, 3).get_end(), Position(2, 0));
    assert_eq!(Vector::new(Position(2, 2), Direction::South, 1).get_end(), Position(2, 2));
    assert_eq!(Vector::new(Position(2, 2), Direction::West, 2).get_end(), Position(1, 2));
}

#[test]
fn rectangle_decomposes_into_four_edges() {
    let r = Rectangle::new(Position(1, 2), Size(4, 3));
    let vs = r.get_vectors();
    assert_eq!(vs[0].origin, Position(1, 2));
    assert_eq!(vs[0].direction, Direction::East);
    assert_eq!(vs[0].magnitude, 4);
    assert_eq!(vs[1].origin, Position(1, 2));
    assert_eq!(vs[1].direction, Direction::South);
    assert_eq!(vs[1].magnitude, 3);
    assert_eq!(vs[2].origin, Position(1, 4));
    assert_eq!(vs[2].direction, Direction::East);
    assert_eq!(vs[3].origin, Position(4, 2));
    assert_eq!(vs[3].direction, Direction::South);
}

#[test]
fn draw_rect_draws_border_only() {
    let mut d = Display::new(Position(0, 0), Size(4, 3));
    d.draw_rect(Rectangle::new(Position(0, 0), Size(4, 3)), BLOCK_CHAR);
    let b = '\u{2588}';
    let expected = format!("{b}{b}{b}{b}\n{b}  {b}\n{b}{b}{b}{b}\n");
    assert_eq!(canvas_string(&d), expected);
}

#[test]
fn draw_maze_rejects_mismatched_canvas() {
    let maze = Maze::new(Size(2, 2), true);
    let mut d = Display::new(Position(0, 0), Size(4, 4));
    assert_eq!(d.draw_maze(&maze), Err(DrawError::InvalidInput));
    // nothing was drawn
    for y in 0..4 {
        for x in 0..4 {
            assert_eq!(d.get_pixel(Position(x, y)), EMPTY_CHAR);
        }
    }
    let mut ok = Display::new_from_maze(Position(0, 0), &maze);
    assert_eq!(ok.draw_maze(&maze), Ok(()));
}

#[test]
fn one_by_one_maze_renders_as_outer_rectangle() {
    let mut maze = Maze::new(Size(1, 1), true);
    maze.generate_maze();
    let mut d = Display::new_from_maze(Position(0, 0), &maze);
    d.draw_maze(&maze).unwrap();
    let b = '\u{2588}';
    assert_eq!(canvas_string(&d), format!("{b}{b}{b}\n{b} {b}\n{b}{b}{b}\n"));
}

#[test]
fn rendered_walls_reparse_to_the_wall_set() {
    // round trip: read each side back from the midpoint of its three-cell
    // wall segment and compare with the maze that was drawn
    let mut maze = Maze::new(Size(4, 3), true);
    maze.generate_maze();
    let mut d = Display::new_from_maze(Position(0, 0), &maze);
    d.draw_maze(&maze).unwrap();
    for y in 0..3usize {
        for x in 0..4usize {
            let tile = *maze.get_tile(Position(x, y)).unwrap();
            let cx = 2 * x + 1;
            let cy = 2 * y + 1;
            assert_eq!(d.get_pixel(Position(cx, cy - 1)) == BLOCK_CHAR, tile.up);
            assert_eq!(d.get_pixel(Position(cx, cy + 1)) == BLOCK_CHAR, tile.down);
            assert_eq!(d.get_pixel(Position(cx - 1, cy)) == BLOCK_CHAR, tile.left);
            assert_eq!(d.get_pixel(Position(cx + 1, cy)) == BLOCK_CHAR, tile.right);
            // cell centers are never walls
            assert_eq!(d.get_pixel(Position(cx, cy)), EMPTY_CHAR);
        }
    }
}

#[test]
fn draw_path_draws_segments_and_rejects_jumps() {
    let mut d = Display::new(Position(0, 0), Size(5, 5));
    let path = vec![Position(0, 0), Position(2, 0), Position(2, 2)];
    assert_eq!(d.draw_path(&path, POINT_CHAR), Ok(()));
    let p = '\u{2022}';
    let expected = format!("{p}{p}{p}  \n  {p}  \n  {p}  \n     \n     \n");
    assert_eq!(canvas_string(&d), expected);

    let mut d2 = Display::new(Position(0, 0), Size(5, 5));
    let bad = vec![Position(0, 0), Position(1, 0), Position(2, 2)];
    assert_eq!(d2.draw_path(&bad, POINT_CHAR), Err(DrawError::InvalidInput));
    // the aligned prefix was drawn before the failure
    assert_eq!(d2.get_pixel(Position(0, 0)), POINT_CHAR);
    assert_eq!(d2.get_pixel(Position(1, 0)), POINT_CHAR);
    assert_eq!(d2.get_pixel(Position(2, 2)), EMPTY_CHAR);
}

#[test]
fn draw_point_writes_one_cell() {
    let mut d = Display::new(Position(0, 0), Size(3, 3));
    d.draw_point(Position(1, 2), POINT_CHAR);
    assert_eq!(d.get_pixel(Position(1, 2)), POINT_CHAR);
    assert_eq!(d.get_pixel(Position(1, 1)), EMPTY_CHAR);
    assert_eq!(d.get_pixel(Position(2, 2)), EMPTY_CHAR);
}

#[test]
fn to_rows_applies_origin_offsets() {
    let mut d = Display::new(Position(2, 1), Size(2, 2));
    d.draw_point(Position(0, 0), BLOCK_CHAR);
    d.draw_point(Position(1, 1), POINT_CHAR);
    let rows = d.to_rows();
    assert_eq!(rows.len(), 3);
    assert_eq!(rows[0], Vec::<char>::new());
    assert_eq!(rows[1], vec![' ', ' ', '\u{2588}', ' ']);
    assert_eq!(rows[2], vec![' ', ' ', ' ', '\u{2022}']);
}

#[test]
fn full_run_renders_entrance_to_exit() {
    // the whole pipeline: generate, render, solve, draw the path, mark the
    // entrance and exit, as a program using the library would
    let mut maze = Maze::new(Size(4, 3), true);
    maze.generate_maze();
    let mut d = Display::new_from_maze(Position(1, 1), &maze);
    d.draw_maze(&maze).unwrap();
    let path: Vec<Position> = maze
        .solve_maze()
        .iter()
        .map(|p| Maze::to_display_pos(*p))
        .collect();
    d.draw_path(&path, POINT_CHAR).unwrap();
    d.draw_point(Position(1, 0), POINT_CHAR);
    let exit = Position(d.size.0 - 2, d.size.1 - 1);
    d.draw_point(exit, POINT_CHAR);
    assert_eq!(d.get_pixel(Position(1, 0)), POINT_CHAR);
    assert_eq!(d.get_pixel(Position(1, 1)), POINT_CHAR);
    assert_eq!(d.get_pixel(exit), POINT_CHAR);
    assert_eq!(d.get_pixel(Position(d.size.0 - 2, d.size.1 - 2)), POINT_CHAR);
}
