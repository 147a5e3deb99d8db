//! The character canvas: a flat row-major pixel buffer with line- and
//! rectangle-drawing primitives, onto which maze walls and the solution
//! path are rasterized.

use vstd::prelude::*;
use crate::geometry::{
    Axis,
    Direction,
    DrawError,
    Position,
    Rectangle,
    Size,
    Vector,
    aligned_distinct,
    between,
    manhattan,
    on_border,
    points_direction,
};
use crate::maze::Maze;
use crate::geometry::{lemma_two_point_vectors_cover_same, neighbor};

verus! {

/// The glyph walls and the canvas border are drawn with.
pub const BLOCK_CHAR: char = '█';

/// The glyph the solution path and the entrance/exit marks are drawn with.
pub const POINT_CHAR: char = '•';

/// The glyph an untouched canvas cell holds.
pub const EMPTY_CHAR: char = ' ';

/// A drawing surface: an origin offset used as indentation when printing,
/// plus a flat row-major character buffer of the given extents.
pub struct Display {
    pub origin: Position,
    pub pixels: Vec<char>,
    pub size: Size,
}

impl Display {
    pub open spec fn dwidth(self) -> int {
        self.size.0 as int
    }

    pub open spec fn dheight(self) -> int {
        self.size.1 as int
    }

    pub open spec fn in_canvas(self, c: (int, int)) -> bool {
        0 <= c.0 < self.dwidth() && 0 <= c.1 < self.dheight()
    }

    pub open spec fn idx_of(self, c: (int, int)) -> int {
        c.1 * self.dwidth() + c.0
    }

    /// The character at canvas coordinate `c`.
    pub open spec fn pix(self, c: (int, int)) -> char {
        self.pixels@[self.idx_of(c)]
    }

    /// Positive extents and one character per canvas cell.
    pub open spec fn wf(self) -> bool {
        &&& self.dwidth() >= 1
        &&& self.dheight() >= 1
        &&& self.pixels@.len() == self.dwidth() * self.dheight()
    }

    pub proof fn lemma_idx_bounds(self, c: (int, int))
        requires
            self.wf(),
            self.in_canvas(c),
        ensures
            0 <= self.idx_of(c) < self.pixels@.len(),
    {
        assert(0 <= c.1 * self.dwidth() + c.0 < self.dwidth() * self.dheight())
            by (nonlinear_arith)
            requires
                0 <= c.0 < self.dwidth(),
                0 <= c.1 < self.dheight(),
        ;
    }

    pub proof fn lemma_idx_injective(self, a: (int, int), b: (int, int))
        requires
            self.wf(),
            self.in_canvas(a),
            self.in_canvas(b),
            self.idx_of(a) == self.idx_of(b),
        ensures
            a == b,
    {
        assert(a.0 == b.0 && a.1 == b.1) by (nonlinear_arith)
            requires
                0 <= a.0 < self.dwidth(),
                0 <= b.0 < self.dwidth(),
                a.1 * self.dwidth() + a.0 == b.1 * self.dwidth() + b.0,
        ;
    }

    /// The flat index of an in-canvas coordinate.
    fn index_of(&self, pos: Position) -> (i: usize)
        requires
            self.wf(),
            self.in_canvas(pos@),
        ensures
            i == self.idx_of(pos@),
            i < self.pixels@.len(),
    {
        proof {
            self.lemma_idx_bounds(pos@);
            vstd::std_specs::vec::axiom_spec_len(&self.pixels);
        }
        pos.1 * self.size.0 + pos.0
    }

    /// A blank canvas of the given extents, every cell holding the empty
    /// glyph.
    pub fn new(origin: Position, size: Size) -> (d: Display)
        requires
            size.0 >= 1,
            size.1 >= 1,
            (size.0 as int) * (size.1 as int) <= usize::MAX,
        ensures
            d.wf(),
            d.origin == origin,
            d.size == size,
            forall|c: (int, int)| d.in_canvas(c) ==> #[trigger] d.pix(c) == EMPTY_CHAR,
    {
        let n = size.0 * size.1;
        let mut pixels: Vec<char> = Vec::new();
        let mut i: usize = 0;
        while i < n
            invariant
                0 <= i <= n,
                pixels@.len() == i,
                forall|j: int| 0 <= j < i ==> #[trigger] pixels@[j] == EMPTY_CHAR,
            decreases n - i,
        {
            pixels.push(EMPTY_CHAR);
            i = i + 1;
        }
        let d = Display { origin, pixels, size };
        proof {
            assert forall|c: (int, int)| d.in_canvas(c) implies #[trigger] d.pix(c)
                == EMPTY_CHAR by {
                d.lemma_idx_bounds(c);
            }
        }
        d
    }

    /// A blank canvas sized for rendering `maze`: each axis holds two
    /// canvas cells per maze cell plus one, leaving room for wall lines.
    pub fn new_from_maze(origin: Position, maze: &Maze) -> (d: Display)
        requires
            maze.wf(),
        ensures
            d.wf(),
            d.origin == origin,
            d.dwidth() == 2 * maze.width() + 1,
            d.dheight() == 2 * maze.height() + 1,
            forall|c: (int, int)| d.in_canvas(c) ==> #[trigger] d.pix(c) == EMPTY_CHAR,
    {
        proof {
            assert(2 * maze.width() + 1 <= usize::MAX && 2 * maze.height() + 1 <= usize::MAX)
                by (nonlinear_arith)
                requires
                    maze.width() >= 1,
                    maze.height() >= 1,
                    (2 * maze.width() + 1) * (2 * maze.height() + 1) <= usize::MAX,
            ;
        }
        let size = Size(maze.size.0 * 2 + 1, maze.size.1 * 2 + 1);
        Self::new(origin, size)
    }

    /// The character at `pos`.
    pub fn get_pixel(&self, pos: Position) -> (ch: char)
        requires
            self.wf(),
            self.in_canvas(pos@),
        ensures
            ch == self.pix(pos@),
    {
        let i = self.index_of(pos);
        self.pixels[i]
    }

    /// Write `symbol` into the single canvas cell at `pos`.
    pub fn draw_point(&mut self, pos: Position, symbol: char)
        requires
            old(self).wf(),
            old(self).in_canvas(pos@),
        ensures
            final(self).wf(),
            final(self).origin == old(self).origin,
            final(self).size == old(self).size,
            final(self).pix(pos@) == symbol,
            forall|c: (int, int)|
                old(self).in_canvas(c) && c != pos@ ==> #[trigger] final(self).pix(c) == old(
                    self,
                ).pix(c),
    {
        let i = self.index_of(pos);
        self.pixels[i] = symbol;
        proof {
            assert forall|c: (int, int)| old(self).in_canvas(c) && c != pos@ implies #[trigger]
                final(self).pix(c) == old(self).pix(c) by {
                old(self).lemma_idx_bounds(c);
                if old(self).idx_of(c) == old(self).idx_of(pos@) {
                    old(self).lemma_idx_injective(c, pos@);
                }
            }
        }
    }

    /// Write `symbol` into every canvas cell along the segment, inclusive
    /// of both endpoints, whichever endpoint has the larger coordinate.
    pub fn draw_line(&mut self, line: Vector, symbol: char)
        requires
            old(self).wf(),
            line.magnitude >= 1,
            old(self).in_canvas(line.origin@),
            old(self).in_canvas(line.end_of()),
        ensures
            final(self).wf(),
            final(self).origin == old(self).origin,
            final(self).size == old(self).size,
            forall|c: (int, int)|
                old(self).in_canvas(c) ==> #[trigger] final(self).pix(c) == (if line.covers(c) {
                    symbol
                } else {
                    old(self).pix(c)
                }),
    {
        let end = line.get_end();
        match line.direction.get_axis() {
            Axis::X => {
                let y = line.origin.1;
                let lo = if line.origin.0 <= end.0 {
                    line.origin.0
                } else {
                    end.0
                };
                let hi = if line.origin.0 <= end.0 {
                    end.0
                } else {
                    line.origin.0
                };
                let mut x = lo;
                while x <= hi
                    invariant
                        self.wf(),
                        self.origin == old(self).origin,
                        self.size == old(self).size,
                        lo <= x <= hi + 1,
                        hi < self.dwidth(),
                        0 <= lo,
                        0 <= y < self.dheight(),
                        line.direction.axis() == Axis::X,
                        line.origin@.1 == y,
                        line.end_of().1 == y,
                        lo == (if line.origin@.0 <= line.end_of().0 {
                            line.origin@.0
                        } else {
                            line.end_of().0
                        }),
                        hi == (if line.origin@.0 <= line.end_of().0 {
                            line.end_of().0
                        } else {
                            line.origin@.0
                        }),
                        forall|c: (int, int)|
                            old(self).in_canvas(c) ==> #[trigger] self.pix(c) == (if line.covers(c)
                                && c.0 < x {
                                symbol
                            } else {
                                old(self).pix(c)
                            }),
                    decreases hi + 1 - x,
                {
                    let ghost prev = *self;
                    let i = self.index_of(Position(x, y));
                    self.pixels[i] = symbol;
                    proof {
                        assert(self.pix((x as int, y as int)) == symbol);
                        assert forall|c: (int, int)|
                            old(self).in_canvas(c) && c != (x as int, y as int) implies #[trigger]
                            self.pix(c) == prev.pix(c) by {
                            prev.lemma_idx_bounds(c);
                            if prev.idx_of(c) == prev.idx_of((x as int, y as int)) {
                                prev.lemma_idx_injective(c, (x as int, y as int));
                            }
                        }
                    }
                    x = x + 1;
                }
            },
            Axis::Y => {
                let x = line.origin.0;
                let lo = if line.origin.1 <= end.1 {
                    line.origin.1
                } else {
                    end.1
                };
                let hi = if line.origin.1 <= end.1 {
                    end.1
                } else {
                    line.origin.1
                };
                let mut y = lo;
                while y <= hi
                    invariant
                        self.wf(),
                        self.origin == old(self).origin,
                        self.size == old(self).size,
                        lo <= y <= hi + 1,
                        hi < self.dheight(),
                        0 <= lo,
                        0 <= x < self.dwidth(),
                        line.direction.axis() == Axis::Y,
                        line.origin@.0 == x,
                        line.end_of().0 == x,
                        lo == (if line.origin@.1 <= line.end_of().1 {
                            line.origin@.1
                        } else {
                            line.end_of().1
                        }),
                        hi == (if line.origin@.1 <= line.end_of().1 {
                            line.end_of().1
                        } else {
                            line.origin@.1
                        }),
                        forall|c: (int, int)|
                            old(self).in_canvas(c) ==> #[trigger] self.pix(c) == (if line.covers(c)
                                && c.1 < y {
                                symbol
                            } else {
                                old(self).pix(c)
                            }),
                    decreases hi + 1 - y,
                {
                    let ghost prev = *self;
                    let i = self.index_of(Position(x, y));
                    self.pixels[i] = symbol;
                    proof {
                        assert(self.pix((x as int, y as int)) == symbol);
                        assert forall|c: (int, int)|
                            old(self).in_canvas(c) && c != (x as int, y as int) implies #[trigger]
                            self.pix(c) == prev.pix(c) by {
                            prev.lemma_idx_bounds(c);
                            if prev.idx_of(c) == prev.idx_of((x as int, y as int)) {
                                prev.lemma_idx_injective(c, (x as int, y as int));
                            }
                        }
                    }
                    y = y + 1;
                }
            },
        }
    }
    /// Draw all four edges of the rectangle.
    pub fn draw_rect(&mut self, rectangle: Rectangle, symbol: char)
        requires
            old(self).wf(),
            rectangle.size.0 >= 1,
            rectangle.size.1 >= 1,
            rectangle.origin@.0 + rectangle.size@.0 <= old(self).dwidth(),
            rectangle.origin@.1 + rectangle.size@.1 <= old(self).dheight(),
        ensures
            final(self).wf(),
            final(self).origin == old(self).origin,
            final(self).size == old(self).size,
            forall|c: (int, int)|
                old(self).in_canvas(c) ==> #[trigger] final(self).pix(c) == (if on_border(
                    rectangle,
                    c,
                ) {
                    symbol
                } else {
                    old(self).pix(c)
                }),
    {
        let vectors = rectangle.get_vectors();
        let ghost d0 = *self;
        self.draw_line(vectors[0], symbol);
        self.draw_line(vectors[1], symbol);
        self.draw_line(vectors[2], symbol);
        self.draw_line(vectors[3], symbol);
        proof {
            assert forall|c: (int, int)| d0.in_canvas(c) implies #[trigger] self.pix(c) == (
            if on_border(rectangle, c) {
                symbol
            } else {
                d0.pix(c)
            }) by {
                assert(on_border(rectangle, c) == (vectors[0].covers(c) || vectors[1].covers(c)
                    || vectors[2].covers(c) || vectors[3].covers(c)));
            }
        }
    }
    /// Rasterize the maze onto this canvas: the outer border, then a
    /// three-cell wall segment for every walled side, centered on the
    /// midpoint between the cell and its neighbor in canvas coordinates.
    /// Fails, drawing nothing, when the canvas was not sized for this maze.
    #[verifier::spinoff_prover]
    #[verifier::rlimit(100)]
    pub fn draw_maze(&mut self, maze: &Maze) -> (r: Result<(), DrawError>)
        requires
            old(self).wf(),
            maze.wf(),
        ensures
            final(self).wf(),
            final(self).origin == old(self).origin,
            final(self).size == old(self).size,
            r is Ok <==> (old(self).dwidth() == 2 * maze.width() + 1 && old(self).dheight() == 2
                * maze.height() + 1),
            r is Err ==> final(self).pixels@ == old(self).pixels@,
            r is Ok ==> forall|c: (int, int)|
                old(self).in_canvas(c) ==> #[trigger] final(self).pix(c) == (if maze_pixel(
                    *maze,
                    c,
                ) {
                    BLOCK_CHAR
                } else {
                    old(self).pix(c)
                }),
    {
        proof {
            assert(2 * maze.width() + 1 <= usize::MAX && 2 * maze.height() + 1 <= usize::MAX)
                by (nonlinear_arith)
                requires
                    maze.width() >= 1,
                    maze.height() >= 1,
                    (2 * maze.width() + 1) * (2 * maze.height() + 1) <= usize::MAX,
            ;
        }
        let req_w = maze.size.0 * 2 + 1;
        let req_h = maze.size.1 * 2 + 1;
        if !(self.size.0 == req_w && self.size.1 == req_h) {
            return Err(DrawError::InvalidInput);
        }
        let ghost d0 = *self;
        self.draw_rect(Rectangle::new(Position::new(), self.size), BLOCK_CHAR);
        proof {
            assert forall|c: (int, int)| d0.in_canvas(c) implies #[trigger] self.pix(c) == (
            if maze_border(*maze, c) || drawn_up_to(*maze, c, 0, 0) {
                BLOCK_CHAR
            } else {
                d0.pix(c)
            }) by {
                if drawn_up_to(*maze, c, 0, 0) {
                    let (cell, dd): ((int, int), Direction) = choose|
                        cell: (int, int),
                        dd: Direction,
                    |
                        wall_segment_covers(*maze, cell, dd, c) && (cell.1 < 0 || (cell.1 == 0
                            && cell.0 < 0));
                    assert(false);
                }
            }
        }
        let mut y: usize = 0;
        while y < maze.size.1
            invariant
                self.wf(),
                self.origin == d0.origin,
                self.size == d0.size,
                maze.wf(),
                d0.wf(),
                d0.dwidth() == 2 * maze.width() + 1,
                d0.dheight() == 2 * maze.height() + 1,
                0 <= y <= maze.size.1,
                forall|c: (int, int)|
                    d0.in_canvas(c) ==> #[trigger] self.pix(c) == (if maze_border(*maze, c)
                        || drawn_up_to(*maze, c, y as int, 0) {
                        BLOCK_CHAR
                    } else {
                        d0.pix(c)
                    }),
            decreases maze.size.1 - y,
        {
            let mut x: usize = 0;
            while x < maze.size.0
                invariant
                    self.wf(),
                    self.origin == d0.origin,
                    self.size == d0.size,
                    maze.wf(),
                    d0.wf(),
                    d0.dwidth() == 2 * maze.width() + 1,
                    d0.dheight() == 2 * maze.height() + 1,
                    0 <= y < maze.size.1,
                    0 <= x <= maze.size.0,
                    forall|c: (int, int)|
                        d0.in_canvas(c) ==> #[trigger] self.pix(c) == (if maze_border(*maze, c)
                            || drawn_up_to(*maze, c, y as int, x as int) {
                            BLOCK_CHAR
                        } else {
                            d0.pix(c)
                        }),
                decreases maze.size.0 - x,
            {
                let i = maze.index_of(Position(x, y));
                let tile = maze.tiles[i];
                let dpos = Maze::to_display_pos(Position(x, y));
                let ghost cell = (x as int, y as int);
                let ghost dprev = *self;
                if tile.get_side(Direction::North) {
                    self.draw_line(
                        Vector::new(Position(dpos.0 + 1, dpos.1 - 1), Direction::West, 3),
                        BLOCK_CHAR,
                    );
                }
                if tile.get_side(Direction::East) {
                    self.draw_line(
                        Vector::new(Position(dpos.0 + 1, dpos.1 - 1), Direction::South, 3),
                        BLOCK_CHAR,
                    );
                }
                if tile.get_side(Direction::South) {
                    self.draw_line(
                        Vector::new(Position(dpos.0 + 1, dpos.1 + 1), Direction::West, 3),
                        BLOCK_CHAR,
                    );
                }
                if tile.get_side(Direction::West) {
                    self.draw_line(
                        Vector::new(Position(dpos.0 - 1, dpos.1 - 1), Direction::South, 3),
                        BLOCK_CHAR,
                    );
                }
                proof {
                    assert forall|c: (int, int)| d0.in_canvas(c) implies #[trigger] self.pix(c)
                        == (if maze_border(*maze, c) || drawn_up_to(
                        *maze,
                        c,
                        y as int,
                        x as int + 1,
                    ) {
                        BLOCK_CHAR
                    } else {
                        d0.pix(c)
                    }) by {
                        if wall_segment_covers(*maze, cell, Direction::North, c)
                            || wall_segment_covers(*maze, cell, Direction::East, c)
                            || wall_segment_covers(*maze, cell, Direction::South, c)
                            || wall_segment_covers(*maze, cell, Direction::West, c) {
                            assert(self.pix(c) == BLOCK_CHAR);
                            assert(drawn_up_to(*maze, c, y as int, x as int + 1));
                        } else {
                            assert(self.pix(c) == dprev.pix(c));
                            if drawn_up_to(*maze, c, y as int, x as int + 1) {
                                let (cell2, dd): ((int, int), Direction) = choose|
                                    cell2: (int, int),
                                    dd: Direction,
                                |
                                    wall_segment_covers(*maze, cell2, dd, c) && (cell2.1 < y as int
                                        || (cell2.1 == y as int && cell2.0 < x as int + 1));
                                assert(cell2 != cell);
                                assert(drawn_up_to(*maze, c, y as int, x as int));
                            } else {
                                if drawn_up_to(*maze, c, y as int, x as int) {
                                    let (cell2, dd): ((int, int), Direction) = choose|
                                        cell2: (int, int),
                                        dd: Direction,
                                    |
                                        wall_segment_covers(*maze, cell2, dd, c) && (cell2.1 < y
                                            as int || (cell2.1 == y as int && cell2.0 < x as int));
                                    assert(drawn_up_to(*maze, c, y as int, x as int + 1));
                                }
                            }
                        }
                    }
                }
                x = x + 1;
            }
            proof {
                assert forall|c: (int, int)|
                    #[trigger] drawn_up_to(*maze, c, y as int, maze.width()) == drawn_up_to(
                        *maze,
                        c,
                        y as int + 1,
                        0,
                    ) by {
                    if drawn_up_to(*maze, c, y as int, maze.width()) {
                        let (cell2, dd): ((int, int), Direction) = choose|
                            cell2: (int, int),
                            dd: Direction,
                        |
                            wall_segment_covers(*maze, cell2, dd, c) && (cell2.1 < y as int || (
                            cell2.1 == y as int && cell2.0 < maze.width()));
                        assert(drawn_up_to(*maze, c, y as int + 1, 0));
                    }
                    if drawn_up_to(*maze, c, y as int + 1, 0) {
                        let (cell2, dd): ((int, int), Direction) = choose|
                            cell2: (int, int),
                            dd: Direction,
                        |
                            wall_segment_covers(*maze, cell2, dd, c) && (cell2.1 < y as int + 1 || (
                            cell2.1 == y as int + 1 && cell2.0 < 0));
                        assert(drawn_up_to(*maze, c, y as int, maze.width()));
                    }
                }
            }
            y = y + 1;
        }
        proof {
            assert forall|c: (int, int)|
                #[trigger] drawn_up_to(*maze, c, maze.height(), 0) == (exists|
                    cell: (int, int),
                    d: Direction,
                |
                    wall_segment_covers(*maze, cell, d, c)) by {
                if drawn_up_to(*maze, c, maze.height(), 0) {
                    let (cell2, dd): ((int, int), Direction) = choose|
                        cell2: (int, int),
                        dd: Direction,
                    |
                        wall_segment_covers(*maze, cell2, dd, c) && (cell2.1 < maze.height() || (
                        cell2.1 == maze.height() && cell2.0 < 0));
                    assert(wall_segment_covers(*maze, cell2, dd, c));
                }
                if exists|cell: (int, int), d: Direction|
                    wall_segment_covers(*maze, cell, d, c) {
                    let (cell2, dd): ((int, int), Direction) = choose|
                        cell2: (int, int),
                        dd: Direction,
                    |
                        wall_segment_covers(*maze, cell2, dd, c);
                    assert(drawn_up_to(*maze, c, maze.height(), 0));
                }
            }
        }
        Ok(())
    }
}

impl Display {
    /// Draw the segment between each consecutive pair of path positions
    /// (already in canvas coordinates). Fails at the first pair that is not
    /// axis-aligned and distinct, leaving the earlier segments drawn.
    pub fn draw_path(&mut self, path: &Vec<Position>, symbol: char) -> (r: Result<(), DrawError>)
        requires
            old(self).wf(),
            forall|i: int| 0 <= i < path@.len() ==> old(self).in_canvas((#[trigger] path@[i])@),
        ensures
            final(self).wf(),
            final(self).origin == old(self).origin,
            final(self).size == old(self).size,
            r is Ok <==> (forall|i: int|
                0 <= i < path@.len() - 1 ==> aligned_distinct(
                    (#[trigger] path@[i])@,
                    path@[i + 1]@,
                )),
            r is Ok ==> forall|c: (int, int)|
                old(self).in_canvas(c) ==> #[trigger] final(self).pix(c) == (if path_covers(
                    path@,
                    path@.len() - 1,
                    c,
                ) {
                    symbol
                } else {
                    old(self).pix(c)
                }),
            r is Err ==> exists|k: int|
                #[trigger] path_error_state(*old(self), *final(self), path@, symbol, k),
    {
        proof {
            vstd::std_specs::vec::axiom_spec_len(&self.pixels);
            vstd::std_specs::vec::axiom_spec_len(path);
            assert(self.dwidth() + self.dheight() - 1 <= self.dwidth() * self.dheight())
                by (nonlinear_arith)
                requires
                    self.dwidth() >= 1,
                    self.dheight() >= 1,
            ;
        }
        let mut i: usize = 0;
        while i + 1 < path.len()
            invariant
                self.wf(),
                self.origin == old(self).origin,
                self.size == old(self).size,
                self.pixels@.len() <= usize::MAX,
                path@.len() <= usize::MAX,
                self.dwidth() + self.dheight() - 1 <= self.pixels@.len(),
                forall|j: int| 0 <= j < path@.len() ==> old(self).in_canvas((#[trigger] path@[j])@),
                0 <= i,
                path@.len() >= 1 ==> i <= path@.len() - 1,
                path@.len() == 0 ==> i == 0,
                forall|j: int|
                    0 <= j < i ==> aligned_distinct((#[trigger] path@[j])@, path@[j + 1]@),
                forall|c: (int, int)|
                    old(self).in_canvas(c) ==> #[trigger] self.pix(c) == (if path_covers(
                        path@,
                        i as int,
                        c,
                    ) {
                        symbol
                    } else {
                        old(self).pix(c)
                    }),
            decreases path@.len() - i,
        {
            let a = path[i];
            let b = path[i + 1];
            let ghost dprev = *self;
            let v = match Vector::new_from_points(a, b) {
                Ok(v) => v,
                Err(e) => {
                    proof {
                        assert(path_error_state(*old(self), *self, path@, symbol, i as int));
                    }
                    return Err(e);
                },
            };
            self.draw_line(v, symbol);
            proof {
                assert forall|c: (int, int)| old(self).in_canvas(c) implies #[trigger] self.pix(c)
                    == (if path_covers(path@, i as int + 1, c) {
                    symbol
                } else {
                    old(self).pix(c)
                }) by {
                    assert(v.covers(c) == seg_between(a@, b@, c));
                    if v.covers(c) {
                        assert(seg_between(path@[i as int]@, path@[i as int + 1]@, c));
                        assert(path_covers(path@, i as int + 1, c));
                    } else if path_covers(path@, i as int, c) {
                        let j = choose|j: int|
                            0 <= j < i as int && #[trigger] seg_between(
                                path@[j]@,
                                path@[j + 1]@,
                                c,
                            );
                        assert(path_covers(path@, i as int + 1, c));
                    } else if path_covers(path@, i as int + 1, c) {
                        let j = choose|j: int|
                            0 <= j < i as int + 1 && #[trigger] seg_between(
                                path@[j]@,
                                path@[j + 1]@,
                                c,
                            );
                        assert(j == i as int);
                        assert(false);
                    }
                }
            }
            i = i + 1;
        }
        proof {
            if path@.len() == 0 {
                assert forall|c: (int, int)| old(self).in_canvas(c) implies #[trigger] self.pix(c)
                    == (if path_covers(path@, path@.len() - 1, c) {
                    symbol
                } else {
                    old(self).pix(c)
                }) by {
                    if path_covers(path@, path@.len() - 1, c) {
                        let j = choose|j: int|
                            0 <= j < path@.len() - 1 && #[trigger] seg_between(
                                path@[j]@,
                                path@[j + 1]@,
                                c,
                            );
                    }
                    if path_covers(path@, 0, c) {
                        let j = choose|j: int|
                            0 <= j < 0 && #[trigger] seg_between(path@[j]@, path@[j + 1]@, c);
                    }
                }
            }
        }
        Ok(())
    }
}

impl Display {
    /// The printable form of the canvas: one empty row per unit of vertical
    /// origin offset, then each pixel row left-padded with blanks by the
    /// horizontal offset.
    pub fn to_rows(&self) -> (rows: Vec<Vec<char>>)
        requires
            self.wf(),
            self.origin@.1 + self.dheight() <= usize::MAX,
            self.origin@.0 + self.dwidth() <= usize::MAX,
        ensures
            rows@.len() == self.origin@.1 + self.dheight(),
            forall|j: int| 0 <= j < self.origin@.1 ==> (#[trigger] rows@[j])@.len() == 0,
            forall|j: int|
                0 <= j < self.dheight() ==> (#[trigger] rows@[self.origin@.1 + j])@.len()
                    == self.origin@.0 + self.dwidth(),
            forall|j: int, x: int|
                #![trigger rows@[self.origin@.1 + j]@[x]]
                0 <= j < self.dheight() && 0 <= x < self.origin@.0 ==> rows@[self.origin@.1 + j]@[x]
                    == EMPTY_CHAR,
            forall|j: int, x: int|
                #![trigger rows@[self.origin@.1 + j]@[self.origin@.0 + x]]
                0 <= j < self.dheight() && 0 <= x < self.dwidth() ==> rows@[self.origin@.1 + j]@[
                    self.origin@.0 + x
                ] == self.pix((x, j)),
    {
        let mut rows: Vec<Vec<char>> = Vec::new();
        let mut j: usize = 0;
        while j < self.origin.1
            invariant
                0 <= j <= self.origin.1,
                rows@.len() == j,
                forall|i: int| 0 <= i < j ==> (#[trigger] rows@[i])@.len() == 0,
            decreases self.origin.1 - j,
        {
            rows.push(Vec::new());
            j = j + 1;
        }
        let mut y: usize = 0;
        while y < self.size.1
            invariant
                self.wf(),
                self.origin@.1 + self.dheight() <= usize::MAX,
                self.origin@.0 + self.dwidth() <= usize::MAX,
                0 <= y <= self.dheight(),
                rows@.len() == self.origin@.1 + y,
                forall|i: int| 0 <= i < self.origin@.1 ==> (#[trigger] rows@[i])@.len() == 0,
                forall|i: int|
                    0 <= i < y ==> (#[trigger] rows@[self.origin@.1 + i])@.len() == self.origin@.0
                        + self.dwidth(),
                forall|i: int, x: int|
                    #![trigger rows@[self.origin@.1 + i]@[x]]
                    0 <= i < y && 0 <= x < self.origin@.0 ==> rows@[self.origin@.1 + i]@[x]
                        == EMPTY_CHAR,
                forall|i: int, x: int|
                    #![trigger rows@[self.origin@.1 + i]@[self.origin@.0 + x]]
                    0 <= i < y && 0 <= x < self.dwidth() ==> rows@[self.origin@.1 + i]@[
                        self.origin@.0 + x
                    ] == self.pix((x, i)),
            decreases self.dheight() - y,
        {
            let mut row: Vec<char> = Vec::new();
            let mut x: usize = 0;
            while x < self.origin.0
                invariant
                    0 <= x <= self.origin.0,
                    row@.len() == x,
                    forall|i: int| 0 <= i < x ==> #[trigger] row@[i] == EMPTY_CHAR,
                decreases self.origin.0 - x,
            {
                row.push(EMPTY_CHAR);
                x = x + 1;
            }
            let mut x2: usize = 0;
            while x2 < self.size.0
                invariant
                    self.wf(),
                    0 <= y < self.dheight(),
                    self.origin@.0 + self.dwidth() <= usize::MAX,
                    0 <= x2 <= self.dwidth(),
                    row@.len() == self.origin@.0 + x2,
                    forall|i: int| 0 <= i < self.origin@.0 ==> #[trigger] row@[i] == EMPTY_CHAR,
                    forall|i: int|
                        0 <= i < x2 ==> #[trigger] row@[self.origin@.0 + i] == self.pix(
                            (i, y as int),
                        ),
                decreases self.dwidth() - x2,
            {
                row.push(self.get_pixel(Position(x2, y)));
                x2 = x2 + 1;
            }
            rows.push(row);
            y = y + 1;
        }
        rows
    }
}

/// Whether `c` lies on the straight axis-aligned segment between `a` and
/// `b`, endpoints included.
pub open spec fn seg_between(a: (int, int), b: (int, int), c: (int, int)) -> bool {
    ||| (a.0 == b.0 && c.0 == a.0 && between(a.1, b.1, c.1))
    ||| (a.1 == b.1 && c.1 == a.1 && between(a.0, b.0, c.0))
}

/// Whether `c` lies on one of the first `upto` segments of the path.
pub open spec fn path_covers(path: Seq<Position>, upto: int, c: (int, int)) -> bool {
    exists|i: int| 0 <= i < upto && #[trigger] seg_between(path[i]@, path[i + 1]@, c)
}

/// The state `draw_path` leaves behind on failure: the pair at `k` is the
/// first non-aligned one, and exactly the segments before it were drawn.
pub open spec fn path_error_state(
    d0: Display,
    d1: Display,
    path: Seq<Position>,
    symbol: char,
    k: int,
) -> bool {
    &&& 0 <= k < path.len() - 1
    &&& !aligned_distinct(path[k]@, path[k + 1]@)
    &&& forall|i: int| 0 <= i < k ==> aligned_distinct((#[trigger] path[i])@, path[i + 1]@)
    &&& d1.origin == d0.origin
    &&& d1.size == d0.size
    &&& forall|c: (int, int)|
        d0.in_canvas(c) ==> #[trigger] d1.pix(c) == (if path_covers(path, k, c) {
            symbol
        } else {
            d0.pix(c)
        })
}

/// Whether `c` lies on the outer border of the rendered maze.
pub open spec fn maze_border(m: Maze, c: (int, int)) -> bool {
    c.0 == 0 || c.1 == 0 || c.0 == 2 * m.width() || c.1 == 2 * m.height()
}

/// Whether the three-cell wall segment drawn for side `d` of `cell` passes
/// through canvas coordinate `c`. The cell's center sits at
/// `(2 cell.0 + 1, 2 cell.1 + 1)`; the segment runs perpendicular to `d`,
/// centered on the midpoint between the cell and its neighbor.
pub open spec fn wall_segment_covers(m: Maze, cell: (int, int), d: Direction, c: (int, int)) -> bool {
    m.in_grid(cell) && m.wall(cell, d) && {
        let cx = 2 * cell.0 + 1;
        let cy = 2 * cell.1 + 1;
        match d {
            Direction::North => c.1 == cy - 1 && cx - 1 <= c.0 <= cx + 1,
            Direction::South => c.1 == cy + 1 && cx - 1 <= c.0 <= cx + 1,
            Direction::East => c.0 == cx + 1 && cy - 1 <= c.1 <= cy + 1,
            Direction::West => c.0 == cx - 1 && cy - 1 <= c.1 <= cy + 1,
        }
    }
}

/// The wall segments of the cells before row `y`, and of row `y` before
/// column `x`, in the row-major order the renderer walks.
pub open spec fn drawn_up_to(m: Maze, c: (int, int), y: int, x: int) -> bool {
    exists|cell: (int, int), d: Direction|
        #[trigger] wall_segment_covers(m, cell, d, c) && (cell.1 < y || (cell.1 == y && cell.0
            < x))
}

/// Whether the rendered maze holds a wall glyph at canvas coordinate `c`:
/// on the outer border, or on some cell side's wall segment.
pub open spec fn maze_pixel(m: Maze, c: (int, int)) -> bool {
    maze_border(m, c) || exists|cell: (int, int), d: Direction|
        #[trigger] wall_segment_covers(m, cell, d, c)
}

/// The canvas coordinate of the midpoint between `cell` and its neighbor
/// toward `d`: the center of the wall segment for that side.
pub open spec fn wall_mid_pixel(cell: (int, int), d: Direction) -> (int, int) {
    let cx = 2 * cell.0 + 1;
    let cy = 2 * cell.1 + 1;
    match d {
        Direction::North => (cx, cy - 1),
        Direction::South => (cx, cy + 1),
        Direction::East => (cx + 1, cy),
        Direction::West => (cx - 1, cy),
    }
}

/// THEOREM (render round trip). In a rendered maze, the midpoint pixel
/// between a cell and its neighbor holds a wall glyph exactly when that
/// side is walled: re-parsing the wall pattern from the character buffer
/// reconstructs the wall set the maze was drawn from.
#[verifier::rlimit(60)]
pub proof fn lemma_wall_round_trip(m: Maze, cell: (int, int), d: Direction)
    requires
        m.wf(),
        m.walls_consistent(),
        m.in_grid(cell),
    ensures
        maze_pixel(m, wall_mid_pixel(cell, d)) == m.wall(cell, d),
{
    let c = wall_mid_pixel(cell, d);
    if m.wall(cell, d) {
        assert(wall_segment_covers(m, cell, d, c));
        assert(maze_pixel(m, c));
    } else {
        assert(m.in_grid(neighbor(cell, d)));
        assert(!maze_border(m, c));
        assert forall|cell2: (int, int), d2: Direction|
            !(#[trigger] wall_segment_covers(m, cell2, d2, c)) by {
            if wall_segment_covers(m, cell2, d2, c) {
                assert(m.wall(cell2, d2) == (if m.in_grid(neighbor(cell2, d2)) {
                    m.wall(neighbor(cell2, d2), d2.opposite())
                } else {
                    true
                }));
                assert(false);
            }
        }
        assert(!maze_pixel(m, c));
    }
}

/// THEOREM (endpoint-order independence). Drawing the segment between two
/// aligned points writes the same pixels whether the vector was built from
/// the ascending or the descending endpoint order: two canvases that
/// started equal end equal.
pub proof fn lemma_draw_line_order_independent(
    d0: Display,
    d1: Display,
    d2: Display,
    v1: Vector,
    v2: Vector,
    a: (int, int),
    b: (int, int),
    symbol: char,
)
    requires
        aligned_distinct(a, b),
        v1.origin@ == a,
        v1.direction == points_direction(a, b),
        v1.magnitude == manhattan(a, b) + 1,
        v2.origin@ == b,
        v2.direction == points_direction(b, a),
        v2.magnitude == manhattan(b, a) + 1,
        forall|c: (int, int)|
            d0.in_canvas(c) ==> #[trigger] d1.pix(c) == (if v1.covers(c) {
                symbol
            } else {
                d0.pix(c)
            }),
        forall|c: (int, int)|
            d0.in_canvas(c) ==> #[trigger] d2.pix(c) == (if v2.covers(c) {
                symbol
            } else {
                d0.pix(c)
            }),
    ensures
        forall|c: (int, int)| d0.in_canvas(c) ==> #[trigger] d1.pix(c) == d2.pix(c),
{
    lemma_two_point_vectors_cover_same(a, b, v1, v2);
}

} // verus!
