//! The maze data model: a rectangular grid of cells, each tracking which of
//! its four sides is walled, stored as one flat row-major vector.

use vstd::prelude::*;
use crate::geometry::{Direction, Position, Size, neighbor};

verus! {

/// One grid cell; each field says whether the side facing that way is
/// impassable.
#[derive(Clone, Copy, Debug, PartialEq, Eq, Structural)]
pub struct Tile {
    pub up: bool,
    pub right: bool,
    pub down: bool,
    pub left: bool,
}

impl Tile {
    /// Whether the side of this tile facing `d` is walled.
    pub open spec fn side(self, d: Direction) -> bool {
        match d {
            Direction::North => self.up,
            Direction::East => self.right,
            Direction::South => self.down,
            Direction::West => self.left,
        }
    }

    /// A tile with all four sides walled or all four open.
    pub fn new(walled: bool) -> (t: Tile)
        ensures
            forall|d: Direction| t.side(d) == walled,
    {
        Tile { up: walled, right: walled, down: walled, left: walled }
    }

    /// Close or open the one side facing `direction`, leaving the rest.
    pub fn set_side(&mut self, direction: Direction, closed: bool)
        ensures
            final(self).side(direction) == closed,
            forall|d: Direction| d != direction ==> final(self).side(d) == old(self).side(d),
    {
        match direction {
            Direction::North => self.up = closed,
            Direction::East => self.right = closed,
            Direction::South => self.down = closed,
            Direction::West => self.left = closed,
        }
    }

    pub fn get_side(&self, direction: Direction) -> (b: bool)
        ensures
            b == self.side(direction),
    {
        match direction {
            Direction::North => self.up,
            Direction::East => self.right,
            Direction::South => self.down,
            Direction::West => self.left,
        }
    }

    /// All four sides with their wall flags, in the fixed direction order.
    pub fn get_sides(&self) -> (sides: [(Direction, bool); 4])
        ensures
            sides[0] == (Direction::North, self.up),
            sides[1] == (Direction::East, self.right),
            sides[2] == (Direction::South, self.down),
            sides[3] == (Direction::West, self.left),
    {
        [
            (Direction::North, self.up),
            (Direction::East, self.right),
            (Direction::South, self.down),
            (Direction::West, self.left),
        ]
    }
}

/// Whether two cells are one unit apart along a single axis.
pub open spec fn adjacent(a: (int, int), b: (int, int)) -> bool {
    ||| (a.0 == b.0 && (b.1 == a.1 - 1 || b.1 == a.1 + 1))
    ||| (a.1 == b.1 && (b.0 == a.0 - 1 || b.0 == a.0 + 1))
}

/// The direction leading from `a` to an adjacent cell `b`. Meaningful only
/// when `adjacent(a, b)` holds.
pub open spec fn dir_between(a: (int, int), b: (int, int)) -> Direction {
    if b.1 == a.1 - 1 {
        Direction::North
    } else if b.0 == a.0 + 1 {
        Direction::East
    } else if b.1 == a.1 + 1 {
        Direction::South
    } else {
        Direction::West
    }
}

/// Adjacent cells really are one step apart: stepping from `a` toward `b`
/// lands on `b`, and the way back is the opposite direction.
pub proof fn lemma_adjacent_dir(a: (int, int), b: (int, int))
    requires
        adjacent(a, b),
    ensures
        neighbor(a, dir_between(a, b)) == b,
        dir_between(b, a) == dir_between(a, b).opposite(),
        adjacent(b, a),
        a != b,
{
}

/// A cell's neighbor toward `d` is adjacent, and `d` leads to it.
pub proof fn lemma_dir_neighbor(c: (int, int), d: Direction)
    ensures
        adjacent(c, neighbor(c, d)),
        dir_between(c, neighbor(c, d)) == d,
{
}

/// The set of coordinates a sequence of positions mentions.
pub open spec fn pos_set(s: Seq<Position>) -> Set<(int, int)> {
    Set::new(|c: (int, int)| exists|i: int| 0 <= i < s.len() && (#[trigger] s[i])@ == c)
}

pub proof fn lemma_pos_set_push(s: Seq<Position>, p: Position)
    ensures
        pos_set(s.push(p)) == pos_set(s).insert(p@),
{
    assert forall|c: (int, int)| pos_set(s.push(p)).contains(c) implies pos_set(s).insert(p@)
        .contains(c) by {
        let i = choose|i: int| 0 <= i < s.push(p).len() && (#[trigger] s.push(p)[i])@ == c;
        if i < s.len() {
            assert(s[i]@ == c);
        }
    }
    assert forall|c: (int, int)| pos_set(s).insert(p@).contains(c) implies pos_set(s.push(p))
        .contains(c) by {
        if c == p@ {
            assert(s.push(p)[s.len() as int]@ == c);
        } else {
            let i = choose|i: int| 0 <= i < s.len() && (#[trigger] s[i])@ == c;
            assert(s.push(p)[i]@ == c);
        }
    }
    assert(pos_set(s.push(p)) =~= pos_set(s).insert(p@));
}

pub proof fn lemma_pos_set_finite(s: Seq<Position>)
    ensures
        pos_set(s).finite(),
    decreases s.len(),
{
    if s.len() == 0 {
        assert(pos_set(s) =~= Set::empty());
    } else {
        lemma_pos_set_finite(s.drop_last());
        lemma_pos_set_push(s.drop_last(), s.last());
        assert(s.drop_last().push(s.last()) =~= s);
    }
}

/// Whether a sequence of positions mentions `p`, by linear scan.
pub fn contains_position(list: &Vec<Position>, p: Position) -> (b: bool)
    ensures
        b == pos_set(list@).contains(p@),
{
    let mut i: usize = 0;
    while i < list.len()
        invariant
            0 <= i <= list@.len(),
            forall|j: int| 0 <= j < i ==> (#[trigger] list@[j])@ != p@,
        decreases list@.len() - i,
    {
        if list[i] == p {
            assert(list@[i as int]@ == p@);
            return true;
        }
        i = i + 1;
    }
    false
}

/// A rectangular maze: its extents plus one tile per cell, row-major.
#[derive(Clone, Debug)]
pub struct Maze {
    pub size: Size,
    pub tiles: Vec<Tile>,
}

impl Maze {
    pub open spec fn width(self) -> int {
        self.size.0 as int
    }

    pub open spec fn height(self) -> int {
        self.size.1 as int
    }

    pub open spec fn cell_count(self) -> int {
        self.width() * self.height()
    }

    pub open spec fn in_grid(self, c: (int, int)) -> bool {
        0 <= c.0 < self.width() && 0 <= c.1 < self.height()
    }

    pub open spec fn idx_of(self, c: (int, int)) -> int {
        c.1 * self.width() + c.0
    }

    pub open spec fn tile_of(self, c: (int, int)) -> Tile {
        self.tiles@[self.idx_of(c)]
    }

    /// Whether the side of cell `c` facing `d` is walled.
    pub open spec fn wall(self, c: (int, int), d: Direction) -> bool {
        self.tile_of(c).side(d)
    }

    /// Basic shape: positive extents, one tile per cell, and extents small
    /// enough that the rendered canvas size fits a `usize`.
    pub open spec fn wf(self) -> bool {
        &&& self.width() >= 1
        &&& self.height() >= 1
        &&& self.tiles@.len() == self.cell_count()
        &&& (2 * self.width() + 1) * (2 * self.height() + 1) <= usize::MAX
    }

    /// Walls come in matched pairs: a cell's side facing an in-grid neighbor
    /// agrees with the neighbor's side facing back, and every side facing
    /// out of the grid is walled.
    pub open spec fn walls_consistent(self) -> bool {
        forall|c: (int, int), d: Direction|
            self.in_grid(c) ==> #[trigger] self.wall(c, d) == if self.in_grid(neighbor(c, d)) {
                self.wall(neighbor(c, d), d.opposite())
            } else {
                true
            }
    }

    /// Every side of every cell is walled.
    pub open spec fn fully_walled(self) -> bool {
        forall|c: (int, int), d: Direction| self.in_grid(c) ==> #[trigger] self.wall(c, d)
    }

    /// Whether adjacent cells `a` and `b` are both in the grid with no wall
    /// on `a`'s side facing `b`.
    pub open spec fn open_between(self, a: (int, int), b: (int, int)) -> bool {
        &&& self.in_grid(a)
        &&& self.in_grid(b)
        &&& adjacent(a, b)
        &&& !self.wall(a, dir_between(a, b))
    }

    pub proof fn lemma_idx_bounds(self, c: (int, int))
        requires
            self.wf(),
            self.in_grid(c),
        ensures
            0 <= self.idx_of(c) < self.cell_count(),
    {
        assert(0 <= c.1 * self.width() + c.0 < self.width() * self.height()) by (nonlinear_arith)
            requires
                0 <= c.0 < self.width(),
                0 <= c.1 < self.height(),
        ;
    }

    pub proof fn lemma_idx_injective(self, a: (int, int), b: (int, int))
        requires
            self.wf(),
            self.in_grid(a),
            self.in_grid(b),
            self.idx_of(a) == self.idx_of(b),
        ensures
            a == b,
    {
        assert(a.0 == b.0 && a.1 == b.1) by (nonlinear_arith)
            requires
                0 <= a.0 < self.width(),
                0 <= b.0 < self.width(),
                a.1 * self.width() + a.0 == b.1 * self.width() + b.0,
        ;
    }

    /// With consistent walls, openness does not depend on which of the two
    /// adjacent cells is asked.
    pub proof fn lemma_open_symmetric(self, a: (int, int), b: (int, int))
        requires
            self.wf(),
            self.walls_consistent(),
        ensures
            self.open_between(a, b) == self.open_between(b, a),
    {
        if adjacent(a, b) && self.in_grid(a) && self.in_grid(b) {
            let d = dir_between(a, b);
            assert(neighbor(a, d) == b);
            assert(dir_between(b, a) == d.opposite());
            assert(self.wall(a, d) == self.wall(b, d.opposite()));
            assert(self.wall(b, d.opposite()) == self.wall(a, d.opposite().opposite()));
        }
    }

    /// A fresh maze with every cell fully walled (or fully open).
    pub fn new(size: Size, walled: bool) -> (m: Maze)
        requires
            size.0 >= 1,
            size.1 >= 1,
            (2 * (size.0 as int) + 1) * (2 * (size.1 as int) + 1) <= usize::MAX,
        ensures
            m.wf(),
            m.size == size,
            forall|c: (int, int), d: Direction| m.in_grid(c) ==> #[trigger] m.wall(c, d) == walled,
    {
        proof {
            assert((size.0 as int) * (size.1 as int) <= (2 * (size.0 as int) + 1) * (2 * (
            size.1 as int) + 1)) by (nonlinear_arith)
                requires
                    size.0 >= 1,
                    size.1 >= 1,
            ;
        }
        let n = size.0 * size.1;
        let mut tiles: Vec<Tile> = Vec::new();
        let tile = Tile::new(walled);
        let mut i: usize = 0;
        while i < n
            invariant
                0 <= i <= n,
                tiles@.len() == i,
                forall|j: int| 0 <= j < i ==> #[trigger] tiles@[j] == tile,
            decreases n - i,
        {
            tiles.push(tile);
            i = i + 1;
        }
        let m = Maze { size, tiles };
        proof {
            assert forall|c: (int, int), d: Direction| m.in_grid(c) implies #[trigger] m.wall(c, d)
                == walled by {
                m.lemma_idx_bounds(c);
            }
        }
        m
    }

    /// The flat row-major index of an in-grid cell.
    pub fn index_of(&self, pos: Position) -> (i: usize)
        requires
            self.wf(),
            self.in_grid(pos@),
        ensures
            i == self.idx_of(pos@),
            i < self.tiles@.len(),
    {
        proof {
            self.lemma_idx_bounds(pos@);
            assert(self.cell_count() <= usize::MAX) by (nonlinear_arith)
                requires
                    self.width() >= 1,
                    self.height() >= 1,
                    (2 * self.width() + 1) * (2 * self.height() + 1) <= usize::MAX,
            ;
        }
        pos.1 * self.size.0 + pos.0
    }

    /// The tile at `pos`, or `None` when `pos` lies outside the grid.
    pub fn get_tile(&self, pos: Position) -> (t: Option<&Tile>)
        requires
            self.wf(),
        ensures
            match t {
                Some(tile) => self.in_grid(pos@) && *tile == self.tile_of(pos@),
                None => !self.in_grid(pos@),
            },
    {
        if pos.0 < self.size.0 && pos.1 < self.size.1 {
            let i = self.index_of(pos);
            Some(&self.tiles[i])
        } else {
            None
        }
    }

    /// Close or open the one side of the cell at `pos` facing `d`, leaving
    /// every other side of every tile unchanged.
    pub fn set_wall(&mut self, pos: Position, d: Direction, closed: bool)
        requires
            old(self).wf(),
            old(self).in_grid(pos@),
        ensures
            final(self).size == old(self).size,
            final(self).wf(),
            final(self).wall(pos@, d) == closed,
            forall|d2: Direction| d2 != d ==> final(self).wall(pos@, d2) == old(self).wall(
                pos@,
                d2,
            ),
            forall|c: (int, int)| old(self).in_grid(c) && c != pos@ ==> final(self).tile_of(c)
                == old(self).tile_of(c),
    {
        let i = self.index_of(pos);
        let mut t = self.tiles[i];
        t.set_side(d, closed);
        self.tiles[i] = t;
        proof {
            assert forall|c: (int, int)| old(self).in_grid(c) && c != pos@ implies final(self)
                .tile_of(c) == old(self).tile_of(c) by {
                old(self).lemma_idx_bounds(c);
                if old(self).idx_of(c) == old(self).idx_of(pos@) {
                    old(self).lemma_idx_injective(c, pos@);
                }
            }
        }
    }

    /// Map a maze coordinate onto the rendered canvas: cell `(x, y)` sits at
    /// `(2x + 1, 2y + 1)` so wall lines fit between cells.
    pub fn to_display_pos(pos: Position) -> (p: Position)
        requires
            2 * (pos.0 as int) + 1 <= usize::MAX,
            2 * (pos.1 as int) + 1 <= usize::MAX,
        ensures
            p@ == (2 * (pos.0 as int) + 1, 2 * (pos.1 as int) + 1),
    {
        Position(pos.0 * 2 + 1, pos.1 * 2 + 1)
    }
}

} // verus!
