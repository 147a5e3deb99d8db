//! Coordinate and line-segment primitives shared by maze generation,
//! solving, and rendering.

use vstd::prelude::*;

verus! {

/// One of the four cardinal directions a cell side can face.
#[derive(Clone, Copy, Debug, PartialEq, Eq, Structural)]
pub enum Direction {
    North,
    East,
    South,
    West,
}

/// The axis a direction moves along: `X` for East/West, `Y` for North/South.
#[derive(Clone, Copy, Debug, PartialEq, Eq, Structural)]
pub enum Axis {
    X,
    Y,
}

impl Direction {
    /// The unit displacement of this direction, with `y` growing southward.
    pub open spec fn step(self) -> (int, int) {
        match self {
            Direction::North => (0, -1),
            Direction::East => (1, 0),
            Direction::South => (0, 1),
            Direction::West => (-1, 0),
        }
    }

    /// The direction pointing the opposite way.
    pub open spec fn opposite(self) -> Direction {
        match self {
            Direction::North => Direction::South,
            Direction::East => Direction::West,
            Direction::South => Direction::North,
            Direction::West => Direction::East,
        }
    }

    /// The axis this direction moves along.
    pub open spec fn axis(self) -> Axis {
        match self {
            Direction::East | Direction::West => Axis::X,
            Direction::North | Direction::South => Axis::Y,
        }
    }

    pub fn get_axis(&self) -> (a: Axis)
        ensures
            a == self.axis(),
    {
        match self {
            Direction::East | Direction::West => Axis::X,
            Direction::North | Direction::South => Axis::Y,
        }
    }

    pub fn get_opposite(&self) -> (d: Direction)
        ensures
            d == self.opposite(),
    {
        match self {
            Direction::North => Direction::South,
            Direction::East => Direction::West,
            Direction::South => Direction::North,
            Direction::West => Direction::East,
        }
    }

    /// The two directions of the other axis, northernmost/easternmost first.
    pub fn get_perpendiculars(&self) -> (ds: [Direction; 2])
        ensures
            ds[0].axis() != self.axis(),
            ds[1].axis() != self.axis(),
            ds[1] == ds[0].opposite(),
            self.axis() == Axis::X ==> ds[0] == Direction::North,
            self.axis() == Axis::Y ==> ds[0] == Direction::East,
    {
        match self.get_axis() {
            Axis::X => [Direction::North, Direction::South],
            Axis::Y => [Direction::East, Direction::West],
        }
    }
}

/// All four directions, in the fixed order North, East, South, West.
pub fn all_directions() -> (ds: [Direction; 4])
    ensures
        ds[0] == Direction::North,
        ds[1] == Direction::East,
        ds[2] == Direction::South,
        ds[3] == Direction::West,
{
    [Direction::North, Direction::East, Direction::South, Direction::West]
}

/// The cell one unit from `c` along `d`, in unbounded integer coordinates.
pub open spec fn neighbor(c: (int, int), d: Direction) -> (int, int) {
    (c.0 + d.step().0, c.1 + d.step().1)
}

/// A zero-indexed grid coordinate: column first, then row.
#[derive(Clone, Copy, Debug, PartialEq, Eq, Structural)]
pub struct Position(pub usize, pub usize);

impl View for Position {
    type V = (int, int);

    open spec fn view(&self) -> (int, int) {
        (self.0 as int, self.1 as int)
    }
}

impl Position {
    /// The origin coordinate `(0, 0)`.
    pub fn new() -> (p: Position)
        ensures
            p@ == (0int, 0int),
    {
        Position(0, 0)
    }

    pub fn as_array(&self) -> (a: [usize; 2])
        ensures
            a[0] == self.0,
            a[1] == self.1,
    {
        [self.0, self.1]
    }

    pub fn as_rev_array(&self) -> (a: [usize; 2])
        ensures
            a[0] == self.1,
            a[1] == self.0,
    {
        [self.1, self.0]
    }

    pub fn from_array(arr: [usize; 2]) -> (p: Position)
        ensures
            p.0 == arr[0],
            p.1 == arr[1],
    {
        Position(arr[0], arr[1])
    }

    /// Shift one unit along `d`. The caller must have bounds-checked: moving
    /// north or west from a zero coordinate would underflow, and moving east
    /// or south from the largest coordinate would overflow.
    pub fn translate(&self, direction: Direction) -> (p: Position)
        requires
            direction == Direction::North ==> self.1 >= 1,
            direction == Direction::West ==> self.0 >= 1,
            direction == Direction::East ==> self.0 < usize::MAX,
            direction == Direction::South ==> self.1 < usize::MAX,
        ensures
            p@ == neighbor(self@, direction),
    {
        match direction {
            Direction::North => Position(self.0, self.1 - 1),
            Direction::East => Position(self.0 + 1, self.1),
            Direction::South => Position(self.0, self.1 + 1),
            Direction::West => Position(self.0 - 1, self.1),
        }
    }

    pub fn from_size(size: Size) -> (p: Position)
        ensures
            p.0 == size.0,
            p.1 == size.1,
    {
        Position(size.0, size.1)
    }
}

/// Grid extents: width then height, both at least 1 in a well-formed maze.
#[derive(Clone, Copy, Debug, PartialEq, Eq, Structural)]
pub struct Size(pub usize, pub usize);

impl View for Size {
    type V = (int, int);

    open spec fn view(&self) -> (int, int) {
        (self.0 as int, self.1 as int)
    }
}

impl Size {
    pub fn as_array(&self) -> (a: [usize; 2])
        ensures
            a[0] == self.0,
            a[1] == self.1,
    {
        [self.0, self.1]
    }

    pub fn as_rev_array(&self) -> (a: [usize; 2])
        ensures
            a[0] == self.1,
            a[1] == self.0,
    {
        [self.1, self.0]
    }

    pub fn from_array(arr: [usize; 2]) -> (s: Size)
        ensures
            s.0 == arr[0],
            s.1 == arr[1],
    {
        Size(arr[0], arr[1])
    }

    /// The coordinate of the bottom-right cell of a grid with these extents.
    pub fn get_max_pos(&self) -> (p: Position)
        requires
            self.0 >= 1,
            self.1 >= 1,
        ensures
            p@ == (self.0 - 1, self.1 - 1),
    {
        Position(self.0 - 1, self.1 - 1)
    }
}

/// The error a drawing or construction operation can signal: the inputs do
/// not fit together (mismatched canvas, non-axis-aligned endpoints).
#[derive(Clone, Copy, Debug, PartialEq, Eq, Structural)]
pub enum DrawError {
    InvalidInput,
}

/// Whether `x` lies between `a` and `b` inclusive, in either order.
pub open spec fn between(a: int, b: int, x: int) -> bool {
    (a <= x <= b) || (b <= x <= a)
}

/// Whether two points differ on exactly one axis: the segment between them
/// is a proper axis-aligned line.
pub open spec fn aligned_distinct(a: (int, int), b: (int, int)) -> bool {
    (a.0 == b.0 && a.1 != b.1) || (a.1 == b.1 && a.0 != b.0)
}

/// The direction leading from `a` toward `b`. Meaningful only when the two
/// points are axis-aligned and distinct.
pub open spec fn points_direction(a: (int, int), b: (int, int)) -> Direction {
    if a.0 == b.0 {
        if b.1 < a.1 {
            Direction::North
        } else {
            Direction::South
        }
    } else {
        if b.0 < a.0 {
            Direction::West
        } else {
            Direction::East
        }
    }
}

/// The Manhattan distance between two points.
pub open spec fn manhattan(a: (int, int), b: (int, int)) -> int {
    (if b.0 >= a.0 {
        b.0 - a.0
    } else {
        a.0 - b.0
    }) + (if b.1 >= a.1 {
        b.1 - a.1
    } else {
        a.1 - b.1
    })
}

/// A directed, axis-aligned line segment: an origin, a direction, and a
/// length in grid units that includes the origin cell.
#[derive(Clone, Copy, Debug, PartialEq, Eq, Structural)]
pub struct Vector {
    pub origin: Position,
    pub direction: Direction,
    pub magnitude: usize,
}

impl Vector {
    /// The coordinate of the final cell: the origin advanced
    /// `magnitude - 1` steps along the direction.
    pub open spec fn end_of(self) -> (int, int) {
        match self.direction {
            Direction::North => (self.origin@.0, self.origin@.1 - (self.magnitude - 1)),
            Direction::East => (self.origin@.0 + self.magnitude - 1, self.origin@.1),
            Direction::South => (self.origin@.0, self.origin@.1 + self.magnitude - 1),
            Direction::West => (self.origin@.0 - (self.magnitude - 1), self.origin@.1),
        }
    }

    /// The cells the segment passes through, both endpoints included,
    /// whichever endpoint has the larger coordinate.
    pub open spec fn covers(self, c: (int, int)) -> bool {
        match self.direction.axis() {
            Axis::X => c.1 == self.origin@.1 && between(self.origin@.0, self.end_of().0, c.0),
            Axis::Y => c.0 == self.origin@.0 && between(self.origin@.1, self.end_of().1, c.1),
        }
    }

    pub fn new(origin: Position, direction: Direction, magnitude: usize) -> (v: Vector)
        ensures
            v.origin == origin,
            v.direction == direction,
            v.magnitude == magnitude,
    {
        Vector { origin, direction, magnitude }
    }

    /// The segment between two axis-aligned distinct points, directed from
    /// `origin` to `end`; fails when the displacement is not along exactly
    /// one axis.
    pub fn new_from_points(origin: Position, end: Position) -> (r: Result<Vector, DrawError>)
        requires
            manhattan(origin@, end@) + 1 <= usize::MAX,
        ensures
            r is Ok <==> aligned_distinct(origin@, end@),
            r matches Ok(v) ==> v.origin == origin && v.direction == points_direction(
                origin@,
                end@,
            ) && v.magnitude == manhattan(origin@, end@) + 1 && v.end_of() == end@,
            r matches Err(e) ==> e == DrawError::InvalidInput,
    {
        if origin.0 == end.0 && end.1 < origin.1 {
            Ok(Vector::new(origin, Direction::North, origin.1 - end.1 + 1))
        } else if origin.0 == end.0 && end.1 > origin.1 {
            Ok(Vector::new(origin, Direction::South, end.1 - origin.1 + 1))
        } else if origin.1 == end.1 && end.0 < origin.0 {
            Ok(Vector::new(origin, Direction::West, origin.0 - end.0 + 1))
        } else if origin.1 == end.1 && end.0 > origin.0 {
            Ok(Vector::new(origin, Direction::East, end.0 - origin.0 + 1))
        } else {
            Err(DrawError::InvalidInput)
        }
    }

    /// The position of the final cell of the segment.
    pub fn get_end(&self) -> (p: Position)
        requires
            self.magnitude >= 1,
            self.direction == Direction::North ==> self.origin.1 >= self.magnitude - 1,
            self.direction == Direction::West ==> self.origin.0 >= self.magnitude - 1,
            self.direction == Direction::East ==> self.origin.0 + self.magnitude - 1 <= usize::MAX,
            self.direction == Direction::South ==> self.origin.1 + self.magnitude - 1 <= usize::MAX,
        ensures
            p@ == self.end_of(),
    {
        let m = self.magnitude - 1;
        match self.direction {
            Direction::North => Position(self.origin.0, self.origin.1 - m),
            Direction::East => Position(self.origin.0 + m, self.origin.1),
            Direction::South => Position(self.origin.0, self.origin.1 + m),
            Direction::West => Position(self.origin.0 - m, self.origin.1),
        }
    }
}

/// Both endpoint orders of the same physical segment cover the same cells,
/// so drawing is independent of the construction order.
pub proof fn lemma_two_point_vectors_cover_same(a: (int, int), b: (int, int), v1: Vector, v2: Vector)
    requires
        aligned_distinct(a, b),
        v1.origin@ == a,
        v1.direction == points_direction(a, b),
        v1.magnitude == manhattan(a, b) + 1,
        v2.origin@ == b,
        v2.direction == points_direction(b, a),
        v2.magnitude == manhattan(b, a) + 1,
    ensures
        forall|c: (int, int)| v1.covers(c) == v2.covers(c),
{
    assert(v1.end_of() == b);
    assert(v2.end_of() == a);
}

/// An axis-aligned rectangle: its top-left corner and its extents.
pub struct Rectangle {
    pub origin: Position,
    pub size: Size,
}

/// Whether `c` lies on the border of the rectangle.
pub open spec fn on_border(r: Rectangle, c: (int, int)) -> bool {
    let x0 = r.origin@.0;
    let y0 = r.origin@.1;
    let x1 = x0 + r.size@.0 - 1;
    let y1 = y0 + r.size@.1 - 1;
    x0 <= c.0 <= x1 && y0 <= c.1 <= y1 && (c.0 == x0 || c.0 == x1 || c.1 == y0 || c.1 == y1)
}

impl Rectangle {
    pub fn new(origin: Position, size: Size) -> (r: Rectangle)
        ensures
            r.origin == origin,
            r.size == size,
    {
        Rectangle { origin, size }
    }

    /// The four edges, as vectors: top, left, bottom, right. The top and
    /// bottom run east, the left and right run south.
    pub fn get_vectors(&self) -> (vs: [Vector; 4])
        requires
            self.size.0 >= 1,
            self.size.1 >= 1,
            self.origin.0 + self.size.0 <= usize::MAX,
            self.origin.1 + self.size.1 <= usize::MAX,
        ensures
            vs[0].origin == self.origin && vs[0].direction == Direction::East && vs[0].magnitude
                == self.size.0,
            vs[1].origin == self.origin && vs[1].direction == Direction::South && vs[1].magnitude
                == self.size.1,
            vs[2].origin@ == (self.origin@.0, self.origin@.1 + self.size@.1 - 1) && vs[2].direction
                == Direction::East && vs[2].magnitude == self.size.0,
            vs[3].origin@ == (self.origin@.0 + self.size@.0 - 1, self.origin@.1) && vs[3].direction
                == Direction::South && vs[3].magnitude == self.size.1,
    {
        let max_pos = Position::from_size(self.size);
        let right = Vector::new(self.origin, Direction::East, max_pos.0);
        let down = Vector::new(self.origin, Direction::South, max_pos.1);
        let bottom_origin = down.get_end();
        let right_origin = right.get_end();
        [
            right,
            down,
            Vector::new(bottom_origin, Direction::East, max_pos.0),
            Vector::new(right_origin, Direction::South, max_pos.1),
        ]
    }
}

} // verus!
