//! Depth-first search over a carved maze, producing the entrance-to-exit
//! path.

use vstd::prelude::*;
use vstd::set_lib::lemma_len_subset;
use crate::geometry::{Direction, Position, neighbor};
use crate::maze::{
    Maze,
    contains_position,
    lemma_dir_neighbor,
    lemma_pos_set_finite,
    lemma_pos_set_push,
    pos_set,
};
use crate::spantree::{
    SpanTree,
    grid_set,
    is_perfect,
    is_span_tree,
    lemma_frontier,
    lemma_grid_finite_size,
    node_ok,
    start_cell,
    tree_edge,
};
use crate::rng::random_below;

verus! {

broadcast use vstd::seq_lib::lemma_seq_contains_after_push;

/// A direction the solver may advance in from `c`: the side is open and the
/// cell beyond it is not yet explored.
pub open spec fn valid_move(m: Maze, c: (int, int), explored: Seq<Position>, d: Direction) -> bool {
    !m.wall(c, d) && !pos_set(explored).contains(neighbor(c, d))
}

impl Maze {
    /// The directions the solver may advance in from `pos`: those not
    /// blocked by a wall whose neighbor cell is not yet explored.
    pub fn get_valid_moves(&self, pos: Position, explored: &Vec<Position>) -> (moves: Vec<
        Direction,
    >)
        requires
            self.wf(),
            self.walls_consistent(),
            self.in_grid(pos@),
        ensures
            forall|i: int|
                0 <= i < moves@.len() ==> valid_move(*self, pos@, explored@, #[trigger] moves@[i]),
            forall|d: Direction|
                #[trigger] valid_move(*self, pos@, explored@, d) ==> moves@.contains(d),
    {
        let i = self.index_of(pos);
        let tile = self.tiles[i];
        assert(tile == self.tile_of(pos@));
        let mut moves: Vec<Direction> = Vec::new();
        if !tile.get_side(Direction::North) {
            assert(!self.wall(pos@, Direction::North));
            assert(self.in_grid(neighbor(pos@, Direction::North)));
            let np = pos.translate(Direction::North);
            if !contains_position(explored, np) {
                moves.push(Direction::North);
            }
        }
        assert(valid_move(*self, pos@, explored@, Direction::North) ==> moves@.contains(
            Direction::North,
        ));
        if !tile.get_side(Direction::East) {
            assert(!self.wall(pos@, Direction::East));
            assert(self.in_grid(neighbor(pos@, Direction::East)));
            let np = pos.translate(Direction::East);
            if !contains_position(explored, np) {
                moves.push(Direction::East);
            }
        }
        assert(valid_move(*self, pos@, explored@, Direction::East) ==> moves@.contains(
            Direction::East,
        ));
        if !tile.get_side(Direction::South) {
            assert(!self.wall(pos@, Direction::South));
            assert(self.in_grid(neighbor(pos@, Direction::South)));
            let np = pos.translate(Direction::South);
            if !contains_position(explored, np) {
                moves.push(Direction::South);
            }
        }
        assert(valid_move(*self, pos@, explored@, Direction::South) ==> moves@.contains(
            Direction::South,
        ));
        if !tile.get_side(Direction::West) {
            assert(!self.wall(pos@, Direction::West));
            assert(self.in_grid(neighbor(pos@, Direction::West)));
            let np = pos.translate(Direction::West);
            if !contains_position(explored, np) {
                moves.push(Direction::West);
            }
        }
        assert(valid_move(*self, pos@, explored@, Direction::West) ==> moves@.contains(
            Direction::West,
        ));
        proof {
            assert forall|d: Direction| #[trigger]
                valid_move(*self, pos@, explored@, d) implies moves@.contains(d) by {
                match d {
                    Direction::North => {},
                    Direction::East => {},
                    Direction::South => {},
                    Direction::West => {},
                }
            }
        }
        moves
    }

    /// Find the unique simple path from the entrance `(0, 0)` to the exit at
    /// the bottom-right cell of a perfect maze, by depth-first search with
    /// backtracking.
    #[verifier::spinoff_prover]
    #[verifier::rlimit(100)]
    pub fn solve_maze(&self) -> (path: Vec<Position>)
        requires
            is_perfect(*self),
        ensures
            path@.len() >= 1,
            path@[0]@ == start_cell(),
            path@[path@.len() - 1]@ == (self.width() - 1, self.height() - 1),
            forall|i: int| 0 <= i < path@.len() ==> self.in_grid((#[trigger] path@[i])@),
            forall|i: int|
                0 <= i < path@.len() - 1 ==> self.open_between(
                    (#[trigger] path@[i])@,
                    path@[i + 1]@,
                ),
            forall|i: int, j: int|
                0 <= i < j < path@.len() ==> (#[trigger] path@[i])@ != (#[trigger] path@[j])@,
    {
        let ghost t = choose|t: SpanTree| is_span_tree(*self, t);
        let ghost goal_cell = (self.width() - 1, self.height() - 1);
        let goal = self.size.get_max_pos();
        let start = Position::new();
        let mut explored: Vec<Position> = Vec::new();
        explored.push(start);
        let mut path: Vec<Position> = Vec::new();
        path.push(start);
        let mut current = start;
        proof {
            assert(explored@[0]@ == start_cell());
            assert(pos_set(explored@).contains(start_cell()));
            assert(path@[0]@ == start_cell());
            assert(pos_set(path@).contains(start_cell()));
            assert forall|c: (int, int)| #[trigger]
                pos_set(explored@).contains(c) implies c == start_cell() by {
                let i = choose|i: int| 0 <= i < explored@.len() && (#[trigger] explored@[i])@ == c;
            }
            lemma_grid_finite_size(*self);
            lemma_pos_set_finite(explored@);
            lemma_len_subset(pos_set(explored@), grid_set(*self));
        }
        while current != goal
            invariant
                self.wf(),
                self.walls_consistent(),
                is_span_tree(*self, t),
                goal_cell == (self.width() - 1, self.height() - 1),
                goal@ == goal_cell,
                self.in_grid(goal_cell),
                pos_set(explored@).contains(start_cell()),
                forall|c: (int, int)| #[trigger] pos_set(explored@).contains(c) ==> self.in_grid(c),
                forall|c: (int, int)|
                    #[trigger] pos_set(explored@).contains(c) && c != start_cell() ==> pos_set(
                        explored@,
                    ).contains(t.parent[c]),
                path@.len() >= 1,
                current == path@[path@.len() - 1],
                path@[0]@ == start_cell(),
                forall|i: int|
                    0 <= i < path@.len() ==> pos_set(explored@).contains((#[trigger] path@[i])@)
                        && self.in_grid(path@[i]@) && t.depth[path@[i]@] == i,
                forall|i: int|
                    0 <= i < path@.len() - 1 ==> t.parent[(#[trigger] path@[i + 1])@] == path@[i]@
                        && path@[i + 1]@ != start_cell(),
                pos_set(explored@).contains(goal_cell) ==> current@ == goal_cell,
                forall|c: (int, int), d: Direction|
                    pos_set(explored@).contains(c) && !pos_set(path@).contains(c) && self.in_grid(c)
                        && !self.wall(c, d) && self.in_grid(#[trigger] neighbor(c, d)) ==> pos_set(
                        explored@,
                    ).contains(neighbor(c, d)),
                pos_set(explored@).finite(),
                pos_set(explored@).len() <= self.cell_count(),
            decreases 2 * (self.cell_count() - pos_set(explored@).len()) + path@.len(),
        {
            let moves = self.get_valid_moves(current, &explored);
            if moves.len() == 0 {
                proof {
                    // the goal is not yet explored, so the frontier lemma
                    // yields an explored cell with an open unexplored side;
                    // by the closure invariant it lies on the path, and the
                    // dead end has no such side, so the path has length >= 2
                    assert(!pos_set(explored@).contains(goal_cell));
                    let r = lemma_frontier(*self, t, pos_set(explored@), goal_cell);
                    assert(!valid_move(*self, current@, explored@, r.1) || r.0 != current@);
                    if r.0 == current@ {
                        assert(valid_move(*self, current@, explored@, r.1));
                        assert(false);
                    }
                    assert(pos_set(path@).contains(r.0));
                    let i = choose|i: int| 0 <= i < path@.len() && (#[trigger] path@[i])@ == r.0;
                    assert(path@[i]@ == r.0 && i < path@.len() - 1);
                }
                let ghost p0 = path@;
                path.pop();
                current = path[path.len() - 1];
                proof {
                    assert(path@ =~= p0.drop_last());
                    assert forall|c: (int, int), d: Direction|
                        pos_set(explored@).contains(c) && !pos_set(path@).contains(c)
                            && self.in_grid(c) && !self.wall(c, d) && self.in_grid(
                            #[trigger] neighbor(c, d),
                        ) implies pos_set(explored@).contains(neighbor(c, d)) by {
                        if c == p0[p0.len() - 1]@ {
                            assert(!valid_move(*self, c, explored@, d));
                        } else if pos_set(p0).contains(c) {
                            let i = choose|i: int| 0 <= i < p0.len() && (#[trigger] p0[i])@ == c;
                            assert(i < p0.len() - 1);
                            assert(path@[i]@ == c);
                            assert(pos_set(path@).contains(c));
                        }
                    }
                }
            } else {
                let k = random_below(moves.len());
                let d = moves[k];
                proof {
                    assert(valid_move(*self, current@, explored@, d));
                    assert(self.in_grid(neighbor(current@, d)));
                    lemma_dir_neighbor(current@, d);
                }
                let ghost c0 = current@;
                let next = current.translate(d);
                let ghost p0 = path@;
                let ghost ex0 = explored@;
                let ghost e0 = pos_set(explored@);
                let ghost n0 = path@.len() as int;
                path.push(next);
                explored.push(next);
                current = next;
                proof {
                    lemma_pos_set_push(ex0, next);
                    let e1 = pos_set(explored@);
                    assert(e1 == e0.insert(next@));
                    vstd::set::axiom_set_insert_len(e0, next@);
                    lemma_grid_finite_size(*self);
                    assert forall|c: (int, int)| e1.contains(c) implies grid_set(*self).contains(
                        c,
                    ) by {
                        if c != next@ {
                            assert(e0.contains(c));
                        }
                    }
                    lemma_len_subset(e1, grid_set(*self));
                    // the open side into an unexplored cell must be the edge
                    // to that cell's tree parent
                    assert(self.open_between(c0, next@));
                    assert(tree_edge(t, c0, next@));
                    if c0 != start_cell() && t.parent[c0] == next@ {
                        assert(e0.contains(t.parent[c0]));
                        assert(false);
                    }
                    assert(next@ != start_cell() && t.parent[next@] == c0);
                    assert(node_ok(*self, t, next@));
                    assert(t.depth[c0] == n0 - 1) by {
                        assert(p0[n0 - 1]@ == c0);
                    }
                    assert forall|i: int| 0 <= i < path@.len() implies pos_set(
                        explored@,
                    ).contains((#[trigger] path@[i])@) && self.in_grid(path@[i]@) && t.depth[
                        path@[i]@
                    ] == i by {
                        if i < n0 {
                            assert(path@[i] == p0[i]);
                            assert(e0.contains(p0[i]@));
                        } else {
                            assert(path@[i] == next);
                        }
                    }
                    assert forall|c: (int, int), d2: Direction|
                        e1.contains(c) && !pos_set(path@).contains(c) && self.in_grid(c)
                            && !self.wall(c, d2) && self.in_grid(
                            #[trigger] neighbor(c, d2),
                        ) implies e1.contains(neighbor(c, d2)) by {
                        assert(path@[n0]@ == next@);
                        assert(pos_set(path@).contains(next@));
                        assert(c != next@);
                        assert(e0.contains(c));
                        if pos_set(p0).contains(c) {
                            let i = choose|i: int| 0 <= i < p0.len() && (#[trigger] p0[i])@ == c;
                            assert(path@[i]@ == c);
                            assert(pos_set(path@).contains(c));
                        }
                    }
                }
            }
        }
        proof {
            assert forall|i: int| 0 <= i < path@.len() - 1 implies self.open_between(
                (#[trigger] path@[i])@,
                path@[i + 1]@,
            ) by {
                assert(node_ok(*self, t, path@[i + 1]@));
                self.lemma_open_symmetric(path@[i + 1]@, path@[i]@);
            }
            assert forall|i: int, j: int| 0 <= i < j < path@.len() implies (#[trigger] path@[i])@
                != (#[trigger] path@[j])@ by {
                assert(t.depth[path@[i]@] == i && t.depth[path@[j]@] == j);
            }
        }
        path
    }
}

} // verus!
