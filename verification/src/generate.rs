//! The randomized iterative backtracker that carves a fully walled grid
//! into a perfect maze.

use vstd::prelude::*;
use vstd::set_lib::lemma_len_subset;
use crate::geometry::{Direction, Position, neighbor};
use crate::maze::{
    Maze,
    contains_position,
    dir_between,
    lemma_adjacent_dir,
    lemma_dir_neighbor,
    lemma_pos_set_finite,
    lemma_pos_set_push,
    pos_set,
};
use crate::spantree::{
    SpanTree,
    grid_set,
    is_perfect,
    is_span_tree,
    lemma_closed_covers,
    lemma_grid_finite_size,
    lemma_partial_tree_full,
    node_ok,
    partial_tree,
    start_cell,
    tree_edge,
};
use crate::rng::random_below;

verus! {

broadcast use vstd::seq_lib::lemma_seq_contains_after_push;

/// A direction the generator may carve from `c`: stepping that way stays in
/// the grid and reaches a cell not yet explored.
pub open spec fn valid_direction(
    m: Maze,
    c: (int, int),
    explored: Seq<Position>,
    d: Direction,
) -> bool {
    m.in_grid(neighbor(c, d)) && !pos_set(explored).contains(neighbor(c, d))
}

impl Maze {
    /// The directions the generator may carve from `pos`: those whose
    /// neighbor cell lies in the grid and is not yet explored.
    pub fn get_valid_directions(&self, pos: Position, explored: &Vec<Position>) -> (dirs: Vec<
        Direction,
    >)
        requires
            self.wf(),
            self.in_grid(pos@),
        ensures
            forall|i: int|
                0 <= i < dirs@.len() ==> valid_direction(
                    *self,
                    pos@,
                    explored@,
                    #[trigger] dirs@[i],
                ),
            forall|d: Direction|
                #[trigger] valid_direction(*self, pos@, explored@, d) ==> dirs@.contains(d),
    {
        let mut dirs: Vec<Direction> = Vec::new();
        if pos.1 > 0 {
            let np = pos.translate(Direction::North);
            if !contains_position(explored, np) {
                dirs.push(Direction::North);
            }
        }
        assert(valid_direction(*self, pos@, explored@, Direction::North) ==> dirs@.contains(
            Direction::North,
        ));
        if pos.0 + 1 < self.size.0 {
            let np = pos.translate(Direction::East);
            if !contains_position(explored, np) {
                dirs.push(Direction::East);
            }
        }
        assert(valid_direction(*self, pos@, explored@, Direction::East) ==> dirs@.contains(
            Direction::East,
        ));
        if pos.1 + 1 < self.size.1 {
            let np = pos.translate(Direction::South);
            if !contains_position(explored, np) {
                dirs.push(Direction::South);
            }
        }
        assert(valid_direction(*self, pos@, explored@, Direction::South) ==> dirs@.contains(
            Direction::South,
        ));
        if pos.0 > 0 {
            let np = pos.translate(Direction::West);
            if !contains_position(explored, np) {
                dirs.push(Direction::West);
            }
        }
        assert(valid_direction(*self, pos@, explored@, Direction::West) ==> dirs@.contains(
            Direction::West,
        ));
        proof {
            assert forall|d: Direction| #[trigger]
                valid_direction(*self, pos@, explored@, d) implies dirs@.contains(d) by {
                match d {
                    Direction::North => {},
                    Direction::East => {},
                    Direction::South => {},
                    Direction::West => {},
                }
            }
        }
        dirs
    }

    /// Carve a perfect maze into a freshly constructed, fully walled grid:
    /// walk randomly, knocking down wall pairs into unexplored cells, and
    /// backtrack from dead ends until every cell has been visited.
    #[verifier::spinoff_prover]
    pub fn generate_maze(&mut self)
        requires
            old(self).wf(),
            old(self).fully_walled(),
        ensures
            final(self).size == old(self).size,
            is_perfect(*final(self)),
    {
        let start = Position::new();
        let mut explored: Vec<Position> = Vec::new();
        explored.push(start);
        let mut stack: Vec<Position> = Vec::new();
        stack.push(start);
        let ghost mut t = SpanTree {
            parent: Map::empty(),
            depth: Map::empty().insert(start_cell(), 0),
        };
        proof {
            assert(explored@[0]@ == start_cell());
            assert(pos_set(explored@).contains(start_cell()));
            assert(stack@[0]@ == start_cell());
            assert(pos_set(stack@).contains(start_cell()));
            assert forall|c: (int, int)| #[trigger]
                pos_set(explored@).contains(c) implies c == start_cell() by {
                let i = choose|i: int| 0 <= i < explored@.len() && (#[trigger] explored@[i])@ == c;
            }
            assert forall|c: (int, int), d: Direction| self.in_grid(c) implies #[trigger] self.wall(
                c,
                d,
            ) == (if self.in_grid(neighbor(c, d)) {
                self.wall(neighbor(c, d), d.opposite())
            } else {
                true
            }) by {
                assert(self.wall(c, d));
                if self.in_grid(neighbor(c, d)) {
                    assert(self.wall(neighbor(c, d), d.opposite()));
                }
            }
            lemma_grid_finite_size(*self);
            lemma_pos_set_finite(explored@);
            lemma_len_subset(pos_set(explored@), grid_set(*self));
        }
        while stack.len() > 0
            invariant
                self.wf(),
                self.size == old(self).size,
                self.walls_consistent(),
                pos_set(explored@).contains(start_cell()),
                forall|c: (int, int)| #[trigger] pos_set(explored@).contains(c) ==> self.in_grid(c),
                partial_tree(*self, t, pos_set(explored@)),
                forall|i: int|
                    0 <= i < stack@.len() ==> pos_set(explored@).contains((#[trigger] stack@[i])@)
                        && t.depth[stack@[i]@] == i && self.in_grid(stack@[i]@),
                forall|c: (int, int), d: Direction|
                    pos_set(explored@).contains(c) && !pos_set(stack@).contains(c) && self.in_grid(
                        #[trigger] neighbor(c, d),
                    ) && self.in_grid(c) ==> pos_set(explored@).contains(neighbor(c, d)),
                pos_set(explored@).finite(),
                pos_set(explored@).len() <= self.cell_count(),
            decreases 2 * (self.cell_count() - pos_set(explored@).len()) + stack@.len(),
        {
            let current = stack[stack.len() - 1];
            let dirs = self.get_valid_directions(current, &explored);
            if dirs.len() == 0 {
                let ghost s0 = stack@;
                stack.pop();
                proof {
                    assert(stack@ =~= s0.drop_last());
                    assert forall|c: (int, int), d: Direction|
                        pos_set(explored@).contains(c) && !pos_set(stack@).contains(c)
                            && self.in_grid(#[trigger] neighbor(c, d)) && self.in_grid(
                            c,
                        ) implies pos_set(explored@).contains(neighbor(c, d)) by {
                        if c == current@ {
                            assert(!valid_direction(*self, current@, explored@, d));
                        } else if pos_set(s0).contains(c) {
                            let i = choose|i: int| 0 <= i < s0.len() && (#[trigger] s0[i])@ == c;
                            assert(i < s0.len() - 1);
                            assert(stack@[i]@ == c);
                            assert(pos_set(stack@).contains(c));
                        }
                    }
                }
            } else {
                let k = random_below(dirs.len());
                let pick = dirs[k];
                proof {
                    assert(valid_direction(*self, current@, explored@, pick));
                    lemma_dir_neighbor(current@, pick);
                }
                let ghost t0 = t;
                let ghost m0 = *self;
                let ghost e0 = pos_set(explored@);
                let ghost s0 = stack@;
                let ghost ex0 = explored@;
                let ghost n0 = stack@.len() as int;
                self.set_wall(current, pick, false);
                let next = current.translate(pick);
                let opp = pick.get_opposite();
                proof {
                    lemma_adjacent_dir(current@, next@);
                    assert(dir_between(current@, next@) == pick);
                    assert(dir_between(next@, current@) == opp);
                }
                self.set_wall(next, opp, false);
                stack.push(next);
                explored.push(next);
                proof {
                    t = SpanTree {
                        parent: t0.parent.insert(next@, current@),
                        depth: t0.depth.insert(next@, n0),
                    };
                    lemma_pos_set_push(ex0, next);
                    let e1 = pos_set(explored@);
                    assert(e1 == e0.insert(next@));
                    vstd::set::axiom_set_insert_len(e0, next@);
                    lemma_grid_finite_size(*self);
                    lemma_len_subset(e1, grid_set(*self));
                    let m2 = *self;
                    assert(m2.wall(current@, pick) == false);
                    assert(m2.wall(next@, opp) == false);
                    assert(current@ != next@);
                    // the two carves changed exactly the two facing sides
                    assert forall|c: (int, int), d: Direction|
                        m2.in_grid(c) && !(c == current@ && d == pick) && !(c == next@ && d
                            == opp) implies #[trigger] m2.wall(c, d) == m0.wall(c, d) by {}
                    // walls stay consistent
                    assert forall|c: (int, int), d: Direction| m2.in_grid(c) implies #[trigger] m2
                        .wall(c, d) == (if m2.in_grid(neighbor(c, d)) {
                        m2.wall(neighbor(c, d), d.opposite())
                    } else {
                        true
                    }) by {
                        assert(m0.wall(c, d) == (if m0.in_grid(neighbor(c, d)) {
                            m0.wall(neighbor(c, d), d.opposite())
                        } else {
                            true
                        }));
                        if c == current@ && d == pick {
                            assert(neighbor(c, d) == next@);
                            assert(d.opposite() == opp);
                        } else if c == next@ && d == opp {
                            assert(neighbor(next@, opp) == current@);
                            assert(opp.opposite() == pick);
                        } else if m2.in_grid(neighbor(c, d)) {
                            let b = neighbor(c, d);
                            lemma_dir_neighbor(c, d);
                            lemma_adjacent_dir(c, b);
                            if b == current@ && d.opposite() == pick {
                                assert(neighbor(current@, pick) == c);
                                assert(c == next@ && d == opp);
                            } else if b == next@ && d.opposite() == opp {
                                assert(neighbor(next@, opp) == c);
                                assert(c == current@ && d == pick);
                            }
                        }
                    }
                    // opening walls preserves existing openness
                    assert forall|a: (int, int), b: (int, int)| #[trigger]
                        m0.open_between(a, b) implies m2.open_between(a, b) by {}
                    // the partial tree extends to the freshly explored cell
                    assert forall|c: (int, int)| e1.contains(c) implies #[trigger] t.depth[c]
                        >= 0 by {
                        if c != next@ {
                            assert(e0.contains(c));
                            assert(t0.depth[c] >= 0);
                        }
                    }
                    assert(t.depth[current@] == n0 - 1) by {
                        assert(s0[n0 - 1]@ == current@);
                    }
                    assert(node_ok(m2, t, next@));
                    assert forall|c: (int, int)|
                        e1.contains(c) && c != start_cell() implies #[trigger] node_ok(m2, t, c)
                            && e1.contains(t.parent[c]) by {
                        if c != next@ {
                            assert(e0.contains(c));
                            assert(node_ok(m0, t0, c));
                            assert(e0.contains(t0.parent[c]));
                            assert(t0.parent[c] != next@);
                            assert(m0.open_between(c, t0.parent[c]));
                        }
                    }
                    assert forall|a: (int, int), b: (int, int)| #[trigger]
                        m2.open_between(a, b) implies e1.contains(a) && e1.contains(b) && tree_edge(
                        t,
                        a,
                        b,
                    ) by {
                        if m0.open_between(a, b) {
                            assert(e0.contains(a) && e0.contains(b));
                            assert(a != next@ && b != next@);
                            assert(tree_edge(t0, a, b));
                        } else {
                            assert(m2.in_grid(a) && m2.in_grid(b));
                            lemma_adjacent_dir(a, b);
                            let d = dir_between(a, b);
                            assert(m2.wall(a, d) == false && m0.wall(a, d));
                            assert((a == current@ && d == pick) || (a == next@ && d == opp));
                            if a == current@ && d == pick {
                                assert(b == next@);
                            } else {
                                assert(b == current@);
                            }
                            assert(next@ != start_cell());
                        }
                    }
                    // stack bookkeeping
                    assert forall|i: int| 0 <= i < stack@.len() implies pos_set(
                        explored@,
                    ).contains((#[trigger] stack@[i])@) && t.depth[stack@[i]@] == i && self.in_grid(
                        stack@[i]@,
                    ) by {
                        if i < n0 {
                            assert(stack@[i] == s0[i]);
                            assert(e0.contains(s0[i]@));
                            assert(s0[i]@ != next@);
                        } else {
                            assert(stack@[i] == next);
                        }
                    }
                    // every cell off the new stack was off the old one, so
                    // the closure of popped cells is untouched
                    assert forall|c: (int, int), d: Direction|
                        e1.contains(c) && !pos_set(stack@).contains(c) && self.in_grid(
                            #[trigger] neighbor(c, d),
                        ) && self.in_grid(c) implies e1.contains(neighbor(c, d)) by {
                        assert(stack@[n0]@ == next@);
                        assert(pos_set(stack@).contains(next@));
                        assert(c != next@);
                        assert(e0.contains(c));
                        if pos_set(s0).contains(c) {
                            let i = choose|i: int| 0 <= i < s0.len() && (#[trigger] s0[i])@ == c;
                            assert(stack@[i]@ == c);
                            assert(pos_set(stack@).contains(c));
                        }
                    }
                }
            }
        }
        proof {
            assert forall|c: (int, int)| #[trigger] self.in_grid(c) implies pos_set(
                explored@,
            ).contains(c) by {
                lemma_closed_covers(*self, pos_set(explored@), c);
            }
            lemma_partial_tree_full(*self, t, pos_set(explored@));
            assert(is_span_tree(*self, t));
        }
    }
}

} // verus!
