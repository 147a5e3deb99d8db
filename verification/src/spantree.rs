//! The perfect-maze invariant: the open connections of a generated maze form
//! a spanning tree over the grid. A ghost parent/depth witness captures the
//! tree; from it follow the three classic consequences — every cell is
//! reachable from the start, no cycles exist, and exactly `W*H - 1` wall
//! pairs are open.

use vstd::prelude::*;
use vstd::arithmetic::div_mod::{
    lemma_fundamental_div_mod,
    lemma_fundamental_div_mod_converse,
    lemma_mod_pos_bound,
};
use vstd::set_lib::{set_int_range, lemma_int_range, lemma_map_size};
use vstd::set::axiom_set_remove_len;
use crate::geometry::{Direction, neighbor};
use crate::maze::{Maze, adjacent, dir_between, lemma_adjacent_dir};

verus! {

/// The entrance cell, fixed at the top-left corner.
pub open spec fn start_cell() -> (int, int) {
    (0, 0)
}

/// A ghost witness that a maze's open connections form a spanning tree:
/// every cell but the start has a parent it is openly connected to, one
/// step closer (in `depth`) to the start.
pub struct SpanTree {
    pub parent: Map<(int, int), (int, int)>,
    pub depth: Map<(int, int), int>,
}

/// Whether the open connection between adjacent cells `a` and `b` is an edge
/// of the tree `t`, in either parent-child orientation.
pub open spec fn tree_edge(t: SpanTree, a: (int, int), b: (int, int)) -> bool {
    ||| (a != start_cell() && t.parent[a] == b)
    ||| (b != start_cell() && t.parent[b] == a)
}

/// The per-cell tree conditions for a non-start cell `c`.
pub open spec fn node_ok(m: Maze, t: SpanTree, c: (int, int)) -> bool {
    &&& m.in_grid(t.parent[c])
    &&& adjacent(c, t.parent[c])
    &&& m.open_between(c, t.parent[c])
    &&& t.depth[c] == t.depth[t.parent[c]] + 1
}

/// The witness `t` exhibits the open connections of `m` as a spanning tree
/// rooted at the start cell.
pub open spec fn is_span_tree(m: Maze, t: SpanTree) -> bool {
    &&& t.depth[start_cell()] == 0
    &&& forall|c: (int, int)| m.in_grid(c) ==> #[trigger] t.depth[c] >= 0
    &&& forall|c: (int, int)| m.in_grid(c) && c != start_cell() ==> #[trigger] node_ok(m, t, c)
    &&& forall|a: (int, int), b: (int, int)| #[trigger] m.open_between(a, b) ==> tree_edge(t, a, b)
}

/// The invariant the generator grows: `t` exhibits the open connections of
/// `m` as a spanning tree over the explored cells `e` alone, and no open
/// connection leaves `e`.
pub open spec fn partial_tree(m: Maze, t: SpanTree, e: Set<(int, int)>) -> bool {
    &&& t.depth[start_cell()] == 0
    &&& forall|c: (int, int)| e.contains(c) ==> #[trigger] t.depth[c] >= 0
    &&& forall|c: (int, int)|
        e.contains(c) && c != start_cell() ==> #[trigger] node_ok(m, t, c) && e.contains(
            t.parent[c],
        )
    &&& forall|a: (int, int), b: (int, int)|
        #[trigger] m.open_between(a, b) ==> e.contains(a) && e.contains(b) && tree_edge(t, a, b)
}

/// A partial tree whose explored set covers the grid is a spanning tree.
pub proof fn lemma_partial_tree_full(m: Maze, t: SpanTree, e: Set<(int, int)>)
    requires
        partial_tree(m, t, e),
        forall|c: (int, int)| #[trigger] m.in_grid(c) ==> e.contains(c),
    ensures
        is_span_tree(m, t),
{
    assert forall|c: (int, int)| m.in_grid(c) && c != start_cell() implies #[trigger] node_ok(
        m,
        t,
        c,
    ) by {
        assert(e.contains(c));
    }
    assert forall|c: (int, int)| m.in_grid(c) implies #[trigger] t.depth[c] >= 0 by {
        assert(e.contains(c));
    }
}

/// A maze is perfect when its walls are consistent and its open connections
/// form a spanning tree over the whole grid.
pub open spec fn is_perfect(m: Maze) -> bool {
    &&& m.wf()
    &&& m.walls_consistent()
    &&& exists|t: SpanTree| is_span_tree(m, t)
}

/// The set of all grid coordinates of `m`.
pub open spec fn grid_set(m: Maze) -> Set<(int, int)> {
    Set::new(|c: (int, int)| m.in_grid(c))
}

/// A `W x H` grid holds exactly `W * H` cells.
pub proof fn lemma_grid_finite_size(m: Maze)
    requires
        m.wf(),
    ensures
        grid_set(m).finite(),
        grid_set(m).len() == m.cell_count(),
{
    let w = m.width();
    let h = m.height();
    let f = |k: int| (k % w, k / w);
    assert(w * h >= 1) by (nonlinear_arith)
        requires
            w >= 1,
            h >= 1,
    ;
    let source = set_int_range(0, w * h);
    lemma_int_range(0, w * h);
    assert forall|k1: int, k2: int|
        source.contains(k1) && source.contains(k2) && #[trigger] f(k1) == #[trigger] f(
            k2,
        ) implies k1 == k2 by {
        lemma_fundamental_div_mod(k1, w);
        lemma_fundamental_div_mod(k2, w);
    }
    assert forall|e: (int, int)| source.map(f).contains(e) implies grid_set(m).contains(e) by {
        let k = choose|k: int| source.contains(k) && e == f(k);
        lemma_mod_pos_bound(k, w);
        lemma_fundamental_div_mod(k, w);
        assert(0 <= k / w < h) by (nonlinear_arith)
            requires
                w >= 1,
                0 <= k < w * h,
                0 <= k % w < w,
                k == w * (k / w) + k % w,
        ;
    }
    assert forall|c: (int, int)| grid_set(m).contains(c) implies source.map(f).contains(c) by {
        let k = c.1 * w + c.0;
        assert(0 <= k < w * h) by (nonlinear_arith)
            requires
                0 <= c.0 < w,
                0 <= c.1 < h,
                k == c.1 * w + c.0,
        ;
        lemma_fundamental_div_mod_converse(k, w, c.1, c.0);
        assert(source.contains(k) && c == f(k));
    }
    assert(source.map(f) =~= grid_set(m));
    lemma_map_size(source, grid_set(m), f);
}

/// A set of cells that contains the start and is closed under stepping to
/// in-grid neighbors covers the whole grid.
pub proof fn lemma_closed_covers(m: Maze, s: Set<(int, int)>, c: (int, int))
    requires
        m.wf(),
        s.contains(start_cell()),
        forall|a: (int, int), d: Direction|
            s.contains(a) && m.in_grid(a) && m.in_grid(#[trigger] neighbor(a, d)) ==> s.contains(
                neighbor(a, d),
            ),
        m.in_grid(c),
    ensures
        s.contains(c),
    decreases c.0 + c.1,
{
    if c == start_cell() {
    } else if c.0 > 0 {
        let b = (c.0 - 1, c.1);
        lemma_closed_covers(m, s, b);
        assert(neighbor(b, Direction::East) == c);
    } else {
        let b = (c.0, c.1 - 1);
        lemma_closed_covers(m, s, b);
        assert(neighbor(b, Direction::South) == c);
    }
}

/// A sequence of in-grid cells whose consecutive cells are openly connected.
pub open spec fn is_open_path(m: Maze, q: Seq<(int, int)>) -> bool {
    &&& q.len() >= 1
    &&& forall|i: int| 0 <= i < q.len() ==> m.in_grid(#[trigger] q[i])
    &&& forall|i: int| 0 <= i < q.len() - 1 ==> m.open_between(#[trigger] q[i], q[i + 1])
}

/// `q` is an open path leading from `a` to `b`.
pub open spec fn connects(m: Maze, q: Seq<(int, int)>, a: (int, int), b: (int, int)) -> bool {
    is_open_path(m, q) && q.first() == a && q.last() == b
}

/// Some open path leads from `a` to `b`: exactly what a flood fill over open
/// sides discovers.
pub open spec fn connected(m: Maze, a: (int, int), b: (int, int)) -> bool {
    exists|q: Seq<(int, int)>| connects(m, q, a, b)
}

/// Walking the parent chain of the tree witness connects the start cell to
/// any grid cell.
pub proof fn lemma_tree_connected(m: Maze, t: SpanTree, c: (int, int))
    requires
        m.wf(),
        m.walls_consistent(),
        is_span_tree(m, t),
        m.in_grid(c),
    ensures
        connected(m, start_cell(), c),
    decreases t.depth[c],
{
    if c == start_cell() {
        let q = seq![c];
        assert(connects(m, q, c, c));
    } else {
        assert(node_ok(m, t, c));
        let p = t.parent[c];
        lemma_tree_connected(m, t, p);
        let q0 = choose|q0: Seq<(int, int)>| connects(m, q0, start_cell(), p);
        let q = q0.push(c);
        m.lemma_open_symmetric(c, p);
        assert forall|i: int| 0 <= i < q.len() - 1 implies m.open_between(
            #[trigger] q[i],
            q[i + 1],
        ) by {
            if i < q0.len() - 1 {
                assert(m.open_between(q0[i], q0[i + 1]));
            }
        }
        assert(connects(m, q, start_cell(), c));
    }
}

/// An index of a maximum-depth cell in a non-empty sequence.
proof fn lemma_max_depth_index(t: SpanTree, q: Seq<(int, int)>) -> (i: int)
    requires
        q.len() >= 1,
    ensures
        0 <= i < q.len(),
        forall|j: int| 0 <= j < q.len() ==> t.depth[#[trigger] q[j]] <= t.depth[q[i]],
    decreases q.len(),
{
    if q.len() == 1 {
        0
    } else {
        let i0 = lemma_max_depth_index(t, q.drop_last());
        assert(forall|j: int|
            0 <= j < q.len() - 1 ==> #[trigger] q[j] == q.drop_last()[j]);
        if t.depth[q.last()] >= t.depth[q[i0]] {
            q.len() - 1
        } else {
            i0
        }
    }
}

/// An open connection into a deepest cell must be the edge to that cell's
/// own parent.
proof fn lemma_edge_into_deepest(m: Maze, t: SpanTree, deepest: (int, int), other: (int, int))
    requires
        m.wf(),
        is_span_tree(m, t),
        m.open_between(other, deepest),
        t.depth[other] <= t.depth[deepest],
    ensures
        deepest != start_cell(),
        t.parent[deepest] == other,
{
    assert(tree_edge(t, other, deepest));
    if other != start_cell() && t.parent[other] == deepest {
        assert(node_ok(m, t, other));
        assert(false);
    }
}

/// While any grid cell is still outside the explored set `e`, some explored
/// cell has an open side leading to an unexplored cell: walking up the
/// parent chain of an unexplored cell finds the frontier.
pub proof fn lemma_frontier(m: Maze, t: SpanTree, e: Set<(int, int)>, c: (int, int)) -> (r: (
    (int, int),
    Direction,
))
    requires
        m.wf(),
        m.walls_consistent(),
        is_span_tree(m, t),
        e.contains(start_cell()),
        m.in_grid(c),
        !e.contains(c),
    ensures
        e.contains(r.0),
        m.in_grid(r.0),
        m.in_grid(neighbor(r.0, r.1)),
        !m.wall(r.0, r.1),
        !e.contains(neighbor(r.0, r.1)),
    decreases t.depth[c],
{
    assert(c != start_cell());
    assert(node_ok(m, t, c));
    let p = t.parent[c];
    if e.contains(p) {
        m.lemma_open_symmetric(c, p);
        lemma_adjacent_dir(c, p);
        lemma_adjacent_dir(p, c);
        ((p, dir_between(p, c)))
    } else {
        lemma_frontier(m, t, e, p)
    }
}

/// A cyclic walk: at least three pairwise distinct cells, openly connected
/// in sequence and from the last back to the first.
pub open spec fn is_cycle(m: Maze, q: Seq<(int, int)>) -> bool {
    &&& q.len() >= 3
    &&& is_open_path(m, q)
    &&& m.open_between(q.last(), q.first())
    &&& forall|i: int, j: int| 0 <= i < j < q.len() ==> q[i] != q[j]
}

/// No cyclic walk exists among the open connections of a maze with a
/// spanning-tree witness.
#[verifier::rlimit(60)]
pub proof fn lemma_no_cycle(m: Maze, t: SpanTree, q: Seq<(int, int)>)
    requires
        m.wf(),
        m.walls_consistent(),
        is_span_tree(m, t),
    ensures
        !is_cycle(m, q),
{
    if is_cycle(m, q) {
        let n = q.len() as int;
        let i = lemma_max_depth_index(t, q);
        let deepest = q[i];
        let prev = if i == 0 {
            q[n - 1]
        } else {
            q[i - 1]
        };
        let nxt = if i == n - 1 {
            q[0]
        } else {
            q[i + 1]
        };
        if i == 0 {
            assert(m.open_between(q.last(), q.first()));
            assert(m.open_between(prev, deepest));
        } else {
            assert(m.open_between(q[i - 1], q[i]));
        }
        if i == n - 1 {
            m.lemma_open_symmetric(q.last(), q.first());
            assert(m.open_between(nxt, deepest));
        } else {
            assert(m.open_between(q[i], q[i + 1]));
            m.lemma_open_symmetric(deepest, nxt);
        }
        lemma_edge_into_deepest(m, t, deepest, prev);
        lemma_edge_into_deepest(m, t, deepest, nxt);
        assert(prev == nxt);
        if i == 0 {
            assert(q[1] != q[n - 1]);
        } else if i == n - 1 {
            assert(q[0] != q[n - 2]);
        } else {
            assert(q[i - 1] != q[i + 1]);
        }
        assert(false);
    }
}

/// An open path that visits no cell twice.
pub open spec fn is_simple_path(m: Maze, q: Seq<(int, int)>) -> bool {
    &&& is_open_path(m, q)
    &&& forall|i: int, j: int| 0 <= i < j < q.len() ==> q[i] != q[j]
}

/// The cell `k` parent-steps above `c` in the tree witness.
pub open spec fn ancestor(t: SpanTree, c: (int, int), k: int) -> (int, int)
    decreases k,
{
    if k <= 0 {
        c
    } else {
        ancestor(t, t.parent[c], k - 1)
    }
}

/// Ancestors stay in the grid and sit exactly `k` levels shallower.
proof fn lemma_ancestor_props(m: Maze, t: SpanTree, c: (int, int), k: int)
    requires
        is_span_tree(m, t),
        m.in_grid(c),
        0 <= k <= t.depth[c],
    ensures
        m.in_grid(ancestor(t, c, k)),
        t.depth[ancestor(t, c, k)] == t.depth[c] - k,
    decreases k,
{
    if k > 0 {
        assert(c != start_cell());
        assert(node_ok(m, t, c));
        lemma_ancestor_props(m, t, t.parent[c], k - 1);
    }
}

/// Peeling an ancestor chain from the top instead of the bottom.
proof fn lemma_ancestor_step(t: SpanTree, c: (int, int), k: int)
    requires
        k >= 0,
    ensures
        ancestor(t, c, k + 1) == t.parent[ancestor(t, c, k)],
    decreases k,
{
    reveal_with_fuel(ancestor, 2);
    if k > 0 {
        lemma_ancestor_step(t, t.parent[c], k - 1);
    }
}

/// Along an open connection, depths differ by exactly one, and the deeper
/// cell's parent is the other.
proof fn lemma_edge_depths(m: Maze, t: SpanTree, x: (int, int), y: (int, int))
    requires
        m.wf(),
        m.walls_consistent(),
        is_span_tree(m, t),
        m.open_between(x, y),
    ensures
        (t.depth[y] == t.depth[x] + 1 && t.parent[y] == x && y != start_cell()) || (t.depth[x]
            == t.depth[y] + 1 && t.parent[x] == y && x != start_cell()),
{
    assert(tree_edge(t, x, y));
    if x != start_cell() && t.parent[x] == y {
        assert(node_ok(m, t, x));
    } else {
        assert(node_ok(m, t, y));
    }
}

/// A simple path has no interior depth peak: a cell strictly deeper than
/// both its neighbors on the path would have to be each neighbor's child.
proof fn lemma_no_peak(m: Maze, t: SpanTree, q: Seq<(int, int)>, i: int)
    requires
        m.wf(),
        m.walls_consistent(),
        is_span_tree(m, t),
        is_simple_path(m, q),
        0 < i < q.len() - 1,
    ensures
        !(t.depth[q[i - 1]] <= t.depth[q[i]] && t.depth[q[i + 1]] <= t.depth[q[i]]),
{
    if t.depth[q[i - 1]] <= t.depth[q[i]] && t.depth[q[i + 1]] <= t.depth[q[i]] {
        assert(m.open_between(q[i - 1], q[i]));
        assert(m.open_between(q[i], q[i + 1]));
        m.lemma_open_symmetric(q[i], q[i + 1]);
        lemma_edge_into_deepest(m, t, q[i], q[i - 1]);
        lemma_edge_into_deepest(m, t, q[i], q[i + 1]);
        assert(q[i - 1] == q[i + 1]);
        assert(false);
    }
}

/// Once a simple path takes a rising step, it keeps rising until the next
/// interior peak; before cell `v` that means `v` sits strictly above the
/// step's start.
#[verifier::rlimit(100)]
proof fn lemma_rising_run(m: Maze, t: SpanTree, q: Seq<(int, int)>, v: int, i: int)
    requires
        m.wf(),
        m.walls_consistent(),
        is_span_tree(m, t),
        is_simple_path(m, q),
        0 <= v < q.len(),
        0 <= i < v,
        t.depth[q[i + 1]] == t.depth[q[i]] + 1,
    ensures
        t.depth[q[v]] > t.depth[q[i]],
    decreases v - i,
{
    if i + 1 < v {
        assert(m.open_between(q[i + 1], q[i + 2]));
        lemma_edge_depths(m, t, q[i + 1], q[i + 2]);
        if t.depth[q[i + 2]] == t.depth[q[i + 1]] + 1 {
            lemma_rising_run(m, t, q, v, i + 1);
        } else {
            lemma_no_peak(m, t, q, i + 1);
        }
    }
}

/// Before a minimum-depth cell, every step of a simple path descends to the
/// parent.
#[verifier::rlimit(100)]
proof fn lemma_falling_prefix(m: Maze, t: SpanTree, q: Seq<(int, int)>, v: int, i: int)
    requires
        m.wf(),
        m.walls_consistent(),
        is_span_tree(m, t),
        is_simple_path(m, q),
        0 <= v < q.len(),
        forall|j: int| 0 <= j < q.len() ==> t.depth[q[v]] <= t.depth[#[trigger] q[j]],
        0 <= i < v,
    ensures
        t.depth[q[i + 1]] == t.depth[q[i]] - 1,
        t.parent[q[i]] == q[i + 1],
        q[i] != start_cell(),
{
    assert(m.open_between(q[i], q[i + 1]));
    lemma_edge_depths(m, t, q[i], q[i + 1]);
    if t.depth[q[i + 1]] == t.depth[q[i]] + 1 && t.parent[q[i + 1]] == q[i] {
        lemma_rising_run(m, t, q, v, i);
        assert(t.depth[q[v]] <= t.depth[q[i]]);
    }
}

/// Tracing a falling step of a simple path backward, the path was falling
/// all along since `v`; so `v` sits strictly above the step's end.
#[verifier::rlimit(100)]
proof fn lemma_falling_run(m: Maze, t: SpanTree, q: Seq<(int, int)>, v: int, i: int)
    requires
        m.wf(),
        m.walls_consistent(),
        is_span_tree(m, t),
        is_simple_path(m, q),
        0 <= v < q.len(),
        v <= i < q.len() - 1,
        t.depth[q[i + 1]] == t.depth[q[i]] - 1,
    ensures
        t.depth[q[v]] > t.depth[q[i + 1]],
    decreases i - v,
{
    if i > v {
        assert(m.open_between(q[i - 1], q[i]));
        lemma_edge_depths(m, t, q[i - 1], q[i]);
        if t.depth[q[i]] == t.depth[q[i - 1]] - 1 {
            lemma_falling_run(m, t, q, v, i - 1);
        } else {
            lemma_no_peak(m, t, q, i);
        }
    }
}

/// After a minimum-depth cell, every step of a simple path ascends from the
/// parent.
#[verifier::rlimit(100)]
proof fn lemma_rising_suffix(m: Maze, t: SpanTree, q: Seq<(int, int)>, v: int, i: int)
    requires
        m.wf(),
        m.walls_consistent(),
        is_span_tree(m, t),
        is_simple_path(m, q),
        0 <= v < q.len(),
        forall|j: int| 0 <= j < q.len() ==> t.depth[q[v]] <= t.depth[#[trigger] q[j]],
        v <= i < q.len() - 1,
    ensures
        t.depth[q[i + 1]] == t.depth[q[i]] + 1,
        t.parent[q[i + 1]] == q[i],
        q[i + 1] != start_cell(),
{
    assert(m.open_between(q[i], q[i + 1]));
    lemma_edge_depths(m, t, q[i], q[i + 1]);
    if t.depth[q[i]] == t.depth[q[i + 1]] + 1 && t.parent[q[i]] == q[i + 1] {
        lemma_falling_run(m, t, q, v, i);
        assert(t.depth[q[v]] <= t.depth[q[i + 1]]);
    }
}

/// An index of a minimum-depth cell in a non-empty sequence.
proof fn lemma_min_depth_index(t: SpanTree, q: Seq<(int, int)>) -> (i: int)
    requires
        q.len() >= 1,
    ensures
        0 <= i < q.len(),
        forall|j: int| 0 <= j < q.len() ==> t.depth[q[i]] <= t.depth[#[trigger] q[j]],
    decreases q.len(),
{
    if q.len() == 1 {
        0
    } else {
        let i0 = lemma_min_depth_index(t, q.drop_last());
        assert(forall|j: int| 0 <= j < q.len() - 1 ==> #[trigger] q[j] == q.drop_last()[j]);
        if t.depth[q.last()] <= t.depth[q[i0]] {
            q.len() - 1
        } else {
            i0
        }
    }
}

/// Up to its valley, a simple path walks the ancestor chain of its first
/// cell.
#[verifier::rlimit(100)]
#[verifier::spinoff_prover]
proof fn lemma_prefix_is_chain(m: Maze, t: SpanTree, q: Seq<(int, int)>, v: int, i: int)
    requires
        m.wf(),
        m.walls_consistent(),
        is_span_tree(m, t),
        is_simple_path(m, q),
        0 <= v < q.len(),
        forall|j: int| 0 <= j < q.len() ==> t.depth[q[v]] <= t.depth[#[trigger] q[j]],
        0 <= i <= v,
    ensures
        q[i] == ancestor(t, q[0], i),
        t.depth[q[i]] == t.depth[q[0]] - i,
    decreases i,
{
    if i > 0 {
        lemma_prefix_is_chain(m, t, q, v, i - 1);
        lemma_falling_prefix(m, t, q, v, i - 1);
        lemma_ancestor_step(t, q[0], i - 1);
    }
}

/// From its valley on, a simple path walks the reversed ancestor chain of
/// its last cell.
#[verifier::rlimit(100)]
#[verifier::spinoff_prover]
proof fn lemma_suffix_is_chain(m: Maze, t: SpanTree, q: Seq<(int, int)>, v: int, j: int)
    requires
        m.wf(),
        m.walls_consistent(),
        is_span_tree(m, t),
        is_simple_path(m, q),
        0 <= v < q.len(),
        forall|j2: int| 0 <= j2 < q.len() ==> t.depth[q[v]] <= t.depth[#[trigger] q[j2]],
        0 <= j <= q.len() - 1 - v,
    ensures
        q[q.len() - 1 - j] == ancestor(t, q.last(), j),
        t.depth[q[q.len() - 1 - j]] == t.depth[q.last()] - j,
    decreases j,
{
    if j > 0 {
        lemma_suffix_is_chain(m, t, q, v, j - 1);
        lemma_rising_suffix(m, t, q, v, q.len() - 1 - j);
        lemma_ancestor_step(t, q.last(), j - 1);
    }
}

/// Two simple paths with the same endpoints have valleys at the same depth:
/// otherwise the shallower valley's path would visit the other valley cell
/// twice.
#[verifier::rlimit(100)]
#[verifier::spinoff_prover]
proof fn lemma_valley_depths_equal(
    m: Maze,
    t: SpanTree,
    p: Seq<(int, int)>,
    q: Seq<(int, int)>,
    vp: int,
    vq: int,
)
    requires
        m.wf(),
        m.walls_consistent(),
        is_span_tree(m, t),
        is_simple_path(m, p),
        is_simple_path(m, q),
        p[0] == q[0],
        p.last() == q.last(),
        0 <= vp < p.len(),
        0 <= vq < q.len(),
        forall|j: int| 0 <= j < p.len() ==> t.depth[p[vp]] <= t.depth[#[trigger] p[j]],
        forall|j: int| 0 <= j < q.len() ==> t.depth[q[vq]] <= t.depth[#[trigger] q[j]],
        t.depth[p[vp]] <= t.depth[q[vq]],
    ensures
        t.depth[p[vp]] == t.depth[q[vq]],
{
    let da = t.depth[p[0]];
    let db = t.depth[p.last()];
    let m1 = t.depth[p[vp]];
    let m2 = t.depth[q[vq]];
    lemma_prefix_is_chain(m, t, p, vp, vp);
    lemma_suffix_is_chain(m, t, p, vp, p.len() - 1 - vp);
    lemma_prefix_is_chain(m, t, q, vq, vq);
    lemma_suffix_is_chain(m, t, q, vq, q.len() - 1 - vq);
    // the valley of q, at depth m2, appears on both chains of p
    let i1 = da - m2;
    let j1 = db - m2;
    assert(vp == da - m1 && p.len() - 1 - vp == db - m1);
    assert(vq == da - m2 && q.len() - 1 - vq == db - m2);
    assert(0 <= i1 <= vp);
    assert(0 <= j1 <= p.len() - 1 - vp);
    lemma_prefix_is_chain(m, t, p, vp, i1);
    lemma_suffix_is_chain(m, t, p, vp, j1);
    assert(q[vq] == ancestor(t, q[0], vq));
    assert(q[vq] == ancestor(t, q.last(), q.len() - 1 - vq));
    assert(p[i1] == ancestor(t, p[0], i1));
    assert(p[p.len() - 1 - j1] == ancestor(t, p.last(), j1));
    assert(p[i1] == q[vq]);
    assert(p[p.len() - 1 - j1] == q[vq]);
    if i1 != p.len() - 1 - j1 {
        assert(false);
    }
    assert(da - m2 == p.len() - 1 - (db - m2));
}

/// THEOREM (unique simple path). In a perfect maze there is at most one
/// simple open path between any two cells: with reachability this is the
/// "exactly one route between every two cells" property of a perfect maze.
#[verifier::rlimit(100)]
#[verifier::spinoff_prover]
pub proof fn theorem_unique_simple_path(m: Maze, p: Seq<(int, int)>, q: Seq<(int, int)>)
    requires
        is_perfect(m),
        is_simple_path(m, p),
        is_simple_path(m, q),
        p.first() == q.first(),
        p.last() == q.last(),
    ensures
        p == q,
{
    let t = choose|t: SpanTree| is_span_tree(m, t);
    let vp = lemma_min_depth_index(t, p);
    let vq = lemma_min_depth_index(t, q);
    if t.depth[p[vp]] <= t.depth[q[vq]] {
        lemma_valley_depths_equal(m, t, p, q, vp, vq);
    } else {
        lemma_valley_depths_equal(m, t, q, p, vq, vp);
    }
    let da = t.depth[p[0]];
    let db = t.depth[p.last()];
    let m1 = t.depth[p[vp]];
    lemma_prefix_is_chain(m, t, p, vp, vp);
    lemma_suffix_is_chain(m, t, p, vp, p.len() - 1 - vp);
    lemma_prefix_is_chain(m, t, q, vq, vq);
    lemma_suffix_is_chain(m, t, q, vq, q.len() - 1 - vq);
    assert(vp == da - m1 && vq == da - m1);
    assert(p.len() == da + db - 2 * m1 + 1 && q.len() == p.len());
    assert forall|i: int| 0 <= i < p.len() implies p[i] == q[i] by {
        if i <= vp {
            lemma_prefix_is_chain(m, t, p, vp, i);
            lemma_prefix_is_chain(m, t, q, vq, i);
        } else {
            lemma_suffix_is_chain(m, t, p, vp, p.len() - 1 - i);
            lemma_suffix_is_chain(m, t, q, vq, q.len() - 1 - i);
        }
    }
    assert(p =~= q);
}

/// Lexicographic order on cells, rows first: picks one canonical orientation
/// for each undirected open connection.
pub open spec fn lex_less(a: (int, int), b: (int, int)) -> bool {
    a.1 < b.1 || (a.1 == b.1 && a.0 < b.0)
}

/// The set of undirected open connections of `m`, each counted once in its
/// canonical orientation.
pub open spec fn open_edge_set(m: Maze) -> Set<((int, int), (int, int))> {
    Set::new(|e: ((int, int), (int, int))| m.open_between(e.0, e.1) && lex_less(e.0, e.1))
}

/// The canonical undirected edge between a cell and its tree parent.
spec fn parent_edge_of(t: SpanTree, c: (int, int)) -> ((int, int), (int, int)) {
    if lex_less(c, t.parent[c]) {
        (c, t.parent[c])
    } else {
        (t.parent[c], c)
    }
}

/// A maze with a spanning-tree witness has exactly `W * H - 1` open
/// connections: one wall pair per non-start cell was removed.
#[verifier::rlimit(60)]
pub proof fn lemma_tree_edge_count(m: Maze, t: SpanTree)
    requires
        m.wf(),
        m.walls_consistent(),
        is_span_tree(m, t),
    ensures
        open_edge_set(m).finite(),
        open_edge_set(m).len() == m.cell_count() - 1,
{
    let f = |c: (int, int)| parent_edge_of(t, c);
    let s = grid_set(m).remove(start_cell());
    lemma_grid_finite_size(m);
    assert(grid_set(m).contains(start_cell()));
    axiom_set_remove_len(grid_set(m), start_cell());
    assert forall|c1: (int, int), c2: (int, int)|
        s.contains(c1) && s.contains(c2) && #[trigger] f(c1) == #[trigger] f(c2) implies c1
        == c2 by {
        assert(node_ok(m, t, c1));
        assert(node_ok(m, t, c2));
        let p1 = t.parent[c1];
        let p2 = t.parent[c2];
        if c1 != c2 {
            assert(c1 == p2 && c2 == p1);
            assert(t.depth[c1] == t.depth[p1] + 1);
            assert(t.depth[c2] == t.depth[p2] + 1);
            assert(false);
        }
    }
    assert forall|e: ((int, int), (int, int))| s.map(f).contains(e) implies open_edge_set(
        m,
    ).contains(e) by {
        let c = choose|c: (int, int)| s.contains(c) && e == f(c);
        assert(node_ok(m, t, c));
        m.lemma_open_symmetric(c, t.parent[c]);
    }
    assert forall|e: ((int, int), (int, int))| open_edge_set(m).contains(e) implies s.map(
        f,
    ).contains(e) by {
        assert(m.open_between(e.0, e.1));
        assert(tree_edge(t, e.0, e.1));
        if e.0 != start_cell() && t.parent[e.0] == e.1 {
            assert(s.contains(e.0) && e == f(e.0));
        } else {
            assert(s.contains(e.1) && e == f(e.1));
        }
    }
    assert(s.map(f) =~= open_edge_set(m));
    lemma_map_size(s, open_edge_set(m), f);
}

/// THEOREM. A perfect maze has exactly `W * H - 1` open connections, i.e.
/// exactly that many wall pairs were removed from the fully walled grid.
pub proof fn theorem_perfect_edge_count(m: Maze)
    requires
        is_perfect(m),
    ensures
        open_edge_set(m).finite(),
        open_edge_set(m).len() == m.cell_count() - 1,
{
    let t = choose|t: SpanTree| is_span_tree(m, t);
    lemma_tree_edge_count(m, t);
}

/// THEOREM. In a perfect maze every cell is reachable from the start cell
/// through open connections: a flood fill from the start visits all cells.
pub proof fn theorem_all_cells_reachable(m: Maze)
    requires
        is_perfect(m),
    ensures
        forall|c: (int, int)| m.in_grid(c) ==> connected(m, start_cell(), c),
{
    let t = choose|t: SpanTree| is_span_tree(m, t);
    assert forall|c: (int, int)| m.in_grid(c) implies connected(m, start_cell(), c) by {
        lemma_tree_connected(m, t, c);
    }
}

/// THEOREM. A perfect maze has no cycles among its open connections.
pub proof fn theorem_no_cycles(m: Maze)
    requires
        is_perfect(m),
    ensures
        forall|q: Seq<(int, int)>| !is_cycle(m, q),
{
    let t = choose|t: SpanTree| is_span_tree(m, t);
    assert forall|q: Seq<(int, int)>| !is_cycle(m, q) by {
        lemma_no_cycle(m, t, q);
    }
}

} // verus!
