use vstd::prelude::*;
use crate::cell::Cell;
use std::collections::HashMap;
use std::collections::HashSet;

verus! {

/// A direction of one orthogonal step on the grid.
#[derive(Clone, Copy, Debug, PartialEq, Eq, Structural)]
pub enum Direction {
    Up,
    Down,
    Left,
    Right,
}

/// The flat index of the cell at `row`, `col` on a `size`-wide grid.
pub open spec fn grid_index(row: int, col: int, size: int) -> int {
    row * size + col
}

/// The index one step from `idx` in direction `dir`, or `None` when the
/// step would leave the `size` x `size` grid.
pub open spec fn step_spec(idx: int, dir: Direction, size: int) -> Option<int> {
    let row = idx / size;
    let col = idx % size;
    match dir {
        Direction::Up => if row == 0 {
            None
        } else {
            Some(grid_index(row - 1, col, size))
        },
        Direction::Down => if row >= size - 1 {
            None
        } else {
            Some(grid_index(row + 1, col, size))
        },
        Direction::Left => if col == 0 {
            None
        } else {
            Some(grid_index(row, col - 1, size))
        },
        Direction::Right => if col >= size - 1 {
            None
        } else {
            Some(grid_index(row, col + 1, size))
        },
    }
}

/// `b` lies one step from `a` in some direction.
pub open spec fn adjacent(a: int, b: int, size: int) -> bool {
    exists|dir: Direction| step_spec(a, dir, size) == Some(b)
}

pub proof fn lemma_grid_coords(idx: int, size: int)
    requires
        size >= 1,
        0 <= idx < size * size,
    ensures
        idx == (idx / size) * size + (idx % size),
        0 <= idx % size < size,
        0 <= idx / size < size,
{
    vstd::arithmetic::div_mod::lemma_fundamental_div_mod(idx, size);
    vstd::arithmetic::div_mod::lemma_mod_bound(idx, size);
    vstd::arithmetic::mul::lemma_mul_is_commutative(size, idx / size);
    assert(idx / size < size) by (nonlinear_arith)
        requires
            size >= 1,
            0 <= idx < size * size,
            idx == size * (idx / size) + (idx % size),
            0 <= idx % size,
    ;
    assert(0 <= idx / size) by (nonlinear_arith)
        requires
            size >= 1,
            0 <= idx,
            idx == size * (idx / size) + (idx % size),
            idx % size < size,
    ;
}

pub proof fn lemma_step_in_bounds(idx: int, dir: Direction, size: int)
    requires
        size >= 1,
        0 <= idx < size * size,
    ensures
        step_spec(idx, dir, size) matches Some(j) ==> 0 <= j < size * size,
{
    lemma_grid_coords(idx, size);
    let row = idx / size;
    let col = idx % size;
    if let Some(j) = step_spec(idx, dir, size) {
        assert forall|r: int, c: int| 0 <= r < size && 0 <= c < size implies 0 <= #[trigger] grid_index(
            r,
            c,
            size,
        ) < size * size by {
            assert(0 <= r * size + c < size * size) by (nonlinear_arith)
                requires
                    0 <= r < size,
                    0 <= c < size,
            ;
        }
    }
}

/// The flat index of the cell at `row`, `col` on a `size`-wide grid.
pub fn to_index(row: usize, col: usize, size: usize) -> (r: usize)
    requires
        row < size,
        col < size,
        size * size <= usize::MAX,
    ensures
        r == grid_index(row as int, col as int, size as int),
        r < size * size,
{
    proof {
        assert(row * size + col < size * size) by (nonlinear_arith)
            requires
                row < size,
                col < size,
        ;
    }
    row * size + col
}

/// The cell one step from `idx` in direction `dir`, or `None` at the edge
/// of the `board_size` x `board_size` grid.
pub fn move_one(idx: usize, dir: Direction, board_size: usize) -> (r: Option<usize>)
    requires
        board_size >= 1,
        idx < board_size * board_size,
        board_size * board_size <= usize::MAX,
    ensures
        match r {
            Some(j) => step_spec(idx as int, dir, board_size as int) == Some(j as int) && j
                < board_size * board_size,
            None => step_spec(idx as int, dir, board_size as int) is None,
        },
{
    proof {
        lemma_grid_coords(idx as int, board_size as int);
        lemma_step_in_bounds(idx as int, dir, board_size as int);
    }
    let row = idx / board_size;
    let col = idx % board_size;
    match dir {
        Direction::Up => if row == 0 {
            None
        } else {
            Some(to_index(row - 1, col, board_size))
        },
        Direction::Down => if row >= board_size - 1 {
            None
        } else {
            Some(to_index(row + 1, col, board_size))
        },
        Direction::Left => if col == 0 {
            None
        } else {
            Some(to_index(row, col - 1, board_size))
        },
        Direction::Right => if col >= board_size - 1 {
            None
        } else {
            Some(to_index(row, col + 1, board_size))
        },
    }
}

pub proof fn lemma_step_values(idx: int, dir: Direction, size: int)
    requires
        size >= 1,
        0 <= idx < size * size,
    ensures
        match step_spec(idx, dir, size) {
            Some(j) => j == (match dir {
                Direction::Up => idx - size,
                Direction::Down => idx + size,
                Direction::Left => idx - 1,
                Direction::Right => idx + 1,
            }),
            None => true,
        },
{
    lemma_grid_coords(idx, size);
    let row = idx / size;
    let col = idx % size;
    match dir {
        Direction::Up => if row != 0 {
            assert((row - 1) * size + col == idx - size) by (nonlinear_arith)
                requires
                    idx == row * size + col,
            ;
        },
        Direction::Down => if row < size - 1 {
            assert((row + 1) * size + col == idx + size) by (nonlinear_arith)
                requires
                    idx == row * size + col,
            ;
        },
        Direction::Left => {
        },
        Direction::Right => {
        },
    }
}

/// Only empty cells are ever reachable: a reachable target is in bounds
/// and `Unreachable` in the grid the walk runs over.
pub proof fn lemma_reach_only_unreachable(g: Seq<Cell>, size: int, start: int, t: int)
    ensures
        grid_reach(g, size, start, t) ==> 0 <= t < g.len() && g[t] == Cell::Unreachable,
{
    if grid_reach(g, size, start, t) {
        let p = choose|p: Seq<int>| grid_path_ok(g, size, p) && p[0] == start && p.last() == t;
        assert(0 <= p[p.len() - 1] < g.len() && g[p[p.len() - 1]] == Cell::Unreachable);
    }
}

/// A walk over the grid `g`: a nonempty sequence of in-bounds indices of
/// empty (`Unreachable`) cells in which each element is one step from the
/// one before it.
pub open spec fn grid_path_ok(g: Seq<Cell>, size: int, p: Seq<int>) -> bool {
    &&& p.len() > 0
    &&& (forall|k: int| 0 <= k < p.len() ==> 0 <= #[trigger] p[k] < g.len() && g[p[k]]
        == Cell::Unreachable)
    &&& (forall|k: int| 1 <= k < p.len() ==> adjacent(p[k - 1], #[trigger] p[k], size))
}

/// The tractor standing at `start` can reach `target` by ordinary moves
/// through empty cells of `g`, without pushing anything.
pub open spec fn grid_reach(g: Seq<Cell>, size: int, start: int, target: int) -> bool {
    exists|p: Seq<int>|
        grid_path_ok(g, size, p) && p[0] == start && p.last() == target
}

/// The grid after a reachability flood-fill from `start`: every cell the
/// tractor can reach through empty cells is marked `Reachable`, and every
/// other cell keeps its value.
pub open spec fn filled(g: Seq<Cell>, size: int, start: int) -> Seq<Cell> {
    Seq::new(
        g.len(),
        |i: int| if grid_reach(g, size, start, i) {
            Cell::Reachable
        } else {
            g[i]
        },
    )
}

pub proof fn lemma_reach_refl(g: Seq<Cell>, size: int, start: int)
    requires
        0 <= start < g.len(),
        g[start] == Cell::Unreachable,
    ensures
        grid_reach(g, size, start, start),
{
    let p = seq![start];
    assert(grid_path_ok(g, size, p) && p[0] == start && p.last() == start);
}

pub proof fn lemma_reach_extend(g: Seq<Cell>, size: int, start: int, a: int, b: int)
    requires
        grid_reach(g, size, start, a),
        adjacent(a, b, size),
        0 <= b < g.len(),
        g[b] == Cell::Unreachable,
    ensures
        grid_reach(g, size, start, b),
{
    let p = choose|p: Seq<int>| grid_path_ok(g, size, p) && p[0] == start && p.last() == a;
    let q = p.push(b);
    assert(q.last() == b);
    assert forall|k: int| 1 <= k < q.len() implies adjacent(q[k - 1], #[trigger] q[k], size) by {
        if k < q.len() - 1 {
            assert(q[k - 1] == p[k - 1] && q[k] == p[k]);
        } else {
            assert(q[k - 1] == a && q[k] == b);
        }
    }
    assert(grid_path_ok(g, size, q) && q[0] == start && q.last() == b);
}

pub proof fn lemma_reach_needs_open_start(g: Seq<Cell>, size: int, start: int)
    requires
        !(0 <= start < g.len() && g[start] == Cell::Unreachable),
    ensures
        forall|t: int| !grid_reach(g, size, start, t),
{
    assert forall|t: int| !grid_reach(g, size, start, t) by {
        if grid_reach(g, size, start, t) {
            let p = choose|p: Seq<int>|
                grid_path_ok(g, size, p) && p[0] == start && p.last() == t;
            assert(0 <= p[0] < g.len() && g[p[0]] == Cell::Unreachable);
        }
    }
}

/// How many cells of `g` are `Unreachable`; the flood-fill's termination
/// measure.
pub open spec fn count_unreachable(g: Seq<Cell>) -> nat
    decreases g.len(),
{
    if g.len() == 0 {
        0nat
    } else {
        count_unreachable(g.drop_last()) + (if g.last() == Cell::Unreachable {
            1nat
        } else {
            0nat
        })
    }
}

proof fn lemma_count_update_marks(g: Seq<Cell>, j: int)
    requires
        0 <= j < g.len(),
        g[j] == Cell::Unreachable,
    ensures
        count_unreachable(g.update(j, Cell::Reachable)) < count_unreachable(g),
    decreases g.len(),
{
    let g2 = g.update(j, Cell::Reachable);
    if j == g.len() - 1 {
        assert(g2.drop_last() =~= g.drop_last());
    } else {
        assert(g2.drop_last() =~= g.drop_last().update(j, Cell::Reachable));
        lemma_count_update_marks(g.drop_last(), j);
        assert(g2.last() == g.last());
    }
}

/// A partially flood-filled grid `g`: relative to the starting grid `g0`,
/// the only changes are empty cells marked `Reachable`, and each such mark
/// is justified by a walk from `start`.
spec fn marks_sound(g0: Seq<Cell>, g: Seq<Cell>, size: int, start: int) -> bool {
    &&& g.len() == g0.len()
    &&& (forall|i: int|
        0 <= i < g.len() ==> (#[trigger] g[i] == g0[i] || (g0[i] == Cell::Unreachable && g[i]
            == Cell::Reachable && grid_reach(g0, size, start, i))))
}

/// If the marked region of `m` is closed under steps onto empty cells,
/// then it covers the endpoint of every walk that starts inside it.
proof fn lemma_path_covered(g0: Seq<Cell>, size: int, m: Seq<Cell>, p: Seq<int>)
    requires
        m.len() == g0.len(),
        grid_path_ok(g0, size, p),
        m[p[0]] == Cell::Reachable,
        forall|a: int, b: int|
            0 <= a < m.len() && m[a] == Cell::Reachable && g0[a] == Cell::Unreachable
                && #[trigger] adjacent(a, b, size) && 0 <= b < m.len() && g0[b]
                == Cell::Unreachable ==> m[b] == Cell::Reachable,
    ensures
        m[p.last()] == Cell::Reachable,
    decreases p.len(),
{
    if p.len() > 1 {
        let q = p.drop_last();
        assert(grid_path_ok(g0, size, q));
        lemma_path_covered(g0, size, m, q);
        let a = p[p.len() - 2];
        let b = p.last();
        assert(q.last() == a);
        assert(adjacent(a, b, size));
        assert(g0[a] == Cell::Unreachable && g0[b] == Cell::Unreachable);
        assert(m[b] == Cell::Reachable);
    }
}

/// Every element of the worklist `st` is an in-bounds, originally empty
/// cell that has already been marked `Reachable` in `g`.
spec fn stack_marked(g0: Seq<Cell>, g: Seq<Cell>, st: Seq<usize>) -> bool {
    forall|k: int|
        #![trigger st[k]]
        0 <= k < st.len() ==> st[k] < g0.len() && g[st[k] as int] == Cell::Reachable && g0[st[k] as int]
            == Cell::Unreachable
}

/// Every marked cell that is no longer on the worklist has had all of its
/// neighbours visited: none of them is still `Unreachable`.
spec fn frontier(g0: Seq<Cell>, g: Seq<Cell>, st: Seq<usize>, size: int) -> bool {
    forall|a: int, dir: Direction|
        0 <= a < g0.len() && g0[a] == Cell::Unreachable && g[a] == Cell::Reachable && !st.contains(
            a as usize,
        ) ==> (#[trigger] step_spec(a, dir, size) matches Some(b) ==> g[b] != Cell::Unreachable)
}

/// One direction of the flood-fill step at `cur`: if the neighbouring cell
/// in direction `dir` is still empty, mark it `Reachable` and put it on the
/// worklist.
fn try_mark_step(
    cur: usize,
    dir: Direction,
    grid: &mut Vec<Cell>,
    stack: &mut Vec<usize>,
    size: usize,
    Ghost(g0): Ghost<Seq<Cell>>,
    Ghost(start): Ghost<int>,
)
    requires
        size >= 1,
        size * size <= usize::MAX,
        g0.len() == size * size,
        old(grid)@.len() == g0.len(),
        cur < size * size,
        marks_sound(g0, old(grid)@, size as int, start),
        grid_reach(g0, size as int, start, cur as int),
        stack_marked(g0, old(grid)@, old(stack)@),
    ensures
        final(grid)@.len() == old(grid)@.len(),
        marks_sound(g0, final(grid)@, size as int, start),
        stack_marked(g0, final(grid)@, final(stack)@),
        forall|i: int|
            #![trigger final(grid)@[i]]
            0 <= i < g0.len() && old(grid)@[i] != Cell::Unreachable ==> final(grid)@[i] == old(
                grid,
            )@[i],
        forall|i: int|
            #![trigger final(grid)@[i]]
            0 <= i < g0.len() && final(grid)@[i] != old(grid)@[i] ==> final(stack)@.contains(
                i as usize,
            ),
        forall|x: usize|
            #![trigger final(stack)@.contains(x)]
            old(stack)@.contains(x) ==> final(stack)@.contains(x),
        step_spec(cur as int, dir, size as int) matches Some(b) ==> final(grid)@[b]
            != Cell::Unreachable,
        (final(grid)@ == old(grid)@ && final(stack)@ == old(stack)@) || count_unreachable(
            final(grid)@,
        ) < count_unreachable(old(grid)@),
{
    match move_one(cur, dir, size) {
        Some(nb) => {
            if grid[nb] == Cell::Unreachable {
                proof {
                    assert(g0[nb as int] == Cell::Unreachable);
                    assert(adjacent(cur as int, nb as int, size as int));
                    lemma_reach_extend(g0, size as int, start, cur as int, nb as int);
                    lemma_count_update_marks(grid@, nb as int);
                }
                grid.set(nb, Cell::Reachable);
                stack.push(nb);
                proof {
                    broadcast use vstd::seq_lib::lemma_seq_contains_after_push;

                    assert(stack@.contains(nb));
                }
            }
        },
        None => {},
    }
}

/// Marks as `Reachable`, in place, every cell of `grid` that the tractor
/// standing at `start` can reach by orthogonal moves through empty cells.
/// Cells it cannot reach are left untouched.
pub fn fill_reachable_cells(start: usize, grid: &mut Vec<Cell>, size: usize)
    requires
        old(grid)@.len() == size * size,
        start < old(grid)@.len(),
        size * size <= usize::MAX,
    ensures
        final(grid)@ == filled(old(grid)@, size as int, start as int),
{
    let ghost g0 = grid@;
    proof {
        assert(size >= 1) by (nonlinear_arith)
            requires
                0 < size * size,
        ;
    }
    if grid[start] != Cell::Unreachable {
        proof {
            lemma_reach_needs_open_start(g0, size as int, start as int);
            assert(grid@ =~= filled(g0, size as int, start as int));
        }
        return;
    }
    grid.set(start, Cell::Reachable);
    let mut stack: Vec<usize> = Vec::new();
    stack.push(start);
    proof {
        lemma_reach_refl(g0, size as int, start as int);
        assert(stack@[0] == start);
        assert(stack@.contains(start));
    }
    while stack.len() != 0
        invariant
            size >= 1,
            g0.len() == size * size,
            size * size <= usize::MAX,
            grid@.len() == g0.len(),
            0 <= start < g0.len(),
            g0[start as int] == Cell::Unreachable,
            grid@[start as int] == Cell::Reachable,
            marks_sound(g0, grid@, size as int, start as int),
            stack_marked(g0, grid@, stack@),
            frontier(g0, grid@, stack@, size as int),
        decreases count_unreachable(grid@), stack@.len(),
    {
        let ghost g_top = grid@;
        let ghost s_top = stack@;
        let cur = stack.pop().unwrap();
        let ghost s_pop = stack@;
        proof {
            assert(grid@[cur as int] == Cell::Reachable && g0[cur as int] == Cell::Unreachable);
            assert(grid_reach(g0, size as int, start as int, cur as int));
        }
        try_mark_step(cur, Direction::Up, grid, &mut stack, size, Ghost(g0), Ghost(start as int));
        let ghost g1 = grid@;
        let ghost s1 = stack@;
        try_mark_step(cur, Direction::Down, grid, &mut stack, size, Ghost(g0), Ghost(start as int));
        let ghost g2 = grid@;
        let ghost s2 = stack@;
        try_mark_step(cur, Direction::Left, grid, &mut stack, size, Ghost(g0), Ghost(start as int));
        let ghost g3 = grid@;
        let ghost s3 = stack@;
        try_mark_step(cur, Direction::Right, grid, &mut stack, size, Ghost(g0), Ghost(start as int));
        proof {
            assert forall|i: int|
                0 <= i < g0.len() && g_top[i] != Cell::Unreachable implies #[trigger] grid@[i]
                == g_top[i] by {
                assert(g1[i] == g_top[i]);
                assert(g2[i] == g1[i]);
                assert(g3[i] == g2[i]);
                assert(grid@[i] == g3[i]);
            }
            assert forall|x: usize| s_pop.contains(x) implies #[trigger] stack@.contains(x) by {
                assert(s1.contains(x));
                assert(s2.contains(x));
                assert(s3.contains(x));
            }
            assert forall|i: int|
                0 <= i < g0.len() && grid@[i] != g_top[i] implies stack@.contains(i as usize) by {
                if g1[i] != g_top[i] {
                    assert(s1.contains(i as usize));
                    assert(s2.contains(i as usize));
                    assert(s3.contains(i as usize));
                } else if g2[i] != g1[i] {
                    assert(s2.contains(i as usize));
                    assert(s3.contains(i as usize));
                } else if g3[i] != g2[i] {
                    assert(s3.contains(i as usize));
                } else {
                    assert(grid@[i] != g3[i]);
                }
            }
            assert forall|a: int, dir: Direction|
                0 <= a < g0.len() && g0[a] == Cell::Unreachable && grid@[a] == Cell::Reachable
                    && !stack@.contains(a as usize) implies (#[trigger] step_spec(
                a,
                dir,
                size as int,
            ) matches Some(b) ==> grid@[b] != Cell::Unreachable) by {
                if let Some(b) = step_spec(a, dir, size as int) {
                    lemma_step_in_bounds(a, dir, size as int);
                    if a == cur as int {
                        if dir == Direction::Up {
                            assert(g1[b] != Cell::Unreachable);
                            assert(g2[b] == g1[b]);
                            assert(g3[b] == g2[b]);
                            assert(grid@[b] == g3[b]);
                        } else if dir == Direction::Down {
                            assert(g2[b] != Cell::Unreachable);
                            assert(g3[b] == g2[b]);
                            assert(grid@[b] == g3[b]);
                        } else if dir == Direction::Left {
                            assert(g3[b] != Cell::Unreachable);
                            assert(grid@[b] == g3[b]);
                        }
                        assert(grid@[b] != Cell::Unreachable);
                    } else if g_top[a] == Cell::Reachable {
                        if s_top.contains(a as usize) {
                            let k = choose|k: int| 0 <= k < s_top.len() && s_top[k] == a as usize;
                            if k == s_top.len() - 1 {
                                assert(a == cur as int);
                            } else {
                                assert(s_pop[k] == a as usize);
                                assert(s_pop.contains(a as usize));
                                assert(stack@.contains(a as usize));
                            }
                            assert(false);
                        }
                        assert(g_top[b] != Cell::Unreachable);
                        assert(grid@[b] == g_top[b]);
                    } else {
                        assert(grid@[a] != g_top[a]);
                        assert(stack@.contains(a as usize));
                        assert(false);
                    }
                }
            }
        }
    }
    proof {
        assert forall|a: int, b: int|
            0 <= a < grid@.len() && grid@[a] == Cell::Reachable && g0[a] == Cell::Unreachable
                && #[trigger] adjacent(a, b, size as int) && 0 <= b < grid@.len() && g0[b]
                == Cell::Unreachable implies grid@[b] == Cell::Reachable by {
            let d = choose|d: Direction| step_spec(a, d, size as int) == Some(b);
            assert(step_spec(a, d, size as int) matches Some(bb) ==> grid@[bb]
                != Cell::Unreachable);
            assert(grid@[b] != Cell::Unreachable);
        }
        assert forall|t: int|
            0 <= t < g0.len() && grid_reach(g0, size as int, start as int, t) implies grid@[t]
            == Cell::Reachable by {
            let p = choose|p: Seq<int>|
                grid_path_ok(g0, size as int, p) && p[0] == start as int && p.last() == t;
            lemma_path_covered(g0, size as int, grid@, p);
        }
        assert forall|t: int|
            0 <= t < g0.len() && !grid_reach(g0, size as int, start as int, t) implies grid@[t]
            == g0[t] by {}
        assert(grid@ =~= filled(g0, size as int, start as int));
    }
}

/// The neighbour list contribution of one direction: the cell one step
/// from `i` in `dir`, if it is an empty cell of `g`.
pub open spec fn dir_neighbor(g: Seq<Cell>, size: int, i: int, dir: Direction) -> Seq<usize> {
    match step_spec(i, dir, size) {
        Some(j) => if 0 <= j < g.len() && g[j] == Cell::Unreachable {
            seq![j as usize]
        } else {
            Seq::empty()
        },
        None => Seq::empty(),
    }
}

/// The neighbours of empty cell `i` in the fixed scan order Up, Down,
/// Left, Right, keeping only empty cells.
pub open spec fn movement_neighbors(g: Seq<Cell>, size: int, i: int) -> Seq<usize> {
    dir_neighbor(g, size, i, Direction::Up) + dir_neighbor(g, size, i, Direction::Down)
        + dir_neighbor(g, size, i, Direction::Left) + dir_neighbor(g, size, i, Direction::Right)
}

/// The adjacency graph of ordinary tractor movement on `grid`: one node
/// per empty cell, its neighbour list the adjacent empty cells in the
/// direction-scan order Up, Down, Left, Right.
pub fn grid_to_movement_graph(grid: &Vec<Cell>, size: usize) -> (r: HashMap<usize, Vec<usize>>)
    requires
        grid@.len() == size * size,
        size * size <= usize::MAX,
    ensures
        forall|i: usize| #[trigger] r@.contains_key(i) <==> i < grid@.len() && grid@[i as int]
            == Cell::Unreachable,
        forall|i: usize| #[trigger] r@.contains_key(i) ==> r@[i]@ == movement_neighbors(
            grid@,
            size as int,
            i as int,
        ),
{
    broadcast use vstd::std_specs::hash::group_hash_axioms;

    let mut r: HashMap<usize, Vec<usize>> = HashMap::new();
    let mut idx: usize = 0;
    while idx < grid.len()
        invariant
            grid@.len() == size * size,
            size * size <= usize::MAX,
            idx <= grid@.len(),
            forall|i: usize| #[trigger] r@.contains_key(i) <==> i < idx && grid@[i as int]
                == Cell::Unreachable,
            forall|i: usize| #[trigger] r@.contains_key(i) ==> r@[i]@ == movement_neighbors(
                grid@,
                size as int,
                i as int,
            ),
        decreases grid@.len() - idx,
    {
        proof {
            assert(size >= 1) by (nonlinear_arith)
                requires
                    0 < size * size,
            ;
        }
        if grid[idx] == Cell::Unreachable {
            let mut nbs: Vec<usize> = Vec::new();
            match move_one(idx, Direction::Up, size) {
                Some(j) => if grid[j] == Cell::Unreachable {
                    nbs.push(j);
                },
                None => {},
            }
            proof {
                assert(nbs@ =~= dir_neighbor(grid@, size as int, idx as int, Direction::Up));
            }
            let ghost n1 = nbs@;
            match move_one(idx, Direction::Down, size) {
                Some(j) => if grid[j] == Cell::Unreachable {
                    nbs.push(j);
                },
                None => {},
            }
            proof {
                assert(nbs@ =~= n1 + dir_neighbor(grid@, size as int, idx as int, Direction::Down));
            }
            let ghost n2 = nbs@;
            match move_one(idx, Direction::Left, size) {
                Some(j) => if grid[j] == Cell::Unreachable {
                    nbs.push(j);
                },
                None => {},
            }
            proof {
                assert(nbs@ =~= n2 + dir_neighbor(grid@, size as int, idx as int, Direction::Left));
            }
            let ghost n3 = nbs@;
            match move_one(idx, Direction::Right, size) {
                Some(j) => if grid[j] == Cell::Unreachable {
                    nbs.push(j);
                },
                None => {},
            }
            proof {
                assert(nbs@ =~= n3 + dir_neighbor(
                    grid@,
                    size as int,
                    idx as int,
                    Direction::Right,
                ));
                assert(nbs@ =~= movement_neighbors(grid@, size as int, idx as int));
            }
            r.insert(idx, nbs);
        }
        idx = idx + 1;
    }
    r
}

/// There is a directed edge from `a` to `b` in the adjacency map `m`.
pub open spec fn graph_edge(m: Map<usize, Vec<usize>>, a: usize, b: usize) -> bool {
    m.contains_key(a) && m[a]@.contains(b)
}

/// A walk along directed edges of `m`.
pub open spec fn graph_path_ok(m: Map<usize, Vec<usize>>, p: Seq<usize>) -> bool {
    p.len() > 0 && (forall|k: int| 1 <= k < p.len() ==> graph_edge(m, p[k - 1], #[trigger] p[k]))
}

/// `t` can be reached from `start` along directed edges of `m`; every node
/// reaches itself.
pub open spec fn graph_reach(m: Map<usize, Vec<usize>>, start: usize, t: usize) -> bool {
    exists|p: Seq<usize>| graph_path_ok(m, p) && p[0] == start && p.last() == t
}

pub proof fn lemma_graph_reach_refl(m: Map<usize, Vec<usize>>, start: usize)
    ensures
        graph_reach(m, start, start),
{
    let p = seq![start];
    assert(graph_path_ok(m, p) && p[0] == start && p.last() == start);
}

pub proof fn lemma_graph_reach_extend(m: Map<usize, Vec<usize>>, start: usize, a: usize, b: usize)
    requires
        graph_reach(m, start, a),
        graph_edge(m, a, b),
    ensures
        graph_reach(m, start, b),
{
    let p = choose|p: Seq<usize>| graph_path_ok(m, p) && p[0] == start && p.last() == a;
    let q = p.push(b);
    assert forall|k: int| 1 <= k < q.len() implies graph_edge(m, q[k - 1], #[trigger] q[k]) by {
        if k < q.len() - 1 {
            assert(q[k - 1] == p[k - 1] && q[k] == p[k]);
        } else {
            assert(q[k - 1] == a && q[k] == b);
        }
    }
    assert(graph_path_ok(m, q) && q[0] == start && q.last() == b);
}

/// A set of nodes that contains the head of a walk and is closed under
/// the edges of `m` contains the walk's last node.
proof fn lemma_graph_path_covered(m: Map<usize, Vec<usize>>, vis: Set<usize>, p: Seq<usize>)
    requires
        graph_path_ok(m, p),
        vis.contains(p[0]),
        forall|a: usize, b: usize| vis.contains(a) && #[trigger] graph_edge(m, a, b)
            ==> vis.contains(b),
    ensures
        vis.contains(p.last()),
    decreases p.len(),
{
    if p.len() > 1 {
        let q = p.drop_last();
        assert(graph_path_ok(m, q));
        lemma_graph_path_covered(m, vis, q);
        assert(graph_edge(m, p[p.len() - 2], p.last()));
    }
}

/// Collects every node reachable from `start` along the directed edges of
/// `graph`, `start` itself included.
pub fn walk_graph_from(start: usize, graph: &HashMap<usize, Vec<usize>>) -> (r: HashSet<usize>)
    ensures
        forall|t: usize| #[trigger] r@.contains(t) <==> graph_reach(graph@, start, t),
{
    broadcast use vstd::std_specs::hash::group_hash_axioms;

    let mut visited: HashSet<usize> = HashSet::new();
    let mut stack: Vec<usize> = Vec::new();
    visited.insert(start);
    stack.push(start);
    proof {
        lemma_graph_reach_refl(graph@, start);
        assert(stack@[0] == start);
        assert(stack@.contains(start));
        assert(vstd::std_specs::hash::spec_hash_set_len(&visited) == visited@.len());
    }
    while stack.len() != 0
        invariant
            visited@.finite(),
            visited@.len() <= usize::MAX,
            visited@.contains(start),
            forall|v: usize| #[trigger] visited@.contains(v) ==> graph_reach(graph@, start, v),
            forall|k: int| #![trigger stack@[k]] 0 <= k < stack@.len() ==> visited@.contains(
                stack@[k],
            ),
            forall|a: usize, b: usize|
                visited@.contains(a) && !stack@.contains(a) && #[trigger] graph_edge(graph@, a, b)
                    ==> visited@.contains(b),
        decreases usize::MAX - visited@.len(), stack@.len(),
    {
        let ghost v_top = visited@;
        let ghost s_top = stack@;
        let cur = stack.pop().unwrap();
        let ghost s_pop = stack@;
        proof {
            assert forall|a: usize, b: usize|
                visited@.contains(a) && !s_pop.contains(a) && a != cur && #[trigger] graph_edge(
                graph@,
                a,
                b,
            ) implies visited@.contains(b) by {
                if s_top.contains(a) {
                    let k = choose|k: int| 0 <= k < s_top.len() && s_top[k] == a;
                    if k == s_top.len() - 1 {
                        assert(a == cur);
                    } else {
                        assert(s_pop[k] == a);
                        assert(s_pop.contains(a));
                    }
                    assert(false);
                }
            }
        }
        match graph.get(&cur) {
            Some(nbs) => {
                let mut j: usize = 0;
                while j < nbs.len()
                    invariant
                        visited@.finite(),
                        visited@.len() <= usize::MAX,
                        visited@.contains(start),
                        graph@.contains_key(cur),
                        nbs@ == graph@[cur]@,
                        j <= nbs@.len(),
                        visited@.contains(cur),
                        graph_reach(graph@, start, cur),
                        forall|v: usize| #[trigger] v_top.contains(v) ==> visited@.contains(v),
                        forall|v: usize| #[trigger] visited@.contains(v) ==> graph_reach(
                            graph@,
                            start,
                            v,
                        ),
                        forall|k: int| #![trigger stack@[k]] 0 <= k < stack@.len()
                            ==> visited@.contains(stack@[k]),
                        forall|x: usize| #[trigger] s_pop.contains(x) ==> stack@.contains(x),
                        forall|a: usize, b: usize|
                            visited@.contains(a) && !stack@.contains(a) && a != cur
                                && #[trigger] graph_edge(graph@, a, b) ==> visited@.contains(b),
                        forall|k: int| 0 <= k < j ==> visited@.contains(#[trigger] nbs@[k]),
                        (visited@ == v_top && stack@ == s_pop) || visited@.len() > v_top.len(),
                    decreases nbs@.len() - j,
                {
                    let nb = nbs[j];
                    if !visited.contains(&nb) {
                        proof {
                            assert(graph_edge(graph@, cur, nb));
                            lemma_graph_reach_extend(graph@, start, cur, nb);
                        }
                        visited.insert(nb);
                        stack.push(nb);
                        proof {
                            broadcast use vstd::seq_lib::lemma_seq_contains_after_push;

                            assert(vstd::std_specs::hash::spec_hash_set_len(&visited)
                                == visited@.len());
                            assert(stack@.contains(nb));
                        }
                    }
                    j = j + 1;
                }
                proof {
                    assert forall|a: usize, b: usize|
                        visited@.contains(a) && !stack@.contains(a) && #[trigger] graph_edge(
                        graph@,
                        a,
                        b,
                    ) implies visited@.contains(b) by {
                        if a == cur {
                            assert(graph@[cur]@.contains(b));
                            let k = choose|k: int| 0 <= k < nbs@.len() && nbs@[k] == b;
                            assert(visited@.contains(nbs@[k]));
                        }
                    }
                }
            },
            None => {
                proof {
                    assert forall|a: usize, b: usize|
                        visited@.contains(a) && !stack@.contains(a) && #[trigger] graph_edge(
                        graph@,
                        a,
                        b,
                    ) implies visited@.contains(b) by {
                        if a == cur {
                            assert(false);
                        }
                    }
                }
            },
        }
    }
    proof {
        assert forall|t: usize| graph_reach(graph@, start, t) implies visited@.contains(t) by {
            let p = choose|p: Seq<usize>|
                graph_path_ok(graph@, p) && p[0] == start && p.last() == t;
            lemma_graph_path_covered(graph@, visited@, p);
        }
    }
    visited
}

} // verus!
