//! A* search on the world grid with eight-way moves, where a diagonal move may not
//! cut the corner of an impassable cell.
//!
//! A path's cost is `a + b * sqrt(2)` for `a` straight and `b` diagonal steps. Costs
//! are kept as the exact pair `(a, b)` and compared exactly.
use vstd::prelude::*;

use crate::content::ContentRegistry;
use crate::cost::{
    cost_le, lemma_le_antisym, lemma_le_plus_both, lemma_le_trans, lemma_lt_le, lemma_le_lt_trans,
    lemma_nonneg_parts, nonneg, plus,
};
use crate::world::{cell_index, WorldGrid, GRID_CELLS, WORLD_SIZE};

verus! {

/// Number of search nodes: every grid cell, and one more for a start off the grid.
pub const NODE_COUNT: usize = 2501;

/// Bound on the components of the costs that a search handles.
pub const COST_BOUND: u64 = 0x100_0000_0000;

/// The cells that a search treats as impassable, besides the terrain and buildings.
pub open spec fn listed(blocked: Seq<(i32, i32)>, x: int, y: int) -> bool {
    exists|k: int| 0 <= k < blocked.len() && blocked[k].0 == x && blocked[k].1 == y
}

/// A colonist heading for `goal` may enter `(x, y)`: it is walkable and, unless it
/// is the goal, not one of the `blocked` cells.
pub open spec fn passable(
    grid: &WorldGrid,
    content: &ContentRegistry,
    goal: (i32, i32),
    blocked: Seq<(i32, i32)>,
    x: int,
    y: int,
) -> bool {
    &&& grid.spec_walkable(content, x, y)
    &&& ((x == goal.0 && y == goal.1) || !listed(blocked, x, y))
}

/// One move from `from` to `to`: to one of the eight neighbouring cells, which must
/// be passable; a diagonal move also needs both cells beside it passable.
pub open spec fn legal_step(
    grid: &WorldGrid,
    content: &ContentRegistry,
    goal: (i32, i32),
    blocked: Seq<(i32, i32)>,
    from: (i32, i32),
    to: (i32, i32),
) -> bool {
    let dx = to.0 - from.0;
    let dy = to.1 - from.1;
    &&& -1 <= dx <= 1
    &&& -1 <= dy <= 1
    &&& (dx != 0 || dy != 0)
    &&& passable(grid, content, goal, blocked, to.0 as int, to.1 as int)
    &&& (dx != 0 && dy != 0) ==> {
        &&& passable(grid, content, goal, blocked, from.0 + dx, from.1 as int)
        &&& passable(grid, content, goal, blocked, from.0 as int, from.1 + dy)
    }
}

/// `p` is a sequence of legal steps from `p[0]` to `p.last()`.
pub open spec fn is_walk(
    grid: &WorldGrid,
    content: &ContentRegistry,
    goal: (i32, i32),
    blocked: Seq<(i32, i32)>,
    p: Seq<(i32, i32)>,
) -> bool {
    &&& p.len() >= 1
    &&& forall|i: int|
        0 <= i < p.len() - 1 ==> legal_step(grid, content, goal, blocked, #[trigger] p[i], p[i + 1])
}

/// `p` is a walk from `start` to `goal`.
pub open spec fn is_route(
    grid: &WorldGrid,
    content: &ContentRegistry,
    blocked: Seq<(i32, i32)>,
    start: (i32, i32),
    goal: (i32, i32),
    p: Seq<(i32, i32)>,
) -> bool {
    &&& is_walk(grid, content, goal, blocked, p)
    &&& p[0] == start
    &&& p.last() == goal
}

/// Some walk leads from `start` to `goal`.
pub open spec fn reachable(
    grid: &WorldGrid,
    content: &ContentRegistry,
    blocked: Seq<(i32, i32)>,
    start: (i32, i32),
    goal: (i32, i32),
) -> bool {
    exists|p: Seq<(i32, i32)>| is_route(grid, content, blocked, start, goal, p)
}

/// `a1 + b1 * sqrt(2) < a2 + b2 * sqrt(2)`, decided on integers.
pub open spec fn cost_lt(a1: int, b1: int, a2: int, b2: int) -> bool {
    let p = a1 - a2;
    let q = b2 - b1;
    if q >= 0 {
        p < 0 || p * p < 2 * (q * q)
    } else {
        p < 0 && p * p > 2 * (q * q)
    }
}

fn cost_less(a1: u64, b1: u64, a2: u64, b2: u64) -> (r: bool)
    requires
        a1 < COST_BOUND,
        b1 < COST_BOUND,
        a2 < COST_BOUND,
        b2 < COST_BOUND,
    ensures
        r == cost_lt(a1 as int, b1 as int, a2 as int, b2 as int),
{
    let p: i128 = a1 as i128 - a2 as i128;
    let q: i128 = b2 as i128 - b1 as i128;
    proof {
        assert(p * p <= 0x1_0000_0000_0000_0000_0000) by (nonlinear_arith)
            requires
                -0x100_0000_0000 <= p <= 0x100_0000_0000,
        ;
        assert(q * q <= 0x1_0000_0000_0000_0000_0000) by (nonlinear_arith)
            requires
                -0x100_0000_0000 <= q <= 0x100_0000_0000,
        ;
        assert(p * p >= 0 && q * q >= 0) by (nonlinear_arith);
    }
    let pp: i128 = p * p;
    let qq: i128 = 2 * (q * q);
    if q >= 0 {
        p < 0 || pp < qq
    } else {
        p < 0 && pp > qq
    }
}

/// The search node of cell `c`: its grid position, or `GRID_CELLS` off the grid.
pub open spec fn id_of(c: (i32, i32)) -> int {
    match cell_index(c.0 as int, c.1 as int) {
        Some(i) => i,
        None => GRID_CELLS as int,
    }
}

/// The cell of search node `id`; the node off the grid is `start`.
pub open spec fn node_of(id: int, start: (i32, i32)) -> (i32, i32) {
    if id < GRID_CELLS {
        ((id % WORLD_SIZE as int) as i32, (id / WORLD_SIZE as int) as i32)
    } else {
        start
    }
}

proof fn lemma_node_of_id(c: (i32, i32), start: (i32, i32))
    requires
        cell_index(c.0 as int, c.1 as int) is Some || c == start,
    ensures
        node_of(id_of(c), start) == c,
        0 <= id_of(c) < NODE_COUNT,
{
    if cell_index(c.0 as int, c.1 as int) is Some {
        let x = c.0 as int;
        let y = c.1 as int;
        let i = y * 50 + x;
        assert(i % 50 == x && i / 50 == y && 0 <= i < 2500) by (nonlinear_arith)
            requires
                i == y * 50 + x,
                0 <= x < 50,
                0 <= y < 50,
        ;
    }
}

proof fn lemma_node_in_grid(id: int, start: (i32, i32))
    requires
        0 <= id < GRID_CELLS,
    ensures
        cell_index(node_of(id, start).0 as int, node_of(id, start).1 as int) == Some(id),
{
    let x = id % 50;
    let y = id / 50;
    assert(0 <= x < 50 && 0 <= y < 50 && y * 50 + x == id) by (nonlinear_arith)
        requires
            0 <= id < 2500,
            x == id % 50,
            y == id / 50,
    ;
}

/// Whether `(x, y)` is one of `blocked`.
fn in_blocked(blocked: &[(i32, i32)], x: i64, y: i64) -> (r: bool)
    ensures
        r == listed(blocked@, x as int, y as int),
{
    let mut k: usize = 0;
    while k < blocked.len()
        invariant
            0 <= k <= blocked@.len(),
            forall|j: int|
                0 <= j < k ==> !(blocked@[j].0 == x as int && blocked@[j].1 == y as int),
        decreases blocked@.len() - k,
    {
        if blocked[k].0 as i64 == x && blocked[k].1 as i64 == y {
            return true;
        }
        k += 1;
    }
    false
}

fn passable_at(
    grid: &WorldGrid,
    content: &ContentRegistry,
    goal: (i32, i32),
    blocked: &[(i32, i32)],
    x: i64,
    y: i64,
) -> (r: bool)
    requires
        grid.wf(content),
    ensures
        r == passable(grid, content, goal, blocked@, x as int, y as int),
{
    if x < 0 || y < 0 || x >= WORLD_SIZE as i64 || y >= WORLD_SIZE as i64 {
        return false;
    }
    if !grid.is_walkable(content, x as i32, y as i32) {
        return false;
    }
    if x == goal.0 as i64 && y == goal.1 as i64 {
        return true;
    }
    !in_blocked(blocked, x, y)
}

/// Whether the move by `(dx, dy)` from `(fx, fy)` is a legal step.
fn can_step(
    grid: &WorldGrid,
    content: &ContentRegistry,
    goal: (i32, i32),
    blocked: &[(i32, i32)],
    fx: i64,
    fy: i64,
    dx: i64,
    dy: i64,
) -> (r: bool)
    requires
        grid.wf(content),
        -1 <= dx <= 1,
        -1 <= dy <= 1,
        dx != 0 || dy != 0,
        i32::MIN <= fx <= i32::MAX,
        i32::MIN <= fy <= i32::MAX,
    ensures
        r ==> -1 < fx + dx < WORLD_SIZE && -1 < fy + dy < WORLD_SIZE,
        r ==> legal_step(
            grid,
            content,
            goal,
            blocked@,
            (fx as i32, fy as i32),
            ((fx + dx) as i32, (fy + dy) as i32),
        ),
        (-1 < fx + dx < WORLD_SIZE && -1 < fy + dy < WORLD_SIZE && legal_step(
            grid,
            content,
            goal,
            blocked@,
            (fx as i32, fy as i32),
            ((fx + dx) as i32, (fy + dy) as i32),
        )) ==> r,
{
    let nx = fx + dx;
    let ny = fy + dy;
    if !passable_at(grid, content, goal, blocked, nx, ny) {
        return false;
    }
    if dx != 0 && dy != 0 {
        if !passable_at(grid, content, goal, blocked, fx + dx, fy) {
            return false;
        }
        if !passable_at(grid, content, goal, blocked, fx, fy + dy) {
            return false;
        }
    }
    true
}

/// The `k`-th of the eight moves, in the order in which a search tries them.
pub open spec fn dir(k: int) -> (int, int) {
    if k == 0 {
        (1, 0)
    } else if k == 1 {
        (-1, 0)
    } else if k == 2 {
        (0, 1)
    } else if k == 3 {
        (0, -1)
    } else if k == 4 {
        (1, 1)
    } else if k == 5 {
        (1, -1)
    } else if k == 6 {
        (-1, 1)
    } else {
        (-1, -1)
    }
}

/// The cell that move `k` leads to from `here`.
pub open spec fn nb(here: (i32, i32), k: int) -> (i32, i32) {
    ((here.0 + dir(k).0) as i32, (here.1 + dir(k).1) as i32)
}

fn neighbor_dir(k: usize) -> (r: (i64, i64))
    requires
        k < 8,
    ensures
        r.0 == dir(k as int).0,
        r.1 == dir(k as int).1,
{
    if k == 0 {
        (1, 0)
    } else if k == 1 {
        (-1, 0)
    } else if k == 2 {
        (0, 1)
    } else if k == 3 {
        (0, -1)
    } else if k == 4 {
        (1, 1)
    } else if k == 5 {
        (1, -1)
    } else if k == 6 {
        (-1, 1)
    } else {
        (-1, -1)
    }
}

proof fn lemma_step_is_dir(
    grid: &WorldGrid,
    content: &ContentRegistry,
    goal: (i32, i32),
    blocked: Seq<(i32, i32)>,
    from: (i32, i32),
    to: (i32, i32),
) -> (k: int)
    requires
        legal_step(grid, content, goal, blocked, from, to),
    ensures
        0 <= k < 8,
        to.0 == from.0 + dir(k).0,
        to.1 == from.1 + dir(k).1,
{
    let dx = to.0 - from.0;
    let dy = to.1 - from.1;
    if dx == 1 && dy == 0 {
        0
    } else if dx == -1 && dy == 0 {
        1
    } else if dx == 0 && dy == 1 {
        2
    } else if dx == 0 && dy == -1 {
        3
    } else if dx == 1 && dy == 1 {
        4
    } else if dx == 1 && dy == -1 {
        5
    } else if dx == -1 && dy == 1 {
        6
    } else {
        7
    }
}

/// The number of steps that a cost counts.
pub open spec fn cost_sum(c: (u64, u64)) -> int {
    c.0 + c.1
}

/// An open entry names node `id`.
pub open spec fn in_open(open: Seq<(u64, u64, usize)>, id: int) -> bool {
    exists|j: int| 0 <= j < open.len() && open[j].2 == id
}

/// Sizes, and the fixed facts about the start and the goal.
#[verifier::opaque]
pub open spec fn inv_shape(
    goal: (i32, i32),
    start: (i32, i32),
    g: Seq<Option<(u64, u64)>>,
    came: Seq<Option<usize>>,
    closed: Seq<bool>,
    ctime: Seq<int>,
    count: int,
) -> bool {
    &&& g[id_of(start)] == Some((0u64, 0u64))
    &&& came[id_of(start)] is None
    &&& !closed[id_of(goal)]
}

/// Closed nodes have a cost and were closed at a time before `count`.
#[verifier::opaque]
pub open spec fn inv_closed(
    g: Seq<Option<(u64, u64)>>,
    closed: Seq<bool>,
    ctime: Seq<int>,
    count: int,
) -> bool {
    forall|id: int|
        0 <= id < NODE_COUNT && #[trigger] closed[id] ==> g[id] is Some && 0 <= ctime[id] < count
}

/// A cost never counts more steps than there have been expansions.
#[verifier::opaque]
pub open spec fn inv_cost(g: Seq<Option<(u64, u64)>>, count: int) -> bool {
    forall|id: int|
        0 <= id < NODE_COUNT && #[trigger] g[id] is Some ==> cost_sum(g[id]->0) <= count
}

/// Every reached node but the start has a predecessor, and lies on the grid.
#[verifier::opaque]
pub open spec fn inv_reached(
    start: (i32, i32),
    g: Seq<Option<(u64, u64)>>,
    came: Seq<Option<usize>>,
) -> bool {
    forall|id: int|
        0 <= id < NODE_COUNT && id != id_of(start) && #[trigger] g[id] is Some ==> came[id] is Some
            && id < GRID_CELLS
}

/// A predecessor is closed, reached the node by a legal step, and was closed first.
#[verifier::opaque]
pub open spec fn inv_came(
    grid: &WorldGrid,
    content: &ContentRegistry,
    goal: (i32, i32),
    blocked: Seq<(i32, i32)>,
    start: (i32, i32),
    g: Seq<Option<(u64, u64)>>,
    came: Seq<Option<usize>>,
    closed: Seq<bool>,
    ctime: Seq<int>,
) -> bool {
    forall|id: int|
        0 <= id < NODE_COUNT && #[trigger] came[id] is Some ==> {
            let p = came[id]->0 as int;
            &&& 0 <= p < NODE_COUNT
            &&& closed[p]
            &&& g[id] is Some
            &&& legal_step(grid, content, goal, blocked, node_of(p, start), node_of(id, start))
            &&& closed[id] ==> ctime[p] < ctime[id]
        }
}

/// A reached node that is not closed has an open entry.
#[verifier::opaque]
pub open spec fn inv_open(
    g: Seq<Option<(u64, u64)>>,
    closed: Seq<bool>,
    open: Seq<(u64, u64, usize)>,
) -> bool {
    forall|id: int| 0 <= id < NODE_COUNT && #[trigger] g[id] is Some && !closed[id] ==> in_open(open, id)
}

/// Open entries name reached nodes, with bounded costs.
#[verifier::opaque]
pub open spec fn inv_entries(g: Seq<Option<(u64, u64)>>, open: Seq<(u64, u64, usize)>) -> bool {
    forall|j: int|
        0 <= j < open.len() ==> {
            &&& (#[trigger] open[j]).2 < NODE_COUNT
            &&& g[open[j].2 as int] is Some
            &&& open[j].0 < COST_BOUND
            &&& open[j].1 < COST_BOUND
        }
}

/// Every legal step out of a closed node (but `pending`) leads to a reached node.
#[verifier::opaque]
pub open spec fn inv_closure(
    grid: &WorldGrid,
    content: &ContentRegistry,
    goal: (i32, i32),
    blocked: Seq<(i32, i32)>,
    start: (i32, i32),
    g: Seq<Option<(u64, u64)>>,
    closed: Seq<bool>,
    pending: int,
) -> bool {
    forall|c: int, w: (i32, i32)|
        0 <= c < NODE_COUNT && c != pending && #[trigger] closed[c] && #[trigger] legal_step(
            grid,
            content,
            goal,
            blocked,
            node_of(c, start),
            w,
        ) ==> g[id_of(w)] is Some
}

/// What holds of the search state between two expansions.
pub open spec fn search_inv(
    grid: &WorldGrid,
    content: &ContentRegistry,
    goal: (i32, i32),
    blocked: Seq<(i32, i32)>,
    start: (i32, i32),
    g: Seq<Option<(u64, u64)>>,
    came: Seq<Option<usize>>,
    closed: Seq<bool>,
    ctime: Seq<int>,
    count: int,
    open: Seq<(u64, u64, usize)>,
    pending: int,
) -> bool {
    &&& g.len() == NODE_COUNT
    &&& came.len() == NODE_COUNT
    &&& closed.len() == NODE_COUNT
    &&& ctime.len() == NODE_COUNT
    &&& 0 <= count <= NODE_COUNT
    &&& inv_shape(goal, start, g, came, closed, ctime, count)
    &&& inv_closed(g, closed, ctime, count)
    &&& inv_cost(g, count)
    &&& inv_reached(start, g, came)
    &&& inv_came(grid, content, goal, blocked, start, g, came, closed, ctime)
    &&& inv_open(g, closed, open)
    &&& inv_entries(g, open)
    &&& inv_closure(grid, content, goal, blocked, start, g, closed, pending)
}

// ---------------------------------------------------------------------------
// Route costs, and what keeps the search shortest-first
// ---------------------------------------------------------------------------

/// The cost of one move: a straight step `(1, 0)` or a diagonal step `(0, 1)`.
pub open spec fn step_cost(a: (i32, i32), b: (i32, i32)) -> (int, int) {
    if a.0 != b.0 && a.1 != b.1 {
        (0, 1)
    } else {
        (1, 0)
    }
}

/// The cost of walk `p`: the sum of its steps.
pub open spec fn walk_cost(p: Seq<(i32, i32)>) -> (int, int)
    decreases p.len(),
{
    if p.len() <= 1 {
        (0, 0)
    } else {
        plus(walk_cost(p.drop_last()), step_cost(p[p.len() - 2], p[p.len() - 1]))
    }
}

/// `p` costs no more than any route from `start` to `goal` around `blocked`.
pub open spec fn shortest(
    grid: &WorldGrid,
    content: &ContentRegistry,
    blocked: Seq<(i32, i32)>,
    start: (i32, i32),
    goal: (i32, i32),
    p: Seq<(i32, i32)>,
) -> bool {
    forall|q: Seq<(i32, i32)>| #[trigger]
        is_route(grid, content, blocked, start, goal, q) ==> cost_le(walk_cost(p), walk_cost(q))
}

/// The heuristic: the cost of a cheapest walk from `(x, y)` to `goal` on an empty grid.
pub open spec fn heur_xy(x: int, y: int, goal: (i32, i32)) -> (int, int) {
    let dx = if x >= goal.0 { x - goal.0 } else { goal.0 - x };
    let dy = if y >= goal.1 { y - goal.1 } else { goal.1 - y };
    if dx <= dy {
        (dy - dx, dx)
    } else {
        (dx - dy, dy)
    }
}

/// The heuristic at cell `c`.
pub open spec fn heur(c: (i32, i32), goal: (i32, i32)) -> (int, int) {
    heur_xy(c.0 as int, c.1 as int, goal)
}

/// A stored cost as a pair of integers.
pub open spec fn gpair(c: (u64, u64)) -> (int, int) {
    (c.0 as int, c.1 as int)
}

/// The estimate of an open entry as a pair of integers.
pub open spec fn epair(e: (u64, u64, usize)) -> (int, int) {
    (e.0 as int, e.1 as int)
}

/// `cost_lt` is the strict order of `cost_le`.
proof fn lemma_cost_lt_le(a1: int, b1: int, a2: int, b2: int)
    ensures
        cost_lt(a1, b1, a2, b2) <==> !cost_le((a2, b2), (a1, b1)),
{
    let p = a1 - a2;
    let q = b2 - b1;
    let r = b1 - b2;
    let pp = p * p;
    let qq = q * q;
    let rr = r * r;
    assert(rr == qq && pp >= 0 && qq >= 0 && (q == 0 ==> qq == 0) && (p == 0 ==> pp == 0) && (p != 0 ==> pp > 0)) by (nonlinear_arith)
        requires
            r == -q,
            rr == r * r,
            qq == q * q,
            pp == p * p,
    ;
    assert(cost_le((a2, b2), (a1, b1)) == nonneg(p, r));
    assert(nonneg(p, r) == if r >= 0 { p >= 0 || 2 * rr >= pp } else { p >= 0 && pp >= 2 * rr });
    assert(cost_lt(a1, b1, a2, b2) == if q >= 0 { p < 0 || pp < 2 * qq } else { p < 0 && pp > 2 * qq });
}

/// Small values: `5 * p + 7 * q >= 0` decides `p + q * sqrt(2) >= 0`.
proof fn lemma_nonneg_small(p: int, q: int)
    requires
        -3 <= p <= 3,
        -2 <= q <= 2,
        5 * p + 7 * q >= 0,
    ensures
        nonneg(p, q),
{
    let pp = p * p;
    let qq = q * q;
    if q == -2 {
        assert(pp == 9 && qq == 4) by (nonlinear_arith)
            requires
                p == 3,
                q == -2,
                pp == p * p,
                qq == q * q,
        ;
    } else if q == -1 {
        assert(pp >= 4 && qq == 1) by (nonlinear_arith)
            requires
                2 <= p <= 3,
                q == -1,
                pp == p * p,
                qq == q * q,
        ;
    } else if q == 1 {
        assert(p >= 0 || (pp == 1 && qq == 1)) by (nonlinear_arith)
            requires
                -1 <= p,
                q == 1,
                pp == p * p,
                qq == q * q,
        ;
    } else if q == 2 {
        assert(p >= 0 || (pp <= 4 && qq == 4)) by (nonlinear_arith)
            requires
                -2 <= p,
                q == 2,
                pp == p * p,
                qq == q * q,
        ;
    }
}

/// The heuristic is consistent: it drops by no more than the cost of a step.
proof fn lemma_heur_step(v: (i32, i32), w: (i32, i32), goal: (i32, i32))
    requires
        -1 <= w.0 - v.0 <= 1,
        -1 <= w.1 - v.1 <= 1,
    ensures
        cost_le(heur(v, goal), plus(step_cost(v, w), heur(w, goal))),
{
    let d = plus(step_cost(v, w), heur(w, goal));
    let h = heur(v, goal);
    lemma_nonneg_small(d.0 - h.0, d.1 - h.1);
}

/// Costs of walks have no negative part.
proof fn lemma_walk_cost_parts(p: Seq<(i32, i32)>)
    ensures
        walk_cost(p).0 >= 0,
        walk_cost(p).1 >= 0,
        walk_cost(p).0 + walk_cost(p).1 == if p.len() == 0 { 0 } else { p.len() - 1 },
    decreases p.len(),
{
    if p.len() > 1 {
        lemma_walk_cost_parts(p.drop_last());
    }
}

/// The first step of a walk and the rest of it.
proof fn lemma_walk_cost_front(t: Seq<(i32, i32)>)
    requires
        t.len() >= 2,
    ensures
        walk_cost(t) == plus(step_cost(t[0], t[1]), walk_cost(t.drop_first())),
    decreases t.len(),
{
    let n = t.len();
    let u = t.drop_first();
    if n > 2 {
        lemma_walk_cost_front(t.drop_last());
        assert(u.drop_last() =~= t.drop_last().drop_first());
        assert(u[u.len() - 2] == t[n - 2] && u[u.len() - 1] == t[n - 1]);
        assert(walk_cost(u) == plus(walk_cost(u.drop_last()), step_cost(t[n - 2], t[n - 1])));
        assert(t.drop_last()[0] == t[0] && t.drop_last()[1] == t[1]);
    } else {
        assert(u.len() == 1);
        assert(t.drop_last().len() == 1);
        assert(walk_cost(u) == (0int, 0int));
        assert(walk_cost(t.drop_last()) == (0int, 0int));
    }
}

/// A walk and its reverse cost the same.
proof fn lemma_walk_cost_reverse(s: Seq<(i32, i32)>, t: Seq<(i32, i32)>)
    requires
        t.len() == s.len(),
        forall|k: int| 0 <= k < s.len() ==> #[trigger] t[k] == s[s.len() - 1 - k],
    ensures
        walk_cost(t) == walk_cost(s),
    decreases s.len(),
{
    if s.len() >= 2 {
        let s2 = s.drop_last();
        let t2 = t.drop_first();
        assert forall|k: int| 0 <= k < s2.len() implies #[trigger] t2[k] == s2[s2.len() - 1 - k] by {
            assert(t2[k] == t[k + 1]);
        }
        lemma_walk_cost_reverse(s2, t2);
        lemma_walk_cost_front(t);
        assert(t[0] == s[s.len() - 1] && t[1] == s[s.len() - 2]);
    }
}

/// Along a walk, cost so far plus the heuristic never drops.
proof fn lemma_estimate_grows(
    grid: &WorldGrid,
    content: &ContentRegistry,
    goal: (i32, i32),
    blocked: Seq<(i32, i32)>,
    p: Seq<(i32, i32)>,
    i: int,
    j: int,
)
    requires
        is_walk(grid, content, goal, blocked, p),
        0 <= i <= j < p.len(),
    ensures
        cost_le(
            plus(walk_cost(p.take(i + 1)), heur(p[i], goal)),
            plus(walk_cost(p.take(j + 1)), heur(p[j], goal)),
        ),
    decreases j - i,
{
    if j > i {
        lemma_estimate_grows(grid, content, goal, blocked, p, i, j - 1);
        assert(legal_step(grid, content, goal, blocked, p[j - 1], p[j]));
        lemma_heur_step(p[j - 1], p[j], goal);
        let before = walk_cost(p.take(j));
        assert(p.take(j + 1).drop_last() =~= p.take(j));
        assert(walk_cost(p.take(j + 1)) == plus(before, step_cost(p[j - 1], p[j])));
        lemma_le_plus_both(
            heur(p[j - 1], goal),
            plus(step_cost(p[j - 1], p[j]), heur(p[j], goal)),
            before,
            before,
        );
        lemma_le_trans(
            plus(walk_cost(p.take(i + 1)), heur(p[i], goal)),
            plus(walk_cost(p.take(j)), heur(p[j - 1], goal)),
            plus(walk_cost(p.take(j + 1)), heur(p[j], goal)),
        );
    }
}

/// A closed node's cost is that of a cheapest walk from the start to it.
#[verifier::opaque]
pub open spec fn inv_opt(
    grid: &WorldGrid,
    content: &ContentRegistry,
    goal: (i32, i32),
    blocked: Seq<(i32, i32)>,
    start: (i32, i32),
    g: Seq<Option<(u64, u64)>>,
    closed: Seq<bool>,
) -> bool {
    forall|c: int, p: Seq<(i32, i32)>|
        0 <= c < NODE_COUNT && #[trigger] closed[c] && #[trigger] is_walk(grid, content, goal, blocked, p)
            && p[0] == start && p.last() == node_of(c, start) ==> cost_le(gpair(g[c]->0), walk_cost(p))
}

/// A step from a closed node (but `pending`) into an unclosed one: the latter costs at
/// most the former plus the step.
#[verifier::opaque]
pub open spec fn inv_bound(
    grid: &WorldGrid,
    content: &ContentRegistry,
    goal: (i32, i32),
    blocked: Seq<(i32, i32)>,
    start: (i32, i32),
    g: Seq<Option<(u64, u64)>>,
    closed: Seq<bool>,
    pending: int,
) -> bool {
    forall|c: int, w: (i32, i32)|
        0 <= c < NODE_COUNT && c != pending && #[trigger] closed[c] && #[trigger] legal_step(
            grid,
            content,
            goal,
            blocked,
            node_of(c, start),
            w,
        ) && !closed[id_of(w)] ==> g[id_of(w)] is Some && cost_le(
            gpair(g[id_of(w)]->0),
            plus(gpair(g[c]->0), step_cost(node_of(c, start), w)),
        )
}

/// Every reached node that is not closed has an open entry of exactly its cost plus the
/// heuristic.
#[verifier::opaque]
pub open spec fn inv_exact(
    goal: (i32, i32),
    start: (i32, i32),
    g: Seq<Option<(u64, u64)>>,
    closed: Seq<bool>,
    open: Seq<(u64, u64, usize)>,
) -> bool {
    forall|id: int|
        0 <= id < NODE_COUNT && #[trigger] g[id] is Some && !closed[id] ==> exists|j: int|
            0 <= j < open.len() && open[j].2 == id && epair(open[j]) == plus(
                gpair(g[id]->0),
                heur(node_of(id, start), goal),
            )
}

/// No open entry is below its node's cost plus the heuristic.
#[verifier::opaque]
pub open spec fn inv_above(
    goal: (i32, i32),
    start: (i32, i32),
    g: Seq<Option<(u64, u64)>>,
    open: Seq<(u64, u64, usize)>,
) -> bool {
    forall|j: int|
        0 <= j < open.len() ==> cost_le(
            plus(gpair(g[(#[trigger] open[j]).2 as int]->0), heur(node_of(open[j].2 as int, start), goal)),
            epair(open[j]),
        )
}

/// A node's cost is its predecessor's plus the step between them.
#[verifier::opaque]
pub open spec fn inv_link(start: (i32, i32), g: Seq<Option<(u64, u64)>>, came: Seq<Option<usize>>) -> bool {
    forall|id: int|
        0 <= id < NODE_COUNT && #[trigger] came[id] is Some ==> gpair(g[id]->0) == plus(
            gpair(g[came[id]->0 as int]->0),
            step_cost(node_of(came[id]->0 as int, start), node_of(id, start)),
        )
}

/// Before the first expansion only the start is reached; after it the start is closed.
#[verifier::opaque]
pub open spec fn inv_origin(start: (i32, i32), g: Seq<Option<(u64, u64)>>, closed: Seq<bool>, count: int) -> bool {
    &&& count >= 1 ==> closed[id_of(start)]
    &&& count == 0 ==> forall|id: int| 0 <= id < NODE_COUNT && #[trigger] g[id] is Some ==> id == id_of(start)
}

/// What makes the search shortest-first.
pub open spec fn best_inv(
    grid: &WorldGrid,
    content: &ContentRegistry,
    goal: (i32, i32),
    blocked: Seq<(i32, i32)>,
    start: (i32, i32),
    g: Seq<Option<(u64, u64)>>,
    came: Seq<Option<usize>>,
    closed: Seq<bool>,
    count: int,
    open: Seq<(u64, u64, usize)>,
    pending: int,
) -> bool {
    &&& inv_opt(grid, content, goal, blocked, start, g, closed)
    &&& inv_bound(grid, content, goal, blocked, start, g, closed, pending)
    &&& inv_exact(goal, start, g, closed, open)
    &&& inv_above(goal, start, g, open)
    &&& inv_link(start, g, came)
    &&& inv_origin(start, g, closed, count)
}

/// The search state at the start keeps the search shortest-first.
proof fn lemma_best_init(
    goal: (i32, i32),
    start: (i32, i32),
    grid: &WorldGrid,
    content: &ContentRegistry,
    blocked: Seq<(i32, i32)>,
    g: Seq<Option<(u64, u64)>>,
    came: Seq<Option<usize>>,
    closed: Seq<bool>,
    open: Seq<(u64, u64, usize)>,
)
    requires
        g == Seq::new(NODE_COUNT as nat, |i: int| None::<(u64, u64)>).update(
            id_of(start),
            Some((0u64, 0u64)),
        ),
        came == Seq::new(NODE_COUNT as nat, |i: int| None::<usize>),
        closed == Seq::new(NODE_COUNT as nat, |i: int| false),
        open.len() == 1,
        open[0].2 as int == id_of(start),
        epair(open[0]) == heur(start, goal),
        0 <= id_of(start) < NODE_COUNT,
    ensures
        best_inv(grid, content, goal, blocked, start, g, came, closed, 0, open, -1),
{
    reveal(inv_opt);
    reveal(inv_bound);
    reveal(inv_exact);
    reveal(inv_above);
    reveal(inv_link);
    reveal(inv_origin);
    lemma_node_of_id(start, start);
    let sid = id_of(start);
    assert forall|id: int| 0 <= id < NODE_COUNT && #[trigger] g[id] is Some && !closed[id] implies exists|j: int|
        0 <= j < open.len() && open[j].2 == id && epair(open[j]) == plus(
            gpair(g[id]->0),
            heur(node_of(id, start), goal),
        ) by {
        assert(id == sid);
        assert(open[0].2 == id);
    }
}

/// Relaxing a step out of the node `cur` just closed, to the unclosed node `nid`, with
/// a cost `t` below the one it had, keeps the search shortest-first.
proof fn lemma_best_relax(
    grid: &WorldGrid,
    content: &ContentRegistry,
    goal: (i32, i32),
    blocked: Seq<(i32, i32)>,
    start: (i32, i32),
    g: Seq<Option<(u64, u64)>>,
    came: Seq<Option<usize>>,
    closed: Seq<bool>,
    ctime: Seq<int>,
    count: int,
    open: Seq<(u64, u64, usize)>,
    cur: int,
    nid: int,
    t: (u64, u64),
    e: (u64, u64, usize),
)
    requires
        search_inv(grid, content, goal, blocked, start, g, came, closed, ctime, count, open, cur),
        best_inv(grid, content, goal, blocked, start, g, came, closed, count, open, cur),
        0 <= cur < NODE_COUNT,
        closed[cur],
        count >= 1,
        0 <= nid < NODE_COUNT,
        !closed[nid],
        gpair(t) == plus(gpair(g[cur]->0), step_cost(node_of(cur, start), node_of(nid, start))),
        g[nid] is None || !cost_le(gpair(g[nid]->0), gpair(t)),
        e.2 as int == nid,
        epair(e) == plus(gpair(t), heur(node_of(nid, start), goal)),
    ensures
        best_inv(
            grid,
            content,
            goal,
            blocked,
            start,
            g.update(nid, Some(t)),
            came.update(nid, Some(cur as usize)),
            closed,
            count,
            open.push(e),
            cur,
        ),
{
    let g2 = g.update(nid, Some(t));
    let came2 = came.update(nid, Some(cur as usize));
    let open2 = open.push(e);
    reveal(inv_opt);
    reveal(inv_bound);
    reveal(inv_exact);
    reveal(inv_above);
    reveal(inv_link);
    reveal(inv_origin);
    reveal(inv_came);
    reveal(inv_entries);
    reveal(inv_closed);
    assert forall|c: int, p: Seq<(i32, i32)>|
        0 <= c < NODE_COUNT && #[trigger] closed[c] && #[trigger] is_walk(grid, content, goal, blocked, p)
            && p[0] == start && p.last() == node_of(c, start) implies cost_le(gpair(g2[c]->0), walk_cost(p)) by {
        assert(c != nid);
    }
    assert forall|c: int, w: (i32, i32)|
        0 <= c < NODE_COUNT && c != cur && #[trigger] closed[c] && #[trigger] legal_step(
            grid,
            content,
            goal,
            blocked,
            node_of(c, start),
            w,
        ) && !closed[id_of(w)] implies g2[id_of(w)] is Some && cost_le(
            gpair(g2[id_of(w)]->0),
            plus(gpair(g2[c]->0), step_cost(node_of(c, start), w)),
        ) by {
        assert(c != nid);
        if id_of(w) == nid {
            lemma_lt_le(gpair(t), gpair(g[nid]->0));
            lemma_le_trans(gpair(t), gpair(g[nid]->0), plus(gpair(g[c]->0), step_cost(node_of(c, start), w)));
        }
    }
    assert forall|id: int| 0 <= id < NODE_COUNT && #[trigger] g2[id] is Some && !closed[id] implies exists|j: int|
        0 <= j < open2.len() && open2[j].2 == id && epair(open2[j]) == plus(
            gpair(g2[id]->0),
            heur(node_of(id, start), goal),
        ) by {
        if id == nid {
            assert(open2[open.len() as int] == e);
        } else {
            let j = choose|j: int|
                0 <= j < open.len() && open[j].2 == id && epair(open[j]) == plus(
                    gpair(g[id]->0),
                    heur(node_of(id, start), goal),
                );
            assert(open2[j] == open[j]);
        }
    }
    assert forall|j: int| 0 <= j < open2.len() implies cost_le(
        plus(gpair(g2[(#[trigger] open2[j]).2 as int]->0), heur(node_of(open2[j].2 as int, start), goal)),
        epair(open2[j]),
    ) by {
        if j < open.len() {
            assert(open2[j] == open[j]);
            let id = open[j].2 as int;
            if id == nid {
                let h = heur(node_of(nid, start), goal);
                assert(g[nid] is Some);
                lemma_lt_le(gpair(t), gpair(g[nid]->0));
                lemma_le_plus_both(gpair(t), gpair(g[nid]->0), h, h);
                lemma_le_trans(plus(gpair(t), h), plus(gpair(g[nid]->0), h), epair(open[j]));
            }
        } else {
            assert(open2[j] == e);
        }
    }
    assert forall|id: int| 0 <= id < NODE_COUNT && #[trigger] came2[id] is Some implies gpair(g2[id]->0) == plus(
        gpair(g2[came2[id]->0 as int]->0),
        step_cost(node_of(came2[id]->0 as int, start), node_of(id, start)),
    ) by {
        if id != nid {
            let p = came[id]->0 as int;
            assert(closed[p]);
            assert(p != nid);
        } else {
            assert(cur != nid);
        }
    }
}

/// Dropping an entry of a closed node keeps the search shortest-first.
proof fn lemma_best_stale(
    grid: &WorldGrid,
    content: &ContentRegistry,
    goal: (i32, i32),
    blocked: Seq<(i32, i32)>,
    start: (i32, i32),
    g: Seq<Option<(u64, u64)>>,
    came: Seq<Option<usize>>,
    closed: Seq<bool>,
    count: int,
    open: Seq<(u64, u64, usize)>,
    m: int,
)
    requires
        best_inv(grid, content, goal, blocked, start, g, came, closed, count, open, -1),
        closed.len() == NODE_COUNT,
        0 <= m < open.len(),
        open[m].2 < NODE_COUNT,
        closed[open[m].2 as int],
    ensures
        best_inv(grid, content, goal, blocked, start, g, came, closed, count, open.remove(m), -1),
{
    lemma_best_remove(goal, start, g, closed, open, m);
}

/// Removing entry `m`, whose node is closed (or about to be): the other nodes keep
/// their exact entries, and no entry is below its node's estimate.
proof fn lemma_best_remove(
    goal: (i32, i32),
    start: (i32, i32),
    g: Seq<Option<(u64, u64)>>,
    closed: Seq<bool>,
    open: Seq<(u64, u64, usize)>,
    m: int,
)
    requires
        inv_exact(goal, start, g, closed, open),
        inv_above(goal, start, g, open),
        closed.len() == NODE_COUNT,
        0 <= m < open.len(),
        open[m].2 < NODE_COUNT,
        closed[open[m].2 as int],
    ensures
        inv_exact(goal, start, g, closed, open.remove(m)),
        inv_above(goal, start, g, open.remove(m)),
{
    reveal(inv_exact);
    reveal(inv_above);
    let o2 = open.remove(m);
    assert forall|id: int| 0 <= id < NODE_COUNT && #[trigger] g[id] is Some && !closed[id] implies exists|j: int|
        0 <= j < o2.len() && o2[j].2 == id && epair(o2[j]) == plus(
            gpair(g[id]->0),
            heur(node_of(id, start), goal),
        ) by {
        let j = choose|j: int|
            0 <= j < open.len() && open[j].2 == id && epair(open[j]) == plus(
                gpair(g[id]->0),
                heur(node_of(id, start), goal),
            );
        if j < m {
            assert(o2[j] == open[j]);
        } else {
            assert(j != m);
            assert(o2[j - 1] == open[j]);
        }
    }
    assert forall|j: int| 0 <= j < o2.len() implies cost_le(
        plus(gpair(g[(#[trigger] o2[j]).2 as int]->0), heur(node_of(o2[j].2 as int, start), goal)),
        epair(o2[j]),
    ) by {
        if j < m {
            assert(o2[j] == open[j]);
        } else {
            assert(o2[j] == open[j + 1]);
        }
    }
}

/// The first cell of `p` from `k` on whose node is not closed.
proof fn lemma_first_unclosed(closed: Seq<bool>, p: Seq<(i32, i32)>, k: int) -> (i: int)
    requires
        0 <= k < p.len(),
        !closed[id_of(p[p.len() - 1])],
        forall|j: int| 0 <= j < k ==> closed[id_of(#[trigger] p[j])],
    ensures
        k <= i < p.len(),
        !closed[id_of(p[i])],
        forall|j: int| 0 <= j < i ==> closed[id_of(#[trigger] p[j])],
    decreases p.len() - k,
{
    if !closed[id_of(p[k])] {
        k
    } else {
        lemma_first_unclosed(closed, p, k + 1)
    }
}

/// A cell of a walk from the start is the start or lies on the grid, so it is the
/// cell of its node.
proof fn lemma_walk_cell(
    grid: &WorldGrid,
    content: &ContentRegistry,
    goal: (i32, i32),
    blocked: Seq<(i32, i32)>,
    start: (i32, i32),
    p: Seq<(i32, i32)>,
    k: int,
)
    requires
        is_walk(grid, content, goal, blocked, p),
        p[0] == start,
        0 <= k < p.len(),
    ensures
        node_of(id_of(p[k]), start) == p[k],
        0 <= id_of(p[k]) < NODE_COUNT,
        k > 0 ==> id_of(p[k]) < GRID_CELLS,
{
    if k > 0 {
        assert(legal_step(grid, content, goal, blocked, p[k - 1], p[k]));
        assert(cell_index(p[k].0 as int, p[k].1 as int) is Some);
    }
    lemma_node_of_id(p[k], start);
}

/// The node of the least open entry, when not closed, has the cost of a cheapest walk
/// from the start.
proof fn lemma_popped_best(
    grid: &WorldGrid,
    content: &ContentRegistry,
    goal: (i32, i32),
    blocked: Seq<(i32, i32)>,
    start: (i32, i32),
    g: Seq<Option<(u64, u64)>>,
    came: Seq<Option<usize>>,
    closed: Seq<bool>,
    ctime: Seq<int>,
    count: int,
    open: Seq<(u64, u64, usize)>,
    m: int,
    p: Seq<(i32, i32)>,
)
    requires
        search_inv(grid, content, goal, blocked, start, g, came, closed, ctime, count, open, -1),
        best_inv(grid, content, goal, blocked, start, g, came, closed, count, open, -1),
        0 <= m < open.len(),
        !closed[open[m].2 as int],
        forall|j: int| 0 <= j < open.len() ==> cost_le(epair(open[m]), #[trigger] epair(open[j])),
        is_walk(grid, content, goal, blocked, p),
        p[0] == start,
        p.last() == node_of(open[m].2 as int, start),
    ensures
        g[open[m].2 as int] is Some,
        cost_le(gpair(g[open[m].2 as int]->0), walk_cost(p)),
{
    reveal(inv_entries);
    reveal(inv_reached);
    reveal(inv_shape);
    reveal(inv_origin);
    reveal(inv_bound);
    reveal(inv_opt);
    reveal(inv_exact);
    reveal(inv_above);
    let u = open[m].2 as int;
    assert(open[m] == open[m]);
    assert(0 <= u < NODE_COUNT && g[u] is Some);
    let n = p.len() as int;
    let sid = id_of(start);
    lemma_node_of_id(start, start);
    if u < GRID_CELLS {
        lemma_node_in_grid(u, start);
    } else {
        assert(u == sid);
    }
    assert(id_of(p[n - 1]) == u);
    let i = lemma_first_unclosed(closed, p, 0);
    lemma_walk_cost_parts(p);
    if i == 0 {
        assert(count == 0);
        assert(u == sid);
        lemma_nonneg_parts(walk_cost(p).0, walk_cost(p).1);
    } else if !cost_le(gpair(g[u]->0), walk_cost(p)) {
        let pc = p[i - 1];
        let pv = p[i];
        let c = id_of(pc);
        let v = id_of(pv);
        lemma_walk_cell(grid, content, goal, blocked, start, p, i - 1);
        lemma_walk_cell(grid, content, goal, blocked, start, p, i);
        assert(closed[c]);
        assert(legal_step(grid, content, goal, blocked, p[i - 1], p[i]));
        assert(legal_step(grid, content, goal, blocked, node_of(c, start), pv));
        let st = step_cost(pc, pv);
        assert(g[v] is Some && cost_le(gpair(g[v]->0), plus(gpair(g[c]->0), st)));
        let pre = p.take(i);
        assert forall|k: int| 0 <= k < pre.len() - 1 implies legal_step(
            grid,
            content,
            goal,
            blocked,
            #[trigger] pre[k],
            pre[k + 1],
        ) by {
            assert(pre[k] == p[k] && pre[k + 1] == p[k + 1]);
            assert(legal_step(grid, content, goal, blocked, p[k], p[k + 1]));
        }
        assert(is_walk(grid, content, goal, blocked, pre));
        assert(pre[0] == start && pre.last() == node_of(c, start));
        assert(cost_le(gpair(g[c]->0), walk_cost(pre)));
        assert(p.take(i + 1).drop_last() =~= pre);
        assert(walk_cost(p.take(i + 1)) == plus(walk_cost(pre), st));
        lemma_le_plus_both(gpair(g[c]->0), walk_cost(pre), st, st);
        lemma_le_trans(gpair(g[v]->0), plus(gpair(g[c]->0), st), walk_cost(p.take(i + 1)));
        lemma_estimate_grows(grid, content, goal, blocked, p, i, n - 1);
        assert(p.take(n) =~= p);
        let hv = heur(pv, goal);
        let hu = heur(p[n - 1], goal);
        lemma_le_plus_both(gpair(g[v]->0), walk_cost(p.take(i + 1)), hv, hv);
        lemma_le_trans(
            plus(gpair(g[v]->0), hv),
            plus(walk_cost(p.take(i + 1)), hv),
            plus(walk_cost(p), hu),
        );
        assert(!closed[v]);
        let j = choose|j: int|
            0 <= j < open.len() && open[j].2 == v && epair(open[j]) == plus(
                gpair(g[v]->0),
                heur(node_of(v, start), goal),
            );
        let ej = epair(open[j]);
        let em = epair(open[m]);
        let gu = plus(gpair(g[u]->0), hu);
        assert(cost_le(plus(gpair(g[u]->0), hu), plus(walk_cost(p), hu)) == cost_le(gpair(g[u]->0), walk_cost(p)));
        assert(cost_le(gu, em));
        lemma_le_lt_trans(ej, plus(walk_cost(p), hu), gu);
        assert(cost_le(em, ej));
        lemma_le_trans(gu, em, ej);
    }
}

/// Closing the node `u` of the least open entry `m` keeps the search shortest-first,
/// with the steps out of `u` still to be relaxed.
proof fn lemma_best_close(
    grid: &WorldGrid,
    content: &ContentRegistry,
    goal: (i32, i32),
    blocked: Seq<(i32, i32)>,
    start: (i32, i32),
    g: Seq<Option<(u64, u64)>>,
    came: Seq<Option<usize>>,
    closed: Seq<bool>,
    ctime: Seq<int>,
    count: int,
    open: Seq<(u64, u64, usize)>,
    m: int,
)
    requires
        search_inv(grid, content, goal, blocked, start, g, came, closed, ctime, count, open, -1),
        best_inv(grid, content, goal, blocked, start, g, came, closed, count, open, -1),
        0 <= m < open.len(),
        open[m].2 < NODE_COUNT,
        !closed[open[m].2 as int],
        forall|j: int| 0 <= j < open.len() ==> cost_le(epair(open[m]), #[trigger] epair(open[j])),
    ensures
        best_inv(
            grid,
            content,
            goal,
            blocked,
            start,
            g,
            came,
            closed.update(open[m].2 as int, true),
            count + 1,
            open.remove(m),
            open[m].2 as int,
        ),
{
    let u = open[m].2 as int;
    let c2 = closed.update(u, true);
    reveal(inv_entries);
    assert(open[m] == open[m]);
    assert(g[u] is Some);
    assert(inv_opt(grid, content, goal, blocked, start, g, c2)) by {
        reveal(inv_opt);
        assert forall|c: int, p: Seq<(i32, i32)>|
            0 <= c < NODE_COUNT && #[trigger] c2[c] && #[trigger] is_walk(grid, content, goal, blocked, p)
                && p[0] == start && p.last() == node_of(c, start) implies cost_le(gpair(g[c]->0), walk_cost(p)) by {
            if c == u {
                lemma_popped_best(grid, content, goal, blocked, start, g, came, closed, ctime, count, open, m, p);
            }
        }
    }
    assert(inv_bound(grid, content, goal, blocked, start, g, c2, u)) by {
        reveal(inv_bound);
    }
    assert(inv_exact(goal, start, g, c2, open)) by {
        reveal(inv_exact);
    }
    lemma_best_remove(goal, start, g, c2, open, m);
    assert(inv_origin(start, g, c2, count + 1)) by {
        reveal(inv_origin);
        if count == 0 {
            assert(u == id_of(start));
        }
    }
}

/// Once every step out of `cur` is relaxed, the bound holds for `cur` too.
proof fn lemma_best_expanded(
    grid: &WorldGrid,
    content: &ContentRegistry,
    goal: (i32, i32),
    blocked: Seq<(i32, i32)>,
    start: (i32, i32),
    g: Seq<Option<(u64, u64)>>,
    closed: Seq<bool>,
    cur: int,
)
    requires
        inv_bound(grid, content, goal, blocked, start, g, closed, cur),
        0 <= cur < NODE_COUNT,
        g[cur] is Some,
        forall|j: int|
            0 <= j < 8 && legal_step(grid, content, goal, blocked, node_of(cur, start), #[trigger] nb(node_of(cur, start), j))
                && !closed[id_of(nb(node_of(cur, start), j))] ==> g[id_of(nb(node_of(cur, start), j))] is Some && cost_le(
                gpair(g[id_of(nb(node_of(cur, start), j))]->0),
                plus(gpair(g[cur]->0), step_cost(node_of(cur, start), nb(node_of(cur, start), j))),
            ),
    ensures
        inv_bound(grid, content, goal, blocked, start, g, closed, -1),
{
    reveal(inv_bound);
    let here = node_of(cur, start);
    assert forall|c: int, w: (i32, i32)|
        0 <= c < NODE_COUNT && c != -1 && #[trigger] closed[c] && #[trigger] legal_step(
            grid,
            content,
            goal,
            blocked,
            node_of(c, start),
            w,
        ) && !closed[id_of(w)] implies g[id_of(w)] is Some && cost_le(
            gpair(g[id_of(w)]->0),
            plus(gpair(g[c]->0), step_cost(node_of(c, start), w)),
        ) by {
        if c == cur {
            let j = lemma_step_is_dir(grid, content, goal, blocked, here, w);
            assert(w == nb(here, j));
        }
    }
}

proof fn lemma_relax_shape(
    goal: (i32, i32),
    start: (i32, i32),
    g: Seq<Option<(u64, u64)>>,
    came: Seq<Option<usize>>,
    closed: Seq<bool>,
    ctime: Seq<int>,
    count: int,
    cur: int,
    nid: int,
    t: (u64, u64),
)
    requires
        inv_shape(goal, start, g, came, closed, ctime, count),
        nid != id_of(start),
        g.len() == NODE_COUNT,
        came.len() == NODE_COUNT,
        0 <= nid < NODE_COUNT,
        0 <= cur < NODE_COUNT,
    ensures
        inv_shape(
            goal,
            start,
            g.update(nid, Some(t)),
            came.update(nid, Some(cur as usize)),
            closed,
            ctime,
            count,
        ),
{
    reveal(inv_shape);
}

proof fn lemma_relax_closed(
    g: Seq<Option<(u64, u64)>>,
    closed: Seq<bool>,
    ctime: Seq<int>,
    count: int,
    nid: int,
    t: (u64, u64),
)
    requires
        inv_closed(g, closed, ctime, count),
        g.len() == NODE_COUNT,
        0 <= nid < NODE_COUNT,
    ensures
        inv_closed(g.update(nid, Some(t)), closed, ctime, count),
{
    reveal(inv_closed);
}

proof fn lemma_relax_cost(g: Seq<Option<(u64, u64)>>, count: int, nid: int, t: (u64, u64))
    requires
        inv_cost(g, count),
        cost_sum(t) <= count,
        g.len() == NODE_COUNT,
        0 <= nid < NODE_COUNT,
    ensures
        inv_cost(g.update(nid, Some(t)), count),
{
    reveal(inv_cost);
}

proof fn lemma_relax_reached(
    start: (i32, i32),
    g: Seq<Option<(u64, u64)>>,
    came: Seq<Option<usize>>,
    cur: int,
    nid: int,
    t: (u64, u64),
)
    requires
        inv_reached(start, g, came),
        0 <= nid < GRID_CELLS,
        g.len() == NODE_COUNT,
        came.len() == NODE_COUNT,
        0 <= cur < NODE_COUNT,
    ensures
        inv_reached(start, g.update(nid, Some(t)), came.update(nid, Some(cur as usize))),
{
    reveal(inv_reached);
}

proof fn lemma_relax_came(
    grid: &WorldGrid,
    content: &ContentRegistry,
    goal: (i32, i32),
    blocked: Seq<(i32, i32)>,
    start: (i32, i32),
    g: Seq<Option<(u64, u64)>>,
    came: Seq<Option<usize>>,
    closed: Seq<bool>,
    ctime: Seq<int>,
    cur: int,
    nid: int,
    t: (u64, u64),
)
    requires
        inv_came(grid, content, goal, blocked, start, g, came, closed, ctime),
        g.len() == NODE_COUNT,
        came.len() == NODE_COUNT,
        0 <= cur < NODE_COUNT,
        closed[cur],
        0 <= nid < NODE_COUNT,
        !closed[nid],
        legal_step(grid, content, goal, blocked, node_of(cur, start), node_of(nid, start)),
    ensures
        inv_came(
            grid,
            content,
            goal,
            blocked,
            start,
            g.update(nid, Some(t)),
            came.update(nid, Some(cur as usize)),
            closed,
            ctime,
        ),
{
    reveal(inv_came);
    let g2 = g.update(nid, Some(t));
    let came2 = came.update(nid, Some(cur as usize));
    assert forall|id: int| 0 <= id < NODE_COUNT && #[trigger] came2[id] is Some implies {
        let p = came2[id]->0 as int;
        &&& 0 <= p < NODE_COUNT
        &&& closed[p]
        &&& g2[id] is Some
        &&& legal_step(grid, content, goal, blocked, node_of(p, start), node_of(id, start))
        &&& closed[id] ==> ctime[p] < ctime[id]
    } by {
        if id != nid {
            assert(came[id] is Some);
        }
    }
}

proof fn lemma_relax_open(
    g: Seq<Option<(u64, u64)>>,
    closed: Seq<bool>,
    open: Seq<(u64, u64, usize)>,
    nid: int,
    t: (u64, u64),
    e: (u64, u64, usize),
)
    requires
        inv_open(g, closed, open),
        e.2 == nid,
        g.len() == NODE_COUNT,
        0 <= nid < NODE_COUNT,
    ensures
        inv_open(g.update(nid, Some(t)), closed, open.push(e)),
{
    reveal(inv_open);
    let g2 = g.update(nid, Some(t));
    let open2 = open.push(e);
    assert(open2[open2.len() - 1] == e);
    assert forall|id: int|
        0 <= id < NODE_COUNT && #[trigger] g2[id] is Some && !closed[id] implies in_open(
        open2,
        id,
    ) by {
        if id != nid {
            let j = choose|j: int| 0 <= j < open.len() && open[j].2 == id;
            assert(open2[j] == open[j]);
        } else {
            assert(open2[open2.len() - 1].2 == id);
        }
    }
}

proof fn lemma_relax_entries(
    g: Seq<Option<(u64, u64)>>,
    open: Seq<(u64, u64, usize)>,
    nid: int,
    t: (u64, u64),
    e: (u64, u64, usize),
)
    requires
        inv_entries(g, open),
        g.len() == NODE_COUNT,
        0 <= nid < NODE_COUNT,
        e.2 == nid,
        e.0 < COST_BOUND,
        e.1 < COST_BOUND,
    ensures
        inv_entries(g.update(nid, Some(t)), open.push(e)),
{
    reveal(inv_entries);
    let g2 = g.update(nid, Some(t));
    let open2 = open.push(e);
    assert forall|j: int| 0 <= j < open2.len() implies {
        &&& (#[trigger] open2[j]).2 < NODE_COUNT
        &&& g2[open2[j].2 as int] is Some
        &&& open2[j].0 < COST_BOUND
        &&& open2[j].1 < COST_BOUND
    } by {
        if j < open.len() {
            assert(open2[j] == open[j]);
        }
    }
}

proof fn lemma_relax_closure(
    grid: &WorldGrid,
    content: &ContentRegistry,
    goal: (i32, i32),
    blocked: Seq<(i32, i32)>,
    start: (i32, i32),
    g: Seq<Option<(u64, u64)>>,
    closed: Seq<bool>,
    pending: int,
    nid: int,
    t: (u64, u64),
)
    requires
        inv_closure(grid, content, goal, blocked, start, g, closed, pending),
        g.len() == NODE_COUNT,
        0 <= nid < NODE_COUNT,
    ensures
        inv_closure(grid, content, goal, blocked, start, g.update(nid, Some(t)), closed, pending),
{
    reveal(inv_closure);
}

/// A relaxation that gives node `nid` cost `t`, predecessor `cur` and a new open entry keeps
/// the invariant.
proof fn lemma_relax_keeps(
    grid: &WorldGrid,
    content: &ContentRegistry,
    goal: (i32, i32),
    blocked: Seq<(i32, i32)>,
    start: (i32, i32),
    g: Seq<Option<(u64, u64)>>,
    came: Seq<Option<usize>>,
    closed: Seq<bool>,
    ctime: Seq<int>,
    count: int,
    open: Seq<(u64, u64, usize)>,
    cur: int,
    nid: int,
    t: (u64, u64),
    e: (u64, u64, usize),
)
    requires
        search_inv(grid, content, goal, blocked, start, g, came, closed, ctime, count, open, cur),
        0 <= cur < NODE_COUNT,
        closed[cur],
        0 <= nid < GRID_CELLS,
        nid != id_of(start),
        !closed[nid],
        cost_sum(t) <= count,
        legal_step(grid, content, goal, blocked, node_of(cur, start), node_of(nid, start)),
        e.2 == nid,
        e.0 < COST_BOUND,
        e.1 < COST_BOUND,
    ensures
        search_inv(
            grid,
            content,
            goal,
            blocked,
            start,
            g.update(nid, Some(t)),
            came.update(nid, Some(cur as usize)),
            closed,
            ctime,
            count,
            open.push(e),
            cur,
        ),
{
    lemma_relax_shape(goal, start, g, came, closed, ctime, count, cur, nid, t);
    lemma_relax_closed(g, closed, ctime, count, nid, t);
    lemma_relax_cost(g, count, nid, t);
    lemma_relax_reached(start, g, came, cur, nid, t);
    lemma_relax_came(grid, content, goal, blocked, start, g, came, closed, ctime, cur, nid, t);
    lemma_relax_open(g, closed, open, nid, t, e);
    lemma_relax_entries(g, open, nid, t, e);
    lemma_relax_closure(grid, content, goal, blocked, start, g, closed, cur, nid, t);
}

/// The heuristic: the cost of the best path from `(x, y)` to `goal` on an empty grid.
fn octile(x: i64, y: i64, goal: (i32, i32)) -> (r: (u64, u64))
    requires
        i32::MIN <= x <= i32::MAX,
        i32::MIN <= y <= i32::MAX,
    ensures
        r.0 < 0x2_0000_0000,
        r.1 < 0x2_0000_0000,
        (r.0 as int, r.1 as int) == heur_xy(x as int, y as int, goal),
{
    let dx = if x >= goal.0 as i64 {
        x - goal.0 as i64
    } else {
        goal.0 as i64 - x
    };
    let dy = if y >= goal.1 as i64 {
        y - goal.1 as i64
    } else {
        goal.1 as i64 - y
    };
    if dx <= dy {
        ((dy - dx) as u64, dx as u64)
    } else {
        ((dx - dy) as u64, dy as u64)
    }
}

fn node_cell(id: usize, start: (i32, i32)) -> (r: (i32, i32))
    requires
        id < NODE_COUNT,
    ensures
        r == node_of(id as int, start),
{
    if id < GRID_CELLS {
        ((id % 50) as i32, (id / 50) as i32)
    } else {
        start
    }
}

/// Follows the predecessor links back from the goal and returns the route in order.
pub fn reconstruct(
    grid: &WorldGrid,
    content: &ContentRegistry,
    goal: (i32, i32),
    blocked: &[(i32, i32)],
    start: (i32, i32),
    came: &Vec<Option<usize>>,
    gid: usize,
    Ghost(g): Ghost<Seq<Option<(u64, u64)>>>,
    Ghost(closed): Ghost<Seq<bool>>,
    Ghost(ctime): Ghost<Seq<int>>,
    Ghost(count): Ghost<int>,
    Ghost(open): Ghost<Seq<(u64, u64, usize)>>,
) -> (r: Vec<(i32, i32)>)
    requires
        search_inv(grid, content, goal, blocked@, start, g, came@, closed, ctime, count, open, -1),
        gid == id_of(goal),
        cell_index(goal.0 as int, goal.1 as int) is Some,
        g[gid as int] is Some,
        inv_link(start, g, came@),
    ensures
        is_route(grid, content, blocked@, start, goal, r@),
        walk_cost(r@) == gpair(g[gid as int]->0),
{
    proof {
        lemma_node_of_id(goal, start);
        lemma_node_of_id(start, start);
    }
    let mut rev: Vec<(i32, i32)> = Vec::new();
    rev.push(node_cell(gid, start));
    let mut cur: usize = gid;
    while came[cur].is_some()
        invariant
            search_inv(grid, content, goal, blocked@, start, g, came@, closed, ctime, count, open, -1),
            cur < NODE_COUNT,
            g[cur as int] is Some,
            node_of(gid as int, start) == goal,
            node_of(id_of(start), start) == start,
            rev@.len() >= 1,
            rev@[0] == goal,
            rev@.last() == node_of(cur as int, start),
            forall|i: int|
                0 <= i < rev@.len() - 1 ==> legal_step(
                    grid,
                    content,
                    goal,
                    blocked@,
                    #[trigger] rev@[i + 1],
                    rev@[i],
                ),
            inv_link(start, g, came@),
            gpair(g[gid as int]->0) == plus(gpair(g[cur as int]->0), walk_cost(rev@)),
        decreases
                if closed[cur as int] {
                    ctime[cur as int]
                } else {
                    count
                },
    {
        proof {
            reveal(inv_came);
            reveal(inv_closed);
        }
        let p = came[cur].unwrap();
        assert(came@[cur as int] is Some);
        let ghost rev0 = rev@;
        rev.push(node_cell(p, start));
        proof {
            reveal(inv_link);
            assert(rev@.drop_last() =~= rev0);
            assert(rev@[rev@.len() - 2] == node_of(cur as int, start));
            assert(step_cost(node_of(cur as int, start), node_of(p as int, start)) == step_cost(
                node_of(p as int, start),
                node_of(cur as int, start),
            ));
        }
        cur = p;
    }
    proof {
        reveal(inv_reached);
        reveal(inv_shape);
    }
    assert(cur as int == id_of(start));
    let mut path: Vec<(i32, i32)> = Vec::new();
    let n = rev.len();
    let mut i: usize = n;
    while i > 0
        invariant
            0 <= i <= n,
            n == rev@.len(),
            n >= 1,
            path@.len() == n - i,
            forall|k: int| 0 <= k < path@.len() ==> #[trigger] path@[k] == rev@[n - 1 - k],
        decreases i,
    {
        i -= 1;
        path.push(rev[i]);
    }
    assert forall|k: int| 0 <= k < path@.len() - 1 implies legal_step(
        grid,
        content,
        goal,
        blocked@,
        #[trigger] path@[k],
        path@[k + 1],
    ) by {
        let i = n - 2 - k;
        assert(legal_step(grid, content, goal, blocked@, rev@[i + 1], rev@[i]));
    }
    proof {
        lemma_walk_cost_reverse(rev@, path@);
    }
    path
}

proof fn lemma_no_cost_below_zero(a: int, b: int)
    requires
        a >= 0,
        b >= 0,
    ensures
        !cost_lt(a, b, 0, 0),
{
    let p = a - 0;
    let q = 0 - b;
    assert(p * p >= 0) by (nonlinear_arith);
    if b == 0 {
        assert(q * q == 0) by (nonlinear_arith)
            requires
                q == 0,
        ;
    }
}

/// Removes and returns the open entry of least estimated cost (the first such).
fn pop_min(open: &mut Vec<(u64, u64, usize)>) -> (r: (usize, (u64, u64, usize)))
    requires
        old(open)@.len() > 0,
        forall|j: int|
            0 <= j < old(open)@.len() ==> (#[trigger] old(open)@[j]).0 < COST_BOUND && old(
                open,
            )@[j].1 < COST_BOUND,
    ensures
        r.0 < old(open)@.len(),
        r.1 == old(open)@[r.0 as int],
        final(open)@ == old(open)@.remove(r.0 as int),
        forall|j: int| 0 <= j < old(open)@.len() ==> cost_le(epair(r.1), #[trigger] epair(old(open)@[j])),
{
    let mut best: usize = 0;
    let mut k: usize = 1;
    proof {
        assert(cost_le(epair(open@[0]), epair(open@[0])));
    }
    while k < open.len()
        invariant
            1 <= k <= open@.len(),
            best < open@.len(),
            forall|j: int|
                0 <= j < open@.len() ==> (#[trigger] open@[j]).0 < COST_BOUND && open@[j].1
                    < COST_BOUND,
            forall|j: int| 0 <= j < k ==> cost_le(epair(open@[best as int]), #[trigger] epair(open@[j])),
        decreases open@.len() - k,
    {
        let ghost ek = epair(open@[k as int]);
        let ghost eb = epair(open@[best as int]);
        proof {
            lemma_cost_lt_le(ek.0, ek.1, eb.0, eb.1);
        }
        if cost_less(open[k].0, open[k].1, open[best].0, open[best].1) {
            proof {
                lemma_lt_le(ek, eb);
                assert forall|j: int| 0 <= j < k + 1 implies cost_le(ek, #[trigger] epair(open@[j])) by {
                    if j < k {
                        lemma_le_trans(ek, eb, epair(open@[j]));
                    } else {
                        assert(cost_le(ek, ek));
                    }
                }
            }
            best = k;
        }
        k += 1;
    }
    let e = open.remove(best);
    (best, e)
}

/// Relaxes neighbour `k` of the node `cur` that was just closed.
fn relax(
    grid: &WorldGrid,
    content: &ContentRegistry,
    goal: (i32, i32),
    blocked: &[(i32, i32)],
    start: (i32, i32),
    cur: usize,
    here: (i32, i32),
    ga: u64,
    gb: u64,
    k: usize,
    g: &mut Vec<Option<(u64, u64)>>,
    came: &mut Vec<Option<usize>>,
    open: &mut Vec<(u64, u64, usize)>,
    closed: &Vec<bool>,
    Ghost(ctime): Ghost<Seq<int>>,
    Ghost(count): Ghost<int>,
)
    requires
        grid.wf(content),
        search_inv(
            grid,
            content,
            goal,
            blocked@,
            start,
            old(g)@,
            old(came)@,
            closed@,
            ctime,
            count,
            old(open)@,
            cur as int,
        ),
        k < 8,
        cur < NODE_COUNT,
        closed@[cur as int],
        count >= 1,
        old(g)@[cur as int] == Some((ga, gb)),
        ga + gb <= count - 1,
        here == node_of(cur as int, start),
        cell_index(goal.0 as int, goal.1 as int) is Some,
        best_inv(grid, content, goal, blocked@, start, old(g)@, old(came)@, closed@, count, old(open)@, cur as int),
    ensures
        best_inv(grid, content, goal, blocked@, start, final(g)@, final(came)@, closed@, count, final(open)@, cur as int),
        forall|i: int|
            0 <= i < NODE_COUNT && old(g)@[i] is Some ==> cost_le(
                gpair(#[trigger] final(g)@[i]->0),
                gpair(old(g)@[i]->0),
            ),
        legal_step(grid, content, goal, blocked@, here, nb(here, k as int)) && !closed@[id_of(
            nb(here, k as int),
        )] ==> cost_le(
            gpair(final(g)@[id_of(nb(here, k as int))]->0),
            plus((ga as int, gb as int), step_cost(here, nb(here, k as int))),
        ),
        search_inv(
            grid,
            content,
            goal,
            blocked@,
            start,
            final(g)@,
            final(came)@,
            closed@,
            ctime,
            count,
            final(open)@,
            cur as int,
        ),
        final(g)@[cur as int] == Some((ga, gb)),
        forall|i: int| 0 <= i < NODE_COUNT && old(g)@[i] is Some ==> #[trigger] final(g)@[i] is Some,
        legal_step(grid, content, goal, blocked@, here, nb(here, k as int)) ==> final(g)@[id_of(
            nb(here, k as int),
        )] is Some,
{
    let ghost sid = id_of(start);
    let (dx, dy) = neighbor_dir(k);
    let cx = here.0 as i64;
    let cy = here.1 as i64;
    if !can_step(grid, content, goal, blocked, cx, cy, dx, dy) {
        return;
    }
    let nx = cx + dx;
    let ny = cy + dy;
    let nid = (ny * 50 + nx) as usize;
    let ghost w: (i32, i32) = (nx as i32, ny as i32);
    proof {
        assert(w == nb(here, k as int));
        assert(cell_index(nx as int, ny as int) is Some);
        lemma_node_of_id(w, start);
        assert(id_of(w) == nid as int);
    }
    if closed[nid] {
        proof {
            reveal(inv_closed);
        }
        return;
    }
    let (ta, tb) = if dx != 0 && dy != 0 {
        (ga, gb + 1)
    } else {
        (ga + 1, gb)
    };
    proof {
        reveal(inv_cost);
        reveal(inv_shape);
        if g@[nid as int] is Some {
            assert(cost_sum(g@[nid as int]->0) <= count);
        }
        if nid as int == sid {
            lemma_no_cost_below_zero(ta as int, tb as int);
        }
    }
    proof {
        assert(gpair((ta, tb)) == plus((ga as int, gb as int), step_cost(here, w)));
        if g@[nid as int] is Some {
            let prev = g@[nid as int]->0;
            lemma_cost_lt_le(ta as int, tb as int, prev.0 as int, prev.1 as int);
        }
    }
    let improve = match g[nid] {
        None => true,
        Some(prev) => cost_less(ta, tb, prev.0, prev.1),
    };
    if !improve {
        return;
    }
    let h = octile(nx, ny, goal);
    let e = (ta + h.0, tb + h.1, nid);
    proof {
        lemma_best_relax(
            grid,
            content,
            goal,
            blocked@,
            start,
            g@,
            came@,
            closed@,
            ctime,
            count,
            open@,
            cur as int,
            nid as int,
            (ta, tb),
            e,
        );
        assert forall|i: int|
            0 <= i < NODE_COUNT && g@[i] is Some implies cost_le(
                gpair(#[trigger] g@.update(nid as int, Some((ta, tb)))[i]->0),
                gpair(g@[i]->0),
            ) by {
            if i == nid as int {
                lemma_lt_le(gpair((ta, tb)), gpair(g@[nid as int]->0));
            } else {
                assert(cost_le(gpair(g@[i]->0), gpair(g@[i]->0)));
            }
        }
        assert(cost_le(gpair((ta, tb)), gpair((ta, tb))));
        lemma_relax_keeps(
            grid,
            content,
            goal,
            blocked@,
            start,
            g@,
            came@,
            closed@,
            ctime,
            count,
            open@,
            cur as int,
            nid as int,
            (ta, tb),
            e,
        );
    }
    came.set(nid, Some(cur));
    g.set(nid, Some((ta, tb)));
    open.push(e);
}

/// The node of a legal step's target is in range.
proof fn lemma_step_dir_node(
    grid: &WorldGrid,
    content: &ContentRegistry,
    goal: (i32, i32),
    blocked: Seq<(i32, i32)>,
    here: (i32, i32),
    j: int,
)
    requires
        legal_step(grid, content, goal, blocked, here, nb(here, j)),
    ensures
        0 <= id_of(nb(here, j)) < GRID_CELLS,
{
    let w = nb(here, j);
    assert(cell_index(w.0 as int, w.1 as int) is Some);
}

/// Relaxes the eight neighbours of the node `cur` that was just closed.
fn expand(
    grid: &WorldGrid,
    content: &ContentRegistry,
    goal: (i32, i32),
    blocked: &[(i32, i32)],
    start: (i32, i32),
    cur: usize,
    g: &mut Vec<Option<(u64, u64)>>,
    came: &mut Vec<Option<usize>>,
    open: &mut Vec<(u64, u64, usize)>,
    closed: &Vec<bool>,
    Ghost(ctime): Ghost<Seq<int>>,
    Ghost(count): Ghost<int>,
)
    requires
        grid.wf(content),
        search_inv(
            grid,
            content,
            goal,
            blocked@,
            start,
            old(g)@,
            old(came)@,
            closed@,
            ctime,
            count,
            old(open)@,
            cur as int,
        ),
        cur < NODE_COUNT,
        closed@[cur as int],
        count >= 1,
        cost_sum(old(g)@[cur as int]->0) <= count - 1,
        cell_index(goal.0 as int, goal.1 as int) is Some,
        best_inv(grid, content, goal, blocked@, start, old(g)@, old(came)@, closed@, count, old(open)@, cur as int),
    ensures
        best_inv(grid, content, goal, blocked@, start, final(g)@, final(came)@, closed@, count, final(open)@, -1),
        search_inv(
            grid,
            content,
            goal,
            blocked@,
            start,
            final(g)@,
            final(came)@,
            closed@,
            ctime,
            count,
            final(open)@,
            -1,
        ),
{
    let here = node_cell(cur, start);
    proof {
        reveal(inv_closed);
    }
    let (ga, gb) = g[cur].unwrap();
    let mut k: usize = 0;
    while k < 8
        invariant
            grid.wf(content),
            search_inv(
                grid,
                content,
                goal,
                blocked@,
                start,
                g@,
                came@,
                closed@,
                ctime,
                count,
                open@,
                cur as int,
            ),
            0 <= k <= 8,
            cur < NODE_COUNT,
            closed@[cur as int],
            count >= 1,
            g@[cur as int] == Some((ga, gb)),
            ga + gb <= count - 1,
            here == node_of(cur as int, start),
            cell_index(goal.0 as int, goal.1 as int) is Some,
            forall|j: int|
                0 <= j < k && legal_step(grid, content, goal, blocked@, here, #[trigger] nb(here, j))
                    ==> g@[id_of(nb(here, j))] is Some,
            best_inv(grid, content, goal, blocked@, start, g@, came@, closed@, count, open@, cur as int),
            forall|j: int|
                0 <= j < k && legal_step(grid, content, goal, blocked@, here, #[trigger] nb(here, j))
                    && !closed@[id_of(nb(here, j))] ==> cost_le(
                    gpair(g@[id_of(nb(here, j))]->0),
                    plus((ga as int, gb as int), step_cost(here, nb(here, j))),
                ),
        decreases 8 - k,
    {
        let ghost g_before = g@;
        relax(
            grid,
            content,
            goal,
            blocked,
            start,
            cur,
            here,
            ga,
            gb,
            k,
            g,
            came,
            open,
            closed,
            Ghost(ctime),
            Ghost(count),
        );
        proof {
            assert forall|j: int|
                0 <= j < k + 1 && legal_step(grid, content, goal, blocked@, here, #[trigger] nb(here, j))
                    && !closed@[id_of(nb(here, j))] implies cost_le(
                    gpair(g@[id_of(nb(here, j))]->0),
                    plus((ga as int, gb as int), step_cost(here, nb(here, j))),
                ) by {
                if j < k {
                    let x = id_of(nb(here, j));
                    assert(0 <= x < NODE_COUNT) by {
                        lemma_step_dir_node(grid, content, goal, blocked@, here, j);
                    }
                    lemma_le_trans(
                        gpair(g@[x]->0),
                        gpair(g_before[x]->0),
                        plus((ga as int, gb as int), step_cost(here, nb(here, j))),
                    );
                }
            }
        }
        k += 1;
    }
    proof {
        lemma_best_expanded(grid, content, goal, blocked@, start, g@, closed@, cur as int);
    }
    proof {
        reveal(inv_closure);
        assert forall|c: int, w: (i32, i32)|
            0 <= c < NODE_COUNT && c != -1 && #[trigger] closed@[c] && #[trigger] legal_step(
                grid,
                content,
                goal,
                blocked@,
                node_of(c, start),
                w,
            ) implies g@[id_of(w)] is Some by {
            if c == cur as int {
                let j = lemma_step_is_dir(grid, content, goal, blocked@, here, w);
                assert(w == nb(here, j));
            }
        }
    }
}

/// Removing a stale entry, whose node is closed already, keeps the invariant.
proof fn lemma_pop_stale(
    grid: &WorldGrid,
    content: &ContentRegistry,
    goal: (i32, i32),
    blocked: Seq<(i32, i32)>,
    start: (i32, i32),
    g: Seq<Option<(u64, u64)>>,
    came: Seq<Option<usize>>,
    closed: Seq<bool>,
    ctime: Seq<int>,
    count: int,
    open: Seq<(u64, u64, usize)>,
    m: int,
)
    requires
        search_inv(grid, content, goal, blocked, start, g, came, closed, ctime, count, open, -1),
        0 <= m < open.len(),
        open[m].2 < NODE_COUNT,
        closed[open[m].2 as int],
    ensures
        search_inv(
            grid,
            content,
            goal,
            blocked,
            start,
            g,
            came,
            closed,
            ctime,
            count,
            open.remove(m),
            -1,
        ),
{
    lemma_remove_open(g, closed, open, m);
    lemma_remove_entries(g, open, m);
}

proof fn lemma_remove_open(
    g: Seq<Option<(u64, u64)>>,
    closed: Seq<bool>,
    open: Seq<(u64, u64, usize)>,
    m: int,
)
    requires
        inv_open(g, closed, open),
        0 <= m < open.len(),
        closed.len() == NODE_COUNT,
        open[m].2 < NODE_COUNT,
        closed[open[m].2 as int],
    ensures
        inv_open(g, closed, open.remove(m)),
{
    reveal(inv_open);
    let o2 = open.remove(m);
    assert forall|id: int| 0 <= id < NODE_COUNT && #[trigger] g[id] is Some && !closed[id] implies in_open(
        o2,
        id,
    ) by {
        let j = choose|j: int| 0 <= j < open.len() && open[j].2 == id;
        if j < m {
            assert(o2[j] == open[j]);
        } else {
            assert(j != m);
            assert(o2[j - 1] == open[j]);
        }
    }
}

proof fn lemma_remove_entries(g: Seq<Option<(u64, u64)>>, open: Seq<(u64, u64, usize)>, m: int)
    requires
        inv_entries(g, open),
        0 <= m < open.len(),
    ensures
        inv_entries(g, open.remove(m)),
{
    reveal(inv_entries);
    let o2 = open.remove(m);
    assert forall|j: int| 0 <= j < o2.len() implies {
        &&& (#[trigger] o2[j]).2 < NODE_COUNT
        &&& g[o2[j].2 as int] is Some
        &&& o2[j].0 < COST_BOUND
        &&& o2[j].1 < COST_BOUND
    } by {
        if j < m {
            assert(o2[j] == open[j]);
        } else {
            assert(o2[j] == open[j + 1]);
        }
    }
}

/// Closing the node of the removed entry `m` at time `count` keeps the invariant, with the
/// closure of that node still to be shown.
proof fn lemma_close(
    grid: &WorldGrid,
    content: &ContentRegistry,
    goal: (i32, i32),
    blocked: Seq<(i32, i32)>,
    start: (i32, i32),
    g: Seq<Option<(u64, u64)>>,
    came: Seq<Option<usize>>,
    closed: Seq<bool>,
    ctime: Seq<int>,
    count: int,
    open: Seq<(u64, u64, usize)>,
    m: int,
)
    requires
        search_inv(grid, content, goal, blocked, start, g, came, closed, ctime, count, open, -1),
        0 <= m < open.len(),
        open[m].2 < NODE_COUNT,
        !closed[open[m].2 as int],
        open[m].2 as int != id_of(goal),
        count + 1 <= NODE_COUNT,
    ensures
        search_inv(
            grid,
            content,
            goal,
            blocked,
            start,
            g,
            came,
            closed.update(open[m].2 as int, true),
            ctime.update(open[m].2 as int, count),
            count + 1,
            open.remove(m),
            open[m].2 as int,
        ),
        g[open[m].2 as int] is Some,
        cost_sum(g[open[m].2 as int]->0) <= count,
{
    let cur = open[m].2 as int;
    let c2 = closed.update(cur, true);
    let t2 = ctime.update(cur, count);
    reveal(inv_entries);
    assert(open[m] == open[m]);
    assert(g[cur] is Some);
    reveal(inv_cost);
    lemma_close_shape(goal, start, g, came, closed, ctime, count, cur);
    lemma_close_closed(g, closed, ctime, count, cur);
    lemma_close_came(grid, content, goal, blocked, start, g, came, closed, ctime, count, cur);
    lemma_close_open_pre(g, closed, open, cur);
    lemma_remove_open(g, c2, open, m);
    lemma_remove_entries(g, open, m);
    lemma_close_closure(grid, content, goal, blocked, start, g, closed, cur);
}

proof fn lemma_close_open_pre(
    g: Seq<Option<(u64, u64)>>,
    closed: Seq<bool>,
    open: Seq<(u64, u64, usize)>,
    cur: int,
)
    requires
        inv_open(g, closed, open),
        closed.len() == NODE_COUNT,
        0 <= cur < NODE_COUNT,
    ensures
        inv_open(g, closed.update(cur, true), open),
{
    reveal(inv_open);
}

proof fn lemma_close_shape(
    goal: (i32, i32),
    start: (i32, i32),
    g: Seq<Option<(u64, u64)>>,
    came: Seq<Option<usize>>,
    closed: Seq<bool>,
    ctime: Seq<int>,
    count: int,
    cur: int,
)
    requires
        inv_shape(goal, start, g, came, closed, ctime, count),
        closed.len() == NODE_COUNT,
        ctime.len() == NODE_COUNT,
        0 <= cur < NODE_COUNT,
        cur != id_of(goal),
    ensures
        inv_shape(
            goal,
            start,
            g,
            came,
            closed.update(cur, true),
            ctime.update(cur, count),
            count + 1,
        ),
{
    reveal(inv_shape);
}

proof fn lemma_close_closed(
    g: Seq<Option<(u64, u64)>>,
    closed: Seq<bool>,
    ctime: Seq<int>,
    count: int,
    cur: int,
)
    requires
        inv_closed(g, closed, ctime, count),
        closed.len() == NODE_COUNT,
        ctime.len() == NODE_COUNT,
        g.len() == NODE_COUNT,
        0 <= cur < NODE_COUNT,
        g[cur] is Some,
        count >= 0,
    ensures
        inv_closed(g, closed.update(cur, true), ctime.update(cur, count), count + 1),
{
    reveal(inv_closed);
}

proof fn lemma_close_came(
    grid: &WorldGrid,
    content: &ContentRegistry,
    goal: (i32, i32),
    blocked: Seq<(i32, i32)>,
    start: (i32, i32),
    g: Seq<Option<(u64, u64)>>,
    came: Seq<Option<usize>>,
    closed: Seq<bool>,
    ctime: Seq<int>,
    count: int,
    cur: int,
)
    requires
        inv_came(grid, content, goal, blocked, start, g, came, closed, ctime),
        inv_closed(g, closed, ctime, count),
        closed.len() == NODE_COUNT,
        ctime.len() == NODE_COUNT,
        came.len() == NODE_COUNT,
        0 <= cur < NODE_COUNT,
        !closed[cur],
    ensures
        inv_came(
            grid,
            content,
            goal,
            blocked,
            start,
            g,
            came,
            closed.update(cur, true),
            ctime.update(cur, count),
        ),
{
    reveal(inv_came);
    reveal(inv_closed);
    let c2 = closed.update(cur, true);
    let t2 = ctime.update(cur, count);
    assert forall|id: int| 0 <= id < NODE_COUNT && #[trigger] came[id] is Some implies {
        let p = came[id]->0 as int;
        &&& 0 <= p < NODE_COUNT
        &&& c2[p]
        &&& g[id] is Some
        &&& legal_step(grid, content, goal, blocked, node_of(p, start), node_of(id, start))
        &&& c2[id] ==> t2[p] < t2[id]
    } by {
        let p = came[id]->0 as int;
        assert(closed[p]);
        assert(p != cur);
    }
}

proof fn lemma_close_closure(
    grid: &WorldGrid,
    content: &ContentRegistry,
    goal: (i32, i32),
    blocked: Seq<(i32, i32)>,
    start: (i32, i32),
    g: Seq<Option<(u64, u64)>>,
    closed: Seq<bool>,
    cur: int,
)
    requires
        inv_closure(grid, content, goal, blocked, start, g, closed, -1),
        closed.len() == NODE_COUNT,
        0 <= cur < NODE_COUNT,
    ensures
        inv_closure(grid, content, goal, blocked, start, g, closed.update(cur, true), cur),
{
    reveal(inv_closure);
}

/// Every cell of a route from the start is closed once no open entry is left.
proof fn lemma_route_closed(
    grid: &WorldGrid,
    content: &ContentRegistry,
    goal: (i32, i32),
    blocked: Seq<(i32, i32)>,
    start: (i32, i32),
    g: Seq<Option<(u64, u64)>>,
    came: Seq<Option<usize>>,
    closed: Seq<bool>,
    ctime: Seq<int>,
    count: int,
    p: Seq<(i32, i32)>,
    i: int,
)
    requires
        search_inv(grid, content, goal, blocked, start, g, came, closed, ctime, count, seq![], -1),
        is_walk(grid, content, goal, blocked, p),
        p[0] == start,
        0 <= i < p.len(),
    ensures
        0 <= id_of(p[i]) < NODE_COUNT,
        closed[id_of(p[i])],
        node_of(id_of(p[i]), start) == p[i],
    decreases i,
{
    reveal(inv_open);
    reveal(inv_shape);
    if i == 0 {
        lemma_node_of_id(start, start);
        if !closed[id_of(start)] {
            assert(in_open(seq![], id_of(start)));
        }
    } else {
        lemma_route_closed(grid, content, goal, blocked, start, g, came, closed, ctime, count, p, i - 1);
        assert(legal_step(grid, content, goal, blocked, p[i - 1], p[i]));
        lemma_node_of_id(p[i], start);
        reveal(inv_closure);
        assert(g[id_of(p[i])] is Some);
        if !closed[id_of(p[i])] {
            assert(in_open(seq![], id_of(p[i])));
        }
    }
}

/// The search with its open entries all spent has found no route: there is none.
proof fn lemma_exhausted(
    grid: &WorldGrid,
    content: &ContentRegistry,
    goal: (i32, i32),
    blocked: Seq<(i32, i32)>,
    start: (i32, i32),
    g: Seq<Option<(u64, u64)>>,
    came: Seq<Option<usize>>,
    closed: Seq<bool>,
    ctime: Seq<int>,
    count: int,
    open: Seq<(u64, u64, usize)>,
)
    requires
        search_inv(grid, content, goal, blocked, start, g, came, closed, ctime, count, open, -1),
        open.len() == 0,
    ensures
        !reachable(grid, content, blocked, start, goal),
{
    assert(open =~= seq![]);
    if reachable(grid, content, blocked, start, goal) {
        let p = choose|p: Seq<(i32, i32)>| is_route(grid, content, blocked, start, goal, p);
        lemma_route_closed(
            grid,
            content,
            goal,
            blocked,
            start,
            g,
            came,
            closed,
            ctime,
            count,
            p,
            p.len() - 1,
        );
        reveal(inv_shape);
    }
}

/// The search state at the start: only the start node is reached, and it is open.
proof fn lemma_init(
    grid: &WorldGrid,
    content: &ContentRegistry,
    goal: (i32, i32),
    blocked: Seq<(i32, i32)>,
    start: (i32, i32),
    g: Seq<Option<(u64, u64)>>,
    came: Seq<Option<usize>>,
    closed: Seq<bool>,
    ctime: Seq<int>,
    open: Seq<(u64, u64, usize)>,
)
    requires
        g == Seq::new(NODE_COUNT as nat, |i: int| None::<(u64, u64)>).update(
            id_of(start),
            Some((0u64, 0u64)),
        ),
        came == Seq::new(NODE_COUNT as nat, |i: int| None::<usize>),
        closed == Seq::new(NODE_COUNT as nat, |i: int| false),
        ctime == Seq::new(NODE_COUNT as nat, |i: int| 0int),
        open.len() == 1,
        open[0].2 as int == id_of(start),
        open[0].0 < COST_BOUND,
        open[0].1 < COST_BOUND,
        0 <= id_of(start) < NODE_COUNT,
    ensures
        search_inv(grid, content, goal, blocked, start, g, came, closed, ctime, 0, open, -1),
{
    reveal(inv_shape);
    reveal(inv_closed);
    reveal(inv_cost);
    reveal(inv_reached);
    reveal(inv_came);
    reveal(inv_open);
    reveal(inv_entries);
    reveal(inv_closure);
    assert forall|id: int| 0 <= id < NODE_COUNT && #[trigger] g[id] is Some && !closed[id] implies in_open(
        open,
        id,
    ) by {
        assert(open[0].2 == id);
    }
}

/// A shortest-first search for a route from `start` to `goal` that does not enter the
/// `blocked` cells (the goal excepted).
///
/// Returns `[goal]` when `start == goal`; otherwise a route exactly when one exists.
pub fn find_path_avoiding(
    grid: &WorldGrid,
    content: &ContentRegistry,
    start: (i32, i32),
    goal: (i32, i32),
    blocked: &[(i32, i32)],
) -> (r: Option<Vec<(i32, i32)>>)
    requires
        grid.wf(content),
    ensures
        start == goal ==> (r matches Some(p) && p@ == seq![goal]),
        r matches Some(p) ==> is_route(grid, content, blocked@, start, goal, p@),
        r is Some <==> reachable(grid, content, blocked@, start, goal),
        r matches Some(p) ==> shortest(grid, content, blocked@, start, goal, p@),
{
    if start.0 == goal.0 && start.1 == goal.1 {
        let p = vec![goal];
        assert(is_route(grid, content, blocked@, start, goal, p@));
        proof {
            assert forall|q: Seq<(i32, i32)>| #[trigger]
                is_route(grid, content, blocked@, start, goal, q) implies cost_le(walk_cost(p@), walk_cost(q)) by {
                lemma_walk_cost_parts(q);
                lemma_nonneg_parts(walk_cost(q).0, walk_cost(q).1);
            }
        }
        return Some(p);
    }
    if !grid.is_walkable(content, goal.0, goal.1) {
        proof {
            if reachable(grid, content, blocked@, start, goal) {
                let p = choose|p: Seq<(i32, i32)>| is_route(grid, content, blocked@, start, goal, p);
                assert(legal_step(grid, content, goal, blocked@, p[p.len() - 2], p[p.len() - 1]));
            }
        }
        return None;
    }
    let sid: usize = match WorldGrid::index(start.0, start.1) {
        Some(i) => i,
        None => GRID_CELLS,
    };
    let gid: usize = WorldGrid::index(goal.0, goal.1).unwrap();
    proof {
        lemma_node_of_id(start, start);
        lemma_node_of_id(goal, start);
        assert(sid as int == id_of(start));
        assert(gid as int == id_of(goal));
        assert(sid != gid);
    }
    let mut g: Vec<Option<(u64, u64)>> = vec![None; NODE_COUNT];
    let mut came: Vec<Option<usize>> = vec![None; NODE_COUNT];
    let mut closed: Vec<bool> = vec![false; NODE_COUNT];
    let ghost mut ctime: Seq<int> = Seq::new(NODE_COUNT as nat, |i: int| 0int);
    let ghost mut cs: Set<int> = Set::empty();
    let mut count: usize = 0;
    g.set(sid, Some((0, 0)));
    let mut open: Vec<(u64, u64, usize)> = Vec::new();
    let h = octile(start.0 as i64, start.1 as i64, goal);
    open.push((h.0, h.1, sid));
    proof {
        assert(came@ =~= Seq::new(NODE_COUNT as nat, |i: int| None::<usize>));
        assert(closed@ =~= Seq::new(NODE_COUNT as nat, |i: int| false));
        assert(g@ =~= Seq::new(NODE_COUNT as nat, |i: int| None::<(u64, u64)>).update(
            id_of(start),
            Some((0u64, 0u64)),
        ));
        lemma_init(grid, content, goal, blocked@, start, g@, came@, closed@, ctime, open@);
        lemma_best_init(goal, start, grid, content, blocked@, g@, came@, closed@, open@);
    }
    while open.len() > 0
        invariant
            grid.wf(content),
            search_inv(
                grid,
                content,
                goal,
                blocked@,
                start,
                g@,
                came@,
                closed@,
                ctime,
                count as int,
                open@,
                -1,
            ),
            start != goal,
            sid as int == id_of(start),
            gid as int == id_of(goal),
            cell_index(goal.0 as int, goal.1 as int) is Some,
            best_inv(grid, content, goal, blocked@, start, g@, came@, closed@, count as int, open@, -1),
            cs.finite(),
            cs.len() == count,
            forall|i: int| #[trigger] cs.contains(i) <==> (0 <= i < NODE_COUNT && closed@[i]),
        decreases NODE_COUNT - count, open@.len(),
    {
        proof {
            reveal(inv_entries);
        }
        let ghost before = open@;
        let (m, e) = pop_min(&mut open);
        let cur = e.2;
        if cur == gid {
            proof {
                reveal(inv_entries);
                reveal(inv_shape);
                assert(before[m as int] == e);
                lemma_node_of_id(goal, start);
            }
            let path = reconstruct(
                grid,
                content,
                goal,
                blocked,
                start,
                &came,
                gid,
                Ghost(g@),
                Ghost(closed@),
                Ghost(ctime),
                Ghost(count as int),
                Ghost(before),
            );
            proof {
                assert forall|q: Seq<(i32, i32)>| #[trigger]
                    is_route(grid, content, blocked@, start, goal, q) implies cost_le(walk_cost(path@), walk_cost(q)) by {
                    lemma_popped_best(
                        grid,
                        content,
                        goal,
                        blocked@,
                        start,
                        g@,
                        came@,
                        closed@,
                        ctime,
                        count as int,
                        before,
                        m as int,
                        q,
                    );
                }
            }
            return Some(path);
        }
        if closed[cur] {
            proof {
                lemma_pop_stale(
                    grid,
                    content,
                    goal,
                    blocked@,
                    start,
                    g@,
                    came@,
                    closed@,
                    ctime,
                    count as int,
                    before,
                    m as int,
                );
                reveal(inv_entries);
                lemma_best_stale(grid, content, goal, blocked@, start, g@, came@, closed@, count as int, before, m as int);
            }
            continue;
        }
        proof {
            assert(!cs.contains(cur as int));
            assert(cs.insert(cur as int).subset_of(vstd::set_lib::set_int_range(0, NODE_COUNT as int)));
            vstd::set_lib::lemma_int_range(0, NODE_COUNT as int);
            vstd::set_lib::lemma_len_subset(
                cs.insert(cur as int),
                vstd::set_lib::set_int_range(0, NODE_COUNT as int),
            );
            lemma_best_close(
                grid,
                content,
                goal,
                blocked@,
                start,
                g@,
                came@,
                closed@,
                ctime,
                count as int,
                before,
                m as int,
            );
            lemma_close(
                grid,
                content,
                goal,
                blocked@,
                start,
                g@,
                came@,
                closed@,
                ctime,
                count as int,
                before,
                m as int,
            );
            cs = cs.insert(cur as int);
            ctime = ctime.update(cur as int, count as int);
        }
        closed.set(cur, true);
        count = count + 1;
        expand(
            grid,
            content,
            goal,
            blocked,
            start,
            cur,
            &mut g,
            &mut came,
            &mut open,
            &closed,
            Ghost(ctime),
            Ghost(count as int),
        );
    }
    proof {
        lemma_exhausted(
            grid,
            content,
            goal,
            blocked@,
            start,
            g@,
            came@,
            closed@,
            ctime,
            count as int,
            open@,
        );
    }
    None
}

/// `find_path_avoiding` with nothing to avoid.
pub fn find_path(grid: &WorldGrid, content: &ContentRegistry, start: (i32, i32), goal: (i32, i32)) -> (r:
    Option<Vec<(i32, i32)>>)
    requires
        grid.wf(content),
    ensures
        start == goal ==> (r matches Some(p) && p@ == seq![goal]),
        r matches Some(p) ==> is_route(grid, content, Seq::empty(), start, goal, p@),
        r is Some <==> reachable(grid, content, Seq::empty(), start, goal),
        r matches Some(p) ==> shortest(grid, content, Seq::empty(), start, goal, p@),
{
    let none: Vec<(i32, i32)> = Vec::new();
    find_path_avoiding(grid, content, start, goal, none.as_slice())
}

/// Two shortest routes between the same cells have the same number of cells.
pub proof fn lemma_shortest_same_len(
    grid: &WorldGrid,
    content: &ContentRegistry,
    blocked: Seq<(i32, i32)>,
    from: (i32, i32),
    to: (i32, i32),
    p1: Seq<(i32, i32)>,
    p2: Seq<(i32, i32)>,
)
    requires
        is_route(grid, content, blocked, from, to, p1),
        shortest(grid, content, blocked, from, to, p1),
        is_route(grid, content, blocked, from, to, p2),
        shortest(grid, content, blocked, from, to, p2),
    ensures
        p1.len() == p2.len(),
{
    lemma_le_antisym(walk_cost(p1), walk_cost(p2));
    lemma_walk_cost_parts(p1);
    lemma_walk_cost_parts(p2);
}

/// The number of cells of a shortest route from `from` to `to` (meaningful when `to`
/// is reachable).
pub open spec fn route_len(grid: &WorldGrid, content: &ContentRegistry, from: (i32, i32), to: (i32, i32)) -> int {
    (choose|p: Seq<(i32, i32)>|
        is_route(grid, content, Seq::empty(), from, to, p) && shortest(grid, content, Seq::empty(), from, to, p)).len()
        as int
}

/// A shortest route that `find_path` found has `route_len` cells.
pub proof fn lemma_route_len(
    grid: &WorldGrid,
    content: &ContentRegistry,
    from: (i32, i32),
    to: (i32, i32),
    p: Seq<(i32, i32)>,
)
    requires
        is_route(grid, content, Seq::empty(), from, to, p),
        shortest(grid, content, Seq::empty(), from, to, p),
    ensures
        route_len(grid, content, from, to) == p.len(),
{
    let q = choose|q: Seq<(i32, i32)>|
        is_route(grid, content, Seq::empty(), from, to, q) && shortest(grid, content, Seq::empty(), from, to, q);
    lemma_shortest_same_len(grid, content, Seq::empty(), from, to, p, q);
}

/// The cell beside `building` in direction `k` (right, left, down, up).
pub open spec fn stand_cell(building: (i32, i32), k: int) -> (i32, i32) {
    ((building.0 + dir(k).0) as i32, (building.1 + dir(k).1) as i32)
}

/// Stand `k` beside `building` is walkable and can be reached from `from`.
pub open spec fn stand_open(grid: &WorldGrid, content: &ContentRegistry, building: (i32, i32), from: (i32, i32), k: int) -> bool {
    &&& grid.spec_walkable(content, building.0 + dir(k).0, building.1 + dir(k).1)
    &&& reachable(grid, content, Seq::empty(), from, stand_cell(building, k))
}

/// Stand `j` comes before stand `k` (of routes `len_k` cells long): its shortest route
/// has fewer cells, or as many and it is tried first.
pub open spec fn stand_before(
    grid: &WorldGrid,
    content: &ContentRegistry,
    building: (i32, i32),
    from: (i32, i32),
    j: int,
    k: int,
) -> bool {
    let lj = route_len(grid, content, from, stand_cell(building, j));
    let lk = route_len(grid, content, from, stand_cell(building, k));
    lj < lk || (lj == lk && j < k)
}

/// `s` is stand `k` beside `building`: open, and before every other open stand.
pub open spec fn first_nearest_stand(
    grid: &WorldGrid,
    content: &ContentRegistry,
    building: (i32, i32),
    from: (i32, i32),
    s: (i32, i32),
) -> bool {
    exists|k: int|
        0 <= k < 4 && s == stand_cell(building, k) && stand_open(grid, content, building, from, k) && forall|j: int|
            0 <= j < 4 && #[trigger] stand_open(grid, content, building, from, j) ==> !stand_before(
                grid,
                content,
                building,
                from,
                j,
                k,
            )
}

/// Of the four cells beside `building` (in the order right, left, down, up) that are
/// walkable, that `is_available` accepts and that can be reached from `from`, the one
/// whose shortest route has the fewest cells; the first such on a tie. Every open
/// stand that would come before the one returned was turned down by `is_available`.
pub fn best_adjacent_stand_filtered<F>(
    grid: &WorldGrid,
    content: &ContentRegistry,
    building: (i32, i32),
    from: (i32, i32),
    is_available: F,
) -> (r: Option<(i32, i32)>) where F: Fn((i32, i32)) -> bool
    requires
        grid.wf(content),
        forall|c: (i32, i32)| #[trigger] call_requires(is_available, (c,)),
    ensures
        r matches Some(s) ==> exists|k: int| {
            &&& 0 <= k < 4
            &&& s == stand_cell(building, k)
            &&& s.0 == building.0 + dir(k).0 && s.1 == building.1 + dir(k).1
            &&& stand_open(grid, content, building, from, k)
            &&& grid.spec_walkable(content, s.0 as int, s.1 as int)
            &&& call_ensures(is_available, (s,), true)
            &&& reachable(grid, content, Seq::empty(), from, s)
            &&& forall|j: int|
                0 <= j < 4 && #[trigger] stand_open(grid, content, building, from, j) && stand_before(
                    grid,
                    content,
                    building,
                    from,
                    j,
                    k,
                ) ==> call_ensures(is_available, (stand_cell(building, j),), false)
        },
        r is None ==> forall|k: int|
            0 <= k < 4 && #[trigger] grid.spec_walkable(
                content,
                building.0 + dir(k).0,
                building.1 + dir(k).1,
            ) && reachable(
                grid,
                content,
                Seq::empty(),
                from,
                ((building.0 + dir(k).0) as i32, (building.1 + dir(k).1) as i32),
            ) ==> call_ensures(
                is_available,
                (((building.0 + dir(k).0) as i32, (building.1 + dir(k).1) as i32),),
                false,
            ),
{
    let mut best: Option<((i32, i32), usize)> = None;
    let mut best_k: usize = 0;
    let mut k: usize = 0;
    while k < 4
        invariant
            0 <= k <= 4,
            grid.wf(content),
            forall|c: (i32, i32)| #[trigger] call_requires(is_available, (c,)),
            best matches Some(b) ==> {
                let s = b.0;
                &&& best_k < k
                &&& s == stand_cell(building, best_k as int)
                &&& s.0 == building.0 + dir(best_k as int).0 && s.1 == building.1 + dir(best_k as int).1
                &&& stand_open(grid, content, building, from, best_k as int)
                &&& grid.spec_walkable(content, s.0 as int, s.1 as int)
                &&& call_ensures(is_available, (s,), true)
                &&& reachable(grid, content, Seq::empty(), from, s)
                &&& b.1 as int == route_len(grid, content, from, s)
                &&& forall|j: int|
                    0 <= j < k && #[trigger] stand_open(grid, content, building, from, j) && stand_before(
                        grid,
                        content,
                        building,
                        from,
                        j,
                        best_k as int,
                    ) ==> call_ensures(is_available, (stand_cell(building, j),), false)
            },
            best is None ==> forall|j: int|
                0 <= j < k && #[trigger] grid.spec_walkable(
                    content,
                    building.0 + dir(j).0,
                    building.1 + dir(j).1,
                ) && reachable(
                    grid,
                    content,
                    Seq::empty(),
                    from,
                    ((building.0 + dir(j).0) as i32, (building.1 + dir(j).1) as i32),
                ) ==> call_ensures(
                    is_available,
                    (((building.0 + dir(j).0) as i32, (building.1 + dir(j).1) as i32),),
                    false,
                ),
        decreases 4 - k,
    {
        let (dx, dy) = neighbor_dir(k);
        let sx = building.0 as i64 + dx;
        let sy = building.1 as i64 + dy;
        if sx >= 0 && sy >= 0 && sx < WORLD_SIZE as i64 && sy < WORLD_SIZE as i64 {
            let stand = (sx as i32, sy as i32);
            proof {
                assert(stand == stand_cell(building, k as int));
            }
            if grid.is_walkable(content, stand.0, stand.1) {
                let available = is_available(stand);
                if available {
                    if let Some(path) = find_path(grid, content, from, stand) {
                        let len = path.len();
                        proof {
                            lemma_route_len(grid, content, from, stand, path@);
                        }
                        let better = match best {
                            Some(b) => len < b.1,
                            None => true,
                        };
                        if better {
                            best = Some((stand, len));
                            best_k = k;
                        }
                    }
                }
            }
        }
        k += 1;
    }
    match best {
        Some(b) => Some(b.0),
        None => None,
    }
}

/// `best_adjacent_stand_filtered` with every stand available: the open stand beside
/// `building` whose shortest route from `from` has the fewest cells, the first on a tie.
pub fn best_adjacent_stand(
    grid: &WorldGrid,
    content: &ContentRegistry,
    building: (i32, i32),
    from: (i32, i32),
) -> (r: Option<(i32, i32)>)
    requires
        grid.wf(content),
    ensures
        r matches Some(s) ==> {
            &&& exists|k: int|
                0 <= k < 4 && s.0 == building.0 + dir(k).0 && s.1 == building.1 + dir(k).1
            &&& grid.spec_walkable(content, s.0 as int, s.1 as int)
            &&& reachable(grid, content, Seq::empty(), from, s)
            &&& first_nearest_stand(grid, content, building, from, s)
        },
        r is None ==> forall|k: int|
            0 <= k < 4 ==> !(#[trigger] grid.spec_walkable(
                content,
                building.0 + dir(k).0,
                building.1 + dir(k).1,
            ) && reachable(
                grid,
                content,
                Seq::empty(),
                from,
                ((building.0 + dir(k).0) as i32, (building.1 + dir(k).1) as i32),
            )),
{
    let any = |c: (i32, i32)| -> (b: bool)
        ensures
            b,
        { true };
    let r = best_adjacent_stand_filtered(grid, content, building, from, any);
    proof {
        if let Some(s) = r {
            let k = choose|k: int| {
                &&& 0 <= k < 4
                &&& s == stand_cell(building, k)
                &&& s.0 == building.0 + dir(k).0 && s.1 == building.1 + dir(k).1
                &&& stand_open(grid, content, building, from, k)
                &&& grid.spec_walkable(content, s.0 as int, s.1 as int)
                &&& call_ensures(any, (s,), true)
                &&& reachable(grid, content, Seq::empty(), from, s)
                &&& forall|j: int|
                    0 <= j < 4 && #[trigger] stand_open(grid, content, building, from, j) && stand_before(
                        grid,
                        content,
                        building,
                        from,
                        j,
                        k,
                    ) ==> call_ensures(any, (stand_cell(building, j),), false)
            };
            assert forall|j: int| 0 <= j < 4 && #[trigger] stand_open(grid, content, building, from, j) implies !stand_before(
                grid,
                content,
                building,
                from,
                j,
                k,
            ) by {
                if stand_before(grid, content, building, from, j, k) {
                    assert(call_ensures(any, (stand_cell(building, j),), false));
                }
            }
            assert(first_nearest_stand(grid, content, building, from, s));
        }
    }
    r
}

} // verus!
