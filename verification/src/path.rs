//! Grid path search for wandering bots: A* over the open tiles of a level
//! with 4-neighbour moves of cost 1 and the Manhattan-distance heuristic.

use vstd::prelude::*;
use crate::model::{Level, grid, in_grid};

verus! {

/// |v|
pub open spec fn abs(v: int) -> int {
    if v < 0 { -v } else { v }
}

/// Manhattan distance between two tiles.
pub open spec fn spec_manhattan(a: (i32, i32), b: (i32, i32)) -> int {
    abs(a.0 - b.0) + abs(a.1 - b.1)
}

/// |dx| + |dy| of two tiles, computed in `i32` as in the bots' search.
pub fn manhattan_distance(a: (i32, i32), b: (i32, i32)) -> (d: u32)
    requires
        i32::MIN < a.0 - b.0 <= i32::MAX,
        i32::MIN < a.1 - b.1 <= i32::MAX,
        spec_manhattan(a, b) <= i32::MAX,
    ensures
        d == spec_manhattan(a, b),
{
    let dx: i32 = a.0 - b.0;
    let dy: i32 = a.1 - b.1;
    let ax: i32 = if dx < 0 { -dx } else { dx };
    let ay: i32 = if dy < 0 { -dy } else { dy };
    (ax + ay) as u32
}

/// Two tiles share an edge.
pub open spec fn adjacent(a: (i32, i32), b: (i32, i32)) -> bool {
    spec_manhattan(a, b) == 1
}

/// `c` is an open (value 0) tile inside the grid.
pub open spec fn open_tile(g: Seq<Seq<u8>>, c: (i32, i32)) -> bool {
    in_grid(g, c.0 as int, c.1 as int) && g[c.1 as int][c.0 as int] == 0
}

/// `p` walks from `start` to `goal` in edge-sharing steps, every step onto
/// an open tile (the start tile itself may be anything).
pub open spec fn is_path(g: Seq<Seq<u8>>, p: Seq<(i32, i32)>, start: (i32, i32), goal: (i32, i32)) -> bool {
    &&& p.len() >= 1
    &&& p[0] == start
    &&& p.last() == goal
    &&& forall|i: int| 0 <= i < p.len() - 1 ==> adjacent(#[trigger] p[i], p[i + 1]) && open_tile(g, p[i + 1])
}

/// Some path leads from `start` to `goal`.
pub open spec fn reachable(g: Seq<Seq<u8>>, start: (i32, i32), goal: (i32, i32)) -> bool {
    exists|p: Seq<(i32, i32)>| is_path(g, p, start, goal)
}

/// Length of the longest of the first `n` rows of `g`.
pub open spec fn max_row_len(g: Seq<Seq<u8>>, n: int) -> int
    decreases n,
{
    if n <= 0 {
        0
    } else if g[n - 1].len() > max_row_len(g, n - 1) {
        g[n - 1].len() as int
    } else {
        max_row_len(g, n - 1)
    }
}

/// The four tiles that share an edge with `c` all lie inside the grid.
pub open spec fn neighbours_in_grid(g: Seq<Seq<u8>>, c: (i32, i32)) -> bool {
    &&& in_grid(g, c.0 + 1, c.1 as int)
    &&& in_grid(g, c.0 - 1, c.1 as int)
    &&& in_grid(g, c.0 as int, c.1 + 1)
    &&& in_grid(g, c.0 as int, c.1 - 1)
}

/// Some path leads from `start` to `c` without passing through `goal`
/// before its end.
pub open spec fn reach_avoiding(g: Seq<Seq<u8>>, start: (i32, i32), goal: (i32, i32), c: (i32, i32)) -> bool {
    exists|p: Seq<(i32, i32)>| #[trigger] is_path(g, p, start, c)
        && forall|i: int| 0 <= i < p.len() - 1 ==> #[trigger] p[i] != goal
}

/// The region the search can expand is walled in: the start and every tile
/// reachable from it without passing through `goal`, other than `goal`
/// itself, has its four neighbours inside the grid.
pub open spec fn enclosed(g: Seq<Seq<u8>>, start: (i32, i32), goal: (i32, i32)) -> bool {
    forall|c: (i32, i32)| (c == start || reach_avoiding(g, start, goal, c)) && c != goal
        ==> #[trigger] neighbours_in_grid(g, c)
}

/// Costs and estimates of a search on a grid of `w` x `h` tiles towards
/// `goal` fit the `u32` and `i32` arithmetic of the search.
pub open spec fn goal_fits(w: int, h: int, goal: (i32, i32)) -> bool {
    &&& abs(goal.0 as int) + abs(goal.1 as int) + w + h <= i32::MAX
    &&& w * h + abs(goal.0 as int) + abs(goal.1 as int) + w + h + 2 <= u32::MAX
}

/// A level the search can run on: `h` rows of at most `w` tiles, small
/// enough that costs fit in `u32`.
pub open spec fn searchable(g: Seq<Seq<u8>>, w: int, h: int) -> bool {
    &&& h == g.len()
    &&& 1 <= w <= i32::MAX
    &&& 1 <= h <= i32::MAX
    &&& w * h + w + h + 2 <= u32::MAX
    &&& w + h <= i32::MAX
    &&& forall|y: int| 0 <= y < h ==> (#[trigger] g[y]).len() <= w
}

/// A tile inside the grid lies in the table's rectangle.
proof fn lemma_grid_in_bounds(g: Seq<Seq<u8>>, w: int, h: int, c: (i32, i32))
    requires
        searchable(g, w, h),
        in_grid(g, c.0 as int, c.1 as int),
    ensures
        in_bounds(c, w, h),
{
    assert(g[c.1 as int].len() <= w);
}

/// Stepping from an expandable tile onto an adjacent open tile keeps it
/// reachable without passing through `goal`.
proof fn lemma_extend_reach(g: Seq<Seq<u8>>, start: (i32, i32), goal: (i32, i32), cur: (i32, i32), nb: (i32, i32))
    requires
        cur == start || reach_avoiding(g, start, goal, cur),
        cur != goal,
        adjacent(cur, nb),
        open_tile(g, nb),
    ensures
        reach_avoiding(g, start, goal, nb),
{
    if cur == start {
        let p = seq![start, nb];
        assert(p[0] != goal);
        assert(is_path(g, p, start, nb));
    } else {
        let p = choose|p: Seq<(i32, i32)>| #[trigger] is_path(g, p, start, cur)
            && forall|i: int| 0 <= i < p.len() - 1 ==> #[trigger] p[i] != goal;
        let q = p.push(nb);
        assert forall|i: int| 0 <= i < q.len() - 1 implies adjacent(#[trigger] q[i], q[i + 1]) && open_tile(g, q[i + 1]) by {
            if i < p.len() - 1 {
                assert(q[i] == p[i] && q[i + 1] == p[i + 1]);
                assert(adjacent(p[i], p[i + 1]));
            }
        }
        assert(is_path(g, q, start, nb));
        assert forall|i: int| 0 <= i < q.len() - 1 implies #[trigger] q[i] != goal by {
            if i < p.len() - 1 {
                assert(q[i] == p[i]);
            } else {
                assert(q[i] == cur);
            }
        }
    }
}

/// Sum of a cost table.
pub open spec fn cost_sum(s: Seq<u32>) -> int
    decreases s.len(),
{
    if s.len() == 0 { 0 } else { cost_sum(s.drop_last()) + s.last() }
}

/// Number of cells of a cost table that have a cost (are not `u32::MAX`).
pub open spec fn num_set(s: Seq<u32>) -> int
    decreases s.len(),
{
    if s.len() == 0 {
        0
    } else {
        num_set(s.drop_last()) + if s.last() != u32::MAX { 1int } else { 0int }
    }
}

proof fn lemma_sum_update(s: Seq<u32>, i: int, v: u32)
    requires
        0 <= i < s.len(),
    ensures
        cost_sum(s.update(i, v)) == cost_sum(s) - s[i] + v,
        num_set(s.update(i, v)) == num_set(s) - (if s[i] != u32::MAX { 1int } else { 0int }) + (
        if v != u32::MAX { 1int } else { 0int }),
    decreases s.len(),
{
    if i < s.len() - 1 {
        lemma_sum_update(s.drop_last(), i, v);
        assert(s.update(i, v).drop_last() =~= s.drop_last().update(i, v));
    } else {
        assert(s.update(i, v).drop_last() =~= s.drop_last());
    }
}

proof fn lemma_num_set_bounds(s: Seq<u32>)
    ensures
        0 <= num_set(s) <= s.len(),
        cost_sum(s) >= 0,
    decreases s.len(),
{
    if s.len() > 0 {
        lemma_num_set_bounds(s.drop_last());
    }
}

/// Index of tile `c` in a row-major table of width `w`.
pub open spec fn cell(c: (i32, i32), w: int) -> int {
    c.1 * w + c.0
}

proof fn lemma_cell_bounds(c: (i32, i32), w: int, h: int)
    requires
        0 <= c.0 < w,
        0 <= c.1 < h,
    ensures
        0 <= cell(c, w) < w * h,
{
    assert(0 <= c.1 * w + c.0 < w * h) by (nonlinear_arith)
        requires 0 <= c.0 < w, 0 <= c.1 < h;
}

proof fn lemma_cell_injective(a: (i32, i32), b: (i32, i32), w: int)
    requires
        0 <= a.0 < w,
        0 <= b.0 < w,
        0 <= a.1,
        0 <= b.1,
        cell(a, w) == cell(b, w),
    ensures
        a == b,
{
    assert(a.1 == b.1 && a.0 == b.0) by (nonlinear_arith)
        requires 0 <= a.0 < w, 0 <= b.0 < w, 0 <= a.1, 0 <= b.1, a.1 * w + a.0 == b.1 * w + b.0;
}

/// Tile `c` lies in the `w` x `h` rectangle.
pub open spec fn in_bounds(c: (i32, i32), w: int, h: int) -> bool {
    0 <= c.0 < w && 0 <= c.1 < h
}

/// The search state is consistent: costs and predecessors describe a tree of
/// found paths rooted at `start`, and every found cell (but `waive`) is
/// either queued or has had all its open neighbours found.
#[verifier::opaque]
pub open spec fn search_inv(
    g: Seq<Seq<u8>>,
    w: int,
    h: int,
    start: (i32, i32),
    goal: (i32, i32),
    costs: Seq<u32>,
    prev: Seq<Option<(i32, i32)>>,
    open: Seq<(u32, i32, i32)>,
    waive: Option<(i32, i32)>,
) -> bool {
    &&& costs.len() == w * h
    &&& prev.len() == w * h
    &&& costs[cell(start, w)] == 0
    &&& num_set(costs) <= w * h
    &&& forall|c: (i32, i32)| #![trigger costs[cell(c, w)]]
        in_bounds(c, w, h) && costs[cell(c, w)] != u32::MAX
            ==> found_ok(g, w, h, start, goal, costs, prev, open, waive, c)
    &&& forall|j: int| 0 <= j < open.len() ==> queued_ok(g, w, h, start, goal, costs, #[trigger] open[j])
}

proof fn lemma_found(
    g: Seq<Seq<u8>>, wi: int, hi: int, start: (i32, i32), goal: (i32, i32),
    costs: Seq<u32>, prev: Seq<Option<(i32, i32)>>, open: Seq<(u32, i32, i32)>,
    waive: Option<(i32, i32)>, c: (i32, i32),
)
    requires
        search_inv(g, wi, hi, start, goal, costs, prev, open, waive),
        in_bounds(c, wi, hi),
        costs[cell(c, wi)] != u32::MAX,
    ensures
        found_ok(g, wi, hi, start, goal, costs, prev, open, waive, c),
        costs.len() == wi * hi,
        prev.len() == wi * hi,
        costs[cell(start, wi)] == 0,
        num_set(costs) <= wi * hi,
{
    reveal(search_inv);
}

proof fn lemma_queued(
    g: Seq<Seq<u8>>, wi: int, hi: int, start: (i32, i32), goal: (i32, i32),
    costs: Seq<u32>, prev: Seq<Option<(i32, i32)>>, open: Seq<(u32, i32, i32)>,
    waive: Option<(i32, i32)>, j: int,
)
    requires
        search_inv(g, wi, hi, start, goal, costs, prev, open, waive),
        0 <= j < open.len(),
    ensures
        queued_ok(g, wi, hi, start, goal, costs, open[j]),
{
    reveal(search_inv);
}

proof fn lemma_inv_sizes(
    g: Seq<Seq<u8>>, wi: int, hi: int, start: (i32, i32), goal: (i32, i32),
    costs: Seq<u32>, prev: Seq<Option<(i32, i32)>>, open: Seq<(u32, i32, i32)>,
    waive: Option<(i32, i32)>,
)
    requires
        search_inv(g, wi, hi, start, goal, costs, prev, open, waive),
    ensures
        costs.len() == wi * hi,
        prev.len() == wi * hi,
        costs[cell(start, wi)] == 0,
        num_set(costs) <= wi * hi,
{
    reveal(search_inv);
}

/// A queued entry names a found cell that is the start or an open tile, and
/// its estimate is at least the cell's cost plus its distance to the goal
/// (the start's own entry estimates 0).
pub open spec fn queued_ok(
    g: Seq<Seq<u8>>, w: int, h: int, start: (i32, i32), goal: (i32, i32), costs: Seq<u32>, e: (u32, i32, i32),
) -> bool {
    &&& in_bounds((e.1, e.2), w, h)
    &&& costs[cell((e.1, e.2), w)] != u32::MAX
    &&& ((e.1, e.2) == start || open_tile(g, (e.1, e.2)))
    &&& e.0 >= costs[cell((e.1, e.2), w)] + if (e.1, e.2) == start { 0 } else { spec_manhattan((e.1, e.2), goal) }
}

/// Whether tile `c` has an entry in the queue.
pub open spec fn is_queued(open: Seq<(u32, i32, i32)>, c: (i32, i32)) -> bool {
    exists|j: int| 0 <= j < open.len() && (#[trigger] open[j]).1 == c.0 && open[j].2 == c.1
}

/// Every open neighbour of `c` costs at most one more than `c`.
pub open spec fn relaxed(g: Seq<Seq<u8>>, w: int, costs: Seq<u32>, c: (i32, i32)) -> bool {
    forall|n: (i32, i32)| adjacent(c, n) && open_tile(g, n) ==> #[trigger] costs[cell(n, w)] <= costs[cell(c, w)] + 1
}

/// Tile `c` has a queue entry whose estimate is at most `bound`.
pub open spec fn queued_within(open: Seq<(u32, i32, i32)>, c: (i32, i32), bound: int) -> bool {
    exists|j: int| 0 <= j < open.len() && (#[trigger] open[j]).1 == c.0 && open[j].2 == c.1 && open[j].0 <= bound
}

/// All open neighbours of `c` have been found.
pub open spec fn expanded(g: Seq<Seq<u8>>, w: int, costs: Seq<u32>, c: (i32, i32)) -> bool {
    forall|n: (i32, i32)| adjacent(c, n) && open_tile(g, n) ==> #[trigger] costs[cell(n, w)] != u32::MAX
}

/// What holds of a found cell.
pub open spec fn found_ok(
    g: Seq<Seq<u8>>,
    w: int,
    h: int,
    start: (i32, i32),
    goal: (i32, i32),
    costs: Seq<u32>,
    prev: Seq<Option<(i32, i32)>>,
    open: Seq<(u32, i32, i32)>,
    waive: Option<(i32, i32)>,
    c: (i32, i32),
) -> bool {
    &&& costs[cell(c, w)] <= num_set(costs)
    &&& (c == start || open_tile(g, c))
    &&& (c == start || reach_avoiding(g, start, goal, c))
    &&& (c == start) == (prev[cell(c, w)] is None)
    &&& (c != start ==> {
        let p = prev[cell(c, w)]->0;
        &&& adjacent(p, c)
        &&& in_bounds(p, w, h)
        &&& costs[cell(p, w)] < costs[cell(c, w)]
    })
    &&& (waive == Some(c) || is_queued(open, c) || expanded(g, w, costs, c))
    &&& (waive == Some(c) || relaxed(g, w, costs, c)
        || queued_within(open, c, costs[cell(c, w)] + spec_manhattan(c, goal)))
    &&& (c == goal ==> is_queued(open, c))
}

fn cell_index(c: (i32, i32), w: usize, h: usize) -> (i: usize)
    requires
        in_bounds(c, w as int, h as int),
        w * h <= usize::MAX,
    ensures
        i == cell(c, w as int),
        i < w * h,
{
    proof {
        lemma_cell_bounds(c, w as int, h as int);
    }
    (c.1 as usize) * w + (c.0 as usize)
}

/// (f, x, y) of `a` is lexicographically smaller than that of `b`.
fn entry_less(a: (u32, i32, i32), b: (u32, i32, i32)) -> (r: bool)
    ensures
        r == (a.0 < b.0 || (a.0 == b.0 && (a.1 < b.1 || (a.1 == b.1 && a.2 < b.2)))),
{
    a.0 < b.0 || (a.0 == b.0 && (a.1 < b.1 || (a.1 == b.1 && a.2 < b.2)))
}

/// Lowers the cost of neighbour `nb` of the expanded cell `cur` to
/// cost(cur) + 1 when that is cheaper (and `nb` is open), recording `cur` as
/// its predecessor and queueing it.
fn relax(
    level: &Level,
    costs: &mut Vec<u32>,
    prev: &mut Vec<Option<(i32, i32)>>,
    open: &mut Vec<(u32, i32, i32)>,
    w: usize,
    h: usize,
    start: (i32, i32),
    goal: (i32, i32),
    cur: (i32, i32),
    nb: (i32, i32),
)
    requires
        searchable(level.walls(), w as int, h as int),
        goal_fits(w as int, h as int, goal),
        in_bounds(start, w as int, h as int),
        in_bounds(cur, w as int, h as int),
        in_bounds(nb, w as int, h as int),
        in_grid(level.walls(), nb.0 as int, nb.1 as int),
        cur != goal,
        adjacent(cur, nb),
        old(costs)@[cell(cur, w as int)] != u32::MAX,
        search_inv(level.walls(), w as int, h as int, start, goal, old(costs)@, old(prev)@, old(open)@, Some(cur)),
    ensures
        search_inv(level.walls(), w as int, h as int, start, goal, final(costs)@, final(prev)@, final(open)@, Some(cur)),
        open_tile(level.walls(), nb) ==> final(costs)@[cell(nb, w as int)] != u32::MAX,
        open_tile(level.walls(), nb) ==> final(costs)@[cell(nb, w as int)] <= old(costs)@[cell(cur, w as int)] + 1,
        forall|i: int| 0 <= i < old(costs)@.len() && old(costs)@[i] != u32::MAX ==> #[trigger] final(costs)@[i] != u32::MAX,
        forall|i: int| 0 <= i < old(costs)@.len() ==> #[trigger] final(costs)@[i] <= old(costs)@[i],
        final(costs)@[cell(cur, w as int)] == old(costs)@[cell(cur, w as int)],
        final(costs)@.len() == old(costs)@.len(),
        5 * cost_sum(final(costs)@) + final(open)@.len() <= 5 * cost_sum(old(costs)@) + old(open)@.len(),
{
    let ghost g = level.walls();
    let ghost wi = w as int;
    let ghost hi = h as int;
    proof {
        assert(w * h <= u32::MAX);
    }
    if level.is_wall(nb.0 as usize, nb.1 as usize) {
        return;
    }
    proof {
        lemma_found(g, wi, hi, start, goal, costs@, prev@, open@, Some(cur), cur);
        lemma_num_set_bounds(costs@);
    }
    let cur_idx: usize = cell_index(cur, w, h);
    let nb_idx: usize = cell_index(nb, w, h);
    let current_g: u32 = costs[cur_idx];
    let tentative_g: u32 = current_g + 1;
    if tentative_g < costs[nb_idx] {
        let ghost old_costs = costs@;
        let ghost old_prev = prev@;
        let ghost old_open = open@;
        proof {
            lemma_inv_sizes(g, wi, hi, start, goal, costs@, prev@, open@, Some(cur));
            if nb == start {
                assert(false);
            }
            if cur_idx == nb_idx {
                lemma_cell_injective(cur, nb, wi);
            }
        }
        proof {
            assert(spec_manhattan(nb, goal) <= abs(goal.0 as int) + abs(goal.1 as int) + wi + hi);
        }
        let est: u32 = manhattan_distance(nb, goal);
        costs.set(nb_idx, tentative_g);
        prev.set(nb_idx, Some(cur));
        open.push((tentative_g + est, nb.0, nb.1));
        proof {
            lemma_sum_update(old_costs, nb_idx as int, tentative_g);
            lemma_num_set_bounds(costs@);
            lemma_relax_preserves(g, wi, hi, start, goal, old_costs, old_prev, old_open, costs@, prev@, open@, cur, nb, tentative_g);
        }
    }
}

proof fn lemma_relax_queued(
    g: Seq<Seq<u8>>, wi: int, hi: int, start: (i32, i32), goal: (i32, i32),
    old_costs: Seq<u32>, old_open: Seq<(u32, i32, i32)>,
    new_costs: Seq<u32>, new_open: Seq<(u32, i32, i32)>,
    nb: (i32, i32), t: u32,
)
    requires
        t < old_costs[cell(nb, wi)],
        nb != start,
        new_open[old_open.len() as int].0 == t + spec_manhattan(nb, goal),
        old_costs.len() == wi * hi,
        wi >= 1,
        in_bounds(nb, wi, hi),
        open_tile(g, nb),
        t != u32::MAX,
        new_costs == old_costs.update(cell(nb, wi), t),
        new_open.len() == old_open.len() + 1,
        forall|j: int| 0 <= j < old_open.len() ==> new_open[j] == old_open[j],
        new_open[old_open.len() as int].1 == nb.0 && new_open[old_open.len() as int].2 == nb.1,
        forall|j: int| 0 <= j < old_open.len() ==> queued_ok(g, wi, hi, start, goal, old_costs, #[trigger] old_open[j]),
    ensures
        forall|j: int| 0 <= j < new_open.len() ==> queued_ok(g, wi, hi, start, goal, new_costs, #[trigger] new_open[j]),
{
    lemma_cell_bounds(nb, wi, hi);
    assert forall|j: int| 0 <= j < new_open.len() implies queued_ok(g, wi, hi, start, goal, new_costs, #[trigger] new_open[j]) by {
        if j < old_open.len() {
            assert(old_open[j] == new_open[j]);
            assert(queued_ok(g, wi, hi, start, goal, old_costs, old_open[j]));
            let c = (old_open[j].1, old_open[j].2);
            lemma_cell_bounds(c, wi, hi);
            if cell(c, wi) == cell(nb, wi) {
                lemma_cell_injective(c, nb, wi);
            }
        } else {
            assert(new_open[j].1 == nb.0 && new_open[j].2 == nb.1);
            assert((new_open[j].1, new_open[j].2) == nb);
        }
    }
}

proof fn lemma_relax_preserves(
    g: Seq<Seq<u8>>, wi: int, hi: int, start: (i32, i32), goal: (i32, i32),
    old_costs: Seq<u32>, old_prev: Seq<Option<(i32, i32)>>, old_open: Seq<(u32, i32, i32)>,
    new_costs: Seq<u32>, new_prev: Seq<Option<(i32, i32)>>, new_open: Seq<(u32, i32, i32)>,
    cur: (i32, i32), nb: (i32, i32), t: u32,
)
    requires
        wi >= 1,
        hi >= 1,
        in_bounds(cur, wi, hi),
        in_bounds(nb, wi, hi),
        adjacent(cur, nb),
        open_tile(g, nb),
        nb != start,
        cur != goal,
        searchable(g, wi, hi),
        in_bounds(start, wi, hi),
        search_inv(g, wi, hi, start, goal, old_costs, old_prev, old_open, Some(cur)),
        old_costs[cell(cur, wi)] != u32::MAX,
        t == old_costs[cell(cur, wi)] + 1,
        t < old_costs[cell(nb, wi)],
        new_costs == old_costs.update(cell(nb, wi), t),
        new_prev == old_prev.update(cell(nb, wi), Some(cur)),
        new_open.len() == old_open.len() + 1,
        forall|j: int| 0 <= j < old_open.len() ==> new_open[j] == old_open[j],
        new_open[old_open.len() as int].1 == nb.0 && new_open[old_open.len() as int].2 == nb.1,
        new_open[old_open.len() as int].0 == t + spec_manhattan(nb, goal),
        num_set(new_costs) == num_set(old_costs) + (if old_costs[cell(nb, wi)] == u32::MAX { 1int } else { 0int }),
    ensures
        search_inv(g, wi, hi, start, goal, new_costs, new_prev, new_open, Some(cur)),
{
    reveal(search_inv);
    let nb_idx = cell(nb, wi);
    lemma_cell_bounds(nb, wi, hi);
    lemma_cell_bounds(cur, wi, hi);
    lemma_cell_bounds(start, wi, hi);
    lemma_num_set_bounds(new_costs);
    lemma_relax_queued(g, wi, hi, start, goal, old_costs, old_open, new_costs, new_open, nb, t);
    assert(found_ok(g, wi, hi, start, goal, old_costs, old_prev, old_open, Some(cur), cur));
    if cell(start, wi) == nb_idx {
        lemma_cell_injective(start, nb, wi);
    }
    assert(new_open[old_open.len() as int].1 == nb.0);
    assert(is_queued(new_open, nb));
    if old_costs[nb_idx] != u32::MAX {
        assert(found_ok(g, wi, hi, start, goal, old_costs, old_prev, old_open, Some(cur), nb));
    }
    assert forall|c: (i32, i32)| #![trigger new_costs[cell(c, wi)]]
        in_bounds(c, wi, hi) && new_costs[cell(c, wi)] != u32::MAX
        implies found_ok(g, wi, hi, start, goal, new_costs, new_prev, new_open, Some(cur), c) by {
        lemma_cell_bounds(c, wi, hi);
        if c != nb {
            if cell(c, wi) == nb_idx {
                lemma_cell_injective(c, nb, wi);
            }
            assert(old_costs[cell(c, wi)] != u32::MAX);
        }
        lemma_relax_cell(g, wi, hi, start, goal, old_costs, old_prev, old_open, new_costs, new_prev, new_open, cur, nb, t, c);
    }
}

proof fn lemma_relax_cell(
    g: Seq<Seq<u8>>, wi: int, hi: int, start: (i32, i32), goal: (i32, i32),
    old_costs: Seq<u32>, old_prev: Seq<Option<(i32, i32)>>, old_open: Seq<(u32, i32, i32)>,
    new_costs: Seq<u32>, new_prev: Seq<Option<(i32, i32)>>, new_open: Seq<(u32, i32, i32)>,
    cur: (i32, i32), nb: (i32, i32), t: u32, c: (i32, i32),
)
    requires
        wi >= 1,
        hi >= 1,
        old_costs.len() == wi * hi,
        old_prev.len() == wi * hi,
        in_bounds(cur, wi, hi),
        in_bounds(nb, wi, hi),
        in_bounds(c, wi, hi),
        adjacent(cur, nb),
        open_tile(g, nb),
        nb != start,
        cur != goal,
        cur == start || open_tile(g, cur),
        cur == start || reach_avoiding(g, start, goal, cur),
        old_costs[cell(cur, wi)] <= num_set(old_costs),
        t == old_costs[cell(cur, wi)] + 1,
        t < old_costs[cell(nb, wi)],
        new_costs == old_costs.update(cell(nb, wi), t),
        new_prev == old_prev.update(cell(nb, wi), Some(cur)),
        new_open.len() == old_open.len() + 1,
        forall|j: int| 0 <= j < old_open.len() ==> new_open[j] == old_open[j],
        new_open[old_open.len() as int].1 == nb.0 && new_open[old_open.len() as int].2 == nb.1,
        new_open[old_open.len() as int].0 == t + spec_manhattan(nb, goal),
        num_set(new_costs) == num_set(old_costs) + (if old_costs[cell(nb, wi)] == u32::MAX { 1int } else { 0int }),
        searchable(g, wi, hi),
        old_costs[cell(nb, wi)] != u32::MAX ==> old_costs[cell(nb, wi)] <= num_set(old_costs),
        c != nb ==> old_costs[cell(c, wi)] != u32::MAX && found_ok(g, wi, hi, start, goal, old_costs, old_prev, old_open, Some(cur), c),
        new_costs[cell(c, wi)] != u32::MAX,
    ensures
        found_ok(g, wi, hi, start, goal, new_costs, new_prev, new_open, Some(cur), c),
{
    let nb_idx = cell(nb, wi);
    lemma_cell_bounds(nb, wi, hi);
    lemma_cell_bounds(c, wi, hi);
    lemma_cell_bounds(cur, wi, hi);
    if c == nb {
        lemma_extend_reach(g, start, goal, cur, nb);
        assert(new_open[old_open.len() as int].1 == nb.0);
        assert(is_queued(new_open, nb));
        assert(queued_within(new_open, nb, new_costs[cell(nb, wi)] + spec_manhattan(nb, goal)));
        assert(new_prev[cell(c, wi)] == Some(cur));
        if cell(cur, wi) == nb_idx {
            lemma_cell_injective(cur, nb, wi);
        }
        assert(new_costs[cell(cur, wi)] == old_costs[cell(cur, wi)]);
    } else {
        if cell(c, wi) == nb_idx {
            lemma_cell_injective(c, nb, wi);
        }
        assert(new_costs[cell(c, wi)] == old_costs[cell(c, wi)]);
        assert(new_prev[cell(c, wi)] == old_prev[cell(c, wi)]);
        if c != start {
            let p = old_prev[cell(c, wi)]->0;
            lemma_cell_bounds(p, wi, hi);
            if cell(p, wi) == nb_idx {
                lemma_cell_injective(p, nb, wi);
            }
        }
        if is_queued(old_open, c) {
            let j = choose|j: int| 0 <= j < old_open.len() && (#[trigger] old_open[j]).1 == c.0 && old_open[j].2 == c.1;
            assert(new_open[j] == old_open[j]);
        }
        if queued_within(old_open, c, old_costs[cell(c, wi)] + spec_manhattan(c, goal)) {
            let j = choose|j: int| 0 <= j < old_open.len() && (#[trigger] old_open[j]).1 == c.0 && old_open[j].2 == c.1
                && old_open[j].0 <= old_costs[cell(c, wi)] + spec_manhattan(c, goal);
            assert(new_open[j] == old_open[j]);
        }
        if relaxed(g, wi, old_costs, c) {
            assert forall|n: (i32, i32)| adjacent(c, n) && open_tile(g, n) implies
                #[trigger] new_costs[cell(n, wi)] <= new_costs[cell(c, wi)] + 1 by {
                assert(old_costs[cell(n, wi)] <= old_costs[cell(c, wi)] + 1);
                lemma_cell_bounds(n, wi, hi);
            }
        }
        if expanded(g, wi, old_costs, c) {
            assert forall|n: (i32, i32)| adjacent(c, n) && open_tile(g, n) implies #[trigger] new_costs[cell(n, wi)] != u32::MAX by {
                assert(old_costs[cell(n, wi)] != u32::MAX);
                lemma_cell_bounds(n, wi, hi);
                if cell(n, wi) != nb_idx {
                    assert(new_costs[cell(n, wi)] == old_costs[cell(n, wi)]);
                }
            }
        }
    }
}

/// Searches for a path from `start` to `goal` with A*: repeatedly expands the
/// queued tile with the smallest (estimated total cost, x, y), recording for
/// every tile reached more cheaply its cost and predecessor. Returns the
/// path (start and goal included) when `goal` is expanded, which is a
/// shortest one, and `None` when the queue runs dry, which happens exactly
/// when `goal` is unreachable (a goal outside the grid never is). Rows may
/// differ in length; the search only needs the region it expands to be
/// walled in (`enclosed`), as it looks at every neighbour of a tile it
/// expands.
pub fn compute_path(level: &Level, start: (i32, i32), goal: (i32, i32)) -> (r: Option<Vec<(i32, i32)>>)
    requires
        level.walls().len() <= i32::MAX,
        goal_fits(max_row_len(level.walls(), level.walls().len() as int), level.walls().len() as int, goal),
        enclosed(level.walls(), start, goal),
    ensures
        match r {
            Some(p) => is_path(level.walls(), p@, start, goal) && forall|q: Seq<(i32, i32)>|
                #[trigger] is_path(level.walls(), q, start, goal) ==> p@.len() <= q.len(),
            None => !reachable(level.walls(), start, goal),
        },
{
    let ghost g = level.walls();
    if start.0 == goal.0 && start.1 == goal.1 {
        let mut only: Vec<(i32, i32)> = Vec::new();
        only.push(start);
        proof {
            assert(start == goal);
            assert(is_path(g, only@, start, goal));
        }
        return Some(only);
    }
    let h: usize = level.tiles.len();
    let mut w: usize = 0;
    let mut y: usize = 0;
    while y < h
        invariant
            g == level.walls(),
            h == g.len(),
            y <= h,
            w == max_row_len(g, y as int),
            forall|k: int| 0 <= k < y ==> (#[trigger] g[k]).len() <= w,
        decreases h - y,
    {
        let len: usize = level.tiles[y].len();
        proof {
            assert(g[y as int] == level.tiles@[y as int]@);
        }
        if len > w {
            w = len;
        }
        y = y + 1;
    }
    let ghost wi = w as int;
    let ghost hi = h as int;
    proof {
        assert(start != goal);
        assert(neighbours_in_grid(g, start));
        assert(g[start.1 as int].len() <= w);
        assert(in_bounds(start, wi, hi));
        assert(searchable(g, wi, hi));
        assert(w * h <= u32::MAX);
    }
    let n: usize = w * h;
    let mut costs: Vec<u32> = Vec::new();
    let mut prev: Vec<Option<(i32, i32)>> = Vec::new();
    let mut k: usize = 0;
    while k < n
        invariant
            k <= n,
            costs@ == Seq::new(k as nat, |i: int| u32::MAX),
            prev@ == Seq::new(k as nat, |i: int| None::<(i32, i32)>),
        decreases n - k,
    {
        costs.push(u32::MAX);
        prev.push(None);
        k = k + 1;
        proof {
            assert(costs@ =~= Seq::new(k as nat, |i: int| u32::MAX));
            assert(prev@ =~= Seq::new(k as nat, |i: int| None::<(i32, i32)>));
        }
    }
    let start_idx: usize = cell_index(start, w, h);
    let ghost all_unset = costs@;
    costs.set(start_idx, 0);
    let mut open: Vec<(u32, i32, i32)> = Vec::new();
    open.push((0, start.0, start.1));
    proof {
        reveal(search_inv);
        lemma_num_unset(all_unset);
        lemma_sum_update(all_unset, start_idx as int, 0);
        assert(open@[0].1 == start.0 && open@[0].2 == start.1 && open@[0].0 == 0);
        assert(is_queued(open@, start));
        assert(queued_within(open@, start, costs@[cell(start, wi)] + spec_manhattan(start, goal)));
        assert forall|c: (i32, i32)| #![trigger costs@[cell(c, wi)]]
            in_bounds(c, wi, hi) && costs@[cell(c, wi)] != u32::MAX
            implies found_ok(g, wi, hi, start, goal, costs@, prev@, open@, None, c) by {
            lemma_cell_bounds(c, wi, hi);
            if c != start {
                if cell(c, wi) == start_idx {
                    lemma_cell_injective(c, start, wi);
                }
                assert(costs@[cell(c, wi)] == u32::MAX);
            }
        }
        assert forall|j: int| 0 <= j < open@.len() implies queued_ok(g, wi, hi, start, goal, costs@, #[trigger] open@[j]) by {
            assert(open@[j] == (0u32, start.0, start.1));
        }
    }
    while open.len() > 0
        invariant
            g == level.walls(),
            searchable(g, wi, hi),
            wi == w,
            hi == h,
            n == w * h,
            in_bounds(start, wi, hi),
            start != goal,
            enclosed(g, start, goal),
            goal_fits(wi, hi, goal),
            search_inv(g, wi, hi, start, goal, costs@, prev@, open@, None),
        decreases 5 * cost_sum(costs@) + open@.len(),
    {
        proof {
            lemma_inv_sizes(g, wi, hi, start, goal, costs@, prev@, open@, None);
        }
        let mut best: usize = 0;
        let mut i: usize = 1;
        while i < open.len()
            invariant
                best < open@.len(),
                1 <= i <= open@.len(),
                forall|j: int| 0 <= j < i ==> open@[best as int].0 <= #[trigger] open@[j].0,
            decreases open@.len() - i,
        {
            if entry_less(open[i], open[best]) {
                best = i;
            }
            i = i + 1;
        }
        let ghost old_open = open@;
        let entry = open.swap_remove(best);
        let cur: (i32, i32) = (entry.1, entry.2);
        proof {
            lemma_queued(g, wi, hi, start, goal, costs@, prev@, old_open, None, best as int);
        }
        if cur.0 == goal.0 && cur.1 == goal.1 {
            proof {
                assert(cur == goal);
            }
            let path = reconstruct(level, &costs, &prev, w, h, start, goal, Ghost(old_open));
            proof {
                assert forall|q: Seq<(i32, i32)>| #[trigger] is_path(g, q, start, goal) implies path@.len() <= q.len() by {
                    lemma_goal_optimal(g, wi, hi, start, goal, costs@, prev@, old_open, best as int, q);
                }
            }
            return Some(path);
        }
        proof {
            lemma_pop_preserves(g, wi, hi, start, goal, costs@, prev@, old_open, open@, best as int, cur);
            assert(neighbours_in_grid(g, cur));
        }
        let n1: (i32, i32) = (cur.0 + 1, cur.1);
        let n2: (i32, i32) = (cur.0 - 1, cur.1);
        let n3: (i32, i32) = (cur.0, cur.1 + 1);
        let n4: (i32, i32) = (cur.0, cur.1 - 1);
        proof {
            lemma_grid_in_bounds(g, wi, hi, n1);
            lemma_grid_in_bounds(g, wi, hi, n2);
            lemma_grid_in_bounds(g, wi, hi, n3);
            lemma_grid_in_bounds(g, wi, hi, n4);
        }
        let ghost c0 = costs@;
        relax(level, &mut costs, &mut prev, &mut open, w, h, start, goal, cur, n1);
        let ghost c1 = costs@;
        relax(level, &mut costs, &mut prev, &mut open, w, h, start, goal, cur, n2);
        let ghost c2 = costs@;
        relax(level, &mut costs, &mut prev, &mut open, w, h, start, goal, cur, n3);
        let ghost c3 = costs@;
        relax(level, &mut costs, &mut prev, &mut open, w, h, start, goal, cur, n4);
        proof {
            assert forall|nb: (i32, i32)| adjacent(cur, nb) && open_tile(g, nb) implies #[trigger] costs@[cell(nb, wi)] != u32::MAX by {
                lemma_cell_bounds(nb, wi, hi);
                if nb == n1 {
                    assert(c1[cell(nb, wi)] != u32::MAX);
                    assert(c2[cell(nb, wi)] != u32::MAX);
                    assert(c3[cell(nb, wi)] != u32::MAX);
                } else if nb == n2 {
                    assert(c2[cell(nb, wi)] != u32::MAX);
                    assert(c3[cell(nb, wi)] != u32::MAX);
                } else if nb == n3 {
                    assert(c3[cell(nb, wi)] != u32::MAX);
                } else {
                    assert(nb == n4);
                }
            }
            assert forall|nb: (i32, i32)| adjacent(cur, nb) && open_tile(g, nb) implies
                #[trigger] costs@[cell(nb, wi)] <= costs@[cell(cur, wi)] + 1 by {
                lemma_cell_bounds(nb, wi, hi);
                let k = cell(nb, wi);
                if nb == n1 {
                    assert(c1[k] <= c0[cell(cur, wi)] + 1);
                    assert(c2[k] <= c1[k]);
                    assert(c3[k] <= c2[k]);
                } else if nb == n2 {
                    assert(c2[k] <= c1[cell(cur, wi)] + 1);
                    assert(c3[k] <= c2[k]);
                } else if nb == n3 {
                    assert(c3[k] <= c2[cell(cur, wi)] + 1);
                } else {
                    assert(nb == n4);
                }
            }
            lemma_unwaive(g, wi, hi, start, goal, costs@, prev@, open@, cur);
            lemma_num_set_bounds(costs@);
        }
    }
    proof {
        lemma_exhausted_unreachable(g, wi, hi, start, goal, costs@, prev@, open@);
    }
    None
}

proof fn lemma_num_unset(s: Seq<u32>)
    requires
        forall|i: int| 0 <= i < s.len() ==> s[i] == u32::MAX,
    ensures
        num_set(s) == 0,
    decreases s.len(),
{
    if s.len() > 0 {
        lemma_num_unset(s.drop_last());
    }
}

/// A found tile other than the one popped keeps its queue entries (the last
/// entry moves into the popped slot).
proof fn lemma_pop_keeps_entry(
    old_open: Seq<(u32, i32, i32)>, new_open: Seq<(u32, i32, i32)>, best: int, cur: (i32, i32),
    c: (i32, i32), j: int,
)
    requires
        0 <= best < old_open.len(),
        new_open == old_open.update(best, old_open.last()).drop_last(),
        cur == (old_open[best].1, old_open[best].2),
        c != cur,
        0 <= j < old_open.len(),
        old_open[j].1 == c.0 && old_open[j].2 == c.1,
    ensures
        exists|k: int| 0 <= k < new_open.len() && #[trigger] new_open[k] == old_open[j],
{
    let last = old_open.len() - 1;
    assert(j != best);
    if j == last {
        assert(new_open[best] == old_open[j]);
    } else {
        assert(new_open[j] == old_open[j]);
    }
}

proof fn lemma_pop_cell(
    g: Seq<Seq<u8>>, wi: int, hi: int, start: (i32, i32), goal: (i32, i32),
    costs: Seq<u32>, prev: Seq<Option<(i32, i32)>>,
    old_open: Seq<(u32, i32, i32)>, new_open: Seq<(u32, i32, i32)>,
    best: int, cur: (i32, i32), c: (i32, i32),
)
    requires
        0 <= best < old_open.len(),
        new_open == old_open.update(best, old_open.last()).drop_last(),
        cur == (old_open[best].1, old_open[best].2),
        cur != goal,
        found_ok(g, wi, hi, start, goal, costs, prev, old_open, None, c),
    ensures
        found_ok(g, wi, hi, start, goal, costs, prev, new_open, Some(cur), c),
{
    if c != cur && is_queued(old_open, c) {
        let j = choose|j: int| 0 <= j < old_open.len() && (#[trigger] old_open[j]).1 == c.0 && old_open[j].2 == c.1;
        lemma_pop_keeps_entry(old_open, new_open, best, cur, c, j);
        let k = choose|k: int| 0 <= k < new_open.len() && #[trigger] new_open[k] == old_open[j];
        assert(new_open[k].1 == c.0 && new_open[k].2 == c.1);
    }
    if c != cur && queued_within(old_open, c, costs[cell(c, wi)] + spec_manhattan(c, goal)) {
        let j = choose|j: int| 0 <= j < old_open.len() && (#[trigger] old_open[j]).1 == c.0 && old_open[j].2 == c.1
            && old_open[j].0 <= costs[cell(c, wi)] + spec_manhattan(c, goal);
        lemma_pop_keeps_entry(old_open, new_open, best, cur, c, j);
        let k = choose|k: int| 0 <= k < new_open.len() && #[trigger] new_open[k] == old_open[j];
        assert(new_open[k].1 == c.0 && new_open[k].2 == c.1);
    }
}

proof fn lemma_pop_preserves(
    g: Seq<Seq<u8>>, wi: int, hi: int, start: (i32, i32), goal: (i32, i32),
    costs: Seq<u32>, prev: Seq<Option<(i32, i32)>>,
    old_open: Seq<(u32, i32, i32)>, new_open: Seq<(u32, i32, i32)>,
    best: int, cur: (i32, i32),
)
    requires
        0 <= best < old_open.len(),
        new_open == old_open.update(best, old_open.last()).drop_last(),
        cur == (old_open[best].1, old_open[best].2),
        cur != goal,
        search_inv(g, wi, hi, start, goal, costs, prev, old_open, None),
    ensures
        search_inv(g, wi, hi, start, goal, costs, prev, new_open, Some(cur)),
        in_bounds(cur, wi, hi),
        costs[cell(cur, wi)] != u32::MAX,
        cur == start || open_tile(g, cur),
        cur == start || reach_avoiding(g, start, goal, cur),
{
    reveal(search_inv);
    assert(queued_ok(g, wi, hi, start, goal, costs, old_open[best]));
    let last = old_open.len() - 1;
    assert forall|j: int| 0 <= j < new_open.len() implies queued_ok(g, wi, hi, start, goal, costs, #[trigger] new_open[j]) by {
        if j == best {
            assert(new_open[j] == old_open[last]);
            assert(queued_ok(g, wi, hi, start, goal, costs, old_open[last]));
        } else {
            assert(new_open[j] == old_open[j]);
            assert(queued_ok(g, wi, hi, start, goal, costs, old_open[j]));
        }
    }
    assert forall|c: (i32, i32)| #![trigger costs[cell(c, wi)]]
        in_bounds(c, wi, hi) && costs[cell(c, wi)] != u32::MAX
        implies found_ok(g, wi, hi, start, goal, costs, prev, new_open, Some(cur), c) by {
        assert(found_ok(g, wi, hi, start, goal, costs, prev, old_open, None, c));
        lemma_pop_cell(g, wi, hi, start, goal, costs, prev, old_open, new_open, best, cur, c);
    }
}

proof fn lemma_unwaive(
    g: Seq<Seq<u8>>, wi: int, hi: int, start: (i32, i32), goal: (i32, i32),
    costs: Seq<u32>, prev: Seq<Option<(i32, i32)>>, open: Seq<(u32, i32, i32)>, cur: (i32, i32),
)
    requires
        search_inv(g, wi, hi, start, goal, costs, prev, open, Some(cur)),
        expanded(g, wi, costs, cur),
        relaxed(g, wi, costs, cur),
    ensures
        search_inv(g, wi, hi, start, goal, costs, prev, open, None),
{
    reveal(search_inv);
    assert forall|c: (i32, i32)| #![trigger costs[cell(c, wi)]]
        in_bounds(c, wi, hi) && costs[cell(c, wi)] != u32::MAX
        implies found_ok(g, wi, hi, start, goal, costs, prev, open, None, c) by {
        assert(found_ok(g, wi, hi, start, goal, costs, prev, open, Some(cur), c));
    }
}

proof fn lemma_exhausted_unreachable(
    g: Seq<Seq<u8>>, wi: int, hi: int, start: (i32, i32), goal: (i32, i32),
    costs: Seq<u32>, prev: Seq<Option<(i32, i32)>>, open: Seq<(u32, i32, i32)>,
)
    requires
        searchable(g, wi, hi),
        in_bounds(start, wi, hi),
        search_inv(g, wi, hi, start, goal, costs, prev, open, None),
        open.len() == 0,
    ensures
        !reachable(g, start, goal),
{
    if reachable(g, start, goal) {
        let p = choose|p: Seq<(i32, i32)>| is_path(g, p, start, goal);
        let last = p.len() - 1;
        lemma_path_found(g, wi, hi, start, goal, costs, prev, open, p, last);
        lemma_found(g, wi, hi, start, goal, costs, prev, open, None, p[last]);
        assert(p[last] == goal);
        assert(!is_queued(open, goal));
    }
}

proof fn lemma_path_found(
    g: Seq<Seq<u8>>, wi: int, hi: int, start: (i32, i32), goal: (i32, i32),
    costs: Seq<u32>, prev: Seq<Option<(i32, i32)>>, open: Seq<(u32, i32, i32)>,
    p: Seq<(i32, i32)>, i: int,
)
    requires
        searchable(g, wi, hi),
        in_bounds(start, wi, hi),
        search_inv(g, wi, hi, start, goal, costs, prev, open, None),
        open.len() == 0,
        is_path(g, p, start, goal),
        0 <= i < p.len(),
    ensures
        in_bounds(p[i], wi, hi),
        costs[cell(p[i], wi)] != u32::MAX,
    decreases i,
{
    if i == 0 {
        lemma_inv_sizes(g, wi, hi, start, goal, costs, prev, open, None);
    } else {
        lemma_path_found(g, wi, hi, start, goal, costs, prev, open, p, i - 1);
        let c = p[i - 1];
        lemma_found(g, wi, hi, start, goal, costs, prev, open, None, c);
        assert(!is_queued(open, c));
        assert(adjacent(p[i - 1], p[i]) && open_tile(g, p[i]));
        assert(g[p[i].1 as int].len() <= wi);
    }
}

/// |a - c| <= |a - b| + |b - c| for Manhattan distance.
proof fn lemma_manhattan_triangle(a: (i32, i32), b: (i32, i32), c: (i32, i32))
    ensures
        spec_manhattan(a, c) <= spec_manhattan(a, b) + spec_manhattan(b, c),
{
}

/// Along a path, the Manhattan distance to its end is at most the steps left.
proof fn lemma_manhattan_to_end(g: Seq<Seq<u8>>, q: Seq<(i32, i32)>, start: (i32, i32), goal: (i32, i32), i: int)
    requires
        is_path(g, q, start, goal),
        0 <= i < q.len(),
    ensures
        spec_manhattan(q[i], goal) <= q.len() - 1 - i,
    decreases q.len() - i,
{
    if i < q.len() - 1 {
        lemma_manhattan_to_end(g, q, start, goal, i + 1);
        assert(adjacent(q[i], q[i + 1]));
        lemma_manhattan_triangle(q[i], q[i + 1], goal);
    }
}

/// Walking path `q` from tile `i`, whose cost is at most `i`: either every
/// tile up to the goal is found within its step count, or some tile on the
/// way has a queue entry estimating at most the path length; either way the
/// minimal queue entry, the goal's, bounds the goal's cost by the path length.
proof fn lemma_scan_path(
    g: Seq<Seq<u8>>, wi: int, hi: int, start: (i32, i32), goal: (i32, i32),
    costs: Seq<u32>, prev: Seq<Option<(i32, i32)>>, open: Seq<(u32, i32, i32)>,
    best: int, q: Seq<(i32, i32)>, i: int,
)
    requires
        searchable(g, wi, hi),
        in_bounds(start, wi, hi),
        search_inv(g, wi, hi, start, goal, costs, prev, open, None),
        0 <= best < open.len(),
        (open[best].1, open[best].2) == goal,
        forall|j: int| 0 <= j < open.len() ==> open[best].0 <= #[trigger] open[j].0,
        is_path(g, q, start, goal),
        q.len() - 1 < u32::MAX,
        0 <= i < q.len(),
        in_bounds(q[i], wi, hi),
        costs[cell(q[i], wi)] <= i,
    ensures
        costs[cell(goal, wi)] <= q.len() - 1,
    decreases q.len() - i,
{
    let last = q.len() - 1;
    lemma_queued(g, wi, hi, start, goal, costs, prev, open, None, best);
    if q[i] == goal {
    } else {
        assert(i < last);
        lemma_found(g, wi, hi, start, goal, costs, prev, open, None, q[i]);
        assert(adjacent(q[i], q[i + 1]) && open_tile(g, q[i + 1]));
        assert(g[q[i + 1].1 as int].len() <= wi);
        if relaxed(g, wi, costs, q[i]) {
            assert(costs[cell(q[i + 1], wi)] <= costs[cell(q[i], wi)] + 1);
            lemma_scan_path(g, wi, hi, start, goal, costs, prev, open, best, q, i + 1);
        } else {
            let bound = costs[cell(q[i], wi)] + spec_manhattan(q[i], goal);
            assert(queued_within(open, q[i], bound));
            let j = choose|j: int| 0 <= j < open.len() && (#[trigger] open[j]).1 == q[i].0 && open[j].2 == q[i].1
                && open[j].0 <= bound;
            lemma_manhattan_to_end(g, q, start, goal, i);
            assert(open[best].0 <= open[j].0);
        }
    }
}

/// When the goal's entry is the smallest in the queue, the goal's cost is
/// at most the length of any path to it.
proof fn lemma_goal_optimal(
    g: Seq<Seq<u8>>, wi: int, hi: int, start: (i32, i32), goal: (i32, i32),
    costs: Seq<u32>, prev: Seq<Option<(i32, i32)>>, open: Seq<(u32, i32, i32)>,
    best: int, q: Seq<(i32, i32)>,
)
    requires
        searchable(g, wi, hi),
        in_bounds(start, wi, hi),
        search_inv(g, wi, hi, start, goal, costs, prev, open, None),
        0 <= best < open.len(),
        (open[best].1, open[best].2) == goal,
        forall|j: int| 0 <= j < open.len() ==> open[best].0 <= #[trigger] open[j].0,
        is_path(g, q, start, goal),
    ensures
        costs[cell(goal, wi)] <= q.len() - 1,
{
    lemma_inv_sizes(g, wi, hi, start, goal, costs, prev, open, None);
    lemma_num_set_bounds(costs);
    lemma_queued(g, wi, hi, start, goal, costs, prev, open, None, best);
    lemma_found(g, wi, hi, start, goal, costs, prev, open, None, goal);
    if q.len() - 1 < u32::MAX {
        lemma_scan_path(g, wi, hi, start, goal, costs, prev, open, best, q, 0);
    }
}

/// Follows predecessors back from the found `goal` to `start` and returns
/// the tiles in walking order.
fn reconstruct(
    level: &Level,
    costs: &Vec<u32>,
    prev: &Vec<Option<(i32, i32)>>,
    w: usize,
    h: usize,
    start: (i32, i32),
    goal: (i32, i32),
    Ghost(open): Ghost<Seq<(u32, i32, i32)>>,
) -> (r: Vec<(i32, i32)>)
    requires
        searchable(level.walls(), w as int, h as int),
        in_bounds(goal, w as int, h as int),
        costs@[cell(goal, w as int)] != u32::MAX,
        search_inv(level.walls(), w as int, h as int, start, goal, costs@, prev@, open, None),
    ensures
        is_path(level.walls(), r@, start, goal),
        r@.len() <= costs@[cell(goal, w as int)] + 1,
{
    let ghost g = level.walls();
    let ghost wi = w as int;
    let ghost hi = h as int;
    proof {
        assert(w * h <= u32::MAX);
    }
    let mut rev: Vec<(i32, i32)> = Vec::new();
    rev.push(goal);
    let mut node: (i32, i32) = goal;
    loop
        invariant_except_break
            costs@[cell(node, wi)] != u32::MAX,
        invariant
            g == level.walls(),
            wi == w,
            hi == h,
            searchable(g, wi, hi),
            search_inv(g, wi, hi, start, goal, costs@, prev@, open, None),
            rev@.len() >= 1,
            rev@[0] == goal,
            rev@.last() == node,
            in_bounds(node, wi, hi),
            rev@.len() + costs@[cell(node, wi)] <= costs@[cell(goal, wi)] + 1,
            forall|i: int| 0 <= i < rev@.len() - 1 ==> adjacent(#[trigger] rev@[i + 1], rev@[i]) && open_tile(g, rev@[i]),
        ensures
            node == start,
        decreases costs@[cell(node, wi)],
    {
        let idx: usize = cell_index(node, w, h);
        proof {
            lemma_found(g, wi, hi, start, goal, costs@, prev@, open, None, node);
        }
        match prev[idx] {
            None => {
                break;
            },
            Some(p) => {
                let ghost before = rev@;
                rev.push(p);
                proof {
                    assert(open_tile(g, node));
                    assert forall|i: int| 0 <= i < rev@.len() - 1 implies adjacent(#[trigger] rev@[i + 1], rev@[i]) && open_tile(g, rev@[i]) by {
                        if i < before.len() - 1 {
                            assert(rev@[i + 1] == before[i + 1]);
                            assert(rev@[i] == before[i]);
                        }
                    }
                }
                node = p;
            },
        }
    }
    let out = reverse_walk(&rev);
    proof {
        let m = rev@.len() as int;
        assert(out@[0] == rev@[m - 1]);
        assert(out@[m - 1] == rev@[0]);
        assert forall|i: int| 0 <= i < out@.len() - 1 implies adjacent(#[trigger] out@[i], out@[i + 1]) && open_tile(g, out@[i + 1]) by {
            let k = m - 2 - i;
            assert(out@[i] == rev@[m - 1 - i]);
            assert(out@[i + 1] == rev@[m - 1 - (i + 1)]);
            assert(m - 1 - i == k + 1);
            assert(adjacent(rev@[k + 1], rev@[k]) && open_tile(g, rev@[k]));
        }
    }
    out
}

/// The elements of `rev` in reverse order.
fn reverse_walk(rev: &Vec<(i32, i32)>) -> (out: Vec<(i32, i32)>)
    ensures
        out@.len() == rev@.len(),
        forall|i: int| 0 <= i < out@.len() ==> out@[i] == rev@[rev@.len() - 1 - i],
{
    let mut out: Vec<(i32, i32)> = Vec::new();
    let mut j: usize = rev.len();
    while j > 0
        invariant
            j <= rev@.len(),
            out@.len() == rev@.len() - j,
            forall|i: int| 0 <= i < out@.len() ==> out@[i] == rev@[rev@.len() - 1 - i],
        decreases j,
    {
        j = j - 1;
        out.push(rev[j]);
    }
    out
}

} // verus!
