//! Properties of the search that follow from its model and its invariant.

use crate::grid::{lemma_index_in_range, lemma_index_injective, GridView, Tile};
use crate::point::{lemma_adjacent_distance, Point};
use crate::route::lemma_route_to;
use crate::state::{block_cell, is_route, SearchState, Status, MAX_ITERATIONS};
use crate::wellformed::{lemma_initial_wf, lemma_run_wf};
use vstd::prelude::*;
use vstd::set_lib::{lemma_int_range, lemma_len_subset, set_int_range};

verus! {

/// Every cell of column `x` is solid.
pub open spec fn column_wall(grid: GridView, x: int) -> bool {
    forall|p: Point| grid.contains(p) && p.x == x ==> #[trigger] grid.tile_at(p) == Tile::Solid
}

/// Every cell of row `y` is solid.
pub open spec fn row_wall(grid: GridView, y: int) -> bool {
    forall|p: Point| grid.contains(p) && p.y == y ==> #[trigger] grid.tile_at(p) == Tile::Solid
}

/// A solid column or a solid row lies strictly between `a` and `b`.
pub open spec fn walled_off(grid: GridView, a: Point, b: Point) -> bool {
    ||| exists|x: int| #[trigger] column_wall(grid, x) && (a.x < x < b.x || b.x < x < a.x)
    ||| exists|y: int| #[trigger] row_wall(grid, y) && (a.y < y < b.y || b.y < y < a.y)
}

/// A walk that changes some coordinate by at most one per move, and that
/// starts below `level` and is above it after `k` moves, stands exactly on
/// `level` somewhere in between.
proof fn lemma_crossing(route: Seq<Point>, coord: spec_fn(Point) -> int, level: int, k: int) -> (i:
    int)
    requires
        0 <= k < route.len(),
        coord(route[0]) < level < coord(route[k]),
        forall|j: int|
            0 <= j < route.len() - 1 ==> -1 <= coord(#[trigger] route[j]) - coord(route[j + 1])
                <= 1,
    ensures
        0 < i < k,
        coord(route[i]) == level,
    decreases k,
{
    assert(k > 0);
    let before = coord(route[k - 1]);
    assert(-1 <= before - coord(route[k]) <= 1);
    if before == level {
        k - 1
    } else {
        lemma_crossing(route, coord, level, k - 1)
    }
}

/// No route leads from one side of a solid column or row to the other.
pub proof fn lemma_wall_blocks_routes(grid: GridView, from: Point, to: Point, route: Seq<Point>)
    requires
        walled_off(grid, from, to),
    ensures
        !is_route(grid, from, to, route),
{
    if is_route(grid, from, to, route) {
        let last = route.len() - 1;
        if exists|x: int| #[trigger] column_wall(grid, x) && (from.x < x < to.x || to.x < x < from.x) {
            let x = choose|x: int| #[trigger]
                column_wall(grid, x) && (from.x < x < to.x || to.x < x < from.x);
            let i = if from.x < x {
                let coord = |p: Point| p.x as int;
                assert forall|j: int| 0 <= j < route.len() - 1 implies -1 <= coord(
                    #[trigger] route[j],
                ) - coord(route[j + 1]) <= 1 by {
                    assert(route[j].adjacent(route[j + 1]));
                }
                lemma_crossing(route, coord, x, last)
            } else {
                let coord = |p: Point| -(p.x as int);
                assert forall|j: int| 0 <= j < route.len() - 1 implies -1 <= coord(
                    #[trigger] route[j],
                ) - coord(route[j + 1]) <= 1 by {
                    assert(route[j].adjacent(route[j + 1]));
                }
                lemma_crossing(route, coord, -x, last)
            };
            assert(grid.passable(route[i]));
            assert(grid.tile_at(route[i]) == Tile::Solid);
        } else {
            let y = choose|y: int| #[trigger]
                row_wall(grid, y) && (from.y < y < to.y || to.y < y < from.y);
            let i = if from.y < y {
                let coord = |p: Point| p.y as int;
                assert forall|j: int| 0 <= j < route.len() - 1 implies -1 <= coord(
                    #[trigger] route[j],
                ) - coord(route[j + 1]) <= 1 by {
                    assert(route[j].adjacent(route[j + 1]));
                }
                lemma_crossing(route, coord, y, last)
            } else {
                let coord = |p: Point| -(p.y as int);
                assert forall|j: int| 0 <= j < route.len() - 1 implies -1 <= coord(
                    #[trigger] route[j],
                ) - coord(route[j + 1]) <= 1 by {
                    assert(route[j].adjacent(route[j + 1]));
                }
                lemma_crossing(route, coord, -y, last)
            };
            assert(grid.passable(route[i]));
            assert(grid.tile_at(route[i]) == Tile::Solid);
        }
    }
}

/// A search that has succeeded has found a route from its start to its goal.
pub proof fn lemma_success_has_route(s: SearchState)
    requires
        s.wf(),
        s.status == Status::Succeeded,
    ensures
        is_route(s.grid, s.start, s.end, s.route_to(s.end)),
{
    lemma_route_to(s, s.end, s.cost_limit());
}

/// A running search that stays running after `n` steps has completed
/// exactly `n` more expansions.
pub proof fn lemma_run_counts(s: SearchState, n: nat)
    ensures
        s.run(n).status == Status::Running ==> s.status == Status::Running && s.run(n).iterations
            == s.iterations + n,
    decreases n,
{
    if n > 0 {
        lemma_run_counts(s, (n - 1) as nat);
    }
}

/// Termination: whatever the grid, a search has reached a terminal status
/// after one step more than the iteration cap allows expansions.
pub proof fn lemma_search_terminates(s: SearchState)
    requires
        s.wf(),
    ensures
        s.run((MAX_ITERATIONS + 1) as nat).status != Status::Running,
{
    let n = (MAX_ITERATIONS + 1) as nat;
    lemma_run_wf(s, n);
    lemma_run_counts(s, n);
}

/// When a solid column or row separates the start from the goal, a search
/// never succeeds, and after one step more than the iteration cap it has
/// failed; on a grid with no more cells than the cap it has failed without
/// exceeding the cap.
pub proof fn lemma_walled_off_search_fails(grid: GridView, start: Point, end: Point, n: nat)
    requires
        grid.wf(),
        grid.passable(start),
        grid.passable(end),
        walled_off(grid, start, end),
    ensures
        SearchState::initial(grid, start, end).run(n).status != Status::Succeeded,
        SearchState::initial(grid, start, end).run((MAX_ITERATIONS + 1) as nat).status
            == Status::Failed,
        grid.width * grid.height <= MAX_ITERATIONS ==> SearchState::initial(grid, start, end).run(
            (MAX_ITERATIONS + 1) as nat,
        ).iterations <= MAX_ITERATIONS,
{
    let s = SearchState::initial(grid, start, end);
    lemma_initial_wf(grid, start, end);
    lemma_run_wf(s, n);
    let t = s.run(n);
    if t.status == Status::Succeeded {
        lemma_success_has_route(t);
        lemma_wall_blocks_routes(grid, start, end, t.route_to(end));
    }
    let last = (MAX_ITERATIONS + 1) as nat;
    lemma_run_wf(s, last);
    lemma_search_terminates(s);
    if s.run(last).status == Status::Succeeded {
        lemma_success_has_route(s.run(last));
        lemma_wall_blocks_routes(grid, start, end, s.run(last).route_to(end));
    }
    if grid.width * grid.height <= MAX_ITERATIONS {
        lemma_small_grid_fails_by_exhaustion(s.run(last));
    }
}

/// No cell is expanded twice, so a search never expands more cells than the
/// grid has.
pub proof fn lemma_expansions_bounded(s: SearchState)
    requires
        s.wf(),
    ensures
        s.closed.len() <= s.grid.width * s.grid.height,
{
    let cells = s.grid.width * s.grid.height;
    let indices = Seq::new(s.closed.len(), |i: int| s.grid.index_of(s.closed[i]));
    assert forall|i: int| 0 <= i < s.closed.len() implies s.grid.contains(
        #[trigger] s.closed[i],
    ) by {
        assert(s.is_closed(s.closed[i]));
        assert(s.node_ok(s.closed[i], s.cost_limit()));
    }
    assert(indices.no_duplicates()) by {
        assert forall|i: int, j: int|
            0 <= i < indices.len() && 0 <= j < indices.len() && i != j implies indices[i]
            != indices[j] by {
            assert(s.grid.contains(s.closed[i]) && s.grid.contains(s.closed[j]));
            if indices[i] == indices[j] {
                lemma_index_injective(s.grid, s.closed[i], s.closed[j]);
            }
        }
    }
    indices.unique_seq_to_set();
    assert(0 <= cells) by (nonlinear_arith)
        requires
            cells == s.grid.width * s.grid.height,
            0 <= s.grid.width,
            0 <= s.grid.height,
    ;
    lemma_int_range(0, cells);
    assert forall|x: int| indices.to_set().contains(x) implies set_int_range(0, cells).contains(
        x,
    ) by {
        let i = choose|i: int| 0 <= i < indices.len() && indices[i] == x;
        assert(s.grid.contains(s.closed[i]));
        lemma_index_in_range(s.grid, s.closed[i]);
    }
    lemma_len_subset(indices.to_set(), set_int_range(0, cells));
}

/// On a grid with no more cells than the iteration cap, the cap never ends
/// a search: a failed search has exhausted its frontier without exceeding
/// the cap.
pub proof fn lemma_small_grid_fails_by_exhaustion(s: SearchState)
    requires
        s.wf(),
        s.grid.width * s.grid.height <= MAX_ITERATIONS,
        s.status == Status::Failed,
    ensures
        s.open.len() == 0,
        s.iterations <= MAX_ITERATIONS,
{
    lemma_expansions_bounded(s);
}

/// Determinism: two searches over grids with the same extents and tiles,
/// between the same endpoints, expand the same cells in the same order and
/// stand at the same status after any number of steps.
pub proof fn lemma_search_deterministic(
    first: GridView,
    second: GridView,
    start: Point,
    end: Point,
    n: nat,
)
    requires
        first.width == second.width,
        first.height == second.height,
        first.tiles =~= second.tiles,
    ensures
        SearchState::initial(first, start, end).run(n).closed == SearchState::initial(
            second,
            start,
            end,
        ).run(n).closed,
        SearchState::initial(first, start, end).run(n).status == SearchState::initial(
            second,
            start,
            end,
        ).run(n).status,
        SearchState::initial(first, start, end).run(n) == SearchState::initial(
            second,
            start,
            end,
        ).run(n),
{
    assert(first == second);
}

/// A cell is in the frontier exactly when its node is open, among the
/// expanded cells exactly when its node is closed, and never in both.
pub proof fn lemma_membership(s: SearchState, p: Point)
    requires
        s.wf(),
    ensures
        s.open.contains(p) <==> s.is_open(p),
        s.closed.contains(p) <==> s.is_closed(p),
        !(s.open.contains(p) && s.closed.contains(p)),
{
    if s.nodes.dom().contains(p) {
        assert(s.node_ok(p, s.cost_limit()));
    }
    if s.open.contains(p) {
        let i = choose|i: int| 0 <= i < s.open.len() && s.open[i] == p;
        assert(s.is_open(s.open[i]));
    }
    if s.closed.contains(p) {
        let i = choose|i: int| 0 <= i < s.closed.len() && s.closed[i] == p;
        assert(s.is_closed(s.closed[i]));
    }
}

/// Among the first `n` cells of the block around `cur`, every passable cell
/// other than `cur` is a candidate.
proof fn lemma_block_cell_is_candidate(s: SearchState, cur: Point, k: nat, n: nat) -> (e: int)
    requires
        k < n,
        block_cell(cur, k as int) != cur,
        s.grid.passable(block_cell(cur, k as int)),
    ensures
        0 <= e < s.neighbors_upto(cur, n).len(),
        s.neighbors_upto(cur, n)[e].0 == block_cell(cur, k as int),
    decreases n,
{
    let found = s.neighbors_upto(cur, (n - 1) as nat);
    if k == n - 1 {
        found.len() as int
    } else {
        lemma_block_cell_is_candidate(s, cur, k, (n - 1) as nat)
    }
}

/// Expansion looks at the whole 3x3 block: every passable cell adjacent to
/// a cell of the grid is among the candidates around that cell.
pub proof fn lemma_every_neighbor_is_a_candidate(s: SearchState, cur: Point, q: Point)
    requires
        s.grid.wf(),
        s.grid.contains(cur),
        cur.adjacent(q),
        s.grid.passable(q),
    ensures
        exists|e: int| 0 <= e < s.neighbors(cur).len() && (#[trigger] s.neighbors(cur)[e]).0 == q,
{
    let k = 3 * (q.x - cur.x + 1) + (q.y - cur.y + 1);
    assert(0 <= k < 9);
    assert(block_cell(cur, k) == q);
    let e = lemma_block_cell_is_candidate(s, cur, k as nat, 9);
    assert(s.neighbors(cur)[e].0 == q);
}

/// The cost of a move: a discovered cell other than the start costs exactly
/// 1 more than the cell it was reached from when the two are orthogonal
/// neighbours, and exactly 2 more when they are diagonal neighbours.
pub proof fn lemma_cost_of_a_move(s: SearchState, p: Point)
    requires
        s.wf(),
        s.discovered(p),
        p != s.start,
    ensures
        s.nodes[p].parent is Some,
        ({
            let q = s.nodes[p].parent->0;
            &&& s.is_closed(q)
            &&& q.adjacent(p)
            &&& q.orthogonal_to(p) ==> s.nodes[p].g_cost - s.nodes[q].g_cost == 1
            &&& q.diagonal_to(p) ==> s.nodes[p].g_cost - s.nodes[q].g_cost == 2
        }),
{
    assert(s.node_ok(p, s.cost_limit()));
    lemma_adjacent_distance(s.nodes[p].parent->0, p);
}

} // verus!
