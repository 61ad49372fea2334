//! The invariant of a search and the proof that every step keeps it.

use crate::grid::GridView;
use crate::point::{lemma_adjacent_distance, squared_distance, Point};
use crate::state::{SearchState, Status, MAX_ITERATIONS};
use vstd::prelude::*;

verus! {

impl SearchState {
    /// What must hold of the node of a discovered cell `p`.
    ///
    /// The cell is passable and listed where its membership flag says. The
    /// start costs nothing and has no parent. Every other cell was reached
    /// from an expanded, adjacent parent, and its accumulated cost is the
    /// parent's plus the squared distance between the two.
    pub open spec fn node_ok(self, p: Point, limit: int) -> bool {
        let n = self.nodes[p];
        &&& self.grid.passable(p)
        &&& 0 <= n.g_cost <= limit
        &&& if n.open {
            self.open.contains(p)
        } else {
            self.closed.contains(p)
        }
        &&& if p == self.start {
            n.g_cost == 0 && n.h_cost == 0 && n.parent is None
        } else {
            &&& n.h_cost == squared_distance(p, self.end)
            &&& n.parent matches Some(q)
            &&& self.is_closed(q)
            &&& q.adjacent(p)
            &&& n.g_cost == self.nodes[q].g_cost + squared_distance(q, p)
        }
    }

    /// The structural invariant, with `limit` bounding every accumulated cost.
    ///
    /// Frontier and expanded list hold exactly the cells whose node is open,
    /// respectively closed, each cell once.
    pub open spec fn inv(self, limit: int) -> bool {
        &&& self.grid.wf()
        &&& self.grid.passable(self.start)
        &&& self.grid.passable(self.end)
        &&& self.nodes.dom().contains(self.start)
        &&& forall|p: Point| #[trigger] self.nodes.dom().contains(p) ==> self.node_ok(p, limit)
        &&& forall|i: int| 0 <= i < self.open.len() ==> self.is_open(#[trigger] self.open[i])
        &&& forall|i: int| 0 <= i < self.closed.len() ==> self.is_closed(#[trigger] self.closed[i])
        &&& self.open.no_duplicates()
        &&& self.closed.no_duplicates()
        &&& self.nodes[self.start].open ==> self.open == seq![self.start]
    }

    /// The largest accumulated cost that can have arisen so far: every
    /// completed expansion adds at most 2 to the cost of the cell it expands.
    pub open spec fn cost_limit(self) -> int {
        2 * (self.iterations as int)
    }

    /// Well-formedness of a search state.
    ///
    /// Besides the structural invariant: the counter stays within one of the
    /// cap and a running search is below it; every completed expansion left
    /// one expanded cell, and the expansion of the goal one more; a
    /// succeeded search has expanded its goal; a failed search ran out of
    /// frontier or exceeded the cap.
    pub open spec fn wf(self) -> bool {
        &&& self.inv(self.cost_limit())
        &&& self.iterations <= MAX_ITERATIONS + 1
        &&& self.status == Status::Running ==> self.iterations <= MAX_ITERATIONS
        &&& self.closed.len() == self.iterations + (if self.status == Status::Succeeded {
            1nat
        } else {
            0nat
        })
        &&& self.status == Status::Succeeded ==> self.is_closed(self.end)
        &&& self.status == Status::Failed ==> self.open.len() == 0 || self.iterations
            > MAX_ITERATIONS
    }
}

/// Squared distances between cells of one grid fit a signed 64-bit integer
/// with room to spare for an accumulated cost.
pub proof fn lemma_distance_bounded(grid: GridView, p: Point, q: Point)
    requires
        grid.wf(),
        grid.contains(p),
        grid.contains(q),
    ensures
        0 <= squared_distance(p, q) <= i64::MAX - 0x1_0000_0000,
{
    let dx = p.x - q.x;
    let dy = p.y - q.y;
    assert(0 <= dx * dx <= 0x7fff_ffff * 0x7fff_ffff) by (nonlinear_arith)
        requires
            -0x7fff_ffff <= dx <= 0x7fff_ffff,
    ;
    assert(0 <= dy * dy <= 0x7fff_ffff * 0x7fff_ffff) by (nonlinear_arith)
        requires
            -0x7fff_ffff <= dy <= 0x7fff_ffff,
    ;
}

/// A fresh search is well-formed.
pub proof fn lemma_initial_wf(grid: GridView, start: Point, end: Point)
    requires
        grid.wf(),
        grid.passable(start),
        grid.passable(end),
    ensures
        SearchState::initial(grid, start, end).wf(),
{
    let s = SearchState::initial(grid, start, end);
    assert(s.open[0] == start);
    assert(s.open.contains(start));
    assert forall|p: Point| #[trigger] s.nodes.dom().contains(p) implies s.node_ok(p, 0) by {
        assert(p == start);
    }
}

/// At most one frontier position is the best one.
pub proof fn lemma_best_unique(s: SearchState, i: int, j: int)
    requires
        s.is_best(i),
        s.is_best(j),
    ensures
        i == j,
{
    if i < j {
        assert(s.nodes[s.open[j]].f() < s.nodes[s.open[i]].f());
        assert(s.nodes[s.open[i]].f() <= s.nodes[s.open[j]].f());
    } else if j < i {
        assert(s.nodes[s.open[i]].f() < s.nodes[s.open[j]].f());
        assert(s.nodes[s.open[j]].f() <= s.nodes[s.open[i]].f());
    }
}

/// Closing a frontier cell keeps the invariant; afterwards that cell and
/// the start are both expanded.
pub proof fn lemma_close_inv(s: SearchState, i: int, limit: int)
    requires
        s.inv(limit),
        0 <= i < s.open.len(),
    ensures
        s.close(i).inv(limit),
        s.close(i).is_closed(s.open[i]),
        s.close(i).is_closed(s.start),
        s.close(i).nodes[s.open[i]].g_cost == s.nodes[s.open[i]].g_cost,
{
    let t = s.close(i);
    let cur = s.open[i];
    assert(s.is_open(cur));
    assert(s.node_ok(cur, limit));
    // The frontier loses exactly `cur`.
    assert forall|j: int| 0 <= j < t.open.len() implies #[trigger] t.open[j] != cur && s.is_open(
        t.open[j],
    ) && s.open.contains(t.open[j]) by {
        if j < i {
            assert(t.open[j] == s.open[j]);
        } else {
            assert(t.open[j] == s.open[j + 1]);
        }
    }
    assert forall|p: Point| p != cur && s.open.contains(p) implies t.open.contains(p) by {
        let j = choose|j: int| 0 <= j < s.open.len() && s.open[j] == p;
        if j < i {
            assert(t.open[j] == p);
        } else {
            assert(t.open[j - 1] == p);
        }
    }
    assert(t.open.no_duplicates()) by {
        assert forall|j: int, k: int|
            0 <= j < t.open.len() && 0 <= k < t.open.len() && j != k implies t.open[j]
            != t.open[k] by {
            let jj = if j < i {
                j
            } else {
                j + 1
            };
            let kk = if k < i {
                k
            } else {
                k + 1
            };
            assert(t.open[j] == s.open[jj]);
            assert(t.open[k] == s.open[kk]);
        }
    }
    // The expanded list gains exactly `cur`.
    assert(t.closed[s.closed.len() as int] == cur);
    assert forall|p: Point| s.closed.contains(p) implies t.closed.contains(p) by {
        let j = choose|j: int| 0 <= j < s.closed.len() && s.closed[j] == p;
        assert(t.closed[j] == p);
    }
    assert(t.closed.no_duplicates()) by {
        assert forall|j: int| 0 <= j < s.closed.len() implies #[trigger] s.closed[j] != cur by {
            assert(s.is_closed(s.closed[j]));
        }
    }
    assert forall|j: int| 0 <= j < t.closed.len() implies t.is_closed(#[trigger] t.closed[j]) by {
        if j < s.closed.len() {
            assert(s.is_closed(s.closed[j]));
        }
    }
    // The start is expanded from now on.
    if s.nodes[s.start].open {
        assert(s.open[0] == s.start);
        assert(cur == s.start);
    }
    assert forall|p: Point| #[trigger] t.nodes.dom().contains(p) implies t.node_ok(p, limit) by {
        assert(s.nodes.dom().contains(p));
        assert(s.node_ok(p, limit));
        if p != s.start {
            let q = s.nodes[p].parent->0;
            assert(s.is_closed(q));
            assert(t.is_closed(q));
        }
    }
}

/// Every candidate around an in-grid cell is a passable neighbour of it.
pub proof fn lemma_neighbors(s: SearchState, cur: Point, k: nat, e: int)
    requires
        s.grid.wf(),
        s.grid.contains(cur),
        k <= 9,
        0 <= e < s.neighbors_upto(cur, k).len(),
    ensures
        ({
            let (q, cand) = s.neighbors_upto(cur, k)[e];
            &&& q != cur
            &&& s.grid.passable(q)
            &&& cur.adjacent(q)
            &&& cand == s.candidate(cur, q)
        }),
        s.neighbors_upto(cur, k).len() <= k,
    decreases k,
{
    if k > 0 {
        let found = s.neighbors_upto(cur, (k - 1) as nat);
        if found.len() > 0 {
            lemma_neighbors(s, cur, (k - 1) as nat, 0);
        }
        if e < found.len() {
            lemma_neighbors(s, cur, (k - 1) as nat, e);
        }
    }
}

/// Relaxing a passable neighbour of an expanded cell keeps the invariant,
/// and changes neither the start's node nor the expanded cell's.
pub proof fn lemma_relax_inv(s: SearchState, cur: Point, q: Point, limit: int)
    requires
        s.inv(limit),
        s.is_closed(s.start),
        s.is_closed(cur),
        cur.adjacent(q),
        s.grid.passable(q),
        s.nodes[cur].g_cost + 2 <= limit <= 0x1_0000_0000,
    ensures
        s.relax(q, s.candidate(cur, q)).inv(limit),
        s.relax(q, s.candidate(cur, q)).is_closed(s.start),
        s.relax(q, s.candidate(cur, q)).nodes[cur] == s.nodes[cur],
        s.relax(q, s.candidate(cur, q)).nodes.dom().contains(cur),
{
    let cand = s.candidate(cur, q);
    let t = s.relax(q, cand);
    assert(s.node_ok(cur, limit));
    assert(s.node_ok(s.start, limit));
    lemma_adjacent_distance(cur, q);
    lemma_distance_bounded(s.grid, q, s.end);
    assert(cand.g_cost == s.nodes[cur].g_cost + squared_distance(cur, q));
    assert(cand.h_cost == squared_distance(q, s.end));
    if !s.nodes.dom().contains(q) {
        assert(t.open[s.open.len() as int] == q);
        assert forall|p: Point| s.open.contains(p) implies t.open.contains(p) by {
            let j = choose|j: int| 0 <= j < s.open.len() && s.open[j] == p;
            assert(t.open[j] == p);
        }
        assert(t.open.no_duplicates()) by {
            assert forall|j: int| 0 <= j < s.open.len() implies #[trigger] s.open[j] != q by {
                assert(s.is_open(s.open[j]));
            }
        }
        assert forall|j: int| 0 <= j < t.open.len() implies t.is_open(#[trigger] t.open[j]) by {
            if j < s.open.len() {
                assert(s.is_open(s.open[j]));
            }
        }
        assert forall|j: int| 0 <= j < t.closed.len() implies t.is_closed(
            #[trigger] t.closed[j],
        ) by {
            assert(s.is_closed(s.closed[j]));
        }
        assert forall|p: Point| #[trigger] t.nodes.dom().contains(p) implies t.node_ok(
            p,
            limit,
        ) by {
            if p != q {
                assert(s.nodes.dom().contains(p));
                assert(s.node_ok(p, limit));
            }
        }
    } else if s.nodes[q].open && cand.f() < s.nodes[q].f() {
        assert(s.node_ok(q, limit));
        assert forall|j: int| 0 <= j < t.open.len() implies t.is_open(#[trigger] t.open[j]) by {
            assert(s.is_open(s.open[j]));
        }
        assert forall|j: int| 0 <= j < t.closed.len() implies t.is_closed(
            #[trigger] t.closed[j],
        ) by {
            assert(s.is_closed(s.closed[j]));
        }
        assert forall|p: Point| #[trigger] t.nodes.dom().contains(p) implies t.node_ok(
            p,
            limit,
        ) by {
            assert(s.nodes.dom().contains(p));
            assert(s.node_ok(p, limit));
        }
    }
}

/// Relaxing all candidates around an expanded cell keeps the invariant.
pub proof fn lemma_relax_all_inv(s: SearchState, cur: Point, n: int, limit: int)
    requires
        s.inv(limit),
        s.is_closed(s.start),
        s.is_closed(cur),
        s.nodes[cur].g_cost + 2 <= limit <= 0x1_0000_0000,
        0 <= n <= s.neighbors(cur).len(),
    ensures
        ({
            let t = s.relax_all(s.neighbors(cur).take(n));
            &&& t.inv(limit)
            &&& t.is_closed(s.start)
            &&& t.is_closed(cur)
            &&& t.nodes[cur] == s.nodes[cur]
            &&& t.grid == s.grid
            &&& t.start == s.start
            &&& t.end == s.end
            &&& t.iterations == s.iterations
            &&& t.status == s.status
            &&& t.closed == s.closed
        }),
    decreases n,
{
    let cands = s.neighbors(cur);
    if n > 0 {
        lemma_relax_all_inv(s, cur, n - 1, limit);
        let before = s.relax_all(cands.take(n - 1));
        assert(cands.take(n).drop_last() == cands.take(n - 1));
        assert(cands.take(n).last() == cands[n - 1]);
        assert(s.node_ok(cur, limit));
        lemma_neighbors(s, cur, 9, n - 1);
        let (q, cand) = cands[n - 1];
        assert(before.candidate(cur, q) == cand);
        lemma_relax_inv(before, cur, q, limit);
    }
}

/// The invariant does not look at the iteration counter or the status.
pub proof fn lemma_inv_frame(s: SearchState, t: SearchState, limit: int)
    requires
        s.inv(limit),
        t.grid == s.grid,
        t.start == s.start,
        t.end == s.end,
        t.nodes == s.nodes,
        t.open == s.open,
        t.closed == s.closed,
    ensures
        t.inv(limit),
{
    assert forall|p: Point| #[trigger] t.nodes.dom().contains(p) implies t.node_ok(p, limit) by {
        assert(s.node_ok(p, limit));
    }
    assert forall|i: int| 0 <= i < t.open.len() implies t.is_open(#[trigger] t.open[i]) by {
        assert(s.is_open(s.open[i]));
    }
    assert forall|i: int| 0 <= i < t.closed.len() implies t.is_closed(#[trigger] t.closed[i]) by {
        assert(s.is_closed(s.closed[i]));
    }
}

/// Expanding the best frontier cell of a running search: the cell is closed
/// and, unless it is the goal, its neighbours are relaxed. The invariant
/// holds afterwards with room for one more expansion.
pub proof fn lemma_expand_inv(s: SearchState)
    requires
        s.wf(),
        s.status == Status::Running,
        s.open.len() > 0,
    ensures
        s.is_best(s.best()),
        ({
            let cur = s.open[s.best()];
            let closed = s.close(s.best());
            let relaxed = closed.relax_all(closed.neighbors(cur));
            &&& closed.inv(s.cost_limit())
            &&& closed.is_closed(cur)
            &&& relaxed.inv(s.cost_limit() + 2)
            &&& relaxed.grid == s.grid
            &&& relaxed.start == s.start
            &&& relaxed.end == s.end
            &&& relaxed.closed == closed.closed
        }),
{
    let limit = s.cost_limit() + 2;
    lemma_best_exists(s, s.open.len() as int);
    let i = s.best();
    let cur = s.open[i];
    assert(s.is_open(cur));
    assert(s.node_ok(cur, s.cost_limit()));
    lemma_close_inv(s, i, s.cost_limit());
    let closed = s.close(i);
    lemma_inv_weaken(closed, s.cost_limit(), limit);
    let cands = closed.neighbors(cur);
    assert(cands.take(cands.len() as int) == cands);
    lemma_relax_all_inv(closed, cur, cands.len() as int, limit);
}

/// Every step keeps a search well-formed, on the same grid and between the
/// same endpoints.
pub proof fn lemma_step_wf(s: SearchState)
    requires
        s.wf(),
    ensures
        s.step().wf(),
        s.step().grid == s.grid,
        s.step().start == s.start,
        s.step().end == s.end,
{
    let t = s.step();
    if s.status != Status::Running {
    } else if s.open.len() == 0 {
        lemma_inv_frame(s, t, s.cost_limit());
    } else {
        lemma_expand_inv(s);
        let cur = s.open[s.best()];
        let closed = s.close(s.best());
        if cur == s.end {
            lemma_inv_frame(closed, t, s.cost_limit());
            assert(t.nodes == closed.nodes);
        } else {
            let relaxed = closed.relax_all(closed.neighbors(cur));
            lemma_inv_frame(relaxed, t, s.cost_limit() + 2);
        }
    }
}

/// Among the first `n` frontier cells there is a best one.
pub proof fn lemma_best_exists(s: SearchState, n: int) -> (i: int)
    requires
        0 < n <= s.open.len(),
    ensures
        0 <= i < n,
        forall|j: int| 0 <= j < n ==> s.nodes[s.open[i]].f() <= s.nodes[#[trigger] s.open[j]].f(),
        forall|j: int| 0 <= j < i ==> s.nodes[s.open[i]].f() < s.nodes[#[trigger] s.open[j]].f(),
        n == s.open.len() ==> s.is_best(i),
    decreases n,
{
    if n == 1 {
        0
    } else {
        let i = lemma_best_exists(s, n - 1);
        if s.nodes[s.open[n - 1]].f() < s.nodes[s.open[i]].f() {
            n - 1
        } else {
            i
        }
    }
}

/// The invariant survives a larger cost limit.
pub proof fn lemma_inv_weaken(s: SearchState, limit: int, larger: int)
    requires
        s.inv(limit),
        limit <= larger,
    ensures
        s.inv(larger),
{
    assert forall|p: Point| #[trigger] s.nodes.dom().contains(p) implies s.node_ok(p, larger) by {
        assert(s.node_ok(p, limit));
    }
}

/// Any number of steps keeps a search well-formed, on the same grid and
/// between the same endpoints.
pub proof fn lemma_run_wf(s: SearchState, n: nat)
    requires
        s.wf(),
    ensures
        s.run(n).wf(),
        s.run(n).grid == s.grid,
        s.run(n).start == s.start,
        s.run(n).end == s.end,
    decreases n,
{
    if n > 0 {
        lemma_run_wf(s, (n - 1) as nat);
        lemma_step_wf(s.run((n - 1) as nat));
    }
}

} // verus!
