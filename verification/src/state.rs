//! The mathematical model of a search: what a search state is and how one
//! step transforms it.
//!
//! Everything here is ghost code. The executable engine in
//! [`crate::path_finder`] is proved to follow [`SearchState::step`] exactly.

use crate::grid::GridView;
use crate::point::{squared_distance, Point};
use vstd::prelude::*;

verus! {

/// Number of expansions after which a search gives up.
pub const MAX_ITERATIONS: usize = 250;

/// Bookkeeping for one discovered cell.
#[derive(Clone, Copy, Debug, PartialEq, Eq)]
pub struct Node {
    /// Accumulated cost of the best known way from the start.
    pub g_cost: i64,
    /// Estimated cost from this cell to the goal.
    pub h_cost: i64,
    /// The cell this one was reached from; `None` only for the start.
    pub parent: Option<Point>,
    /// `true` while the cell waits in the frontier, `false` once expanded.
    pub open: bool,
}

impl Node {
    /// Priority of the node in the frontier: accumulated plus estimated cost.
    pub open spec fn f(self) -> int {
        self.g_cost + self.h_cost
    }
}

/// Where a search stands.
#[derive(Clone, Copy, Debug, PartialEq, Eq, Structural)]
pub enum Status {
    /// More steps may be taken.
    Running,
    /// The goal has been expanded.
    Succeeded,
    /// The frontier ran dry or the iteration cap was exceeded.
    Failed,
}

/// Abstract state of a search.
pub struct SearchState {
    /// The grid being searched.
    pub grid: GridView,
    pub start: Point,
    pub end: Point,
    /// The cost table: one node per discovered cell.
    pub nodes: Map<Point, Node>,
    /// Discovered cells that still wait for expansion, in discovery order.
    pub open: Seq<Point>,
    /// Expanded cells, in expansion order.
    pub closed: Seq<Point>,
    /// Number of expansions that ran to completion.
    pub iterations: nat,
    pub status: Status,
}

/// The `k`-th cell of the 3x3 block around `cur`, columns first:
/// `k = 0` is `(x - 1, y - 1)`, `k = 1` is `(x - 1, y)`, ..., `k = 8` is `(x + 1, y + 1)`.
pub open spec fn block_cell(cur: Point, k: int) -> Point {
    Point { x: (cur.x - 1 + k / 3) as i32, y: (cur.y - 1 + k % 3) as i32 }
}

impl SearchState {
    /// The state a fresh search starts in: only the start is discovered,
    /// it is open, and it costs nothing.
    pub open spec fn initial(grid: GridView, start: Point, end: Point) -> SearchState {
        SearchState {
            grid,
            start,
            end,
            nodes: Map::<Point, Node>::empty().insert(
                start,
                Node { g_cost: 0, h_cost: 0, parent: None, open: true },
            ),
            open: seq![start],
            closed: Seq::<Point>::empty(),
            iterations: 0,
            status: Status::Running,
        }
    }

    /// `p` has a node in the cost table.
    pub open spec fn discovered(self, p: Point) -> bool {
        self.nodes.dom().contains(p)
    }

    /// `p` is discovered and waits in the frontier.
    pub open spec fn is_open(self, p: Point) -> bool {
        self.nodes.dom().contains(p) && self.nodes[p].open
    }

    /// `p` has been expanded.
    pub open spec fn is_closed(self, p: Point) -> bool {
        self.nodes.dom().contains(p) && !self.nodes[p].open
    }

    /// `i` is the position in the frontier of the first cell of least `f`.
    pub open spec fn is_best(self, i: int) -> bool {
        &&& 0 <= i < self.open.len()
        &&& forall|j: int|
            0 <= j < self.open.len() ==> self.nodes[self.open[i]].f() <= self.nodes[
                #[trigger] self.open[j]].f()
        &&& forall|j: int|
            0 <= j < i ==> self.nodes[self.open[i]].f() < self.nodes[#[trigger] self.open[j]].f()
    }

    /// The frontier position that the next step expands.
    pub open spec fn best(self) -> int {
        choose|i: int| self.is_best(i)
    }

    /// Moves the cell at frontier position `i` from the frontier to the
    /// expanded cells.
    pub open spec fn close(self, i: int) -> SearchState {
        let cur = self.open[i];
        SearchState {
            nodes: self.nodes.insert(cur, Node { open: false, ..self.nodes[cur] }),
            open: self.open.remove(i),
            closed: self.closed.push(cur),
            ..self
        }
    }

    /// The node proposed for `q` when it is reached from `cur`.
    pub open spec fn candidate(self, cur: Point, q: Point) -> Node {
        Node {
            g_cost: (self.nodes[cur].g_cost + squared_distance(cur, q)) as i64,
            h_cost: squared_distance(q, self.end) as i64,
            parent: Some(cur),
            open: true,
        }
    }

    /// The candidates found among the first `k` cells of the block around
    /// `cur`: every cell other than `cur` that is inside the grid and not solid.
    pub open spec fn neighbors_upto(self, cur: Point, k: nat) -> Seq<(Point, Node)>
        decreases k,
    {
        if k == 0 {
            Seq::empty()
        } else {
            let found = self.neighbors_upto(cur, (k - 1) as nat);
            let q = block_cell(cur, k - 1);
            if q != cur && self.grid.passable(q) {
                found.push((q, self.candidate(cur, q)))
            } else {
                found
            }
        }
    }

    /// All candidates around `cur`, in enumeration order.
    pub open spec fn neighbors(self, cur: Point) -> Seq<(Point, Node)> {
        self.neighbors_upto(cur, 9)
    }

    /// Relaxation of one cell: an undiscovered cell is recorded and joins the
    /// frontier; an open cell takes the candidate only if that is strictly
    /// cheaper; an expanded cell is left alone.
    pub open spec fn relax(self, q: Point, cand: Node) -> SearchState {
        if !self.nodes.dom().contains(q) {
            SearchState { nodes: self.nodes.insert(q, cand), open: self.open.push(q), ..self }
        } else if self.nodes[q].open && cand.f() < self.nodes[q].f() {
            SearchState { nodes: self.nodes.insert(q, cand), ..self }
        } else {
            self
        }
    }

    /// Relaxation of a list of candidates, first to last.
    pub open spec fn relax_all(self, cands: Seq<(Point, Node)>) -> SearchState
        decreases cands.len(),
    {
        if cands.len() == 0 {
            self
        } else {
            self.relax_all(cands.drop_last()).relax(cands.last().0, cands.last().1)
        }
    }

    /// One step of the search.
    ///
    /// A finished search stays as it is. A running search with an empty
    /// frontier fails. Otherwise the best frontier cell is expanded: it is
    /// closed, and if it is the goal the search succeeds; if not, its
    /// neighbours are relaxed, the iteration counter goes up by one, and the
    /// search fails once the counter exceeds [`MAX_ITERATIONS`].
    pub open spec fn step(self) -> SearchState {
        if self.status != Status::Running {
            self
        } else if self.open.len() == 0 {
            SearchState { status: Status::Failed, ..self }
        } else {
            let cur = self.open[self.best()];
            let closed = self.close(self.best());
            if cur == self.end {
                SearchState { status: Status::Succeeded, ..closed }
            } else {
                let relaxed = closed.relax_all(closed.neighbors(cur));
                let count = self.iterations + 1;
                SearchState {
                    iterations: count,
                    status: if count > MAX_ITERATIONS {
                        Status::Failed
                    } else {
                        Status::Running
                    },
                    ..relaxed
                }
            }
        }
    }

    /// The state after `n` steps.
    pub open spec fn run(self, n: nat) -> SearchState
        decreases n,
    {
        if n == 0 {
            self
        } else {
            self.run((n - 1) as nat).step()
        }
    }

    /// The chain of parents that leads to `p`, listed from its origin to `p`.
    pub open spec fn route_to(self, p: Point) -> Seq<Point>
        decreases
            (if self.nodes.dom().contains(p) && self.nodes[p].g_cost >= 0 {
                self.nodes[p].g_cost + 1
            } else {
                0
            }),
    {
        if self.has_cheaper_parent(p) {
            self.route_to(self.nodes[p].parent->0).push(p)
        } else {
            seq![p]
        }
    }

    /// `p` was reached from a discovered cell of strictly lower cost.
    pub open spec fn has_cheaper_parent(self, p: Point) -> bool {
        &&& self.nodes.dom().contains(p)
        &&& self.nodes[p].parent matches Some(q)
        &&& self.nodes.dom().contains(q)
        &&& 0 <= self.nodes[q].g_cost < self.nodes[p].g_cost
    }
}

/// `route` leads from `from` to `to` over passable cells, moving to an
/// adjacent cell at every step.
pub open spec fn is_route(grid: GridView, from: Point, to: Point, route: Seq<Point>) -> bool {
    &&& route.len() >= 1
    &&& route[0] == from
    &&& route[route.len() - 1] == to
    &&& forall|i: int| 0 <= i < route.len() ==> grid.passable(#[trigger] route[i])
    &&& forall|i: int| 0 <= i < route.len() - 1 ==> (#[trigger] route[i]).adjacent(route[i + 1])
}

} // verus!
