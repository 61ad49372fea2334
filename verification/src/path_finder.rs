//! The executable search engine.
//!
//! A [`PathFinder`] is bound to a grid and two endpoints when it is created
//! and is driven by calling [`PathFinder::iterate`] until that reports a
//! terminal outcome. Each call is proved to perform exactly one
//! [`SearchState::step`] of the model.

use crate::grid::{lemma_index_in_range, lemma_index_injective, Grid, GridView, OutOfBounds, Tile};
use crate::point::{dist_sq, lemma_adjacent_distance, Point};
use crate::route::{lemma_parent_link, lemma_reverse_push, lemma_route_to};
use crate::state::{block_cell, is_route, Node, SearchState, Status, MAX_ITERATIONS};
use crate::wellformed::{
    lemma_best_unique, lemma_distance_bounded, lemma_expand_inv, lemma_initial_wf,
    lemma_neighbors, lemma_relax_all_inv, lemma_step_wf,
};
use vstd::prelude::*;

verus! {

/// Why a search could not be set up.
#[derive(Clone, Copy, Debug, PartialEq, Eq, Structural)]
pub enum ConfigError {
    /// The start is not a cell of the grid.
    StartOutOfBounds,
    /// The start lies on a solid tile.
    StartSolid,
    /// The goal is not a cell of the grid.
    EndOutOfBounds,
    /// The goal lies on a solid tile.
    EndSolid,
}

/// What a call of [`PathFinder::iterate`] reports.
#[derive(Debug, PartialEq, Eq)]
pub enum StepOutcome {
    /// The search goes on.
    Running,
    /// The goal was reached; `path` leads from the start to the goal.
    Succeeded { iterations: usize, path: Vec<Point> },
    /// There is no way to the goal, or the iteration cap was exceeded.
    Failed { iterations: usize },
}

impl StepOutcome {
    /// The outcome that a search in state `s` reports.
    pub open spec fn reports(self, s: SearchState) -> bool {
        match self {
            StepOutcome::Running => s.status == Status::Running,
            StepOutcome::Succeeded { iterations, path } => {
                &&& s.status == Status::Succeeded
                &&& iterations == s.iterations
                &&& path@ == s.route_to(s.end)
            },
            StepOutcome::Failed { iterations } => {
                &&& s.status == Status::Failed
                &&& iterations == s.iterations
            },
        }
    }
}

/// The first reason, if any, for which a search from `start` to `end` cannot
/// be set up on `grid`. The start is examined before the goal.
pub open spec fn config_error(grid: GridView, start: Point, end: Point) -> Option<ConfigError> {
    if !grid.contains(start) {
        Some(ConfigError::StartOutOfBounds)
    } else if grid.tile_at(start) == Tile::Solid {
        Some(ConfigError::StartSolid)
    } else if !grid.contains(end) {
        Some(ConfigError::EndOutOfBounds)
    } else if grid.tile_at(end) == Tile::Solid {
        Some(ConfigError::EndSolid)
    } else {
        None
    }
}

impl Node {
    /// Whether the node still waits in the frontier.
    pub fn open(&self) -> (open: bool)
        ensures
            open == self.open,
    {
        self.open
    }

    /// Accumulated plus estimated cost.
    pub fn f_cost(&self) -> (f: i64)
        requires
            i64::MIN <= self.f() <= i64::MAX,
        ensures
            f == self.f(),
    {
        self.h_cost + self.g_cost
    }
}

/// An incremental shortest-path search over a borrowed grid.
pub struct PathFinder<'a> {
    start: Point,
    end: Point,
    grid: &'a Grid,
    nodes: Vec<Option<Node>>,
    open: Vec<Point>,
    closed: Vec<Point>,
    iteration_count: usize,
    status: Status,
}

impl<'a> View for PathFinder<'a> {
    type V = SearchState;

    closed spec fn view(&self) -> SearchState {
        SearchState {
            grid: self.grid@,
            start: self.start,
            end: self.end,
            nodes: Map::new(
                |p: Point| self.grid@.contains(p) && self.nodes@[self.grid@.index_of(p)] is Some,
                |p: Point| self.nodes@[self.grid@.index_of(p)]->0,
            ),
            open: self.open@,
            closed: self.closed@,
            iterations: self.iteration_count as nat,
            status: self.status,
        }
    }
}

impl<'a> PathFinder<'a> {
    /// The cost table has one slot per cell of a well-formed grid.
    pub closed spec fn table_wf(&self) -> bool {
        &&& self.grid.wf()
        &&& self.nodes@.len() == self.grid@.tiles.len()
    }

    /// Well-formedness: established by [`PathFinder::new`] and kept by
    /// [`PathFinder::iterate`].
    pub open spec fn wf(&self) -> bool {
        &&& self.table_wf()
        &&& self@.wf()
    }

    /// Sets up a search from `start` to `end` on `grid`.
    ///
    /// Fails when either endpoint lies outside the grid or on a solid tile.
    /// Otherwise the search is in its initial state.
    pub fn new(start: Point, end: Point, grid: &'a Grid) -> (made: Result<
        PathFinder<'a>,
        ConfigError,
    >)
        requires
            grid.wf(),
        ensures
            match made {
                Ok(finder) => {
                    &&& config_error(grid@, start, end) is None
                    &&& finder.wf()
                    &&& finder@ == SearchState::initial(grid@, start, end)
                },
                Err(error) => config_error(grid@, start, end) == Some(error),
            },
    {
        match grid.get_tile(&start) {
            Err(_) => {
                return Err(ConfigError::StartOutOfBounds);
            },
            Ok(Tile::Solid) => {
                return Err(ConfigError::StartSolid);
            },
            Ok(Tile::Empty) => {},
        }
        match grid.get_tile(&end) {
            Err(_) => {
                return Err(ConfigError::EndOutOfBounds);
            },
            Ok(Tile::Solid) => {
                return Err(ConfigError::EndSolid);
            },
            Ok(Tile::Empty) => {},
        }
        let size = grid.size();
        let node_count: usize = size.x as usize * size.y as usize;
        let mut nodes: Vec<Option<Node>> = Vec::new();
        while nodes.len() < node_count
            invariant
                nodes.len() <= node_count,
                forall|i: int| 0 <= i < nodes.len() ==> nodes[i] is None,
            decreases node_count - nodes.len(),
        {
            nodes.push(None);
        }
        let mut path_finder = PathFinder {
            start,
            end,
            grid,
            nodes,
            open: Vec::new(),
            closed: Vec::new(),
            iteration_count: 0,
            status: Status::Running,
        };
        proof {
            assert forall|p: Point| !#[trigger] path_finder@.nodes.dom().contains(p) by {
                if grid@.contains(p) {
                    lemma_index_in_range(grid@, p);
                }
            }
            assert(path_finder@.nodes =~= Map::<Point, Node>::empty());
        }
        // Add first node
        path_finder.set_node(&start, Some(Node { g_cost: 0, h_cost: 0, parent: None, open: true }));
        path_finder.open.push(start);
        proof {
            lemma_initial_wf(grid@, start, end);
            assert(path_finder@.nodes =~= SearchState::initial(grid@, start, end).nodes);
            assert(path_finder@.open =~= SearchState::initial(grid@, start, end).open);
            assert(path_finder@.closed =~= SearchState::initial(grid@, start, end).closed);
        }
        Ok(path_finder)
    }

    /// The position the search starts from.
    pub fn start(&self) -> (start: Point)
        ensures
            start == self@.start,
    {
        self.start
    }

    /// The position the search tries to reach.
    pub fn end(&self) -> (end: Point)
        ensures
            end == self@.end,
    {
        self.end
    }

    /// Whether the search is running, has succeeded or has failed.
    pub fn status(&self) -> (status: Status)
        ensures
            status == self@.status,
    {
        self.status
    }

    /// Number of expansions that ran to completion.
    pub fn iterations(&self) -> (count: usize)
        ensures
            count == self@.iterations,
    {
        self.iteration_count
    }

    /// The frontier: discovered cells that wait for expansion, in discovery order.
    pub fn frontier(&self) -> (open: &Vec<Point>)
        ensures
            open@ == self@.open,
    {
        &self.open
    }

    /// The expanded cells, in expansion order.
    pub fn expanded(&self) -> (closed: &Vec<Point>)
        ensures
            closed@ == self@.closed,
    {
        &self.closed
    }

    /// Process one iteration of the search.
    ///
    /// The state moves by exactly one [`SearchState::step`], and the outcome
    /// reports the status reached. On success the reported path is the chain
    /// of parents from the start to the goal, which is a route over passable,
    /// pairwise adjacent cells.
    pub fn iterate(&mut self) -> (outcome: StepOutcome)
        requires
            old(self).wf(),
        ensures
            final(self).wf(),
            final(self)@ == old(self)@.step(),
            outcome.reports(final(self)@),
            outcome matches StepOutcome::Succeeded { path, .. } ==> is_route(
                old(self)@.grid,
                old(self)@.start,
                old(self)@.end,
                path@,
            ),
    {
        proof {
            lemma_step_wf(self@);
        }
        match self.status {
            Status::Running => {},
            _ => {
                return self.outcome();
            },
        }
        if self.open.len() == 0 {
            self.status = Status::Failed;
            assert(self@ == old(self)@.step());
            return StepOutcome::Failed { iterations: self.iteration_count };
        }
        proof {
            lemma_expand_inv(self@);
        }
        // Find open node with lowest f_cost
        let curr_index = self.best_open();
        proof {
            lemma_best_unique(self@, curr_index as int, self@.best());
        }
        // Move that node from open to closed
        let curr_pos = self.open.remove(curr_index);
        self.closed.push(curr_pos);
        self.set_node_open(&curr_pos, false);
        let ghost closed_state = self@;
        assert(closed_state == old(self)@.close(curr_index as int));
        // If the goal has been reached, the search is over
        if curr_pos == self.end {
            self.status = Status::Succeeded;
            assert(self@ == old(self)@.step());
            return self.outcome();
        }
        // Check each neighbor
        let ghost limit = old(self)@.cost_limit() + 2;
        proof {
            assert(closed_state.node_ok(curr_pos, old(self)@.cost_limit()));
        }
        let neighbors = self.neighbors(&curr_pos);
        let mut i: usize = 0;
        while i < neighbors.len()
            invariant
                0 <= i <= neighbors.len(),
                self.table_wf(),
                neighbors@ == closed_state.neighbors(curr_pos),
                self@ == closed_state.relax_all(neighbors@.take(i as int)),
                closed_state.inv(limit),
                closed_state.is_closed(closed_state.start),
                closed_state.is_closed(curr_pos),
                closed_state.nodes[curr_pos].g_cost + 2 <= limit <= 0x1_0000_0000,
            decreases neighbors.len() - i,
        {
            let (neighbor_pos, neighbor_node) = neighbors[i];
            proof {
                lemma_relax_all_inv(closed_state, curr_pos, i as int, limit);
                lemma_neighbors(closed_state, curr_pos, 9, i as int);
                assert(neighbors@.take(i + 1).drop_last() == neighbors@.take(i as int));
                assert(neighbors@.take(i + 1).last() == neighbors@[i as int]);
                lemma_adjacent_distance(curr_pos, neighbor_pos);
                lemma_distance_bounded(self@.grid, neighbor_pos, self@.end);
            }
            let ghost before = self@;
            // Update the neighbor node if the path is shorter or it hasn't
            // been set yet
            match self.node_at(&neighbor_pos) {
                None => {
                    self.set_node(&neighbor_pos, Some(neighbor_node));
                    self.open.push(neighbor_pos);
                },
                Some(old_neighbor_node) => {
                    proof {
                        assert(before.node_ok(neighbor_pos, limit));
                        if neighbor_pos != before.start {
                            lemma_distance_bounded(before.grid, neighbor_pos, before.end);
                        }
                    }
                    if old_neighbor_node.open() && neighbor_node.f_cost()
                        < old_neighbor_node.f_cost() {
                        self.set_node(&neighbor_pos, Some(neighbor_node));
                    }
                },
            }
            assert(self@ == before.relax(neighbor_pos, neighbor_node));
            i += 1;
        }
        proof {
            assert(neighbors@.take(neighbors@.len() as int) == neighbors@);
            lemma_relax_all_inv(closed_state, curr_pos, neighbors@.len() as int, limit);
        }
        self.iteration_count += 1;
        if self.iteration_count > MAX_ITERATIONS {
            self.status = Status::Failed;
            assert(self@ == old(self)@.step());
            return StepOutcome::Failed { iterations: self.iteration_count };
        }
        assert(self@ == old(self)@.step());
        StepOutcome::Running
    }

    /// The node recorded for `pos`: `Ok(None)` while the cell is undiscovered,
    /// [`OutOfBounds`] when `pos` is not a cell of the grid.
    pub fn get_node(&self, pos: &Point) -> (found: Result<Option<&Node>, OutOfBounds>)
        requires
            self.wf(),
        ensures
            match found {
                Ok(Some(node)) => self@.grid.contains(*pos) && self@.discovered(*pos) && *node
                    == self@.nodes[*pos],
                Ok(None) => self@.grid.contains(*pos) && !self@.discovered(*pos),
                Err(error) => !self@.grid.contains(*pos) && error == (OutOfBounds { pos: *pos }),
            },
    {
        let size = self.grid.size();
        if pos.x < 0 || pos.x >= size.x || pos.y < 0 || pos.y >= size.y {
            return Err(OutOfBounds { pos: *pos });
        }
        let index = self.pos_index(pos);
        Ok(self.nodes[index].as_ref())
    }

    /// Stores `node` for `pos`, or forgets the cell when `node` is `None`.
    fn set_node(&mut self, pos: &Point, node: Option<Node>)
        requires
            old(self).table_wf(),
            old(self)@.grid.contains(*pos),
        ensures
            final(self).table_wf(),
            final(self)@ == (SearchState {
                nodes: match node {
                    Some(n) => old(self)@.nodes.insert(*pos, n),
                    None => old(self)@.nodes.remove(*pos),
                },
                ..old(self)@
            }),
    {
        let index = self.pos_index(pos);
        self.nodes[index] = node;
        proof {
            let grid = self.grid@;
            assert forall|p: Point| grid.contains(p) && p != *pos implies self.nodes@[grid.index_of(
                p,
            )] == old(self).nodes@[grid.index_of(p)] by {
                if grid.index_of(p) == grid.index_of(*pos) {
                    lemma_index_injective(grid, p, *pos);
                }
                lemma_index_in_range(grid, p);
            }
            let expected = match node {
                Some(n) => old(self)@.nodes.insert(*pos, n),
                None => old(self)@.nodes.remove(*pos),
            };
            assert(self@.nodes =~= expected);
        }
    }

    /// Changes the membership flag of a discovered cell.
    fn set_node_open(&mut self, pos: &Point, open: bool)
        requires
            old(self).table_wf(),
            old(self)@.grid.contains(*pos),
            old(self)@.discovered(*pos),
        ensures
            final(self).table_wf(),
            final(self)@ == (SearchState {
                nodes: old(self)@.nodes.insert(*pos, Node { open, ..old(self)@.nodes[*pos] }),
                ..old(self)@
            }),
    {
        let index = self.pos_index(pos);
        let mut node = self.nodes[index].unwrap();
        node.open = open;
        self.set_node(pos, Some(node));
    }

    /// The node of a cell of the grid, if the cell is discovered.
    fn node_at(&self, pos: &Point) -> (found: Option<Node>)
        requires
            self.table_wf(),
            self@.grid.contains(*pos),
        ensures
            found is Some <==> self@.discovered(*pos),
            found matches Some(node) ==> node == self@.nodes[*pos],
    {
        self.nodes[self.pos_index(pos)]
    }

    /// Row-major index of a cell of the grid in the cost table.
    fn pos_index(&self, pos: &Point) -> (index: usize)
        requires
            self.table_wf(),
            self@.grid.contains(*pos),
        ensures
            index == self@.grid.index_of(*pos),
            index < self.nodes.len(),
    {
        let len = self.nodes.len();
        proof {
            lemma_index_in_range(self@.grid, *pos);
            assert(pos.y * self@.grid.width <= self@.grid.index_of(*pos) < len);
        }
        let row_start: usize = pos.y as usize * self.grid.size().x as usize;
        pos.x as usize + row_start
    }

    /// Frontier position of the first cell of least `f_cost`.
    fn best_open(&self) -> (best: usize)
        requires
            self.table_wf(),
            self@.inv(self@.cost_limit()),
            self@.iterations <= MAX_ITERATIONS + 1,
            self.open.len() > 0,
        ensures
            self@.is_best(best as int),
    {
        let mut best: usize = 0;
        let mut best_cost = self.open_cost(0);
        let mut i: usize = 1;
        while i < self.open.len()
            invariant
                self.table_wf(),
                self@.inv(self@.cost_limit()),
                self@.iterations <= MAX_ITERATIONS + 1,
                0 <= best < i <= self.open.len(),
                best_cost == self@.nodes[self@.open[best as int]].f(),
                forall|j: int|
                    0 <= j < i ==> best_cost <= self@.nodes[#[trigger] self@.open[j]].f(),
                forall|j: int|
                    0 <= j < best ==> best_cost < self@.nodes[#[trigger] self@.open[j]].f(),
            decreases self.open.len() - i,
        {
            let cost = self.open_cost(i);
            if cost < best_cost {
                best = i;
                best_cost = cost;
            }
            i += 1;
        }
        best
    }

    /// The `f_cost` of the cell at frontier position `i`.
    fn open_cost(&self, i: usize) -> (cost: i64)
        requires
            self.table_wf(),
            self@.inv(self@.cost_limit()),
            self@.iterations <= MAX_ITERATIONS + 1,
            i < self.open.len(),
        ensures
            cost == self@.nodes[self@.open[i as int]].f(),
    {
        let pos = self.open[i];
        proof {
            assert(self@.is_open(self@.open[i as int]));
            assert(self@.node_ok(pos, self@.cost_limit()));
            lemma_distance_bounded(self@.grid, pos, self@.end);
        }
        let node = self.nodes[self.pos_index(&pos)].unwrap();
        node.f_cost()
    }

    /// The candidates around an expanded cell: every other cell of its 3x3
    /// block that lies inside the grid and is not solid, each with the node
    /// it would get when reached from `pos`.
    fn neighbors(&self, pos: &Point) -> (neighbors: Vec<(Point, Node)>)
        requires
            self.table_wf(),
            self@.grid.contains(*pos),
            self@.grid.contains(self@.end),
            self@.discovered(*pos),
            0 <= self@.nodes[*pos].g_cost <= 0x1_0000_0000,
        ensures
            neighbors@ == self@.neighbors(*pos),
    {
        let mut neighbors: Vec<(Point, Node)> = Vec::new();
        let node = self.nodes[self.pos_index(pos)].unwrap();
        let mut dx: i32 = 0;
        while dx < 3
            invariant
                0 <= dx <= 3,
                self.table_wf(),
                self@.grid.contains(*pos),
                self@.grid.contains(self@.end),
                self@.discovered(*pos),
                node == self@.nodes[*pos],
                0 <= node.g_cost <= 0x1_0000_0000,
                neighbors@ == self@.neighbors_upto(*pos, (3 * dx) as nat),
            decreases 3 - dx,
        {
            let mut dy: i32 = 0;
            while dy < 3
                invariant
                    0 <= dx < 3,
                    0 <= dy <= 3,
                    self.table_wf(),
                    self@.grid.contains(*pos),
                    self@.grid.contains(self@.end),
                    self@.discovered(*pos),
                    node == self@.nodes[*pos],
                    0 <= node.g_cost <= 0x1_0000_0000,
                    neighbors@ == self@.neighbors_upto(*pos, (3 * dx + dy) as nat),
                decreases 3 - dy,
            {
                let neighbor_pos = Point::new(pos.x - 1 + dx, pos.y - 1 + dy);
                assert(neighbor_pos == block_cell(*pos, 3 * dx + dy));
                // Skip self and solid blocks
                let passable = match self.grid.get_tile(&neighbor_pos) {
                    Ok(Tile::Empty) => true,
                    _ => false,
                };
                if neighbor_pos != *pos && passable {
                    proof {
                        lemma_adjacent_distance(*pos, neighbor_pos);
                        lemma_distance_bounded(self@.grid, neighbor_pos, self@.end);
                    }
                    neighbors.push(
                        (
                            neighbor_pos,
                            Node {
                                g_cost: node.g_cost + dist_sq(pos, &neighbor_pos),
                                h_cost: dist_sq(&neighbor_pos, &self.end),
                                parent: Some(*pos),
                                open: true,
                            },
                        ),
                    );
                }
                dy += 1;
            }
            dx += 1;
        }
        neighbors
    }

    /// What the search reports in its present state.
    fn outcome(&self) -> (outcome: StepOutcome)
        requires
            self.wf(),
        ensures
            outcome.reports(self@),
            outcome matches StepOutcome::Succeeded { path, .. } ==> is_route(
                self@.grid,
                self@.start,
                self@.end,
                path@,
            ),
    {
        match self.status {
            Status::Running => StepOutcome::Running,
            Status::Succeeded => StepOutcome::Succeeded {
                iterations: self.iteration_count,
                path: self.path(),
            },
            Status::Failed => StepOutcome::Failed { iterations: self.iteration_count },
        }
    }

    /// Walks the parent chain from the goal back to the start and returns
    /// it in travelling order.
    fn path(&self) -> (path: Vec<Point>)
        requires
            self.wf(),
            self@.discovered(self@.end),
        ensures
            path@ == self@.route_to(self@.end),
            is_route(self@.grid, self@.start, self@.end, path@),
    {
        let mut backwards: Vec<Point> = Vec::new();
        let mut pos = self.end;
        let ghost limit = self@.cost_limit();
        loop
            invariant
                self.table_wf(),
                self@.inv(limit),
                self@.discovered(pos),
                self@.route_to(self@.end) == self@.route_to(pos) + backwards@.reverse(),
            ensures
                self@.route_to(self@.end) == seq![pos] + backwards@.reverse(),
            decreases self@.nodes[pos].g_cost,
        {
            proof {
                lemma_parent_link(self@, pos, limit);
            }
            let node = self.nodes[self.pos_index(&pos)].unwrap();
            match node.parent {
                None => {
                    break ;
                },
                Some(parent) => {
                    proof {
                        lemma_reverse_push(backwards@, pos);
                        assert(self@.route_to(parent).push(pos) + backwards@.reverse()
                            =~= self@.route_to(parent) + (seq![pos] + backwards@.reverse()));
                    }
                    backwards.push(pos);
                    pos = parent;
                },
            }
        }
        proof {
            lemma_reverse_push(backwards@, pos);
        }
        backwards.push(pos);
        let mut path: Vec<Point> = Vec::new();
        let mut i: usize = backwards.len();
        while i > 0
            invariant
                0 <= i <= backwards.len(),
                path@.len() == backwards.len() - i,
                forall|k: int| 0 <= k < path@.len() ==> path@[k] == backwards@[backwards.len() - 1 - k],
            decreases i,
        {
            i -= 1;
            path.push(backwards[i]);
        }
        proof {
            assert(path@ =~= backwards@.reverse());
            lemma_route_to(self@, self@.end, self@.cost_limit());
        }
        path
    }
}

} // verus!
