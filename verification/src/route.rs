//! Routes: what the parent chains of a well-formed search amount to.

use crate::point::{lemma_adjacent_distance, Point};
use crate::state::{is_route, SearchState};
use vstd::prelude::*;

verus! {

/// The parent chain of a discovered cell is a route from the start to that
/// cell, and it has no more moves than the cell's accumulated cost.
pub proof fn lemma_route_to(s: SearchState, p: Point, limit: int)
    requires
        s.inv(limit),
        s.discovered(p),
    ensures
        is_route(s.grid, s.start, p, s.route_to(p)),
        s.route_to(p).len() <= s.nodes[p].g_cost + 1,
    decreases s.nodes[p].g_cost,
{
    assert(s.node_ok(p, limit));
    if p != s.start {
        let q = s.nodes[p].parent->0;
        assert(s.node_ok(q, limit));
        lemma_adjacent_distance(q, p);
        assert(s.has_cheaper_parent(p));
        lemma_route_to(s, q, limit);
        let before = s.route_to(q);
        let route = s.route_to(p);
        assert(route == before.push(p));
        assert forall|i: int| 0 <= i < route.len() implies s.grid.passable(#[trigger] route[i]) by {
            if i < before.len() {
                assert(route[i] == before[i]);
            }
        }
        assert forall|i: int| 0 <= i < route.len() - 1 implies (#[trigger] route[i]).adjacent(
            route[i + 1],
        ) by {
            if i < before.len() - 1 {
                assert(route[i] == before[i]);
                assert(route[i + 1] == before[i + 1]);
            }
        }
    }
}

/// How the parent chain of a discovered cell is built: the start is a chain
/// of its own, and every other cell extends the chain of its parent, which
/// is a cell of the grid of strictly lower cost.
pub proof fn lemma_parent_link(s: SearchState, p: Point, limit: int)
    requires
        s.inv(limit),
        s.discovered(p),
    ensures
        s.grid.contains(p),
        0 <= s.nodes[p].g_cost,
        match s.nodes[p].parent {
            None => s.route_to(p) == seq![p],
            Some(q) => {
                &&& s.discovered(q)
                &&& s.grid.contains(q)
                &&& 0 <= s.nodes[q].g_cost < s.nodes[p].g_cost
                &&& s.route_to(p) == s.route_to(q).push(p)
            },
        },
{
    assert(s.node_ok(p, limit));
    if p != s.start {
        let q = s.nodes[p].parent->0;
        assert(s.node_ok(q, limit));
        lemma_adjacent_distance(q, p);
        assert(s.has_cheaper_parent(p));
    }
}

/// Reversing a sequence that was extended at the back moves the new
/// element to the front.
pub proof fn lemma_reverse_push(s: Seq<Point>, x: Point)
    ensures
        s.push(x).reverse() == seq![x] + s.reverse(),
{
    assert(s.push(x).reverse() =~= seq![x] + s.reverse());
}

} // verus!
