//! Text rendering of a grid and of the searches that run on it.
//!
//! Every cell is drawn as two characters and every row of the grid ends in
//! a line feed. A search draws over the tile of a cell when the cell is its
//! start, its goal or one of the cells it has discovered; where several
//! searches draw over the same cell, the last one in the list wins.

use crate::grid::{Grid, GridView, Tile};
use crate::path_finder::PathFinder;
use crate::point::Point;
use crate::state::SearchState;
use vstd::prelude::*;
use vstd::string::StringExecFns;

verus! {

/// The two characters that stand for a tile.
pub open spec fn tile_glyph(tile: Tile) -> Seq<char> {
    match tile {
        Tile::Empty => seq![' ', ' '],
        Tile::Solid => seq!['\u{2588}', '\u{2588}'],
    }
}

/// What a search draws at `p` over what is `under` it: `@ ` on its start,
/// `X ` on its goal, `. ` on an open cell, `::` on an expanded cell, and
/// nothing elsewhere.
pub open spec fn overlay(search: SearchState, p: Point, under: Seq<char>) -> Seq<char> {
    if p == search.start {
        seq!['@', ' ']
    } else if p == search.end {
        seq!['X', ' ']
    } else if search.nodes.dom().contains(p) {
        if search.nodes[p].open {
            seq!['.', ' ']
        } else {
            seq![':', ':']
        }
    } else {
        under
    }
}

/// The two characters drawn for cell `p`: its tile, drawn over by each
/// search in turn.
pub open spec fn cell_glyph(grid: GridView, searches: Seq<SearchState>, p: Point) -> Seq<char>
    decreases searches.len(),
{
    if searches.len() == 0 {
        tile_glyph(grid.tile_at(p))
    } else {
        overlay(searches.last(), p, cell_glyph(grid, searches.drop_last(), p))
    }
}

/// The first `cells` cells of row `y`, left to right.
pub open spec fn row_text(grid: GridView, searches: Seq<SearchState>, y: int, cells: nat) -> Seq<
    char,
>
    decreases cells,
{
    if cells == 0 {
        Seq::empty()
    } else {
        row_text(grid, searches, y, (cells - 1) as nat) + cell_glyph(
            grid,
            searches,
            Point { x: (cells - 1) as i32, y: y as i32 },
        )
    }
}

/// The first `rows` rows of the grid, top to bottom, each followed by a
/// line feed.
pub open spec fn grid_text(grid: GridView, searches: Seq<SearchState>, rows: nat) -> Seq<char>
    decreases rows,
{
    if rows == 0 {
        Seq::empty()
    } else {
        grid_text(grid, searches, (rows - 1) as nat) + row_text(
            grid,
            searches,
            rows - 1,
            grid.width as nat,
        ) + seq!['\n']
    }
}

/// The states of a list of searches.
pub open spec fn search_states(finders: Seq<&PathFinder>) -> Seq<SearchState> {
    Seq::new(finders.len(), |i: int| finders[i]@)
}

impl Tile {
    /// The two characters that stand for the tile.
    fn as_str(self) -> (glyph: &'static str)
        ensures
            glyph@ == tile_glyph(self),
    {
        proof {
            reveal_strlit("  ");
            reveal_strlit("\u{2588}\u{2588}");
        }
        match self {
            Tile::Empty => {
                assert("  "@ =~= seq![' ', ' ']);
                "  "
            },
            Tile::Solid => {
                assert("\u{2588}\u{2588}"@ =~= seq!['\u{2588}', '\u{2588}']);
                "\u{2588}\u{2588}"
            },
        }
    }
}

/// What `finder` draws at `pos` over `under`.
fn draw_over<'a>(finder: &PathFinder, pos: Point, under: &'a str) -> (glyph: &'a str)
    requires
        finder.wf(),
    ensures
        glyph@ == overlay(finder@, pos, under@),
{
    proof {
        reveal_strlit("@ ");
        reveal_strlit("X ");
        reveal_strlit(". ");
        reveal_strlit("::");
        assert("@ "@ =~= seq!['@', ' ']);
        assert("X "@ =~= seq!['X', ' ']);
        assert(". "@ =~= seq!['.', ' ']);
        assert("::"@ =~= seq![':', ':']);
        if finder@.nodes.dom().contains(pos) {
            assert(finder@.node_ok(pos, finder@.cost_limit()));
        }
    }
    if pos == finder.start() {
        "@ "
    } else if pos == finder.end() {
        "X "
    } else if let Ok(Some(node)) = finder.get_node(&pos) {
        if node.open() {
            ". "
        } else {
            "::"
        }
    } else {
        under
    }
}

/// Draws `grid` and the searches in `path_finders` as text: one line per
/// row of the grid, two characters per cell.
pub fn render_to_string(grid: &Grid, path_finders: Vec<&PathFinder>) -> (text: String)
    requires
        grid.wf(),
        forall|i: int| 0 <= i < path_finders.len() ==> (#[trigger] path_finders[i]).wf(),
    ensures
        text@ == grid_text(grid@, search_states(path_finders@), grid@.height as nat),
{
    let mut string = String::new();
    let size = grid.size();
    let ghost searches = search_states(path_finders@);
    let mut y: i32 = 0;
    while y < size.y
        invariant
            0 <= y <= size.y,
            grid.wf(),
            size.x == grid@.width,
            size.y == grid@.height,
            searches == search_states(path_finders@),
            forall|i: int| 0 <= i < path_finders.len() ==> (#[trigger] path_finders[i]).wf(),
            string@ == grid_text(grid@, searches, y as nat),
        decreases size.y - y,
    {
        let ghost above = string@;
        let mut x: i32 = 0;
        while x < size.x
            invariant
                0 <= x <= size.x,
                0 <= y < size.y,
                grid.wf(),
                size.x == grid@.width,
                size.y == grid@.height,
                searches == search_states(path_finders@),
                forall|i: int| 0 <= i < path_finders.len() ==> (#[trigger] path_finders[i]).wf(),
                string@ == above + row_text(grid@, searches, y as int, x as nat),
            decreases size.x - x,
        {
            let pos = Point::new(x, y);
            let mut tile_str = grid.get_tile(&pos).unwrap().as_str();
            let mut i: usize = 0;
            assert(searches.take(0).len() == 0);
            while i < path_finders.len()
                invariant
                    0 <= i <= path_finders.len(),
                    searches == search_states(path_finders@),
                    forall|i: int|
                        0 <= i < path_finders.len() ==> (#[trigger] path_finders[i]).wf(),
                    tile_str@ == cell_glyph(grid@, searches.take(i as int), pos),
                decreases path_finders.len() - i,
            {
                proof {
                    assert(searches.take(i + 1).drop_last() == searches.take(i as int));
                    assert(searches.take(i + 1).last() == path_finders[i as int]@);
                }
                tile_str = draw_over(path_finders[i], pos, tile_str);
                i += 1;
            }
            proof {
                assert(searches.take(searches.len() as int) == searches);
                assert(string@ + tile_str@ == above + (row_text(grid@, searches, y as int, x as nat)
                    + tile_str@));
            }
            string.append(tile_str);
            x += 1;
        }
        proof {
            reveal_strlit("\n");
            assert("\n"@ =~= seq!['\n']);
        }
        string.append("\n");
        y += 1;
    }
    string
}

} // verus!
