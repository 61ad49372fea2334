//! The obstacle grid: a fixed-size, row-major table of tiles.

use crate::point::Point;
use vstd::prelude::*;

verus! {

/// Traversability of one cell.
#[derive(Clone, Copy, Debug, PartialEq, Eq, Structural)]
pub enum Tile {
    /// The cell can be walked through.
    Empty,
    /// The cell blocks movement.
    Solid,
}

/// A coordinate lies outside the extents of the grid.
#[derive(Clone, Copy, Debug, PartialEq, Eq, Structural)]
pub struct OutOfBounds {
    /// The offending coordinate.
    pub pos: Point,
}

/// Mathematical model of a grid: its extents and its tiles in row-major order.
pub struct GridView {
    pub width: int,
    pub height: int,
    pub tiles: Seq<Tile>,
}

impl GridView {
    /// The extents are representable and there is exactly one tile per cell.
    pub open spec fn wf(self) -> bool {
        &&& 0 <= self.width <= i32::MAX
        &&& 0 <= self.height <= i32::MAX
        &&& self.tiles.len() == self.width * self.height
        &&& self.tiles.len() <= usize::MAX
    }

    /// `p` lies within `[0, width) x [0, height)`.
    pub open spec fn contains(self, p: Point) -> bool {
        0 <= p.x < self.width && 0 <= p.y < self.height
    }

    /// Row-major index of `p`.
    pub open spec fn index_of(self, p: Point) -> int {
        p.x + p.y * self.width
    }

    /// The tile stored for `p`; meaningful for positions the grid contains.
    pub open spec fn tile_at(self, p: Point) -> Tile {
        self.tiles[self.index_of(p)]
    }

    /// `p` is inside the grid and not blocked.
    pub open spec fn passable(self, p: Point) -> bool {
        self.contains(p) && self.tile_at(p) == Tile::Empty
    }
}

/// Every contained position has an index inside the tile table.
pub proof fn lemma_index_in_range(g: GridView, p: Point)
    requires
        g.wf(),
        g.contains(p),
    ensures
        0 <= g.index_of(p) < g.tiles.len(),
        0 <= p.y * g.width <= g.index_of(p),
{
    let (x, y, w, h) = (p.x as int, p.y as int, g.width, g.height);
    assert(0 <= y * w && y * w + w <= h * w) by (nonlinear_arith)
        requires
            0 <= y < h,
            0 <= w,
    ;
    assert(h * w == w * h) by (nonlinear_arith);
}

/// Distinct contained positions have distinct indices.
pub proof fn lemma_index_injective(g: GridView, p: Point, q: Point)
    requires
        g.wf(),
        g.contains(p),
        g.contains(q),
        g.index_of(p) == g.index_of(q),
    ensures
        p == q,
{
    let (px, py, qx, qy, w) = (p.x as int, p.y as int, q.x as int, q.y as int, g.width);
    assert(py == qy) by (nonlinear_arith)
        requires
            0 <= px < w,
            0 <= qx < w,
            px + py * w == qx + qy * w,
    ;
}

/// The tile that a sample flag stands for.
pub open spec fn tile_for(solid: bool) -> Tile {
    if solid {
        Tile::Solid
    } else {
        Tile::Empty
    }
}

/// A rectangular obstacle grid.
pub struct Grid {
    size: Point,
    tiles: Vec<Tile>,
}

impl View for Grid {
    type V = GridView;

    closed spec fn view(&self) -> GridView {
        GridView { width: self.size.x as int, height: self.size.y as int, tiles: self.tiles@ }
    }
}

impl Grid {
    /// Well-formedness: established by [`Grid::generate`] and kept by every method.
    pub open spec fn wf(&self) -> bool {
        self@.wf()
    }

    /// Builds a grid of the given extents from one obstacle sample per cell.
    ///
    /// `solid` holds the samples in row-major order: the cell at `(x, y)` becomes
    /// [`Tile::Solid`] exactly when `solid[x + y * width]` is set.
    pub fn generate(size: Point, solid: &Vec<bool>) -> (grid: Grid)
        requires
            0 <= size.x,
            0 <= size.y,
            solid.len() == size.x * size.y,
        ensures
            grid.wf(),
            grid@.width == size.x,
            grid@.height == size.y,
            forall|p: Point|
                grid@.contains(p) ==> #[trigger] grid@.tile_at(p) == tile_for(
                    solid@[grid@.index_of(p)],
                ),
    {
        let mut grid = Grid { size, tiles: vec![Tile::Empty; solid.len()] };
        proof {
            assert forall|p: Point| grid@.contains(p) implies #[trigger] grid@.tile_at(p)
                == Tile::Empty by {
                lemma_index_in_range(grid@, p);
            }
        }
        let mut x: i32 = 0;
        while x < size.x
            invariant
                0 <= x <= size.x,
                grid.wf(),
                grid@.width == size.x,
                grid@.height == size.y,
                solid.len() == size.x * size.y,
                forall|p: Point|
                    grid@.contains(p) ==> #[trigger] grid@.tile_at(p) == (if p.x < x {
                        tile_for(solid@[grid@.index_of(p)])
                    } else {
                        Tile::Empty
                    }),
            decreases size.x - x,
        {
            let mut y: i32 = 0;
            while y < size.y
                invariant
                    0 <= x < size.x,
                    0 <= y <= size.y,
                    grid.wf(),
                    grid@.width == size.x,
                    grid@.height == size.y,
                    solid.len() == size.x * size.y,
                    forall|p: Point|
                        grid@.contains(p) ==> #[trigger] grid@.tile_at(p) == (if p.x < x || (p.x
                            == x && p.y < y) {
                            tile_for(solid@[grid@.index_of(p)])
                        } else {
                            Tile::Empty
                        }),
                decreases size.y - y,
            {
                let pos = Point::new(x, y);
                let index = grid.pos_index(&pos);
                if solid[index] {
                    let ghost before = grid@;
                    grid.set_tile(&pos, Tile::Solid);
                    proof {
                        assert forall|p: Point| grid@.contains(p) && p != pos implies grid@.tile_at(
                            p,
                        ) == before.tile_at(p) by {
                            if before.index_of(p) == before.index_of(pos) {
                                lemma_index_injective(before, p, pos);
                            }
                            lemma_index_in_range(before, p);
                        }
                        lemma_index_in_range(before, pos);
                    }
                }
                y += 1;
            }
            x += 1;
        }
        grid
    }

    /// The extents of the grid: `x` is the width, `y` the height.
    pub fn size(&self) -> (size: Point)
        ensures
            size.x == self@.width,
            size.y == self@.height,
    {
        self.size
    }

    /// The tile at `pos`, or [`OutOfBounds`] when `pos` is not a cell of the grid.
    pub fn get_tile(&self, pos: &Point) -> (tile: Result<Tile, OutOfBounds>)
        requires
            self.wf(),
        ensures
            self@.contains(*pos) ==> tile == Ok::<Tile, OutOfBounds>(self@.tile_at(*pos)),
            !self@.contains(*pos) ==> tile == Err::<Tile, OutOfBounds>(OutOfBounds { pos: *pos }),
    {
        if pos.x < 0 || pos.x >= self.size.x || pos.y < 0 || pos.y >= self.size.y {
            return Err(OutOfBounds { pos: *pos });
        }
        let index = self.pos_index(pos);
        Ok(self.tiles[index])
    }

    /// Overwrites the tile at `pos`; only used while the grid is being built.
    fn set_tile(&mut self, pos: &Point, tile: Tile)
        requires
            old(self).wf(),
            old(self)@.contains(*pos),
        ensures
            final(self)@ == (GridView {
                tiles: old(self)@.tiles.update(old(self)@.index_of(*pos), tile),
                ..old(self)@
            }),
            final(self).wf(),
    {
        let index = self.pos_index(pos);
        self.tiles.set(index, tile);
    }

    /// Row-major index of a contained position.
    fn pos_index(&self, pos: &Point) -> (index: usize)
        requires
            self.wf(),
            self@.contains(*pos),
        ensures
            index == self@.index_of(*pos),
            index < self@.tiles.len(),
    {
        let len = self.tiles.len();
        proof {
            lemma_index_in_range(self@, *pos);
            assert(pos.y * self.size.x <= self@.index_of(*pos) < len);
        }
        let row_start: usize = pos.y as usize * self.size.x as usize;
        pos.x as usize + row_start
    }
}

} // verus!
