//! The tile grid: a rectangle of wall and floor tiles stored row by row.
use vstd::prelude::*;
use crate::geometry::Point;

verus! {

/// What a grid cell holds.
#[derive(Clone, Copy, Debug, PartialEq, Eq, Hash, Structural)]
pub enum TileType {
    Wall,
    Floor,
}

/// A `width` by `height` grid of tiles. The tile at `(x, y)` is stored at
/// index `y * width + x`.
#[derive(Debug, PartialEq, Eq)]
pub struct Grid {
    pub width: i32,
    pub height: i32,
    pub tiles: Vec<TileType>,
}

impl Grid {
    /// The grid has positive dimensions and one tile per cell.
    pub open spec fn wf(&self) -> bool {
        &&& self.width > 0
        &&& self.height > 0
        &&& self.width * self.height <= usize::MAX
        &&& self.tiles@.len() == self.width * self.height
    }

    /// Whether `(x, y)` is a cell of the grid.
    pub open spec fn contains(&self, x: int, y: int) -> bool {
        0 <= x < self.width && 0 <= y < self.height
    }

    /// The position in `tiles` of the cell `(x, y)`.
    pub open spec fn index_of(&self, x: int, y: int) -> int {
        y * self.width + x
    }

    /// The tile at the cell `(x, y)`.
    pub open spec fn tile(&self, x: int, y: int) -> TileType
        recommends
            self.wf(),
            self.contains(x, y),
    {
        self.tiles@[self.index_of(x, y)]
    }

    /// Every cell has a position inside `tiles`.
    pub proof fn lemma_index_in_range(&self, x: int, y: int)
        requires
            self.wf(),
            self.contains(x, y),
        ensures
            0 <= self.index_of(x, y) < self.tiles@.len(),
    {
        let w = self.width as int;
        let h = self.height as int;
        assert(0 <= y * w + x < w * h) by (nonlinear_arith)
            requires
                0 <= x < w,
                0 <= y < h,
        ;
    }

    /// Different cells have different positions.
    pub proof fn lemma_index_injective(&self, xa: int, ya: int, xb: int, yb: int)
        requires
            self.contains(xa, ya),
            self.contains(xb, yb),
            self.index_of(xa, ya) == self.index_of(xb, yb),
        ensures
            xa == xb,
            ya == yb,
    {
        let w = self.width as int;
        assert(ya == yb && xa == xb) by (nonlinear_arith)
            requires
                0 <= xa < w,
                0 <= xb < w,
                ya * w + xa == yb * w + xb,
        ;
    }

    /// Every position inside `tiles` is the position of exactly the cell
    /// `(i % width, i / width)`.
    pub proof fn lemma_index_onto(&self, i: int)
        requires
            self.wf(),
            0 <= i < self.tiles@.len(),
        ensures
            self.contains(i % (self.width as int), i / (self.width as int)),
            self.index_of(i % (self.width as int), i / (self.width as int)) == i,
    {
        let w = self.width as int;
        let h = self.height as int;
        assert(0 <= i % w < w && 0 <= i / w < h && (i / w) * w + i % w == i) by (nonlinear_arith)
            requires
                0 < w,
                0 < h,
                0 <= i < w * h,
        ;
    }

    /// A grid of the given dimensions with every tile a floor.
    pub fn new(width: i32, height: i32) -> (grid: Grid)
        requires
            width > 0,
            height > 0,
            width * height <= usize::MAX,
        ensures
            grid.wf(),
            grid.width == width,
            grid.height == height,
            forall|i: int| 0 <= i < grid.tiles@.len() ==> grid.tiles@[i] == TileType::Floor,
            forall|x: int, y: int|
                grid.contains(x, y) ==> #[trigger] grid.tile(x, y) == TileType::Floor,
    {
        assert(0 < width * height) by (nonlinear_arith)
            requires
                width > 0,
                height > 0,
        ;
        let count: usize = (width as usize) * (height as usize);
        let mut tiles: Vec<TileType> = Vec::new();
        let mut i: usize = 0;
        while i < count
            invariant
                i <= count,
                tiles@.len() == i,
                forall|j: int| 0 <= j < i ==> tiles@[j] == TileType::Floor,
            decreases count - i,
        {
            tiles.push(TileType::Floor);
            i += 1;
        }
        let grid = Grid { width, height, tiles };
        assert forall|x: int, y: int| grid.contains(x, y) implies #[trigger] grid.tile(x, y)
            == TileType::Floor by {
            grid.lemma_index_in_range(x, y);
        }
        grid
    }

    /// Tests whether `p` is a cell of the grid.
    pub fn in_bounds(&self, p: Point) -> (b: bool)
        ensures
            b == self.contains(p.x as int, p.y as int),
    {
        p.x >= 0 && p.x < self.width && p.y >= 0 && p.y < self.height
    }

    /// The position in `tiles` of the cell `(x, y)`.
    pub fn map_idx(&self, x: i32, y: i32) -> (idx: usize)
        requires
            self.wf(),
            self.contains(x as int, y as int),
        ensures
            idx == self.index_of(x as int, y as int),
            idx < self.tiles@.len(),
    {
        let row: usize = y as usize;
        let width: usize = self.width as usize;
        proof {
            self.lemma_index_in_range(x as int, y as int);
            assert(0 <= row * width && row * width == y * self.width) by (nonlinear_arith)
                requires
                    0 <= row,
                    0 <= width,
                    row == y,
                    width == self.width,
            ;
        }
        row * width + (x as usize)
    }

    /// The position in `tiles` of the cell at `p`, or `None` where `p` lies
    /// outside the grid.
    pub fn try_idx(&self, p: Point) -> (idx: Option<usize>)
        requires
            self.wf(),
        ensures
            match idx {
                Some(i) => self.contains(p.x as int, p.y as int) && i == self.index_of(
                    p.x as int,
                    p.y as int,
                ) && i < self.tiles@.len(),
                None => !self.contains(p.x as int, p.y as int),
            },
    {
        if self.in_bounds(p) {
            Some(self.map_idx(p.x, p.y))
        } else {
            None
        }
    }

    /// The tile at `p`, or `None` where `p` lies outside the grid.
    pub fn tile_at(&self, p: Point) -> (t: Option<TileType>)
        requires
            self.wf(),
        ensures
            self.contains(p.x as int, p.y as int) ==> t == Some(self.tile(p.x as int, p.y as int)),
            !self.contains(p.x as int, p.y as int) ==> t is None,
    {
        match self.try_idx(p) {
            Some(idx) => Some(self.tiles[idx]),
            None => None,
        }
    }

    /// Puts `tile` at `p` where `p` is a cell of the grid, and says whether
    /// it is one. A point outside the grid changes nothing.
    pub fn set_tile(&mut self, p: Point, tile: TileType) -> (done: bool)
        requires
            old(self).wf(),
        ensures
            done == old(self).contains(p.x as int, p.y as int),
            final(self).wf(),
            final(self).width == old(self).width,
            final(self).height == old(self).height,
            !done ==> final(self).tiles@ == old(self).tiles@,
            done ==> final(self).tiles@ == old(self).tiles@.update(
                old(self).index_of(p.x as int, p.y as int),
                tile,
            ),
            forall|x: int, y: int| #![trigger final(self).tile(x, y)]
                old(self).contains(x, y) ==> final(self).tile(x, y) == if x == p.x && y == p.y {
                    tile
                } else {
                    old(self).tile(x, y)
                },
    {
        match self.try_idx(p) {
            Some(idx) => {
                self.tiles[idx] = tile;
                proof {
                    assert forall|x: int, y: int| old(self).contains(x, y) implies (
                    #[trigger] self.tile(x, y)) == if x == p.x && y == p.y {
                        tile
                    } else {
                        old(self).tile(x, y)
                    } by {
                        old(self).lemma_index_in_range(x, y);
                        if old(self).index_of(x, y) == idx {
                            old(self).lemma_index_injective(x, y, p.x as int, p.y as int);
                        }
                    }
                }
                true
            },
            None => false,
        }
    }
}

} // verus!
