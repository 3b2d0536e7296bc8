pub mod adjacent;

use vstd::prelude::*;

use super::Tile;

verus! {

/// An `(x, y)` pair referring to a cell of a two-dimensional grid: `x` indexes
/// the inner sequence (the column) and `y` the outer one (the row).
#[derive(Copy, Clone, Debug, PartialEq, Eq, Structural, Hash, PartialOrd, Ord)]
pub struct Coordinate(pub usize, pub usize);

/// All rows of the grid have the same length.
pub open spec fn rectangular<T>(grid: Seq<Vec<T>>) -> bool {
    forall|i: int| 0 <= i < grid.len() ==> #[trigger] grid[i]@.len() == grid[0]@.len()
}

/// The tile at `c` when the cells of `overlay` are read as blocks.
pub open spec fn tile_with(grid: Seq<Vec<Tile>>, overlay: Set<Coordinate>, c: Coordinate) -> Option<
    Tile,
> {
    if overlay.contains(c) {
        Some(Tile::Block)
    } else {
        c.at(grid)
    }
}

/// Whether `c` can be walked over when the cells of `overlay` are read as blocks.
pub open spec fn open_at(grid: Seq<Vec<Tile>>, overlay: Set<Coordinate>, c: Coordinate) -> bool {
    match tile_with(grid, overlay, c) {
        Some(t) => t.passable(),
        None => false,
    }
}

/// How far apart two numbers are.
pub open spec fn abs_diff(a: usize, b: usize) -> nat {
    if a >= b {
        (a - b) as nat
    } else {
        (b - a) as nat
    }
}

impl Coordinate {
    /// The coordinate names a cell of `grid`.
    pub open spec fn within<T>(self, grid: Seq<Vec<T>>) -> bool {
        self.1 < grid.len() && self.0 < grid[self.1 as int]@.len()
    }

    /// The value at the coordinate of `grid`, if it names a cell of it.
    pub open spec fn at<T>(self, grid: Seq<Vec<T>>) -> Option<T> {
        if self.within(grid) {
            Some(grid[self.1 as int]@[self.0 as int])
        } else {
            None
        }
    }

    /// The Manhattan distance between two coordinates.
    pub open spec fn manhattan(self, other: Coordinate) -> nat {
        abs_diff(self.0, other.0) + abs_diff(self.1, other.1)
    }

    /// Calculate the distance between this coordinate and the `other`.
    ///
    /// This does not take into account any barriers which may exist between the
    /// coordinates.
    pub fn distance_from(&self, other: &Self) -> (r: usize)
        requires
            self.manhattan(*other) <= usize::MAX,
        ensures
            r == self.manhattan(*other),
    {
        let dx = if self.0 >= other.0 {
            self.0 - other.0
        } else {
            other.0 - self.0
        };
        let dy = if self.1 >= other.1 {
            self.1 - other.1
        } else {
            other.1 - self.1
        };
        dx + dy
    }

    /// Retrieve the value stored at the coordinate in `grid`.
    pub fn get_from<T: Copy>(&self, grid: &Vec<Vec<T>>) -> (r: Option<T>)
        ensures
            r == self.at(grid@),
    {
        if self.1 < grid.len() {
            let row = &grid[self.1];
            if self.0 < row.len() {
                return Some(row[self.0]);
            }
        }
        None
    }

    /// Get the tile at the coordinate of `grid`, or `Block` if the coordinate
    /// is in the `build`.
    pub fn get_from_with_build<C: crate::container::Container<Coordinate>>(
        &self,
        grid: &Vec<Vec<Tile>>,
        build: Option<&C>,
    ) -> (r: Option<Tile>)
        ensures
            r == tile_with(grid@, crate::container::overlay_of(build), *self),
    {
        if let Some(b) = build {
            if b.contains(self) {
                return Some(Tile::Block);
            }
        }
        self.get_from(grid)
    }

    /// Set the value stored at the coordinate of `grid`, which must be one of
    /// its cells.
    pub fn set<T>(&self, grid: &mut Vec<Vec<T>>, value: T)
        requires
            self.within(old(grid)@),
        ensures
            final(grid)@.len() == old(grid)@.len(),
            final(grid)@ == old(grid)@.update(self.1 as int, final(grid)@[self.1 as int]),
            final(grid)@[self.1 as int]@ == old(grid)@[self.1 as int]@.update(self.0 as int, value),
    {
        grid[self.1][self.0] = value;
    }
}

} // verus!
