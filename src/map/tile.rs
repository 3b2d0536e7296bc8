use vstd::prelude::*;

verus! {

/// A square on a map.
#[derive(Copy, Clone, Debug, PartialEq, Eq, Structural, Hash)]
pub enum Tile {
    /// An `Impass` space which used to be `Empty` but now has a block on it.
    Block,
    /// A region which serves as an exit point for enemies.
    Core,
    /// A `Pass` which may have blocks placed on top of it.
    Empty,
    /// A tile which nothing can walk over.
    Impass,
    /// A tile which enemies can walk over.
    Pass,
    /// A region where enemies come from: the starting point of their walk.
    Spawn,
}

impl Tile {
    /// The tile can be walked over: `Empty` or `Pass`.
    pub open spec fn passable(self) -> bool {
        self == Tile::Empty || self == Tile::Pass
    }

    /// The tile belongs to a region: `Core` or `Spawn`.
    pub open spec fn region(self) -> bool {
        self == Tile::Core || self == Tile::Spawn
    }

    /// Whether or not the tile can be moved through.
    pub fn is_passable(&self) -> (r: bool)
        ensures
            r == self.passable(),
    {
        matches!(self, Tile::Empty | Tile::Pass)
    }

    /// Whether or not the tile is part of a region, wherein all tiles adjacent
    /// to each other of the same kind count as one bigger tile.
    pub fn is_region(&self) -> (r: bool)
        ensures
            r == self.region(),
    {
        matches!(self, Tile::Core | Tile::Spawn)
    }
}

} // verus!
