pub mod adjacent;
pub mod blocks;
pub mod coordinate;
pub mod path;
pub mod search;
pub mod shortest_path;
pub mod tile;
pub mod tileset;

use vstd::prelude::*;

pub use adjacent::Adjacent;
pub use blocks::Build;
pub use coordinate::Coordinate;
pub use shortest_path::ShortestPath;
pub use tile::Tile;
pub use tileset::Tileset;

verus! {

/// A named map: its grid of tiles and, once solved, the length of the
/// shortest path of each spawn region.
pub struct MapDocument {
    pub name: String,
    pub grid: Vec<Vec<Tile>>,
    pub shortest_path_length: Option<Vec<Option<usize>>>,
}

} // verus!
