use vstd::prelude::*;

use crate::container::Container;
use crate::map::Coordinate;

verus! {

/// Some `blocks` and one `temp_block` on top of them, to check a placement
/// before it is added to a build.
pub struct TempBuild<'a, C: Container<Coordinate>> {
    pub blocks: &'a C,
    pub temp_block: Coordinate,
}

impl<'a, C: Container<Coordinate>> Container<Coordinate> for TempBuild<'a, C> {
    open spec fn members(&self) -> Set<Coordinate> {
        self.blocks.members().insert(self.temp_block)
    }

    fn contains(&self, some: &Coordinate) -> (r: bool) {
        self.blocks.contains(some) || self.temp_block == *some
    }
}

} // verus!
