use vstd::prelude::*;

use crate::map::Coordinate;

verus! {

/// A collection which can answer whether some value is in it.
pub trait Container<T> {
    /// The values that the container holds.
    spec fn members(&self) -> Set<T>;

    /// Return `true` if `some` value is contained in this container.
    fn contains(&self, some: &T) -> (r: bool)
        ensures
            r == self.members().contains(*some),
    ;
}

/// The cells read as blocks through an optional container.
pub open spec fn overlay_of<C: Container<Coordinate>>(build: Option<&C>) -> Set<Coordinate> {
    match build {
        Some(b) => b.members(),
        None => Set::empty(),
    }
}

impl Container<Coordinate> for Vec<Coordinate> {
    open spec fn members(&self) -> Set<Coordinate> {
        self@.to_set()
    }

    fn contains(&self, some: &Coordinate) -> (r: bool) {
        let mut i: usize = 0;
        while i < self.len()
            invariant
                i <= self@.len(),
                forall|j: int| 0 <= j < i ==> self@[j] != *some,
            decreases self@.len() - i,
        {
            if self[i] == *some {
                assert(self@.to_set().contains(*some)) by {
                    assert(self@[i as int] == *some);
                }
                return true;
            }
            i += 1;
        }
        assert(!self@.contains(*some));
        false
    }
}

} // verus!
