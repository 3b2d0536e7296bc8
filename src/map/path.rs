use vstd::prelude::*;

use super::search::{is_route, is_shortest_route, materialized, search, Target};
use super::tileset::Tileset;
use super::{Coordinate, Tile};

verus! {

/// A walk over a grid, as the cells it steps on.
pub struct Path(pub Vec<Coordinate>);

/// The result of a search from `start` over `grid`, with orthogonal steps,
/// towards any of `end_points`.
pub open spec fn path_found(grid: Seq<Vec<Tile>>, end_points: &Vec<Coordinate>, start: Coordinate, r: Option<Path>) -> bool {
    match r {
        Some(p) => is_shortest_route(Target::Cells(end_points), grid, Set::empty(), false, start, p.0@),
        None => forall|w: Seq<Coordinate>|
            !#[trigger] is_route(Target::Cells(end_points), grid, Set::empty(), false, start, w),
    }
}

/// The shortest of the routes from any of `starts`: the first start's on a tie.
pub open spec fn best_path(grid: Seq<Vec<Tile>>, end_points: &Vec<Coordinate>, starts: Seq<Coordinate>, r: Option<Path>) -> bool {
    match r {
        Some(p) => {
            &&& exists|i: int|
                0 <= i < starts.len() && is_shortest_route(
                    Target::Cells(end_points),
                    grid,
                    Set::empty(),
                    false,
                    #[trigger] starts[i],
                    p.0@,
                ) && forall|j: int, w: Seq<Coordinate>|
                    0 <= j < i && #[trigger] is_route(
                        Target::Cells(end_points),
                        grid,
                        Set::empty(),
                        false,
                        starts[j],
                        w,
                    ) ==> p.0@.len() < w.len()
            &&& forall|i: int, w: Seq<Coordinate>|
                0 <= i < starts.len() && #[trigger] is_route(
                    Target::Cells(end_points),
                    grid,
                    Set::empty(),
                    false,
                    starts[i],
                    w,
                ) ==> p.0@.len() <= w.len()
        },
        None => forall|i: int, w: Seq<Coordinate>|
            0 <= i < starts.len() ==> !#[trigger] is_route(
                Target::Cells(end_points),
                grid,
                Set::empty(),
                false,
                starts[i],
                w,
            ),
    }
}

impl Path {
    /// Return the cells which this path contains.
    pub fn coordinates(self) -> (r: Vec<Coordinate>)
        ensures
            r@ == self.0@,
    {
        self.0
    }

    /// Returns the shorter path; if both are equally long, this one.
    fn return_shorter(self, other: Self) -> (r: Self)
        ensures
            r == (if self.0@.len() > other.0@.len() {
                other
            } else {
                self
            }),
    {
        if self.0.len() > other.0.len() {
            return other;
        }
        self
    }

    /// The shortest path over `tileset`, with orthogonal steps, from any of
    /// `start_points` to any of `end_points`.
    pub fn shortest_from_any_to(
        tileset: &Tileset,
        start_points: &Vec<Coordinate>,
        end_points: &Vec<Coordinate>,
    ) -> (r: Option<Self>)
        ensures
            best_path(tileset.grid@, end_points, start_points@, r),
    {
        let mut best: Option<Self> = None;
        let mut i: usize = 0;
        while i < start_points.len()
            invariant
                i <= start_points@.len(),
                best_path(tileset.grid@, end_points, start_points@.subrange(0, i as int), best),
            decreases start_points@.len() - i,
        {
            let found = Self::shortest_from_coordinate_to(tileset, start_points[i], end_points);
            let ghost done = start_points@.subrange(0, i as int);
            let ghost next = start_points@.subrange(0, i + 1);
            assert(next =~= done.push(start_points@[i as int]));
            let ghost prior = best;
            let ghost fresh = found;
            best = match best {
                None => found,
                Some(b) => match found {
                    None => Some(b),
                    Some(f) => Some(b.return_shorter(f)),
                },
            };
            proof {
                let g = tileset.grid@;
                let t = Target::Cells(end_points);
                assert forall|k: int| 0 <= k < i implies next[k] == done[k] by {}
                assert(next[i as int] == start_points@[i as int]);
                let now = best;
                if now is Some {
                    let p = now->0;
                    if fresh is Some && p == fresh->0 {
                        assert(is_shortest_route(t, g, Set::empty(), false, next[i as int], p.0@));
                    } else {
                        let k = choose|k: int|
                            0 <= k < done.len() && is_shortest_route(t, g, Set::empty(), false, #[trigger] done[k], p.0@);
                        assert(is_shortest_route(t, g, Set::empty(), false, next[k], p.0@));
                    }
                }
            }
            i += 1;
        }
        assert(start_points@.subrange(0, start_points@.len() as int) =~= start_points@);
        best
    }

    /// The shortest path over `tileset`, with orthogonal steps, from `start`
    /// to any of `end_points`; nothing when `start` cannot be walked over or
    /// no end point can be reached.
    pub fn shortest_from_coordinate_to(tileset: &Tileset, start: Coordinate, end_points: &Vec<Coordinate>) -> (r: Option<
        Self,
    >)
        ensures
            path_found(tileset.grid@, end_points, start, r),
    {
        let grid = &tileset.grid;
        if !(start.1 < grid.len() && start.0 < grid[start.1].len()) {
            proof {
                assert forall|w: Seq<Coordinate>|
                    !#[trigger] is_route(Target::Cells(end_points), grid@, Set::empty(), false, start, w) by {
                    if is_route(Target::Cells(end_points), grid@, Set::empty(), false, start, w) {
                        assert(w[0].within(grid@));
                    }
                }
            }
            return None;
        }
        proof {
            assert(materialized(grid@, Set::empty(), grid@));
        }
        let target = Target::Cells(end_points);
        match search(Ghost(grid@), Ghost(Set::empty()), grid, start, &target, false) {
            Some(cells) => Some(Path(cells)),
            None => None,
        }
    }

    /// The shortest path of each spawn region of `tileset`, with orthogonal
    /// steps, from any of its entrances to any of `exits`.
    pub fn shortest_from_entrances_to_any_exit(tileset: &Tileset, exits: &Vec<Coordinate>) -> (r: Vec<
        Option<Self>,
    >)
        ensures
            r@.len() == tileset.entrances_by_region@.len(),
            forall|i: int|
                0 <= i < r@.len() ==> best_path(
                    tileset.grid@,
                    exits,
                    tileset.entrances_by_region@[i]@.map_values(|e: (Coordinate, usize)| e.0),
                    #[trigger] r@[i],
                ),
    {
        let mut r: Vec<Option<Self>> = Vec::new();
        let mut i: usize = 0;
        while i < tileset.entrances_by_region.len()
            invariant
                i <= tileset.entrances_by_region@.len(),
                r@.len() == i,
                forall|k: int|
                    0 <= k < i ==> best_path(
                        tileset.grid@,
                        exits,
                        tileset.entrances_by_region@[k]@.map_values(|e: (Coordinate, usize)| e.0),
                        #[trigger] r@[k],
                    ),
            decreases tileset.entrances_by_region@.len() - i,
        {
            let region = &tileset.entrances_by_region[i];
            let mut starts: Vec<Coordinate> = Vec::new();
            let mut j: usize = 0;
            while j < region.len()
                invariant
                    j <= region@.len(),
                    starts@ =~= region@.subrange(0, j as int).map_values(|e: (Coordinate, usize)| e.0),
                decreases region@.len() - j,
            {
                starts.push(region[j].0);
                j += 1;
            }
            assert(region@.subrange(0, region@.len() as int) =~= region@);
            r.push(Self::shortest_from_any_to(tileset, &starts, exits));
            i += 1;
        }
        r
    }
}

} // verus!
