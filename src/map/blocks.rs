pub mod temp_build;

use vstd::prelude::*;

use super::coordinate::tile_with;
use super::adjacent::{neighbours, Adjacent};
use super::search::{
    is_route, lemma_route_avoids, lemma_route_fewer_blocks, materialize, materialized, search, Target,
};
use super::shortest_path::{best_of, lemma_ranks_before_order, region_paths, same_path, same_paths};
use super::shortest_path::ShortestPath;
use super::tileset::Tileset;
use super::{Coordinate, Tile};
use crate::container::Container;
use temp_build::TempBuild;

verus! {

/// A set of blocks for a tileset.
pub struct Build {
    pub blocks: Vec<Coordinate>,
}

/// The `i`th spawn region of `tileset` has an entrance from which a core can
/// be reached by orthogonal steps, with the cells of `overlay` read as blocks.
pub open spec fn region_reaches_core(tileset: &Tileset, overlay: Set<Coordinate>, i: int) -> bool {
    exists|j: int, w: Seq<Coordinate>|
        0 <= j < tileset.entrances_by_region@[i]@.len() && #[trigger] is_route(
            Target::Kind(Tile::Core),
            tileset.grid@,
            overlay,
            false,
            (#[trigger] tileset.entrances_by_region@[i]@[j]).0,
            w,
        )
}

/// Every spawn region of `tileset` has an entrance from which a core can be
/// reached by orthogonal steps, with the cells of `overlay` read as blocks.
pub open spec fn valid(tileset: &Tileset, overlay: Set<Coordinate>) -> bool {
    forall|i: int|
        0 <= i < tileset.entrances_by_region@.len() ==> #[trigger] region_reaches_core(tileset, overlay, i)
}

/// Whether a block on the `k`th cell of `path` would be on an empty tile and
/// keep `tileset` valid next to the blocks of `overlay`.
pub open spec fn placeable(tileset: &Tileset, overlay: Set<Coordinate>, path: Seq<Coordinate>, k: int) -> bool {
    path[k].at(tileset.grid@) == Some(Tile::Empty) && valid(tileset, overlay.insert(path[k]))
}

/// The rows of a grid as sequences.
pub open spec fn rows(grid: Seq<Vec<Tile>>) -> Seq<Seq<Tile>> {
    grid.map_values(|r: Vec<Tile>| r@)
}

/// `grid` with every cell of `blocks` that lies on it turned into a block.
pub open spec fn applied(grid: Seq<Seq<Tile>>, blocks: Set<Coordinate>) -> Seq<Seq<Tile>> {
    Seq::new(
        grid.len(),
        |y: int|
            Seq::new(
                grid[y].len(),
                |x: int|
                    if blocks.contains(Coordinate(x as usize, y as usize)) {
                        Tile::Block
                    } else {
                        grid[y][x]
                    },
            ),
    )
}

/// The neighbours of `c` on the grid of `tileset`, in visiting order.
pub open spec fn neighbours_of(tileset: &Tileset, c: Coordinate, diagonals: bool) -> Seq<Coordinate> {
    neighbours(tileset.grid@.len(), tileset.grid@[c.1 as int]@.len(), c, diagonals).values()
}

/// Two lists of search results agree entry by entry.
pub open spec fn agree(a: Seq<Option<ShortestPath>>, b: Seq<Option<ShortestPath>>) -> bool {
    a.len() == b.len() && forall|i: int| 0 <= i < a.len() ==> #[trigger] same_path(a[i], b[i])
}

/// Taking `n` out of `cells` leaves every spawn region's search result as it
/// was.
pub open spec fn removable(tileset: &Tileset, cells: Set<Coordinate>, n: Coordinate, diagonals: bool) -> bool {
    forall|q: Seq<Option<ShortestPath>>, q0: Seq<Option<ShortestPath>>|
        #[trigger] region_paths(tileset, cells.remove(n), diagonals, q) && #[trigger] region_paths(
            tileset,
            cells,
            diagonals,
            q0,
        ) ==> agree(q, q0)
}

/// `j` is the first position of `s` that holds a cell of `cells`.
pub open spec fn first_member(s: Seq<Coordinate>, cells: Set<Coordinate>, j: int) -> bool {
    &&& 0 <= j < s.len()
    &&& cells.contains(s[j])
    &&& forall|k: int| 0 <= k < j ==> !cells.contains(#[trigger] s[k])
}

impl Build {
    /// The cells of the build.
    pub open spec fn cells(&self) -> Set<Coordinate> {
        self.blocks@.to_set()
    }

    /// The blocks are distinct, and each stands on an empty tile of the grid.
    pub open spec fn wf(&self, tileset: &Tileset) -> bool {
        &&& self.blocks@.no_duplicates()
        &&& forall|i: int|
            0 <= i < self.blocks@.len() ==> (#[trigger] self.blocks@[i]).at(tileset.grid@) == Some(Tile::Empty)
    }

    /// Turn every block of the build into a block tile of `grid`.
    pub fn apply_to(&self, grid: &mut Vec<Vec<Tile>>)
        requires
            forall|i: int| 0 <= i < self.blocks@.len() ==> (#[trigger] self.blocks@[i]).within(old(grid)@),
        ensures
            rows(final(grid)@) == applied(rows(old(grid)@), self.cells()),
    {
        let ghost start = rows(grid@);
        proof {
            assert(self.blocks@.subrange(0, 0).to_set() =~= Set::<Coordinate>::empty());
            assert forall|y: int| 0 <= y < start.len() implies #[trigger] start[y] =~= applied(
                start,
                Set::<Coordinate>::empty(),
            )[y] by {}
            assert(start =~= applied(start, Set::<Coordinate>::empty()));
        }
        let mut i: usize = 0;
        while i < self.blocks.len()
            invariant
                i <= self.blocks@.len(),
                grid@.len() == old(grid)@.len(),
                start == rows(old(grid)@),
                forall|y: int| 0 <= y < grid@.len() ==> #[trigger] grid@[y]@.len() == old(grid)@[y]@.len(),
                forall|k: int| 0 <= k < self.blocks@.len() ==> (#[trigger] self.blocks@[k]).within(old(grid)@),
                rows(grid@) == applied(start, self.blocks@.subrange(0, i as int).to_set()),
            decreases self.blocks@.len() - i,
        {
            let ghost g0 = *grid;
            let c = self.blocks[i];
            assert(c.within(g0@)) by {
                assert(c.within(old(grid)@));
            }
            c.set(grid, Tile::Block);
            proof {
                let done = self.blocks@.subrange(0, i as int).to_set();
                let next = self.blocks@.subrange(0, i + 1).to_set();
                assert(self.blocks@.subrange(0, i + 1) =~= self.blocks@.subrange(0, i as int).push(c));
                self.blocks@.subrange(0, i as int).lemma_push_to_set_commute(c);
                assert(next =~= done.insert(c));
                assert forall|y: int| 0 <= y < grid@.len() implies #[trigger] rows(grid@)[y] =~= applied(
                    start,
                    next,
                )[y] by {
                    assert(rows(g0@)[y] == applied(start, done)[y]);
                    assert(g0.len() == g0@.len());
                    assert(grid@[y].len() == grid@[y]@.len());
                    assert forall|x: int| 0 <= x < rows(grid@)[y].len() implies rows(grid@)[y][x] == applied(
                        start,
                        next,
                    )[y][x] by {
                        assert(rows(g0@)[y][x] == applied(start, done)[y][x]);
                        if y == c.1 && x == c.0 {
                        } else {
                            assert(Coordinate(x as usize, y as usize) != c);
                        }
                    }
                }
                assert(rows(grid@) =~= applied(start, next));
            }
            i += 1;
        }
        assert(self.blocks@.subrange(0, self.blocks@.len() as int) =~= self.blocks@);
    }

    /// Whether every spawn region of `tileset` still has an entrance from
    /// which a core can be reached by orthogonal steps, with the cells of
    /// `blocks` read as blocks.
    pub fn is_valid<C: Container<Coordinate>>(tileset: &Tileset, blocks: &C) -> (r: bool)
        ensures
            r == valid(tileset, blocks.members()),
    {
        let plain = materialize(&tileset.grid, Some(blocks));
        let ghost ov = blocks.members();
        assert(crate::container::overlay_of(Some(blocks)) == ov);
        let target = Target::Kind(Tile::Core);
        let mut i: usize = 0;
        while i < tileset.entrances_by_region.len()
            invariant
                materialized(tileset.grid@, ov, plain@),
                ov == blocks.members(),
                target == Target::Kind(Tile::Core),
                i <= tileset.entrances_by_region@.len(),
                forall|k: int| 0 <= k < i ==> #[trigger] region_reaches_core(tileset, ov, k),
            decreases tileset.entrances_by_region@.len() - i,
        {
            let region = &tileset.entrances_by_region[i];
            let mut found = false;
            let mut j: usize = 0;
            while j < region.len() && !found
                invariant
                    materialized(tileset.grid@, ov, plain@),
                    target == Target::Kind(Tile::Core),
                    region@ == tileset.entrances_by_region@[i as int]@,
                    j <= region@.len(),
                    found ==> exists|jj: int, w: Seq<Coordinate>|
                        0 <= jj < region@.len() && #[trigger] is_route(
                            Target::Kind(Tile::Core),
                            tileset.grid@,
                            ov,
                            false,
                            (#[trigger] region@[jj]).0,
                            w,
                        ),
                    !found ==> forall|jj: int, w: Seq<Coordinate>|
                        0 <= jj < j ==> !#[trigger] is_route(
                            Target::Kind(Tile::Core),
                            tileset.grid@,
                            ov,
                            false,
                            (#[trigger] region@[jj]).0,
                            w,
                        ),
                decreases region@.len() - j,
            {
                let start = region[j].0;
                if start.1 < plain.len() && start.0 < plain[start.1].len() {
                    proof {
                        assert(plain@[start.1 as int]@.len() == tileset.grid@[start.1 as int]@.len());
                    }
                    match search(Ghost(tileset.grid@), Ghost(ov), &plain, start, &target, false) {
                        Some(path) => {
                            proof {
                                assert(is_route(target, tileset.grid@, ov, false, region@[j as int].0, path@));
                            }
                            found = true;
                        },
                        None => {},
                    }
                } else {
                    proof {
                        assert(!start.within(tileset.grid@)) by {
                            if start.1 < plain@.len() {
                                assert(plain@[start.1 as int]@.len() == tileset.grid@[start.1 as int]@.len());
                            }
                        }
                        assert forall|w: Seq<Coordinate>|
                            !#[trigger] is_route(target, tileset.grid@, ov, false, start, w) by {
                            if is_route(target, tileset.grid@, ov, false, start, w) {
                                assert(w[0].within(tileset.grid@));
                            }
                        }
                    }
                }
                j += 1;
            }
            if !found {
                proof {
                    assert(!region_reaches_core(tileset, ov, i as int));
                }
                return false;
            }
            i += 1;
        }
        true
    }

    /// Finds the placement of a block along `shortest_path` closest to its end
    /// (the core) which is on an empty tile and keeps `tileset` valid next
    /// to `blocks`.
    pub fn find_valid_block_placement<C: Container<Coordinate>>(
        tileset: &Tileset,
        blocks: &C,
        shortest_path: &Vec<Coordinate>,
    ) -> (r: Option<Coordinate>)
        ensures
            match r {
                Some(c) => exists|k: int|
                    0 <= k < shortest_path@.len() && shortest_path@[k] == c && #[trigger] placeable(
                        tileset,
                        blocks.members(),
                        shortest_path@,
                        k,
                    ) && forall|l: int|
                        k < l < shortest_path@.len() ==> !#[trigger] placeable(
                            tileset,
                            blocks.members(),
                            shortest_path@,
                            l,
                        ),
                None => forall|l: int|
                    0 <= l < shortest_path@.len() ==> !#[trigger] placeable(
                        tileset,
                        blocks.members(),
                        shortest_path@,
                        l,
                    ),
            },
    {
        let mut i: usize = shortest_path.len();
        while i > 0
            invariant
                i <= shortest_path@.len(),
                forall|l: int|
                    i <= l < shortest_path@.len() ==> !#[trigger] placeable(
                        tileset,
                        blocks.members(),
                        shortest_path@,
                        l,
                    ),
            decreases i,
        {
            i -= 1;
            let coord = shortest_path[i];
            if coord.get_from(&tileset.grid) == Some(Tile::Empty) {
                let temp = TempBuild { blocks, temp_block: coord };
                if Self::is_valid(tileset, &temp) {
                    proof {
                        assert(temp.members() == blocks.members().insert(coord));
                        assert(placeable(tileset, blocks.members(), shortest_path@, i as int));
                    }
                    return Some(coord);
                }
                proof {
                    assert(temp.members() == blocks.members().insert(coord));
                }
            }
        }
        None
    }

    /// See if removing `coord` from this build would alter the shortest path
    /// of any spawn region from `expected_shortest_paths`; if it would not,
    /// leave it removed. Returns `true` if it was removed.
    fn try_remove_coord(
        &mut self,
        tileset: &Tileset,
        expected_shortest_paths: &Vec<Option<ShortestPath>>,
        coord: Coordinate,
        diagonals: bool,
    ) -> (r: bool)
        requires
            old(self).wf(tileset),
        ensures
            final(self).wf(tileset),
            r ==> old(self).cells().contains(coord) && final(self).cells() == old(self).cells().remove(coord)
                && final(self).blocks@.len() + 1 == old(self).blocks@.len(),
            !r ==> final(self).cells() == old(self).cells() && final(self).blocks@.len()
                == old(self).blocks@.len(),
            old(self).cells().contains(coord) ==> exists|q: Seq<Option<ShortestPath>>|
                #[trigger] region_paths(tileset, old(self).cells().remove(coord), diagonals, q) && (r == agree(
                    q,
                    expected_shortest_paths@,
                )),
    {
        let ghost before = self.blocks@;
        let mut i: usize = 0;
        while i < self.blocks.len() && self.blocks[i] != coord
            invariant
                self.blocks@ == before,
                i <= before.len(),
                forall|k: int| 0 <= k < i ==> before[k] != coord,
            decreases before.len() - i,
        {
            i += 1;
        }
        if i == self.blocks.len() {
            assert(!before.contains(coord));
            return false;
        }
        let removed = self.blocks.remove(i);
        proof {
            lemma_remove_cells(before, i as int);
        }
        let actual = ShortestPath::from_entrances_to_any_core(tileset, Some(&self.blocks), diagonals);
        proof {
            assert(crate::container::overlay_of(Some(&self.blocks)) == before.to_set().remove(coord));
            assert(region_paths(tileset, old(self).cells().remove(coord), diagonals, actual@));
        }
        if !same_paths(&actual, expected_shortest_paths) {
            let ghost without = self.blocks@;
            self.blocks.push(removed);
            proof {
                without.lemma_push_to_set_commute(removed);
                assert(before.to_set() =~= without.to_set().insert(removed));
                assert forall|a: int, b: int| 0 <= a < b < self.blocks@.len() implies self.blocks@[a]
                    != self.blocks@[b] by {
                    if b == without.len() {
                        assert(without.to_set().contains(self.blocks@[a]) == before.to_set().remove(
                            removed,
                        ).contains(self.blocks@[a]));
                        assert(without.contains(without[a]));
                    }
                }
                assert forall|k: int| 0 <= k < self.blocks@.len() implies (
                #[trigger] self.blocks@[k]).at(tileset.grid@) == Some(Tile::Empty) by {
                    if k == without.len() {
                        assert(before[i as int] == removed);
                    } else {
                        assert(without.to_set().contains(without[k]));
                        let m = choose|m: int| 0 <= m < before.len() && before[m] == without[k];
                    }
                }
            }
            return false;
        }
        proof {
            assert forall|k: int| 0 <= k < self.blocks@.len() implies (
            #[trigger] self.blocks@[k]).at(tileset.grid@) == Some(Tile::Empty) by {
                assert(self.blocks@.to_set().contains(self.blocks@[k]));
                let m = choose|m: int| 0 <= m < before.len() && before[m] == self.blocks@[k];
            }
            assert(before.contains(before[i as int]));
        }
        true
    }

    /// Try to remove the blocks around `coord`, and then around each block
    /// removed, wherever removing it leaves the shortest path of every spawn
    /// region as it was.
    fn try_remove_adjacent_to(&mut self, tileset: &Tileset, coord: Coordinate, diagonals: bool)
        requires
            old(self).wf(tileset),
            coord.within(tileset.grid@),
        ensures
            final(self).wf(tileset),
            final(self).cells().subset_of(old(self).cells()),
            final(self).cells() == old(self).cells() || exists|q0: Seq<Option<ShortestPath>>, q1: Seq<Option<ShortestPath>>|
                #[trigger] region_paths(tileset, old(self).cells(), diagonals, q0) && #[trigger] region_paths(
                    tileset,
                    final(self).cells(),
                    diagonals,
                    q1,
                ) && agree(q1, q0),
            forall|j: int|
                first_member(neighbours_of(tileset, coord, diagonals), old(self).cells(), j) && removable(
                    tileset,
                    old(self).cells(),
                    #[trigger] neighbours_of(tileset, coord, diagonals)[j],
                    diagonals,
                ) ==> !final(self).cells().contains(neighbours_of(tileset, coord, diagonals)[j]),
    {
        let ghost start = old(self).cells();
        let ghost nbrs = neighbours_of(tileset, coord, diagonals);
        let mut expected: Option<Vec<Option<ShortestPath>>> = None;
        let mut visited: Vec<Coordinate> = Vec::new();
        let mut queue: Vec<Coordinate> = Vec::new();
        queue.push(coord);
        let mut head: usize = 0;
        while head < queue.len()
            invariant
                self.wf(tileset),
                self.cells().subset_of(start),
                start == old(self).cells(),
                nbrs == neighbours_of(tileset, coord, diagonals),
                head <= queue@.len(),
                queue@.len() >= 1,
                queue@[0] == coord,
                forall|k: int| 0 <= k < queue@.len() ==> (#[trigger] queue@[k]).within(tileset.grid@),
                expected is None ==> self.cells() == start,
                expected is Some ==> region_paths(tileset, start, diagonals, expected->0@) && (self.cells() == start
                    || exists|q1: Seq<Option<ShortestPath>>|
                    #[trigger] region_paths(tileset, self.cells(), diagonals, q1) && agree(q1, expected->0@)),
                head == 0 ==> expected is None && visited@.len() == 0,
                head > 0 ==> forall|j: int|
                    first_member(nbrs, start, j) && removable(tileset, start, #[trigger] nbrs[j], diagonals)
                        ==> !self.cells().contains(nbrs[j]),
            decreases self.blocks@.len() + queue@.len() - head,
        {
            let around = Adjacent::from_grid_coordinate(&tileset.grid, &queue[head], diagonals).for_each();
            let ghost blocks0 = self.blocks@.len();
            let ghost queue0 = queue@.len();
            let mut j: usize = 0;
            while j < around.len()
                invariant
                    self.wf(tileset),
                    self.cells().subset_of(start),
                    start == old(self).cells(),
                    nbrs == neighbours_of(tileset, coord, diagonals),
                    head < queue@.len(),
                    queue@[0] == coord,
                    head == 0 ==> around@ == nbrs,
                    forall|k: int| 0 <= k < queue@.len() ==> (#[trigger] queue@[k]).within(tileset.grid@),
                    self.blocks@.len() + queue@.len() <= blocks0 + queue0,
                    j <= around@.len(),
                    expected is None ==> self.cells() == start,
                    expected is Some ==> region_paths(tileset, start, diagonals, expected->0@) && (self.cells()
                        == start || exists|q1: Seq<Option<ShortestPath>>|
                        #[trigger] region_paths(tileset, self.cells(), diagonals, q1) && agree(q1, expected->0@)),
                    head == 0 && (forall|k: int| 0 <= k < j ==> !start.contains(#[trigger] nbrs[k])) ==> expected is None,
                    head == 0 && (forall|k: int| 0 <= k < j ==> !start.contains(#[trigger] nbrs[k])) ==> visited@.len() == 0,
                    forall|jj: int|
                        (head > 0 || jj < j) && first_member(nbrs, start, jj) && removable(
                            tileset,
                            start,
                            #[trigger] nbrs[jj],
                            diagonals,
                        ) ==> !self.cells().contains(nbrs[jj]),
                decreases around@.len() - j,
            {
                let adjacent_coord = around[j];
                let ghost pre = self.blocks@;
                let ghost pre_cells = self.cells();
                let ghost first = head == 0 && (forall|k: int| 0 <= k < j ==> !start.contains(#[trigger] nbrs[k]));
                if self.blocks.contains(&adjacent_coord) && !visited.contains(&adjacent_coord) {
                    visited.push(adjacent_coord);
                    if expected.is_none() {
                        expected = Some(
                            ShortestPath::from_entrances_to_any_core(tileset, Some(&self.blocks), diagonals),
                        );
                    }
                    let removed = match &expected {
                        Some(paths) => self.try_remove_coord(tileset, paths, adjacent_coord, diagonals),
                        None => false,
                    };
                    proof {
                        if first {
                            assert(first_member(nbrs, start, j as int));
                            if removable(tileset, start, nbrs[j as int], diagonals) {
                                let q = choose|q: Seq<Option<ShortestPath>>|
                                    #[trigger] region_paths(tileset, pre_cells.remove(adjacent_coord), diagonals, q)
                                        && (removed == agree(q, expected->0@));
                                assert(agree(q, expected->0@));
                            }
                        }
                        assert forall|jj: int|
                            (head > 0 || jj < j + 1) && first_member(nbrs, start, jj) && removable(
                                tileset,
                                start,
                                #[trigger] nbrs[jj],
                                diagonals,
                            ) implies !self.cells().contains(nbrs[jj]) by {
                            if !(jj == j && head == 0) {
                                assert(!pre_cells.contains(nbrs[jj]));
                            } else {
                                assert(first);
                            }
                        }
                    }
                    if removed {
                        proof {
                            assert(pre.to_set().contains(adjacent_coord));
                            let m = choose|m: int| 0 <= m < pre.len() && pre[m] == adjacent_coord;
                            assert(pre[m].at(tileset.grid@) == Some(Tile::Empty));
                        }
                        queue.push(adjacent_coord);
                    }
                } else {
                    proof {
                        assert forall|jj: int|
                            (head > 0 || jj < j + 1) && first_member(nbrs, start, jj) && removable(
                                tileset,
                                start,
                                #[trigger] nbrs[jj],
                                diagonals,
                            ) implies !self.cells().contains(nbrs[jj]) by {
                            if jj == j && head == 0 {
                                assert(first);
                                assert(visited@.len() == 0);
                                assert(!visited@.contains(adjacent_coord));
                            }
                        }
                    }
                }
                j += 1;
            }
            head += 1;
        }
    }
}

/// The most region visits one strategy run makes. Placing blocks never
/// shortens a path, but pruning may give blocks back, so a run is not known to
/// settle by itself; no map of a playable size comes near this bound.
pub const STEP_LIMIT: u64 = 0xFFFF_FFFF;

/// What every strategy promises of the build it returns.
pub open spec fn sound_build(tileset: &Tileset, max_blocks: Option<usize>, build: &Build) -> bool {
    &&& build.wf(tileset)
    &&& valid(tileset, Set::empty()) ==> valid(tileset, build.cells())
    &&& match max_blocks {
        Some(n) => build.blocks@.len() <= n,
        None => true,
    }
}

/// The build holds fewer blocks than the cap, if there is one.
pub open spec fn below_cap(max_blocks: Option<usize>, build: &Build) -> bool {
    match max_blocks {
        Some(n) => build.blocks@.len() < n,
        None => true,
    }
}

fn below_cap_exec(max_blocks: Option<usize>, len: usize) -> (r: bool)
    ensures
        r == match max_blocks {
            Some(n) => len < n,
            None => true,
        },
{
    match max_blocks {
        Some(n) => len < n,
        None => true,
    }
}

/// Spawn region `i` has a shortest path under `cells` (or none at all) on
/// which no further block can be placed.
pub open spec fn settled_region(tileset: &Tileset, cells: Set<Coordinate>, diagonals: bool, i: int) -> bool {
    exists|p: Option<ShortestPath>|
        #[trigger] best_of(Tile::Core, tileset.grid@, cells, diagonals, tileset.entrances_by_region@[i]@, p) && (p is Some
            ==> forall|k: int| 0 <= k < p->0.route().len() ==> !#[trigger] placeable(tileset, cells, p->0.route(), k))
}

/// Every spawn region is settled under `cells`.
pub open spec fn settled(tileset: &Tileset, cells: Set<Coordinate>, diagonals: bool) -> bool {
    forall|i: int| 0 <= i < tileset.entrances_by_region@.len() ==> #[trigger] settled_region(tileset, cells, diagonals, i)
}

/// Whether some cell of `path` is in `blocks`.
fn crosses(path: &Vec<Coordinate>, blocks: &Vec<Coordinate>) -> (r: bool)
    ensures
        r == exists|k: int| 0 <= k < path@.len() && blocks@.to_set().contains(#[trigger] path@[k]),
{
    let mut k: usize = 0;
    while k < path.len()
        invariant
            k <= path@.len(),
            forall|l: int| 0 <= l < k ==> !blocks@.to_set().contains(#[trigger] path@[l]),
        decreases path@.len() - k,
    {
        if blocks.contains(&path[k]) {
            return true;
        }
        k += 1;
    }
    false
}

/// The index of the first entry whose path no other entry's ranks before.
fn shortest_entry(entries: &Vec<(ShortestPath, usize, bool)>) -> (r: usize)
    requires
        entries@.len() > 0,
    ensures
        r < entries@.len(),
        forall|k: int| 0 <= k < entries@.len() ==> !(#[trigger] entries@[k]).0.ranks_before(entries@[r as int].0),
{
    let mut best: usize = 0;
    let mut k: usize = 1;
    proof {
        lemma_ranks_before_order(entries@[0].0, entries@[0].0, entries@[0].0);
    }
    while k < entries.len()
        invariant
            0 < k <= entries@.len(),
            best < k,
            forall|l: int| 0 <= l < k ==> !(#[trigger] entries@[l]).0.ranks_before(entries@[best as int].0),
        decreases entries@.len() - k,
    {
        if matches!(entries[k].0.compare(&entries[best].0), std::cmp::Ordering::Less) {
            proof {
                assert forall|l: int| 0 <= l < k + 1 implies !(#[trigger] entries@[l]).0.ranks_before(
                    entries@[k as int].0,
                ) by {
                    lemma_ranks_before_order(entries@[l].0, entries@[k as int].0, entries@[best as int].0);
                }
            }
            best = k;
        }
        k += 1;
    }
    best
}

impl Build {
    /// Adds `coord`, found placeable along a route of the build, then prunes
    /// the blocks around it.
    fn place(&mut self, tileset: &Tileset, coord: Coordinate, diagonals: bool)
        requires
            old(self).wf(tileset),
            !old(self).cells().contains(coord),
            coord.at(tileset.grid@) == Some(Tile::Empty),
            valid(tileset, Set::empty()) ==> valid(tileset, old(self).cells().insert(coord)),
        ensures
            final(self).wf(tileset),
            valid(tileset, Set::empty()) ==> valid(tileset, final(self).cells()),
            final(self).blocks@.len() <= old(self).blocks@.len() + 1,
    {
        let ghost before = self.blocks@;
        self.blocks.push(coord);
        proof {
            before.lemma_push_to_set_commute(coord);
            assert forall|a: int, b: int| 0 <= a < b < self.blocks@.len() implies self.blocks@[a]
                != self.blocks@[b] by {
                if b == before.len() {
                    assert(before.contains(before[a]));
                }
            }
            assert forall|k: int| 0 <= k < self.blocks@.len() implies (#[trigger] self.blocks@[k]).at(
                tileset.grid@,
            ) == Some(Tile::Empty) by {
                if k < before.len() {
                    assert(before[k] == self.blocks@[k]);
                }
            }
        }
        let ghost placed = self.cells();
        let ghost placed_len = self.blocks@.len();
        self.try_remove_adjacent_to(tileset, coord, diagonals);
        proof {
            if valid(tileset, Set::empty()) {
                lemma_valid_fewer_blocks(tileset, self.cells(), placed);
            }
            lemma_cells_len(self.blocks@, before.push(coord));
        }
    }

    /// Visits spawn region `region`: searches its shortest path under the
    /// build and places the valid block closest to the core along it, pruning
    /// around the block when `prune` holds. Returns whether a block was placed.
    fn visit(&mut self, tileset: &Tileset, region: usize, diagonals: bool, prune: bool) -> (placed: bool)
        requires
            tileset.wf(),
            region < tileset.entrances_by_region@.len(),
            old(self).wf(tileset),
            valid(tileset, Set::empty()) ==> valid(tileset, old(self).cells()),
        ensures
            final(self).wf(tileset),
            valid(tileset, Set::empty()) ==> valid(tileset, final(self).cells()),
            !placed ==> final(self).blocks@ == old(self).blocks@ && settled_region(
                tileset,
                old(self).cells(),
                diagonals,
                region as int,
            ),
            placed ==> final(self).blocks@.len() <= old(self).blocks@.len() + 1,
            placed && !prune ==> final(self).blocks@.len() == old(self).blocks@.len() + 1,
    {
        let found = ShortestPath::from_any_grid_coordinate_to_tile(
            &tileset.grid,
            Some(&self.blocks),
            &tileset.entrances_by_region[region],
            Tile::Core,
            diagonals,
        );
        if let Some(path) = found {
            let placement = Self::find_valid_block_placement(tileset, &self.blocks, path.coordinates());
            if let Some(coord) = placement {
                proof {
                    let route = path.route();
                    let i = choose|i: int|
                        0 <= i < tileset.entrances_by_region@[region as int]@.len() && path.offset() == Some(
                            #[trigger] tileset.entrances_by_region@[region as int]@[i].1,
                        ) && super::search::is_shortest_route(
                            Target::Kind(Tile::Core),
                            tileset.grid@,
                            self.cells(),
                            diagonals,
                            tileset.entrances_by_region@[region as int]@[i].0,
                            route,
                        );
                    lemma_route_avoids(
                        Target::Kind(Tile::Core),
                        tileset.grid@,
                        self.cells(),
                        diagonals,
                        tileset.entrances_by_region@[region as int]@[i].0,
                        route,
                    );
                    let k = choose|k: int|
                        0 <= k < route.len() && route[k] == coord && #[trigger] placeable(tileset, self.cells(), route, k);
                    assert(!self.cells().contains(route[k]));
                }
                if prune {
                    self.place(tileset, coord, diagonals);
                } else {
                    self.add(tileset, coord);
                }
                return true;
            }
            proof {
                assert(best_of(Tile::Core, tileset.grid@, self.cells(), diagonals, tileset.entrances_by_region@[region as int]@, Some(path)));
            }
            return false;
        }
        proof {
            assert(best_of(Tile::Core, tileset.grid@, self.cells(), diagonals, tileset.entrances_by_region@[region as int]@, found));
        }
        false
    }

    /// Adds `coord`, found placeable along a route of the build, without
    /// pruning.
    fn add(&mut self, tileset: &Tileset, coord: Coordinate)
        requires
            old(self).wf(tileset),
            !old(self).cells().contains(coord),
            coord.at(tileset.grid@) == Some(Tile::Empty),
            valid(tileset, Set::empty()) ==> valid(tileset, old(self).cells().insert(coord)),
        ensures
            final(self).wf(tileset),
            valid(tileset, Set::empty()) ==> valid(tileset, final(self).cells()),
            final(self).blocks@.len() == old(self).blocks@.len() + 1,
    {
        let ghost before = self.blocks@;
        self.blocks.push(coord);
        proof {
            before.lemma_push_to_set_commute(coord);
            assert forall|a: int, b: int| 0 <= a < b < self.blocks@.len() implies self.blocks@[a]
                != self.blocks@[b] by {
                if b == before.len() {
                    assert(before.contains(before[a]));
                }
            }
            assert forall|k: int| 0 <= k < self.blocks@.len() implies (#[trigger] self.blocks@[k]).at(
                tileset.grid@,
            ) == Some(Tile::Empty) by {
                if k < before.len() {
                    assert(before[k] == self.blocks@[k]);
                }
            }
        }
    }

    /// Get the longest build for `tileset` by visiting its spawn regions in
    /// turn, placing at most one block along each one's shortest path per
    /// round, until a round places none or `max_blocks` blocks stand.
    ///
    /// Blocks are pruned after each placement for the first [`STEP_LIMIT`]
    /// region visits; a run that has not settled by then goes on without
    /// pruning, where every round that places a block makes the build grow.
    pub fn from_entrances_to_any_core(tileset: &Tileset, diagonals: bool, max_blocks: Option<usize>) -> (r: Self)
        requires
            tileset.wf(),
        ensures
            sound_build(tileset, max_blocks, &r),
            below_cap(max_blocks, &r) ==> settled(tileset, r.cells(), diagonals),
    {
        let mut build = Build { blocks: Vec::new() };
        proof {
            assert(build.cells() =~= Set::<Coordinate>::empty());
        }
        let regions = tileset.entrances_by_region.len();
        if regions == 0 {
            return build;
        }
        let mut finished = false;
        let mut prune = true;
        let mut steps: u64 = 0;
        while !finished
            invariant
                tileset.wf(),
                regions == tileset.entrances_by_region@.len(),
                regions > 0,
                sound_build(tileset, max_blocks, &build),
                finished ==> !below_cap(max_blocks, &build) || settled(tileset, build.cells(), diagonals),
                !prune ==> steps == STEP_LIMIT,
                steps <= STEP_LIMIT,
            decreases (if prune { 1int } else { 0int }), STEP_LIMIT - steps, usize::MAX - build.blocks.len(),
                (if finished { 0int } else { 1int }),
        {
            let ghost len0 = build.blocks@.len();
            let ghost steps0 = steps;
            let mut placements: usize = 0;
            let mut current: usize = 0;
            let mut stopped = false;
            while current < regions && !stopped
                invariant
                    tileset.wf(),
                    regions == tileset.entrances_by_region@.len(),
                    current <= regions,
                    placements <= current,
                    sound_build(tileset, max_blocks, &build),
                    stopped ==> !below_cap(max_blocks, &build) || (prune && steps == STEP_LIMIT),
                    placements == 0 ==> build.blocks@.len() == len0,
                    placements == 0 ==> forall|i: int| 0 <= i < current ==> #[trigger] settled_region(
                        tileset,
                        build.cells(),
                        diagonals,
                        i,
                    ),
                    !prune ==> build.blocks@.len() >= len0 + placements,
                    !prune ==> steps == STEP_LIMIT,
                    steps <= STEP_LIMIT,
                    prune ==> steps == steps0 + current,
                decreases regions - current + (if stopped { 0int } else { 1int }),
            {
                if let Some(max) = max_blocks {
                    if build.blocks.len() >= max {
                        stopped = true;
                    }
                }
                if !stopped {
                    if prune && steps == STEP_LIMIT {
                        stopped = true;
                    } else {
                        let ghost before = build.blocks@;
                        let placed = build.visit(tileset, current, diagonals, prune);
                        if placed {
                            placements = placements + 1;
                        } else {
                            proof {
                                assert(build.cells() == before.to_set());
                            }
                        }
                        current += 1;
                        if prune {
                            steps += 1;
                        }
                    }
                }
            }
            if stopped && below_cap_exec(max_blocks, build.blocks.len()) {
                prune = false;
            } else if stopped {
                finished = true;
            } else if placements == 0 {
                finished = true;
            }
        }
        build
    }

    /// Get the longest build for `tileset` by always working on the spawn
    /// region whose current shortest path is shortest. A region's path is
    /// searched again before use when blocks have changed since it was found;
    /// a region is dropped when its path takes no block.
    ///
    /// Blocks are pruned after each placement for the first [`STEP_LIMIT`]
    /// steps; a run that has not ended by then goes on without pruning.
    pub fn from_entrances_to_any_core_with_priority(
        tileset: &Tileset,
        diagonals: bool,
        max_blocks: Option<usize>,
    ) -> (r: Self)
        requires
            tileset.wf(),
        ensures
            sound_build(tileset, max_blocks, &r),
            below_cap(max_blocks, &r) && valid(tileset, Set::empty()) && tileset.entrances_by_region@.len() > 0
                ==> exists|i: int, p: ShortestPath|
                0 <= i < tileset.entrances_by_region@.len() && #[trigger] best_of(
                    Tile::Core,
                    tileset.grid@,
                    r.cells(),
                    diagonals,
                    tileset.entrances_by_region@[i]@,
                    Some(p),
                ) && forall|k: int| 0 <= k < p.route().len() ==> !#[trigger] placeable(tileset, r.cells(), p.route(), k),
    {
        let mut build = Build { blocks: Vec::new() };
        proof {
            assert(build.cells() =~= Set::<Coordinate>::empty());
        }
        let regions = tileset.entrances_by_region.len();
        let initial = ShortestPath::from_entrances_to_any_core(
            tileset,
            Option::<&Vec<Coordinate>>::None,
            diagonals,
        );
        proof {
            assert(crate::container::overlay_of(Option::<&Vec<Coordinate>>::None) =~= Set::<Coordinate>::empty());
        }
        let mut entries: Vec<(ShortestPath, usize, bool)> = Vec::new();
        let mut i: usize = 0;
        while i < initial.len()
            invariant
                regions == tileset.entrances_by_region@.len(),
                region_paths(tileset, Set::empty(), diagonals, initial@),
                build.cells() == Set::<Coordinate>::empty(),
                i <= initial@.len(),
                forall|k: int|
                    0 <= k < entries@.len() ==> (#[trigger] entries@[k]).1 < regions && (entries@[k].2 ==> best_of(
                        Tile::Core,
                        tileset.grid@,
                        build.cells(),
                        diagonals,
                        tileset.entrances_by_region@[entries@[k].1 as int]@,
                        Some(entries@[k].0),
                    )),
                i > 0 && initial@[0] is Some ==> entries@.len() > 0,
            decreases initial@.len() - i,
        {
            if let Some(p) = &initial[i] {
                let copy = p.clone_path();
                proof {
                    assert(best_of(
                        Tile::Core,
                        tileset.grid@,
                        Set::empty(),
                        diagonals,
                        tileset.entrances_by_region@[i as int]@,
                        initial@[i as int],
                    ));
                }
                entries.push((copy, i, true));
            }
            i += 1;
        }
        proof {
            if valid(tileset, Set::empty()) && regions > 0 {
                lemma_valid_region_has_path(tileset, Set::empty(), diagonals, 0, initial@[0]);
            }
        }
        let ghost mut witness = false;
        let ghost mut witness_region: int = 0;
        let ghost mut witness_path: ShortestPath = vstd::pervasive::arbitrary();
        let mut finished = false;
        let mut prune = true;
        let mut steps: u64 = 0;
        while !finished
            invariant
                tileset.wf(),
                regions == tileset.entrances_by_region@.len(),
                sound_build(tileset, max_blocks, &build),
                forall|k: int|
                    0 <= k < entries@.len() ==> (#[trigger] entries@[k]).1 < regions && (entries@[k].2 ==> best_of(
                        Tile::Core,
                        tileset.grid@,
                        build.cells(),
                        diagonals,
                        tileset.entrances_by_region@[entries@[k].1 as int]@,
                        Some(entries@[k].0),
                    )),
                witness ==> 0 <= witness_region < regions && best_of(
                    Tile::Core,
                    tileset.grid@,
                    build.cells(),
                    diagonals,
                    tileset.entrances_by_region@[witness_region]@,
                    Some(witness_path),
                ) && forall|k: int|
                    0 <= k < witness_path.route().len() ==> !#[trigger] placeable(
                        tileset,
                        build.cells(),
                        witness_path.route(),
                        k,
                    ),
                valid(tileset, Set::empty()) && regions > 0 && !witness && !finished ==> entries@.len() > 0,
                finished ==> !below_cap(max_blocks, &build) || witness || !(valid(tileset, Set::empty())
                    && regions > 0),
                !prune ==> steps == STEP_LIMIT,
                steps <= STEP_LIMIT,
            decreases (if prune { 1int } else { 0int }), STEP_LIMIT - steps, usize::MAX - build.blocks.len(),
                stale_count(entries@), entries@.len(), (if finished { 0int } else { 1int }),
        {
            if entries.len() == 0 {
                finished = true;
            } else if !below_cap_exec(max_blocks, build.blocks.len()) {
                finished = true;
            } else if prune && steps == STEP_LIMIT {
                prune = false;
            } else {
                if prune {
                    steps += 1;
                }
                let index = shortest_entry(&entries);
                let ghost before = entries@;
                let (path, region, fresh) = entries.remove(index);
                proof {
                    lemma_stale_remove(before, index as int);
                    assert(before[index as int] == (path, region, fresh));
                    assert(region < regions);
                    assert(fresh ==> best_of(
                        Tile::Core,
                        tileset.grid@,
                        build.cells(),
                        diagonals,
                        tileset.entrances_by_region@[region as int]@,
                        Some(path),
                    ));
                    assert forall|k: int| 0 <= k < entries@.len() implies (#[trigger] entries@[k]) == before[if k
                        < index {
                        k
                    } else {
                        k + 1
                    }] by {}
                }
                let crossing = crosses(path.coordinates(), &build.blocks);
                proof {
                    if fresh {
                        lemma_best_avoids(tileset, build.cells(), diagonals, region as int, path);
                        assert(!crossing);
                    }
                }
                if !fresh || crossing {
                    let found = ShortestPath::from_any_grid_coordinate_to_tile(
                        &tileset.grid,
                        Some(&build.blocks),
                        &tileset.entrances_by_region[region],
                        Tile::Core,
                        diagonals,
                    );
                    proof {
                        if valid(tileset, Set::empty()) {
                            lemma_valid_region_has_path(tileset, build.cells(), diagonals, region as int, found);
                        }
                    }
                    if let Some(p) = found {
                        let ghost prior = entries@;
                        entries.push((p, region, true));
                        proof {
                            lemma_stale_push(prior, (p, region, true));
                        }
                    }
                } else {
                    let coords = path.coordinates();
                    let placement = Self::find_valid_block_placement(tileset, &build.blocks, coords);
                    match placement {
                        Some(coord) => {
                            proof {
                                let k = choose|k: int|
                                    0 <= k < path.route().len() && path.route()[k] == coord && #[trigger] placeable(
                                        tileset,
                                        build.cells(),
                                        path.route(),
                                        k,
                                    );
                                assert(!build.cells().contains(path.route()[k]));
                            }
                            if prune {
                                build.place(tileset, coord, diagonals);
                            } else {
                                build.add(tileset, coord);
                            }
                            mark_stale(&mut entries, regions);
                            proof {
                                witness = false;
                            }
                            let found = ShortestPath::from_any_grid_coordinate_to_tile(
                                &tileset.grid,
                                Some(&build.blocks),
                                &tileset.entrances_by_region[region],
                                Tile::Core,
                                diagonals,
                            );
                            proof {
                                if valid(tileset, Set::empty()) {
                                    lemma_valid_region_has_path(tileset, build.cells(), diagonals, region as int, found);
                                }
                            }
                            if let Some(p) = found {
                                let ghost prior = entries@;
                                entries.push((p, region, true));
                                proof {
                                    lemma_stale_push(prior, (p, region, true));
                                }
                            }
                        },
                        None => {
                            proof {
                                assert(region < regions);
                                assert(best_of(
                                    Tile::Core,
                                    tileset.grid@,
                                    build.cells(),
                                    diagonals,
                                    tileset.entrances_by_region@[region as int]@,
                                    Some(path),
                                ));
                                assert(coords@ == path.route());
                                assert(build.blocks.members() == build.cells());
                                assert forall|k: int| 0 <= k < path.route().len() implies !#[trigger] placeable(
                                    tileset,
                                    build.cells(),
                                    path.route(),
                                    k,
                                ) by {
                                    assert(!placeable(tileset, build.blocks.members(), coords@, k));
                                }
                                witness = true;
                                witness_region = region as int;
                                witness_path = path;
                            }
                        },
                    }
                }
            }
        }
        build
    }
}

/// The number of entries whose path was found before the last change of the
/// build.
pub open spec fn stale_count(s: Seq<(ShortestPath, usize, bool)>) -> nat
    decreases s.len(),
{
    if s.len() == 0 {
        0
    } else {
        stale_count(s.drop_last()) + if s.last().2 {
            0nat
        } else {
            1nat
        }
    }
}

proof fn lemma_stale_remove(s: Seq<(ShortestPath, usize, bool)>, i: int)
    requires
        0 <= i < s.len(),
    ensures
        stale_count(s.remove(i)) + (if s[i].2 {
            0nat
        } else {
            1nat
        }) == stale_count(s),
    decreases s.len(),
{
    if i == s.len() - 1 {
        assert(s.remove(i) =~= s.drop_last());
    } else {
        assert(s.remove(i).drop_last() =~= s.drop_last().remove(i));
        assert(s.remove(i).last() == s.last());
        lemma_stale_remove(s.drop_last(), i);
    }
}

proof fn lemma_stale_push(s: Seq<(ShortestPath, usize, bool)>, e: (ShortestPath, usize, bool))
    ensures
        stale_count(s.push(e)) == stale_count(s) + (if e.2 {
            0nat
        } else {
            1nat
        }),
{
    assert(s.push(e).drop_last() =~= s);
}

/// Marks every entry as found before the build changed.
fn mark_stale(entries: &mut Vec<(ShortestPath, usize, bool)>, regions: usize)
    requires
        forall|k: int| 0 <= k < old(entries)@.len() ==> (#[trigger] old(entries)@[k]).1 < regions,
    ensures
        final(entries)@.len() == old(entries)@.len(),
        forall|k: int| 0 <= k < final(entries)@.len() ==> (#[trigger] final(entries)@[k]).1 < regions && !final(entries)@[k].2,
{
    let mut k: usize = 0;
    while k < entries.len()
        invariant
            k <= entries@.len(),
            entries@.len() == old(entries)@.len(),
            forall|m: int| 0 <= m < entries@.len() ==> (#[trigger] entries@[m]).1 < regions,
            forall|m: int| 0 <= m < k ==> !(#[trigger] entries@[m]).2,
        decreases entries@.len() - k,
    {
        entries[k].2 = false;
        k += 1;
    }
}

/// A path kept for a region avoids the blocks it was searched under.
proof fn lemma_best_avoids(tileset: &Tileset, cells: Set<Coordinate>, diagonals: bool, region: int, p: ShortestPath)
    requires
        best_of(Tile::Core, tileset.grid@, cells, diagonals, tileset.entrances_by_region@[region]@, Some(p)),
    ensures
        forall|k: int| 0 <= k < p.route().len() ==> !cells.contains(#[trigger] p.route()[k]),
{
    let starts = tileset.entrances_by_region@[region]@;
    let i = choose|i: int|
        0 <= i < starts.len() && p.offset() == Some(#[trigger] starts[i].1) && super::search::is_shortest_route(
            Target::Kind(Tile::Core),
            tileset.grid@,
            cells,
            diagonals,
            starts[i].0,
            p.route(),
        );
    lemma_route_avoids(Target::Kind(Tile::Core), tileset.grid@, cells, diagonals, starts[i].0, p.route());
}

/// In a valid tileset every spawn region has a shortest path, with or
/// without diagonal steps.
proof fn lemma_valid_region_has_path(
    tileset: &Tileset,
    cells: Set<Coordinate>,
    diagonals: bool,
    region: int,
    found: Option<ShortestPath>,
)
    requires
        valid(tileset, Set::empty()) ==> valid(tileset, cells),
        valid(tileset, Set::empty()),
        0 <= region < tileset.entrances_by_region@.len(),
        best_of(Tile::Core, tileset.grid@, cells, diagonals, tileset.entrances_by_region@[region]@, found),
    ensures
        found is Some,
{
    assert(region_reaches_core(tileset, cells, region));
    let (j, w) = choose|j: int, w: Seq<Coordinate>|
        0 <= j < tileset.entrances_by_region@[region]@.len() && #[trigger] is_route(
            Target::Kind(Tile::Core),
            tileset.grid@,
            cells,
            false,
            (#[trigger] tileset.entrances_by_region@[region]@[j]).0,
            w,
        );
    super::search::lemma_route_any_diagonals(
        Target::Kind(Tile::Core),
        tileset.grid@,
        cells,
        diagonals,
        tileset.entrances_by_region@[region]@[j].0,
        w,
    );
}

/// Two lists without repeats that hold one set are equally long.
proof fn lemma_cells_len(a: Seq<Coordinate>, b: Seq<Coordinate>)
    requires
        a.no_duplicates(),
        b.no_duplicates(),
        a.to_set().subset_of(b.to_set()),
    ensures
        a.len() <= b.len(),
{
    a.unique_seq_to_set();
    b.unique_seq_to_set();
    vstd::set_lib::lemma_len_subset(a.to_set(), b.to_set());
}

/// Taking the `i`th cell out of a list without repeats takes it out of its
/// set and keeps the rest.
proof fn lemma_remove_cells(s: Seq<Coordinate>, i: int)
    requires
        s.no_duplicates(),
        0 <= i < s.len(),
    ensures
        s.remove(i).to_set() == s.to_set().remove(s[i]),
        s.remove(i).no_duplicates(),
        forall|k: int| 0 <= k < s.remove(i).len() ==> s.contains(#[trigger] s.remove(i)[k]),
{
    let t = s.remove(i);
    assert forall|x: Coordinate| t.to_set().contains(x) <==> s.to_set().remove(s[i]).contains(x) by {
        if t.contains(x) {
            let k = choose|k: int| 0 <= k < t.len() && t[k] == x;
            if k < i {
                assert(s[k] == x);
            } else {
                assert(s[k + 1] == x);
            }
        }
        if s.contains(x) && x != s[i] {
            let k = choose|k: int| 0 <= k < s.len() && s[k] == x;
            if k < i {
                assert(t[k] == x);
            } else {
                assert(t[k - 1] == x);
            }
        }
    }
    assert(t.to_set() =~= s.to_set().remove(s[i]));
    assert forall|k: int| 0 <= k < t.len() implies s.contains(#[trigger] t[k]) by {
        if k < i {
            assert(s[k] == t[k]);
        } else {
            assert(s[k + 1] == t[k]);
        }
    }
}

/// With fewer cells read as blocks, a valid tileset stays valid.
pub proof fn lemma_valid_fewer_blocks(tileset: &Tileset, fewer: Set<Coordinate>, more: Set<Coordinate>)
    requires
        fewer.subset_of(more),
        valid(tileset, more),
    ensures
        valid(tileset, fewer),
{
    assert forall|i: int| 0 <= i < tileset.entrances_by_region@.len() implies #[trigger] region_reaches_core(
        tileset,
        fewer,
        i,
    ) by {
        assert(region_reaches_core(tileset, more, i));
        let (j, w) = choose|j: int, w: Seq<Coordinate>|
            0 <= j < tileset.entrances_by_region@[i]@.len() && #[trigger] is_route(
                Target::Kind(Tile::Core),
                tileset.grid@,
                more,
                false,
                (#[trigger] tileset.entrances_by_region@[i]@[j]).0,
                w,
            );
        lemma_route_fewer_blocks(
            Target::Kind(Tile::Core),
            tileset.grid@,
            fewer,
            more,
            false,
            tileset.entrances_by_region@[i]@[j].0,
            w,
        );
    }
}

/// Applying a build to a grid twice gives the grid that applying it once
/// gives.
pub proof fn lemma_apply_idempotent(grid: Seq<Seq<Tile>>, blocks: Set<Coordinate>)
    ensures
        applied(applied(grid, blocks), blocks) == applied(grid, blocks),
{
    let once = applied(grid, blocks);
    let twice = applied(once, blocks);
    assert forall|y: int| 0 <= y < twice.len() implies #[trigger] twice[y] =~= once[y] by {}
    assert(twice =~= once);
}

} // verus!
