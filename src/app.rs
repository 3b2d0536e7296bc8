use vstd::prelude::*;

use crate::map::blocks::{applied, region_reaches_core, rows, sound_build, valid};
use crate::map::coordinate::tile_with;
use crate::map::search::{is_route, lemma_routes_materialized, materialized, Target};
use crate::map::shortest_path::{best_of, lemma_best_of_materialized};
use crate::map::{Coordinate, Tile};
use crate::map::search::lemma_cell_count;
use crate::map::shortest_path::region_paths;
use crate::map::tileset::{entrances_of, sized};
use crate::map::{Build, MapDocument, ShortestPath, Tileset};

verus! {

/// How a map is solved.
pub struct App {
    /// The most blocks to place, if any.
    pub blocks: Option<usize>,
    /// Allow diagonal movement when calculating shortest paths.
    pub diagonals: bool,
    /// Prioritize the spawn regions with shorter paths to the core.
    pub prioritize: bool,
}

/// `lengths` gives the length of each of `paths`, or nothing where there is
/// no path.
pub open spec fn lengths_of(lengths: Seq<Option<usize>>, paths: Seq<Option<ShortestPath>>) -> bool {
    &&& lengths.len() == paths.len()
    &&& forall|i: int|
        0 <= i < paths.len() ==> match #[trigger] paths[i] {
            Some(p) => lengths[i] == Some(p.spec_len() as usize) && p.spec_len() <= usize::MAX,
            None => lengths[i] is None,
        }
}

/// `tileset` with its grid replaced by `grid`.
pub open spec fn emitted(tileset: Tileset, grid: Vec<Vec<crate::map::Tile>>) -> Tileset {
    Tileset { grid, entrances_by_region: tileset.entrances_by_region }
}

/// The emitted grid, with the blocks written in, answers every search as the
/// input grid read through the blocks does.
proof fn lemma_emitted(tileset: Tileset, cells: Set<Coordinate>, grid: Vec<Vec<crate::map::Tile>>, diagonals: bool)
    requires
        rows(grid@) == applied(rows(tileset.grid@), cells),
    ensures
        valid(&tileset, cells) == valid(&emitted(tileset, grid), Set::empty()),
        forall|paths: Seq<Option<ShortestPath>>|
            region_paths(&tileset, cells, diagonals, paths) ==> #[trigger] region_paths(
                &emitted(tileset, grid),
                Set::empty(),
                diagonals,
                paths,
            ),
{
    let g = tileset.grid@;
    let e = emitted(tileset, grid);
    assert(grid@.len() == g.len()) by {
        assert(rows(grid@).len() == rows(g).len());
    }
    assert forall|y: int| 0 <= y < g.len() implies #[trigger] grid@[y]@.len() == g[y]@.len() by {
        assert(rows(grid@)[y] == grid@[y]@);
        assert(rows(g)[y] == g[y]@);
    }
    assert forall|c: Coordinate| c.within(g) implies #[trigger] c.at(grid@) == tile_with(g, cells, c) by {
        assert(rows(grid@)[c.1 as int] == grid@[c.1 as int]@);
        assert(rows(g)[c.1 as int] == g[c.1 as int]@);
        assert(Coordinate(c.0 as int as usize, c.1 as int as usize) == c);
    }
    assert(materialized(g, cells, grid@));
    assert forall|i: int| 0 <= i < tileset.entrances_by_region@.len() implies #[trigger] region_reaches_core(
        &tileset,
        cells,
        i,
    ) == region_reaches_core(&e, Set::empty(), i) by {
        assert forall|s: Coordinate, w: Seq<Coordinate>|
            #[trigger] is_route(Target::Kind(Tile::Core), g, cells, false, s, w) == is_route(
                Target::Kind(Tile::Core),
                grid@,
                Set::empty(),
                false,
                s,
                w,
            ) by {
            lemma_routes_materialized(Target::Kind(Tile::Core), g, cells, grid@, false, s, w);
        }
        assert forall|s: Coordinate, w: Seq<Coordinate>|
            #[trigger] is_route(Target::Kind(Tile::Core), grid@, Set::empty(), false, s, w) == is_route(
                Target::Kind(Tile::Core),
                g,
                cells,
                false,
                s,
                w,
            ) by {
            lemma_routes_materialized(Target::Kind(Tile::Core), g, cells, grid@, false, s, w);
        }
        let ent = tileset.entrances_by_region@[i]@;
        assert(e.entrances_by_region@[i]@ == ent);
        assert(e.grid@ == grid@);
        if region_reaches_core(&tileset, cells, i) {
            let (j, w) = choose|j: int, w: Seq<Coordinate>|
                0 <= j < ent.len() && #[trigger] is_route(
                    Target::Kind(Tile::Core),
                    g,
                    cells,
                    false,
                    (#[trigger] tileset.entrances_by_region@[i]@[j]).0,
                    w,
                );
            assert(is_route(Target::Kind(Tile::Core), e.grid@, Set::empty(), false, e.entrances_by_region@[i]@[j].0, w));
        }
        if region_reaches_core(&e, Set::empty(), i) {
            let (j, w) = choose|j: int, w: Seq<Coordinate>|
                0 <= j < ent.len() && #[trigger] is_route(
                    Target::Kind(Tile::Core),
                    e.grid@,
                    Set::empty(),
                    false,
                    (#[trigger] e.entrances_by_region@[i]@[j]).0,
                    w,
                );
            assert(is_route(Target::Kind(Tile::Core), g, cells, false, tileset.entrances_by_region@[i]@[j].0, w));
        }
    }
    assert(e.entrances_by_region@.len() == tileset.entrances_by_region@.len());
    if valid(&tileset, cells) {
        assert forall|i: int| 0 <= i < e.entrances_by_region@.len() implies #[trigger] region_reaches_core(
            &e,
            Set::empty(),
            i,
        ) by {
            assert(region_reaches_core(&tileset, cells, i));
        }
    }
    if valid(&e, Set::empty()) {
        assert forall|i: int| 0 <= i < tileset.entrances_by_region@.len() implies #[trigger] region_reaches_core(
            &tileset,
            cells,
            i,
        ) by {
            assert(region_reaches_core(&e, Set::empty(), i));
        }
    }
    assert forall|paths: Seq<Option<ShortestPath>>|
        region_paths(&tileset, cells, diagonals, paths) implies #[trigger] region_paths(
            &e,
            Set::empty(),
            diagonals,
            paths,
        ) by {
        assert forall|i: int| 0 <= i < paths.len() implies best_of(
            Tile::Core,
            grid@,
            Set::empty(),
            diagonals,
            e.entrances_by_region@[i]@,
            #[trigger] paths[i],
        ) by {
            assert(best_of(Tile::Core, g, cells, diagonals, tileset.entrances_by_region@[i]@, paths[i]));
            lemma_best_of_materialized(g, cells, grid@, diagonals, tileset.entrances_by_region@[i]@, paths[i]);
        }
    }
}

impl App {
    /// `after` is `before` solved: blocks that a strategy run placed on its
    /// tileset stand on the grid, and each spawn region's shortest path
    /// length under them is recorded, no shorter than it was with no blocks.
    pub open spec fn solved(&self, before: MapDocument, after: MapDocument) -> bool {
        exists|tileset: Tileset, build: Build, paths: Seq<Option<ShortestPath>>|
            #[trigger] region_paths(&tileset, build.cells(), self.diagonals, paths) && tileset.grid@
                == before.grid@ && entrances_of(before.grid@, tileset.entrances_by_region@) && sound_build(
                &tileset,
                self.blocks,
                &build,
            ) && rows(after.grid@) == applied(rows(before.grid@), build.cells()) && after.name
                == before.name && after.shortest_path_length is Some && lengths_of(
                after.shortest_path_length->0@,
                paths,
            ) && (valid(&tileset, Set::empty()) ==> valid(&emitted(tileset, after.grid), Set::empty()))
                && region_paths(&emitted(tileset, after.grid), Set::empty(), self.diagonals, paths)
                && forall|initial: Seq<Option<ShortestPath>>, i: int|
                #![trigger region_paths(&tileset, Set::empty(), self.diagonals, initial), initial[i]]
                region_paths(&tileset, Set::empty(), self.diagonals, initial) && 0 <= i < paths.len()
                    && paths[i] is Some ==> initial[i] is Some && initial[i]->0.spec_len() <= paths[i]->0.spec_len()
    }

    /// Solve `map`: place blocks with the chosen strategy, record each spawn
    /// region's final shortest path length, and turn the blocks into tiles.
    pub fn solve(&self, map: MapDocument) -> (r: MapDocument)
        requires
            sized(map.grid@),
        ensures
            self.solved(map, r),
    {
        let ghost before = map;
        let tileset = Tileset::new(map.grid);
        let build = if self.prioritize {
            Build::from_entrances_to_any_core_with_priority(&tileset, self.diagonals, self.blocks)
        } else {
            Build::from_entrances_to_any_core(&tileset, self.diagonals, self.blocks)
        };
        let paths = ShortestPath::from_entrances_to_any_core(&tileset, Some(&build.blocks), self.diagonals);
        let mut lengths: Vec<Option<usize>> = Vec::new();
        let mut i: usize = 0;
        while i < paths.len()
            invariant
                tileset.wf(),
                region_paths(&tileset, build.cells(), self.diagonals, paths@),
                i <= paths@.len(),
                lengths_of(lengths@, paths@.subrange(0, i as int)),
            decreases paths@.len() - i,
        {
            let ghost done = paths@.subrange(0, i as int);
            let ghost next = paths@.subrange(0, i + 1);
            match &paths[i] {
                Some(p) => {
                    proof {
                        let g = tileset.grid@;
                        let entrances = tileset.entrances_by_region@[i as int]@;
                        let k = choose|k: int|
                            0 <= k < entrances.len() && p.offset() == Some(#[trigger] entrances[k].1)
                                && crate::map::search::is_shortest_route(
                                crate::map::search::Target::Kind(crate::map::Tile::Core),
                                g,
                                build.cells(),
                                self.diagonals,
                                entrances[k].0,
                                p.route(),
                            );
                        assert(entrances[k].0.within(g));
                        lemma_cell_count(g);
                        assert(entrances[k].1 <= g.len() + g[0]@.len());
                    }
                    lengths.push(Some(p.len()));
                },
                None => lengths.push(None),
            }
            proof {
                assert forall|k: int| 0 <= k < i + 1 implies match #[trigger] next[k] {
                    Some(p) => lengths@[k] == Some(p.spec_len() as usize) && p.spec_len() <= usize::MAX,
                    None => lengths@[k] is None,
                } by {
                    if k < i {
                        assert(next[k] == done[k]);
                    }
                }
            }
            i += 1;
        }
        assert(paths@.subrange(0, paths@.len() as int) =~= paths@);
        let ghost final_tileset = tileset;
        let mut grid = tileset.grid;
        proof {
            assert forall|k: int| 0 <= k < build.blocks@.len() implies (#[trigger] build.blocks@[k]).within(grid@) by {
                assert(build.blocks@[k].at(final_tileset.grid@) == Some(crate::map::Tile::Empty));
            }
        }
        build.apply_to(&mut grid);
        let r = MapDocument { name: map.name, grid, shortest_path_length: Some(lengths) };
        proof {
            assert(region_paths(&final_tileset, build.cells(), self.diagonals, paths@));
            lemma_emitted(final_tileset, build.cells(), r.grid, self.diagonals);
            assert forall|initial: Seq<Option<ShortestPath>>, i: int|
                #![trigger region_paths(&final_tileset, Set::empty(), self.diagonals, initial), initial[i]]
                region_paths(&final_tileset, Set::empty(), self.diagonals, initial) && 0 <= i < paths@.len()
                    && paths@[i] is Some implies initial[i] is Some && initial[i]->0.spec_len()
                    <= paths@[i]->0.spec_len() by {
                crate::map::shortest_path::lemma_paths_never_shorten(
                    final_tileset.grid@,
                    Set::empty(),
                    build.cells(),
                    self.diagonals,
                    final_tileset.entrances_by_region@[i]@,
                    initial[i],
                    paths@[i],
                );
            }
        }
        r
    }
}

} // verus!
