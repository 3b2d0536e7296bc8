use vstd::prelude::*;

use super::search::{
    cell_count, is_route, is_shortest_route, lemma_route_fewer_blocks, materialize, materialized, search,
    Target,
};
use super::tileset::{precedes, Tileset};
use super::{Coordinate, Tile};
use crate::container::{overlay_of, Container};

verus! {

/// A shortest walk from a start cell to the nearest cell of some tile kind,
/// with a distance that the walk is counted to start at.
pub struct ShortestPath {
    path: Vec<Coordinate>,
    start_distance: Option<usize>,
}

/// The walk from a start that a search from several starts keeps: the one
/// whose length counted from its start's distance is least, from the first
/// start that gives that length.
pub open spec fn best_of(
    end_tile: Tile,
    grid: Seq<Vec<Tile>>,
    overlay: Set<Coordinate>,
    diagonals: bool,
    starts: Seq<(Coordinate, usize)>,
    r: Option<ShortestPath>,
) -> bool {
    match r {
        Some(p) => {
            &&& p.route().len() <= cell_count(grid)
            &&& exists|i: int|
                0 <= i < starts.len() && p.offset() == Some(#[trigger] starts[i].1)
                    && is_shortest_route(
                    Target::Kind(end_tile),
                    grid,
                    overlay,
                    diagonals,
                    starts[i].0,
                    p.route(),
                ) && forall|j: int, w: Seq<Coordinate>|
                    0 <= j < i && #[trigger] is_route(
                        Target::Kind(end_tile),
                        grid,
                        overlay,
                        diagonals,
                        starts[j].0,
                        w,
                    ) ==> p.spec_len() < w.len() + starts[j].1
            &&& forall|i: int, w: Seq<Coordinate>|
                0 <= i < starts.len() && #[trigger] is_route(
                    Target::Kind(end_tile),
                    grid,
                    overlay,
                    diagonals,
                    starts[i].0,
                    w,
                ) ==> p.spec_len() <= w.len() + starts[i].1
        },
        None => forall|i: int, w: Seq<Coordinate>|
            0 <= i < starts.len() ==> !#[trigger] is_route(
                Target::Kind(end_tile),
                grid,
                overlay,
                diagonals,
                starts[i].0,
                w,
            ),
    }
}

/// The cells of `a` come before those of `b`: at the first place where they
/// differ, `a`'s cell comes first in coordinate order, or `a` is a proper
/// prefix of `b`.
pub open spec fn cells_precede(a: Seq<Coordinate>, b: Seq<Coordinate>) -> bool
    decreases a.len(),
{
    if a.len() == 0 {
        b.len() > 0
    } else if b.len() == 0 {
        false
    } else if a[0] != b[0] {
        precedes(a[0], b[0])
    } else {
        cells_precede(a.drop_first(), b.drop_first())
    }
}

/// No start distance comes before any start distance, and smaller before larger.
pub open spec fn offset_precedes(a: Option<usize>, b: Option<usize>) -> bool {
    match (a, b) {
        (None, Some(_)) => true,
        (Some(x), Some(y)) => x < y,
        _ => false,
    }
}

proof fn lemma_cells_precede_transitive(a: Seq<Coordinate>, b: Seq<Coordinate>, c: Seq<Coordinate>)
    requires
        cells_precede(a, b),
        cells_precede(b, c),
    ensures
        cells_precede(a, c),
    decreases a.len(),
{
    if a.len() > 0 && b.len() > 0 && c.len() > 0 && a[0] == b[0] && b[0] == c[0] {
        lemma_cells_precede_transitive(a.drop_first(), b.drop_first(), c.drop_first());
    }
}

proof fn lemma_cells_precede_irreflexive(a: Seq<Coordinate>)
    ensures
        !cells_precede(a, a),
    decreases a.len(),
{
    if a.len() > 0 {
        lemma_cells_precede_irreflexive(a.drop_first());
    }
}

impl ShortestPath {
    #[verifier::type_invariant]
    spec fn inv(self) -> bool {
        self.path@.len() > 0
    }

    /// The cells of the walk, both ends included.
    pub closed spec fn route(self) -> Seq<Coordinate> {
        self.path@
    }

    /// The distance that the walk is counted to start at.
    pub closed spec fn offset(self) -> Option<usize> {
        self.start_distance
    }

    /// The length of the walk counted from its start distance.
    pub open spec fn spec_len(self) -> nat {
        self.route().len() + match self.offset() {
            Some(d) => d as nat,
            None => 0nat,
        }
    }

    /// This path comes before `other`: it is shorter, or as long with cells
    /// that come first, or the same cells from an earlier start distance.
    pub open spec fn ranks_before(self, other: Self) -> bool {
        ||| self.spec_len() < other.spec_len()
        ||| self.spec_len() == other.spec_len() && cells_precede(self.route(), other.route())
        ||| self.spec_len() == other.spec_len() && self.route() == other.route() && offset_precedes(
            self.offset(),
            other.offset(),
        )
    }

    /// The order of paths: [`ShortestPath::ranks_before`], and equal where the
    /// cells and start distance are equal.
    pub open spec fn order(self, other: Self) -> std::cmp::Ordering {
        if self.ranks_before(other) {
            std::cmp::Ordering::Less
        } else if self.route() == other.route() && self.offset() == other.offset() {
            std::cmp::Ordering::Equal
        } else {
            std::cmp::Ordering::Greater
        }
    }

    /// Compare two paths in the order of [`ShortestPath::order`].
    pub fn compare(&self, other: &Self) -> (r: std::cmp::Ordering)
        ensures
            r == self.order(*other),
    {
        let a = self.wide_len();
        let b = other.wide_len();
        if a < b {
            return std::cmp::Ordering::Less;
        }
        if a > b {
            return std::cmp::Ordering::Greater;
        }
        if cells_before(&self.path, &other.path) {
            return std::cmp::Ordering::Less;
        }
        let same_cells = self.path_equals(other);
        if same_cells {
            let earlier = match (self.start_distance, other.start_distance) {
                (None, Some(_)) => true,
                (Some(x), Some(y)) => x < y,
                _ => false,
            };
            if earlier {
                return std::cmp::Ordering::Less;
            }
            if self.start_distance == other.start_distance {
                return std::cmp::Ordering::Equal;
            }
        }
        std::cmp::Ordering::Greater
    }

    /// Whether both paths hold the same cells.
    fn path_equals(&self, other: &Self) -> (r: bool)
        ensures
            r == (self.route() == other.route()),
    {
        if self.path.len() != other.path.len() {
            return false;
        }
        let mut i: usize = 0;
        while i < self.path.len()
            invariant
                i <= self.path@.len(),
                self.path@.len() == other.path@.len(),
                forall|j: int| 0 <= j < i ==> self.path@[j] == other.path@[j],
            decreases self.path@.len() - i,
        {
            if self.path[i] != other.path[i] {
                return false;
            }
            i += 1;
        }
        assert(self.path@ =~= other.path@);
        true
    }

    /// Return the cell which this path navigates to.
    pub fn core_cell(&self) -> (r: Coordinate)
        ensures
            self.route().len() > 0,
            r == self.route().last(),
    {
        proof {
            use_type_invariant(self);
        }
        self.path[self.path.len() - 1]
    }

    /// A copy of this path.
    pub fn clone_path(&self) -> (r: Self)
        ensures
            r.route() == self.route(),
            r.offset() == self.offset(),
    {
        proof {
            use_type_invariant(self);
        }
        let mut path: Vec<Coordinate> = Vec::new();
        let mut i: usize = 0;
        while i < self.path.len()
            invariant
                i <= self.path@.len(),
                path@ =~= self.path@.subrange(0, i as int),
            decreases self.path@.len() - i,
        {
            path.push(self.path[i]);
            i += 1;
        }
        assert(path@ =~= self.path@);
        ShortestPath { path, start_distance: self.start_distance }
    }

    /// The cells of the path, both ends included.
    pub fn coordinates(&self) -> (r: &Vec<Coordinate>)
        ensures
            r@ == self.route(),
    {
        &self.path
    }

    /// The distance that the path is counted to start at.
    pub fn start_distance(&self) -> (r: Option<usize>)
        ensures
            r == self.offset(),
    {
        self.start_distance
    }

    /// The length of the path: its number of cells plus its start distance.
    pub fn len(&self) -> (r: usize)
        requires
            self.spec_len() <= usize::MAX,
        ensures
            r == self.spec_len(),
    {
        let d = match self.start_distance {
            Some(d) => d,
            None => 0,
        };
        self.path.len() + d
    }

    /// The length of the path, wide enough that it cannot overflow.
    pub(crate) fn wide_len(&self) -> (r: u128)
        ensures
            r == self.spec_len(),
    {
        let d: u128 = match self.start_distance {
            Some(d) => d as u128,
            None => 0,
        };
        self.path.len() as u128 + d
    }

    /// Returns the shorter path; if both are equally long, this one.
    fn return_shorter(self, other: Self) -> (r: Self)
        ensures
            r == (if self.spec_len() > other.spec_len() {
                other
            } else {
                self
            }),
    {
        if self.wide_len() > other.wide_len() {
            return other;
        }
        self
    }

    /// Whether both paths hold the same cells and the same start distance.
    pub fn same_as(&self, other: &Self) -> (r: bool)
        ensures
            r == (self.route() == other.route() && self.offset() == other.offset()),
    {
        self.start_distance == other.start_distance && self.path_equals(other)
    }

    /// The shortest path from `start` to the nearest cell holding `end_point`,
    /// on `grid` with the cells of `build` read as blocks.
    ///
    /// Nothing is returned when `start` cannot be walked over or no cell of
    /// `end_point` can be reached from it.
    pub fn from_grid_coordinate_to_tile<C: Container<Coordinate>>(
        grid: &Vec<Vec<Tile>>,
        build: Option<&C>,
        start: Coordinate,
        start_distance: Option<usize>,
        end_point: Tile,
        diagonals: bool,
    ) -> (r: Option<Self>)
        ensures
            match r {
                Some(p) => p.offset() == start_distance && p.route().len() <= cell_count(grid@) && is_shortest_route(
                    Target::Kind(end_point),
                    grid@,
                    overlay_of(build),
                    diagonals,
                    start,
                    p.route(),
                ),
                None => forall|w: Seq<Coordinate>|
                    !#[trigger] is_route(
                        Target::Kind(end_point),
                        grid@,
                        overlay_of(build),
                        diagonals,
                        start,
                        w,
                    ),
            },
    {
        let plain = materialize(grid, build);
        Self::search_plain(
            Ghost(grid@),
            Ghost(overlay_of(build)),
            &plain,
            start,
            start_distance,
            end_point,
            diagonals,
        )
    }

    fn search_plain(
        grid: Ghost<Seq<Vec<Tile>>>,
        overlay: Ghost<Set<Coordinate>>,
        plain: &Vec<Vec<Tile>>,
        start: Coordinate,
        start_distance: Option<usize>,
        end_point: Tile,
        diagonals: bool,
    ) -> (r: Option<Self>)
        requires
            materialized(grid@, overlay@, plain@),
        ensures
            match r {
                Some(p) => p.offset() == start_distance && p.route().len() <= cell_count(grid@) && is_shortest_route(
                    Target::Kind(end_point),
                    grid@,
                    overlay@,
                    diagonals,
                    start,
                    p.route(),
                ),
                None => forall|w: Seq<Coordinate>|
                    !#[trigger] is_route(
                        Target::Kind(end_point),
                        grid@,
                        overlay@,
                        diagonals,
                        start,
                        w,
                    ),
            },
    {
        if !(start.1 < plain.len() && start.0 < plain[start.1].len()) {
            proof {
                assert(plain@[start.1 as int]@.len() == grid@[start.1 as int]@.len() || start.1
                    >= plain@.len());
            }
            return None;
        }
        proof {
            assert(plain@[start.1 as int]@.len() == grid@[start.1 as int]@.len());
        }
        let target = Target::Kind(end_point);
        match search(grid, overlay, plain, start, &target, diagonals) {
            Some(path) => Some(ShortestPath { path, start_distance }),
            None => None,
        }
    }

    fn any_plain(
        grid: Ghost<Seq<Vec<Tile>>>,
        overlay: Ghost<Set<Coordinate>>,
        plain: &Vec<Vec<Tile>>,
        start_points: &Vec<(Coordinate, usize)>,
        end_tile: Tile,
        diagonals: bool,
    ) -> (r: Option<Self>)
        requires
            materialized(grid@, overlay@, plain@),
        ensures
            best_of(end_tile, grid@, overlay@, diagonals, start_points@, r),
    {
        let mut best: Option<Self> = None;
        let mut i: usize = 0;
        while i < start_points.len()
            invariant
                materialized(grid@, overlay@, plain@),
                i <= start_points@.len(),
                best_of(end_tile, grid@, overlay@, diagonals, start_points@.subrange(0, i as int), best),
            decreases start_points@.len() - i,
        {
            let (coord, distance) = start_points[i];
            let found = Self::search_plain(
                grid,
                overlay,
                plain,
                coord,
                Some(distance),
                end_tile,
                diagonals,
            );
            let ghost done = start_points@.subrange(0, i as int);
            let ghost next = start_points@.subrange(0, i + 1);
            assert(next =~= done.push((coord, distance)));
            best = match best {
                None => found,
                Some(b) => match found {
                    None => Some(b),
                    Some(f) => Some(b.return_shorter(f)),
                },
            };
            proof {
                assert(next[i as int] == (coord, distance));
                assert forall|k: int| 0 <= k < i implies next[k] == done[k] by {}
            }
            i += 1;
        }
        assert(start_points@.subrange(0, start_points@.len() as int) =~= start_points@);
        best
    }

    /// The shortest of the paths from each of `start_points` to the nearest
    /// cell holding `end_tile`, each counted from its start's distance; on
    /// equal lengths, the earlier start's path.
    pub fn from_any_grid_coordinate_to_tile<C: Container<Coordinate>>(
        grid: &Vec<Vec<Tile>>,
        build: Option<&C>,
        start_points: &Vec<(Coordinate, usize)>,
        end_tile: Tile,
        diagonals: bool,
    ) -> (r: Option<Self>)
        ensures
            best_of(end_tile, grid@, overlay_of(build), diagonals, start_points@, r),
    {
        let plain = materialize(grid, build);
        Self::any_plain(
            Ghost(grid@),
            Ghost(overlay_of(build)),
            &plain,
            start_points,
            end_tile,
            diagonals,
        )
    }

    /// The shortest path of each spawn region of `tileset`, from any of its
    /// entrances to the nearest core, with the cells of `build` read as
    /// blocks; nothing for a region from which no core can be reached.
    pub fn from_entrances_to_any_core<C: Container<Coordinate>>(
        tileset: &Tileset,
        build: Option<&C>,
        diagonals: bool,
    ) -> (r: Vec<Option<Self>>)
        ensures
            region_paths(tileset, overlay_of(build), diagonals, r@),
    {
        let plain = materialize(&tileset.grid, build);
        let mut r: Vec<Option<Self>> = Vec::new();
        let mut i: usize = 0;
        while i < tileset.entrances_by_region.len()
            invariant
                materialized(tileset.grid@, overlay_of(build), plain@),
                i <= tileset.entrances_by_region@.len(),
                r@.len() == i,
                forall|k: int|
                    0 <= k < i ==> best_of(
                        Tile::Core,
                        tileset.grid@,
                        overlay_of(build),
                        diagonals,
                        tileset.entrances_by_region@[k]@,
                        #[trigger] r@[k],
                    ),
            decreases tileset.entrances_by_region@.len() - i,
        {
            let found = Self::any_plain(
                Ghost(tileset.grid@),
                Ghost(overlay_of(build)),
                &plain,
                &tileset.entrances_by_region[i],
                Tile::Core,
                diagonals,
            );
            r.push(found);
            i += 1;
        }
        r
    }
}

/// Ranking is a strict order.
pub proof fn lemma_ranks_before_order(a: ShortestPath, b: ShortestPath, c: ShortestPath)
    ensures
        !a.ranks_before(a),
        a.ranks_before(b) && b.ranks_before(c) ==> a.ranks_before(c),
{
    lemma_cells_precede_irreflexive(a.route());
    if a.ranks_before(b) && b.ranks_before(c) && a.spec_len() == b.spec_len() && b.spec_len() == c.spec_len() {
        if cells_precede(a.route(), b.route()) && cells_precede(b.route(), c.route()) {
            lemma_cells_precede_transitive(a.route(), b.route(), c.route());
        }
    }
}

impl PartialEq for ShortestPath {
    fn eq(&self, other: &Self) -> bool {
        self.same_as(other)
    }
}

impl vstd::std_specs::cmp::PartialEqSpecImpl for ShortestPath {
    open spec fn obeys_eq_spec() -> bool {
        true
    }

    open spec fn eq_spec(&self, other: &ShortestPath) -> bool {
        self.route() == other.route() && self.offset() == other.offset()
    }
}

impl PartialOrd for ShortestPath {
    fn partial_cmp(&self, other: &Self) -> Option<std::cmp::Ordering> {
        Some(self.compare(other))
    }
}

impl vstd::std_specs::cmp::PartialOrdSpecImpl for ShortestPath {
    open spec fn obeys_partial_cmp_spec() -> bool {
        true
    }

    open spec fn partial_cmp_spec(&self, other: &ShortestPath) -> Option<std::cmp::Ordering> {
        Some(self.order(*other))
    }
}

/// Whether the cells of `a` come before those of `b` in the order of
/// [`cells_precede`].
fn cells_before(a: &Vec<Coordinate>, b: &Vec<Coordinate>) -> (r: bool)
    ensures
        r == cells_precede(a@, b@),
{
    let mut i: usize = 0;
    proof {
        assert(a@.subrange(0, a@.len() as int) =~= a@);
        assert(b@.subrange(0, b@.len() as int) =~= b@);
    }
    while i < a.len() && i < b.len() && a[i] == b[i]
        invariant
            i <= a@.len(),
            i <= b@.len(),
            cells_precede(a@, b@) == cells_precede(a@.subrange(i as int, a@.len() as int), b@.subrange(i as int, b@.len() as int)),
        decreases a@.len() - i,
    {
        proof {
            let sa = a@.subrange(i as int, a@.len() as int);
            let sb = b@.subrange(i as int, b@.len() as int);
            assert(sa.drop_first() =~= a@.subrange(i + 1, a@.len() as int));
            assert(sb.drop_first() =~= b@.subrange(i + 1, b@.len() as int));
        }
        i += 1;
    }
    proof {
        let sa = a@.subrange(i as int, a@.len() as int);
        let sb = b@.subrange(i as int, b@.len() as int);
        if i < a@.len() && i < b@.len() {
            assert(sa[0] == a@[i as int] && sb[0] == b@[i as int]);
        }
    }
    if i < a.len() && i < b.len() {
        let (x, y) = (a[i], b[i]);
        return x.0 < y.0 || (x.0 == y.0 && x.1 < y.1);
    }
    i == a.len() && i < b.len()
}

/// `paths` holds, for each spawn region of `tileset`, the result of a search
/// from its entrances to the nearest core.
pub open spec fn region_paths(
    tileset: &Tileset,
    overlay: Set<Coordinate>,
    diagonals: bool,
    paths: Seq<Option<ShortestPath>>,
) -> bool {
    &&& paths.len() == tileset.entrances_by_region@.len()
    &&& forall|i: int|
        0 <= i < paths.len() ==> best_of(
            Tile::Core,
            tileset.grid@,
            overlay,
            diagonals,
            tileset.entrances_by_region@[i]@,
            #[trigger] paths[i],
        )
}

/// Both are absent, or both are paths with the same cells and start distance.
pub open spec fn same_path(a: Option<ShortestPath>, b: Option<ShortestPath>) -> bool {
    match (a, b) {
        (None, None) => true,
        (Some(p), Some(q)) => p.route() == q.route() && p.offset() == q.offset(),
        _ => false,
    }
}

/// Whether two lists of paths agree entry by entry.
pub fn same_paths(a: &Vec<Option<ShortestPath>>, b: &Vec<Option<ShortestPath>>) -> (r: bool)
    ensures
        r == (a@.len() == b@.len() && forall|i: int| 0 <= i < a@.len() ==> #[trigger] same_path(a@[i], b@[i])),
{
    if a.len() != b.len() {
        return false;
    }
    let mut i: usize = 0;
    while i < a.len()
        invariant
            a@.len() == b@.len(),
            i <= a@.len(),
            forall|k: int| 0 <= k < i ==> #[trigger] same_path(a@[k], b@[k]),
        decreases a@.len() - i,
    {
        let same = match (&a[i], &b[i]) {
            (None, None) => true,
            (Some(p), Some(q)) => p.same_as(q),
            _ => false,
        };
        if !same {
            assert(!same_path(a@[i as int], b@[i as int]));
            return false;
        }
        i += 1;
    }
    true
}

/// Blocks never shorten a path: with more cells read as blocks, a spawn
/// region that still has a shortest path had one before, no longer than it.
pub proof fn lemma_paths_never_shorten(
    grid: Seq<Vec<Tile>>,
    fewer: Set<Coordinate>,
    more: Set<Coordinate>,
    diagonals: bool,
    starts: Seq<(Coordinate, usize)>,
    before: Option<ShortestPath>,
    after: Option<ShortestPath>,
)
    requires
        fewer.subset_of(more),
        best_of(Tile::Core, grid, fewer, diagonals, starts, before),
        best_of(Tile::Core, grid, more, diagonals, starts, after),
    ensures
        after is Some ==> before is Some && before->0.spec_len() <= after->0.spec_len(),
{
    if let Some(p) = after {
        let i = choose|i: int|
            0 <= i < starts.len() && p.offset() == Some(#[trigger] starts[i].1) && is_shortest_route(
                Target::Kind(Tile::Core),
                grid,
                more,
                diagonals,
                starts[i].0,
                p.route(),
            );
        lemma_route_fewer_blocks(Target::Kind(Tile::Core), grid, fewer, more, diagonals, starts[i].0, p.route());
        assert(is_route(Target::Kind(Tile::Core), grid, fewer, diagonals, starts[i].0, p.route()));
    }
}

proof fn lemma_cell_count_shape(a: Seq<Vec<Tile>>, b: Seq<Vec<Tile>>)
    requires
        a.len() == b.len(),
        forall|y: int| 0 <= y < a.len() ==> #[trigger] b[y]@.len() == a[y]@.len(),
    ensures
        cell_count(a) == cell_count(b),
    decreases a.len(),
{
    if a.len() > 0 {
        assert(b.last()@.len() == a.last()@.len()) by {
            assert(b[b.len() - 1]@.len() == a[a.len() - 1]@.len());
        }
        lemma_cell_count_shape(a.drop_last(), b.drop_last());
    }
}

/// A search over a grid read through an overlay gives what a search over the
/// grid that holds the overlay applied gives.
pub proof fn lemma_best_of_materialized(
    grid: Seq<Vec<Tile>>,
    overlay: Set<Coordinate>,
    plain: Seq<Vec<Tile>>,
    diagonals: bool,
    starts: Seq<(Coordinate, usize)>,
    r: Option<ShortestPath>,
)
    requires
        materialized(grid, overlay, plain),
    ensures
        best_of(Tile::Core, grid, overlay, diagonals, starts, r) == best_of(
            Tile::Core,
            plain,
            Set::empty(),
            diagonals,
            starts,
            r,
        ),
{
    lemma_cell_count_shape(grid, plain);
    assert forall|s: Coordinate, w: Seq<Coordinate>|
        #[trigger] is_route(Target::Kind(Tile::Core), grid, overlay, diagonals, s, w) == is_route(
            Target::Kind(Tile::Core),
            plain,
            Set::empty(),
            diagonals,
            s,
            w,
        ) by {
        super::search::lemma_routes_materialized(Target::Kind(Tile::Core), grid, overlay, plain, diagonals, s, w);
    }
    assert forall|s: Coordinate, w: Seq<Coordinate>|
        #[trigger] is_route(Target::Kind(Tile::Core), plain, Set::empty(), diagonals, s, w) == is_route(
            Target::Kind(Tile::Core),
            grid,
            overlay,
            diagonals,
            s,
            w,
        ) by {
        super::search::lemma_routes_materialized(Target::Kind(Tile::Core), grid, overlay, plain, diagonals, s, w);
    }
}

} // verus!
