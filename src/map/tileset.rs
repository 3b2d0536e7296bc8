use vstd::prelude::*;

use super::coordinate::rectangular;
use super::search::{blank_marks, lemma_mark, lemma_mark_row, marked, unmarked};
use super::{Coordinate, Tile};

verus! {

/// A grid of tiles with the entrances of each of its spawn regions.
pub struct Tileset {
    pub grid: Vec<Vec<Tile>>,
    /// For each spawn region, its entrances in coordinate order, each with
    /// its Manhattan distance from the region's first cell.
    pub entrances_by_region: Vec<Vec<(Coordinate, usize)>>,
}

/// What can go wrong while dividing a grid into regions.
#[derive(Copy, Clone, Debug, PartialEq, Eq)]
pub enum Error {
    /// Tried to make a region out of a tile kind which is not a region.
    NotRegion { tile: Tile },
}

/// `a` and `b` are orthogonal neighbours.
pub open spec fn touching(a: Coordinate, b: Coordinate) -> bool {
    ||| a.0 == b.0 && (a.1 + 1 == b.1 || b.1 + 1 == a.1)
    ||| a.1 == b.1 && (a.0 + 1 == b.0 || b.0 + 1 == a.0)
}

/// How a flood fill spreads.
pub enum Rule {
    /// Over the cells that hold this tile.
    Same(Tile),
    /// From a cell of kind `from`, over the cells that are of the same region
    /// kind as it, or passable and not `needle`; it also takes in, without
    /// going on from them, the cells it touches.
    Spread { from: Tile, needle: Tile },
}

/// Whether the fill takes in a cell holding `t`.
pub open spec fn admits(rule: Rule, t: Tile) -> bool {
    match rule {
        Rule::Same(k) => t == k,
        Rule::Spread { .. } => true,
    }
}

/// Whether the fill goes on from a cell holding `t`.
pub open spec fn expands(rule: Rule, t: Tile) -> bool {
    match rule {
        Rule::Same(k) => t == k,
        Rule::Spread { from, needle } => (from.region() && t == from) || (t.passable() && t != needle),
    }
}

/// The tile at an in-bounds cell.
pub open spec fn tile(grid: Seq<Vec<Tile>>, c: Coordinate) -> Tile {
    grid[c.1 as int]@[c.0 as int]
}

/// A walk of the fill from `start`: each step is orthogonal, stays in bounds,
/// leaves a cell the fill goes on from, and enters a cell it takes in.
pub open spec fn flows(rule: Rule, grid: Seq<Vec<Tile>>, start: Coordinate, w: Seq<Coordinate>) -> bool {
    &&& w.len() >= 1
    &&& w[0] == start
    &&& forall|k: int| 0 <= k < w.len() ==> (#[trigger] w[k]).within(grid)
    &&& forall|k: int|
        0 <= k < w.len() - 1 ==> #[trigger] touching(w[k], w[k + 1]) && expands(rule, tile(grid, w[k]))
            && admits(rule, tile(grid, w[k + 1]))
}

/// `b` can be reached from `a` by a walk of the fill.
pub open spec fn floods_to(rule: Rule, grid: Seq<Vec<Tile>>, a: Coordinate, b: Coordinate) -> bool {
    exists|w: Seq<Coordinate>| #[trigger] flows(rule, grid, a, w) && w.last() == b
}

/// The marked cells are closed under the fill: from each marked cell that the
/// fill goes on from, every touching cell it takes in is marked.
pub open spec fn closed(rule: Rule, grid: Seq<Vec<Tile>>, marks: Seq<Vec<bool>>) -> bool {
    forall|a: Coordinate, b: Coordinate|
        a.within(grid) && b.within(grid) && #[trigger] marked(marks, a) && expands(rule, tile(grid, a))
            && #[trigger] touching(a, b) && admits(rule, tile(grid, b)) ==> marked(marks, b)
}

/// `marks` has the shape of `grid`.
pub open spec fn shaped(grid: Seq<Vec<Tile>>, marks: Seq<Vec<bool>>) -> bool {
    &&& marks.len() == grid.len()
    &&& forall|y: int| 0 <= y < grid.len() ==> #[trigger] marks[y]@.len() == grid[y]@.len()
}

/// Adds `c` to `r` when it is in bounds.
fn push_within(grid: &Vec<Vec<Tile>>, r: &mut Vec<Coordinate>, c: Coordinate)
    ensures
        forall|b: Coordinate|
            #[trigger] final(r)@.contains(b) <==> old(r)@.contains(b) || (b == c && c.within(grid@)),
{
    if c.1 < grid.len() && c.0 < grid[c.1].len() {
        r.push(c);
        assert forall|b: Coordinate| #[trigger] final(r)@.contains(b) <==> old(r)@.contains(b) || b == c by {
            if old(r)@.contains(b) {
                let i = choose|i: int| 0 <= i < old(r)@.len() && old(r)@[i] == b;
                assert(final(r)@[i] == b);
            }
            if final(r)@.contains(b) && b != c {
                let i = choose|i: int| 0 <= i < final(r)@.len() && final(r)@[i] == b;
                assert(old(r)@[i] == b);
            }
            if b == c {
                assert(final(r)@[old(r)@.len() as int] == b);
            }
        }
    }
}

/// The in-bounds orthogonal neighbours of `c`.
fn touching_cells(grid: &Vec<Vec<Tile>>, c: Coordinate) -> (r: Vec<Coordinate>)
    requires
        c.within(grid@),
    ensures
        forall|b: Coordinate| #[trigger] r@.contains(b) <==> touching(c, b) && b.within(grid@),
{
    let mut r: Vec<Coordinate> = Vec::new();
    if c.1 > 0 {
        push_within(grid, &mut r, Coordinate(c.0, c.1 - 1));
    }
    if c.0 < usize::MAX {
        push_within(grid, &mut r, Coordinate(c.0 + 1, c.1));
    }
    if c.1 < usize::MAX {
        push_within(grid, &mut r, Coordinate(c.0, c.1 + 1));
    }
    if c.0 > 0 {
        push_within(grid, &mut r, Coordinate(c.0 - 1, c.1));
    }
    r
}

/// Whether the fill takes in a cell holding `t`.
fn admits_exec(rule: &Rule, t: Tile) -> (r: bool)
    ensures
        r == admits(*rule, t),
{
    match rule {
        Rule::Same(k) => t == *k,
        Rule::Spread { .. } => true,
    }
}

/// Whether the fill goes on from a cell holding `t`.
fn expands_exec(rule: &Rule, t: Tile) -> (r: bool)
    ensures
        r == expands(*rule, t),
{
    match rule {
        Rule::Same(k) => t == *k,
        Rule::Spread { from, needle } => (from.is_region() && t == *from) || (t.is_passable() && t
            != *needle),
    }
}

proof fn lemma_flow_push(rule: Rule, grid: Seq<Vec<Tile>>, start: Coordinate, w: Seq<Coordinate>, v: Coordinate)
    requires
        flows(rule, grid, start, w),
        touching(w.last(), v),
        expands(rule, tile(grid, w.last())),
        admits(rule, tile(grid, v)),
        v.within(grid),
    ensures
        flows(rule, grid, start, w.push(v)),
{
    let u = w.push(v);
    assert forall|k: int| 0 <= k < u.len() implies (#[trigger] u[k]).within(grid) by {
        if k < w.len() {
            assert(u[k] == w[k]);
        }
    }
    assert forall|k: int| 0 <= k < u.len() - 1 implies #[trigger] touching(u[k], u[k + 1]) && expands(
        rule,
        tile(grid, u[k]),
    ) && admits(rule, tile(grid, u[k + 1])) by {
        if k < w.len() - 1 {
            assert(u[k] == w[k] && u[k + 1] == w[k + 1]);
            assert(touching(w[k], w[k + 1]));
        } else {
            assert(u[k] == w.last());
        }
    }
}

/// Fills from `start` over the unmarked cells, marking them; returns them in
/// the order they were reached, `start` first.
fn flood(grid: &Vec<Vec<Tile>>, marks: &mut Vec<Vec<bool>>, start: Coordinate, rule: &Rule) -> (r: Vec<
    Coordinate,
>)
    requires
        shaped(grid@, old(marks)@),
        closed(*rule, grid@, old(marks)@),
        start.within(grid@),
        !marked(old(marks)@, start),
        admits(*rule, tile(grid@, start)),
    ensures
        shaped(grid@, final(marks)@),
        closed(*rule, grid@, final(marks)@),
        r@.len() >= 1,
        r@[0] == start,
        r@.no_duplicates(),
        forall|i: int| 0 <= i < r@.len() ==> (#[trigger] r@[i]).within(grid@) && !marked(old(marks)@, r@[i])
            && floods_to(*rule, grid@, start, r@[i]) && admits(*rule, tile(grid@, r@[i])),
        forall|c: Coordinate|
            c.within(grid@) ==> (#[trigger] marked(final(marks)@, c) <==> marked(old(marks)@, c)
                || r@.contains(c)),
{
    let ghost m0 = marks@;
    let ghost g = grid@;
    let mut r: Vec<Coordinate> = Vec::new();
    r.push(start);
    let ghost before = marks@;
    marks[start.1][start.0] = true;
    proof {
        lemma_mark_row(before[start.1 as int]@, start.0 as int);
        lemma_mark(before, start.1 as int, marks@[start.1 as int]);
        assert(flows(*rule, g, start, seq![start]));
        assert(seq![start].last() == start);
        assert forall|c: Coordinate| c.within(g) implies (#[trigger] marked(marks@, c) <==> marked(m0, c)
            || r@.contains(c)) by {
            if c == start {
                assert(r@[0] == c);
            } else {
                assert(marked(before, c) == marked(marks@, c));
            }
        }
    }
    let mut head: usize = 0;
    while head < r.len()
        invariant
            g == grid@,
            shaped(g, marks@),
            shaped(g, m0),
            closed(*rule, g, m0),
            1 <= r@.len(),
            head <= r@.len(),
            r@[0] == start,
            r@.no_duplicates(),
            forall|i: int| 0 <= i < r@.len() ==> (#[trigger] r@[i]).within(g) && !marked(m0, r@[i])
                && floods_to(*rule, g, start, r@[i]) && admits(*rule, tile(g, r@[i])),
            forall|c: Coordinate|
                c.within(g) ==> (#[trigger] marked(marks@, c) <==> marked(m0, c) || r@.contains(c)),
            forall|i: int, b: Coordinate|
                0 <= i < head && expands(*rule, tile(g, (#[trigger] r@[i]))) && #[trigger] touching(r@[i], b)
                    && b.within(g) && admits(*rule, tile(g, b)) ==> marked(marks@, b),
        decreases 2 * unmarked(marks@) + r@.len() - head,
    {
        let c = r[head];
        let t = grid[c.1][c.0];
        if expands_exec(rule, t) {
            let around = touching_cells(grid, c);
            let ghost marks0 = marks@;
            let ghost len0 = r@.len();
            let mut j: usize = 0;
            while j < around.len()
                invariant
                    g == grid@,
                    shaped(g, marks@),
                    shaped(g, m0),
                    closed(*rule, g, m0),
                    1 <= r@.len(),
                    head < r@.len(),
                    r@[head as int] == c,
                    c.within(g),
                    expands(*rule, tile(g, c)),
                    r@[0] == start,
                    r@.no_duplicates(),
                    forall|b: Coordinate| #[trigger] around@.contains(b) <==> touching(c, b) && b.within(g),
                    j <= around@.len(),
                    forall|i: int| 0 <= i < r@.len() ==> (#[trigger] r@[i]).within(g) && !marked(m0, r@[i])
                        && floods_to(*rule, g, start, r@[i]) && admits(*rule, tile(g, r@[i])),
                    forall|c: Coordinate|
                        c.within(g) ==> (#[trigger] marked(marks@, c) <==> marked(m0, c) || r@.contains(c)),
                    forall|i: int, b: Coordinate|
                        0 <= i < head && expands(*rule, tile(g, (#[trigger] r@[i]))) && #[trigger] touching(
                            r@[i],
                            b,
                        ) && b.within(g) && admits(*rule, tile(g, b)) ==> marked(marks@, b),
                    forall|jj: int|
                        0 <= jj < j && admits(*rule, tile(g, #[trigger] around@[jj])) ==> marked(
                            marks@,
                            around@[jj],
                        ),
                    2 * unmarked(marks@) + r@.len() <= 2 * unmarked(marks0) + len0,
                decreases around@.len() - j,
            {
                let b = around[j];
                proof {
                    assert(around@.contains(b));
                }
                if admits_exec(rule, grid[b.1][b.0]) && !marks[b.1][b.0] {
                    proof {
                        assert(marked(marks@, b) == marks@[b.1 as int]@[b.0 as int]);
                        let w = choose|w: Seq<Coordinate>| #[trigger] flows(*rule, g, start, w) && w.last() == c;
                        lemma_flow_push(*rule, g, start, w, b);
                        assert(w.push(b).last() == b);
                        assert(!r@.contains(b));
                        assert(!marked(m0, b));
                    }
                    let ghost r1 = r@;
                    r.push(b);
                    let ghost before = marks@;
                    marks[b.1][b.0] = true;
                    proof {
                        lemma_mark_row(before[b.1 as int]@, b.0 as int);
                        lemma_mark(before, b.1 as int, marks@[b.1 as int]);
                        assert forall|x: Coordinate| x.within(g) implies (#[trigger] marked(marks@, x) <==> marked(
                            m0,
                            x,
                        ) || r@.contains(x)) by {
                            if x != b {
                                assert(marked(before, x) == marked(marks@, x));
                                if r1.contains(x) {
                                    let i = choose|i: int| 0 <= i < r1.len() && r1[i] == x;
                                    assert(r@[i] == x);
                                }
                                if r@.contains(x) {
                                    let i = choose|i: int| 0 <= i < r@.len() && r@[i] == x;
                                    assert(r1[i] == x);
                                }
                            } else {
                                assert(r@[r1.len() as int] == x);
                            }
                        }
                        assert forall|i: int, k: int| 0 <= i < k < r@.len() implies r@[i] != r@[k] by {
                            if k == r1.len() {
                                assert(r1[i] == r@[i]);
                                assert(r1.contains(r@[i]));
                            }
                        }
                        assert forall|i: int, x: Coordinate|
                            0 <= i < head && expands(*rule, tile(g, (#[trigger] r@[i]))) && #[trigger] touching(
                                r@[i],
                                x,
                            ) && x.within(g) && admits(*rule, tile(g, x)) implies marked(marks@, x) by {
                            assert(r@[i] == r1[i]);
                            assert(marked(before, x));
                            if x != b {
                                assert(marked(before, x) == marked(marks@, x));
                            }
                        }
                        assert forall|jj: int|
                            0 <= jj < j + 1 && admits(*rule, tile(g, #[trigger] around@[jj])) implies marked(
                            marks@,
                            around@[jj],
                        ) by {
                            if around@[jj] != b {
                                assert(around@.contains(around@[jj]));
                                assert(marked(before, around@[jj]) == marked(marks@, around@[jj]));
                            }
                        }
                    }
                } else {
                    proof {
                        assert(marked(marks@, b) == marks@[b.1 as int]@[b.0 as int]);
                    }
                }
                j += 1;
            }
            proof {
                assert forall|i: int, b: Coordinate|
                    0 <= i < head + 1 && expands(*rule, tile(g, (#[trigger] r@[i]))) && #[trigger] touching(
                        r@[i],
                        b,
                    ) && b.within(g) && admits(*rule, tile(g, b)) implies marked(marks@, b) by {
                    if i == head {
                        assert(around@.contains(b));
                        let jj = choose|jj: int| 0 <= jj < around@.len() && around@[jj] == b;
                    }
                }
            }
        }
        head += 1;
    }
    proof {
        assert forall|a: Coordinate, b: Coordinate|
            a.within(g) && b.within(g) && #[trigger] marked(marks@, a) && expands(*rule, tile(g, a))
                && #[trigger] touching(a, b) && admits(*rule, tile(g, b)) implies marked(marks@, b) by {
            if r@.contains(a) {
                let i = choose|i: int| 0 <= i < r@.len() && r@[i] == a;
            } else {
                assert(marked(m0, a));
                assert(marked(m0, b));
            }
        }
    }
    r
}

proof fn lemma_flows_marked(
    rule: Rule,
    grid: Seq<Vec<Tile>>,
    marks: Seq<Vec<bool>>,
    start: Coordinate,
    w: Seq<Coordinate>,
    k: int,
)
    requires
        closed(rule, grid, marks),
        marked(marks, start),
        flows(rule, grid, start, w),
        0 <= k < w.len(),
    ensures
        marked(marks, w[k]),
    decreases k,
{
    if k > 0 {
        lemma_flows_marked(rule, grid, marks, start, w, k - 1);
        let j = k - 1;
        assert(touching(w[j], w[j + 1]));
        assert(w[j].within(grid) && w[j + 1].within(grid));
    }
}

/// `a` comes before `b` in coordinate order: by column, then by row.
pub open spec fn precedes(a: Coordinate, b: Coordinate) -> bool {
    a.0 < b.0 || (a.0 == b.0 && a.1 < b.1)
}

/// `a` comes before `b` in a scan by rows.
pub open spec fn row_before(a: Coordinate, b: Coordinate) -> bool {
    a.1 < b.1 || (a.1 == b.1 && a.0 < b.0)
}

/// The regions come in the order in which a scan by rows meets them, each
/// led by the first of its cells that the scan meets.
#[verifier::opaque]
pub open spec fn in_scan_order(regions: Seq<Vec<Coordinate>>) -> bool {
    &&& forall|i: int, j: int| 0 <= i < j < regions.len() ==> #[trigger] row_before(regions[i]@[0], regions[j]@[0])
    &&& forall|i: int, c: Coordinate|
        0 <= i < regions.len() && #[trigger] regions[i]@.contains(c) ==> !row_before(c, regions[i]@[0])
}

/// `regions` are the connected regions of the cells holding `kind`: each is
/// non-empty, without repeats, reached by a fill from its first cell, and
/// closed under touching cells of `kind`; together they hold every cell of
/// `kind` exactly once.
pub open spec fn divides(grid: Seq<Vec<Tile>>, kind: Tile, regions: Seq<Vec<Coordinate>>) -> bool {
    &&& forall|i: int| 0 <= i < regions.len() ==> (#[trigger] regions[i])@.len() >= 1 && regions[i]@.no_duplicates()
    &&& forall|i: int, j: int|
        0 <= i < regions.len() && 0 <= j < regions[i]@.len() ==> (#[trigger] regions[i]@[j]).within(grid)
            && tile(grid, regions[i]@[j]) == kind && floods_to(
            Rule::Same(kind),
            grid,
            regions[i]@[0],
            regions[i]@[j],
        )
    &&& forall|i: int, a: Coordinate, b: Coordinate|
        0 <= i < regions.len() && #[trigger] regions[i]@.contains(a) && b.within(grid) && #[trigger] touching(a, b)
            && tile(grid, b) == kind ==> regions[i]@.contains(b)
    &&& forall|c: Coordinate|
        c.within(grid) && tile(grid, c) == kind ==> exists|i: int|
            0 <= i < regions.len() && (#[trigger] regions[i])@.contains(c)
    &&& forall|i: int, j: int, c: Coordinate|
        0 <= i < j < regions.len() && #[trigger] regions[i]@.contains(c) ==> !#[trigger] regions[j]@.contains(c)
}

/// `found` lists, in coordinate order, the cells holding `needle` that a
/// spread from `start` reaches, each with its Manhattan distance from `start`.
pub open spec fn adjacent_cells(
    grid: Seq<Vec<Tile>>,
    start: Coordinate,
    needle: Tile,
    found: Seq<(Coordinate, usize)>,
) -> bool {
    let rule = Rule::Spread { from: tile(grid, start), needle };
    &&& forall|i: int|
        0 <= i < found.len() ==> (#[trigger] found[i]).0.within(grid) && tile(grid, found[i].0) == needle
            && floods_to(rule, grid, start, found[i].0) && found[i].1 == found[i].0.manhattan(start)
    &&& forall|c: Coordinate|
        c.within(grid) && tile(grid, c) == needle && #[trigger] floods_to(rule, grid, start, c) ==> exists|i: int|
            0 <= i < found.len() && (#[trigger] found[i]).0 == c
    &&& forall|i: int, j: int| 0 <= i < j < found.len() ==> precedes(found[i].0, found[j].0)
}

/// The grid is rectangular, and small enough that a walk over all of its
/// cells, counted from the distance between two of them, fits in a `usize`.
pub open spec fn sized(grid: Seq<Vec<Tile>>) -> bool {
    &&& rectangular(grid)
    &&& grid.len() > 0 ==> grid.len() * grid[0]@.len() + grid.len() + grid[0]@.len() <= usize::MAX
}

impl Tileset {
    /// The grid is sized, and every entrance lies on it, no further from its
    /// region than the grid is wide and high.
    pub open spec fn wf(&self) -> bool {
        &&& sized(self.grid@)
        &&& forall|i: int, j: int|
            0 <= i < self.entrances_by_region@.len() && 0 <= j < self.entrances_by_region@[i]@.len()
                ==> (#[trigger] self.entrances_by_region@[i]@[j]).0.within(self.grid@)
                && self.entrances_by_region@[i]@[j].1 <= self.grid@.len() + self.grid@[0]@.len()
    }

    /// Get all of the different regions for some kind of `start_tile`, in
    /// the order of their first cell by row, then column.
    pub fn separate_regions(grid: &Vec<Vec<Tile>>, start_tile: Tile) -> (r: Result<Vec<Vec<Coordinate>>, Error>)
        requires
            rectangular(grid@),
        ensures
            !start_tile.region() ==> r == Err::<Vec<Vec<Coordinate>>, Error>(Error::NotRegion { tile: start_tile }),
            start_tile.region() ==> r is Ok && divides(grid@, start_tile, r->Ok_0@) && in_scan_order(r->Ok_0@),
    {
        if !start_tile.is_region() {
            return Err(Error::NotRegion { tile: start_tile });
        }
        proof {
            reveal(in_scan_order);
        }
        let ghost g = grid@;
        let rule = Rule::Same(start_tile);
        let mut marks = blank_marks(grid);
        let mut buckets: Vec<Vec<Coordinate>> = Vec::new();
        let mut y: usize = 0;
        while y < grid.len()
            invariant
                g == grid@,
                rule == Rule::Same(start_tile),
                shaped(g, marks@),
                closed(rule, g, marks@),
                y <= g.len(),
                forall|c: Coordinate|
                    c.within(g) ==> (#[trigger] marked(marks@, c) <==> exists|i: int|
                        0 <= i < buckets@.len() && (#[trigger] buckets@[i])@.contains(c)),
                forall|c: Coordinate| c.within(g) && c.1 < y && tile(g, c) == start_tile ==> #[trigger] marked(marks@, c),
                divides_partly(g, start_tile, buckets@),
                in_scan_order(buckets@),
                forall|i: int| 0 <= i < buckets@.len() ==> (#[trigger] buckets@[i])@[0].1 < y,
            decreases g.len() - y,
        {
            proof {
                reveal(in_scan_order);
            }
            let mut x: usize = 0;
            while x < grid[y].len()
                invariant
                    g == grid@,
                    rule == Rule::Same(start_tile),
                    shaped(g, marks@),
                    closed(rule, g, marks@),
                    y < g.len(),
                    x <= g[y as int]@.len(),
                    forall|c: Coordinate|
                        c.within(g) ==> (#[trigger] marked(marks@, c) <==> exists|i: int|
                            0 <= i < buckets@.len() && (#[trigger] buckets@[i])@.contains(c)),
                    forall|c: Coordinate|
                        c.within(g) && (c.1 < y || (c.1 == y && c.0 < x)) && tile(g, c) == start_tile
                            ==> #[trigger] marked(marks@, c),
                    divides_partly(g, start_tile, buckets@),
                    in_scan_order(buckets@),
                    forall|i: int| 0 <= i < buckets@.len() ==> row_before((#[trigger] buckets@[i])@[0], Coordinate(x, y)),
                decreases g[y as int]@.len() - x,
            {
                proof {
                    reveal(in_scan_order);
                }
                let c = Coordinate(x, y);
                if grid[y][x] == start_tile && !marks[y][x] {
                    proof {
                        assert(marked(marks@, c) == marks@[y as int]@[x as int]);
                    }
                    let ghost m0 = marks@;
                    let ghost b0 = buckets@;
                    let region = flood(grid, &mut marks, c, &rule);
                    proof {
                        lemma_region_closed(g, start_tile, m0, marks@, region@);
                    }
                    let ghost fresh = region@;
                    buckets.push(region);
                    proof {
                        lemma_bucket_added(g, start_tile, m0, marks@, b0, buckets@);
                        assert(buckets@[b0.len() as int]@ == fresh);
                        assert forall|i: int, j: int| 0 <= i < j < buckets@.len() implies #[trigger] row_before(
                            buckets@[i]@[0],
                            buckets@[j]@[0],
                        ) by {
                            assert(buckets@[i] == b0[i]);
                            if j < b0.len() {
                                assert(buckets@[j] == b0[j]);
                            }
                        }
                        assert forall|i: int, k: Coordinate|
                            0 <= i < buckets@.len() && #[trigger] buckets@[i]@.contains(k) implies !row_before(
                            k,
                            buckets@[i]@[0],
                        ) by {
                            if i < b0.len() {
                                assert(buckets@[i] == b0[i]);
                            } else {
                                let n = choose|n: int| 0 <= n < fresh.len() && fresh[n] == k;
                                assert(!marked(m0, fresh[n]));
                                assert(tile(g, fresh[n]) == start_tile);
                            }
                        }
                        assert forall|i: int| 0 <= i < buckets@.len() implies row_before(
                            (#[trigger] buckets@[i])@[0],
                            Coordinate((x + 1) as usize, y),
                        ) by {
                            if i < b0.len() {
                                assert(buckets@[i] == b0[i]);
                            }
                        }
                    }
                } else {
                    proof {
                        assert(marked(marks@, c) == marks@[y as int]@[x as int]);
                    }
                }
                x += 1;
            }
            y += 1;
        }
        proof {
            assert forall|c: Coordinate| c.within(g) && tile(g, c) == start_tile implies exists|i: int|
                0 <= i < buckets@.len() && (#[trigger] buckets@[i])@.contains(c) by {
                assert(marked(marks@, c));
            }
        }
        Ok(buckets)
    }
}

impl Tileset {
    /// Get the cells holding `needle` that a spread from `start` reaches: the
    /// spread walks over cells of `start`'s region kind and passable cells
    /// other than `needle`, and takes in every cell it touches. Each cell
    /// comes with its Manhattan distance from `start`, in coordinate order.
    pub fn get_adjacent_to(grid: &Vec<Vec<Tile>>, start: Coordinate, needle: Tile) -> (r: Vec<(Coordinate, usize)>)
        requires
            sized(grid@),
            start.within(grid@),
        ensures
            adjacent_cells(grid@, start, needle, r@),
    {
        let ghost g = grid@;
        let start_tile = grid[start.1][start.0];
        let rule = Rule::Spread { from: start_tile, needle };
        let mut marks = blank_marks(grid);
        let _ = flood(grid, &mut marks, start, &rule);
        proof {
            assert forall|c: Coordinate|
                c.within(g) && #[trigger] floods_to(rule, g, start, c) implies marked(marks@, c) by {
                let w = choose|w: Seq<Coordinate>| #[trigger] flows(rule, g, start, w) && w.last() == c;
                lemma_flows_marked(rule, g, marks@, start, w, w.len() - 1);
            }
        }
        let mut found: Vec<(Coordinate, usize)> = Vec::new();
        let width = grid[0].len();
        let mut x: usize = 0;
        while x < width
            invariant
                g == grid@,
                sized(g),
                shaped(g, marks@),
                start.within(g),
                g.len() > 0,
                width == g[0]@.len(),
                x <= width,
                rule == (Rule::Spread { from: tile(g, start), needle }),
                forall|c: Coordinate| c.within(g) && #[trigger] marked(marks@, c) ==> floods_to(rule, g, start, c),
                forall|c: Coordinate| c.within(g) && #[trigger] floods_to(rule, g, start, c) ==> marked(marks@, c),
                forall|i: int|
                    0 <= i < found@.len() ==> (#[trigger] found@[i]).0.within(g) && tile(g, found@[i].0) == needle
                        && floods_to(rule, g, start, found@[i].0) && found@[i].1 == found@[i].0.manhattan(start)
                        && found@[i].0.0 < x,
                forall|c: Coordinate|
                    c.within(g) && c.0 < x && tile(g, c) == needle && #[trigger] floods_to(rule, g, start, c)
                        ==> exists|i: int| 0 <= i < found@.len() && (#[trigger] found@[i]).0 == c,
                forall|i: int, j: int| 0 <= i < j < found@.len() ==> precedes(found@[i].0, found@[j].0),
            decreases width - x,
        {
            let mut y: usize = 0;
            while y < grid.len()
                invariant
                    g == grid@,
                    sized(g),
                    shaped(g, marks@),
                    start.within(g),
                    g.len() > 0,
                    width == g[0]@.len(),
                    x < width,
                    y <= g.len(),
                    rule == (Rule::Spread { from: tile(g, start), needle }),
                    forall|c: Coordinate| c.within(g) && #[trigger] marked(marks@, c) ==> floods_to(rule, g, start, c),
                    forall|c: Coordinate| c.within(g) && #[trigger] floods_to(rule, g, start, c) ==> marked(marks@, c),
                    forall|i: int|
                        0 <= i < found@.len() ==> (#[trigger] found@[i]).0.within(g) && tile(g, found@[i].0) == needle
                            && floods_to(rule, g, start, found@[i].0) && found@[i].1 == found@[i].0.manhattan(start)
                            && precedes(found@[i].0, Coordinate(x, y)),
                    forall|c: Coordinate|
                        c.within(g) && precedes(c, Coordinate(x, y)) && tile(g, c) == needle && #[trigger] floods_to(
                            rule,
                            g,
                            start,
                            c,
                        ) ==> exists|i: int| 0 <= i < found@.len() && (#[trigger] found@[i]).0 == c,
                    forall|i: int, j: int| 0 <= i < j < found@.len() ==> precedes(found@[i].0, found@[j].0),
                decreases g.len() - y,
            {
                let c = Coordinate(x, y);
                proof {
                    assert(g[y as int]@.len() == g[0]@.len());
                    assert(c.within(g));
                    assert(marked(marks@, c) == marks@[y as int]@[x as int]);
                }
                if marks[y][x] && grid[y][x] == needle {
                    let d = c.distance_from(&start);
                    let ghost f0 = found@;
                    found.push((c, d));
                    proof {
                        assert(found@[f0.len() as int] == (c, d));
                        assert forall|i: int| 0 <= i < found@.len() implies (#[trigger] found@[i]).0.within(g) && tile(
                            g,
                            found@[i].0,
                        ) == needle && floods_to(rule, g, start, found@[i].0) && found@[i].1 == found@[i].0.manhattan(
                            start,
                        ) && precedes(found@[i].0, Coordinate(x, (y + 1) as usize)) by {
                            if i < f0.len() {
                                assert(found@[i] == f0[i]);
                            }
                        }
                        assert forall|k: Coordinate|
                            k.within(g) && precedes(k, Coordinate(x, (y + 1) as usize)) && tile(g, k) == needle
                                && #[trigger] floods_to(rule, g, start, k) implies exists|i: int|
                            0 <= i < found@.len() && (#[trigger] found@[i]).0 == k by {
                            if k == c {
                                assert(found@[f0.len() as int].0 == k);
                            } else {
                                let i = choose|i: int| 0 <= i < f0.len() && (#[trigger] f0[i]).0 == k;
                                assert(found@[i] == f0[i]);
                            }
                        }
                        assert forall|i: int, j: int| 0 <= i < j < found@.len() implies precedes(
                            found@[i].0,
                            found@[j].0,
                        ) by {
                            assert(found@[i] == f0[i]);
                            if j < f0.len() {
                                assert(found@[j] == f0[j]);
                            }
                        }
                    }
                } else {
                    proof {
                        assert forall|k: Coordinate|
                            k.within(g) && precedes(k, Coordinate(x, (y + 1) as usize)) && tile(g, k) == needle
                                && #[trigger] floods_to(rule, g, start, k) implies exists|i: int|
                            0 <= i < found@.len() && (#[trigger] found@[i]).0 == k by {
                            if k == c {
                                assert(marked(marks@, k));
                            }
                        }
                    }
                }
                y += 1;
            }
            proof {
                assert forall|k: Coordinate|
                    k.within(g) && k.0 < x + 1 && tile(g, k) == needle && #[trigger] floods_to(rule, g, start, k)
                        implies exists|i: int| 0 <= i < found@.len() && (#[trigger] found@[i]).0 == k by {
                    assert(precedes(k, Coordinate(x, y)));
                }
            }
            x += 1;
        }
        proof {
            assert forall|k: Coordinate|
                k.within(g) && tile(g, k) == needle && #[trigger] floods_to(rule, g, start, k) implies exists|i: int|
                0 <= i < found@.len() && (#[trigger] found@[i]).0 == k by {
                assert(g[k.1 as int]@.len() == g[0]@.len());
            }
        }
        found
    }
}

/// `entrances` holds, for each spawn region of `grid` in the order in which a
/// scan by rows meets them, the empty cells that a spread from the region's
/// first cell in that scan reaches.
pub open spec fn entrances_of(grid: Seq<Vec<Tile>>, entrances: Seq<Vec<(Coordinate, usize)>>) -> bool {
    exists|regions: Seq<Vec<Coordinate>>|
        #[trigger] divides(grid, Tile::Spawn, regions) && in_scan_order(regions) && regions.len() == entrances.len()
            && forall|i: int|
            0 <= i < regions.len() ==> adjacent_cells(grid, regions[i]@[0], Tile::Empty, #[trigger] entrances[i]@)
}

impl Tileset {
    /// Select the empty cells next to each spawn region of `grid`.
    pub fn entrances(grid: &Vec<Vec<Tile>>) -> (r: Vec<Vec<(Coordinate, usize)>>)
        requires
            sized(grid@),
        ensures
            entrances_of(grid@, r@),
    {
        let regions = match Self::separate_regions(grid, Tile::Spawn) {
            Ok(regions) => regions,
            Err(_) => {
                assert(false);
                Vec::new()
            },
        };
        let mut r: Vec<Vec<(Coordinate, usize)>> = Vec::new();
        let mut i: usize = 0;
        while i < regions.len()
            invariant
                sized(grid@),
                divides(grid@, Tile::Spawn, regions@),
                in_scan_order(regions@),
                i <= regions@.len(),
                r@.len() == i,
                forall|k: int| 0 <= k < i ==> adjacent_cells(grid@, regions@[k]@[0], Tile::Empty, #[trigger] r@[k]@),
            decreases regions@.len() - i,
        {
            assert(regions@[i as int]@.len() >= 1);
            assert(regions@[i as int]@[0].within(grid@));
            let found = Self::get_adjacent_to(grid, regions[i][0], Tile::Empty);
            r.push(found);
            i += 1;
        }
        assert(divides(grid@, Tile::Spawn, regions@));
        r
    }

    /// Create a new tileset from some two-dimensional `grid` of tiles.
    pub fn new(grid: Vec<Vec<Tile>>) -> (r: Self)
        requires
            sized(grid@),
        ensures
            r.grid@ == grid@,
            entrances_of(grid@, r.entrances_by_region@),
            r.wf(),
    {
        let entrances_by_region = Self::entrances(&grid);
        proof {
            lemma_entrances_on_grid(grid@, entrances_by_region@);
        }
        Tileset { entrances_by_region, grid }
    }
}

/// Every entrance lies on the grid, no further from its region than the grid
/// is wide and high.
proof fn lemma_entrances_on_grid(grid: Seq<Vec<Tile>>, entrances: Seq<Vec<(Coordinate, usize)>>)
    requires
        sized(grid),
        entrances_of(grid, entrances),
    ensures
        forall|i: int, j: int|
            0 <= i < entrances.len() && 0 <= j < entrances[i]@.len() ==> (#[trigger] entrances[i]@[j]).0.within(grid)
                && entrances[i]@[j].1 <= grid.len() + grid[0]@.len(),
{
    let regions = choose|regions: Seq<Vec<Coordinate>>|
        #[trigger] divides(grid, Tile::Spawn, regions) && regions.len() == entrances.len() && forall|i: int|
            0 <= i < regions.len() ==> adjacent_cells(grid, regions[i]@[0], Tile::Empty, #[trigger] entrances[i]@);
    assert forall|i: int, j: int| 0 <= i < entrances.len() && 0 <= j < entrances[i]@.len() implies (
    #[trigger] entrances[i]@[j]).0.within(grid) && entrances[i]@[j].1 <= grid.len() + grid[0]@.len() by {
        assert(adjacent_cells(grid, regions[i]@[0], Tile::Empty, entrances[i]@));
        let e = entrances[i]@[j];
        let a = regions[i]@[0];
        assert(regions[i]@.len() >= 1);
        assert(a.within(grid));
        assert(grid[a.1 as int]@.len() == grid[0]@.len());
        assert(grid[e.0.1 as int]@.len() == grid[0]@.len());
        assert(e.1 == e.0.manhattan(a));
    }
}

/// [`divides`] without the covering clause.
pub open spec fn divides_partly(grid: Seq<Vec<Tile>>, kind: Tile, regions: Seq<Vec<Coordinate>>) -> bool {
    &&& forall|i: int| 0 <= i < regions.len() ==> (#[trigger] regions[i])@.len() >= 1 && regions[i]@.no_duplicates()
    &&& forall|i: int, j: int|
        0 <= i < regions.len() && 0 <= j < regions[i]@.len() ==> (#[trigger] regions[i]@[j]).within(grid)
            && tile(grid, regions[i]@[j]) == kind && floods_to(
            Rule::Same(kind),
            grid,
            regions[i]@[0],
            regions[i]@[j],
        )
    &&& forall|i: int, a: Coordinate, b: Coordinate|
        0 <= i < regions.len() && #[trigger] regions[i]@.contains(a) && b.within(grid) && #[trigger] touching(a, b)
            && tile(grid, b) == kind ==> regions[i]@.contains(b)
    &&& forall|i: int, j: int, c: Coordinate|
        0 <= i < j < regions.len() && #[trigger] regions[i]@.contains(c) ==> !#[trigger] regions[j]@.contains(c)
}

/// A region filled over unmarked cells is closed under touching cells of its
/// kind: such a cell marked earlier would have brought the region's cell in.
proof fn lemma_region_closed(
    grid: Seq<Vec<Tile>>,
    kind: Tile,
    before: Seq<Vec<bool>>,
    after: Seq<Vec<bool>>,
    region: Seq<Coordinate>,
)
    requires
        closed(Rule::Same(kind), grid, before),
        closed(Rule::Same(kind), grid, after),
        forall|i: int| 0 <= i < region.len() ==> (#[trigger] region[i]).within(grid) && !marked(before, region[i]),
        forall|c: Coordinate|
            c.within(grid) ==> (#[trigger] marked(after, c) <==> marked(before, c) || region.contains(c)),
        forall|i: int| 0 <= i < region.len() ==> tile(grid, #[trigger] region[i]) == kind,
    ensures
        forall|a: Coordinate, b: Coordinate|
            #[trigger] region.contains(a) && b.within(grid) && #[trigger] touching(a, b) && tile(grid, b) == kind
                ==> region.contains(b),
{
    assert forall|a: Coordinate, b: Coordinate|
        #[trigger] region.contains(a) && b.within(grid) && #[trigger] touching(a, b) && tile(grid, b) == kind
            implies region.contains(b) by {
        let i = choose|i: int| 0 <= i < region.len() && region[i] == a;
        assert(a.within(grid));
        assert(tile(grid, region[i]) == kind);
        assert(marked(after, a));
        assert(marked(after, b));
        if !region.contains(b) {
            assert(marked(before, b));
            assert(touching(b, a));
            assert(marked(before, a));
        }
    }
}

proof fn lemma_bucket_added(
    grid: Seq<Vec<Tile>>,
    kind: Tile,
    before: Seq<Vec<bool>>,
    after: Seq<Vec<bool>>,
    b0: Seq<Vec<Coordinate>>,
    b1: Seq<Vec<Coordinate>>,
)
    requires
        b1.len() == b0.len() + 1,
        forall|i: int| 0 <= i < b0.len() ==> b1[i] == b0[i],
        divides_partly(grid, kind, b0),
        forall|c: Coordinate|
            c.within(grid) ==> (#[trigger] marked(before, c) <==> exists|i: int|
                0 <= i < b0.len() && (#[trigger] b0[i])@.contains(c)),
        b1.last()@.len() >= 1,
        b1.last()@.no_duplicates(),
        forall|i: int|
            0 <= i < b1.last()@.len() ==> (#[trigger] b1.last()@[i]).within(grid) && !marked(before, b1.last()@[i])
                && floods_to(Rule::Same(kind), grid, b1.last()@[0], b1.last()@[i]) && admits(
                Rule::Same(kind),
                tile(grid, b1.last()@[i]),
            ),
        forall|a: Coordinate, b: Coordinate|
            #[trigger] b1.last()@.contains(a) && b.within(grid) && #[trigger] touching(a, b) && tile(grid, b) == kind
                ==> b1.last()@.contains(b),
        forall|c: Coordinate|
            c.within(grid) ==> (#[trigger] marked(after, c) <==> marked(before, c) || b1.last()@.contains(c)),
    ensures
        divides_partly(grid, kind, b1),
        forall|c: Coordinate|
            c.within(grid) ==> (#[trigger] marked(after, c) <==> exists|i: int|
                0 <= i < b1.len() && (#[trigger] b1[i])@.contains(c)),
{
    let n = b0.len() as int;
    let last = b1[n]@;
    assert forall|i: int, j: int|
        0 <= i < b1.len() && 0 <= j < b1[i]@.len() implies (#[trigger] b1[i]@[j]).within(grid) && tile(
        grid,
        b1[i]@[j],
    ) == kind && floods_to(Rule::Same(kind), grid, b1[i]@[0], b1[i]@[j]) by {
        if i < n {
            assert(b1[i] == b0[i]);
        }
    }
    assert forall|i: int, a: Coordinate, b: Coordinate|
        0 <= i < b1.len() && #[trigger] b1[i]@.contains(a) && b.within(grid) && #[trigger] touching(a, b) && tile(
            grid,
            b,
        ) == kind implies b1[i]@.contains(b) by {
        if i < n {
            assert(b1[i] == b0[i]);
        }
    }
    assert forall|i: int, j: int, c: Coordinate|
        0 <= i < j < b1.len() && #[trigger] b1[i]@.contains(c) implies !#[trigger] b1[j]@.contains(c) by {
        assert(b1[i] == b0[i]);
        if j == n && b1[j]@.contains(c) {
            let k = choose|k: int| 0 <= k < last.len() && last[k] == c;
            let m = choose|m: int| 0 <= m < b0[i]@.len() && b0[i]@[m] == c;
            assert(b0[i]@[m].within(grid));
            assert(marked(before, c));
        } else if j < n {
            assert(b1[j] == b0[j]);
        }
    }
    assert forall|i: int| 0 <= i < b1.len() implies (#[trigger] b1[i])@.len() >= 1 && b1[i]@.no_duplicates() by {
        if i < n {
            assert(b1[i] == b0[i]);
        }
    }
    assert forall|c: Coordinate| c.within(grid) implies (#[trigger] marked(after, c) <==> exists|i: int|
        0 <= i < b1.len() && (#[trigger] b1[i])@.contains(c)) by {
        if marked(after, c) {
            if marked(before, c) {
                let i = choose|i: int| 0 <= i < b0.len() && (#[trigger] b0[i])@.contains(c);
                assert(b1[i] == b0[i]);
            } else {
                assert(b1[n]@.contains(c));
            }
        }
        if exists|i: int| 0 <= i < b1.len() && (#[trigger] b1[i])@.contains(c) {
            let i = choose|i: int| 0 <= i < b1.len() && (#[trigger] b1[i])@.contains(c);
            if i < n {
                assert(b1[i] == b0[i]);
            }
        }
    }
}

} // verus!
