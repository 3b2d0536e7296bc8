//! Breadth-first search over a grid whose overlay cells read as blocks.
use vstd::prelude::*;

use super::adjacent::{moves, present, Adjacent};
use super::coordinate::{open_at, tile_with};
use super::{Coordinate, Tile};
use crate::container::{overlay_of, Container};

verus! {

/// What a search is looking for.
pub enum Target<'a> {
    /// Any cell holding this kind of tile.
    Kind(Tile),
    /// Any of these cells.
    Cells(&'a Vec<Coordinate>),
}

/// Whether reaching `c` ends the search.
pub open spec fn is_goal(target: Target, grid: Seq<Vec<Tile>>, overlay: Set<Coordinate>, c: Coordinate) -> bool {
    match target {
        Target::Kind(k) => tile_with(grid, overlay, c) == Some(k),
        Target::Cells(cells) => cells@.contains(c),
    }
}

/// Whether a walk may go on from `c`: it is passable and not a goal.
pub open spec fn expandable(target: Target, grid: Seq<Vec<Tile>>, overlay: Set<Coordinate>, c: Coordinate) -> bool {
    open_at(grid, overlay, c) && !is_goal(target, grid, overlay, c)
}

/// Whether `b` is one of the moves out of `a`.
pub open spec fn step(grid: Seq<Vec<Tile>>, overlay: Set<Coordinate>, diagonals: bool, a: Coordinate, b: Coordinate) -> bool {
    moves(grid, overlay, a, diagonals).values().contains(b)
}

/// A walk from `start` on the grid: it starts on a passable cell, stays in
/// bounds, and each of its steps leaves a cell where the walk may go on.
pub open spec fn is_trail(
    target: Target,
    grid: Seq<Vec<Tile>>,
    overlay: Set<Coordinate>,
    diagonals: bool,
    start: Coordinate,
    w: Seq<Coordinate>,
) -> bool {
    &&& w.len() >= 1
    &&& w[0] == start
    &&& open_at(grid, overlay, start)
    &&& forall|k: int| 0 <= k < w.len() ==> (#[trigger] w[k]).within(grid)
    &&& forall|k: int|
        0 <= k < w.len() - 1 ==> #[trigger] expandable(target, grid, overlay, w[k]) && step(
            grid,
            overlay,
            diagonals,
            w[k],
            w[k + 1],
        )
}

/// A walk from `start` that ends on a goal.
pub open spec fn is_route(
    target: Target,
    grid: Seq<Vec<Tile>>,
    overlay: Set<Coordinate>,
    diagonals: bool,
    start: Coordinate,
    w: Seq<Coordinate>,
) -> bool {
    is_trail(target, grid, overlay, diagonals, start, w) && is_goal(target, grid, overlay, w.last())
}

/// `route` is a route from `start` and no route from `start` is shorter.
pub open spec fn is_shortest_route(
    target: Target,
    grid: Seq<Vec<Tile>>,
    overlay: Set<Coordinate>,
    diagonals: bool,
    start: Coordinate,
    route: Seq<Coordinate>,
) -> bool {
    &&& is_route(target, grid, overlay, diagonals, start, route)
    &&& forall|w: Seq<Coordinate>|
        #[trigger] is_route(target, grid, overlay, diagonals, start, w) ==> route.len() <= w.len()
}

/// The result of a search from `start`: a shortest route, or nothing when no
/// route exists.
pub open spec fn searched(
    target: Target,
    grid: Seq<Vec<Tile>>,
    overlay: Set<Coordinate>,
    diagonals: bool,
    start: Coordinate,
    r: Option<Seq<Coordinate>>,
) -> bool {
    match r {
        Some(route) => is_shortest_route(target, grid, overlay, diagonals, start, route),
        None => forall|w: Seq<Coordinate>| !#[trigger] is_route(target, grid, overlay, diagonals, start, w),
    }
}

/// The cells of an optional path.
pub open spec fn cells_of(r: Option<Vec<Coordinate>>) -> Option<Seq<Coordinate>> {
    match r {
        Some(p) => Some(p@),
        None => None,
    }
}

/// `plain` has the shape of `grid`, and holds its tiles with the overlay
/// applied.
pub open spec fn materialized(grid: Seq<Vec<Tile>>, overlay: Set<Coordinate>, plain: Seq<Vec<Tile>>) -> bool {
    &&& plain.len() == grid.len()
    &&& forall|y: int| 0 <= y < grid.len() ==> #[trigger] plain[y]@.len() == grid[y]@.len()
    &&& forall|c: Coordinate| c.within(grid) ==> #[trigger] c.at(plain) == tile_with(grid, overlay, c)
}

proof fn lemma_materialized_open(grid: Seq<Vec<Tile>>, overlay: Set<Coordinate>, plain: Seq<Vec<Tile>>, d: Coordinate)
    requires
        materialized(grid, overlay, plain),
    ensures
        open_at(plain, Set::empty(), d) == open_at(grid, overlay, d),
{
    if d.within(grid) {
        assert(d.at(plain) == tile_with(grid, overlay, d));
    }
}

proof fn lemma_materialized_moves(
    grid: Seq<Vec<Tile>>,
    overlay: Set<Coordinate>,
    plain: Seq<Vec<Tile>>,
    c: Coordinate,
    diagonals: bool,
)
    requires
        materialized(grid, overlay, plain),
        c.within(grid),
    ensures
        moves(plain, Set::empty(), c, diagonals) == moves(grid, overlay, c, diagonals),
{
    assert(plain[c.1 as int]@.len() == grid[c.1 as int]@.len());
    let a = super::adjacent::neighbours(grid.len(), grid[c.1 as int]@.len(), c, diagonals);
    if let Some(d) = a.up {
        lemma_materialized_open(grid, overlay, plain, d);
    }
    if let Some(d) = a.right {
        lemma_materialized_open(grid, overlay, plain, d);
    }
    if let Some(d) = a.down {
        lemma_materialized_open(grid, overlay, plain, d);
    }
    if let Some(d) = a.left {
        lemma_materialized_open(grid, overlay, plain, d);
    }
}

/// A copy of `grid` in which the cells of `build` read as blocks.
pub fn materialize<C: Container<Coordinate>>(grid: &Vec<Vec<Tile>>, build: Option<&C>) -> (r: Vec<Vec<Tile>>)
    ensures
        materialized(grid@, overlay_of(build), r@),
{
    let ghost ov = overlay_of(build);
    let mut r: Vec<Vec<Tile>> = Vec::new();
    let mut y: usize = 0;
    while y < grid.len()
        invariant
            y <= grid@.len(),
            r@.len() == y,
            ov == overlay_of(build),
            forall|i: int| 0 <= i < y ==> #[trigger] r@[i]@.len() == grid@[i]@.len(),
            forall|c: Coordinate|
                c.within(grid@) && c.1 < y ==> #[trigger] c.at(r@) == tile_with(grid@, ov, c),
        decreases grid@.len() - y,
    {
        let mut row: Vec<Tile> = Vec::new();
        let mut x: usize = 0;
        while x < grid[y].len()
            invariant
                y < grid@.len(),
                x <= grid@[y as int]@.len(),
                row@.len() == x,
                ov == overlay_of(build),
                forall|i: int|
                    0 <= i < x ==> #[trigger] row@[i] == tile_with(grid@, ov, Coordinate(i as usize, y))->0,
            decreases grid@[y as int]@.len() - x,
        {
            let c = Coordinate(x, y);
            let t = c.get_from_with_build(grid, build);
            match t {
                Some(t) => row.push(t),
                None => {
                    assert(false);
                    row.push(Tile::Block);
                },
            }
            x += 1;
        }
        let ghost old_r = r@;
        r.push(row);
        assert forall|c: Coordinate| c.within(grid@) && c.1 < y + 1 implies #[trigger] c.at(r@)
            == tile_with(grid@, ov, c) by {
            if c.1 < y {
                assert(c.at(old_r) == tile_with(grid@, ov, c));
                assert(r@[c.1 as int] == old_r[c.1 as int]);
            } else {
                assert(c == Coordinate(c.0 as usize, y));
                assert(r@[c.1 as int]@[c.0 as int] == tile_with(grid@, ov, Coordinate(c.0 as usize, y))->0);
            }
        }
        y += 1;
    }
    r
}

/// The number of cells of a row not yet marked.
pub open spec fn unmarked_row(r: Seq<bool>) -> nat
    decreases r.len(),
{
    if r.len() == 0 {
        0
    } else {
        unmarked_row(r.drop_last()) + if r.last() {
            0nat
        } else {
            1nat
        }
    }
}

/// The number of cells of a grid not yet marked.
pub open spec fn unmarked(g: Seq<Vec<bool>>) -> nat
    decreases g.len(),
{
    if g.len() == 0 {
        0
    } else {
        unmarked(g.drop_last()) + unmarked_row(g.last()@)
    }
}

pub(crate) proof fn lemma_mark_row(r: Seq<bool>, i: int)
    requires
        0 <= i < r.len(),
        !r[i],
    ensures
        unmarked_row(r.update(i, true)) + 1 == unmarked_row(r),
    decreases r.len(),
{
    let u = r.update(i, true);
    if i == r.len() - 1 {
        assert(u.drop_last() =~= r.drop_last());
    } else {
        assert(u.drop_last() =~= r.drop_last().update(i, true));
        lemma_mark_row(r.drop_last(), i);
    }
}

pub(crate) proof fn lemma_mark(g: Seq<Vec<bool>>, y: int, row: Vec<bool>)
    requires
        0 <= y < g.len(),
    ensures
        unmarked(g.update(y, row)) + unmarked_row(g[y]@) == unmarked(g) + unmarked_row(row@),
    decreases g.len(),
{
    let u = g.update(y, row);
    if y == g.len() - 1 {
        assert(u.drop_last() =~= g.drop_last());
    } else {
        assert(u.drop_last() =~= g.drop_last().update(y, row));
        lemma_mark(g.drop_last(), y, row);
    }
}

/// The number of cells of a grid.
pub open spec fn cell_count(grid: Seq<Vec<Tile>>) -> nat
    decreases grid.len(),
{
    if grid.len() == 0 {
        0
    } else {
        cell_count(grid.drop_last()) + grid.last()@.len()
    }
}

proof fn lemma_blank_row(r: Seq<bool>)
    requires
        forall|x: int| 0 <= x < r.len() ==> !#[trigger] r[x],
    ensures
        unmarked_row(r) == r.len(),
    decreases r.len(),
{
    if r.len() > 0 {
        lemma_blank_row(r.drop_last());
    }
}

/// Marks of the shape of `grid`, none of them set, leave every cell unmarked.
pub(crate) proof fn lemma_blank_count(marks: Seq<Vec<bool>>, grid: Seq<Vec<Tile>>)
    requires
        marks.len() == grid.len(),
        forall|y: int| 0 <= y < grid.len() ==> #[trigger] marks[y]@.len() == grid[y]@.len(),
        forall|y: int, x: int| 0 <= y < marks.len() && 0 <= x < marks[y]@.len() ==> !#[trigger] marks[y]@[x],
    ensures
        unmarked(marks) == cell_count(grid),
    decreases grid.len(),
{
    if grid.len() > 0 {
        let y = grid.len() - 1;
        assert(marks.last()@.len() == grid.last()@.len());
        lemma_blank_row(marks.last()@);
        lemma_blank_count(marks.drop_last(), grid.drop_last());
    }
}

/// A rectangular grid has as many cells as its rows times its columns.
pub proof fn lemma_cell_count(grid: Seq<Vec<Tile>>)
    requires
        super::coordinate::rectangular(grid),
        grid.len() > 0,
    ensures
        cell_count(grid) == grid.len() * grid[0]@.len(),
    decreases grid.len(),
{
    let w = grid[0]@.len();
    let h = grid.len();
    assert(grid.last()@.len() == w);
    if h > 1 {
        let rest = grid.drop_last();
        assert(rest[0] == grid[0]);
        assert forall|i: int| 0 <= i < rest.len() implies #[trigger] rest[i]@.len() == rest[0]@.len() by {
            assert(rest[i] == grid[i]);
        }
        lemma_cell_count(rest);
        assert(cell_count(grid) == cell_count(rest) + w);
        assert((h - 1) * w + w == h * w) by (nonlinear_arith);
    } else {
        assert(cell_count(grid.drop_last()) == 0);
        assert(cell_count(grid) == w);
        assert(1 * w == w) by (nonlinear_arith);
    }
}

/// A grid of marks shaped like `grid`, none of them set.
pub(crate) fn blank_marks(grid: &Vec<Vec<Tile>>) -> (r: Vec<Vec<bool>>)
    ensures
        r@.len() == grid@.len(),
        forall|y: int| 0 <= y < grid@.len() ==> #[trigger] r@[y]@.len() == grid@[y]@.len(),
        forall|y: int, x: int| 0 <= y < r@.len() && 0 <= x < r@[y]@.len() ==> !#[trigger] r@[y]@[x],
{
    let mut r: Vec<Vec<bool>> = Vec::new();
    let mut y: usize = 0;
    while y < grid.len()
        invariant
            y <= grid@.len(),
            r@.len() == y,
            forall|i: int| 0 <= i < y ==> #[trigger] r@[i]@.len() == grid@[i]@.len(),
            forall|i: int, x: int| 0 <= i < y && 0 <= x < r@[i]@.len() ==> !#[trigger] r@[i]@[x],
        decreases grid@.len() - y,
    {
        let mut row: Vec<bool> = Vec::new();
        let mut x: usize = 0;
        while x < grid[y].len()
            invariant
                y < grid@.len(),
                x <= grid@[y as int]@.len(),
                row@.len() == x,
                forall|i: int| 0 <= i < x ==> !#[trigger] row@[i],
            decreases grid@[y as int]@.len() - x,
        {
            row.push(false);
            x += 1;
        }
        r.push(row);
        y += 1;
    }
    r
}

/// `path` with `c` added at its end.
fn extended(path: &Vec<Coordinate>, c: Coordinate) -> (r: Vec<Coordinate>)
    ensures
        r@ == path@.push(c),
{
    let mut r: Vec<Coordinate> = Vec::new();
    let mut i: usize = 0;
    while i < path.len()
        invariant
            i <= path@.len(),
            r@ =~= path@.subrange(0, i as int),
        decreases path@.len() - i,
    {
        r.push(path[i]);
        i += 1;
    }
    r.push(c);
    r
}

proof fn lemma_trail_push(
    target: Target,
    grid: Seq<Vec<Tile>>,
    overlay: Set<Coordinate>,
    diagonals: bool,
    start: Coordinate,
    w: Seq<Coordinate>,
    v: Coordinate,
)
    requires
        is_trail(target, grid, overlay, diagonals, start, w),
        expandable(target, grid, overlay, w.last()),
        step(grid, overlay, diagonals, w.last(), v),
        v.within(grid),
    ensures
        is_trail(target, grid, overlay, diagonals, start, w.push(v)),
{
    let u = w.push(v);
    assert forall|k: int| 0 <= k < u.len() implies (#[trigger] u[k]).within(grid) by {
        if k < w.len() {
            assert(u[k] == w[k]);
        }
    }
    assert forall|k: int| 0 <= k < u.len() - 1 implies #[trigger] expandable(
        target,
        grid,
        overlay,
        u[k],
    ) && step(grid, overlay, diagonals, u[k], u[k + 1]) by {
        if k < w.len() - 1 {
            assert(u[k] == w[k] && u[k + 1] == w[k + 1]);
            assert(expandable(target, grid, overlay, w[k]));
        } else {
            assert(u[k] == w.last());
        }
    }
}

/// Whether `c` is a goal of the search, read from the materialized grid.
fn reached(target: &Target, plain: &Vec<Vec<Tile>>, c: Coordinate) -> (r: bool)
    requires
        c.within(plain@),
    ensures
        r == is_goal(*target, plain@, Set::empty(), c),
{
    match target {
        Target::Kind(k) => plain[c.1][c.0] == *k,
        Target::Cells(cells) => cells.contains(&c),
    }
}

/// Whether `c` is marked in `marks`.
pub open spec fn marked(marks: Seq<Vec<bool>>, c: Coordinate) -> bool {
    marks[c.1 as int]@[c.0 as int]
}

/// The length of the walk held by the `i`th entry of the queue.
pub open spec fn level(queue: Seq<(Coordinate, Vec<Coordinate>)>, i: int) -> int {
    queue[i].1@.len() as int
}

/// The facts that a breadth-first search keeps about its queue: `place` maps
/// each discovered cell to its entry, the entries before `head` have been
/// expanded, and walks grow along the queue by at most one cell.
pub open spec fn explored(
    target: Target,
    grid: Seq<Vec<Tile>>,
    overlay: Set<Coordinate>,
    diagonals: bool,
    start: Coordinate,
    queue: Seq<(Coordinate, Vec<Coordinate>)>,
    place: Map<Coordinate, int>,
    head: int,
) -> bool {
    &&& 1 <= queue.len()
    &&& 0 <= head <= queue.len()
    &&& queue[0].0 == start
    &&& queue[0].1@ == seq![start]
    &&& forall|i: int|
        0 <= i < queue.len() ==> (#[trigger] queue[i]).0.within(grid) && is_trail(
            target,
            grid,
            overlay,
            diagonals,
            start,
            queue[i].1@,
        ) && queue[i].1@.last() == queue[i].0
    &&& forall|i: int|
        0 <= i < queue.len() ==> place.contains_key((#[trigger] queue[i]).0) && place[queue[i].0]
            == i
    &&& forall|c: Coordinate|
        #[trigger] place.contains_key(c) ==> 0 <= place[c] < queue.len() && queue[place[c]].0 == c
    &&& forall|i: int, j: int| 0 <= i <= j < queue.len() ==> level(queue, i) <= level(queue, j)
    &&& head < queue.len() ==> level(queue, queue.len() - 1) <= level(queue, head) + 1
    &&& forall|i: int| 0 <= i < head ==> !is_goal(target, grid, overlay, (#[trigger] queue[i]).0)
    &&& forall|i: int, v: Coordinate|
        0 <= i < head && expandable(target, grid, overlay, (#[trigger] queue[i]).0) && #[trigger] step(
            grid,
            overlay,
            diagonals,
            queue[i].0,
            v,
        ) && v.within(grid) ==> place.contains_key(v) && level(queue, place[v]) <= level(queue, i)
            + 1
}

/// Every cell of a walk whose first `k + 1` cells lie below `limit` has been
/// discovered, no later than its position in the walk.
proof fn lemma_discovered(
    target: Target,
    grid: Seq<Vec<Tile>>,
    overlay: Set<Coordinate>,
    diagonals: bool,
    start: Coordinate,
    queue: Seq<(Coordinate, Vec<Coordinate>)>,
    place: Map<Coordinate, int>,
    head: int,
    limit: int,
    w: Seq<Coordinate>,
    k: int,
)
    requires
        explored(target, grid, overlay, diagonals, start, queue, place, head),
        forall|i: int| 0 <= i < queue.len() && level(queue, i) < limit ==> i < head,
        is_trail(target, grid, overlay, diagonals, start, w),
        0 <= k < w.len(),
        k < limit,
    ensures
        place.contains_key(w[k]),
        level(queue, place[w[k]]) <= k + 1,
    decreases k,
{
    if k == 0 {
        assert(place.contains_key(queue[0].0));
    } else {
        lemma_discovered(target, grid, overlay, diagonals, start, queue, place, head, limit, w, k - 1);
        let i = place[w[k - 1]];
        assert(queue[i].0 == w[k - 1]);
        assert(expandable(target, grid, overlay, w[k - 1]) && step(grid, overlay, diagonals, w[k - 1], w[k]));
        assert(w[k].within(grid));
        assert(i < head);
    }
}

/// Breadth-first search from `start` for the nearest goal of `target`, on
/// `grid` read through `overlay`, which `plain` holds applied.
#[verifier::rlimit(100)]
pub(crate) fn search(
    grid: Ghost<Seq<Vec<Tile>>>,
    overlay: Ghost<Set<Coordinate>>,
    plain: &Vec<Vec<Tile>>,
    start: Coordinate,
    target: &Target,
    diagonals: bool,
) -> (r: Option<Vec<Coordinate>>)
    requires
        materialized(grid@, overlay@, plain@),
        start.within(grid@),
    ensures
        searched(*target, grid@, overlay@, diagonals, start, cells_of(r)),
        r is Some ==> r->0@.len() <= cell_count(grid@),
{
    let ghost g = grid@;
    let ghost ov = overlay@;
    let ghost tg = *target;
    proof {
        lemma_materialized_open(g, ov, plain@, start);
    }
    let start_passable = plain[start.1][start.0].is_passable();
    if !start_passable {
        proof {
            assert forall|w: Seq<Coordinate>| !#[trigger] is_route(tg, g, ov, diagonals, start, w) by {}
        }
        return None;
    }
    let mut marks = blank_marks(plain);
    proof {
        lemma_blank_count(marks@, g);
    }
    let ghost total = cell_count(g);
    let mut queue: Vec<(Coordinate, Vec<Coordinate>)> = Vec::new();
    let mut first: Vec<Coordinate> = Vec::new();
    first.push(start);
    queue.push((start, first));
    proof {
        lemma_mark(marks@, start.1 as int, marks@[start.1 as int]);
    }
    let ghost before = marks@;
    marks[start.1][start.0] = true;
    proof {
        lemma_mark_row(before[start.1 as int]@, start.0 as int);
        lemma_mark(before, start.1 as int, marks@[start.1 as int]);
    }
    let ghost mut place: Map<Coordinate, int> = Map::empty().insert(start, 0);
    let mut head: usize = 0;
    proof {
        assert(queue@[0].1@.last() == start);
        assert(forall|c: Coordinate| c.within(g) ==> #[trigger] marked(marks@, c) == place.contains_key(c));
    }
    while head < queue.len()
        invariant
            materialized(g, ov, plain@),
            g == grid@,
            ov == overlay@,
            tg == *target,
            marks@.len() == g.len(),
            forall|y: int| 0 <= y < g.len() ==> #[trigger] marks@[y]@.len() == g[y]@.len(),
            forall|c: Coordinate| c.within(g) ==> #[trigger] marked(marks@, c) == place.contains_key(c),
            explored(tg, g, ov, diagonals, start, queue@, place, head as int),
            total == cell_count(g),
            unmarked(marks@) + queue@.len() == total,
            forall|i: int| 0 <= i < queue@.len() ==> level(queue@, i) <= i + 1,
        decreases 2 * unmarked(marks@) + queue@.len() - head,
    {
        let coord = queue[head].0;
        let ghost level_here = level(queue@, head as int);
        assert(coord.within(g));
        assert(coord.within(plain@));
        if reached(target, plain, coord) {
            let ghost q0 = queue@;
            proof {
                assert(is_goal(tg, g, ov, coord)) by {
                    assert(coord.at(plain@) == tile_with(g, ov, coord));
                }
                assert forall|w: Seq<Coordinate>| #[trigger] is_route(tg, g, ov, diagonals, start, w)
                    implies level_here <= w.len() by {
                    if w.len() < level_here {
                        let m = w.len() - 1;
                        assert forall|i: int| 0 <= i < q0.len() && level(q0, i) < level_here implies i < head by {
                            if i >= head {
                                assert(level(q0, head as int) <= level(q0, i));
                            }
                        }
                        lemma_discovered(tg, g, ov, diagonals, start, q0, place, head as int, level_here, w, m);
                        assert(q0[place[w[m]]].0 == w[m]);
                    }
                }
            }
            let mut queue = queue;
            let (_, path) = queue.swap_remove(head);
            assert(path@ == q0[head as int].1@);
            assert(level(q0, head as int) <= head + 1);
            return Some(path);
        }
        let ghost here = coord;
        proof {
            lemma_materialized_open(g, ov, plain@, coord);
        }
        if plain[coord.1][coord.0].is_passable() {
            let around = Adjacent::from_grid_coordinate_with_build(
                plain,
                Option::<&Vec<Coordinate>>::None,
                &coord,
                diagonals,
            ).for_each();
            proof {
                lemma_materialized_moves(g, ov, plain@, coord, diagonals);
                assert(overlay_of(Option::<&Vec<Coordinate>>::None) =~= Set::<Coordinate>::empty());
            }
            let ghost marks0 = marks@;
            let ghost len0 = queue@.len();
            let mut j: usize = 0;
            while j < around.len()
                invariant
                    materialized(g, ov, plain@),
                    g == grid@,
                    ov == overlay@,
                    tg == *target,
                    head < queue@.len(),
                    queue@[head as int].0 == coord,
                    coord == here,
                    level(queue@, head as int) == level_here,
                    expandable(tg, g, ov, coord),
                    around@ == moves(g, ov, coord, diagonals).values(),
                    j <= around@.len(),
                    marks@.len() == g.len(),
                    forall|y: int| 0 <= y < g.len() ==> #[trigger] marks@[y]@.len() == g[y]@.len(),
                    forall|c: Coordinate| c.within(g) ==> #[trigger] marked(marks@, c) == place.contains_key(c),
                    explored(tg, g, ov, diagonals, start, queue@, place, head as int),
                    level(queue@, queue@.len() - 1) <= level_here + 1,
                    forall|jj: int|
                        0 <= jj < j && (#[trigger] around@[jj]).within(g) ==> place.contains_key(around@[jj])
                            && level(queue@, place[around@[jj]]) <= level_here + 1,
                    2 * unmarked(marks@) + queue@.len() <= 2 * unmarked(marks0) + len0,
                    unmarked(marks@) + queue@.len() == total,
                    forall|i: int| 0 <= i < queue@.len() ==> level(queue@, i) <= i + 1,
                    head < queue@.len(),
                decreases around@.len() - j,
            {
                let v = around[j];
                if v.1 < plain.len() && v.0 < plain[v.1].len() {
                    proof {
                        assert(plain@[v.1 as int]@.len() == g[v.1 as int]@.len());
                        assert(v.within(g));
                        assert(marked(marks@, v) == place.contains_key(v));
                    }
                    if !marks[v.1][v.0] {
                        let path = extended(&queue[head].1, v);
                        proof {
                            assert(step(g, ov, diagonals, coord, v));
                            lemma_trail_push(tg, g, ov, diagonals, start, queue@[head as int].1@, v);
                        }
                        let ghost n = queue@.len();
                        let ghost q1 = queue@;
                        let ghost pl = path@;
                        assert(pl.len() == level_here + 1);
                        let ghost place1 = place;
                        assert(!place.contains_key(v));
                        queue.push((v, path));
                        let ghost before = marks@;
                        marks[v.1][v.0] = true;
                        proof {
                            lemma_mark_row(before[v.1 as int]@, v.0 as int);
                            lemma_mark(before, v.1 as int, marks@[v.1 as int]);
                            place = place.insert(v, n as int);
                            assert forall|c: Coordinate| c.within(g) implies #[trigger] marked(marks@, c)
                                == place.contains_key(c) by {
                                if c != v {
                                    assert(marked(before, c) == marked(marks@, c));
                                }
                            }
                            assert(queue@[n as int] == (v, path));
                            assert(level_here <= head + 1);
                            assert(level(queue@, n as int) == pl.len());
                            assert forall|i: int| 0 <= i < queue@.len() implies level(queue@, i) <= i + 1 by {
                                if i < n {
                                    assert(queue@[i] == q1[i]);
                                    assert(level(q1, i) <= i + 1);
                                } else {
                                    assert(i == n);
                                    assert(head < n);
                                }
                            }
                            assert forall|i: int| 0 <= i < queue@.len() implies place.contains_key(
                                (#[trigger] queue@[i]).0) && place[queue@[i].0] == i by {
                                if i < n {
                                    assert(queue@[i] == q1[i]);
                                    assert(place1.contains_key(q1[i].0));
                                }
                            }
                            assert forall|i: int, k: int| 0 <= i <= k < queue@.len() implies level(queue@, i)
                                <= level(queue@, k) by {
                                if k == n {
                                    if i < n {
                                        assert(level(q1, i) <= level(q1, n - 1));
                                    }
                                } else {
                                    assert(level(q1, i) <= level(q1, k));
                                }
                            }
                            assert forall|c: Coordinate| #[trigger] place.contains_key(c) implies 0 <= place[c]
                                < queue@.len() && queue@[place[c]].0 == c by {
                                if c != v {
                                    assert(place1.contains_key(c));
                                }
                            }
                            assert forall|i: int, u: Coordinate|
                                0 <= i < head && expandable(tg, g, ov, (#[trigger] queue@[i]).0) && #[trigger] step(
                                    g,
                                    ov,
                                    diagonals,
                                    queue@[i].0,
                                    u,
                                ) && u.within(g) implies place.contains_key(u) && level(queue@, place[u])
                                <= level(queue@, i) + 1 by {
                                assert(queue@[i] == q1[i]);
                                assert(place1.contains_key(u));
                                assert(queue@[place1[u]] == q1[place1[u]]);
                            }
                            assert forall|jj: int|
                                0 <= jj < j && (#[trigger] around@[jj]).within(g) implies place.contains_key(
                                around@[jj]) && level(queue@, place[around@[jj]]) <= level_here + 1 by {
                                assert(place1.contains_key(around@[jj]));
                                assert(queue@[place1[around@[jj]]] == q1[place1[around@[jj]]]);
                            }
                            assert forall|i: int|
                                0 <= i < queue@.len() implies (#[trigger] queue@[i]).0.within(g) && is_trail(
                                    tg,
                                    g,
                                    ov,
                                    diagonals,
                                    start,
                                    queue@[i].1@,
                                ) && queue@[i].1@.last() == queue@[i].0 by {
                                if i < n {
                                    assert(queue@[i] == q1[i]);
                                }
                            }
                        }
                    }
                }
                proof {
                    if v.within(g) && place.contains_key(v) {
                        assert(level(queue@, place[v]) <= level(queue@, queue@.len() - 1));
                    }
                }
                j += 1;
            }
            proof {
                assert forall|i: int, v: Coordinate|
                    0 <= i < head + 1 && expandable(tg, g, ov, (#[trigger] queue@[i]).0) && #[trigger] step(
                        g,
                        ov,
                        diagonals,
                        queue@[i].0,
                        v,
                    ) && v.within(g) implies place.contains_key(v) && level(queue@, place[v])
                    <= level(queue@, i) + 1 by {
                    if i == head {
                        let jj = choose|jj: int| 0 <= jj < around@.len() && around@[jj] == v;
                        assert(around@[jj].within(g));
                    }
                }
            }
        }
        head += 1;
    }
    proof {
        assert forall|w: Seq<Coordinate>| !#[trigger] is_route(tg, g, ov, diagonals, start, w) by {
            if is_route(tg, g, ov, diagonals, start, w) {
                lemma_discovered(tg, g, ov, diagonals, start, queue@, place, head as int, w.len() as int, w, w.len() - 1);
            }
        }
    }
    None
}

proof fn lemma_concat_contains<T>(s: Seq<T>, t: Seq<T>, v: T)
    ensures
        (s + t).contains(v) <==> s.contains(v) || t.contains(v),
{
    if (s + t).contains(v) {
        let i = choose|i: int| 0 <= i < (s + t).len() && (s + t)[i] == v;
        if i >= s.len() {
            assert(t[i - s.len()] == v);
        }
    }
    if s.contains(v) {
        let i = choose|i: int| 0 <= i < s.len() && s[i] == v;
        assert((s + t)[i] == v);
    }
    if t.contains(v) {
        let i = choose|i: int| 0 <= i < t.len() && t[i] == v;
        assert((s + t)[s.len() + i] == v);
    }
}

proof fn lemma_present_contains<T>(o: Option<T>, v: T)
    ensures
        super::adjacent::present(o).contains(v) <==> o == Some(v),
{
    if o == Some(v) {
        assert(super::adjacent::present(o)[0] == v);
    }
}

/// A value is among the present values exactly when some slot holds it.
pub proof fn lemma_values_contains<T>(a: Adjacent<T>, v: T)
    ensures
        a.values().contains(v) <==> (a.up == Some(v) || a.right == Some(v) || a.down == Some(v) || a.left
            == Some(v) || a.up_right == Some(v) || a.down_right == Some(v) || a.down_left == Some(v)
            || a.up_left == Some(v)),
{
    let to_up = present(a.up);
    let to_right = to_up + present(a.right);
    let to_down = to_right + present(a.down);
    let to_left = to_down + present(a.left);
    let to_up_right = to_left + present(a.up_right);
    let to_down_right = to_up_right + present(a.down_right);
    let to_down_left = to_down_right + present(a.down_left);
    lemma_concat_contains(to_up, present(a.right), v);
    lemma_concat_contains(to_right, present(a.down), v);
    lemma_concat_contains(to_down, present(a.left), v);
    lemma_concat_contains(to_left, present(a.up_right), v);
    lemma_concat_contains(to_up_right, present(a.down_right), v);
    lemma_concat_contains(to_down_right, present(a.down_left), v);
    lemma_concat_contains(to_down_left, present(a.up_left), v);
    lemma_present_contains(a.up, v);
    lemma_present_contains(a.right, v);
    lemma_present_contains(a.down, v);
    lemma_present_contains(a.left, v);
    lemma_present_contains(a.up_right, v);
    lemma_present_contains(a.down_right, v);
    lemma_present_contains(a.down_left, v);
    lemma_present_contains(a.up_left, v);
}

/// No cell of a route is read as a block, unless blocks are what it seeks.
pub proof fn lemma_route_avoids(
    target: Target,
    grid: Seq<Vec<Tile>>,
    overlay: Set<Coordinate>,
    diagonals: bool,
    start: Coordinate,
    w: Seq<Coordinate>,
)
    requires
        is_route(target, grid, overlay, diagonals, start, w),
        target != Target::Kind(Tile::Block),
        target is Kind,
    ensures
        forall|k: int| 0 <= k < w.len() ==> !overlay.contains(#[trigger] w[k]),
{
    assert forall|k: int| 0 <= k < w.len() implies !overlay.contains(#[trigger] w[k]) by {
        if k < w.len() - 1 {
            assert(expandable(target, grid, overlay, w[k]));
        }
    }
}

/// A route stays a route when fewer cells are read as blocks.
pub proof fn lemma_route_fewer_blocks(
    target: Target,
    grid: Seq<Vec<Tile>>,
    fewer: Set<Coordinate>,
    more: Set<Coordinate>,
    diagonals: bool,
    start: Coordinate,
    w: Seq<Coordinate>,
)
    requires
        fewer.subset_of(more),
        target != Target::Kind(Tile::Block),
        is_route(target, grid, more, diagonals, start, w),
    ensures
        is_route(target, grid, fewer, diagonals, start, w),
{
    assert(is_trail(target, grid, more, diagonals, start, w));
    assert forall|k: int| 0 <= k < w.len() - 1 implies #[trigger] expandable(target, grid, fewer, w[k]) && step(
        grid,
        fewer,
        diagonals,
        w[k],
        w[k + 1],
    ) by {
        assert(expandable(target, grid, more, w[k]));
        assert(step(grid, more, diagonals, w[k], w[k + 1]));
        let a = moves(grid, more, w[k], diagonals);
        let b = moves(grid, fewer, w[k], diagonals);
        lemma_values_contains(a, w[k + 1]);
        lemma_values_contains(b, w[k + 1]);
        let n = super::adjacent::neighbours(grid.len(), grid[w[k].1 as int]@.len(), w[k], diagonals);
        if let Some(d) = n.up {
            lemma_open_fewer_blocks(grid, fewer, more, d);
        }
        if let Some(d) = n.right {
            lemma_open_fewer_blocks(grid, fewer, more, d);
        }
        if let Some(d) = n.down {
            lemma_open_fewer_blocks(grid, fewer, more, d);
        }
        if let Some(d) = n.left {
            lemma_open_fewer_blocks(grid, fewer, more, d);
        }
    }
    lemma_open_fewer_blocks(grid, fewer, more, start);
    if let Target::Kind(t) = target {
        assert(!more.contains(w.last()));
    }
}

proof fn lemma_open_fewer_blocks(grid: Seq<Vec<Tile>>, fewer: Set<Coordinate>, more: Set<Coordinate>, d: Coordinate)
    requires
        fewer.subset_of(more),
    ensures
        open_at(grid, more, d) ==> open_at(grid, fewer, d),
{
}

/// No step cuts a corner: a diagonal move has at least one of the two cells
/// that flank it open.
pub proof fn lemma_no_corner_cutting(
    grid: Seq<Vec<Tile>>,
    overlay: Set<Coordinate>,
    diagonals: bool,
    a: Coordinate,
    b: Coordinate,
)
    requires
        step(grid, overlay, diagonals, a, b),
        a.0 != b.0,
        a.1 != b.1,
    ensures
        open_at(grid, overlay, Coordinate(b.0, a.1)) || open_at(grid, overlay, Coordinate(a.0, b.1)),
{
    lemma_values_contains(moves(grid, overlay, a, diagonals), b);
}

/// A route without diagonal steps is a route whether diagonal steps are
/// allowed or not.
pub proof fn lemma_route_any_diagonals(
    target: Target,
    grid: Seq<Vec<Tile>>,
    overlay: Set<Coordinate>,
    diagonals: bool,
    start: Coordinate,
    w: Seq<Coordinate>,
)
    requires
        is_route(target, grid, overlay, false, start, w),
    ensures
        is_route(target, grid, overlay, diagonals, start, w),
{
    assert(is_trail(target, grid, overlay, false, start, w));
    assert forall|k: int| 0 <= k < w.len() - 1 implies #[trigger] expandable(target, grid, overlay, w[k]) && step(
        grid,
        overlay,
        diagonals,
        w[k],
        w[k + 1],
    ) by {
        assert(expandable(target, grid, overlay, w[k]));
        assert(step(grid, overlay, false, w[k], w[k + 1]));
        lemma_values_contains(moves(grid, overlay, w[k], false), w[k + 1]);
        lemma_values_contains(moves(grid, overlay, w[k], diagonals), w[k + 1]);
    }
}

/// The routes over a grid read through an overlay are the routes over the
/// grid that holds the overlay applied.
pub proof fn lemma_routes_materialized(
    target: Target,
    grid: Seq<Vec<Tile>>,
    overlay: Set<Coordinate>,
    plain: Seq<Vec<Tile>>,
    diagonals: bool,
    start: Coordinate,
    w: Seq<Coordinate>,
)
    requires
        materialized(grid, overlay, plain),
    ensures
        is_route(target, grid, overlay, diagonals, start, w) == is_route(
            target,
            plain,
            Set::empty(),
            diagonals,
            start,
            w,
        ),
{
    assert forall|c: Coordinate| #[trigger] c.within(grid) == c.within(plain) by {
        if c.1 < grid.len() {
            assert(plain[c.1 as int]@.len() == grid[c.1 as int]@.len());
        }
    }
    lemma_materialized_open(grid, overlay, plain, start);
    if is_route(target, grid, overlay, diagonals, start, w) || is_route(target, plain, Set::empty(), diagonals, start, w) {
        assert forall|k: int| 0 <= k < w.len() implies (w[k].within(grid) ==> is_goal(target, grid, overlay, w[k])
            == is_goal(target, plain, Set::empty(), w[k]) && open_at(grid, overlay, w[k]) == open_at(
            plain,
            Set::empty(),
            w[k],
        ) && (forall|v: Coordinate|
            step(grid, overlay, diagonals, w[k], v) == step(plain, Set::empty(), diagonals, w[k], v))) by {
            if w[k].within(grid) {
                assert(w[k].at(plain) == tile_with(grid, overlay, w[k]));
                lemma_materialized_open(grid, overlay, plain, w[k]);
                lemma_materialized_moves(grid, overlay, plain, w[k], diagonals);
            }
        }
        if is_route(target, grid, overlay, diagonals, start, w) {
            assert(is_trail(target, grid, overlay, diagonals, start, w));
            assert forall|k: int| 0 <= k < w.len() - 1 implies #[trigger] expandable(
                target,
                plain,
                Set::empty(),
                w[k],
            ) && step(plain, Set::empty(), diagonals, w[k], w[k + 1]) by {
                assert(expandable(target, grid, overlay, w[k]));
                assert(step(grid, overlay, diagonals, w[k], w[k + 1]));
                assert(w[k].within(grid));
            }
            assert(w[w.len() - 1].within(grid));
        } else {
            assert(is_trail(target, plain, Set::empty(), diagonals, start, w));
            assert forall|k: int| 0 <= k < w.len() - 1 implies #[trigger] expandable(target, grid, overlay, w[k])
                && step(grid, overlay, diagonals, w[k], w[k + 1]) by {
                assert(expandable(target, plain, Set::empty(), w[k]));
                assert(step(plain, Set::empty(), diagonals, w[k], w[k + 1]));
                assert(w[k].within(plain));
            }
            assert(w[w.len() - 1].within(plain));
        }
    }
}

} // verus!
