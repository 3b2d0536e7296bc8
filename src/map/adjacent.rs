use vstd::prelude::*;

use super::coordinate::open_at;
use super::{Coordinate, Tile};
use crate::container::{overlay_of, Container};

verus! {

/// Values which are adjacent to some cell, one slot per direction.
#[derive(Copy, Clone, Debug, PartialEq, Eq, Hash)]
pub struct Adjacent<T> {
    pub up: Option<T>,
    pub right: Option<T>,
    pub down: Option<T>,
    pub left: Option<T>,
    pub up_right: Option<T>,
    pub down_right: Option<T>,
    pub down_left: Option<T>,
    pub up_left: Option<T>,
}

/// The value of a slot, as a sequence of none or one.
pub open spec fn present<T>(o: Option<T>) -> Seq<T> {
    match o {
        Some(v) => seq![v],
        None => Seq::empty(),
    }
}

/// `value` where `cond` holds, else nothing.
pub open spec fn when<T>(cond: bool, value: T) -> Option<T> {
    if cond {
        Some(value)
    } else {
        None
    }
}

impl<T> Adjacent<T> {
    /// The present values in visiting order: up, right, down, left, then
    /// up-right, down-right, down-left and up-left.
    pub open spec fn values(self) -> Seq<T> {
        present(self.up) + present(self.right) + present(self.down) + present(self.left)
            + present(self.up_right) + present(self.down_right) + present(self.down_left)
            + present(self.up_left)
    }

    /// Each present value, in the fixed visiting order of [`Adjacent::values`].
    pub fn for_each(self) -> (r: Vec<T>)
        ensures
            r@ == self.values(),
    {
        let mut r: Vec<T> = Vec::new();
        push_present(&mut r, self.up);
        assert(r@ =~= present(self.up));
        push_present(&mut r, self.right);
        push_present(&mut r, self.down);
        push_present(&mut r, self.left);
        push_present(&mut r, self.up_right);
        push_present(&mut r, self.down_right);
        push_present(&mut r, self.down_left);
        push_present(&mut r, self.up_left);
        r
    }
}

fn push_present<T>(r: &mut Vec<T>, o: Option<T>)
    ensures
        final(r)@ == old(r)@ + present(o),
{
    if let Some(v) = o {
        r.push(v);
    }
    assert(final(r)@ =~= old(r)@ + present(o));
}

/// The in-bounds neighbours of `c` on a grid of `rows` rows of `cols` cells;
/// the diagonal ones only when `diagonals` holds.
pub open spec fn neighbours(rows: nat, cols: nat, c: Coordinate, diagonals: bool) -> Adjacent<
    Coordinate,
> {
    let up = c.1 > 0;
    let right = c.0 + 1 < cols;
    let down = c.1 + 1 < rows;
    let left = c.0 > 0;
    Adjacent {
        up: when(up, Coordinate(c.0, (c.1 - 1) as usize)),
        right: when(right, Coordinate((c.0 + 1) as usize, c.1)),
        down: when(down, Coordinate(c.0, (c.1 + 1) as usize)),
        left: when(left, Coordinate((c.0 - 1) as usize, c.1)),
        up_right: when(up && right && diagonals, Coordinate((c.0 + 1) as usize, (c.1 - 1) as usize)),
        down_right: when(
            down && right && diagonals,
            Coordinate((c.0 + 1) as usize, (c.1 + 1) as usize),
        ),
        down_left: when(
            down && left && diagonals,
            Coordinate((c.0 - 1) as usize, (c.1 + 1) as usize),
        ),
        up_left: when(up && left && diagonals, Coordinate((c.0 - 1) as usize, (c.1 - 1) as usize)),
    }
}

/// Whether the slot holds a cell that can be walked over.
pub open spec fn open_slot(grid: Seq<Vec<Tile>>, overlay: Set<Coordinate>, d: Option<Coordinate>) -> bool {
    match d {
        Some(d) => open_at(grid, overlay, d),
        None => false,
    }
}

/// The moves out of `c`: its neighbours, where a diagonal one is dropped when
/// both cells that flank it are closed (no cutting through a corner wedged
/// between two walls).
pub open spec fn moves(grid: Seq<Vec<Tile>>, overlay: Set<Coordinate>, c: Coordinate, diagonals: bool) -> Adjacent<
    Coordinate,
> {
    let a = neighbours(grid.len(), grid[c.1 as int]@.len(), c, diagonals);
    if diagonals {
        let up = open_slot(grid, overlay, a.up);
        let right = open_slot(grid, overlay, a.right);
        let down = open_slot(grid, overlay, a.down);
        let left = open_slot(grid, overlay, a.left);
        Adjacent {
            up_right: if up || right { a.up_right } else { None },
            down_right: if down || right { a.down_right } else { None },
            down_left: if down || left { a.down_left } else { None },
            up_left: if up || left { a.up_left } else { None },
            ..a
        }
    } else {
        a
    }
}

impl Adjacent<Coordinate> {
    /// Get the coordinates adjacent to `coord` on `grid`.
    pub fn from_grid_coordinate<T>(grid: &Vec<Vec<T>>, coord: &Coordinate, diagonals: bool) -> (r: Self)
        requires
            coord.within(grid@),
        ensures
            r == neighbours(grid@.len(), grid@[coord.1 as int]@.len(), *coord, diagonals),
    {
        let can_move_up = coord.1 > 0;
        let can_move_right = coord.0 < grid[coord.1].len() - 1;
        let can_move_down = coord.1 < grid.len() - 1;
        let can_move_left = coord.0 > 0;
        Adjacent {
            up: if can_move_up {
                Some(Coordinate(coord.0, coord.1 - 1))
            } else {
                None
            },
            right: if can_move_right {
                Some(Coordinate(coord.0 + 1, coord.1))
            } else {
                None
            },
            down: if can_move_down {
                Some(Coordinate(coord.0, coord.1 + 1))
            } else {
                None
            },
            left: if can_move_left {
                Some(Coordinate(coord.0 - 1, coord.1))
            } else {
                None
            },
            up_right: if can_move_up && can_move_right && diagonals {
                Some(Coordinate(coord.0 + 1, coord.1 - 1))
            } else {
                None
            },
            down_right: if can_move_down && can_move_right && diagonals {
                Some(Coordinate(coord.0 + 1, coord.1 + 1))
            } else {
                None
            },
            down_left: if can_move_down && can_move_left && diagonals {
                Some(Coordinate(coord.0 - 1, coord.1 + 1))
            } else {
                None
            },
            up_left: if can_move_up && can_move_left && diagonals {
                Some(Coordinate(coord.0 - 1, coord.1 - 1))
            } else {
                None
            },
        }
    }

    /// [`Adjacent::from_grid_coordinate`], with each diagonal dropped whose two
    /// flanking cells are both closed when the cells of `build` are read as
    /// blocks.
    pub fn from_grid_coordinate_with_build<C: Container<Coordinate>>(
        grid: &Vec<Vec<Tile>>,
        build: Option<&C>,
        coord: &Coordinate,
        diagonals: bool,
    ) -> (r: Self)
        requires
            coord.within(grid@),
        ensures
            r == moves(grid@, overlay_of(build), *coord, diagonals),
            diagonals && !open_slot(grid@, overlay_of(build), r.up) && !open_slot(
                grid@,
                overlay_of(build),
                r.right,
            ) ==> r.up_right.is_none(),
            diagonals && !open_slot(grid@, overlay_of(build), r.down) && !open_slot(
                grid@,
                overlay_of(build),
                r.right,
            ) ==> r.down_right.is_none(),
            diagonals && !open_slot(grid@, overlay_of(build), r.down) && !open_slot(
                grid@,
                overlay_of(build),
                r.left,
            ) ==> r.down_left.is_none(),
            diagonals && !open_slot(grid@, overlay_of(build), r.up) && !open_slot(
                grid@,
                overlay_of(build),
                r.left,
            ) ==> r.up_left.is_none(),
    {
        let mut adjacent = Self::from_grid_coordinate(grid, coord, diagonals);
        if diagonals {
            let can_move_up = can_move_to(grid, build, adjacent.up);
            let can_move_right = can_move_to(grid, build, adjacent.right);
            let can_move_down = can_move_to(grid, build, adjacent.down);
            let can_move_left = can_move_to(grid, build, adjacent.left);
            if !can_move_up && !can_move_right {
                adjacent.up_right = None;
            }
            if !can_move_down && !can_move_right {
                adjacent.down_right = None;
            }
            if !can_move_down && !can_move_left {
                adjacent.down_left = None;
            }
            if !can_move_up && !can_move_left {
                adjacent.up_left = None;
            }
        }
        adjacent
    }
}

/// Whether the slot holds a cell that can be walked over.
fn can_move_to<C: Container<Coordinate>>(
    grid: &Vec<Vec<Tile>>,
    build: Option<&C>,
    direction: Option<Coordinate>,
) -> (r: bool)
    ensures
        r == open_slot(grid@, overlay_of(build), direction),
{
    match direction {
        Some(d) => match d.get_from_with_build(grid, build) {
            Some(t) => t.is_passable(),
            None => false,
        },
        None => false,
    }
}

} // verus!
