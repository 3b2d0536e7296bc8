use sanctum_solver::container::Container;
use sanctum_solver::map::adjacent::Adjacent;
use sanctum_solver::map::blocks::Build;
use sanctum_solver::map::coordinate::adjacent::Adjacent as Around;
use sanctum_solver::map::coordinate::Coordinate;
use sanctum_solver::map::Tile;
use sanctum_solver::map::Tile::{Block, Core, Empty, Impass, Pass, Spawn};

fn array() -> Vec<Vec<Tile>> {
    vec![
        vec![Empty, Empty, Empty, Empty, Empty],
        vec![Spawn, Empty, Empty, Empty, Core],
        vec![Spawn, Impass, Empty, Empty, Core],
        vec![Spawn, Empty, Empty, Empty, Core],
        vec![Empty, Empty, Empty, Empty, Core],
    ]
}

fn numbers() -> Vec<Vec<usize>> {
    vec![
        vec![1, 2, 3, 4, 5],
        vec![6, 7, 8, 9, 10],
        vec![11, 12, 13, 14, 15],
        vec![16, 17, 18, 19, 20],
        vec![21, 22, 23, 24, 25],
    ]
}

#[test]
fn from_grid_coordinate() {
    let grid = array();
    assert_eq!(
        Adjacent::from_grid_coordinate(&grid, &Coordinate(2, 2), true),
        Adjacent {
            up: Some(Coordinate(2, 1)),
            up_right: Some(Coordinate(3, 1)),
            right: Some(Coordinate(3, 2)),
            down_right: Some(Coordinate(3, 3)),
            down: Some(Coordinate(2, 3)),
            down_left: Some(Coordinate(1, 3)),
            left: Some(Coordinate(1, 2)),
            up_left: Some(Coordinate(1, 1)),
        }
    );
    assert_eq!(
        Adjacent::from_grid_coordinate(&grid, &Coordinate(2, 0), true),
        Adjacent {
            up: None,
            up_right: None,
            right: Some(Coordinate(3, 0)),
            down_right: Some(Coordinate(3, 1)),
            down: Some(Coordinate(2, 1)),
            down_left: Some(Coordinate(1, 1)),
            left: Some(Coordinate(1, 0)),
            up_left: None,
        }
    );
    assert_eq!(
        Adjacent::from_grid_coordinate(&grid, &Coordinate(4, 3), true),
        Adjacent {
            up: Some(Coordinate(4, 2)),
            up_right: None,
            right: None,
            down_right: None,
            down: Some(Coordinate(4, 4)),
            down_left: Some(Coordinate(3, 4)),
            left: Some(Coordinate(3, 3)),
            up_left: Some(Coordinate(3, 2)),
        }
    );
    assert_eq!(
        Adjacent::from_grid_coordinate(&grid, &Coordinate(3, 4), true),
        Adjacent {
            up: Some(Coordinate(3, 3)),
            right: Some(Coordinate(4, 4)),
            down: None,
            left: Some(Coordinate(2, 4)),
            up_right: Some(Coordinate(4, 3)),
            down_right: None,
            down_left: None,
            up_left: Some(Coordinate(2, 3)),
        }
    );
    assert_eq!(
        Adjacent::from_grid_coordinate(&grid, &Coordinate(0, 2), true),
        Adjacent {
            up: Some(Coordinate(0, 1)),
            right: Some(Coordinate(1, 2)),
            down: Some(Coordinate(0, 3)),
            left: None,
            up_right: Some(Coordinate(1, 1)),
            down_right: Some(Coordinate(1, 3)),
            down_left: None,
            up_left: None,
        }
    );
}

#[test]
fn from_grid_coordinate_with_build() {
    let grid = array();
    let build = Build { blocks: vec![Coordinate(2, 1), Coordinate(3, 2)] };
    let adjacent =
        Adjacent::from_grid_coordinate_with_build(&grid, Some(&build.blocks), &Coordinate(2, 2), true);
    assert_eq!(
        adjacent,
        Adjacent {
            up: Some(Coordinate(2, 1)),
            right: Some(Coordinate(3, 2)),
            down: Some(Coordinate(2, 3)),
            left: Some(Coordinate(1, 2)),
            up_right: None,
            down_right: Some(Coordinate(3, 3)),
            down_left: Some(Coordinate(1, 3)),
            up_left: None,
        },
    );
}

#[test]
fn corner_kept_when_one_flank_is_open() {
    let grid = array();
    let blocks = vec![Coordinate(2, 1)];
    let adjacent = Adjacent::from_grid_coordinate_with_build(&grid, Some(&blocks), &Coordinate(2, 2), true);
    assert_eq!(adjacent.up_right, Some(Coordinate(3, 1)));
    assert_eq!(adjacent.up_left, None);
    let plain = Adjacent::from_grid_coordinate_with_build(&grid, Some(&blocks), &Coordinate(2, 2), false);
    assert_eq!(plain.up_right, None);
    assert_eq!(plain.down_right, None);
}

#[test]
fn for_each_keeps_visiting_order() {
    let grid = array();
    let adjacent = Adjacent::from_grid_coordinate(&grid, &Coordinate(0, 0), true);
    assert_eq!(adjacent.for_each(), vec![Coordinate(1, 0), Coordinate(0, 1), Coordinate(1, 1)]);
    let all = Adjacent::from_grid_coordinate(&grid, &Coordinate(2, 2), true);
    assert_eq!(
        all.for_each(),
        vec![
            Coordinate(2, 1),
            Coordinate(3, 2),
            Coordinate(2, 3),
            Coordinate(1, 2),
            Coordinate(3, 1),
            Coordinate(3, 3),
            Coordinate(1, 3),
            Coordinate(1, 1),
        ]
    );
}

#[test]
fn test_get_from() {
    let grid = numbers();
    assert_eq!(Coordinate(2, 2).get_from(&grid), Some(13));
    assert_eq!(Coordinate(0, 1).get_from(&grid), Some(6));
    assert_eq!(Coordinate(100, 1).get_from(&grid), None);
}

#[test]
fn get_from_with_build_reads_blocks() {
    let grid = array();
    let blocks = vec![Coordinate(1, 1)];
    assert_eq!(Coordinate(1, 1).get_from_with_build(&grid, Some(&blocks)), Some(Block));
    assert_eq!(Coordinate(2, 1).get_from_with_build(&grid, Some(&blocks)), Some(Empty));
    assert_eq!(Coordinate(0, 2).get_from_with_build(&grid, Option::<&Vec<Coordinate>>::None), Some(Spawn));
    assert_eq!(Coordinate(9, 9).get_from_with_build(&grid, Option::<&Vec<Coordinate>>::None), None);
}

#[test]
fn set_changes_one_cell() {
    let mut grid = numbers();
    Coordinate(3, 1).set(&mut grid, 0);
    assert_eq!(grid[1], vec![6, 7, 8, 0, 10]);
    assert_eq!(grid[0], vec![1, 2, 3, 4, 5]);
}

#[test]
fn distance_is_manhattan() {
    assert_eq!(Coordinate(0, 2).distance_from(&Coordinate(4, 4)), 6);
    assert_eq!(Coordinate(4, 4).distance_from(&Coordinate(0, 2)), 6);
    assert_eq!(Coordinate(3, 3).distance_from(&Coordinate(3, 3)), 0);
}

#[test]
fn from() {
    assert_eq!(
        Around::from(Coordinate(2, 2)),
        Around {
            top: Some(Coordinate(2, 1)),
            right: Coordinate(3, 2),
            down: Coordinate(2, 3),
            left: Some(Coordinate(1, 2)),
        }
    );
    assert_eq!(
        Around::from(Coordinate(0, 2)),
        Around { top: Some(Coordinate(0, 1)), right: Coordinate(1, 2), down: Coordinate(0, 3), left: None }
    );
    assert_eq!(
        Around::from(Coordinate(2, 0)),
        Around { top: None, down: Coordinate(2, 1), right: Coordinate(3, 0), left: Some(Coordinate(1, 0)) }
    );
    assert_eq!(
        Around::from(Coordinate(0, 0)),
        Around { top: None, right: Coordinate(1, 0), down: Coordinate(0, 1), left: None }
    );
}

#[test]
fn tile_kinds() {
    assert!(Empty.is_passable());
    assert!(Pass.is_passable());
    assert!(!Block.is_passable());
    assert!(!Impass.is_passable());
    assert!(!Core.is_passable());
    assert!(!Spawn.is_passable());
    assert!(Core.is_region());
    assert!(Spawn.is_region());
    assert!(!Empty.is_region());
    assert!(!Block.is_region());
}

#[test]
fn vec_container() {
    let blocks = vec![Coordinate(1, 2), Coordinate(3, 4)];
    assert!(Container::contains(&blocks, &Coordinate(3, 4)));
    assert!(!Container::contains(&blocks, &Coordinate(4, 3)));
    let empty: Vec<Coordinate> = Vec::new();
    assert!(!Container::contains(&empty, &Coordinate(0, 0)));
}
