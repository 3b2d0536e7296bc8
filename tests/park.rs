use sanctum_solver::app::App;
use sanctum_solver::map::blocks::Build;
use sanctum_solver::map::coordinate::Coordinate;
use sanctum_solver::map::path::Path;
use sanctum_solver::map::shortest_path::{same_paths, ShortestPath};
use sanctum_solver::map::tileset::{Error, Tileset};
use sanctum_solver::map::Tile::{Block, Core, Empty, Impass, Pass, Spawn};
use sanctum_solver::map::{MapDocument, Tile};

/// The map Park, with its one spawn region on the left.
fn park() -> Vec<Vec<Tile>> {
    vec![
        vec![Impass, Impass, Impass, Impass, Impass, Impass, Impass, Impass, Impass, Impass, Impass, Empty, Empty, Empty, Empty, Empty],
        vec![Pass, Pass, Pass, Pass, Empty, Empty, Empty, Empty, Empty, Impass, Impass, Empty, Empty, Empty, Empty, Empty],
        vec![Spawn, Pass, Pass, Pass, Empty, Empty, Empty, Empty, Empty, Impass, Impass, Empty, Empty, Empty, Empty, Empty],
        vec![Pass, Pass, Pass, Pass, Empty, Empty, Empty, Empty, Empty, Empty, Empty, Empty, Empty, Empty, Empty, Empty],
        vec![Pass, Pass, Pass, Pass, Empty, Empty, Empty, Empty, Empty, Empty, Empty, Empty, Empty, Empty, Empty, Empty],
        vec![Impass, Impass, Impass, Impass, Empty, Empty, Empty, Empty, Empty, Empty, Empty, Empty, Empty, Empty, Empty, Empty],
        vec![Impass, Impass, Impass, Impass, Empty, Empty, Empty, Empty, Empty, Empty, Empty, Empty, Empty, Empty, Empty, Empty],
        vec![Impass, Impass, Impass, Impass, Empty, Empty, Empty, Empty, Empty, Empty, Empty, Empty, Empty, Empty, Empty, Empty],
        vec![Impass, Impass, Impass, Impass, Empty, Empty, Empty, Empty, Empty, Empty, Empty, Empty, Empty, Empty, Empty, Empty],
        vec![Impass, Impass, Impass, Impass, Empty, Empty, Empty, Empty, Empty, Empty, Empty, Empty, Empty, Empty, Impass, Empty],
        vec![Impass, Impass, Impass, Impass, Pass, Pass, Pass, Pass, Empty, Empty, Empty, Empty, Empty, Empty, Empty, Empty],
        vec![Impass, Impass, Impass, Impass, Pass, Core, Core, Pass, Empty, Empty, Empty, Empty, Empty, Empty, Empty, Empty],
        vec![Impass, Impass, Impass, Impass, Pass, Core, Core, Pass, Empty, Empty, Empty, Impass, Empty, Empty, Empty, Empty],
        vec![Impass, Impass, Impass, Impass, Pass, Pass, Pass, Pass, Empty, Empty, Empty, Empty, Empty, Empty, Empty, Empty],
    ]
}

/// Park with a second spawn region on the right.
fn park_two_spawn() -> Vec<Vec<Tile>> {
    let mut grid = park();
    grid[5][15] = Spawn;
    grid
}

/// The empty cells around the core of Park.
fn exits(grid: &Vec<Vec<Tile>>) -> Vec<Coordinate> {
    Tileset::get_adjacent_to(grid, Coordinate(5, 11), Empty).into_iter().map(|(c, _)| c).collect()
}

fn starts(tileset: &Tileset, region: usize) -> Vec<Coordinate> {
    tileset.entrances_by_region[region].iter().map(|(c, _)| *c).collect()
}

/// Checks a path of `desired_len` cells: all passable but the last, which is a region.
fn assertion(tileset: &Tileset, path: &ShortestPath, desired_len: usize) {
    let cells = path.coordinates();
    assert_eq!(cells.len(), desired_len);
    assert!(cells[0..(desired_len - 1)].iter().all(|c| c.get_from(&tileset.grid).unwrap().is_passable()));
    assert!(cells[desired_len - 1].get_from(&tileset.grid).unwrap().is_region());
}

/// Checks a path of `desired_len` cells, all passable.
fn path_assertion(tileset: &Tileset, path: &Path, desired_len: usize) {
    assert_eq!(path.0.len(), desired_len);
    assert!(path.0.iter().all(|c| c.get_from(&tileset.grid).unwrap().is_passable()));
}

fn region_lengths(tileset: &Tileset, blocks: &Vec<Coordinate>, diagonals: bool) -> Vec<Option<usize>> {
    ShortestPath::from_entrances_to_any_core(tileset, Some(blocks), diagonals)
        .iter()
        .map(|p| p.as_ref().map(|p| p.len()))
        .collect()
}

#[test]
fn entrances() {
    let entrances = Tileset::entrances(&park());
    assert_eq!(entrances.len(), 1);
    assert_eq!(
        entrances[0],
        vec![(Coordinate(4, 1), 5), (Coordinate(4, 2), 4), (Coordinate(4, 3), 5), (Coordinate(4, 4), 6)]
    );
}

#[test]
fn exit_perimeter() {
    assert_eq!(
        exits(&park()),
        vec![
            Coordinate(4, 9),
            Coordinate(5, 9),
            Coordinate(6, 9),
            Coordinate(7, 9),
            Coordinate(8, 10),
            Coordinate(8, 11),
            Coordinate(8, 12),
            Coordinate(8, 13),
        ]
    );
}

#[test]
fn separate_regions() {
    let grid = park_two_spawn();
    let core_regions = Tileset::separate_regions(&grid, Core).unwrap();
    let spawn_regions = Tileset::separate_regions(&grid, Spawn).unwrap();
    assert_eq!(core_regions.len(), 1);
    let mut core = core_regions[0].clone();
    core.sort();
    assert_eq!(core, vec![Coordinate(5, 11), Coordinate(5, 12), Coordinate(6, 11), Coordinate(6, 12)]);
    assert!(Tileset::separate_regions(&grid, Impass).is_err());
    assert_eq!(spawn_regions.len(), 2);
    assert_eq!(spawn_regions[0], vec![Coordinate(0, 2)]);
    assert_eq!(spawn_regions[1], vec![Coordinate(15, 5)]);
}

#[test]
fn separate_regions_refuses_other_kinds() {
    let grid = park();
    assert_eq!(Tileset::separate_regions(&grid, Empty), Err(Error::NotRegion { tile: Empty }));
    assert_eq!(Tileset::separate_regions(&grid, Block), Err(Error::NotRegion { tile: Block }));
}

#[test]
fn new_keeps_grid() {
    let tileset = Tileset::new(park_two_spawn());
    assert_eq!(tileset.grid, park_two_spawn());
    assert_eq!(tileset.entrances_by_region.len(), 2);
    assert_eq!(
        tileset.entrances_by_region[1],
        vec![(Coordinate(14, 5), 1), (Coordinate(15, 4), 1), (Coordinate(15, 6), 1)]
    );
}

#[test]
fn empty_grid_has_no_regions() {
    let tileset = Tileset::new(Vec::new());
    assert!(tileset.entrances_by_region.is_empty());
    let build = Build::from_entrances_to_any_core(&tileset, false, None);
    assert!(build.blocks.is_empty());
}

#[test]
fn shortest_from_any_to() {
    let tileset = Tileset::new(park_two_spawn());
    let ends = exits(&tileset.grid);
    let paths: Vec<Path> = (0..tileset.entrances_by_region.len())
        .filter_map(|i| Path::shortest_from_any_to(&tileset, &starts(&tileset, i), &ends))
        .collect();
    assert_eq!(paths.len(), 2);
    path_assertion(&tileset, &paths[0], 6);
    path_assertion(&tileset, &paths[1], 12);
}

#[test]
fn shortest_from_coordinate_to() {
    let tileset = Tileset::new(park());
    let ends = exits(&tileset.grid);
    let path = Path::shortest_from_coordinate_to(&tileset, Coordinate(4, 4), &ends).unwrap();
    let desired_len = 6;
    assert_eq!(path.0.len(), desired_len);
    assert!(path.0[..(desired_len - 1)].iter().all(|c| c.get_from(&tileset.grid).unwrap().is_passable()));
    assert_eq!(path.coordinates().last(), Some(&Coordinate(4, 9)));
}

#[test]
fn shortest_from_coordinate_to_refuses_blocked_start() {
    let tileset = Tileset::new(park());
    let ends = exits(&tileset.grid);
    assert!(Path::shortest_from_coordinate_to(&tileset, Coordinate(0, 0), &ends).is_none());
    assert!(Path::shortest_from_coordinate_to(&tileset, Coordinate(40, 0), &ends).is_none());
}

#[test]
fn shortest_from_entrances_to_any_exit() {
    let tileset = Tileset::new(park_two_spawn());
    let ends = exits(&tileset.grid);
    let paths: Vec<Path> =
        Path::shortest_from_entrances_to_any_exit(&tileset, &ends).into_iter().flatten().collect();
    assert_eq!(paths.len(), 2);
    path_assertion(&tileset, &paths[0], 6);
    path_assertion(&tileset, &paths[1], 12);
}

#[test]
fn from_any_grid_coordinate_to_tile() {
    let tileset = Tileset::new(park_two_spawn());
    let paths: Vec<Option<ShortestPath>> = tileset
        .entrances_by_region
        .iter()
        .map(|entrances| {
            ShortestPath::from_any_grid_coordinate_to_tile(
                &tileset.grid,
                Option::<&Vec<Coordinate>>::None,
                entrances,
                Core,
                true,
            )
        })
        .collect();
    let all = ShortestPath::from_entrances_to_any_core(&tileset, Option::<&Vec<Coordinate>>::None, true);
    assert!(same_paths(&paths, &all));
    let paths: Vec<ShortestPath> = paths.into_iter().flatten().collect();
    assert_eq!(paths.len(), 2);
    // Each entrance of the left region is 14 long counted from its distance;
    // the first of them in coordinate order, (4, 2), is kept.
    assert_eq!(paths[0].len(), 14);
    assert_eq!(paths[0].start_distance(), Some(4));
    assertion(&tileset, &paths[0], 10);
    assert_eq!(paths[1].len(), 10);
    assertion(&tileset, &paths[1], 9);
}

#[test]
fn from_grid_coordinate_to_tile() {
    let tileset = Tileset::new(park());
    let entrance = tileset.entrances_by_region[0].iter().find(|(c, _)| *c == Coordinate(4, 4)).unwrap();
    let path = ShortestPath::from_grid_coordinate_to_tile(
        &tileset.grid,
        Option::<&Vec<Coordinate>>::None,
        entrance.0,
        Some(entrance.1),
        Core,
        true,
    )
    .unwrap();
    assertion(&tileset, &path, 8);
    assert_eq!(path.len(), 8 + 6);
}

#[test]
fn orthogonal_search_from_entrance() {
    let tileset = Tileset::new(park());
    let path = ShortestPath::from_grid_coordinate_to_tile(
        &tileset.grid,
        Option::<&Vec<Coordinate>>::None,
        Coordinate(4, 4),
        None,
        Core,
        false,
    )
    .unwrap();
    assertion(&tileset, &path, 9);
    assert_eq!(path.len(), 9);
    assert_eq!(path.core_cell(), *path.coordinates().last().unwrap());
    assert_eq!(region_lengths(&tileset, &Vec::new(), false), vec![Some(15)]);
}

#[test]
fn search_reads_blocks() {
    let tileset = Tileset::new(park());
    let blocks = vec![Coordinate(4, 5), Coordinate(5, 5), Coordinate(6, 5), Coordinate(7, 5)];
    let path = ShortestPath::from_grid_coordinate_to_tile(&tileset.grid, Some(&blocks), Coordinate(4, 4), None, Core, false)
        .unwrap();
    assert!(path.coordinates().iter().all(|c| !blocks.contains(c)));
    assert!(path.len() > 9);
    assert!(ShortestPath::from_grid_coordinate_to_tile(&tileset.grid, Some(&blocks), Coordinate(4, 5), None, Core, false)
        .is_none());
}

#[test]
fn search_without_core_finds_nothing() {
    let grid = vec![vec![Empty, Empty, Pass], vec![Impass, Impass, Empty]];
    assert!(ShortestPath::from_grid_coordinate_to_tile(&grid, Option::<&Vec<Coordinate>>::None, Coordinate(0, 0), None, Core, true)
        .is_none());
    let found = ShortestPath::from_grid_coordinate_to_tile(&grid, Option::<&Vec<Coordinate>>::None, Coordinate(0, 0), None, Pass, false)
        .unwrap();
    assert_eq!(found.coordinates(), &vec![Coordinate(0, 0), Coordinate(1, 0), Coordinate(2, 0)]);
}

#[test]
fn diagonal_cannot_cut_a_corner() {
    let grid = vec![
        vec![Empty, Impass, Core],
        vec![Empty, Impass, Empty],
        vec![Empty, Empty, Empty],
    ];
    let path = ShortestPath::from_grid_coordinate_to_tile(&grid, Option::<&Vec<Coordinate>>::None, Coordinate(0, 1), None, Core, true)
        .unwrap();
    // The wall in the middle column sends the walk round it:
    // (0, 1) -> (1, 2) -> (2, 1) -> (2, 0).
    assert_eq!(path.len(), 4);
    let walled = vec![vec![Empty, Impass, Core], vec![Impass, Empty, Empty]];
    let none = ShortestPath::from_grid_coordinate_to_tile(&walled, Option::<&Vec<Coordinate>>::None, Coordinate(0, 0), None, Core, true);
    assert!(none.is_none());
}

#[test]
fn is_valid() {
    let tileset = Tileset::new(park_two_spawn());
    assert!(Build::is_valid(&tileset, &Vec::<Coordinate>::new()));
    assert!(Build::is_valid(&tileset, &vec![Coordinate(4, 1)]));
    assert!(!Build::is_valid(
        &tileset,
        &vec![
            Coordinate(4, 1),
            Coordinate(5, 2),
            Coordinate(5, 3),
            Coordinate(5, 4),
            Coordinate(5, 5),
            Coordinate(4, 6),
        ],
    ));
}

#[test]
fn placement_closest_to_core() {
    let tileset = Tileset::new(park());
    let path = ShortestPath::from_grid_coordinate_to_tile(&tileset.grid, Option::<&Vec<Coordinate>>::None, Coordinate(4, 4), None, Core, false)
        .unwrap();
    let cells = path.coordinates().clone();
    let placed = Build::find_valid_block_placement(&tileset, &Vec::<Coordinate>::new(), &cells).unwrap();
    let last_empty = cells.iter().rev().find(|c| c.get_from(&tileset.grid) == Some(Empty)).unwrap();
    assert_eq!(placed, *last_empty);
    let walled = vec![Coordinate(4, 1), Coordinate(4, 2), Coordinate(4, 3)];
    assert_eq!(Build::find_valid_block_placement(&tileset, &walled, &vec![Coordinate(4, 4)]), None);
}

#[test]
fn apply_twice_is_apply_once() {
    let build = Build { blocks: vec![Coordinate(4, 4), Coordinate(8, 8)] };
    let mut once = park();
    build.apply_to(&mut once);
    assert_eq!(once[4][4], Block);
    assert_eq!(once[8][8], Block);
    assert_eq!(once[4][5], Empty);
    let mut twice = once.clone();
    build.apply_to(&mut twice);
    assert_eq!(once, twice);
}

#[test]
fn round_robin_run() {
    let tileset = Tileset::new(park_two_spawn());
    let before = region_lengths(&tileset, &Vec::new(), false);
    let build = Build::from_entrances_to_any_core(&tileset, false, None);
    assert!(!build.blocks.is_empty());
    assert!(Build::is_valid(&tileset, &build.blocks));
    assert!(build.blocks.iter().all(|c| c.get_from(&tileset.grid) == Some(Empty)));
    let after = region_lengths(&tileset, &build.blocks, false);
    for (b, a) in before.iter().zip(after.iter()) {
        assert!(a.unwrap() >= b.unwrap());
    }
    assert!(after.iter().zip(before.iter()).any(|(a, b)| a.unwrap() > b.unwrap()));
}

#[test]
fn round_robin_leaves_no_placement_on_final_paths() {
    let tileset = Tileset::new(park_two_spawn());
    let build = Build::from_entrances_to_any_core(&tileset, false, None);
    for path in ShortestPath::from_entrances_to_any_core(&tileset, Some(&build.blocks), false).into_iter().flatten() {
        assert_eq!(Build::find_valid_block_placement(&tileset, &build.blocks, path.coordinates()), None);
    }
}

#[test]
fn block_cap_honoured() {
    let tileset = Tileset::new(park_two_spawn());
    for cap in [0usize, 1, 3] {
        let round_robin = Build::from_entrances_to_any_core(&tileset, false, Some(cap));
        assert!(round_robin.blocks.len() <= cap);
        let priority = Build::from_entrances_to_any_core_with_priority(&tileset, true, Some(cap));
        assert!(priority.blocks.len() <= cap);
    }
    let one = Build::from_entrances_to_any_core(&tileset, false, Some(1));
    assert_eq!(one.blocks.len(), 1);
}

#[test]
fn priority_run() {
    let tileset = Tileset::new(park_two_spawn());
    let before = region_lengths(&tileset, &Vec::new(), false);
    let first = Build::from_entrances_to_any_core_with_priority(&tileset, false, Some(1));
    assert_eq!(first.blocks.len(), 1);
    let after_first = region_lengths(&tileset, &first.blocks, false);
    // The left region has the shorter path, so the first block stands on it.
    assert!(before[0].unwrap() < before[1].unwrap());
    let initial = ShortestPath::from_entrances_to_any_core(&tileset, Option::<&Vec<Coordinate>>::None, false);
    assert!(initial[0].as_ref().unwrap().coordinates().contains(&first.blocks[0]));
    assert!(after_first[0].unwrap() >= before[0].unwrap());
    let build = Build::from_entrances_to_any_core_with_priority(&tileset, false, None);
    assert!(Build::is_valid(&tileset, &build.blocks));
    let after = region_lengths(&tileset, &build.blocks, false);
    for (b, a) in before.iter().zip(after.iter()) {
        assert!(a.unwrap() >= b.unwrap());
    }
}

#[test]
fn solve_map() {
    let app = App { blocks: Some(4), diagonals: true, prioritize: false };
    let map = MapDocument { name: String::from("Park"), grid: park_two_spawn(), shortest_path_length: None };
    let solved = app.solve(map);
    assert_eq!(solved.name, "Park");
    let blocks: usize = solved.grid.iter().map(|row| row.iter().filter(|t| **t == Block).count()).sum();
    assert!(blocks <= 4 && blocks > 0);
    let lengths = solved.shortest_path_length.unwrap();
    assert_eq!(lengths.len(), 2);
    assert!(lengths.iter().all(|l| l.is_some()));
}

#[test]
fn paths_order_by_length_then_cells() {
    let tileset = Tileset::new(park());
    let none = Option::<&Vec<Coordinate>>::None;
    let near = ShortestPath::from_grid_coordinate_to_tile(&tileset.grid, none, Coordinate(4, 4), None, Core, false).unwrap();
    let far = ShortestPath::from_grid_coordinate_to_tile(&tileset.grid, none, Coordinate(4, 1), None, Core, false).unwrap();
    let offset = ShortestPath::from_grid_coordinate_to_tile(&tileset.grid, none, Coordinate(4, 4), Some(3), Core, false).unwrap();
    assert_eq!(near.len(), 9);
    assert_eq!(far.len(), 12);
    assert!(near < far);
    assert!(far > near);
    assert!(near < offset);
    assert!(near == near.clone_path());
    assert!(near != offset);
    assert_eq!(near.compare(&near.clone_path()), std::cmp::Ordering::Equal);
    let again = ShortestPath::from_grid_coordinate_to_tile(&tileset.grid, none, Coordinate(4, 4), Some(0), Core, false).unwrap();
    // The same cells, counted from no distance and from distance zero.
    assert_eq!(near.len(), again.len());
    assert!(near < again);
}

#[test]
fn regions_in_scan_order() {
    let mut grid = park();
    grid[0][15] = Spawn;
    grid[1][15] = Spawn;
    grid[13][0] = Spawn;
    let spawns = Tileset::separate_regions(&grid, Spawn).unwrap();
    assert_eq!(spawns.len(), 3);
    assert_eq!(spawns[0][0], Coordinate(15, 0));
    assert_eq!(spawns[0].len(), 2);
    assert_eq!(spawns[1], vec![Coordinate(0, 2)]);
    assert_eq!(spawns[2], vec![Coordinate(0, 13)]);
}

#[test]
fn priority_run_ends_on_a_settled_region() {
    let tileset = Tileset::new(park_two_spawn());
    for diagonals in [false, true] {
        let build = Build::from_entrances_to_any_core_with_priority(&tileset, diagonals, None);
        assert!(Build::is_valid(&tileset, &build.blocks));
        let paths = ShortestPath::from_entrances_to_any_core(&tileset, Some(&build.blocks), diagonals);
        assert!(paths.iter().flatten().any(|p| {
            Build::find_valid_block_placement(&tileset, &build.blocks, p.coordinates()).is_none()
        }));
    }
}

#[test]
fn solved_grid_keeps_paths() {
    let app = App { blocks: None, diagonals: false, prioritize: true };
    let map = MapDocument { name: String::from("Park"), grid: park_two_spawn(), shortest_path_length: None };
    let solved = app.solve(map);
    let emitted = Tileset { grid: solved.grid.clone(), entrances_by_region: Tileset::new(park_two_spawn()).entrances_by_region };
    assert!(Build::is_valid(&emitted, &Vec::<Coordinate>::new()));
    assert_eq!(Some(region_lengths(&emitted, &Vec::new(), false)), solved.shortest_path_length);
}
