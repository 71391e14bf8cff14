use maze_world::carver::{carve, MazeCarver};
use maze_world::config::ConfigError;
use maze_world::expander::{expand, kind_of, physical_cell, CellKind, HeightPolicy, PhysicalCell};
use maze_world::grid::LogicalGrid;
use rand::rngs::StdRng;
use rand::SeedableRng;

const POLICY: HeightPolicy = HeightPolicy { open: 0, wall_low: 800, wall_high: 1000 };

fn carved(size: usize, seed: u64) -> LogicalGrid {
    let mut rng = StdRng::seed_from_u64(seed);
    carve(size, &mut rng).expect("a board of an accepted size is carved")
}

/// The board of two cells a side whose walk went (1,1) -> (0,1) -> (0,0) -> (1,0).
fn small_board() -> LogicalGrid {
    let mut carver = MazeCarver::new(2).expect("two cells a side is a board");
    carver.step(0);
    carver.step(0);
    carver.step(0);
    while !carver.is_done() {
        carver.step(0);
    }
    carver.finish()
}

#[test]
fn the_physical_grid_has_twice_the_edge() {
    for size in 1..=8usize {
        let grid = carved(size, 4);
        let mut rng = StdRng::seed_from_u64(4);
        let physical = expand(&grid, &POLICY, &mut rng).expect("the wall range is not empty");
        assert_eq!(physical.size(), 2 * size);
        for px in 0..2 * size {
            for py in 0..2 * size {
                let cell = physical.cell(px, py);
                assert_eq!(cell.px, px);
                assert_eq!(cell.py, py);
            }
        }
    }
}

#[test]
fn cells_at_two_odd_coordinates_are_walls() {
    for size in 1..=8usize {
        let grid = carved(size, 17);
        let mut rng = StdRng::seed_from_u64(18);
        let physical = expand(&grid, &POLICY, &mut rng).expect("the wall range is not empty");
        for x in 0..size {
            for y in 0..size {
                assert_eq!(physical.cell(2 * x + 1, 2 * y + 1).kind, CellKind::Wall);
                assert!(!physical.is_open(2 * x + 1, 2 * y + 1));
            }
        }
    }
}

#[test]
fn rooms_are_open_and_keep_the_height_of_their_cell() {
    let grid = carved(7, 2);
    let mut rng = StdRng::seed_from_u64(2);
    let physical = expand(&grid, &POLICY, &mut rng).expect("the wall range is not empty");
    for x in 0..7 {
        for y in 0..7 {
            let room = physical.cell(2 * x, 2 * y);
            assert_eq!(room.kind, CellKind::Open);
            assert_eq!(room.height, grid.cell(x, y).height());
            assert!(physical.is_open(2 * x, 2 * y));
        }
    }
}

#[test]
fn the_cell_between_two_rooms_is_open_exactly_if_they_are_linked() {
    let policy = HeightPolicy { open: 25, wall_low: 700, wall_high: 900 };
    for seed in 0..6u64 {
        let size = 6;
        let grid = carved(size, seed);
        let mut rng = StdRng::seed_from_u64(seed + 100);
        let physical = expand(&grid, &policy, &mut rng).expect("the wall range is not empty");
        for x in 0..size {
            for y in 0..size {
                let right = physical.cell(2 * x + 1, 2 * y);
                let below = physical.cell(2 * x, 2 * y + 1);
                let linked_right = grid.linked((x, y), (x + 1, y));
                let linked_below = grid.linked((x, y), (x, y + 1));
                assert_eq!(right.kind == CellKind::Open, linked_right);
                assert_eq!(below.kind == CellKind::Open, linked_below);
                for (cell, linked) in [(right, linked_right), (below, linked_below)] {
                    if linked {
                        assert_eq!(cell.height, 25);
                    } else {
                        assert!(700 <= cell.height && cell.height < 900);
                    }
                }
            }
        }
    }
}

#[test]
fn the_cell_right_of_the_origin_follows_the_first_passage() {
    // linked: (0,0) and (1,0) are joined on the small board
    let grid = small_board();
    assert!(grid.linked((0, 0), (1, 0)));
    let mut rng = StdRng::seed_from_u64(1);
    let physical = expand(&grid, &POLICY, &mut rng).expect("the wall range is not empty");
    assert_eq!(physical.cell(1, 0).kind, CellKind::Open);
    assert_eq!(physical.cell(1, 0).height, 0);
    // not linked: (1,0) and (1,1) are not joined
    assert!(!grid.linked((1, 0), (1, 1)));
    let wall = physical.cell(2, 1);
    assert_eq!(wall.kind, CellKind::Wall);
    assert!(800 <= wall.height && wall.height < 1000);

    // over all seeds of a range: whichever way the passage came out
    for seed in 0..20u64 {
        let grid = carved(3, seed);
        let mut rng = StdRng::seed_from_u64(seed);
        let physical = expand(&grid, &POLICY, &mut rng).expect("the wall range is not empty");
        let cell = physical.cell(1, 0);
        if grid.linked((0, 0), (1, 0)) {
            assert_eq!(cell.kind, CellKind::Open);
            assert_eq!(cell.height, 0);
        } else {
            assert_eq!(cell.kind, CellKind::Wall);
            assert!(800 <= cell.height && cell.height < 1000);
        }
    }
}

#[test]
fn the_outer_edge_is_wall() {
    let size = 5;
    let grid = carved(size, 9);
    let mut rng = StdRng::seed_from_u64(9);
    let physical = expand(&grid, &POLICY, &mut rng).expect("the wall range is not empty");
    let last = 2 * size - 1;
    for i in 0..2 * size {
        assert_eq!(physical.cell(last, i).kind, CellKind::Wall);
        assert_eq!(physical.cell(i, last).kind, CellKind::Wall);
    }
    assert!(!physical.is_open(2 * size, 0));
    assert!(!physical.is_open(0, 2 * size));
}

#[test]
fn a_physical_cell_is_settled_by_the_board_and_the_sample() {
    let grid = small_board();
    let policy = HeightPolicy { open: 10, wall_low: 800, wall_high: 1000 };
    // a room
    assert_eq!(
        physical_cell(&grid, &policy, 0, 0, 950),
        PhysicalCell { px: 0, py: 0, height: 0, kind: CellKind::Open }
    );
    // a passage: (0,0)-(1,0)
    assert_eq!(
        physical_cell(&grid, &policy, 1, 0, 950),
        PhysicalCell { px: 1, py: 0, height: 10, kind: CellKind::Open }
    );
    // a passage: (0,0)-(0,1)
    assert_eq!(
        physical_cell(&grid, &policy, 0, 1, 950),
        PhysicalCell { px: 0, py: 1, height: 10, kind: CellKind::Open }
    );
    // no passage: (1,0)-(1,1)
    assert_eq!(
        physical_cell(&grid, &policy, 2, 1, 950),
        PhysicalCell { px: 2, py: 1, height: 950, kind: CellKind::Wall }
    );
    // a corner
    assert_eq!(
        physical_cell(&grid, &policy, 1, 1, 801),
        PhysicalCell { px: 1, py: 1, height: 801, kind: CellKind::Wall }
    );
    // the outer edge
    assert_eq!(
        physical_cell(&grid, &policy, 3, 0, 999),
        PhysicalCell { px: 3, py: 0, height: 999, kind: CellKind::Wall }
    );
    assert_eq!(kind_of(&grid, 1, 2), CellKind::Open);
    assert_eq!(kind_of(&grid, 3, 3), CellKind::Wall);
}

#[test]
fn an_empty_wall_range_is_turned_down() {
    let grid = carved(3, 0);
    let mut rng = StdRng::seed_from_u64(0);
    let empty = HeightPolicy { open: 0, wall_low: 900, wall_high: 900 };
    assert_eq!(expand(&grid, &empty, &mut rng), Err(ConfigError::EmptyWallRange));
    let reversed = HeightPolicy { open: 0, wall_low: 901, wall_high: 900 };
    assert_eq!(expand(&grid, &reversed, &mut rng), Err(ConfigError::EmptyWallRange));
}

#[test]
fn a_wall_range_of_one_value_gives_that_value() {
    let grid = carved(3, 0);
    let mut rng = StdRng::seed_from_u64(0);
    let policy = HeightPolicy { open: 0, wall_low: 900, wall_high: 901 };
    let physical = expand(&grid, &policy, &mut rng).expect("the wall range holds one value");
    for px in 0..6 {
        for py in 0..6 {
            let cell = physical.cell(px, py);
            if cell.kind == CellKind::Wall {
                assert_eq!(cell.height, 900);
            }
        }
    }
}

#[test]
fn wall_heights_are_drawn_and_not_fixed() {
    let grid = carved(10, 6);
    let mut rng = StdRng::seed_from_u64(6);
    let physical = expand(&grid, &POLICY, &mut rng).expect("the wall range is not empty");
    let mut lowest = u32::MAX;
    let mut highest = 0;
    for px in 0..20 {
        for py in 0..20 {
            let cell = physical.cell(px, py);
            if cell.kind == CellKind::Wall {
                assert!(800 <= cell.height && cell.height < 1000);
                lowest = lowest.min(cell.height);
                highest = highest.max(cell.height);
            }
        }
    }
    assert!(lowest < highest);
}

#[test]
fn the_same_seed_expands_to_the_same_grid() {
    let grid = carved(8, 31);
    let mut first_rng = StdRng::seed_from_u64(77);
    let mut second_rng = StdRng::seed_from_u64(77);
    let first = expand(&grid, &POLICY, &mut first_rng).expect("the wall range is not empty");
    let second = expand(&grid, &POLICY, &mut second_rng).expect("the wall range is not empty");
    assert_eq!(first, second);
}
