use maze_world::board::MAX_BOARD_SIZE;
use maze_world::config::{ConfigError, WorldConfig};
use maze_world::culler::DEFAULT_CULL_RADIUS;
use maze_world::expander::{CellKind, HeightPolicy};
use maze_world::factory::Layout;
use maze_world::world::{generate, generate_with, GenerateError};
use rand::rngs::StdRng;
use rand::SeedableRng;

fn config(board_size: usize, seed: Option<u64>) -> WorldConfig {
    WorldConfig { board_size, seed, ..WorldConfig::default() }
}

#[test]
fn the_default_configuration_is_the_documented_one() {
    let defaults = WorldConfig::default();
    assert_eq!(defaults.board_size, 50);
    assert_eq!(defaults.seed, None);
    assert_eq!(defaults.heights, HeightPolicy { open: 0, wall_low: 800, wall_high: 1000 });
    assert_eq!(defaults.layout, Layout { spacing: 2000, height_scale: 4 });
    assert_eq!(defaults.cull_radius, DEFAULT_CULL_RADIUS);
    assert_eq!(defaults.validate(), Ok(()));
}

#[test]
fn faults_are_named_board_size_first() {
    assert_eq!(config(0, None).validate(), Err(ConfigError::BoardSizeZero));
    assert_eq!(config(MAX_BOARD_SIZE + 1, None).validate(), Err(ConfigError::BoardSizeTooLarge));
    assert_eq!(config(MAX_BOARD_SIZE, None).validate(), Ok(()));
    assert_eq!(config(1, None).validate(), Ok(()));
    let no_walls = HeightPolicy { open: 0, wall_low: 5, wall_high: 5 };
    let flat = WorldConfig { heights: no_walls, ..config(3, None) };
    assert_eq!(flat.validate(), Err(ConfigError::EmptyWallRange));
    let both = WorldConfig { heights: no_walls, ..config(0, None) };
    assert_eq!(both.validate(), Err(ConfigError::BoardSizeZero));
    let both = WorldConfig { heights: no_walls, ..config(1000, None) };
    assert_eq!(both.validate(), Err(ConfigError::BoardSizeTooLarge));
}

#[test]
fn a_faulty_configuration_generates_nothing() {
    assert_eq!(generate(&config(0, Some(1))), Err(GenerateError::Config(ConfigError::BoardSizeZero)));
    assert_eq!(
        generate(&config(256, None)),
        Err(GenerateError::Config(ConfigError::BoardSizeTooLarge))
    );
    let no_walls = HeightPolicy { open: 0, wall_low: 9, wall_high: 3 };
    assert_eq!(
        generate(&WorldConfig { heights: no_walls, ..config(4, Some(1)) }),
        Err(GenerateError::Config(ConfigError::EmptyWallRange))
    );
    let mut rng = StdRng::seed_from_u64(1);
    assert_eq!(generate_with(&config(0, None), &mut rng), Err(ConfigError::BoardSizeZero));
    assert_eq!(
        generate_with(&WorldConfig { heights: no_walls, ..config(4, None) }, &mut rng),
        Err(ConfigError::EmptyWallRange)
    );
}

#[test]
fn a_board_of_three_gives_eight_edges_and_thirty_six_descriptors() {
    let world = generate(&config(3, Some(2024))).expect("the configuration is sound");
    assert_eq!(world.logical.size(), 3);
    assert_eq!(world.logical.edge_count(), 8);
    let mut degrees = 0;
    for x in 0..3 {
        for y in 0..3 {
            degrees += world.logical.cell(x, y).degree();
        }
    }
    assert_eq!(degrees, 16);
    assert_eq!(world.physical.size(), 6);
    assert_eq!(world.descriptors.len(), 36);
    let open = world.descriptors.iter().filter(|d| d.kind == CellKind::Open).count();
    // nine rooms and eight passages
    assert_eq!(open, 17);
    let again = generate(&config(3, Some(2024))).expect("the configuration is sound");
    assert_eq!(world, again);
}

#[test]
fn the_same_seed_generates_the_same_world() {
    for size in [1usize, 2, 5, 20] {
        let first = generate(&config(size, Some(7))).expect("the configuration is sound");
        let second = generate(&config(size, Some(7))).expect("the configuration is sound");
        assert_eq!(first.logical, second.logical);
        assert_eq!(first.physical, second.physical);
        assert_eq!(first.descriptors, second.descriptors);
    }
}

#[test]
fn a_seeded_world_is_the_one_its_random_source_gives() {
    let with_seed = generate(&config(9, Some(5))).expect("the configuration is sound");
    let mut rng = StdRng::seed_from_u64(5);
    let with_source = generate_with(&config(9, None), &mut rng).expect("the configuration is sound");
    assert_eq!(with_seed, with_source);
}

#[test]
fn without_a_seed_a_world_is_generated_too() {
    match generate(&config(6, None)) {
        Ok(world) => {
            assert_eq!(world.logical.edge_count(), 35);
            assert_eq!(world.descriptors.len(), 144);
        }
        Err(e) => assert_eq!(e, GenerateError::NoEntropy),
    }
}

#[test]
fn descriptors_follow_the_physical_grid() {
    let configured = WorldConfig {
        heights: HeightPolicy { open: 20, wall_low: 500, wall_high: 600 },
        layout: Layout { spacing: 3000, height_scale: 2 },
        ..config(5, Some(99))
    };
    let world = generate(&configured).expect("the configuration is sound");
    let size = world.physical.size();
    assert_eq!(size, 10);
    for px in 0..size {
        for py in 0..size {
            let cell = world.physical.cell(px, py);
            let descriptor = world.descriptors[px * size + py];
            assert_eq!(descriptor.position.x, 3000 * px as i64);
            assert_eq!(descriptor.position.z, 3000 * py as i64);
            assert_eq!(descriptor.position.y, cell.height as i64);
            assert_eq!(descriptor.extent.x, 3000);
            assert_eq!(descriptor.extent.z, 3000);
            assert_eq!(descriptor.extent.y, 2 * cell.height as u64);
            assert_eq!(descriptor.kind, cell.kind);
            match cell.kind {
                CellKind::Wall => assert!(500 <= cell.height && cell.height < 600),
                CellKind::Open => {
                    assert_eq!(cell.height, if px % 2 == 0 && py % 2 == 0 { 0 } else { 20 })
                }
            }
        }
    }
}

#[test]
fn a_fixed_seed_gives_a_fixed_world() {
    let world = generate(&config(3, Some(2024))).expect("the configuration is sound");
    let expected: [[Vec<(usize, usize)>; 3]; 3] = [
        [vec![(1, 0), (0, 1)], vec![(0, 0), (0, 2)], vec![(0, 1), (1, 2)]],
        [vec![(1, 1), (0, 0)], vec![(1, 0)], vec![(0, 2), (2, 2)]],
        [vec![(2, 1)], vec![(2, 2), (2, 0)], vec![(1, 2), (2, 1)]],
    ];
    for x in 0..3 {
        for y in 0..3 {
            assert_eq!(world.logical.cell(x, y).children(), &expected[x][y]);
        }
    }
    let kinds = [
        "OOOOOW",
        "OWWWOW",
        "OOOWOW",
        "WWWWOW",
        "OOOOOW",
        "WWWWWW",
    ];
    for px in 0..6 {
        for py in 0..6 {
            let open = kinds[px].as_bytes()[py] == b'O';
            assert_eq!(world.physical.cell(px, py).kind == CellKind::Open, open);
        }
    }
    let walls: Vec<u32> = (0..6).map(|py| world.physical.cell(5, py).height).collect();
    assert_eq!(walls, vec![843, 873, 851, 892, 972, 881]);
    assert_eq!(world.physical.cell(0, 5).height, 967);
    assert_eq!(world.physical.cell(1, 1).height, 920);
}

#[test]
fn other_seeds_generate_other_worlds() {
    let first = generate(&config(20, Some(1))).expect("the configuration is sound");
    let mut differing = 0;
    for seed in 2..12u64 {
        let other = generate(&config(20, Some(seed))).expect("the configuration is sound");
        if other.logical != first.logical {
            differing += 1;
        }
    }
    assert!(differing >= 9);
}
