use maze_world::carver::carve;
use maze_world::expander::{expand, CellKind, HeightPolicy, PhysicalCell};
use maze_world::factory::{describe, spawn_descriptors, Extent3, Layout, Point3, SpawnDescriptor};
use rand::rngs::StdRng;
use rand::SeedableRng;

const POLICY: HeightPolicy = HeightPolicy { open: 0, wall_low: 800, wall_high: 1000 };
const LAYOUT: Layout = Layout { spacing: 2000, height_scale: 4 };

#[test]
fn a_wall_is_described_by_spacing_height_and_scale() {
    let cell = PhysicalCell { px: 3, py: 5, height: 900, kind: CellKind::Wall };
    let descriptor = describe(&cell, &LAYOUT);
    assert_eq!(
        descriptor,
        SpawnDescriptor {
            position: Point3 { x: 6000, y: 900, z: 10000 },
            extent: Extent3 { x: 2000, y: 3600, z: 2000 },
            kind: CellKind::Wall,
        }
    );
    assert!(descriptor.needs_collider());
    assert_eq!(descriptor.half_extent(), Extent3 { x: 1000, y: 1800, z: 1000 });
}

#[test]
fn an_open_cell_is_flat_and_needs_no_collider() {
    let cell = PhysicalCell { px: 0, py: 4, height: 0, kind: CellKind::Open };
    let descriptor = describe(&cell, &LAYOUT);
    assert_eq!(descriptor.position, Point3 { x: 0, y: 0, z: 8000 });
    assert_eq!(descriptor.extent, Extent3 { x: 2000, y: 0, z: 2000 });
    assert_eq!(descriptor.kind, CellKind::Open);
    assert!(!descriptor.needs_collider());
}

#[test]
fn the_largest_values_do_not_overflow() {
    let cell = PhysicalCell { px: 509, py: 509, height: u32::MAX, kind: CellKind::Wall };
    let layout = Layout { spacing: u32::MAX, height_scale: u32::MAX };
    let descriptor = describe(&cell, &layout);
    assert_eq!(descriptor.position.x, 509 * 4294967295i64);
    assert_eq!(descriptor.position.y, 4294967295i64);
    assert_eq!(descriptor.extent.y, 4294967295u64 * 4294967295u64);
    assert_eq!(descriptor.half_extent().x, 2147483647);
}

#[test]
fn there_is_one_descriptor_for_each_physical_cell() {
    for size in 1..=6usize {
        let mut rng = StdRng::seed_from_u64(12);
        let grid = carve(size, &mut rng).expect("an accepted size");
        let physical = expand(&grid, &POLICY, &mut rng).expect("the wall range is not empty");
        let descriptors = spawn_descriptors(&physical, &LAYOUT);
        assert_eq!(descriptors.len(), (2 * size) * (2 * size));
    }
}

#[test]
fn descriptors_come_column_by_column() {
    let size = 4;
    let mut rng = StdRng::seed_from_u64(3);
    let grid = carve(size, &mut rng).expect("an accepted size");
    let physical = expand(&grid, &POLICY, &mut rng).expect("the wall range is not empty");
    let layout = Layout { spacing: 1500, height_scale: 3 };
    let descriptors = spawn_descriptors(&physical, &layout);
    for px in 0..2 * size {
        for py in 0..2 * size {
            let cell = physical.cell(px, py);
            let descriptor = descriptors[px * 2 * size + py];
            assert_eq!(descriptor, describe(&cell, &layout));
            assert_eq!(descriptor.position.x, px as i64 * 1500);
            assert_eq!(descriptor.position.z, py as i64 * 1500);
            assert_eq!(descriptor.position.y, cell.height as i64);
            assert_eq!(descriptor.extent.y, cell.height as u64 * 3);
            assert_eq!(descriptor.kind, cell.kind);
            assert_eq!(descriptor.needs_collider(), cell.kind == CellKind::Wall);
        }
    }
}
