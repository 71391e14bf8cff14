use maze_world::culler::{cull, within_radius, VisibleEntity, DEFAULT_CULL_RADIUS};
use maze_world::factory::Point3;

fn at(x: i64, y: i64, z: i64) -> Point3 {
    Point3 { x, y, z }
}

fn entity(handle: u64, position: Point3, visible: bool) -> VisibleEntity {
    VisibleEntity { handle, position, visible }
}

#[test]
fn the_default_radius_is_twenty_units() {
    assert_eq!(DEFAULT_CULL_RADIUS, 20_000);
}

#[test]
fn just_inside_the_radius_is_visible_and_just_outside_is_hidden() {
    let viewpoint = at(0, 0, 0);
    assert!(within_radius(&viewpoint, &at(19_990, 0, 0), 20_000));
    assert!(!within_radius(&viewpoint, &at(20_010, 0, 0), 20_000));
    assert!(within_radius(&viewpoint, &at(0, 0, -19_999), 20_000));
    assert!(!within_radius(&viewpoint, &at(0, -20_001, 0), 20_000));
}

#[test]
fn exactly_at_the_radius_is_hidden() {
    let viewpoint = at(1000, 2000, 3000);
    assert!(!within_radius(&viewpoint, &at(21_000, 2000, 3000), 20_000));
    // 3-4-5 and 2-3-6-7 triples
    assert!(!within_radius(&viewpoint, &at(4000, 6000, 3000), 5000));
    assert!(within_radius(&viewpoint, &at(4000, 6000, 3000), 5001));
    assert!(!within_radius(&viewpoint, &at(3000, 5000, 9000), 7000));
    assert!(within_radius(&viewpoint, &at(3000, 5000, 9000), 7001));
}

#[test]
fn nothing_is_within_a_radius_of_zero() {
    let viewpoint = at(5, 5, 5);
    assert!(!within_radius(&viewpoint, &viewpoint, 0));
    assert!(within_radius(&viewpoint, &viewpoint, 1));
}

#[test]
fn distance_is_taken_in_all_three_axes() {
    let viewpoint = at(0, 0, 0);
    // each axis alone is inside, all three together are outside
    assert!(within_radius(&viewpoint, &at(15_000, 0, 0), 20_000));
    assert!(!within_radius(&viewpoint, &at(15_000, 15_000, 0), 20_000));
    assert!(within_radius(&viewpoint, &at(11_000, 11_000, 11_000), 20_000));
    assert!(!within_radius(&viewpoint, &at(12_000, 12_000, 12_000), 20_000));
}

#[test]
fn the_farthest_points_do_not_overflow() {
    let low = at(i64::MIN, i64::MIN, i64::MIN);
    let high = at(i64::MAX, i64::MAX, i64::MAX);
    assert!(!within_radius(&low, &high, u32::MAX));
    assert!(!within_radius(&high, &low, u32::MAX));
    assert!(within_radius(&high, &high, 1));
    assert!(within_radius(&at(0, 0, 0), &at(4_294_967_294, 0, 0), u32::MAX));
    assert!(!within_radius(&at(0, 0, 0), &at(4_294_967_295, 0, 0), u32::MAX));
    assert!(!within_radius(&at(0, 0, 0), &at(4_294_967_294, 4_294_967_294, 0), u32::MAX));
}

#[test]
fn culling_sets_each_flag_by_distance() {
    let mut entities = vec![
        entity(1, at(19_990, 0, 0), false),
        entity(2, at(20_010, 0, 0), true),
        entity(3, at(0, 0, 0), false),
        entity(4, at(0, 20_000, 0), true),
    ];
    cull(Some(at(0, 0, 0)), 20_000, &mut entities);
    assert_eq!(
        entities,
        vec![
            entity(1, at(19_990, 0, 0), true),
            entity(2, at(20_010, 0, 0), false),
            entity(3, at(0, 0, 0), true),
            entity(4, at(0, 20_000, 0), false),
        ]
    );
}

#[test]
fn culling_again_changes_nothing() {
    let mut entities = Vec::new();
    for i in 0..50i64 {
        entities.push(entity(i as u64, at(i * 1000, 0, (i % 7) * 3000), i % 2 == 0));
    }
    let viewpoint = Some(at(10_000, 0, 5000));
    cull(viewpoint, DEFAULT_CULL_RADIUS, &mut entities);
    let once = entities.clone();
    cull(viewpoint, DEFAULT_CULL_RADIUS, &mut entities);
    assert_eq!(entities, once);
    assert!(once.iter().any(|e| e.visible));
    assert!(once.iter().any(|e| !e.visible));
}

#[test]
fn without_a_viewpoint_nothing_changes() {
    let mut entities = vec![entity(1, at(0, 0, 0), false), entity(2, at(90_000, 0, 0), true)];
    let before = entities.clone();
    cull(None, 20_000, &mut entities);
    assert_eq!(entities, before);
}

#[test]
fn culling_nothing_is_fine() {
    let mut entities: Vec<VisibleEntity> = Vec::new();
    cull(Some(at(0, 0, 0)), 20_000, &mut entities);
    assert!(entities.is_empty());
    cull(None, 20_000, &mut entities);
    assert!(entities.is_empty());
}

#[test]
fn culling_keeps_handles_and_positions() {
    let mut entities = vec![entity(7, at(1, 2, 3), true), entity(9, at(-50_000, 2, 3), true)];
    cull(Some(at(0, 0, 0)), 20_000, &mut entities);
    assert_eq!(entities.len(), 2);
    assert_eq!(entities[0].handle, 7);
    assert_eq!(entities[0].position, at(1, 2, 3));
    assert_eq!(entities[1].handle, 9);
    assert_eq!(entities[1].position, at(-50_000, 2, 3));
    assert!(entities[0].visible);
    assert!(!entities[1].visible);
}

#[test]
fn a_moved_viewpoint_shows_what_came_near() {
    let mut entities = vec![entity(1, at(0, 0, 0), false), entity(2, at(100_000, 0, 0), false)];
    cull(Some(at(0, 0, 0)), 20_000, &mut entities);
    assert!(entities[0].visible && !entities[1].visible);
    cull(Some(at(95_000, 0, 0)), 20_000, &mut entities);
    assert!(!entities[0].visible && entities[1].visible);
}
