//! The visibility culler: what lies within the cull radius of the viewpoint
//! is shown, what lies at the radius or beyond is hidden.

use vstd::prelude::*;
use crate::factory::Point3;

verus! {

/// The cull radius used when none is configured: twenty units.
pub const DEFAULT_CULL_RADIUS: u32 = 20_000;

/// Something that was spawned and can be hidden: the handle by which its
/// owner knows it, where it is, and whether it is shown.
#[derive(Clone, Copy, Debug, PartialEq, Eq, Structural)]
pub struct VisibleEntity {
    pub handle: u64,
    pub position: Point3,
    pub visible: bool,
}

/// The square of the distance between two points.
pub open spec fn distance_squared(a: Point3, b: Point3) -> int {
    (a.x - b.x) * (a.x - b.x) + (a.y - b.y) * (a.y - b.y) + (a.z - b.z) * (a.z - b.z)
}

/// `position` is nearer to `viewpoint` than `radius`.
pub open spec fn in_view(viewpoint: Point3, position: Point3, radius: u32) -> bool {
    distance_squared(viewpoint, position) < radius * radius
}

/// `entity` with its flag set for `viewpoint` and `radius`.
pub open spec fn shown_from(viewpoint: Point3, radius: u32, entity: VisibleEntity) -> VisibleEntity {
    VisibleEntity { visible: in_view(viewpoint, entity.position, radius), ..entity }
}

/// The entities after one tick of culling: with a viewpoint each flag is set
/// by distance, without one nothing changes.
pub open spec fn culled(viewpoint: Option<Point3>, radius: u32, entities: Seq<VisibleEntity>) -> Seq<
    VisibleEntity,
> {
    match viewpoint {
        Some(from) => entities.map_values(|e: VisibleEntity| shown_from(from, radius, e)),
        None => entities,
    }
}

/// The distance between two coordinates.
fn span(a: i64, b: i64) -> (d: u64)
    ensures
        d == if a <= b {
            b - a
        } else {
            a - b
        },
{
    if a <= b {
        (b as i128 - a as i128) as u64
    } else {
        (a as i128 - b as i128) as u64
    }
}

/// Whether `position` is nearer to `viewpoint` than `radius`. A point at
/// exactly the radius is not.
pub fn within_radius(viewpoint: &Point3, position: &Point3, radius: u32) -> (near: bool)
    ensures
        near == in_view(*viewpoint, *position, radius),
{
    let dx = span(viewpoint.x, position.x);
    let dy = span(viewpoint.y, position.y);
    let dz = span(viewpoint.z, position.z);
    let r = radius as u64;
    let ghost total = distance_squared(*viewpoint, *position);
    proof {
        assert(total == dx * dx + dy * dy + dz * dz) by (nonlinear_arith)
            requires
                total == (viewpoint.x - position.x) * (viewpoint.x - position.x) + (viewpoint.y
                    - position.y) * (viewpoint.y - position.y) + (viewpoint.z - position.z) * (
                viewpoint.z - position.z),
                dx == viewpoint.x - position.x || dx == position.x - viewpoint.x,
                dy == viewpoint.y - position.y || dy == position.y - viewpoint.y,
                dz == viewpoint.z - position.z || dz == position.z - viewpoint.z,
        ;
        assert(dx * dx >= 0 && dy * dy >= 0 && dz * dz >= 0) by (nonlinear_arith);
        assert(r * r <= 0xffff_ffff * 0xffff_ffff) by (nonlinear_arith)
            requires
                r <= 0xffff_ffff,
        ;
    }
    if dx >= r || dy >= r || dz >= r {
        proof {
            assert(dx >= r ==> dx * dx >= r * r) by (nonlinear_arith);
            assert(dy >= r ==> dy * dy >= r * r) by (nonlinear_arith);
            assert(dz >= r ==> dz * dz >= r * r) by (nonlinear_arith);
        }
        return false;
    }
    proof {
        assert(dx * dx <= r * r && dy * dy <= r * r && dz * dz <= r * r) by (nonlinear_arith)
            requires
                dx < r,
                dy < r,
                dz < r,
        ;
    }
    let sum = (dx as u128) * (dx as u128) + (dy as u128) * (dy as u128) + (dz as u128) * (dz as u128);
    sum < (r as u128) * (r as u128)
}

/// One tick of culling. With a viewpoint every entity is shown exactly if
/// it is nearer to the viewpoint than `radius`; without one nothing
/// changes. Entities are neither added nor removed, and only their flags
/// are touched.
pub fn cull(viewpoint: Option<Point3>, radius: u32, entities: &mut Vec<VisibleEntity>)
    ensures
        final(entities)@ == culled(viewpoint, radius, old(entities)@),
        final(entities)@.len() == old(entities)@.len(),
{
    let from = match viewpoint {
        Some(from) => from,
        None => {
            return ;
        },
    };
    let ghost before = entities@;
    let mut i: usize = 0;
    while i < entities.len()
        invariant
            i <= entities@.len(),
            entities@.len() == before.len(),
            forall|j: int| 0 <= j < i ==> #[trigger] entities@[j] == shown_from(from, radius, before[j]),
            forall|j: int| i <= j < before.len() ==> #[trigger] entities@[j] == before[j],
        decreases entities@.len() - i,
    {
        let entity = entities[i];
        let near = within_radius(&from, &entity.position, radius);
        entities[i] = VisibleEntity { handle: entity.handle, position: entity.position, visible: near };
        i += 1;
    }
    assert(entities@ =~= culled(viewpoint, radius, before));
}

/// Culling twice from the same viewpoint with the same radius leaves what
/// culling once leaves.
pub proof fn lemma_cull_idempotent(viewpoint: Option<Point3>, radius: u32, entities: Seq<VisibleEntity>)
    ensures
        culled(viewpoint, radius, culled(viewpoint, radius, entities)) == culled(
            viewpoint,
            radius,
            entities,
        ),
{
    assert(culled(viewpoint, radius, culled(viewpoint, radius, entities)) =~= culled(
        viewpoint,
        radius,
        entities,
    ));
}

/// Culling keeps every entity's handle and position, and sets no flag by
/// anything but the entity's own distance from the viewpoint.
pub proof fn lemma_cull_keeps_entities(
    viewpoint: Option<Point3>,
    radius: u32,
    entities: Seq<VisibleEntity>,
    i: int,
)
    requires
        0 <= i < entities.len(),
    ensures
        culled(viewpoint, radius, entities).len() == entities.len(),
        culled(viewpoint, radius, entities)[i].handle == entities[i].handle,
        culled(viewpoint, radius, entities)[i].position == entities[i].position,
        viewpoint matches Some(from) ==> culled(viewpoint, radius, entities)[i].visible == in_view(
            from,
            entities[i].position,
            radius,
        ),
        viewpoint is None ==> culled(viewpoint, radius, entities)[i] == entities[i],
{
}

} // verus!
