//! The world cell factory: one spawn descriptor for each physical cell.
//! Nothing is spawned here; the descriptors are for whoever renders the
//! world and builds its colliders.

use vstd::prelude::*;
use crate::board::MAX_BOARD_SIZE;
use crate::expander::{CellKind, PhysicalCell, PhysicalGrid};

verus! {

/// A point of the world, in thousandths of a unit.
#[derive(Clone, Copy, Debug, PartialEq, Eq, Structural)]
pub struct Point3 {
    pub x: i64,
    pub y: i64,
    pub z: i64,
}

/// The size of a box along each axis, in thousandths of a unit.
#[derive(Clone, Copy, Debug, PartialEq, Eq, Structural)]
pub struct Extent3 {
    pub x: u64,
    pub y: u64,
    pub z: u64,
}

/// How physical cells are laid out in the world: `spacing` thousandths of a
/// unit from one cell to the next, and a box `height_scale` times as tall as
/// the cell is high.
#[derive(Clone, Copy, Debug, PartialEq, Eq, Structural)]
pub struct Layout {
    pub spacing: u32,
    pub height_scale: u32,
}

/// What is to be spawned for one physical cell: where its box is centered,
/// how large the box is, and whether the cell is open or a wall.
#[derive(Clone, Copy, Debug, PartialEq, Eq, Structural)]
pub struct SpawnDescriptor {
    pub position: Point3,
    pub extent: Extent3,
    pub kind: CellKind,
}

/// The descriptor of `cell` under `layout`: the cell's grid coordinates
/// times the spacing give `x` and `z`, its height gives `y`; the box is one
/// spacing wide and deep, and the height times the scale tall.
pub open spec fn descriptor_of(cell: PhysicalCell, layout: Layout) -> SpawnDescriptor {
    SpawnDescriptor {
        position: Point3 {
            x: (cell.px * layout.spacing) as i64,
            y: cell.height as i64,
            z: (cell.py * layout.spacing) as i64,
        },
        extent: Extent3 {
            x: layout.spacing as u64,
            y: (cell.height * layout.height_scale) as u64,
            z: layout.spacing as u64,
        },
        kind: cell.kind,
    }
}

/// The descriptors of a whole grid, column by column: the descriptor of the
/// cell at `(px, py)` stands at index `px * size + py`.
pub open spec fn descriptors_of(cells: Seq<Seq<PhysicalCell>>, layout: Layout) -> Seq<
    SpawnDescriptor,
> {
    Seq::new(
        cells.len() * cells.len(),
        |i: int| descriptor_of(cells[i / cells.len() as int][i % cells.len() as int], layout),
    )
}

impl SpawnDescriptor {
    /// Whether a collider belongs to what is spawned: walls get one, open
    /// cells get none.
    pub fn needs_collider(&self) -> (needed: bool)
        ensures
            needed == (self.kind == CellKind::Wall),
    {
        match self.kind {
            CellKind::Wall => true,
            CellKind::Open => false,
        }
    }

    /// Half the box along each axis, rounded down: what a collider that is
    /// given by half extents takes.
    pub fn half_extent(&self) -> (half: Extent3)
        ensures
            half == (Extent3 { x: self.extent.x / 2, y: self.extent.y / 2, z: self.extent.z / 2 }),
    {
        Extent3 { x: self.extent.x / 2, y: self.extent.y / 2, z: self.extent.z / 2 }
    }
}

/// The spawn descriptor of one physical cell.
pub fn describe(cell: &PhysicalCell, layout: &Layout) -> (descriptor: SpawnDescriptor)
    requires
        cell.px < 2 * MAX_BOARD_SIZE,
        cell.py < 2 * MAX_BOARD_SIZE,
    ensures
        descriptor == descriptor_of(*cell, *layout),
{
    let spacing = layout.spacing as u64;
    assert(cell.px * layout.spacing <= 510 * 0xffff_ffff) by (nonlinear_arith)
        requires
            cell.px <= 510,
            layout.spacing <= 0xffff_ffff,
    ;
    assert(cell.py * layout.spacing <= 510 * 0xffff_ffff) by (nonlinear_arith)
        requires
            cell.py <= 510,
            layout.spacing <= 0xffff_ffff,
    ;
    assert(cell.height * layout.height_scale <= 0xffff_ffff * 0xffff_ffff) by (nonlinear_arith)
        requires
            cell.height <= 0xffff_ffff,
            layout.height_scale <= 0xffff_ffff,
    ;
    let x = cell.px as u64 * spacing;
    let z = cell.py as u64 * spacing;
    let tall = cell.height as u64 * layout.height_scale as u64;
    SpawnDescriptor {
        position: Point3 { x: x as i64, y: cell.height as i64, z: z as i64 },
        extent: Extent3 { x: spacing, y: tall, z: spacing },
        kind: cell.kind,
    }
}

/// The spawn descriptors of every cell of `grid`, column by column: one for
/// each cell, the descriptor of the cell at `(px, py)` at index
/// `px * size + py`.
pub fn spawn_descriptors(grid: &PhysicalGrid, layout: &Layout) -> (list: Vec<SpawnDescriptor>)
    requires
        grid.wf(),
    ensures
        list@ == descriptors_of(grid@, *layout),
        list@.len() == grid@.len() * grid@.len(),
{
    let size = grid.size();
    let ghost cells = grid@;
    let mut list: Vec<SpawnDescriptor> = Vec::new();
    let mut px: usize = 0;
    proof {
        grid.lemma_wf();
    }
    while px < size
        invariant
            grid.wf(),
            cells == grid@,
            size == cells.len(),
            2 <= size <= 2 * MAX_BOARD_SIZE,
            px <= size,
            list@.len() == px * size,
            forall|i: int|
                0 <= i < list@.len() ==> #[trigger] list@[i] == descriptor_of(
                    cells[i / size as int][i % size as int],
                    *layout,
                ),
        decreases size - px,
    {
        let mut py: usize = 0;
        while py < size
            invariant
                grid.wf(),
                cells == grid@,
                size == cells.len(),
                2 <= size <= 2 * MAX_BOARD_SIZE,
                px < size,
                py <= size,
                list@.len() == px * size + py,
                forall|i: int|
                    0 <= i < list@.len() ==> #[trigger] list@[i] == descriptor_of(
                        cells[i / size as int][i % size as int],
                        *layout,
                    ),
            decreases size - py,
        {
            let cell = grid.cell(px, py);
            proof {
                grid.lemma_wf();
                assert(cell.px == px && cell.py == py);
                lemma_index_split(px as int, py as int, size as int);
            }
            let descriptor = describe(&cell, layout);
            list.push(descriptor);
            py += 1;
        }
        proof {
            assert(px * size + size == (px + 1) * size) by (nonlinear_arith);
        }
        px += 1;
    }
    proof {
        assert(list@ =~= descriptors_of(cells, *layout));
    }
    list
}

/// Splitting the index `px * size + py` by `size` gives back `px` and `py`.
proof fn lemma_index_split(px: int, py: int, size: int)
    requires
        0 <= px,
        0 <= py < size,
    ensures
        (px * size + py) / size == px,
        (px * size + py) % size == py,
{
    vstd::arithmetic::div_mod::lemma_fundamental_div_mod_converse(px * size + py, size, px, py);
}

} // verus!
