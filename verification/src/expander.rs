//! The grid expander: from the logical board of edge `n` to the physical
//! grid of edge `2 * n`, in which rooms, passages and walls each take one
//! cell.

use rand::rngs::StdRng;
use vstd::prelude::*;
use crate::board::MAX_BOARD_SIZE;
use crate::config::ConfigError;
use crate::grid::LogicalGrid;
use crate::paths::Maze;
use crate::random::draw_in;

verus! {

/// Whether a physical cell can be walked through.
#[derive(Clone, Copy, Debug, PartialEq, Eq, Structural)]
pub enum CellKind {
    /// A room or a passage.
    Open,
    /// A wall.
    Wall,
}

/// The heights that physical cells are given, in thousandths of a unit:
/// `open` for every passage, and for each wall a value drawn from
/// `wall_low..wall_high`.
#[derive(Clone, Copy, Debug, PartialEq, Eq, Structural)]
pub struct HeightPolicy {
    pub open: u32,
    pub wall_low: u32,
    pub wall_high: u32,
}

/// One cell of the physical grid.
#[derive(Clone, Copy, Debug, PartialEq, Eq, Structural)]
pub struct PhysicalCell {
    pub px: usize,
    pub py: usize,
    /// Height in thousandths of a unit.
    pub height: u32,
    pub kind: CellKind,
}

/// `(px, py)` stands for a cell of the logical board.
pub open spec fn is_room(px: int, py: int) -> bool {
    px % 2 == 0 && py % 2 == 0
}

/// The kind of the physical cell at `(px, py)`: rooms are open, the cell
/// between two rooms is open exactly if a passage joins them, and all else
/// is wall.
pub open spec fn kind_at(maze: Maze, px: int, py: int) -> CellKind {
    let x = px / 2;
    let y = py / 2;
    if px % 2 == 0 && py % 2 == 0 {
        CellKind::Open
    } else if px % 2 == 1 && py % 2 == 0 {
        if maze.links.contains(((x, y), (x + 1, y))) {
            CellKind::Open
        } else {
            CellKind::Wall
        }
    } else if px % 2 == 0 && py % 2 == 1 {
        if maze.links.contains(((x, y), (x, y + 1))) {
            CellKind::Open
        } else {
            CellKind::Wall
        }
    } else {
        CellKind::Wall
    }
}

/// The physical cell at `(px, py)`, given the height `sample` drawn for it:
/// a room has the height of its logical cell, a passage the open height,
/// and a wall the sample.
pub open spec fn cell_for(
    grid: LogicalGrid,
    policy: HeightPolicy,
    px: int,
    py: int,
    sample: u32,
) -> PhysicalCell {
    let kind = kind_at(grid@, px, py);
    let height = if is_room(px, py) {
        grid.cell_at((px / 2, py / 2)).height as u32
    } else if kind == CellKind::Open {
        policy.open
    } else {
        sample
    };
    PhysicalCell { px: px as usize, py: py as usize, height, kind }
}

/// `cell` is the physical cell at `(px, py)` for some height drawn from the
/// wall range.
pub open spec fn expands(
    grid: LogicalGrid,
    policy: HeightPolicy,
    px: int,
    py: int,
    cell: PhysicalCell,
) -> bool {
    exists|sample: u32|
        policy.wall_low <= sample < policy.wall_high && cell == #[trigger] cell_for(
            grid,
            policy,
            px,
            py,
            sample,
        )
}

/// `cells` is a physical grid of `grid`: its edge is twice that of `grid`
/// and each of its cells expands `grid` at its place.
pub open spec fn is_expansion(
    grid: LogicalGrid,
    policy: HeightPolicy,
    cells: Seq<Seq<PhysicalCell>>,
) -> bool {
    &&& cells.len() == 2 * grid@.size
    &&& forall|px: int| 0 <= px < cells.len() ==> (#[trigger] cells[px]).len() == cells.len()
    &&& forall|px: int, py: int|
        0 <= px < cells.len() && 0 <= py < cells.len() ==> expands(
            grid,
            policy,
            px,
            py,
            #[trigger] cells[px][py],
        )
}

/// The physical grid: `size * size` cells, `size` being twice the edge of
/// the logical board it was expanded from.
#[derive(Clone, Debug, PartialEq, Eq)]
pub struct PhysicalGrid {
    size: usize,
    cells: Vec<Vec<PhysicalCell>>,
}

impl View for PhysicalGrid {
    type V = Seq<Seq<PhysicalCell>>;

    closed spec fn view(&self) -> Seq<Seq<PhysicalCell>> {
        self.cells@.map_values(|row: Vec<PhysicalCell>| row@)
    }
}

impl PhysicalGrid {
    /// The grid is square, of an even edge of at most twice
    /// `MAX_BOARD_SIZE`, and every cell knows its place.
    pub closed spec fn wf(&self) -> bool {
        &&& self.size == self.cells@.len()
        &&& 2 <= self.size <= 2 * MAX_BOARD_SIZE
        &&& self.size % 2 == 0
        &&& forall|px: int| 0 <= px < self.size ==> (#[trigger] self.cells@[px])@.len() == self.size
        &&& forall|px: int, py: int|
            0 <= px < self.size && 0 <= py < self.size ==> (#[trigger] self.cells@[px]@[py]).px
                == px && self.cells@[px]@[py].py == py
    }

    /// A well-formed grid is square and every cell knows its place.
    pub proof fn lemma_wf(&self)
        requires
            self.wf(),
        ensures
            2 <= self@.len() <= 2 * MAX_BOARD_SIZE,
            self@.len() % 2 == 0,
            forall|px: int| 0 <= px < self@.len() ==> (#[trigger] self@[px]).len() == self@.len(),
            forall|px: int, py: int|
                0 <= px < self@.len() && 0 <= py < self@.len() ==> (#[trigger] self@[px][py]).px
                    == px && self@[px][py].py == py,
    {
        assert forall|px: int, py: int| 0 <= px < self@.len() && 0 <= py < self@.len() implies (
        #[trigger] self@[px][py]).px == px && self@[px][py].py == py by {
            assert(self@[px][py] == self.cells@[px]@[py]);
        }
    }

    /// The edge of the grid.
    pub fn size(&self) -> (size: usize)
        requires
            self.wf(),
        ensures
            size == self@.len(),
            2 <= size <= 2 * MAX_BOARD_SIZE,
    {
        self.size
    }

    /// The cell at `(px, py)`.
    pub fn cell(&self, px: usize, py: usize) -> (cell: PhysicalCell)
        requires
            self.wf(),
            px < self@.len(),
            py < self@.len(),
        ensures
            cell == self@[px as int][py as int],
    {
        self.cells[px][py]
    }

    /// Whether the cell at `(px, py)` is open. Cells off the grid are not.
    pub fn is_open(&self, px: usize, py: usize) -> (open: bool)
        requires
            self.wf(),
        ensures
            open == (px < self@.len() && py < self@.len() && self@[px as int][py as int].kind
                == CellKind::Open),
    {
        if px < self.size && py < self.size {
            match self.cells[px][py].kind {
                CellKind::Open => true,
                CellKind::Wall => false,
            }
        } else {
            false
        }
    }
}

/// The kind of the physical cell at `(px, py)` over `grid`.
pub fn kind_of(grid: &LogicalGrid, px: usize, py: usize) -> (kind: CellKind)
    requires
        grid.wf(),
        px < 2 * grid@.size,
        py < 2 * grid@.size,
    ensures
        kind == kind_at(grid@, px as int, py as int),
{
    proof {
        grid.lemma_spanning_tree();
    }
    let x = px / 2;
    let y = py / 2;
    if px % 2 == 0 && py % 2 == 0 {
        CellKind::Open
    } else if px % 2 == 1 && py % 2 == 0 {
        if grid.linked((x, y), (x + 1, y)) {
            CellKind::Open
        } else {
            CellKind::Wall
        }
    } else if px % 2 == 0 && py % 2 == 1 {
        if grid.linked((x, y), (x, y + 1)) {
            CellKind::Open
        } else {
            CellKind::Wall
        }
    } else {
        CellKind::Wall
    }
}

/// The physical cell at `(px, py)` over `grid`, given the height `sample`
/// drawn for it.
pub fn physical_cell(
    grid: &LogicalGrid,
    policy: &HeightPolicy,
    px: usize,
    py: usize,
    sample: u32,
) -> (cell: PhysicalCell)
    requires
        grid.wf(),
        px < 2 * grid@.size,
        py < 2 * grid@.size,
    ensures
        cell == cell_for(*grid, *policy, px as int, py as int, sample),
{
    proof {
        grid.lemma_spanning_tree();
    }
    let kind = kind_of(grid, px, py);
    let height = if px % 2 == 0 && py % 2 == 0 {
        grid.cell(px / 2, py / 2).height()
    } else {
        match kind {
            CellKind::Open => policy.open,
            CellKind::Wall => sample,
        }
    };
    PhysicalCell { px, py, height, kind }
}

/// Expands `grid` into its physical grid, drawing one height from the wall
/// range for each physical cell. An empty wall range is turned down before
/// anything is drawn. Otherwise the result has twice the edge of `grid`; each
/// of its cells is the one that `cell_for` gives for a height of the wall
/// range; in particular a cell at two odd coordinates is a wall.
pub fn expand(grid: &LogicalGrid, policy: &HeightPolicy, rng: &mut StdRng) -> (expanded: Result<
    PhysicalGrid,
    ConfigError,
>)
    requires
        grid.wf(),
    ensures
        policy.wall_low >= policy.wall_high ==> expanded == Err::<PhysicalGrid, ConfigError>(
            ConfigError::EmptyWallRange,
        ),
        policy.wall_low < policy.wall_high ==> expanded is Ok && expanded->Ok_0.wf()
            && is_expansion(*grid, *policy, expanded->Ok_0@),
{
    if policy.wall_low >= policy.wall_high {
        return Err(ConfigError::EmptyWallRange);
    }
    let n = grid.size();
    let size = 2 * n;
    let mut cells: Vec<Vec<PhysicalCell>> = Vec::new();
    let mut px: usize = 0;
    while px < size
        invariant
            grid.wf(),
            n == grid@.size,
            size == 2 * n,
            1 <= n <= MAX_BOARD_SIZE,
            policy.wall_low < policy.wall_high,
            px <= size,
            cells@.len() == px,
            forall|i: int| 0 <= i < px ==> (#[trigger] cells@[i])@.len() == size,
            forall|i: int, j: int|
                0 <= i < px && 0 <= j < size ==> expands(
                    *grid,
                    *policy,
                    i,
                    j,
                    #[trigger] cells@[i]@[j],
                ),
        decreases size - px,
    {
        let mut row: Vec<PhysicalCell> = Vec::new();
        let mut py: usize = 0;
        while py < size
            invariant
                grid.wf(),
                n == grid@.size,
                size == 2 * n,
                policy.wall_low < policy.wall_high,
                px < size,
                py <= size,
                row@.len() == py,
                forall|j: int|
                    0 <= j < py ==> expands(*grid, *policy, px as int, j, #[trigger] row@[j]),
            decreases size - py,
        {
            let sample = draw_in(rng, policy.wall_low as u64, policy.wall_high as u64) as u32;
            let cell = physical_cell(grid, policy, px, py, sample);
            assert(expands(*grid, *policy, px as int, py as int, cell)) by {
                assert(cell == cell_for(*grid, *policy, px as int, py as int, sample));
            }
            row.push(cell);
            py += 1;
        }
        cells.push(row);
        px += 1;
    }
    let expanded = PhysicalGrid { size, cells };
    proof {
        assert forall|i: int, j: int| 0 <= i < size && 0 <= j < size implies expands(
            *grid,
            *policy,
            i,
            j,
            #[trigger] expanded@[i][j],
        ) by {
            assert(expanded@[i][j] == expanded.cells@[i]@[j]);
        }
        assert forall|i: int| 0 <= i < size implies (#[trigger] expanded@[i]).len() == size by {
            assert(expanded@[i] == expanded.cells@[i]@);
        }
        assert forall|i: int, j: int| 0 <= i < size && 0 <= j < size implies (
        #[trigger] expanded.cells@[i]@[j]).px == i && expanded.cells@[i]@[j].py == j by {
            assert(expands(*grid, *policy, i, j, expanded.cells@[i]@[j]));
        }
    }
    Ok(expanded)
}

/// In an expansion every cell has the kind that the maze gives its place;
/// a cell at two odd coordinates is a wall, and a wall's height lies in the
/// wall range.
pub proof fn lemma_expansion_kinds(
    grid: LogicalGrid,
    policy: HeightPolicy,
    cells: Seq<Seq<PhysicalCell>>,
    px: int,
    py: int,
)
    requires
        is_expansion(grid, policy, cells),
        0 <= px < cells.len(),
        0 <= py < cells.len(),
    ensures
        cells[px][py].kind == kind_at(grid@, px, py),
        px % 2 == 1 && py % 2 == 1 ==> cells[px][py].kind == CellKind::Wall,
        is_room(px, py) ==> cells[px][py].kind == CellKind::Open && cells[px][py].height
            == grid.cell_at((px / 2, py / 2)).height as u32,
        !is_room(px, py) && cells[px][py].kind == CellKind::Open ==> cells[px][py].height
            == policy.open,
        cells[px][py].kind == CellKind::Wall ==> policy.wall_low <= cells[px][py].height
            < policy.wall_high,
{
    assert(expands(grid, policy, px, py, cells[px][py]));
}

} // verus!
