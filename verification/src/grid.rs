//! The finished logical board.

use vstd::prelude::*;
use crate::board::{in_grid, Coord, MAX_BOARD_SIZE};
use crate::cell::{Cell, CellView};
use crate::paths::{acyclic, connected, edge_count, spanning_tree, symmetric, Link, Maze};

verus! {

/// `rows` holds `n` rows of `n` entries each.
pub open spec fn square<T>(rows: Seq<Vec<T>>, n: nat) -> bool {
    &&& rows.len() == n
    &&& forall|x: int| 0 <= x < n ==> (#[trigger] rows[x])@.len() == n
}

/// `cell` sits at `c`, names no neighbour twice, and names exactly the
/// coordinates that `links` joins `c` to.
pub open spec fn cell_matches(cell: CellView, c: Coord, links: Set<Link>) -> bool {
    &&& cell.x == c.0
    &&& cell.y == c.1
    &&& cell.children.no_duplicates()
    &&& forall|d: Coord| cell.children.contains(d) <==> links.contains((c, d))
}

/// Every cell of `rows` matches `links` at its place.
pub open spec fn cells_match(rows: Seq<Vec<Cell>>, n: nat, links: Set<Link>) -> bool {
    forall|x: int, y: int|
        0 <= x < n && 0 <= y < n ==> cell_matches((#[trigger] rows[x]@[y])@, (x, y), links)
}

/// A carved board: `size * size` cells joined into a spanning tree. It is
/// made by carving and never changes afterwards.
#[derive(Clone, Debug, PartialEq, Eq)]
pub struct LogicalGrid {
    size: usize,
    cells: Vec<Vec<Cell>>,
}

impl View for LogicalGrid {
    type V = Maze;

    closed spec fn view(&self) -> Maze {
        Maze {
            size: self.size as nat,
            links: Set::new(
                |l: Link|
                    in_grid(self.size as nat, l.0) && self.cells@[l.0.0]@[l.0.1]@.children.contains(
                        l.1,
                    ),
            ),
        }
    }
}

impl LogicalGrid {
    /// The board is square, every cell knows its place and its passages,
    /// and the passages form a spanning tree.
    pub closed spec fn wf(&self) -> bool {
        &&& 1 <= self.size <= MAX_BOARD_SIZE
        &&& square(self.cells@, self.size as nat)
        &&& cells_match(self.cells@, self.size as nat, self@.links)
        &&& spanning_tree(self@)
    }

    /// What the cell at `c` is.
    pub closed spec fn cell_at(&self, c: Coord) -> CellView {
        self.cells@[c.0]@[c.1]@
    }

    /// Puts a board together from cells that match a spanning tree.
    pub(crate) fn assemble(size: usize, cells: Vec<Vec<Cell>>, Ghost(maze): Ghost<Maze>) -> (grid:
        LogicalGrid)
        requires
            1 <= size <= MAX_BOARD_SIZE,
            maze.size == size,
            spanning_tree(maze),
            square(cells@, size as nat),
            cells_match(cells@, size as nat, maze.links),
        ensures
            grid.wf(),
            grid@ == maze,
            forall|x: int, y: int|
                0 <= x < size && 0 <= y < size ==> #[trigger] grid.cell_at((x, y)) == cells@[x]@[y]@,
    {
        let grid = LogicalGrid { size, cells };
        proof {
            let n = size as nat;
            assert forall|l: Link| grid@.links.contains(l) <==> maze.links.contains(l) by {
                if grid@.links.contains(l) {
                    assert(cell_matches(grid.cells@[l.0.0]@[l.0.1]@, (l.0.0, l.0.1), maze.links));
                    assert(l == ((l.0.0, l.0.1), l.1));
                }
                if maze.links.contains(l) {
                    assert(maze.links.contains((l.0, l.1)));
                    assert(in_grid(n, l.0));
                    assert(cell_matches(grid.cells@[l.0.0]@[l.0.1]@, (l.0.0, l.0.1), maze.links));
                    assert(l.0 == (l.0.0, l.0.1));
                }
            }
            assert(grid@.links =~= maze.links);
        }
        grid
    }

    /// A well-formed board is a spanning tree whose cells record its
    /// passages: every cell can be reached from every other, there are
    /// `size * size - 1` passages, each runs both ways between adjacent
    /// cells, and none closes a cycle.
    pub proof fn lemma_spanning_tree(&self)
        requires
            self.wf(),
        ensures
            spanning_tree(self@),
            1 <= self@.size <= MAX_BOARD_SIZE,
            edge_count(self@) == self@.size * self@.size - 1,
            connected(self@.size, self@.links),
            symmetric(self@.links),
            acyclic(self@.links),
            forall|c: Coord| #[trigger]
                in_grid(self@.size, c) ==> cell_matches(self.cell_at(c), c, self@.links),
    {
        assert forall|c: Coord| #[trigger] in_grid(self@.size, c) implies cell_matches(
            self.cell_at(c),
            c,
            self@.links,
        ) by {
            assert(cell_matches(self.cells@[c.0]@[c.1]@, (c.0, c.1), self@.links));
            assert(c == (c.0, c.1));
        }
    }

    /// The edge of the board.
    pub fn size(&self) -> (size: usize)
        requires
            self.wf(),
        ensures
            size == self@.size,
            1 <= size <= MAX_BOARD_SIZE,
    {
        self.size
    }

    /// The cell at `(x, y)`.
    pub fn cell(&self, x: usize, y: usize) -> (cell: &Cell)
        requires
            self.wf(),
            x < self@.size,
            y < self@.size,
        ensures
            cell@ == self.cell_at((x as int, y as int)),
            cell_matches(cell@, (x as int, y as int), self@.links),
    {
        assert(cell_matches(self.cells@[x as int]@[y as int]@, (x as int, y as int), self@.links));
        &self.cells[x][y]
    }

    /// Whether a passage joins the cells at `a` and `b`. Coordinates off the
    /// board have no passage.
    pub fn linked(&self, a: (usize, usize), b: (usize, usize)) -> (linked: bool)
        requires
            self.wf(),
        ensures
            linked == self@.links.contains(((a.0 as int, a.1 as int), (b.0 as int, b.1 as int))),
    {
        if a.0 < self.size && a.1 < self.size {
            assert(cell_matches(
                self.cells@[a.0 as int]@[a.1 as int]@,
                (a.0 as int, a.1 as int),
                self@.links,
            ));
            self.cells[a.0][a.1].is_linked_to(b.0, b.1)
        } else {
            false
        }
    }

    /// The number of passages, each counted once.
    pub fn edge_count(&self) -> (count: usize)
        requires
            self.wf(),
        ensures
            count == edge_count(self@),
            count == self@.size * self@.size - 1,
    {
        assert(self.size * self.size <= MAX_BOARD_SIZE * MAX_BOARD_SIZE) by (nonlinear_arith)
            requires
                1 <= self.size <= MAX_BOARD_SIZE,
        ;
        assert(1 <= self.size * self.size) by (nonlinear_arith)
            requires
                1 <= self.size,
        ;
        self.size * self.size - 1
    }
}

} // verus!
