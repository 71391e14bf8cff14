//! One cell of the logical board.

use vstd::prelude::*;
use crate::board::Coord;

verus! {

/// The model coordinate that an executable coordinate stands for.
pub open spec fn coord_of(p: (usize, usize)) -> Coord {
    (p.0 as int, p.1 as int)
}

/// The model coordinates that a list of executable coordinates stands for.
pub open spec fn coords_of(list: Seq<(usize, usize)>) -> Seq<Coord> {
    list.map_values(|p: (usize, usize)| coord_of(p))
}

/// What a cell is, mathematically.
pub struct CellView {
    pub x: int,
    pub y: int,
    pub height: int,
    /// The cells that this one has a passage to, in the order in which the
    /// passages were carved.
    pub children: Seq<Coord>,
}

/// A cell of the logical board: where it is, how high its floor lies, and
/// which neighbours it has a passage to.
#[derive(Clone, Debug, PartialEq, Eq)]
pub struct Cell {
    height: u32,
    x: usize,
    y: usize,
    children: Vec<(usize, usize)>,
}

impl View for Cell {
    type V = CellView;

    closed spec fn view(&self) -> CellView {
        CellView {
            x: self.x as int,
            y: self.y as int,
            height: self.height as int,
            children: coords_of(self.children@),
        }
    }
}

impl Default for Cell {
    /// The cell at the origin, at height zero, with no passage.
    fn default() -> (cell: Cell)
        ensures
            cell@ == (CellView { x: 0, y: 0, height: 0, children: Seq::empty() }),
    {
        let cell = Cell { height: 0, x: 0, y: 0, children: Vec::new() };
        assert(coords_of(cell.children@) =~= Seq::empty());
        cell
    }
}

impl Cell {
    /// A cell at `(x, y)` and `height` that has no passage yet.
    pub(crate) fn isolated(x: usize, y: usize, height: u32) -> (cell: Cell)
        ensures
            cell@ == (CellView {
                x: x as int,
                y: y as int,
                height: height as int,
                children: Seq::empty(),
            }),
    {
        let cell = Cell { height, x, y, children: Vec::new() };
        assert(coords_of(cell.children@) =~= Seq::empty());
        cell
    }

    /// Records a passage from this cell to the cell at `(x, y)`.
    pub(crate) fn link(&mut self, x: usize, y: usize)
        ensures
            final(self)@.x == old(self)@.x,
            final(self)@.y == old(self)@.y,
            final(self)@.height == old(self)@.height,
            final(self)@.children == old(self)@.children.push((x as int, y as int)),
    {
        self.children.push((x, y));
        assert(coords_of(self.children@) =~= coords_of(old(self).children@).push(
            (x as int, y as int),
        ));
    }

    /// The column of the cell.
    pub fn x(&self) -> (x: usize)
        ensures
            x == self@.x,
    {
        self.x
    }

    /// The row of the cell.
    pub fn y(&self) -> (y: usize)
        ensures
            y == self@.y,
    {
        self.y
    }

    /// The height of the cell's floor.
    pub fn height(&self) -> (height: u32)
        ensures
            height == self@.height,
    {
        self.height
    }

    /// The cells that this one has a passage to, in carving order.
    pub fn children(&self) -> (list: &Vec<(usize, usize)>)
        ensures
            coords_of(list@) == self@.children,
    {
        &self.children
    }

    /// The number of passages that leave this cell.
    pub fn degree(&self) -> (count: usize)
        ensures
            count == self@.children.len(),
    {
        self.children.len()
    }

    /// Whether this cell has a passage to the cell at `(x, y)`.
    pub fn is_linked_to(&self, x: usize, y: usize) -> (linked: bool)
        ensures
            linked == self@.children.contains((x as int, y as int)),
    {
        let ghost target: Coord = (x as int, y as int);
        let mut i: usize = 0;
        while i < self.children.len()
            invariant
                i <= self.children@.len(),
                target == (x as int, y as int),
                forall|j: int| 0 <= j < i ==> coords_of(self.children@)[j] != target,
            decreases self.children@.len() - i,
        {
            let child = self.children[i];
            if child.0 == x && child.1 == y {
                assert(coords_of(self.children@)[i as int] == target);
                return true;
            }
            i += 1;
        }
        false
    }
}

} // verus!
