//! The maze carver: a randomized depth-first walk over the board, held as
//! an explicit stack of coordinates, that links every cell into one tree.

use rand::rngs::StdRng;
use vstd::prelude::*;
use crate::board::{in_grid, Coord, MAX_BOARD_SIZE};
use crate::carving::CarverModel;
use crate::cell::{coord_of, coords_of, Cell, CellView};
use crate::config::ConfigError;
use crate::grid::{cell_matches, cells_match, square, LogicalGrid};
use crate::paths::{spanning_tree, Link};
use crate::random::draw_in;

verus! {

/// What one step of the walk did.
#[derive(Clone, Copy, Debug, PartialEq, Eq)]
pub enum StepEvent {
    /// The cell at `(x, y)` had no unvisited neighbour and is finished.
    Finished { x: usize, y: usize },
    /// A passage was carved from the current cell `from` to its unvisited
    /// neighbour `to`, which is the current cell now.
    Carved { from: (usize, usize), to: (usize, usize) },
}

/// Every flag of `flags` says whether its cell is still unvisited.
spec fn flags_match(flags: Seq<Vec<bool>>, n: nat, visited: Set<Coord>) -> bool {
    forall|x: int, y: int|
        0 <= x < n && 0 <= y < n ==> (#[trigger] flags[x]@[y]) == !visited.contains((x, y))
}

/// Every cell of `rows` lies at `height`.
spec fn level(rows: Seq<Vec<Cell>>, n: nat, height: int) -> bool {
    forall|x: int, y: int| 0 <= x < n && 0 <= y < n ==> (#[trigger] rows[x]@[y])@.height == height
}

/// A carving walk in progress.
pub struct MazeCarver {
    size: usize,
    cells: Vec<Vec<Cell>>,
    remaining: Vec<Vec<bool>>,
    stack: Vec<(usize, usize)>,
    finished: usize,
    edges: usize,
    model: Ghost<CarverModel>,
}

impl View for MazeCarver {
    type V = CarverModel;

    closed spec fn view(&self) -> CarverModel {
        self.model@
    }
}

impl MazeCarver {
    /// The executable state stands for its model, and the model meets the
    /// invariant of the walk.
    pub closed spec fn wf(&self) -> bool {
        &&& 1 <= self.size <= MAX_BOARD_SIZE
        &&& self.model@.size == self.size
        &&& self.model@.inv()
        &&& square(self.cells@, self.size as nat)
        &&& square(self.remaining@, self.size as nat)
        &&& cells_match(self.cells@, self.size as nat, self.model@.links)
        &&& level(self.cells@, self.size as nat, 0)
        &&& flags_match(self.remaining@, self.size as nat, self.model@.visited)
        &&& coords_of(self.stack@) == self.model@.stack
        &&& self.finished == self.model@.finished_count()
        &&& 2 * self.edges == self.model@.links.len()
    }

    /// A well-formed carver stands for a state that meets the invariant of
    /// the walk, on a board of an accepted size.
    pub proof fn lemma_wf(&self)
        requires
            self.wf(),
        ensures
            self@.inv(),
            1 <= self@.size <= MAX_BOARD_SIZE,
    {
    }

    /// A carver at the start of its walk over a board of edge `board_size`:
    /// only the center is visited and nothing is carved. A board without
    /// cells, or with an edge above `MAX_BOARD_SIZE`, is turned down.
    pub fn new(board_size: usize) -> (made: Result<MazeCarver, ConfigError>)
        ensures
            board_size == 0 ==> made == Err::<MazeCarver, ConfigError>(ConfigError::BoardSizeZero),
            board_size > MAX_BOARD_SIZE ==> made == Err::<MazeCarver, ConfigError>(
                ConfigError::BoardSizeTooLarge,
            ),
            1 <= board_size <= MAX_BOARD_SIZE ==> made is Ok && made->Ok_0.wf() && made->Ok_0@
                == CarverModel::start(board_size as nat),
    {
        if board_size == 0 {
            return Err(ConfigError::BoardSizeZero);
        }
        if board_size > MAX_BOARD_SIZE {
            return Err(ConfigError::BoardSizeTooLarge);
        }
        let ghost n = board_size as nat;
        let ghost model = CarverModel::start(n);
        let half = board_size / 2;
        let mut cells: Vec<Vec<Cell>> = Vec::new();
        let mut remaining: Vec<Vec<bool>> = Vec::new();
        let mut x: usize = 0;
        while x < board_size
            invariant
                x <= board_size,
                half == board_size / 2,
                cells@.len() == x,
                remaining@.len() == x,
                forall|i: int| 0 <= i < x ==> (#[trigger] cells@[i])@.len() == board_size,
                forall|i: int| 0 <= i < x ==> (#[trigger] remaining@[i])@.len() == board_size,
                forall|i: int, j: int|
                    0 <= i < x && 0 <= j < board_size ==> (#[trigger] cells@[i]@[j])@ == (CellView {
                        x: i,
                        y: j,
                        height: 0,
                        children: Seq::empty(),
                    }),
                forall|i: int, j: int|
                    0 <= i < x && 0 <= j < board_size ==> (#[trigger] remaining@[i]@[j]) == !(i
                        == half && j == half),
            decreases board_size - x,
        {
            let mut row: Vec<Cell> = Vec::new();
            let mut flags: Vec<bool> = Vec::new();
            let mut y: usize = 0;
            while y < board_size
                invariant
                    y <= board_size,
                    x < board_size,
                    row@.len() == y,
                    flags@.len() == y,
                    forall|j: int|
                        0 <= j < y ==> (#[trigger] row@[j])@ == (CellView {
                            x: x as int,
                            y: j,
                            height: 0,
                            children: Seq::empty(),
                        }),
                    forall|j: int| 0 <= j < y ==> (#[trigger] flags@[j]) == !(x == half && j == half),
                decreases board_size - y,
            {
                row.push(Cell::isolated(x, y, 0));
                flags.push(!(x == half && y == half));
                y += 1;
            }
            cells.push(row);
            remaining.push(flags);
            x += 1;
        }
        let mut stack: Vec<(usize, usize)> = Vec::new();
        stack.push((half, half));
        let carver = MazeCarver {
            size: board_size,
            cells,
            remaining,
            stack,
            finished: 0,
            edges: 0,
            model: Ghost(model),
        };
        proof {
            CarverModel::lemma_start_inv(n);
            assert(coords_of(carver.stack@) =~= model.stack);
            assert(model.links.len() == 0);
            assert forall|i: int, j: int| 0 <= i < n && 0 <= j < n implies cell_matches(
                (#[trigger] carver.cells@[i]@[j])@,
                (i, j),
                model.links,
            ) by {
                let cell = carver.cells@[i]@[j]@;
                assert(cell.children.len() == 0);
            }
        }
        Ok(carver)
    }

    /// Whether the walk has ended.
    pub fn is_done(&self) -> (done: bool)
        requires
            self.wf(),
        ensures
            done == self@.is_done(),
    {
        self.stack.len() == 0
    }

    /// The number of cells finished so far.
    pub fn finished_cells(&self) -> (count: usize)
        requires
            self.wf(),
        ensures
            count == self@.finished_count(),
    {
        self.finished
    }

    /// The number of passages carved so far, each counted once.
    pub fn edges_carved(&self) -> (count: usize)
        requires
            self.wf(),
        ensures
            2 * count == self@.links.len(),
    {
        self.edges
    }

    /// The unvisited neighbours of the current cell, in the order `x + 1`,
    /// `x - 1`, `y + 1`, `y - 1`.
    pub fn options(&self) -> (list: Vec<(usize, usize)>)
        requires
            self.wf(),
            !self@.is_done(),
        ensures
            coords_of(list@) == self@.options(),
    {
        let ghost model = self.model@;
        let ghost n = self.size as nat;
        let top = self.stack.len() - 1;
        let (cx, cy) = self.stack[top];
        proof {
            assert(coords_of(self.stack@)[top as int] == model.stack[top as int]);
            assert(model.current() == (cx as int, cy as int));
            assert(model.visited.contains(model.stack[top as int]));
            assert(in_grid(n, model.current()));
        }
        let ghost c = model.current();
        let ghost east = model.option_at((c.0 + 1, c.1));
        let ghost west = model.option_at((c.0 - 1, c.1));
        let ghost south = model.option_at((c.0, c.1 + 1));
        let ghost north = model.option_at((c.0, c.1 - 1));
        let mut list: Vec<(usize, usize)> = Vec::new();
        assert(coords_of(list@) =~= Seq::empty());
        if cx + 1 < self.size && self.remaining[cx + 1][cy] {
            list.push((cx + 1, cy));
        }
        assert(coords_of(list@) =~= east);
        if cx != 0 && self.remaining[cx - 1][cy] {
            list.push((cx - 1, cy));
        }
        assert(coords_of(list@) =~= east + west);
        if cy + 1 < self.size && self.remaining[cx][cy + 1] {
            list.push((cx, cy + 1));
        }
        assert(coords_of(list@) =~= east + west + south);
        if cy != 0 && self.remaining[cx][cy - 1] {
            list.push((cx, cy - 1));
        }
        assert(coords_of(list@) =~= east + west + south + north);
        list
    }

    /// Takes one step of the walk. If the current cell has no unvisited
    /// neighbour it is finished and leaves the stack. Otherwise the option
    /// at index `pick` is entered: it is no longer unvisited, a passage joins
    /// it with the current cell, and it becomes the current cell.
    pub fn step(&mut self, pick: usize) -> (event: StepEvent)
        requires
            old(self).wf(),
            !old(self)@.is_done(),
            old(self)@.accepts(pick as int),
        ensures
            final(self).wf(),
            final(self)@ == old(self)@.step(pick as int),
            match event {
                StepEvent::Finished { x, y } => old(self)@.options().len() == 0 && (
                    x as int,
                    y as int,
                ) == old(self)@.current(),
                StepEvent::Carved { from, to } => old(self)@.options().len() > 0 && coord_of(from)
                    == old(self)@.current() && coord_of(to) == old(self)@.options()[pick as int],
            },
    {
        let ghost before = self.model@;
        let ghost after = before.step(pick as int);
        let ghost n = self.size as nat;
        let list = self.options();
        let top = self.stack.len() - 1;
        let (cx, cy) = self.stack[top];
        proof {
            before.lemma_step_keeps_inv(pick as int);
            before.lemma_options();
            assert(coords_of(self.stack@)[top as int] == before.stack[top as int]);
            assert(before.current() == (cx as int, cy as int));
            assert(before.visited.contains(before.stack[top as int]));
            assert(in_grid(n, before.current()));
            assert(before.visited.len() <= n * n);
            assert(n * n <= MAX_BOARD_SIZE * MAX_BOARD_SIZE) by (nonlinear_arith)
                requires
                    n <= MAX_BOARD_SIZE,
            ;
        }
        if list.len() == 0 {
            self.stack.pop();
            self.finished = self.finished + 1;
            self.model = Ghost(after);
            proof {
                assert(coords_of(self.stack@) =~= after.stack);
            }
            StepEvent::Finished { x: cx, y: cy }
        } else {
            let (dx, dy) = list[pick];
            proof {
                assert(coords_of(list@)[pick as int] == before.options()[pick as int]);
                assert(before.options()[pick as int] == (dx as int, dy as int));
                assert(before.unvisited((dx as int, dy as int)));
            }
            self.remaining[dx][dy] = false;
            self.cells[dx][dy].link(cx, cy);
            self.cells[cx][cy].link(dx, dy);
            self.edges = self.edges + 1;
            self.stack.push((dx, dy));
            self.model = Ghost(after);
            proof {
                let c: Coord = (cx as int, cy as int);
                let d: Coord = (dx as int, dy as int);
                assert(c != d);
                assert(coords_of(self.stack@) =~= after.stack);
                assert(!before.links.contains((c, d)));
                assert(!before.links.insert((c, d)).contains((d, c)));
                assert(after.links.len() == before.links.len() + 2);
                assert(square(self.cells@, n));
                assert(square(self.remaining@, n));
                assert forall|x: int, y: int| 0 <= x < n && 0 <= y < n implies (
                #[trigger] self.remaining@[x]@[y]) == !after.visited.contains((x, y)) by {
                    assert(old(self).remaining@[x]@[y] == !before.visited.contains((x, y)));
                }
                assert forall|x: int, y: int| 0 <= x < n && 0 <= y < n implies (
                #[trigger] self.cells@[x]@[y])@.height == 0 by {
                    assert(old(self).cells@[x]@[y]@.height == 0);
                }
                assert forall|x: int, y: int| 0 <= x < n && 0 <= y < n implies cell_matches(
                    (#[trigger] self.cells@[x]@[y])@,
                    (x, y),
                    after.links,
                ) by {
                    let was = old(self).cells@[x]@[y]@;
                    let now = self.cells@[x]@[y]@;
                    let here: Coord = (x, y);
                    assert(cell_matches(was, here, before.links));
                    if here == c {
                        assert(now.children == was.children.push(d));
                        lemma_push_fresh(was.children, d);
                    } else if here == d {
                        assert(now.children == was.children.push(c));
                        lemma_push_fresh(was.children, c);
                    } else {
                        assert(now == was);
                    }
                    assert forall|e: Coord| now.children.contains(e) <==> after.links.contains(
                        (here, e),
                    ) by {
                        assert(was.children.contains(e) <==> before.links.contains((here, e)));
                    }
                }
            }
            StepEvent::Carved { from: (cx, cy), to: (dx, dy) }
        }
    }

    /// Ends a walk that is done and hands out the board it carved. By then
    /// every cell is finished, and the board is a spanning tree.
    pub fn finish(self) -> (grid: LogicalGrid)
        requires
            self.wf(),
            self@.is_done(),
        ensures
            grid.wf(),
            grid@ == self@.maze(),
            spanning_tree(grid@),
            self@.finished_count() == self@.size * self@.size,
            forall|c: Coord| in_grid(grid@.size, c) ==> (#[trigger] grid.cell_at(c)).height == 0,
    {
        let ghost maze = self.model@.maze();
        let ghost rows = self.cells@;
        proof {
            self.model@.lemma_done_is_spanning_tree();
            self.model@.lemma_done_covers();
        }
        let grid = LogicalGrid::assemble(self.size, self.cells, Ghost(maze));
        proof {
            assert forall|c: Coord| in_grid(grid@.size, c) implies (#[trigger] grid.cell_at(
                c,
            )).height == 0 by {
                assert(grid.cell_at((c.0, c.1)) == rows[c.0]@[c.1]@);
                assert(c == (c.0, c.1));
            }
        }
        grid
    }
}

/// Appending a coordinate that a duplicate-free list lacks keeps it
/// duplicate-free, and adds just that coordinate to what it contains.
proof fn lemma_push_fresh(list: Seq<Coord>, fresh: Coord)
    requires
        list.no_duplicates(),
        !list.contains(fresh),
    ensures
        list.push(fresh).no_duplicates(),
        forall|e: Coord| list.push(fresh).contains(e) <==> list.contains(e) || e == fresh,
{
    let longer = list.push(fresh);
    assert forall|i: int, j: int|
        0 <= i < longer.len() && 0 <= j < longer.len() && i != j implies longer[i] != longer[j] by {
        if i < list.len() {
            assert(longer[i] == list[i]);
        }
        if j < list.len() {
            assert(longer[j] == list[j]);
        }
    }
    assert forall|e: Coord| longer.contains(e) <==> list.contains(e) || e == fresh by {
        if longer.contains(e) {
            let i = choose|i: int| 0 <= i < longer.len() && longer[i] == e;
            if i < list.len() {
                assert(list[i] == e);
            }
        }
        if list.contains(e) {
            let i = choose|i: int| 0 <= i < list.len() && list[i] == e;
            assert(longer[i] == e);
        }
        if e == fresh {
            assert(longer[list.len() as int] == e);
        }
    }
}

/// `links` is what the walk over a board of edge `n` has carved when it
/// ends, for some sequence of acceptable picks.
pub open spec fn carved_by_walk(n: nat, links: Set<Link>) -> bool {
    exists|picks: Seq<int>|
        #![trigger CarverModel::start(n).run(picks)]
        CarverModel::start(n).permits(picks) && CarverModel::start(n).run(picks).is_done()
            && CarverModel::start(n).run(picks).links == links
}

/// Carves a maze over a board of edge `board_size`, drawing from `rng`
/// which unvisited neighbour to enter at each step. A board without cells,
/// or with an edge above `MAX_BOARD_SIZE`, is turned down before anything
/// is drawn. Whatever is drawn, the result is a spanning tree of the board:
/// the one that the walk from the center reaches by some acceptable
/// sequence of picks.
pub fn carve(board_size: usize, rng: &mut StdRng) -> (carved: Result<LogicalGrid, ConfigError>)
    ensures
        board_size == 0 ==> carved == Err::<LogicalGrid, ConfigError>(ConfigError::BoardSizeZero),
        board_size > MAX_BOARD_SIZE ==> carved == Err::<LogicalGrid, ConfigError>(
            ConfigError::BoardSizeTooLarge,
        ),
        1 <= board_size <= MAX_BOARD_SIZE ==> carved is Ok && carved->Ok_0.wf()
            && carved->Ok_0@.size == board_size && spanning_tree(carved->Ok_0@) && carved_by_walk(
            board_size as nat,
            carved->Ok_0@.links,
        ) && forall|c: Coord|
            in_grid(board_size as nat, c) ==> (#[trigger] carved->Ok_0.cell_at(c)).height == 0,
{
    let mut carver = match MazeCarver::new(board_size) {
        Ok(carver) => carver,
        Err(e) => {
            return Err(e);
        },
    };
    let ghost start = CarverModel::start(board_size as nat);
    let ghost mut picks: Seq<int> = Seq::empty();
    proof {
        CarverModel::lemma_start_inv(board_size as nat);
    }
    while !carver.is_done()
        invariant
            carver.wf(),
            start == CarverModel::start(board_size as nat),
            start.permits(picks),
            carver@ == start.run(picks),
            carver@.size == board_size,
        decreases carver@.fuel(),
    {
        let ghost before = carver@;
        let list = carver.options();
        let pick: usize = if list.len() == 0 {
            0
        } else {
            draw_in(rng, 0, list.len() as u64) as usize
        };
        proof {
            carver.lemma_wf();
            assert(coords_of(list@).len() == list@.len());
            before.lemma_step_keeps_inv(pick as int);
        }
        carver.step(pick);
        proof {
            let longer = picks.push(pick as int);
            assert(longer.drop_last() =~= picks);
            assert(longer.last() == pick as int);
            picks = longer;
        }
    }
    let grid = carver.finish();
    proof {
        assert(carved_by_walk(board_size as nat, grid@.links)) by {
            assert(start.permits(picks) && start.run(picks).is_done() && start.run(picks).links
                == grid@.links);
        }
    }
    Ok(grid)
}

} // verus!
