//! The carving walk as a mathematical state machine, with the invariant
//! that makes its result a spanning tree.

use vstd::prelude::*;
use vstd::set_lib::lemma_len_subset;
use crate::board::{
    adjacent, all_coords, center, in_grid, lemma_all_coords_len, lemma_frontier, Coord,
};
use crate::paths::{
    acyclic, follows, is_cycle, lemma_connected_from_root, lemma_reachable_grows,
    lemma_reachable_refl, lemma_reachable_step, on_board, reachable, spanning_tree, symmetric,
    Link, Maze,
};

verus! {

/// The state of a carving walk.
pub struct CarverModel {
    /// Edge of the board.
    pub size: nat,
    /// Cells that the walk has entered.
    pub visited: Set<Coord>,
    /// For each visited cell, how many cells were visited before it.
    pub rank: Map<Coord, nat>,
    /// The walk from the start to the current cell, current cell last.
    pub stack: Seq<Coord>,
    /// The passages carved so far, each held both ways.
    pub links: Set<Link>,
}

impl CarverModel {
    /// The walk before its first step: only the center is visited.
    pub open spec fn start(n: nat) -> CarverModel {
        CarverModel {
            size: n,
            visited: set![center(n)],
            rank: map![center(n) => 0nat],
            stack: seq![center(n)],
            links: Set::empty(),
        }
    }

    /// Nothing is left to do.
    pub open spec fn is_done(self) -> bool {
        self.stack.len() == 0
    }

    /// The cell that the next step will look at.
    pub open spec fn current(self) -> Coord {
        self.stack.last()
    }

    /// `c` is on the board and has not been entered yet.
    pub open spec fn unvisited(self, c: Coord) -> bool {
        in_grid(self.size, c) && !self.visited.contains(c)
    }

    /// `c` has been entered and has left the stack for good.
    pub open spec fn finished(self, c: Coord) -> bool {
        self.visited.contains(c) && !self.stack.contains(c)
    }

    /// Number of finished cells.
    pub open spec fn finished_count(self) -> nat {
        (self.visited.len() - self.stack.len()) as nat
    }

    /// `d` alone if it is unvisited, nothing otherwise.
    pub open spec fn option_at(self, d: Coord) -> Seq<Coord> {
        if self.unvisited(d) {
            seq![d]
        } else {
            Seq::empty()
        }
    }

    /// The unvisited neighbours of the current cell, in the order in which
    /// they are offered: `x + 1`, `x - 1`, `y + 1`, `y - 1`.
    pub open spec fn options(self) -> Seq<Coord> {
        let c = self.current();
        self.option_at((c.0 + 1, c.1)) + self.option_at((c.0 - 1, c.1)) + self.option_at(
            (c.0, c.1 + 1),
        ) + self.option_at((c.0, c.1 - 1))
    }

    /// `pick` names one of the options, or there is none to name.
    pub open spec fn accepts(self, pick: int) -> bool {
        self.options().len() == 0 || 0 <= pick < self.options().len()
    }

    /// The state after one step. With no unvisited neighbour the current
    /// cell is finished and leaves the stack; otherwise the neighbour at
    /// index `pick` is entered, linked with the current cell, and becomes
    /// the current cell.
    pub open spec fn step(self, pick: int) -> CarverModel {
        let c = self.current();
        if self.options().len() == 0 {
            CarverModel { stack: self.stack.drop_last(), ..self }
        } else {
            let d = self.options()[pick];
            CarverModel {
                visited: self.visited.insert(d),
                rank: self.rank.insert(d, self.visited.len()),
                stack: self.stack.push(d),
                links: self.links.insert((c, d)).insert((d, c)),
                ..self
            }
        }
    }

    /// The state reached from `self` by taking the steps that `picks` names,
    /// in order.
    pub open spec fn run(self, picks: Seq<int>) -> CarverModel
        decreases picks.len(),
    {
        if picks.len() == 0 {
            self
        } else {
            self.run(picks.drop_last()).step(picks.last())
        }
    }

    /// When the turn of each pick of `picks` came, the walk was not yet done
    /// and the pick was acceptable.
    pub open spec fn permits(self, picks: Seq<int>) -> bool
        decreases picks.len(),
    {
        if picks.len() == 0 {
            true
        } else {
            let before = self.run(picks.drop_last());
            &&& self.permits(picks.drop_last())
            &&& !before.is_done()
            &&& before.accepts(picks.last())
        }
    }

    /// The maze carved so far.
    pub open spec fn maze(self) -> Maze {
        Maze { size: self.size, links: self.links }
    }

    /// An upper bound on the number of steps still to come.
    pub open spec fn fuel(self) -> nat {
        (2 * (self.size * self.size - self.visited.len()) + self.stack.len()) as nat
    }

    /// The visited cells are cells of the board, the center among them.
    pub open spec fn visited_ok(self) -> bool {
        &&& self.visited.finite()
        &&& self.visited.subset_of(all_coords(self.size))
        &&& self.visited.len() <= self.size * self.size
        &&& self.visited.contains(center(self.size))
    }

    /// The stack holds visited cells, none of them twice.
    pub open spec fn stack_ok(self) -> bool {
        &&& self.stack.no_duplicates()
        &&& self.stack.len() <= self.visited.len()
        &&& forall|i: int| 0 <= i < self.stack.len() ==> self.visited.contains(#[trigger] self.stack[i])
    }

    /// A finished cell has no unvisited neighbour.
    pub open spec fn closed_ok(self) -> bool {
        forall|c: Coord, d: Coord|
            self.finished(c) && #[trigger] adjacent(c, d) && in_grid(self.size, d)
                ==> self.visited.contains(d)
    }

    /// Links run both ways between adjacent visited cells, one pair of them
    /// for each visited cell but the first.
    pub open spec fn links_ok(self) -> bool {
        &&& self.links.finite()
        &&& self.links.len() + 2 == 2 * self.visited.len()
        &&& symmetric(self.links)
        &&& forall|a: Coord, b: Coord| #[trigger]
            self.links.contains((a, b)) ==> adjacent(a, b) && self.visited.contains(a)
                && self.visited.contains(b)
    }

    /// Visited cells have distinct ranks, and each is linked to at most one
    /// cell of lower rank.
    pub open spec fn rank_ok(self) -> bool {
        &&& forall|c: Coord| #[trigger]
            self.visited.contains(c) ==> self.rank.dom().contains(c) && self.rank[c]
                < self.visited.len()
        &&& forall|a: Coord, b: Coord|
            self.visited.contains(a) && self.visited.contains(b) && #[trigger] self.rank[a]
                == #[trigger] self.rank[b] ==> a == b
        &&& forall|c: Coord, p: Coord, q: Coord|
            #![trigger self.links.contains((c, p)), self.links.contains((c, q))]
            self.links.contains((c, p)) && self.links.contains((c, q)) && self.rank[p]
                < self.rank[c] && self.rank[q] < self.rank[c] ==> p == q
    }

    /// Every visited cell can be reached from the center.
    pub open spec fn reach_ok(self) -> bool {
        forall|c: Coord| #[trigger]
            self.visited.contains(c) ==> reachable(self.links, center(self.size), c)
    }

    /// What holds of every state that a walk passes through.
    pub open spec fn inv(self) -> bool {
        &&& self.size > 0
        &&& self.visited_ok()
        &&& self.stack_ok()
        &&& self.closed_ok()
        &&& self.links_ok()
        &&& self.rank_ok()
        &&& self.reach_ok()
    }

    /// Each option is an unvisited neighbour of the current cell, and where
    /// there is no option the current cell has no unvisited neighbour.
    pub proof fn lemma_options(self)
        ensures
            self.options().len() <= 4,
            forall|i: int|
                0 <= i < self.options().len() ==> self.unvisited(#[trigger] self.options()[i])
                    && adjacent(self.current(), self.options()[i]),
            self.options().len() == 0 ==> forall|d: Coord| #[trigger]
                adjacent(self.current(), d) ==> !self.unvisited(d),
    {
        let c = self.current();
        let e = self.option_at((c.0 + 1, c.1));
        let w = self.option_at((c.0 - 1, c.1));
        let s = self.option_at((c.0, c.1 + 1));
        let n = self.option_at((c.0, c.1 - 1));
        let all = self.options();
        assert(all == e + w + s + n);
        assert forall|i: int| 0 <= i < all.len() implies self.unvisited(#[trigger] all[i])
            && adjacent(c, all[i]) by {
            if i < e.len() {
                assert(all[i] == e[i]);
            } else if i < e.len() + w.len() {
                assert(all[i] == w[i - e.len()]);
            } else if i < e.len() + w.len() + s.len() {
                assert(all[i] == s[i - e.len() - w.len()]);
            } else {
                assert(all[i] == n[i - e.len() - w.len() - s.len()]);
            }
        }
        if all.len() == 0 {
            assert forall|d: Coord| #[trigger] adjacent(c, d) implies !self.unvisited(d) by {
                assert(e.len() == 0 && w.len() == 0 && s.len() == 0 && n.len() == 0);
                assert(d == (c.0 + 1, c.1) || d == (c.0 - 1, c.1) || d == (c.0, c.1 + 1) || d == (
                    c.0,
                    c.1 - 1,
                ));
            }
        }
    }

    /// The start state of a board with at least one cell meets the
    /// invariant.
    pub proof fn lemma_start_inv(n: nat)
        requires
            n > 0,
        ensures
            Self::start(n).inv(),
            !Self::start(n).is_done(),
            Self::start(n).finished_count() == 0,
    {
        let s = Self::start(n);
        let c = center(n);
        assert(in_grid(n, c));
        assert(s.visited.len() == 1) by {
            assert(s.visited =~= Set::<Coord>::empty().insert(c));
        }
        assert(1 <= n * n) by (nonlinear_arith)
            requires
                n > 0,
        ;
        assert(s.visited_ok());
        assert(s.stack[0] == c);
        assert(s.stack_ok());
        assert(s.closed_ok()) by {
            assert forall|a: Coord, d: Coord|
                s.finished(a) && #[trigger] adjacent(a, d) && in_grid(
                    n,
                    d,
                ) implies s.visited.contains(d) by {
                assert(s.stack.contains(c));
            }
        }
        assert(s.links.len() == 0);
        assert(s.links_ok());
        assert(s.rank_ok());
        lemma_reachable_refl(s.links, c);
        assert(s.reach_ok());
    }

    proof fn lemma_finish_keeps_inv(self, pick: int)
        requires
            self.size > 0,
            self.visited_ok(),
            self.stack_ok(),
            self.closed_ok(),
            !self.is_done(),
            self.options().len() == 0,
        ensures
            self.step(pick).visited_ok(),
            self.step(pick).stack_ok(),
            self.step(pick).closed_ok(),
            self.step(pick).fuel() < self.fuel(),
            self.step(pick).finished_count() == self.finished_count() + 1,
    {
        let next = self.step(pick);
        let c = self.current();
        let top = self.stack.len() - 1;
        self.lemma_options();
        assert(self.stack[top] == c);
        assert(next.stack.no_duplicates()) by {
            assert forall|i: int, j: int|
                0 <= i < next.stack.len() && 0 <= j < next.stack.len() && i != j implies next.stack[i]
                != next.stack[j] by {
                assert(next.stack[i] == self.stack[i]);
                assert(next.stack[j] == self.stack[j]);
            }
        }
        assert forall|i: int| 0 <= i < next.stack.len() implies next.visited.contains(
            #[trigger] next.stack[i],
        ) by {
            assert(next.stack[i] == self.stack[i]);
        }
        assert forall|a: Coord, d: Coord|
            next.finished(a) && #[trigger] adjacent(a, d) && in_grid(
                self.size,
                d,
            ) implies next.visited.contains(d) by {
            if a == c {
                assert(!self.unvisited(d));
            } else {
                if self.stack.contains(a) {
                    let i = choose|i: int| 0 <= i < self.stack.len() && self.stack[i] == a;
                    assert(next.stack[i] == a);
                }
                assert(self.finished(a));
            }
        }
    }

    proof fn lemma_advance_keeps_shape(self, pick: int)
        requires
            self.size > 0,
            self.visited_ok(),
            self.stack_ok(),
            self.closed_ok(),
            !self.is_done(),
            0 <= pick < self.options().len(),
        ensures
            self.step(pick).visited_ok(),
            self.step(pick).stack_ok(),
            self.step(pick).closed_ok(),
            self.step(pick).fuel() < self.fuel(),
            self.step(pick).finished_count() == self.finished_count(),
    {
        let next = self.step(pick);
        let c = self.current();
        let d = self.options()[pick];
        let top = self.stack.len() - 1;
        self.lemma_options();
        assert(self.unvisited(d) && adjacent(c, d));
        lemma_all_coords_len(self.size);
        lemma_len_subset(next.visited, all_coords(self.size));
        assert(next.visited.len() == self.visited.len() + 1);
        assert(next.stack.no_duplicates()) by {
            assert forall|i: int, j: int|
                0 <= i < next.stack.len() && 0 <= j < next.stack.len() && i != j implies next.stack[i]
                != next.stack[j] by {
                if i <= top {
                    assert(next.stack[i] == self.stack[i]);
                }
                if j <= top {
                    assert(next.stack[j] == self.stack[j]);
                }
            }
        }
        assert forall|i: int| 0 <= i < next.stack.len() implies next.visited.contains(
            #[trigger] next.stack[i],
        ) by {
            if i <= top {
                assert(next.stack[i] == self.stack[i]);
            }
        }
        assert forall|a: Coord, e: Coord|
            next.finished(a) && #[trigger] adjacent(a, e) && in_grid(
                self.size,
                e,
            ) implies next.visited.contains(e) by {
            if a == d {
                assert(next.stack[top + 1] == d);
            } else {
                if self.stack.contains(a) {
                    let i = choose|i: int| 0 <= i < self.stack.len() && self.stack[i] == a;
                    assert(next.stack[i] == a);
                }
                assert(self.finished(a));
            }
        }
    }

    proof fn lemma_advance_keeps_links(self, pick: int)
        requires
            self.visited_ok(),
            self.stack_ok(),
            self.links_ok(),
            !self.is_done(),
            0 <= pick < self.options().len(),
        ensures
            self.step(pick).links_ok(),
    {
        let next = self.step(pick);
        let c = self.current();
        let d = self.options()[pick];
        self.lemma_options();
        assert(self.unvisited(d) && adjacent(c, d));
        assert(self.stack[self.stack.len() - 1] == c);
        let once = self.links.insert((c, d));
        assert(!self.links.contains((c, d)));
        assert(!self.links.contains((d, c)));
        assert(!once.contains((d, c)));
        assert(once.len() == self.links.len() + 1);
        assert(next.links.len() == self.links.len() + 2);
        assert(next.visited.len() == self.visited.len() + 1);
        assert(symmetric(next.links)) by {
            assert forall|a: Coord, b: Coord| next.links.contains((a, b)) implies next.links.contains(
                (b, a),
            ) by {
                if (a, b) != (c, d) && (a, b) != (d, c) {
                    assert(self.links.contains((a, b)));
                }
            }
        }
        assert forall|a: Coord, b: Coord| #[trigger] next.links.contains((a, b)) implies adjacent(
            a,
            b,
        ) && next.visited.contains(a) && next.visited.contains(b) by {
            if (a, b) != (c, d) && (a, b) != (d, c) {
                assert(self.links.contains((a, b)));
            }
        }
    }

    proof fn lemma_advance_keeps_rank(self, pick: int)
        requires
            self.visited_ok(),
            self.stack_ok(),
            self.links_ok(),
            self.rank_ok(),
            !self.is_done(),
            0 <= pick < self.options().len(),
        ensures
            self.step(pick).rank_ok(),
    {
        let next = self.step(pick);
        let c = self.current();
        let d = self.options()[pick];
        self.lemma_options();
        assert(self.unvisited(d) && adjacent(c, d));
        assert(self.stack[self.stack.len() - 1] == c);
        assert(self.visited.contains(c));
        assert(next.visited.len() == self.visited.len() + 1);
        assert forall|x: Coord| #[trigger] next.visited.contains(x) implies next.rank.dom().contains(
            x,
        ) && next.rank[x] < next.visited.len() by {
            if x != d {
                assert(self.visited.contains(x));
            }
        }
        assert forall|a: Coord, b: Coord|
            next.visited.contains(a) && next.visited.contains(b) && #[trigger] next.rank[a]
                == #[trigger] next.rank[b] implies a == b by {
            if a != d {
                assert(self.visited.contains(a));
            }
            if b != d {
                assert(self.visited.contains(b));
            }
        }
        assert forall|x: Coord, p: Coord, q: Coord|
            #![trigger next.links.contains((x, p)), next.links.contains((x, q))]
            next.links.contains((x, p)) && next.links.contains((x, q)) && next.rank[p]
                < next.rank[x] && next.rank[q] < next.rank[x] implies p == q by {
            if x == d {
                if p != c {
                    assert(self.links.contains((d, p)));
                }
                if q != c {
                    assert(self.links.contains((d, q)));
                }
            } else {
                if (x, p) != (c, d) {
                    assert(self.links.contains((x, p)));
                    assert(self.visited.contains(p));
                }
                if (x, q) != (c, d) {
                    assert(self.links.contains((x, q)));
                    assert(self.visited.contains(q));
                }
                if self.links.contains((x, p)) {
                    assert(self.visited.contains(x));
                }
                if self.links.contains((x, q)) {
                    assert(self.visited.contains(x));
                }
            }
        }
    }

    proof fn lemma_advance_keeps_reach(self, pick: int)
        requires
            self.stack_ok(),
            self.reach_ok(),
            !self.is_done(),
            0 <= pick < self.options().len(),
        ensures
            self.step(pick).reach_ok(),
    {
        let next = self.step(pick);
        let c = self.current();
        let d = self.options()[pick];
        let root = center(self.size);
        assert(self.stack[self.stack.len() - 1] == c);
        assert(self.visited.contains(c));
        assert(self.links.subset_of(next.links));
        assert forall|x: Coord| #[trigger] next.visited.contains(x) implies reachable(
            next.links,
            root,
            x,
        ) by {
            lemma_reachable_grows(self.links, next.links, root, c);
            if x == d {
                lemma_reachable_step(next.links, root, c, d);
            } else {
                lemma_reachable_grows(self.links, next.links, root, x);
            }
        }
    }

    /// An acceptable step keeps the invariant and brings the walk nearer to
    /// its end. It finishes one cell exactly if there was no option.
    pub proof fn lemma_step_keeps_inv(self, pick: int)
        requires
            self.inv(),
            !self.is_done(),
            self.accepts(pick),
        ensures
            self.step(pick).inv(),
            self.step(pick).size == self.size,
            self.step(pick).fuel() < self.fuel(),
            self.step(pick).finished_count() == self.finished_count() + (if self.options().len()
                == 0 {
                1nat
            } else {
                0nat
            }),
    {
        if self.options().len() == 0 {
            self.lemma_finish_keeps_inv(pick);
        } else {
            self.lemma_advance_keeps_shape(pick);
            self.lemma_advance_keeps_links(pick);
            self.lemma_advance_keeps_rank(pick);
            self.lemma_advance_keeps_reach(pick);
        }
    }

    /// When the walk is done it has entered and finished every cell.
    pub proof fn lemma_done_covers(self)
        requires
            self.inv(),
            self.is_done(),
        ensures
            self.visited == all_coords(self.size),
            self.finished_count() == self.size * self.size,
    {
        let n = self.size;
        let root = center(n);
        assert(in_grid(n, root));
        assert forall|c: Coord| in_grid(n, c) implies self.visited.contains(c) by {
            if !self.visited.contains(c) {
                let edge = lemma_frontier(n, self.visited, root, c);
                assert(self.finished(edge.0));
                assert(adjacent(edge.0, edge.1));
            }
        }
        assert(self.visited =~= all_coords(n));
        lemma_all_coords_len(n);
    }

    /// Index of a cell of greatest rank among the first `upto` cells of
    /// `cells`.
    spec fn highest(self, cells: Seq<Coord>, upto: int) -> int
        decreases upto,
    {
        if upto <= 1 {
            0
        } else {
            let before = self.highest(cells, upto - 1);
            if self.rank[cells[upto - 1]] > self.rank[cells[before]] {
                upto - 1
            } else {
                before
            }
        }
    }

    proof fn lemma_highest(self, cells: Seq<Coord>, upto: int)
        requires
            1 <= upto <= cells.len(),
        ensures
            0 <= self.highest(cells, upto) < upto,
            forall|i: int|
                0 <= i < upto ==> self.rank[#[trigger] cells[i]] <= self.rank[cells[self.highest(
                    cells,
                    upto,
                )]],
        decreases upto,
    {
        if upto > 1 {
            self.lemma_highest(cells, upto - 1);
        }
    }

    proof fn lemma_no_cycle(self, cycle: Seq<Coord>)
        requires
            self.links_ok(),
            self.rank_ok(),
        ensures
            !is_cycle(self.links, cycle),
    {
        if is_cycle(self.links, cycle) {
            let len = cycle.len() as int;
            self.lemma_highest(cycle, len);
            let m = self.highest(cycle, len);
            let before = if m == 0 { len - 1 } else { m - 1 };
            let after = if m == len - 1 { 0 } else { m + 1 };
            let x = cycle[m];
            let p = cycle[before];
            let q = cycle[after];
            assert(self.links.contains((p, x))) by {
                if m != 0 {
                    assert(follows(self.links, cycle, m - 1));
                }
            }
            assert(self.links.contains((x, q))) by {
                if m != len - 1 {
                    assert(follows(self.links, cycle, m));
                }
            }
            assert(self.links.contains((x, p)));
            assert(p != x && q != x && p != q);
            assert(self.visited.contains(x) && self.visited.contains(p) && self.visited.contains(
                q,
            ));
            assert(self.rank[p] <= self.rank[x]);
            assert(self.rank[q] <= self.rank[x]);
            assert(self.rank[p] != self.rank[x]);
            assert(self.rank[q] != self.rank[x]);
            assert(p == q);
        }
    }

    /// No cycle runs through the links of a state that meets the invariant.
    pub proof fn lemma_acyclic(self)
        requires
            self.inv(),
        ensures
            acyclic(self.links),
    {
        assert forall|cycle: Seq<Coord>| !is_cycle(self.links, cycle) by {
            self.lemma_no_cycle(cycle);
        }
    }

    /// When the walk is done, what it has carved is a spanning tree.
    pub proof fn lemma_done_is_spanning_tree(self)
        requires
            self.inv(),
            self.is_done(),
        ensures
            spanning_tree(self.maze()),
    {
        let n = self.size;
        self.lemma_done_covers();
        self.lemma_acyclic();
        lemma_all_coords_len(n);
        assert(on_board(n, self.links)) by {
            assert forall|a: Coord, b: Coord| #[trigger] self.links.contains((a, b)) implies in_grid(
                n,
                a,
            ) && in_grid(n, b) && adjacent(a, b) by {
                assert(self.visited.contains(a) && self.visited.contains(b));
            }
        }
        assert forall|c: Coord| in_grid(n, c) implies #[trigger] reachable(
            self.links,
            center(n),
            c,
        ) by {
            assert(self.visited.contains(c));
        }
        lemma_connected_from_root(n, self.links, center(n));
        assert(self.links.len() == 2 * (n * n - 1));
    }

    /// A walk is settled by its picks: two walks from the same state whose
    /// picks agree turn by turn end in the same state.
    pub proof fn lemma_settled_by_picks(self, first: Seq<int>, second: Seq<int>)
        requires
            first.len() == second.len(),
            forall|i: int| 0 <= i < first.len() ==> first[i] == second[i],
        ensures
            self.run(first) == self.run(second),
    {
        assert(first =~= second);
    }

    /// A walk that follows acceptable picks keeps the invariant.
    pub proof fn lemma_run_keeps_inv(self, picks: Seq<int>)
        requires
            self.inv(),
            self.permits(picks),
        ensures
            self.run(picks).inv(),
            self.run(picks).size == self.size,
        decreases picks.len(),
    {
        if picks.len() > 0 {
            self.lemma_run_keeps_inv(picks.drop_last());
            self.run(picks.drop_last()).lemma_step_keeps_inv(picks.last());
        }
    }

    /// Whatever is picked, a walk over a board with at least one cell that
    /// has come to its end has finished every cell and carved a spanning
    /// tree: one passage less than there are cells, every cell reachable
    /// from every other.
    pub proof fn lemma_walk_carves_spanning_tree(n: nat, picks: Seq<int>)
        requires
            n > 0,
            Self::start(n).permits(picks),
            Self::start(n).run(picks).is_done(),
        ensures
            spanning_tree(Self::start(n).run(picks).maze()),
            Self::start(n).run(picks).maze().size == n,
            Self::start(n).run(picks).finished_count() == n * n,
    {
        Self::lemma_start_inv(n);
        Self::start(n).lemma_run_keeps_inv(picks);
        Self::start(n).run(picks).lemma_done_is_spanning_tree();
        Self::start(n).run(picks).lemma_done_covers();
    }
}

} // verus!
