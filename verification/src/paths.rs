//! Walks over a set of directed links, and what it means for a maze to be a
//! spanning tree of its board.

use vstd::prelude::*;
use crate::board::{adjacent, in_grid, Coord};

verus! {

/// A directed link from one coordinate to another.
pub type Link = (Coord, Coord);

/// The abstract maze: the board's edge and the links carved between cells.
/// Every undirected passage is held as two links, one each way.
pub struct Maze {
    pub size: nat,
    pub links: Set<Link>,
}

/// The step of `walk` that leaves its coordinate `i` follows a link.
pub open spec fn follows(links: Set<Link>, walk: Seq<Coord>, i: int) -> bool {
    links.contains((walk[i], walk[i + 1]))
}

/// `walk` is a non-empty sequence of coordinates in which every step follows
/// a link.
pub open spec fn is_walk(links: Set<Link>, walk: Seq<Coord>) -> bool {
    &&& walk.len() >= 1
    &&& forall|i: int| 0 <= i < walk.len() - 1 ==> #[trigger] follows(links, walk, i)
}

/// `walk` leads from `a` to `b` along links.
pub open spec fn walk_between(links: Set<Link>, walk: Seq<Coord>, a: Coord, b: Coord) -> bool {
    is_walk(links, walk) && walk.first() == a && walk.last() == b
}

/// Some walk leads from `a` to `b`.
pub open spec fn reachable(links: Set<Link>, a: Coord, b: Coord) -> bool {
    exists|walk: Seq<Coord>| walk_between(links, walk, a, b)
}

/// Every link has its reverse.
pub open spec fn symmetric(links: Set<Link>) -> bool {
    forall|a: Coord, b: Coord| links.contains((a, b)) ==> links.contains((b, a))
}

/// Every link joins two adjacent coordinates of the board.
pub open spec fn on_board(n: nat, links: Set<Link>) -> bool {
    forall|a: Coord, b: Coord| #[trigger]
        links.contains((a, b)) ==> in_grid(n, a) && in_grid(n, b) && adjacent(a, b)
}

/// Every coordinate of the board can be reached from every other.
pub open spec fn connected(n: nat, links: Set<Link>) -> bool {
    forall|a: Coord, b: Coord| in_grid(n, a) && in_grid(n, b) ==> #[trigger] reachable(links, a, b)
}

/// `cycle` names at least three distinct coordinates, each linked to the
/// next and the last to the first.
pub open spec fn is_cycle(links: Set<Link>, cycle: Seq<Coord>) -> bool {
    &&& cycle.len() >= 3
    &&& cycle.no_duplicates()
    &&& forall|i: int| 0 <= i < cycle.len() - 1 ==> #[trigger] follows(links, cycle, i)
    &&& links.contains((cycle.last(), cycle[0]))
}

/// No cycle runs through the links.
pub open spec fn acyclic(links: Set<Link>) -> bool {
    forall|cycle: Seq<Coord>| !is_cycle(links, cycle)
}

/// The maze is a spanning tree of its board: passages join adjacent cells
/// and run both ways, there are exactly `size * size - 1` of them, they
/// connect every cell with every other, and none of them closes a cycle.
pub open spec fn spanning_tree(maze: Maze) -> bool {
    &&& maze.size > 0
    &&& on_board(maze.size, maze.links)
    &&& symmetric(maze.links)
    &&& maze.links.finite()
    &&& maze.links.len() == 2 * (maze.size * maze.size - 1)
    &&& connected(maze.size, maze.links)
    &&& acyclic(maze.links)
}

/// Number of undirected passages of a maze.
pub open spec fn edge_count(maze: Maze) -> nat {
    maze.links.len() / 2
}

/// Every coordinate reaches itself.
pub proof fn lemma_reachable_refl(links: Set<Link>, a: Coord)
    ensures
        reachable(links, a, a),
{
    let walk = seq![a];
    assert(walk_between(links, walk, a, a));
}

/// A walk can be extended by one link.
pub proof fn lemma_reachable_step(links: Set<Link>, a: Coord, b: Coord, c: Coord)
    requires
        reachable(links, a, b),
        links.contains((b, c)),
    ensures
        reachable(links, a, c),
{
    let walk = choose|walk: Seq<Coord>| walk_between(links, walk, a, b);
    let longer = walk.push(c);
    assert forall|i: int| 0 <= i < longer.len() - 1 implies #[trigger] follows(
        links,
        longer,
        i,
    ) by {
        if i < walk.len() - 1 {
            assert(follows(links, walk, i));
        }
    }
    assert(walk_between(links, longer, a, c));
}

/// Adding links keeps every walk.
pub proof fn lemma_reachable_grows(links: Set<Link>, more: Set<Link>, a: Coord, b: Coord)
    requires
        reachable(links, a, b),
        links.subset_of(more),
    ensures
        reachable(more, a, b),
{
    let walk = choose|walk: Seq<Coord>| walk_between(links, walk, a, b);
    assert forall|i: int| 0 <= i < walk.len() - 1 implies #[trigger] follows(more, walk, i) by {
        assert(follows(links, walk, i));
    }
    assert(walk_between(more, walk, a, b));
}

/// Over symmetric links a walk can be taken backwards.
pub proof fn lemma_reachable_back(links: Set<Link>, a: Coord, b: Coord)
    requires
        symmetric(links),
        reachable(links, a, b),
    ensures
        reachable(links, b, a),
{
    let walk = choose|walk: Seq<Coord>| walk_between(links, walk, a, b);
    let back = walk.reverse();
    let len = walk.len() as int;
    assert forall|i: int| 0 <= i < back.len() - 1 implies #[trigger] follows(links, back, i) by {
        assert(back[i] == walk[len - 1 - i]);
        assert(back[i + 1] == walk[len - 2 - i]);
        assert(follows(links, walk, len - 2 - i));
    }
    assert(walk_between(links, back, b, a));
}

/// Two walks that meet can be joined.
pub proof fn lemma_reachable_join(links: Set<Link>, a: Coord, b: Coord, c: Coord)
    requires
        reachable(links, a, b),
        reachable(links, b, c),
    ensures
        reachable(links, a, c),
{
    let first = choose|walk: Seq<Coord>| walk_between(links, walk, a, b);
    let second = choose|walk: Seq<Coord>| walk_between(links, walk, b, c);
    let joined = first + second.drop_first();
    let cut = first.len() as int;
    assert forall|i: int| 0 <= i < joined.len() - 1 implies #[trigger] follows(
        links,
        joined,
        i,
    ) by {
        if i < cut - 1 {
            assert(follows(links, first, i));
        } else if i == cut - 1 {
            assert(joined[i] == first[i]);
            assert(joined[i + 1] == second[1]);
            assert(follows(links, second, 0));
        } else {
            assert(joined[i] == second[i - cut + 1]);
            assert(joined[i + 1] == second[i - cut + 2]);
            assert(follows(links, second, i - cut + 1));
        }
    }
    assert(joined.first() == a);
    assert(joined.last() == c) by {
        if second.len() == 1 {
            assert(joined =~= first);
        } else {
            assert(joined[joined.len() - 1] == second[second.len() - 1]);
        }
    }
    assert(walk_between(links, joined, a, c));
}

/// If every coordinate of the board can be reached from one of them over
/// symmetric links, the board is connected.
pub proof fn lemma_connected_from_root(n: nat, links: Set<Link>, root: Coord)
    requires
        symmetric(links),
        forall|c: Coord| in_grid(n, c) ==> #[trigger] reachable(links, root, c),
    ensures
        connected(n, links),
{
    assert forall|a: Coord, b: Coord| in_grid(n, a) && in_grid(n, b) implies #[trigger] reachable(
        links,
        a,
        b,
    ) by {
        assert(reachable(links, root, a));
        assert(reachable(links, root, b));
        lemma_reachable_back(links, root, a);
        lemma_reachable_join(links, a, root, b);
    }
}

} // verus!
