//! Coordinates of a square board and the facts about them that the maze
//! proofs rest on.

use vstd::prelude::*;
use vstd::set_lib::*;

verus! {

/// Largest board edge that the generator accepts.
pub const MAX_BOARD_SIZE: usize = 255;

/// A board coordinate `(x, y)` in the mathematical model.
pub type Coord = (int, int);

/// `c` lies on a board of edge `n`.
pub open spec fn in_grid(n: nat, c: Coord) -> bool {
    0 <= c.0 < n && 0 <= c.1 < n
}

/// `a` and `b` differ by exactly one step along one axis.
pub open spec fn adjacent(a: Coord, b: Coord) -> bool {
    ||| (a.0 == b.0 && (a.1 == b.1 + 1 || b.1 == a.1 + 1))
    ||| (a.1 == b.1 && (a.0 == b.0 + 1 || b.0 == a.0 + 1))
}

/// The coordinate at which carving starts: `(n / 2, n / 2)`.
pub open spec fn center(n: nat) -> Coord {
    ((n / 2) as int, (n / 2) as int)
}

/// Every coordinate of a board of edge `n`.
pub open spec fn all_coords(n: nat) -> Set<Coord> {
    Set::new(|c: Coord| in_grid(n, c))
}

/// Number of axis steps between two coordinates.
pub open spec fn manhattan(a: Coord, b: Coord) -> nat {
    let dx = if a.0 <= b.0 { b.0 - a.0 } else { a.0 - b.0 };
    let dy = if a.1 <= b.1 { b.1 - a.1 } else { a.1 - b.1 };
    (dx + dy) as nat
}

/// The first `m` coordinates of column `x`.
spec fn column_prefix(x: int, m: nat) -> Set<Coord> {
    Set::new(|c: Coord| c.0 == x && 0 <= c.1 < m)
}

/// The first `k` columns of a board of edge `n`.
spec fn columns(n: nat, k: nat) -> Set<Coord> {
    Set::new(|c: Coord| 0 <= c.0 < k && 0 <= c.1 < n)
}

proof fn lemma_column_prefix_len(x: int, m: nat)
    ensures
        column_prefix(x, m).finite(),
        column_prefix(x, m).len() == m,
    decreases m,
{
    if m == 0 {
        assert(column_prefix(x, m) =~= Set::<Coord>::empty());
    } else {
        let shorter = (m - 1) as nat;
        lemma_column_prefix_len(x, shorter);
        assert(column_prefix(x, m) =~= column_prefix(x, shorter).insert((x, m - 1)));
    }
}

proof fn lemma_columns_len(n: nat, k: nat)
    ensures
        columns(n, k).finite(),
        columns(n, k).len() == k * n,
    decreases k,
{
    if k == 0 {
        assert(columns(n, k) =~= Set::<Coord>::empty());
        assert(k * n == 0) by (nonlinear_arith)
            requires
                k == 0,
        ;
    } else {
        let fewer = (k - 1) as nat;
        lemma_columns_len(n, fewer);
        lemma_column_prefix_len(fewer as int, n);
        let left = columns(n, fewer);
        let right = column_prefix(fewer as int, n);
        assert(columns(n, k) =~= left + right);
        assert(left.disjoint(right));
        lemma_set_disjoint_lens(left, right);
        assert(fewer * n + n == k * n) by (nonlinear_arith)
            requires
                fewer == k - 1,
        ;
    }
}

/// A board of edge `n` has exactly `n * n` coordinates.
pub proof fn lemma_all_coords_len(n: nat)
    ensures
        all_coords(n).finite(),
        all_coords(n).len() == n * n,
{
    lemma_columns_len(n, n);
    assert(all_coords(n) =~= columns(n, n));
}

/// A set of board coordinates that holds fewer than all of them, but at least
/// `from`, has a member with a neighbour on the board outside the set.
pub proof fn lemma_frontier(n: nat, inside: Set<Coord>, from: Coord, to: Coord) -> (edge: (Coord, Coord))
    requires
        in_grid(n, from),
        in_grid(n, to),
        inside.contains(from),
        !inside.contains(to),
    ensures
        inside.contains(edge.0),
        !inside.contains(edge.1),
        in_grid(n, edge.0),
        in_grid(n, edge.1),
        adjacent(edge.0, edge.1),
    decreases manhattan(from, to),
{
    let next: Coord = if to.0 < from.0 {
        (to.0 + 1, to.1)
    } else if to.0 > from.0 {
        (to.0 - 1, to.1)
    } else if to.1 < from.1 {
        (to.0, to.1 + 1)
    } else {
        (to.0, to.1 - 1)
    };
    assert(from != to);
    assert(in_grid(n, next));
    assert(adjacent(next, to));
    if inside.contains(next) {
        (next, to)
    } else {
        assert(manhattan(from, next) < manhattan(from, to));
        lemma_frontier(n, inside, from, next)
    }
}

} // verus!
