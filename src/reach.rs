use vstd::prelude::*;
use crate::components::{opposite_bit, Marking};
use crate::grid::{cell_index, has_dir, Layout};

verus! {

/// A board position (column, row).
pub type Cell = (int, int);

/// The cell at `c` holds a tile with a connection towards `d`.
pub open spec fn opens(g: Layout, c: Cell, d: u8) -> bool {
    &&& g.in_bounds(c.0, c.1)
    &&& match g.cell(c.0, c.1) {
        Some(t) => has_dir(t.connections, d),
        None => false,
    }
}

/// The neighbouring position of `c` in direction `d`.
pub open spec fn step(c: Cell, d: u8) -> Cell {
    if d == 1 {
        (c.0 + 1, c.1)
    } else if d == 2 {
        (c.0, c.1 - 1)
    } else if d == 4 {
        (c.0 - 1, c.1)
    } else {
        (c.0, c.1 + 1)
    }
}

/// `b` is the neighbour of `a` in direction `d`, and both tiles connect towards each other.
pub open spec fn link(g: Layout, a: Cell, b: Cell, d: u8) -> bool {
    &&& b == step(a, d)
    &&& opens(g, a, d)
    &&& opens(g, b, opposite_bit(d))
}

/// Current flows directly between `a` and `b`.
pub open spec fn adjacent(g: Layout, a: Cell, b: Cell) -> bool {
    link(g, a, b, 1) || link(g, a, b, 2) || link(g, a, b, 4) || link(g, a, b, 8)
}

/// A chain of cells in which each one is adjacent to the next.
pub open spec fn is_path(g: Layout, p: Seq<Cell>) -> bool {
    &&& p.len() >= 1
    &&& forall|i: int| 0 <= i < p.len() - 1 ==> #[trigger] adjacent(g, p[i], p[i + 1])
}

/// `c` can be reached from `s` along a path.
pub open spec fn reach_from(g: Layout, s: Cell, c: Cell) -> bool {
    exists|p: Seq<Cell>| #[trigger] is_path(g, p) && p[0] == s && p.last() == c
}

/// A right-edge tile with a right-facing connection: a right pin touches it.
pub open spec fn right_seed(g: Layout, c: Cell) -> bool {
    c.0 == g.width - 1 && opens(g, c, 1)
}

/// A left-edge tile with a left-facing connection: a left pin touches it.
pub open spec fn left_seed(g: Layout, c: Cell) -> bool {
    c.0 == 0 && opens(g, c, 4)
}

/// `c` is reached from a right seed in one of the rows below `rows`.
pub open spec fn right_reach_upto(g: Layout, rows: int, c: Cell) -> bool {
    exists|s: Cell| #[trigger] right_seed(g, s) && s.1 < rows && reach_from(g, s, c)
}

/// `c` is reached from a left seed in one of the rows below `rows`.
pub open spec fn left_reach_upto(g: Layout, rows: int, c: Cell) -> bool {
    exists|s: Cell| #[trigger] left_seed(g, s) && s.1 < rows && reach_from(g, s, c)
}

/// `c` is connected to the right pins.
pub open spec fn reaches_right(g: Layout, c: Cell) -> bool {
    right_reach_upto(g, g.height as int, c)
}

/// `c` is connected to the left pins.
pub open spec fn reaches_left(g: Layout, c: Cell) -> bool {
    left_reach_upto(g, g.height as int, c)
}

/// The marking a connectivity check leaves on `c`, given the marking it had before.
pub open spec fn settled_marking(g: Layout, before: Marking, c: Cell) -> Marking {
    let r = reaches_right(g, c);
    let l = reaches_left(g, c);
    if r && l {
        Marking::Both
    } else if r {
        Marking::Right
    } else if l {
        Marking::Left
    } else if before == Marking::Animating {
        Marking::Animating
    } else {
        Marking::Unmarked
    }
}

/// A left pin in row `j` is joined to the right pins.
pub open spec fn left_pin_zapped(g: Layout, j: int) -> bool {
    left_seed(g, (0, j)) && reaches_right(g, (0, j))
}

/// A right pin in row `j` is joined to the left pins.
pub open spec fn right_pin_zapped(g: Layout, j: int) -> bool {
    right_seed(g, (g.width - 1, j)) && reaches_left(g, (g.width - 1, j))
}

/// Some left pin is joined to the right pins: the board is zapped.
pub open spec fn zapped(g: Layout) -> bool {
    exists|j: int| 0 <= j < g.height && #[trigger] left_pin_zapped(g, j)
}

/// Number of rows below `n` whose left pin is joined to the right pins.
pub open spec fn left_pins_upto(g: Layout, n: int) -> nat
    decreases n,
{
    if n <= 0 {
        0
    } else {
        left_pins_upto(g, n - 1) + if left_pin_zapped(g, n - 1) {
            1nat
        } else {
            0nat
        }
    }
}

/// Number of rows below `n` whose right pin is joined to the left pins.
pub open spec fn right_pins_upto(g: Layout, n: int) -> nat
    decreases n,
{
    if n <= 0 {
        0
    } else {
        right_pins_upto(g, n - 1) + if right_pin_zapped(g, n - 1) {
            1nat
        } else {
            0nat
        }
    }
}

/// The marking stored for `c` in a column-major marking sequence.
pub open spec fn mark_of(g: Layout, marks: Seq<Marking>, c: Cell) -> Marking {
    marks[cell_index(g.height as int, c.0, c.1)]
}

/// Every cell adjacent to a cell marked `m` is marked `m` too.
pub open spec fn closed_under(g: Layout, marks: Seq<Marking>, m: Marking) -> bool {
    forall|a: Cell, b: Cell|
        #[trigger] adjacent(g, a, b) && mark_of(g, marks, a) == m ==> mark_of(g, marks, b) == m
}

pub proof fn lemma_adjacent_symmetric(g: Layout, a: Cell, b: Cell)
    requires
        adjacent(g, a, b),
    ensures
        adjacent(g, b, a),
        g.in_bounds(a.0, a.1),
        g.in_bounds(b.0, b.1),
{
}

pub proof fn lemma_reach_self(g: Layout, s: Cell)
    ensures
        reach_from(g, s, s),
{
    let p = seq![s];
    assert(is_path(g, p));
}

pub proof fn lemma_reach_extend(g: Layout, s: Cell, a: Cell, b: Cell)
    requires
        reach_from(g, s, a),
        adjacent(g, a, b),
    ensures
        reach_from(g, s, b),
{
    let p = choose|p: Seq<Cell>| #[trigger] is_path(g, p) && p[0] == s && p.last() == a;
    let q = p.push(b);
    assert forall|i: int| 0 <= i < q.len() - 1 implies #[trigger] adjacent(g, q[i], q[i + 1]) by {
        if i < p.len() - 1 {
            assert(q[i] == p[i] && q[i + 1] == p[i + 1]);
        } else {
            assert(q[i] == a && q[i + 1] == b);
        }
    }
    assert(is_path(g, q));
    assert(q[0] == s && q.last() == b);
}

/// Paths compose.
pub proof fn lemma_reach_trans(g: Layout, s: Cell, a: Cell, c: Cell)
    requires
        reach_from(g, s, a),
        reach_from(g, a, c),
    ensures
        reach_from(g, s, c),
{
    let p = choose|p: Seq<Cell>| #[trigger] is_path(g, p) && p[0] == a && p.last() == c;
    lemma_reach_trans_along(g, s, p, p.len() as int);
}

proof fn lemma_reach_trans_along(g: Layout, s: Cell, p: Seq<Cell>, k: int)
    requires
        is_path(g, p),
        reach_from(g, s, p[0]),
        1 <= k <= p.len(),
    ensures
        reach_from(g, s, p[k - 1]),
    decreases k,
{
    if k > 1 {
        lemma_reach_trans_along(g, s, p, k - 1);
        let i = k - 2;
        assert(adjacent(g, p[i], p[i + 1]));
        lemma_reach_extend(g, s, p[k - 2], p[k - 1]);
    }
}

/// Paths can be walked backwards.
pub proof fn lemma_reach_symmetric(g: Layout, s: Cell, c: Cell)
    requires
        reach_from(g, s, c),
    ensures
        reach_from(g, c, s),
{
    let p = choose|p: Seq<Cell>| #[trigger] is_path(g, p) && p[0] == s && p.last() == c;
    lemma_reach_back_along(g, p, p.len() as int);
}

proof fn lemma_reach_back_along(g: Layout, p: Seq<Cell>, k: int)
    requires
        is_path(g, p),
        1 <= k <= p.len(),
    ensures
        reach_from(g, p[k - 1], p[0]),
    decreases k,
{
    if k == 1 {
        lemma_reach_self(g, p[0]);
    } else {
        lemma_reach_back_along(g, p, k - 1);
        let i = k - 2;
        assert(adjacent(g, p[i], p[i + 1]));
        lemma_adjacent_symmetric(g, p[k - 2], p[k - 1]);
        lemma_reach_self(g, p[k - 1]);
        lemma_reach_extend(g, p[k - 1], p[k - 1], p[k - 2]);
        lemma_reach_trans(g, p[k - 1], p[k - 2], p[0]);
    }
}

/// A set closed under adjacency holds every cell reachable from one of its cells.
pub proof fn lemma_closed_covers(g: Layout, marks: Seq<Marking>, m: Marking, s: Cell, c: Cell)
    requires
        closed_under(g, marks, m),
        mark_of(g, marks, s) == m,
        reach_from(g, s, c),
    ensures
        mark_of(g, marks, c) == m,
{
    let p = choose|p: Seq<Cell>| #[trigger] is_path(g, p) && p[0] == s && p.last() == c;
    lemma_closed_covers_along(g, marks, m, p, p.len() as int);
}

proof fn lemma_closed_covers_along(g: Layout, marks: Seq<Marking>, m: Marking, p: Seq<Cell>, k: int)
    requires
        closed_under(g, marks, m),
        is_path(g, p),
        mark_of(g, marks, p[0]) == m,
        1 <= k <= p.len(),
    ensures
        mark_of(g, marks, p[k - 1]) == m,
    decreases k,
{
    if k > 1 {
        lemma_closed_covers_along(g, marks, m, p, k - 1);
        let i = k - 2;
        assert(adjacent(g, p[i], p[i + 1]));
    }
}

/// Reachability from the right pins is closed under adjacency, and so is its complement.
pub proof fn lemma_right_reach_closed(g: Layout, rows: int, a: Cell, b: Cell)
    requires
        adjacent(g, a, b),
    ensures
        right_reach_upto(g, rows, a) <==> right_reach_upto(g, rows, b),
{
    lemma_adjacent_symmetric(g, a, b);
    if right_reach_upto(g, rows, a) {
        let s = choose|s: Cell| #[trigger] right_seed(g, s) && s.1 < rows && reach_from(g, s, a);
        lemma_reach_extend(g, s, a, b);
    }
    if right_reach_upto(g, rows, b) {
        let s = choose|s: Cell| #[trigger] right_seed(g, s) && s.1 < rows && reach_from(g, s, b);
        lemma_reach_extend(g, s, b, a);
    }
}

/// Reachability from the left pins is closed under adjacency, and so is its complement.
pub proof fn lemma_left_reach_closed(g: Layout, rows: int, a: Cell, b: Cell)
    requires
        adjacent(g, a, b),
    ensures
        left_reach_upto(g, rows, a) <==> left_reach_upto(g, rows, b),
{
    lemma_adjacent_symmetric(g, a, b);
    if left_reach_upto(g, rows, a) {
        let s = choose|s: Cell| #[trigger] left_seed(g, s) && s.1 < rows && reach_from(g, s, a);
        lemma_reach_extend(g, s, a, b);
    }
    if left_reach_upto(g, rows, b) {
        let s = choose|s: Cell| #[trigger] left_seed(g, s) && s.1 < rows && reach_from(g, s, b);
        lemma_reach_extend(g, s, b, a);
    }
}

/// A stretch of a path is a path.
pub proof fn lemma_subpath(g: Layout, p: Seq<Cell>, a: int, b: int)
    requires
        is_path(g, p),
        0 <= a < b <= p.len(),
    ensures
        is_path(g, p.subrange(a, b)),
{
    let q = p.subrange(a, b);
    assert forall|i: int| 0 <= i < q.len() - 1 implies #[trigger] adjacent(g, q[i], q[i + 1]) by {
        assert(q[i] == p[a + i] && q[i + 1] == p[a + i + 1]);
        let k = a + i;
        assert(adjacent(g, p[k], p[k + 1]));
    }
}

/// Along an unbroken chain from a left pin to a right pin every cell is
/// joined to both edges, so a connectivity check marks each of them Both
/// and finds the board zapped.
pub proof fn lemma_chain_zaps(g: Layout, p: Seq<Cell>)
    requires
        is_path(g, p),
        left_seed(g, p[0]),
        right_seed(g, p.last()),
    ensures
        zapped(g),
        forall|i: int, m: Marking|
            0 <= i < p.len() ==> #[trigger] settled_marking(g, m, p[i]) == Marking::Both,
{
    let n = p.len() as int;
    assert forall|i: int| 0 <= i < n implies reaches_left(g, p[i]) && reaches_right(g, p[i]) by {
        lemma_subpath(g, p, 0, i + 1);
        let q = p.subrange(0, i + 1);
        assert(q[0] == p[0] && q.last() == p[i]);
        assert(reach_from(g, p[0], p[i]));
        assert(left_reach_upto(g, g.height as int, p[i]));
        lemma_subpath(g, p, i, n);
        let r = p.subrange(i, n);
        assert(r[0] == p[i] && r.last() == p.last());
        assert(reach_from(g, p[i], p.last()));
        lemma_reach_symmetric(g, p[i], p.last());
        assert(right_reach_upto(g, g.height as int, p[i]));
    }
    assert(p[0] == (0int, p[0].1));
    assert(left_pin_zapped(g, p[0].1));
}

/// A board that is not zapped has no cell joined to both edges.
pub proof fn lemma_no_zap_no_both(g: Layout, c: Cell, m: Marking)
    requires
        !zapped(g),
    ensures
        settled_marking(g, m, c) != Marking::Both,
{
    if reaches_right(g, c) && reaches_left(g, c) {
        let s = choose|s: Cell| #[trigger] left_seed(g, s) && s.1 < g.height && reach_from(g, s, c);
        let r = choose|r: Cell| #[trigger] right_seed(g, r) && r.1 < g.height && reach_from(g, r, c);
        lemma_reach_symmetric(g, s, c);
        lemma_reach_trans(g, r, c, s);
        assert(right_reach_upto(g, g.height as int, s));
        assert(s == (0int, s.1));
        assert(left_pin_zapped(g, s.1));
    }
}

} // verus!
