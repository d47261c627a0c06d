use vstd::prelude::*;
use crate::board::GameBoard;
use crate::components::{Direction, Marking};
use crate::grid::{cell_index, is_single, rotated, Layout, Tile};
use crate::reach::{
    left_pins_upto, opens, reaches_left, reaches_right, right_pins_upto, settled_marking, zapped, Cell,
};

verus! {

/// The AI player that evaluates all possible single-tile rotations
/// and picks the one that yields the highest connection score.
pub struct BotPlayer;

/// A move recommendation: which tile to rotate and how many times.
#[derive(Debug, Clone, Copy, PartialEq, Eq, Structural)]
pub struct BotMove {
    pub x: usize,
    pub y: usize,
    pub rotation_count: usize,
}

/// What one cell contributes to a board's score: on a zapped board 2 for each
/// cell joined to both edges; otherwise 1 for each cell reached from the right
/// only, 3 more when it is a right pin.
pub open spec fn cell_score(g: Layout, c: Cell) -> int {
    if zapped(g) {
        if reaches_right(g, c) && reaches_left(g, c) {
            2
        } else {
            0
        }
    } else if reaches_right(g, c) && !reaches_left(g, c) {
        1 + if c.0 == g.width - 1 && opens(g, c, 1) {
            3int
        } else {
            0int
        }
    } else {
        0
    }
}

/// Score of the first `n` cells of row `j`.
pub open spec fn row_score(g: Layout, j: int, n: int) -> int
    decreases n,
{
    if n <= 0 {
        0
    } else {
        row_score(g, j, n - 1) + cell_score(g, (n - 1, j))
    }
}

/// Score of the first `m` rows.
pub open spec fn rows_score(g: Layout, m: int) -> int
    decreases m,
{
    if m <= 0 {
        0
    } else {
        rows_score(g, m - 1) + row_score(g, m - 1, g.width)
    }
}

/// The score the bot gives a board.
pub open spec fn board_score(g: Layout) -> int {
    rows_score(g, g.height)
}

proof fn lemma_row_score_bounds(g: Layout, j: int, n: int)
    requires
        n >= 0,
    ensures
        0 <= row_score(g, j, n) <= 4 * n,
    decreases n,
{
    if n > 0 {
        lemma_row_score_bounds(g, j, n - 1);
    }
}

proof fn lemma_rows_score_bounds(g: Layout, m: int)
    requires
        m >= 0,
        g.width >= 0,
    ensures
        0 <= rows_score(g, m) <= 4 * g.width * m,
    decreases m,
{
    if m > 0 {
        lemma_rows_score_bounds(g, m - 1);
        lemma_row_score_bounds(g, m - 1, g.width);
        assert(4 * g.width * (m - 1) + 4 * g.width == 4 * g.width * m) by (nonlinear_arith);
    }
}

/// A tile whose rotations can change the board: present, and neither a dead
/// end nor fully connected.
pub open spec fn eligible(t: Option<Tile>) -> bool {
    match t {
        Some(t) => !is_single(t.connections) && t.connections != 15,
        None => false,
    }
}

/// `c` rotated `n` times.
pub open spec fn rotated_n(c: u8, n: nat) -> u8
    decreases n,
{
    if n == 0 {
        c
    } else {
        rotated(rotated_n(c, (n - 1) as nat))
    }
}

/// The board with the tile at (x, y) rotated `k` times.
pub open spec fn trial(g: Layout, x: int, y: int, k: nat) -> Layout {
    g.with_cell(x, y, Some(Tile { connections: rotated_n(g.cell(x, y).unwrap().connections, k) }))
}

/// The best move and its score after trying rotations 1 to `k` of (x, y),
/// starting from `best`; only a strictly higher score replaces it.
pub open spec fn try_rotations(g: Layout, x: int, y: int, k: nat, best: (Option<BotMove>, int)) -> (
    Option<BotMove>,
    int,
)
    decreases k,
{
    if k == 0 {
        best
    } else {
        let b = try_rotations(g, x, y, (k - 1) as nat, best);
        let s = board_score(trial(g, x, y, k));
        if s > b.1 {
            (Some(BotMove { x: x as usize, y: y as usize, rotation_count: k as usize }), s)
        } else {
            b
        }
    }
}

/// The search over the first `n` cells of column `x`, starting from `best`.
pub open spec fn search_column(g: Layout, x: int, n: int, best: (Option<BotMove>, int)) -> (
    Option<BotMove>,
    int,
)
    decreases n,
{
    if n <= 0 {
        best
    } else {
        let b = search_column(g, x, n - 1, best);
        if eligible(g.cell(x, n - 1)) {
            try_rotations(g, x, n - 1, 3, b)
        } else {
            b
        }
    }
}

/// The search over the first `m` columns, from no move and a score of 0.
pub open spec fn search(g: Layout, m: int) -> (Option<BotMove>, int)
    decreases m,
{
    if m <= 0 {
        (None, 0)
    } else {
        search_column(g, m - 1, g.height, search(g, m - 1))
    }
}

/// The bot's choice on a board: the first trial, in column-major order and by
/// rotation count, with the highest positive score; none if no trial scores.
pub open spec fn best_move(g: Layout) -> Option<BotMove> {
    search(g, g.width).0
}

/// No move, or a move of one to three rotations of a rotatable tile on the board.
pub open spec fn valid_choice(g: Layout, o: Option<BotMove>) -> bool {
    match o {
        Some(m) => 0 <= m.x < g.width && 0 <= m.y < g.height && eligible(
            g.cell(m.x as int, m.y as int),
        ) && 1 <= m.rotation_count <= 3,
        None => true,
    }
}

proof fn lemma_try_rotations_valid(g: Layout, x: int, y: int, k: nat, best: (Option<BotMove>, int))
    requires
        valid_choice(g, best.0),
        0 <= x < g.width <= usize::MAX,
        0 <= y < g.height <= usize::MAX,
        eligible(g.cell(x, y)),
        k <= 3,
    ensures
        valid_choice(g, try_rotations(g, x, y, k, best).0),
    decreases k,
{
    if k > 0 {
        lemma_try_rotations_valid(g, x, y, (k - 1) as nat, best);
    }
}

proof fn lemma_search_column_valid(g: Layout, x: int, n: int, best: (Option<BotMove>, int))
    requires
        valid_choice(g, best.0),
        0 <= x < g.width <= usize::MAX,
        0 <= n <= g.height <= usize::MAX,
    ensures
        valid_choice(g, search_column(g, x, n, best).0),
    decreases n,
{
    if n > 0 {
        lemma_search_column_valid(g, x, n - 1, best);
        if eligible(g.cell(x, n - 1)) {
            lemma_try_rotations_valid(g, x, n - 1, 3, search_column(g, x, n - 1, best));
        }
    }
}

proof fn lemma_search_valid(g: Layout, m: int)
    requires
        0 <= m <= g.width <= usize::MAX,
        g.height <= usize::MAX,
        g.height >= 0,
    ensures
        valid_choice(g, search(g, m).0),
    decreases m,
{
    if m > 0 {
        lemma_search_valid(g, m - 1);
        lemma_search_column_valid(g, m - 1, g.height, search(g, m - 1));
    }
}

/// The move the bot's search returns, if any, rotates a rotatable tile on
/// the board one to three times.
pub proof fn lemma_best_move_valid(g: Layout)
    requires
        0 <= g.width <= usize::MAX,
        0 <= g.height <= usize::MAX,
    ensures
        valid_choice(g, best_move(g)),
{
    lemma_search_valid(g, g.width);
}

/// Boards small enough that a score fits an `i32`.
pub open spec fn scorable(b: &GameBoard) -> bool {
    4 * b.width * b.height <= i32::MAX
}

impl BotPlayer {
    /// Find the best single-tile rotation on the board.
    /// Returns `None` if no move improves the score.
    pub fn determine_next_move(board: &GameBoard) -> (r: Option<BotMove>)
        requires
            board.wf(),
            scorable(board),
        ensures
            r == best_move(board.grid.layout()),
    {
        let ghost g = board.grid.layout();
        let w = board.width;
        let h = board.height;
        let mut best_move: Option<BotMove> = None;
        let mut best_score: i32 = 0;
        let mut x: usize = 0;
        while x < w
            invariant
                board.wf(),
                scorable(board),
                g == board.grid.layout(),
                w == board.width,
                h == board.height,
                0 <= x <= w,
                (best_move, best_score as int) == search(g, x as int),
            decreases w - x,
        {
            let ghost col_start = (best_move, best_score as int);
            let mut y: usize = 0;
            while y < h
                invariant
                    board.wf(),
                    scorable(board),
                    g == board.grid.layout(),
                    w == board.width,
                    h == board.height,
                    0 <= x < w,
                    0 <= y <= h,
                    col_start == search(g, x as int),
                    (best_move, best_score as int) == search_column(g, x as int, y as int, col_start),
                decreases h - y,
            {
                let ghost before = (best_move, best_score as int);
                let t = board.grid.get(x, y);
                let mut candidate = false;
                let mut c0: u8 = 0;
                match t {
                    Some(t) => {
                        c0 = t.connections;
                        candidate = !(c0 == 1 || c0 == 2 || c0 == 4 || c0 == 8 || c0 == 15);
                    },
                    None => {},
                }
                if candidate {
                    let mut sim = board.duplicate();
                    let ghost idx = cell_index(h as int, x as int, y as int);
                    proof {
                        board.grid.lemma_index_in_range(x as int, y as int);
                        assert(trial(g, x as int, y as int, 0).cells =~= g.cells);
                    }
                    let mut rot: usize = 1;
                    while rot <= 3
                        invariant
                            board.wf(),
                            scorable(board),
                            sim.wf(),
                            sim.width == w,
                            sim.height == h,
                            g == board.grid.layout(),
                            w == board.width,
                            h == board.height,
                            0 <= x < w,
                            0 <= y < h,
                            g.cell(x as int, y as int) == Some(Tile { connections: c0 }),
                            idx == cell_index(h as int, x as int, y as int),
                            1 <= rot <= 4,
                            sim.grid.layout() == trial(g, x as int, y as int, (rot - 1) as nat),
                            (best_move, best_score as int) == try_rotations(
                                g,
                                x as int,
                                y as int,
                                (rot - 1) as nat,
                                before,
                            ),
                        decreases 4 - rot,
                    {
                        proof {
                            sim.grid.lemma_index_in_range(x as int, y as int);
                        }
                        let cur = match sim.grid.get(x, y) {
                            Some(t) => *t,
                            None => Tile { connections: 0 },
                        };
                        let mut nt = cur;
                        nt.rotate();
                        sim.grid.set(x, y, Some(nt));
                        proof {
                            assert(sim.grid.layout() =~= trial(g, x as int, y as int, rot as nat)) by {
                                assert(sim.grid@ =~= g.cells.update(
                                    idx,
                                    Some(Tile { connections: rotated_n(c0, rot as nat) }),
                                ));
                            }
                        }
                        let score = Self::evaluate_connections(&mut sim);
                        if score > best_score {
                            best_score = score;
                            best_move = Some(BotMove { x, y, rotation_count: rot });
                        }
                        rot = rot + 1;
                    }
                }
                y = y + 1;
            }
            x = x + 1;
        }
        best_move
    }

    /// Evaluate the current board: on a zapped board twice the number of cells
    /// joined to both edges, otherwise the cells reached from the right plus a
    /// bonus for right pins.
    fn evaluate_connections(board: &mut GameBoard) -> (r: i32)
        requires
            old(board).wf(),
            scorable(old(board)),
        ensures
            r == board_score(old(board).grid.layout()),
            final(board).wf(),
            final(board).width == old(board).width,
            final(board).height == old(board).height,
            final(board).grid == old(board).grid,
            forall|c: Cell|
                old(board).grid.in_bounds(c.0, c.1) ==> #[trigger] final(board).mark(c)
                    == settled_marking(old(board).grid.layout(), old(board).mark(c), c),
            final(board).multiplier_left == old(board).multiplier_left,
            final(board).multiplier_right == old(board).multiplier_right,
            final(board).rng == old(board).rng,
            final(board).new_elements == old(board).new_elements,
            final(board).missing_link_elements == old(board).missing_link_elements,
            final(board).missing_links == old(board).missing_links,
            final(board).left_pins_connect == left_pins_upto(old(board).grid.layout(), old(board).height as int),
            final(board).right_pins_connect == right_pins_upto(old(board).grid.layout(), old(board).height as int),
    {
        let ghost g = board.grid.layout();
        let mut score: i32 = 0;
        let zap = board.check_connections();
        let ghost checked_board = *board;
        let w = board.width;
        let h = board.height;
        proof {
            lemma_rows_score_bounds(g, h as int);
            assert forall|c: Cell| g.in_bounds(c.0, c.1) implies #[trigger] board.mark(c)
                == settled_marking(g, old(board).mark(c), c) by {}
        }
        let mut j: usize = 0;
        while j < h
            invariant
                *board == checked_board,
                board.wf(),
                4 * w * h <= i32::MAX,
                g == board.grid.layout(),
                w == board.width,
                h == board.height,
                w >= 1,
                zap == 1 <==> zapped(g),
                zap == 0 || zap == 1,
                forall|c: Cell|
                    g.in_bounds(c.0, c.1) ==> (#[trigger] board.mark(c) == Marking::Both <==> (reaches_right(g, c)
                        && reaches_left(g, c))),
                forall|c: Cell|
                    g.in_bounds(c.0, c.1) ==> (#[trigger] board.mark(c) == Marking::Right <==> (reaches_right(
                        g,
                        c,
                    ) && !reaches_left(g, c))),
                0 <= j <= h,
                score == rows_score(g, j as int),
            decreases h - j,
        {
            let mut i: usize = 0;
            proof {
                lemma_rows_score_bounds(g, j as int);
            }
            while i < w
                invariant
                    *board == checked_board,
                    board.wf(),
                    4 * w * h <= i32::MAX,
                    g == board.grid.layout(),
                    w == board.width,
                    h == board.height,
                    w >= 1,
                    zap == 1 <==> zapped(g),
                    zap == 0 || zap == 1,
                    forall|c: Cell|
                        g.in_bounds(c.0, c.1) ==> (#[trigger] board.mark(c) == Marking::Both <==> (reaches_right(
                            g,
                            c,
                        ) && reaches_left(g, c))),
                    forall|c: Cell|
                        g.in_bounds(c.0, c.1) ==> (#[trigger] board.mark(c) == Marking::Right <==> (
                        reaches_right(g, c) && !reaches_left(g, c))),
                    0 <= j < h,
                    0 <= i <= w,
                    rows_score(g, j as int) <= 4 * w * j,
                    score == rows_score(g, j as int) + row_score(g, j as int, i as int),
                decreases w - i,
            {
                proof {
                    lemma_row_score_bounds(g, j as int, i as int);
                    assert(4 * w * j + 4 * i + 4 <= 4 * w * h) by (nonlinear_arith)
                        requires
                            0 <= j < h,
                            0 <= i < w,
                    ;
                }
                let m = board.get_marking(i, j);
                let ghost c: Cell = (i as int, j as int);
                assert(m == Marking::Both <==> (reaches_right(g, c) && reaches_left(g, c)));
                assert(m == Marking::Right <==> (reaches_right(g, c) && !reaches_left(g, c)));
                if zap != 0 {
                    if m == Marking::Both {
                        score = score + 2;
                    }
                } else {
                    if m == Marking::Right {
                        score = score + 1;
                        if i == w - 1 {
                            match board.grid.get(i, j) {
                                Some(t) => {
                                    if t.has_connection(Direction::right()) {
                                        score = score + 3;
                                    }
                                },
                                None => {},
                            }
                        }
                    }
                }
                i = i + 1;
            }
            j = j + 1;
        }
        score
    }
}

} // verus!
