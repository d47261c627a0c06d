use vstd::prelude::*;
use crate::board::{
    blast_before, blast_values, fresh_tile, refill_before, refill_values, span_hi, span_lo, survivors,
    default_tiles, row_major, GameBoard,
};
use crate::bonus::{bonus_points, calculate_bonus_drops, side_drops, BonusDrop, FallingBonusKind};
use crate::bot::{best_move, rotated_n, scorable, BotMove, BotPlayer};
use crate::components::{
    Direction, GameMode, Marking, PowerUpInventory, PowerUpType, SoundEvent, DEFAULT_HEIGHT,
    DEFAULT_WIDTH,
};
use crate::grid::{cell_index, rotated, Tile};
use crate::reach::{opens, settled_marking, zapped, Cell};

verus! {

/// What `tick` does: the phase of the game.
#[derive(Debug, Clone, Copy, PartialEq, Eq, Structural)]
pub enum GamePhase {
    WaitingForInput,
    RotatingTile,
    FallingTiles,
    FreezeDuringZap,
    FreezeDuringBomb,
    GameOver,
    FallingBonuses,
}

/// Score at which a game against the bot ends.
pub const MAX_VS_SCORE: i32 = 100;

/// Half-size of the square a bomb clears.
pub const BOMB_RADIUS: usize = 2;

/// Where points were scored.
#[derive(Debug, Clone, Copy, PartialEq, Eq, Structural)]
pub enum ScoreSpot {
    /// The left pin of a row.
    LeftPin(usize),
    /// The right pin of a row.
    RightPin(usize),
    /// A collected bonus on a cell (column, row).
    Tile(usize, usize),
}

/// Points scored this tick, for the host's floating score text.
#[derive(Debug, Clone, Copy, PartialEq, Eq, Structural)]
pub struct ScoreEvent {
    pub spot: ScoreSpot,
    pub value: i32,
    /// 0 for the left player, 1 for the right one.
    pub side: u8,
}

/// What a consumed tap did.
#[derive(Debug, Clone, Copy, PartialEq, Eq, Structural)]
pub enum TapAction {
    /// No tap was waiting.
    Idle,
    /// The tile at (x, y) was rotated once.
    Rotated(usize, usize),
    /// A bomb or an arrow is armed to clear the area (x, y, dx, dy) once the freeze ends.
    Blast(usize, usize, usize, usize),
    /// The tile at (x, y) was given every connection; connectivity must be checked again.
    Crossed(usize, usize),
}

/// What the host's timers report to the core during a tick.
#[derive(Debug, Clone, Copy, PartialEq, Eq, Structural)]
pub enum TickEvent {
    /// Every rotation animation has finished.
    RotationsFinished,
    /// The freeze timer has run out.
    FreezeExpired,
    /// Every tile and bonus has finished falling.
    FallsFinished,
}

/// What the core did with a tick event.
#[derive(Debug)]
pub enum Advance {
    /// The event does not apply to the current phase; nothing changed.
    Ignored,
    /// Connectivity was checked; the landed bonuses at these indices stay.
    Checked(Vec<usize>),
    /// A zap was cleared: the falls to animate and the bonus drop counts.
    Cleared(Vec<FallMove>, (usize, usize, usize)),
    /// A blast was applied: per column, how many new tiles fall into its top.
    Blasted(Vec<(usize, usize)>),
    /// A blast cleared no tiles, so connectivity was checked at once; the
    /// landed bonuses at these indices stay.
    BlastRechecked(Vec<usize>),
}

/// Where a falling tile starts from.
#[derive(Debug, Clone, Copy, PartialEq, Eq, Structural)]
pub enum FallFrom {
    /// A surviving tile that was in this row.
    Row(usize),
    /// A new tile that starts this many rows above the board.
    Above(usize),
}

/// A tile that falls into (x, y).
#[derive(Debug, Clone, Copy, PartialEq, Eq, Structural)]
pub struct FallMove {
    pub x: usize,
    pub y: usize,
    pub from: FallFrom,
}

/// `v` clamped to the range of `i32`.
pub open spec fn sat(v: int) -> i32 {
    if v > i32::MAX {
        i32::MAX
    } else if v < i32::MIN {
        i32::MIN
    } else {
        v as i32
    }
}

/// Adds without overflowing: scores and multipliers stop at the largest `i32`.
fn sat_add(a: i32, b: i32) -> (r: i32)
    ensures
        r == sat(a + b),
{
    let s: i64 = a as i64 + b as i64;
    if s > i32::MAX as i64 {
        i32::MAX
    } else if s < i32::MIN as i64 {
        i32::MIN
    } else {
        s as i32
    }
}

/// The left pin of row `y` scores: its cell is joined to both edges and opens left.
pub open spec fn left_pin_scores(b: GameBoard, y: int) -> bool {
    b.mark((0, y)) == Marking::Both && opens(b.grid.layout(), (0, y), 4)
}

/// The right pin of row `y` scores: its cell is joined to both edges and opens right.
pub open spec fn right_pin_scores(b: GameBoard, y: int) -> bool {
    b.mark((b.width - 1, y)) == Marking::Both && opens(b.grid.layout(), (b.width - 1, y), 1)
}

/// Adds `m` to the scoring side, or to both sides in Zen mode.
pub open spec fn award(mode: GameMode, s: (i32, i32), m: int, right: bool) -> (i32, i32) {
    if mode == GameMode::Zen {
        (sat(s.0 + m), sat(s.1 + m))
    } else if right {
        (s.0, sat(s.1 + m))
    } else {
        (sat(s.0 + m), s.1)
    }
}

/// The scores after the pins of the first `n` rows have been awarded their multipliers.
pub open spec fn pin_scores(b: GameBoard, mode: GameMode, s: (i32, i32), n: int) -> (i32, i32)
    decreases n,
{
    if n <= 0 {
        s
    } else {
        let p = pin_scores(b, mode, s, n - 1);
        let y = n - 1;
        let q = if left_pin_scores(b, y) {
            award(mode, p, b.multiplier_left@[y] as int, false)
        } else {
            p
        };
        if right_pin_scores(b, y) {
            award(mode, q, b.multiplier_right@[y] as int, true)
        } else {
            q
        }
    }
}

/// The score events of the pins of the first `n` rows.
pub open spec fn pin_events(b: GameBoard, n: int) -> Seq<ScoreEvent>
    decreases n,
{
    if n <= 0 {
        Seq::empty()
    } else {
        let y = n - 1;
        let l = if left_pin_scores(b, y) {
            seq![ScoreEvent { spot: ScoreSpot::LeftPin(y as usize), value: b.multiplier_left@[y], side: 0 }]
        } else {
            Seq::empty()
        };
        let r = if right_pin_scores(b, y) {
            seq![ScoreEvent { spot: ScoreSpot::RightPin(y as usize), value: b.multiplier_right@[y], side: 1 }]
        } else {
            Seq::empty()
        };
        pin_events(b, n - 1) + l + r
    }
}

/// A landed bonus on a cell reached from the left (or from both edges) goes to the left player.
pub open spec fn taken_left(b: GameBoard, d: BonusDrop) -> bool {
    b.mark((d.tile_x as int, d.tile_y as int)) == Marking::Left || b.mark(
        (d.tile_x as int, d.tile_y as int),
    ) == Marking::Both
}

/// A landed bonus on a cell reached from the right only goes to the right player.
pub open spec fn taken_right(b: GameBoard, d: BonusDrop) -> bool {
    b.mark((d.tile_x as int, d.tile_y as int)) == Marking::Right
}

/// Points that the left (`right == false`) or right player collects from the first `n` bonuses.
pub open spec fn collected_points(b: GameBoard, s: Seq<BonusDrop>, n: int, right: bool) -> int
    decreases n,
{
    if n <= 0 {
        0
    } else {
        let d = s[n - 1];
        collected_points(b, s, n - 1, right) + if (right && taken_right(b, d)) || (!right
            && taken_left(b, d)) {
            bonus_points(d.kind) as int
        } else {
            0
        }
    }
}

/// Indices of the bonuses among the first `n` that nobody collects.
pub open spec fn uncollected(b: GameBoard, s: Seq<BonusDrop>, n: int) -> Seq<usize>
    decreases n,
{
    if n <= 0 {
        Seq::empty()
    } else {
        uncollected(b, s, n - 1) + if !taken_left(b, s[n - 1]) && !taken_right(b, s[n - 1]) {
            seq![(n - 1) as usize]
        } else {
            Seq::empty()
        }
    }
}

/// The score events of the coins among the first `n` bonuses that are collected.
pub open spec fn bonus_events(b: GameBoard, s: Seq<BonusDrop>, n: int) -> Seq<ScoreEvent>
    decreases n,
{
    if n <= 0 {
        Seq::empty()
    } else {
        let d = s[n - 1];
        let pts = bonus_points(d.kind);
        bonus_events(b, s, n - 1) + if pts > 0 && taken_left(b, d) {
            seq![ScoreEvent { spot: ScoreSpot::Tile(d.tile_x, d.tile_y), value: pts, side: 0 }]
        } else if pts > 0 && taken_right(b, d) {
            seq![ScoreEvent { spot: ScoreSpot::Tile(d.tile_x, d.tile_y), value: pts, side: 1 }]
        } else {
            Seq::empty()
        }
    }
}

/// A power-up of type `p` is among the first `n` bonuses and goes to the given side.
pub open spec fn collects_power(b: GameBoard, s: Seq<BonusDrop>, n: int, p: PowerUpType, right: bool) -> bool {
    exists|i: int|
        0 <= i < n && #[trigger] s[i].kind == FallingBonusKind::PowerUp(p) && if right {
            taken_right(b, s[i])
        } else {
            taken_left(b, s[i])
        }
}

/// The scores after the collected bonuses are added: to both players in Zen
/// mode, to each collector otherwise.
pub open spec fn bonus_scores(b: GameBoard, mode: GameMode, s: (i32, i32), d: Seq<BonusDrop>) -> (i32, i32) {
    let l = collected_points(b, d, d.len() as int, false);
    let r = collected_points(b, d, d.len() as int, true);
    if l > 0 || r > 0 {
        if mode == GameMode::Zen {
            (sat(s.0 + (l + r)), sat(s.1 + (l + r)))
        } else {
            (sat(s.0 + l), sat(s.1 + r))
        }
    } else {
        s
    }
}

/// `after` is `before` once the tiles that `mid` (a re-check of `before`)
/// marks as joined to both edges were removed and the columns refilled.
pub open spec fn cleared_from(before: GameBoard, mid: GameBoard, after: GameBoard) -> bool {
    &&& mid.grid == before.grid
    &&& mid.width == before.width
    &&& mid.height == before.height
    &&& forall|c: Cell|
        before.grid.in_bounds(c.0, c.1) ==> #[trigger] mid.mark(c) == settled_marking(
            before.grid.layout(),
            before.mark(c),
            c,
        )
    &&& forall|x: int, y: int|
        before.grid.in_bounds(x, y) && y >= before.height - survivors(mid, x).len()
            ==> #[trigger] after.grid.cell(x, y) == Some(
            survivors(mid, x)[y - (before.height - survivors(mid, x).len())],
        )
    &&& forall|x: int, y: int|
        before.grid.in_bounds(x, y) && y < before.height - survivors(mid, x).len() ==> fresh_tile(
            #[trigger] after.grid.cell(x, y),
        )
    &&& forall|x: int, y: int|
        before.grid.in_bounds(x, y) && y < before.height - survivors(mid, x).len()
            ==> #[trigger] after.grid.cell(x, y) == Some(Tile { connections: refill_values(mid, x)[y] })
    &&& mid.gen_state() == before.gen_state()
    &&& after.gen_state() == refill_before(mid, before.width as int)
}

/// (x, y) lies in the area of `d` columns and `e` rows on each side of
/// (cx, cy), clamped to a `w` by `h` board.
pub open spec fn in_area(x: int, y: int, cx: int, cy: int, d: int, e: int, w: int, h: int) -> bool {
    span_lo(cx, d) <= x < span_hi(cx, d, w) && span_lo(cy, e) <= y < span_hi(cy, e, h)
}

/// The board after a blast of the area (cx, cy, d, e): per column of the
/// area, its rows are removed, the rows above fall by as many, and the top
/// holds new tiles.
pub open spec fn blasted(before: GameBoard, after: GameBoard, cx: int, cy: int, d: int, e: int) -> bool {
    let lo_x = span_lo(cx, d);
    let hi_x = span_hi(cx, d, before.width as int);
    let lo_y = span_lo(cy, e);
    let hi_y = span_hi(cy, e, before.height as int);
    let n = hi_y - lo_y;
    &&& forall|x: int, y: int|
        #![trigger after.grid.cell(x, y)]
        before.grid.in_bounds(x, y) ==> {
            if lo_x <= x < hi_x && y < n {
                fresh_tile(after.grid.cell(x, y))
            } else if lo_x <= x < hi_x && y < hi_y {
                after.grid.cell(x, y) == before.grid.cell(x, y - n)
            } else {
                after.grid.cell(x, y) == before.grid.cell(x, y)
            }
        }
    &&& forall|x: int, y: int|
        lo_x <= x < hi_x && 0 <= y < n ==> #[trigger] after.grid.cell(x, y) == Some(
            Tile { connections: blast_values(before, lo_x, n as nat, x)[n - 1 - y] },
        )
    &&& after.gen_state() == blast_before(before, lo_x, n as nat, hi_x)
}

/// One sprite of a frame, in the renderer's order.
#[derive(Debug, Clone, Copy, PartialEq, Eq, Structural)]
pub enum RenderSlot {
    /// The left pin of a row.
    LeftPin(usize),
    /// The tile of a cell (column, row).
    Tile(usize, usize),
    /// The right pin of a row.
    RightPin(usize),
    /// The bonus with this index (falling ones first, then landed ones).
    Bonus(usize),
    /// The rotation arrow of the running rotation animation with this index.
    Arrow(usize),
}

/// Number of tiles present in the first `n` rows of column `x`.
pub open spec fn column_present(g: crate::grid::Layout, x: int, n: int) -> nat
    decreases n,
{
    if n <= 0 {
        0
    } else {
        column_present(g, x, n - 1) + if g.cell(x, n - 1).is_some() {
            1nat
        } else {
            0nat
        }
    }
}

/// Number of tiles present in the first `m` columns.
pub open spec fn tiles_present(g: crate::grid::Layout, m: int) -> nat
    decreases m,
{
    if m <= 0 {
        0
    } else {
        tiles_present(g, m - 1) + column_present(g, m - 1, g.height)
    }
}

/// Tile slots of the present cells in the first `n` rows of column `x`, top to bottom.
pub open spec fn column_slots(g: crate::grid::Layout, x: int, n: int) -> Seq<RenderSlot>
    decreases n,
{
    if n <= 0 {
        Seq::empty()
    } else {
        column_slots(g, x, n - 1) + if g.cell(x, n - 1).is_some() {
            seq![RenderSlot::Tile(x as usize, (n - 1) as usize)]
        } else {
            Seq::empty()
        }
    }
}

/// Tile slots of the present cells of the first `m` columns, column by column.
pub open spec fn tile_slots(g: crate::grid::Layout, m: int) -> Seq<RenderSlot>
    decreases m,
{
    if m <= 0 {
        Seq::empty()
    } else {
        tile_slots(g, m - 1) + column_slots(g, m - 1, g.height)
    }
}

/// The frame's sprites: the left pins, the present tiles column by column,
/// the right pins, the bonuses, and the rotation arrows while a tile turns.
pub open spec fn render_shape(
    g: crate::grid::Layout,
    rotating: bool,
    bonuses: int,
    arrows: int,
    r: Seq<RenderSlot>,
) -> bool {
    let h = g.height;
    let t = tiles_present(g, g.width) as int;
    let a = if rotating {
        arrows
    } else {
        0
    };
    &&& r.len() == 2 * h + t + bonuses + a
    &&& forall|j: int| 0 <= j < h ==> #[trigger] r[j] == RenderSlot::LeftPin(j as usize)
    &&& r.subrange(h, h + t) == tile_slots(g, g.width)
    &&& forall|j: int| 0 <= j < h ==> #[trigger] r[h + t + j] == RenderSlot::RightPin(j as usize)
    &&& forall|j: int|
        0 <= j < bonuses ==> #[trigger] r[2 * h + t + j] == RenderSlot::Bonus(j as usize)
    &&& forall|j: int| 0 <= j < a ==> #[trigger] r[2 * h + t + bonuses + j] == RenderSlot::Arrow(j as usize)
}

proof fn lemma_column_present_bound(g: crate::grid::Layout, x: int, n: int)
    requires
        n >= 0,
    ensures
        column_present(g, x, n) <= n,
    decreases n,
{
    if n > 0 {
        lemma_column_present_bound(g, x, n - 1);
    }
}

proof fn lemma_tiles_present_bound(g: crate::grid::Layout, m: int)
    requires
        m >= 0,
        g.height >= 0,
    ensures
        tiles_present(g, m) <= m * g.height,
    decreases m,
{
    if m > 0 {
        lemma_tiles_present_bound(g, m - 1);
        lemma_column_present_bound(g, m - 1, g.height);
        assert((m - 1) * g.height + g.height == m * g.height) by (nonlinear_arith);
    }
}

/// On a board with a tile in every cell, a frame without bonuses or
/// rotation arrows holds one sprite per tile and one per pin: width times
/// height plus twice the height.
pub proof fn lemma_full_board_frame(g: crate::grid::Layout, r: Seq<RenderSlot>)
    requires
        g.width >= 0,
        g.height >= 0,
        forall|x: int, y: int| g.in_bounds(x, y) ==> #[trigger] g.cell(x, y).is_some(),
        render_shape(g, false, 0, 0, r),
    ensures
        r.len() == g.width * g.height + 2 * g.height,
{
    lemma_full_tiles_present(g, g.width);
}

proof fn lemma_full_column(g: crate::grid::Layout, x: int, n: int)
    requires
        0 <= x < g.width,
        0 <= n <= g.height,
        forall|a: int, b: int| g.in_bounds(a, b) ==> #[trigger] g.cell(a, b).is_some(),
    ensures
        column_present(g, x, n) == n,
    decreases n,
{
    if n > 0 {
        lemma_full_column(g, x, n - 1);
        assert(g.cell(x, n - 1).is_some());
    }
}

proof fn lemma_full_tiles_present(g: crate::grid::Layout, m: int)
    requires
        0 <= m <= g.width,
        g.height >= 0,
        forall|a: int, b: int| g.in_bounds(a, b) ==> #[trigger] g.cell(a, b).is_some(),
    ensures
        tiles_present(g, m) == m * g.height,
    decreases m,
{
    if m > 0 {
        lemma_full_tiles_present(g, m - 1);
        lemma_full_column(g, m - 1, g.height);
        assert(tiles_present(g, m) == tiles_present(g, m - 1) + column_present(g, m - 1, g.height));
        assert((m - 1) * g.height + g.height == m * g.height) by (nonlinear_arith);
    } else {
        assert(m * g.height == 0) by (nonlinear_arith)
            requires
                m == 0,
        ;
    }
}

/// Number of tiles present in column `x` from row `lo` up to (not including) row `hi`.
pub open spec fn tiles_between(g: crate::grid::Layout, x: int, lo: int, hi: int) -> nat
    decreases hi - lo,
{
    if hi <= lo {
        0
    } else {
        tiles_between(g, x, lo, hi - 1) + if g.cell(x, hi - 1).is_some() {
            1nat
        } else {
            0nat
        }
    }
}

/// The cells of column `x` holding a tile, from row `lo` up to (not including) row `y`.
pub open spec fn column_positions(g: crate::grid::Layout, x: int, lo: int, y: int) -> Seq<(usize, usize)>
    decreases y - lo,
{
    if y <= lo {
        Seq::empty()
    } else {
        column_positions(g, x, lo, y - 1) + if g.cell(x, y - 1).is_some() {
            seq![(x as usize, (y - 1) as usize)]
        } else {
            Seq::empty()
        }
    }
}

/// The cells holding a tile in columns `lo_x` up to `x` and rows `lo_y` up
/// to `hi_y`, column by column, top to bottom.
pub open spec fn area_positions(g: crate::grid::Layout, lo_x: int, x: int, lo_y: int, hi_y: int) -> Seq<
    (usize, usize),
>
    decreases x - lo_x,
{
    if x <= lo_x {
        Seq::empty()
    } else {
        area_positions(g, lo_x, x - 1, lo_y, hi_y) + column_positions(g, x - 1, lo_y, hi_y)
    }
}

/// For the columns from `lo_x` up to `x` that hold tiles in rows `lo_y` to
/// `hi_y`: the column and how many.
pub open spec fn blast_counts(g: crate::grid::Layout, lo_x: int, x: int, lo_y: int, hi_y: int) -> Seq<
    (usize, usize),
>
    decreases x - lo_x,
{
    if x <= lo_x {
        Seq::empty()
    } else {
        let c = tiles_between(g, x - 1, lo_y, hi_y);
        blast_counts(g, lo_x, x - 1, lo_y, hi_y) + if c > 0 {
            seq![((x - 1) as usize, c as usize)]
        } else {
            Seq::empty()
        }
    }
}

proof fn lemma_tiles_between_bound(g: crate::grid::Layout, x: int, lo: int, hi: int)
    ensures
        hi >= lo ==> tiles_between(g, x, lo, hi) <= hi - lo,
    decreases hi - lo,
{
    if hi > lo {
        lemma_tiles_between_bound(g, x, lo, hi - 1);
    }
}

/// The outcome of a connectivity check `o` -> `f` that collected the bonuses
/// `landed`, of which those at `kept` stay: fresh markings, collected
/// bonuses, pin scores and raised multipliers on a zap, the bonus drop it
/// earns, its sounds and score events, and the next phase.
pub open spec fn checked(o: GameCore, f: GameCore, landed: Seq<BonusDrop>, kept: Seq<usize>) -> bool {
    let g = o.board.grid.layout();
    let z = zapped(g);
    let pre = before_scoring(f.board, o.board);
    let n = landed.len() as int;
    let s1 = bonus_scores(pre, o.mode, (o.left_score, o.right_score), landed);
    let lp = f.board.left_pins_connect as int;
    let rp = f.board.right_pins_connect as int;
    &&& f.board.grid == o.board.grid
    &&& f.board.width == o.board.width
    &&& f.board.height == o.board.height
    &&& f.board.rng == o.board.rng
    &&& f.board.new_elements == o.board.new_elements
    &&& f.mode == o.mode
    &&& f.bot_enabled == o.bot_enabled
    &&& f.pending_tap == o.pending_tap
    &&& f.pending_bomb == o.pending_bomb
    &&& forall|c: Cell|
        o.board.grid.in_bounds(c.0, c.1) ==> #[trigger] f.board.mark(c) == settled_marking(
            g,
            o.board.mark(c),
            c,
        )
    &&& kept == uncollected(pre, landed, n)
    &&& (f.left_score, f.right_score) == if z {
        pin_scores(pre, o.mode, s1, o.board.height as int)
    } else {
        s1
    }
    &&& forall|y: int|
        0 <= y < o.board.height ==> #[trigger] f.board.multiplier_left@[y] == if z
            && left_pin_scores(pre, y) {
            sat(o.board.multiplier_left@[y] + 1)
        } else {
            o.board.multiplier_left@[y]
        }
    &&& forall|y: int|
        0 <= y < o.board.height ==> #[trigger] f.board.multiplier_right@[y] == if z
            && right_pin_scores(pre, y) {
            sat(o.board.multiplier_right@[y] + 1)
        } else {
            o.board.multiplier_right@[y]
        }
    &&& f.score_events@ == o.score_events@ + bonus_events(pre, landed, n) + if z {
        pin_events(pre, o.board.height as int)
    } else {
        Seq::empty()
    }
    &&& forall|p: PowerUpType|
        #[trigger] f.power_left.holds(p) == (o.power_left.holds(p) || collects_power(
            pre,
            landed,
            n,
            p,
            false,
        ))
    &&& forall|p: PowerUpType|
        #[trigger] f.power_right.holds(p) == (o.power_right.holds(p) || collects_power(
            pre,
            landed,
            n,
            p,
            true,
        ))
    &&& f.power_left.armed == o.power_left.armed
    &&& f.power_right.armed == o.power_right.armed
    &&& f.sound_events@.len() >= o.sound_events@.len()
    &&& f.sound_events@.subrange(0, o.sound_events@.len() as int) == o.sound_events@
    &&& (collected_points(pre, landed, n, false) > 0 || collected_points(pre, landed, n, true) > 0)
        ==> f.sound_events@[o.sound_events@.len() as int] == SoundEvent::CoinDrop
    &&& z ==> f.sound_events@.len() > o.sound_events@.len() && f.sound_events@.last()
        == SoundEvent::Buzz
    &&& z ==> f.pending_bonus == (
        (2 + side_drops(lp).0 + side_drops(rp).0) as usize,
        (side_drops(lp).1 + side_drops(rp).1) as usize,
        (side_drops(lp).2 + side_drops(rp).2) as usize,
    )
    &&& !z ==> f.pending_bonus == o.pending_bonus
    &&& f.phase == if z {
        if o.mode == GameMode::VsBot && (f.left_score >= MAX_VS_SCORE || f.right_score
            >= MAX_VS_SCORE) {
            GamePhase::GameOver
        } else {
            GamePhase::FreezeDuringZap
        }
    } else {
        GamePhase::WaitingForInput
    }
}

/// The outcome `o` -> `f` of applying the queued blast, with `counts` the
/// new tiles per cleared column: the area is cleared and refilled, nothing
/// else changes, and tiles fall if any column got new ones.
pub open spec fn bomb_applied(o: GameCore, f: GameCore, counts: Seq<(usize, usize)>) -> bool {
    &&& f.pending_bomb.is_none()
    &&& f.board.width == o.board.width
    &&& f.board.height == o.board.height
    &&& f.board.markings == o.board.markings
    &&& f.board.multiplier_left == o.board.multiplier_left
    &&& f.board.multiplier_right == o.board.multiplier_right
    &&& f.mode == o.mode
    &&& f.bot_enabled == o.bot_enabled
    &&& f.left_score == o.left_score
    &&& f.right_score == o.right_score
    &&& f.power_left == o.power_left
    &&& f.power_right == o.power_right
    &&& f.pending_tap == o.pending_tap
    &&& f.pending_bonus == o.pending_bonus
    &&& f.sound_events == o.sound_events
    &&& f.score_events == o.score_events
    &&& match o.pending_bomb {
        Some((x, y, dx, dy)) => if x < o.board.width && y < o.board.height {
            blasted(o.board, f.board, x as int, y as int, dx as int, dy as int)
        } else {
            f.board == o.board
        },
        None => counts.len() == 0 && f.board == o.board,
    }
    &&& forall|i: int|
        0 <= i < counts.len() ==> (#[trigger] counts[i]).0 < o.board.width && 1 <= counts[i].1
            <= o.board.height
    &&& o.pending_bomb matches Some((x, y, dx, dy)) ==> counts == blast_counts(
        o.board.grid.layout(),
        span_lo(x as int, dx as int),
        span_hi(x as int, dx as int, o.board.width as int),
        span_lo(y as int, dy as int),
        span_hi(y as int, dy as int, o.board.height as int),
    )
    &&& f.phase == if counts.len() > 0 {
        GamePhase::FallingTiles
    } else {
        o.phase
    }
}

/// The outcome `o` -> `f` of consuming the waiting tap, which did `r`.
pub open spec fn tapped(o: GameCore, f: GameCore, r: TapAction) -> bool {
    &&& (f.pending_tap.is_none())
    &&& (f.mode == o.mode)
    &&& (f.bot_enabled == o.bot_enabled)
    &&& (f.board.width == o.board.width)
    &&& (f.board.height == o.board.height)
    &&& (f.board.markings == o.board.markings)
    &&& (f.board.rng == o.board.rng)
    &&& (f.board.new_elements == o.board.new_elements)
    &&& (f.left_score == o.left_score)
    &&& (f.right_score == o.right_score)
    &&& (f.sound_events@.len() <= o.sound_events@.len() + 1)
    &&& (o.pending_tap.is_none() ==> r == TapAction::Idle && f.board == o.board && f.phase == o.phase)
    &&& (o.pending_tap matches Some((x, y)) ==> {
                let armed = if o.power_left.armed.is_some() {
                    o.power_left.armed
                } else {
                    o.power_right.armed
                };
                let g = o.board.grid;
                match armed {
                    None => r == TapAction::Rotated(x, y) && f.phase
                        == GamePhase::RotatingTile && f.board.grid@ == match g.cell(
                        x as int,
                        y as int,
                    ) {
                        Some(t) => g@.update(
                            cell_index(g.height as int, x as int, y as int),
                            Some(Tile { connections: rotated(t.connections) }),
                        ),
                        None => g@,
                    } && f.sound_events@ == o.sound_events@.push(
                        SoundEvent::Rotate,
                    ),
                    Some(PowerUpType::Bomb) => r == TapAction::Blast(x, y, BOMB_RADIUS, BOMB_RADIUS)
                        && f.sound_events@ == o.sound_events@.push(SoundEvent::Bomb)
                        && f.pending_bomb == Some((x, y, BOMB_RADIUS, BOMB_RADIUS))
                        && f.phase == GamePhase::FreezeDuringBomb && f.board
                        == o.board,
                    Some(PowerUpType::Arrow) => r == TapAction::Blast(x, y, 0usize, g.height)
                        && f.sound_events@ == o.sound_events@.push(SoundEvent::Bomb)
                        && f.pending_bomb == Some((x, y, 0usize, g.height)) && f.phase
                        == GamePhase::FreezeDuringBomb && f.board == o.board,
                    Some(PowerUpType::Cross) => r == TapAction::Crossed(x, y) && f.phase
                        == o.phase && f.sound_events@ == o.sound_events@.push(
                        SoundEvent::PowerUp,
                    ) && f.board.grid@ == match g.cell(
                        x as int,
                        y as int,
                    ) {
                        Some(t) => g@.update(
                            cell_index(g.height as int, x as int, y as int),
                            Some(Tile { connections: 15 }),
                        ),
                        None => g@,
                    },
                }
            })
    &&& (o.pending_tap.is_some() && o.power_left.armed.is_some() ==> {
                let p = o.power_left.armed.unwrap();
                &&& f.power_left.armed.is_none()
                &&& !f.power_left.holds(p)
                &&& forall|q: PowerUpType|
                    q != p ==> f.power_left.holds(q) == o.power_left.holds(q)
                &&& f.power_right == o.power_right
            })
    &&& (o.pending_tap.is_some() && o.power_left.armed.is_none()
                && o.power_right.armed.is_some() ==> {
                let p = o.power_right.armed.unwrap();
                &&& f.power_right.armed.is_none()
                &&& !f.power_right.holds(p)
                &&& forall|q: PowerUpType|
                    q != p ==> f.power_right.holds(q) == o.power_right.holds(q)
                &&& f.power_left == o.power_left
            })
    &&& (o.pending_tap.is_none() || (o.power_left.armed.is_none()
                && o.power_right.armed.is_none()) ==> f.power_left == o.power_left && f.power_right == o.power_right)
}

/// Every fall ends on the board.
pub open spec fn moves_on_board(moves: Seq<FallMove>, w: int, h: int) -> bool {
    forall|i: int| 0 <= i < moves.len() ==> #[trigger] moves[i].x < w && moves[i].y < h
}

/// Rows of column `x` from row `n` down that are not joined to both edges,
/// bottom row first.
pub open spec fn kept_rows_from(b: GameBoard, x: int, n: int) -> Seq<usize>
    decreases b.height - n,
{
    if n >= b.height {
        Seq::empty()
    } else {
        kept_rows_from(b, x, n + 1) + if b.mark((x, n)) != Marking::Both {
            seq![n as usize]
        } else {
            Seq::empty()
        }
    }
}

/// Falls of the first `n` survivors of a column (bottom-up rows `rows`): the
/// `i`-th lands in row `h - 1 - i`, and falls only if that is not its row.
pub open spec fn survivor_falls(h: int, x: int, rows: Seq<usize>, n: int) -> Seq<FallMove>
    decreases n,
{
    if n <= 0 {
        Seq::empty()
    } else {
        let i = n - 1;
        survivor_falls(h, x, rows, i) + if h - 1 - i != rows[i] {
            seq![FallMove { x: x as usize, y: (h - 1 - i) as usize, from: FallFrom::Row(rows[i]) }]
        } else {
            Seq::empty()
        }
    }
}

/// Falls of the first `n` of `k` new tiles of a column: the one for row `i`
/// starts `k - i` rows above the board.
pub open spec fn new_tile_falls(x: int, k: int, n: int) -> Seq<FallMove>
    decreases n,
{
    if n <= 0 {
        Seq::empty()
    } else {
        new_tile_falls(x, k, n - 1) + seq![
            FallMove { x: x as usize, y: (n - 1) as usize, from: FallFrom::Above((k - (n - 1)) as usize) },
        ]
    }
}

/// Falls of a column whose surviving rows are `rows`, none if nothing was removed.
pub open spec fn column_falls(h: int, x: int, rows: Seq<usize>) -> Seq<FallMove> {
    let k = h - rows.len();
    if k == 0 {
        Seq::empty()
    } else {
        survivor_falls(h, x, rows, rows.len() as int) + new_tile_falls(x, k, k)
    }
}

/// Falls of the first `m` columns of a board re-checked as `b`.
pub open spec fn board_falls(b: GameBoard, m: int) -> Seq<FallMove>
    decreases m,
{
    if m <= 0 {
        Seq::empty()
    } else {
        board_falls(b, m - 1) + column_falls(b.height as int, m - 1, kept_rows_from(b, m - 1, 0))
    }
}

/// `b` with the row multipliers of `earlier`.
pub open spec fn before_scoring(b: GameBoard, earlier: GameBoard) -> GameBoard {
    GameBoard {
        multiplier_left: earlier.multiplier_left,
        multiplier_right: earlier.multiplier_right,
        ..b
    }
}

/// Every row multiplier is at least 1.
pub open spec fn multipliers_positive(b: GameBoard) -> bool {
    &&& forall|y: int| 0 <= y < b.multiplier_left@.len() ==> #[trigger] b.multiplier_left@[y] >= 1
    &&& forall|y: int| 0 <= y < b.multiplier_right@.len() ==> #[trigger] b.multiplier_right@[y] >= 1
}

proof fn lemma_pin_scores_grow(b: GameBoard, mode: GameMode, s: (i32, i32), n: int)
    requires
        multipliers_positive(b),
        n <= b.multiplier_left@.len(),
        n <= b.multiplier_right@.len(),
    ensures
        pin_scores(b, mode, s, n).0 >= s.0,
        pin_scores(b, mode, s, n).1 >= s.1,
    decreases n,
{
    if n > 0 {
        lemma_pin_scores_grow(b, mode, s, n - 1);
        assert(b.multiplier_left@[n - 1] >= 1);
        assert(b.multiplier_right@[n - 1] >= 1);
    }
}

/// Once a player has reached the winning score against the bot, the next
/// zap ends the game: collecting bonuses and scoring pins never lowers a
/// score, so the check that finds the zap sees a score at the limit.
pub proof fn lemma_zap_at_limit_ends_game(
    b: GameBoard,
    earlier: GameBoard,
    s: (i32, i32),
    landed: Seq<BonusDrop>,
)
    requires
        multipliers_positive(earlier),
        b.height == earlier.height,
        earlier.multiplier_left@.len() == earlier.height,
        earlier.multiplier_right@.len() == earlier.height,
        s.0 >= MAX_VS_SCORE || s.1 >= MAX_VS_SCORE,
    ensures
        ({
            let after = pin_scores(
                before_scoring(b, earlier),
                GameMode::VsBot,
                bonus_scores(before_scoring(b, earlier), GameMode::VsBot, s, landed),
                earlier.height as int,
            );
            after.0 >= MAX_VS_SCORE || after.1 >= MAX_VS_SCORE
        }),
{
    let c = before_scoring(b, earlier);
    let n = landed.len() as int;
    lemma_collected_points_bounds(c, landed, n, false);
    lemma_collected_points_bounds(c, landed, n, true);
    let s1 = bonus_scores(c, GameMode::VsBot, s, landed);
    assert(s1.0 >= s.0 && s1.1 >= s.1);
    lemma_pin_scores_grow(c, GameMode::VsBot, s1, earlier.height as int);
}

proof fn lemma_collected_points_bounds(b: GameBoard, s: Seq<BonusDrop>, n: int, right: bool)
    requires
        0 <= n <= s.len(),
    ensures
        0 <= collected_points(b, s, n, right) <= 5 * n,
    decreases n,
{
    if n > 0 {
        lemma_collected_points_bounds(b, s, n - 1, right);
    }
}

/// Every bonus lies on the board.
pub open spec fn drops_on_board(b: GameBoard, s: Seq<BonusDrop>) -> bool {
    forall|i: int| 0 <= i < s.len() ==> #[trigger] s[i].tile_x < b.width && s[i].tile_y < b.height
}

/// The packed power-up state: bits 0-2 held left (bomb, cross, arrow),
/// bits 3-5 held right, bits 6-8 armed left, bits 9-11 armed right.
pub open spec fn power_bits(l: PowerUpInventory, r: PowerUpInventory) -> u32 {
    (held_bits(l) + 8 * held_bits(r) + 64 * armed_bits(l) + 512 * armed_bits(r)) as u32
}

/// Bomb, cross and arrow held, as bits 0, 1 and 2.
pub open spec fn held_bits(inv: PowerUpInventory) -> int {
    (if inv.has_bomb { 1int } else { 0int }) + (if inv.has_cross { 2int } else { 0int }) + (
    if inv.has_arrow { 4int } else { 0int })
}

/// The armed type, one-hot: bomb, cross and arrow as bits 0, 1 and 2.
pub open spec fn armed_bits(inv: PowerUpInventory) -> int {
    match inv.armed {
        Some(PowerUpType::Bomb) => 1,
        Some(PowerUpType::Cross) => 2,
        Some(PowerUpType::Arrow) => 4,
        None => 0,
    }
}

fn held_of(inv: &PowerUpInventory) -> (r: u32)
    ensures
        r == held_bits(*inv),
        r <= 7,
{
    let b: u32 = if inv.has_bomb { 1 } else { 0 };
    let c: u32 = if inv.has_cross { 2 } else { 0 };
    let a: u32 = if inv.has_arrow { 4 } else { 0 };
    b + c + a
}

fn armed_of(inv: &PowerUpInventory) -> (r: u32)
    ensures
        r == armed_bits(*inv),
        r <= 4,
{
    match inv.armed {
        Some(PowerUpType::Bomb) => 1,
        Some(PowerUpType::Cross) => 2,
        Some(PowerUpType::Arrow) => 4,
        None => 0,
    }
}

/// The integer state of a game: the board, the phase, the scores, the
/// power-ups and what this tick has emitted. Timers, animations and effects
/// are driven by the host around it.
pub struct GameCore {
    pub board: GameBoard,
    pub phase: GamePhase,
    pub mode: GameMode,
    pub left_score: i32,
    pub right_score: i32,
    pub bot_enabled: bool,
    pub power_left: PowerUpInventory,
    pub power_right: PowerUpInventory,
    /// Bonus drop counts of the last zap, spawned when its freeze ends.
    pub pending_bonus: (usize, usize, usize),
    /// Area (x, y, dx, dy) that a bomb or an arrow clears when its freeze ends.
    pub pending_bomb: Option<(usize, usize, usize, usize)>,
    /// The tap that waits to be consumed.
    pub pending_tap: Option<(usize, usize)>,
    /// Sounds emitted this tick.
    pub sound_events: Vec<SoundEvent>,
    /// Points scored this tick.
    pub score_events: Vec<ScoreEvent>,
}

impl GameCore {
    pub open spec fn wf(&self) -> bool {
        &&& self.board.wf()
        &&& scorable(&self.board)
        &&& self.board.height <= usize::MAX / 4
        &&& multipliers_positive(self.board)
        &&& match self.pending_tap {
            Some((x, y)) => x < self.board.width && y < self.board.height,
            None => true,
        }
    }

    /// A game on a default board in the given mode; the bot plays in VsBot mode.
    /// The board is checked at once, so it may start zapped.
    pub fn new_with_mode(seed: u64, mode: GameMode) -> (r: GameCore)
        ensures
            r.wf(),
            r.mode == mode,
            r.bot_enabled == (mode == GameMode::VsBot),
            r.board.width == DEFAULT_WIDTH,
            r.board.height == DEFAULT_HEIGHT,
            r.pending_tap.is_none(),
            r.pending_bomb.is_none(),
            forall|x: int, y: int|
                r.board.grid.in_bounds(x, y) ==> #[trigger] r.board.grid.cell(x, y) == Some(
                    Tile {
                        connections: default_tiles(seed)[row_major(DEFAULT_WIDTH as int, x, y)],
                    },
                ) && fresh_tile(r.board.grid.cell(x, y)),
            forall|c: Cell|
                r.board.grid.in_bounds(c.0, c.1) ==> #[trigger] r.board.mark(c) == settled_marking(
                    r.board.grid.layout(),
                    Marking::Unmarked,
                    c,
                ),
            zapped(r.board.grid.layout()) ==> r.phase == GamePhase::FreezeDuringZap || r.phase
                == GamePhase::GameOver,
            !zapped(r.board.grid.layout()) ==> r.phase == GamePhase::WaitingForInput,
    {
        let board = GameBoard::new_default(seed);
        let mut core = GameCore {
            board,
            phase: GamePhase::WaitingForInput,
            mode,
            left_score: 0,
            right_score: 0,
            bot_enabled: mode == GameMode::VsBot,
            power_left: PowerUpInventory::empty(),
            power_right: PowerUpInventory::empty(),
            pending_bonus: (0, 0, 0),
            pending_bomb: None,
            pending_tap: None,
            sound_events: Vec::new(),
            score_events: Vec::new(),
        };
        let none: Vec<BonusDrop> = Vec::new();
        let _kept = core.check_and_transition(&none);
        core
    }

    /// A Zen-mode game.
    pub fn new(seed: u64) -> (r: GameCore)
        ensures
            r.wf(),
            r.mode == GameMode::Zen,
            !r.bot_enabled,
            forall|x: int, y: int|
                r.board.grid.in_bounds(x, y) ==> #[trigger] r.board.grid.cell(x, y) == Some(
                    Tile {
                        connections: default_tiles(seed)[row_major(DEFAULT_WIDTH as int, x, y)],
                    },
                ) && fresh_tile(r.board.grid.cell(x, y)),
            r.board.width == DEFAULT_WIDTH,
            r.board.height == DEFAULT_HEIGHT,
    {
        Self::new_with_mode(seed, GameMode::Zen)
    }

    /// Queue a tap on a tile; a tap off the board is ignored. A new tap
    /// replaces one that was not consumed yet.
    pub fn queue_tap(&mut self, tile_x: usize, tile_y: usize)
        requires
            old(self).wf(),
        ensures
            final(self).wf(),
            final(self).pending_tap == if tile_x < old(self).board.width && tile_y < old(
                self,
            ).board.height {
                Some((tile_x, tile_y))
            } else {
                old(self).pending_tap
            },
            *final(self) == (GameCore { pending_tap: final(self).pending_tap, ..*old(self) }),
    {
        if tile_x < self.board.width && tile_y < self.board.height {
            self.pending_tap = Some((tile_x, tile_y));
        }
    }

    /// Clears what the previous tick emitted.
    pub fn begin_tick(&mut self)
        requires
            old(self).wf(),
        ensures
            final(self).wf(),
            final(self).sound_events@.len() == 0,
            final(self).score_events@.len() == 0,
            *final(self) == (GameCore {
                sound_events: final(self).sound_events,
                score_events: final(self).score_events,
                ..*old(self)
            }),
    {
        self.sound_events.clear();
        self.score_events.clear();
    }

    /// Award every scoring pin its row multiplier (to both scores in Zen mode,
    /// to its own side against the bot), record the score event, and raise
    /// that multiplier by one.
    fn apply_multiplier_scores(&mut self)
        requires
            old(self).wf(),
        ensures
            final(self).wf(),
            final(self).board.grid == old(self).board.grid,
            final(self).board.markings == old(self).board.markings,
            final(self).board.width == old(self).board.width,
            final(self).board.height == old(self).board.height,
            final(self).board.rng == old(self).board.rng,
            final(self).board.new_elements == old(self).board.new_elements,
            final(self).board.missing_link_elements == old(self).board.missing_link_elements,
            final(self).board.missing_links == old(self).board.missing_links,
            final(self).board.left_pins_connect == old(self).board.left_pins_connect,
            final(self).board.right_pins_connect == old(self).board.right_pins_connect,
            final(self).board.left_conquered == old(self).board.left_conquered,
            final(self).board.right_conquered == old(self).board.right_conquered,
            final(self).phase == old(self).phase,
            final(self).mode == old(self).mode,
            final(self).bot_enabled == old(self).bot_enabled,
            final(self).power_left == old(self).power_left,
            final(self).power_right == old(self).power_right,
            final(self).pending_bonus == old(self).pending_bonus,
            final(self).pending_bomb == old(self).pending_bomb,
            final(self).pending_tap == old(self).pending_tap,
            final(self).sound_events == old(self).sound_events,
            (final(self).left_score, final(self).right_score) == pin_scores(
                old(self).board,
                old(self).mode,
                (old(self).left_score, old(self).right_score),
                old(self).board.height as int,
            ),
            final(self).score_events@ == old(self).score_events@ + pin_events(
                old(self).board,
                old(self).board.height as int,
            ),
            forall|y: int|
                0 <= y < old(self).board.height ==> #[trigger] final(self).board.multiplier_left@[y]
                    == if left_pin_scores(old(self).board, y) {
                    sat(old(self).board.multiplier_left@[y] + 1)
                } else {
                    old(self).board.multiplier_left@[y]
                },
            forall|y: int|
                0 <= y < old(self).board.height ==> #[trigger] final(self).board.multiplier_right@[y]
                    == if right_pin_scores(old(self).board, y) {
                    sat(old(self).board.multiplier_right@[y] + 1)
                } else {
                    old(self).board.multiplier_right@[y]
                },
    {
        let ghost start = *self;
        let w = self.board.width;
        let h = self.board.height;
        let mut y: usize = 0;
        while y < h
            invariant
                self.wf(),
                start.wf(),
                self.board.grid == start.board.grid,
                self.board.markings == start.board.markings,
                self.board.width == w,
                self.board.height == h,
                w == start.board.width,
                h == start.board.height,
                self.board.rng == start.board.rng,
                self.board.new_elements == start.board.new_elements,
                self.board.missing_link_elements == start.board.missing_link_elements,
                self.board.missing_links == start.board.missing_links,
                self.board.left_pins_connect == start.board.left_pins_connect,
                self.board.right_pins_connect == start.board.right_pins_connect,
                self.board.left_conquered == start.board.left_conquered,
                self.board.right_conquered == start.board.right_conquered,
                self.phase == start.phase,
                self.mode == start.mode,
                self.bot_enabled == start.bot_enabled,
                self.power_left == start.power_left,
                self.power_right == start.power_right,
                self.pending_bonus == start.pending_bonus,
                self.pending_bomb == start.pending_bomb,
                self.pending_tap == start.pending_tap,
                self.sound_events == start.sound_events,
                0 <= y <= h,
                (self.left_score, self.right_score) == pin_scores(
                    start.board,
                    start.mode,
                    (start.left_score, start.right_score),
                    y as int,
                ),
                self.score_events@ == start.score_events@ + pin_events(start.board, y as int),
                forall|k: int|
                    0 <= k < h ==> #[trigger] self.board.multiplier_left@[k] == if k < y
                        && left_pin_scores(start.board, k) {
                        sat(start.board.multiplier_left@[k] + 1)
                    } else {
                        start.board.multiplier_left@[k]
                    },
                forall|k: int|
                    0 <= k < h ==> #[trigger] self.board.multiplier_right@[k] == if k < y
                        && right_pin_scores(start.board, k) {
                        sat(start.board.multiplier_right@[k] + 1)
                    } else {
                        start.board.multiplier_right@[k]
                    },
            decreases h - y,
        {
            let ghost yy = y as int;
            let ghost events0 = self.score_events@;
            let ghost scores0 = (self.left_score, self.right_score);
            assert(self.board.mark((0, yy)) == start.board.mark((0, yy)));
            assert(self.board.mark((w - 1, yy)) == start.board.mark((w - 1, yy)));
            let left_open = match self.board.grid.get(0, y) {
                Some(t) => t.has_connection(Direction::left()),
                None => false,
            };
            if self.board.get_marking(0, y) == Marking::Both && left_open {
                let mult = self.board.multiplier_left[y];
                if self.mode == GameMode::Zen {
                    self.left_score = sat_add(self.left_score, mult);
                    self.right_score = sat_add(self.right_score, mult);
                } else {
                    self.left_score = sat_add(self.left_score, mult);
                }
                self.score_events.push(ScoreEvent { spot: ScoreSpot::LeftPin(y), value: mult, side: 0 });
                let next = sat_add(mult, 1);
                self.board.multiplier_left.set(y, next);
            }
            let ghost scores1 = (self.left_score, self.right_score);
            let ghost events1 = self.score_events@;
            let right_open = match self.board.grid.get(w - 1, y) {
                Some(t) => t.has_connection(Direction::right()),
                None => false,
            };
            if self.board.get_marking(w - 1, y) == Marking::Both && right_open {
                let mult = self.board.multiplier_right[y];
                if self.mode == GameMode::Zen {
                    self.left_score = sat_add(self.left_score, mult);
                    self.right_score = sat_add(self.right_score, mult);
                } else {
                    self.right_score = sat_add(self.right_score, mult);
                }
                self.score_events.push(ScoreEvent { spot: ScoreSpot::RightPin(y), value: mult, side: 1 });
                let next = sat_add(mult, 1);
                self.board.multiplier_right.set(y, next);
            }
            proof {
                assert(left_pin_scores(start.board, yy) == (start.board.mark((0, yy)) == Marking::Both
                    && left_open));
                assert(right_pin_scores(start.board, yy) == (start.board.mark((w - 1, yy))
                    == Marking::Both && right_open));
                assert(self.score_events@ =~= start.score_events@ + pin_events(start.board, yy + 1));
            }
            y = y + 1;
        }
    }

    /// Collect the landed bonuses that lie on marked cells: cells reached from
    /// the left (or from both edges) go to the left player, cells reached from
    /// the right only to the right player. Coins add their points (to both
    /// scores in Zen mode), power-ups go to the collector's inventory. Returns
    /// the indices of the bonuses that stay on the board.
    pub fn collect_landed(&mut self, landed: &Vec<BonusDrop>) -> (kept: Vec<usize>)
        requires
            old(self).wf(),
            drops_on_board(old(self).board, landed@),
            landed@.len() <= 1_000_000,
        ensures
            final(self).wf(),
            final(self).board == old(self).board,
            final(self).phase == old(self).phase,
            final(self).mode == old(self).mode,
            final(self).bot_enabled == old(self).bot_enabled,
            final(self).pending_bonus == old(self).pending_bonus,
            final(self).pending_bomb == old(self).pending_bomb,
            final(self).pending_tap == old(self).pending_tap,
            kept@ == uncollected(old(self).board, landed@, landed@.len() as int),
            (final(self).left_score, final(self).right_score) == bonus_scores(
                old(self).board,
                old(self).mode,
                (old(self).left_score, old(self).right_score),
                landed@,
            ),
            final(self).score_events@ == old(self).score_events@ + bonus_events(
                old(self).board,
                landed@,
                landed@.len() as int,
            ),
            forall|p: PowerUpType|
                #[trigger] final(self).power_left.holds(p) == (old(self).power_left.holds(p)
                    || collects_power(old(self).board, landed@, landed@.len() as int, p, false)),
            forall|p: PowerUpType|
                #[trigger] final(self).power_right.holds(p) == (old(self).power_right.holds(p)
                    || collects_power(old(self).board, landed@, landed@.len() as int, p, true)),
            final(self).power_left.armed == old(self).power_left.armed,
            final(self).power_right.armed == old(self).power_right.armed,
            final(self).sound_events@.len() >= old(self).sound_events@.len(),
            final(self).sound_events@.subrange(0, old(self).sound_events@.len() as int)
                == old(self).sound_events@,
            collected_points(old(self).board, landed@, landed@.len() as int, false) > 0
                || collected_points(old(self).board, landed@, landed@.len() as int, true) > 0
                ==> final(self).sound_events@.len() > old(self).sound_events@.len()
                && final(self).sound_events@[old(self).sound_events@.len() as int]
                == SoundEvent::CoinDrop,
    {
        let ghost start = *self;
        let ghost d = landed@;
        let n = landed.len();
        let mut kept: Vec<usize> = Vec::new();
        let mut left_pts: i32 = 0;
        let mut right_pts: i32 = 0;
        let mut left_powers: Vec<PowerUpType> = Vec::new();
        let mut right_powers: Vec<PowerUpType> = Vec::new();
        let mut i: usize = 0;
        while i < n
            invariant
                *self == (GameCore { score_events: self.score_events, ..start }),
                start.wf(),
                drops_on_board(start.board, d),
                d == landed@,
                n == d.len(),
                n <= 1_000_000,
                0 <= i <= n,
                kept@ == uncollected(start.board, d, i as int),
                left_pts == collected_points(start.board, d, i as int, false),
                right_pts == collected_points(start.board, d, i as int, true),
                0 <= left_pts <= 5 * i,
                0 <= right_pts <= 5 * i,
                self.score_events@ == start.score_events@ + bonus_events(start.board, d, i as int),
                forall|p: PowerUpType|
                    (exists|j: int| 0 <= j < left_powers@.len() && left_powers@[j] == p)
                        == #[trigger] collects_power(start.board, d, i as int, p, false),
                forall|p: PowerUpType|
                    (exists|j: int| 0 <= j < right_powers@.len() && right_powers@[j] == p)
                        == #[trigger] collects_power(start.board, d, i as int, p, true),
                left_powers@.len() <= i,
                right_powers@.len() <= i,
            decreases n - i,
        {
            let b = landed[i];
            proof {
                assert(b.tile_x < start.board.width && b.tile_y < start.board.height);
                lemma_collected_points_bounds(start.board, d, i as int + 1, false);
                lemma_collected_points_bounds(start.board, d, i as int + 1, true);
            }
            let m = self.board.get_marking(b.tile_x, b.tile_y);
            let pts = b.kind.points();
            let ghost lp0 = left_powers@;
            let ghost rp0 = right_powers@;
            if m == Marking::Left || m == Marking::Both {
                left_pts = left_pts + pts;
                match b.kind {
                    FallingBonusKind::PowerUp(p) => left_powers.push(p),
                    FallingBonusKind::Coin(_) => {},
                }
                if pts > 0 {
                    self.score_events.push(
                        ScoreEvent { spot: ScoreSpot::Tile(b.tile_x, b.tile_y), value: pts, side: 0 },
                    );
                }
            } else if m == Marking::Right {
                right_pts = right_pts + pts;
                match b.kind {
                    FallingBonusKind::PowerUp(p) => right_powers.push(p),
                    FallingBonusKind::Coin(_) => {},
                }
                if pts > 0 {
                    self.score_events.push(
                        ScoreEvent { spot: ScoreSpot::Tile(b.tile_x, b.tile_y), value: pts, side: 1 },
                    );
                }
            } else {
                kept.push(i);
            }
            proof {
                let ii = i as int;
                assert(d[ii] == b);
                assert(self.score_events@ =~= start.score_events@ + bonus_events(start.board, d, ii + 1));
                assert forall|p: PowerUpType|
                    (exists|j: int| 0 <= j < left_powers@.len() && left_powers@[j] == p)
                        == #[trigger] collects_power(start.board, d, ii + 1, p, false) by {
                    if collects_power(start.board, d, ii + 1, p, false) {
                        let k = choose|k: int|
                            0 <= k < ii + 1 && #[trigger] d[k].kind == FallingBonusKind::PowerUp(p)
                                && taken_left(start.board, d[k]);
                        if k < ii {
                            assert(collects_power(start.board, d, ii, p, false));
                            let j = choose|j: int| 0 <= j < lp0.len() && lp0[j] == p;
                            assert(left_powers@[j] == p);
                        } else {
                            assert(left_powers@[lp0.len() as int] == p);
                        }
                    }
                    if exists|j: int| 0 <= j < left_powers@.len() && left_powers@[j] == p {
                        let j = choose|j: int| 0 <= j < left_powers@.len() && left_powers@[j] == p;
                        if j < lp0.len() {
                            assert(lp0[j] == p);
                            assert(collects_power(start.board, d, ii, p, false));
                            let k = choose|k: int|
                                0 <= k < ii && #[trigger] d[k].kind == FallingBonusKind::PowerUp(p)
                                    && taken_left(start.board, d[k]);
                            assert(d[k].kind == FallingBonusKind::PowerUp(p));
                        } else {
                            assert(d[ii].kind == FallingBonusKind::PowerUp(p));
                        }
                    }
                }
                assert forall|p: PowerUpType|
                    (exists|j: int| 0 <= j < right_powers@.len() && right_powers@[j] == p)
                        == #[trigger] collects_power(start.board, d, ii + 1, p, true) by {
                    if collects_power(start.board, d, ii + 1, p, true) {
                        let k = choose|k: int|
                            0 <= k < ii + 1 && #[trigger] d[k].kind == FallingBonusKind::PowerUp(p)
                                && taken_right(start.board, d[k]);
                        if k < ii {
                            assert(collects_power(start.board, d, ii, p, true));
                            let j = choose|j: int| 0 <= j < rp0.len() && rp0[j] == p;
                            assert(right_powers@[j] == p);
                        } else {
                            assert(right_powers@[rp0.len() as int] == p);
                        }
                    }
                    if exists|j: int| 0 <= j < right_powers@.len() && right_powers@[j] == p {
                        let j = choose|j: int| 0 <= j < right_powers@.len() && right_powers@[j] == p;
                        if j < rp0.len() {
                            assert(rp0[j] == p);
                            assert(collects_power(start.board, d, ii, p, true));
                            let k = choose|k: int|
                                0 <= k < ii && #[trigger] d[k].kind == FallingBonusKind::PowerUp(p)
                                    && taken_right(start.board, d[k]);
                            assert(d[k].kind == FallingBonusKind::PowerUp(p));
                        } else {
                            assert(d[ii].kind == FallingBonusKind::PowerUp(p));
                        }
                    }
                }
            }
            i = i + 1;
        }
        let ghost before_sounds = self.sound_events@;
        if left_pts > 0 || right_pts > 0 {
            if self.mode == GameMode::Zen {
                let total = left_pts + right_pts;
                self.left_score = sat_add(self.left_score, total);
                self.right_score = sat_add(self.right_score, total);
            } else {
                self.left_score = sat_add(self.left_score, left_pts);
                self.right_score = sat_add(self.right_score, right_pts);
            }
            self.sound_events.push(SoundEvent::CoinDrop);
        }
        let ghost mid = *self;
        let mut k: usize = 0;
        while k < left_powers.len()
            invariant
                0 <= k <= left_powers@.len(),
                *self == (GameCore { power_left: self.power_left, sound_events: self.sound_events, ..mid }),
                self.power_left.armed == start.power_left.armed,
                self.sound_events@.len() >= mid.sound_events@.len(),
                self.sound_events@.subrange(0, mid.sound_events@.len() as int) == mid.sound_events@,
                forall|p: PowerUpType|
                    #[trigger] self.power_left.holds(p) == (start.power_left.holds(p) || exists|j: int|
                        0 <= j < k && left_powers@[j] == p),
            decreases left_powers@.len() - k,
        {
            let ghost s0 = self.sound_events@;
            self.power_left.grant(left_powers[k]);
            self.sound_events.push(SoundEvent::PowerUp);
            proof {
                assert(self.sound_events@.subrange(0, mid.sound_events@.len() as int) =~= s0.subrange(
                    0,
                    mid.sound_events@.len() as int,
                ));
                assert forall|p: PowerUpType|
                    #[trigger] self.power_left.holds(p) == (start.power_left.holds(p) || exists|j: int|
                        0 <= j < k + 1 && left_powers@[j] == p) by {
                    if p == left_powers@[k as int] {
                        assert(exists|j: int| 0 <= j < k + 1 && left_powers@[j] == p);
                    } else {
                        if exists|j: int| 0 <= j < k + 1 && left_powers@[j] == p {
                            let j = choose|j: int| 0 <= j < k + 1 && left_powers@[j] == p;
                            assert(j < k);
                        }
                    }
                }
            }
            k = k + 1;
        }
        let ghost mid2 = *self;
        let mut k: usize = 0;
        while k < right_powers.len()
            invariant
                0 <= k <= right_powers@.len(),
                *self == (GameCore { power_right: self.power_right, sound_events: self.sound_events, ..mid2 }),
                self.power_right.armed == start.power_right.armed,
                self.sound_events@.len() >= mid2.sound_events@.len(),
                self.sound_events@.subrange(0, mid2.sound_events@.len() as int) == mid2.sound_events@,
                forall|p: PowerUpType|
                    #[trigger] self.power_right.holds(p) == (start.power_right.holds(p) || exists|j: int|
                        0 <= j < k && right_powers@[j] == p),
            decreases right_powers@.len() - k,
        {
            let ghost s0 = self.sound_events@;
            self.power_right.grant(right_powers[k]);
            self.sound_events.push(SoundEvent::PowerUp);
            proof {
                assert(self.sound_events@.subrange(0, mid2.sound_events@.len() as int) =~= s0.subrange(
                    0,
                    mid2.sound_events@.len() as int,
                ));
                assert forall|p: PowerUpType|
                    #[trigger] self.power_right.holds(p) == (start.power_right.holds(p) || exists|j: int|
                        0 <= j < k + 1 && right_powers@[j] == p) by {
                    if p == right_powers@[k as int] {
                        assert(exists|j: int| 0 <= j < k + 1 && right_powers@[j] == p);
                    } else {
                        if exists|j: int| 0 <= j < k + 1 && right_powers@[j] == p {
                            let j = choose|j: int| 0 <= j < k + 1 && right_powers@[j] == p;
                            assert(j < k);
                        }
                    }
                }
            }
            k = k + 1;
        }
        proof {
            assert(self.sound_events@.subrange(0, start.sound_events@.len() as int) =~= mid2.sound_events@.subrange(0, start.sound_events@.len() as int));
            assert(mid2.sound_events@.subrange(0, start.sound_events@.len() as int) =~= mid.sound_events@.subrange(0, start.sound_events@.len() as int));
            if left_pts > 0 || right_pts > 0 {
                assert(mid.sound_events@[start.sound_events@.len() as int] == SoundEvent::CoinDrop);
                assert(mid2.sound_events@[start.sound_events@.len() as int] == mid2.sound_events@.subrange(0, mid.sound_events@.len() as int)[start.sound_events@.len() as int]);
                assert(self.sound_events@[start.sound_events@.len() as int] == self.sound_events@.subrange(0, mid2.sound_events@.len() as int)[start.sound_events@.len() as int]);
            }
        }
        kept
    }

    /// Re-run connectivity, collect landed bonuses on marked cells, and move
    /// on: a zap scores the pins, queues the bonus drop and freezes the board
    /// (or ends a game against the bot once a score reaches the limit); no
    /// zap waits for input. Returns the indices of the bonuses that stay.
    pub fn check_and_transition(&mut self, landed: &Vec<BonusDrop>) -> (kept: Vec<usize>)
        requires
            old(self).wf(),
            drops_on_board(old(self).board, landed@),
            landed@.len() <= 1_000_000,
        ensures
            final(self).wf(),
            checked(*old(self), *final(self), landed@, kept@),
    {
        let zap = self.board.check_connections();
        let kept = self.collect_landed(landed);
        let ghost collected = *self;
        if zap != 0 {
            assert(self.board.left_pins_connect <= self.board.height);
            assert(self.board.right_pins_connect <= self.board.height);
            self.apply_multiplier_scores();
            self.pending_bonus = calculate_bonus_drops(
                self.board.left_pins_connect,
                self.board.right_pins_connect,
            );
            self.sound_events.push(SoundEvent::Buzz);
            self.phase = GamePhase::FreezeDuringZap;
            if self.mode == GameMode::VsBot && (self.left_score >= MAX_VS_SCORE || self.right_score
                >= MAX_VS_SCORE) {
                self.phase = GamePhase::GameOver;
            }
            proof {
                assert(before_scoring(self.board, collected.board) == collected.board);
            }
        } else {
            self.phase = GamePhase::WaitingForInput;
        }
        proof {
            assert(forall|c: Cell| #[trigger] self.board.mark(c) == collected.board.mark(c));
            assert(before_scoring(self.board, collected.board) == collected.board);
            let o_len = old(self).sound_events@.len() as int;
            assert(collected.sound_events@.len() >= o_len);
            assert(self.sound_events@.subrange(0, o_len) =~= collected.sound_events@.subrange(0, o_len));
            if collected.sound_events@.len() > o_len {
                assert(self.sound_events@[o_len] == collected.sound_events@[o_len]);
            }
        }
        kept
    }

    /// Consume the waiting tap, if any. An armed power-up (the left side's
    /// first) is spent on the tapped tile: a bomb or an arrow freezes the board
    /// and queues its area, a cross gives the tile every connection. Otherwise
    /// the tile rotates once at once and its rotation animation starts.
    pub fn take_tap(&mut self) -> (r: TapAction)
        requires
            old(self).wf(),
        ensures
            final(self).wf(),
            tapped(*old(self), *final(self), r),
    {
        let tap = self.pending_tap;
        self.pending_tap = None;
        match tap {
            None => TapAction::Idle,
            Some((tx, ty)) => {
                let armed = match self.power_left.consume_armed() {
                    Some(p) => Some(p),
                    None => self.power_right.consume_armed(),
                };
                match armed {
                    Some(p) => self.apply_power_up(p, tx, ty),
                    None => {
                        match self.board.grid.get(tx, ty) {
                            Some(t) => {
                                let mut nt = *t;
                                nt.rotate();
                                self.board.grid.set(tx, ty, Some(nt));
                            },
                            None => {},
                        }
                        self.sound_events.push(SoundEvent::Rotate);
                        self.phase = GamePhase::RotatingTile;
                        TapAction::Rotated(tx, ty)
                    },
                }
            },
        }
    }

    fn apply_power_up(&mut self, ptype: PowerUpType, tx: usize, ty: usize) -> (r: TapAction)
        requires
            old(self).wf(),
            tx < old(self).board.width,
            ty < old(self).board.height,
        ensures
            final(self).wf(),
            final(self).pending_tap == old(self).pending_tap,
            final(self).mode == old(self).mode,
            final(self).bot_enabled == old(self).bot_enabled,
            final(self).power_left == old(self).power_left,
            final(self).power_right == old(self).power_right,
            final(self).board.width == old(self).board.width,
            final(self).board.height == old(self).board.height,
            final(self).board.markings == old(self).board.markings,
            final(self).board.rng == old(self).board.rng,
            final(self).board.new_elements == old(self).board.new_elements,
            final(self).left_score == old(self).left_score,
            final(self).right_score == old(self).right_score,
            final(self).sound_events@.len() == old(self).sound_events@.len() + 1,
            ({
                let g = old(self).board.grid;
                match ptype {
                    PowerUpType::Bomb => r == TapAction::Blast(tx, ty, BOMB_RADIUS, BOMB_RADIUS)
                        && final(self).sound_events@ == old(self).sound_events@.push(SoundEvent::Bomb)
                        && final(self).pending_bomb == Some((tx, ty, BOMB_RADIUS, BOMB_RADIUS))
                        && final(self).phase == GamePhase::FreezeDuringBomb && final(self).board
                        == old(self).board,
                    PowerUpType::Arrow => r == TapAction::Blast(tx, ty, 0usize, g.height)
                        && final(self).sound_events@ == old(self).sound_events@.push(SoundEvent::Bomb)
                        && final(self).pending_bomb == Some((tx, ty, 0usize, g.height)) && final(self).phase
                        == GamePhase::FreezeDuringBomb && final(self).board == old(self).board,
                    PowerUpType::Cross => r == TapAction::Crossed(tx, ty) && final(self).phase
                        == old(self).phase && final(self).sound_events@ == old(self).sound_events@.push(
                        SoundEvent::PowerUp,
                    ) && final(self).board.grid@ == match g.cell(
                        tx as int,
                        ty as int,
                    ) {
                        Some(t) => g@.update(
                            cell_index(g.height as int, tx as int, ty as int),
                            Some(Tile { connections: 15 }),
                        ),
                        None => g@,
                    },
                }
            }),
    {
        match ptype {
            PowerUpType::Bomb => {
                self.pending_bomb = Some((tx, ty, BOMB_RADIUS, BOMB_RADIUS));
                self.sound_events.push(SoundEvent::Bomb);
                self.phase = GamePhase::FreezeDuringBomb;
                TapAction::Blast(tx, ty, BOMB_RADIUS, BOMB_RADIUS)
            },
            PowerUpType::Cross => {
                self.board.set_tile(tx, ty, 0x0F);
                proof {
                    assert(0x0Fu8 & 0x0Fu8 == 15u8) by (bit_vector);
                }
                self.sound_events.push(SoundEvent::PowerUp);
                TapAction::Crossed(tx, ty)
            },
            PowerUpType::Arrow => {
                let height = self.board.height;
                self.pending_bomb = Some((tx, ty, 0, height));
                self.sound_events.push(SoundEvent::Bomb);
                self.phase = GamePhase::FreezeDuringBomb;
                TapAction::Blast(tx, ty, 0, height)
            },
        }
    }

    /// When the bot plays and the game waits for input, play the bot's best
    /// move: its tile rotates at once and the rotation animation starts.
    pub fn bot_move(&mut self) -> (r: Option<BotMove>)
        requires
            old(self).wf(),
        ensures
            final(self).wf(),
            !(old(self).bot_enabled && old(self).phase == GamePhase::WaitingForInput) ==> r.is_none()
                && *final(self) == *old(self),
            old(self).bot_enabled && old(self).phase == GamePhase::WaitingForInput ==> r
                == best_move(old(self).board.grid.layout()),
            r.is_none() ==> *final(self) == *old(self),
            r matches Some(m) ==> {
                let g = old(self).board.grid;
                let t = g.cell(m.x as int, m.y as int).unwrap();
                &&& final(self).phase == GamePhase::RotatingTile
                &&& final(self).board.grid@ == g@.update(
                    cell_index(g.height as int, m.x as int, m.y as int),
                    Some(Tile { connections: rotated_n(t.connections, m.rotation_count as nat) }),
                )
                &&& final(self).board.markings == old(self).board.markings
                &&& final(self).left_score == old(self).left_score
                &&& final(self).right_score == old(self).right_score
            },
    {
        if !self.bot_enabled || self.phase != GamePhase::WaitingForInput {
            return None;
        }
        let mv = BotPlayer::determine_next_move(&self.board);
        match mv {
            Some(m) => {
                proof {
                    crate::bot::lemma_best_move_valid(self.board.grid.layout());
                }
                let t0 = match self.board.grid.get(m.x, m.y) {
                    Some(t) => *t,
                    None => Tile { connections: 0 },
                };
                let ghost g = self.board.grid;
                let ghost idx = cell_index(g.height as int, m.x as int, m.y as int);
                let mut t = t0;
                let mut k: usize = 0;
                while k < m.rotation_count
                    invariant
                        0 <= k <= m.rotation_count,
                        t.connections == rotated_n(t0.connections, k as nat),
                    decreases m.rotation_count - k,
                {
                    t.rotate();
                    k = k + 1;
                }
                self.board.grid.set(m.x, m.y, Some(t));
                self.phase = GamePhase::RotatingTile;
                Some(m)
            },
            None => None,
        }
    }

    /// Arm (or disarm) a power-up of one side; returns whether it is now armed.
    pub fn arm_power(&mut self, right_side: bool, ptype: PowerUpType) -> (r: bool)
        requires
            old(self).wf(),
        ensures
            final(self).wf(),
            final(self).board == old(self).board,
            final(self).phase == old(self).phase,
            right_side ==> final(self).power_left == old(self).power_left,
            !right_side ==> final(self).power_right == old(self).power_right,
            ({
                let (before, after) = if right_side {
                    (old(self).power_right, final(self).power_right)
                } else {
                    (old(self).power_left, final(self).power_left)
                };
                &&& r == (before.holds(ptype) && before.armed != Some(ptype))
                &&& after.has_bomb == before.has_bomb
                &&& after.has_cross == before.has_cross
                &&& after.has_arrow == before.has_arrow
                &&& after.armed == if !before.holds(ptype) {
                    before.armed
                } else if before.armed == Some(ptype) {
                    None
                } else {
                    Some(ptype)
                }
            }),
    {
        if right_side {
            self.power_right.toggle_arm(ptype)
        } else {
            self.power_left.toggle_arm(ptype)
        }
    }

    /// The packed power-up state of both sides.
    pub fn power_state(&self) -> (r: u32)
        ensures
            r == power_bits(self.power_left, self.power_right),
    {
        let held_l = held_of(&self.power_left);
        let held_r = held_of(&self.power_right);
        let armed_l = armed_of(&self.power_left);
        let armed_r = armed_of(&self.power_right);
        held_l + 8 * held_r + 64 * armed_l + 512 * armed_r
    }

    /// The board's generator has room for a full refill of every cell, twice.
    pub fn generation_room(&self) -> (r: bool)
        requires
            self.wf(),
        ensures
            r == self.board.can_generate(2 * self.board.width * self.board.height),
    {
        let n: usize = self.board.width * self.board.height;
        if self.board.new_elements > usize::MAX / 100 {
            return false;
        }
        let room: usize = usize::MAX / 100 - self.board.new_elements;
        proof {
            assert(2 * self.board.width * self.board.height == 2 * n) by (nonlinear_arith)
                requires
                    n == self.board.width * self.board.height,
            ;
        }
        n <= room / 2
    }

    /// End of a zap's freeze: the joined tiles are removed, the others fall and
    /// new tiles fill the columns, every marking is cleared, and the queued
    /// bonus drop is handed out. Returns the falls to animate (survivors that
    /// moved, then new tiles from above, column by column) and the drop counts.
    pub fn clear_zapped(&mut self) -> (r: (Vec<FallMove>, (usize, usize, usize)))
        requires
            old(self).wf(),
            old(self).board.can_generate(old(self).board.width * old(self).board.height),
        ensures
            final(self).wf(),
            final(self).phase == GamePhase::FallingTiles,
            r.1 == old(self).pending_bonus,
            final(self).pending_bonus == (0usize, 0usize, 0usize),
            final(self).board.width == old(self).board.width,
            final(self).board.height == old(self).board.height,
            final(self).mode == old(self).mode,
            final(self).bot_enabled == old(self).bot_enabled,
            final(self).left_score == old(self).left_score,
            final(self).right_score == old(self).right_score,
            final(self).power_left == old(self).power_left,
            final(self).power_right == old(self).power_right,
            final(self).pending_tap == old(self).pending_tap,
            final(self).pending_bomb == old(self).pending_bomb,
            final(self).sound_events@ == old(self).sound_events@.push(SoundEvent::CoinDrop).push(
                SoundEvent::Explode,
            ),
            forall|c: Cell|
                old(self).board.grid.in_bounds(c.0, c.1) ==> #[trigger] final(self).board.mark(c)
                    == Marking::Unmarked,
            exists|mid: GameBoard|
                cleared_from(old(self).board, mid, final(self).board) && r.0@ == board_falls(
                    mid,
                    old(self).board.width as int,
                ),
            moves_on_board(r.0@, old(self).board.width as int, old(self).board.height as int),
    {
        self.sound_events.push(SoundEvent::CoinDrop);
        self.sound_events.push(SoundEvent::Explode);
        let _ = self.board.check_connections();
        let ghost mid = self.board;
        let ghost pre = *self;
        let w = self.board.width;
        let h = self.board.height;

        // Rows of the surviving cells of each column, bottom-up.
        let mut survivor_rows: Vec<Vec<usize>> = Vec::new();
        let mut x: usize = 0;
        while x < w
            invariant
                *self == pre,
                self.board == mid,
                mid.wf(),
                w == mid.width,
                h == mid.height,
                0 <= x <= w,
                survivor_rows@.len() == x,
                forall|a: int, i: int|
                    0 <= a < x && 0 <= i < survivor_rows@[a]@.len() ==> #[trigger] survivor_rows@[a]@[i]
                        < h,
                forall|a: int| 0 <= a < x ==> #[trigger] survivor_rows@[a]@.len() <= h,
                forall|a: int| 0 <= a < x ==> #[trigger] survivor_rows@[a]@ == kept_rows_from(mid, a, 0),
            decreases w - x,
        {
            let mut col: Vec<usize> = Vec::new();
            let mut y: usize = h;
            while y > 0
                invariant
                    *self == pre,
                    self.board == mid,
                    mid.wf(),
                    w == mid.width,
                    h == mid.height,
                    x < w,
                    0 <= y <= h,
                    col@.len() <= h - y,
                    forall|i: int| 0 <= i < col@.len() ==> #[trigger] col@[i] < h,
                    col@ == kept_rows_from(mid, x as int, y as int),
                decreases y,
            {
                y = y - 1;
                if self.board.get_marking(x, y) != Marking::Both {
                    col.push(y);
                }
                proof {
                    assert(col@ =~= kept_rows_from(mid, x as int, y as int));
                }
            }
            survivor_rows.push(col);
            x = x + 1;
        }
        self.board.remove_and_shift_connecting_tiles();
        let ghost shifted = self.board;
        let ghost pre2 = *self;
        proof {
            assert(cleared_from(old(self).board, mid, shifted));
        }

        // Clear every marking so falling tiles show normally.
        let mut x: usize = 0;
        while x < w
            invariant
                *self == (GameCore { board: self.board, ..pre2 }),
                self.board.wf(),
                self.board.grid == shifted.grid,
                self.board.width == w,
                self.board.height == h,
                w == shifted.width,
                h == shifted.height,
                self.board.multiplier_left == shifted.multiplier_left,
                self.board.multiplier_right == shifted.multiplier_right,
                self.board.new_elements == shifted.new_elements,
                self.board.gen_state() == shifted.gen_state(),
                0 <= x <= w,
                forall|c: Cell|
                    0 <= c.0 < x && 0 <= c.1 < h ==> #[trigger] self.board.mark(c) == Marking::Unmarked,
            decreases w - x,
        {
            let mut y: usize = 0;
            while y < h
                invariant
                    *self == (GameCore { board: self.board, ..pre2 }),
                    self.board.wf(),
                    self.board.grid == shifted.grid,
                    self.board.width == w,
                    self.board.height == h,
                    w == shifted.width,
                    h == shifted.height,
                    self.board.multiplier_left == shifted.multiplier_left,
                    self.board.multiplier_right == shifted.multiplier_right,
                    self.board.new_elements == shifted.new_elements,
                    self.board.gen_state() == shifted.gen_state(),
                    x < w,
                    0 <= y <= h,
                    forall|c: Cell|
                        (0 <= c.0 < x && 0 <= c.1 < h) || (c.0 == x && 0 <= c.1 < y)
                            ==> #[trigger] self.board.mark(c) == Marking::Unmarked,
                decreases h - y,
            {
                self.board.set_marking(x, y, Marking::Unmarked);
                y = y + 1;
            }
            x = x + 1;
        }
        proof {
            assert(cleared_from(old(self).board, mid, self.board));
        }

        // Fall animations: survivors that moved, then new tiles from above.
        let ghost cleared = *self;
        let mut moves: Vec<FallMove> = Vec::new();
        let mut x: usize = 0;
        while x < w
            invariant
                *self == cleared,
                w == old(self).board.width,
                h == old(self).board.height,
                0 <= x <= w,
                survivor_rows@.len() == w,
                forall|a: int, i: int|
                    0 <= a < w && 0 <= i < survivor_rows@[a]@.len() ==> #[trigger] survivor_rows@[a]@[i]
                        < h,
                forall|a: int| 0 <= a < w ==> #[trigger] survivor_rows@[a]@.len() <= h,
                forall|a: int| 0 <= a < w ==> #[trigger] survivor_rows@[a]@ == kept_rows_from(mid, a, 0),
                h == mid.height,
                moves_on_board(moves@, w as int, h as int),
                moves@ == board_falls(mid, x as int),
            decreases w - x,
        {
            let ghost before = moves@;
            let survivors_x = &survivor_rows[x];
            let kept = survivors_x.len();
            let num_new = h - kept;
            if num_new > 0 {
                let mut i: usize = 0;
                while i < kept
                    invariant
                        0 <= i <= kept,
                        kept == survivors_x@.len(),
                        kept <= h,
                        x < w,
                        forall|j: int| 0 <= j < survivors_x@.len() ==> #[trigger] survivors_x@[j] < h,
                        forall|j: int|
                            0 <= j < moves@.len() ==> #[trigger] moves@[j].x < w && moves@[j].y < h,
                        moves@ == before + survivor_falls(h as int, x as int, survivors_x@, i as int),
                    decreases kept - i,
                {
                    let old_y = survivors_x[i];
                    let new_y = h - 1 - i;
                    let ghost prev = moves@;
                    if new_y != old_y {
                        moves.push(FallMove { x, y: new_y, from: FallFrom::Row(old_y) });
                    }
                    proof {
                        assert forall|j: int| 0 <= j < moves@.len() implies #[trigger] moves@[j].x < w
                            && moves@[j].y < h by {
                            if j < prev.len() {
                                assert(moves@[j] == prev[j]);
                            }
                        }
                        assert(moves@ =~= before + survivor_falls(h as int, x as int, survivors_x@, i + 1));
                    }
                    i = i + 1;
                }
                let ghost after_survivors = moves@;
                let mut i: usize = 0;
                while i < num_new
                    invariant
                        0 <= i <= num_new,
                        num_new <= h,
                        x < w,
                        forall|j: int|
                            0 <= j < moves@.len() ==> #[trigger] moves@[j].x < w && moves@[j].y < h,
                        moves@ == after_survivors + new_tile_falls(x as int, num_new as int, i as int),
                    decreases num_new - i,
                {
                    moves.push(FallMove { x, y: i, from: FallFrom::Above(num_new - i) });
                    proof {
                        assert(moves@ =~= after_survivors + new_tile_falls(x as int, num_new as int, i + 1));
                    }
                    i = i + 1;
                }
                proof {
                    assert(moves@ =~= before + column_falls(h as int, x as int, survivors_x@));
                }
            }
            proof {
                if num_new == 0 {
                    assert(moves@ =~= before + column_falls(h as int, x as int, survivors_x@));
                }
                assert(moves@ =~= board_falls(mid, x + 1));
            }
            x = x + 1;
        }
        proof {
            assert(cleared_from(old(self).board, mid, self.board) && moves@ == board_falls(
                mid,
                old(self).board.width as int,
            ));
        }

        let drops = self.pending_bonus;
        self.pending_bonus = (0, 0, 0);
        self.phase = GamePhase::FallingTiles;
        (moves, drops)
    }

    /// First and one-past-last index of a span of `d` around `a`, clamped to [0, limit).
    fn span(a: usize, d: usize, limit: usize) -> (r: (usize, usize))
        ensures
            r.0 == span_lo(a as int, d as int),
            r.1 == span_hi(a as int, d as int, limit as int),
    {
        let lo = if a >= d { a - d } else { 0 };
        let hi = if a >= limit {
            limit
        } else if d < limit - a {
            a + d + 1
        } else {
            limit
        };
        (lo, hi)
    }

    /// The cells of the area (ati, atj, dx, dy) that hold a tile, column by column.
    pub fn bomb_affected_positions(&self, ati: usize, atj: usize, dx: usize, dy: usize) -> (r: Vec<
        (usize, usize),
    >)
        requires
            self.wf(),
        ensures
            forall|i: int|
                0 <= i < r@.len() ==> in_area(
                    (#[trigger] r@[i]).0 as int,
                    r@[i].1 as int,
                    ati as int,
                    atj as int,
                    dx as int,
                    dy as int,
                    self.board.width as int,
                    self.board.height as int,
                ) && self.board.grid.cell(r@[i].0 as int, r@[i].1 as int).is_some(),
            forall|x: int, y: int|
                in_area(
                    x,
                    y,
                    ati as int,
                    atj as int,
                    dx as int,
                    dy as int,
                    self.board.width as int,
                    self.board.height as int,
                ) && #[trigger] self.board.grid.cell(x, y).is_some() ==> exists|i: int|
                    0 <= i < r@.len() && r@[i] == (x as usize, y as usize),
            r@ == area_positions(
                self.board.grid.layout(),
                span_lo(ati as int, dx as int),
                span_hi(ati as int, dx as int, self.board.width as int),
                span_lo(atj as int, dy as int),
                span_hi(atj as int, dy as int, self.board.height as int),
            ),
    {
        let w = self.board.width;
        let h = self.board.height;
        let (start_i, end_i) = Self::span(ati, dx, w);
        let (start_j, end_j) = Self::span(atj, dy, h);
        let mut positions: Vec<(usize, usize)> = Vec::new();
        let mut x: usize = start_i;
        while x < end_i
            invariant
                self.wf(),
                w == self.board.width,
                h == self.board.height,
                start_i == span_lo(ati as int, dx as int),
                end_i == span_hi(ati as int, dx as int, w as int),
                start_j == span_lo(atj as int, dy as int),
                end_j == span_hi(atj as int, dy as int, h as int),
                start_i <= x,
                x <= end_i || x == start_i,
                end_i <= w,
                end_j <= h,
                forall|i: int|
                    0 <= i < positions@.len() ==> in_area(
                        (#[trigger] positions@[i]).0 as int,
                        positions@[i].1 as int,
                        ati as int,
                        atj as int,
                        dx as int,
                        dy as int,
                        w as int,
                        h as int,
                    ) && self.board.grid.cell(positions@[i].0 as int, positions@[i].1 as int).is_some(),
                forall|a: int, b: int|
                    start_i <= a < x && start_j <= b < end_j && #[trigger] self.board.grid.cell(
                        a,
                        b,
                    ).is_some() ==> exists|i: int|
                        0 <= i < positions@.len() && positions@[i] == (a as usize, b as usize),
                positions@ == area_positions(
                    self.board.grid.layout(),
                    start_i as int,
                    x as int,
                    start_j as int,
                    end_j as int,
                ),
            decreases end_i - x,
        {
            let mut y: usize = start_j;
            while y < end_j
                invariant
                    self.wf(),
                    w == self.board.width,
                    h == self.board.height,
                    start_i == span_lo(ati as int, dx as int),
                    end_i == span_hi(ati as int, dx as int, w as int),
                    start_j == span_lo(atj as int, dy as int),
                    end_j == span_hi(atj as int, dy as int, h as int),
                    start_i <= x < end_i,
                    end_i <= w,
                    end_j <= h,
                    start_j <= y,
                    y <= end_j || y == start_j,
                    forall|i: int|
                        0 <= i < positions@.len() ==> in_area(
                            (#[trigger] positions@[i]).0 as int,
                            positions@[i].1 as int,
                            ati as int,
                            atj as int,
                            dx as int,
                            dy as int,
                            w as int,
                            h as int,
                        ) && self.board.grid.cell(positions@[i].0 as int, positions@[i].1 as int).is_some(),
                    forall|a: int, b: int|
                        ((start_i <= a < x && start_j <= b < end_j) || (a == x && start_j <= b < y))
                            && #[trigger] self.board.grid.cell(a, b).is_some() ==> exists|i: int|
                            0 <= i < positions@.len() && positions@[i] == (a as usize, b as usize),
                    positions@ == area_positions(
                        self.board.grid.layout(),
                        start_i as int,
                        x as int,
                        start_j as int,
                        end_j as int,
                    ) + column_positions(self.board.grid.layout(), x as int, start_j as int, y as int),
                decreases end_j - y,
            {
                let ghost before = positions@;
                if self.board.grid.get(x, y).is_some() {
                    positions.push((x, y));
                }
                proof {
                    assert(positions@ =~= area_positions(
                        self.board.grid.layout(),
                        start_i as int,
                        x as int,
                        start_j as int,
                        end_j as int,
                    ) + column_positions(self.board.grid.layout(), x as int, start_j as int, y + 1));
                    assert forall|a: int, b: int|
                        ((start_i <= a < x && start_j <= b < end_j) || (a == x && start_j <= b < y
                            + 1)) && #[trigger] self.board.grid.cell(a, b).is_some() implies exists|i: int|
                        0 <= i < positions@.len() && positions@[i] == (a as usize, b as usize) by {
                        if a == x && b == y {
                            assert(positions@[positions@.len() - 1] == (a as usize, b as usize));
                        } else {
                            let i = choose|i: int|
                                0 <= i < before.len() && before[i] == (a as usize, b as usize);
                            assert(positions@[i] == before[i]);
                        }
                    }
                }
                y = y + 1;
            }
            proof {
                if start_j > end_j {
                    assert(column_positions(self.board.grid.layout(), x as int, start_j as int, y as int)
                        == column_positions(self.board.grid.layout(), x as int, start_j as int, end_j as int));
                }
            }
            x = x + 1;
        }
        proof {
            if start_i > end_i {
                assert(area_positions(self.board.grid.layout(), start_i as int, x as int, start_j as int, end_j as int)
                    == area_positions(self.board.grid.layout(), start_i as int, end_i as int, start_j as int, end_j as int));
            }
        }
        positions
    }

    /// Whether (x, y) lies in the area that a waiting bomb or arrow will clear.
    pub fn is_pending_bomb_tile(&self, x: usize, y: usize) -> (r: bool)
        requires
            self.wf(),
        ensures
            r == match self.pending_bomb {
                Some((tx, ty, dx, dy)) => in_area(
                    x as int,
                    y as int,
                    tx as int,
                    ty as int,
                    dx as int,
                    dy as int,
                    self.board.width as int,
                    self.board.height as int,
                ),
                None => false,
            },
    {
        match self.pending_bomb {
            Some((tx, ty, dx, dy)) => {
                let (start_x, end_x) = Self::span(tx, dx, self.board.width);
                let (start_y, end_y) = Self::span(ty, dy, self.board.height);
                x >= start_x && x < end_x && y >= start_y && y < end_y
            },
            None => false,
        }
    }

    /// End of a blast's freeze: the queued area is cleared and its columns
    /// refilled. Returns, for each column of the area that held tiles there,
    /// the column and how many new tiles fall into its top; with any such
    /// column the tiles start falling.
    pub fn apply_pending_bomb(&mut self) -> (r: Vec<(usize, usize)>)
        requires
            old(self).wf(),
            old(self).board.can_generate(2 * old(self).board.width * old(self).board.height),
        ensures
            final(self).wf(),
            bomb_applied(*old(self), *final(self), r@),
    {
        let pending = self.pending_bomb;
        self.pending_bomb = None;
        let mut col_counts: Vec<(usize, usize)> = Vec::new();
        match pending {
            Some((tx, ty, dx, dy)) => {
                let w = self.board.width;
                let h = self.board.height;
                let (start_i, end_i) = Self::span(tx, dx, w);
                let (start_j, end_j) = Self::span(ty, dy, h);
                let mut x: usize = start_i;
                while x < end_i
                    invariant
                        self.wf(),
                        w == self.board.width,
                        h == self.board.height,
                        start_i <= x,
                x <= end_i || x == start_i,
                        end_i <= w,
                        end_j <= h,
                        forall|i: int|
                            0 <= i < col_counts@.len() ==> (#[trigger] col_counts@[i]).0 < w && 1
                                <= col_counts@[i].1 <= h,
                        *self == (GameCore { pending_bomb: None, ..*old(self) }),
                        start_i == span_lo(tx as int, dx as int),
                        start_j == span_lo(ty as int, dy as int),
                        col_counts@ == blast_counts(
                            self.board.grid.layout(),
                            start_i as int,
                            x as int,
                            start_j as int,
                            end_j as int,
                        ),
                    decreases end_i - x,
                {
                    let ghost before = col_counts@;
                    let mut count: usize = 0;
                    let mut y: usize = start_j;
                    while y < end_j
                        invariant
                            self.wf(),
                            w == self.board.width,
                            h == self.board.height,
                            x < w,
                            start_j <= y,
                    y <= end_j || y == start_j,
                            end_j <= h,
                            count <= y - start_j,
                            count == tiles_between(self.board.grid.layout(), x as int, start_j as int, y as int),
                        decreases end_j - y,
                    {
                        if self.board.grid.get(x, y).is_some() {
                            count = count + 1;
                        }
                        y = y + 1;
                    }
                    proof {
                        lemma_tiles_between_bound(self.board.grid.layout(), x as int, start_j as int, end_j as int);
                    }
                    if count > 0 {
                        col_counts.push((x, count));
                    }
                    proof {
                        assert(col_counts@ =~= blast_counts(
                            self.board.grid.layout(),
                            start_i as int,
                            x + 1,
                            start_j as int,
                            end_j as int,
                        ));
                    }
                    x = x + 1;
                }
                self.board.bomb_table(tx, ty, dx, dy);
            },
            None => {},
        }
        if col_counts.len() > 0 {
            self.phase = GamePhase::FallingTiles;
        }
        col_counts
    }

    /// The sprites of this frame, in the renderer's order, given how many
    /// bonuses are on screen and how many rotation animations run.
    pub fn render_plan(&self, bonuses: usize, arrows: usize) -> (r: Vec<RenderSlot>)
        requires
            self.wf(),
            bonuses <= usize::MAX / 4,
            arrows <= usize::MAX / 4,
        ensures
            render_shape(
                self.board.grid.layout(),
                self.phase == GamePhase::RotatingTile,
                bonuses as int,
                arrows as int,
                r@,
            ),
    {
        let ghost g = self.board.grid.layout();
        let w = self.board.width;
        let h = self.board.height;
        let mut out: Vec<RenderSlot> = Vec::new();
        let mut y: usize = 0;
        while y < h
            invariant
                0 <= y <= h,
                out@.len() == y,
                forall|j: int| 0 <= j < y ==> #[trigger] out@[j] == RenderSlot::LeftPin(j as usize),
            decreases h - y,
        {
            out.push(RenderSlot::LeftPin(y));
            y = y + 1;
        }
        proof {
            lemma_tiles_present_bound(g, w as int);
            assert(w * h <= usize::MAX / 4) by (nonlinear_arith)
                requires
                    4 * w * h <= i32::MAX,
            ;
        }
        let mut x: usize = 0;
        while x < w
            invariant
                self.wf(),
                g == self.board.grid.layout(),
                w == self.board.width,
                h == self.board.height,
                w * h <= usize::MAX / 4,
                0 <= x <= w,
                out@.len() == h + tiles_present(g, x as int),
                tiles_present(g, x as int) <= x * h,
                out@.subrange(h as int, out@.len() as int) == tile_slots(g, x as int),
                forall|j: int| 0 <= j < h ==> #[trigger] out@[j] == RenderSlot::LeftPin(j as usize),
                forall|j: int|
                    h <= j < out@.len() ==> (#[trigger] out@[j] matches RenderSlot::Tile(a, b)
                        && g.in_bounds(a as int, b as int) && g.cell(a as int, b as int).is_some()),
            decreases w - x,
        {
            let mut y: usize = 0;
            let ghost base = out@.len();
            while y < h
                invariant
                    self.wf(),
                    g == self.board.grid.layout(),
                    w == self.board.width,
                    h == self.board.height,
                    w * h <= usize::MAX / 4,
                    x < w,
                    0 <= y <= h,
                    base == h + tiles_present(g, x as int),
                    tiles_present(g, x as int) <= x * h,
                    out@.len() == base + column_present(g, x as int, y as int),
                    column_present(g, x as int, y as int) <= y,
                    out@.subrange(h as int, out@.len() as int) == tile_slots(g, x as int)
                        + column_slots(g, x as int, y as int),
                    forall|j: int| 0 <= j < h ==> #[trigger] out@[j] == RenderSlot::LeftPin(j as usize),
                    forall|j: int|
                        h <= j < out@.len() ==> (#[trigger] out@[j] matches RenderSlot::Tile(a, b)
                            && g.in_bounds(a as int, b as int) && g.cell(a as int, b as int).is_some()),
                decreases h - y,
            {
                proof {
                    assert(x * h + h <= w * h) by (nonlinear_arith)
                        requires
                            x < w,
                    ;
                }
                let ghost prev = out@;
                if self.board.grid.get(x, y).is_some() {
                    out.push(RenderSlot::Tile(x, y));
                }
                proof {
                    assert(out@.subrange(h as int, out@.len() as int) =~= tile_slots(g, x as int)
                        + column_slots(g, x as int, y + 1)) by {
                        assert(out@.subrange(h as int, prev.len() as int) =~= prev.subrange(
                            h as int,
                            prev.len() as int,
                        ));
                    }
                }
                y = y + 1;
            }
            proof {
                assert(tile_slots(g, x + 1) == tile_slots(g, x as int) + column_slots(g, x as int, h as int));
                lemma_column_present_bound(g, x as int, h as int);
                assert(x * h + h == (x + 1) * h) by (nonlinear_arith);
            }
            x = x + 1;
        }
        let ghost t = tiles_present(g, w as int) as int;
        let mut y: usize = 0;
        while y < h
            invariant
                0 <= y <= h,
                out@.len() == h + t + y,
                t == tiles_present(g, w as int),
                0 <= t <= w * h,
                out@.subrange(h as int, h + t) == tile_slots(g, w as int),
                w * h <= usize::MAX / 4,
                forall|j: int| 0 <= j < h ==> #[trigger] out@[j] == RenderSlot::LeftPin(j as usize),
                forall|j: int|
                    h <= j < h + t ==> (#[trigger] out@[j] matches RenderSlot::Tile(a, b)
                        && g.in_bounds(a as int, b as int) && g.cell(a as int, b as int).is_some()),
                forall|j: int| 0 <= j < y ==> #[trigger] out@[h + t + j] == RenderSlot::RightPin(j as usize),
            decreases h - y,
        {
            out.push(RenderSlot::RightPin(y));
            y = y + 1;
        }
        let mut i: usize = 0;
        while i < bonuses
            invariant
                0 <= i <= bonuses,
                bonuses <= usize::MAX / 4,
                out@.len() == 2 * h + t + i,
                t == tiles_present(g, w as int),
                0 <= t <= w * h,
                out@.subrange(h as int, h + t) == tile_slots(g, w as int),
                w * h <= usize::MAX / 4,
                forall|j: int| 0 <= j < h ==> #[trigger] out@[j] == RenderSlot::LeftPin(j as usize),
                forall|j: int|
                    h <= j < h + t ==> (#[trigger] out@[j] matches RenderSlot::Tile(a, b)
                        && g.in_bounds(a as int, b as int) && g.cell(a as int, b as int).is_some()),
                forall|j: int| 0 <= j < h ==> #[trigger] out@[h + t + j] == RenderSlot::RightPin(j as usize),
                forall|j: int| 0 <= j < i ==> #[trigger] out@[2 * h + t + j] == RenderSlot::Bonus(j as usize),
            decreases bonuses - i,
        {
            out.push(RenderSlot::Bonus(i));
            i = i + 1;
        }
        if self.phase == GamePhase::RotatingTile {
            let mut i: usize = 0;
            while i < arrows
                invariant
                    0 <= i <= arrows,
                    arrows <= usize::MAX / 4,
                    out@.len() == 2 * h + t + bonuses + i,
                    t == tiles_present(g, w as int),
                    0 <= t,
                    out@.subrange(h as int, h + t) == tile_slots(g, w as int),
                    forall|j: int| 0 <= j < h ==> #[trigger] out@[j] == RenderSlot::LeftPin(j as usize),
                    forall|j: int|
                        h <= j < h + t ==> (#[trigger] out@[j] matches RenderSlot::Tile(a, b)
                            && g.in_bounds(a as int, b as int) && g.cell(a as int, b as int).is_some()),
                    forall|j: int|
                        0 <= j < h ==> #[trigger] out@[h + t + j] == RenderSlot::RightPin(j as usize),
                    forall|j: int|
                        0 <= j < bonuses ==> #[trigger] out@[2 * h + t + j] == RenderSlot::Bonus(j as usize),
                    forall|j: int|
                        0 <= j < i ==> #[trigger] out@[2 * h + t + bonuses + j] == RenderSlot::Arrow(
                            j as usize,
                        ),
                decreases arrows - i,
            {
                out.push(RenderSlot::Arrow(i));
                i = i + 1;
            }
        }
        out
    }

    /// The phase machine's timed transitions: rotations finishing re-check
    /// connectivity; a zap's freeze running out clears the zap; a blast's
    /// freeze running out applies the blast; falls finishing re-check
    /// connectivity. Any other event in any other phase changes nothing.
    pub fn advance(&mut self, event: TickEvent, landed: &Vec<BonusDrop>) -> (r: Advance)
        requires
            old(self).wf(),
            old(self).board.can_generate(2 * old(self).board.width * old(self).board.height),
            drops_on_board(old(self).board, landed@),
            landed@.len() <= 1_000_000,
        ensures
            final(self).wf(),
            final(self).mode == old(self).mode,
            ({
                let checks = (old(self).phase == GamePhase::RotatingTile && event
                    == TickEvent::RotationsFinished) || (old(self).phase == GamePhase::FallingTiles
                    && event == TickEvent::FallsFinished);
                let clears = old(self).phase == GamePhase::FreezeDuringZap && event
                    == TickEvent::FreezeExpired;
                let blasts = old(self).phase == GamePhase::FreezeDuringBomb && event
                    == TickEvent::FreezeExpired;
                &&& checks ==> (r matches Advance::Checked(kept) && checked(
                    *old(self),
                    *final(self),
                    landed@,
                    kept@,
                ))
                &&& clears ==> (r matches Advance::Cleared(moves, drops) && drops
                    == old(self).pending_bonus && final(self).phase == GamePhase::FallingTiles
                    && final(self).pending_bonus == (0usize, 0usize, 0usize)
                    && final(self).left_score == old(self).left_score
                    && final(self).right_score == old(self).right_score
                    && final(self).power_left == old(self).power_left
                    && final(self).power_right == old(self).power_right
                    && final(self).sound_events@ == old(self).sound_events@.push(
                    SoundEvent::CoinDrop,
                ).push(SoundEvent::Explode) && (forall|c: Cell|
                    old(self).board.grid.in_bounds(c.0, c.1) ==> #[trigger] final(self).board.mark(c)
                        == Marking::Unmarked) && exists|mid: GameBoard|
                    cleared_from(old(self).board, mid, final(self).board) && moves@ == board_falls(
                        mid,
                        old(self).board.width as int,
                    ))
                &&& blasts ==> match r {
                    Advance::Blasted(counts) => counts@.len() > 0 && bomb_applied(
                        *old(self),
                        *final(self),
                        counts@,
                    ),
                    Advance::BlastRechecked(kept) => exists|mid: GameCore|
                        bomb_applied(*old(self), mid, Seq::empty()) && checked(
                            mid,
                            *final(self),
                            landed@,
                            kept@,
                        ),
                    _ => false,
                }
                &&& !checks && !clears && !blasts ==> r is Ignored && *final(self) == *old(self)
            }),
    {
        match (self.phase, event) {
            (GamePhase::RotatingTile, TickEvent::RotationsFinished) | (
                GamePhase::FallingTiles,
                TickEvent::FallsFinished,
            ) => Advance::Checked(self.check_and_transition(landed)),
            (GamePhase::FreezeDuringZap, TickEvent::FreezeExpired) => {
                proof {
                    assert(self.board.width * self.board.height <= 2 * self.board.width
                        * self.board.height) by (nonlinear_arith)
                        requires
                            0 <= self.board.width,
                            0 <= self.board.height,
                    ;
                }
                let (moves, drops) = self.clear_zapped();
                Advance::Cleared(moves, drops)
            },
            (GamePhase::FreezeDuringBomb, TickEvent::FreezeExpired) => {
                let counts = self.apply_pending_bomb();
                if counts.len() > 0 {
                    Advance::Blasted(counts)
                } else {
                    proof {
                        assert(counts@ =~= Seq::<(usize, usize)>::empty());
                        assert forall|i: int| 0 <= i < landed@.len() implies #[trigger] landed@[i].tile_x
                            < self.board.width && landed@[i].tile_y < self.board.height by {
                            assert(landed@[i].tile_x < old(self).board.width && landed@[i].tile_y
                                < old(self).board.height);
                        }
                    }
                    let kept = self.check_and_transition(landed);
                    Advance::BlastRechecked(kept)
                }
            },
            _ => Advance::Ignored,
        }
    }

    /// Whether the tile at (x, y) is drawn hidden this frame: during a zap's
    /// freeze the joined tiles give way to their arcs, and during a blast's
    /// freeze the tiles of its area are gone.
    pub fn tile_hidden(&self, x: usize, y: usize) -> (r: bool)
        requires
            self.wf(),
            x < self.board.width,
            y < self.board.height,
        ensures
            r == ((self.phase == GamePhase::FreezeDuringZap && self.board.mark((x as int, y as int))
                == Marking::Both) || (self.phase == GamePhase::FreezeDuringBomb && match self.pending_bomb {
                Some((tx, ty, dx, dy)) => in_area(
                    x as int,
                    y as int,
                    tx as int,
                    ty as int,
                    dx as int,
                    dy as int,
                    self.board.width as int,
                    self.board.height as int,
                ),
                None => false,
            })),
    {
        (self.phase == GamePhase::FreezeDuringZap && self.board.get_marking(x, y) == Marking::Both)
            || (self.phase == GamePhase::FreezeDuringBomb && self.is_pending_bomb_tile(x, y))
    }

    /// Consume the waiting tap as `take_tap` does; a cross is followed at
    /// once by a connectivity check, whose kept landed bonuses are returned
    /// (none for other taps).
    pub fn process_input(&mut self, landed: &Vec<BonusDrop>) -> (r: (TapAction, Vec<usize>))
        requires
            old(self).wf(),
            drops_on_board(old(self).board, landed@),
            landed@.len() <= 1_000_000,
        ensures
            final(self).wf(),
            r.0 is Crossed ==> exists|mid: GameCore|
                tapped(*old(self), mid, r.0) && checked(mid, *final(self), landed@, r.1@),
            !(r.0 is Crossed) ==> tapped(*old(self), *final(self), r.0) && r.1@.len() == 0,
    {
        let action = self.take_tap();
        match action {
            TapAction::Crossed(_, _) => {
                proof {
                    assert forall|i: int| 0 <= i < landed@.len() implies #[trigger] landed@[i].tile_x
                        < self.board.width && landed@[i].tile_y < self.board.height by {
                        assert(landed@[i].tile_x < old(self).board.width && landed@[i].tile_y
                            < old(self).board.height);
                    }
                }
                let kept = self.check_and_transition(landed);
                (action, kept)
            },
            _ => (action, Vec::new()),
        }
    }
}

} // verus!
