use vstd::prelude::*;
use crate::components::{Direction, Marking, DEFAULT_HEIGHT, DEFAULT_MISSING_LINKS, DEFAULT_WIDTH};
use crate::grid::{cell_index, is_single, Grid, Layout, Tile};
use crate::reach::{
    adjacent, closed_under, link, left_pin_zapped, left_pins_upto, left_reach_upto, left_seed, mark_of,
    opens, reach_from, right_pin_zapped, right_pins_upto, right_reach_upto, right_seed,
    settled_marking, zapped, Cell, lemma_adjacent_symmetric, lemma_closed_covers,
    lemma_left_reach_closed, lemma_reach_extend, lemma_reach_self, lemma_reach_symmetric,
    lemma_reach_trans, lemma_right_reach_closed, reaches_right,
};
use crate::rng::{draw, seed_state, xorshift, Rng};

verus! {

/// Most re-draws a single tile generation makes while it looks for a tile
/// with more than one connection. xorshift64 walks through every non-zero
/// state before it repeats, so the bound is never met in practice; should it
/// be, the dead end drawn last is widened to two connections.
pub const REDRAW_LIMIT: u64 = 0xFFFF_FFFF_FFFF_FFFF;

/// The raw tile value drawn from a generator state: a mask in [1, 15].
pub open spec fn raw_tile(s: u64) -> u8 {
    (draw(s, 15) + 1) as u8
}

/// Re-draws from state `s`, starting with value `k`, until `k` is not a dead end
/// (or the fuel runs out); yields the value and the generator state after it.
pub open spec fn redraw(k: u8, s: u64, fuel: nat) -> (u8, u64)
    decreases fuel,
{
    if !is_single(k) || fuel == 0 {
        (k, s)
    } else {
        redraw(raw_tile(s), xorshift(s), (fuel - 1) as nat)
    }
}

/// The running share of dead ends exceeds the target percentage, once
/// `generated` tiles (the one being drawn included) have been drawn.
pub open spec fn too_many_dead_ends(generated: int, dead_ends: int, target: int) -> bool {
    generated > 0 && (100 * dead_ends) / generated > target
}

/// The tile value and generator state that the next generation yields.
pub open spec fn next_tile(s: u64, generated: int, dead_ends: int, target: int) -> (u8, u64) {
    let k = raw_tile(s);
    if too_many_dead_ends(generated + 1, dead_ends, target) {
        let (k2, s2) = redraw(k, xorshift(s), REDRAW_LIMIT as nat);
        (widened(k2), s2)
    } else {
        (k, xorshift(s))
    }
}

/// A dead end joined with the connection of its next rotation (any other
/// mask unchanged): what a re-draw settles on should its bound ever be met.
pub open spec fn widened(k: u8) -> u8 {
    if k == 1 {
        3
    } else if k == 2 {
        6
    } else if k == 4 {
        12
    } else if k == 8 {
        9
    } else {
        k
    }
}

/// The state of a board's tile generator: the random state, the tiles drawn
/// and the dead ends among them since the last reset, and the target share
/// of dead ends in percent.
pub struct GenState {
    pub rng: u64,
    pub made: int,
    pub dead: int,
    pub target: int,
}

/// One generation: the tile value and the generator state after it.
pub open spec fn gen_step(s: GenState) -> (u8, GenState) {
    let (k, r) = next_tile(s.rng, s.made, s.dead, s.target);
    (
        k,
        GenState {
            rng: r,
            made: s.made + 1,
            dead: s.dead + if is_single(k) {
                1int
            } else {
                0int
            },
            target: s.target,
        },
    )
}

/// `n` generations in a row: the values in order and the state after them.
pub open spec fn gen_run(s: GenState, n: nat) -> (Seq<u8>, GenState)
    decreases n,
{
    if n == 0 {
        (Seq::empty(), s)
    } else {
        let (q, s1) = gen_run(s, (n - 1) as nat);
        let (k, s2) = gen_step(s1);
        (q.push(k), s2)
    }
}

pub proof fn lemma_gen_run_len(s: GenState, n: nat)
    ensures
        gen_run(s, n).0.len() == n,
        gen_run(s, n).1.made == s.made + n,
        gen_run(s, n).1.target == s.target,
    decreases n,
{
    if n > 0 {
        lemma_gen_run_len(s, (n - 1) as nat);
    }
}

/// Number of entries of `s` that differ from `m`.
pub open spec fn count_other(s: Seq<Marking>, m: Marking) -> nat
    decreases s.len(),
{
    if s.len() == 0 {
        0
    } else {
        count_other(s.drop_last(), m) + if s.last() != m {
            1nat
        } else {
            0nat
        }
    }
}

proof fn lemma_count_other_update(s: Seq<Marking>, i: int, m: Marking)
    requires
        0 <= i < s.len(),
        s[i] != m,
    ensures
        count_other(s.update(i, m), m) + 1 == count_other(s, m),
    decreases s.len(),
{
    let t = s.update(i, m);
    if i == s.len() - 1 {
        assert(t.drop_last() =~= s.drop_last());
    } else {
        assert(t.drop_last() =~= s.drop_last().update(i, m));
        lemma_count_other_update(s.drop_last(), i, m);
    }
}

/// Some entry of `queue` at or after `head` names the cell `b` with a
/// direction in which `b` opens.
pub open spec fn pending(g: Layout, queue: Seq<(usize, usize, Direction)>, head: int, b: Cell) -> bool {
    exists|i: int|
        #![trigger queue[i]]
        head <= i < queue.len() && queue[i].0 == b.0 && queue[i].1 == b.1 && opens(g, b, queue[i].2.0)
}

/// The tile at (x, y) survives a removal: it is not on a completed path.
pub open spec fn survives(b: GameBoard, x: int, y: int) -> bool {
    b.mark((x, y)) != Marking::Both && b.grid.cell(x, y).is_some()
}

/// The surviving tiles of column `x` in rows `n` and below, top to bottom.
pub open spec fn survivors_from(b: GameBoard, x: int, n: int) -> Seq<Tile>
    decreases b.height - n,
{
    if n >= b.height {
        Seq::empty()
    } else {
        let rest = survivors_from(b, x, n + 1);
        if survives(b, x, n) {
            seq![b.grid.cell(x, n).unwrap()] + rest
        } else {
            rest
        }
    }
}

/// The surviving tiles of column `x`, top to bottom.
pub open spec fn survivors(b: GameBoard, x: int) -> Seq<Tile> {
    survivors_from(b, x, 0)
}

/// The tile values of a default board built from `seed`, in row-major order.
pub open spec fn default_tiles(seed: u64) -> Seq<u8> {
    gen_run(
        GenState { rng: seed_state(seed), made: 0, dead: 0, target: DEFAULT_MISSING_LINKS as int },
        (DEFAULT_WIDTH * DEFAULT_HEIGHT) as nat,
    ).0
}

/// Index of (x, y) in row-major order on a board `w` wide.
pub open spec fn row_major(w: int, x: int, y: int) -> int {
    y * w + x
}

proof fn lemma_row_major_before(x: int, y: int, w: int, j: int)
    requires
        0 <= x < w,
        0 <= y < j,
    ensures
        y * w + x < j * w,
        0 <= y * w + x,
{
    assert(y * w + x < j * w) by (nonlinear_arith)
        requires
            0 <= x < w,
            0 <= y < j,
    ;
    assert(0 <= y * w) by (nonlinear_arith)
        requires
            0 <= y,
            0 <= w,
    ;
}

/// The generator state when the refill of column `x` starts: each earlier
/// column drew one tile per removed one.
pub open spec fn refill_before(b: GameBoard, x: int) -> GenState
    decreases x,
{
    if x <= 0 {
        b.gen_state()
    } else {
        gen_run(refill_before(b, x - 1), (b.height - survivors(b, x - 1).len()) as nat).1
    }
}

/// The new tile values that refill the top of column `x`, top to bottom.
pub open spec fn refill_values(b: GameBoard, x: int) -> Seq<u8> {
    gen_run(refill_before(b, x), (b.height - survivors(b, x).len()) as nat).0
}

pub proof fn lemma_survivors_len(b: GameBoard, x: int, n: int)
    requires
        0 <= n <= b.height,
    ensures
        survivors_from(b, x, n).len() <= b.height - n,
    decreases b.height - n,
{
    if n < b.height {
        lemma_survivors_len(b, x, n + 1);
    }
}

proof fn lemma_survivors_shape(b: GameBoard, x: int, r: int, n: int)
    requires
        0 <= r < b.height,
        0 <= n <= b.height,
        forall|y: int| 0 <= y < b.height ==> (survives(b, x, y) <==> y != r),
    ensures
        n > r ==> survivors_from(b, x, n).len() == b.height - n,
        n > r ==> forall|k: int|
            0 <= k < b.height - n ==> #[trigger] survivors_from(b, x, n)[k] == b.grid.cell(
                x,
                n + k,
            ).unwrap(),
        n <= r ==> survivors_from(b, x, n).len() == b.height - n - 1,
        n <= r ==> forall|k: int|
            0 <= k < b.height - n - 1 ==> #[trigger] survivors_from(b, x, n)[k] == if n + k < r {
                b.grid.cell(x, n + k).unwrap()
            } else {
                b.grid.cell(x, n + k + 1).unwrap()
            },
    decreases b.height - n,
{
    if n < b.height {
        lemma_survivors_shape(b, x, r, n + 1);
        let rest = survivors_from(b, x, n + 1);
        if n != r {
            assert(survivors_from(b, x, n) == seq![b.grid.cell(x, n).unwrap()] + rest);
        }
    }
}

/// When the only tile of a full column that is joined to both edges sits in
/// row `r`, the survivors are the tiles above `r` followed by the tiles below
/// it: after a removal the tiles above `r` are one row lower, the tiles below
/// stay, and one new tile lands on top.
pub proof fn lemma_single_removal(b: GameBoard, x: int, r: int)
    requires
        0 <= r < b.height,
        b.mark((x, r)) == Marking::Both,
        forall|y: int|
            0 <= y < b.height && y != r ==> b.mark((x, y)) != Marking::Both && b.grid.cell(
                x,
                y,
            ).is_some(),
    ensures
        survivors(b, x).len() == b.height - 1,
        forall|y: int| 0 <= y < r ==> #[trigger] survivors(b, x)[y] == b.grid.cell(x, y).unwrap(),
        forall|y: int|
            r < y < b.height ==> #[trigger] survivors(b, x)[y - 1] == b.grid.cell(x, y).unwrap(),
{
    lemma_survivors_shape(b, x, r, 0);
    assert forall|y: int| r < y < b.height implies #[trigger] survivors(b, x)[y - 1] == b.grid.cell(
        x,
        y,
    ).unwrap() by {
        assert(survivors_from(b, x, 0)[y - 1] == b.grid.cell(x, 0 + (y - 1) + 1).unwrap());
    }
}

/// First index of a span of `d` on each side of `a`, clamped at zero.
pub open spec fn span_lo(a: int, d: int) -> int {
    if a >= d {
        a - d
    } else {
        0
    }
}

/// One past the last index of a span of `d` on each side of `a`, clamped at `limit`.
pub open spec fn span_hi(a: int, d: int, limit: int) -> int {
    if a + d + 1 <= limit {
        a + d + 1
    } else {
        limit
    }
}

/// The generator state when the blast refill of column `x` starts: each
/// earlier column of the blast, from `lo` on, drew twice `n` tiles.
pub open spec fn blast_before(b: GameBoard, lo: int, n: nat, x: int) -> GenState
    decreases x - lo,
{
    if x <= lo {
        b.gen_state()
    } else {
        gen_run(gen_run(blast_before(b, lo, n, x - 1), n).1, n).1
    }
}

/// The tile values a blast leaves at the top of column `x`, in the order
/// drawn: the last one drawn lands on top.
pub open spec fn blast_values(b: GameBoard, lo: int, n: nat, x: int) -> Seq<u8> {
    gen_run(gen_run(blast_before(b, lo, n, x), n).1, n).0
}

/// A vector of `n` copies of `x`.
fn filled<T: Copy>(x: T, n: usize) -> (r: Vec<T>)
    ensures
        r@.len() == n,
        forall|i: int| 0 <= i < n ==> r@[i] == x,
{
    let mut v: Vec<T> = Vec::with_capacity(n);
    let mut i: usize = 0;
    while i < n
        invariant
            i <= n,
            v@.len() == i,
            forall|k: int| 0 <= k < i ==> v@[k] == x,
        decreases n - i,
    {
        v.push(x);
        i = i + 1;
    }
    v
}

/// A copy of `v`.
fn copy_vec<T: Copy>(v: &Vec<T>) -> (r: Vec<T>)
    ensures
        r@ == v@,
{
    let mut out: Vec<T> = Vec::with_capacity(v.len());
    let mut i: usize = 0;
    while i < v.len()
        invariant
            0 <= i <= v@.len(),
            out@ == v@.subrange(0, i as int),
        decreases v@.len() - i,
    {
        out.push(v[i]);
        i = i + 1;
        assert(out@ =~= v@.subrange(0, i as int));
    }
    assert(out@ =~= v@);
    out
}

/// The core game board: tiles, their markings, per-row multipliers and the
/// generator that draws new tiles.
#[derive(Debug, Clone)]
pub struct GameBoard {
    pub width: usize,
    pub height: usize,
    pub grid: Grid,
    /// Column-major, one per cell.
    pub markings: Vec<Marking>,
    pub multiplier_left: Vec<i32>,
    pub multiplier_right: Vec<i32>,
    pub rng: Rng,
    pub left_pins_connect: usize,
    pub right_pins_connect: usize,
    pub left_conquered: usize,
    pub right_conquered: usize,
    /// Target percentage of dead-end tiles.
    pub missing_links: usize,
    /// Tiles generated since the last reset.
    pub new_elements: usize,
    /// Dead-end tiles among them.
    pub missing_link_elements: usize,
}

/// Two boards that differ at most in their markings.
pub open spec fn same_but_markings(a: GameBoard, b: GameBoard) -> bool {
    &&& a.width == b.width
    &&& a.height == b.height
    &&& a.grid == b.grid
    &&& a.multiplier_left == b.multiplier_left
    &&& a.multiplier_right == b.multiplier_right
    &&& a.rng == b.rng
    &&& a.left_pins_connect == b.left_pins_connect
    &&& a.right_pins_connect == b.right_pins_connect
    &&& a.left_conquered == b.left_conquered
    &&& a.right_conquered == b.right_conquered
    &&& a.missing_links == b.missing_links
    &&& a.new_elements == b.new_elements
    &&& a.missing_link_elements == b.missing_link_elements
}

/// A tile freshly produced by the generator.
pub open spec fn fresh_tile(t: Option<Tile>) -> bool {
    match t {
        Some(t) => 1 <= t.connections <= 15,
        None => false,
    }
}

impl GameBoard {
    pub open spec fn wf(&self) -> bool {
        &&& self.grid.wf()
        &&& self.grid.width == self.width
        &&& self.grid.height == self.height
        &&& self.width >= 1
        &&& self.markings@.len() == self.width * self.height
        &&& self.multiplier_left@.len() == self.height
        &&& self.multiplier_right@.len() == self.height
        &&& self.missing_link_elements <= self.new_elements
    }

    /// The state of the board's tile generator.
    pub open spec fn gen_state(&self) -> GenState {
        GenState {
            rng: self.rng@,
            made: self.new_elements as int,
            dead: self.missing_link_elements as int,
            target: self.missing_links as int,
        }
    }

    /// The generator's counters leave room for `n` more tiles.
    pub open spec fn can_generate(&self, n: int) -> bool {
        self.new_elements + n <= usize::MAX / 100
    }

    /// The marking of the cell `c`.
    pub open spec fn mark(&self, c: Cell) -> Marking {
        self.markings@[cell_index(self.height as int, c.0, c.1)]
    }

    /// Create a new board with random tiles.
    pub fn new(width: usize, height: usize, missing_links: usize, seed: u64) -> (r: GameBoard)
        requires
            width >= 1,
            width * height <= usize::MAX / 100,
        ensures
            r.wf(),
            r.width == width,
            r.height == height,
            r.missing_links == missing_links,
            r.new_elements == width * height,
            r.left_pins_connect == 0 && r.right_pins_connect == 0,
            r.left_conquered == 0 && r.right_conquered == 0,
            forall|x: int, y: int| r.grid.in_bounds(x, y) ==> fresh_tile(#[trigger] r.grid.cell(x, y)),
            forall|x: int, y: int|
                r.grid.in_bounds(x, y) ==> #[trigger] r.mark((x, y)) == Marking::Unmarked,
            forall|j: int| 0 <= j < height ==> r.multiplier_left@[j] == 1 && r.multiplier_right@[j] == 1,
            ({
                let run = gen_run(
                    GenState { rng: seed_state(seed), made: 0, dead: 0, target: missing_links as int },
                    (width * height) as nat,
                );
                &&& r.gen_state() == run.1
                &&& forall|x: int, y: int|
                    r.grid.in_bounds(x, y) ==> #[trigger] r.grid.cell(x, y) == Some(
                        Tile { connections: run.0[row_major(width as int, x, y)] },
                    )
            }),
    {
        let n: usize = width * height;
        let mut board = GameBoard {
            width,
            height,
            grid: Grid::new(width, height),
            markings: filled(Marking::Unmarked, n),
            multiplier_left: filled(1i32, height),
            multiplier_right: filled(1i32, height),
            rng: Rng::new(seed),
            left_pins_connect: 0,
            right_pins_connect: 0,
            left_conquered: 0,
            right_conquered: 0,
            missing_links,
            new_elements: 0,
            missing_link_elements: 0,
        };
        board.reset_table(missing_links);
        board
    }

    /// An independent board equal to this one.
    pub fn duplicate(&self) -> (r: GameBoard)
        requires
            self.wf(),
        ensures
            r.wf(),
            r.width == self.width,
            r.height == self.height,
            r.grid@ == self.grid@,
            r.grid.layout() == self.grid.layout(),
            r.markings@ == self.markings@,
            r.multiplier_left@ == self.multiplier_left@,
            r.multiplier_right@ == self.multiplier_right@,
            r.rng == self.rng,
            r.left_pins_connect == self.left_pins_connect,
            r.right_pins_connect == self.right_pins_connect,
            r.left_conquered == self.left_conquered,
            r.right_conquered == self.right_conquered,
            r.missing_links == self.missing_links,
            r.new_elements == self.new_elements,
            r.missing_link_elements == self.missing_link_elements,
    {
        GameBoard {
            width: self.width,
            height: self.height,
            grid: self.grid.duplicate(),
            markings: copy_vec(&self.markings),
            multiplier_left: copy_vec(&self.multiplier_left),
            multiplier_right: copy_vec(&self.multiplier_right),
            rng: self.rng,
            left_pins_connect: self.left_pins_connect,
            right_pins_connect: self.right_pins_connect,
            left_conquered: self.left_conquered,
            right_conquered: self.right_conquered,
            missing_links: self.missing_links,
            new_elements: self.new_elements,
            missing_link_elements: self.missing_link_elements,
        }
    }

    /// Create a default 12x10 board.
    pub fn new_default(seed: u64) -> (r: GameBoard)
        ensures
            r.wf(),
            r.width == DEFAULT_WIDTH,
            r.height == DEFAULT_HEIGHT,
            r.missing_links == DEFAULT_MISSING_LINKS,
            forall|x: int, y: int| r.grid.in_bounds(x, y) ==> fresh_tile(#[trigger] r.grid.cell(x, y)),
            forall|j: int|
                0 <= j < DEFAULT_HEIGHT ==> r.multiplier_left@[j] == 1 && r.multiplier_right@[j] == 1,
            forall|x: int, y: int|
                r.grid.in_bounds(x, y) ==> #[trigger] r.mark((x, y)) == Marking::Unmarked,
            forall|x: int, y: int|
                r.grid.in_bounds(x, y) ==> #[trigger] r.grid.cell(x, y) == Some(
                    Tile { connections: default_tiles(seed)[row_major(DEFAULT_WIDTH as int, x, y)] },
                ),
    {
        Self::new(DEFAULT_WIDTH, DEFAULT_HEIGHT, DEFAULT_MISSING_LINKS, seed)
    }

    fn marking_idx(&self, x: usize, y: usize) -> (r: usize)
        requires
            self.wf(),
            self.grid.in_bounds(x as int, y as int),
        ensures
            r == cell_index(self.height as int, x as int, y as int),
            r < self.markings@.len(),
    {
        proof {
            self.grid.lemma_index_in_range(x as int, y as int);
            assert(0 <= x * self.height <= x * self.height + y) by (nonlinear_arith)
                requires
                    0 <= x,
                    0 <= y,
                    0 <= self.height,
            ;
        }
        x * self.height + y
    }

    pub fn get_marking(&self, x: usize, y: usize) -> (r: Marking)
        requires
            self.wf(),
            self.grid.in_bounds(x as int, y as int),
        ensures
            r == self.mark((x as int, y as int)),
    {
        let i = self.marking_idx(x, y);
        self.markings[i]
    }

    pub fn set_marking(&mut self, x: usize, y: usize, m: Marking)
        requires
            old(self).wf(),
            old(self).grid.in_bounds(x as int, y as int),
        ensures
            final(self).wf(),
            same_but_markings(*final(self), *old(self)),
            final(self).markings@ == old(self).markings@.update(
                cell_index(old(self).height as int, x as int, y as int),
                m,
            ),
            forall|c: Cell|
                old(self).grid.in_bounds(c.0, c.1) ==> #[trigger] final(self).mark(c) == if c == (
                x as int,
                y as int,
                ) {
                    m
                } else {
                    old(self).mark(c)
                },
    {
        let i = self.marking_idx(x, y);
        self.markings.set(i, m);
        proof {
            assert forall|c: Cell| old(self).grid.in_bounds(c.0, c.1) implies #[trigger] self.mark(c)
                == if c == (x as int, y as int) {
                m
            } else {
                old(self).mark(c)
            } by {
                self.grid.lemma_index_in_range(c.0, c.1);
                if c != (x as int, y as int) {
                    self.grid.lemma_index_injective(c.0, c.1, x as int, y as int);
                }
            }
        }
    }

    /// Set a tile's connections at position (x, y); an empty cell stays empty.
    pub fn set_tile(&mut self, x: usize, y: usize, connection: u8)
        requires
            old(self).wf(),
            old(self).grid.in_bounds(x as int, y as int),
        ensures
            final(self).wf(),
            final(self).grid.width == old(self).grid.width,
            final(self).grid.height == old(self).grid.height,
            final(self).markings == old(self).markings,
            final(self).rng == old(self).rng,
            final(self).new_elements == old(self).new_elements,
            final(self).missing_link_elements == old(self).missing_link_elements,
            final(self).missing_links == old(self).missing_links,
            final(self).multiplier_left == old(self).multiplier_left,
            final(self).multiplier_right == old(self).multiplier_right,
            final(self).grid@ == if old(self).grid.cell(x as int, y as int).is_some() {
                old(self).grid@.update(
                    cell_index(old(self).height as int, x as int, y as int),
                    Some(Tile { connections: connection & 0x0F }),
                )
            } else {
                old(self).grid@
            },
    {
        match self.grid.get_mut(x, y) {
            Some(tile) => {
                tile.connections = connection & 0x0F;
            },
            None => {},
        }
    }

    /// Generate a random tile connection value in [1, 15], keeping the share of
    /// dead-end tiles near the target: once the running share exceeds it, dead
    /// ends are re-drawn.
    pub fn get_new_element(&mut self) -> (r: u8)
        requires
            old(self).wf(),
            old(self).can_generate(1),
        ensures
            final(self).wf(),
            1 <= r <= 15,
            (r, final(self).rng@) == next_tile(
                old(self).rng@,
                old(self).new_elements as int,
                old(self).missing_link_elements as int,
                old(self).missing_links as int,
            ),
            (r, final(self).gen_state()) == gen_step(old(self).gen_state()),
            too_many_dead_ends(
                old(self).new_elements + 1,
                old(self).missing_link_elements as int,
                old(self).missing_links as int,
            ) ==> !is_single(r),
            final(self).new_elements == old(self).new_elements + 1,
            final(self).missing_link_elements == old(self).missing_link_elements + if is_single(r) {
                1int
            } else {
                0int
            },
            final(self).width == old(self).width,
            final(self).height == old(self).height,
            final(self).grid == old(self).grid,
            final(self).markings == old(self).markings,
            final(self).multiplier_left == old(self).multiplier_left,
            final(self).multiplier_right == old(self).multiplier_right,
            final(self).missing_links == old(self).missing_links,
            final(self).left_pins_connect == old(self).left_pins_connect,
            final(self).right_pins_connect == old(self).right_pins_connect,
            final(self).left_conquered == old(self).left_conquered,
            final(self).right_conquered == old(self).right_conquered,
    {
        let ghost s0 = self.rng@;
        let mut k: u8 = (self.rng.next_int(15) + 1) as u8;
        self.new_elements = self.new_elements + 1;
        proof {
            assert(100 * self.missing_link_elements <= 100 * self.new_elements);
        }
        if self.new_elements > 0 && (100 * self.missing_link_elements / self.new_elements)
            > self.missing_links {
            let mut rng = self.rng;
            let mut fuel: u64 = REDRAW_LIMIT;
            while (k == 1 || k == 2 || k == 4 || k == 8) && fuel > 0
                invariant
                    redraw(k, rng@, fuel as nat) == redraw(
                        raw_tile(s0),
                        xorshift(s0),
                        REDRAW_LIMIT as nat,
                    ),
                    1 <= k <= 15,
                decreases fuel,
            {
                k = (rng.next_int(15) + 1) as u8;
                fuel = fuel - 1;
            }
            k = if k == 1 {
                3
            } else if k == 2 {
                6
            } else if k == 4 {
                12
            } else if k == 8 {
                9
            } else {
                k
            };
            self.rng = rng;
        }
        if k == 1 || k == 2 || k == 4 || k == 8 {
            self.missing_link_elements = self.missing_link_elements + 1;
        }
        k
    }

    /// Reset the entire board with fresh random tiles, unmarked cells and
    /// multipliers of 1.
    pub fn reset_table(&mut self, percent_missing_links: usize)
        requires
            old(self).wf(),
            old(self).width * old(self).height <= usize::MAX / 100,
        ensures
            final(self).wf(),
            final(self).width == old(self).width,
            final(self).height == old(self).height,
            final(self).missing_links == percent_missing_links,
            final(self).new_elements == old(self).width * old(self).height,
            final(self).left_pins_connect == old(self).left_pins_connect,
            final(self).right_pins_connect == old(self).right_pins_connect,
            final(self).left_conquered == old(self).left_conquered,
            final(self).right_conquered == old(self).right_conquered,
            forall|x: int, y: int|
                final(self).grid.in_bounds(x, y) ==> fresh_tile(#[trigger] final(self).grid.cell(x, y)),
            forall|x: int, y: int|
                final(self).grid.in_bounds(x, y) ==> #[trigger] final(self).mark((x, y))
                    == Marking::Unmarked,
            forall|j: int|
                0 <= j < final(self).height ==> final(self).multiplier_left@[j] == 1
                    && final(self).multiplier_right@[j] == 1,
            ({
                let s0 = GenState {
                    rng: old(self).rng@,
                    made: 0,
                    dead: 0,
                    target: percent_missing_links as int,
                };
                let run = gen_run(s0, (old(self).width * old(self).height) as nat);
                &&& final(self).gen_state() == run.1
                &&& forall|x: int, y: int|
                    final(self).grid.in_bounds(x, y) ==> #[trigger] final(self).grid.cell(x, y)
                        == Some(Tile { connections: run.0[row_major(old(self).width as int, x, y)] })
            }),
    {
        self.missing_links = percent_missing_links;
        self.new_elements = 0;
        self.missing_link_elements = 0;
        let ghost s0 = self.gen_state();
        let ghost w = self.width as int;
        let ghost h = self.height as int;
        let mut j: usize = 0;
        while j < self.height
            invariant
                self.wf(),
                self.width == w,
                self.height == h,
                w * h <= usize::MAX / 100,
                0 <= j <= h,
                self.new_elements == j * w,
                self.missing_links == percent_missing_links,
                self.left_pins_connect == old(self).left_pins_connect,
                self.right_pins_connect == old(self).right_pins_connect,
                self.left_conquered == old(self).left_conquered,
                self.right_conquered == old(self).right_conquered,
                forall|x: int, y: int|
                    0 <= x < w && 0 <= y < j ==> fresh_tile(#[trigger] self.grid.cell(x, y)),
                forall|x: int, y: int|
                    0 <= x < w && 0 <= y < j ==> #[trigger] self.mark((x, y)) == Marking::Unmarked,
                forall|k: int|
                    0 <= k < j ==> self.multiplier_left@[k] == 1 && self.multiplier_right@[k] == 1,
                s0 == (GenState { rng: old(self).rng@, made: 0, dead: 0, target: percent_missing_links as int }),
                self.gen_state() == gen_run(s0, (j * w) as nat).1,
                forall|x: int, y: int|
                    0 <= x < w && 0 <= y < j ==> #[trigger] self.grid.cell(x, y) == Some(
                        Tile { connections: gen_run(s0, (j * w) as nat).0[row_major(w, x, y)] },
                    ),
            decreases h - j,
        {
            let mut i: usize = 0;
            while i < self.width
                invariant
                    self.wf(),
                    self.width == w,
                    self.height == h,
                    w * h <= usize::MAX / 100,
                    0 <= j < h,
                    0 <= i <= w,
                    self.new_elements == j * w + i,
                    self.missing_links == percent_missing_links,
                    self.left_pins_connect == old(self).left_pins_connect,
                    self.right_pins_connect == old(self).right_pins_connect,
                    self.left_conquered == old(self).left_conquered,
                    self.right_conquered == old(self).right_conquered,
                    forall|x: int, y: int|
                        0 <= x < w && 0 <= y < j ==> fresh_tile(#[trigger] self.grid.cell(x, y)),
                    forall|x: int, y: int|
                        0 <= x < w && 0 <= y < j ==> #[trigger] self.mark((x, y))
                            == Marking::Unmarked,
                    forall|x: int| 0 <= x < i ==> fresh_tile(#[trigger] self.grid.cell(x, j as int)),
                    forall|x: int| 0 <= x < i ==> #[trigger] self.mark((x, j as int)) == Marking::Unmarked,
                    forall|k: int|
                        0 <= k < j ==> self.multiplier_left@[k] == 1 && self.multiplier_right@[k] == 1,
                    self.gen_state() == gen_run(s0, (j * w + i) as nat).1,
                    forall|x: int, y: int|
                        0 <= x < w && 0 <= y < j ==> #[trigger] self.grid.cell(x, y) == Some(
                            Tile { connections: gen_run(s0, (j * w + i) as nat).0[row_major(w, x, y)] },
                        ),
                    forall|x: int|
                        0 <= x < i ==> #[trigger] self.grid.cell(x, j as int) == Some(
                            Tile { connections: gen_run(s0, (j * w + i) as nat).0[j * w + x] },
                        ),
                decreases w - i,
            {
                proof {
                    assert(j * w + i + 1 <= w * h) by (nonlinear_arith)
                        requires
                            0 <= j < h,
                            0 <= i < w,
                    ;
                }
                let ghost before = *self;
                let ghost n = (j * w + i) as nat;
                proof {
                    lemma_gen_run_len(s0, n);
                    lemma_gen_run_len(s0, n + 1);
                    assert forall|x: int, y: int| 0 <= x < w && 0 <= y < j implies #[trigger] row_major(w, x, y) < n by {
                        lemma_row_major_before(x, y, w, j as int);
                    }
                }
                let conn = self.get_new_element();
                let t = Tile::new(conn);
                proof {
                    assert(conn & 0x0F == conn) by (bit_vector)
                        requires
                            1 <= conn <= 15,
                    ;
                }
                self.grid.set(i, j, Some(t));
                self.set_marking(i, j, Marking::Unmarked);
                proof {
                    assert(forall|x: int, y: int|
                        0 <= x < w && 0 <= y < j ==> #[trigger] self.mark((x, y)) == before.mark((x, y)));
                }
                i = i + 1;
            }
            proof {
                assert(j * w + w == (j + 1) * w) by (nonlinear_arith);
                assert forall|x: int, y: int|
                    0 <= x < w && 0 <= y < j + 1 implies #[trigger] self.grid.cell(x, y) == Some(
                    Tile { connections: gen_run(s0, ((j + 1) * w) as nat).0[row_major(w, x, y)] },
                ) by {
                    if y == j {
                        assert(self.grid.cell(x, j as int) == Some(
                            Tile { connections: gen_run(s0, (j * w + w) as nat).0[j * w + x] },
                        ));
                    }
                }
                assert forall|x: int, y: int|
                    0 <= x < w && 0 <= y < j + 1 implies #[trigger] self.mark((x, y))
                    == Marking::Unmarked && fresh_tile(self.grid.cell(x, y)) by {
                    if y == j {
                        assert(self.mark((x, j as int)) == Marking::Unmarked);
                        assert(fresh_tile(self.grid.cell(x, j as int)));
                    }
                }
            }
            let ghost before = *self;
            self.multiplier_left.set(j, 1);
            self.multiplier_right.set(j, 1);
            proof {
                assert(forall|c: Cell| #[trigger] self.mark(c) == before.mark(c));
                assert((j + 1) * w == j * w + w) by (nonlinear_arith);
            }
            j = j + 1;
        }
        proof {
            assert(j * w == w * h) by (nonlinear_arith)
                requires
                    j == h,
            ;
        }
    }

    /// Breadth-first flood fill from (cx, cy), entered from `incoming_dir`:
    /// every cell reachable from it along mutual connections ends up marked
    /// `marker`, and no other cell changes.
    fn expand_connections_bfs(
        &mut self,
        cx: usize,
        cy: usize,
        incoming_dir: Direction,
        marker: Marking,
    )
        requires
            old(self).wf(),
            old(self).grid.in_bounds(cx as int, cy as int),
            opens(old(self).grid.layout(), (cx as int, cy as int), incoming_dir.0),
            marker == Marking::Left || marker == Marking::Right || marker == Marking::Both,
            closed_under(old(self).grid.layout(), old(self).markings@, marker),
        ensures
            final(self).wf(),
            same_but_markings(*final(self), *old(self)),
            forall|c: Cell|
                old(self).grid.in_bounds(c.0, c.1) ==> #[trigger] final(self).mark(c) == if reach_from(old(self).grid.layout(),
                    (cx as int, cy as int),
                    c,
                ) {
                    marker
                } else {
                    old(self).mark(c)
                },
    {
        if marker == Marking::Unmarked || marker == Marking::Animating {
            return;
        }
        let ghost g = self.grid.layout();
        let ghost s: Cell = (cx as int, cy as int);
        let ghost start = *self;
        let mut queue: Vec<(usize, usize, Direction)> = Vec::new();
        queue.push((cx, cy, incoming_dir));
        let ghost mut parents: Seq<Cell> = seq![s];
        let mut head: usize = 0;
        proof {
            assert forall|a: Cell, b: Cell|
                #[trigger] adjacent(g, a, b) && self.mark(a) == marker implies self.mark(b) == marker
                || pending(g, queue@, head as int, b) by {
                assert(mark_of(g, start.markings@, a) == self.mark(a));
                assert(mark_of(g, start.markings@, b) == self.mark(b));
            }
        }
        while head < queue.len()
            invariant
                self.wf(),
                same_but_markings(*self, start),
                g == start.grid.layout(),
                start.wf(),
                marker == Marking::Left || marker == Marking::Right || marker == Marking::Both,
                closed_under(g, start.markings@, marker),
                0 <= head <= queue@.len(),
                parents.len() == queue@.len(),
                queue@.len() >= 1,
                queue@[0] == (cx, cy, incoming_dir),
                parents[0] == s,
                s == (cx as int, cy as int),
                g.in_bounds(s.0, s.1),
                opens(g, s, incoming_dir.0),
                forall|i: int|
                    1 <= i < queue@.len() ==> g.in_bounds(#[trigger] parents[i].0, parents[i].1)
                        && self.mark(parents[i]) == marker && (opens(
                        g,
                        (queue@[i].0 as int, queue@[i].1 as int),
                        queue@[i].2.0,
                    ) ==> adjacent(g, parents[i], (queue@[i].0 as int, queue@[i].1 as int))),
                forall|c: Cell|
                    g.in_bounds(c.0, c.1) ==> #[trigger] self.mark(c) == start.mark(c) || (
                    self.mark(c) == marker && reach_from(g, s, c)),
                forall|a: Cell, b: Cell|
                    #[trigger] adjacent(g, a, b) && self.mark(a) == marker ==> self.mark(b)
                        == marker || pending(g, queue@, head as int, b),
                head > 0 ==> self.mark(s) == marker,
            decreases 5 * count_other(self.markings@, marker) + queue@.len() - head,
        {
            let e = queue[head];
            let x = e.0;
            let y = e.1;
            let ctype = e.2;
            let ghost h0 = head as int;
            let ghost before = *self;
            let ghost q0 = queue@;
            let ghost b: Cell = (x as int, y as int);
            head = head + 1;
            let mut visit = false;
            if x < self.width && y < self.height {
                if self.get_marking(x, y) != marker {
                    match self.grid.get(x, y) {
                        Some(t) => {
                            visit = t.has_connection(ctype);
                        },
                        None => {},
                    }
                }
            }
            assert(visit == (g.in_bounds(b.0, b.1) && self.mark(b) != marker && opens(g, b, ctype.0)));
            if visit {
                let tile = match self.grid.get(x, y) {
                    Some(t) => *t,
                    None => Tile { connections: 0 },
                };
                proof {
                    if h0 == 0 {
                        lemma_reach_self(g, s);
                    } else {
                        let p = parents[h0];
                        assert(adjacent(g, p, b));
                        if start.mark(p) == marker {
                            assert(mark_of(g, start.markings@, p) == start.mark(p));
                            assert(mark_of(g, start.markings@, b) == start.mark(b));
                            assert(self.mark(b) == start.mark(b) || self.mark(b) == marker);
                        }
                        assert(reach_from(g, s, p));
                        lemma_reach_extend(g, s, p, b);
                    }
                    self.grid.lemma_index_in_range(b.0, b.1);
                    lemma_count_other_update(
                        self.markings@,
                        cell_index(self.height as int, b.0, b.1),
                        marker,
                    );
                }
                self.set_marking(x, y, marker);
                let ghost marked = *self;
                assert(forall|c: Cell| #[trigger] self.mark(c) == marked.mark(c));
                let ghost mut i_left: int = -1;
                let ghost mut i_up: int = -1;
                let ghost mut i_right: int = -1;
                let ghost mut i_down: int = -1;
                if tile.has_connection(Direction::left()) && x > 0 {
                    proof {
                        i_left = queue@.len() as int;
                    }
                    queue.push((x - 1, y, Direction::right()));
                    proof {
                        parents = parents.push(b);
                    }
                }
                if tile.has_connection(Direction::up()) && y > 0 {
                    proof {
                        i_up = queue@.len() as int;
                    }
                    queue.push((x, y - 1, Direction::down()));
                    proof {
                        parents = parents.push(b);
                    }
                }
                if tile.has_connection(Direction::right()) {
                    proof {
                        i_right = queue@.len() as int;
                    }
                    queue.push((x + 1, y, Direction::left()));
                    proof {
                        parents = parents.push(b);
                    }
                }
                if tile.has_connection(Direction::down()) {
                    proof {
                        i_down = queue@.len() as int;
                    }
                    queue.push((x, y + 1, Direction::up()));
                    proof {
                        parents = parents.push(b);
                    }
                }
                proof {
                    assert(queue@.len() <= q0.len() + 4);
                    assert forall|i: int| 0 <= i < q0.len() implies queue@[i] == q0[i] by {}
                    assert forall|i: int|
                        1 <= i < queue@.len() implies g.in_bounds(
                        #[trigger] parents[i].0,
                        parents[i].1,
                    ) && self.mark(parents[i]) == marker && (opens(
                        g,
                        (queue@[i].0 as int, queue@[i].1 as int),
                        queue@[i].2.0,
                    ) ==> adjacent(g, parents[i], (queue@[i].0 as int, queue@[i].1 as int))) by {
                        if i >= q0.len() {
                            assert(parents[i] == b);
                            let n: Cell = (queue@[i].0 as int, queue@[i].1 as int);
                            if opens(g, n, queue@[i].2.0) {
                                if i == i_left {
                                    assert(link(g, b, n, 4));
                                } else if i == i_up {
                                    assert(link(g, b, n, 2));
                                } else if i == i_right {
                                    assert(link(g, b, n, 1));
                                } else {
                                    assert(i == i_down);
                                    assert(link(g, b, n, 8));
                                }
                            }
                        }
                    }
                    assert forall|a: Cell, c: Cell|
                        #[trigger] adjacent(g, a, c) && self.mark(a) == marker implies self.mark(c)
                        == marker || pending(g, queue@, head as int, c) by {
                        if a == b {
                            if link(g, a, c, 4) {
                                assert(queue@[i_left].0 == x - 1 && queue@[i_left].1 == y && queue@[i_left].2.0 == 1);
                            } else if link(g, a, c, 2) {
                                assert(queue@[i_up].0 == x && queue@[i_up].1 == y - 1 && queue@[i_up].2.0 == 8);
                            } else if link(g, a, c, 1) {
                                assert(queue@[i_right].0 == x + 1 && queue@[i_right].1 == y && queue@[i_right].2.0 == 4);
                            } else {
                                assert(link(g, a, c, 8));
                                assert(queue@[i_down].0 == x && queue@[i_down].1 == y + 1 && queue@[i_down].2.0 == 2);
                            }
                        } else {
                            assert(before.mark(a) == marker);
                            if !(self.mark(c) == marker) {
                                assert(pending(g, q0, h0, c));
                                let i = choose|i: int|
                                    #![trigger q0[i]]
                                    h0 <= i < q0.len() && q0[i].0 == c.0 && q0[i].1 == c.1 && opens(
                                        g,
                                        c,
                                        q0[i].2.0,
                                    );
                                if i == h0 {
                                    assert(c == b);
                                }
                                assert(queue@[i] == q0[i]);
                            }
                        }
                    }
                }
            } else {
                proof {
                    assert forall|a: Cell, c: Cell|
                        #[trigger] adjacent(g, a, c) && self.mark(a) == marker implies self.mark(c)
                        == marker || pending(g, queue@, head as int, c) by {
                        if !(self.mark(c) == marker) {
                            assert(pending(g, q0, h0, c));
                            let i = choose|i: int|
                                #![trigger q0[i]]
                                h0 <= i < q0.len() && q0[i].0 == c.0 && q0[i].1 == c.1 && opens(
                                    g,
                                    c,
                                    q0[i].2.0,
                                );
                            if i == h0 {
                                assert(c == b);
                            }
                        }
                    }
                }
            }
        }
        proof {
            assert forall|a: Cell, b: Cell|
                #[trigger] adjacent(g, a, b) && mark_of(g, self.markings@, a) == marker implies mark_of(
                g,
                self.markings@,
                b,
            ) == marker by {
                assert(mark_of(g, self.markings@, a) == self.mark(a));
                assert(mark_of(g, self.markings@, b) == self.mark(b));
            }
            assert forall|c: Cell| g.in_bounds(c.0, c.1) implies #[trigger] self.mark(c) == if reach_from(
                g,
                s,
                c,
            ) {
                marker
            } else {
                start.mark(c)
            } by {
                if reach_from(g, s, c) {
                    assert(mark_of(g, self.markings@, s) == self.mark(s));
                    lemma_closed_covers(g, self.markings@, marker, s, c);
                    assert(mark_of(g, self.markings@, c) == self.mark(c));
                }
            }
        }
    }

    /// Check connections from both sides of the board.
    ///
    /// Every cell is re-marked by whether current reaches it from the left pins,
    /// the right pins, both or neither (cells held by an animation keep that
    /// marking when neither edge reaches them). Returns 1 if some left pin is
    /// joined to the right pins, 0 otherwise; also counts the joined pins on
    /// each side.
    pub fn check_connections(&mut self) -> (r: i32)
        requires
            old(self).wf(),
        ensures
            final(self).wf(),
            final(self).width == old(self).width,
            final(self).height == old(self).height,
            final(self).grid == old(self).grid,
            final(self).rng == old(self).rng,
            final(self).multiplier_left == old(self).multiplier_left,
            final(self).multiplier_right == old(self).multiplier_right,
            final(self).missing_links == old(self).missing_links,
            final(self).new_elements == old(self).new_elements,
            final(self).missing_link_elements == old(self).missing_link_elements,
            final(self).left_conquered == old(self).left_conquered,
            final(self).right_conquered == old(self).right_conquered,
            forall|c: Cell|
                old(self).grid.in_bounds(c.0, c.1) ==> #[trigger] final(self).mark(c)
                    == settled_marking(old(self).grid.layout(), old(self).mark(c), c),
            r == 0 || r == 1,
            r == 1 <==> zapped(old(self).grid.layout()),
            final(self).left_pins_connect == left_pins_upto(
                old(self).grid.layout(),
                old(self).height as int,
            ),
            final(self).right_pins_connect == right_pins_upto(
                old(self).grid.layout(),
                old(self).height as int,
            ),
            final(self).left_pins_connect <= old(self).height,
            final(self).right_pins_connect <= old(self).height,
    {
        let ghost g = self.grid.layout();
        let ghost start = *self;
        let w = self.width;
        let h = self.height;
        let mut result: i32 = 0;
        self.left_pins_connect = 0;
        self.right_pins_connect = 0;
        let ghost zeroed = *self;

        // Reset markings, keeping cells held by an animation.
        let mut j: usize = 0;
        while j < h
            invariant
                self.wf(),
                same_but_markings(*self, zeroed),
                zeroed.grid.layout() == g,
                w == g.width,
                h == g.height,
                0 <= j <= h,
                forall|c: Cell|
                    g.in_bounds(c.0, c.1) ==> #[trigger] self.mark(c) == if c.1 < j {
                        if start.mark(c) == Marking::Animating {
                            Marking::Animating
                        } else {
                            Marking::Unmarked
                        }
                    } else {
                        start.mark(c)
                    },
            decreases h - j,
        {
            let mut i: usize = 0;
            while i < w
                invariant
                    self.wf(),
                    same_but_markings(*self, zeroed),
                    zeroed.grid.layout() == g,
                    w == g.width,
                    h == g.height,
                    0 <= j < h,
                    0 <= i <= w,
                    forall|c: Cell|
                        g.in_bounds(c.0, c.1) ==> #[trigger] self.mark(c) == if c.1 < j || (c.1
                            == j && c.0 < i) {
                            if start.mark(c) == Marking::Animating {
                                Marking::Animating
                            } else {
                                Marking::Unmarked
                            }
                        } else {
                            start.mark(c)
                        },
                decreases w - i,
            {
                if self.get_marking(i, j) != Marking::Animating {
                    self.set_marking(i, j, Marking::Unmarked);
                }
                i = i + 1;
            }
            j = j + 1;
        }
        let ghost reset = *self;

        // Flood fill from every right pin.
        let mut j: usize = 0;
        while j < h
            invariant
                self.wf(),
                same_but_markings(*self, zeroed),
                zeroed.grid.layout() == g,
                w == g.width,
                h == g.height,
                w >= 1,
                0 <= j <= h,
                forall|c: Cell|
                    g.in_bounds(c.0, c.1) ==> reset.mark(c) == Marking::Animating || reset.mark(c)
                        == Marking::Unmarked,
                forall|c: Cell|
                    g.in_bounds(c.0, c.1) ==> #[trigger] self.mark(c) == if right_reach_upto(
                        g,
                        j as int,
                        c,
                    ) {
                        Marking::Right
                    } else {
                        reset.mark(c)
                    },
            decreases h - j,
        {
            let seed = match self.grid.get(w - 1, j) {
                Some(tile) => tile.has_connection(Direction::right()),
                None => false,
            };
            let ghost s: Cell = ((w - 1) as int, j as int);
            if seed {
                proof {
                    assert forall|a: Cell, b: Cell|
                        #[trigger] adjacent(g, a, b) && mark_of(g, self.markings@, a)
                            == Marking::Right implies mark_of(g, self.markings@, b)
                        == Marking::Right by {
                        lemma_adjacent_symmetric(g, a, b);
                        assert(mark_of(g, self.markings@, a) == self.mark(a));
                        assert(mark_of(g, self.markings@, b) == self.mark(b));
                        lemma_right_reach_closed(g, j as int, a, b);
                    }
                }
                let ghost before = *self;
                self.expand_connections_bfs(w - 1, j, Direction::right(), Marking::Right);
                proof {
                    assert forall|c: Cell| g.in_bounds(c.0, c.1) implies #[trigger] self.mark(c)
                        == if right_reach_upto(g, j + 1, c) {
                        Marking::Right
                    } else {
                        reset.mark(c)
                    } by {
                        assert(self.mark(c) == if reach_from(g, s, c) {
                            Marking::Right
                        } else {
                            before.mark(c)
                        });
                        if reach_from(g, s, c) {
                            assert(right_seed(g, s));
                        }
                        if right_reach_upto(g, j + 1, c) && !right_reach_upto(g, j as int, c) {
                            let s2 = choose|s2: Cell|
                                #[trigger] right_seed(g, s2) && s2.1 < j + 1 && reach_from(g, s2, c);
                            assert(s2 == s);
                        }
                    }
                }
            } else {
                proof {
                    assert forall|c: Cell| g.in_bounds(c.0, c.1) implies #[trigger] self.mark(c)
                        == if right_reach_upto(g, j + 1, c) {
                        Marking::Right
                    } else {
                        reset.mark(c)
                    } by {
                        if right_reach_upto(g, j + 1, c) && !right_reach_upto(g, j as int, c) {
                            let s2 = choose|s2: Cell|
                                #[trigger] right_seed(g, s2) && s2.1 < j + 1 && reach_from(g, s2, c);
                            assert(s2 == s);
                        }
                    }
                }
            }
            j = j + 1;
        }

        // Flood fill from every left pin; cells also reached from the right become Both.
        let mut j: usize = 0;
        while j < h
            invariant
                self.wf(),
                same_but_markings(*self, zeroed),
                zeroed.grid.layout() == g,
                w == g.width,
                h == g.height,
                w >= 1,
                0 <= j <= h,
                forall|c: Cell|
                    g.in_bounds(c.0, c.1) ==> reset.mark(c) == Marking::Animating || reset.mark(c)
                        == Marking::Unmarked,
                forall|c: Cell|
                    g.in_bounds(c.0, c.1) ==> #[trigger] self.mark(c) == if reaches_right(g, c)
                        && left_reach_upto(g, j as int, c) {
                        Marking::Both
                    } else if reaches_right(g, c) {
                        Marking::Right
                    } else if left_reach_upto(g, j as int, c) {
                        Marking::Left
                    } else {
                        reset.mark(c)
                    },
            decreases h - j,
        {
            let seed = match self.grid.get(0, j) {
                Some(tile) => tile.has_connection(Direction::left()),
                None => false,
            };
            let ghost s: Cell = (0, j as int);
            if seed {
                let m0 = self.get_marking(0, j);
                let marker = if m0 == Marking::Right || m0 == Marking::Both {
                    Marking::Both
                } else {
                    Marking::Left
                };
                proof {
                    assert forall|a: Cell, b: Cell|
                        #[trigger] adjacent(g, a, b) && mark_of(g, self.markings@, a)
                            == marker implies mark_of(g, self.markings@, b) == marker by {
                        lemma_adjacent_symmetric(g, a, b);
                        assert(mark_of(g, self.markings@, a) == self.mark(a));
                        assert(mark_of(g, self.markings@, b) == self.mark(b));
                        lemma_right_reach_closed(g, h as int, a, b);
                        lemma_left_reach_closed(g, j as int, a, b);
                    }
                }
                let ghost before = *self;
                self.expand_connections_bfs(0, j, Direction::left(), marker);
                proof {
                    assert(left_seed(g, s));
                    assert forall|c: Cell| g.in_bounds(c.0, c.1) implies #[trigger] self.mark(c)
                        == if reaches_right(g, c) && left_reach_upto(g, j + 1, c) {
                        Marking::Both
                    } else if reaches_right(g, c) {
                        Marking::Right
                    } else if left_reach_upto(g, j + 1, c) {
                        Marking::Left
                    } else {
                        reset.mark(c)
                    } by {
                        assert(self.mark(c) == if reach_from(g, s, c) {
                            marker
                        } else {
                            before.mark(c)
                        });
                        if left_reach_upto(g, j + 1, c) && !left_reach_upto(g, j as int, c) {
                            let s2 = choose|s2: Cell|
                                #[trigger] left_seed(g, s2) && s2.1 < j + 1 && reach_from(g, s2, c);
                            assert(s2 == s);
                        }
                        if reach_from(g, s, c) {
                            assert(left_reach_upto(g, j + 1, c));
                            if marker == Marking::Both {
                                assert(reaches_right(g, s));
                                let s3 = choose|s3: Cell|
                                    #[trigger] right_seed(g, s3) && s3.1 < h && reach_from(g, s3, s);
                                lemma_reach_trans(g, s3, s, c);
                                assert(reaches_right(g, c));
                            } else {
                                assert(!reaches_right(g, s));
                                if reaches_right(g, c) {
                                    let s3 = choose|s3: Cell|
                                        #[trigger] right_seed(g, s3) && s3.1 < h && reach_from(
                                            g,
                                            s3,
                                            c,
                                        );
                                    lemma_reach_symmetric(g, s, c);
                                    lemma_reach_trans(g, s3, c, s);
                                    assert(reaches_right(g, s));
                                }
                            }
                        }
                    }
                }
            } else {
                proof {
                    assert forall|c: Cell| g.in_bounds(c.0, c.1) implies #[trigger] self.mark(c)
                        == if reaches_right(g, c) && left_reach_upto(g, j + 1, c) {
                        Marking::Both
                    } else if reaches_right(g, c) {
                        Marking::Right
                    } else if left_reach_upto(g, j + 1, c) {
                        Marking::Left
                    } else {
                        reset.mark(c)
                    } by {
                        if left_reach_upto(g, j + 1, c) && !left_reach_upto(g, j as int, c) {
                            let s2 = choose|s2: Cell|
                                #[trigger] left_seed(g, s2) && s2.1 < j + 1 && reach_from(g, s2, c);
                            assert(s2 == s);
                        }
                    }
                }
            }
            j = j + 1;
        }
        proof {
            assert forall|c: Cell| g.in_bounds(c.0, c.1) implies #[trigger] self.mark(c)
                == settled_marking(g, start.mark(c), c) by {}
        }
        let ghost settled = *self;

        // Count the pins joined to the other side.
        let mut j: usize = 0;
        while j < h
            invariant
                self.wf(),
                self.markings == settled.markings,
                self.width == settled.width,
                self.height == settled.height,
                self.grid.layout() == g,
                self.grid == start.grid,
                self.rng == start.rng,
                self.multiplier_left == start.multiplier_left,
                self.multiplier_right == start.multiplier_right,
                self.missing_links == start.missing_links,
                self.new_elements == start.new_elements,
                self.missing_link_elements == start.missing_link_elements,
                self.left_conquered == start.left_conquered,
                self.right_conquered == start.right_conquered,
                w == g.width,
                h == g.height,
                w >= 1,
                0 <= j <= h,
                forall|c: Cell|
                    g.in_bounds(c.0, c.1) ==> #[trigger] settled.mark(c) == settled_marking(
                        g,
                        start.mark(c),
                        c,
                    ),
                self.left_pins_connect == left_pins_upto(g, j as int),
                self.right_pins_connect == right_pins_upto(g, j as int),
                self.left_pins_connect <= j,
                self.right_pins_connect <= j,
                result == 0 || result == 1,
                result == 1 <==> exists|k: int| 0 <= k < j && #[trigger] left_pin_zapped(g, k),
            decreases h - j,
        {
            let ghost lc: Cell = (0, j as int);
            let ghost rc: Cell = ((w - 1) as int, j as int);
            proof {
                assert(forall|c: Cell| #[trigger] self.mark(c) == settled.mark(c));
                if left_seed(g, lc) {
                    lemma_reach_self(g, lc);
                    assert(left_reach_upto(g, h as int, lc));
                }
                if right_seed(g, rc) {
                    lemma_reach_self(g, rc);
                    assert(right_reach_upto(g, h as int, rc));
                }
            }
            let left_open = match self.grid.get(0, j) {
                Some(tile) => tile.has_connection(Direction::left()),
                None => false,
            };
            if left_open && self.get_marking(0, j) == Marking::Both {
                result = 1;
                self.left_pins_connect = self.left_pins_connect + 1;
            }
            let right_open = match self.grid.get(w - 1, j) {
                Some(tile) => tile.has_connection(Direction::right()),
                None => false,
            };
            if right_open && self.get_marking(w - 1, j) == Marking::Both {
                self.right_pins_connect = self.right_pins_connect + 1;
            }
            proof {
                assert(left_pin_zapped(g, j as int) == (left_open && self.mark(lc) == Marking::Both));
                assert(right_pin_zapped(g, j as int) == (right_open && self.mark(rc)
                    == Marking::Both));
                assert(forall|c: Cell| #[trigger] self.mark(c) == settled.mark(c));
                if exists|k: int| 0 <= k < j + 1 && #[trigger] left_pin_zapped(g, k) {
                    let k = choose|k: int| 0 <= k < j + 1 && #[trigger] left_pin_zapped(g, k);
                    if k < j {
                        assert(exists|k: int| 0 <= k < j && #[trigger] left_pin_zapped(g, k));
                    }
                }
            }
            j = j + 1;
        }
        proof {
            assert(forall|c: Cell| #[trigger] self.mark(c) == settled.mark(c));
        }
        result
    }

    /// Remove the tiles marked Both and let the others fall (gravity): in each
    /// column the surviving tiles keep their order at the bottom and new
    /// tiles fill the top.
    pub fn remove_and_shift_connecting_tiles(&mut self)
        requires
            old(self).wf(),
            old(self).can_generate(old(self).width * old(self).height),
        ensures
            final(self).wf(),
            final(self).width == old(self).width,
            final(self).height == old(self).height,
            final(self).markings == old(self).markings,
            final(self).multiplier_left == old(self).multiplier_left,
            final(self).multiplier_right == old(self).multiplier_right,
            final(self).missing_links == old(self).missing_links,
            final(self).left_pins_connect == old(self).left_pins_connect,
            final(self).right_pins_connect == old(self).right_pins_connect,
            old(self).new_elements <= final(self).new_elements <= old(self).new_elements
                + old(self).width * old(self).height,
            forall|x: int, y: int|
                old(self).grid.in_bounds(x, y) && y >= old(self).height - survivors(*old(self), x).len()
                    ==> #[trigger] final(self).grid.cell(x, y) == Some(
                    survivors(*old(self), x)[y - (old(self).height - survivors(*old(self), x).len())],
                ),
            forall|x: int, y: int|
                old(self).grid.in_bounds(x, y) && y < old(self).height - survivors(*old(self), x).len()
                    ==> fresh_tile(#[trigger] final(self).grid.cell(x, y)),
            forall|x: int, y: int|
                old(self).grid.in_bounds(x, y) && y < old(self).height - survivors(*old(self), x).len()
                    ==> #[trigger] final(self).grid.cell(x, y) == Some(
                    Tile { connections: refill_values(*old(self), x)[y] },
                ),
            final(self).gen_state() == refill_before(*old(self), old(self).width as int),
    {
        let ghost start = *self;
        let w = self.width;
        let h = self.height;
        let mut x: usize = 0;
        while x < w
            invariant
                self.wf(),
                start.wf(),
                w == start.width,
                h == start.height,
                self.width == w,
                self.height == h,
                self.markings == start.markings,
                self.multiplier_left == start.multiplier_left,
                self.multiplier_right == start.multiplier_right,
                self.missing_links == start.missing_links,
                self.left_pins_connect == start.left_pins_connect,
                self.right_pins_connect == start.right_pins_connect,
                start.can_generate(w * h),
                0 <= x <= w,
                start.new_elements <= self.new_elements <= start.new_elements + x * h,
                forall|a: int, y: int|
                    x <= a < w && 0 <= y < h ==> #[trigger] self.grid.cell(a, y)
                        == start.grid.cell(a, y),
                forall|a: int, y: int|
                    0 <= a < x && 0 <= y < h && y >= h - survivors(start, a).len()
                        ==> #[trigger] self.grid.cell(a, y) == Some(
                        survivors(start, a)[y - (h - survivors(start, a).len())],
                    ),
                forall|a: int, y: int|
                    0 <= a < x && 0 <= y < h && y < h - survivors(start, a).len() ==> fresh_tile(
                        #[trigger] self.grid.cell(a, y),
                    ),
                forall|a: int, y: int|
                    0 <= a < x && 0 <= y < h && y < h - survivors(start, a).len()
                        ==> #[trigger] self.grid.cell(a, y) == Some(
                        Tile { connections: refill_values(start, a)[y] },
                    ),
                self.gen_state() == refill_before(start, x as int),
            decreases w - x,
        {
            let ghost col = *self;
            // Collect surviving tiles bottom-up.
            let mut kept: Vec<Tile> = Vec::new();
            let mut y: usize = h;
            while y > 0
                invariant
                    *self == col,
                    col.wf(),
                    self.markings == start.markings,
                    self.height == h,
                    self.width == w,
                    w == start.width,
                    h == start.height,
                    x < w,
                    0 <= y <= h,
                    forall|yy: int| 0 <= yy < h ==> #[trigger] self.grid.cell(x as int, yy) == start.grid.cell(x as int, yy),
                    kept@.len() == survivors_from(start, x as int, y as int).len(),
                    forall|i: int|
                        0 <= i < kept@.len() ==> #[trigger] kept@[i] == survivors_from(
                            start,
                            x as int,
                            y as int,
                        )[kept@.len() - 1 - i],
                decreases y,
            {
                y = y - 1;
                if self.get_marking(x, y) != Marking::Both {
                    match self.grid.get(x, y) {
                        Some(t) => {
                            kept.push(*t);
                        },
                        None => {},
                    }
                }
                proof {
                    assert(self.mark((x as int, y as int)) == start.mark((x as int, y as int)));
                    let sf = survivors_from(start, x as int, y as int);
                    let sf1 = survivors_from(start, x as int, y + 1);
                    if survives(start, x as int, y as int) {
                        assert(sf == seq![start.grid.cell(x as int, y as int).unwrap()] + sf1);
                        assert forall|i: int| 0 <= i < kept@.len() implies #[trigger] kept@[i]
                            == sf[kept@.len() - 1 - i] by {
                            if i < kept@.len() - 1 {
                                assert(sf[kept@.len() - 1 - i] == sf1[kept@.len() - 2 - i]);
                            }
                        }
                    }
                }
            }
            proof {
                lemma_survivors_len(start, x as int, 0);
            }
            let num_new = h - kept.len();
            let ghost sv = survivors(start, x as int);
            // Place the survivors at the bottom, bottom-most first.
            let mut i: usize = 0;
            while i < kept.len()
                invariant
                    self.wf(),
                    self.width == w,
                    self.height == h,
                    self.markings == start.markings,
                    self.multiplier_left == start.multiplier_left,
                    self.multiplier_right == start.multiplier_right,
                    self.missing_links == start.missing_links,
                    self.left_pins_connect == start.left_pins_connect,
                    self.right_pins_connect == start.right_pins_connect,
                    self.new_elements == col.new_elements,
                    self.missing_link_elements == col.missing_link_elements,
                    self.rng == col.rng,
                    x < w,
                    kept@.len() == sv.len(),
                    sv.len() <= h,
                    num_new == h - sv.len(),
                    forall|j: int| 0 <= j < kept@.len() ==> #[trigger] kept@[j] == sv[kept@.len() - 1 - j],
                    0 <= i <= kept@.len(),
                    forall|a: int, yy: int|
                        0 <= a < w && 0 <= yy < h && a != x ==> #[trigger] self.grid.cell(a, yy)
                            == col.grid.cell(a, yy),
                    forall|yy: int|
                        h - i <= yy < h ==> #[trigger] self.grid.cell(x as int, yy) == Some(
                            sv[yy - num_new],
                        ),
                decreases kept@.len() - i,
            {
                let yy = h - 1 - i;
                self.grid.set(x, yy, Some(kept[i]));
                i = i + 1;
            }
            // Fill the top with new tiles.
            let mut y: usize = 0;
            while y < num_new
                invariant
                    self.wf(),
                    self.width == w,
                    self.height == h,
                    self.markings == start.markings,
                    self.multiplier_left == start.multiplier_left,
                    self.multiplier_right == start.multiplier_right,
                    self.missing_links == start.missing_links,
                    self.left_pins_connect == start.left_pins_connect,
                    self.right_pins_connect == start.right_pins_connect,
                    start.can_generate(w * h),
                    x < w,
                    sv.len() <= h,
                    num_new == h - sv.len(),
                    0 <= y <= num_new,
                    self.new_elements == col.new_elements + y,
                    col.new_elements <= start.new_elements + x * h,
                    forall|a: int, yy: int|
                        0 <= a < w && 0 <= yy < h && a != x ==> #[trigger] self.grid.cell(a, yy)
                            == col.grid.cell(a, yy),
                    forall|yy: int|
                        num_new <= yy < h ==> #[trigger] self.grid.cell(x as int, yy) == Some(
                            sv[yy - num_new],
                        ),
                    forall|yy: int| 0 <= yy < y ==> fresh_tile(#[trigger] self.grid.cell(x as int, yy)),
                    self.gen_state() == gen_run(col.gen_state(), y as nat).1,
                    col.gen_state() == refill_before(start, x as int),
                    forall|yy: int|
                        0 <= yy < y ==> #[trigger] self.grid.cell(x as int, yy) == Some(
                            Tile { connections: gen_run(col.gen_state(), y as nat).0[yy] },
                        ),
                decreases num_new - y,
            {
                proof {
                    lemma_gen_run_len(col.gen_state(), y as nat);
                    lemma_gen_run_len(col.gen_state(), (y + 1) as nat);
                }
                proof {
                    assert(x * h + y + 1 <= w * h) by (nonlinear_arith)
                        requires
                            0 <= x < w,
                            0 <= y < h,
                    ;
                }
                let conn = self.get_new_element();
                proof {
                    assert(conn & 0x0F == conn) by (bit_vector)
                        requires
                            1 <= conn <= 15,
                    ;
                }
                self.grid.set(x, y, Some(Tile::new(conn)));
                y = y + 1;
            }
            proof {
                assert((x + 1) * h == x * h + h) by (nonlinear_arith);
            }
            x = x + 1;
        }
    }

    /// Clear the rectangle of `delta_x` columns and `delta_y` rows on each side
    /// of (ati, atj), clamped to the board, and let the tiles above fall into
    /// it; new tiles fill the top of each affected column. A centre off the
    /// board changes nothing.
    pub fn bomb_table(&mut self, ati: usize, atj: usize, delta_x: usize, delta_y: usize)
        requires
            old(self).wf(),
            old(self).can_generate(2 * old(self).width * old(self).height),
        ensures
            final(self).wf(),
            final(self).width == old(self).width,
            final(self).height == old(self).height,
            final(self).markings == old(self).markings,
            final(self).multiplier_left == old(self).multiplier_left,
            final(self).multiplier_right == old(self).multiplier_right,
            final(self).missing_links == old(self).missing_links,
            final(self).left_pins_connect == old(self).left_pins_connect,
            final(self).right_pins_connect == old(self).right_pins_connect,
            old(self).new_elements <= final(self).new_elements <= old(self).new_elements + 2
                * old(self).width * old(self).height,
            ati >= old(self).width || atj >= old(self).height ==> *final(self) == *old(self),
            ati < old(self).width && atj < old(self).height ==> {
                let lo_x = span_lo(ati as int, delta_x as int);
                let hi_x = span_hi(ati as int, delta_x as int, old(self).width as int);
                let lo_y = span_lo(atj as int, delta_y as int);
                let hi_y = span_hi(atj as int, delta_y as int, old(self).height as int);
                let n = hi_y - lo_y;
                &&& forall|x: int, y: int|
                    #![trigger final(self).grid.cell(x, y)]
                    old(self).grid.in_bounds(x, y) ==> {
                        if lo_x <= x < hi_x && y < n {
                            fresh_tile(final(self).grid.cell(x, y))
                        } else if lo_x <= x < hi_x && y < hi_y {
                            final(self).grid.cell(x, y) == old(self).grid.cell(x, y - n)
                        } else {
                            final(self).grid.cell(x, y) == old(self).grid.cell(x, y)
                        }
                    }
                &&& forall|x: int, y: int|
                    lo_x <= x < hi_x && 0 <= y < n ==> #[trigger] final(self).grid.cell(x, y) == Some(
                        Tile { connections: blast_values(*old(self), lo_x, n as nat, x)[n - 1 - y] },
                    )
                &&& final(self).gen_state() == blast_before(*old(self), lo_x, n as nat, hi_x)
            },
    {
        if ati >= self.width || atj >= self.height {
            return;
        }
        let ghost start = *self;
        let w = self.width;
        let h = self.height;
        let start_i: usize = if ati >= delta_x { ati - delta_x } else { 0 };
        let end_i: usize = if delta_x < w - ati { ati + delta_x + 1 } else { w };
        let start_j: usize = if atj >= delta_y { atj - delta_y } else { 0 };
        let end_j: usize = if delta_y < h - atj { atj + delta_y + 1 } else { h };
        let ghost n = end_j - start_j;
        let mut x: usize = start_i;
        while x < end_i
            invariant
                self.wf(),
                start.wf(),
                w == start.width,
                h == start.height,
                self.width == w,
                self.height == h,
                self.markings == start.markings,
                self.multiplier_left == start.multiplier_left,
                self.multiplier_right == start.multiplier_right,
                self.missing_links == start.missing_links,
                self.left_pins_connect == start.left_pins_connect,
                self.right_pins_connect == start.right_pins_connect,
                start.can_generate(2 * w * h),
                start_i == span_lo(ati as int, delta_x as int),
                end_i == span_hi(ati as int, delta_x as int, w as int),
                start_j == span_lo(atj as int, delta_y as int),
                end_j == span_hi(atj as int, delta_y as int, h as int),
                n == end_j - start_j,
                start_i <= x <= end_i,
                end_i <= w,
                start_j < end_j <= h,
                start.new_elements <= self.new_elements <= start.new_elements + 2 * (x - start_i) * h,
                forall|a: int, y: int|
                    0 <= a < w && 0 <= y < h && !(start_i <= a < x) ==> #[trigger] self.grid.cell(a, y)
                        == start.grid.cell(a, y),
                forall|a: int, y: int|
                    #![trigger self.grid.cell(a, y)]
                    start_i <= a < x && 0 <= y < h ==> {
                        if y < n {
                            fresh_tile(self.grid.cell(a, y))
                        } else if y < end_j {
                            self.grid.cell(a, y) == start.grid.cell(a, y - n)
                        } else {
                            self.grid.cell(a, y) == start.grid.cell(a, y)
                        }
                    },
                forall|a: int, y: int|
                    start_i <= a < x && 0 <= y < n ==> #[trigger] self.grid.cell(a, y) == Some(
                        Tile { connections: blast_values(start, start_i as int, n as nat, a)[n - 1 - y] },
                    ),
                self.gen_state() == blast_before(start, start_i as int, n as nat, x as int),
            decreases end_i - x,
        {
            let ghost col = *self;
            let mut shifted: usize = 0;
            let mut y: usize = end_j;
            while y > start_j
                invariant
                    self.wf(),
                    self.width == w,
                    self.height == h,
                    self.markings == start.markings,
                    self.multiplier_left == start.multiplier_left,
                    self.multiplier_right == start.multiplier_right,
                    self.missing_links == start.missing_links,
                    self.left_pins_connect == start.left_pins_connect,
                    self.right_pins_connect == start.right_pins_connect,
                    start.can_generate(2 * w * h),
                    x < w,
                    start_j <= y <= end_j,
                    end_j <= h,
                    y + shifted == end_j,
                    self.new_elements == col.new_elements + shifted,
                    col.new_elements <= start.new_elements + 2 * (x - start_i) * h,
                    start_i <= x,
                    x - start_i < w,
                    forall|a: int, yy: int|
                        0 <= a < w && 0 <= yy < h && a != x ==> #[trigger] self.grid.cell(a, yy)
                            == col.grid.cell(a, yy),
                    forall|k: int|
                        shifted <= k < end_j ==> #[trigger] self.grid.cell(x as int, k)
                            == col.grid.cell(x as int, k - shifted),
                    forall|k: int|
                        end_j <= k < h ==> #[trigger] self.grid.cell(x as int, k) == col.grid.cell(
                            x as int,
                            k,
                        ),
                    self.gen_state() == gen_run(col.gen_state(), shifted as nat).1,
                    self.missing_links == col.missing_links,
                decreases y,
            {
                y = y - 1;
                if y >= 1 {
                    let ghost pass = *self;
                    let mut sy: usize = y;
                    while sy > 0
                        invariant
                            self.wf(),
                            self.width == w,
                            self.height == h,
                            self.markings == pass.markings,
                            self.multiplier_left == pass.multiplier_left,
                            self.multiplier_right == pass.multiplier_right,
                            self.missing_links == pass.missing_links,
                            self.left_pins_connect == pass.left_pins_connect,
                            self.right_pins_connect == pass.right_pins_connect,
                            self.new_elements == pass.new_elements,
                            self.missing_link_elements == pass.missing_link_elements,
                            self.rng == pass.rng,
                            x < w,
                            0 <= sy <= y,
                            y + shifted + 1 == end_j,
                            end_j <= h,
                            forall|a: int, yy: int|
                                0 <= a < w && 0 <= yy < h && a != x ==> #[trigger] self.grid.cell(
                                    a,
                                    yy,
                                ) == pass.grid.cell(a, yy),
                            forall|k: int|
                                sy + shifted < k < end_j ==> #[trigger] self.grid.cell(x as int, k)
                                    == pass.grid.cell(x as int, k - 1),
                            forall|k: int|
                                0 <= k <= sy + shifted ==> #[trigger] self.grid.cell(x as int, k)
                                    == pass.grid.cell(x as int, k),
                            forall|k: int|
                                end_j <= k < h ==> #[trigger] self.grid.cell(x as int, k)
                                    == pass.grid.cell(x as int, k),
                        decreases sy,
                    {
                        self.grid.copy_within_column(x, sy + shifted - 1, sy + shifted);
                        sy = sy - 1;
                    }
                }
                proof {
                    assert(x * h + h <= w * h) by (nonlinear_arith)
                        requires
                            0 <= x < w,
                    ;
                    assert(2 * (x - start_i) * h + shifted + 1 <= 2 * w * h) by (nonlinear_arith)
                        requires
                            0 <= x - start_i < w,
                            shifted < h,
                    ;
                }
                let conn = self.get_new_element();
                proof {
                    assert(conn & 0x0F == conn) by (bit_vector)
                        requires
                            1 <= conn <= 15,
                    ;
                }
                self.grid.set(x, 0, Some(Tile::new(conn)));
                shifted = shifted + 1;
            }
            let ghost mid = self.gen_state();
            let mut f: usize = shifted;
            while f > 0
                invariant
                    self.wf(),
                    self.width == w,
                    self.height == h,
                    self.markings == start.markings,
                    self.multiplier_left == start.multiplier_left,
                    self.multiplier_right == start.multiplier_right,
                    self.missing_links == start.missing_links,
                    self.left_pins_connect == start.left_pins_connect,
                    self.right_pins_connect == start.right_pins_connect,
                    start.can_generate(2 * w * h),
                    x < w,
                    start_i <= x,
                    x - start_i < w,
                    shifted == n,
                    n <= h,
                    end_j <= h,
                    n == end_j - start_j,
                    0 <= f <= shifted,
                    self.new_elements == col.new_elements + n + (n - f),
                    col.new_elements <= start.new_elements + 2 * (x - start_i) * h,
                    forall|a: int, yy: int|
                        0 <= a < w && 0 <= yy < h && a != x ==> #[trigger] self.grid.cell(a, yy)
                            == col.grid.cell(a, yy),
                    forall|k: int|
                        shifted <= k < end_j ==> #[trigger] self.grid.cell(x as int, k)
                            == col.grid.cell(x as int, k - shifted),
                    forall|k: int|
                        end_j <= k < h ==> #[trigger] self.grid.cell(x as int, k) == col.grid.cell(
                            x as int,
                            k,
                        ),
                    forall|k: int| f <= k < n ==> fresh_tile(#[trigger] self.grid.cell(x as int, k)),
                    mid == gen_run(col.gen_state(), n as nat).1,
                    self.gen_state() == gen_run(mid, (n - f) as nat).1,
                    forall|k: int|
                        f <= k < n ==> #[trigger] self.grid.cell(x as int, k) == Some(
                            Tile { connections: gen_run(mid, (n - f) as nat).0[n - 1 - k] },
                        ),
                decreases f,
            {
                proof {
                    lemma_gen_run_len(mid, (n - f) as nat);
                    lemma_gen_run_len(mid, (n - f + 1) as nat);
                }
                f = f - 1;
                proof {
                    assert(2 * (x - start_i) * h + 2 * n <= 2 * w * h) by (nonlinear_arith)
                        requires
                            0 <= x - start_i < w,
                            n <= h,
                    ;
                }
                let conn = self.get_new_element();
                proof {
                    assert(conn & 0x0F == conn) by (bit_vector)
                        requires
                            1 <= conn <= 15,
                    ;
                }
                self.grid.set(x, f, Some(Tile::new(conn)));
            }
            proof {
                assert(2 * (x - start_i) * h + 2 * n <= 2 * (x + 1 - start_i) * h) by (nonlinear_arith)
                    requires
                        n <= h,
                        x >= start_i,
                ;
            }
            x = x + 1;
        }
        proof {
            assert(2 * (x - start_i) * h <= 2 * w * h) by (nonlinear_arith)
                requires
                    0 <= x - start_i <= w,
                    0 <= h,
            ;
        }
    }
}

} // verus!
