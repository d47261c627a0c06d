use vstd::prelude::*;
use crate::components::{coin_points, drop_freq_of, BonusType, PowerUpType};
use crate::rng::{draw, xorshift, Rng};

verus! {

/// What a falling bonus is.
#[derive(Debug, Clone, Copy, PartialEq, Eq, Structural)]
pub enum FallingBonusKind {
    Coin(BonusType),
    PowerUp(PowerUpType),
}

/// Points a bonus is worth when collected (power-ups score nothing).
pub open spec fn bonus_points(k: FallingBonusKind) -> i32 {
    match k {
        FallingBonusKind::Coin(c) => coin_points(c),
        FallingBonusKind::PowerUp(_) => 0,
    }
}

impl FallingBonusKind {
    pub fn points(self) -> (r: i32)
        ensures
            r == bonus_points(self),
    {
        match self {
            FallingBonusKind::Coin(c) => c.points(),
            FallingBonusKind::PowerUp(_) => 0,
        }
    }
}

/// A bonus placed on a board cell.
#[derive(Debug, Clone, Copy, PartialEq, Eq, Structural)]
pub struct BonusDrop {
    pub tile_x: usize,
    pub tile_y: usize,
    pub kind: FallingBonusKind,
}

/// The extra (one-point, two-point, five-point) coins that one side's pin count earns.
pub open spec fn side_drops(pins: int) -> (int, int, int) {
    if pins > 6 {
        (1, 3, pins - 6)
    } else if pins > 3 {
        (1, pins - 3, 0)
    } else {
        (0, 0, 0)
    }
}

/// Calculate bonus coin drops based on pin connections.
/// Returns (one-point coins, two-point coins, five-point coins): two base
/// coins plus what each side's pins earn.
pub fn calculate_bonus_drops(left_pins: usize, right_pins: usize) -> (r: (usize, usize, usize))
    requires
        left_pins <= usize::MAX / 4,
        right_pins <= usize::MAX / 4,
    ensures
        r.0 == 2 + side_drops(left_pins as int).0 + side_drops(right_pins as int).0,
        r.1 == side_drops(left_pins as int).1 + side_drops(right_pins as int).1,
        r.2 == side_drops(left_pins as int).2 + side_drops(right_pins as int).2,
{
    let mut many1s: usize = 2;
    let mut many2s: usize = 0;
    let mut many5s: usize = 0;

    if left_pins > 6 {
        many1s = many1s + 1;
        many2s = many2s + 3;
        many5s = many5s + (left_pins - 6);
    } else if left_pins > 3 {
        many1s = many1s + 1;
        many2s = many2s + (left_pins - 3);
    }

    if right_pins > 6 {
        many1s = many1s + 1;
        many2s = many2s + 3;
        many5s = many5s + (right_pins - 6);
    } else if right_pins > 3 {
        many1s = many1s + 1;
        many2s = many2s + (right_pins - 3);
    }

    (many1s, many2s, many5s)
}

/// Most extra draws spent looking for a free cell before a bonus may share one.
pub const PLACEMENT_ATTEMPTS: usize = 50;

/// Whether some drop already sits on (x, y).
pub open spec fn occupied(drops: Seq<BonusDrop>, x: int, y: int) -> bool {
    exists|i: int| 0 <= i < drops.len() && drops[i].tile_x == x && drops[i].tile_y == y
}

/// Where the next bonus lands and the generator state after: a cell is
/// drawn (column, then row) and drawn again while it is taken, at most
/// `PLACEMENT_ATTEMPTS` more times.
pub open spec fn landing(d: Seq<BonusDrop>, s: u64, w: u32, h: u32, attempts: int) -> (usize, usize, u64)
    decreases PLACEMENT_ATTEMPTS + 1 - attempts,
{
    let rx = draw(s, w) as usize;
    let s1 = xorshift(s);
    let ry = draw(s1, h) as usize;
    let s2 = xorshift(s1);
    if occupied(d, rx as int, ry as int) && 0 <= attempts <= PLACEMENT_ATTEMPTS {
        landing(d, s2, w, h, attempts + 1)
    } else {
        (rx, ry, s2)
    }
}

/// `d` with one more bonus of the given kind placed, and the generator state after.
pub open spec fn placed(d: Seq<BonusDrop>, s: u64, w: u32, h: u32, kind: FallingBonusKind) -> (
    Seq<BonusDrop>,
    u64,
) {
    let (x, y, s2) = landing(d, s, w, h, 0);
    (d.push(BonusDrop { tile_x: x, tile_y: y, kind }), s2)
}

/// The kind of the `i`-th coin of a drop.
pub open spec fn coin_kind(i: int, many1: int, many2: int) -> FallingBonusKind {
    if i < many1 {
        FallingBonusKind::Coin(BonusType::Coin1)
    } else if i < many1 + many2 {
        FallingBonusKind::Coin(BonusType::Coin2)
    } else {
        FallingBonusKind::Coin(BonusType::Coin5)
    }
}

/// The first `n` coins of a drop placed from generator state `s`.
pub open spec fn placed_coins(s: u64, w: u32, h: u32, many1: int, many2: int, n: nat) -> (
    Seq<BonusDrop>,
    u64,
)
    decreases n,
{
    if n == 0 {
        (Seq::empty(), s)
    } else {
        let (d, s1) = placed_coins(s, w, h, many1, many2, (n - 1) as nat);
        placed(d, s1, w, h, coin_kind(n - 1, many1, many2))
    }
}

/// The power-up types in the order their chances are drawn.
pub open spec fn power_at(p: int) -> PowerUpType {
    if p == 0 {
        PowerUpType::Bomb
    } else if p == 1 {
        PowerUpType::Cross
    } else {
        PowerUpType::Arrow
    }
}

/// `d` after the chance draws of the first `p` power-up types, each placed
/// when its draw comes up zero.
pub open spec fn placed_powers(d: Seq<BonusDrop>, s: u64, w: u32, h: u32, p: nat) -> (
    Seq<BonusDrop>,
    u64,
)
    decreases p,
{
    if p == 0 {
        (d, s)
    } else {
        let (d1, s1) = placed_powers(d, s, w, h, (p - 1) as nat);
        let t = power_at(p - 1);
        if draw(s1, drop_freq_of(t)) == 0 {
            placed(d1, xorshift(s1), w, h, FallingBonusKind::PowerUp(t))
        } else {
            (d1, xorshift(s1))
        }
    }
}

/// Whether some drop already sits on (x, y).
fn is_occupied(drops: &Vec<BonusDrop>, x: usize, y: usize) -> (r: bool)
    ensures
        r == occupied(drops@, x as int, y as int),
{
    let mut i: usize = 0;
    while i < drops.len()
        invariant
            0 <= i <= drops@.len(),
            forall|k: int| 0 <= k < i ==> !(drops@[k].tile_x == x && drops@[k].tile_y == y),
        decreases drops@.len() - i,
    {
        if drops[i].tile_x == x && drops[i].tile_y == y {
            return true;
        }
        i = i + 1;
    }
    false
}

/// Picks a cell for one more bonus: random cells are drawn until a free one
/// comes up or the attempts run out.
fn place(rng: &mut Rng, width: usize, height: usize, drops: &mut Vec<BonusDrop>, kind: FallingBonusKind)
    requires
        1 <= width <= u32::MAX,
        1 <= height <= u32::MAX,
    ensures
        final(drops)@.len() == old(drops)@.len() + 1,
        forall|i: int| 0 <= i < old(drops)@.len() ==> #[trigger] final(drops)@[i] == old(drops)@[i],
        final(drops)@[old(drops)@.len() as int].kind == kind,
        final(drops)@[old(drops)@.len() as int].tile_x < width,
        final(drops)@[old(drops)@.len() as int].tile_y < height,
        (final(drops)@, final(rng)@) == placed(old(drops)@, old(rng)@, width as u32, height as u32, kind),
{
    let ghost d = drops@;
    let ghost mut cur = rng@;
    let mut rx = rng.next_int(width as u32) as usize;
    let mut ry = rng.next_int(height as u32) as usize;
    let mut attempts: usize = 0;
    while is_occupied(drops, rx, ry) && attempts <= PLACEMENT_ATTEMPTS
        invariant
            1 <= width <= u32::MAX,
            1 <= height <= u32::MAX,
            attempts <= PLACEMENT_ATTEMPTS + 1,
            rx < width,
            ry < height,
            drops@ == d,
            rx == draw(cur, width as u32) as usize,
            ry == draw(xorshift(cur), height as u32) as usize,
            rng@ == xorshift(xorshift(cur)),
            landing(d, old(rng)@, width as u32, height as u32, 0) == landing(
                d,
                cur,
                width as u32,
                height as u32,
                attempts as int,
            ),
        decreases PLACEMENT_ATTEMPTS + 1 - attempts,
    {
        attempts = attempts + 1;
        proof {
            cur = rng@;
        }
        rx = rng.next_int(width as u32) as usize;
        ry = rng.next_int(height as u32) as usize;
    }
    drops.push(BonusDrop { tile_x: rx, tile_y: ry, kind });
}

/// Places the bonuses of one zap: `many1` one-point coins, `many2` two-point
/// coins and `many5` five-point coins in that order, then each power-up type
/// (bomb, cross, arrow) that its chance draw lets drop. Cells are drawn at
/// random, avoiding occupied ones where a few draws allow it.
pub fn pick_bonus_cells(
    rng: &mut Rng,
    width: usize,
    height: usize,
    many1: usize,
    many2: usize,
    many5: usize,
) -> (r: Vec<BonusDrop>)
    requires
        1 <= width <= u32::MAX,
        1 <= height <= u32::MAX,
        many1 + many2 + many5 <= usize::MAX - 3,
    ensures
        many1 + many2 + many5 <= r@.len() <= many1 + many2 + many5 + 3,
        forall|i: int| 0 <= i < r@.len() ==> r@[i].tile_x < width && r@[i].tile_y < height,
        forall|i: int| 0 <= i < many1 ==> r@[i].kind == FallingBonusKind::Coin(BonusType::Coin1),
        forall|i: int|
            many1 <= i < many1 + many2 ==> r@[i].kind == FallingBonusKind::Coin(BonusType::Coin2),
        forall|i: int|
            many1 + many2 <= i < many1 + many2 + many5 ==> r@[i].kind == FallingBonusKind::Coin(
                BonusType::Coin5,
            ),
        forall|i: int|
            many1 + many2 + many5 <= i < r@.len() ==> (#[trigger] r@[i]).kind is PowerUp,
        ({
            let coins = placed_coins(
                old(rng)@,
                width as u32,
                height as u32,
                many1 as int,
                many2 as int,
                (many1 + many2 + many5) as nat,
            );
            (r@, final(rng)@) == placed_powers(coins.0, coins.1, width as u32, height as u32, 3)
        }),
{
    let ghost s0 = rng@;
    let mut drops: Vec<BonusDrop> = Vec::new();
    let total: usize = many1 + many2 + many5;
    let mut n: usize = 0;
    while n < total
        invariant
            1 <= width <= u32::MAX,
            1 <= height <= u32::MAX,
            total == many1 + many2 + many5,
            0 <= n <= total,
            drops@.len() == n,
            forall|i: int| 0 <= i < n ==> drops@[i].tile_x < width && drops@[i].tile_y < height,
            forall|i: int|
                0 <= i < n && i < many1 ==> drops@[i].kind == FallingBonusKind::Coin(BonusType::Coin1),
            forall|i: int|
                0 <= i < n && many1 <= i < many1 + many2 ==> drops@[i].kind == FallingBonusKind::Coin(
                    BonusType::Coin2,
                ),
            forall|i: int|
                0 <= i < n && many1 + many2 <= i ==> drops@[i].kind == FallingBonusKind::Coin(
                    BonusType::Coin5,
                ),
            (drops@, rng@) == placed_coins(s0, width as u32, height as u32, many1 as int, many2 as int, n as nat),
        decreases total - n,
    {
        let kind = if n < many1 {
            FallingBonusKind::Coin(BonusType::Coin1)
        } else if n < many1 + many2 {
            FallingBonusKind::Coin(BonusType::Coin2)
        } else {
            FallingBonusKind::Coin(BonusType::Coin5)
        };
        place(rng, width, height, &mut drops, kind);
        n = n + 1;
    }
    let powers = [PowerUpType::Bomb, PowerUpType::Cross, PowerUpType::Arrow];
    let mut p: usize = 0;
    while p < 3
        invariant
            1 <= width <= u32::MAX,
            1 <= height <= u32::MAX,
            total == many1 + many2 + many5,
            total <= drops@.len() <= total + p,
            0 <= p <= 3,
            powers@ == seq![PowerUpType::Bomb, PowerUpType::Cross, PowerUpType::Arrow],
            forall|i: int|
                0 <= i < drops@.len() ==> drops@[i].tile_x < width && drops@[i].tile_y < height,
            forall|i: int|
                0 <= i < many1 ==> drops@[i].kind == FallingBonusKind::Coin(BonusType::Coin1),
            forall|i: int|
                many1 <= i < many1 + many2 ==> drops@[i].kind == FallingBonusKind::Coin(
                    BonusType::Coin2,
                ),
            forall|i: int|
                many1 + many2 <= i < total ==> drops@[i].kind == FallingBonusKind::Coin(
                    BonusType::Coin5,
                ),
            forall|i: int|
                total <= i < drops@.len() ==> (#[trigger] drops@[i]).kind is PowerUp,
            ({
                let coins = placed_coins(
                    s0,
                    width as u32,
                    height as u32,
                    many1 as int,
                    many2 as int,
                    total as nat,
                );
                (drops@, rng@) == placed_powers(coins.0, coins.1, width as u32, height as u32, p as nat)
            }),
        decreases 3 - p,
    {
        let ptype = powers[p];
        if rng.next_int(ptype.drop_freq()) == 0 {
            place(rng, width, height, &mut drops, FallingBonusKind::PowerUp(ptype));
        }
        p = p + 1;
    }
    drops
}

} // verus!
