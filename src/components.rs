use vstd::prelude::*;

verus! {

/// Direction flags for tile connections: right = 1, up = 2, left = 4, down = 8.
#[derive(Debug, Clone, Copy, PartialEq, Eq, Structural)]
pub struct Direction(pub u8);

/// The direction facing the other way (0 for anything that is not a single direction).
pub open spec fn opposite_bit(d: u8) -> u8 {
    if d == 1 {
        4
    } else if d == 4 {
        1
    } else if d == 2 {
        8
    } else if d == 8 {
        2
    } else {
        0
    }
}

impl Direction {
    pub fn right() -> (r: Direction)
        ensures
            r.0 == 1,
    {
        Direction(1)
    }

    pub fn up() -> (r: Direction)
        ensures
            r.0 == 2,
    {
        Direction(2)
    }

    pub fn left() -> (r: Direction)
        ensures
            r.0 == 4,
    {
        Direction(4)
    }

    pub fn down() -> (r: Direction)
        ensures
            r.0 == 8,
    {
        Direction(8)
    }

    /// The opposite direction (for checking mutual connections).
    pub fn opposite(self) -> (r: Direction)
        ensures
            r.0 == opposite_bit(self.0),
    {
        if self.0 == 1 {
            Direction(4)
        } else if self.0 == 4 {
            Direction(1)
        } else if self.0 == 2 {
            Direction(8)
        } else if self.0 == 8 {
            Direction(2)
        } else {
            Direction(0)
        }
    }
}

/// Marking state for each cell during connection checking.
#[derive(Debug, Clone, Copy, PartialEq, Eq, Structural)]
pub enum Marking {
    /// Reachable from the left edge only.
    Left,
    /// Reachable from the right edge only.
    Right,
    /// Reachable from both edges.
    Both,
    /// Reachable from neither edge.
    Unmarked,
    /// Held by an animation; kept across a connectivity check.
    Animating,
}

/// Game mode selection.
#[derive(Debug, Clone, Copy, PartialEq, Eq, Structural)]
pub enum GameMode {
    /// Single player, combined score, endless.
    Zen,
    /// Player against the bot, separate scores, first to the winning score.
    VsBot,
}

/// Default board dimensions.
pub const DEFAULT_WIDTH: usize = 12;
pub const DEFAULT_HEIGHT: usize = 10;
/// Default target percentage of dead-end tiles.
pub const DEFAULT_MISSING_LINKS: usize = 3;

/// Sound events that the simulation emits for the host to play.
#[derive(Debug, Clone, Copy, PartialEq, Eq, Structural)]
pub enum SoundEvent {
    Rotate,
    Explode,
    Bomb,
    CoinDrop,
    PowerUp,
    Bop,
    Buzz,
    Nope,
}

/// Bonus coin types.
#[derive(Debug, Clone, Copy, PartialEq, Eq, Structural)]
pub enum BonusType {
    Coin1,
    Coin2,
    Coin5,
}

/// Points that a coin is worth.
pub open spec fn coin_points(b: BonusType) -> i32 {
    match b {
        BonusType::Coin1 => 1,
        BonusType::Coin2 => 2,
        BonusType::Coin5 => 5,
    }
}

impl BonusType {
    pub fn points(self) -> (r: i32)
        ensures
            r == coin_points(self),
    {
        match self {
            BonusType::Coin1 => 1,
            BonusType::Coin2 => 2,
            BonusType::Coin5 => 5,
        }
    }
}

/// Power-up types that players can collect and arm.
#[derive(Debug, Clone, Copy, PartialEq, Eq, Structural)]
pub enum PowerUpType {
    /// Clears a 5x5 area.
    Bomb,
    /// Sets a tile to full connections.
    Cross,
    /// Clears an entire column.
    Arrow,
}

/// Drop probability denominator of each power-up (a bomb drops with chance 1/5).
pub open spec fn drop_freq_of(p: PowerUpType) -> u32 {
    match p {
        PowerUpType::Bomb => 5,
        PowerUpType::Cross => 3,
        PowerUpType::Arrow => 8,
    }
}

impl PowerUpType {
    /// Drop probability denominator. E.g. Bomb = 1/5 chance.
    pub fn drop_freq(self) -> (r: u32)
        ensures
            r == drop_freq_of(self),
            r > 0,
    {
        match self {
            PowerUpType::Bomb => 5,
            PowerUpType::Cross => 3,
            PowerUpType::Arrow => 8,
        }
    }
}

/// Power-up inventory for one player side (left or right).
#[derive(Debug, Clone, Default)]
pub struct PowerUpInventory {
    pub has_bomb: bool,
    pub has_cross: bool,
    pub has_arrow: bool,
    pub armed: Option<PowerUpType>,
}

impl PowerUpInventory {
    /// Whether the inventory holds a power-up of the given type.
    pub open spec fn holds(&self, p: PowerUpType) -> bool {
        match p {
            PowerUpType::Bomb => self.has_bomb,
            PowerUpType::Cross => self.has_cross,
            PowerUpType::Arrow => self.has_arrow,
        }
    }

    /// Only a held type can be armed.
    pub open spec fn wf(&self) -> bool {
        match self.armed {
            Some(p) => self.holds(p),
            None => true,
        }
    }

    /// An empty inventory.
    pub fn empty() -> (r: PowerUpInventory)
        ensures
            !r.has_bomb && !r.has_cross && !r.has_arrow,
            r.armed.is_none(),
            r.wf(),
    {
        PowerUpInventory { has_bomb: false, has_cross: false, has_arrow: false, armed: None }
    }

    /// Gives the inventory a power-up of the given type.
    pub fn grant(&mut self, p: PowerUpType)
        ensures
            final(self).holds(p),
            forall|q: PowerUpType| q != p ==> final(self).holds(q) == old(self).holds(q),
            final(self).armed == old(self).armed,
            old(self).wf() ==> final(self).wf(),
    {
        match p {
            PowerUpType::Bomb => self.has_bomb = true,
            PowerUpType::Cross => self.has_cross = true,
            PowerUpType::Arrow => self.has_arrow = true,
        }
    }

    /// Toggle arming a power-up. Returns true if newly armed.
    ///
    /// A type that is not held cannot be armed; arming the type that is
    /// already armed disarms it.
    pub fn toggle_arm(&mut self, ptype: PowerUpType) -> (r: bool)
        ensures
            final(self).has_bomb == old(self).has_bomb,
            final(self).has_cross == old(self).has_cross,
            final(self).has_arrow == old(self).has_arrow,
            !old(self).holds(ptype) ==> !r && final(self).armed == old(self).armed,
            old(self).holds(ptype) && old(self).armed == Some(ptype) ==> !r
                && final(self).armed.is_none(),
            old(self).holds(ptype) && old(self).armed != Some(ptype) ==> r
                && final(self).armed == Some(ptype),
            old(self).wf() ==> final(self).wf(),
    {
        let held = match ptype {
            PowerUpType::Bomb => self.has_bomb,
            PowerUpType::Cross => self.has_cross,
            PowerUpType::Arrow => self.has_arrow,
        };
        if !held {
            return false;
        }
        let same = match self.armed {
            Some(a) => a == ptype,
            None => false,
        };
        if same {
            self.armed = None;
            false
        } else {
            self.armed = Some(ptype);
            true
        }
    }

    /// Consume the armed power-up: it is disarmed and no longer held.
    pub fn consume_armed(&mut self) -> (r: Option<PowerUpType>)
        ensures
            r == old(self).armed,
            final(self).armed.is_none(),
            match r {
                Some(p) => !final(self).holds(p) && forall|q: PowerUpType|
                    q != p ==> final(self).holds(q) == old(self).holds(q),
                None => *final(self) == *old(self),
            },
    {
        match self.armed {
            Some(ptype) => {
                self.armed = None;
                match ptype {
                    PowerUpType::Bomb => self.has_bomb = false,
                    PowerUpType::Cross => self.has_cross = false,
                    PowerUpType::Arrow => self.has_arrow = false,
                }
                Some(ptype)
            },
            None => None,
        }
    }
}

} // verus!
