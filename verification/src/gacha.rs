//! Fruits, their rarities, the duplicate-limit state that the DLC raises,
//! and what storing or drawing a fruit results in.
use vstd::prelude::*;

verus! {

/// How rare a fruit is.
#[derive(Clone, Copy, Debug, PartialEq, Eq, Structural)]
pub enum Rarity {
    Common,
    Rare,
    Epic,
    Legendary,
    Mythical,
}

/// The name under which a rarity is shown.
pub open spec fn rarity_label(r: Rarity) -> Seq<char> {
    match r {
        Rarity::Common => "Common"@,
        Rarity::Rare => "Rare"@,
        Rarity::Epic => "Epic"@,
        Rarity::Legendary => "Legendary"@,
        Rarity::Mythical => "Mythical"@,
    }
}

/// How rare a rarity is, from the commonest at zero up.
pub open spec fn rarity_rank(r: Rarity) -> nat {
    match r {
        Rarity::Common => 0,
        Rarity::Rare => 1,
        Rarity::Epic => 2,
        Rarity::Legendary => 3,
        Rarity::Mythical => 4,
    }
}

impl Rarity {
    /// The name under which this rarity is shown.
    pub fn label(&self) -> (r: &'static str)
        ensures
            r@ == rarity_label(*self),
    {
        match self {
            Rarity::Common => "Common",
            Rarity::Rare => "Rare",
            Rarity::Epic => "Epic",
            Rarity::Legendary => "Legendary",
            Rarity::Mythical => "Mythical",
        }
    }
}

/// A fruit of the pool: its name, its rarity and its weight in the draw.
/// A fruit's chance to be drawn is its weight over the pool's total weight.
#[derive(Clone, Debug, PartialEq, Eq)]
pub struct FruitDef {
    pub name: &'static str,
    pub rarity: Rarity,
    pub weight: u32,
}

impl FruitDef {
    /// A fruit with the given name, rarity and weight.
    pub fn new(name: &'static str, rarity: Rarity, weight: u32) -> (r: Self)
        ensures
            r.name == name,
            r.rarity == rarity,
            r.weight == weight,
    {
        FruitDef { name, rarity, weight }
    }
}

/// How many copies of one fruit the inventory may hold.
#[derive(Clone, Copy, Debug, PartialEq, Eq, Structural)]
pub struct DlcState {
    pub duplicate_limit: u32,
}

impl DlcState {
    /// Without the DLC: one copy of each fruit.
    pub fn disabled() -> (r: Self)
        ensures
            r.duplicate_limit == 1,
    {
        DlcState { duplicate_limit: 1 }
    }

    /// With the DLC: `duplicate_limit` copies of each fruit, and never fewer
    /// than one.
    pub fn enabled(duplicate_limit: u32) -> (r: Self)
        ensures
            r.duplicate_limit == if duplicate_limit >= 1 { duplicate_limit } else { 1 },
    {
        DlcState { duplicate_limit: if duplicate_limit >= 1 { duplicate_limit } else { 1 } }
    }

    /// Whether the limit is above the one copy that holds without the DLC.
    pub fn is_enabled(&self) -> (r: bool)
        ensures
            r == (self.duplicate_limit > 1),
    {
        self.duplicate_limit > 1
    }

    /// The state after one more DLC code is accepted: the limit grows by
    /// `increment`, stops at `u32::MAX`, and is never below one.
    pub fn increase_duplicate_limit(&self, increment: u32) -> (r: Self)
        ensures
            r.duplicate_limit == if self.duplicate_limit + increment > u32::MAX {
                u32::MAX as int
            } else if self.duplicate_limit + increment < 1 {
                1
            } else {
                self.duplicate_limit + increment
            },
    {
        DlcState::enabled(self.duplicate_limit.saturating_add(increment))
    }
}

/// What storing a fruit in the inventory came to.
#[derive(Clone, Copy, Debug, PartialEq, Eq, Structural)]
pub enum AddFruitResult {
    /// The fruit was stored; the inventory now holds `new_total` of it.
    Stored { new_total: u32 },
    /// The inventory already holds `current` of the fruit and may hold no
    /// more than `limit`; nothing was stored.
    DuplicateLimitReached { current: u32, limit: u32 },
}

/// The name and rarity of a drawn fruit.
#[derive(Clone, Copy, Debug, PartialEq, Eq)]
pub struct FruitSummary {
    pub name: &'static str,
    pub rarity: Rarity,
}

/// A drawn fruit and what storing it came to.
#[derive(Clone, Copy, Debug, PartialEq, Eq)]
pub struct DrawOutcome {
    pub fruit: FruitSummary,
    pub storage: AddFruitResult,
}

/// Why no fruit could be drawn.
#[derive(Clone, Copy, Debug, PartialEq, Eq, Structural)]
pub enum DrawError {
    /// The pool holds no fruit.
    EmptyPool,
    /// The pool's weights do not allow a draw.
    InvalidWeights,
}

} // verus!
