//! Drawing a fruit from a weighted pool and storing it.
use vstd::prelude::*;

use rand::rngs::StdRng;

use crate::gacha::{DlcState, DrawError, DrawOutcome, FruitDef, FruitSummary};
use crate::inventory::{add_outcome, PlayerInventory};

verus! {

/// The total weight of a pool.
pub open spec fn weight_sum(pool: Seq<FruitDef>) -> nat
    decreases pool.len(),
{
    if pool.len() == 0 {
        0
    } else {
        weight_sum(pool.drop_last()) + pool.last().weight as nat
    }
}

/// `roll` falls in the slot of fruit `i`: the weights before `i` sum to at
/// most `roll`, and adding the weight of `i` passes it.
pub open spec fn in_slot(pool: Seq<FruitDef>, i: int, roll: nat) -> bool {
    &&& 0 <= i < pool.len()
    &&& weight_sum(pool.take(i)) <= roll
    &&& roll < weight_sum(pool.take(i)) + pool[i].weight
}

/// The fruit in whose slot `roll` falls.
pub open spec fn slot_of(pool: Seq<FruitDef>, roll: nat) -> int {
    choose|i: int| in_slot(pool, i, roll)
}

/// What a draw with the roll `roll` comes to: its result and the counts of
/// the inventory afterwards.
pub open spec fn draw_result(
    inventory: Map<Seq<char>, u32>,
    pool: Seq<FruitDef>,
    dlc_state: DlcState,
    roll: nat,
) -> (Result<DrawOutcome, DrawError>, Map<Seq<char>, u32>) {
    if pool.len() == 0 {
        (Err(DrawError::EmptyPool), inventory)
    } else if roll >= weight_sum(pool) {
        (Err(DrawError::InvalidWeights), inventory)
    } else {
        let fruit = pool[slot_of(pool, roll)];
        let stored = add_outcome(inventory, fruit.name@, dlc_state.duplicate_limit);
        (
            Ok(DrawOutcome { fruit: FruitSummary { name: fruit.name, rarity: fruit.rarity }, storage: stored.0 }),
            stored.1,
        )
    }
}

/// A longer prefix of a pool weighs at least as much.
pub proof fn lemma_weight_sum_prefix(pool: Seq<FruitDef>, i: int, j: int)
    requires
        0 <= i <= j <= pool.len(),
    ensures
        weight_sum(pool.take(i)) <= weight_sum(pool.take(j)),
        j == i + 1 ==> weight_sum(pool.take(j)) == weight_sum(pool.take(i)) + pool[i].weight,
        weight_sum(pool.take(pool.len() as int)) == weight_sum(pool),
    decreases j - i,
{
    assert(pool.take(pool.len() as int) =~= pool);
    if i < j {
        assert(pool.take(j).drop_last() =~= pool.take(j - 1));
        assert(pool.take(j).last() == pool[j - 1]);
        lemma_weight_sum_prefix(pool, i, j - 1);
    }
}

/// A roll falls in at most one slot.
pub proof fn lemma_slot_unique(pool: Seq<FruitDef>, i: int, j: int, roll: nat)
    requires
        in_slot(pool, i, roll),
        in_slot(pool, j, roll),
    ensures
        i == j,
{
    if i < j {
        lemma_weight_sum_prefix(pool, i, i + 1);
        lemma_weight_sum_prefix(pool, i + 1, j);
    } else if j < i {
        lemma_weight_sum_prefix(pool, j, j + 1);
        lemma_weight_sum_prefix(pool, j + 1, i);
    }
}

/// Every roll below the total weight falls in a slot.
pub proof fn lemma_slot_exists(pool: Seq<FruitDef>, roll: nat)
    requires
        roll < weight_sum(pool),
    ensures
        in_slot(pool, slot_of(pool, roll), roll),
    decreases pool.len(),
{
    let n = pool.len() as int;
    let init = pool.drop_last();
    if roll < weight_sum(init) {
        lemma_slot_exists(init, roll);
        let i = slot_of(init, roll);
        assert(init.take(i) =~= pool.take(i));
        assert(in_slot(pool, i, roll));
    } else {
        assert(pool.take(n - 1) =~= init);
        assert(in_slot(pool, n - 1, roll));
    }
}

/// A fruit of weight zero is never drawn: the fruit a roll below the total
/// weight selects has a positive weight.
pub proof fn lemma_drawn_fruit_has_weight(pool: Seq<FruitDef>, roll: nat)
    requires
        roll < weight_sum(pool),
    ensures
        0 <= slot_of(pool, roll) < pool.len(),
        pool[slot_of(pool, roll)].weight > 0,
{
    lemma_slot_exists(pool, roll);
}

/// Each fruit is drawn for exactly as many of the rolls below the total
/// weight as its weight: with rolls drawn uniformly, its chance is its
/// weight over the total.
pub proof fn lemma_draw_chance(pool: Seq<FruitDef>, i: int)
    requires
        0 <= i < pool.len(),
    ensures
        Set::new(|r: int| 0 <= r < weight_sum(pool) && in_slot(pool, i, r as nat)).finite(),
        Set::new(|r: int| 0 <= r < weight_sum(pool) && in_slot(pool, i, r as nat)).len()
            == pool[i].weight,
{
    lemma_weight_sum_prefix(pool, i, i + 1);
    lemma_weight_sum_prefix(pool, i + 1, pool.len() as int);
    let lo = weight_sum(pool.take(i)) as int;
    let hi = lo + pool[i].weight;
    let s = Set::new(|r: int| 0 <= r < weight_sum(pool) && in_slot(pool, i, r as nat));
    assert(s =~= vstd::set_lib::set_int_range(lo, hi));
    vstd::set_lib::lemma_int_range(lo, hi);
}

/// A draw that finds no fruit leaves the inventory as it was; a draw with
/// a roll below the total weight always finds one.
pub proof fn lemma_draw_result_cases(
    inventory: Map<Seq<char>, u32>,
    pool: Seq<FruitDef>,
    dlc_state: DlcState,
    roll: nat,
)
    ensures
        draw_result(inventory, pool, dlc_state, roll).0 is Err ==> draw_result(
            inventory,
            pool,
            dlc_state,
            roll,
        ).1 == inventory,
        roll < weight_sum(pool) ==> draw_result(inventory, pool, dlc_state, roll).0 is Ok,
{
    if roll < weight_sum(pool) && pool.len() == 0 {
        assert(weight_sum(pool) == 0);
    }
}

/// The standard random number generator of the `rand` crate, carried
/// through as it is.
#[verifier::external_type_specification]
#[verifier::external_body]
pub struct ExStdRng(StdRng);

/// Calls `Rng::gen_range(0..bound)` of the `rand` crate on a `StdRng`. Its
/// source draws uniformly from the range and panics on an empty one; the
/// contract claims only that the result lies in the range. Which number
/// comes out rests on the generator's state.
#[verifier::external_body]
fn roll_below(rng: &mut StdRng, bound: u32) -> (roll: u32)
    requires
        bound > 0,
    ensures
        roll < bound,
{
    rand::Rng::gen_range(rng, 0..bound)
}

/// The index of the fruit in whose slot `roll` falls; `InvalidWeights`
/// when `roll` is not below the pool's total weight.
pub fn select_by_roll(pool: &[FruitDef], roll: u32) -> (r: Result<usize, DrawError>)
    ensures
        match r {
            Ok(i) => in_slot(pool@, i as int, roll as nat),
            Err(e) => e == DrawError::InvalidWeights && roll >= weight_sum(pool@),
        },
{
    let mut rest = roll;
    let mut i: usize = 0;
    while i < pool.len()
        invariant
            i <= pool@.len(),
            weight_sum(pool@.take(i as int)) <= roll,
            rest == roll - weight_sum(pool@.take(i as int)),
        decreases pool@.len() - i,
    {
        proof {
            lemma_weight_sum_prefix(pool@, i as int, i + 1);
        }
        if rest < pool[i].weight {
            return Ok(i);
        }
        rest = rest - pool[i].weight;
        i = i + 1;
    }
    proof {
        lemma_weight_sum_prefix(pool@, i as int, i as int);
    }
    Err(DrawError::InvalidWeights)
}

/// The total weight of a pool, where it fits in a `u32`.
fn total_weight(pool: &[FruitDef]) -> (r: u32)
    requires
        weight_sum(pool@) <= u32::MAX,
    ensures
        r == weight_sum(pool@),
{
    let mut total: u32 = 0;
    let mut i: usize = 0;
    while i < pool.len()
        invariant
            i <= pool@.len(),
            weight_sum(pool@) <= u32::MAX,
            total == weight_sum(pool@.take(i as int)),
        decreases pool@.len() - i,
    {
        proof {
            lemma_weight_sum_prefix(pool@, i as int, i + 1);
            lemma_weight_sum_prefix(pool@, i + 1, pool@.len() as int);
        }
        total = total + pool[i].weight;
        i = i + 1;
    }
    proof {
        lemma_weight_sum_prefix(pool@, i as int, i as int);
    }
    total
}

/// Draws with the roll `roll`: the fruit in whose slot `roll` falls is
/// stored in `inventory` under the limit of `dlc_state`.
pub fn draw_fruit_with_roll(
    inventory: &mut PlayerInventory,
    pool: &[FruitDef],
    dlc_state: DlcState,
    roll: u32,
) -> (r: Result<DrawOutcome, DrawError>)
    requires
        old(inventory).wf(),
    ensures
        final(inventory).wf(),
        (r, final(inventory)@) == draw_result(old(inventory)@, pool@, dlc_state, roll as nat),
{
    if pool.len() == 0 {
        return Err(DrawError::EmptyPool);
    }
    match select_by_roll(pool, roll) {
        Ok(i) => {
            proof {
                lemma_weight_sum_prefix(pool@, i as int, i + 1);
                lemma_weight_sum_prefix(pool@, i + 1, pool@.len() as int);
                lemma_slot_exists(pool@, roll as nat);
                lemma_slot_unique(pool@, i as int, slot_of(pool@, roll as nat), roll as nat);
            }
            let fruit = &pool[i];
            let storage = inventory.add_fruit(fruit, dlc_state);
            Ok(DrawOutcome { fruit: FruitSummary { name: fruit.name, rarity: fruit.rarity }, storage })
        },
        Err(e) => Err(e),
    }
}

/// Picks the index of a fruit of `pool` at random, each with the chance of
/// its weight: `EmptyPool` for an empty pool, `InvalidWeights` for a pool
/// of total weight zero, and otherwise the fruit in whose slot some roll
/// below the total weight falls.
fn choose_weighted(pool: &[FruitDef], rng: &mut StdRng) -> (r: Result<usize, DrawError>)
    requires
        weight_sum(pool@) <= u32::MAX,
    ensures
        pool@.len() == 0 ==> r == Err::<usize, DrawError>(DrawError::EmptyPool),
        pool@.len() > 0 && weight_sum(pool@) == 0 ==> r == Err::<usize, DrawError>(
            DrawError::InvalidWeights,
        ),
        weight_sum(pool@) == 0 ==> *final(rng) == *old(rng),
        weight_sum(pool@) > 0 ==> r is Ok && exists|roll: nat|
            roll < weight_sum(pool@) && #[trigger] in_slot(pool@, r->Ok_0 as int, roll),
{
    if pool.len() == 0 {
        return Err(DrawError::EmptyPool);
    }
    let total = total_weight(pool);
    if total == 0 {
        return Err(DrawError::InvalidWeights);
    }
    let roll = roll_below(rng, total);
    let r = select_by_roll(pool, roll);
    assert(r is Ok);
    assert(in_slot(pool@, r->Ok_0 as int, roll as nat));
    r
}

/// Draws one fruit from `pool` at random, each with the chance of its
/// weight, and stores it in `inventory` under the limit of `dlc_state`.
/// `EmptyPool` for an empty pool and `InvalidWeights` for a pool of total
/// weight zero, with the inventory unchanged; otherwise the draw of some
/// roll below the total weight.
pub fn draw_fruit(
    inventory: &mut PlayerInventory,
    pool: &[FruitDef],
    dlc_state: DlcState,
    rng: &mut StdRng,
) -> (r: Result<DrawOutcome, DrawError>)
    requires
        old(inventory).wf(),
        weight_sum(pool@) <= u32::MAX,
    ensures
        final(inventory).wf(),
        pool@.len() == 0 ==> r == Err::<DrawOutcome, DrawError>(DrawError::EmptyPool),
        pool@.len() > 0 && weight_sum(pool@) == 0 ==> r == Err::<DrawOutcome, DrawError>(
            DrawError::InvalidWeights,
        ),
        weight_sum(pool@) == 0 ==> final(inventory)@ == old(inventory)@,
        weight_sum(pool@) == 0 ==> *final(rng) == *old(rng),
        weight_sum(pool@) > 0 ==> exists|roll: nat|
            roll < weight_sum(pool@) && (r, final(inventory)@) == #[trigger] draw_result(
                old(inventory)@,
                pool@,
                dlc_state,
                roll,
            ),
{
    let i = match choose_weighted(pool, rng) {
        Ok(i) => i,
        Err(e) => {
            return Err(e);
        },
    };
    let ghost roll = choose|roll: nat| roll < weight_sum(pool@) && #[trigger] in_slot(pool@, i as int, roll);
    proof {
        lemma_slot_exists(pool@, roll);
        lemma_slot_unique(pool@, i as int, slot_of(pool@, roll), roll);
    }
    let fruit = &pool[i];
    let storage = inventory.add_fruit(fruit, dlc_state);
    let r = Ok(DrawOutcome { fruit: FruitSummary { name: fruit.name, rarity: fruit.rarity }, storage });
    assert((r, inventory@) == draw_result(old(inventory)@, pool@, dlc_state, roll));
    r
}

} // verus!
