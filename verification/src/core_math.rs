//! Scoring and dispensing arithmetic.
use crate::rng::roll_percent;
use vstd::prelude::*;

verus! {

/// Lowest tier a sphere can have.
pub const MIN_TIER: u8 = 1;

/// Highest tier: merging two spheres of the tier below wins the game.
pub const MAX_TIER: u8 = 9;

/// Points for a merge producing a sphere of tier `t`.
pub open spec fn merge_points(t: int) -> int {
    t * 100
}

/// Points for completing an order of tier `t`.
pub open spec fn order_points(t: int) -> int {
    t * 500
}

/// Returns the score points awarded for a successful merge resulting in `resulting_tier`.
pub fn get_merge_points(resulting_tier: u8) -> (points: u32)
    ensures
        points == merge_points(resulting_tier as int),
        points == resulting_tier as int * 100,
{
    resulting_tier as u32 * 100
}

/// Returns the flat score points awarded for completing an order of `target_tier`.
pub fn get_order_points(target_tier: u8) -> (points: u32)
    ensures
        points == order_points(target_tier as int),
        points == target_tier as int * 500,
{
    target_tier as u32 * 500
}

/// The tier dispensed for a percentile roll: rolls below 40 give tier 1,
/// below 72 tier 2, below 90 tier 3, and the rest tier 4.
pub open spec fn spec_dispensed_tier(roll: int) -> u8 {
    if roll < 40 {
        1
    } else if roll < 72 {
        2
    } else if roll < 90 {
        3
    } else {
        4
    }
}

/// Maps a percentile roll in `0..100` to the dispensed tier (1-4).
pub fn dispensed_tier_for_roll(roll: u32) -> (tier: u8)
    ensures
        tier == spec_dispensed_tier(roll as int),
        1 <= tier <= 4,
{
    if roll < 40 {
        1
    } else if roll < 72 {
        2
    } else if roll < 90 {
        3
    } else {
        4
    }
}

/// Selects a random sphere tier (1-4) for dispensation based on weighted
/// probabilities: tier 1 40%, tier 2 32%, tier 3 18%, tier 4 10%.
/// Whatever the generator yields, the tier is the one that some roll in
/// `0..100` maps to.
pub fn get_random_dispensed_tier(rng: &mut rand::rngs::StdRng) -> (tier: u8)
    ensures
        1 <= tier <= 4,
        exists|roll: int| 0 <= roll < 100 && tier == spec_dispensed_tier(roll),
{
    let roll = roll_percent(rng);
    let tier = dispensed_tier_for_roll(roll);
    assert(0 <= roll < 100 && tier == spec_dispensed_tier(roll as int));
    tier
}

/// Number of rolls `r` in `0..n` for which `f(r)` holds.
pub open spec fn count_rolls(f: spec_fn(int) -> bool, n: nat) -> nat
    decreases n,
{
    if n == 0 {
        0
    } else {
        count_rolls(f, (n - 1) as nat) + if f(n - 1) {
            1nat
        } else {
            0nat
        }
    }
}

/// A predicate that holds exactly on `lo..hi` (within `0..n`) holds for
/// as many rolls below `n` as the part of that interval below `n`.
pub proof fn lemma_count_interval(f: spec_fn(int) -> bool, lo: int, hi: int, n: nat)
    requires
        0 <= lo <= hi,
        forall|r: int| 0 <= r < n ==> #[trigger] f(r) == (lo <= r < hi),
    ensures
        count_rolls(f, n) == if n <= lo {
            0
        } else if n <= hi {
            n - lo
        } else {
            hi - lo
        },
    decreases n,
{
    if n > 0 {
        lemma_count_interval(f, lo, hi, (n - 1) as nat);
    }
}

/// Of the 100 equally likely rolls, 40 dispense tier 1, 32 tier 2, 18 tier 3
/// and 10 tier 4.
pub proof fn lemma_dispenser_weights()
    ensures
        count_rolls(|r: int| spec_dispensed_tier(r) == 1, 100) == 40,
        count_rolls(|r: int| spec_dispensed_tier(r) == 2, 100) == 32,
        count_rolls(|r: int| spec_dispensed_tier(r) == 3, 100) == 18,
        count_rolls(|r: int| spec_dispensed_tier(r) == 4, 100) == 10,
{
    lemma_count_interval(|r: int| spec_dispensed_tier(r) == 1, 0, 40, 100);
    lemma_count_interval(|r: int| spec_dispensed_tier(r) == 2, 40, 72, 100);
    lemma_count_interval(|r: int| spec_dispensed_tier(r) == 3, 72, 90, 100);
    lemma_count_interval(|r: int| spec_dispensed_tier(r) == 4, 90, 100, 100);
}

} // verus!
