//! Per-tier lookup for the nine-entry colour, material and mesh tables.
use vstd::prelude::*;

verus! {

/// Converts a 1-indexed tier into a clamped index into the 9-element tier
/// tables: tier 0 and 1 map to 0, tiers from 9 up map to 8.
pub fn tier_index(tier: u8) -> (index: usize)
    ensures
        index == if tier == 0 {
            0
        } else if tier > 9 {
            8
        } else {
            tier - 1
        },
        index < 9,
{
    let i = if tier == 0 { 0 } else { (tier - 1) as usize };
    if i < 8 { i } else { 8 }
}

} // verus!
