pub mod index;
pub mod indexer;
pub mod laws;
pub mod matching;
pub mod query;
pub mod reduce;
pub mod search;
pub mod store;
pub mod text;
pub mod workload;

use vstd::prelude::*;

verus! {

/// Clamp bound on token distances: two occurrences further apart than this
/// count as "far" for both phrase resolution and proximity ranking.
pub open spec fn max_distance() -> nat {
    8
}

/// Distance between two token positions `a` (first word) and `b` (second
/// word): the gap when `b` follows `a`, one more than the gap when it
/// precedes it, clamped at `max_distance`.
pub open spec fn spec_distance(a: nat, b: nat) -> nat {
    let raw: nat = if a <= b {
        (b - a) as nat
    } else {
        ((a - b) + 1) as nat
    };
    if raw <= max_distance() {
        raw
    } else {
        max_distance()
    }
}

/// Token distance used by phrase resolution and the proximity criterion.
pub fn distance(a: u32, b: u32) -> (r: u32)
    ensures
        r == spec_distance(a as nat, b as nat),
{
    if a <= b {
        if b - a <= 8 {
            b - a
        } else {
            8
        }
    } else {
        if a - b <= 7 {
            (a - b) + 1
        } else {
            8
        }
    }
}

} // verus!
