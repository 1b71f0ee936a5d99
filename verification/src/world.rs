//! Scale constants of the hex sphere that the rules and the level format share.

use vstd::prelude::*;

verus! {

/// Smallest hex sphere that still has hexagons (frequency 1 is a dodecahedron).
pub const MIN_FREQUENCY: u8 = 2;
/// Largest supported frequency: 1442 tiles.
pub const MAX_FREQUENCY: u8 = 12;
/// Side of one tile's cell in the ground atlas, in texture pixels.
pub const TILE_PX: usize = 24;

/// Number of tiles on a hex sphere of frequency `n`.
pub open spec fn spec_tile_count(n: int) -> int {
    10 * (n * n) + 2
}

/// `true` when `n` is a supported frequency.
pub open spec fn spec_frequency_is_valid(n: int) -> bool {
    MIN_FREQUENCY <= n <= MAX_FREQUENCY
}

/// Number of tiles on a hex sphere of frequency `n`: always `10n² + 2`, twelve of them pentagons.
pub fn tile_count(n: u8) -> (c: usize)
    ensures
        c == spec_tile_count(n as int),
{
    let n = n as usize;
    assert(n * n <= 255 * 255) by (nonlinear_arith)
        requires
            n <= 255,
    ;
    let sq = n * n;
    10 * sq + 2
}

/// `true` when `n` is a supported frequency.
pub fn frequency_is_valid(n: u8) -> (b: bool)
    ensures
        b == spec_frequency_is_valid(n as int),
{
    MIN_FREQUENCY <= n && n <= MAX_FREQUENCY
}

} // verus!
