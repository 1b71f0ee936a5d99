//! Decisions of the application shell that do not need a window to be made.

use vstd::prelude::*;

verus! {

/// The size to configure the surface with once the GPU is ready, given what the window reported
/// when it was created and what it reports now. A window that reports a size now (both sides
/// non-zero) wins: a resize that landed while the GPU was starting must not be lost. Only a window
/// that still has no size of its own falls back to the size at creation.
pub fn startup_size(at_creation: (u32, u32), now: (u32, u32)) -> (r: (u32, u32))
    ensures
        r == (if now.0 > 0 && now.1 > 0 { now } else { at_creation }),
{
    if now.0 > 0 && now.1 > 0 {
        now
    } else {
        at_creation
    }
}

} // verus!
