//! The request to draw the screen again, posted by whatever changed what it shows.

use vstd::prelude::*;

verus! {

/// Whether the screen is due to be drawn again.
#[derive(Debug, Clone, Copy, PartialEq, Eq, Structural)]
pub struct RedrawFlag {
    pub pending: bool,
}

impl RedrawFlag {
    /// A flag with no redraw asked for.
    pub fn new() -> (flag: RedrawFlag)
        ensures
            !flag.pending,
    {
        RedrawFlag { pending: false }
    }
}

/// Asks for a redraw.
pub fn post_redraw(flag: &mut RedrawFlag)
    ensures
        final(flag).pending,
{
    flag.pending = true;
}

/// Whether a redraw was asked for and not yet taken up.
pub fn needs_redraw(flag: &RedrawFlag) -> (pending: bool)
    ensures
        pending == flag.pending,
{
    flag.pending
}

/// Takes the request up: none is pending after it.
pub fn reset_redraw(flag: &mut RedrawFlag)
    ensures
        !final(flag).pending,
{
    flag.pending = false;
}

} // verus!
