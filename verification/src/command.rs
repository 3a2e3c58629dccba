//! What input asks of the app, whichever device it came from.

use vstd::prelude::*;

verus! {

/// A navigation direction.
#[derive(Clone, Copy, PartialEq, Eq, Debug, Structural)]
pub enum Direction {
    Up,
    Down,
    Left,
    Right,
}

/// One thing the user asked for.
#[derive(Clone, Copy, PartialEq, Eq, Debug, Structural)]
pub enum AppCommand {
    /// Move the cursor.
    Nav(Direction),
    /// Previous page of a list.
    PageUp,
    /// Next page of a list.
    PageDown,
    /// A: send, select, accept, type.
    Confirm,
    /// B: back, decline, cancel, erase.
    Back,
    /// X: the screen's alternative action.
    Alt,
    /// Start: settings, confirm a send.
    Start,
    /// Select: refresh the radar.
    ReAnnounce,
    /// Y: pin or unpin.
    TogglePin,
    /// Quit the app.
    Shutdown,
}

} // verus!
