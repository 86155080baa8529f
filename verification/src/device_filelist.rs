//! Keyboard dispatch for a file-list pane: which navigation steps one
//! frame's key presses ask for.  Reading the keys and performing the steps
//! (listing directories, repainting) happen outside this crate.

use vstd::prelude::*;

verus! {

/// The pane-relevant key presses of one frame.
#[derive(Clone, Copy, PartialEq, Eq, Structural, Debug)]
pub struct PaneEvent {
    pub enter: bool,
    pub tab: bool,
    pub backspace: bool,
}

/// What a pane should do for one frame's presses.
#[derive(Clone, Copy, PartialEq, Eq, Structural, Debug)]
pub struct PaneUpdate {
    /// Change into the selected entry and list it afresh.
    pub open_selected: bool,
    /// Whether the pane is focused after this frame.
    pub focused: bool,
    /// Step the working directory up one level and list it afresh.
    pub level_up: bool,
}

/// One frame of key handling for a pane, in the frame's own order: Enter
/// opens the selected entry while the pane is focused, Tab then toggles
/// focus, and Backspace steps up a level if the pane is focused after the
/// toggle.
pub fn plan_pane_update(focused: bool, event: PaneEvent) -> (update: PaneUpdate)
    ensures
        update.open_selected == (focused && event.enter),
        update.focused == (if event.tab {
            !focused
        } else {
            focused
        }),
        update.level_up == (update.focused && event.backspace),
{
    let open_selected = focused && event.enter;
    let focused_after = if event.tab {
        !focused
    } else {
        focused
    };
    let level_up = focused_after && event.backspace;
    PaneUpdate { open_selected, focused: focused_after, level_up }
}

} // verus!
