//! Application command ids.
//!
//! Turbo Vision reserves the low range for its own commands. These start at
//! 1000 to stay clear of them.

use vstd::prelude::*;

verus! {

pub type CommandId = u16;

/// Turbo Vision's own command for the next window.
pub const CM_NEXT: CommandId = 7;

/// File > Open capture...
pub const CM_OPEN_CAPTURE: CommandId = 1000;

/// File > Save As...
pub const CM_SAVE_AS: CommandId = 1001;

/// Edit > Copy (copies the current selection to the clipboard)
pub const CM_COPY: CommandId = 1002;

/// Edit > Select All (selects the whole scrollback)
pub const CM_SELECT_ALL: CommandId = 1003;

/// Edit > Clear window
pub const CM_CLEAR_WINDOW: CommandId = 1004;

/// Window > Cleanup (closes every disconnected window)
pub const CM_CLEANUP: CommandId = 1005;

/// Window > Tile (an id of our own, see `CM_CASCADE_WINDOWS`)
pub const CM_TILE_WINDOWS: CommandId = 1006;

/// Window > Cascade.
///
/// Not Turbo Vision's own command: its idle loop re-enables that one whenever
/// the desktop holds any tileable window at all, so the rule "only with more
/// than one window" would be overwritten on the next poll. Nothing else
/// touches the enabled state of this id.
pub const CM_CASCADE_WINDOWS: CommandId = 1007;

} // verus!
