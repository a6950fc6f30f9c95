//! What a frontend asks the browser to do: a toolbar button, a menu item and a keyboard
//! accelerator that all mean "go back" produce the same command.

use vstd::prelude::*;
use crate::tab::{HistoryEntryId, TabId};

verus! {

/// A browser action, independent of what triggered it.
#[derive(Debug, Clone, PartialEq, Eq)]
pub enum BeaconCommand {
    /// Go back in the active tab's session history.
    Back,
    /// Go forward. `None` follows the preferred branch; a specific entry picks one when
    /// the history tree forks.
    Forward(Option<HistoryEntryId>),
    /// Jump to a specific entry in the active tab's history.
    GoToHistoryEntry(HistoryEntryId),
    /// Reload the active tab.
    Reload { ignore_cache: bool },
    /// Stop the active tab's in-flight load.
    Stop,
    /// Put text on the system clipboard (a context-menu "Copy ...").
    CopyText(String),
    /// Open a finished download in the desktop's default application.
    OpenDownload(u64),
    /// Pin a tab to the left of the strip.
    PinTab(TabId),
    /// Unpin a tab.
    UnpinTab(TabId),
}

} // verus!
