//! The tray menu (開く / 索引を一時停止⇄索引を再開 / 設定 / 終了): what a
//! click on each item does, and the pause item's label.

use vstd::prelude::*;
use crate::text::str_eq;

verus! {

/// What a tray menu item does.
#[derive(Debug, Clone, Copy, PartialEq, Eq, Structural)]
pub enum TrayAction {
    /// Show the main window and focus the search box.
    Open,
    /// Flip the pause flag and relabel the item.
    TogglePause,
    /// Show the settings window.
    Settings,
    /// Exit the application.
    Quit,
    /// An id the menu does not have: nothing happens.
    Nothing,
}

/// The action of the menu item with id `id`.
pub open spec fn tray_action_of(id: Seq<char>) -> TrayAction {
    if id == "open"@ {
        TrayAction::Open
    } else if id == "toggle_pause"@ {
        TrayAction::TogglePause
    } else if id == "settings"@ {
        TrayAction::Settings
    } else if id == "quit"@ {
        TrayAction::Quit
    } else {
        TrayAction::Nothing
    }
}

/// The action of the tray menu item whose id is `id`.
pub fn tray_action(id: &str) -> (r: TrayAction)
    ensures
        r == tray_action_of(id@),
{
    if str_eq(id, "open") {
        TrayAction::Open
    } else if str_eq(id, "toggle_pause") {
        TrayAction::TogglePause
    } else if str_eq(id, "settings") {
        TrayAction::Settings
    } else if str_eq(id, "quit") {
        TrayAction::Quit
    } else {
        TrayAction::Nothing
    }
}

/// The label of the pause item once the pause flag is `paused`: it offers
/// the opposite of the current state.
pub fn pause_item_label(paused: bool) -> (r: &'static str)
    ensures
        r@ == (if paused { "索引を再開"@ } else { "索引を一時停止"@ }),
{
    if paused {
        "索引を再開"
    } else {
        "索引を一時停止"
    }
}

} // verus!
