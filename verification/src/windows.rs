//! What the global hotkey does to the main window, and when the app exits.

use vstd::prelude::*;

verus! {

/// What to do with the main window.
#[derive(Debug, Clone, Copy, PartialEq, Eq, Structural)]
pub enum MainWindowAction {
    Hide,
    Show,
}

/// The global hotkey on a normal (non-overlay) window: visible, focused
/// and not minimized, it hides; otherwise (hidden, behind other windows, or
/// minimized) it is brought to the front. Toggling on visibility alone
/// would hide a window the user cannot even see.
pub fn toggle_action(visible: bool, focused: bool, minimized: bool) -> (r: MainWindowAction)
    ensures
        r == (if visible && focused && !minimized {
            MainWindowAction::Hide
        } else {
            MainWindowAction::Show
        }),
{
    if visible && focused && !minimized {
        MainWindowAction::Hide
    } else {
        MainWindowAction::Show
    }
}

/// Whether a request to exit the application goes through. Closing a
/// window only hides it, so the request that follows the last window
/// closing (it carries no exit code) is vetoed and the app stays in the
/// tray; an explicit exit (the tray's 終了, or the elevated restart)
/// carries a code and goes through.
pub fn exit_allowed(code: Option<i32>) -> (r: bool)
    ensures
        r == code.is_some(),
{
    code.is_some()
}

} // verus!
