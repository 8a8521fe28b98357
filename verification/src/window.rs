//! What minimizing, restoring, collapsing and expanding do to a floating window's state.
//!
//! A window remembers how tall it was before it was folded away, so that bringing it back
//! restores that height; and it is marked "new" when it reappears, so that it is laid out afresh.
//! The height is measured by the drawing code; which of these a request does is decided here.

use vstd::prelude::*;

verus! {

/// What a request to minimize or restore a window does to it.
#[derive(Clone, Copy, Debug, PartialEq, Eq, Hash, Structural)]
pub enum MinimizeAction {
    /// The window already is as asked: nothing changes and nothing is announced.
    Unchanged,
    /// Flip the minimized flag only: the window is collapsed all the way already, so the height
    /// to come back to has been remembered and it is not new.
    Toggle,
    /// Restore it: flip the flag and mark it new, so it is laid out afresh.
    ToggleAsNew,
    /// Minimize it: remember how tall it is now, then flip the flag.
    RememberHeightThenToggle,
}

/// What minimizing (`minimized`) or restoring a window does, given whether it is minimized now
/// and whether the root of its tree is collapsed. Every answer but `Unchanged` is a finalised
/// layout edit.
pub fn minimize_action(was_minimized: bool, minimized: bool, root_collapsed: bool) -> (action:
    MinimizeAction)
    ensures
        was_minimized == minimized ==> action == MinimizeAction::Unchanged,
        was_minimized != minimized && root_collapsed ==> action == MinimizeAction::Toggle,
        was_minimized != minimized && !root_collapsed && was_minimized ==> action
            == MinimizeAction::ToggleAsNew,
        was_minimized != minimized && !root_collapsed && !was_minimized ==> action
            == MinimizeAction::RememberHeightThenToggle,
{
    if was_minimized == minimized {
        MinimizeAction::Unchanged
    } else if root_collapsed {
        MinimizeAction::Toggle
    } else if was_minimized {
        MinimizeAction::ToggleAsNew
    } else {
        MinimizeAction::RememberHeightThenToggle
    }
}

/// What a node of a window being collapsed or expanded does to the window.
#[derive(Clone, Copy, Debug, PartialEq, Eq, Hash, Structural)]
pub enum CollapseAction {
    /// The node opened: the window is marked new, to be laid out afresh.
    MarkNew,
    /// The whole window folded: remember how tall it was, for the expand to restore.
    RememberHeight,
    /// A part folded but the window as a whole did not: nothing to remember.
    Nothing,
}

/// What the collapsed flag just written on a node (`node_collapsed`) does to its window, given
/// whether the root of the window's tree is collapsed as a result.
pub fn collapse_action(node_collapsed: bool, root_collapsed: bool) -> (action: CollapseAction)
    ensures
        !node_collapsed ==> action == CollapseAction::MarkNew,
        node_collapsed && root_collapsed ==> action == CollapseAction::RememberHeight,
        node_collapsed && !root_collapsed ==> action == CollapseAction::Nothing,
{
    if !node_collapsed {
        CollapseAction::MarkNew
    } else if root_collapsed {
        CollapseAction::RememberHeight
    } else {
        CollapseAction::Nothing
    }
}

} // verus!
