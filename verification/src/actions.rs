//! Everything the drawing editor's keys can do.
//!
//! The keymap names an action by a word, and this decides what the word means. Doing it to the
//! drawing is the caller's part. A word the editor has no meaning for is nothing, and the key
//! falls through to whatever is layered under the editor's own map.

use vstd::prelude::*;

use crate::drawing::Tool;
use crate::text::same_text;

verus! {

/// Which way a pan, a nudge or a shove goes.
#[derive(Clone, Copy, PartialEq, Eq, Structural, Debug)]
pub enum Side {
    /// To the left.
    Left,
    /// To the right.
    Right,
    /// Up.
    Up,
    /// Down.
    Down,
}

/// Where a reorder puts what is selected.
#[derive(Clone, Copy, PartialEq, Eq, Structural, Debug)]
pub enum Order {
    /// On top of everything.
    Front,
    /// Under everything.
    Back,
    /// One place up.
    Forward,
    /// One place down.
    Backward,
}

/// What a key of the drawing editor does.
#[derive(Clone, Copy, PartialEq, Eq, Structural, Debug)]
pub enum Action {
    /// Choose a tool.
    Choose(Tool),
    /// Zoom in a step.
    ZoomIn,
    /// Zoom out a step.
    ZoomOut,
    /// Show the drawing at its own size.
    Actual,
    /// Fit the whole drawing in the view.
    Fit,
    /// Move the view.
    Pan(Side),
    /// Choose everything that is not locked.
    SelectAll,
    /// Take what is selected away.
    Delete,
    /// Copy what is selected beside itself.
    Duplicate,
    /// Make what is selected one group.
    Group,
    /// Break the groups of what is selected up.
    Ungroup,
    /// Move what is selected in the stacking order.
    Reorder(Order),
    /// Lock what is selected, or unlock it.
    Lock(bool),
    /// Move what is selected by one.
    Nudge(Side),
    /// Move what is selected by a shove's worth.
    Shove(Side),
    /// Put what is selected on the clipboard.
    Copy,
    /// Put what is selected on the clipboard and take it away.
    Cut,
    /// Put what is on the clipboard in.
    Paste,
    /// Open or close the style panel.
    Style,
    /// Type into what is selected.
    EditText,
    /// Let go of whatever is under way.
    Escape,
}

/// What the keymap's word `leaf` names, when it names anything.
pub open spec fn action_named(leaf: Seq<char>) -> Option<Action> {
    if leaf == "select"@ {
        Some(Action::Choose(Tool::Select))
    } else if leaf == "hand"@ {
        Some(Action::Choose(Tool::Hand))
    } else if leaf == "rectangle"@ {
        Some(Action::Choose(Tool::Rectangle))
    } else if leaf == "diamond"@ {
        Some(Action::Choose(Tool::Diamond))
    } else if leaf == "ellipse"@ {
        Some(Action::Choose(Tool::Ellipse))
    } else if leaf == "arrow"@ {
        Some(Action::Choose(Tool::Arrow))
    } else if leaf == "line"@ {
        Some(Action::Choose(Tool::Line))
    } else if leaf == "freedraw"@ {
        Some(Action::Choose(Tool::Freedraw))
    } else if leaf == "text"@ {
        Some(Action::Choose(Tool::Text))
    } else if leaf == "image"@ {
        Some(Action::Choose(Tool::Image))
    } else if leaf == "frame"@ {
        Some(Action::Choose(Tool::Frame))
    } else if leaf == "eraser"@ {
        Some(Action::Choose(Tool::Eraser))
    } else if leaf == "zoom_in"@ {
        Some(Action::ZoomIn)
    } else if leaf == "zoom_out"@ {
        Some(Action::ZoomOut)
    } else if leaf == "actual"@ {
        Some(Action::Actual)
    } else if leaf == "fit"@ {
        Some(Action::Fit)
    } else if leaf == "pan_left"@ {
        Some(Action::Pan(Side::Left))
    } else if leaf == "pan_right"@ {
        Some(Action::Pan(Side::Right))
    } else if leaf == "pan_up"@ {
        Some(Action::Pan(Side::Up))
    } else if leaf == "pan_down"@ {
        Some(Action::Pan(Side::Down))
    } else if leaf == "select_all"@ {
        Some(Action::SelectAll)
    } else if leaf == "delete"@ {
        Some(Action::Delete)
    } else if leaf == "duplicate"@ {
        Some(Action::Duplicate)
    } else if leaf == "group"@ {
        Some(Action::Group)
    } else if leaf == "ungroup"@ {
        Some(Action::Ungroup)
    } else if leaf == "to_front"@ {
        Some(Action::Reorder(Order::Front))
    } else if leaf == "to_back"@ {
        Some(Action::Reorder(Order::Back))
    } else if leaf == "forward"@ {
        Some(Action::Reorder(Order::Forward))
    } else if leaf == "backward"@ {
        Some(Action::Reorder(Order::Backward))
    } else if leaf == "lock"@ {
        Some(Action::Lock(true))
    } else if leaf == "unlock"@ {
        Some(Action::Lock(false))
    } else if leaf == "nudge_left"@ {
        Some(Action::Nudge(Side::Left))
    } else if leaf == "nudge_right"@ {
        Some(Action::Nudge(Side::Right))
    } else if leaf == "nudge_up"@ {
        Some(Action::Nudge(Side::Up))
    } else if leaf == "nudge_down"@ {
        Some(Action::Nudge(Side::Down))
    } else if leaf == "shove_left"@ {
        Some(Action::Shove(Side::Left))
    } else if leaf == "shove_right"@ {
        Some(Action::Shove(Side::Right))
    } else if leaf == "shove_up"@ {
        Some(Action::Shove(Side::Up))
    } else if leaf == "shove_down"@ {
        Some(Action::Shove(Side::Down))
    } else if leaf == "copy"@ {
        Some(Action::Copy)
    } else if leaf == "cut"@ {
        Some(Action::Cut)
    } else if leaf == "paste"@ {
        Some(Action::Paste)
    } else if leaf == "style"@ {
        Some(Action::Style)
    } else if leaf == "edit_text"@ {
        Some(Action::EditText)
    } else if leaf == "escape"@ {
        Some(Action::Escape)
    } else {
        None
    }
}

/// What the keymap's word `leaf` names, when it names anything.
pub fn action_of(leaf: &str) -> (out: Option<Action>)
    ensures
        out == action_named(leaf@),
{
    if same_text(leaf, "select") {
        Some(Action::Choose(Tool::Select))
    } else if same_text(leaf, "hand") {
        Some(Action::Choose(Tool::Hand))
    } else if same_text(leaf, "rectangle") {
        Some(Action::Choose(Tool::Rectangle))
    } else if same_text(leaf, "diamond") {
        Some(Action::Choose(Tool::Diamond))
    } else if same_text(leaf, "ellipse") {
        Some(Action::Choose(Tool::Ellipse))
    } else if same_text(leaf, "arrow") {
        Some(Action::Choose(Tool::Arrow))
    } else if same_text(leaf, "line") {
        Some(Action::Choose(Tool::Line))
    } else if same_text(leaf, "freedraw") {
        Some(Action::Choose(Tool::Freedraw))
    } else if same_text(leaf, "text") {
        Some(Action::Choose(Tool::Text))
    } else if same_text(leaf, "image") {
        Some(Action::Choose(Tool::Image))
    } else if same_text(leaf, "frame") {
        Some(Action::Choose(Tool::Frame))
    } else if same_text(leaf, "eraser") {
        Some(Action::Choose(Tool::Eraser))
    } else if same_text(leaf, "zoom_in") {
        Some(Action::ZoomIn)
    } else if same_text(leaf, "zoom_out") {
        Some(Action::ZoomOut)
    } else if same_text(leaf, "actual") {
        Some(Action::Actual)
    } else if same_text(leaf, "fit") {
        Some(Action::Fit)
    } else if same_text(leaf, "pan_left") {
        Some(Action::Pan(Side::Left))
    } else if same_text(leaf, "pan_right") {
        Some(Action::Pan(Side::Right))
    } else if same_text(leaf, "pan_up") {
        Some(Action::Pan(Side::Up))
    } else if same_text(leaf, "pan_down") {
        Some(Action::Pan(Side::Down))
    } else if same_text(leaf, "select_all") {
        Some(Action::SelectAll)
    } else if same_text(leaf, "delete") {
        Some(Action::Delete)
    } else if same_text(leaf, "duplicate") {
        Some(Action::Duplicate)
    } else if same_text(leaf, "group") {
        Some(Action::Group)
    } else if same_text(leaf, "ungroup") {
        Some(Action::Ungroup)
    } else if same_text(leaf, "to_front") {
        Some(Action::Reorder(Order::Front))
    } else if same_text(leaf, "to_back") {
        Some(Action::Reorder(Order::Back))
    } else if same_text(leaf, "forward") {
        Some(Action::Reorder(Order::Forward))
    } else if same_text(leaf, "backward") {
        Some(Action::Reorder(Order::Backward))
    } else if same_text(leaf, "lock") {
        Some(Action::Lock(true))
    } else if same_text(leaf, "unlock") {
        Some(Action::Lock(false))
    } else if same_text(leaf, "nudge_left") {
        Some(Action::Nudge(Side::Left))
    } else if same_text(leaf, "nudge_right") {
        Some(Action::Nudge(Side::Right))
    } else if same_text(leaf, "nudge_up") {
        Some(Action::Nudge(Side::Up))
    } else if same_text(leaf, "nudge_down") {
        Some(Action::Nudge(Side::Down))
    } else if same_text(leaf, "shove_left") {
        Some(Action::Shove(Side::Left))
    } else if same_text(leaf, "shove_right") {
        Some(Action::Shove(Side::Right))
    } else if same_text(leaf, "shove_up") {
        Some(Action::Shove(Side::Up))
    } else if same_text(leaf, "shove_down") {
        Some(Action::Shove(Side::Down))
    } else if same_text(leaf, "copy") {
        Some(Action::Copy)
    } else if same_text(leaf, "cut") {
        Some(Action::Cut)
    } else if same_text(leaf, "paste") {
        Some(Action::Paste)
    } else if same_text(leaf, "style") {
        Some(Action::Style)
    } else if same_text(leaf, "edit_text") {
        Some(Action::EditText)
    } else if same_text(leaf, "escape") {
        Some(Action::Escape)
    } else {
        None
    }
}

} // verus!
