//! Keyboard input mapped to high-level actions, and the keybinding
//! reference shown by the help overlay. The terminal event source lives
//! outside the library; it hands over a plain key and a control flag.

use vstd::prelude::*;

verus! {

/// A key press, as the library sees it.
#[derive(Debug, Clone, Copy, PartialEq, Eq, Structural)]
pub enum Key {
    Char(char),
    Left,
    Right,
    Home,
    End,
    Tab,
    BackTab,
    Backspace,
    Delete,
    Enter,
    Esc,
    Other,
}

/// High-level actions derived from keyboard input.
#[derive(Debug, Clone, PartialEq, Eq)]
pub enum Action {
    /// Insert a character into the query.
    InsertChar(char),
    /// Delete the character before the cursor.
    Backspace,
    /// Delete the character under the cursor.
    Delete,
    /// Move the cursor left.
    CursorLeft,
    /// Move the cursor right.
    CursorRight,
    /// Move the cursor to the start of the query.
    CursorHome,
    /// Move the cursor to the end of the query.
    CursorEnd,
    /// Delete the entire query.
    ClearQuery,
    /// Delete a word backward.
    DeleteWordBackward,
    /// Accept the current suggestion or cycle candidates.
    Tab,
    /// Cycle candidates backward.
    BackTab,
    /// Confirm the selection and exit.
    Confirm,
    /// Cancel and exit without output.
    Quit,
    /// Scroll the view down one line.
    ScrollDown,
    /// Scroll the view up one line.
    ScrollUp,
    /// Scroll the view down one page.
    PageDown,
    /// Scroll the view up one page.
    PageUp,
    /// Scroll to the top.
    ScrollToTop,
    /// Scroll to the bottom.
    ScrollToBottom,
    /// Toggle key-only mode.
    ToggleKeyMode,
    /// Switch to the tree view.
    SwitchToTree,
    /// Switch to the question panel.
    SwitchToAi,
    /// Switch to the schema view.
    SwitchToSchema,
    /// Toggle the help overlay.
    ToggleHelp,
    /// Copy the current value to the clipboard.
    CopyValue,
    /// Copy the current query to the clipboard.
    CopyQuery,
    /// Toggle the split panel layout.
    ToggleSplitView,
    /// Search the history.
    SearchHistory,
    /// Add a bookmark.
    AddBookmark,
    /// Go to a bookmark.
    GoToBookmark,
    /// Nothing.
    Noop,
}

/// Which action a key press denotes, with or without control held.
pub open spec fn spec_map_key(key: Key, ctrl: bool) -> Action {
    match key {
        Key::Left => if !ctrl {
            Action::CursorLeft
        } else {
            Action::Noop
        },
        Key::Right => if !ctrl {
            Action::CursorRight
        } else {
            Action::Noop
        },
        Key::Home => Action::CursorHome,
        Key::End => Action::CursorEnd,
        Key::Char(c) => if ctrl {
            if c == 'a' {
                Action::CursorHome
            } else if c == 'e' {
                Action::CursorEnd
            } else if c == 'u' {
                Action::ClearQuery
            } else if c == 'w' {
                Action::DeleteWordBackward
            } else if c == 'f' {
                Action::CursorRight
            } else if c == 'b' {
                Action::CursorLeft
            } else if c == 'j' {
                Action::ScrollDown
            } else if c == 'k' {
                Action::ScrollUp
            } else if c == 'n' {
                Action::PageDown
            } else if c == 'p' {
                Action::PageUp
            } else if c == 'g' {
                Action::ScrollToBottom
            } else if c == 't' {
                Action::ScrollToTop
            } else if c == 'l' {
                Action::ToggleKeyMode
            } else if c == 'c' {
                Action::Quit
            } else if c == 'y' {
                Action::CopyValue
            } else if c == 'r' {
                Action::SearchHistory
            } else if c == 'd' {
                Action::AddBookmark
            } else {
                Action::InsertChar(c)
            }
        } else {
            Action::InsertChar(c)
        },
        Key::Tab => Action::Tab,
        Key::BackTab => Action::BackTab,
        Key::Backspace => Action::Backspace,
        Key::Delete => Action::Delete,
        Key::Enter => Action::Confirm,
        Key::Esc => Action::Quit,
        Key::Other => Action::Noop,
    }
}

/// Maps a key press to an action.
pub fn map_key_event(key: Key, ctrl: bool) -> (r: Action)
    ensures
        r == spec_map_key(key, ctrl),
{
    match key {
        Key::Left => if !ctrl {
            Action::CursorLeft
        } else {
            Action::Noop
        },
        Key::Right => if !ctrl {
            Action::CursorRight
        } else {
            Action::Noop
        },
        Key::Home => Action::CursorHome,
        Key::End => Action::CursorEnd,
        Key::Char(c) => if ctrl {
            if c == 'a' {
                Action::CursorHome
            } else if c == 'e' {
                Action::CursorEnd
            } else if c == 'u' {
                Action::ClearQuery
            } else if c == 'w' {
                Action::DeleteWordBackward
            } else if c == 'f' {
                Action::CursorRight
            } else if c == 'b' {
                Action::CursorLeft
            } else if c == 'j' {
                Action::ScrollDown
            } else if c == 'k' {
                Action::ScrollUp
            } else if c == 'n' {
                Action::PageDown
            } else if c == 'p' {
                Action::PageUp
            } else if c == 'g' {
                Action::ScrollToBottom
            } else if c == 't' {
                Action::ScrollToTop
            } else if c == 'l' {
                Action::ToggleKeyMode
            } else if c == 'c' {
                Action::Quit
            } else if c == 'y' {
                Action::CopyValue
            } else if c == 'r' {
                Action::SearchHistory
            } else if c == 'd' {
                Action::AddBookmark
            } else {
                Action::InsertChar(c)
            }
        } else {
            Action::InsertChar(c)
        },
        Key::Tab => Action::Tab,
        Key::BackTab => Action::BackTab,
        Key::Backspace => Action::Backspace,
        Key::Delete => Action::Delete,
        Key::Enter => Action::Confirm,
        Key::Esc => Action::Quit,
        Key::Other => Action::Noop,
    }
}

/// The keybinding reference for a mode: three general bindings, then
/// the mode's own.
pub fn get_bindings(mode: crate::modes::AppMode) -> (r: Vec<(&'static str, &'static str)>)
    ensures
        r@.len() == match mode {
            crate::modes::AppMode::Query => 14int,
            crate::modes::AppMode::Tree => 7int,
            crate::modes::AppMode::Ai => 5int,
            crate::modes::AppMode::Schema => 5int,
            crate::modes::AppMode::Help => 3int,
        },
        r@[0].0@ == "?"@,
{
    let mut bindings: Vec<(&'static str, &'static str)> = Vec::new();
    bindings.push(("?", "Toggle this help"));
    bindings.push(("Esc / Ctrl+C", "Quit"));
    bindings.push(("Enter", "Confirm and output result"));
    match mode {
        crate::modes::AppMode::Query => {
            bindings.push(("Tab", "Complete / cycle candidates"));
            bindings.push(("Shift+Tab", "Cycle candidates backward"));
            bindings.push(("Ctrl+L", "Toggle key-only mode"));
            bindings.push(("Ctrl+U", "Clear query"));
            bindings.push(("Ctrl+W", "Delete word backward"));
            bindings.push(("Ctrl+J/K", "Scroll down/up"));
            bindings.push(("Ctrl+N/P", "Page down/up"));
            bindings.push(("Ctrl+T/G", "Scroll to top/bottom"));
            bindings.push(("Ctrl+Y", "Copy current value"));
            bindings.push(("Ctrl+R", "Search history"));
            bindings.push(("Ctrl+D", "Add bookmark"));
        },
        crate::modes::AppMode::Tree => {
            bindings.push(("Up/Down", "Navigate tree"));
            bindings.push(("Right/Enter", "Expand node"));
            bindings.push(("Left", "Collapse node"));
            bindings.push(("Ctrl+J/K", "Scroll"));
        },
        crate::modes::AppMode::Ai => {
            bindings.push(("Enter", "Send query to AI"));
            bindings.push(("Esc", "Back to query mode"));
        },
        crate::modes::AppMode::Schema => {
            bindings.push(("Ctrl+J/K", "Scroll"));
            bindings.push(("Esc", "Back to query mode"));
        },
        crate::modes::AppMode::Help => {},
    }
    bindings
}

} // verus!
