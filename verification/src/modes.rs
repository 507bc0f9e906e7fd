//! Application modes: which widgets are active and how input is routed.

use vstd::prelude::*;

verus! {

/// The mode the application is in.
#[derive(Debug, Clone, Copy, PartialEq, Eq, Structural)]
pub enum AppMode {
    /// Typing a dot-notation query to filter the data.
    Query,
    /// Navigating a collapsible tree.
    Tree,
    /// Typing a natural-language question.
    Ai,
    /// Inspecting the shape of the data.
    Schema,
    /// Showing the keybinding reference.
    Help,
}

impl AppMode {
    /// The label shown in the status bar.
    pub fn label(&self) -> (r: &'static str)
        ensures
            r@ == match self {
                AppMode::Query => "QUERY"@,
                AppMode::Tree => "TREE"@,
                AppMode::Ai => "AI"@,
                AppMode::Schema => "SCHEMA"@,
                AppMode::Help => "HELP"@,
            },
    {
        match self {
            AppMode::Query => "QUERY",
            AppMode::Tree => "TREE",
            AppMode::Ai => "AI",
            AppMode::Schema => "SCHEMA",
            AppMode::Help => "HELP",
        }
    }
}

impl Default for AppMode {
    fn default() -> (r: AppMode)
        ensures
            r == AppMode::Query,
    {
        AppMode::Query
    }
}

} // verus!
