//! Modal editing state shared with the key handlers that drive the
//! library: the mode flag, handler results, and the per-mode state records.
//! The key handlers themselves live with the terminal front end; this
//! module holds the state they carry between keystrokes.

pub mod operator;
pub mod register;
pub mod visual;

use vstd::prelude::*;

verus! {

/// Editor mode.
#[derive(Debug, Clone, Copy, PartialEq, Eq, Structural)]
pub enum Mode {
    Normal,
    Insert,
    Visual { line_wise: bool },
    Command,
}

impl Mode {
    /// Status-line text for the mode.
    pub fn display(&self) -> (r: &'static str)
        ensures
            r@ == self.display_spec(),
    {
        match self {
            Mode::Normal => "",
            Mode::Insert => "-- INSERT --",
            Mode::Visual { line_wise: false } => "-- VISUAL --",
            Mode::Visual { line_wise: true } => "-- VISUAL LINE --",
            Mode::Command => "-- COMMAND --",
        }
    }

    pub open spec fn display_spec(&self) -> Seq<char> {
        match self {
            Mode::Normal => ""@,
            Mode::Insert => "-- INSERT --"@,
            Mode::Visual { line_wise } => if *line_wise {
                "-- VISUAL LINE --"@
            } else {
                "-- VISUAL --"@
            },
            Mode::Command => "-- COMMAND --"@,
        }
    }
}

/// What a key handler asks the surrounding loop to do.
#[derive(Debug)]
pub enum InputResult {
    /// Handled; carry on.
    Handled,
    /// Switch to another mode.
    ModeSwitch(Mode),
    /// Quit the editor.
    Quit,
    /// Not handled; offer the key to the next handler.
    NotHandled,
    /// Perform a structural navigation step.
    StructuralNav(StructuralNavAction),
    /// The cursor moved by hand; drop node tracking.
    ClearNodeTracking,
    /// Show a message to the user.
    Message(String),
}

/// Structural navigation over the index that a handler can request.
#[derive(Debug)]
pub enum StructuralNavAction {
    NextSibling,
    PrevSibling,
    Parent,
    FirstChild,
    NextKey,
    PrevKey,
    NextValue,
    PrevValue,
}

/// State of the ex-style command mode: the command line being typed.
pub struct CommandMode {
    pub command_line: String,
}

impl CommandMode {
    pub fn new() -> (r: CommandMode)
        ensures
            r.command_line@ == Seq::<char>::empty(),
    {
        CommandMode { command_line: String::new() }
    }
}

/// State of insert mode (none beyond the mode itself).
pub struct InsertMode;

impl InsertMode {
    pub fn new() -> (r: InsertMode) {
        InsertMode
    }
}

/// State of normal mode: the register selected for the next operation.
pub struct NormalMode {
    selected_register: Option<char>,
}

impl NormalMode {
    pub closed spec fn spec_selected(&self) -> Option<char> {
        self.selected_register
    }

    pub fn new() -> (r: NormalMode)
        ensures
            r.spec_selected() is None,
    {
        NormalMode { selected_register: None }
    }
}

} // verus!
