//! The control panel's command menu: its entries, their order and labels.
use vstd::prelude::*;

verus! {

/// What the control panel is showing
#[derive(Clone, Copy, PartialEq, Eq, Debug, Structural)]
pub enum UiActivity {
    Idle,
    Commands,
    Camera,
    Manual,
}

/// Number of entries in the command menu
pub const COMMAND_COUNT: usize = 5;

/// Entries of the command menu, in menu order
#[derive(Clone, Copy, PartialEq, Eq, Debug, Structural)]
pub enum Command {
    Reset,
    Start,
    Stop,
    Restart,
    ClearLog,
}

/// Position of an entry in the menu.
pub open spec fn command_index(c: Command) -> nat {
    match c {
        Command::Reset => 0,
        Command::Start => 1,
        Command::Stop => 2,
        Command::Restart => 3,
        Command::ClearLog => 4,
    }
}

/// Label of an entry.
pub open spec fn command_label(c: Command) -> Seq<char> {
    match c {
        Command::Reset => "RESET"@,
        Command::Start => "START"@,
        Command::Stop => "STOP"@,
        Command::Restart => "RESTART"@,
        Command::ClearLog => "CLEAR LOG"@,
    }
}

impl Command {
    /// Number of entries
    pub fn len() -> (r: usize)
        ensures
            r == COMMAND_COUNT,
    {
        COMMAND_COUNT
    }

    /// The entry at a menu position
    pub fn from(index: usize) -> (r: Command)
        requires
            index < COMMAND_COUNT,
        ensures
            command_index(r) == index,
    {
        match index {
            0 => Command::Reset,
            1 => Command::Start,
            2 => Command::Stop,
            3 => Command::Restart,
            _ => Command::ClearLog,
        }
    }

    /// The menu position of the entry
    pub fn index(&self) -> (r: usize)
        ensures
            r == command_index(*self),
            r < COMMAND_COUNT,
    {
        match self {
            Command::Reset => 0,
            Command::Start => 1,
            Command::Stop => 2,
            Command::Restart => 3,
            Command::ClearLog => 4,
        }
    }

    /// The label shown for the entry
    pub fn text(&self) -> (r: &'static str)
        ensures
            r@ == command_label(*self),
    {
        match self {
            Command::Reset => "RESET",
            Command::Start => "START",
            Command::Stop => "STOP",
            Command::Restart => "RESTART",
            Command::ClearLog => "CLEAR LOG",
        }
    }
}

} // verus!
