//! Line protocol and track model of a remote-controlled racing bot.
//!
//! - `wire`: frame buffer, literals, separators, decimal integers
//! - `command`, `event`: the messages, their line format, and the laws that
//!   decoding what was written gives it back and that a line missing its end
//!   fails exactly there
//! - `section`, `map`: track sections and the map that chains them
//! - `segment`: how sections are cut into drawable segments
//! - `menu`, `log_lines`: the control panel's command menu and log
pub mod wire;
pub mod command;
pub mod event;
pub mod section;
pub mod map;
pub mod segment;
pub mod menu;
pub mod log_lines;
