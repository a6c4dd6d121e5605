//! Website blocking through a managed region of the system hosts file.
//!
//! The library holds the text transforms and the decisions; reading and
//! writing files and waiting for the timer are left to the caller.

pub mod config;
pub mod deny_list;
pub mod laws;
pub mod lines;
pub mod number;
pub mod region;
pub mod session;
pub mod text;

pub use crate::config::{run, Command, Config};
pub use crate::deny_list::add_block;
pub use crate::region::remove_lines;
pub use crate::session::{start, step, stop, timer_delay, Action, DelayError, Event, Session};
