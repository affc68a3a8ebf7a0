//! An interactive command-line menu engine for byte-oriented transports.
//!
//! The menu reads newline-terminated command lines from a transport (which
//! may deliver them in fragments or several at a time), splits each line
//! into a command name and an optional argument string, dispatches to a
//! registered handler, and writes replies back through a bounded,
//! flush-on-write output buffer.  All buffers are fixed-capacity and
//! supplied at construction.

mod command;
mod device;
mod errors;
mod lines;
mod menu;
mod output;
mod parse;
mod router;

pub use command::Command;
pub use device::IoDevice;
pub use device::IoDeviceError;
pub use errors::MenuError;
pub use menu::make_menu;
pub use menu::Menu;
pub use menu::MenuImpl;
pub use output::Output;
pub use parse::parse_line;
pub use router::FinalRouter;
pub use router::NormalRouter;
pub use router::Router;
