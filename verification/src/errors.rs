//! The errors the menu can encounter while running.

use vstd::prelude::*;

use crate::device::IoDeviceError;

verus! {

/// Possible errors that the menu might encounter while running.
#[derive(Clone, Copy, Debug, PartialEq, Eq, Structural)]
pub enum MenuError {
    /// A command was received that was not recognised.
    UnknownCommand,
    /// The `IoDevice` experienced an error while reading or writing.
    Io(IoDeviceError),
    /// Bytes could not be interpreted as valid UTF8.
    Utf8,
    /// The output buffer ran out of space while formatting a string.
    ///
    /// Increasing the size of the menu's output buffer could prevent this.
    OutputBufferOverflow,
    /// The menu ran out of input buffer space while reading from its `IoDevice`.
    ///
    /// Increasing the size of the menu's input buffer could prevent this.
    InputBufferOverflow,
}

impl From<IoDeviceError> for MenuError {
    fn from(value: IoDeviceError) -> (r: Self) {
        MenuError::Io(value)
    }
}

impl vstd::std_specs::convert::FromSpecImpl<IoDeviceError> for MenuError {
    open spec fn obeys_from_spec() -> bool {
        true
    }

    open spec fn from_spec(value: IoDeviceError) -> Self {
        MenuError::Io(value)
    }
}

} // verus!
