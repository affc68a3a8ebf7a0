//! The transport abstraction the menu talks through.

use vstd::prelude::*;

verus! {

/// Errors that an `IoDevice` may report when it is asked to perform an
/// operation.
#[derive(Clone, Copy, Debug, PartialEq, Eq, Structural)]
pub enum IoDeviceError {
    /// The device has disconnected and can no longer provide input.
    Disconnected,
    /// The device has experienced an internal buffer overflow condition.
    BufferOverflow,
}

/// A type that implements `IoDevice` lets a menu interact with the outside
/// world, by providing it with inputs and a way to deliver outputs.
///
/// Implementations live outside this crate; the contracts below are what
/// the menu relies on from any implementation.
pub trait IoDevice {
    /// Writes one packet of UTF8 data to the device.
    fn write_packet(&mut self, data: &[u8]) -> (r: Result<(), IoDeviceError>);

    /// Reads one packet of UTF8 data from the device, at most `max_len`
    /// bytes long.  A device whose pending data does not fit in `max_len`
    /// bytes reports `BufferOverflow`; a device with nothing left to ever
    /// deliver reports `Disconnected`.
    fn read_packet(&mut self, max_len: usize) -> (r: Result<Vec<u8>, IoDeviceError>)
        ensures
            r matches Ok(data) ==> data@.len() <= max_len,
    ;
}

} // verus!
