//! The capability a registered command provides.

use vstd::prelude::*;

use crate::device::IoDevice;
use crate::errors::MenuError;
use crate::output::Output;

verus! {

/// Commands for a menu are specified by providing types that implement
/// the `Command` trait.  Implementations live outside this crate; the
/// contracts below are what the menu relies on from any implementation.
pub trait Command<IO: IoDevice, S> {
    /// The command's name at the specification level: what `name`
    /// returns, as a character sequence.  A verified implementation
    /// overrides this so that registration and resolution can be tracked
    /// in contracts; the placeholder default stands for implementations
    /// outside the reach of verification, whose contracts are taken on
    /// trust like the rest of this trait.
    open spec fn spec_name() -> Seq<char> {
        Seq::empty()
    }

    /// The command's help text at the specification level; see
    /// `spec_name`.
    open spec fn spec_help() -> Seq<char> {
        Seq::empty()
    }

    /// The name of this command, i.e. what needs to be entered to run it.
    ///
    /// A name may not be the reserved word that lists the registered
    /// commands, and may not contain a space: either would make the
    /// command unreachable, so both are configuration errors.
    fn name() -> (r: &'static str)
        ensures
            r@ == Self::spec_name(),
            r@ != "help"@,
            forall|i: int| 0 <= i < r@.len() ==> r@[i] != ' ',
    ;

    /// The help text that is listed for this command.
    fn help_string() -> (r: &'static str)
        ensures
            r@ == Self::spec_help(),
    ;

    /// Executes the logic of the command.  It is given the parsed
    /// argument string, an output handle to print replies, and the menu
    /// state that was passed in when the menu was created.  A command may
    /// write whatever it wants, but leaves the sink well formed, never
    /// retracts packets the device already received, and never reads
    /// from the transport.
    fn execute(args: Option<&str>, output: &mut Output<IO>, state: &mut S) -> (r: Result<
        (),
        MenuError,
    >)
        requires
            old(output).wf(),
        ensures
            final(output).wf(),
            final(output).capacity() == old(output).capacity(),
            final(output).reads() == old(output).reads(),
            old(output).sent().is_prefix_of(final(output).sent()),
    ;
}

} // verus!
