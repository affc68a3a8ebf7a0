//! The ordered chain that resolves a command name to its handler.
//!
//! The chain is built once at configuration time by prepending one node
//! per registered command in front of the previously built chain, and is
//! terminated by a sentinel that reports every name as unknown.  Because
//! each registration prepends, traversal order — and so the help listing
//! — is the reverse of registration order.

use core::marker::PhantomData;
use vstd::prelude::*;
use vstd::utf8::encode_utf8;

use crate::command::Command;
use crate::device::IoDevice;
use crate::errors::MenuError;
use crate::lines::nl;
use crate::output::Output;
use crate::parse::str_eq;

verus! {

/// True when `cmds` binds the name `x`.
pub open spec fn has_name(cmds: Seq<(Seq<char>, Seq<char>)>, x: Seq<char>) -> bool {
    exists|k: int| 0 <= k < cmds.len() && cmds[k].0 == x
}

/// The bytes of one help line: `"<name>: <help>\n"`.
pub open spec fn help_line_bytes(name: Seq<char>, help: Seq<char>) -> Seq<u8> {
    encode_utf8(name) + encode_utf8(": "@) + encode_utf8(help) + seq![nl()]
}

/// The packets a full help listing flushes: one line per binding, in
/// chain order.
pub open spec fn help_lines(cmds: Seq<(Seq<char>, Seq<char>)>) -> Seq<Seq<u8>> {
    Seq::new(cmds.len(), |i: int| help_line_bytes(cmds[i].0, cmds[i].1))
}

/// `has_name` on a chain with a head binding checks the head first.
pub proof fn lemma_has_name_cons(
    p: (Seq<char>, Seq<char>),
    rest: Seq<(Seq<char>, Seq<char>)>,
    x: Seq<char>,
)
    ensures
        has_name(seq![p] + rest, x) <==> (p.0 == x || has_name(rest, x)),
{
    let s = seq![p] + rest;
    assert(s[0] == p);
    assert(forall|k: int| 0 <= k < rest.len() ==> s[k + 1] == rest[k]);
    if has_name(s, x) {
        let k = choose|k: int| 0 <= k < s.len() && s[k].0 == x;
        if k > 0 {
            assert(rest[k - 1].0 == x);
        }
    }
    if has_name(rest, x) {
        let k = choose|k: int| 0 <= k < rest.len() && rest[k].0 == x;
        assert(s[k + 1].0 == x);
    }
}

/// One node in the chain: a registered name, its help text, and the
/// command type whose handler it dispatches to.
pub struct CommandHolder<IO: IoDevice, S, CMD: Command<IO, S>> {
    name: &'static str,
    help: &'static str,
    _cmd_marker: PhantomData<CMD>,
    _io_marker: PhantomData<IO>,
    _state_marker: PhantomData<S>,
}

impl<IO: IoDevice, S, CMD: Command<IO, S>> CommandHolder<IO, S, CMD> {
    /// The name this node is bound to.
    pub closed spec fn spec_name(&self) -> Seq<char> {
        self.name@
    }

    /// The help text this node lists.
    pub closed spec fn spec_help(&self) -> Seq<char> {
        self.help@
    }

    fn new(name: &'static str, help: &'static str) -> (r: Self)
        ensures
            r.spec_name() == name@,
            r.spec_help() == help@,
    {
        Self {
            name,
            help,
            _cmd_marker: PhantomData,
            _io_marker: PhantomData,
            _state_marker: PhantomData,
        }
    }

    /// Runs the held command when `cmd` is its name; reports whether it
    /// did.  A miss changes nothing.
    fn try_execute(
        &self,
        cmd: &str,
        args: Option<&str>,
        output: &mut Output<IO>,
        state: &mut S,
    ) -> (r: Result<bool, MenuError>)
        requires
            old(output).wf(),
        ensures
            final(output).wf(),
            final(output).capacity() == old(output).capacity(),
            final(output).reads() == old(output).reads(),
            old(output).sent().is_prefix_of(final(output).sent()),
            cmd@ != self.spec_name() ==> r == Ok::<bool, MenuError>(false) && *final(output)
                == *old(output) && *final(state) == *old(state),
            cmd@ == self.spec_name() ==> r != Ok::<bool, MenuError>(false),
    {
        if str_eq(cmd, self.name) {
            match CMD::execute(args, output, state) {
                Ok(()) => Ok(true),
                Err(e) => Err(e),
            }
        } else {
            proof {
                assert(old(output).sent().is_prefix_of(output.sent()));
            }
            Ok(false)
        }
    }

    /// Emits this binding's help line as one flushed packet.
    fn print_help(&self, output: &mut Output<IO>) -> (r: Result<(), MenuError>)
        requires
            old(output).wf(),
            old(output).cursor() == 0,
        ensures
            final(output).wf(),
            final(output).capacity() == old(output).capacity(),
            final(output).reads() == old(output).reads(),
            match r {
                Ok(()) => final(output).cursor() == 0 && final(output).sent() == old(
                    output,
                ).sent().push(help_line_bytes(self.spec_name(), self.spec_help())),
                Err(e) => final(output).sent() == old(output).sent() && (e
                    == MenuError::OutputBufferOverflow || e matches MenuError::Io(_)) && (e
                    == MenuError::OutputBufferOverflow ==> help_line_bytes(
                    self.spec_name(),
                    self.spec_help(),
                ).len() >= old(output).capacity()),
            },
    {
        match output.write_str(self.name) {
            Ok(()) => {},
            Err(e) => {
                return Err(e);
            },
        }
        match output.write_str(": ") {
            Ok(()) => {},
            Err(e) => {
                return Err(e);
            },
        }
        proof {
            crate::output::lemma_pending_empty(*old(output));
            assert(output.pending() =~= encode_utf8(self.spec_name()) + encode_utf8(": "@));
        }
        let ghost pre_line = *output;
        let r = output.write_line(self.help);
        proof {
            if r is Ok {
                assert(pre_line.pending() + encode_utf8(self.spec_help()) + seq![nl()]
                    =~= help_line_bytes(self.spec_name(), self.spec_help()));
            }
        }
        r
    }
}

/// One step of command resolution: a router either handles a command
/// itself or delegates to the rest of the chain; it can also list the
/// help of everything it binds.
pub trait Router<IO: IoDevice, S> {
    /// The (name, help) bindings this router resolves, in traversal
    /// order.
    spec fn commands(&self) -> Seq<(Seq<char>, Seq<char>)>;

    /// Resolves `cmd` to the first binding with that exact name and runs
    /// its handler.  A name bound nowhere in the chain is reported as
    /// unknown and changes nothing.
    fn execute_or_forward(
        &self,
        cmd: &str,
        args: Option<&str>,
        output: &mut Output<IO>,
        state: &mut S,
    ) -> (r: Result<(), MenuError>)
        requires
            old(output).wf(),
        ensures
            final(output).wf(),
            final(output).capacity() == old(output).capacity(),
            final(output).reads() == old(output).reads(),
            old(output).sent().is_prefix_of(final(output).sent()),
            !has_name(self.commands(), cmd@) ==> r == Err::<(), MenuError>(
                MenuError::UnknownCommand,
            ) && *final(output) == *old(output) && *final(state) == *old(state),
    ;

    /// Emits one flushed help line per binding, in traversal order.  On
    /// failure, the lines of a prefix of the bindings went out.
    fn print_help(&self, output: &mut Output<IO>) -> (r: Result<(), MenuError>)
        requires
            old(output).wf(),
            old(output).cursor() == 0,
        ensures
            final(output).wf(),
            final(output).capacity() == old(output).capacity(),
            final(output).reads() == old(output).reads(),
            match r {
                Ok(()) => final(output).cursor() == 0 && final(output).sent() == old(output).sent()
                    + help_lines(self.commands()),
                Err(e) => (exists|k: int|
                    0 <= k <= self.commands().len() && final(output).sent() == old(output).sent()
                        + help_lines(self.commands()).take(k) && (e
                        == MenuError::OutputBufferOverflow ==> k < self.commands().len()
                        && help_line_bytes(self.commands()[k].0, self.commands()[k].1).len()
                        >= old(output).capacity())) && (e == MenuError::OutputBufferOverflow
                    || e matches MenuError::Io(_)) && self.commands().len() > 0,
            },
    ;
}

/// The sentinel at the end of every chain: it binds nothing, reports
/// every command as unknown, and contributes nothing to help output.
pub struct FinalRouter {}

impl<IO: IoDevice, S> Router<IO, S> for FinalRouter {
    open spec fn commands(&self) -> Seq<(Seq<char>, Seq<char>)> {
        Seq::empty()
    }

    fn execute_or_forward(
        &self,
        cmd: &str,
        args: Option<&str>,
        output: &mut Output<IO>,
        state: &mut S,
    ) -> (r: Result<(), MenuError>) {
        proof {
            assert(old(output).sent().is_prefix_of(output.sent()));
        }
        Err(MenuError::UnknownCommand)
    }

    fn print_help(&self, output: &mut Output<IO>) -> (r: Result<(), MenuError>) {
        proof {
            assert(output.sent() =~= old(output).sent() + help_lines(
                Router::<IO, S>::commands(self),
            ));
        }
        Ok(())
    }
}

/// A chain node: one binding in front of the rest of the chain.
pub struct NormalRouter<IO: IoDevice, S, NextRouter: Router<IO, S>, CMD: Command<IO, S>> {
    cmd: CommandHolder<IO, S, CMD>,
    next_router: NextRouter,
}

impl<IO: IoDevice, S, NextRouter: Router<IO, S>, CMD: Command<IO, S>> NormalRouter<
    IO,
    S,
    NextRouter,
    CMD,
> {
    /// Builds the chain that binds `name` in front of `next_router`.
    pub(crate) fn new(name: &'static str, help: &'static str, next_router: NextRouter) -> (r: Self)
        ensures
            r.commands() == seq![(name@, help@)] + next_router.commands(),
    {
        NormalRouter { cmd: CommandHolder::new(name, help), next_router }
    }
}

impl<IO: IoDevice, S, NextRouter: Router<IO, S>, CMD: Command<IO, S>> Router<IO, S> for NormalRouter<
    IO,
    S,
    NextRouter,
    CMD,
> {
    closed spec fn commands(&self) -> Seq<(Seq<char>, Seq<char>)> {
        seq![(self.cmd.spec_name(), self.cmd.spec_help())] + self.next_router.commands()
    }

    fn execute_or_forward(
        &self,
        cmd: &str,
        args: Option<&str>,
        output: &mut Output<IO>,
        state: &mut S,
    ) -> (r: Result<(), MenuError>) {
        proof {
            lemma_has_name_cons(
                (self.cmd.spec_name(), self.cmd.spec_help()),
                self.next_router.commands(),
                cmd@,
            );
        }
        let ghost mid_output: Output<IO>;
        let r = self.cmd.try_execute(cmd, args, output, state);
        proof {
            mid_output = *output;
        }
        match r {
            Ok(true) => Ok(()),
            Ok(false) => {
                let rr = self.next_router.execute_or_forward(cmd, args, output, state);
                proof {
                    lemma_prefix_trans(old(output).sent(), mid_output.sent(), output.sent());
                }
                rr
            },
            Err(e) => Err(e),
        }
    }

    fn print_help(&self, output: &mut Output<IO>) -> (r: Result<(), MenuError>) {
        proof {
            lemma_help_lines_cons(
                (self.cmd.spec_name(), self.cmd.spec_help()),
                self.next_router.commands(),
            );
        }
        match self.cmd.print_help(output) {
            Ok(()) => {},
            Err(e) => {
                proof {
                    assert(output.sent() =~= old(output).sent() + help_lines(
                        self.commands(),
                    ).take(0));
                }
                return Err(e);
            },
        }
        let ghost mid_sent = output.sent();
        let r = self.next_router.print_help(output);
        proof {
            let line0 = help_line_bytes(self.cmd.spec_name(), self.cmd.spec_help());
            let rest_lines = help_lines(self.next_router.commands());
            match r {
                Ok(()) => {
                    assert(output.sent() =~= old(output).sent() + help_lines(self.commands()));
                },
                Err(_) => {
                    let k = choose|k: int|
                        0 <= k <= self.next_router.commands().len() && output.sent() == mid_sent
                            + rest_lines.take(k);
                    assert(output.sent() =~= old(output).sent() + help_lines(
                        self.commands(),
                    ).take(k + 1));
                },
            }
        }
        r
    }
}

/// A prefix of a prefix is a prefix.
pub(crate) proof fn lemma_prefix_trans(a: Seq<Seq<u8>>, b: Seq<Seq<u8>>, c: Seq<Seq<u8>>)
    requires
        a.is_prefix_of(b),
        b.is_prefix_of(c),
    ensures
        a.is_prefix_of(c),
{
    assert(a =~= c.subrange(0, a.len() as int));
}

/// The help lines of a chain are its head's line followed by the rest's.
proof fn lemma_help_lines_cons(p: (Seq<char>, Seq<char>), rest: Seq<(Seq<char>, Seq<char>)>)
    ensures
        help_lines(seq![p] + rest) =~= seq![help_line_bytes(p.0, p.1)] + help_lines(rest),
{
    let s = seq![p] + rest;
    assert(s[0] == p);
    assert(forall|k: int| 0 <= k < rest.len() ==> s[k + 1] == rest[k]);
}

} // verus!
