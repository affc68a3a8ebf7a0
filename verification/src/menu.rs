//! The menu itself: input assembly, per-line dispatch, and the run loop.

use vstd::prelude::*;
use vstd::slice::slice_subrange;
use vstd::slice::slice_to_vec;
use vstd::utf8::decode_utf8;
use vstd::utf8::encode_utf8;
use vstd::utf8::valid_utf8;

use crate::command::Command;
use crate::device::IoDevice;
use crate::device::IoDeviceError;
use crate::errors::MenuError;
use crate::lines::complete_lines;
use crate::lines::lemma_complete_lines_take_prefix;
use crate::lines::lemma_line_scan_concat;
use crate::lines::lemma_line_scan_push;
use crate::lines::line_scan;
use crate::lines::nl;
use crate::lines::pending_line;
use crate::output::lemma_wrote_line_prefix;
use crate::output::wrote_line;
use crate::output::Output;
use crate::parse::parse_line;
use crate::parse::split_at_space;
use crate::parse::str_eq;
use crate::router::has_name;
use crate::router::help_lines;
use crate::router::lemma_prefix_trans;
use crate::router::FinalRouter;
use crate::router::NormalRouter;
use crate::router::Router;

verus! {

/// What a menu looks like from outside: it can be run until its
/// transport disconnects, and afterwards taken apart again.
///
/// You probably don't want to implement this trait yourself; `make_menu`
/// and `MenuImpl::with_command` build values of it.
pub trait Menu<IO: IoDevice, S> {
    /// The invariant that running the menu needs and keeps.
    spec fn inv(&self) -> bool;

    /// Runs the menu until its device disconnects (success) or an
    /// unrecoverable error occurs.
    fn run(&mut self) -> (r: Result<(), MenuError>)
        requires
            old(self).inv(),
        ensures
            final(self).inv(),
            r matches Err(e) ==> e == MenuError::OutputBufferOverflow || e == MenuError::Io(
                IoDeviceError::BufferOverflow,
            ),
    ;

    /// Gives the transport and the menu state back to the caller.
    fn into_parts(self) -> (r: (IO, S));
}

/// The menu: the registered command chain, the input buffer with its
/// cursor, the output sink (which owns the transport), and the
/// caller-supplied state handed to command handlers.
pub struct MenuImpl<IO: IoDevice, S, HeadRouter: Router<IO, S>> {
    head_router: HeadRouter,
    input_buffer: Vec<u8>,
    input_buffer_idx: usize,
    output: Output<IO>,
    state: S,
    log: Ghost<Seq<u8>>,
    consumed: Ghost<Seq<Seq<u8>>>,
}

/// How a full help listing relates the sink before and after: a header
/// packet, then one packet per binding in chain order.  On failure some
/// prefix of that went out.
pub open spec fn listed_help<IO: IoDevice>(
    pre: Output<IO>,
    post: Output<IO>,
    cmds: Seq<(Seq<char>, Seq<char>)>,
    r: Result<(), MenuError>,
) -> bool {
    let header = pre.pending() + encode_utf8("AVAILABLE COMMANDS:\n"@) + seq![nl()];
    &&& post.capacity() == pre.capacity()
    &&& match r {
        Ok(()) => post.cursor() == 0 && post.sent() == pre.sent().push(header) + help_lines(cmds),
        Err(e) => {
            &&& (e == MenuError::OutputBufferOverflow || e matches MenuError::Io(_))
            &&& (wrote_line(pre, post, "AVAILABLE COMMANDS:\n"@, r) || (exists|k: int|
                0 <= k <= cmds.len() && post.sent() == pre.sent().push(header) + help_lines(
                    cmds,
                ).take(k)))
        },
    }
}

/// The full effect of handling one complete line, holding between the
/// sink and state before (`pre_out`, `pre_state`) and after: a line that
/// fails UTF-8 validation is rejected with nothing changed; the reserved
/// word lists the help; a name bound nowhere is answered with exactly
/// the unknown-command line; a bound name runs its handler, whose
/// effects are its own, with a recoverable handler error reported
/// inline.  Nothing is ever read, and no packet is retracted.
pub open spec fn dispatched_line<IO: IoDevice, S>(
    pre_out: Output<IO>,
    post_out: Output<IO>,
    pre_state: S,
    post_state: S,
    line: Seq<u8>,
    cmds: Seq<(Seq<char>, Seq<char>)>,
    r: Result<(), MenuError>,
) -> bool {
    &&& post_out.capacity() == pre_out.capacity()
    &&& post_out.reads() == pre_out.reads()
    &&& pre_out.sent().is_prefix_of(post_out.sent())
    &&& (r matches Err(e) ==> e != MenuError::InputBufferOverflow && e
        != MenuError::UnknownCommand)
    &&& ({
        let (cb, ab) = split_at_space(line);
        if !(valid_utf8(cb) && (ab matches Some(a) ==> valid_utf8(a))) {
            &&& r == Err::<(), MenuError>(MenuError::Utf8)
            &&& post_out == pre_out
            &&& post_state == pre_state
        } else if decode_utf8(cb) == "help"@ {
            &&& listed_help(pre_out, post_out, cmds, r)
            &&& post_state == pre_state
        } else if !has_name(cmds, decode_utf8(cb)) {
            &&& wrote_line(pre_out, post_out, "Unknown command"@, r)
            &&& post_state == pre_state
        } else {
            r matches Err(e) ==> (e == MenuError::OutputBufferOverflow || e matches MenuError::Io(
                _,
            ))
        }
    })
}

/// A run of line dispatches: `steps` are the sink and state before the
/// first line, between any two lines, and after the last; `results[i]`
/// is what dispatching `lines[i]` returned, and every line before the
/// last was dispatched successfully.
pub open spec fn dispatch_chain<IO: IoDevice, S>(
    steps: Seq<(Output<IO>, S)>,
    results: Seq<Result<(), MenuError>>,
    lines: Seq<Seq<u8>>,
    cmds: Seq<(Seq<char>, Seq<char>)>,
) -> bool {
    &&& steps.len() == lines.len() + 1
    &&& results.len() == lines.len()
    &&& forall|i: int|
        0 <= i < lines.len() ==> #[trigger] dispatched_line(
            steps[i].0,
            steps[i + 1].0,
            steps[i].1,
            steps[i + 1].1,
            lines[i],
            cmds,
            results[i],
        )
    &&& forall|i: int| 0 <= i < lines.len() - 1 ==> #[trigger] results[i] is Ok
}

/// One pass of input assembly, as the run loop drives it.  With a full
/// input buffer the pass fails at once with `InputBufferOverflow`,
/// dumping the buffer, reading nothing and writing nothing.  Otherwise
/// exactly one read event is recorded: a failed read is remapped and
/// dumps the buffer with nothing written, and a successful read's newly
/// completed lines are dispatched in order.
pub open spec fn assembly_pass<IO: IoDevice, S, HeadRouter: Router<IO, S>>(
    pre: MenuImpl<IO, S, HeadRouter>,
    post: MenuImpl<IO, S, HeadRouter>,
    r: Result<(), MenuError>,
) -> bool {
    &&& post.wf()
    &&& post.input_capacity() == pre.input_capacity()
    &&& post.output_capacity() == pre.output_capacity()
    &&& post.commands() == pre.commands()
    &&& pre.sent().is_prefix_of(post.sent())
    &&& (r matches Err(e) ==> e != MenuError::UnknownCommand)
    &&& if pre.input_cursor() == pre.input_capacity() {
        &&& r == Err::<(), MenuError>(MenuError::InputBufferOverflow)
        &&& post.sink() == pre.sink()
        &&& post.spec_state() == pre.spec_state()
        &&& post.input_cursor() == 0
    } else {
        let ev = post.reads().last();
        &&& post.reads() == pre.reads().push(ev)
        &&& ev.1 == pre.sent()
        &&& (ev.0 == Err::<Seq<u8>, IoDeviceError>(IoDeviceError::Disconnected) ==> ({
            &&& r == Err::<(), MenuError>(MenuError::Io(IoDeviceError::Disconnected))
            &&& post.sent() == pre.sent()
            &&& post.input_cursor() == 0
            &&& post.spec_state() == pre.spec_state()
        }))
        &&& (ev.0 == Err::<Seq<u8>, IoDeviceError>(IoDeviceError::BufferOverflow) ==> ({
            &&& r == Err::<(), MenuError>(MenuError::InputBufferOverflow)
            &&& post.sent() == pre.sent()
            &&& post.input_cursor() == 0
            &&& post.spec_state() == pre.spec_state()
        }))
        &&& (ev.0 matches Ok(chunk) ==> post.stream() == pre.stream() + chunk)
        &&& (ev.0 matches Ok(chunk) ==> exists|
            steps: Seq<(Output<IO>, S)>,
            results: Seq<Result<(), MenuError>>,
        |
            {
                &&& #[trigger] dispatch_chain(
                    steps,
                    results,
                    post.consumed().skip(pre.consumed().len() as int),
                    pre.commands(),
                )
                &&& steps.first().0.sent() == pre.sent()
                &&& steps.first().0.reads() == post.reads()
                &&& steps.first().0.capacity() == pre.output_capacity()
                &&& steps.first().0.pending() == pre.sink().pending()
                &&& steps.first().1 == pre.spec_state()
                &&& steps.last() == (post.sink(), post.spec_state())
                &&& (r matches Err(_) ==> results.len() > 0 && results.last() == r)
                &&& (r is Ok ==> forall|q: int|
                    0 <= q < results.len() ==> #[trigger] results[q] is Ok)
            })
        &&& (r is Ok ==> (ev.0 matches Ok(chunk) && post.consumed() == pre.consumed()
            + complete_lines(pre.buffered() + chunk) && post.buffered() == pending_line(
            pre.buffered() + chunk,
        )))
    }
}

/// The dispatcher's best-effort report of a recoverable pass error, as
/// the run loop performs it between passes: the input side is untouched
/// and the sink gains exactly the fixed message line for `e` — or the
/// attempt itself fails.
pub open spec fn reported_error<IO: IoDevice, S, HeadRouter: Router<IO, S>>(
    pre: MenuImpl<IO, S, HeadRouter>,
    post: MenuImpl<IO, S, HeadRouter>,
    e: MenuError,
    r2: Result<(), MenuError>,
) -> bool {
    &&& post.wf()
    &&& post.input_capacity() == pre.input_capacity()
    &&& post.output_capacity() == pre.output_capacity()
    &&& post.commands() == pre.commands()
    &&& post.buffered() == pre.buffered()
    &&& post.input_cursor() == pre.input_cursor()
    &&& post.stream() == pre.stream()
    &&& post.consumed() == pre.consumed()
    &&& post.spec_state() == pre.spec_state()
    &&& post.reads() == pre.reads()
    &&& match e {
        MenuError::UnknownCommand => wrote_line(pre.sink(), post.sink(), "Unknown command"@, r2),
        MenuError::Io(IoDeviceError::BufferOverflow) => wrote_line(
            pre.sink(),
            post.sink(),
            "IO buffer overflow"@,
            r2,
        ),
        MenuError::Utf8 => wrote_line(pre.sink(), post.sink(), "Input UTF8 error"@, r2),
        MenuError::InputBufferOverflow => wrote_line(
            pre.sink(),
            post.sink(),
            "Input buffer overflowed & dumped"@,
            r2,
        ),
        _ => false,
    }
}

/// One iteration of the run loop after which the menu keeps running: a
/// pass that succeeded, or one whose recoverable error was reported.
pub open spec fn continuing_pass<IO: IoDevice, S, HeadRouter: Router<IO, S>>(
    pre: MenuImpl<IO, S, HeadRouter>,
    post: MenuImpl<IO, S, HeadRouter>,
) -> bool {
    ||| assembly_pass(pre, post, Ok::<(), MenuError>(()))
    ||| exists|mid: MenuImpl<IO, S, HeadRouter>, e: MenuError|
        {
            &&& #[trigger] assembly_pass(pre, mid, Err(e))
            &&& e != MenuError::Io(IoDeviceError::Disconnected)
            &&& e != MenuError::OutputBufferOverflow
            &&& reported_error(mid, post, e, Ok::<(), MenuError>(()))
        }
}

/// A chain of run-loop iterations: each state steps to the next by one
/// iteration that kept the menu running.
pub open spec fn run_trace<IO: IoDevice, S, HeadRouter: Router<IO, S>>(
    states: Seq<MenuImpl<IO, S, HeadRouter>>,
) -> bool {
    forall|i: int|
        0 <= i < states.len() - 1 ==> #[trigger] continuing_pass(states[i], states[i + 1])
}

/// How the run loop ends, from the last state it had reached: its pass
/// budget ran out; the transport disconnected (during a read, or while a
/// report was being flushed — both a clean stop); the sink overflowed;
/// or the report of a recoverable error failed with some other error.
pub open spec fn stopping_pass<IO: IoDevice, S, HeadRouter: Router<IO, S>>(
    mid: MenuImpl<IO, S, HeadRouter>,
    post: MenuImpl<IO, S, HeadRouter>,
    r: Result<(), MenuError>,
) -> bool {
    ||| (r == Ok::<(), MenuError>(()) && post == mid)
    ||| (assembly_pass(mid, post, Err(MenuError::Io(IoDeviceError::Disconnected))) && r == Ok::<
        (),
        MenuError,
    >(()))
    ||| (assembly_pass(mid, post, Err(MenuError::OutputBufferOverflow)) && r == Err::<
        (),
        MenuError,
    >(MenuError::OutputBufferOverflow))
    ||| exists|m2: MenuImpl<IO, S, HeadRouter>, e: MenuError, r2: Result<(), MenuError>|
        {
            &&& assembly_pass(mid, m2, Err(e))
            &&& e != MenuError::Io(IoDeviceError::Disconnected)
            &&& e != MenuError::OutputBufferOverflow
            &&& #[trigger] reported_error(m2, post, e, r2)
            &&& r2 is Err
            &&& (r2 == Err::<(), MenuError>(MenuError::Io(IoDeviceError::Disconnected)) ==> r
                == Ok::<(), MenuError>(()))
            &&& (r2 != Err::<(), MenuError>(MenuError::Io(IoDeviceError::Disconnected)) ==> r
                == r2)
        }
}

/// Best-effort reporting of a recoverable error: each recoverable kind
/// is turned into its fixed message line; a disconnect or an output
/// buffer overflow is passed back unchanged, since no message can be
/// delivered then.
fn try_print_error<IO: IoDevice>(output: &mut Output<IO>, e: MenuError) -> (r: Result<
    (),
    MenuError,
>)
    requires
        old(output).wf(),
    ensures
        final(output).wf(),
        final(output).capacity() == old(output).capacity(),
        final(output).reads() == old(output).reads(),
        match e {
            MenuError::Io(IoDeviceError::Disconnected) => r == Err::<(), MenuError>(e)
                && *final(output) == *old(output),
            MenuError::UnknownCommand => wrote_line(
                *old(output),
                *final(output),
                "Unknown command"@,
                r,
            ),
            MenuError::Io(IoDeviceError::BufferOverflow) => wrote_line(
                *old(output),
                *final(output),
                "IO buffer overflow"@,
                r,
            ),
            MenuError::Utf8 => wrote_line(*old(output), *final(output), "Input UTF8 error"@, r),
            MenuError::InputBufferOverflow => wrote_line(
                *old(output),
                *final(output),
                "Input buffer overflowed & dumped"@,
                r,
            ),
            MenuError::OutputBufferOverflow => r == Err::<(), MenuError>(e) && *final(output)
                == *old(output),
        },
{
    match e {
        MenuError::Io(IoDeviceError::Disconnected) => Err(e),
        MenuError::UnknownCommand => output.write_line("Unknown command"),
        MenuError::Io(IoDeviceError::BufferOverflow) => output.write_line("IO buffer overflow"),
        MenuError::Utf8 => output.write_line("Input UTF8 error"),
        MenuError::InputBufferOverflow => output.write_line("Input buffer overflowed & dumped"),
        // We need to abort when the output buffer is full, since that
        // condition prevents us from delivering an error message.
        MenuError::OutputBufferOverflow => Err(e),
    }
}

impl<IO: IoDevice, S, HeadRouter: Router<IO, S>> MenuImpl<IO, S, HeadRouter> {
    /// The bytes read from the device and not yet consumed as lines.
    pub closed spec fn buffered(&self) -> Seq<u8> {
        self.input_buffer@.take(self.input_buffer_idx as int)
    }

    /// The fixed capacity of the input buffer.
    pub closed spec fn input_capacity(&self) -> nat {
        self.input_buffer@.len()
    }

    /// The fixed capacity of the output buffer.
    pub closed spec fn output_capacity(&self) -> nat {
        self.output.capacity()
    }

    /// The (name, help) bindings of the registered commands, in
    /// traversal order: most recently registered first.
    pub closed spec fn commands(&self) -> Seq<(Seq<char>, Seq<char>)> {
        self.head_router.commands()
    }

    /// Every packet delivered to the device so far, in order.
    pub closed spec fn sent(&self) -> Seq<Seq<u8>> {
        self.output.sent()
    }

    /// Every answer a read request got from the device so far, in
    /// order, each paired with the packets delivered when it was asked.
    pub closed spec fn reads(&self) -> Seq<(Result<Seq<u8>, IoDeviceError>, Seq<Seq<u8>>)> {
        self.output.reads()
    }

    /// How many unconsumed bytes the input buffer holds.
    pub closed spec fn input_cursor(&self) -> nat {
        self.input_buffer_idx as nat
    }

    /// How many buffered output bytes are waiting to be flushed.
    pub closed spec fn output_cursor(&self) -> nat {
        self.output.cursor()
    }

    /// The bytes accepted into the input buffer since the last dump.
    pub closed spec fn stream(&self) -> Seq<u8> {
        self.log@
    }

    /// The complete lines consumed from the stream so far, in order.
    pub closed spec fn consumed(&self) -> Seq<Seq<u8>> {
        self.consumed@
    }

    /// The menu state as the handlers have left it.
    pub closed spec fn spec_state(&self) -> S {
        self.state
    }

    /// The transport.
    pub closed spec fn device(&self) -> IO {
        self.output.device()
    }

    /// The output sink, as one specification value.
    pub closed spec fn sink(&self) -> Output<IO> {
        self.output
    }

    /// Well-formedness: the sink keeps its slack byte, the input cursor
    /// stays within the buffer, and the consumed lines plus the lines
    /// still buffered are exactly the lines of the accepted stream.
    pub closed spec fn wf(&self) -> bool {
        &&& self.output.wf()
        &&& self.input_buffer_idx <= self.input_buffer@.len()
        &&& complete_lines(self.log@) == self.consumed@ + complete_lines(self.buffered())
        &&& pending_line(self.log@) == pending_line(self.buffered())
    }

    /// Registers a new command with the menu, in front of everything
    /// registered before it.  That the name is not the reserved help
    /// word and contains no space is guaranteed at this point by the
    /// `Command` trait's contract on `name`.
    pub fn with_command<CMD: Command<IO, S>>(self) -> (r: MenuImpl<
        IO,
        S,
        NormalRouter<IO, S, HeadRouter, CMD>,
    >)
        requires
            self.wf(),
        ensures
            r.wf(),
            r.commands().len() == self.commands().len() + 1,
            r.commands().skip(1) == self.commands(),
            r.commands()[0] == (CMD::spec_name(), CMD::spec_help()),
            r.commands()[0].0 != "help"@,
            forall|i: int| 0 <= i < r.commands()[0].0.len() ==> r.commands()[0].0[i] != ' ',
            r.sent() == self.sent(),
            r.reads() == self.reads(),
            r.consumed() == self.consumed(),
            r.stream() == self.stream(),
            r.buffered() == self.buffered(),
            r.input_capacity() == self.input_capacity(),
            r.output_capacity() == self.output_capacity(),
            r.spec_state() == self.spec_state(),
            r.device() == self.device(),
    {
        let name = CMD::name();
        let help = CMD::help_string();
        let new_router = NormalRouter::<IO, S, HeadRouter, CMD>::new(name, help, self.head_router);
        proof {
            assert((seq![(name@, help@)] + new_router.commands().skip(1)).skip(1)
                =~= new_router.commands().skip(1));
        }
        let r = MenuImpl {
            head_router: new_router,
            input_buffer: self.input_buffer,
            input_buffer_idx: self.input_buffer_idx,
            output: self.output,
            state: self.state,
            log: self.log,
            consumed: self.consumed,
        };
        proof {
            assert(r.commands().skip(1) =~= self.commands());
            assert(r.commands()[0] == (name@, help@));
        }
        r
    }

    /// Handles one complete line: parse it, list the help on the
    /// reserved word, otherwise dispatch to the command chain, and turn
    /// a recoverable error into its report.  The input buffer is not
    /// touched.
    fn dispatch_line(&mut self, line: &Vec<u8>) -> (r: Result<(), MenuError>)
        requires
            old(self).output.wf(),
        ensures
            final(self).input_buffer == old(self).input_buffer,
            final(self).input_buffer_idx == old(self).input_buffer_idx,
            final(self).log == old(self).log,
            final(self).consumed == old(self).consumed,
            final(self).head_router == old(self).head_router,
            final(self).output.wf(),
            dispatched_line(
                old(self).output,
                final(self).output,
                old(self).state,
                final(self).state,
                line@,
                old(self).head_router.commands(),
                r,
            ),
    {
        let parsed = parse_line(line.as_slice());
        let (cmd, args) = match parsed {
            Ok(p) => p,
            Err(e) => {
                proof {
                    assert(old(self).output.sent().is_prefix_of(self.output.sent()));
                }
                return Err(e);
            },
        };
        if str_eq(cmd, "help") {
            match self.output.write_line("AVAILABLE COMMANDS:\n") {
                Ok(()) => {},
                Err(e) => {
                    proof {
                        lemma_wrote_line_prefix(
                            old(self).output,
                            self.output,
                            "AVAILABLE COMMANDS:\n"@,
                            Err(e),
                        );
                    }
                    return Err(e);
                },
            }
            let ghost mid = self.output;
            let r = self.head_router.print_help(&mut self.output);
            proof {
                let header = old(self).output.pending() + encode_utf8("AVAILABLE COMMANDS:\n"@)
                    + seq![nl()];
                assert(mid.sent() == old(self).output.sent().push(header));
                match r {
                    Ok(()) => {
                        assert(self.output.sent() =~= old(self).output.sent().push(header)
                            + help_lines(old(self).head_router.commands()));
                    },
                    Err(_) => {
                        let cmds = old(self).head_router.commands();
                        let k = choose|k: int|
                            0 <= k <= cmds.len() && self.output.sent() == mid.sent() + help_lines(
                                cmds,
                            ).take(k);
                        assert(self.output.sent() =~= old(self).output.sent().push(header)
                            + help_lines(cmds).take(k));
                    },
                }
                assert(old(self).output.sent().is_prefix_of(mid.sent())) by {
                    assert(old(self).output.sent() =~= mid.sent().subrange(
                        0,
                        old(self).output.sent().len() as int,
                    ));
                }
                lemma_prefix_trans(old(self).output.sent(), mid.sent(), self.output.sent());
            }
            r
        } else {
            let res = self.head_router.execute_or_forward(
                cmd,
                args,
                &mut self.output,
                &mut self.state,
            );
            match res {
                Ok(()) => Ok(()),
                Err(e) => {
                    let ghost mid = self.output;
                    let r2 = try_print_error(&mut self.output, e);
                    proof {
                        match e {
                            MenuError::Io(IoDeviceError::Disconnected) => {},
                            MenuError::OutputBufferOverflow => {},
                            MenuError::UnknownCommand => {
                                lemma_wrote_line_prefix(
                                    mid,
                                    self.output,
                                    "Unknown command"@,
                                    r2,
                                );
                            },
                            MenuError::Io(IoDeviceError::BufferOverflow) => {
                                lemma_wrote_line_prefix(
                                    mid,
                                    self.output,
                                    "IO buffer overflow"@,
                                    r2,
                                );
                            },
                            MenuError::Utf8 => {
                                lemma_wrote_line_prefix(mid, self.output, "Input UTF8 error"@, r2);
                            },
                            MenuError::InputBufferOverflow => {
                                lemma_wrote_line_prefix(
                                    mid,
                                    self.output,
                                    "Input buffer overflowed & dumped"@,
                                    r2,
                                );
                            },
                        }
                        lemma_prefix_trans(old(self).output.sent(), mid.sent(), self.output.sent());
                    }
                    r2
                },
            }
        }
    }

    /// Moves the bytes at `[from, write cursor)` to the front of the
    /// input buffer and books the complete lines before `from` — exactly
    /// the ghost `lines` — as consumed.
    fn compact_input(&mut self, from: usize, lines: Ghost<Seq<Seq<u8>>>)
        requires
            old(self).wf(),
            0 < from <= old(self).input_buffer_idx,
            line_scan(old(self).buffered().take(from as int)) == (lines@, Seq::<u8>::empty()),
        ensures
            final(self).wf(),
            final(self).input_buffer@.len() == old(self).input_buffer@.len(),
            final(self).output == old(self).output,
            final(self).state == old(self).state,
            final(self).head_router == old(self).head_router,
            final(self).log == old(self).log,
            final(self).consumed@ == old(self).consumed@ + lines@,
            final(self).buffered() == old(self).buffered().subrange(
                from as int,
                old(self).input_buffer_idx as int,
            ),
    {
        let idx = self.input_buffer_idx;
        let tail_len = idx - from;
        let mut j: usize = 0;
        while j < tail_len
            invariant
                0 < from,
                from + tail_len == idx,
                idx <= self.input_buffer@.len(),
                idx == self.input_buffer_idx,
                0 <= j <= tail_len,
                self.input_buffer@.len() == old(self).input_buffer@.len(),
                self.output == old(self).output,
                self.state == old(self).state,
                self.head_router == old(self).head_router,
                self.log == old(self).log,
                self.consumed == old(self).consumed,
                forall|k: int| 0 <= k < j ==> self.input_buffer@[k] == old(self).input_buffer@[from
                    + k],
                forall|k: int|
                    j <= k < self.input_buffer@.len() ==> self.input_buffer@[k] == old(
                        self,
                    ).input_buffer@[k],
            decreases tail_len - j,
        {
            let v = self.input_buffer[from + j];
            self.input_buffer[j] = v;
            j += 1;
        }
        self.input_buffer_idx = tail_len;
        self.consumed = Ghost(self.consumed@ + lines@);
        proof {
            let b = old(self).buffered();
            assert(b.len() == idx);
            assert(self.buffered() =~= b.subrange(from as int, idx as int));
            lemma_line_scan_concat(b.take(from as int), b.skip(from as int));
            assert(b.take(from as int) + b.skip(from as int) =~= b);
            assert(Seq::<u8>::empty() + b.skip(from as int) =~= b.skip(from as int));
            assert(complete_lines(b) == lines@ + complete_lines(b.skip(from as int)));
            assert(pending_line(b) == pending_line(b.skip(from as int)));
            assert(b.skip(from as int) =~= self.buffered());
            assert(old(self).consumed@ + (lines@ + complete_lines(self.buffered())) =~= (old(
                self,
            ).consumed@ + lines@) + complete_lines(self.buffered()));
        }
    }

    /// Scans the buffered bytes for newlines in order and handles each
    /// complete line; afterwards the handled lines are compacted away and
    /// only the trailing partial line is kept.  A line that fails UTF-8
    /// validation is itself consumed, but aborts the pass: the lines
    /// after it stay buffered for the next pass, so that none is
    /// silently skipped.
    fn process_lines_in_buffer(&mut self) -> (r: Result<(), MenuError>)
        requires
            old(self).wf(),
        ensures
            final(self).wf(),
            final(self).input_buffer@.len() == old(self).input_buffer@.len(),
            final(self).output.capacity() == old(self).output.capacity(),
            final(self).head_router == old(self).head_router,
            final(self).log == old(self).log,
            old(self).output.sent().is_prefix_of(final(self).output.sent()),
            exists|k: int|
                0 <= k <= complete_lines(old(self).buffered()).len() && final(self).consumed@
                    == old(self).consumed@ + complete_lines(old(self).buffered()).take(k),
            r is Ok ==> final(self).consumed@ == old(self).consumed@ + complete_lines(
                old(self).buffered(),
            ) && final(self).buffered() == pending_line(old(self).buffered()),
            r matches Err(e) ==> e != MenuError::InputBufferOverflow && e
                != MenuError::UnknownCommand,
            final(self).output.reads() == old(self).output.reads(),
            complete_lines(old(self).buffered()).len() == 0 ==> ({
                &&& r is Ok
                &&& final(self).output == old(self).output
                &&& final(self).state == old(self).state
                &&& final(self).input_buffer_idx == old(self).input_buffer_idx
                &&& final(self).input_buffer == old(self).input_buffer
            }),
            r == Err::<(), MenuError>(MenuError::Utf8) ==> final(self).consumed@.len() > old(
                self,
            ).consumed@.len() && ({
                let (cb, ab) = split_at_space(final(self).consumed@.last());
                !(valid_utf8(cb) && (ab matches Some(a) ==> valid_utf8(a)))
            }),
            exists|steps: Seq<(Output<IO>, S)>, results: Seq<Result<(), MenuError>>|
                {
                    &&& #[trigger] dispatch_chain(
                        steps,
                        results,
                        final(self).consumed@.skip(old(self).consumed@.len() as int),
                        old(self).head_router.commands(),
                    )
                    &&& steps.first() == (old(self).output, old(self).state)
                    &&& steps.last() == (final(self).output, final(self).state)
                    &&& (r matches Err(_) ==> results.len() > 0 && results.last() == r)
                    &&& (r is Ok ==> forall|i: int|
                        0 <= i < results.len() ==> #[trigger] results[i] is Ok)
                },
    {
        let ghost b0 = old(self).buffered();
        let idx = self.input_buffer_idx;
        let mut line_start: usize = 0;
        let mut i: usize = 0;
        let ghost mut done: Seq<Seq<u8>> = Seq::empty();
        let ghost mut steps: Seq<(Output<IO>, S)> = seq![(self.output, self.state)];
        let ghost mut results: Seq<Result<(), MenuError>> = Seq::empty();
        proof {
            assert(b0.take(0) =~= Seq::<u8>::empty());
            assert(b0.subrange(0, 0) =~= Seq::<u8>::empty());
        }
        while i < idx
            invariant
                self.wf(),
                idx == self.input_buffer_idx,
                0 <= line_start <= i <= idx,
                idx <= self.input_buffer@.len(),
                self.input_buffer == old(self).input_buffer,
                self.input_buffer_idx == old(self).input_buffer_idx,
                self.log == old(self).log,
                self.consumed == old(self).consumed,
                self.head_router == old(self).head_router,
                self.output.capacity() == old(self).output.capacity(),
                old(self).output.sent().is_prefix_of(self.output.sent()),
                self.output.reads() == old(self).output.reads(),
                b0 == old(self).buffered(),
                line_scan(b0.take(i as int)) == (done, b0.subrange(line_start as int, i as int)),
                line_scan(b0.take(line_start as int)) == (done, Seq::<u8>::empty()),
                dispatch_chain(steps, results, done, old(self).head_router.commands()),
                steps.first() == (old(self).output, old(self).state),
                steps.last() == (self.output, self.state),
                forall|q: int| 0 <= q < results.len() ==> #[trigger] results[q] is Ok,
                line_start == 0 ==> self.output == old(self).output && self.state == old(
                    self,
                ).state && done =~= Seq::<Seq<u8>>::empty(),
            decreases idx - i,
        {
            let c = self.input_buffer[i];
            proof {
                assert(b0[i as int] == c);
                assert(b0.take(i as int + 1) =~= b0.take(i as int).push(c));
                lemma_line_scan_push(b0.take(i as int), c);
            }
            if c == 10u8 {
                let line = slice_to_vec(
                    slice_subrange(self.input_buffer.as_slice(), line_start, i),
                );
                proof {
                    assert(line@ =~= b0.subrange(line_start as int, i as int));
                }
                let ghost pre_dispatch = *self;
                let r = self.dispatch_line(&line);
                proof {
                    done = done.push(line@);
                    let ghost old_steps = steps;
                    let ghost old_results = results;
                    steps = steps.push((self.output, self.state));
                    results = results.push(r);
                    lemma_prefix_trans(
                        old(self).output.sent(),
                        pre_dispatch.output.sent(),
                        self.output.sent(),
                    );
                    assert(line_scan(b0.take(i as int + 1)) == (done, Seq::<u8>::empty()));
                    assert forall|q: int| 0 <= q < done.len() implies #[trigger] dispatched_line(
                        steps[q].0,
                        steps[q + 1].0,
                        steps[q].1,
                        steps[q + 1].1,
                        done[q],
                        old(self).head_router.commands(),
                        results[q],
                    ) by {
                        if q < done.len() - 1 {
                            assert(steps[q] == old_steps[q]);
                            assert(steps[q + 1] == old_steps[q + 1]);
                            assert(done[q] == done.drop_last()[q]);
                            assert(results[q] == old_results[q]);
                        } else {
                            assert(steps[q] == (pre_dispatch.output, pre_dispatch.state));
                            assert(steps[q + 1] == (self.output, self.state));
                            assert(done[q] == line@);
                            assert(results[q] == r);
                        }
                    }
                    assert(dispatch_chain(
                        steps,
                        results,
                        done,
                        old(self).head_router.commands(),
                    ));
                }
                match r {
                    Ok(()) => {
                        line_start = i + 1;
                    },
                    Err(e) => {
                        proof {
                            lemma_complete_lines_take_prefix(b0, i as int + 1);
                        }
                        self.compact_input(i + 1, Ghost(done));
                        proof {
                            assert(self.consumed@ == old(self).consumed@ + complete_lines(
                                b0,
                            ).take(done.len() as int));
                            assert(self.consumed@.skip(old(self).consumed@.len() as int)
                                =~= done);
                            assert(self.consumed@.last() == line@);
                            if complete_lines(b0).len() == 0 {
                                assert(complete_lines(b0).len() >= done.len());
                            }
                        }
                        return Err(e);
                    },
                }
            }
            i += 1;
        }
        proof {
            assert(b0.take(idx as int) =~= b0);
        }
        if line_start == 0 {
            proof {
                assert(b0.take(0) =~= Seq::<u8>::empty());
                assert(done =~= Seq::<Seq<u8>>::empty());
                assert(complete_lines(b0) =~= done);
                assert(self.consumed@ =~= old(self).consumed@ + complete_lines(b0).take(0));
                assert(self.buffered() =~= b0.subrange(0, idx as int));
                assert(self.buffered() =~= pending_line(b0));
                assert(self.consumed@.skip(old(self).consumed@.len() as int) =~= done);
            }
            return Ok(());
        }
        proof {
            lemma_complete_lines_take_prefix(b0, line_start as int);
            assert(complete_lines(b0) == done);
        }
        self.compact_input(line_start, Ghost(done));
        proof {
            assert(self.consumed@ == old(self).consumed@ + complete_lines(b0));
            assert(self.consumed@ =~= old(self).consumed@ + complete_lines(b0).take(
                complete_lines(b0).len() as int,
            ));
            assert(self.buffered() =~= pending_line(b0));
            assert(self.consumed@.skip(old(self).consumed@.len() as int) =~= done);
        }
        Ok(())
    }

    /// One pass of input assembly: read a packet into the free tail of
    /// the input buffer, then process every complete line it finished.
    /// A full buffer fails at once with `InputBufferOverflow`, before
    /// any read.  A failed read dumps the whole buffer — partial data of
    /// unknown boundary cannot be salvaged — and reports the error with
    /// nothing written to the output.
    fn read_input(&mut self) -> (r: Result<(), MenuError>)
        requires
            old(self).wf(),
        ensures
            final(self).wf(),
            final(self).input_buffer@.len() == old(self).input_buffer@.len(),
            final(self).output.capacity() == old(self).output.capacity(),
            final(self).head_router == old(self).head_router,
            old(self).output.sent().is_prefix_of(final(self).output.sent()),
            r matches Err(e) ==> e != MenuError::UnknownCommand,
            r matches Err(e) ==> ({
                ||| {
                    &&& final(self).output.sent() == old(self).output.sent()
                    &&& final(self).state == old(self).state
                    &&& final(self).input_buffer_idx == 0
                    &&& (e == MenuError::InputBufferOverflow || e == MenuError::Io(
                        IoDeviceError::Disconnected,
                    ))
                }
                ||| e != MenuError::InputBufferOverflow
            }),
            old(self).input_buffer_idx == old(self).input_buffer@.len() ==> ({
                &&& r == Err::<(), MenuError>(MenuError::InputBufferOverflow)
                &&& final(self).output == old(self).output
                &&& final(self).state == old(self).state
                &&& final(self).input_buffer_idx == 0
            }),
            old(self).input_buffer_idx < old(self).input_buffer@.len() ==> ({
                let ev = final(self).output.reads().last();
                &&& final(self).output.reads() == old(self).output.reads().push(ev)
                &&& ev.1 == old(self).output.sent()
                &&& (ev.0 == Err::<Seq<u8>, IoDeviceError>(IoDeviceError::Disconnected) ==> ({
                    &&& r == Err::<(), MenuError>(MenuError::Io(IoDeviceError::Disconnected))
                    &&& final(self).output.sent() == old(self).output.sent()
                    &&& final(self).input_buffer_idx == 0
                    &&& final(self).state == old(self).state
                }))
                &&& (ev.0 == Err::<Seq<u8>, IoDeviceError>(IoDeviceError::BufferOverflow) ==> ({
                    &&& r == Err::<(), MenuError>(MenuError::InputBufferOverflow)
                    &&& final(self).output.sent() == old(self).output.sent()
                    &&& final(self).input_buffer_idx == 0
                    &&& final(self).state == old(self).state
                }))
                &&& (ev.0 matches Ok(chunk) ==> final(self).log@ == old(self).log@ + chunk)
                &&& (ev.0 matches Ok(chunk) ==> exists|
                    steps: Seq<(Output<IO>, S)>,
                    results: Seq<Result<(), MenuError>>,
                |
                    {
                        &&& #[trigger] dispatch_chain(
                            steps,
                            results,
                            final(self).consumed@.skip(old(self).consumed@.len() as int),
                            old(self).head_router.commands(),
                        )
                        &&& steps.first().0.sent() == old(self).output.sent()
                        &&& steps.first().0.reads() == final(self).output.reads()
                        &&& steps.first().0.capacity() == old(self).output.capacity()
                        &&& steps.first().0.pending() == old(self).output.pending()
                        &&& steps.first().1 == old(self).state
                        &&& steps.last() == (final(self).output, final(self).state)
                        &&& (r matches Err(_) ==> results.len() > 0 && results.last() == r)
                        &&& (r is Ok ==> forall|q: int|
                            0 <= q < results.len() ==> #[trigger] results[q] is Ok)
                    })
            }),
            r is Ok ==> exists|chunk: Seq<u8>|
                final(self).log@ == old(self).log@ + chunk && final(self).consumed@ == old(
                    self,
                ).consumed@ + complete_lines(old(self).buffered() + chunk) && final(self).buffered()
                    == pending_line(old(self).buffered() + chunk),
    {
        let cap = self.input_buffer.len();
        let read_result: Result<Vec<u8>, MenuError> = if self.input_buffer_idx < cap {
            match self.output.read_packet(cap - self.input_buffer_idx) {
                Ok(data) => Ok(data),
                Err(IoDeviceError::BufferOverflow) => Err(MenuError::InputBufferOverflow),
                Err(other) => Err(MenuError::Io(other)),
            }
        } else {
            Err(MenuError::InputBufferOverflow)
        };

        match read_result {
            Ok(data) => {
                let ghost o1 = self.output;
                let n = data.len();
                let start = self.input_buffer_idx;
                proof {
                    assert(start + n <= self.input_buffer@.len());
                }
                let mut j: usize = 0;
                while j < n
                    invariant
                        n == data@.len(),
                        cap == self.input_buffer@.len(),
                        start + n <= cap,
                        0 <= j <= n,
                        start == self.input_buffer_idx,
                        self.input_buffer@.len() == old(self).input_buffer@.len(),
                        self.output == o1,
                        o1.wf(),
                        o1.capacity() == old(self).output.capacity(),
                        o1.sent() == old(self).output.sent(),
                        self.state == old(self).state,
                        self.head_router == old(self).head_router,
                        self.log == old(self).log,
                        self.consumed == old(self).consumed,
                        forall|k: int|
                            0 <= k < start ==> self.input_buffer@[k] == old(self).input_buffer@[k],
                        forall|k: int| 0 <= k < j ==> self.input_buffer@[start + k] == data@[k],
                    decreases n - j,
                {
                    let v = data[j];
                    self.input_buffer[start + j] = v;
                    j += 1;
                }
                self.input_buffer_idx = start + n;
                self.log = Ghost(self.log@ + data@);
                proof {
                    assert(self.buffered() =~= old(self).buffered() + data@);
                    let l0 = old(self).log@;
                    let b = old(self).buffered();
                    lemma_line_scan_concat(l0, data@);
                    lemma_line_scan_concat(b, data@);
                    assert(pending_line(l0) == pending_line(b));
                    assert(complete_lines(self.log@) =~= old(self).consumed@ + complete_lines(
                        self.buffered(),
                    ));
                    assert(pending_line(self.log@) == pending_line(self.buffered()));
                    assert(self.wf());
                }
                let ghost pre_process = *self;
                let r = self.process_lines_in_buffer();
                proof {
                    if r is Ok {
                        let chunk = data@;
                        assert(self.log@ == old(self).log@ + chunk);
                        assert(self.consumed@ == old(self).consumed@ + complete_lines(
                            old(self).buffered() + chunk,
                        ));
                        assert(self.buffered() == pending_line(old(self).buffered() + chunk));
                    }
                    let (steps, results) = choose|
                        steps: Seq<(Output<IO>, S)>,
                        results: Seq<Result<(), MenuError>>,
                    |
                        {
                            &&& #[trigger] dispatch_chain(
                                steps,
                                results,
                                self.consumed@.skip(pre_process.consumed@.len() as int),
                                pre_process.head_router.commands(),
                            )
                            &&& steps.first() == (pre_process.output, pre_process.state)
                            &&& steps.last() == (self.output, self.state)
                            &&& (r matches Err(_) ==> results.len() > 0 && results.last() == r)
                            &&& (r is Ok ==> forall|q: int|
                                0 <= q < results.len() ==> #[trigger] results[q] is Ok)
                        };
                    assert(dispatch_chain(
                        steps,
                        results,
                        self.consumed@.skip(old(self).consumed@.len() as int),
                        old(self).head_router.commands(),
                    ));
                    assert(steps.first().0.sent() == old(self).output.sent());
                    assert(steps.first().0.reads() == self.output.reads());
                }
                r
            },
            Err(e) => {
                self.input_buffer_idx = 0;
                self.log = Ghost(Seq::empty());
                self.consumed = Ghost(Seq::empty());
                proof {
                    assert(self.buffered() =~= Seq::<u8>::empty());
                    assert(complete_lines(Seq::<u8>::empty()) =~= Seq::<Seq<u8>>::empty());
                    assert(pending_line(Seq::<u8>::empty()) =~= Seq::<u8>::empty());
                    assert(self.wf());
                }
                Err(e)
            },
        }
    }
}

impl<IO: IoDevice, S, HeadRouter: Router<IO, S>> Menu<IO, S> for MenuImpl<IO, S, HeadRouter> {
    /// Running needs and keeps `wf`.
    open spec fn inv(&self) -> bool {
        self.wf()
    }

    /// Drives input assembly until the device disconnects or a fatal
    /// error occurs.  A disconnect is a clean stop.  An output buffer
    /// overflow stops with that failure: the sink that would report an
    /// error is itself full.  Every other error is reported through the
    /// sink as its fixed message line and the menu keeps running; only
    /// when that report itself cannot be delivered does the menu stop.
    fn run(&mut self) -> (r: Result<(), MenuError>)
        ensures
            final(self).input_capacity() == old(self).input_capacity(),
            final(self).output_capacity() == old(self).output_capacity(),
            final(self).commands() == old(self).commands(),
            old(self).sent().is_prefix_of(final(self).sent()),
            old(self).reads().is_prefix_of(final(self).reads()),
            final(self).reads().len() > old(self).reads().len() && final(self).reads().last().0
                == Err::<Seq<u8>, IoDeviceError>(IoDeviceError::Disconnected) ==> r == Ok::<
                (),
                MenuError,
            >(()) && final(self).sent() == final(self).reads().last().1,
            old(self).input_cursor() == old(self).input_capacity() && old(self).output_cursor()
                + encode_utf8("Input buffer overflowed & dumped"@).len() + 1 >= old(
                self,
            ).output_capacity() ==> r == Err::<(), MenuError>(MenuError::OutputBufferOverflow),
            exists|states: Seq<MenuImpl<IO, S, HeadRouter>>|
                {
                    &&& #[trigger] run_trace(states)
                    &&& states.len() >= 1
                    &&& states.first() == *old(self)
                    &&& stopping_pass(states.last(), *final(self), r)
                },
    {
        // The loop is bounded by a pass counter so large that it never
        // runs out in practice; Verus asks every loop for a decreasing
        // measure, and an open-ended session has no other one.
        let mut fuel: usize = usize::MAX;
        let ghost mut first: bool = true;
        let ghost mut states: Seq<MenuImpl<IO, S, HeadRouter>> = seq![*old(self)];
        loop
            invariant
                run_trace(states),
                states.len() >= 1,
                states.first() == *old(self),
                states.last() == *self,
                self.wf(),
                self.input_buffer@.len() == old(self).input_buffer@.len(),
                self.output.capacity() == old(self).output.capacity(),
                self.head_router == old(self).head_router,
                old(self).output.sent().is_prefix_of(self.output.sent()),
                old(self).output.reads().is_prefix_of(self.output.reads()),
                self.output.reads().len() > old(self).output.reads().len()
                    ==> self.output.reads().last().0 != Err::<Seq<u8>, IoDeviceError>(
                    IoDeviceError::Disconnected,
                ),
                first ==> *self == *old(self) && fuel > 0,
                !first ==> !(old(self).input_cursor() == old(self).input_capacity() && old(
                    self,
                ).output_cursor() + encode_utf8("Input buffer overflowed & dumped"@).len() + 1
                    >= old(self).output_capacity()),
            decreases fuel,
        {
            if fuel == 0 {
                proof {
                    assert(stopping_pass(*self, *self, Ok::<(), MenuError>(())));
                }
                return Ok(());
            }
            fuel = fuel - 1;
            let ghost pre = *self;
            let r = self.read_input();
            proof {
                first = false;
                lemma_prefix_trans(old(self).output.sent(), pre.output.sent(), self.output.sent());
                if pre.output.reads().len() < self.output.reads().len() {
                    assert(old(self).output.reads().is_prefix_of(pre.output.reads()));
                    assert(old(self).output.reads().is_prefix_of(self.output.reads())) by {
                        assert(old(self).output.reads() =~= self.output.reads().subrange(
                            0,
                            old(self).output.reads().len() as int,
                        ));
                    }
                }
                if pre.input_cursor() < pre.input_capacity() {
                    let ev = self.output.reads().last();
                    if ev.0 is Ok {
                        let chunk = ev.0->Ok_0;
                        let (steps, results) = choose|
                            steps: Seq<(Output<IO>, S)>,
                            results: Seq<Result<(), MenuError>>,
                        |
                            {
                                &&& #[trigger] dispatch_chain(
                                    steps,
                                    results,
                                    self.consumed@.skip(pre.consumed@.len() as int),
                                    pre.head_router.commands(),
                                )
                                &&& steps.first().0.sent() == pre.output.sent()
                                &&& steps.first().0.reads() == self.output.reads()
                                &&& steps.first().0.capacity() == pre.output.capacity()
                                &&& steps.first().0.pending() == pre.output.pending()
                                &&& steps.first().1 == pre.state
                                &&& steps.last() == (self.output, self.state)
                                &&& (r matches Err(_) ==> results.len() > 0 && results.last()
                                    == r)
                                &&& (r is Ok ==> forall|q: int|
                                    0 <= q < results.len() ==> #[trigger] results[q] is Ok)
                            };
                        assert(exists|
                            steps2: Seq<(Output<IO>, S)>,
                            results2: Seq<Result<(), MenuError>>,
                        |
                            {
                                &&& #[trigger] dispatch_chain(
                                    steps2,
                                    results2,
                                    self.consumed().skip(pre.consumed().len() as int),
                                    pre.commands(),
                                )
                                &&& steps2.first().0.sent() == pre.sent()
                                &&& steps2.first().0.reads() == self.reads()
                                &&& steps2.first().0.capacity() == pre.output_capacity()
                                &&& steps2.first().0.pending() == pre.sink().pending()
                                &&& steps2.first().1 == pre.spec_state()
                                &&& steps2.last() == (self.sink(), self.spec_state())
                                &&& (r matches Err(_) ==> results2.len() > 0 && results2.last()
                                    == r)
                                &&& (r is Ok ==> forall|q: int|
                                    0 <= q < results2.len() ==> #[trigger] results2[q] is Ok)
                            }) by {
                            assert(dispatch_chain(
                                steps,
                                results,
                                self.consumed().skip(pre.consumed().len() as int),
                                pre.commands(),
                            ));
                        }
                        if r is Ok {
                            let c2 = choose|c2: Seq<u8>|
                                self.log@ == pre.log@ + c2 && self.consumed@ == pre.consumed@
                                    + complete_lines(pre.buffered() + c2) && self.buffered()
                                    == pending_line(pre.buffered() + c2);
                            assert(chunk =~= (pre.stream() + chunk).subrange(
                                pre.stream().len() as int,
                                (pre.stream() + chunk).len() as int,
                            ));
                            assert(c2 =~= (pre.stream() + c2).subrange(
                                pre.stream().len() as int,
                                (pre.stream() + c2).len() as int,
                            ));
                            assert(c2 == chunk);
                        }
                    } else {
                        if r is Ok {
                            let err = ev.0->Err_0;
                            assert(ev.0 == Err::<Seq<u8>, IoDeviceError>(err));
                            match err {
                                IoDeviceError::Disconnected => {
                                    assert(r == Err::<(), MenuError>(
                                        MenuError::Io(IoDeviceError::Disconnected),
                                    ));
                                },
                                IoDeviceError::BufferOverflow => {
                                    assert(r == Err::<(), MenuError>(
                                        MenuError::InputBufferOverflow,
                                    ));
                                },
                            }
                            assert(false);
                        }
                    }
                }
                assert(assembly_pass(pre, *self, r));
            }
            match r {
                Ok(()) => {
                    proof {
                        assert(continuing_pass(pre, *self));
                        let ghost old_states = states;
                        states = states.push(*self);
                        assert forall|q: int| 0 <= q < states.len() - 1 implies
                            #[trigger] continuing_pass(states[q], states[q + 1]) by {
                            if q < old_states.len() - 1 {
                                assert(states[q] == old_states[q]);
                                assert(states[q + 1] == old_states[q + 1]);
                            } else {
                                assert(states[q] == pre);
                                assert(states[q + 1] == *self);
                            }
                        }
                    }
                },
                Err(MenuError::Io(IoDeviceError::Disconnected)) => {
                    proof {
                        assert(stopping_pass(pre, *self, Ok::<(), MenuError>(())));
                    }
                    return Ok(());
                },
                Err(MenuError::OutputBufferOverflow) => {
                    proof {
                        assert(stopping_pass(
                            pre,
                            *self,
                            Err::<(), MenuError>(MenuError::OutputBufferOverflow),
                        ));
                    }
                    return Err(MenuError::OutputBufferOverflow);
                },
                Err(e) => {
                    let ghost after_read = *self;
                    let ghost mid = self.output;
                    let r2 = try_print_error(&mut self.output, e);
                    proof {
                        match e {
                            MenuError::UnknownCommand => {
                                lemma_wrote_line_prefix(
                                    mid,
                                    self.output,
                                    "Unknown command"@,
                                    r2,
                                );
                            },
                            MenuError::Io(IoDeviceError::BufferOverflow) => {
                                lemma_wrote_line_prefix(
                                    mid,
                                    self.output,
                                    "IO buffer overflow"@,
                                    r2,
                                );
                            },
                            MenuError::Utf8 => {
                                lemma_wrote_line_prefix(mid, self.output, "Input UTF8 error"@, r2);
                            },
                            MenuError::InputBufferOverflow => {
                                lemma_wrote_line_prefix(
                                    mid,
                                    self.output,
                                    "Input buffer overflowed & dumped"@,
                                    r2,
                                );
                            },
                            _ => {},
                        }
                        lemma_prefix_trans(old(self).output.sent(), mid.sent(), self.output.sent());
                        assert(reported_error(after_read, *self, e, r2));
                    }
                    match r2 {
                        Ok(()) => {
                            proof {
                                assert(continuing_pass(pre, *self));
                                let ghost old_states = states;
                                states = states.push(*self);
                                assert forall|q: int| 0 <= q < states.len() - 1 implies
                                    #[trigger] continuing_pass(states[q], states[q + 1]) by {
                                    if q < old_states.len() - 1 {
                                        assert(states[q] == old_states[q]);
                                        assert(states[q + 1] == old_states[q + 1]);
                                    } else {
                                        assert(states[q] == pre);
                                        assert(states[q + 1] == *self);
                                    }
                                }
                            }
                        },
                        Err(MenuError::Io(IoDeviceError::Disconnected)) => {
                            proof {
                                assert(stopping_pass(pre, *self, Ok::<(), MenuError>(())));
                            }
                            return Ok(());
                        },
                        Err(e2) => {
                            proof {
                                assert(stopping_pass(pre, *self, Err::<(), MenuError>(e2)));
                            }
                            return Err(e2);
                        },
                    }
                },
            }
        }
    }

    fn into_parts(self) -> (r: (IO, S))
        ensures
            r.0 == self.device(),
            r.1 == self.spec_state(),
    {
        (self.output.into_device(), self.state)
    }
}

/// The menu's bookkeeping law, holding in every well-formed state — so
/// after construction, registration and every pass of the run loop: the
/// lines consumed so far, followed by the complete lines still buffered,
/// are exactly the complete lines of the whole accepted byte stream, and
/// the buffered partial line is the stream's own trailing partial line.
/// Together with `lemma_assemble_fragments` this is fragmentation
/// invariance at the executable level: what was dispatched depends only
/// on the concatenation of the reads, never on how it was split.
pub proof fn lemma_stream_accounting<IO: IoDevice, S, HeadRouter: Router<IO, S>>(
    m: MenuImpl<IO, S, HeadRouter>,
)
    requires
        m.wf(),
    ensures
        complete_lines(m.stream()) == m.consumed() + complete_lines(m.buffered()),
        pending_line(m.stream()) == pending_line(m.buffered()),
{
}

/// Returns an empty menu over the given transport, state and buffers; it
/// can be extended with `with_command` and then run.
pub fn make_menu<IO: IoDevice, S>(
    io_device: IO,
    state: S,
    input_buffer: Vec<u8>,
    output_buffer: Vec<u8>,
) -> (m: MenuImpl<IO, S, FinalRouter>)
    ensures
        m.wf(),
        m.commands() == Seq::<(Seq<char>, Seq<char>)>::empty(),
        m.sent() == Seq::<Seq<u8>>::empty(),
        m.reads() == Seq::<(Result<Seq<u8>, IoDeviceError>, Seq<Seq<u8>>)>::empty(),
        m.consumed() == Seq::<Seq<u8>>::empty(),
        m.input_cursor() == 0,
        m.output_cursor() == 0,
        m.stream() == Seq::<u8>::empty(),
        m.buffered() == Seq::<u8>::empty(),
        m.input_capacity() == input_buffer@.len(),
        m.output_capacity() == output_buffer@.len(),
        m.spec_state() == state,
        m.device() == io_device,
{
    let m = MenuImpl {
        head_router: FinalRouter {  },
        input_buffer,
        input_buffer_idx: 0,
        output: Output::new(io_device, output_buffer),
        state,
        log: Ghost(Seq::empty()),
        consumed: Ghost(Seq::empty()),
    };
    proof {
        assert(m.buffered() =~= Seq::<u8>::empty());
        assert(complete_lines(Seq::<u8>::empty()) =~= Seq::<Seq<u8>>::empty());
        assert(pending_line(Seq::<u8>::empty()) =~= Seq::<u8>::empty());
    }
    m
}

} // verus!
