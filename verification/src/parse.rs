//! Splitting one line into a command name and an optional argument string.

use vstd::prelude::*;
use vstd::slice::slice_index_get;
use vstd::slice::slice_subrange;
use vstd::string::StringSliceAdditionalSpecFns;
use vstd::utf8::decode_utf8;
use vstd::utf8::encode_utf8;
use vstd::utf8::valid_utf8;

use crate::errors::MenuError;

verus! {

/// The space byte that separates a command from its arguments.
pub open spec fn sp() -> u8 {
    32
}

/// The index of the first space in `s`, or `s.len()` when there is none.
pub open spec fn first_space_idx(s: Seq<u8>) -> int
    decreases s.len(),
{
    if s.len() == 0 {
        0
    } else if s[0] == sp() {
        0
    } else {
        1 + first_space_idx(s.drop_first())
    }
}

/// How one line's bytes are split into a command and optional arguments.
///
/// The line is split at its first space only when that space is neither
/// the first byte nor the last: the command is everything before the
/// space and the arguments everything after it (verbatim, further spaces
/// included).  Otherwise — no space at all, a space at index zero, or a
/// space as the final byte — the whole line is the command and there are
/// no arguments.  In particular a line beginning with a space is one
/// command token that keeps its leading space.
pub open spec fn split_at_space(s: Seq<u8>) -> (Seq<u8>, Option<Seq<u8>>) {
    let i = first_space_idx(s);
    if 0 < i && i + 1 < s.len() {
        (s.subrange(0, i), Some(s.subrange(i + 1, s.len() as int)))
    } else {
        (s, None)
    }
}

/// Bounds and characterisation of `first_space_idx`.
pub proof fn lemma_first_space_idx(s: Seq<u8>)
    ensures
        0 <= first_space_idx(s) <= s.len(),
        first_space_idx(s) < s.len() ==> s[first_space_idx(s)] == sp(),
        forall|j: int| 0 <= j < first_space_idx(s) ==> s[j] != sp(),
    decreases s.len(),
{
    if s.len() == 0 {
    } else if s[0] == sp() {
    } else {
        let d = s.drop_first();
        lemma_first_space_idx(d);
        let i = first_space_idx(s);
        assert(i == 1 + first_space_idx(d));
        if i < s.len() {
            assert(s[i] == d[i - 1]);
        }
        assert forall|j: int| 0 <= j < i implies s[j] != sp() by {
            if j > 0 {
                assert(s[j] == d[j - 1]);
            }
        }
    }
}

/// `first_space_idx` is the unique index with no space before it that is
/// either a space or the end of the sequence.
pub proof fn lemma_first_space_at(s: Seq<u8>, i: int)
    requires
        0 <= i <= s.len(),
        forall|j: int| 0 <= j < i ==> s[j] != sp(),
        i < s.len() ==> s[i] == sp(),
    ensures
        first_space_idx(s) == i,
{
    lemma_first_space_idx(s);
    let f = first_space_idx(s);
    if f < i {
        assert(s[f] == sp());
    } else if f > i {
        assert(i < s.len());
        assert(s[i] != sp());
    }
}

/// Appending to a space-free prefix only shifts the first space.
proof fn lemma_first_space_idx_concat(a: Seq<u8>, b: Seq<u8>)
    requires
        forall|j: int| 0 <= j < a.len() ==> a[j] != sp(),
    ensures
        first_space_idx(a + b) == a.len() + first_space_idx(b),
    decreases a.len(),
{
    if a.len() == 0 {
        assert(a + b =~= b);
    } else {
        let s = a + b;
        assert(s[0] == a[0]);
        assert(s.drop_first() =~= a.drop_first() + b);
        assert forall|j: int| 0 <= j < a.drop_first().len() implies a.drop_first()[j] != sp() by {
            assert(a.drop_first()[j] == a[j + 1]);
        }
        lemma_first_space_idx_concat(a.drop_first(), b);
    }
}

/// A line without a space is one command token with no arguments.
pub proof fn lemma_split_no_space(line: Seq<u8>)
    requires
        forall|j: int| 0 <= j < line.len() ==> line[j] != sp(),
    ensures
        split_at_space(line) == (line, Option::<Seq<u8>>::None),
{
    lemma_first_space_at(line, line.len() as int);
}

/// A line of the shape `<cmd> <rest>` with a space-free non-empty command
/// and non-empty rest splits into exactly that command and those
/// arguments, also when the rest itself contains further spaces.
pub proof fn lemma_split_with_args(cmd: Seq<u8>, rest: Seq<u8>)
    requires
        cmd.len() > 0,
        rest.len() > 0,
        forall|j: int| 0 <= j < cmd.len() ==> cmd[j] != sp(),
    ensures
        split_at_space(cmd + seq![sp()] + rest) == (cmd, Some(rest)),
{
    let s = cmd + seq![sp()] + rest;
    assert(s =~= cmd + (seq![sp()] + rest));
    lemma_first_space_idx_concat(cmd, seq![sp()] + rest);
    assert((seq![sp()] + rest)[0] == sp());
    assert(first_space_idx(seq![sp()] + rest) == 0);
    let i = first_space_idx(s);
    assert(i == cmd.len());
    assert(i + 1 < s.len());
    assert(s.subrange(0, i) =~= cmd);
    assert(s.subrange(i + 1, s.len() as int) =~= rest);
}

/// Whether two string slices hold the same characters, decided by
/// comparing their bytes: UTF-8 encoding is injective.
pub(crate) fn str_eq(a: &str, b: &str) -> (r: bool)
    ensures
        r == (a@ == b@),
{
    broadcast use vstd::utf8::encode_utf8_decode_utf8;

    let ab = a.as_bytes();
    let bb = b.as_bytes();
    if ab.len() != bb.len() {
        return false;
    }
    let mut i: usize = 0;
    while i < ab.len()
        invariant
            ab@ == a.spec_bytes(),
            bb@ == b.spec_bytes(),
            ab@.len() == bb@.len(),
            0 <= i <= ab@.len(),
            forall|j: int| 0 <= j < i ==> ab@[j] == bb@[j],
        decreases ab@.len() - i,
    {
        if *slice_index_get(ab, i) != *slice_index_get(bb, i) {
            return false;
        }
        i += 1;
    }
    proof {
        assert(ab@ =~= bb@);
        assert(decode_utf8(encode_utf8(a@)) == a@);
        assert(decode_utf8(encode_utf8(b@)) == b@);
    }
    true
}

/// Relies on `core::str::from_utf8`: it succeeds exactly on input that is
/// valid UTF-8 and returns a string slice viewing the same bytes.
#[verifier::external_body]
fn bytes_to_str<'a>(v: &'a [u8]) -> (r: Option<&'a str>)
    ensures
        match r {
            Some(s) => valid_utf8(v@) && s.spec_bytes() == v@,
            None => !valid_utf8(v@),
        },
{
    match core::str::from_utf8(v) {
        Ok(s) => Some(s),
        Err(_) => None,
    }
}

/// Splits one line's bytes into a command and optional arguments, as
/// `split_at_space` describes, validating each piece as UTF-8.
pub fn parse_line<'a>(cmd_string: &'a [u8]) -> (r: Result<(&'a str, Option<&'a str>), MenuError>)
    ensures
        ({
            let (cb, ab) = split_at_space(cmd_string@);
            match r {
                Ok((cmd, args)) => {
                    &&& valid_utf8(cb)
                    &&& cmd.spec_bytes() == cb
                    &&& cmd@ == decode_utf8(cb)
                    &&& match (args, ab) {
                        (None, None) => true,
                        (Some(a), Some(abs)) => valid_utf8(abs) && a.spec_bytes() == abs && a@
                            == decode_utf8(abs),
                        _ => false,
                    }
                },
                Err(e) => {
                    &&& e == MenuError::Utf8
                    &&& (!valid_utf8(cb) || (ab matches Some(abs) && !valid_utf8(abs)))
                },
            }
        }),
{
    broadcast use vstd::utf8::encode_utf8_decode_utf8;

    let n = cmd_string.len();
    let mut i: usize = 0;
    while i < n && cmd_string[i] != 32u8
        invariant
            n == cmd_string@.len(),
            0 <= i <= n,
            forall|j: int| 0 <= j < i ==> cmd_string@[j] != sp(),
        decreases n - i,
    {
        i += 1;
    }
    let space_idx: usize = if i < n {
        i
    } else {
        0
    };
    proof {
        if i < n {
            lemma_first_space_at(cmd_string@, i as int);
        } else {
            lemma_first_space_at(cmd_string@, n as int);
        }
    }

    if space_idx > 0 && space_idx + 1 < n {
        let cmd_bytes = slice_subrange(cmd_string, 0, space_idx);
        let args_bytes = slice_subrange(cmd_string, space_idx + 1, n);
        let cmd = match bytes_to_str(cmd_bytes) {
            Some(c) => c,
            None => {
                return Err(MenuError::Utf8);
            },
        };
        let args = match bytes_to_str(args_bytes) {
            Some(a) => a,
            None => {
                return Err(MenuError::Utf8);
            },
        };
        Ok((cmd, Some(args)))
    } else {
        let cmd = match bytes_to_str(cmd_string) {
            Some(c) => c,
            None => {
                return Err(MenuError::Utf8);
            },
        };
        Ok((cmd, None))
    }
}

} // verus!
