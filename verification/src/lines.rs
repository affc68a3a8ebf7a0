//! The mathematical model of line assembly.
//!
//! A byte stream is split at `\n` bytes into a sequence of complete lines
//! (the terminators are consumed, never part of a line) and a trailing
//! partial line that is still waiting for its terminator.

use vstd::prelude::*;

verus! {

/// The newline byte that terminates a line.
pub open spec fn nl() -> u8 {
    10
}

/// Scans a byte stream and returns the pair of its complete lines (in
/// order) and the trailing bytes after the last newline.
pub open spec fn line_scan(s: Seq<u8>) -> (Seq<Seq<u8>>, Seq<u8>)
    decreases s.len(),
{
    if s.len() == 0 {
        (Seq::empty(), Seq::empty())
    } else {
        let (lines, rest) = line_scan(s.drop_last());
        if s.last() == nl() {
            (lines.push(rest), Seq::empty())
        } else {
            (lines, rest.push(s.last()))
        }
    }
}

/// The complete lines of a byte stream, in the order they were terminated.
pub open spec fn complete_lines(s: Seq<u8>) -> Seq<Seq<u8>> {
    line_scan(s).0
}

/// The bytes of a byte stream after its last newline: the partial line
/// still waiting for its terminator.
pub open spec fn pending_line(s: Seq<u8>) -> Seq<u8> {
    line_scan(s).1
}

/// One step of the scan: extending the stream by a byte either completes
/// the pending line or extends it.
pub proof fn lemma_line_scan_push(s: Seq<u8>, b: u8)
    ensures
        b == nl() ==> line_scan(s.push(b)) == (complete_lines(s).push(pending_line(s)), Seq::<
            u8,
        >::empty()),
        b != nl() ==> line_scan(s.push(b)) == (complete_lines(s), pending_line(s).push(b)),
{
    let t = s.push(b);
    assert(t.len() == s.len() + 1);
    assert(t.drop_last() =~= s);
    assert(t.last() == b);
}

/// The pending part of a stream never contains a newline.
pub proof fn lemma_pending_line_no_nl(s: Seq<u8>)
    ensures
        forall|i: int| 0 <= i < pending_line(s).len() ==> pending_line(s)[i] != nl(),
    decreases s.len(),
{
    if s.len() == 0 {
    } else {
        lemma_pending_line_no_nl(s.drop_last());
        if s.last() != nl() {
            let p = pending_line(s.drop_last());
            assert(pending_line(s) == p.push(s.last()));
            assert forall|i: int| 0 <= i < pending_line(s).len() implies pending_line(s)[i]
                != nl() by {
                if i < p.len() {
                    assert(pending_line(s)[i] == p[i]);
                } else {
                    assert(pending_line(s)[i] == s.last());
                }
            }
        }
    }
}

/// A stream without a newline has no complete line: it is all pending.
pub proof fn lemma_line_scan_no_nl(s: Seq<u8>)
    requires
        forall|i: int| 0 <= i < s.len() ==> s[i] != nl(),
    ensures
        complete_lines(s) == Seq::<Seq<u8>>::empty(),
        pending_line(s) == s,
    decreases s.len(),
{
    if s.len() == 0 {
        assert(pending_line(s) =~= s);
    } else {
        lemma_line_scan_no_nl(s.drop_last());
        assert(s.last() != nl());
        assert(pending_line(s) =~= s.drop_last().push(s.last()));
        assert(s.drop_last().push(s.last()) =~= s);
    }
}

/// Fragmentation invariance: delivering a stream in two fragments yields
/// the same complete lines as delivering it whole.  The lines of `s + t`
/// are the lines of `s` followed by the lines that appear once the bytes
/// of `t` are appended to the partial line left over from `s`; the
/// leftover after both fragments likewise depends only on the
/// concatenation.  Splitting a stream at arbitrary byte boundaries
/// therefore never changes which lines are seen, nor their order.
pub proof fn lemma_line_scan_concat(s: Seq<u8>, t: Seq<u8>)
    ensures
        complete_lines(s + t) == complete_lines(s) + complete_lines(pending_line(s) + t),
        pending_line(s + t) == pending_line(pending_line(s) + t),
    decreases t.len(),
{
    if t.len() == 0 {
        assert(s + t =~= s);
        lemma_pending_line_no_nl(s);
        lemma_line_scan_no_nl(pending_line(s));
        assert(pending_line(s) + t =~= pending_line(s));
        assert(complete_lines(s) + complete_lines(pending_line(s) + t) =~= complete_lines(s));
    } else {
        let t0 = t.drop_last();
        let b = t.last();
        lemma_line_scan_concat(s, t0);
        assert(s + t =~= (s + t0).push(b));
        assert(pending_line(s) + t =~= (pending_line(s) + t0).push(b));
        lemma_line_scan_push(s + t0, b);
        lemma_line_scan_push(pending_line(s) + t0, b);
        assert(complete_lines(s + t) =~= complete_lines(s) + complete_lines(pending_line(s) + t));
    }
}

/// A stream that has completed no line yet is all pending.
pub proof fn lemma_no_lines_all_pending(s: Seq<u8>)
    requires
        complete_lines(s).len() == 0,
    ensures
        pending_line(s) == s,
    decreases s.len(),
{
    if s.len() == 0 {
        assert(pending_line(s) =~= s);
    } else {
        if s.last() == nl() {
            assert(complete_lines(s).len() > 0);
        } else {
            lemma_no_lines_all_pending(s.drop_last());
            assert(pending_line(s) =~= s.drop_last().push(s.last()));
            assert(s.drop_last().push(s.last()) =~= s);
        }
    }
}

/// The state of line assembly after a sequence of reads: each fragment
/// is appended to the partial line carried over from the reads before
/// it, and the lines that this completes are collected in order.
pub open spec fn assemble(frags: Seq<Seq<u8>>) -> (Seq<Seq<u8>>, Seq<u8>)
    decreases frags.len(),
{
    if frags.len() == 0 {
        (Seq::empty(), Seq::empty())
    } else {
        let (lines, rest) = assemble(frags.drop_last());
        let (more, rest2) = line_scan(rest + frags.last());
        (lines + more, rest2)
    }
}

/// Fragmentation invariance over any number of reads: assembling a
/// stream fragment by fragment completes exactly the lines of the
/// concatenated stream, in the same order, and carries the same
/// leftover — however the stream was split.
pub proof fn lemma_assemble_fragments(frags: Seq<Seq<u8>>)
    ensures
        assemble(frags) == line_scan(frags.flatten()),
    decreases frags.len(),
{
    frags.lemma_flatten_and_flatten_alt_are_equivalent();
    if frags.len() == 0 {
        assert(frags.flatten() =~= Seq::<u8>::empty());
    } else {
        let f0 = frags.drop_last();
        let l = frags.last();
        lemma_assemble_fragments(f0);
        f0.lemma_flatten_and_flatten_alt_are_equivalent();
        assert(frags.flatten() == f0.flatten() + l);
        lemma_line_scan_concat(f0.flatten(), l);
        assert(assemble(frags).0 =~= complete_lines(frags.flatten()));
    }
}

/// The complete lines of a prefix of a stream are a prefix of the
/// complete lines of the stream.
pub proof fn lemma_complete_lines_take_prefix(s: Seq<u8>, j: int)
    requires
        0 <= j <= s.len(),
    ensures
        complete_lines(s.take(j)).is_prefix_of(complete_lines(s)),
        complete_lines(s).take(complete_lines(s.take(j)).len() as int) == complete_lines(
            s.take(j),
        ),
{
    lemma_line_scan_concat(s.take(j), s.skip(j));
    assert(s.take(j) + s.skip(j) =~= s);
    let a = complete_lines(s.take(j));
    let b = complete_lines(pending_line(s.take(j)) + s.skip(j));
    assert(complete_lines(s) == a + b);
    assert(a =~= (a + b).subrange(0, a.len() as int));
    assert((a + b).take(a.len() as int) =~= a);
}

} // verus!
