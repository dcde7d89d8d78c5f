//! How a transfer is cut into chunks, and what becomes of them.

use vstd::prelude::*;

use crate::driver::DriverView;
use crate::error::{decimal, ErrorKind, ErrorView};
use crate::exact::{lemma_bytes_nonnegative, lemma_credit, lens, short_error_of, ExactView, PendingChunk, TransferKind};
use crate::sums::{lemma_sum_remove, lemma_sum_same};

verus! {

/// A new transfer is about the buffer it was asked for, all of it, and nothing
/// of it is submitted or transferred.
pub proof fn law_start(kind: TransferKind, fd: i32, ptr: usize, total_len: int, chunk_size: int)
    ensures
        ({
            let s = ExactView::start(kind, fd, ptr, total_len, chunk_size);
            &&& s.kind == kind
            &&& s.fd == fd
            &&& s.ptr == ptr
            &&& s.total_len == total_len
            &&& chunk_size >= 1 ==> s.chunk_size == chunk_size
            &&& chunk_size <= 0 ==> s.chunk_size == 1
            &&& s.submitted == 0
            &&& s.completed == 0
            &&& !s.submitted_zero
            &&& forall|id: usize| !s.pending.contains_key(id)
        }),
{
}

/// Whether something of a transfer is left to submit: bytes, or the operation of
/// an empty write.
pub open spec fn unsubmitted(s: ExactView) -> bool {
    s.submitted < s.total_len || (s.kind == TransferKind::Write && s.total_len == 0 && !s.submitted_zero)
}

/// Whether a chunk is the one to submit next: it starts where the submitted part
/// of the buffer ends, and is as long as a chunk may be or reaches the end of the
/// buffer.
pub open spec fn comes_next(s: ExactView, chunk: PendingChunk) -> bool {
    &&& unsubmitted(s)
    &&& chunk.offset == s.submitted
    &&& chunk.offset + chunk.len <= s.total_len
    &&& chunk.len <= s.chunk_size
    &&& chunk.len == s.chunk_size || chunk.offset + chunk.len == s.total_len
}

/// A chunk is submitted whenever something is left to submit and the kernel
/// takes an operation.
pub proof fn law_next_chunk(s: ExactView, slots: int)
    requires
        s.wf(),
    ensures
        slots > 0 && unsubmitted(s) <==> s.next_chunk(slots) is Some,
        s.next_chunk(slots) matches Some(chunk) ==> comes_next(s, chunk),
{
    lemma_bytes_nonnegative(s.pending);
}

/// An accepted chunk is pending under its number, and the submitted part of the
/// buffer ends behind it.
pub proof fn law_accepted_chunk(s: ExactView, id: usize, chunk: PendingChunk)
    ensures
        ({
            let after = s.submit(id, chunk);
            &&& after.kind == s.kind
            &&& after.fd == s.fd
            &&& after.ptr == s.ptr
            &&& after.total_len == s.total_len
            &&& after.chunk_size == s.chunk_size
            &&& after.completed == s.completed
            &&& after.submitted == s.submitted + chunk.len
            &&& after.submitted_zero <==> s.submitted_zero || chunk.len == 0
            &&& after.pending == s.pending.insert(id, chunk)
        }),
{
}

/// The operation of a chunk reads into the chunk or writes from it, on the file
/// of the transfer, and notifies the eventfd of the driver.
pub proof fn law_operation(s: ExactView, d: DriverView, id: usize, chunk: PendingChunk)
    requires
        s.ptr + chunk.offset <= usize::MAX,
    ensures
        ({
            let iocb = s.operation(d, id, chunk).iocb;
            &&& iocb.opcode == if s.kind == TransferKind::Read { 0u16 } else { 1u16 }
            &&& iocb.fd == s.fd
            &&& iocb.buf == s.ptr + chunk.offset
            &&& iocb.nbytes == chunk.len
            &&& iocb.resfd == Some(d.eventfd)
            &&& iocb.data == id
        }),
{
}

/// Whether a transfer has nothing left to do: nothing is pending, and all bytes
/// were transferred or, of an empty write, its operation was submitted.
pub open spec fn all_over(s: ExactView) -> bool {
    &&& forall|id: usize| !#[trigger] s.pending.contains_key(id)
    &&& if s.kind == TransferKind::Write && s.total_len == 0 {
        s.submitted_zero
    } else {
        s.completed == s.total_len
    }
}

/// A transfer is complete just when it has nothing left to do.
pub proof fn law_done(s: ExactView)
    ensures
        s.done() <==> all_over(s),
{
    if all_over(s) {
        assert(s.pending.dom() =~= Set::<usize>::empty());
    }
    if s.done() {
        assert forall|id: usize| !#[trigger] s.pending.contains_key(id) by {
            assert(!s.pending.dom().contains(id));
        }
    }
}

/// The number of bytes that a result stands for.
pub open spec fn amount(res: i64) -> int {
    if res <= usize::MAX {
        res as int
    } else {
        usize::MAX as int
    }
}

/// Whether a chunk ends well with a result: all of its bytes were transferred,
/// or some, in a read, when nothing was submitted behind it.
pub open spec fn ends_well(s: ExactView, chunk: PendingChunk, res: i64) -> bool {
    &&& res >= 0
    &&& {
        ||| amount(res) == chunk.len
        ||| s.kind == TransferKind::Read && 0 < amount(res) < chunk.len && chunk.offset + chunk.len == s.submitted
    }
}

/// A chunk that ends well is good for the bytes that were transferred. One that
/// does not is an error: that of the operating system, or that of a read or a
/// write that came out short.
pub proof fn law_verdict(s: ExactView, chunk: PendingChunk, res: i64)
    ensures
        ends_well(s, chunk, res) ==> s.verdict(chunk, res) == Ok::<int, ErrorView>(amount(res)),
        -0x7fff_ffff <= res < 0 ==> (s.verdict(chunk, res) matches Err(ErrorView::Os(code)) && code == -res),
        res < -0x7fff_ffff ==> s.verdict(chunk, res) == Err::<int, ErrorView>(ErrorView::Os(0x7fff_ffff)),
        res >= 0 && !ends_well(s, chunk, res) ==> (s.verdict(chunk, res) matches Err(error) && short_by(
            s.kind,
            chunk.len as nat,
            amount(res) as nat,
            error,
        )),
{
}

/// Whether an error says that a read or a write came out short.
pub open spec fn short_by(kind: TransferKind, expected: nat, actual: nat, error: ErrorView) -> bool {
    match kind {
        TransferKind::Read => error == (ErrorView::Message {
            kind: ErrorKind::UnexpectedEof,
            message: "short AIO read: expected "@ + decimal(expected) + " bytes, received "@ + decimal(actual),
        }),
        TransferKind::Write => error == (ErrorView::Message {
            kind: ErrorKind::WriteZero,
            message: "short AIO write: expected "@ + decimal(expected) + " bytes, wrote "@ + decimal(actual),
        }),
    }
}

/// The error of a short read says end of file, that of a short write that
/// nothing more was written, and both give the numbers of bytes.
pub proof fn law_short_error(kind: TransferKind, expected: nat, actual: nat)
    ensures
        short_by(kind, expected, actual, short_error_of(kind, expected as int, actual as int)),
{
}

/// The number that digits stand for.
pub open spec fn number(digits: Seq<char>) -> int
    decreases digits.len(),
{
    if digits.len() == 0 {
        0
    } else {
        10 * number(digits.drop_last()) + (digits.last() as int - '0' as int)
    }
}

/// A number is written in decimal digits that stand for it, the first of which
/// is not zero unless the number is.
pub proof fn law_decimal(n: nat)
    ensures
        number(decimal(n)) == n,
        decimal(n).len() >= 1,
        forall|i: int| 0 <= i < decimal(n).len() ==> '0' as int <= #[trigger] decimal(n)[i] as int <= '9' as int,
        n > 0 ==> decimal(n)[0] != '0',
        n == 0 ==> decimal(n).len() == 1,
    decreases n,
{
    reveal_with_fuel(number, 2);
    if n < 10 {
        assert(decimal(n).drop_last() =~= Seq::empty());
        assert(decimal(n).last() as int == 48 + n);
    } else {
        law_decimal(n / 10);
        let text = decimal(n);
        assert(text.drop_last() =~= decimal(n / 10));
        assert(text.last() as int == 48 + n % 10);
        assert forall|i: int| 0 <= i < text.len() implies '0' as int <= #[trigger] text[i] as int <= '9' as int by {
            if i < text.len() - 1 {
                assert(text[i] == decimal(n / 10)[i]);
            }
        }
        assert(text[0] == decimal(n / 10)[0]);
    }
}

/// Whether a pending chunk has completed.
pub open spec fn has_completed(s: ExactView, d: DriverView, id: usize) -> bool {
    s.pending.contains_key(id) && d.completed.contains_key(id)
}

/// Whether all pending chunks that have completed have ended well.
pub open spec fn all_end_well(s: ExactView, d: DriverView) -> bool {
    forall|id: usize| #[trigger]
        has_completed(s, d, id) ==> ends_well(s, s.pending[id], d.completed[id].res)
}

/// Whether a transfer and a driver are what is left of others when the pending
/// chunks that have completed are accounted for: they are pending no more, and
/// their completions are gone.
pub open spec fn accounts(s: ExactView, d: DriverView, s1: ExactView, d1: DriverView) -> bool {
    &&& s1.kind == s.kind
    &&& s1.fd == s.fd
    &&& s1.ptr == s.ptr
    &&& s1.total_len == s.total_len
    &&& s1.chunk_size == s.chunk_size
    &&& s1.submitted_zero == s.submitted_zero
    &&& s1.submitted - s1.completed - s1.pending_bytes() == s.submitted - s.completed - s.pending_bytes()
    &&& forall|id: usize| #[trigger]
        s1.pending.contains_key(id) <==> s.pending.contains_key(id) && !d.completed.contains_key(id)
    &&& forall|id: usize| #[trigger] s1.pending.contains_key(id) ==> s1.pending[id] == s.pending[id]
    &&& (forall|id: usize| #[trigger]
        has_completed(s, d, id) ==> amount(d.completed[id].res) == s.pending[id].len) ==> s1.submitted == s.submitted
    &&& forall|id: usize| #[trigger]
        has_completed(s, d, id) && amount(d.completed[id].res) < s.pending[id].len ==> s1.submitted
            == s.pending[id].offset + amount(d.completed[id].res)
    &&& d1.active == d.active
    &&& d1.queue_len == d.queue_len
    &&& d1.eventfd == d.eventfd
    &&& forall|id: usize| #[trigger]
        d1.completed.contains_key(id) <==> d.completed.contains_key(id) && !s.pending.contains_key(id)
    &&& forall|id: usize| #[trigger] d1.completed.contains_key(id) ==> d1.completed[id] == d.completed[id]
}

/// Completed chunks are accounted for just when all of them have ended well.
/// What was transferred counts, and what a read has missed is submitted again.
pub proof fn law_accounting(s: ExactView, d: DriverView)
    requires
        s.wf(),
    ensures
        s.consumable(d) <==> all_end_well(s, d),
        s.consumable(d) ==> accounts(s, d, s.consumed(d), s.relieved(d)),
{
    let ready = s.ready(d.completed);
    assert forall|id: usize| #[trigger] ready.contains(id) <==> has_completed(s, d, id) by {}
    assert forall|id: usize| #[trigger] has_completed(s, d, id) implies ready.contains(id) by {}
    if s.consumable(d) {
        assert forall|id: usize| #[trigger] has_completed(s, d, id) implies ends_well(
            s,
            s.pending[id],
            d.completed[id].res,
        ) by {
            assert(ready.contains(id));
            law_verdict(s, s.pending[id], d.completed[id].res);
        }
        assert(ready.finite());
        lemma_credit(s, d.completed, ready);
        let amounts = s.amounts(d.completed);
        assert forall|id: usize| #[trigger] ready.contains(id) implies amounts(id) == amount(d.completed[id].res) by {
            assert(has_completed(s, d, id));
            law_verdict(s, s.pending[id], d.completed[id].res);
        }
        if forall|id: usize| #[trigger]
            has_completed(s, d, id) ==> amount(d.completed[id].res) == s.pending[id].len {
            assert forall|id: usize| #[trigger] ready.contains(id) implies amounts(id) == lens(s.pending)(id) by {
                assert(has_completed(s, d, id));
            }
            lemma_sum_same(ready, amounts, lens(s.pending));
        }
        assert forall|id: usize| #[trigger]
            has_completed(s, d, id) && amount(d.completed[id].res) < s.pending[id].len implies s.consumed(d).submitted
            == s.pending[id].offset + amount(d.completed[id].res) by {
            assert(ready.contains(id));
            lemma_sum_remove(ready, amounts, id);
            lemma_sum_remove(ready, lens(s.pending), id);
            let rest = ready.remove(id);
            assert forall|k: usize| #[trigger] rest.contains(k) implies amounts(k) == lens(s.pending)(k) by {
                assert(ready.contains(k));
                assert(has_completed(s, d, k));
                assert(s.pending.contains_key(id) && s.pending.contains_key(k));
            }
            lemma_sum_same(rest, amounts, lens(s.pending));
        }
    } else {
        if all_end_well(s, d) {
            assert forall|id: usize| #[trigger] ready.contains(id) implies s.outcome(d.completed, id) is Ok by {
                assert(has_completed(s, d, id));
                law_verdict(s, s.pending[id], d.completed[id].res);
            }
        }
    }
}

/// Whether accounting for completed chunks has met one that has not ended well:
/// its error is given, and it and all that were accounted for are gone. Of the
/// completed chunks, some may be left.
pub open spec fn breaks_off(s: ExactView, d: DriverView, error: ErrorView, s1: ExactView, d1: DriverView) -> bool {
    &&& exists|id: usize| #[trigger]
        has_completed(s, d, id) && !ends_well(s, s.pending[id], d.completed[id].res) && s.verdict(
            s.pending[id],
            d.completed[id].res,
        ) == Err::<int, ErrorView>(error) && !s1.pending.contains_key(id)
    &&& forall|id: usize| #[trigger]
        s1.pending.contains_key(id) ==> s.pending.contains_key(id) && s1.pending[id] == s.pending[id]
    &&& forall|id: usize| #[trigger]
        s.pending.contains_key(id) && !d.completed.contains_key(id) ==> s1.pending.contains_key(id)
    &&& d1.active == d.active
    &&& d1.queue_len == d.queue_len
    &&& d1.eventfd == d.eventfd
    &&& forall|id: usize| #[trigger]
        d1.completed.contains_key(id) <==> d.completed.contains_key(id) && (!s.pending.contains_key(id)
            || s1.pending.contains_key(id))
    &&& forall|id: usize| #[trigger] d1.completed.contains_key(id) ==> d1.completed[id] == d.completed[id]
}

/// Accounting for completed chunks breaks off only at one that has not ended
/// well.
pub proof fn law_breaking_off(s: ExactView, d: DriverView, error: ErrorView, s1: ExactView, d1: DriverView)
    requires
        s.stopped(d, error, s1, d1),
    ensures
        breaks_off(s, d, error, s1, d1),
        !all_end_well(s, d),
{
    let (taken, bad) = choose|taken: Set<usize>, bad: usize| s.stopped_at(d, error, s1, d1, taken, bad);
    assert(s.stopped_at(d, error, s1, d1, taken, bad));
    assert(has_completed(s, d, bad));
    law_verdict(s, s.pending[bad], d.completed[bad].res);
    assert forall|id: usize| #[trigger] taken.contains(id) implies has_completed(s, d, id) by {
        assert(s.ready(d.completed).contains(id));
    }
}

} // verus!
