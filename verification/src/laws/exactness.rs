//! What holds of the bytes of a transfer.

use vstd::prelude::*;
use vstd::set_lib::lemma_len_subset;

use crate::driver::{event_count, op_result, CompletedOp, DriverView};
use crate::error::ErrorView;
use crate::exact::{
    lemma_bytes_nonnegative, lemma_credit, lemma_credit_step, lemma_none_ready, lemma_submit, lens, short_error_of,
    ExactView, PendingChunk, TransferKind,
};
use crate::opcode::PWRITE;
use crate::laws::failure::not_abandoned;
use crate::reply::Reply;
use crate::sums::{lemma_sum_empty, lemma_sum_nonnegative, lemma_sum_same};
use crate::transfer::{Mode, PhaseView, TransferView};

verus! {

/// Whether a transfer that has ended well is complete.
spec fn ends_well(t: TransferView) -> bool {
    t.phase == PhaseView::Finished(Ok(())) ==> t.state.done() && t.state.wf()
}

proof fn lemma_consumed_wf(s: ExactView, d: DriverView)
    requires
        s.wf(),
        s.consumable(d),
    ensures
        s.consumed(d).wf(),
{
    assert(s.ready(d.completed).finite());
    lemma_credit(s, d.completed, s.ready(d.completed));
}

proof fn lemma_submits_ends_well(t: TransferView, d: DriverView, t1: TransferView, d1: DriverView)
    requires
        t.state.wf(),
        t.submits(d, t1, d1),
    ensures
        ends_well(t1),
{
    if t.state.next_chunk(d.slots()) is None && t.state.consumable(d) {
        lemma_consumed_wf(t.state, d);
    }
}

proof fn lemma_proceeds_ends_well(t: TransferView, d: DriverView, t1: TransferView, d1: DriverView)
    requires
        t.state.wf(),
        t.proceeds(d, t1, d1),
    ensures
        ends_well(t1),
{
    if t.state.consumable(d) {
        lemma_consumed_wf(t.state, d);
        if !t.state.consumed(d).done() {
            lemma_submits_ends_well(t.with(t.state.consumed(d)), t.state.relieved(d), t1, d1);
        }
    }
}

/// A transfer is exact: it ends well only when every byte of the buffer was
/// submitted and transferred and nothing is pending. An empty write ends well
/// only when its operation of no bytes was submitted and has completed.
pub proof fn law_exact(t: TransferView, d: DriverView, reply: Reply, t1: TransferView, d1: DriverView)
    requires
        t.wf(d),
        !(t.phase is Finished),
        not_abandoned(t),
        t.steps(d, reply, t1, d1),
        t1.phase == PhaseView::Finished(Ok(())),
    ensures
        t1.state.pending.dom() == Set::<usize>::empty(),
        t1.state.completed == t1.state.total_len,
        t1.state.submitted == t1.state.total_len,
        t1.state.kind == TransferKind::Write && t1.state.total_len == 0 ==> t1.state.submitted_zero,
{
    match (t.phase, reply) {
        (PhaseView::Submit(submission), Reply::Submitted(Ok(1))) => {
            let s = t.state.submit(submission.handle.0, submission.chunk);
            lemma_submit(t.state, 1, submission.handle.0);
            lemma_submits_ends_well(t.with(s), d, t1, d1);
        },
        (PhaseView::Collect(_, _), Reply::Reaped(Ok(count), batch)) => {
            lemma_proceeds_ends_well(t, d.reap(count, batch@), t1, d1);
        },
        _ => lemma_proceeds_ends_well(t, d, t1, d1),
    }
    lemma_sum_empty(lens(t1.state.pending));
}

/// Whether one state of a transfer can come after another: it is the same
/// transfer, and no byte that was transferred is lost.
pub open spec fn follows(s: ExactView, s1: ExactView) -> bool {
    &&& s1.kind == s.kind
    &&& s1.fd == s.fd
    &&& s1.ptr == s.ptr
    &&& s1.total_len == s.total_len
    &&& s1.chunk_size == s.chunk_size
    &&& s1.completed >= s.completed
}

proof fn lemma_credit_follows(s: ExactView, completed: Map<usize, CompletedOp>, taken: Set<usize>)
    requires
        s.wf(),
        taken.subset_of(s.ready(completed)),
        s.all_good(completed, taken),
    ensures
        follows(s, s.credit(completed, taken)),
        s.credit(completed, taken).wf(),
{
    assert(s.ready(completed).finite());
    lemma_len_subset(taken, s.ready(completed));
    lemma_sum_nonnegative(taken, s.amounts(completed));
    lemma_credit(s, completed, taken);
}

proof fn lemma_fails_follows(t: TransferView, d: DriverView, t1: TransferView, d1: DriverView)
    requires
        t.state.wf(),
        t.fails_on_completion(d, t1, d1),
    ensures
        follows(t.state, t1.state),
{
    let (error, s, between) = choose|error: ErrorView, s: ExactView, between: DriverView| #[trigger]
        t.state.stopped(d, error, s, between) && t.with(s).fails(between, error, t1, d1);
    let (taken, bad) = choose|taken: Set<usize>, bad: usize|
        t.state.stopped_at(d, error, s, between, taken, bad);
    assert(t.state.stopped_at(d, error, s, between, taken, bad));
    lemma_credit_follows(t.state, d.completed, taken);
}

proof fn lemma_submits_follows(t: TransferView, d: DriverView, t1: TransferView, d1: DriverView)
    requires
        t.state.wf(),
        t.submits(d, t1, d1),
    ensures
        follows(t.state, t1.state),
{
    if t.state.next_chunk(d.slots()) is None {
        if t.state.consumable(d) {
            lemma_credit_follows(t.state, d.completed, t.state.ready(d.completed));
        } else {
            lemma_fails_follows(t, d, t1, d1);
        }
    }
}

proof fn lemma_proceeds_follows(t: TransferView, d: DriverView, t1: TransferView, d1: DriverView)
    requires
        t.state.wf(),
        t.proceeds(d, t1, d1),
    ensures
        follows(t.state, t1.state),
{
    if t.state.consumable(d) {
        lemma_credit_follows(t.state, d.completed, t.state.ready(d.completed));
        if !t.state.consumed(d).done() {
            lemma_submits_follows(t.with(t.state.consumed(d)), t.state.relieved(d), t1, d1);
        }
    } else {
        lemma_fails_follows(t, d, t1, d1);
    }
}

/// A transfer keeps its direction, file, buffer and chunk size, and never loses
/// a byte that was transferred, whatever the replies are.
pub proof fn law_progress(t: TransferView, d: DriverView, reply: Reply, t1: TransferView, d1: DriverView)
    requires
        t.wf(d),
        t.steps(d, reply, t1, d1),
    ensures
        follows(t.state, t1.state),
        t1.mode == t.mode,
{
    match (t.phase, reply) {
        (PhaseView::Ready, Reply::Begin) => match t.mode {
            Mode::Blocking(Some(_)) => {},
            _ => lemma_proceeds_follows(t, d, t1, d1),
        },
        (PhaseView::Deadline(_), Reply::Deadline(true)) => lemma_proceeds_follows(t, d, t1, d1),
        (PhaseView::Submit(submission), Reply::Submitted(Ok(1))) => {
            let s = t.state.submit(submission.handle.0, submission.chunk);
            lemma_submit(t.state, 1, submission.handle.0);
            lemma_submits_follows(t.with(s), d, t1, d1);
        },
        (PhaseView::Drain(reaped), Reply::Drained(Ok(()))) => if reaped != 0 {
            lemma_proceeds_follows(t, d, t1, d1);
        },
        (PhaseView::Collect(stage, total), Reply::Reaped(Ok(count), batch)) => {
            if event_count(count) == 0 && !(t1.phase is Register) && !(t1.phase is Sleep) {
                lemma_proceeds_follows(t, d.reap(count, batch@), t1, d1);
            }
        },
        (PhaseView::Sleep, Reply::Begin) => lemma_proceeds_follows(t, d, t1, d1),
        _ => {},
    }
}

/// Whether a transfer sets out: it was not run yet, and its timeout can be
/// expressed if it has one.
pub open spec fn sets_out(t: TransferView, d: DriverView, t1: TransferView, d1: DriverView) -> bool {
    &&& t.phase is Ready
    &&& match t.mode {
        Mode::Blocking(Some(timeout)) => t.at(PhaseView::Deadline(timeout)).steps(d, Reply::Deadline(true), t1, d1),
        _ => t.steps(d, Reply::Begin, t1, d1),
    }
}

/// A read of no bytes ends well at once, without any operation.
pub proof fn law_empty_read(
    fd: i32,
    ptr: usize,
    chunk_size: int,
    mode: Mode,
    d: DriverView,
    t1: TransferView,
    d1: DriverView,
)
    requires
        sets_out(TransferView::ready(ExactView::start(TransferKind::Read, fd, ptr, 0, chunk_size), mode), d, t1, d1),
    ensures
        t1.phase == PhaseView::Finished(Ok(())),
        d1 == d,
{
    let s = ExactView::start(TransferKind::Read, fd, ptr, 0, chunk_size);
    assert(s.ready(d.completed) =~= Set::empty());
    lemma_none_ready(s, d);
    assert(s.pending.dom() =~= Set::empty());
}

/// A write of no bytes sends one operation of no bytes.
pub proof fn law_empty_write(
    fd: i32,
    ptr: usize,
    chunk_size: int,
    mode: Mode,
    d: DriverView,
    t1: TransferView,
    d1: DriverView,
)
    requires
        d.slots() > 0,
        sets_out(TransferView::ready(ExactView::start(TransferKind::Write, fd, ptr, 0, chunk_size), mode), d, t1, d1),
    ensures
        t1.phase matches PhaseView::Submit(submission) && submission.handle.0 == d.next() && submission.chunk.len == 0,
        d1.active.dom() == d.active.dom().insert(d.next()),
        d1.active[d.next()].iocb.opcode == PWRITE,
        d1.active[d.next()].iocb.fd == fd,
        d1.active[d.next()].iocb.nbytes == 0,
{
    let s = ExactView::start(TransferKind::Write, fd, ptr, 0, chunk_size);
    assert(s.ready(d.completed) =~= Set::empty());
    lemma_none_ready(s, d);
}

/// A write of no bytes is complete when its operation has completed with no
/// bytes, and it sends no other.
pub proof fn law_empty_write_completes(fd: i32, ptr: usize, chunk_size: int, d: DriverView, id: usize, slots: int)
    requires
        d.completed.contains_key(id),
    ensures
        ({
            let s = ExactView::start(TransferKind::Write, fd, ptr, 0, chunk_size).submit(
                id,
                PendingChunk { offset: 0, len: 0 },
            );
            &&& s.consumable(d) <==> d.completed[id].res == 0
            &&& s.consumable(d) ==> s.consumed(d).done()
            &&& !s.done()
            &&& s.next_chunk(slots) is None
        }),
{
    let s = ExactView::start(TransferKind::Write, fd, ptr, 0, chunk_size).submit(
        id,
        PendingChunk { offset: 0, len: 0 },
    );
    let ready = s.ready(d.completed);
    assert(ready =~= Set::empty().insert(id));
    assert(s.pending.dom().contains(id));
    if d.completed[id].res == 0 {
        assert(s.outcome(d.completed, id) is Ok);
        assert(s.consumed(d).pending.dom() =~= Set::empty());
    } else {
        assert(ready.contains(id));
        assert(!(s.outcome(d.completed, id) is Ok));
    }
}

/// A read that gets some bytes of the last chunk it has submitted has made
/// progress: if nothing else went wrong these bytes count, and the next chunk
/// starts right behind them.
pub proof fn law_short_read(s: ExactView, d: DriverView, id: usize, actual: int, slots: int)
    requires
        s.wf(),
        s.kind == TransferKind::Read,
        s.pending.contains_key(id),
        s.pending[id].offset + s.pending[id].len == s.submitted,
        d.completed.contains_key(id),
        op_result(d.completed[id].res) == Ok::<int, ErrorView>(actual),
        0 < actual < s.pending[id].len,
        slots > 0,
    ensures
        s.outcome(d.completed, id) == Ok::<int, ErrorView>(actual),
        s.consumable(d) ==> {
            &&& s.consumed(d).submitted == s.pending[id].offset + actual
            &&& s.consumed(d).next_chunk(slots) matches Some(chunk) && chunk.offset == s.pending[id].offset + actual
            &&& !s.consumed(d).done()
        },
{
    if s.consumable(d) {
        let ready = s.ready(d.completed);
        let others = ready.remove(id);
        assert(ready.finite());
        assert forall|k: usize| #[trigger] others.contains(k) implies s.outcome(d.completed, k) is Ok by {
            assert(ready.contains(k));
        }
        lemma_credit(s, d.completed, others);
        lemma_credit_step(s, d.completed, others, id);
        assert(others.insert(id) =~= ready);
        lemma_credit(s, d.completed, ready);
        let after = s.consumed(d);
        assert(s.credit(d.completed, others).pending.contains_key(id));
        lemma_bytes_nonnegative(after.pending);
    }
}

/// A transfer of which everything was submitted is complete once every pending
/// chunk has completed in full.
pub proof fn law_completes(s: ExactView, d: DriverView)
    requires
        s.wf(),
        s.accounted(),
        s.next_chunk(1) is None,
        forall|id: usize| #[trigger]
            s.pending.contains_key(id) ==> d.completed.contains_key(id) && op_result(d.completed[id].res) == Ok::<
                int,
                ErrorView,
            >(s.pending[id].len as int),
    ensures
        s.consumable(d),
        s.consumed(d).done(),
        s.consumed(d).completed == s.total_len,
{
    let ready = s.ready(d.completed);
    assert(ready =~= s.pending.dom());
    assert forall|id: usize| #[trigger] ready.contains(id) implies s.outcome(d.completed, id) is Ok && s.amounts(
        d.completed,
    )(id) == lens(s.pending)(id) by {
        assert(s.pending.contains_key(id));
    }
    lemma_sum_same(ready, s.amounts(d.completed), lens(s.pending));
    assert(s.consumed(d).pending.dom() =~= Set::empty());
}

/// A read that gets no byte of a chunk fails with the error of a short read.
pub proof fn law_read_of_nothing(s: ExactView, d: DriverView, id: usize)
    requires
        s.kind == TransferKind::Read,
        s.pending.contains_key(id),
        s.pending[id].len >= 1,
        d.completed.contains_key(id),
        d.completed[id].res == 0,
    ensures
        s.outcome(d.completed, id) == Err::<int, ErrorView>(
            short_error_of(TransferKind::Read, s.pending[id].len as int, 0),
        ),
        !s.consumable(d),
{
    assert(s.ready(d.completed).contains(id));
}

/// A write that sends another number of bytes of a chunk than it has fails with
/// the error of a short write.
pub proof fn law_short_write(s: ExactView, d: DriverView, id: usize, actual: int)
    requires
        s.kind == TransferKind::Write,
        s.pending.contains_key(id),
        d.completed.contains_key(id),
        op_result(d.completed[id].res) == Ok::<int, ErrorView>(actual),
        actual != s.pending[id].len,
    ensures
        s.outcome(d.completed, id) == Err::<int, ErrorView>(
            short_error_of(TransferKind::Write, s.pending[id].len as int, actual),
        ),
        !s.consumable(d),
{
    assert(s.ready(d.completed).contains(id));
}

/// A failed operation fails the transfer with the error of the operation.
pub proof fn law_failed_operation(s: ExactView, d: DriverView, id: usize, error: ErrorView)
    requires
        s.pending.contains_key(id),
        d.completed.contains_key(id),
        op_result(d.completed[id].res) == Err::<int, ErrorView>(error),
    ensures
        s.outcome(d.completed, id) == Err::<int, ErrorView>(error),
        !s.consumable(d),
{
    assert(s.ready(d.completed).contains(id));
}

/// A transfer that gives up ends with the outcome it gave up with, whether its
/// cancellation succeeds or not.
pub proof fn law_outcome_kept(
    t: TransferView,
    d: DriverView,
    outcome: Result<(), ErrorView>,
    reply: Reply,
    t1: TransferView,
    d1: DriverView,
)
    requires
        t.phase matches PhaseView::Cancel(_, kept) && kept == outcome,
        t.steps(d, reply, t1, d1),
    ensures
        t1.phase matches PhaseView::Cancel(_, kept) && kept == outcome || t1.phase == PhaseView::Finished(outcome),
{
}

} // verus!
