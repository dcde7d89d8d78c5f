//! A driver that works for one transfer: what the kernel may touch, and when.

use vstd::prelude::*;

use crate::cancel::{CancelStepView, CancelView};
use crate::driver::{event_count, lemma_reap, DriverView};
use crate::error::{Error, ErrorView};
use crate::exact::{
    lemma_bytes_nonnegative, lemma_credit, lemma_none_ready, lemma_submit, lens, opcode_of, ExactView, TransferKind,
};
use crate::reply::{Readiness, Reply};
use crate::request::IoEvent;
use crate::sums::lemma_sum_empty;
use crate::transfer::{not_accepted_error, timed_out_error, timeout_error, Mode, PhaseView, TransferView};

verus! {

/// Whether the operations in flight are those of the pending chunks that have
/// not completed, and nothing else has completed.
pub open spec fn linked(s: ExactView, d: DriverView) -> bool {
    &&& d.active.dom().disjoint(d.completed.dom())
    &&& s.pending.dom() == d.active.dom().union(d.completed.dom())
    &&& served(s, d)
}

/// Whether every operation in flight transfers a pending chunk.
pub open spec fn served(s: ExactView, d: DriverView) -> bool {
    forall|id: usize| #[trigger]
        d.active.contains_key(id) ==> s.pending.contains_key(id) && d.active[id] == s.operation(d, id, s.pending[id])
}

/// Whether a transfer has done what it can: it is not complete, nothing of it is
/// left to submit or no slot is free, and no completion is left over.
pub open spec fn settled(s: ExactView, d: DriverView) -> bool {
    &&& !s.done()
    &&& s.next_chunk(d.slots()) is None
    &&& d.completed.dom() == Set::<usize>::empty()
}

/// Whether a driver works for one transfer alone: whatever is in flight or has
/// completed belongs to the transfer, and the transfer waits only when it has
/// done what it can.
pub open spec fn exclusive(t: TransferView, d: DriverView) -> bool {
    match t.phase {
        PhaseView::Submit(submission) => {
            let id = submission.handle.0;
            &&& t.state.accounted()
            &&& d.completed.dom() == Set::<usize>::empty()
            &&& !t.state.pending.contains_key(id)
            &&& d.active.dom() == t.state.pending.dom().insert(id)
            &&& d.active[id] == t.state.operation(d, id, submission.chunk)
            &&& forall|k: usize| #[trigger]
                t.state.pending.contains_key(k) ==> d.active[k] == t.state.operation(d, k, t.state.pending[k])
        },
        PhaseView::Cancel(cancel, _) => {
            &&& d.active.dom().disjoint(d.completed.dom())
            &&& cancel.remaining == d.active.dom().union(d.completed.dom())
            &&& cancel.step is Drain || d.completed.dom() == Set::<usize>::empty()
            &&& cancel.remaining.subset_of(t.state.pending.dom())
            &&& served(t.state, d)
        },
        PhaseView::Finished(_) => {
            &&& d.active.dom().union(d.completed.dom()).subset_of(t.state.pending.dom())
            &&& served(t.state, d)
        },
        PhaseView::Ready | PhaseView::Deadline(_) => {
            &&& t.state.accounted()
            &&& t.state.pending.dom() == Set::<usize>::empty()
            &&& linked(t.state, d)
        },
        PhaseView::Clock | PhaseView::Reap(_) | PhaseView::Register | PhaseView::Sleep => {
            &&& t.state.accounted()
            &&& linked(t.state, d)
            &&& settled(t.state, d)
        },
        PhaseView::Collect(_, total) => {
            &&& t.state.accounted()
            &&& linked(t.state, d)
            &&& total == 0 ==> settled(t.state, d)
        },
        PhaseView::Drain(_) => t.state.accounted() && linked(t.state, d),
    }
}

/// Whether a transfer that has ended has nothing pending.
spec fn clean(t: TransferView) -> bool {
    t.phase is Finished ==> t.state.pending.dom() == Set::<usize>::empty()
}

/// Whether a reply makes a cancellation fail.
pub open spec fn breaks_cancellation(t: TransferView, reply: Reply) -> bool {
    &&& t.phase is Cancel
    &&& match reply {
        Reply::Reaped(answer, _) => answer is Err,
        Reply::Drained(drained) => drained is Err,
        _ => false,
    }
}

/// Accounting for good completions keeps the driver to the transfer, with no
/// completion left over.
pub proof fn lemma_consumed(s: ExactView, d: DriverView)
    requires
        s.wf(),
        s.accounted(),
        linked(s, d),
        s.consumable(d),
    ensures
        s.consumed(d).wf(),
        s.consumed(d).accounted(),
        linked(s.consumed(d), s.relieved(d)),
        s.relieved(d).completed.dom() == Set::<usize>::empty(),
{
    let ready = s.ready(d.completed);
    assert(ready.finite());
    lemma_credit(s, d.completed, ready);
    let s1 = s.consumed(d);
    let d1 = s.relieved(d);
    assert(d1.completed.dom() =~= Set::<usize>::empty());
    assert(s1.pending.dom() =~= d1.active.dom().union(d1.completed.dom()));
}

proof fn lemma_stopped(s: ExactView, d: DriverView, error: ErrorView, s1: ExactView, d1: DriverView)
    requires
        s.wf(),
        linked(s, d),
        s.stopped(d, error, s1, d1),
    ensures
        linked(s1, d1),
{
    let (taken, bad) = choose|taken: Set<usize>, bad: usize| s.stopped_at(d, error, s1, d1, taken, bad);
    assert(s.stopped_at(d, error, s1, d1, taken, bad));
    assert(s1.pending.dom() =~= d1.active.dom().union(d1.completed.dom()));
}

proof fn lemma_advance(remaining: Set<usize>, queue: Seq<usize>, active: Set<usize>)
    requires
        remaining == active,
        forall|i: int| 0 <= i < queue.len() ==> active.contains(#[trigger] queue[i]),
    ensures
        ({
            let c = CancelView::advance(remaining, queue, active);
            &&& c.remaining == active
            &&& c.step is Done ==> active == Set::<usize>::empty()
            &&& !(c.step is Drain)
            &&& c.step matches CancelStepView::Done(outcome) ==> outcome is Ok
        }),
{
}

proof fn lemma_gives_up(
    t: TransferView,
    d: DriverView,
    outcome: Result<(), ErrorView>,
    t1: TransferView,
    d1: DriverView,
)
    requires
        linked(t.state, d),
        t.gives_up(d, outcome, t1, d1),
    ensures
        exclusive(t1, d1),
        clean(t1),
        t1.phase is Cancel || t1.phase is Finished,
{
    let ids = t.state.pending.dom();
    let c = choose|c: CancelView| #[trigger] c.started(ids, d, d1) && t1 == t.cancelling(c, outcome);
    let order = choose|order: Seq<usize>| c.started_in(ids, d, order);
    assert(c.started_in(ids, d, order));
    let rest = ids.difference(d.completed.dom());
    assert(rest =~= d.active.dom());
    assert forall|i: int| 0 <= i < order.len() implies d.active.dom().contains(#[trigger] order[i]) by {
        assert(order.to_set().contains(order[i]));
    }
    lemma_advance(rest, order, d.active.dom());
    assert(d1.completed.dom() =~= Set::<usize>::empty());
    assert(d1.active.dom().union(d1.completed.dom()) =~= d.active.dom());
}

proof fn lemma_cancel_step(c: CancelView, d: DriverView, reply: Reply)
    requires
        c.wf(d),
        !(c.step is Done),
        d.active.dom().disjoint(d.completed.dom()),
        c.remaining == d.active.dom().union(d.completed.dom()),
        c.step is Drain || d.completed.dom() == Set::<usize>::empty(),
    ensures
        ({
            let (c1, d1) = c.after(d, reply);
            &&& d1.eventfd == d.eventfd
            &&& d1.active.dom().disjoint(d1.completed.dom())
            &&& c1.remaining == d1.active.dom().union(d1.completed.dom())
            &&& c1.step is Drain || c1.step is Done || d1.completed.dom() == Set::<usize>::empty()
            &&& c1.step matches CancelStepView::Done(Ok(())) ==> c1.remaining == Set::<usize>::empty()
            &&& c1.remaining.subset_of(c.remaining)
            &&& forall|id: usize| #[trigger]
                d1.active.contains_key(id) ==> d.active.contains_key(id) && d1.active[id] == d.active[id]
        }),
{
    let (c1, d1) = c.after(d, reply);
    match (c.step, reply) {
        (CancelStepView::Cancel(id), Reply::Cancelled(cancelled)) => {
            let rest = if cancelled { c.remaining.remove(id) } else { c.remaining };
            assert(rest =~= d1.active.dom());
            assert forall|i: int| 0 <= i < c.queue.len() implies d1.active.dom().contains(#[trigger] c.queue[i]) by {
                assert(c.remaining.contains(c.queue[i]));
                assert(c.queue.contains(c.queue[i]));
            }
            lemma_advance(rest, c.queue, d1.active.dom());
            assert(d1.active.dom().union(d1.completed.dom()) =~= d1.active.dom());
        },
        (CancelStepView::Reap(_), Reply::Reaped(answer, batch)) => {
            lemma_reap(d, answer, batch@);
            assert(d1.active.dom().union(d1.completed.dom()) =~= d.active.dom().union(d.completed.dom()));
        },
        (CancelStepView::Drain, Reply::Drained(Ok(()))) => {
            let rest = c.remaining.difference(d.completed.dom()).intersect(d.active.dom());
            assert(d1.completed.dom() =~= Set::<usize>::empty());
            assert(rest =~= d1.active.dom().union(d1.completed.dom()));
        },
        _ => {},
    }
}

proof fn lemma_fails_on_completion(t: TransferView, d: DriverView, t1: TransferView, d1: DriverView)
    requires
        t.state.wf(),
        linked(t.state, d),
        t.fails_on_completion(d, t1, d1),
    ensures
        exclusive(t1, d1),
        clean(t1),
{
    let (error, s, between) = choose|error: ErrorView, s: ExactView, between: DriverView| #[trigger]
        t.state.stopped(d, error, s, between) && t.with(s).fails(between, error, t1, d1);
    lemma_stopped(t.state, d, error, s, between);
    lemma_gives_up(t.with(s), between, Err(error), t1, d1);
}

proof fn lemma_waits(t: TransferView, d: DriverView, t1: TransferView, d1: DriverView)
    requires
        t.state.accounted(),
        linked(t.state, d),
        settled(t.state, d),
        t.waits(d, t1, d1),
    ensures
        exclusive(t1, d1),
        clean(t1),
{
    if t1.phase is Cancel || t1.phase is Finished {
        lemma_gives_up(t, d, Err(timed_out_error()), t1, d1);
    }
}

proof fn lemma_consumes_and_waits(t: TransferView, d: DriverView, t1: TransferView, d1: DriverView)
    requires
        t.state.wf(),
        t.state.accounted(),
        linked(t.state, d),
        settled(t.state, d),
        t.consumes_and_waits(d, t1, d1),
    ensures
        exclusive(t1, d1),
        clean(t1),
{
    assert(t.state.ready(d.completed) =~= Set::empty());
    lemma_none_ready(t.state, d);
    lemma_waits(t.with(t.state), d, t1, d1);
}

proof fn lemma_submits(t: TransferView, d: DriverView, t1: TransferView, d1: DriverView)
    requires
        t.state.wf(),
        t.state.accounted(),
        linked(t.state, d),
        d.completed.dom() == Set::<usize>::empty(),
        !t.state.done(),
        t.submits(d, t1, d1),
    ensures
        exclusive(t1, d1),
        clean(t1),
{
    match t.state.next_chunk(d.slots()) {
        Some(chunk) => {
            assert(chunk.len <= u64::MAX);
            assert(t.state.pending.dom() =~= d.active.dom());
            assert(d1.active.dom() =~= t.state.pending.dom().insert(d.next()));
        },
        None => lemma_consumes_and_waits(t, d, t1, d1),
    }
}

proof fn lemma_proceeds(t: TransferView, d: DriverView, t1: TransferView, d1: DriverView)
    requires
        t.state.wf(),
        t.state.accounted(),
        linked(t.state, d),
        t.proceeds(d, t1, d1),
    ensures
        exclusive(t1, d1),
        clean(t1),
{
    if t.state.consumable(d) {
        lemma_consumed(t.state, d);
        if !t.state.consumed(d).done() {
            lemma_submits(t.with(t.state.consumed(d)), t.state.relieved(d), t1, d1);
        }
    } else {
        lemma_fails_on_completion(t, d, t1, d1);
    }
}

proof fn lemma_reap_linked(s: ExactView, d: DriverView, answer: Result<i64, Error>, batch: Seq<IoEvent>)
    requires
        linked(s, d),
    ensures
        answer matches Ok(count) ==> linked(s, d.reap(count, batch)),
{
    lemma_reap(d, answer, batch);
    if let Ok(count) = answer {
        let d1 = d.reap(count, batch);
        assert(d1.active.dom().union(d1.completed.dom()) =~= d.active.dom().union(d.completed.dom()));
    }
}

proof fn lemma_step(t: TransferView, d: DriverView, reply: Reply, t1: TransferView, d1: DriverView)
    requires
        t.wf(d),
        exclusive(t, d),
        t.steps(d, reply, t1, d1),
    ensures
        exclusive(t1, d1),
        !(t.phase is Finished) && !breaks_cancellation(t, reply) ==> clean(t1),
{
    match (t.phase, reply) {
        (PhaseView::Ready, Reply::Begin) => match t.mode {
            Mode::Blocking(Some(_)) => {},
            _ => lemma_proceeds(t, d, t1, d1),
        },
        (PhaseView::Deadline(_), Reply::Deadline(fits)) => if fits {
            lemma_proceeds(t, d, t1, d1);
        },
        (PhaseView::Submit(submission), Reply::Submitted(answer)) => {
            let id = submission.handle.0;
            match answer {
                Ok(1) => {
                    let s = t.state.submit(id, submission.chunk);
                    lemma_submit(t.state, 1, id);
                    assert(s.pending.dom() =~= d.active.dom().union(d.completed.dom()));
                    assert(s.pending.dom().contains(id));
                    lemma_submits(t.with(s), d, t1, d1);
                },
                Ok(_) => {
                    let between = d.withdraw(id);
                    assert(t.state.pending.dom() =~= between.active.dom().union(between.completed.dom()));
                    lemma_gives_up(t, between, Err(not_accepted_error()), t1, d1);
                },
                Err(error) => {
                    let between = d.withdraw(id);
                    assert(t.state.pending.dom() =~= between.active.dom().union(between.completed.dom()));
                    lemma_gives_up(t, between, Err(error@), t1, d1);
                },
            }
        },
        (PhaseView::Clock, Reply::Remaining(left)) => {
            if left.spec_is_zero() || d.active.dom() == Set::<usize>::empty() {
                lemma_gives_up(t, d, Err(timed_out_error()), t1, d1);
            } else if left.secs > i64::MAX {
                lemma_gives_up(t, d, Err(timeout_error()), t1, d1);
            }
        },
        (PhaseView::Reap(_), Reply::Reaped(answer, batch)) => {
            lemma_reap_linked(t.state, d, answer, batch@);
            if let Err(error) = answer {
                lemma_gives_up(t, d, Err(error@), t1, d1);
            }
        },
        (PhaseView::Drain(reaped), Reply::Drained(drained)) => match drained {
            Ok(()) => if reaped == 0 {
                lemma_gives_up(t, d, Err(timed_out_error()), t1, d1);
            } else {
                lemma_proceeds(t, d, t1, d1);
            },
            Err(error) => lemma_gives_up(t, d, Err(error@), t1, d1),
        },
        (PhaseView::Collect(stage, total), Reply::Reaped(answer, batch)) => {
            lemma_reap_linked(t.state, d, answer, batch@);
            match answer {
                Ok(count) => if event_count(count) == 0 && !(t1.phase is Register) && !(t1.phase is Sleep) {
                    lemma_proceeds(t, d.reap(count, batch@), t1, d1);
                },
                Err(error) => lemma_gives_up(t, d, Err(error@), t1, d1),
            }
        },
        (PhaseView::Register, Reply::Ready(readiness)) => match readiness {
            Readiness::Failed(error) => lemma_gives_up(t, d, Err(error@), t1, d1),
            Readiness::Readable(Some(Err(error))) => lemma_gives_up(t, d, Err(error@), t1, d1),
            _ => {},
        },
        (PhaseView::Sleep, Reply::Begin) => lemma_proceeds(t, d, t1, d1),
        (PhaseView::Cancel(cancel, _), _) => {
            lemma_cancel_step(cancel, d, reply);
        },
        _ => {},
    }
}

/// A driver that works for one transfer alone keeps doing so, whatever the
/// replies are.
pub proof fn law_exclusive(t: TransferView, d: DriverView, reply: Reply, t1: TransferView, d1: DriverView)
    requires
        t.wf(d),
        exclusive(t, d),
        t.steps(d, reply, t1, d1),
    ensures
        exclusive(t1, d1),
{
    lemma_step(t, d, reply, t1, d1);
}

/// However a transfer ends, the kernel has no operation on its buffer any more,
/// nothing of it is pending and the driver is idle again, unless the kernel
/// failed to hand out the completion events of a cancellation or the eventfd
/// could not be drained.
pub proof fn law_idle_after_end(t: TransferView, d: DriverView, reply: Reply, t1: TransferView, d1: DriverView)
    requires
        t.wf(d),
        exclusive(t, d),
        t.steps(d, reply, t1, d1),
        !(t.phase is Finished),
        t1.phase is Finished,
        !breaks_cancellation(t, reply),
    ensures
        d1.idle(),
        t1.state.pending.dom() == Set::<usize>::empty(),
{
    lemma_step(t, d, reply, t1, d1);
    lemma_idle(t1, d1);
}

/// A transfer begins with a driver to itself if the driver is idle.
pub proof fn law_begin(
    kind: TransferKind,
    fd: i32,
    ptr: usize,
    total_len: int,
    chunk_size: int,
    mode: Mode,
    d: DriverView,
)
    requires
        d.idle(),
    ensures
        exclusive(TransferView::ready(ExactView::start(kind, fd, ptr, total_len, chunk_size), mode), d),
{
    let s = ExactView::start(kind, fd, ptr, total_len, chunk_size);
    assert(s.pending.dom() =~= Set::empty());
    lemma_sum_empty(lens(s.pending));
    assert(s.pending.dom() =~= d.active.dom().union(d.completed.dom()));
}

/// Giving up a transfer that sleeps or was not begun keeps the driver to it.
pub proof fn law_abandon(t: TransferView, d: DriverView, t1: TransferView, d1: DriverView)
    requires
        t.phase is Ready || t.phase is Sleep,
        exclusive(t, d),
        t.gives_up(d, Ok(()), t1, d1),
    ensures
        exclusive(t1, d1),
        t1.phase is Finished ==> d1.idle(),
{
    lemma_gives_up(t, d, Ok(()), t1, d1);
    if t1.phase is Finished {
        lemma_idle(t1, d1);
    }
}

/// When a transfer has ended without pending chunks the driver is idle.
proof fn lemma_idle(t: TransferView, d: DriverView)
    requires
        exclusive(t, d),
        t.phase is Finished,
        t.state.pending.dom() == Set::<usize>::empty(),
    ensures
        d.idle(),
{
    assert forall|id: usize| !d.active.contains_key(id) && !d.completed.contains_key(id) by {
        if d.active.contains_key(id) || d.completed.contains_key(id) {
            assert(d.active.dom().union(d.completed.dom()).contains(id));
        }
    }
    assert(d.active =~= Map::empty());
    assert(d.completed =~= Map::empty());
}

/// A transfer that has done what it can and waits has an operation in flight.
pub proof fn lemma_not_alone(t: TransferView, d: DriverView)
    requires
        d.wf(),
        t.state.wf(),
        t.state.accounted(),
        linked(t.state, d),
        settled(t.state, d),
    ensures
        d.active.dom() != Set::<usize>::empty(),
{
    if d.active.dom() == Set::<usize>::empty() {
        assert(t.state.pending.dom() =~= Set::empty());
        law_never_stuck(t.state, d.slots());
    }
}

/// Every operation in flight works inside the borrowed buffer, in the direction
/// and on the file of the transfer.
pub proof fn law_in_bounds(t: TransferView, d: DriverView, id: usize)
    requires
        t.wf(d),
        exclusive(t, d),
        d.active.contains_key(id),
    ensures
        d.active[id].iocb.buf >= t.state.ptr,
        d.active[id].iocb.buf + d.active[id].iocb.nbytes <= t.state.ptr + t.state.total_len,
        d.active[id].iocb.opcode == opcode_of(t.state.kind),
        d.active[id].iocb.fd == t.state.fd,
{
    lemma_bytes_nonnegative(t.state.pending);
    match t.phase {
        PhaseView::Submit(submission) => {
            lemma_submit(t.state, 1, submission.handle.0);
            if id != submission.handle.0 {
                assert(t.state.pending.dom().insert(submission.handle.0).contains(id));
                assert(t.state.pending.contains_key(id));
            }
        },
        _ => {
            assert(t.state.pending.contains_key(id));
        },
    }
}

/// No two operations in flight work on the same byte.
pub proof fn law_no_overlap(t: TransferView, d: DriverView, i: usize, j: usize)
    requires
        t.wf(d),
        exclusive(t, d),
        d.active.contains_key(i),
        d.active.contains_key(j),
        i != j,
    ensures
        ({
            let a = d.active[i].iocb;
            let b = d.active[j].iocb;
            a.buf + a.nbytes <= b.buf || b.buf + b.nbytes <= a.buf
        }),
{
    lemma_bytes_nonnegative(t.state.pending);
    match t.phase {
        PhaseView::Submit(submission) => {
            let id = submission.handle.0;
            lemma_submit(t.state, 1, id);
            assert(t.state.pending.dom().insert(id).contains(i));
            assert(t.state.pending.dom().insert(id).contains(j));
            assert(i != id ==> t.state.pending.contains_key(i));
            assert(j != id ==> t.state.pending.contains_key(j));
        },
        _ => {
            assert(t.state.pending.contains_key(i) && t.state.pending.contains_key(j));
        },
    }
}

/// A transfer that is not complete and has nothing pending can submit a chunk:
/// it never waits for nothing.
pub proof fn law_never_stuck(s: ExactView, slots: int)
    requires
        s.wf(),
        s.accounted(),
        s.pending.dom() == Set::<usize>::empty(),
        !s.done(),
        slots > 0,
    ensures
        s.next_chunk(slots) is Some,
{
    lemma_sum_empty(lens(s.pending));
}

} // verus!
