//! How transfers fail.

use vstd::prelude::*;

use crate::driver::{event_count, DriverView};
use crate::error::ErrorView;
use crate::exact::{lemma_none_ready, lemma_submit, ExactView};
use crate::laws::exclusive::{exclusive, lemma_consumed, lemma_not_alone, linked};
use crate::reply::{Readiness, Reply};
use crate::transfer::{not_accepted_error, timed_out_error, timeout_error, Mode, PhaseView, TransferView};

verus! {

/// Whether a transfer has given up or ended with an outcome.
pub open spec fn gave_up_with(t: TransferView, outcome: Result<(), ErrorView>) -> bool {
    t.phase matches PhaseView::Cancel(_, kept) && kept == outcome || t.phase == PhaseView::Finished(outcome)
}

/// Whether a transfer is failing or has failed.
pub open spec fn failing(t: TransferView) -> bool {
    t.phase is Cancel || (t.phase matches PhaseView::Finished(outcome) && outcome is Err)
}

/// The error that a reply itself is, to a transfer that is waiting for it: that
/// of a timeout, a submission or a wait.
pub open spec fn reply_error(t: TransferView, reply: Reply) -> Option<ErrorView> {
    match (t.phase, reply) {
        (PhaseView::Deadline(_), Reply::Deadline(false)) => Some(timeout_error()),
        (PhaseView::Submit(_), Reply::Submitted(Ok(n))) => if n == 1 {
            None
        } else {
            Some(not_accepted_error())
        },
        (PhaseView::Submit(_), Reply::Submitted(Err(error))) => Some(error@),
        (PhaseView::Clock, Reply::Remaining(left)) => if left.spec_is_zero() {
            Some(timed_out_error())
        } else if left.secs > i64::MAX {
            Some(timeout_error())
        } else {
            None
        },
        (PhaseView::Reap(_), Reply::Reaped(Err(error), _)) => Some(error@),
        (PhaseView::Collect(_, _), Reply::Reaped(Err(error), _)) => Some(error@),
        (PhaseView::Drain(reaped), Reply::Drained(Ok(()))) => if reaped == 0 {
            Some(timed_out_error())
        } else {
            None
        },
        (PhaseView::Drain(_), Reply::Drained(Err(error))) => Some(error@),
        (PhaseView::Register, Reply::Ready(Readiness::Failed(error))) => Some(error@),
        (PhaseView::Register, Reply::Ready(Readiness::Readable(Some(Err(error))))) => Some(error@),
        _ => None,
    }
}

/// Whether an error is that of a pending chunk that has completed.
pub open spec fn completion_error(s: ExactView, d: DriverView, error: ErrorView) -> bool {
    exists|id: usize| #[trigger]
        s.ready(d.completed).contains(id) && s.outcome(d.completed, id) == Err::<int, ErrorView>(error)
}

proof fn lemma_gives_up_with(
    t: TransferView,
    d: DriverView,
    outcome: Result<(), ErrorView>,
    t1: TransferView,
    d1: DriverView,
)
    requires
        t.gives_up(d, outcome, t1, d1),
    ensures
        gave_up_with(t1, outcome),
{
}

proof fn lemma_forget_wf(d: DriverView, ids: Set<usize>)
    requires
        d.wf(),
    ensures
        d.forget(ids).wf(),
{
    let after = d.forget(ids);
    assert forall|id: usize| #[trigger] after.completed.contains_key(id) implies after.completed[id].id == id by {
        assert(d.completed.contains_key(id));
    }
}

proof fn lemma_submits_well(t: TransferView, d: DriverView, t1: TransferView, d1: DriverView)
    requires
        d.wf(),
        t.state.wf(),
        t.state.accounted(),
        linked(t.state, d),
        d.completed.dom() == Set::<usize>::empty(),
        !t.state.done(),
        t.submits(d, t1, d1),
    ensures
        !failing(t1),
        t1.state == t.state,
{
    assert(t.state.ready(d.completed) =~= Set::empty());
    lemma_none_ready(t.state, d);
    if t.state.next_chunk(d.slots()) is None {
        lemma_not_alone(t, d);
    }
}

/// Going on fails just when a pending chunk has completed badly, with the error
/// of such a chunk. Otherwise all that has completed is accounted for.
pub proof fn lemma_proceeds_well(t: TransferView, d: DriverView, t1: TransferView, d1: DriverView)
    requires
        d.wf(),
        t.state.wf(),
        t.state.accounted(),
        linked(t.state, d),
        t.proceeds(d, t1, d1),
    ensures
        t.state.consumable(d) ==> !failing(t1) && t1.state == t.state.consumed(d),
        !t.state.consumable(d) ==> failing(t1) && exists|error: ErrorView| #[trigger]
            completion_error(t.state, d, error) && gave_up_with(t1, Err(error)),
{
    if t.state.consumable(d) {
        lemma_consumed(t.state, d);
        if !t.state.consumed(d).done() {
            lemma_forget_wf(d, t.state.ready(d.completed));
            lemma_submits_well(t.with(t.state.consumed(d)), t.state.relieved(d), t1, d1);
        }
    } else {
        let (error, s, between) = choose|error: ErrorView, s: ExactView, between: DriverView| #[trigger]
            t.state.stopped(d, error, s, between) && t.with(s).fails(between, error, t1, d1);
        let (taken, bad) = choose|taken: Set<usize>, bad: usize|
            t.state.stopped_at(d, error, s, between, taken, bad);
        assert(t.state.stopped_at(d, error, s, between, taken, bad));
        lemma_gives_up_with(t.with(s), between, Err(error), t1, d1);
        assert(completion_error(t.state, d, error));
    }
}

/// A transfer fails with the error of what has failed: the submission, the wait
/// or the timeout that the reply is about, or else a pending chunk that has
/// completed badly. It fails whenever the reply is an error.
pub proof fn law_failure(t: TransferView, d: DriverView, reply: Reply, t1: TransferView, d1: DriverView)
    requires
        d.wf(),
        t.wf(d),
        exclusive(t, d),
        !(t.phase is Cancel),
        !(t.phase is Finished),
        t.steps(d, reply, t1, d1),
    ensures
        match reply_error(t, reply) {
            Some(error) => gave_up_with(t1, Err(error)),
            None => failing(t1) ==> !t.state.consumable(d) && exists|error: ErrorView| #[trigger]
                completion_error(t.state, d, error) && gave_up_with(t1, Err(error)),
        },
{
    match (t.phase, reply) {
        (PhaseView::Ready, Reply::Begin) => match t.mode {
            Mode::Blocking(Some(_)) => {},
            _ => lemma_proceeds_well(t, d, t1, d1),
        },
        (PhaseView::Deadline(_), Reply::Deadline(fits)) => if fits {
            lemma_proceeds_well(t, d, t1, d1);
        },
        (PhaseView::Submit(submission), Reply::Submitted(Ok(1))) => {
            lemma_accepted_well(t, d, reply, t1, d1);
        },
        (PhaseView::Clock, Reply::Remaining(_)) => lemma_not_alone(t, d),
        (PhaseView::Drain(reaped), Reply::Drained(Ok(()))) => if reaped != 0 {
            lemma_proceeds_well(t, d, t1, d1);
        },
        (PhaseView::Collect(_, _), Reply::Reaped(Ok(count), batch)) => {
            if event_count(count) == 0 && !(t1.phase is Register) && !(t1.phase is Sleep) {
                assert(d.reap(count, batch@) == d);
                lemma_proceeds_well(t, d, t1, d1);
            }
        },
        (PhaseView::Sleep, Reply::Begin) => lemma_proceeds_well(t, d, t1, d1),
        _ => {},
    }
}

/// An accepted chunk does not make a transfer fail.
pub proof fn lemma_accepted_well(t: TransferView, d: DriverView, reply: Reply, t1: TransferView, d1: DriverView)
    requires
        d.wf(),
        t.wf(d),
        exclusive(t, d),
        t.phase is Submit,
        reply matches Reply::Submitted(Ok(1)),
        t.steps(d, reply, t1, d1),
    ensures
        !failing(t1),
        t1.state == t.state.submit(t.phase->Submit_0.handle.0, t.phase->Submit_0.chunk),
{
    let submission = t.phase->Submit_0;
    let id = submission.handle.0;
    let s = t.state.submit(id, submission.chunk);
    lemma_submit(t.state, 1, id);
    assert(s.pending.dom() =~= d.active.dom().union(d.completed.dom()));
    assert(s.pending.dom().contains(id));
    lemma_submits_well(t.with(s), d, t1, d1);
}

/// Whether a cancellation that is under way carries an error, as that of every
/// transfer does which was not abandoned.
pub open spec fn not_abandoned(t: TransferView) -> bool {
    t.phase matches PhaseView::Cancel(_, outcome) ==> outcome is Err
}

/// A transfer is abandoned by nothing but [`crate::transfer::Transfer::abandon`]:
/// whatever the replies are, its cancellation carries an error.
pub proof fn law_not_abandoned(t: TransferView, d: DriverView, reply: Reply, t1: TransferView, d1: DriverView)
    requires
        not_abandoned(t),
        t.steps(d, reply, t1, d1),
    ensures
        not_abandoned(t1),
{
}

} // verus!
