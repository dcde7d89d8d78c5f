//! What a transfer does next, whatever it is waiting for and is told.

use vstd::prelude::*;

use crate::driver::DriverView;
use crate::error::{Error, ErrorKind, ErrorView};
use crate::exact::{lemma_credit, lemma_none_ready, lemma_submit, ExactView, TransferKind};
use crate::laws::cancelling::{answers_cancellation, law_cancellation_else, law_gives_up, quits};
use crate::laws::chunks::{
    accounts, all_end_well, all_over, breaks_off, comes_next, law_accounting, law_breaking_off, law_done,
    law_next_chunk, unsubmitted,
};
use crate::laws::events::{law_launch, law_reap_nothing, none_came};
use crate::laws::exactness::law_progress;
use crate::laws::runs::{is_run, step_at, Moment};
use crate::reply::{Readiness, Reply};
use crate::request::Span;
use crate::transfer::{Mode, Phase, PhaseView, TransferView};

verus! {

/// The error of a transfer whose time is over.
pub open spec fn out_of_time() -> ErrorView {
    ErrorView::Message { kind: ErrorKind::TimedOut, message: "timeout waiting for exact AIO transfer"@ }
}

/// The error of a time that is too long.
pub open spec fn too_long() -> ErrorView {
    ErrorView::Message { kind: ErrorKind::InvalidInput, message: "timeout too large"@ }
}

/// Whether the kernel takes another operation.
pub open spec fn has_room(d: DriverView) -> bool {
    d.active.dom().len() < d.queue_len
}

/// Whether a transfer submits a chunk, from a state and a driver: the chunk that
/// comes next is in flight under a new number, by an operation that transfers
/// just this chunk.
pub open spec fn hands_in(t: TransferView, d: DriverView, t1: TransferView, d1: DriverView) -> bool {
    &&& t1.state == t.state
    &&& t1.mode == t.mode
    &&& t1.phase matches PhaseView::Submit(submission) && {
        let id = submission.handle.0;
        let iocb = d1.active[id].iocb;
        &&& comes_next(t.state, submission.chunk)
        &&& !d.active.contains_key(id)
        &&& id < d.queue_len
        &&& d1.active == d.active.insert(id, d1.active[id])
        &&& d1.completed == d.completed
        &&& d1.queue_len == d.queue_len
        &&& d1.eventfd == d.eventfd
        &&& iocb.opcode == if t.state.kind == TransferKind::Read {
            0u16
        } else {
            1u16
        }
        &&& iocb.fd == t.state.fd
        &&& iocb.buf == t.state.ptr + submission.chunk.offset
        &&& iocb.nbytes == submission.chunk.len
        &&& iocb.resfd == Some(d.eventfd)
        &&& iocb.data == id
    }
}

/// Whether a transfer waits for completions in its way: one that blocks without
/// a timeout for at least one and without limit, one that blocks with a timeout
/// asks how much time is left first, and one that is polled looks for those that
/// are there.
pub open spec fn looks_out(t: TransferView) -> bool {
    match t.mode {
        Mode::Blocking(None) => {
            t.phase matches PhaseView::Reap(request) && request.min_nr == 1 && request.timeout is None
        },
        Mode::Blocking(Some(_)) => t.phase is Clock,
        Mode::Polled => t.phase matches PhaseView::Collect(stage, total) && stage is First && total == 0,
    }
}

/// Whether a transfer that has accounted for all completions and submits nothing
/// ends or waits, from a state and a driver.
pub open spec fn ends_or_waits(t: TransferView, d: DriverView, t1: TransferView, d1: DriverView) -> bool {
    if all_over(t.state) {
        &&& t1.phase == PhaseView::Finished(Ok(()))
        &&& t1.state == t.state
        &&& t1.mode == t.mode
        &&& d1 == d
    } else if t.mode == Mode::Blocking(None) && (forall|id: usize| !#[trigger] d.active.contains_key(id)) {
        quits(t, d, Err(out_of_time()), t1, d1)
    } else {
        &&& looks_out(t1)
        &&& t1.state == t.state
        &&& t1.mode == t.mode
        &&& d1 == d
    }
}

/// Whether a transfer that has accounted for all completions goes on, from a
/// state and a driver: it ends if it has nothing left to do, submits the next
/// chunk if there is one and the kernel takes it, and waits otherwise.
pub open spec fn moves_on(t: TransferView, d: DriverView, t1: TransferView, d1: DriverView) -> bool {
    if !all_over(t.state) && unsubmitted(t.state) && has_room(d) {
        hands_in(t, d, t1, d1)
    } else {
        ends_or_waits(t, d, t1, d1)
    }
}

/// Whether a transfer has accounted for completions and goes on from there, or
/// has met one that has not ended well and gives up with its error. It submits
/// after that or not.
pub open spec fn accounts_and(
    t: TransferView,
    d: DriverView,
    submits: bool,
    t1: TransferView,
    d1: DriverView,
) -> bool {
    if all_end_well(t.state, d) {
        exists|s: ExactView, between: DriverView| #[trigger]
            accounts(t.state, d, s, between) && if submits {
                moves_on(TransferView { state: s, ..t }, between, t1, d1)
            } else {
                ends_or_waits(TransferView { state: s, ..t }, between, t1, d1)
            }
    } else {
        exists|error: ErrorView, s: ExactView, between: DriverView| #[trigger]
            breaks_off(t.state, d, error, s, between) && quits(
                TransferView { state: s, ..t },
                between,
                Err(error),
                t1,
                d1,
            )
    }
}

proof fn lemma_quits(
    t: TransferView,
    s: ExactView,
    d: DriverView,
    outcome: Result<(), ErrorView>,
    t1: TransferView,
    d1: DriverView,
)
    requires
        t.with(s).gives_up(d, outcome, t1, d1),
    ensures
        quits(TransferView { state: s, ..t }, d, outcome, t1, d1),
{
    law_gives_up(t.with(s), d, outcome, t1, d1);
}

proof fn lemma_waits(t: TransferView, d: DriverView, t1: TransferView, d1: DriverView)
    requires
        !t.state.done(),
        t.waits(d, t1, d1),
    ensures
        ends_or_waits(t, d, t1, d1),
{
    law_done(t.state);
    if t.mode == Mode::Blocking(None) {
        if d.active.dom() == Set::<usize>::empty() {
            assert forall|id: usize| !#[trigger] d.active.contains_key(id) by {
                assert(!d.active.dom().contains(id));
            }
            law_gives_up(t, d, Err(out_of_time()), t1, d1);
        } else if forall|id: usize| !#[trigger] d.active.contains_key(id) {
            assert(d.active.dom() =~= Set::<usize>::empty());
        }
    }
}

proof fn lemma_fails_on_completion(t: TransferView, d: DriverView, t1: TransferView, d1: DriverView)
    requires
        t.fails_on_completion(d, t1, d1),
    ensures
        !all_end_well(t.state, d),
        exists|error: ErrorView, s: ExactView, between: DriverView| #[trigger]
            breaks_off(t.state, d, error, s, between) && quits(
                TransferView { state: s, ..t },
                between,
                Err(error),
                t1,
                d1,
            ),
{
    let (error, s, between) = choose|error: ErrorView, s: ExactView, between: DriverView| #[trigger]
        t.state.stopped(d, error, s, between) && t.with(s).fails(between, error, t1, d1);
    law_breaking_off(t.state, d, error, s, between);
    lemma_quits(t, s, between, Err(error), t1, d1);
    assert(breaks_off(t.state, d, error, s, between));
}

proof fn lemma_consumes_and_waits(t: TransferView, d: DriverView, t1: TransferView, d1: DriverView)
    requires
        t.state.wf(),
        t.consumes_and_waits(d, t1, d1),
    ensures
        accounts_and(t, d, false, t1, d1),
{
    law_accounting(t.state, d);
    if t.state.consumable(d) {
        let s = t.state.consumed(d);
        let between = t.state.relieved(d);
        let u = TransferView { state: s, ..t };
        assert(accounts(t.state, d, s, between));
        law_done(s);
        assert(t.with(s) == u);
        if !s.done() {
            lemma_waits(u, between, t1, d1);
        }
        assert(ends_or_waits(u, between, t1, d1));
    } else {
        lemma_fails_on_completion(t, d, t1, d1);
    }
}

proof fn lemma_hands_in(t: TransferView, d: DriverView, t1: TransferView, d1: DriverView)
    requires
        d.wf(),
        t.state.wf(),
        t.submits(d, t1, d1),
    ensures
        unsubmitted(t.state) && has_room(d) ==> hands_in(t, d, t1, d1),
        !(unsubmitted(t.state) && has_room(d)) ==> t.consumes_and_waits(d, t1, d1),
{
    law_next_chunk(t.state, d.slots());
    if let Some(chunk) = t.state.next_chunk(d.slots()) {
        law_launch(d, t.state.operation(d, d.next(), chunk));
        assert(t1.phase->Submit_0.chunk == chunk);
    }
}

proof fn lemma_proceeds(t: TransferView, d: DriverView, t1: TransferView, d1: DriverView)
    requires
        d.wf(),
        t.state.wf(),
        t.proceeds(d, t1, d1),
    ensures
        accounts_and(t, d, true, t1, d1),
{
    law_accounting(t.state, d);
    if t.state.consumable(d) {
        let s = t.state.consumed(d);
        let between = t.state.relieved(d);
        let u = TransferView { state: s, ..t };
        let ready = t.state.ready(d.completed);
        assert(accounts(t.state, d, s, between));
        assert(ready.finite());
        lemma_credit(t.state, d.completed, ready);
        assert(between.wf()) by {
            assert forall|id: usize| #[trigger] between.completed.contains_key(id) implies between.completed[id].id
                == id by {
                assert(d.completed.contains_key(id));
            }
        }
        law_done(s);
        assert(t.with(s) == u);
        if !s.done() {
            lemma_hands_in(u, between, t1, d1);
            if !(unsubmitted(s) && has_room(between)) {
                assert(s.ready(between.completed) =~= Set::empty());
                lemma_none_ready(s, between);
                assert(u.with(s) == u);
                lemma_waits(u, between, t1, d1);
            }
        }
        assert(moves_on(u, between, t1, d1));
    } else {
        lemma_fails_on_completion(t, d, t1, d1);
    }
}

/// Whether a transfer is told to go on: it is run or polled, without a timeout or
/// with one that can be expressed, or has waited and there were completions.
pub open spec fn told_to_go_on(t: TransferView, reply: Reply) -> bool {
    match (t.phase, reply) {
        (PhaseView::Ready, Reply::Begin) => !(t.mode matches Mode::Blocking(Some(_))),
        (PhaseView::Deadline(_), Reply::Deadline(fits)) => fits,
        (PhaseView::Drain(reaped), Reply::Drained(drained)) => reaped > 0 && drained is Ok,
        (PhaseView::Sleep, Reply::Begin) => true,
        (PhaseView::Collect(stage, total), Reply::Reaped(Ok(count), _)) => {
            none_came(count) && (total > 0 || stage is AfterRead)
        },
        _ => false,
    }
}

/// A transfer that is told to go on accounts for what has completed and then
/// ends, submits the next chunk or waits for completions: it never rests where it
/// was.
pub proof fn law_goes_on(t: TransferView, d: DriverView, reply: Reply, t1: TransferView, d1: DriverView)
    requires
        d.wf(),
        t.wf(d),
        told_to_go_on(t, reply),
        t.steps(d, reply, t1, d1),
    ensures
        accounts_and(t, d, true, t1, d1),
        !(t1.phase is Ready),
        !(t1.phase is Deadline),
        !(t1.phase is Drain),
        !(t1.phase is Sleep),
        !(t1.phase is Register),
{
    match (t.phase, reply) {
        (PhaseView::Collect(_, _), Reply::Reaped(Ok(count), batch)) => {
            law_reap_nothing(d, count, batch@);
        },
        _ => {},
    }
    lemma_proceeds(t, d, t1, d1);
}

/// A transfer whose chunk the kernel has accepted has it pending. It submits the
/// next one if there is one and the kernel takes it, and otherwise accounts for
/// what has completed and ends or waits.
pub proof fn law_accepted(t: TransferView, d: DriverView, t1: TransferView, d1: DriverView)
    requires
        d.wf(),
        t.wf(d),
        t.phase is Submit,
        t.steps(d, Reply::Submitted(Ok(1)), t1, d1),
    ensures
        ({
            let submission = t.phase->Submit_0;
            let s = ExactView {
                submitted: t.state.submitted + submission.chunk.len,
                submitted_zero: t.state.submitted_zero || submission.chunk.len == 0,
                pending: t.state.pending.insert(submission.handle.0, submission.chunk),
                ..t.state
            };
            let u = TransferView { state: s, ..t };
            if unsubmitted(s) && has_room(d) {
                hands_in(u, d, t1, d1)
            } else {
                accounts_and(u, d, false, t1, d1)
            }
        }),
{
    let submission = t.phase->Submit_0;
    let s = t.state.submit(submission.handle.0, submission.chunk);
    let u = TransferView { state: s, ..t };
    lemma_submit(t.state, 1, submission.handle.0);
    assert(t.with(s) == u);
    lemma_hands_in(u, d, t1, d1);
    if !(unsubmitted(s) && has_room(d)) {
        lemma_consumes_and_waits(u, d, t1, d1);
    }
}

/// A transfer whose chunk the kernel refuses gives up. The operation is not in
/// flight any more, and the error is the kernel's or says that the request was
/// not accepted.
pub proof fn law_refused(t: TransferView, d: DriverView, reply: Reply, t1: TransferView, d1: DriverView)
    requires
        t.phase is Submit,
        reply matches Reply::Submitted(answer) && answer != Ok::<i64, Error>(1),
        t.steps(d, reply, t1, d1),
    ensures
        ({
            let error = match reply->Submitted_0 {
                Ok(_) => ErrorView::Message { kind: ErrorKind::WouldBlock, message: "AIO request not accepted"@ },
                Err(error) => error@,
            };
            let between = DriverView {
                active: d.active.remove(t.phase->Submit_0.handle.0),
                vacated: d.vacated.push(t.phase->Submit_0.handle.0),
                ..d
            };
            quits(t, between, Err(error), t1, d1)
        }),
{
    let id = t.phase->Submit_0.handle.0;
    match reply->Submitted_0 {
        Ok(_) => law_gives_up(
            t,
            d.withdraw(id),
            Err(ErrorView::Message { kind: ErrorKind::WouldBlock, message: "AIO request not accepted"@ }),
            t1,
            d1,
        ),
        Err(error) => law_gives_up(t, d.withdraw(id), Err(error@), t1, d1),
    }
}

/// A blocking transfer with a timeout has the end of just this timeout fixed
/// before anything else. It fails at once if that cannot be done.
pub proof fn law_timeout_begins(t: TransferView, d: DriverView, reply: Reply, t1: TransferView, d1: DriverView)
    requires
        t.steps(d, reply, t1, d1),
    ensures
        t.phase is Ready && reply is Begin && (t.mode matches Mode::Blocking(Some(_))) ==> {
            &&& t1.phase == PhaseView::Deadline(t.mode->Blocking_0->Some_0)
            &&& t1.state == t.state
            &&& t1.mode == t.mode
            &&& d1 == d
        },
        t.phase is Deadline && reply == Reply::Deadline(false) ==> {
            &&& t1.phase == PhaseView::Finished(Err(too_long()))
            &&& t1.state == t.state
            &&& t1.mode == t.mode
            &&& d1 == d
        },
{
}

/// A blocking transfer with a timeout waits for no longer than time is left: for
/// at least one completion and for just that time. It gives up when no time is
/// left, when there is nothing to wait for, or when the time is too long for the
/// kernel.
pub proof fn law_waits_for_time_left(t: TransferView, d: DriverView, left: Span, t1: TransferView, d1: DriverView)
    requires
        t.phase is Clock,
        t.steps(d, Reply::Remaining(left), t1, d1),
    ensures
        if (left.secs == 0 && left.subsec_nanos == 0) || (forall|id: usize| !#[trigger] d.active.contains_key(id)) {
            quits(t, d, Err(out_of_time()), t1, d1)
        } else if left.secs > 0x7fff_ffff_ffff_ffff {
            quits(t, d, Err(too_long()), t1, d1)
        } else {
            &&& t1.phase matches PhaseView::Reap(request) && request.min_nr == 1 && (request.timeout matches Some(time)
                && time.tv_sec == left.secs && time.tv_nsec == left.subsec_nanos)
            &&& t1.state == t.state
            &&& t1.mode == t.mode
            &&& d1 == d
        },
{
    if d.active.dom() == Set::<usize>::empty() {
        assert forall|id: usize| !#[trigger] d.active.contains_key(id) by {
            assert(!d.active.dom().contains(id));
        }
    } else if forall|id: usize| !#[trigger] d.active.contains_key(id) {
        assert(d.active.dom() =~= Set::<usize>::empty());
    }
    if (left.secs == 0 && left.subsec_nanos == 0) || (forall|id: usize| !#[trigger] d.active.contains_key(id)) {
        law_gives_up(t, d, Err(out_of_time()), t1, d1);
    } else if left.secs > 0x7fff_ffff_ffff_ffff {
        law_gives_up(t, d, Err(too_long()), t1, d1);
    }
}

/// Whether a wait for completions is limited just when the transfer has a
/// timeout.
pub open spec fn limited(t: TransferView) -> bool {
    t.phase matches PhaseView::Reap(request) ==> request.min_nr == 1 && match t.mode {
        Mode::Blocking(timeout) => timeout is Some <==> request.timeout is Some,
        Mode::Polled => false,
    }
}

proof fn lemma_limited(t: TransferView, d: DriverView, reply: Reply, t1: TransferView, d1: DriverView)
    requires
        limited(t),
        t.phase is Clock ==> (t.mode matches Mode::Blocking(Some(_))),
        d.wf(),
        t.wf(d),
        t.steps(d, reply, t1, d1),
    ensures
        limited(t1),
        t1.phase is Clock ==> (t1.mode matches Mode::Blocking(Some(_))),
{
    if told_to_go_on(t, reply) {
        law_goes_on(t, d, reply, t1, d1);
    }
    match (t.phase, reply) {
        (PhaseView::Submit(_), Reply::Submitted(answer)) => match answer {
            Ok(1) => law_accepted(t, d, t1, d1),
            _ => law_refused(t, d, reply, t1, d1),
        },
        _ => {},
    }
}

/// No blocking transfer with a timeout ever waits without limit, none without one
/// waits with a limit, and none that is polled waits at all.
pub proof fn law_waits_are_limited(moments: Seq<Moment>, replies: Seq<Reply>, k: int)
    requires
        is_run(moments, replies),
        moments[0].transfer.phase is Ready,
        0 <= k < moments.len(),
    ensures
        limited(moments[k].transfer),
        moments[k].transfer.mode == moments[0].transfer.mode,
        moments[k].transfer.phase is Clock ==> (moments[k].transfer.mode matches Mode::Blocking(Some(_))),
    decreases k,
{
    if k > 0 {
        let m = moments[k - 1];
        law_waits_are_limited(moments, replies, k - 1);
        assert(m.driver.wf() && m.transfer.wf(m.driver));
        assert(step_at(moments, replies, k - 1));
        lemma_limited(m.transfer, m.driver, replies[k - 1], moments[k].transfer, moments[k].driver);
        law_progress(
            m.transfer,
            m.driver,
            replies[k - 1],
            moments[k].transfer,
            moments[k].driver,
        );
    }
}

/// The completion events that a blocking transfer has waited for are taken in and
/// counted, and the eventfd is drained next. A transfer that got none has run out
/// of time.
pub proof fn law_waited(t: TransferView, d: DriverView, reply: Reply, t1: TransferView, d1: DriverView)
    requires
        t.steps(d, reply, t1, d1),
    ensures
        t.phase is Reap && (reply matches Reply::Reaped(Ok(_), _)) ==> {
            let count = reply->Reaped_0->Ok_0;
            &&& t1.phase matches PhaseView::Drain(reaped) && reaped == if none_came(count) {
                0
            } else {
                count as int
            }
            &&& t1.state == t.state
            &&& t1.mode == t.mode
            &&& d1 == d.reap(count, reply->Reaped_1@)
        },
        t.phase is Reap && (reply matches Reply::Reaped(Err(_), _)) ==> quits(
            t,
            d,
            Err(reply->Reaped_0->Err_0@),
            t1,
            d1,
        ),
        t.phase == PhaseView::Drain(0) && (reply matches Reply::Drained(Ok(()))) ==> quits(
            t,
            d,
            Err(out_of_time()),
            t1,
            d1,
        ),
        t.phase is Drain && (reply matches Reply::Drained(Err(_))) ==> quits(
            t,
            d,
            Err(reply->Drained_0->Err_0@),
            t1,
            d1,
        ),
{
    match (t.phase, reply) {
        (PhaseView::Reap(_), Reply::Reaped(Err(error), _)) => law_gives_up(t, d, Err(error@), t1, d1),
        (PhaseView::Drain(reaped), Reply::Drained(Ok(_))) => if reaped == 0 {
            law_gives_up(t, d, Err(out_of_time()), t1, d1);
        },
        (PhaseView::Drain(_), Reply::Drained(Err(error))) => law_gives_up(t, d, Err(error@), t1, d1),
        _ => {},
    }
}

/// A polled transfer takes in the completion events that are there and looks for
/// more as long as there are any. If there was none at all, it asks whether the
/// eventfd can be read, and sleeps if there was none after that either.
pub proof fn law_collects(t: TransferView, d: DriverView, reply: Reply, t1: TransferView, d1: DriverView)
    requires
        t.phase is Collect,
        reply is Reaped,
        t.steps(d, reply, t1, d1),
    ensures
        ({
            let stage = t.phase->Collect_0;
            let total = t.phase->Collect_1;
            match reply->Reaped_0 {
                Ok(count) => {
                    &&& !none_came(count) ==> {
                        &&& t1.phase matches PhaseView::Collect(stage1, total1) && stage1 == stage && total1 == if total
                            + count <= usize::MAX {
                            total + count
                        } else {
                            usize::MAX as int
                        }
                        &&& t1.state == t.state
                        &&& t1.mode == t.mode
                        &&& d1 == d.reap(count, reply->Reaped_1@)
                    }
                    &&& none_came(count) && total == 0 && stage is First ==> {
                        t1.phase is Register && t1.state == t.state && t1.mode == t.mode && d1 == d
                    }
                    &&& none_came(count) && total == 0 && stage is AfterRegistration ==> {
                        t1.phase is Sleep && t1.state == t.state && t1.mode == t.mode && d1 == d
                    }
                },
                Err(error) => quits(t, d, Err(error@), t1, d1),
            }
        }),
{
    match reply->Reaped_0 {
        Ok(count) => if none_came(count) {
            law_reap_nothing(d, count, reply->Reaped_1@);
        },
        Err(error) => law_gives_up(t, d, Err(error@), t1, d1),
    }
}

/// A polled transfer looks for completions again after it has asked whether the
/// eventfd can be read, whether it can or not, and gives up if that or the read
/// has failed.
pub proof fn law_looks_again(
    t: TransferView,
    d: DriverView,
    readiness: Readiness,
    t1: TransferView,
    d1: DriverView,
)
    requires
        t.phase is Register,
        t.steps(d, Reply::Ready(readiness), t1, d1),
    ensures
        match readiness {
            Readiness::Failed(error) => quits(t, d, Err(error@), t1, d1),
            Readiness::Readable(Some(Err(error))) => quits(t, d, Err(error@), t1, d1),
            Readiness::Readable(_) => {
                &&& t1.phase matches PhaseView::Collect(stage, total) && stage is AfterRead && total == 0
                &&& t1.state == t.state
                &&& t1.mode == t.mode
                &&& d1 == d
            },
            Readiness::Pending => {
                &&& t1.phase matches PhaseView::Collect(stage, total) && stage is AfterRegistration && total == 0
                &&& t1.state == t.state
                &&& t1.mode == t.mode
                &&& d1 == d
            },
        },
{
    match readiness {
        Readiness::Failed(error) => law_gives_up(t, d, Err(error@), t1, d1),
        Readiness::Readable(Some(Err(error))) => law_gives_up(t, d, Err(error@), t1, d1),
        _ => {},
    }
}

/// Whether a reply answers what a transfer is waiting for.
pub open spec fn answers(t: TransferView, reply: Reply) -> bool {
    match t.phase {
        PhaseView::Ready | PhaseView::Sleep | PhaseView::Finished(_) => reply is Begin,
        PhaseView::Deadline(_) => reply is Deadline,
        PhaseView::Submit(_) => reply is Submitted,
        PhaseView::Clock => reply is Remaining,
        PhaseView::Reap(_) | PhaseView::Collect(_, _) => reply is Reaped,
        PhaseView::Drain(_) => reply is Drained,
        PhaseView::Register => reply is Ready,
        PhaseView::Cancel(cancel, _) => answers_cancellation(cancel, reply),
    }
}

/// A reply that a transfer is not waiting for changes nothing.
pub proof fn law_other_replies(t: TransferView, d: DriverView, reply: Reply, t1: TransferView, d1: DriverView)
    requires
        t.wf(d),
        !answers(t, reply),
        t.steps(d, reply, t1, d1),
    ensures
        t1 == t,
        d1 == d,
{
    if let PhaseView::Cancel(cancel, _) = t.phase {
        law_cancellation_else(cancel, d, reply);
    }
}

/// A transfer that has ended stays as it is when it is run again. If it is polled
/// again it succeeds.
pub proof fn law_ended(t: TransferView, d: DriverView, t1: TransferView, d1: DriverView)
    requires
        t.phase is Finished,
        t.steps(d, Reply::Begin, t1, d1),
    ensures
        t1.state == t.state,
        t1.mode == t.mode,
        d1 == d,
        t1.phase == if t.mode is Polled {
            PhaseView::Finished(Ok(()))
        } else {
            t.phase
        },
{
}

/// What is known of the phase of a transfer is what the phase is: each stands for
/// itself, with what it carries.
pub proof fn law_phase_seen(phase: Phase)
    ensures
        match phase {
            Phase::Ready => phase@ is Ready,
            Phase::Deadline(timeout) => phase@ == PhaseView::Deadline(timeout),
            Phase::Submit(submission) => phase@ == PhaseView::Submit(submission),
            Phase::Clock => phase@ is Clock,
            Phase::Reap(request) => phase@ == PhaseView::Reap(request),
            Phase::Drain(reaped) => phase@ == PhaseView::Drain(reaped),
            Phase::Collect(stage, total) => phase@ == PhaseView::Collect(stage, total),
            Phase::Register => phase@ is Register,
            Phase::Sleep => phase@ is Sleep,
            Phase::Cancel(cancellation, Ok(())) => phase@ == PhaseView::Cancel(cancellation@, Ok(())),
            Phase::Cancel(cancellation, Err(error)) => phase@ == PhaseView::Cancel(cancellation@, Err(error@)),
            Phase::Finished(Ok(())) => phase@ == PhaseView::Finished(Ok(())),
            Phase::Finished(Err(error)) => phase@ == PhaseView::Finished(Err(error@)),
        },
{
}

/// A transfer that was not run yet has its state and its way of waiting, and
/// waits to be run.
pub proof fn law_ready(state: ExactView, mode: Mode)
    ensures
        TransferView::ready(state, mode).state == state,
        TransferView::ready(state, mode).mode == mode,
        TransferView::ready(state, mode).phase is Ready,
{
}

} // verus!
