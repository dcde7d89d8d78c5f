//! What holds of transfers from their beginning to their end.

use vstd::prelude::*;

use crate::driver::{event_count, lemma_complete_more, op_result, DriverView};
use crate::error::ErrorView;
use crate::exact::{ExactView, TransferKind};
use crate::laws::exactness::{law_exact, law_outcome_kept, law_progress};
use crate::laws::exclusive::{breaks_cancellation, exclusive, law_begin, law_exclusive, law_idle_after_end};
use crate::laws::failure::{
    completion_error, failing, gave_up_with, law_failure, law_not_abandoned, not_abandoned, reply_error,
};
use crate::laws::tiling::{gained, law_end_tiles, law_start_tiles, law_step_tiles, range, tiles};
use crate::reply::Reply;
use crate::request::IoEvent;
use crate::transfer::{Mode, PhaseView, Stage, TransferView};

verus! {

/// A transfer and its driver at one moment.
pub struct Moment {
    /// The transfer.
    pub transfer: TransferView,
    /// The driver.
    pub driver: DriverView,
}

/// Whether a reply takes one moment of a sequence to the next.
pub open spec fn step_at(moments: Seq<Moment>, replies: Seq<Reply>, i: int) -> bool {
    moments[i].transfer.steps(moments[i].driver, replies[i], moments[i + 1].transfer, moments[i + 1].driver)
}

/// Whether replies take a transfer through a sequence of moments.
pub open spec fn is_run(moments: Seq<Moment>, replies: Seq<Reply>) -> bool {
    &&& moments.len() == replies.len() + 1
    &&& forall|i: int|
        0 <= i < moments.len() ==> (#[trigger] moments[i]).driver.wf() && moments[i].transfer.wf(moments[i].driver)
    &&& forall|i: int| 0 <= i < replies.len() ==> #[trigger] step_at(moments, replies, i)
}

/// Whether a transfer was not run yet and its driver is idle.
pub open spec fn begins(moment: Moment) -> bool {
    let s = moment.transfer.state;
    &&& moment.driver.idle()
    &&& moment.transfer == TransferView::ready(
        ExactView::start(s.kind, s.fd, s.ptr, s.total_len, s.chunk_size),
        moment.transfer.mode,
    )
}

/// Whether a transfer ends with the last moment at the earliest.
pub open spec fn unended(moments: Seq<Moment>) -> bool {
    forall|i: int| 0 <= i < moments.len() - 1 ==> !((#[trigger] moments[i]).transfer.phase is Finished)
}

/// Whether no reply is an error.
pub open spec fn smooth(moments: Seq<Moment>, replies: Seq<Reply>) -> bool {
    forall|i: int|
        #![trigger replies[i]]
        0 <= i < replies.len() ==> reply_error(moments[i].transfer, replies[i]) is None
}

/// What every moment of a run keeps.
pub proof fn law_run(moments: Seq<Moment>, replies: Seq<Reply>, k: int)
    requires
        is_run(moments, replies),
        begins(moments[0]),
        0 <= k < moments.len(),
    ensures
        exclusive(moments[k].transfer, moments[k].driver),
        not_abandoned(moments[k].transfer),
        moments[k].transfer.mode == moments[0].transfer.mode,
        moments[k].transfer.state.kind == moments[0].transfer.state.kind,
        moments[k].transfer.state.fd == moments[0].transfer.state.fd,
        moments[k].transfer.state.ptr == moments[0].transfer.state.ptr,
        moments[k].transfer.state.total_len == moments[0].transfer.state.total_len,
        moments[k].transfer.state.chunk_size == moments[0].transfer.state.chunk_size,
    decreases k,
{
    if k == 0 {
        let s = moments[0].transfer.state;
        law_begin(
            s.kind,
            s.fd,
            s.ptr,
            s.total_len,
            s.chunk_size,
            moments[0].transfer.mode,
            moments[0].driver,
        );
    } else {
        law_run(moments, replies, k - 1);
        let m = moments[k - 1];
        let m1 = moments[k];
        assert(step_at(moments, replies, k - 1));
        law_exclusive(m.transfer, m.driver, replies[k - 1], m1.transfer, m1.driver);
        law_not_abandoned(m.transfer, m.driver, replies[k - 1], m1.transfer, m1.driver);
        law_progress(m.transfer, m.driver, replies[k - 1], m1.transfer, m1.driver);
    }
}

/// The bytes that the step from a moment to the next has moved.
pub open spec fn gained_at(moments: Seq<Moment>, i: int) -> Set<int> {
    gained(moments[i].transfer.state, moments[i].driver, moments[i + 1].transfer.state)
}

/// The bytes that the first steps of a run have moved.
pub open spec fn moved_by(moments: Seq<Moment>, steps: int) -> Set<int>
    decreases steps,
{
    if steps <= 0 {
        Set::empty()
    } else {
        moved_by(moments, steps - 1).union(gained_at(moments, steps - 1))
    }
}

/// A transfer that fails does not recover before its end.
pub proof fn lemma_keeps_failing(moments: Seq<Moment>, replies: Seq<Reply>, i: int, k: int)
    requires
        is_run(moments, replies),
        begins(moments[0]),
        unended(moments),
        0 <= i <= k < moments.len(),
        failing(moments[i].transfer),
    ensures
        failing(moments[k].transfer),
    decreases k - i,
{
    if i < k {
        let m = moments[i];
        let m1 = moments[i + 1];
        assert(step_at(moments, replies, i));
        law_run(moments, replies, i);
        assert(!(m.transfer.phase is Finished));
        let outcome = m.transfer.phase->Cancel_1;
        law_outcome_kept(m.transfer, m.driver, outcome, replies[i], m1.transfer, m1.driver);
        lemma_keeps_failing(moments, replies, i + 1, k);
    }
}

proof fn lemma_run_tiles(moments: Seq<Moment>, replies: Seq<Reply>, k: int)
    requires
        is_run(moments, replies),
        begins(moments[0]),
        unended(moments),
        0 <= k < moments.len(),
        !failing(moments[k].transfer),
    ensures
        tiles(moments[k].transfer.state, moved_by(moments, k)),
        forall|i: int| 0 <= i < k ==> moved_by(moments, i).disjoint(#[trigger] gained_at(moments, i)),
    decreases k,
{
    if k == 0 {
        assert(moments[0].transfer.state.pending.dom() =~= Set::empty());
        law_start_tiles(moments[0].transfer.state);
    } else {
        let m = moments[k - 1];
        let m1 = moments[k];
        if failing(m.transfer) {
            lemma_keeps_failing(moments, replies, k - 1, k);
        }
        lemma_run_tiles(moments, replies, k - 1);
        law_run(moments, replies, k - 1);
        assert(step_at(moments, replies, k - 1));
        assert(!(m.transfer.phase is Finished));
        law_step_tiles(m.transfer, m.driver, replies[k - 1], m1.transfer, m1.driver, moved_by(moments, k - 1));
    }
}

/// A transfer that ends well has moved every byte of its buffer, and each of
/// them once: no step moves a byte that an earlier step has moved.
pub proof fn law_run_tiles(moments: Seq<Moment>, replies: Seq<Reply>)
    requires
        is_run(moments, replies),
        begins(moments[0]),
        unended(moments),
        moments.last().transfer.phase == PhaseView::Finished(Ok(())),
    ensures
        moved_by(moments, replies.len() as int) == range(moments[0].transfer.state.total_len),
        forall|i: int| 0 <= i < replies.len() ==> moved_by(moments, i).disjoint(#[trigger] gained_at(moments, i)),
{
    let k = replies.len() as int;
    lemma_run_tiles(moments, replies, k);
    law_run(moments, replies, k);
    lemma_end(moments, replies);
    law_end_tiles(moments[k].transfer.state, moved_by(moments, k));
}

pub proof fn lemma_end(moments: Seq<Moment>, replies: Seq<Reply>)
    requires
        is_run(moments, replies),
        begins(moments[0]),
        unended(moments),
        moments.last().transfer.phase == PhaseView::Finished(Ok(())),
    ensures
        replies.len() > 0,
        ({
            let s = moments.last().transfer.state;
            &&& s.pending.dom() == Set::<usize>::empty()
            &&& s.completed == s.total_len
            &&& s.submitted == s.total_len
            &&& s.kind == TransferKind::Write && s.total_len == 0 ==> s.submitted_zero
        }),
        moments.last().driver.idle(),
{
    let k = replies.len() as int;
    let m = moments[k - 1];
    let m1 = moments[k];
    assert(step_at(moments, replies, k - 1));
    law_run(moments, replies, k - 1);
    assert(!(m.transfer.phase is Finished));
    if m.transfer.phase is Cancel {
        lemma_keeps_failing(moments, replies, k - 1, k);
    }
    law_exact(m.transfer, m.driver, replies[k - 1], m1.transfer, m1.driver);
    law_idle_after_end(m.transfer, m.driver, replies[k - 1], m1.transfer, m1.driver);
}

/// Whether a transfer has failed with an error at one step of a run: the reply
/// was the error, or else a pending chunk had completed with it.
pub open spec fn failed_at(moments: Seq<Moment>, replies: Seq<Reply>, i: int, error: ErrorView) -> bool {
    &&& !failing(moments[i].transfer)
    &&& match reply_error(moments[i].transfer, replies[i]) {
        Some(e) => e == error,
        None => completion_error(moments[i].transfer.state, moments[i].driver, error),
    }
}

pub proof fn lemma_cause(moments: Seq<Moment>, replies: Seq<Reply>, k: int, error: ErrorView) -> (i: int)
    requires
        is_run(moments, replies),
        begins(moments[0]),
        unended(moments),
        0 <= k < moments.len(),
        gave_up_with(moments[k].transfer, Err(error)),
    ensures
        0 <= i < k,
        failed_at(moments, replies, i, error),
    decreases k,
{
    assert(k > 0);
    let m = moments[k - 1];
    let m1 = moments[k];
    assert(step_at(moments, replies, k - 1));
    law_run(moments, replies, k - 1);
    assert(!(m.transfer.phase is Finished));
    if m.transfer.phase is Cancel {
        let outcome = m.transfer.phase->Cancel_1;
        law_outcome_kept(m.transfer, m.driver, outcome, replies[k - 1], m1.transfer, m1.driver);
        lemma_cause(moments, replies, k - 1, error)
    } else {
        law_failure(m.transfer, m.driver, replies[k - 1], m1.transfer, m1.driver);
        k - 1
    }
}

/// A transfer that ends badly ends with the error of the submission, completion
/// or wait that failed, whatever came of the cancellation. Unless the
/// cancellation failed, nothing is pending then and the driver is idle. Polled
/// again, it succeeds and changes nothing else.
pub proof fn law_run_fails(moments: Seq<Moment>, replies: Seq<Reply>, error: ErrorView)
    requires
        is_run(moments, replies),
        begins(moments[0]),
        unended(moments),
        moments.last().transfer.phase == PhaseView::Finished(Err(error)),
    ensures
        exists|i: int| 0 <= i < replies.len() && #[trigger] failed_at(moments, replies, i, error),
        !breaks_cancellation(moments[moments.len() - 2].transfer, replies.last()) ==> {
            &&& moments.last().transfer.state.pending.dom() == Set::<usize>::empty()
            &&& moments.last().driver.idle()
        },
        moments.last().transfer.mode == Mode::Polled ==> forall|t1: TransferView, d1: DriverView| #[trigger]
            moments.last().transfer.steps(moments.last().driver, Reply::Begin, t1, d1) ==> {
                &&& t1 == moments.last().transfer.at(PhaseView::Finished(Ok(())))
                &&& d1 == moments.last().driver
            },
{
    let k = replies.len() as int;
    let i = lemma_cause(moments, replies, k, error);
    assert(failed_at(moments, replies, i, error));
    let m = moments[k - 1];
    let m1 = moments[k];
    law_run(moments, replies, k - 1);
    assert(step_at(moments, replies, k - 1));
    assert(!(m.transfer.phase is Finished));
    if !breaks_cancellation(m.transfer, replies[k - 1]) {
        law_idle_after_end(m.transfer, m.driver, replies[k - 1], m1.transfer, m1.driver);
    }
}

/// Whether every pending chunk that has completed at a moment has completed in
/// full.
pub open spec fn full_at(moment: Moment) -> bool {
    let s = moment.transfer.state;
    let completed = moment.driver.completed;
    forall|id: usize| #[trigger]
        s.pending.contains_key(id) && completed.contains_key(id) ==> op_result(completed[id].res) == Ok::<
            int,
            ErrorView,
        >(s.pending[id].len as int)
}

/// A transfer whose chunks are all accepted and completed in full, and whose
/// waits do not fail, does not fail, however it waits and in whatever order the
/// completions come.
pub proof fn law_run_full(moments: Seq<Moment>, replies: Seq<Reply>, k: int)
    requires
        is_run(moments, replies),
        begins(moments[0]),
        smooth(moments, replies),
        forall|i: int| 0 <= i < moments.len() ==> full_at(#[trigger] moments[i]),
        0 <= k < moments.len(),
    ensures
        !failing(moments[k].transfer),
    decreases k,
{
    if k > 0 {
        let m = moments[k - 1];
        let m1 = moments[k];
        law_run_full(moments, replies, k - 1);
        law_run(moments, replies, k - 1);
        assert(step_at(moments, replies, k - 1));
        if !(m.transfer.phase is Finished) {
            law_failure(m.transfer, m.driver, replies[k - 1], m1.transfer, m1.driver);
            assert(reply_error(m.transfer, replies[k - 1]) is None);
            let s = m.transfer.state;
            let completed = m.driver.completed;
            assert forall|id: usize| #[trigger] s.ready(completed).contains(id) implies s.outcome(
                completed,
                id,
            ) is Ok by {
                assert(full_at(m));
                assert(s.pending.contains_key(id) && completed.contains_key(id));
            }
        }
    }
}

pub proof fn lemma_well_ended(t: TransferView)
    requires
        t.phase is Finished,
        !failing(t),
    ensures
        t.phase == PhaseView::Finished(Ok(())),
{
    match t.phase {
        PhaseView::Finished(Ok(unit)) => assert(unit == ()),
        _ => {},
    }
}

/// The same transfer, run twice in whatever ways of waiting, blocking or polled,
/// and with completions in whatever parts, order and batches, ends in the same
/// state with the same bytes moved and the driver idle whenever it ends well.
pub proof fn law_same_end(a: Seq<Moment>, a_replies: Seq<Reply>, b: Seq<Moment>, b_replies: Seq<Reply>)
    requires
        is_run(a, a_replies),
        is_run(b, b_replies),
        begins(a[0]),
        begins(b[0]),
        a[0].transfer.state == b[0].transfer.state,
        unended(a),
        unended(b),
        a.last().transfer.phase == PhaseView::Finished(Ok(())),
        b.last().transfer.phase == PhaseView::Finished(Ok(())),
    ensures
        a.last().transfer.state == b.last().transfer.state,
        a.last().driver.idle(),
        b.last().driver.idle(),
        moved_by(a, a_replies.len() as int) == moved_by(b, b_replies.len() as int),
{
    lemma_end(a, a_replies);
    lemma_end(b, b_replies);
    law_run(a, a_replies, a.len() - 1);
    law_run(b, b_replies, b.len() - 1);
    law_run_tiles(a, a_replies);
    law_run_tiles(b, b_replies);
    let s = a.last().transfer.state;
    let r = b.last().transfer.state;
    assert(a[a.len() - 1].transfer.wf(a[a.len() - 1].driver));
    assert(b[b.len() - 1].transfer.wf(b[b.len() - 1].driver));
    assert(s.pending =~= r.pending);
    assert(s == r);
}

/// The same transfer, run twice in whatever ways of waiting, has the same outcome
/// both times, success, if its chunks are all accepted and completed in full and
/// its waits do not fail.
pub proof fn law_same_outcome(a: Seq<Moment>, a_replies: Seq<Reply>, b: Seq<Moment>, b_replies: Seq<Reply>)
    requires
        is_run(a, a_replies),
        is_run(b, b_replies),
        begins(a[0]),
        begins(b[0]),
        a[0].transfer.state == b[0].transfer.state,
        unended(a),
        unended(b),
        smooth(a, a_replies),
        smooth(b, b_replies),
        forall|i: int| 0 <= i < a.len() ==> full_at(#[trigger] a[i]),
        forall|i: int| 0 <= i < b.len() ==> full_at(#[trigger] b[i]),
        a.last().transfer.phase is Finished,
        b.last().transfer.phase is Finished,
    ensures
        a.last().transfer.phase == PhaseView::Finished(Ok(())),
        b.last().transfer.phase == PhaseView::Finished(Ok(())),
        a.last().transfer.state == b.last().transfer.state,
        a.last().driver.idle(),
        b.last().driver.idle(),
        moved_by(a, a_replies.len() as int) == moved_by(b, b_replies.len() as int),
{
    law_run_full(a, a_replies, a.len() - 1);
    law_run_full(b, b_replies, b.len() - 1);
    lemma_well_ended(a.last().transfer);
    lemma_well_ended(b.last().transfer);
    law_same_end(a, a_replies, b, b_replies);
}

/// The events of replies, in the order in which they came.
pub open spec fn events_of(replies: Seq<Reply>) -> Seq<IoEvent>
    decreases replies.len(),
{
    if replies.len() == 0 {
        Seq::empty()
    } else {
        let earlier = events_of(replies.drop_last());
        match replies.last() {
            Reply::Reaped(_, batch) => earlier + batch@,
            _ => earlier,
        }
    }
}

/// Collecting takes batch after batch without waiting, as long as the kernel has
/// events: all of them are taken in and counted. Each time the transfer asks
/// with a minimum of none and without a timeout.
pub proof fn law_collect(moments: Seq<Moment>, replies: Seq<Reply>, stage: Stage)
    requires
        is_run(moments, replies),
        moments[0].transfer.phase == PhaseView::Collect(stage, 0),
        forall|i: int|
            0 <= i < replies.len() ==> (#[trigger] replies[i] matches Reply::Reaped(Ok(count), batch) && count
                == batch@.len() && count > 0),
        events_of(replies).len() <= usize::MAX,
    ensures
        moments.last().transfer == moments[0].transfer.at(
            PhaseView::Collect(stage, events_of(replies).len() as usize),
        ),
        moments.last().driver == moments[0].driver.complete_all(events_of(replies)),
        forall|i: int|
            0 <= i < moments.len() ==> ((#[trigger] moments[i]).transfer.phase.request() matches Some(request)
                && request.min_nr == 0 && request.timeout is None),
    decreases replies.len(),
{
    let k = replies.len() as int;
    if k > 0 {
        let earlier = replies.drop_last();
        let before = moments.drop_last();
        assert forall|i: int| 0 <= i < earlier.len() implies #[trigger] step_at(before, earlier, i) by {
            assert(step_at(moments, replies, i));
        }
        assert forall|i: int| 0 <= i < before.len() implies (#[trigger] before[i]).driver.wf()
            && before[i].transfer.wf(before[i].driver) by {
            assert(moments[i].driver.wf());
        }
        assert forall|i: int| 0 <= i < earlier.len() implies (#[trigger] earlier[i] matches Reply::Reaped(
            Ok(count),
            batch,
        ) && count == batch@.len() && count > 0) by {
            assert(earlier[i] == replies[i]);
        }
        law_collect(before, earlier, stage);
        assert(step_at(moments, replies, k - 1));
        assert(replies[k - 1] == replies.last());
        if let Reply::Reaped(answer, batch) = replies.last() {
            let count = answer->Ok_0;
            assert(count == batch@.len());
            assert(event_count(count) == batch@.len());
            assert(batch@.take(batch@.len() as int) =~= batch@);
            lemma_complete_more(moments[0].driver, events_of(earlier), batch@);
        }
        assert forall|i: int| 0 <= i < moments.len() implies ((
        #[trigger] moments[i]).transfer.phase.request() matches Some(request) && request.min_nr == 0
            && request.timeout is None) by {
            if i < before.len() {
                assert(before[i] == moments[i]);
            }
        }
    }
}

} // verus!
