//! What holds of polled transfers.

use vstd::prelude::*;

use crate::driver::{event_count, DriverView};
use crate::exact::{lemma_none_ready, ExactView};
use crate::laws::chunks::{accounts, all_end_well};
use crate::laws::events::{law_reap_takes_in, named};
use crate::laws::exclusive::{exclusive, lemma_not_alone};
use crate::laws::failure::failing;
use crate::laws::phases::{law_collects, law_goes_on, law_waited, moves_on, told_to_go_on};
use crate::reply::Reply;
use crate::request::IoEvent;
use crate::transfer::{Mode, PhaseView, Stage, TransferView};

verus! {

/// A polled transfer sleeps only if the kernel had no completion event after
/// the task was registered with the eventfd.
pub proof fn law_sleep(t: TransferView, d: DriverView, reply: Reply, t1: TransferView, d1: DriverView)
    requires
        t.steps(d, reply, t1, d1),
        t1.phase is Sleep,
        !(t.phase is Sleep),
    ensures
        t.phase == PhaseView::Collect(Stage::AfterRegistration, 0),
        reply matches Reply::Reaped(Ok(count), _) && event_count(count) == 0,
{
}

/// A polled transfer that sleeps has done what it can: it is not complete,
/// everything was submitted or no slot is free, no completion of its own is left
/// over, and the kernel has an operation whose completion will wake it.
pub proof fn law_sleep_settled(t: TransferView, d: DriverView)
    requires
        d.wf(),
        t.wf(d),
        exclusive(t, d),
        t.phase is Sleep,
    ensures
        !t.state.done(),
        t.state.submitted == t.state.total_len || d.slots() == 0,
        t.state.ready(d.completed) == Set::<usize>::empty(),
        d.active.dom() != Set::<usize>::empty(),
        t.state.pending.dom() == d.active.dom(),
{
    assert(t.state.ready(d.completed) =~= Set::empty());
    assert(t.state.pending.dom() =~= d.active.dom());
    lemma_not_alone(t, d);
}

/// A polled transfer that sleeps and is polled looks for completions, without
/// waiting, before anything else.
pub proof fn law_wakes(t: TransferView, d: DriverView, t1: TransferView, d1: DriverView)
    requires
        d.wf(),
        t.wf(d),
        exclusive(t, d),
        t.phase is Sleep,
        t.mode is Polled,
        t.steps(d, Reply::Begin, t1, d1),
    ensures
        t1.phase matches PhaseView::Collect(stage, total) && stage is First && total == 0,
        t1.phase.request() matches Some(request) && request.min_nr == 0 && request.timeout is None,
        t1.state == t.state,
        t1.mode == t.mode,
        d1 == d,
{
    assert(t.state.ready(d.completed) =~= Set::empty());
    lemma_none_ready(t.state, d);
}

/// Whether a transfer has dealt with a chunk: it is pending no more, or the
/// transfer has failed.
pub open spec fn dealt_with(t: TransferView, id: usize) -> bool {
    failing(t) || !t.state.pending.contains_key(id)
}

proof fn lemma_dealt_with(t: TransferView, d: DriverView, reply: Reply, t1: TransferView, d1: DriverView, id: usize)
    requires
        d.wf(),
        t.wf(d),
        told_to_go_on(t, reply),
        t.steps(d, reply, t1, d1),
        d.completed.contains_key(id),
    ensures
        dealt_with(t1, id),
{
    law_goes_on(t, d, reply, t1, d1);
    if all_end_well(t.state, d) {
        let (s, between) = choose|s: ExactView, between: DriverView| #[trigger]
            accounts(t.state, d, s, between) && moves_on(TransferView { state: s, ..t }, between, t1, d1);
        assert(accounts(t.state, d, s, between));
        assert(!s.pending.contains_key(id));
    }
}

/// A completion that a polled transfer finds is accounted for as soon as there is
/// no other one, or the transfer fails.
pub proof fn law_found(
    t: TransferView,
    d: DriverView,
    count: i64,
    batch: Vec<IoEvent>,
    t1: TransferView,
    d1: DriverView,
    rest: Vec<IoEvent>,
    t2: TransferView,
    d2: DriverView,
    i: int,
    id: usize,
)
    requires
        d.wf(),
        d1.wf(),
        t.wf(d),
        t.phase is Collect,
        t.steps(d, Reply::Reaped(Ok(count), batch), t1, d1),
        t1.steps(d1, Reply::Reaped(Ok(0), rest), t2, d2),
        0 <= i < count <= batch@.len(),
        count <= usize::MAX,
        batch@[i].data == id,
        d.active.contains_key(id),
    ensures
        dealt_with(t2, id),
        !(t2.phase is Sleep),
        !(t2.phase is Register),
{
    law_collects(t, d, Reply::Reaped(Ok(count), batch), t1, d1);
    law_reap_takes_in(d, count, batch@);
    assert(named(batch@, count as int, id));
    assert(d1.completed.contains_key(id));
    law_goes_on(t1, d1, Reply::Reaped(Ok(0), rest), t2, d2);
    lemma_dealt_with(t1, d1, Reply::Reaped(Ok(0), rest), t2, d2, id);
}

/// A completion that a blocking transfer has waited for is accounted for as soon
/// as the eventfd is drained, or the transfer fails.
pub proof fn law_waited_for(
    t: TransferView,
    d: DriverView,
    count: i64,
    batch: Vec<IoEvent>,
    t1: TransferView,
    d1: DriverView,
    t2: TransferView,
    d2: DriverView,
    i: int,
    id: usize,
)
    requires
        d.wf(),
        d1.wf(),
        t.wf(d),
        t.phase is Reap,
        t.steps(d, Reply::Reaped(Ok(count), batch), t1, d1),
        t1.steps(d1, Reply::Drained(Ok(())), t2, d2),
        0 <= i < count <= batch@.len(),
        count <= usize::MAX,
        batch@[i].data == id,
        d.active.contains_key(id),
    ensures
        dealt_with(t2, id),
{
    law_waited(t, d, Reply::Reaped(Ok(count), batch), t1, d1);
    law_reap_takes_in(d, count, batch@);
    assert(named(batch@, count as int, id));
    assert(d1.completed.contains_key(id));
    lemma_dealt_with(t1, d1, Reply::Drained(Ok(())), t2, d2, id);
}

/// Polling a transfer again after its end succeeds and changes nothing else.
pub proof fn law_poll_after_end(t: TransferView, d: DriverView, t1: TransferView, d1: DriverView)
    requires
        t.phase is Finished,
        t.mode == Mode::Polled,
        t.steps(d, Reply::Begin, t1, d1),
    ensures
        t1 == t.at(PhaseView::Finished(Ok(()))),
        d1 == d,
{
}

} // verus!
