//! How operations are cancelled: what the kernel is asked, and when it is waited
//! for.

use vstd::prelude::*;

use crate::cancel::{CancelStep, CancelStepView, CancelView};
use crate::driver::DriverView;
use crate::error::ErrorView;
use crate::laws::runs::{is_run, step_at, Moment};
use crate::reply::Reply;
use crate::request::IoEvent;
use crate::transfer::{PhaseView, TransferView};

verus! {

/// Whether the kernel is being asked to cancel an operation.
pub open spec fn asking(c: CancelView) -> bool {
    c.step is Cancel
}

/// Whether the kernel is being asked to cancel an operation, or will be.
pub open spec fn to_ask(c: CancelView, id: usize) -> bool {
    c.step == CancelStepView::Cancel(id) || c.queue.contains(id)
}

/// Whether a cancellation does what is left to do once the kernel was asked
/// about everything: it is over if no operation remains, and waits for a
/// completion without limit otherwise.
pub open spec fn waits_or_ends(c: CancelView) -> bool {
    &&& c.queue.len() == 0
    &&& match c.step {
        CancelStepView::Done(outcome) => outcome == Ok::<(), ErrorView>(()) && forall|id: usize|
            !#[trigger] c.remaining.contains(id),
        CancelStepView::Reap(request) => request.min_nr == 1 && request.timeout is None && exists|id: usize| #[trigger]
            c.remaining.contains(id),
        _ => false,
    }
}

/// Whether a cancellation goes on with the operations of a list that are in
/// flight, from others that remain.
pub open spec fn goes_through(remaining: Set<usize>, queue: Seq<usize>, active: Set<usize>, c: CancelView) -> bool {
    &&& c.queue.no_duplicates()
    &&& c.step matches CancelStepView::Cancel(id) ==> {
        &&& active.contains(id)
        &&& queue.contains(id)
        &&& !c.queue.contains(id)
        &&& c.queue.len() < queue.len()
    }
    &&& !asking(c) ==> waits_or_ends(c)
    &&& forall|id: usize| queue.contains(id) && active.contains(id) ==> #[trigger] to_ask(c, id)
    &&& forall|id: usize| #[trigger] to_ask(c, id) ==> queue.contains(id)
    &&& forall|id: usize| #[trigger]
        c.remaining.contains(id) <==> remaining.contains(id) && (queue.contains(id) ==> to_ask(c, id))
}

proof fn lemma_wait(remaining: Set<usize>)
    ensures
        waits_or_ends(CancelView::wait(remaining)),
        CancelView::wait(remaining).remaining == remaining,
{
    let c = CancelView::wait(remaining);
    if remaining == Set::<usize>::empty() {
        assert forall|id: usize| !#[trigger] c.remaining.contains(id) by {}
    } else {
        assert(exists|id: usize| #[trigger] remaining.contains(id)) by {
            if forall|id: usize| !#[trigger] remaining.contains(id) {
                assert(remaining =~= Set::<usize>::empty());
            }
        }
        let id = choose|id: usize| #[trigger] remaining.contains(id);
        assert(c.remaining.contains(id));
    }
}

proof fn lemma_goes_through(remaining: Set<usize>, queue: Seq<usize>, active: Set<usize>)
    requires
        queue.no_duplicates(),
    ensures
        goes_through(remaining, queue, active, CancelView::advance(remaining, queue, active)),
    decreases queue.len(),
{
    let c = CancelView::advance(remaining, queue, active);
    if queue.len() == 0 {
        lemma_wait(remaining);
        assert(forall|id: usize| !queue.contains(id));
        assert(forall|id: usize| !c.queue.contains(id));
    } else {
        let last = queue.last();
        let rest = queue.drop_last();
        assert forall|id: usize| #[trigger] queue.contains(id) <==> rest.contains(id) || id == last by {
            if queue.contains(id) && id != last {
                let i = choose|i: int| 0 <= i < queue.len() && queue[i] == id;
                assert(rest[i] == id);
            }
            if rest.contains(id) {
                let i = choose|i: int| 0 <= i < rest.len() && rest[i] == id;
                assert(queue[i] == id);
            }
            if id == last {
                assert(queue[queue.len() - 1] == id);
            }
        }
        assert(!rest.contains(last)) by {
            if rest.contains(last) {
                let i = choose|i: int| 0 <= i < rest.len() && rest[i] == last;
                assert(queue[i] == queue[queue.len() - 1]);
            }
        }
        if !active.contains(last) {
            lemma_goes_through(remaining.remove(last), rest, active);
            assert forall|id: usize| #[trigger]
                c.remaining.contains(id) <==> remaining.contains(id) && (queue.contains(id) ==> to_ask(c, id)) by {
                assert(rest.contains(id) ==> queue.contains(id));
                if id == last {
                    assert(queue.contains(id));
                    assert(!to_ask(c, id));
                }
            }
        }
    }
}

/// A cancellation starts with the operations that it is given and that have not
/// completed: completions that are there are dropped, the kernel is or will be
/// asked to cancel each that is in flight, and none is waited for before that. If
/// there is none, it is over at once.
pub proof fn law_cancellation_asks(c: CancelView, ids: Set<usize>, d: DriverView, d1: DriverView)
    requires
        c.started(ids, d, d1),
    ensures
        covers(c, ids, d),
        dropped(d, ids, d1),
{
    let order = choose|order: Seq<usize>| c.started_in(ids, d, order);
    let rest = ids.difference(d.completed.dom());
    assert(c.started_in(ids, d, order));
    lemma_goes_through(rest, order, d.active.dom());
    assert forall|id: usize| #[trigger] order.contains(id) <==> ids.contains(id) && !d.completed.contains_key(id) by {
        assert(order.to_set().contains(id) <==> rest.contains(id));
    }
    assert forall|id: usize| #[trigger] c.remaining.contains(id) <==> to_ask(c, id) by {
        assert(to_ask(c, id) ==> order.contains(id));
        assert(order.contains(id) <==> rest.contains(id));
    }
    assert forall|id: usize| #[trigger] to_ask(c, id) implies ids.contains(id) && !d.completed.contains_key(id) by {
        assert(order.contains(id));
    }
    if let CancelStepView::Reap(_) = c.step {
        let id = choose|id: usize| #[trigger] c.remaining.contains(id);
        assert(to_ask(c, id));
        assert(false);
    }
}

/// Whether a cancellation that starts takes care of operations of a driver.
pub open spec fn covers(c: CancelView, ids: Set<usize>, d: DriverView) -> bool {
    &&& c.queue.no_duplicates()
    &&& c.step matches CancelStepView::Cancel(id) ==> d.active.contains_key(id) && !c.queue.contains(id)
    &&& !asking(c) ==> c.step == CancelStepView::Done(Ok(())) && c.queue.len() == 0
    &&& forall|id: usize|
        ids.contains(id) && d.active.contains_key(id) && !d.completed.contains_key(id) ==> #[trigger] to_ask(c, id)
    &&& forall|id: usize| #[trigger] to_ask(c, id) ==> ids.contains(id) && !d.completed.contains_key(id)
    &&& forall|id: usize| #[trigger] c.remaining.contains(id) <==> to_ask(c, id)
}

/// Whether the completions of operations were dropped, and nothing else has
/// changed.
pub open spec fn dropped(d: DriverView, ids: Set<usize>, d1: DriverView) -> bool {
    &&& d1.active == d.active
    &&& d1.queue_len == d.queue_len
    &&& d1.eventfd == d.eventfd
    &&& forall|id: usize| #[trigger]
        d1.completed.contains_key(id) <==> d.completed.contains_key(id) && !ids.contains(id)
    &&& forall|id: usize| #[trigger] d1.completed.contains_key(id) ==> d1.completed[id] == d.completed[id]
}

/// The kernel's answer about one operation ends what it was asked, and takes the
/// operation out of flight if the answer is yes. Each other operation in flight
/// that was still to be asked about still is. The cancellation waits only when
/// there is none.
pub proof fn law_cancellation_answered(c: CancelView, id: usize, d: DriverView, yes: bool)
    requires
        c.wf(d),
        c.step == CancelStepView::Cancel(id),
    ensures
        ({
            let (c1, d1) = c.after(d, Reply::Cancelled(yes));
            let remaining = if yes {
                c.remaining.remove(id)
            } else {
                c.remaining
            };
            &&& goes_through(remaining, c.queue, d1.active.dom(), c1)
            &&& !to_ask(c1, id)
            &&& d1.active == if yes {
                d.active.remove(id)
            } else {
                d.active
            }
            &&& d1.completed == d.completed
            &&& d1.queue_len == d.queue_len
            &&& d1.eventfd == d.eventfd
        }),
{
    if yes {
        lemma_goes_through(c.remaining.remove(id), c.queue, d.withdraw(id).active.dom());
    } else {
        lemma_goes_through(c.remaining, c.queue, d.active.dom());
    }
}

/// Completion events that a cancellation has waited for are taken in, and the
/// eventfd is drained next.
pub proof fn law_cancellation_events(c: CancelView, d: DriverView, count: i64, batch: Vec<IoEvent>)
    requires
        c.step is Reap,
    ensures
        ({
            let (c1, d1) = c.after(d, Reply::Reaped(Ok(count), batch));
            &&& c1.step is Drain
            &&& c1.remaining == c.remaining
            &&& c1.queue == c.queue
            &&& d1 == d.reap(count, batch@)
        }),
{
}

/// After that, the operations remain that are in flight and have not completed.
/// Their completions are dropped. The cancellation is over just when none
/// remains, and waits again otherwise.
pub proof fn law_cancellation_drained(c: CancelView, d: DriverView)
    requires
        c.step is Drain,
    ensures
        ({
            let (c1, d1) = c.after(d, Reply::Drained(Ok(())));
            &&& waits_or_ends(c1)
            &&& forall|id: usize| #[trigger]
                c1.remaining.contains(id) <==> c.remaining.contains(id) && d.active.contains_key(id)
                    && !d.completed.contains_key(id)
            &&& dropped(d, c.remaining, d1)
        }),
{
    lemma_wait(c.remaining.difference(d.completed.dom()).intersect(d.active.dom()));
}

/// Whether a reply answers what a cancellation is waiting for.
pub open spec fn answers_cancellation(c: CancelView, reply: Reply) -> bool {
    match c.step {
        CancelStepView::Cancel(_) => reply is Cancelled,
        CancelStepView::Reap(_) => reply is Reaped,
        CancelStepView::Drain => reply is Drained,
        CancelStepView::Done(_) => false,
    }
}

/// A cancellation is over with the error of a wait that fails. Any reply that it
/// is not waiting for changes nothing.
pub proof fn law_cancellation_else(c: CancelView, d: DriverView, reply: Reply)
    ensures
        !answers_cancellation(c, reply) ==> c.after(d, reply) == (c, d),
        answers_cancellation(c, reply) && (reply matches Reply::Reaped(Err(error), _)) ==> {
            let (c1, d1) = c.after(d, reply);
            &&& c1.step == CancelStepView::Done(Err(reply->Reaped_0->Err_0@))
            &&& d1 == d
        },
        answers_cancellation(c, reply) && (reply matches Reply::Drained(Err(error))) ==> {
            let (c1, d1) = c.after(d, reply);
            &&& c1.step == CancelStepView::Done(Err(reply->Drained_0->Err_0@))
            &&& d1 == d
        },
{
}

/// A cancellation and its driver at one moment.
pub struct CancelMoment {
    /// The cancellation.
    pub cancel: CancelView,
    /// The driver.
    pub driver: DriverView,
}

/// Whether replies take a cancellation through a sequence of moments.
pub open spec fn is_cancellation(moments: Seq<CancelMoment>, replies: Seq<Reply>) -> bool {
    &&& moments.len() == replies.len() + 1
    &&& forall|i: int| 0 <= i < moments.len() ==> (#[trigger] moments[i]).cancel.wf(moments[i].driver)
    &&& forall|i: int| 0 <= i < replies.len() ==> #[trigger] cancel_step_at(moments, replies, i)
}

/// Whether a reply takes one moment of a cancellation to the next.
pub open spec fn cancel_step_at(moments: Seq<CancelMoment>, replies: Seq<Reply>, i: int) -> bool {
    moments[i].cancel.after(moments[i].driver, replies[i]) == (moments[i + 1].cancel, moments[i + 1].driver)
}

/// Whether the kernel was asked to cancel an operation at a moment.
pub open spec fn asked_at(moments: Seq<CancelMoment>, replies: Seq<Reply>, i: int, id: usize) -> bool {
    moments[i].cancel.step == CancelStepView::Cancel(id) && replies[i] is Cancelled
}

/// Whether the kernel was asked to cancel an operation just once before a moment.
pub open spec fn asked_once(moments: Seq<CancelMoment>, replies: Seq<Reply>, k: int, id: usize) -> bool {
    &&& exists|i: int| 0 <= i < k && #[trigger] asked_at(moments, replies, i, id)
    &&& forall|i: int, j: int|
        0 <= i < k && 0 <= j < k && #[trigger] asked_at(moments, replies, i, id) && #[trigger] asked_at(
            moments,
            replies,
            j,
            id,
        ) ==> i == j
}

/// One step of a cancellation, for one operation: as long as it is to be asked
/// about it stays so, and in flight, until it is asked about. Then, and when it
/// was not to be asked about, it is not again.
proof fn lemma_ask_step(c: CancelView, d: DriverView, reply: Reply, id: usize)
    requires
        c.wf(d),
        !asking(c) ==> c.queue.len() == 0,
    ensures
        ({
            let (c1, d1) = c.after(d, reply);
            &&& !asking(c1) ==> c1.queue.len() == 0
            &&& !to_ask(c, id) ==> !to_ask(c1, id)
            &&& c.step == CancelStepView::Cancel(id) && reply is Cancelled ==> !to_ask(c1, id)
            &&& to_ask(c, id) && d.active.contains_key(id) && !(c.step == CancelStepView::Cancel(id)
                && reply is Cancelled) ==> to_ask(c1, id) && d1.active.contains_key(id)
            &&& !asking(c) ==> !asking(c1)
        }),
{
    let (c1, d1) = c.after(d, reply);
    match (c.step, reply) {
        (CancelStepView::Cancel(other), Reply::Cancelled(yes)) => {
            law_cancellation_answered(c, other, d, yes);
            if to_ask(c1, id) {
                assert(c.queue.contains(id));
            }
        },
        _ => {
            assert(c1.queue.len() == 0 ==> !c1.queue.contains(id));
        },
    }
}

proof fn lemma_asked(moments: Seq<CancelMoment>, replies: Seq<Reply>, k: int, id: usize)
    requires
        is_cancellation(moments, replies),
        !asking(moments[0].cancel) ==> moments[0].cancel.queue.len() == 0,
        to_ask(moments[0].cancel, id),
        moments[0].driver.active.contains_key(id),
        0 <= k < moments.len(),
    ensures
        !asking(moments[k].cancel) ==> moments[k].cancel.queue.len() == 0,
        to_ask(moments[k].cancel, id) ==> moments[k].driver.active.contains_key(id) && forall|i: int|
            0 <= i < k ==> !#[trigger] asked_at(moments, replies, i, id),
        !to_ask(moments[k].cancel, id) ==> asked_once(moments, replies, k, id),
    decreases k,
{
    if k > 0 {
        let m = moments[k - 1];
        lemma_asked(moments, replies, k - 1, id);
        assert(m.cancel.wf(m.driver));
        assert(cancel_step_at(moments, replies, k - 1));
        lemma_ask_step(m.cancel, m.driver, replies[k - 1], id);
        if asked_at(moments, replies, k - 1, id) {
            assert(asked_once(moments, replies, k, id));
        } else if !to_ask(m.cancel, id) {
            let i = choose|i: int| 0 <= i < k - 1 && #[trigger] asked_at(moments, replies, i, id);
            assert(asked_at(moments, replies, i, id));
        }
    }
}

/// A cancellation waits, or is over, only after the kernel was asked just once to
/// cancel each of its operations that was in flight and had not completed at the
/// start.
pub proof fn law_asked_once(
    moments: Seq<CancelMoment>,
    replies: Seq<Reply>,
    ids: Set<usize>,
    d: DriverView,
    k: int,
    id: usize,
)
    requires
        is_cancellation(moments, replies),
        moments[0].cancel.started(ids, d, moments[0].driver),
        0 <= k < moments.len(),
        !asking(moments[k].cancel),
        ids.contains(id),
        d.active.contains_key(id),
        !d.completed.contains_key(id),
    ensures
        asked_once(moments, replies, k, id),
{
    law_cancellation_asks(moments[0].cancel, ids, d, moments[0].driver);
    assert(to_ask(moments[0].cancel, id));
    lemma_asked(moments, replies, k, id);
    assert(!moments[k].cancel.queue.contains(id));
}

/// Whether the kernel has cancelled every operation that it was asked to cancel.
pub open spec fn all_yes(moments: Seq<CancelMoment>, replies: Seq<Reply>) -> bool {
    forall|i: int|
        #![trigger replies[i]]
        0 <= i < replies.len() && asking(moments[i].cancel) ==> replies[i] != Reply::Cancelled(false)
}

/// If the kernel cancels every operation that it is asked to cancel, completions
/// are not waited for at all, and when the kernel was asked about all of them the
/// cancellation is over.
pub proof fn law_all_cancelled(
    moments: Seq<CancelMoment>,
    replies: Seq<Reply>,
    ids: Set<usize>,
    d: DriverView,
    k: int,
)
    requires
        is_cancellation(moments, replies),
        moments[0].cancel.started(ids, d, moments[0].driver),
        all_yes(moments, replies),
        0 <= k < moments.len(),
    ensures
        asking(moments[k].cancel) || moments[k].cancel.step == CancelStepView::Done(Ok(())),
        forall|id: usize| #[trigger] moments[k].cancel.remaining.contains(id) ==> to_ask(moments[k].cancel, id),
    decreases k,
{
    if k == 0 {
        law_cancellation_asks(moments[0].cancel, ids, d, moments[0].driver);
    } else {
        let m = moments[k - 1];
        law_all_cancelled(moments, replies, ids, d, k - 1);
        assert(m.cancel.wf(m.driver));
        assert(cancel_step_at(moments, replies, k - 1));
        assert(asking(m.cancel) ==> replies[k - 1] != Reply::Cancelled(false));
        match (m.cancel.step, replies[k - 1]) {
            (CancelStepView::Cancel(other), Reply::Cancelled(yes)) => {
                law_cancellation_answered(m.cancel, other, m.driver, yes);
                let c = moments[k].cancel;
                assert forall|id: usize| #[trigger] c.remaining.contains(id) implies to_ask(c, id) by {
                    assert(to_ask(m.cancel, id));
                }
                if let CancelStepView::Reap(_) = c.step {
                    let id = choose|id: usize| #[trigger] c.remaining.contains(id);
                    assert(to_ask(c, id));
                }
            },
            _ => {},
        }
    }
}

/// Whether a transfer gives up with an outcome, from a state and a driver: its
/// operations in flight are to be cancelled, all of them, and it has ended if
/// there is none.
pub open spec fn quits(
    t: TransferView,
    d: DriverView,
    outcome: Result<(), ErrorView>,
    t1: TransferView,
    d1: DriverView,
) -> bool {
    &&& t1.mode == t.mode
    &&& dropped(d, t.state.pending.dom(), d1)
    &&& match t1.phase {
        PhaseView::Cancel(c, kept) => {
            &&& kept == outcome
            &&& t1.state == t.state
            &&& asking(c)
            &&& covers(c, t.state.pending.dom(), d)
        },
        PhaseView::Finished(kept) => {
            &&& kept == outcome
            &&& forall|id: usize| #[trigger]
                t.state.pending.contains_key(id) ==> !d.active.contains_key(id) || d.completed.contains_key(id)
            &&& emptied(t, t1)
        },
        _ => false,
    }
}

/// Whether a transfer has nothing pending any more and is the same otherwise.
pub open spec fn emptied(t: TransferView, t1: TransferView) -> bool {
    &&& t1.state.kind == t.state.kind
    &&& t1.state.fd == t.state.fd
    &&& t1.state.ptr == t.state.ptr
    &&& t1.state.total_len == t.state.total_len
    &&& t1.state.chunk_size == t.state.chunk_size
    &&& t1.state.submitted == t.state.submitted
    &&& t1.state.completed == t.state.completed
    &&& t1.state.submitted_zero == t.state.submitted_zero
    &&& forall|id: usize| !#[trigger] t1.state.pending.contains_key(id)
}

/// A transfer that gives up has the kernel asked to cancel each of its operations
/// in flight.
pub proof fn law_gives_up(
    t: TransferView,
    d: DriverView,
    outcome: Result<(), ErrorView>,
    t1: TransferView,
    d1: DriverView,
)
    requires
        t.gives_up(d, outcome, t1, d1),
    ensures
        quits(t, d, outcome, t1, d1),
{
    let c = choose|c: CancelView| #[trigger]
        c.started(t.state.pending.dom(), d, d1) && t1 == t.cancelling(c, outcome);
    law_cancellation_asks(c, t.state.pending.dom(), d, d1);
    if !asking(c) {
        assert forall|id: usize| #[trigger] t.state.pending.contains_key(id) implies !d.active.contains_key(id)
            || d.completed.contains_key(id) by {
            if d.active.contains_key(id) && !d.completed.contains_key(id) {
                assert(to_ask(c, id));
            }
        }
    }
}

/// A transfer that has given up goes on with its cancellation and ends with its
/// outcome when that is over, with nothing pending if it succeeded.
pub proof fn law_cancellation_of_transfer(
    t: TransferView,
    d: DriverView,
    reply: Reply,
    t1: TransferView,
    d1: DriverView,
)
    requires
        t.phase is Cancel,
        t.steps(d, reply, t1, d1),
    ensures
        ({
            let c = t.phase->Cancel_0;
            let outcome = t.phase->Cancel_1;
            let (c1, after) = c.after(d, reply);
            &&& d1 == after
            &&& t1.mode == t.mode
            &&& match c1.step {
                CancelStepView::Done(Ok(())) => t1.phase == PhaseView::Finished(outcome) && emptied(t, t1),
                CancelStepView::Done(Err(_)) => t1.phase == PhaseView::Finished(outcome) && t1.state == t.state,
                _ => t1.phase == PhaseView::Cancel(c1, outcome) && t1.state == t.state,
            }
        }),
{
}

/// Whether the kernel was asked to cancel an operation of a transfer at a moment.
pub open spec fn transfer_asked_at(moments: Seq<Moment>, replies: Seq<Reply>, i: int, id: usize) -> bool {
    &&& moments[i].transfer.phase matches PhaseView::Cancel(c, _) && c.step == CancelStepView::Cancel(id)
    &&& replies[i] is Cancelled
}

/// Whether a transfer has the kernel asked, or will have it asked, to cancel an
/// operation.
pub open spec fn transfer_to_ask(t: TransferView, id: usize) -> bool {
    t.phase matches PhaseView::Cancel(c, _) && to_ask(c, id)
}

proof fn lemma_transfer_asked(moments: Seq<Moment>, replies: Seq<Reply>, k: int, id: usize)
    requires
        is_run(moments, replies),
        transfer_to_ask(moments[0].transfer, id),
        moments[0].driver.active.contains_key(id),
        moments[0].transfer.phase->Cancel_0.step is Cancel,
        0 <= k < moments.len(),
    ensures
        moments[k].transfer.phase is Cancel || moments[k].transfer.phase is Finished,
        moments[k].transfer.phase matches PhaseView::Cancel(c, _) ==> (!asking(c) ==> c.queue.len() == 0),
        transfer_to_ask(moments[k].transfer, id) ==> moments[k].driver.active.contains_key(id) && forall|i: int|
            0 <= i < k ==> !#[trigger] transfer_asked_at(moments, replies, i, id),
        !transfer_to_ask(moments[k].transfer, id) ==> {
            &&& exists|i: int| 0 <= i < k && #[trigger] transfer_asked_at(moments, replies, i, id)
            &&& forall|i: int, j: int|
                0 <= i < k && 0 <= j < k && #[trigger] transfer_asked_at(moments, replies, i, id)
                    && #[trigger] transfer_asked_at(moments, replies, j, id) ==> i == j
        },
    decreases k,
{
    if k > 0 {
        let m = moments[k - 1];
        let m1 = moments[k];
        lemma_transfer_asked(moments, replies, k - 1, id);
        assert(m.transfer.wf(m.driver));
        assert(step_at(moments, replies, k - 1));
        if let PhaseView::Cancel(c, _) = m.transfer.phase {
            lemma_ask_step(c, m.driver, replies[k - 1], id);
            law_cancellation_of_transfer(m.transfer, m.driver, replies[k - 1], m1.transfer, m1.driver);
            if to_ask(c, id) {
                assert(asking(c));
            }
        }
        if transfer_asked_at(moments, replies, k - 1, id) {
        } else if !transfer_to_ask(m.transfer, id) {
            let i = choose|i: int| 0 <= i < k - 1 && #[trigger] transfer_asked_at(moments, replies, i, id);
            assert(transfer_asked_at(moments, replies, i, id));
        }
    }
}

/// A transfer that has given up waits for completions, or ends, only after the
/// kernel was asked just once to cancel each operation that it was to be asked
/// about.
pub proof fn law_transfer_asks_once(moments: Seq<Moment>, replies: Seq<Reply>, k: int, id: usize)
    requires
        is_run(moments, replies),
        moments[0].transfer.phase matches PhaseView::Cancel(c, _) && asking(c) && to_ask(c, id),
        moments[0].driver.active.contains_key(id),
        0 <= k < moments.len(),
        moments[k].transfer.phase matches PhaseView::Cancel(c, _) ==> !asking(c),
    ensures
        exists|i: int| 0 <= i < k && #[trigger] transfer_asked_at(moments, replies, i, id),
        forall|i: int, j: int|
            0 <= i < k && 0 <= j < k && #[trigger] transfer_asked_at(moments, replies, i, id)
                && #[trigger] transfer_asked_at(moments, replies, j, id) ==> i == j,
{
    lemma_transfer_asked(moments, replies, k, id);
}

/// What is known of the step of a cancellation is what the step is.
pub proof fn law_step_seen(step: CancelStep)
    ensures
        match step {
            CancelStep::Cancel(id) => step@ == CancelStepView::Cancel(id),
            CancelStep::Reap(request) => step@ == CancelStepView::Reap(request),
            CancelStep::Drain => step@ is Drain,
            CancelStep::Done(Ok(())) => step@ == CancelStepView::Done(Ok(())),
            CancelStep::Done(Err(error)) => step@ == CancelStepView::Done(Err(error@)),
        },
{
}

} // verus!
