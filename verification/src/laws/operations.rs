//! What holds of operations in flight, completed and cancelled.

use vstd::prelude::*;

use crate::cancel::{CancelStepView, CancelView};
use crate::driver::{lemma_launch_wf, lemma_reap, CompletedOp, DriverView};
use crate::reply::Reply;
use crate::request::{InFlight, IoCb, IoEvent};

verus! {

/// A submission that the kernel refuses leaves no trace: the same operations are
/// in flight as before, and the next one gets the number it would have got.
pub proof fn law_refused_submission(d: DriverView, op: InFlight)
    requires
        d.wf(),
        d.slots() > 0,
    ensures
        ({
            let after = d.launch(op).withdraw(d.next());
            &&& after.active == d.active
            &&& after.completed == d.completed
            &&& after.next() == d.next()
            &&& after.slots() == d.slots()
        }),
{
    let mine = InFlight { iocb: IoCb { data: d.next() as u64, resfd: Some(d.eventfd), ..op.iocb } };
    lemma_launch_wf(d, mine);
    assert(d.launch(op).withdraw(d.next()).active =~= d.active);
}

/// Numbers are given again: all operations in flight have different numbers
/// below the length of the queue, and the next number is free.
pub proof fn law_numbers(d: DriverView, id: usize)
    requires
        d.wf(),
    ensures
        d.active.contains_key(id) ==> id < d.queue_len,
        d.slots() > 0 ==> d.next() < d.queue_len && !d.active.contains_key(d.next()),
{
    if d.vacated.len() > 0 {
        let last = d.vacated.len() - 1;
        assert(d.vacated[last] == d.next());
    }
}

/// An operation completes once: a second event for it changes nothing.
pub proof fn law_completes_once(d: DriverView, first: IoEvent, second: IoEvent)
    requires
        first.data == second.data,
    ensures
        d.complete(first).complete(second) == d.complete(first),
{
}

/// Operations complete independently: events for different operations give the
/// same operations in flight and the same completions in either order.
pub proof fn law_order_of_events(d: DriverView, a: IoEvent, b: IoEvent)
    requires
        a.data != b.data,
    ensures
        d.complete(a).complete(b).active == d.complete(b).complete(a).active,
        d.complete(a).complete(b).completed == d.complete(b).complete(a).completed,
{
    assert(d.complete(a).complete(b).active =~= d.complete(b).complete(a).active);
    assert(d.complete(a).complete(b).completed =~= d.complete(b).complete(a).completed);
}

/// Whether one of the events is for an operation.
pub open spec fn is_for(events: Seq<IoEvent>, id: usize) -> bool {
    exists|i: int| 0 <= i < events.len() && (#[trigger] events[i]).data == id
}

/// Events of different operations in flight move just these operations, each to
/// a completion with its result: all others stay as they are.
pub proof fn law_events(d: DriverView, events: Seq<IoEvent>)
    requires
        forall|i: int|
            0 <= i < events.len() ==> (#[trigger] events[i]).data <= usize::MAX && d.active.contains_key(
                events[i].data as usize,
            ),
        forall|i: int, j: int| 0 <= i < j < events.len() ==> (#[trigger] events[i]).data != (#[trigger] events[j]).data,
    ensures
        forall|i: int|
            0 <= i < events.len() ==> {
                let id = (#[trigger] events[i]).data as usize;
                &&& !d.complete_all(events).active.contains_key(id)
                &&& d.complete_all(events).completed.contains_key(id)
                &&& d.complete_all(events).completed[id] == (CompletedOp { id, res: events[i].res })
            },
        forall|id: usize|
            !(#[trigger] is_for(events, id)) ==> {
                &&& d.complete_all(events).active.contains_key(id) == d.active.contains_key(id)
                &&& d.complete_all(events).active[id] == d.active[id]
                &&& d.complete_all(events).completed.contains_key(id) == d.completed.contains_key(id)
                &&& d.complete_all(events).completed[id] == d.completed[id]
            },
    decreases events.len(),
{
    if events.len() > 0 {
        let earlier = events.drop_last();
        assert forall|i: int| 0 <= i < earlier.len() implies (#[trigger] earlier[i]).data <= usize::MAX
            && d.active.contains_key(earlier[i].data as usize) by {
            assert(earlier[i] == events[i]);
        }
        assert forall|i: int, j: int| 0 <= i < j < earlier.len() implies (#[trigger] earlier[i]).data != (
        #[trigger] earlier[j]).data by {
            assert(events[i].data != events[j].data);
        }
        law_events(d, earlier);
        let before = d.complete_all(earlier);
        let last = events[events.len() - 1];
        assert(!is_for(earlier, last.data as usize)) by {
            assert forall|i: int| 0 <= i < earlier.len() implies (#[trigger] earlier[i]).data != last.data by {
                assert(events[i].data != last.data);
            }
        }
        assert(before.active.contains_key(last.data as usize));
        assert(d.complete_all(events) == before.complete(last));
        assert forall|i: int| 0 <= i < events.len() implies {
            let id = (#[trigger] events[i]).data as usize;
            &&& !d.complete_all(events).active.contains_key(id)
            &&& d.complete_all(events).completed.contains_key(id)
            &&& d.complete_all(events).completed[id] == (CompletedOp { id, res: events[i].res })
        } by {
            if i < earlier.len() {
                assert(earlier[i] == events[i]);
                assert(events[i].data != last.data);
            }
        }
        assert forall|id: usize| !(#[trigger] is_for(events, id)) implies !is_for(earlier, id) && last.data != id by {
            assert(events[events.len() - 1] == last);
            assert forall|i: int| 0 <= i < earlier.len() implies (#[trigger] earlier[i]).data != id by {
                assert(earlier[i] == events[i]);
            }
        }
    }
}

/// Whether a cancellation knows of all operations of a set that are in flight
/// or have completed.
pub open spec fn covers(c: CancelView, ids: Set<usize>, d: DriverView) -> bool {
    &&& d.active.dom().disjoint(d.completed.dom())
    &&& forall|id: usize| #[trigger]
        ids.contains(id) && (d.active.contains_key(id) || d.completed.contains_key(id)) ==> c.remaining.contains(id)
    &&& forall|id: usize| #[trigger] c.remaining.contains(id) ==> ids.contains(id)
    &&& c.step is Drain || c.step is Done || ids.disjoint(d.completed.dom())
}

proof fn lemma_advance_covers(remaining: Set<usize>, queue: Seq<usize>, active: Set<usize>)
    ensures
        ({
            let c = CancelView::advance(remaining, queue, active);
            &&& c.remaining.subset_of(remaining)
            &&& remaining.intersect(active).subset_of(c.remaining)
            &&& !(c.step is Drain)
        }),
    decreases queue.len(),
{
    if queue.len() != 0 && !active.contains(queue.last()) {
        lemma_advance_covers(remaining.remove(queue.last()), queue.drop_last(), active);
    }
}

/// A cancellation begins with all its operations that are in flight.
pub proof fn law_cancellation_begins(c: CancelView, ids: Set<usize>, d: DriverView, d1: DriverView)
    requires
        d.active.dom().disjoint(d.completed.dom()),
        c.started(ids, d, d1),
    ensures
        covers(c, ids, d1),
{
    let order = choose|order: Seq<usize>| c.started_in(ids, d, order);
    assert(c.started_in(ids, d, order));
    let rest = ids.difference(d.completed.dom());
    lemma_advance_covers(rest, order, d.active.dom());
    assert forall|id: usize| #[trigger]
        ids.contains(id) && (d1.active.contains_key(id) || d1.completed.contains_key(id)) implies c.remaining.contains(
        id,
    ) by {
        assert(rest.intersect(d.active.dom()).contains(id));
    }
    assert forall|id: usize| #[trigger] c.remaining.contains(id) implies ids.contains(id) by {
        assert(rest.contains(id));
    }
}

/// A cancellation loses none of its operations, and touches no other that is in
/// flight but by its completion, whatever the replies are.
pub proof fn law_cancellation_goes_on(c: CancelView, ids: Set<usize>, d: DriverView, reply: Reply)
    requires
        c.wf(d),
        covers(c, ids, d),
    ensures
        covers(c.after(d, reply).0, ids, c.after(d, reply).1),
        forall|id: usize| #[trigger]
            d.active.contains_key(id) && !ids.contains(id) ==> c.after(d, reply).1.active.contains_key(id)
                || c.after(d, reply).1.completed.contains_key(id),
{
    let (c1, d1) = c.after(d, reply);
    match (c.step, reply) {
        (CancelStepView::Cancel(id), Reply::Cancelled(cancelled)) => {
            let rest = if cancelled { c.remaining.remove(id) } else { c.remaining };
            lemma_advance_covers(rest, c.queue, d1.active.dom());
            assert forall|k: usize| #[trigger]
                ids.contains(k) && (d1.active.contains_key(k) || d1.completed.contains_key(k)) implies
                c1.remaining.contains(k) by {
                assert(rest.intersect(d1.active.dom()).contains(k));
            }
        },
        (CancelStepView::Reap(_), Reply::Reaped(answer, batch)) => {
            lemma_reap(d, answer, batch@);
        },
        _ => {},
    }
}

/// When a cancellation has succeeded, none of its operations is in flight any
/// more and none of their completions is left over.
pub proof fn law_cancellation_ends(c: CancelView, ids: Set<usize>, d: DriverView, id: usize)
    requires
        c.wf(d),
        covers(c, ids, d),
        c.step == CancelStepView::Done(Ok(())),
        ids.contains(id),
    ensures
        !d.active.contains_key(id),
        !d.completed.contains_key(id),
{
}

} // verus!
