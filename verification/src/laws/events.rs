//! What completion events do to a driver.

use vstd::prelude::*;

use crate::driver::{op_result, CompletedOp, DriverView, REAP_BATCH};
use crate::error::{Error, ErrorView};
use crate::request::{InFlight, IoEvent};

verus! {

/// Whether one of the first events of a batch is for an operation.
pub open spec fn named(batch: Seq<IoEvent>, n: int, id: usize) -> bool {
    exists|i: int| 0 <= i < n && (#[trigger] batch[i]).data == id
}

/// Whether an event of a batch is the first one for an operation.
pub open spec fn first_for(batch: Seq<IoEvent>, i: int, id: usize) -> bool {
    &&& 0 <= i < batch.len()
    &&& batch[i].data == id
    &&& forall|j: int| 0 <= j < i ==> (#[trigger] batch[j]).data != id
}

/// Whether a driver has taken in the first events of a batch: an operation in
/// flight that they name has completed, with the result of the first event for
/// it, and nothing else has changed.
pub open spec fn took_in(before: DriverView, batch: Seq<IoEvent>, n: int, after: DriverView) -> bool {
    &&& after.queue_len == before.queue_len
    &&& after.eventfd == before.eventfd
    &&& forall|id: usize| #[trigger]
        after.active.contains_key(id) <==> before.active.contains_key(id) && !named(batch, n, id)
    &&& forall|id: usize| #[trigger] after.active.contains_key(id) ==> after.active[id] == before.active[id]
    &&& forall|id: usize| #[trigger]
        after.completed.contains_key(id) <==> before.completed.contains_key(id) || (before.active.contains_key(id)
            && named(batch, n, id))
    &&& forall|id: usize, i: int|
        before.active.contains_key(id) && i < n && #[trigger] first_for(batch, i, id) ==> after.completed[id] == (
        CompletedOp { id, res: batch[i].res })
    &&& forall|id: usize| #[trigger]
        before.completed.contains_key(id) && !(before.active.contains_key(id) && named(batch, n, id))
            ==> after.completed[id] == before.completed[id]
}

proof fn lemma_named_more(batch: Seq<IoEvent>, n: int, id: usize)
    requires
        0 <= n < batch.len(),
    ensures
        named(batch, n + 1, id) <==> named(batch, n, id) || batch[n].data == id,
{
    if named(batch, n, id) {
        let i = choose|i: int| 0 <= i < n && (#[trigger] batch[i]).data == id;
        assert(batch[i].data == id);
    }
    if named(batch, n + 1, id) {
        let i = choose|i: int| 0 <= i < n + 1 && (#[trigger] batch[i]).data == id;
        if i < n {
            assert(batch[i].data == id);
        }
    }
}

proof fn lemma_took_in_more(before: DriverView, batch: Seq<IoEvent>, n: int, middle: DriverView)
    requires
        0 <= n < batch.len(),
        took_in(before, batch, n, middle),
    ensures
        took_in(before, batch, n + 1, middle.complete(batch[n])),
{
    let event = batch[n];
    let after = middle.complete(event);
    assert forall|id: usize| named(batch, n + 1, id) <==> #[trigger] named(batch, n, id) || event.data == id by {
        lemma_named_more(batch, n, id);
    }
    assert forall|id: usize| #[trigger]
        after.active.contains_key(id) <==> before.active.contains_key(id) && !named(batch, n + 1, id) by {
        lemma_named_more(batch, n, id);
        assert(middle.active.contains_key(id) <==> before.active.contains_key(id) && !named(batch, n, id));
    }
    assert forall|id: usize| #[trigger] after.active.contains_key(id) implies after.active[id] == before.active[id] by {
        assert(middle.active.contains_key(id));
    }
    assert forall|id: usize| #[trigger]
        after.completed.contains_key(id) <==> before.completed.contains_key(id) || (before.active.contains_key(id)
            && named(batch, n + 1, id)) by {
        lemma_named_more(batch, n, id);
        assert(middle.completed.contains_key(id) <==> before.completed.contains_key(id) || (
        before.active.contains_key(id) && named(batch, n, id)));
        assert(middle.active.contains_key(id) <==> before.active.contains_key(id) && !named(batch, n, id));
    }
    assert forall|id: usize, i: int|
        before.active.contains_key(id) && i < n + 1 && #[trigger] first_for(batch, i, id) implies after.completed[id]
        == (CompletedOp { id, res: batch[i].res }) by {
        assert(middle.active.contains_key(id) <==> before.active.contains_key(id) && !named(batch, n, id));
        if i < n {
            assert(batch[i].data == id);
            assert(named(batch, n, id));
        } else {
            assert(!named(batch, n, id));
            assert(middle.active.contains_key(id));
        }
    }
    assert forall|id: usize| #[trigger]
        before.completed.contains_key(id) && !(before.active.contains_key(id) && named(batch, n + 1, id)) implies
        after.completed[id] == before.completed[id] by {
        lemma_named_more(batch, n, id);
        assert(middle.active.contains_key(id) <==> before.active.contains_key(id) && !named(batch, n, id));
    }
}

proof fn lemma_took_in(before: DriverView, batch: Seq<IoEvent>, n: int)
    requires
        0 <= n <= batch.len(),
    ensures
        took_in(before, batch, n, before.complete_all(batch.take(n))),
    decreases n,
{
    if n > 0 {
        lemma_took_in(before, batch, n - 1);
        assert(batch.take(n).drop_last() =~= batch.take(n - 1));
        lemma_took_in_more(before, batch, n - 1, before.complete_all(batch.take(n - 1)));
    } else {
        assert(forall|id: usize| !named(batch, 0, id));
    }
}

/// When the kernel says that it has put a number of events into a batch, just
/// these first events of the batch are taken in, in their order, however long
/// the batch is.
pub proof fn law_reap_takes_in(d: DriverView, count: i64, batch: Seq<IoEvent>)
    requires
        0 <= count <= batch.len(),
        count <= usize::MAX,
    ensures
        took_in(d, batch, count as int, d.reap(count, batch)),
        d.reap(count, batch) == d.complete_all(batch.take(count as int)),
{
    lemma_took_in(d, batch, count as int);
}

/// A kernel that says that it has more events than the batch has room for has
/// all of the batch taken in.
pub proof fn law_reap_overfull(d: DriverView, count: i64, batch: Seq<IoEvent>)
    requires
        batch.len() < count <= usize::MAX,
    ensures
        took_in(d, batch, batch.len() as int, d.reap(count, batch)),
{
    lemma_took_in(d, batch, batch.len() as int);
    assert(batch.take(batch.len() as int) =~= batch);
}

/// Whether a count of events says that there is none: it is none, or no count at
/// all.
pub open spec fn none_came(count: i64) -> bool {
    count <= 0 || count > usize::MAX
}

/// A kernel that has no events changes nothing.
pub proof fn law_reap_nothing(d: DriverView, count: i64, batch: Seq<IoEvent>)
    requires
        none_came(count),
    ensures
        d.reap(count, batch) == d,
{
    assert(batch.take(0) =~= Seq::empty());
}

/// One event completes the operation in flight that it names, with the result
/// that it carries, and changes nothing else.
pub proof fn law_event(d: DriverView, event: IoEvent)
    ensures
        took_in(d, seq![event], 1, d.complete(event)),
{
    lemma_took_in(d, seq![event], 1);
    assert(seq![event].take(1).drop_last() =~= Seq::empty());
    assert(d.complete_all(seq![event].take(1).drop_last()) == d);
    assert(d.complete_all(seq![event].take(1)) == d.complete(event));
}

/// A result that is not negative is a number of bytes, and a negative one an
/// error number of the operating system, as it is as far as its type holds it.
pub proof fn law_result(res: i64)
    ensures
        0 <= res <= usize::MAX ==> op_result(res) == Ok::<int, ErrorView>(res as int),
        res > usize::MAX ==> op_result(res) == Ok::<int, ErrorView>(usize::MAX as int),
        -0x7fff_ffff <= res < 0 ==> (op_result(res) matches Err(ErrorView::Os(code)) && code == -res),
        res < -0x7fff_ffff ==> op_result(res) == Err::<int, ErrorView>(ErrorView::Os(0x7fff_ffff)),
{
}

/// An operation that is taken into flight has a number of its own and is in
/// flight under it. Nothing else changes.
pub proof fn law_launch(d: DriverView, op: InFlight)
    requires
        d.wf(),
        d.active.dom().len() < d.queue_len,
    ensures
        ({
            let after = d.launch(op);
            &&& !d.active.contains_key(d.next())
            &&& d.next() < d.queue_len
            &&& after.active == d.active.insert(d.next(), op)
            &&& after.completed == d.completed
            &&& after.queue_len == d.queue_len
            &&& after.eventfd == d.eventfd
        }),
{
    if d.vacated.len() > 0 {
        assert(d.vacated[d.vacated.len() - 1] == d.next());
    }
}

/// An operation that is withdrawn is in flight no more. Nothing else changes.
pub proof fn law_withdraw(d: DriverView, id: usize)
    ensures
        ({
            let after = d.withdraw(id);
            &&& after.active == d.active.remove(id)
            &&& after.completed == d.completed
            &&& after.queue_len == d.queue_len
            &&& after.eventfd == d.eventfd
        }),
{
}

/// The completions of operations that are forgotten are gone. Nothing else
/// changes.
pub proof fn law_forget(d: DriverView, ids: Set<usize>)
    ensures
        ({
            let after = d.forget(ids);
            &&& after.active == d.active
            &&& forall|id: usize| #[trigger]
                after.completed.contains_key(id) <==> d.completed.contains_key(id) && !ids.contains(id)
            &&& forall|id: usize| #[trigger]
                after.completed.contains_key(id) ==> after.completed[id] == d.completed[id]
            &&& after.queue_len == d.queue_len
            &&& after.eventfd == d.eventfd
        }),
{
}

/// The kernel takes as many more operations as the queue is longer than there
/// are operations in flight.
pub proof fn law_slots(d: DriverView)
    ensures
        d.slots() + d.active.dom().len() == d.queue_len,
{
}

/// The control block of an operation asks for what was asked for, notifies the
/// eventfd of the driver and carries the number of the operation.
pub proof fn law_control_block(d: DriverView, id: usize, opcode: u16, fd: i32, buf: usize, nbytes: usize)
    ensures
        ({
            let iocb = d.control_block(id, opcode, fd, buf, nbytes);
            &&& iocb.opcode == opcode
            &&& iocb.fd == fd
            &&& iocb.buf == buf
            &&& iocb.nbytes == nbytes
            &&& iocb.resfd == Some(d.eventfd)
            &&& iocb.data == id
        }),
{
}

/// A batch has room for an event, so that a wait for one can end.
pub proof fn law_batch_has_room()
    ensures
        1 <= REAP_BATCH,
{
}

/// What is known of an error is the error number of the operating system, or what
/// it is about and what it says.
pub proof fn law_error_seen(error: Error)
    ensures
        match error {
            Error::Os(code) => error@ == ErrorView::Os(code),
            Error::Message { kind, message } => error@ == (ErrorView::Message { kind, message: message@ }),
        },
{
}

} // verus!
