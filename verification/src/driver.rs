//! The AIO driver: which operations are in flight and which have completed.

use slab::Slab;
use std::collections::HashMap;
use vstd::prelude::*;

use crate::error::{Error, ErrorKind, ErrorView};
use crate::laws::events::{
    law_event, law_launch, law_reap_nothing, law_reap_overfull, law_reap_takes_in, none_came, took_in,
};
use crate::request::{InFlight, IoCb, IoEvent, ReapRequest, Span, Timespec};
use crate::slots::{
    next_key, rest_vacated, slab_contains, slab_contents, slab_get, slab_insert, slab_is_empty, slab_keys, slab_len,
    slab_limit, slab_remove, slab_vacant_key, slab_vacated, slab_with_capacity, SLOT_BYTES,
};

verus! {

broadcast use vstd::std_specs::hash::group_hash_axioms;

/// Number of completion events that are collected at a time.
pub const REAP_BATCH: usize = 32;

/// AIO operation handle.
#[derive(Debug, Clone, Copy, PartialEq, Eq, Hash, Structural)]
pub struct OpHandle(pub usize);

/// Completed AIO operation.
#[derive(Debug, Clone, Copy, PartialEq, Eq, Structural)]
pub struct CompletedOp {
    /// Number of the operation.
    pub id: usize,
    /// Bytes transferred, or an error number negated.
    pub res: i64,
}

/// What a kernel result says: a number of bytes or an error number, both
/// capped at what their types hold.
pub open spec fn op_result(res: i64) -> Result<int, ErrorView> {
    if res >= 0 {
        Ok(if res <= usize::MAX { res as int } else { usize::MAX as int })
    } else {
        Err(ErrorView::Os(if -res <= i32::MAX { (-res) as i32 } else { i32::MAX }))
    }
}

impl CompletedOp {
    /// Number of bytes transferred, or the error of the operation.
    pub fn result(&self) -> (result: Result<usize, Error>)
        ensures
            match result {
                Ok(n) => op_result(self.res) == Ok::<int, ErrorView>(n as int),
                Err(error) => op_result(self.res) == Err::<int, ErrorView>(error@),
            },
            self.res >= 0 <==> result is Ok,
            0 <= self.res <= usize::MAX ==> result == Ok::<usize, Error>(self.res as usize),
            self.res > usize::MAX ==> result == Ok::<usize, Error>(usize::MAX),
            -0x7fff_ffff <= self.res < 0 ==> (result matches Err(error) && error@ == ErrorView::Os((-self.res) as i32)),
            self.res < -0x7fff_ffff ==> (result matches Err(error) && error@ == ErrorView::Os(0x7fff_ffff)),
    {
        if self.res >= 0 {
            match usize::try_from(self.res) {
                Ok(n) => Ok(n),
                Err(_) => Ok(usize::MAX),
            }
        } else {
            let errno: i32 = if self.res >= -2147483647 { (-self.res) as i32 } else { i32::MAX };
            Err(Error::from_raw_os_error(errno))
        }
    }
}

/// The number of events in a batch, by the count that the kernel returns.
pub open spec fn event_count(count: i64) -> int {
    if 0 <= count <= usize::MAX {
        count as int
    } else {
        0
    }
}

/// The events of a batch of which the kernel says it has `count` events.
pub open spec fn handed_out(count: i64, batch: Seq<IoEvent>) -> Seq<IoEvent> {
    let n = event_count(count);
    if n <= batch.len() {
        batch.take(n)
    } else {
        batch
    }
}

/// The mathematical content of a [`Driver`].
#[verifier::ext_equal]
pub struct DriverView {
    /// Operations that the kernel has, by number.
    pub active: Map<usize, InFlight>,
    /// Operations that have completed and were not asked for yet, by number.
    pub completed: Map<usize, CompletedOp>,
    /// Number of operations that the kernel takes at a time.
    pub queue_len: nat,
    /// Eventfd that completions are notified to.
    pub eventfd: i32,
    /// Numbers of operations that have left and that were not given again, the
    /// last one at the end.
    pub vacated: Seq<usize>,
}

impl DriverView {
    /// The queue is never overfull, the numbers of operations in flight and of
    /// those that have left are different and below the length of the queue, and
    /// every operation carries its number.
    pub open spec fn wf(self) -> bool {
        let given = self.active.dom().len() + self.vacated.len();
        &&& self.queue_len >= 1
        &&& self.active.dom().finite()
        &&& given <= self.queue_len <= usize::MAX
        &&& self.vacated.no_duplicates()
        &&& forall|i: int|
            0 <= i < self.vacated.len() ==> #[trigger] self.vacated[i] < given && !self.active.contains_key(
                self.vacated[i],
            )
        &&& forall|id: usize| #[trigger] self.active.contains_key(id) ==> id < given
        &&& forall|id: usize| #[trigger]
            self.active.contains_key(id) ==> self.active[id].iocb.data == id && self.active[id].iocb.resfd == Some(
                self.eventfd,
            )
        &&& forall|id: usize| #[trigger] self.completed.contains_key(id) ==> self.completed[id].id == id
    }

    /// Whether the kernel has no operation and no completion is left over.
    pub open spec fn idle(self) -> bool {
        &&& self.active == Map::<usize, InFlight>::empty()
        &&& self.completed == Map::<usize, CompletedOp>::empty()
    }

    /// How many more operations the kernel takes.
    pub open spec fn slots(self) -> int {
        self.queue_len - self.active.dom().len()
    }

    /// The control block of an operation of this driver.
    pub open spec fn control_block(self, id: usize, opcode: u16, fd: i32, buf: usize, nbytes: usize) -> IoCb {
        IoCb { opcode, fd, buf: buf as u64, nbytes: nbytes as u64, resfd: Some(self.eventfd), data: id as u64 }
    }

    /// The number of the next operation.
    pub open spec fn next(self) -> usize {
        next_key(self.active, self.vacated) as usize
    }

    /// The driver with one more operation in flight.
    pub open spec fn launch(self, op: InFlight) -> DriverView {
        DriverView { active: self.active.insert(self.next(), op), vacated: rest_vacated(self.vacated), ..self }
    }

    /// The driver without an operation in flight.
    pub open spec fn withdraw(self, id: usize) -> DriverView {
        DriverView { active: self.active.remove(id), vacated: self.vacated.push(id), ..self }
    }

    /// The driver after a completion event: the operation that the event names
    /// is completed with the result of the event, if it is in flight at all.
    pub open spec fn complete(self, event: IoEvent) -> DriverView {
        let id = event.data as usize;
        if event.data <= usize::MAX && self.active.contains_key(id) {
            DriverView { completed: self.completed.insert(id, CompletedOp { id, res: event.res }), ..self.withdraw(id) }
        } else {
            self
        }
    }

    /// The driver after a sequence of completion events.
    pub open spec fn complete_all(self, events: Seq<IoEvent>) -> DriverView
        decreases events.len(),
    {
        if events.len() == 0 {
            self
        } else {
            self.complete_all(events.drop_last()).complete(events.last())
        }
    }

    /// The driver after a batch of which the kernel says it has `count` events.
    pub open spec fn reap(self, count: i64, batch: Seq<IoEvent>) -> DriverView {
        self.complete_all(handed_out(count, batch))
    }

    /// The driver without some of its completions.
    pub open spec fn forget(self, ids: Set<usize>) -> DriverView {
        DriverView { completed: self.completed.remove_keys(ids), ..self }
    }
}

/// A driver keeps its invariant when an operation leaves.
proof fn lemma_withdraw_wf(driver: DriverView, id: usize)
    requires
        driver.wf(),
        driver.active.contains_key(id),
    ensures
        driver.withdraw(id).wf(),
{
    let after = driver.withdraw(id);
    assert(after.active.dom() == driver.active.dom().remove(id));
    assert forall|i: int| 0 <= i < after.vacated.len() implies #[trigger] after.vacated[i] < driver.active.dom().len()
        + driver.vacated.len() && !after.active.contains_key(after.vacated[i]) by {
        if i < driver.vacated.len() {
            assert(after.vacated[i] == driver.vacated[i]);
        }
    }
    assert forall|k: usize| #[trigger] after.active.contains_key(k) implies after.active[k].iocb.data == k
        && after.active[k].iocb.resfd == Some(after.eventfd) by {
        assert(driver.active.contains_key(k));
    }
}

/// The next number is free, and a driver that is not full keeps its invariant
/// when an operation is given it.
pub proof fn lemma_launch_wf(driver: DriverView, op: InFlight)
    requires
        driver.wf(),
        driver.slots() > 0,
        op.iocb.data == driver.next(),
        op.iocb.resfd == Some(driver.eventfd),
    ensures
        !driver.active.contains_key(driver.next()),
        driver.launch(op).wf(),
{
    let after = driver.launch(op);
    if driver.vacated.len() > 0 {
        let last = driver.vacated.len() - 1;
        assert(driver.vacated[last] == driver.next());
        assert forall|i: int| 0 <= i < after.vacated.len() implies #[trigger] after.vacated[i]
            < driver.active.dom().len() + driver.vacated.len() && !after.active.contains_key(after.vacated[i]) by {
            assert(after.vacated[i] == driver.vacated[i]);
        }
    }
    assert(after.active.dom() == driver.active.dom().insert(driver.next()));
    assert forall|id: usize| #[trigger] after.active.contains_key(id) implies after.active[id].iocb.data == id
        && after.active[id].iocb.resfd == Some(after.eventfd)
        && id < after.active.dom().len() + after.vacated.len() by {
        if id != driver.next() {
            assert(driver.active.contains_key(id));
        }
    }
}

/// Whether completions have only moved operations from flight to completion.
pub open spec fn moved(before: DriverView, after: DriverView) -> bool {
    &&& after.queue_len == before.queue_len
    &&& after.eventfd == before.eventfd
    &&& forall|id: usize| #[trigger]
        after.active.contains_key(id) ==> before.active.contains_key(id) && after.active[id] == before.active[id]
    &&& forall|id: usize| #[trigger]
        before.active.contains_key(id) ==> after.active.contains_key(id) || after.completed.contains_key(id)
    &&& forall|id: usize| #[trigger]
        after.completed.contains_key(id) ==> before.active.contains_key(id) || before.completed.contains_key(id)
    &&& forall|id: usize| #[trigger] before.completed.contains_key(id) ==> after.completed.contains_key(id)
    &&& before.active.dom().disjoint(before.completed.dom()) ==> after.active.dom().disjoint(after.completed.dom())
}

/// Completion events only move operations from flight to completion.
pub proof fn lemma_complete_all(driver: DriverView, events: Seq<IoEvent>)
    ensures
        moved(driver, driver.complete_all(events)),
    decreases events.len(),
{
    if events.len() != 0 {
        lemma_complete_all(driver, events.drop_last());
    }
}

/// Taking in events in two parts is taking them in at once.
pub proof fn lemma_complete_more(driver: DriverView, first: Seq<IoEvent>, second: Seq<IoEvent>)
    ensures
        driver.complete_all(first).complete_all(second) == driver.complete_all(first + second),
    decreases second.len(),
{
    if second.len() == 0 {
        assert(first + second =~= first);
    } else {
        lemma_complete_more(driver, first, second.drop_last());
        assert((first + second).drop_last() =~= first + second.drop_last());
    }
}

/// What the kernel answers to a request for events only moves operations from
/// flight to completion.
pub proof fn lemma_reap(driver: DriverView, answer: Result<i64, Error>, batch: Seq<IoEvent>)
    ensures
        answer matches Ok(count) ==> moved(driver, driver.reap(count, batch)),
{
    if let Ok(count) = answer {
        lemma_complete_all(driver, handed_out(count, batch));
    }
}

/// Keeps track of AIO operations.
#[derive(Debug)]
pub struct Driver {
    active: Slab<InFlight>,
    completed: HashMap<usize, CompletedOp>,
    queue_len: usize,
    eventfd: i32,
}

impl View for Driver {
    type V = DriverView;

    closed spec fn view(&self) -> DriverView {
        DriverView {
            active: slab_contents(self.active),
            completed: self.completed@,
            queue_len: self.queue_len as nat,
            eventfd: self.eventfd,
            vacated: slab_vacated(self.active),
        }
    }
}

impl Driver {
    /// Whether the slab was made for as many operations as the queue has.
    pub closed spec fn sized(&self) -> bool {
        slab_limit(self.active) == self.queue_len
    }

    /// What every driver keeps.
    pub open spec fn wf(&self) -> bool {
        self.sized() && self@.wf()
    }

    /// Checks the length of a queue.
    pub fn check_queue_len(queue_len: u32) -> (result: Result<(), Error>)
        ensures
            match result {
                Ok(()) => queue_len > 0,
                Err(error) => queue_len == 0 && error@ == (ErrorView::Message {
                    kind: ErrorKind::InvalidInput,
                    message: "AIO queue length must be greater than zero"@,
                }),
            },
    {
        if queue_len == 0 {
            return Err(Error::new(ErrorKind::InvalidInput, "AIO queue length must be greater than zero"));
        }
        Ok(())
    }

    /// Create new AIO driver, whose completions are notified to an eventfd.
    pub fn new(queue_len: u32, eventfd: i32) -> (result: Result<Driver, Error>)
        requires
            queue_len * SLOT_BYTES <= isize::MAX,
        ensures
            match result {
                Ok(driver) => {
                    &&& queue_len > 0
                    &&& driver.wf()
                    &&& driver@.idle()
                    &&& driver@.active == Map::<usize, InFlight>::empty()
                    &&& driver@.completed == Map::<usize, CompletedOp>::empty()
                    &&& driver@.queue_len == queue_len
                    &&& driver@.eventfd == eventfd
                    &&& driver@.vacated == Seq::<usize>::empty()
                },
                Err(error) => queue_len == 0 && error@ == (ErrorView::Message {
                    kind: ErrorKind::InvalidInput,
                    message: "AIO queue length must be greater than zero"@,
                }),
            },
    {
        match Driver::check_queue_len(queue_len) {
            Ok(()) => {},
            Err(error) => return Err(error),
        }
        let active = slab_with_capacity(queue_len as usize);
        let driver = Driver { active, completed: HashMap::new(), queue_len: queue_len as usize, eventfd };
        assert(driver@.active =~= Map::empty());
        Ok(driver)
    }

    /// How many more operations the kernel takes.
    pub fn available_slots(&self) -> (slots: usize)
        requires
            self.wf(),
        ensures
            slots == self@.slots(),
            slots + self@.active.dom().len() == self@.queue_len,
    {
        self.queue_len.saturating_sub(slab_len(&self.active))
    }

    /// Number of operations in flight.
    pub fn active_len(&self) -> (len: usize)
        requires
            self.wf(),
        ensures
            len == self@.active.dom().len(),
    {
        slab_len(&self.active)
    }

    /// Number of completed operations that were not asked for yet.
    pub fn completed_len(&self) -> (len: usize)
        ensures
            len == self@.completed.dom().len(),
    {
        self.completed.len()
    }

    /// Number of operations that the kernel takes at a time.
    pub fn queue_len(&self) -> (len: usize)
        ensures
            len == self@.queue_len,
    {
        self.queue_len
    }

    /// Whether no operation is in flight.
    pub fn is_drained(&self) -> (drained: bool)
        ensures
            drained == (self@.active.dom() == Set::<usize>::empty()),
    {
        slab_is_empty(&self.active)
    }

    /// Whether an operation is in flight.
    pub fn is_active(&self, id: usize) -> (active: bool)
        ensures
            active == self@.active.contains_key(id),
    {
        slab_contains(&self.active, id)
    }

    /// Whether an operation has completed and was not asked for yet.
    pub fn is_completed(&self, id: usize) -> (completed: bool)
        ensures
            completed == self@.completed.contains_key(id),
    {
        self.completed.contains_key(&id)
    }

    /// The control block of an operation in flight.
    pub fn iocb(&self, id: usize) -> (iocb: Option<IoCb>)
        ensures
            iocb == if self@.active.contains_key(id) {
                Some(self@.active[id].iocb)
            } else {
                None::<IoCb>
            },
    {
        match slab_get(&self.active, id) {
            Some(op) => Some(*op.iocb_ptr()),
            None => None,
        }
    }

    /// The numbers of the operations in flight, in ascending order.
    pub fn active_ids(&self) -> (ids: Vec<usize>)
        ensures
            ids@.to_set() == self@.active.dom(),
            forall|i: int, j: int| 0 <= i < j < ids@.len() ==> ids@[i] < ids@[j],
    {
        slab_keys(&self.active)
    }

    /// Numbers one borrowed-buffer AIO operation and takes it into flight. Its
    /// control block is to be handed to the kernel next, and the kernel's
    /// answer to [`Driver::submit_reply`].
    ///
    /// The caller must keep the buffer alive and stable until the returned
    /// handle is completed, cancelled, or reaped by this driver.
    pub fn submit_raw(&mut self, opcode: u16, fd: i32, buf: usize, nbytes: usize) -> (result: Result<OpHandle, Error>)
        requires
            old(self).wf(),
        ensures
            final(self).wf(),
            match result {
                Ok(handle) => {
                    &&& old(self)@.slots() > 0
                    &&& nbytes <= u64::MAX
                    &&& handle.0 == old(self)@.next()
                    &&& !old(self)@.active.contains_key(handle.0)
                    &&& final(self)@ == old(self)@.launch(
                        InFlight { iocb: old(self)@.control_block(handle.0, opcode, fd, buf, nbytes) },
                    )
                    &&& old(self)@.active.dom().len() < old(self)@.queue_len
                    &&& handle.0 < old(self)@.queue_len
                    &&& final(self)@.active == old(self)@.active.insert(handle.0, final(self)@.active[handle.0])
                    &&& final(self)@.completed == old(self)@.completed
                    &&& final(self)@.queue_len == old(self)@.queue_len
                    &&& final(self)@.eventfd == old(self)@.eventfd
                    &&& final(self)@.active[handle.0].iocb.opcode == opcode
                    &&& final(self)@.active[handle.0].iocb.fd == fd
                    &&& final(self)@.active[handle.0].iocb.buf == buf
                    &&& final(self)@.active[handle.0].iocb.nbytes == nbytes
                    &&& final(self)@.active[handle.0].iocb.resfd == Some(old(self)@.eventfd)
                    &&& final(self)@.active[handle.0].iocb.data == handle.0
                },
                Err(error) => {
                    &&& final(self)@ == old(self)@
                    &&& if old(self)@.active.dom().len() == old(self)@.queue_len {
                        error@ == (ErrorView::Message {
                            kind: ErrorKind::WouldBlock,
                            message: "no AIO queue space available"@,
                        })
                    } else {
                        nbytes > u64::MAX && error@ == (ErrorView::Message {
                            kind: ErrorKind::InvalidInput,
                            message: "AIO buffer too large"@,
                        })
                    }
                },
            },
    {
        if self.available_slots() == 0 {
            return Err(Error::new(ErrorKind::WouldBlock, "no AIO queue space available"));
        }
        let nbytes: u64 = match u64::try_from(nbytes) {
            Ok(nbytes) => nbytes,
            Err(_) => return Err(Error::new(ErrorKind::InvalidInput, "AIO buffer too large")),
        };
        let id: usize = slab_vacant_key(&self.active);
        let ghost d0 = self@;
        let iocb = IoCb::new(opcode, fd, buf as u64, nbytes).with_resfd(self.eventfd).with_data(id as u64);
        let key: usize = slab_insert(&mut self.active, InFlight { iocb });
        proof {
            lemma_launch_wf(d0, InFlight { iocb });
            law_launch(d0, InFlight { iocb });
        }
        Ok(OpHandle(key))
    }

    /// Takes in the kernel's answer to a submission: how many control blocks it
    /// accepted. An operation that it did not accept is no longer in flight.
    pub fn submit_reply(&mut self, handle: OpHandle, reply: Result<i64, Error>) -> (result: Result<OpHandle, Error>)
        requires
            old(self).wf(),
            old(self)@.active.contains_key(handle.0),
        ensures
            final(self).wf(),
            match reply {
                Ok(1) => final(self)@ == old(self)@ && result == Ok::<OpHandle, Error>(handle),
                Ok(_) => {
                    &&& final(self)@ == old(self)@.withdraw(handle.0)
                    &&& final(self)@.active == old(self)@.active.remove(handle.0)
                    &&& final(self)@.completed == old(self)@.completed
                    &&& result matches Err(error) && error@ == (ErrorView::Message {
                        kind: ErrorKind::WouldBlock,
                        message: "AIO request not accepted"@,
                    })
                },
                Err(refusal) => {
                    &&& final(self)@ == old(self)@.withdraw(handle.0)
                    &&& final(self)@.active == old(self)@.active.remove(handle.0)
                    &&& final(self)@.completed == old(self)@.completed
                    &&& result matches Err(error) && error@ == refusal@
                },
            },
    {
        proof {
            lemma_withdraw_wf(self@, handle.0);
        }
        match reply {
            Ok(1) => Ok(handle),
            Ok(_) => {
                slab_remove(&mut self.active, handle.0);
                Err(Error::new(ErrorKind::WouldBlock, "AIO request not accepted"))
            },
            Err(error) => {
                slab_remove(&mut self.active, handle.0);
                Err(error)
            },
        }
    }

    /// Takes an operation out of flight that the kernel has cancelled.
    pub fn withdraw(&mut self, id: usize)
        requires
            old(self).wf(),
            old(self)@.active.contains_key(id),
        ensures
            final(self).wf(),
            final(self)@ == old(self)@.withdraw(id),
            final(self)@.active == old(self)@.active.remove(id),
            final(self)@.completed == old(self)@.completed,
            final(self)@.queue_len == old(self)@.queue_len,
            final(self)@.eventfd == old(self)@.eventfd,
    {
        proof {
            lemma_withdraw_wf(self@, id);
        }
        slab_remove(&mut self.active, id);
    }

    /// Takes in one completion event.
    pub fn complete_event(&mut self, event: IoEvent)
        requires
            old(self).wf(),
        ensures
            final(self).wf(),
            final(self)@ == old(self)@.complete(event),
            took_in(old(self)@, seq![event], 1, final(self)@),
    {
        proof {
            law_event(self@, event);
        }
        let id: usize = match usize::try_from(event.data) {
            Ok(id) => id,
            Err(_) => return,
        };
        if slab_contains(&self.active, id) {
            proof {
                lemma_withdraw_wf(self@, id);
            }
            slab_remove(&mut self.active, id);
            self.completed.insert(id, CompletedOp { id, res: event.res });
        }
    }

    /// Takes in the kernel's answer to a request for completion events: how
    /// many events it put into the batch.
    pub fn reap_with_min(&mut self, reply: Result<i64, Error>, batch: &Vec<IoEvent>) -> (result: Result<usize, Error>)
        requires
            old(self).wf(),
        ensures
            final(self).wf(),
            match reply {
                Ok(count) => {
                    &&& final(self)@ == old(self)@.reap(count, batch@)
                    &&& result matches Ok(n) && n == event_count(count)
                    &&& if none_came(count) {
                        final(self)@ == old(self)@ && result == Ok::<usize, Error>(0)
                    } else {
                        &&& result == Ok::<usize, Error>(count as usize)
                        &&& count <= batch@.len() ==> took_in(old(self)@, batch@, count as int, final(self)@)
                        &&& count > batch@.len() ==> took_in(old(self)@, batch@, batch@.len() as int, final(self)@)
                    }
                },
                Err(failure) => {
                    &&& final(self)@ == old(self)@
                    &&& result matches Err(error) && error@ == failure@
                },
            },
    {
        let count: i64 = match reply {
            Ok(count) => count,
            Err(error) => return Err(error),
        };
        let n: usize = match usize::try_from(count) {
            Ok(n) => n,
            Err(_) => 0,
        };
        let mut i: usize = 0;
        while i < n && i < batch.len()
            invariant
                self.wf(),
                i <= n,
                i <= batch@.len(),
                self@ == old(self)@.complete_all(batch@.take(i as int)),
            decreases n - i,
        {
            self.complete_event(batch[i]);
            assert(batch@.take(i + 1).drop_last() =~= batch@.take(i as int));
            i += 1;
        }
        assert(batch@.take(batch@.len() as int) =~= batch@);
        proof {
            if none_came(count) {
                law_reap_nothing(old(self)@, count, batch@);
            } else if count <= batch@.len() {
                law_reap_takes_in(old(self)@, count, batch@);
            } else {
                law_reap_overfull(old(self)@, count, batch@);
            }
        }
        Ok(n)
    }

    /// Request to wait for a completion, nothing if no operation is in flight.
    pub fn reap_blocking(&self) -> (request: Option<ReapRequest>)
        ensures
            request == if self@.active.dom() == Set::<usize>::empty() {
                None
            } else {
                Some(ReapRequest { min_nr: 1, timeout: None })
            },
    {
        if slab_is_empty(&self.active) {
            return None;
        }
        Some(ReapRequest { min_nr: 1, timeout: None })
    }

    /// Request to wait for a completion for some time, nothing if no operation
    /// is in flight.
    pub fn reap_timeout(&self, timeout: Span) -> (result: Result<Option<ReapRequest>, Error>)
        ensures
            if self@.active.dom() == Set::<usize>::empty() {
                result == Ok::<Option<ReapRequest>, Error>(None)
            } else if timeout.secs > i64::MAX {
                result matches Err(error) && error@ == (ErrorView::Message {
                    kind: ErrorKind::InvalidInput,
                    message: "timeout too large"@,
                })
            } else {
                result == Ok::<Option<ReapRequest>, Error>(
                    Some(
                        ReapRequest {
                            min_nr: 1,
                            timeout: Some(
                                Timespec { tv_sec: timeout.secs as i64, tv_nsec: timeout.subsec_nanos as i64 },
                            ),
                        },
                    ),
                )
            },
    {
        if slab_is_empty(&self.active) {
            return Ok(None);
        }
        if timeout.secs > 0x7fff_ffff_ffff_ffff {
            return Err(Error::new(ErrorKind::InvalidInput, "timeout too large"));
        }
        let timespec = Timespec { tv_sec: timeout.secs as i64, tv_nsec: timeout.subsec_nanos as i64 };
        Ok(Some(ReapRequest { min_nr: 1, timeout: Some(timespec) }))
    }

    /// Hands out the completion of an operation, if it has completed.
    pub fn take_completed(&mut self, id: usize) -> (op: Option<CompletedOp>)
        requires
            old(self).wf(),
        ensures
            final(self).wf(),
            final(self)@ == (DriverView { completed: old(self)@.completed.remove(id), ..old(self)@ }),
            match op {
                Some(op) => old(self)@.completed.contains_key(id) && op == old(self)@.completed[id],
                None => !old(self)@.completed.contains_key(id),
            },
    {
        self.completed.remove(&id)
    }
}

} // verus!
