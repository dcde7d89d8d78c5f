//! Cancellation of operations in flight.

use std::collections::HashSet;
use vstd::prelude::*;

use crate::driver::{lemma_reap, Driver, DriverView};
use crate::error::{Error, ErrorView};
use crate::ids::set_members;
use crate::laws::cancelling::{covers, dropped, law_cancellation_asks};
use crate::reply::Reply;
use crate::request::ReapRequest;

verus! {

broadcast use vstd::std_specs::hash::group_hash_axioms;

/// What a cancellation is waiting for.
#[derive(Debug)]
pub enum CancelStep {
    /// That the kernel cancels an operation.
    Cancel(usize),
    /// That the kernel hands out completion events.
    Reap(ReapRequest),
    /// That the eventfd is drained.
    Drain,
    /// Nothing, it is over.
    Done(Result<(), Error>),
}

/// The mathematical content of a [`CancelStep`].
pub enum CancelStepView {
    Cancel(usize),
    Reap(ReapRequest),
    Drain,
    Done(Result<(), ErrorView>),
}

/// The mathematical content of the outcome of an operation.
pub open spec fn outcome_view(outcome: Result<(), Error>) -> Result<(), ErrorView> {
    match outcome {
        Ok(()) => Ok(()),
        Err(error) => Err(error@),
    }
}

impl View for CancelStep {
    type V = CancelStepView;

    open spec fn view(&self) -> CancelStepView {
        match self {
            CancelStep::Cancel(id) => CancelStepView::Cancel(*id),
            CancelStep::Reap(request) => CancelStepView::Reap(*request),
            CancelStep::Drain => CancelStepView::Drain,
            CancelStep::Done(outcome) => CancelStepView::Done(outcome_view(*outcome)),
        }
    }
}

/// The mathematical content of a [`Cancellation`].
#[verifier::ext_equal]
pub struct CancelView {
    /// Operations that are not over yet.
    pub remaining: Set<usize>,
    /// Operations of which the kernel was not asked to cancel them yet.
    pub queue: Seq<usize>,
    /// What it is waiting for.
    pub step: CancelStepView,
}

impl CancelView {
    /// The operations that are not over are in flight, but for those that the
    /// kernel was not asked about yet or that have just completed.
    pub open spec fn wf(self, driver: DriverView) -> bool {
        &&& self.remaining.finite()
        &&& self.queue.no_duplicates()
        &&& forall|i: int| 0 <= i < self.queue.len() ==> self.remaining.contains(#[trigger] self.queue[i])
        &&& match self.step {
            CancelStepView::Cancel(id) => {
                &&& self.remaining.contains(id)
                &&& !self.queue.contains(id)
                &&& driver.active.contains_key(id)
                &&& forall|k: usize| #[trigger]
                    self.remaining.contains(k) ==> driver.active.contains_key(k) || self.queue.contains(k)
            },
            CancelStepView::Reap(_) => {
                &&& self.queue.len() == 0
                &&& self.remaining != Set::<usize>::empty()
                &&& self.remaining.subset_of(driver.active.dom())
            },
            CancelStepView::Drain => {
                &&& self.queue.len() == 0
                &&& self.remaining.subset_of(driver.active.dom().union(driver.completed.dom()))
            },
            CancelStepView::Done(outcome) => outcome is Ok ==> self.remaining == Set::<usize>::empty(),
        }
    }

    /// Waits for completions as long as operations are not over.
    pub open spec fn wait(remaining: Set<usize>) -> CancelView {
        CancelView {
            remaining,
            queue: Seq::empty(),
            step: if remaining == Set::<usize>::empty() {
                CancelStepView::Done(Ok(()))
            } else {
                CancelStepView::Reap(ReapRequest { min_nr: 1, timeout: None })
            },
        }
    }

    /// Asks the kernel to cancel the next operation that is in flight, and
    /// waits when there is none left to ask about.
    pub open spec fn advance(remaining: Set<usize>, queue: Seq<usize>, active: Set<usize>) -> CancelView
        decreases queue.len(),
    {
        if queue.len() == 0 {
            CancelView::wait(remaining)
        } else {
            let id = queue.last();
            if active.contains(id) {
                CancelView { remaining, queue: queue.drop_last(), step: CancelStepView::Cancel(id) }
            } else {
                CancelView::advance(remaining.remove(id), queue.drop_last(), active)
            }
        }
    }

    /// Whether this is how a cancellation starts: completions that are there
    /// already are dropped, and the kernel is asked about the other operations
    /// in some order.
    pub open spec fn started(self, ids: Set<usize>, driver: DriverView, driver_after: DriverView) -> bool {
        &&& driver_after == driver.forget(ids)
        &&& exists|order: Seq<usize>| self.started_in(ids, driver, order)
    }

    /// The same, for the order.
    pub open spec fn started_in(self, ids: Set<usize>, driver: DriverView, order: Seq<usize>) -> bool {
        let rest = ids.difference(driver.completed.dom());
        &&& order.no_duplicates()
        &&& order.to_set() == rest
        &&& self == CancelView::advance(rest, order, driver.active.dom())
    }

    /// The cancellation and the driver after a reply. A reply to something else
    /// changes nothing.
    pub open spec fn after(self, driver: DriverView, reply: Reply) -> (CancelView, DriverView) {
        match (self.step, reply) {
            (CancelStepView::Cancel(id), Reply::Cancelled(true)) => {
                let driver = driver.withdraw(id);
                (CancelView::advance(self.remaining.remove(id), self.queue, driver.active.dom()), driver)
            },
            (CancelStepView::Cancel(_), Reply::Cancelled(false)) => {
                (CancelView::advance(self.remaining, self.queue, driver.active.dom()), driver)
            },
            (CancelStepView::Reap(_), Reply::Reaped(Ok(count), batch)) => {
                (CancelView { step: CancelStepView::Drain, ..self }, driver.reap(count, batch@))
            },
            (CancelStepView::Reap(_), Reply::Reaped(Err(error), _)) => {
                (CancelView { step: CancelStepView::Done(Err(error@)), ..self }, driver)
            },
            (CancelStepView::Drain, Reply::Drained(Ok(()))) => {
                let rest = self.remaining.difference(driver.completed.dom()).intersect(driver.active.dom());
                (CancelView::wait(rest), driver.forget(self.remaining))
            },
            (CancelStepView::Drain, Reply::Drained(Err(error))) => {
                (CancelView { step: CancelStepView::Done(Err(error@)), ..self }, driver)
            },
            _ => (self, driver),
        }
    }
}

/// Cancels operations and waits until none of them is in flight any more.
#[derive(Debug)]
pub struct Cancellation {
    remaining: HashSet<usize>,
    queue: Vec<usize>,
    step: CancelStep,
}

impl View for Cancellation {
    type V = CancelView;

    closed spec fn view(&self) -> CancelView {
        CancelView { remaining: self.remaining@, queue: self.queue@, step: self.step@ }
    }
}

impl Driver {
    /// Cancels operations that are in flight, and drops their completions.
    pub fn cancel_and_reap(&mut self, ids: &Vec<usize>) -> (cancellation: Cancellation)
        requires
            old(self).wf(),
        ensures
            final(self).wf(),
            cancellation@.started(ids@.to_set(), old(self)@, final(self)@),
            cancellation@.wf(final(self)@),
            covers(cancellation@, ids@.to_set(), old(self)@),
            dropped(old(self)@, ids@.to_set(), final(self)@),
    {
        let mut remaining: HashSet<usize> = HashSet::new();
        let ghost d0 = self@;
        let mut i: usize = 0;
        while i < ids.len()
            invariant
                i <= ids@.len(),
                remaining@ == ids@.take(i as int).to_set(),
            decreases ids.len() - i,
        {
            remaining.insert(ids[i]);
            assert(ids@.take(i + 1) =~= ids@.take(i as int).push(ids@[i as int]));
            proof {
                lemma_push_to_set(ids@.take(i as int), ids@[i as int]);
            }
            i += 1;
        }
        assert(ids@.take(ids@.len() as int) =~= ids@);
        drop_completed(&mut remaining, self);
        let queue = set_members(&remaining);
        let mut cancellation = Cancellation { remaining, queue, step: CancelStep::Drain };
        let ghost order = queue@;
        cancellation.advance(self);
        assert(cancellation@.started_in(ids@.to_set(), d0, order));
        proof {
            law_cancellation_asks(cancellation@, ids@.to_set(), d0, self@);
        }
        cancellation
    }

    /// Cancels all operations that are in flight, before the driver goes.
    pub fn shut_down(&mut self) -> (cancellation: Cancellation)
        requires
            old(self).wf(),
        ensures
            final(self).wf(),
            cancellation@.started(old(self)@.active.dom(), old(self)@, final(self)@),
            cancellation@.wf(final(self)@),
            covers(cancellation@, old(self)@.active.dom(), old(self)@),
            dropped(old(self)@, old(self)@.active.dom(), final(self)@),
    {
        let ids = self.active_ids();
        self.cancel_and_reap(&ids)
    }
}

/// Adding to a sequence adds to its set of members.
proof fn lemma_push_to_set(ids: Seq<usize>, id: usize)
    ensures
        ids.push(id).to_set() == ids.to_set().insert(id),
{
    let more = ids.push(id);
    assert forall|k: usize| #[trigger] ids.to_set().insert(id).contains(k) implies more.to_set().contains(k) by {
        if k == id {
            assert(more[ids.len() as int] == k);
        } else {
            let i = choose|i: int| 0 <= i < ids.len() && ids[i] == k;
            assert(more[i] == k);
        }
    }
    assert(more.to_set() =~= ids.to_set().insert(id));
}

/// Takes the operations out of a set that have completed, and drops their
/// completions.
fn drop_completed(remaining: &mut HashSet<usize>, driver: &mut Driver)
    requires
        old(driver).wf(),
    ensures
        final(driver).wf(),
        final(driver)@ == old(driver)@.forget(old(remaining)@),
        final(remaining)@ == old(remaining)@.difference(old(driver)@.completed.dom()),
        final(remaining)@.finite(),
{
    let members = set_members(remaining);
    let ghost d0 = driver@;
    let ghost r0 = remaining@;
    let mut i: usize = 0;
    assert(d0.completed.remove_keys(members@.take(0).to_set()) =~= d0.completed);
    assert(r0.difference(d0.completed.dom().intersect(members@.take(0).to_set())) =~= r0);
    while i < members.len()
        invariant
            i <= members@.len(),
            driver.wf(),
            members@.no_duplicates(),
            driver@ == d0.forget(members@.take(i as int).to_set()),
            remaining@ == r0.difference(d0.completed.dom().intersect(members@.take(i as int).to_set())),
        decreases members.len() - i,
    {
        let id: usize = members[i];
        assert(members@.take(i + 1) =~= members@.take(i as int).push(id));
        proof {
            lemma_push_to_set(members@.take(i as int), id);
            assert(!members@.take(i as int).to_set().contains(id));
        }
        if driver.take_completed(id).is_some() {
            remaining.remove(&id);
        }
        assert(d0.completed.remove_keys(members@.take(i as int).to_set()).remove(id) =~= d0.completed.remove_keys(
            members@.take(i + 1).to_set(),
        ));
        assert(remaining@ =~= r0.difference(d0.completed.dom().intersect(members@.take(i + 1).to_set())));
        i += 1;
    }
    assert(members@.take(members@.len() as int) =~= members@);
    assert(remaining@ =~= r0.difference(d0.completed.dom()));
}

/// Takes the operations out of a set that are not in flight.
fn keep_active(remaining: &mut HashSet<usize>, driver: &Driver)
    ensures
        final(remaining)@ == old(remaining)@.intersect(driver@.active.dom()),
        final(remaining)@.finite(),
{
    let members = set_members(remaining);
    let ghost r0 = remaining@;
    let mut i: usize = 0;
    while i < members.len()
        invariant
            i <= members@.len(),
            members@.to_set() == r0,
            r0.finite(),
            remaining@.subset_of(r0),
            forall|k: int| 0 <= k < i ==> (remaining@.contains(#[trigger] members@[k]) <==> driver@.active.contains_key(
                members@[k],
            )),
            forall|k: usize| r0.contains(k) && driver@.active.contains_key(k) ==> #[trigger] remaining@.contains(k),
        decreases members.len() - i,
    {
        let id: usize = members[i];
        if !driver.is_active(id) {
            remaining.remove(&id);
        }
        i += 1;
    }
    assert(remaining@ =~= r0.intersect(driver@.active.dom())) by {
        assert forall|k: usize| #[trigger] remaining@.contains(k) implies driver@.active.contains_key(k) by {
            assert(members@.to_set().contains(k));
            let i = choose|i: int| 0 <= i < members@.len() && members@[i] == k;
            assert(members@[i] == k);
        }
    }
}

impl Cancellation {
    /// What the cancellation is waiting for.
    pub fn step(&self) -> (step: &CancelStep)
        ensures
            step@ == self@.step,
    {
        &self.step
    }

    /// Waits for completions as long as operations are not over.
    fn wait(&mut self, driver: &Driver)
        requires
            old(self)@.remaining.finite(),
            old(self)@.remaining.subset_of(driver@.active.dom()),
            old(self)@.queue.len() == 0,
        ensures
            final(self)@ == CancelView::wait(old(self)@.remaining),
            final(self)@.wf(driver@),
    {
        assert(self.queue@ =~= Seq::empty());
        assert(self.remaining@.is_empty() <==> self.remaining@ =~= Set::<usize>::empty());
        if self.remaining.is_empty() {
            self.step = CancelStep::Done(Ok(()));
            return;
        }
        proof {
            let id = choose|id: usize| self.remaining@.contains(id);
            assert(driver@.active.dom().contains(id));
        }
        match driver.reap_blocking() {
            Some(request) => self.step = CancelStep::Reap(request),
            None => self.step = CancelStep::Done(Ok(())),
        }
    }

    /// Goes on to the next operation to cancel.
    fn advance(&mut self, driver: &Driver)
        requires
            old(self)@.remaining.finite(),
            old(self)@.queue.no_duplicates(),
            forall|i: int|
                0 <= i < old(self)@.queue.len() ==> old(self)@.remaining.contains(#[trigger] old(self)@.queue[i]),
            forall|k: usize| #[trigger]
                old(self)@.remaining.contains(k) ==> driver@.active.contains_key(k) || old(self)@.queue.contains(k),
        ensures
            final(self)@ == CancelView::advance(old(self)@.remaining, old(self)@.queue, driver@.active.dom()),
            final(self)@.wf(driver@),
    {
        let ghost target = CancelView::advance(self@.remaining, self@.queue, driver@.active.dom());
        loop
            invariant
                self@.remaining.finite(),
                self@.queue.no_duplicates(),
                forall|i: int| 0 <= i < self@.queue.len() ==> self@.remaining.contains(#[trigger] self@.queue[i]),
                forall|k: usize| #[trigger]
                    self@.remaining.contains(k) ==> driver@.active.contains_key(k) || self@.queue.contains(k),
                target == CancelView::advance(self@.remaining, self@.queue, driver@.active.dom()),
                target == CancelView::advance(old(self)@.remaining, old(self)@.queue, driver@.active.dom()),
            decreases self@.queue.len(),
        {
            let ghost before = self@;
            let id: usize = match self.queue.pop() {
                Some(id) => id,
                None => {
                    self.wait(driver);
                    return;
                },
            };
            assert(before.queue.last() == id);
            assert(self.queue@ == before.queue.drop_last());
            assert forall|k: usize| before.queue.contains(k) && k != id implies self.queue@.contains(k) by {
                let i = choose|i: int| 0 <= i < before.queue.len() && before.queue[i] == k;
                assert(self.queue@[i] == k);
            }
            if driver.is_active(id) {
                self.step = CancelStep::Cancel(id);
                return;
            }
            self.remaining.remove(&id);
        }
    }

    /// Takes in a reply. A reply to something else changes nothing.
    pub fn resume(&mut self, driver: &mut Driver, reply: Reply)
        requires
            old(driver).wf(),
            old(self)@.wf(old(driver)@),
        ensures
            final(driver).wf(),
            final(self)@.wf(final(driver)@),
            (final(self)@, final(driver)@) == old(self)@.after(old(driver)@, reply),
    {
        match (&self.step, reply) {
            (CancelStep::Cancel(id), Reply::Cancelled(cancelled)) => {
                let id: usize = *id;
                if cancelled {
                    driver.withdraw(id);
                    self.remaining.remove(&id);
                }
                self.advance(driver);
            },
            (CancelStep::Reap(_), Reply::Reaped(answer, batch)) => {
                proof {
                    lemma_reap(driver@, answer, batch@);
                }
                match driver.reap_with_min(answer, &batch) {
                    Ok(_) => self.step = CancelStep::Drain,
                    Err(error) => self.step = CancelStep::Done(Err(error)),
                }
            },
            (CancelStep::Drain, Reply::Drained(drained)) => {
                match drained {
                    Ok(()) => {
                        drop_completed(&mut self.remaining, driver);
                        keep_active(&mut self.remaining, driver);
                        self.wait(driver);
                    },
                    Err(error) => self.step = CancelStep::Done(Err(error)),
                }
            },
            _ => {},
        }
    }
}

} // verus!
