//! What transfers that wait in different ways have in common.

use vstd::prelude::*;

use crate::driver::{event_count, handed_out, lemma_complete_more, DriverView, OpHandle};
use crate::error::ErrorView;
use crate::exact::{lemma_none_ready, ExactView, Submission};
use crate::laws::exclusive::{exclusive, law_exclusive, lemma_consumed, lemma_not_alone, linked, settled};
use crate::laws::failure::{
    completion_error, failing, gave_up_with, lemma_accepted_well, lemma_proceeds_well, not_abandoned, reply_error,
};
use crate::laws::runs::{begins, is_run, law_run, smooth, step_at, unended, Moment};
use crate::reply::Reply;
use crate::request::IoEvent;
use crate::transfer::{Mode, PhaseView, TransferView};

verus! {

/// What happens to a transfer, whatever way it waits.
pub enum Entry {
    /// It begins.
    Begun,
    /// The kernel accepts its chunk.
    Accepted,
    /// It goes on after completion events.
    Round(Seq<IoEvent>),
}

/// What has happened to a transfer, and the completion events that came since.
pub struct Log {
    /// What has happened.
    pub entries: Seq<Entry>,
    /// The events that have come since.
    pub open: Seq<IoEvent>,
}

impl Log {
    /// The log of a transfer to which nothing has happened.
    pub open spec fn start() -> Log {
        Log { entries: Seq::empty(), open: Seq::empty() }
    }

    /// The log with one more entry.
    pub open spec fn push(self, entry: Entry) -> Log {
        Log { entries: self.entries.push(entry), ..self }
    }

    /// The log with the events that came as an entry, if any came.
    pub open spec fn close(self) -> Log {
        if self.open.len() == 0 {
            self
        } else {
            Log { entries: self.entries.push(Entry::Round(self.open)), open: Seq::empty() }
        }
    }

    /// The log with more events.
    pub open spec fn more(self, count: i64, batch: Seq<IoEvent>) -> Log {
        Log { open: self.open + handed_out(count, batch), ..self }
    }

    /// The log after a reply to a transfer.
    pub open spec fn after(self, t: TransferView, reply: Reply) -> Log {
        match (t.phase, reply) {
            (PhaseView::Ready, Reply::Begin) => match t.mode {
                Mode::Blocking(Some(_)) => self,
                _ => self.push(Entry::Begun),
            },
            (PhaseView::Deadline(_), Reply::Deadline(true)) => self.push(Entry::Begun),
            (PhaseView::Submit(_), Reply::Submitted(Ok(1))) => self.push(Entry::Accepted),
            (PhaseView::Reap(_), Reply::Reaped(Ok(count), batch)) => self.more(count, batch@),
            (PhaseView::Collect(_, _), Reply::Reaped(Ok(count), batch)) => if event_count(count) == 0 {
                self.close()
            } else {
                self.more(count, batch@)
            },
            (PhaseView::Drain(_), Reply::Drained(Ok(()))) => self.close(),
            _ => self,
        }
    }
}

/// The log of the first steps of a run.
pub open spec fn log_of(moments: Seq<Moment>, replies: Seq<Reply>, steps: int) -> Log
    decreases steps,
{
    if steps <= 0 {
        Log::start()
    } else {
        log_of(moments, replies, steps - 1).after(moments[steps - 1].transfer, replies[steps - 1])
    }
}

/// Where a transfer stops until something happens to it.
pub enum Stop {
    /// At a chunk that is being submitted.
    Submitting(Submission),
    /// At a wait for completions.
    Waiting,
    /// At its end.
    Complete,
    /// At a chunk that has completed badly.
    Broken,
}

/// Where a transfer and its driver are.
pub struct Course {
    /// Which bytes were submitted and transferred.
    pub state: ExactView,
    /// The driver.
    pub driver: DriverView,
    /// Where the transfer stops.
    pub stop: Stop,
}

/// A transfer that submits its next chunk if the kernel takes one.
pub open spec fn offer(s: ExactView, d: DriverView) -> Course {
    match s.next_chunk(d.slots()) {
        Some(chunk) => {
            let id = d.next();
            Course {
                state: s,
                driver: d.launch(s.operation(d, id, chunk)),
                stop: Stop::Submitting(Submission { handle: OpHandle(id), chunk }),
            }
        },
        None => Course { state: s, driver: d, stop: Stop::Waiting },
    }
}

/// A transfer that accounts for what has completed and goes on.
pub open spec fn settle(s: ExactView, d: DriverView) -> Course {
    if !s.consumable(d) {
        Course { state: s, driver: d, stop: Stop::Broken }
    } else if s.consumed(d).done() {
        Course { state: s.consumed(d), driver: s.relieved(d), stop: Stop::Complete }
    } else {
        offer(s.consumed(d), s.relieved(d))
    }
}

impl Course {
    /// Where a transfer and its driver get to.
    pub open spec fn next(self, entry: Entry) -> Course {
        match (self.stop, entry) {
            (Stop::Waiting, Entry::Begun) => settle(self.state, self.driver),
            (Stop::Waiting, Entry::Round(events)) => settle(self.state, self.driver.complete_all(events)),
            (Stop::Submitting(submission), Entry::Accepted) => {
                offer(self.state.submit(submission.handle.0, submission.chunk), self.driver)
            },
            _ => self,
        }
    }

    /// Where a transfer and its driver get to by all that has happened.
    pub open spec fn run(self, entries: Seq<Entry>) -> Course
        decreases entries.len(),
    {
        if entries.len() == 0 {
            self
        } else {
            self.run(entries.drop_last()).next(entries.last())
        }
    }
}

/// Whether a transfer and its driver are where a course has got to, with some
/// events taken in since. A transfer that is failing has the error of a chunk
/// that had completed badly there.
pub open spec fn follows(t: TransferView, d: DriverView, c: Course, open: Seq<IoEvent>) -> bool {
    match t.phase {
        PhaseView::Cancel(_, _) | PhaseView::Finished(Err(_)) => {
            c.stop is Broken && exists|error: ErrorView| #[trigger]
                completion_error(c.state, c.driver, error) && gave_up_with(t, Err(error))
        },
        PhaseView::Finished(Ok(_)) => {
            c == (Course { state: t.state, driver: d, stop: Stop::Complete }) && open.len() == 0
        },
        PhaseView::Submit(submission) => {
            c == (Course { state: t.state, driver: d, stop: Stop::Submitting(submission) }) && open.len() == 0
        },
        PhaseView::Drain(_) | PhaseView::Collect(_, _) => {
            &&& c.stop is Waiting
            &&& c.state == t.state
            &&& settled(c.state, c.driver)
            &&& d == c.driver.complete_all(open)
            &&& t.phase matches PhaseView::Collect(_, 0) ==> open.len() == 0
        },
        _ => c == (Course { state: t.state, driver: d, stop: Stop::Waiting }) && open.len() == 0,
    }
}

proof fn lemma_settled(s: ExactView, d: DriverView)
    requires
        settled(s, d),
    ensures
        settle(s, d) == (Course { state: s, driver: d, stop: Stop::Waiting }),
{
    assert(s.ready(d.completed) =~= Set::empty());
    lemma_none_ready(s, d);
}

proof fn lemma_submits_follows(t: TransferView, d: DriverView, t1: TransferView, d1: DriverView)
    requires
        d.completed.dom() == Set::<usize>::empty(),
        !t.state.done(),
        t.submits(d, t1, d1),
        !failing(t1),
        exclusive(t1, d1),
    ensures
        follows(t1, d1, offer(t.state, d), Seq::empty()),
{
    assert(t.state.ready(d.completed) =~= Set::empty());
    lemma_none_ready(t.state, d);
}

proof fn lemma_proceeds_follows(t: TransferView, d: DriverView, t1: TransferView, d1: DriverView)
    requires
        d.wf(),
        t.state.wf(),
        t.state.accounted(),
        linked(t.state, d),
        t.proceeds(d, t1, d1),
        exclusive(t1, d1),
    ensures
        follows(t1, d1, settle(t.state, d), Seq::empty()),
{
    lemma_proceeds_well(t, d, t1, d1);
    if t.state.consumable(d) {
        lemma_consumed(t.state, d);
        if !t.state.consumed(d).done() {
            lemma_submits_follows(t.with(t.state.consumed(d)), t.state.relieved(d), t1, d1);
        }
    } else {
        let c = settle(t.state, d);
        let error = choose|error: ErrorView| #[trigger]
            completion_error(t.state, d, error) && gave_up_with(t1, Err(error));
        assert(completion_error(c.state, c.driver, error) && gave_up_with(t1, Err(error)));
    }
}

proof fn lemma_run_push(c: Course, entries: Seq<Entry>, entry: Entry)
    ensures
        c.run(entries.push(entry)) == c.run(entries).next(entry),
{
    assert(entries.push(entry).drop_last() =~= entries);
}

/// Going on after the events that came, if any came, gets a transfer to where
/// its course gets.
proof fn lemma_close(t: TransferView, d: DriverView, c: Course, log: Log, t1: TransferView, d1: DriverView)
    requires
        d.wf(),
        t.wf(d),
        t.state.accounted(),
        linked(t.state, d),
        t.phase is Drain || t.phase is Collect,
        follows(t, d, c.run(log.entries), log.open),
        t.proceeds(d, t1, d1),
        exclusive(t1, d1),
    ensures
        follows(t1, d1, c.run(log.close().entries), log.close().open),
{
    let at = c.run(log.entries);
    lemma_proceeds_follows(t, d, t1, d1);
    if log.open.len() == 0 {
        lemma_settled(at.state, at.driver);
        assert(log.open =~= Seq::empty());
    } else {
        lemma_run_push(c, log.entries, Entry::Round(log.open));
    }
}

/// One step of a transfer, whatever way it waits, keeps to its course.
pub proof fn law_step_follows(
    t: TransferView,
    d: DriverView,
    c: Course,
    log: Log,
    reply: Reply,
    t1: TransferView,
    d1: DriverView,
)
    requires
        d.wf(),
        t.wf(d),
        exclusive(t, d),
        not_abandoned(t),
        !(t.phase is Finished),
        reply_error(t, reply) is None,
        t.steps(d, reply, t1, d1),
        follows(t, d, c.run(log.entries), log.open),
    ensures
        follows(t1, d1, c.run(log.after(t, reply).entries), log.after(t, reply).open),
{
    let at = c.run(log.entries);
    law_exclusive(t, d, reply, t1, d1);
    match (t.phase, reply) {
        (PhaseView::Ready, Reply::Begin) => match t.mode {
            Mode::Blocking(Some(_)) => {},
            _ => {
                lemma_run_push(c, log.entries, Entry::Begun);
                assert(log.open =~= Seq::empty());
                lemma_proceeds_follows(t, d, t1, d1);
            },
        },
        (PhaseView::Deadline(_), Reply::Deadline(true)) => {
            lemma_run_push(c, log.entries, Entry::Begun);
            assert(log.open =~= Seq::empty());
            lemma_proceeds_follows(t, d, t1, d1);
        },
        (PhaseView::Submit(submission), Reply::Submitted(Ok(1))) => {
            lemma_run_push(c, log.entries, Entry::Accepted);
            assert(log.open =~= Seq::empty());
            lemma_accepted_well(t, d, reply, t1, d1);
            let s = t.state.submit(submission.handle.0, submission.chunk);
            assert(s.pending.contains_key(submission.handle.0));
            lemma_submits_follows(t.with(s), d, t1, d1);
        },
        (PhaseView::Clock, Reply::Remaining(_)) => lemma_not_alone(t, d),
        (PhaseView::Reap(_), Reply::Reaped(Ok(count), batch)) => {
            lemma_complete_more(at.driver, log.open, handed_out(count, batch@));
        },
        (PhaseView::Drain(_), Reply::Drained(Ok(()))) => {
            lemma_close(t, d, c, log, t1, d1);
        },
        (PhaseView::Collect(_, _), Reply::Reaped(Ok(count), batch)) => {
            if event_count(count) == 0 {
                assert(handed_out(count, batch@) =~= Seq::empty());
                assert(d.reap(count, batch@) == d);
                if !(t1.phase is Register) && !(t1.phase is Sleep) {
                    lemma_close(t, d, c, log, t1, d1);
                }
            } else {
                lemma_complete_more(at.driver, log.open, handed_out(count, batch@));
            }
        },
        (PhaseView::Sleep, Reply::Begin) => {
            lemma_settled(t.state, d);
            assert(log.open =~= Seq::empty());
            lemma_proceeds_follows(t, d, t1, d1);
        },
        (PhaseView::Register, Reply::Ready(_)) => {
            assert(d.complete_all(log.open) == d);
        },
        (PhaseView::Cancel(_, _), _) => {
            let error = choose|error: ErrorView| #[trigger]
                completion_error(at.state, at.driver, error) && gave_up_with(t, Err(error));
            assert(completion_error(at.state, at.driver, error) && gave_up_with(t1, Err(error)));
        },
        _ => {},
    }
}

/// Where a transfer and its driver get to depends on what happens to them alone,
/// whatever way the transfer waits.
pub proof fn law_run_follows(moments: Seq<Moment>, replies: Seq<Reply>, k: int)
    requires
        is_run(moments, replies),
        begins(moments[0]),
        unended(moments),
        smooth(moments, replies),
        0 <= k < moments.len(),
    ensures
        ({
            let m = moments[0];
            let start = Course { state: m.transfer.state, driver: m.driver, stop: Stop::Waiting };
            let log = log_of(moments, replies, k);
            follows(moments[k].transfer, moments[k].driver, start.run(log.entries), log.open)
        }),
    decreases k,
{
    if k > 0 {
        let m = moments[k - 1];
        law_run_follows(moments, replies, k - 1);
        law_run(moments, replies, k - 1);
        assert(step_at(moments, replies, k - 1));
        assert(!(m.transfer.phase is Finished));
        assert(reply_error(m.transfer, replies[k - 1]) is None);
        let start = Course {
            state: moments[0].transfer.state,
            driver: moments[0].driver,
            stop: Stop::Waiting,
        };
        law_step_follows(
            m.transfer,
            m.driver,
            start,
            log_of(moments, replies, k - 1),
            replies[k - 1],
            moments[k].transfer,
            moments[k].driver,
        );
    }
}

/// A polled and a blocking transfer of the same bytes, or any two, that begin
/// with the same idle driver and see the same chunks accepted and the same
/// completions, and whose waits do not fail, reach the same state with the same
/// driver and have the same outcome. If they fail, the error of each is that of
/// a chunk which has completed badly for both.
pub proof fn law_same_course(a: Seq<Moment>, a_replies: Seq<Reply>, b: Seq<Moment>, b_replies: Seq<Reply>)
    requires
        is_run(a, a_replies),
        is_run(b, b_replies),
        begins(a[0]),
        begins(b[0]),
        a[0].transfer.state == b[0].transfer.state,
        a[0].driver == b[0].driver,
        unended(a),
        unended(b),
        smooth(a, a_replies),
        smooth(b, b_replies),
        log_of(a, a_replies, a_replies.len() as int) == log_of(b, b_replies, b_replies.len() as int),
    ensures
        failing(a.last().transfer) == failing(b.last().transfer),
        !failing(a.last().transfer) ==> {
            &&& a.last().transfer.state == b.last().transfer.state
            &&& a.last().driver == b.last().driver
            &&& a.last().transfer.phase is Finished == b.last().transfer.phase is Finished
        },
        failing(a.last().transfer) ==> exists|s: ExactView, d: DriverView, e: ErrorView, f: ErrorView|
            #![trigger completion_error(s, d, e), completion_error(s, d, f)]
            {
                &&& completion_error(s, d, e)
                &&& completion_error(s, d, f)
                &&& gave_up_with(a.last().transfer, Err(e))
                &&& gave_up_with(b.last().transfer, Err(f))
            },
{
    law_run_follows(a, a_replies, a.len() - 1);
    law_run_follows(b, b_replies, b.len() - 1);
}

} // verus!
