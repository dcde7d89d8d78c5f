//! Exact transfers, step by step.

use vstd::prelude::*;

use crate::cancel::{outcome_view, CancelStep, CancelStepView, CancelView, Cancellation};
use crate::driver::{event_count, Driver, DriverView, OpHandle};
use crate::error::{Error, ErrorKind, ErrorView};
use crate::exact::{too_large_error, ExactState, ExactView, Submission};
use crate::laws::cancelling::{law_gives_up, quits};
use crate::reply::{Readiness, Reply};
use crate::request::{IoEvent, ReapRequest, Span, Timespec};

verus! {

/// How a transfer waits for completions.
#[derive(Debug, Clone, Copy, PartialEq, Eq, Structural)]
pub enum Mode {
    /// It blocks, for a limited time if one is given.
    Blocking(Option<Span>),
    /// It is polled and sleeps in between.
    Polled,
}

/// Why completions are collected without waiting.
#[derive(Debug, Clone, Copy, PartialEq, Eq, Structural)]
pub enum Stage {
    /// To see whether there are any.
    First,
    /// Because the eventfd was readable.
    AfterRead,
    /// Because some may have come while the task was registered with the
    /// eventfd.
    AfterRegistration,
}

/// What a transfer is waiting for.
#[derive(Debug)]
pub enum Phase {
    /// To be run or polled for the first time.
    Ready,
    /// That the end of the timeout is fixed.
    Deadline(Span),
    /// That the kernel accepts a chunk.
    Submit(Submission),
    /// How much time is left.
    Clock,
    /// That the kernel hands out completion events.
    Reap(ReapRequest),
    /// That the eventfd is drained, after a number of events.
    Drain(usize),
    /// That the kernel hands out the completion events that are there, after a
    /// number of events.
    Collect(Stage, usize),
    /// Whether the eventfd can be read.
    Register,
    /// To be polled again when the task is woken.
    Sleep,
    /// That its operations are cancelled. Then it ends with an outcome.
    Cancel(Cancellation, Result<(), Error>),
    /// Nothing, it has ended with an outcome.
    Finished(Result<(), Error>),
}

/// The mathematical content of a [`Phase`].
pub enum PhaseView {
    Ready,
    Deadline(Span),
    Submit(Submission),
    Clock,
    Reap(ReapRequest),
    Drain(usize),
    Collect(Stage, usize),
    Register,
    Sleep,
    Cancel(CancelView, Result<(), ErrorView>),
    Finished(Result<(), ErrorView>),
}

impl PhaseView {
    /// The completion events to ask the kernel for, if any are waited for.
    /// Those that are there already are collected without waiting.
    pub open spec fn request(self) -> Option<ReapRequest> {
        match self {
            PhaseView::Reap(request) => Some(request),
            PhaseView::Collect(_, _) => Some(ReapRequest { min_nr: 0, timeout: None }),
            PhaseView::Cancel(cancel, _) => match cancel.step {
                CancelStepView::Reap(request) => Some(request),
                _ => None,
            },
            _ => None,
        }
    }
}

impl Phase {
    /// The completion events to ask the kernel for, if any are waited for.
    /// Those that are there already are collected without waiting.
    pub fn request(&self) -> (request: Option<ReapRequest>)
        ensures
            request == self@.request(),
            match self {
                Phase::Reap(reap) => request == Some(*reap),
                Phase::Collect(_, _) => request matches Some(reap) && reap.min_nr == 0 && reap.timeout is None,
                Phase::Cancel(cancellation, _) => match cancellation@.step {
                    CancelStepView::Reap(reap) => request == Some(reap),
                    _ => request is None,
                },
                _ => request is None,
            },
    {
        match self {
            Phase::Reap(request) => Some(*request),
            Phase::Collect(_, _) => Some(ReapRequest { min_nr: 0, timeout: None }),
            Phase::Cancel(cancellation, _) => match cancellation.step() {
                CancelStep::Reap(request) => Some(*request),
                _ => None,
            },
            _ => None,
        }
    }
}

impl View for Phase {
    type V = PhaseView;

    open spec fn view(&self) -> PhaseView {
        match self {
            Phase::Ready => PhaseView::Ready,
            Phase::Deadline(timeout) => PhaseView::Deadline(*timeout),
            Phase::Submit(submission) => PhaseView::Submit(*submission),
            Phase::Clock => PhaseView::Clock,
            Phase::Reap(request) => PhaseView::Reap(*request),
            Phase::Drain(reaped) => PhaseView::Drain(*reaped),
            Phase::Collect(stage, total) => PhaseView::Collect(*stage, *total),
            Phase::Register => PhaseView::Register,
            Phase::Sleep => PhaseView::Sleep,
            Phase::Cancel(cancellation, outcome) => PhaseView::Cancel(cancellation@, outcome_view(*outcome)),
            Phase::Finished(outcome) => PhaseView::Finished(outcome_view(*outcome)),
        }
    }
}

/// The error of a transfer whose time ran out.
pub open spec fn timed_out_error() -> ErrorView {
    ErrorView::Message { kind: ErrorKind::TimedOut, message: "timeout waiting for exact AIO transfer"@ }
}

/// The error of a timeout that cannot be expressed.
pub open spec fn timeout_error() -> ErrorView {
    ErrorView::Message { kind: ErrorKind::InvalidInput, message: "timeout too large"@ }
}

/// The error of a chunk that the kernel did not accept.
pub open spec fn not_accepted_error() -> ErrorView {
    ErrorView::Message { kind: ErrorKind::WouldBlock, message: "AIO request not accepted"@ }
}

/// The number of events after more events, capped at what its type holds.
pub open spec fn count_up(total: usize, n: int) -> usize {
    if total + n <= usize::MAX {
        (total + n) as usize
    } else {
        usize::MAX
    }
}

/// The mathematical content of a [`Transfer`].
pub struct TransferView {
    /// Which bytes were submitted and transferred.
    pub state: ExactView,
    /// How it waits.
    pub mode: Mode,
    /// What it is waiting for.
    pub phase: PhaseView,
}

impl TransferView {
    /// A transfer that was not run yet.
    pub open spec fn ready(state: ExactView, mode: Mode) -> TransferView {
        TransferView { state, mode, phase: PhaseView::Ready }
    }

    /// What every transfer keeps.
    pub open spec fn wf(self, driver: DriverView) -> bool {
        &&& self.state.wf()
        &&& match self.phase {
            PhaseView::Submit(submission) => {
                &&& driver.active.contains_key(submission.handle.0)
                &&& self.state.next_chunk(1) == Some(submission.chunk)
            },
            PhaseView::Cancel(cancel, _) => cancel.wf(driver) && !(cancel.step is Done),
            _ => true,
        }
    }

    /// The transfer in another phase.
    pub open spec fn at(self, phase: PhaseView) -> TransferView {
        TransferView { phase, ..self }
    }

    /// The transfer in another state.
    pub open spec fn with(self, state: ExactView) -> TransferView {
        TransferView { state, ..self }
    }

    /// The transfer as its cancellation goes on. When that is over the transfer
    /// has ended, without pending chunks if the cancellation succeeded.
    pub open spec fn cancelling(self, cancel: CancelView, outcome: Result<(), ErrorView>) -> TransferView {
        match cancel.step {
            CancelStepView::Done(Ok(())) => self.with(self.state.cleared()).at(PhaseView::Finished(outcome)),
            CancelStepView::Done(Err(_)) => self.at(PhaseView::Finished(outcome)),
            _ => self.at(PhaseView::Cancel(cancel, outcome)),
        }
    }

    /// Whether the transfer gives up: its operations are cancelled, and it ends
    /// with an outcome.
    pub open spec fn gives_up(
        self,
        driver: DriverView,
        outcome: Result<(), ErrorView>,
        after: TransferView,
        driver_after: DriverView,
    ) -> bool {
        exists|cancel: CancelView| #[trigger]
            cancel.started(self.state.pending.dom(), driver, driver_after) && after == self.cancelling(cancel, outcome)
    }

    /// Whether the transfer fails with an error.
    pub open spec fn fails(
        self,
        driver: DriverView,
        error: ErrorView,
        after: TransferView,
        driver_after: DriverView,
    ) -> bool {
        self.gives_up(driver, Err(error), after, driver_after)
    }

    /// Whether the transfer fails because of a completion.
    pub open spec fn fails_on_completion(
        self,
        driver: DriverView,
        after: TransferView,
        driver_after: DriverView,
    ) -> bool {
        exists|error: ErrorView, state: ExactView, driver_between: DriverView| #[trigger]
            self.state.stopped(driver, error, state, driver_between) && self.with(state).fails(
                driver_between,
                error,
                after,
                driver_after,
            )
    }

    /// Whether the transfer starts to wait for completions. A blocking one
    /// fails if it has nothing to wait for.
    pub open spec fn waits(self, driver: DriverView, after: TransferView, driver_after: DriverView) -> bool {
        match self.mode {
            Mode::Blocking(Some(_)) => after == self.at(PhaseView::Clock) && driver_after == driver,
            Mode::Blocking(None) => if driver.active.dom() == Set::<usize>::empty() {
                self.fails(driver, timed_out_error(), after, driver_after)
            } else {
                &&& after == self.at(PhaseView::Reap(ReapRequest { min_nr: 1, timeout: None }))
                &&& driver_after == driver
            },
            Mode::Polled => after == self.at(PhaseView::Collect(Stage::First, 0)) && driver_after == driver,
        }
    }

    /// Whether the transfer accounts for what has completed, and ends or starts
    /// to wait.
    pub open spec fn consumes_and_waits(
        self,
        driver: DriverView,
        after: TransferView,
        driver_after: DriverView,
    ) -> bool {
        if self.state.consumable(driver) {
            let state = self.state.consumed(driver);
            let driver = self.state.relieved(driver);
            if state.done() {
                after == self.with(state).at(PhaseView::Finished(Ok(()))) && driver_after == driver
            } else {
                self.with(state).waits(driver, after, driver_after)
            }
        } else {
            self.fails_on_completion(driver, after, driver_after)
        }
    }

    /// Whether the transfer submits its next chunk, or goes on if there is none
    /// that the kernel takes.
    pub open spec fn submits(self, driver: DriverView, after: TransferView, driver_after: DriverView) -> bool {
        match self.state.next_chunk(driver.slots()) {
            Some(chunk) => if chunk.len > u64::MAX {
                self.fails(driver, too_large_error(), after, driver_after)
            } else {
                let id = driver.next();
                &&& after == self.at(PhaseView::Submit(Submission { handle: OpHandle(id), chunk }))
                &&& driver_after == driver.launch(self.state.operation(driver, id, chunk))
                &&& !driver.active.contains_key(id)
            },
            None => self.consumes_and_waits(driver, after, driver_after),
        }
    }

    /// Whether the transfer accounts for what has completed, and ends or goes
    /// on to submit.
    pub open spec fn proceeds(self, driver: DriverView, after: TransferView, driver_after: DriverView) -> bool {
        if self.state.consumable(driver) {
            let state = self.state.consumed(driver);
            let driver = self.state.relieved(driver);
            if state.done() {
                after == self.with(state).at(PhaseView::Finished(Ok(()))) && driver_after == driver
            } else {
                self.with(state).submits(driver, after, driver_after)
            }
        } else {
            self.fails_on_completion(driver, after, driver_after)
        }
    }

    /// Whether the transfer goes on when the kernel has no more completion
    /// events. One that has seen none asks whether the eventfd can be read, and
    /// sleeps if it has seen none after that either.
    pub open spec fn collected(
        self,
        stage: Stage,
        total: usize,
        driver: DriverView,
        after: TransferView,
        driver_after: DriverView,
    ) -> bool {
        if stage == Stage::First && total == 0 {
            after == self.at(PhaseView::Register) && driver_after == driver
        } else if stage == Stage::AfterRegistration && total == 0 {
            after == self.at(PhaseView::Sleep) && driver_after == driver
        } else {
            self.proceeds(driver, after, driver_after)
        }
    }

    /// Whether a reply takes the transfer and the driver to others. A reply to
    /// something else changes nothing.
    pub open spec fn steps(
        self,
        driver: DriverView,
        reply: Reply,
        after: TransferView,
        driver_after: DriverView,
    ) -> bool {
        match (self.phase, reply) {
            (PhaseView::Ready, Reply::Begin) => match self.mode {
                Mode::Blocking(Some(timeout)) => {
                    after == self.at(PhaseView::Deadline(timeout)) && driver_after == driver
                },
                _ => self.proceeds(driver, after, driver_after),
            },
            (PhaseView::Deadline(_), Reply::Deadline(true)) => self.proceeds(driver, after, driver_after),
            (PhaseView::Deadline(_), Reply::Deadline(false)) => {
                after == self.at(PhaseView::Finished(Err(timeout_error()))) && driver_after == driver
            },
            (PhaseView::Submit(submission), Reply::Submitted(Ok(1))) => {
                self.with(self.state.submit(submission.handle.0, submission.chunk)).submits(
                    driver,
                    after,
                    driver_after,
                )
            },
            (PhaseView::Submit(submission), Reply::Submitted(Ok(_))) => {
                self.fails(driver.withdraw(submission.handle.0), not_accepted_error(), after, driver_after)
            },
            (PhaseView::Submit(submission), Reply::Submitted(Err(error))) => {
                self.fails(driver.withdraw(submission.handle.0), error@, after, driver_after)
            },
            (PhaseView::Clock, Reply::Remaining(left)) => {
                if left.spec_is_zero() || driver.active.dom() == Set::<usize>::empty() {
                    self.fails(driver, timed_out_error(), after, driver_after)
                } else if left.secs > i64::MAX {
                    self.fails(driver, timeout_error(), after, driver_after)
                } else {
                    let timespec = Timespec { tv_sec: left.secs as i64, tv_nsec: left.subsec_nanos as i64 };
                    &&& after == self.at(PhaseView::Reap(ReapRequest { min_nr: 1, timeout: Some(timespec) }))
                    &&& driver_after == driver
                }
            },
            (PhaseView::Reap(_), Reply::Reaped(Ok(count), batch)) => {
                &&& after == self.at(PhaseView::Drain(event_count(count) as usize))
                &&& driver_after == driver.reap(count, batch@)
            },
            (PhaseView::Reap(_), Reply::Reaped(Err(error), _)) => {
                self.fails(driver, error@, after, driver_after)
            },
            (PhaseView::Drain(reaped), Reply::Drained(Ok(()))) => if reaped == 0 {
                self.fails(driver, timed_out_error(), after, driver_after)
            } else {
                self.proceeds(driver, after, driver_after)
            },
            (PhaseView::Drain(_), Reply::Drained(Err(error))) => self.fails(driver, error@, after, driver_after),
            (PhaseView::Collect(stage, total), Reply::Reaped(Ok(count), batch)) => {
                let driver = driver.reap(count, batch@);
                if event_count(count) == 0 {
                    self.collected(stage, total, driver, after, driver_after)
                } else {
                    &&& after == self.at(PhaseView::Collect(stage, count_up(total, event_count(count))))
                    &&& driver_after == driver
                }
            },
            (PhaseView::Collect(_, _), Reply::Reaped(Err(error), _)) => {
                self.fails(driver, error@, after, driver_after)
            },
            (PhaseView::Register, Reply::Ready(Readiness::Failed(error))) => {
                self.fails(driver, error@, after, driver_after)
            },
            (PhaseView::Register, Reply::Ready(Readiness::Readable(Some(Err(error))))) => {
                self.fails(driver, error@, after, driver_after)
            },
            (PhaseView::Register, Reply::Ready(Readiness::Readable(_))) => {
                after == self.at(PhaseView::Collect(Stage::AfterRead, 0)) && driver_after == driver
            },
            (PhaseView::Register, Reply::Ready(Readiness::Pending)) => {
                after == self.at(PhaseView::Collect(Stage::AfterRegistration, 0)) && driver_after == driver
            },
            (PhaseView::Sleep, Reply::Begin) => self.proceeds(driver, after, driver_after),
            (PhaseView::Cancel(cancel, outcome), _) => {
                &&& after == self.cancelling(cancel.after(driver, reply).0, outcome)
                &&& driver_after == cancel.after(driver, reply).1
            },
            (PhaseView::Finished(_), Reply::Begin) => {
                &&& after == (if self.mode == Mode::Polled { self.at(PhaseView::Finished(Ok(()))) } else { self })
                &&& driver_after == driver
            },
            _ => after == self && driver_after == driver,
        }
    }
}

/// One exact transfer of a borrowed buffer.
#[derive(Debug)]
pub struct Transfer {
    state: ExactState,
    mode: Mode,
    phase: Phase,
}

impl View for Transfer {
    type V = TransferView;

    closed spec fn view(&self) -> TransferView {
        TransferView { state: self.state@, mode: self.mode, phase: self.phase@ }
    }
}

impl Transfer {
    /// A transfer that was not run yet.
    pub fn new(state: ExactState, mode: Mode) -> (transfer: Transfer)
        ensures
            transfer@ == TransferView::ready(state@, mode),
            transfer@.state == state@,
            transfer@.mode == mode,
            transfer@.phase is Ready,
    {
        Transfer { state, mode, phase: Phase::Ready }
    }

    /// What the transfer is waiting for.
    pub fn phase(&self) -> (phase: &Phase)
        ensures
            phase@ == self@.phase,
    {
        &self.phase
    }

    /// Takes in how the cancellation of the operations goes on.
    fn cancelling(&mut self, cancellation: Cancellation, outcome: Result<(), Error>)
        ensures
            final(self)@ == old(self)@.cancelling(cancellation@, outcome_view(outcome)),
            old(self)@.state.wf() ==> final(self)@.state.wf(),
    {
        match cancellation.step() {
            CancelStep::Done(Ok(())) => {
                self.state.clear_pending();
                self.phase = Phase::Finished(outcome);
            },
            CancelStep::Done(Err(_)) => {
                self.phase = Phase::Finished(outcome);
            },
            _ => {
                self.phase = Phase::Cancel(cancellation, outcome);
            },
        }
    }

    /// Cancels all operations of the transfer.
    fn cancel_blocking(&mut self, driver: &mut Driver, outcome: Result<(), Error>)
        requires
            old(self)@.state.wf(),
            old(driver).wf(),
        ensures
            final(driver).wf(),
            final(self)@.wf(final(driver)@),
            old(self)@.gives_up(old(driver)@, outcome_view(outcome), final(self)@, final(driver)@),
    {
        let ids = self.state.pending_ids();
        let cancellation = driver.cancel_and_reap(&ids);
        self.cancelling(cancellation, outcome);
    }

    /// Fails with an error.
    fn fail(&mut self, driver: &mut Driver, error: Error)
        requires
            old(self)@.state.wf(),
            old(driver).wf(),
        ensures
            final(driver).wf(),
            final(self)@.wf(final(driver)@),
            old(self)@.fails(old(driver)@, error@, final(self)@, final(driver)@),
    {
        self.cancel_blocking(driver, Err(error));
    }

    /// Fails because the time ran out.
    fn time_out(&mut self, driver: &mut Driver)
        requires
            old(self)@.state.wf(),
            old(driver).wf(),
        ensures
            final(driver).wf(),
            final(self)@.wf(final(driver)@),
            old(self)@.fails(old(driver)@, timed_out_error(), final(self)@, final(driver)@),
    {
        self.fail(driver, Error::new(ErrorKind::TimedOut, "timeout waiting for exact AIO transfer"));
    }

    /// Starts to wait for completions.
    fn wait(&mut self, driver: &mut Driver)
        requires
            old(self)@.state.wf(),
            old(driver).wf(),
        ensures
            final(driver).wf(),
            final(self)@.wf(final(driver)@),
            old(self)@.waits(old(driver)@, final(self)@, final(driver)@),
    {
        match self.mode {
            Mode::Blocking(Some(_)) => self.phase = Phase::Clock,
            Mode::Blocking(None) => match driver.reap_blocking() {
                Some(request) => self.phase = Phase::Reap(request),
                None => self.time_out(driver),
            },
            Mode::Polled => self.phase = Phase::Collect(Stage::First, 0),
        }
    }

    /// Accounts for what has completed, and ends or starts to wait.
    fn consume_and_wait(&mut self, driver: &mut Driver)
        requires
            old(self)@.state.wf(),
            old(driver).wf(),
        ensures
            final(driver).wf(),
            final(self)@.wf(final(driver)@),
            old(self)@.consumes_and_waits(old(driver)@, final(self)@, final(driver)@),
    {
        match self.state.consume_completed(driver) {
            Ok(()) => if self.state.is_done() {
                self.phase = Phase::Finished(Ok(()));
            } else {
                self.wait(driver);
            },
            Err(error) => self.fail(driver, error),
        }
    }

    /// Submits the next chunk, or goes on if there is none that the kernel
    /// takes.
    fn submit(&mut self, driver: &mut Driver)
        requires
            old(self)@.state.wf(),
            old(driver).wf(),
        ensures
            final(driver).wf(),
            final(self)@.wf(final(driver)@),
            old(self)@.submits(old(driver)@, final(self)@, final(driver)@),
    {
        match self.state.submit_available(driver) {
            Ok(Some(submission)) => self.phase = Phase::Submit(submission),
            Ok(None) => self.consume_and_wait(driver),
            Err(error) => self.fail(driver, error),
        }
    }

    /// Accounts for what has completed, and ends or goes on to submit.
    fn proceed(&mut self, driver: &mut Driver)
        requires
            old(self)@.state.wf(),
            old(driver).wf(),
        ensures
            final(driver).wf(),
            final(self)@.wf(final(driver)@),
            old(self)@.proceeds(old(driver)@, final(self)@, final(driver)@),
    {
        match self.state.consume_completed(driver) {
            Ok(()) => if self.state.is_done() {
                self.phase = Phase::Finished(Ok(()));
            } else {
                self.submit(driver);
            },
            Err(error) => self.fail(driver, error),
        }
    }

    /// Waits for completions for as long as time is left.
    fn wait_for(&mut self, driver: &mut Driver, left: Span)
        requires
            old(self)@.state.wf(),
            old(driver).wf(),
        ensures
            final(driver).wf(),
            final(self)@.wf(final(driver)@),
            old(self)@.at(PhaseView::Clock).steps(
                old(driver)@,
                Reply::Remaining(left),
                final(self)@,
                final(driver)@,
            ),
    {
        if left.is_zero() {
            self.time_out(driver);
            return;
        }
        match driver.reap_timeout(left) {
            Ok(Some(request)) => self.phase = Phase::Reap(request),
            Ok(None) => self.time_out(driver),
            Err(error) => self.fail(driver, error),
        }
    }

    /// Takes in the completion events that were there.
    fn collect(
        &mut self,
        driver: &mut Driver,
        stage: Stage,
        total: usize,
        answer: Result<i64, Error>,
        batch: Vec<IoEvent>,
    )
        requires
            old(self)@.state.wf(),
            old(driver).wf(),
        ensures
            final(driver).wf(),
            final(self)@.wf(final(driver)@),
            old(self)@.at(PhaseView::Collect(stage, total)).steps(
                old(driver)@,
                Reply::Reaped(answer, batch),
                final(self)@,
                final(driver)@,
            ),
    {
        match driver.reap_with_min(answer, &batch) {
            Ok(0) => if stage == Stage::First && total == 0 {
                self.phase = Phase::Register;
            } else if stage == Stage::AfterRegistration && total == 0 {
                self.phase = Phase::Sleep;
            } else {
                self.proceed(driver);
            },
            Ok(n) => self.phase = Phase::Collect(stage, total.saturating_add(n)),
            Err(error) => self.fail(driver, error),
        }
    }

    /// Takes in whether the eventfd can be read.
    fn registered(&mut self, driver: &mut Driver, readiness: Readiness)
        requires
            old(self)@.state.wf(),
            old(driver).wf(),
        ensures
            final(driver).wf(),
            final(self)@.wf(final(driver)@),
            old(self)@.at(PhaseView::Register).steps(
                old(driver)@,
                Reply::Ready(readiness),
                final(self)@,
                final(driver)@,
            ),
    {
        match readiness {
            Readiness::Failed(error) => self.fail(driver, error),
            Readiness::Readable(Some(Err(error))) => self.fail(driver, error),
            Readiness::Readable(_) => self.phase = Phase::Collect(Stage::AfterRead, 0),
            Readiness::Pending => self.phase = Phase::Collect(Stage::AfterRegistration, 0),
        }
    }

    /// Takes in the kernel's answer to a submission.
    fn submitted(&mut self, driver: &mut Driver, submission: Submission, answer: Result<i64, Error>)
        requires
            old(driver).wf(),
            old(self)@.at(PhaseView::Submit(submission)).wf(old(driver)@),
        ensures
            final(driver).wf(),
            final(self)@.wf(final(driver)@),
            old(self)@.at(PhaseView::Submit(submission)).steps(
                old(driver)@,
                Reply::Submitted(answer),
                final(self)@,
                final(driver)@,
            ),
    {
        match driver.submit_reply(submission.handle, answer) {
            Ok(_) => {
                self.state.submit_accepted(submission);
                self.submit(driver);
            },
            Err(error) => self.fail(driver, error),
        }
    }

    /// Takes in a reply. A reply to something else changes nothing.
    pub fn resume(&mut self, driver: &mut Driver, reply: Reply)
        requires
            old(driver).wf(),
            old(self)@.wf(old(driver)@),
        ensures
            final(driver).wf(),
            final(self)@.wf(final(driver)@),
            old(self)@.steps(old(driver)@, reply, final(self)@, final(driver)@),
    {
        let mut phase = Phase::Ready;
        std::mem::swap(&mut phase, &mut self.phase);
        match (phase, reply) {
            (Phase::Ready, Reply::Begin) => match self.mode {
                Mode::Blocking(Some(timeout)) => self.phase = Phase::Deadline(timeout),
                _ => self.proceed(driver),
            },
            (Phase::Deadline(_), Reply::Deadline(fits)) => if fits {
                self.proceed(driver);
            } else {
                self.phase = Phase::Finished(Err(Error::new(ErrorKind::InvalidInput, "timeout too large")));
            },
            (Phase::Submit(submission), Reply::Submitted(answer)) => self.submitted(driver, submission, answer),
            (Phase::Clock, Reply::Remaining(left)) => self.wait_for(driver, left),
            (Phase::Reap(_), Reply::Reaped(answer, batch)) => match driver.reap_with_min(answer, &batch) {
                Ok(n) => self.phase = Phase::Drain(n),
                Err(error) => self.fail(driver, error),
            },
            (Phase::Drain(reaped), Reply::Drained(drained)) => match drained {
                Ok(()) => if reaped == 0 {
                    self.time_out(driver);
                } else {
                    self.proceed(driver);
                },
                Err(error) => self.fail(driver, error),
            },
            (Phase::Collect(stage, total), Reply::Reaped(answer, batch)) => {
                self.collect(driver, stage, total, answer, batch);
            },
            (Phase::Register, Reply::Ready(readiness)) => self.registered(driver, readiness),
            (Phase::Sleep, Reply::Begin) => self.proceed(driver),
            (Phase::Cancel(cancellation, outcome), reply) => {
                let mut cancellation = cancellation;
                cancellation.resume(driver, reply);
                self.cancelling(cancellation, outcome);
            },
            (Phase::Finished(outcome), Reply::Begin) => {
                self.phase = Phase::Finished(if self.mode == Mode::Polled { Ok(()) } else { outcome });
            },
            (phase, _) => self.phase = phase,
        }
    }

    /// Gives up a transfer that has not begun or sleeps: its operations are
    /// cancelled. In any other phase nothing changes.
    pub fn abandon(&mut self, driver: &mut Driver)
        requires
            old(driver).wf(),
            old(self)@.wf(old(driver)@),
        ensures
            final(driver).wf(),
            final(self)@.wf(final(driver)@),
            if old(self)@.phase is Ready || old(self)@.phase is Sleep {
                &&& old(self)@.gives_up(old(driver)@, Ok(()), final(self)@, final(driver)@)
                &&& quits(old(self)@, old(driver)@, Ok(()), final(self)@, final(driver)@)
            } else {
                final(self)@ == old(self)@ && final(driver)@ == old(driver)@
            },
    {
        match self.phase {
            Phase::Ready | Phase::Sleep => {
                self.cancel_blocking(driver, Ok(()));
                proof {
                    law_gives_up(old(self)@, old(driver)@, Ok(()), self@, driver@);
                }
            },
            _ => {},
        }
    }
}

} // verus!
