//! Reads and writes that a driver carries out.

use vstd::prelude::*;

use crate::driver::Driver;
use crate::exact::{ExactState, ExactView, TransferKind};
use crate::laws::cancelling::quits;
use crate::laws::exactness::law_progress;
use crate::reply::Reply;
use crate::request::Span;
use crate::transfer::{Mode, Phase, Transfer, TransferView};

verus! {

/// Whether a transfer is about a buffer: all of it, in a direction and between
/// it and a file, in chunks of a size or of one byte if the size is zero.
pub open spec fn concerns(
    s: ExactView,
    kind: TransferKind,
    fd: i32,
    ptr: usize,
    len: usize,
    chunk_size: usize,
) -> bool {
    &&& s.kind == kind
    &&& s.fd == fd
    &&& s.ptr == ptr
    &&& s.total_len == len
    &&& s.chunk_size == if chunk_size == 0 {
        1
    } else {
        chunk_size as int
    }
}

impl Driver {
    /// Begins a blocking exact read into a borrowed buffer.
    pub fn read_exact(
        &mut self,
        fd: i32,
        ptr: usize,
        len: usize,
        chunk_size: usize,
        timeout: Option<Span>,
    ) -> (transfer: Transfer)
        requires
            old(self).wf(),
            ptr + len <= usize::MAX,
        ensures
            final(self).wf(),
            transfer@.wf(final(self)@),
            TransferView::ready(
                ExactView::start(TransferKind::Read, fd, ptr, len as int, chunk_size as int),
                Mode::Blocking(timeout),
            ).steps(old(self)@, Reply::Begin, transfer@, final(self)@),
            transfer@.mode == Mode::Blocking(timeout),
            concerns(transfer@.state, TransferKind::Read, fd, ptr, len, chunk_size),
    {
        let state = ExactState::new(TransferKind::Read, fd, ptr, len, chunk_size);
        let mut transfer = Transfer::new(state, Mode::Blocking(timeout));
        let ghost before = transfer@;
        transfer.resume(self, Reply::Begin);
        proof {
            law_progress(before, old(self)@, Reply::Begin, transfer@, self@);
        }
        transfer
    }

    /// Begins a blocking exact write from a borrowed buffer.
    pub fn write_all(
        &mut self,
        fd: i32,
        ptr: usize,
        len: usize,
        chunk_size: usize,
        timeout: Option<Span>,
    ) -> (transfer: Transfer)
        requires
            old(self).wf(),
            ptr + len <= usize::MAX,
        ensures
            final(self).wf(),
            transfer@.wf(final(self)@),
            TransferView::ready(
                ExactView::start(TransferKind::Write, fd, ptr, len as int, chunk_size as int),
                Mode::Blocking(timeout),
            ).steps(old(self)@, Reply::Begin, transfer@, final(self)@),
            transfer@.mode == Mode::Blocking(timeout),
            concerns(transfer@.state, TransferKind::Write, fd, ptr, len, chunk_size),
    {
        let state = ExactState::new(TransferKind::Write, fd, ptr, len, chunk_size);
        let mut transfer = Transfer::new(state, Mode::Blocking(timeout));
        let ghost before = transfer@;
        transfer.resume(self, Reply::Begin);
        proof {
            law_progress(before, old(self)@, Reply::Begin, transfer@, self@);
        }
        transfer
    }

    /// Creates an exact read that is polled.
    pub fn read_exact_async(&self, fd: i32, ptr: usize, len: usize, chunk_size: usize) -> (read: ReadExact)
        requires
            ptr + len <= usize::MAX,
        ensures
            read@ == TransferView::ready(
                ExactView::start(TransferKind::Read, fd, ptr, len as int, chunk_size as int),
                Mode::Polled,
            ),
            read@.wf(self@),
            read@.phase is Ready,
            read@.mode == Mode::Polled,
            concerns(read@.state, TransferKind::Read, fd, ptr, len, chunk_size),
            forall|id: usize| !#[trigger] read@.state.pending.contains_key(id),
    {
        ReadExact::new(ExactState::new(TransferKind::Read, fd, ptr, len, chunk_size))
    }

    /// Creates an exact write that is polled.
    pub fn write_all_async(&self, fd: i32, ptr: usize, len: usize, chunk_size: usize) -> (write: WriteAll)
        requires
            ptr + len <= usize::MAX,
        ensures
            write@ == TransferView::ready(
                ExactView::start(TransferKind::Write, fd, ptr, len as int, chunk_size as int),
                Mode::Polled,
            ),
            write@.wf(self@),
            write@.phase is Ready,
            write@.mode == Mode::Polled,
            concerns(write@.state, TransferKind::Write, fd, ptr, len, chunk_size),
            forall|id: usize| !#[trigger] write@.state.pending.contains_key(id),
    {
        WriteAll::new(ExactState::new(TransferKind::Write, fd, ptr, len, chunk_size))
    }
}

/// Exact read that is polled.
#[derive(Debug)]
pub struct ReadExact {
    transfer: Transfer,
}

impl View for ReadExact {
    type V = TransferView;

    closed spec fn view(&self) -> TransferView {
        self.transfer@
    }
}

impl ReadExact {
    /// A read that was not polled yet.
    pub fn new(state: ExactState) -> (read: ReadExact)
        ensures
            read@ == TransferView::ready(state@, Mode::Polled),
            read@.state == state@,
            read@.mode == Mode::Polled,
            read@.phase is Ready,
    {
        ReadExact { transfer: Transfer::new(state, Mode::Polled) }
    }

    /// What the read is waiting for.
    pub fn phase(&self) -> (phase: &Phase)
        ensures
            phase@ == self@.phase,
    {
        self.transfer.phase()
    }

    /// Takes in a reply, [`Reply::Begin`] first whenever the read is polled.
    pub fn poll(&mut self, driver: &mut Driver, reply: Reply)
        requires
            old(driver).wf(),
            old(self)@.wf(old(driver)@),
        ensures
            final(driver).wf(),
            final(self)@.wf(final(driver)@),
            old(self)@.steps(old(driver)@, reply, final(self)@, final(driver)@),
    {
        self.transfer.resume(driver, reply);
    }

    /// Cancels the operations of a read that was not polled to its end.
    pub fn abandon(&mut self, driver: &mut Driver)
        requires
            old(driver).wf(),
            old(self)@.wf(old(driver)@),
        ensures
            final(driver).wf(),
            final(self)@.wf(final(driver)@),
            if old(self)@.phase is Ready || old(self)@.phase is Sleep {
                &&& old(self)@.gives_up(old(driver)@, Ok(()), final(self)@, final(driver)@)
                &&& quits(old(self)@, old(driver)@, Ok(()), final(self)@, final(driver)@)
            } else {
                final(self)@ == old(self)@ && final(driver)@ == old(driver)@
            },
    {
        self.transfer.abandon(driver);
    }
}

/// Exact write that is polled.
#[derive(Debug)]
pub struct WriteAll {
    transfer: Transfer,
}

impl View for WriteAll {
    type V = TransferView;

    closed spec fn view(&self) -> TransferView {
        self.transfer@
    }
}

impl WriteAll {
    /// A write that was not polled yet.
    pub fn new(state: ExactState) -> (write: WriteAll)
        ensures
            write@ == TransferView::ready(state@, Mode::Polled),
            write@.state == state@,
            write@.mode == Mode::Polled,
            write@.phase is Ready,
    {
        WriteAll { transfer: Transfer::new(state, Mode::Polled) }
    }

    /// What the write is waiting for.
    pub fn phase(&self) -> (phase: &Phase)
        ensures
            phase@ == self@.phase,
    {
        self.transfer.phase()
    }

    /// Takes in a reply, [`Reply::Begin`] first whenever the write is polled.
    pub fn poll(&mut self, driver: &mut Driver, reply: Reply)
        requires
            old(driver).wf(),
            old(self)@.wf(old(driver)@),
        ensures
            final(driver).wf(),
            final(self)@.wf(final(driver)@),
            old(self)@.steps(old(driver)@, reply, final(self)@, final(driver)@),
    {
        self.transfer.resume(driver, reply);
    }

    /// Cancels the operations of a write that was not polled to its end.
    pub fn abandon(&mut self, driver: &mut Driver)
        requires
            old(driver).wf(),
            old(self)@.wf(old(driver)@),
        ensures
            final(driver).wf(),
            final(self)@.wf(final(driver)@),
            if old(self)@.phase is Ready || old(self)@.phase is Sleep {
                &&& old(self)@.gives_up(old(driver)@, Ok(()), final(self)@, final(driver)@)
                &&& quits(old(self)@, old(driver)@, Ok(()), final(self)@, final(driver)@)
            } else {
                final(self)@ == old(self)@ && final(driver)@ == old(driver)@
            },
    {
        self.transfer.abandon(driver);
    }
}

} // verus!
