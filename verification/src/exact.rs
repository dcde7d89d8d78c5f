//! State of one exact transfer.

use std::collections::HashMap;
use vstd::prelude::*;
use vstd::std_specs::iter::IteratorSpec;
use vstd::string::StringExecFns;

use crate::driver::{op_result, CompletedOp, Driver, DriverView, OpHandle};
use crate::error::{append_decimal, decimal, Error, ErrorKind, ErrorView};
use crate::ids::map_keys;
use crate::laws::chunks::{
    accounts, all_end_well, all_over, breaks_off, comes_next, law_accounting, law_breaking_off, law_done,
    law_next_chunk, short_by, unsubmitted,
};
use crate::opcode::{PREAD, PWRITE};
use crate::request::InFlight;
use crate::sums::{
    lemma_sum_empty, lemma_sum_insert, lemma_sum_nonnegative, lemma_sum_remove, lemma_sum_same, sum,
};

verus! {

broadcast use vstd::std_specs::hash::group_hash_axioms;

/// Direction of a transfer.
#[derive(Debug, Clone, Copy, PartialEq, Eq, Structural)]
pub enum TransferKind {
    /// From the file into the buffer.
    Read,
    /// From the buffer to the file.
    Write,
}

/// The operation code of a direction.
pub open spec fn opcode_of(kind: TransferKind) -> u16 {
    match kind {
        TransferKind::Read => PREAD,
        TransferKind::Write => PWRITE,
    }
}

/// The error of an operation that transferred another number of bytes than
/// it was to transfer.
pub open spec fn short_error_of(kind: TransferKind, expected: int, actual: int) -> ErrorView {
    match kind {
        TransferKind::Read => ErrorView::Message {
            kind: ErrorKind::UnexpectedEof,
            message: "short AIO read: expected "@ + decimal(expected as nat) + " bytes, received "@ + decimal(
                actual as nat,
            ),
        },
        TransferKind::Write => ErrorView::Message {
            kind: ErrorKind::WriteZero,
            message: "short AIO write: expected "@ + decimal(expected as nat) + " bytes, wrote "@ + decimal(
                actual as nat,
            ),
        },
    }
}

impl TransferKind {
    /// The operation code of the direction.
    pub fn opcode(self) -> (code: u16)
        ensures
            code == opcode_of(self),
            code == if self is Read {
                0u16
            } else {
                1u16
            },
    {
        match self {
            TransferKind::Read => PREAD,
            TransferKind::Write => PWRITE,
        }
    }

    /// The error of an operation that transferred another number of bytes than
    /// it was to transfer.
    pub fn short_error(self, expected: usize, actual: usize) -> (error: Error)
        ensures
            error@ == short_error_of(self, expected as int, actual as int),
            short_by(self, expected as nat, actual as nat, error@),
    {
        match self {
            TransferKind::Read => {
                let mut message = "short AIO read: expected ".to_owned();
                append_decimal(&mut message, expected);
                message.append(" bytes, received ");
                append_decimal(&mut message, actual);
                Error::Message { kind: ErrorKind::UnexpectedEof, message }
            },
            TransferKind::Write => {
                let mut message = "short AIO write: expected ".to_owned();
                append_decimal(&mut message, expected);
                message.append(" bytes, wrote ");
                append_decimal(&mut message, actual);
                Error::Message { kind: ErrorKind::WriteZero, message }
            },
        }
    }
}

/// Part of the buffer that one operation transfers.
#[derive(Debug, Clone, Copy, PartialEq, Eq, Structural)]
pub struct PendingChunk {
    /// Where it starts in the buffer.
    pub offset: usize,
    /// How many bytes it has.
    pub len: usize,
}

/// The lengths of chunks, by operation number.
pub open spec fn lens(chunks: Map<usize, PendingChunk>) -> spec_fn(usize) -> int {
    |id: usize| chunks[id].len as int
}

/// The mathematical content of an [`ExactState`].
#[verifier::ext_equal]
pub struct ExactView {
    /// Direction of the transfer.
    pub kind: TransferKind,
    /// File descriptor.
    pub fd: i32,
    /// Address of the buffer.
    pub ptr: usize,
    /// Length of the buffer.
    pub total_len: int,
    /// Most bytes that one operation transfers.
    pub chunk_size: int,
    /// Where the first chunk that was not submitted yet starts.
    pub submitted: int,
    /// Bytes transferred.
    pub completed: int,
    /// Whether the operation of an empty write was submitted.
    pub submitted_zero: bool,
    /// Chunks submitted and not accounted for yet, by operation number.
    pub pending: Map<usize, PendingChunk>,
}

impl ExactView {
    /// A transfer of which nothing was submitted yet.
    pub open spec fn start(kind: TransferKind, fd: i32, ptr: usize, total_len: int, chunk_size: int) -> ExactView {
        ExactView {
            kind,
            fd,
            ptr,
            total_len,
            chunk_size: if chunk_size >= 1 { chunk_size } else { 1 },
            submitted: 0,
            completed: 0,
            submitted_zero: false,
            pending: Map::empty(),
        }
    }

    /// Bytes in the chunks that are not accounted for yet.
    pub open spec fn pending_bytes(self) -> int {
        sum(self.pending.dom(), lens(self.pending))
    }

    /// The pending chunks are disjoint parts of the submitted part of the
    /// buffer, and what was transferred fits in beside them. The numbers fit
    /// into their types.
    pub open spec fn wf(self) -> bool {
        &&& self.ptr + self.total_len <= usize::MAX
        &&& 1 <= self.chunk_size <= usize::MAX
        &&& self.pending.dom().finite()
        &&& 0 <= self.completed
        &&& self.completed + self.pending_bytes() <= self.submitted <= self.total_len
        &&& self.submitted_zero ==> self.kind == TransferKind::Write && self.total_len == 0
        &&& self.laid_out()
    }

    /// Whether the pending chunks are disjoint parts of the submitted part of
    /// the buffer. None of them is empty but that of an empty write.
    pub open spec fn laid_out(self) -> bool {
        &&& forall|id: usize| #[trigger]
            self.pending.contains_key(id) ==> {
                &&& self.pending[id].offset + self.pending[id].len <= self.submitted
                &&& self.pending[id].len >= 1 || self.submitted_zero
            }
        &&& forall|i: usize, j: usize|
            #![trigger self.pending.contains_key(i), self.pending.contains_key(j)]
            self.pending.contains_key(i) && self.pending.contains_key(j) && i != j ==> {
                ||| self.pending[i].offset + self.pending[i].len <= self.pending[j].offset
                ||| self.pending[j].offset + self.pending[j].len <= self.pending[i].offset
            }
    }

    /// Whether every submitted byte is transferred or pending.
    pub open spec fn accounted(self) -> bool {
        self.completed + self.pending_bytes() == self.submitted
    }

    /// Whether the transfer is complete. An empty write is when its one
    /// operation of no bytes was submitted and has completed.
    pub open spec fn done(self) -> bool {
        &&& self.pending.dom() == Set::<usize>::empty()
        &&& if self.kind == TransferKind::Write && self.total_len == 0 {
            self.submitted_zero
        } else {
            self.completed == self.total_len
        }
    }

    /// The next chunk to submit, if the kernel takes it and there is one.
    pub open spec fn next_chunk(self, slots: int) -> Option<PendingChunk> {
        if slots <= 0 {
            None
        } else if self.kind == TransferKind::Write && self.total_len == 0 && !self.submitted_zero {
            Some(PendingChunk { offset: 0, len: 0 })
        } else if self.submitted < self.total_len {
            let rest = self.total_len - self.submitted;
            Some(
                PendingChunk {
                    offset: self.submitted as usize,
                    len: (if rest <= self.chunk_size { rest } else { self.chunk_size }) as usize,
                },
            )
        } else {
            None
        }
    }

    /// The operation that transfers a chunk, under a number of a driver.
    pub open spec fn operation(self, driver: DriverView, id: usize, chunk: PendingChunk) -> InFlight {
        InFlight {
            iocb: driver.control_block(
                id,
                opcode_of(self.kind),
                self.fd,
                (self.ptr + chunk.offset) as usize,
                chunk.len,
            ),
        }
    }

    /// The transfer after the kernel has accepted a chunk.
    pub open spec fn submit(self, id: usize, chunk: PendingChunk) -> ExactView {
        ExactView {
            submitted: self.submitted + chunk.len,
            submitted_zero: self.submitted_zero || chunk.len == 0,
            pending: self.pending.insert(id, chunk),
            ..self
        }
    }

    /// Whether a chunk may end with a number of bytes: all of them, or, in a
    /// read, some of them if nothing was submitted behind the chunk, so that
    /// the rest can follow.
    pub open spec fn accepts(self, chunk: PendingChunk, actual: int) -> bool {
        ||| actual == chunk.len
        ||| {
            &&& self.kind == TransferKind::Read
            &&& 0 < actual < chunk.len
            &&& chunk.offset + chunk.len == self.submitted
        }
    }

    /// What a kernel result means for a chunk.
    pub open spec fn verdict(self, chunk: PendingChunk, res: i64) -> Result<int, ErrorView> {
        match op_result(res) {
            Ok(actual) => if self.accepts(chunk, actual) {
                Ok(actual)
            } else {
                Err(short_error_of(self.kind, chunk.len as int, actual))
            },
            Err(error) => Err(error),
        }
    }

    /// What the completion of a pending chunk means.
    pub open spec fn outcome(self, completed: Map<usize, CompletedOp>, id: usize) -> Result<int, ErrorView> {
        self.verdict(self.pending[id], completed[id].res)
    }

    /// The bytes that completions transferred, by operation number.
    pub open spec fn amounts(self, completed: Map<usize, CompletedOp>) -> spec_fn(usize) -> int {
        |id: usize| self.outcome(completed, id)->Ok_0
    }

    /// The pending chunks that have completed.
    pub open spec fn ready(self, completed: Map<usize, CompletedOp>) -> Set<usize> {
        self.pending.dom().intersect(completed.dom())
    }

    /// Whether chunks of a set ended as they may.
    pub open spec fn all_good(self, completed: Map<usize, CompletedOp>, ids: Set<usize>) -> bool {
        forall|id: usize| #[trigger] ids.contains(id) ==> self.outcome(completed, id) is Ok
    }

    /// The transfer after chunks of a set were accounted for: the bytes they
    /// transferred count, and those that they missed are to be submitted again.
    pub open spec fn credit(self, completed: Map<usize, CompletedOp>, ids: Set<usize>) -> ExactView {
        let received = sum(ids, self.amounts(completed));
        ExactView {
            completed: self.completed + received,
            submitted: self.submitted - (sum(ids, lens(self.pending)) - received),
            pending: self.pending.remove_keys(ids),
            ..self
        }
    }

    /// The transfer without a pending chunk.
    pub open spec fn abandon(self, id: usize) -> ExactView {
        ExactView { pending: self.pending.remove(id), ..self }
    }

    /// The transfer without any pending chunk.
    pub open spec fn cleared(self) -> ExactView {
        ExactView { pending: Map::empty(), ..self }
    }

    /// Whether all completed chunks are good.
    pub open spec fn consumable(self, driver: DriverView) -> bool {
        self.all_good(driver.completed, self.ready(driver.completed))
    }

    /// The transfer after all completed chunks were accounted for.
    pub open spec fn consumed(self, driver: DriverView) -> ExactView {
        self.credit(driver.completed, self.ready(driver.completed))
    }

    /// The driver after all completed chunks were accounted for.
    pub open spec fn relieved(self, driver: DriverView) -> DriverView {
        driver.forget(self.ready(driver.completed))
    }

    /// Whether accounting for completed chunks stopped at a bad one: some good
    /// ones were accounted for before, in no particular order, and the bad one
    /// is gone.
    pub open spec fn stopped(
        self,
        driver: DriverView,
        error: ErrorView,
        after: ExactView,
        driver_after: DriverView,
    ) -> bool {
        exists|taken: Set<usize>, bad: usize|
            self.stopped_at(driver, error, after, driver_after, taken, bad)
    }

    /// The same, for the chunks that were accounted for and the bad one.
    pub open spec fn stopped_at(
        self,
        driver: DriverView,
        error: ErrorView,
        after: ExactView,
        driver_after: DriverView,
        taken: Set<usize>,
        bad: usize,
    ) -> bool {
        &&& taken.subset_of(self.ready(driver.completed))
        &&& self.all_good(driver.completed, taken)
        &&& self.ready(driver.completed).contains(bad)
        &&& !taken.contains(bad)
        &&& self.outcome(driver.completed, bad) == Err::<int, ErrorView>(error)
        &&& after == self.credit(driver.completed, taken).abandon(bad)
        &&& driver_after == driver.forget(taken.insert(bad))
    }
}

/// Crediting one more chunk changes the transfer by that chunk alone.
pub proof fn lemma_credit_step(s: ExactView, completed: Map<usize, CompletedOp>, taken: Set<usize>, id: usize)
    requires
        taken.finite(),
        !taken.contains(id),
        s.pending.contains_key(id),
    ensures
        ({
            let before = s.credit(completed, taken);
            let amount = s.amounts(completed)(id);
            s.credit(completed, taken.insert(id)) == (ExactView {
                completed: before.completed + amount,
                submitted: before.submitted - (s.pending[id].len - amount),
                pending: before.pending.remove(id),
                ..before
            })
        }),
{
    lemma_sum_insert(taken, s.amounts(completed), id);
    lemma_sum_insert(taken, lens(s.pending), id);
    assert(s.pending.remove_keys(taken.insert(id)) =~= s.pending.remove_keys(taken).remove(id));
}

/// Taking a chunk out of a map of chunks takes its bytes out of their sum.
pub proof fn lemma_bytes_remove(chunks: Map<usize, PendingChunk>, id: usize)
    requires
        chunks.dom().finite(),
        chunks.contains_key(id),
    ensures
        chunks.remove(id).dom().finite(),
        sum(chunks.dom(), lens(chunks)) == chunks[id].len + sum(chunks.remove(id).dom(), lens(chunks.remove(id))),
{
    let rest = chunks.remove(id);
    assert(rest.dom() == chunks.dom().remove(id));
    lemma_sum_remove(chunks.dom(), lens(chunks), id);
    assert forall|k: usize| #[trigger] rest.dom().contains(k) implies lens(chunks)(k) == lens(rest)(k) by {}
    lemma_sum_same(rest.dom(), lens(chunks), lens(rest));
}

/// Adding a chunk under a new number adds its bytes, under a number in use at
/// most its bytes.
pub proof fn lemma_bytes_insert(chunks: Map<usize, PendingChunk>, id: usize, chunk: PendingChunk)
    requires
        chunks.dom().finite(),
    ensures
        chunks.insert(id, chunk).dom().finite(),
        sum(chunks.insert(id, chunk).dom(), lens(chunks.insert(id, chunk))) <= chunk.len + sum(
            chunks.dom(),
            lens(chunks),
        ),
        !chunks.contains_key(id) ==> sum(chunks.insert(id, chunk).dom(), lens(chunks.insert(id, chunk))) == chunk.len
            + sum(chunks.dom(), lens(chunks)),
{
    let more = chunks.insert(id, chunk);
    lemma_bytes_remove(more, id);
    if chunks.contains_key(id) {
        lemma_bytes_remove(chunks, id);
        assert(more.remove(id) =~= chunks.remove(id));
    } else {
        assert(more.remove(id) =~= chunks);
    }
}

/// Chunks have no negative number of bytes.
pub proof fn lemma_bytes_nonnegative(chunks: Map<usize, PendingChunk>)
    requires
        chunks.dom().finite(),
    ensures
        sum(chunks.dom(), lens(chunks)) >= 0,
{
    lemma_sum_nonnegative(chunks.dom(), lens(chunks));
}

/// Pending chunks stay disjoint parts of the submitted part of the buffer when
/// one is taken out, or put in where the submitted part has ended.
proof fn lemma_laid_out(s: ExactView, after: ExactView, id: usize)
    requires
        s.laid_out(),
        s.submitted_zero ==> after.submitted_zero,
        forall|k: usize| #[trigger]
            after.pending.contains_key(k) ==> after.pending[k].offset + after.pending[k].len <= after.submitted,
        forall|k: usize| #[trigger]
            after.pending.contains_key(k) && k != id ==> s.pending.contains_key(k) && s.pending[k] == after.pending[k],
        after.pending.contains_key(id) ==> after.pending[id].offset == s.submitted && (after.pending[id].len >= 1
            || after.submitted_zero),
    ensures
        after.laid_out(),
{
    assert forall|k: usize| #[trigger] after.pending.contains_key(k) implies after.pending[k].len >= 1
        || after.submitted_zero by {
        assert(k == id || s.pending.contains_key(k));
    }
    assert forall|i: usize, j: usize|
        #![trigger after.pending.contains_key(i), after.pending.contains_key(j)]
        after.pending.contains_key(i) && after.pending.contains_key(j) && i != j implies {
        ||| after.pending[i].offset + after.pending[i].len <= after.pending[j].offset
        ||| after.pending[j].offset + after.pending[j].len <= after.pending[i].offset
    } by {
        assert(i == id || s.pending.contains_key(i));
        assert(j == id || s.pending.contains_key(j));
    }
}

/// Crediting good chunks keeps the invariant and the account, and which
/// pending chunk is the last one submitted.
pub proof fn lemma_credit(s: ExactView, completed: Map<usize, CompletedOp>, taken: Set<usize>)
    requires
        s.wf(),
        taken.finite(),
        taken.subset_of(s.ready(completed)),
        s.all_good(completed, taken),
    ensures
        ({
            let after = s.credit(completed, taken);
            &&& after.wf()
            &&& after.submitted - after.completed - after.pending_bytes() == s.submitted - s.completed
                - s.pending_bytes()
            &&& forall|id: usize| #[trigger]
                after.pending.contains_key(id) ==> (after.pending[id].offset + after.pending[id].len == after.submitted
                    <==> after.pending[id].offset + after.pending[id].len == s.submitted)
        }),
    decreases taken.len(),
{
    let after = s.credit(completed, taken);
    if taken.len() == 0 {
        assert(taken =~= Set::empty());
        lemma_sum_empty(s.amounts(completed));
        lemma_sum_empty(lens(s.pending));
        assert(after.pending =~= s.pending);
        assert(after == s);
    } else {
        let id = taken.choose();
        let rest = taken.remove(id);
        assert(taken.contains(id));
        assert(s.outcome(completed, id) is Ok);
        assert(s.ready(completed).contains(id));
        assert(rest.insert(id) =~= taken);
        assert forall|k: usize| #[trigger] rest.contains(k) implies s.outcome(completed, k) is Ok by {
            assert(taken.contains(k));
        }
        lemma_credit(s, completed, rest);
        let before = s.credit(completed, rest);
        lemma_credit_step(s, completed, rest, id);
        let amount = s.amounts(completed)(id);
        let chunk = s.pending[id];
        assert(before.pending.contains_key(id) && before.pending[id] == chunk);
        assert(s.accepts(chunk, amount));
        lemma_bytes_remove(before.pending, id);
        lemma_bytes_nonnegative(after.pending);
        assert forall|k: usize| #[trigger] after.pending.contains_key(k) implies {
            &&& after.pending[k].offset + after.pending[k].len <= after.submitted
            &&& (after.pending[k].offset + after.pending[k].len == after.submitted <==> after.pending[k].offset
                + after.pending[k].len == s.submitted)
        } by {
            assert(before.pending.contains_key(k) && before.pending[k] == after.pending[k]);
            assert(before.pending.contains_key(id));
        }
        lemma_laid_out(before, after, id);
    }
}

/// A chunk that is next keeps the invariant when it is submitted, and the
/// account if its number is new.
pub proof fn lemma_submit(s: ExactView, slots: int, id: usize)
    requires
        s.wf(),
        s.next_chunk(slots) is Some,
    ensures
        ({
            let chunk = s.next_chunk(slots)->Some_0;
            let after = s.submit(id, chunk);
            &&& after.wf()
            &&& chunk.offset == s.submitted
            &&& s.submitted + chunk.len <= s.total_len
            &&& s.accounted() && !s.pending.contains_key(id) ==> after.accounted()
        }),
{
    let chunk = s.next_chunk(slots)->Some_0;
    let after = s.submit(id, chunk);
    lemma_bytes_insert(s.pending, id, chunk);
    lemma_bytes_nonnegative(s.pending);
    lemma_laid_out(s, after, id);
}

/// A transfer keeps its invariant without one of its pending chunks.
pub proof fn lemma_abandon(s: ExactView, id: usize)
    requires
        s.wf(),
        s.pending.contains_key(id),
    ensures
        s.abandon(id).wf(),
{
    let after = s.abandon(id);
    lemma_bytes_remove(s.pending, id);
    lemma_laid_out(s, after, id);
}

/// A transfer keeps its invariant without its pending chunks.
pub proof fn lemma_cleared(s: ExactView)
    ensures
        s.wf() ==> s.cleared().wf(),
{
    if s.wf() {
        lemma_bytes_nonnegative(s.pending);
        assert(s.cleared().pending.dom() =~= Set::empty());
        lemma_sum_empty(lens(s.cleared().pending));
    }
}

/// Accounting for completions changes nothing if no pending chunk has completed.
pub proof fn lemma_none_ready(s: ExactView, d: DriverView)
    requires
        s.ready(d.completed) == Set::<usize>::empty(),
    ensures
        s.consumable(d),
        s.consumed(d) == s,
        s.relieved(d) == d,
{
    lemma_sum_empty(s.amounts(d.completed));
    lemma_sum_empty(lens(s.pending));
    assert(s.consumed(d).pending =~= s.pending);
    assert(s.relieved(d).completed =~= d.completed);
}

/// A chunk that is handed to the kernel.
#[derive(Debug, Clone, Copy, PartialEq, Eq, Structural)]
pub struct Submission {
    /// Handle of its operation.
    pub handle: OpHandle,
    /// The part of the buffer.
    pub chunk: PendingChunk,
}

/// The error of a buffer whose length the kernel cannot take.
pub open spec fn too_large_error() -> ErrorView {
    ErrorView::Message { kind: ErrorKind::InvalidInput, message: "AIO buffer too large"@ }
}

/// State of one exact transfer of a borrowed buffer.
#[derive(Debug)]
pub struct ExactState {
    kind: TransferKind,
    fd: i32,
    ptr: usize,
    total_len: usize,
    chunk_size: usize,
    submitted: usize,
    completed: usize,
    submitted_zero: bool,
    pending: HashMap<usize, PendingChunk>,
}

impl View for ExactState {
    type V = ExactView;

    closed spec fn view(&self) -> ExactView {
        ExactView {
            kind: self.kind,
            fd: self.fd,
            ptr: self.ptr,
            total_len: self.total_len as int,
            chunk_size: self.chunk_size as int,
            submitted: self.submitted as int,
            completed: self.completed as int,
            submitted_zero: self.submitted_zero,
            pending: self.pending@,
        }
    }
}

impl ExactState {
    /// A transfer of `total_len` bytes at address `ptr`, in chunks of
    /// `chunk_size` bytes or of one byte if that is zero.
    pub fn new(kind: TransferKind, fd: i32, ptr: usize, total_len: usize, chunk_size: usize) -> (state: ExactState)
        requires
            ptr + total_len <= usize::MAX,
        ensures
            state@ == ExactView::start(kind, fd, ptr, total_len as int, chunk_size as int),
            state@.kind == kind,
            state@.fd == fd,
            state@.ptr == ptr,
            state@.total_len == total_len,
            state@.chunk_size == if chunk_size == 0 {
                1
            } else {
                chunk_size as int
            },
            state@.submitted == 0,
            state@.completed == 0,
            !state@.submitted_zero,
            state@.pending == Map::<usize, PendingChunk>::empty(),
            state@.wf(),
            state@.accounted(),
    {
        let state = ExactState {
            kind,
            fd,
            ptr,
            total_len,
            chunk_size: if chunk_size >= 1 { chunk_size } else { 1 },
            submitted: 0,
            completed: 0,
            submitted_zero: false,
            pending: HashMap::new(),
        };
        proof {
            assert(state@.pending.dom() =~= Set::empty());
            lemma_sum_empty(lens(state@.pending));
        }
        state
    }

    /// Whether the transfer is complete.
    pub fn is_done(&self) -> (done: bool)
        ensures
            done == self@.done(),
            done == all_over(self@),
    {
        proof {
            law_done(self@);
        }
        assert(self.pending@.is_empty() <==> self.pending@.dom() =~= Set::<usize>::empty());
        if !self.pending.is_empty() {
            return false;
        }
        match self.kind {
            TransferKind::Read => self.completed == self.total_len,
            TransferKind::Write => if self.total_len == 0 {
                self.submitted_zero
            } else {
                self.completed == self.total_len
            },
        }
    }

    /// Takes the next chunk into flight, if there is one and the kernel takes
    /// it. The kernel's answer decides whether [`ExactState::submit_accepted`]
    /// follows.
    pub fn submit_available(&self, driver: &mut Driver) -> (result: Result<Option<Submission>, Error>)
        requires
            self@.wf(),
            old(driver).wf(),
        ensures
            final(driver).wf(),
            match result {
                Ok(None) => {
                    &&& self@.next_chunk(old(driver)@.slots()) is None
                    &&& !unsubmitted(self@) || old(driver)@.active.dom().len() == old(driver)@.queue_len
                    &&& final(driver)@ == old(driver)@
                },
                Ok(Some(submission)) => {
                    let id = submission.handle.0;
                    &&& self@.next_chunk(old(driver)@.slots()) == Some(submission.chunk)
                    &&& comes_next(self@, submission.chunk)
                    &&& old(driver)@.active.dom().len() < old(driver)@.queue_len
                    &&& id == old(driver)@.next()
                    &&& !old(driver)@.active.contains_key(id)
                    &&& final(driver)@ == old(driver)@.launch(
                        self@.operation(old(driver)@, id, submission.chunk),
                    )
                },
                Err(error) => {
                    &&& self@.next_chunk(old(driver)@.slots()) matches Some(chunk) && chunk.len > u64::MAX
                    &&& error@ == too_large_error()
                    &&& final(driver)@ == old(driver)@
                },
            },
    {
        proof {
            lemma_bytes_nonnegative(self@.pending);
            law_next_chunk(self@, driver@.slots());
        }
        if driver.available_slots() == 0 {
            return Ok(None);
        }
        let chunk: PendingChunk;
        if self.kind == TransferKind::Write && self.total_len == 0 && !self.submitted_zero {
            chunk = PendingChunk { offset: 0, len: 0 };
        } else if self.submitted < self.total_len {
            let remaining: usize = self.total_len - self.submitted;
            let len: usize = if remaining <= self.chunk_size { remaining } else { self.chunk_size };
            chunk = PendingChunk { offset: self.submitted, len };
        } else {
            return Ok(None);
        }
        match driver.submit_raw(self.kind.opcode(), self.fd, self.ptr + chunk.offset, chunk.len) {
            Ok(handle) => Ok(Some(Submission { handle, chunk })),
            Err(error) => Err(error),
        }
    }

    /// Takes in that the kernel has accepted a chunk.
    pub fn submit_accepted(&mut self, submission: Submission)
        requires
            old(self)@.wf(),
            old(self)@.next_chunk(1) == Some(submission.chunk),
        ensures
            final(self)@ == old(self)@.submit(submission.handle.0, submission.chunk),
            final(self)@ == (ExactView {
                submitted: old(self)@.submitted + submission.chunk.len,
                submitted_zero: old(self)@.submitted_zero || submission.chunk.len == 0,
                pending: old(self)@.pending.insert(submission.handle.0, submission.chunk),
                ..old(self)@
            }),
            final(self)@.wf(),
            old(self)@.accounted() && !old(self)@.pending.contains_key(submission.handle.0)
                ==> final(self)@.accounted(),
    {
        proof {
            lemma_submit(self@, 1, submission.handle.0);
        }
        let chunk = submission.chunk;
        self.pending.insert(submission.handle.0, chunk);
        if chunk.len == 0 {
            self.submitted_zero = true;
        }
        self.submitted = self.submitted + chunk.len;
    }

    /// A pending chunk that has completed, if there is one.
    fn find_completed(&self, driver: &Driver) -> (found: Option<usize>)
        ensures
            match found {
                Some(id) => self@.ready(driver@.completed).contains(id),
                None => self@.ready(driver@.completed) == Set::<usize>::empty(),
            },
    {
        let ghost all = self.pending.keys().remaining().unref();
        for id in it: self.pending.keys()
            invariant
                it.seq().unref() == all,
                all.to_set() == self@.pending.dom(),
                forall|i: int| 0 <= i < it.index() ==> !driver@.completed.contains_key(all[i]),
        {
            if driver.is_completed(*id) {
                assert(all.to_set().contains(all[it.index()]));
                return Some(*id);
            }
        }
        assert forall|id: usize| !self@.ready(driver@.completed).contains(id) by {
            if self@.pending.contains_key(id) {
                assert(all.to_set().contains(id));
                assert(all.contains(id));
            }
        }
        assert(self@.ready(driver@.completed) =~= Set::<usize>::empty());
        None
    }

    /// Accounts for the pending chunks that have completed, up to the first
    /// that failed or ended short.
    pub fn consume_completed(&mut self, driver: &mut Driver) -> (result: Result<(), Error>)
        requires
            old(self)@.wf(),
            old(driver).wf(),
        ensures
            final(driver).wf(),
            final(self)@.wf(),
            match result {
                Ok(()) => {
                    &&& old(self)@.consumable(old(driver)@)
                    &&& final(self)@ == old(self)@.consumed(old(driver)@)
                    &&& final(driver)@ == old(self)@.relieved(old(driver)@)
                    &&& all_end_well(old(self)@, old(driver)@)
                    &&& accounts(old(self)@, old(driver)@, final(self)@, final(driver)@)
                    &&& old(self)@.accounted() ==> final(self)@.accounted()
                },
                Err(error) => {
                    &&& !old(self)@.consumable(old(driver)@)
                    &&& old(self)@.stopped(old(driver)@, error@, final(self)@, final(driver)@)
                    &&& breaks_off(old(self)@, old(driver)@, error@, final(self)@, final(driver)@)
                },
            },
    {
        let ghost s0 = self@;
        let ghost d0 = driver@;
        let ghost mut taken: Set<usize> = Set::empty();
        proof {
            lemma_sum_empty(s0.amounts(d0.completed));
            lemma_sum_empty(lens(s0.pending));
            assert(s0.pending.remove_keys(taken) =~= s0.pending);
            assert(d0.completed.remove_keys(taken) =~= d0.completed);
        }
        loop
            invariant_except_break
                driver.wf(),
                s0.wf(),
                self@ == s0.credit(d0.completed, taken),
                driver@ == d0.forget(taken),
                taken.finite(),
                taken.subset_of(s0.ready(d0.completed)),
                s0.all_good(d0.completed, taken),
                old(self)@ == s0,
                old(driver)@ == d0,
            ensures
                driver.wf(),
                s0.wf(),
                self@ == s0.credit(d0.completed, taken),
                driver@ == d0.forget(taken),
                taken == s0.ready(d0.completed),
                taken.finite(),
                s0.all_good(d0.completed, taken),
            decreases self@.pending.dom().len(),
        {
            proof {
                lemma_credit(s0, d0.completed, taken);
            }
            let id: usize = match self.find_completed(driver) {
                Some(id) => id,
                None => {
                    assert(taken =~= s0.ready(d0.completed)) by {
                        assert forall|k: usize| #[trigger] s0.ready(d0.completed).contains(k) implies taken.contains(
                            k,
                        ) by {
                            if !taken.contains(k) {
                                assert(self@.ready(driver@.completed).contains(k));
                            }
                        }
                    }
                    break;
                },
            };
            assert(s0.ready(d0.completed).contains(id) && !taken.contains(id));
            let ghost before = self@;
            let comp = driver.take_completed(id).unwrap();
            let chunk = self.pending.remove(&id).unwrap();
            proof {
                assert(chunk == s0.pending[id]);
                assert(comp == d0.completed[id]);
                assert(self@ == before.abandon(id));
                assert(d0.completed.remove_keys(taken.insert(id)) =~= d0.completed.remove_keys(taken).remove(id));
                lemma_bytes_remove(before.pending, id);
                lemma_bytes_nonnegative(self@.pending);
                lemma_abandon(before, id);
            }
            let actual: usize = match comp.result() {
                Ok(actual) => actual,
                Err(error) => {
                    assert(s0.stopped_at(d0, error@, self@, driver@, taken, id));
                    proof {
                        law_breaking_off(s0, d0, error@, self@, driver@);
                    }
                    return Err(error);
                },
            };
            if actual == chunk.len {
                self.completed = self.completed + actual;
            } else if self.kind == TransferKind::Read && 0 < actual && actual < chunk.len && chunk.offset + chunk.len
                == self.submitted {
                self.completed = self.completed + actual;
                self.submitted = self.submitted - (chunk.len - actual);
            } else {
                let error = self.kind.short_error(chunk.len, actual);
                assert(s0.stopped_at(d0, error@, self@, driver@, taken, id));
                proof {
                    law_breaking_off(s0, d0, error@, self@, driver@);
                }
                return Err(error);
            }
            proof {
                lemma_credit_step(s0, d0.completed, taken, id);
                taken = taken.insert(id);
                assert(self@ == s0.credit(d0.completed, taken));
            }
        }
        proof {
            lemma_credit(s0, d0.completed, taken);
            law_accounting(s0, d0);
        }
        Ok(())
    }

    /// The numbers of the pending operations, in no particular order.
    pub fn pending_ids(&self) -> (ids: Vec<usize>)
        ensures
            ids@.no_duplicates(),
            ids@.to_set() == self@.pending.dom(),
    {
        map_keys(&self.pending)
    }

    /// Forgets all pending operations.
    pub fn clear_pending(&mut self)
        ensures
            final(self)@ == old(self)@.cleared(),
            final(self)@ == (ExactView { pending: Map::empty(), ..old(self)@ }),
            old(self)@.wf() ==> final(self)@.wf(),
    {
        proof {
            lemma_cleared(self@);
        }
        self.pending.clear();
    }
}

} // verus!
