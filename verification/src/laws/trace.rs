//! What a transfer has to show for its success.

use vstd::prelude::*;

use crate::driver::DriverView;
use crate::exact::{lemma_submit, ExactView, PendingChunk, TransferKind};
use crate::laws::chunks::{accounts, all_end_well, law_start, law_verdict};
use crate::laws::events::{first_for, law_reap_nothing, law_reap_overfull, law_reap_takes_in, named, none_came};
use crate::laws::exclusive::exclusive;
use crate::laws::failure::failing;
use crate::laws::phases::{
    accounts_and, ends_or_waits, law_accepted, law_collects, law_goes_on, law_waited, moves_on, told_to_go_on,
};
use crate::laws::runs::{
    begins, gained_at, is_run, law_run, law_run_tiles, lemma_keeps_failing, moved_by, step_at, unended, Moment,
};
use crate::laws::tiling::{gone, holds_byte, law_state_step, law_submission, range};
use crate::reply::Reply;
use crate::request::{IoCb, IoEvent};
use crate::transfer::{Mode, PhaseView, TransferView};

verus! {

/// Whether the kernel has accepted a control block at a moment.
pub open spec fn accepted_at(moments: Seq<Moment>, replies: Seq<Reply>, i: int, iocb: IoCb) -> bool {
    &&& moments[i].transfer.phase matches PhaseView::Submit(submission) && {
        &&& moments[i].driver.active.contains_key(submission.handle.0)
        &&& moments[i].driver.active[submission.handle.0].iocb == iocb
    }
    &&& replies[i] matches Reply::Submitted(Ok(accepted)) && accepted == 1
}

/// Whether the kernel has handed out a completion event at a moment, at a place
/// of a batch.
pub open spec fn handed_out_at(moments: Seq<Moment>, replies: Seq<Reply>, j: int, n: int, event: IoEvent) -> bool {
    &&& moments[j].transfer.phase is Reap || moments[j].transfer.phase is Collect
    &&& replies[j] matches Reply::Reaped(Ok(count), batch) && 0 <= n < count && n < batch@.len() && batch@[n] == event
}

/// Whether the kernel has transferred a byte of a buffer, in a direction and
/// between it and a file, by a moment: it has accepted a control block for it,
/// and afterwards handed out a completion event for that with a result that
/// reaches the byte.
pub open spec fn transferred(
    moments: Seq<Moment>,
    replies: Seq<Reply>,
    k: int,
    kind: TransferKind,
    fd: i32,
    ptr: usize,
    byte: int,
) -> bool {
    exists|i: int, j: int, n: int, iocb: IoCb, event: IoEvent|
        #![trigger accepted_at(moments, replies, i, iocb), handed_out_at(moments, replies, j, n, event)]
        {
            &&& 0 <= i < j < k
            &&& accepted_at(moments, replies, i, iocb)
            &&& handed_out_at(moments, replies, j, n, event)
            &&& iocb.opcode == if kind is Read {
                0u16
            } else {
                1u16
            }
            &&& iocb.fd == fd
            &&& iocb.buf <= ptr + byte < iocb.buf + iocb.nbytes
            &&& event.data == iocb.data
            &&& ptr + byte < iocb.buf + event.res
        }
}

/// Whether the kernel has accepted a chunk under a number at a moment.
spec fn chunk_accepted(moments: Seq<Moment>, replies: Seq<Reply>, i: int, id: usize, chunk: PendingChunk) -> bool {
    &&& moments[i].transfer.phase matches PhaseView::Submit(submission) && submission.handle.0 == id
        && submission.chunk == chunk
    &&& replies[i] matches Reply::Submitted(Ok(accepted)) && accepted == 1
}

/// Whether the kernel has handed out an event for a number with a result.
spec fn result_came(moments: Seq<Moment>, replies: Seq<Reply>, j: int, id: usize, res: i64) -> bool {
    exists|n: int, event: IoEvent| #[trigger]
        handed_out_at(moments, replies, j, n, event) && event.data == id && event.res == res
}

/// What pending chunks and completions have to show.
spec fn shown(moments: Seq<Moment>, replies: Seq<Reply>, k: int) -> bool {
    let s = moments[k].transfer.state;
    let completed = moments[k].driver.completed;
    forall|id: usize| #[trigger]
        s.pending.contains_key(id) ==> {
            &&& exists|i: int| 0 <= i < k && #[trigger] chunk_accepted(moments, replies, i, id, s.pending[id])
            &&& completed.contains_key(id) ==> exists|i: int, j: int|
                0 <= i < j < k && #[trigger] chunk_accepted(moments, replies, i, id, s.pending[id])
                    && #[trigger] result_came(moments, replies, j, id, completed[id].res)
        }
}

/// Completions come from completion events alone.
proof fn lemma_completions(t: TransferView, d: DriverView, reply: Reply, t1: TransferView, d1: DriverView, id: usize)
    requires
        d.wf(),
        t.wf(d),
        exclusive(t, d),
        !(t.phase is Cancel),
        !(t.phase is Finished),
        t.steps(d, reply, t1, d1),
        !failing(t1),
        d1.completed.contains_key(id),
    ensures
        d.completed.contains_key(id) && d1.completed[id] == d.completed[id] || {
            &&& t.phase is Reap || t.phase is Collect
            &&& d.active.contains_key(id)
            &&& t1.state == t.state
            &&& reply matches Reply::Reaped(Ok(count), batch) && exists|n: int|
                0 <= n < count && n < batch@.len() && (#[trigger] batch@[n]).data == id && batch@[n].res
                    == d1.completed[id].res
        },
{
    if told_to_go_on(t, reply) {
        law_goes_on(t, d, reply, t1, d1);
        if all_end_well(t.state, d) {
            let (s, between) = choose|s: ExactView, between: DriverView| #[trigger]
                accounts(t.state, d, s, between) && moves_on(TransferView { state: s, ..t }, between, t1, d1);
            assert(accounts(t.state, d, s, between));
            assert(between.completed.contains_key(id));
        }
    } else {
        match (t.phase, reply) {
            (PhaseView::Submit(submission), Reply::Submitted(Ok(1))) => {
                law_accepted(t, d, t1, d1);
                let s = ExactView {
                    submitted: t.state.submitted + submission.chunk.len,
                    submitted_zero: t.state.submitted_zero || submission.chunk.len == 0,
                    pending: t.state.pending.insert(submission.handle.0, submission.chunk),
                    ..t.state
                };
                let u = TransferView { state: s, ..t };
                assert(!d.completed.contains_key(id) ==> !d.completed.dom().contains(id));
                if accounts_and(u, d, false, t1, d1) && all_end_well(u.state, d) {
                    let (s1, between) = choose|s1: ExactView, between: DriverView| #[trigger]
                        accounts(u.state, d, s1, between) && ends_or_waits(
                            TransferView { state: s1, ..u },
                            between,
                            t1,
                            d1,
                        );
                    assert(accounts(u.state, d, s1, between));
                    assert(between.completed.contains_key(id));
                }
            },
            (PhaseView::Reap(_), Reply::Reaped(Ok(count), batch)) => {
                law_waited(t, d, reply, t1, d1);
                lemma_came(d, count, batch@, d1, id);
            },
            (PhaseView::Collect(_, _), Reply::Reaped(Ok(count), batch)) => {
                law_collects(t, d, reply, t1, d1);
                if !none_came(count) {
                    lemma_came(d, count, batch@, d1, id);
                }
            },
            _ => {},
        }
    }
}

proof fn lemma_came(d: DriverView, count: i64, batch: Seq<IoEvent>, d1: DriverView, id: usize)
    requires
        d1 == d.reap(count, batch),
        d1.completed.contains_key(id),
    ensures
        d.completed.contains_key(id) && d1.completed[id] == d.completed[id] || {
            &&& d.active.contains_key(id)
            &&& exists|n: int|
                0 <= n < count && n < batch.len() && (#[trigger] batch[n]).data == id && batch[n].res
                    == d1.completed[id].res
        },
{
    if none_came(count) {
        law_reap_nothing(d, count, batch);
    } else {
        let m = if count <= batch.len() {
            count as int
        } else {
            batch.len() as int
        };
        if count <= batch.len() {
            law_reap_takes_in(d, count, batch);
        } else {
            law_reap_overfull(d, count, batch);
        }
        if d.active.contains_key(id) && named(batch, m, id) {
            let n = choose|n: int| 0 <= n < m && (#[trigger] batch[n]).data == id;
            lemma_first(batch, n, id);
            let first = choose|first: int| 0 <= first <= n && #[trigger] first_for(batch, first, id);
            assert(first_for(batch, first, id));
            assert(batch[first].data == id);
        }
    }
}

proof fn lemma_first(batch: Seq<IoEvent>, n: int, id: usize)
    requires
        0 <= n < batch.len(),
        batch[n].data == id,
    ensures
        exists|first: int| 0 <= first <= n && #[trigger] first_for(batch, first, id),
    decreases n,
{
    if exists|m: int| 0 <= m < n && (#[trigger] batch[m]).data == id {
        let m = choose|m: int| 0 <= m < n && (#[trigger] batch[m]).data == id;
        lemma_first(batch, m, id);
    } else {
        assert(first_for(batch, n, id));
    }
}

proof fn lemma_shown(moments: Seq<Moment>, replies: Seq<Reply>, k: int)
    requires
        is_run(moments, replies),
        begins(moments[0]),
        unended(moments),
        0 <= k < moments.len(),
        !failing(moments[k].transfer),
    ensures
        shown(moments, replies, k),
    decreases k,
{
    if k > 0 {
        let m = moments[k - 1];
        let m1 = moments[k];
        let reply = replies[k - 1];
        if failing(m.transfer) {
            lemma_keeps_failing(moments, replies, k - 1, k);
        }
        lemma_shown(moments, replies, k - 1);
        law_run(moments, replies, k - 1);
        assert(m.driver.wf() && m.transfer.wf(m.driver));
        assert(step_at(moments, replies, k - 1));
        assert(!(m.transfer.phase is Finished));
        law_state_step(m.transfer, m.driver, reply, m1.transfer, m1.driver);
        let s = m.transfer.state;
        let s1 = m1.transfer.state;
        assert forall|id: usize| #[trigger] s1.pending.contains_key(id) implies {
            &&& exists|i: int| 0 <= i < k && #[trigger] chunk_accepted(moments, replies, i, id, s1.pending[id])
            &&& m1.driver.completed.contains_key(id) ==> exists|i: int, j: int|
                0 <= i < j < k && #[trigger] chunk_accepted(moments, replies, i, id, s1.pending[id])
                    && #[trigger] result_came(moments, replies, j, id, m1.driver.completed[id].res)
        } by {
            let chunk = s1.pending[id];
            if !s.pending.contains_key(id) {
                assert(chunk_accepted(moments, replies, k - 1, id, chunk));
                if m1.driver.completed.contains_key(id) {
                    lemma_completions(m.transfer, m.driver, reply, m1.transfer, m1.driver, id);
                    assert(!m.driver.completed.dom().contains(id));
                }
            } else {
                assert(s1.pending[id] == s.pending[id]) by {
                    if let PhaseView::Submit(submission) = m.transfer.phase {
                        assert(submission.handle.0 != id);
                    }
                }
                let i = choose|i: int| 0 <= i < k - 1 && #[trigger] chunk_accepted(moments, replies, i, id, chunk);
                assert(chunk_accepted(moments, replies, i, id, chunk));
                if m1.driver.completed.contains_key(id) {
                    lemma_completions(m.transfer, m.driver, reply, m1.transfer, m1.driver, id);
                    let res = m1.driver.completed[id].res;
                    if m.driver.completed.contains_key(id) && m1.driver.completed[id] == m.driver.completed[id] {
                        let (i, j) = choose|i: int, j: int|
                            0 <= i < j < k - 1 && #[trigger] chunk_accepted(moments, replies, i, id, chunk)
                                && #[trigger] result_came(moments, replies, j, id, res);
                        assert(chunk_accepted(moments, replies, i, id, chunk) && result_came(
                            moments,
                            replies,
                            j,
                            id,
                            res,
                        ));
                    } else {
                        let batch = reply->Reaped_1@;
                        let count = reply->Reaped_0->Ok_0;
                        let n = choose|n: int|
                            0 <= n < count && n < batch.len() && (#[trigger] batch[n]).data == id && batch[n].res
                                == res;
                        assert(handed_out_at(moments, replies, k - 1, n, batch[n]));
                        assert(result_came(moments, replies, k - 1, id, res));
                    }
                }
            }
        }
    }
}

/// A byte that a step has moved was transferred by the kernel.
proof fn lemma_gained(moments: Seq<Moment>, replies: Seq<Reply>, k: int, byte: int)
    requires
        is_run(moments, replies),
        begins(moments[0]),
        unended(moments),
        0 <= k < replies.len(),
        !failing(moments[k + 1].transfer),
        gained_at(moments, k).contains(byte),
    ensures
        ({
            let s = moments[0].transfer.state;
            transferred(moments, replies, k, s.kind, s.fd, s.ptr, byte)
        }),
{
    let m = moments[k];
    let m1 = moments[k + 1];
    let s = m.transfer.state;
    let completed = m.driver.completed;
    if failing(m.transfer) {
        lemma_keeps_failing(moments, replies, k, k + 1);
    }
    law_run(moments, replies, k);
    assert(m.driver.wf() && m.transfer.wf(m.driver));
    assert(step_at(moments, replies, k));
    assert(!(m.transfer.phase is Finished));
    law_state_step(m.transfer, m.driver, replies[k], m1.transfer, m1.driver);
    lemma_shown(moments, replies, k);
    let ids = gone(s, m1.transfer.state);
    let id = choose|id: usize| #[trigger]
        ids.contains(id) && holds_byte(s.pending[id], s.amounts(completed)(id), byte);
    assert(ids.contains(id));
    assert(s.ready(completed).contains(id));
    assert(s.pending.contains_key(id));
    let chunk = s.pending[id];
    let res = completed[id].res;
    assert(s.outcome(completed, id) is Ok);
    law_verdict(s, chunk, res);
    let (i, j) = choose|i: int, j: int|
        0 <= i < j < k && #[trigger] chunk_accepted(moments, replies, i, id, chunk) && #[trigger] result_came(
            moments,
            replies,
            j,
            id,
            res,
        );
    let (n, event) = choose|n: int, event: IoEvent| #[trigger]
        handed_out_at(moments, replies, j, n, event) && event.data == id && event.res == res;
    law_run(moments, replies, i);
    let sender = moments[i];
    assert(sender.driver.wf() && sender.transfer.wf(sender.driver));
    law_submission(sender.transfer, sender.driver);
    let iocb = sender.driver.active[id].iocb;
    assert(sender.driver.active[id] == sender.transfer.state.operation(sender.driver, id, chunk));
    assert(accepted_at(moments, replies, i, iocb));
    assert(handed_out_at(moments, replies, j, n, event));
}

/// A read or a write of a buffer that ends well has transferred every byte of the
/// buffer and no other: for each of them, the kernel has accepted an operation
/// on the given file, and has handed out a completion of it that reaches the
/// byte. The bytes are those of the buffer that was asked for, and the transfer
/// is in the direction that was asked for.
pub proof fn law_whole_buffer(
    kind: TransferKind,
    fd: i32,
    ptr: usize,
    len: usize,
    chunk_size: usize,
    mode: Mode,
    moments: Seq<Moment>,
    replies: Seq<Reply>,
)
    requires
        is_run(moments, replies),
        unended(moments),
        moments[0].transfer == TransferView::ready(
            ExactView::start(kind, fd, ptr, len as int, chunk_size as int),
            mode,
        ),
        moments[0].driver.idle(),
        moments.last().transfer.phase == PhaseView::Finished(Ok(())),
    ensures
        forall|byte: int| 0 <= byte < len ==> #[trigger] transferred(
            moments,
            replies,
            replies.len() as int,
            kind,
            fd,
            ptr,
            byte,
        ),
        forall|byte: int| #[trigger] moved_by(moments, replies.len() as int).contains(byte) <==> 0 <= byte < len,
        forall|i: int, iocb: IoCb|
            0 <= i < replies.len() && #[trigger] accepted_at(moments, replies, i, iocb) ==> {
                &&& iocb.opcode == if kind is Read { 0u16 } else { 1u16 }
                &&& iocb.fd == fd
                &&& ptr <= iocb.buf
                &&& iocb.buf + iocb.nbytes <= ptr + len
            },
{
    law_start(kind, fd, ptr, len as int, chunk_size as int);
    let start = moments[0].transfer.state;
    let last = replies.len() as int;
    assert(begins(moments[0]));
    law_run_tiles(moments, replies);
    let opcode = if kind is Read {
        0u16
    } else {
        1u16
    };
    assert forall|byte: int| 0 <= byte < len implies #[trigger] transferred(
        moments,
        replies,
        last,
        kind,
        fd,
        ptr,
        byte,
    ) by {
        assert(range(len as int).contains(byte));
        assert(moved_by(moments, last).contains(byte));
        lemma_moved(moments, replies, last, byte);
    }
    assert forall|byte: int| #[trigger] moved_by(moments, last).contains(byte) <==> 0 <= byte < len by {
        assert(range(len as int).contains(byte) <==> 0 <= byte < len);
    }
    assert forall|i: int, iocb: IoCb|
        0 <= i < replies.len() && #[trigger] accepted_at(moments, replies, i, iocb) implies {
        &&& iocb.opcode == opcode
        &&& iocb.fd == fd
        &&& ptr <= iocb.buf
        &&& iocb.buf + iocb.nbytes <= ptr + len
    } by {
        law_run(moments, replies, i);
        let m = moments[i];
        assert(m.driver.wf() && m.transfer.wf(m.driver));
        law_submission(m.transfer, m.driver);
        let submission = m.transfer.phase->Submit_0;
        lemma_submit(m.transfer.state, 1, submission.handle.0);
    }
}

proof fn lemma_moved(moments: Seq<Moment>, replies: Seq<Reply>, k: int, byte: int)
    requires
        is_run(moments, replies),
        begins(moments[0]),
        unended(moments),
        0 <= k <= replies.len(),
        !failing(moments.last().transfer),
        moved_by(moments, k).contains(byte),
    ensures
        ({
            let s = moments[0].transfer.state;
            transferred(moments, replies, replies.len() as int, s.kind, s.fd, s.ptr, byte)
        }),
    decreases k,
{
    if k > 0 {
        if moved_by(moments, k - 1).contains(byte) {
            lemma_moved(moments, replies, k - 1, byte);
        } else {
            if failing(moments[k].transfer) {
                lemma_keeps_failing(moments, replies, k, moments.len() - 1);
            }
            lemma_gained(moments, replies, k - 1, byte);
            lemma_later(moments, replies, k - 1, byte);
        }
    }
}

proof fn lemma_later(moments: Seq<Moment>, replies: Seq<Reply>, k: int, byte: int)
    requires
        0 <= k <= replies.len(),
        ({
            let s = moments[0].transfer.state;
            transferred(moments, replies, k, s.kind, s.fd, s.ptr, byte)
        }),
    ensures
        ({
            let s = moments[0].transfer.state;
            transferred(moments, replies, replies.len() as int, s.kind, s.fd, s.ptr, byte)
        }),
{
}

} // verus!
