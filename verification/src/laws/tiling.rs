//! Which bytes of the buffer a transfer moves.

use vstd::prelude::*;

use crate::driver::{event_count, CompletedOp, DriverView};
use crate::exact::{lemma_credit, lemma_credit_step, lemma_submit, lens, ExactView, PendingChunk};
use crate::laws::exclusive::exclusive;
use crate::laws::failure::{failing, law_failure, lemma_accepted_well, lemma_proceeds_well};
use crate::reply::Reply;
use crate::sums::lemma_sum_empty;
use crate::transfer::{Mode, PhaseView, TransferView};

verus! {

/// A chunk that is being submitted starts where the submitted part of the buffer
/// ends, and its operation works right there.
pub proof fn law_submission(t: TransferView, d: DriverView)
    requires
        t.wf(d),
        exclusive(t, d),
        t.phase is Submit,
    ensures
        ({
            let submission = t.phase->Submit_0;
            let iocb = d.active[submission.handle.0].iocb;
            &&& submission.chunk.offset == t.state.submitted
            &&& t.state.submitted + submission.chunk.len <= t.state.total_len
            &&& d.active.contains_key(submission.handle.0)
            &&& iocb.buf == t.state.ptr + t.state.submitted
            &&& iocb.nbytes == submission.chunk.len
        }),
{
    lemma_submit(t.state, 1, t.phase->Submit_0.handle.0);
}

/// Whether a byte is among the first `len` bytes of a chunk.
pub open spec fn holds_byte(chunk: PendingChunk, len: int, byte: int) -> bool {
    chunk.offset <= byte < chunk.offset + len
}

/// Whether a byte of the buffer is in a pending chunk.
pub open spec fn awaited(s: ExactView, byte: int) -> bool {
    exists|id: usize| #[trigger]
        s.pending.contains_key(id) && holds_byte(s.pending[id], s.pending[id].len as int, byte)
}

/// The bytes of the buffer that chunks of a set have moved.
pub open spec fn credited(s: ExactView, completed: Map<usize, CompletedOp>, ids: Set<usize>) -> Set<int> {
    Set::new(
        |byte: int|
            exists|id: usize| #[trigger]
                ids.contains(id) && holds_byte(s.pending[id], s.amounts(completed)(id), byte),
    )
}

/// Whether the bytes that were moved and the pending chunks are the submitted
/// part of the buffer, without gap and without overlap.
pub open spec fn tiles(s: ExactView, moved: Set<int>) -> bool {
    forall|byte: int|
        #![trigger moved.contains(byte)]
        #![trigger awaited(s, byte)]
        {
            &&& (moved.contains(byte) || awaited(s, byte)) <==> 0 <= byte < s.submitted
            &&& !(moved.contains(byte) && awaited(s, byte))
        }
}

/// The bytes of a range.
pub open spec fn range(len: int) -> Set<int> {
    Set::new(|byte: int| 0 <= byte < len)
}

/// Accounting for good chunks moves their bytes, each for the first time, and
/// keeps the submitted part of the buffer tiled.
pub proof fn law_credit_tiles(s: ExactView, completed: Map<usize, CompletedOp>, ids: Set<usize>, moved: Set<int>)
    requires
        s.wf(),
        tiles(s, moved),
        ids.finite(),
        ids.subset_of(s.ready(completed)),
        s.all_good(completed, ids),
    ensures
        tiles(s.credit(completed, ids), moved.union(credited(s, completed, ids))),
        moved.disjoint(credited(s, completed, ids)),
    decreases ids.len(),
{
    let after = s.credit(completed, ids);
    if ids.len() == 0 {
        assert(ids =~= Set::empty());
        lemma_sum_empty(s.amounts(completed));
        lemma_sum_empty(lens(s.pending));
        assert(after.pending =~= s.pending);
        assert(moved.union(credited(s, completed, ids)) =~= moved);
    } else {
        let id = ids.choose();
        let rest = ids.remove(id);
        assert(ids.contains(id));
        assert(s.outcome(completed, id) is Ok);
        assert(s.ready(completed).contains(id));
        assert(rest.insert(id) =~= ids);
        assert forall|k: usize| #[trigger] rest.contains(k) implies s.outcome(completed, k) is Ok by {
            assert(ids.contains(k));
        }
        law_credit_tiles(s, completed, rest, moved);
        lemma_credit(s, completed, rest);
        lemma_credit_step(s, completed, rest, id);
        let before = s.credit(completed, rest);
        let amount = s.amounts(completed)(id);
        let chunk = s.pending[id];
        assert(before.pending.contains_key(id) && before.pending[id] == chunk);
        assert(s.accepts(chunk, amount));
        let m0 = moved.union(credited(s, completed, rest));
        let m1 = moved.union(credited(s, completed, ids));
        assert forall|byte: int|
            #![trigger m1.contains(byte)]
            #![trigger awaited(after, byte)]
            {
                &&& (m1.contains(byte) || awaited(after, byte)) <==> 0 <= byte < after.submitted
                &&& !(m1.contains(byte) && awaited(after, byte))
            } by {
            assert(m1.contains(byte) <==> m0.contains(byte) || holds_byte(chunk, amount, byte)) by {
                if credited(s, completed, ids).contains(byte) {
                    let k = choose|k: usize| #[trigger]
                        ids.contains(k) && holds_byte(s.pending[k], s.amounts(completed)(k), byte);
                    if k != id {
                        assert(rest.contains(k));
                    }
                }
                if credited(s, completed, rest).contains(byte) {
                    let k = choose|k: usize| #[trigger]
                        rest.contains(k) && holds_byte(s.pending[k], s.amounts(completed)(k), byte);
                    assert(ids.contains(k));
                }
                if holds_byte(chunk, amount, byte) {
                    assert(ids.contains(id));
                }
            }
            assert(awaited(before, byte) <==> awaited(after, byte) || holds_byte(chunk, chunk.len as int, byte)) by {
                if awaited(before, byte) {
                    let k = choose|k: usize| #[trigger]
                        before.pending.contains_key(k) && holds_byte(
                            before.pending[k],
                            before.pending[k].len as int,
                            byte,
                        );
                    if k != id {
                        assert(after.pending.contains_key(k));
                    }
                }
                if awaited(after, byte) {
                    let k = choose|k: usize| #[trigger]
                        after.pending.contains_key(k) && holds_byte(
                            after.pending[k],
                            after.pending[k].len as int,
                            byte,
                        );
                    assert(before.pending.contains_key(k));
                }
            }
            if awaited(after, byte) && holds_byte(chunk, chunk.len as int, byte) {
                let k = choose|k: usize| #[trigger]
                    after.pending.contains_key(k) && holds_byte(after.pending[k], after.pending[k].len as int, byte);
                assert(before.pending.contains_key(k) && before.pending.contains_key(id));
                assert(false);
            }
            assert(m0.contains(byte) || !m0.contains(byte));
            assert((m0.contains(byte) || awaited(before, byte)) <==> 0 <= byte < before.submitted);
        }
        assert forall|byte: int| !(moved.contains(byte) && credited(s, completed, ids).contains(byte)) by {
            if credited(s, completed, ids).contains(byte) {
                let k = choose|k: usize| #[trigger]
                    ids.contains(k) && holds_byte(s.pending[k], s.amounts(completed)(k), byte);
                assert(s.ready(completed).contains(k));
                assert(s.outcome(completed, k) is Ok);
                assert(s.accepts(s.pending[k], s.amounts(completed)(k)));
                assert(s.pending.contains_key(k) && holds_byte(s.pending[k], s.pending[k].len as int, byte));
                assert(awaited(s, byte));
            }
        }
    }
}

/// Submitting the next chunk under a new number keeps the submitted part of the
/// buffer tiled.
pub proof fn law_submit_tiles(s: ExactView, slots: int, id: usize, moved: Set<int>)
    requires
        s.wf(),
        tiles(s, moved),
        s.next_chunk(slots) is Some,
        !s.pending.contains_key(id),
    ensures
        tiles(s.submit(id, s.next_chunk(slots)->Some_0), moved),
{
    let chunk = s.next_chunk(slots)->Some_0;
    let after = s.submit(id, chunk);
    lemma_submit(s, slots, id);
    assert forall|byte: int|
        #![trigger moved.contains(byte)]
        #![trigger awaited(after, byte)]
        {
            &&& (moved.contains(byte) || awaited(after, byte)) <==> 0 <= byte < after.submitted
            &&& !(moved.contains(byte) && awaited(after, byte))
        } by {
        assert(awaited(after, byte) <==> awaited(s, byte) || holds_byte(chunk, chunk.len as int, byte)) by {
            if awaited(s, byte) {
                let k = choose|k: usize| #[trigger]
                    s.pending.contains_key(k) && holds_byte(s.pending[k], s.pending[k].len as int, byte);
                assert(after.pending.contains_key(k));
            }
            if awaited(after, byte) {
                let k = choose|k: usize| #[trigger]
                    after.pending.contains_key(k) && holds_byte(after.pending[k], after.pending[k].len as int, byte);
                if k != id {
                    assert(s.pending.contains_key(k));
                }
            }
            assert(after.pending.contains_key(id));
        }
        assert((moved.contains(byte) || awaited(s, byte)) <==> 0 <= byte < s.submitted);
    }
}

/// The pending chunks that a step has accounted for.
pub open spec fn gone(s: ExactView, s1: ExactView) -> Set<usize> {
    s.pending.dom().difference(s1.pending.dom())
}

/// A step that does not fail changes a transfer only by submitting the accepted
/// chunk or by accounting for good chunks that have completed. So the submitted
/// part of the buffer grows by what was accepted, and shrinks by what was cut
/// short.
pub proof fn law_state_step(t: TransferView, d: DriverView, reply: Reply, t1: TransferView, d1: DriverView)
    requires
        d.wf(),
        t.wf(d),
        exclusive(t, d),
        !(t.phase is Cancel),
        !(t.phase is Finished),
        t.steps(d, reply, t1, d1),
        !failing(t1),
    ensures
        gone(t.state, t1.state).finite(),
        gone(t.state, t1.state).subset_of(t.state.ready(d.completed)),
        t.state.all_good(d.completed, gone(t.state, t1.state)),
        match (t.phase, reply) {
            (PhaseView::Submit(submission), Reply::Submitted(Ok(1))) => {
                &&& t1.state == t.state.submit(submission.handle.0, submission.chunk)
                &&& gone(t.state, t1.state) == Set::<usize>::empty()
            },
            _ => t1.state == t.state.credit(d.completed, gone(t.state, t1.state)),
        },
{
    law_failure(t, d, reply, t1, d1);
    let ids = gone(t.state, t1.state);
    assert(t.state.pending.dom().finite());
    match (t.phase, reply) {
        (PhaseView::Ready, Reply::Begin) => match t.mode {
            Mode::Blocking(Some(_)) => lemma_same_state(t, d, t1),
            _ => {
                lemma_proceeds_well(t, d, t1, d1);
                lemma_gone_all(t, d, t1);
            },
        },
        (PhaseView::Deadline(_), Reply::Deadline(true)) => {
            lemma_proceeds_well(t, d, t1, d1);
            lemma_gone_all(t, d, t1);
        },
        (PhaseView::Submit(submission), Reply::Submitted(Ok(1))) => {
            lemma_accepted_well(t, d, reply, t1, d1);
            assert(ids =~= Set::empty());
        },
        (PhaseView::Drain(_), Reply::Drained(Ok(()))) => {
            lemma_proceeds_well(t, d, t1, d1);
            lemma_gone_all(t, d, t1);
        },
        (PhaseView::Collect(_, _), Reply::Reaped(Ok(count), batch)) => {
            if event_count(count) == 0 && !(t1.phase is Register) && !(t1.phase is Sleep) {
                assert(d.reap(count, batch@) == d);
                lemma_proceeds_well(t, d, t1, d1);
                lemma_gone_all(t, d, t1);
            } else {
                lemma_same_state(t, d, t1);
            }
        },
        (PhaseView::Sleep, Reply::Begin) => {
            lemma_proceeds_well(t, d, t1, d1);
            lemma_gone_all(t, d, t1);
        },
        _ => lemma_same_state(t, d, t1),
    }
}

proof fn lemma_gone_all(t: TransferView, d: DriverView, t1: TransferView)
    requires
        t.state.consumable(d),
        t1.state == t.state.consumed(d),
    ensures
        gone(t.state, t1.state) == t.state.ready(d.completed),
{
    assert(gone(t.state, t1.state) =~= t.state.ready(d.completed));
}

proof fn lemma_same_state(t: TransferView, d: DriverView, t1: TransferView)
    requires
        t1.state == t.state,
    ensures
        gone(t.state, t1.state) == Set::<usize>::empty(),
        t1.state == t.state.credit(d.completed, Set::empty()),
{
    assert(gone(t.state, t1.state) =~= Set::empty());
    lemma_sum_empty(t.state.amounts(d.completed));
    lemma_sum_empty(lens(t.state.pending));
    assert(t.state.pending.remove_keys(Set::empty()) =~= t.state.pending);
}

/// The bytes that a step of a transfer has moved.
pub open spec fn gained(s: ExactView, d: DriverView, s1: ExactView) -> Set<int> {
    credited(s, d.completed, gone(s, s1))
}

/// A step that does not fail moves bytes that no earlier step has moved, and
/// keeps the submitted part of the buffer tiled.
pub proof fn law_step_tiles(
    t: TransferView,
    d: DriverView,
    reply: Reply,
    t1: TransferView,
    d1: DriverView,
    moved: Set<int>,
)
    requires
        d.wf(),
        t.wf(d),
        exclusive(t, d),
        !(t.phase is Cancel),
        !(t.phase is Finished),
        t.steps(d, reply, t1, d1),
        !failing(t1),
        tiles(t.state, moved),
    ensures
        tiles(t1.state, moved.union(gained(t.state, d, t1.state))),
        moved.disjoint(gained(t.state, d, t1.state)),
{
    law_state_step(t, d, reply, t1, d1);
    law_credit_tiles(t.state, d.completed, gone(t.state, t1.state), moved);
    match (t.phase, reply) {
        (PhaseView::Submit(submission), Reply::Submitted(Ok(1))) => {
            assert(moved.union(gained(t.state, d, t1.state)) =~= moved);
            law_submit_tiles(t.state, 1, submission.handle.0, moved);
        },
        _ => {},
    }
}

/// Nothing is moved of a transfer that was not run yet.
pub proof fn law_start_tiles(s: ExactView)
    requires
        s.submitted == 0,
        s.pending.dom() == Set::<usize>::empty(),
    ensures
        tiles(s, Set::empty()),
{
    assert forall|byte: int| !awaited(s, byte) by {
        if awaited(s, byte) {
            let k = choose|k: usize| #[trigger]
                s.pending.contains_key(k) && holds_byte(s.pending[k], s.pending[k].len as int, byte);
            assert(s.pending.dom().contains(k));
        }
    }
}

/// A transfer of which everything was submitted and nothing is pending has moved
/// every byte of the buffer.
pub proof fn law_end_tiles(s: ExactView, moved: Set<int>)
    requires
        tiles(s, moved),
        s.submitted == s.total_len,
        s.pending.dom() == Set::<usize>::empty(),
    ensures
        moved == range(s.total_len),
{
    assert forall|byte: int| #[trigger] moved.contains(byte) <==> range(s.total_len).contains(byte) by {
        if awaited(s, byte) {
            let k = choose|k: usize| #[trigger]
                s.pending.contains_key(k) && holds_byte(s.pending[k], s.pending[k].len as int, byte);
            assert(s.pending.dom().contains(k));
        }
    }
    assert(moved =~= range(s.total_len));
}

} // verus!
