//! That a transfer ends alike however its completions come.

use vstd::prelude::*;

use crate::driver::{op_result, CompletedOp};
use crate::error::ErrorView;
use crate::exact::{lens, short_error_of, ExactView, PendingChunk, TransferKind};
use crate::laws::failure::{completion_error, failing, reply_error};
use crate::laws::runs::{
    begins, is_run, law_run, law_same_end, lemma_cause, lemma_end, lemma_keeps_failing, lemma_well_ended,
    moved_by, smooth, step_at, unended, Moment,
};
use crate::laws::tiling::{gone, law_state_step};
use crate::reply::Reply;
use crate::sums::{lemma_sum_remove, lemma_sum_same};
use crate::transfer::PhaseView;

verus! {

/// What becomes of each chunk: the number of bytes that it is good for, or an
/// error.
pub type Fate = spec_fn(PendingChunk) -> Result<int, ErrorView>;

/// Whether a chunk is good for some of its bytes only.
pub open spec fn is_cut(fate: Fate, chunk: PendingChunk) -> bool {
    fate(chunk) matches Ok(n) && 0 < n < chunk.len
}

/// Whether a transfer that is not failing keeps to what becomes of its chunks: a
/// pending chunk that has completed has that outcome, and nothing is submitted
/// behind a chunk that is to be good for some of its bytes only.
pub open spec fn keeps_to(moment: Moment, fate: Fate) -> bool {
    let s = moment.transfer.state;
    let completed = moment.driver.completed;
    !failing(moment.transfer) ==> forall|id: usize| #[trigger]
        s.pending.contains_key(id) ==> {
            &&& completed.contains_key(id) ==> s.outcome(completed, id) == fate(s.pending[id])
            &&& is_cut(fate, s.pending[id]) ==> s.pending[id].offset + s.pending[id].len == s.submitted
        }
}

/// The chunk of a transfer that starts at a place in the buffer.
spec fn chunk_at(s: ExactView, place: int) -> PendingChunk {
    let rest = s.total_len - place;
    PendingChunk {
        offset: place as usize,
        len: (if rest <= s.chunk_size { rest } else { s.chunk_size }) as usize,
    }
}

/// Where a chunk of a transfer starts, counting the chunks from zero.
spec fn place(s: ExactView, fate: Fate, k: nat) -> int
    decreases k,
{
    if k == 0 {
        0
    } else {
        let before = place(s, fate, (k - 1) as nat);
        let chunk = chunk_at(s, before);
        before + (if is_cut(fate, chunk) { fate(chunk)->Ok_0 } else { chunk.len as int })
    }
}

/// A chunk of a transfer, counting from zero.
spec fn nth(s: ExactView, fate: Fate, k: nat) -> PendingChunk {
    chunk_at(s, place(s, fate, k))
}

/// Whether a chunk is pending.
spec fn awaits(s: ExactView, chunk: PendingChunk) -> bool {
    exists|id: usize| #[trigger] s.pending.contains_key(id) && s.pending[id] == chunk
}

/// Whether a number of chunks of a transfer were submitted, of which those that
/// are not pending any more were good.
spec fn along(start: ExactView, fate: Fate, k: nat, s: ExactView) -> bool {
    &&& s.submitted == if k > 0 && is_cut(fate, nth(start, fate, (k - 1) as nat)) && awaits(
        s,
        nth(start, fate, (k - 1) as nat),
    ) {
        place(start, fate, (k - 1) as nat) + nth(start, fate, (k - 1) as nat).len
    } else {
        place(start, fate, k)
    }
    &&& forall|id: usize| #[trigger]
        s.pending.contains_key(id) ==> exists|j: nat| j < k && s.pending[id] == #[trigger] nth(start, fate, j)
    &&& forall|j: nat|
        j < k ==> {
            &&& awaits(s, #[trigger] nth(start, fate, j)) || fate(nth(start, fate, j)) is Ok
            &&& j + 1 < k && is_cut(fate, nth(start, fate, j)) ==> !awaits(s, nth(start, fate, j))
            &&& 0 <= place(start, fate, j)
            &&& place(start, fate, j) < start.total_len || start.total_len == 0
        }
    &&& start.total_len == 0 ==> k == if s.submitted_zero { 1nat } else { 0 }
}

proof fn lemma_place_grows(s: ExactView, fate: Fate, j: nat, k: nat)
    requires
        j < k,
        s.wf(),
        forall|i: nat| i < k ==> 0 <= #[trigger] place(s, fate, i) < s.total_len,
    ensures
        place(s, fate, j) < place(s, fate, k),
    decreases k,
{
    let last = (k - 1) as nat;
    assert(nth(s, fate, last).len >= 1);
    if j < last {
        lemma_place_grows(s, fate, j, last);
    }
}

proof fn lemma_submit_along(start: ExactView, fate: Fate, k: nat, s: ExactView, id: usize)
    requires
        start.wf(),
        s.wf(),
        s.kind == start.kind,
        s.total_len == start.total_len,
        s.chunk_size == start.chunk_size,
        along(start, fate, k, s),
        s.next_chunk(1) is Some,
        !s.pending.contains_key(id),
        ({
            let after = s.submit(id, s.next_chunk(1)->Some_0);
            forall|i: usize| #[trigger]
                after.pending.contains_key(i) && is_cut(fate, after.pending[i]) ==> after.pending[i].offset
                    + after.pending[i].len == after.submitted
        }),
    ensures
        along(start, fate, k + 1, s.submit(id, s.next_chunk(1)->Some_0)),
{
    let chunk = s.next_chunk(1)->Some_0;
    let after = s.submit(id, chunk);
    let next = nth(start, fate, k);
    if k > 0 {
        let last = nth(start, fate, (k - 1) as nat);
        if is_cut(fate, last) && awaits(s, last) {
            let i = choose|i: usize| #[trigger] s.pending.contains_key(i) && s.pending[i] == last;
            assert(after.pending.contains_key(i));
            assert(false);
        }
    }
    assert(s.submitted == place(start, fate, k));
    assert(chunk == next);
    assert(after.pending.contains_key(id) && after.pending[id] == next);
    assert(awaits(after, next));
    assert(place(start, fate, k + 1) == place(start, fate, k) + (if is_cut(fate, next) {
        fate(next)->Ok_0
    } else {
        next.len as int
    }));
    assert forall|i: usize| #[trigger] after.pending.contains_key(i) implies exists|j: nat|
        j < k + 1 && after.pending[i] == #[trigger] nth(start, fate, j) by {
        if i != id {
            assert(s.pending.contains_key(i));
            let j = choose|j: nat| j < k && s.pending[i] == #[trigger] nth(start, fate, j);
            assert(after.pending[i] == nth(start, fate, j));
        }
    }
    assert forall|j: nat| j < k + 1 implies {
        &&& awaits(after, #[trigger] nth(start, fate, j)) || fate(nth(start, fate, j)) is Ok
        &&& j + 1 < k + 1 && is_cut(fate, nth(start, fate, j)) ==> !awaits(after, nth(start, fate, j))
        &&& 0 <= place(start, fate, j)
        &&& place(start, fate, j) < start.total_len || start.total_len == 0
    } by {
        let c = nth(start, fate, j);
        if j < k {
            if awaits(s, c) {
                let i = choose|i: usize| #[trigger] s.pending.contains_key(i) && s.pending[i] == c;
                assert(after.pending.contains_key(i) && after.pending[i] == c);
            }
            if is_cut(fate, c) && awaits(after, c) {
                let i = choose|i: usize| #[trigger] after.pending.contains_key(i) && after.pending[i] == c;
                assert forall|x: nat| x < k implies 0 <= #[trigger] place(start, fate, x) < start.total_len by {
                    assert(nth(start, fate, x) == chunk_at(start, place(start, fate, x)));
                }
                lemma_place_grows(start, fate, j, k);
                assert(i != id);
                assert(s.pending.contains_key(i) && s.pending[i] == c);
                assert(awaits(s, c));
                assert(false);
            }
        }
    }
}

/// What the chunks of a set that were cut short have missed.
proof fn lemma_missing(
    s: ExactView,
    fate: Fate,
    completed: Map<usize, CompletedOp>,
    ids: Set<usize>,
    cut: Option<usize>,
)
    requires
        ids.finite(),
        ids.subset_of(s.pending.dom()),
        forall|id: usize| #[trigger]
            ids.contains(id) ==> s.outcome(completed, id) is Ok && s.outcome(completed, id) == fate(s.pending[id]),
        forall|id: usize| #[trigger] ids.contains(id) && is_cut(fate, s.pending[id]) ==> cut == Some(id),
        cut matches Some(id) ==> ids.contains(id) && is_cut(fate, s.pending[id]),
    ensures
        s.credit(completed, ids).submitted == s.submitted - match cut {
            Some(id) => s.pending[id].len - fate(s.pending[id])->Ok_0,
            None => 0,
        },
{
    match cut {
        Some(id) => {
            lemma_sum_remove(ids, s.amounts(completed), id);
            lemma_sum_remove(ids, lens(s.pending), id);
            lemma_sum_same(ids.remove(id), s.amounts(completed), lens(s.pending));
        },
        None => lemma_sum_same(ids, s.amounts(completed), lens(s.pending)),
    }
}

proof fn lemma_credit_along(
    start: ExactView,
    fate: Fate,
    k: nat,
    s: ExactView,
    completed: Map<usize, CompletedOp>,
    ids: Set<usize>,
)
    requires
        start.wf(),
        s.wf(),
        s.total_len == start.total_len,
        along(start, fate, k, s),
        ids.finite(),
        ids.subset_of(s.ready(completed)),
        s.all_good(completed, ids),
        forall|id: usize| #[trigger]
            s.pending.contains_key(id) && completed.contains_key(id) ==> s.outcome(completed, id) == fate(
                s.pending[id],
            ),
    ensures
        along(start, fate, k, s.credit(completed, ids)),
{
    let after = s.credit(completed, ids);
    assert forall|id: usize| #[trigger] ids.contains(id) implies s.pending.contains_key(id) && s.outcome(
        completed,
        id,
    ) is Ok && s.outcome(completed, id) == fate(s.pending[id]) by {
        assert(s.ready(completed).contains(id));
    }
    assert forall|id: usize| #[trigger] s.pending.contains_key(id) && is_cut(fate, s.pending[id]) implies k > 0
        && s.pending[id] == nth(start, fate, (k - 1) as nat) by {
        let j = choose|j: nat| j < k && s.pending[id] == #[trigger] nth(start, fate, j);
        assert(awaits(s, nth(start, fate, j)));
    }
    assert forall|i: usize, j: usize|
        #![trigger s.pending.contains_key(i), s.pending.contains_key(j)]
        s.pending.contains_key(i) && s.pending.contains_key(j) && is_cut(fate, s.pending[i]) && is_cut(
            fate,
            s.pending[j],
        ) implies i == j by {}
    if exists|id: usize| #[trigger] ids.contains(id) && is_cut(fate, s.pending[id]) {
        let cut = choose|id: usize| #[trigger] ids.contains(id) && is_cut(fate, s.pending[id]);
        lemma_missing(s, fate, completed, ids, Some(cut));
        let last = nth(start, fate, (k - 1) as nat);
        assert(s.pending.contains_key(cut));
        assert(awaits(s, last));
        if awaits(after, last) {
            let i = choose|i: usize| #[trigger] after.pending.contains_key(i) && after.pending[i] == last;
            assert(s.pending.contains_key(i));
            assert(false);
        }
    } else {
        lemma_missing(s, fate, completed, ids, None);
        if k > 0 {
            let last = nth(start, fate, (k - 1) as nat);
            if is_cut(fate, last) {
                if awaits(s, last) {
                    let i = choose|i: usize| #[trigger] s.pending.contains_key(i) && s.pending[i] == last;
                    assert(!ids.contains(i));
                    assert(after.pending.contains_key(i) && after.pending[i] == last);
                }
                if awaits(after, last) {
                    let i = choose|i: usize| #[trigger] after.pending.contains_key(i) && after.pending[i] == last;
                    assert(s.pending.contains_key(i) && s.pending[i] == last);
                }
            }
        }
    }
    assert forall|id: usize| #[trigger] after.pending.contains_key(id) implies exists|j: nat|
        j < k && after.pending[id] == #[trigger] nth(start, fate, j) by {
        assert(s.pending.contains_key(id));
    }
    assert forall|j: nat| j < k implies {
        &&& awaits(after, #[trigger] nth(start, fate, j)) || fate(nth(start, fate, j)) is Ok
        &&& j + 1 < k && is_cut(fate, nth(start, fate, j)) ==> !awaits(after, nth(start, fate, j))
    } by {
        let c = nth(start, fate, j);
        if awaits(s, c) {
            let i = choose|i: usize| #[trigger] s.pending.contains_key(i) && s.pending[i] == c;
            if !ids.contains(i) {
                assert(after.pending.contains_key(i) && after.pending[i] == c);
            }
        }
        if awaits(after, c) {
            let i = choose|i: usize| #[trigger] after.pending.contains_key(i) && after.pending[i] == c;
            assert(s.pending.contains_key(i) && s.pending[i] == c);
        }
    }
}

/// The chunks that a transfer has submitted depend on what becomes of its chunks
/// alone.
proof fn lemma_run_along(moments: Seq<Moment>, replies: Seq<Reply>, fate: Fate, i: int) -> (k: nat)
    requires
        is_run(moments, replies),
        begins(moments[0]),
        unended(moments),
        forall|j: int| 0 <= j < moments.len() ==> keeps_to(#[trigger] moments[j], fate),
        0 <= i < moments.len(),
        !failing(moments[i].transfer),
    ensures
        along(moments[0].transfer.state, fate, k, moments[i].transfer.state),
    decreases i,
{
    let start = moments[0].transfer.state;
    assert(moments[0].transfer.wf(moments[0].driver));
    if i == 0 {
        0
    } else {
        let m = moments[i - 1];
        let m1 = moments[i];
        if failing(m.transfer) {
            lemma_keeps_failing(moments, replies, i - 1, i);
        }
        let k = lemma_run_along(moments, replies, fate, i - 1);
        law_run(moments, replies, i - 1);
        assert(step_at(moments, replies, i - 1));
        assert(!(m.transfer.phase is Finished));
        law_state_step(m.transfer, m.driver, replies[i - 1], m1.transfer, m1.driver);
        assert(keeps_to(m, fate));
        assert(keeps_to(m1, fate));
        match (m.transfer.phase, replies[i - 1]) {
            (PhaseView::Submit(submission), Reply::Submitted(Ok(1))) => {
                lemma_submit_along(start, fate, k, m.transfer.state, submission.handle.0);
                k + 1
            },
            _ => {
                let ids = gone(m.transfer.state, m1.transfer.state);
                lemma_credit_along(start, fate, k, m.transfer.state, m.driver.completed, ids);
                k
            },
        }
    }
}

/// If a transfer ends well, no run of the same transfer has a pending chunk that
/// an error becomes of.
proof fn lemma_no_bad_chunk(
    a: Seq<Moment>,
    a_replies: Seq<Reply>,
    b: Seq<Moment>,
    b_replies: Seq<Reply>,
    fate: Fate,
    i: int,
    id: usize,
)
    requires
        is_run(a, a_replies),
        is_run(b, b_replies),
        begins(a[0]),
        begins(b[0]),
        a[0].transfer.state == b[0].transfer.state,
        unended(a),
        unended(b),
        forall|j: int| 0 <= j < a.len() ==> keeps_to(#[trigger] a[j], fate),
        forall|j: int| 0 <= j < b.len() ==> keeps_to(#[trigger] b[j], fate),
        a.last().transfer.phase == PhaseView::Finished(Ok(())),
        0 <= i < b.len(),
        !failing(b[i].transfer),
        b[i].transfer.state.pending.contains_key(id),
    ensures
        fate(b[i].transfer.state.pending[id]) is Ok,
{
    let start = a[0].transfer.state;
    let s = a.last().transfer.state;
    let r = b[i].transfer.state;
    let n = lemma_run_along(a, a_replies, fate, a.len() - 1);
    let k = lemma_run_along(b, b_replies, fate, i);
    lemma_end(a, a_replies);
    law_run(a, a_replies, a.len() - 1);
    law_run(b, b_replies, i);
    assert(a[0].transfer.wf(a[0].driver));
    assert(b[i].transfer.wf(b[i].driver));
    assert forall|chunk: PendingChunk| !awaits(s, chunk) by {
        if awaits(s, chunk) {
            let x = choose|x: usize| #[trigger] s.pending.contains_key(x) && s.pending[x] == chunk;
            assert(s.pending.dom().contains(x));
        }
    }
    assert(place(start, fate, n) == start.total_len);
    let j = choose|j: nat| j < k && r.pending[id] == #[trigger] nth(start, fate, j);
    if n <= j {
        assert(nth(start, fate, n) == chunk_at(start, start.total_len));
    }
}

/// Whether a run fails by a chunk: it ends with the error that becomes of it.
pub open spec fn fails_by(moments: Seq<Moment>, fate: Fate, chunk: PendingChunk) -> bool {
    fate(chunk) matches Err(error) && moments.last().transfer.phase == PhaseView::Finished(Err(error))
}

/// A transfer fails by one of its pending chunks if its submissions and waits do
/// not fail.
proof fn lemma_fails_by(moments: Seq<Moment>, replies: Seq<Reply>, fate: Fate) -> (at: (int, usize))
    requires
        is_run(moments, replies),
        begins(moments[0]),
        unended(moments),
        smooth(moments, replies),
        forall|j: int| 0 <= j < moments.len() ==> keeps_to(#[trigger] moments[j], fate),
        moments.last().transfer.phase is Finished,
        failing(moments.last().transfer),
    ensures
        0 <= at.0 < moments.len(),
        !failing(moments[at.0].transfer),
        moments[at.0].transfer.state.pending.contains_key(at.1),
        fails_by(moments, fate, moments[at.0].transfer.state.pending[at.1]),
{
    let error = moments.last().transfer.phase->Finished_0->Err_0;
    let i = lemma_cause(moments, replies, moments.len() - 1, error);
    let s = moments[i].transfer.state;
    let completed = moments[i].driver.completed;
    assert(reply_error(moments[i].transfer, replies[i]) is None);
    assert(completion_error(s, moments[i].driver, error));
    let id = choose|id: usize| #[trigger]
        s.ready(completed).contains(id) && s.outcome(completed, id) == Err::<int, ErrorView>(error);
    assert(keeps_to(moments[i], fate));
    assert(s.pending.contains_key(id));
    (i, id)
}

/// Whether two runs both end well, in the same state and with idle drivers, or
/// both fail.
pub open spec fn ends_alike(a: Seq<Moment>, b: Seq<Moment>) -> bool {
    if a.last().transfer.phase == PhaseView::Finished(Ok(())) {
        &&& b.last().transfer.phase == PhaseView::Finished(Ok(()))
        &&& a.last().transfer.state == b.last().transfer.state
        &&& a.last().driver.idle()
        &&& b.last().driver.idle()
        &&& moved_by(a, a.len() - 1) == moved_by(b, b.len() - 1)
    } else {
        failing(a.last().transfer) && failing(b.last().transfer)
    }
}

/// The same transfer, run twice in whatever ways of waiting, blocking or polled,
/// and with completions in whatever order and batches, ends alike if the same
/// becomes of its chunks both times and its submissions and waits do not fail.
/// If it ends well it ends in the same state with the same bytes moved. If it
/// fails, it fails both times by a chunk.
pub proof fn law_end_alike(a: Seq<Moment>, a_replies: Seq<Reply>, b: Seq<Moment>, b_replies: Seq<Reply>, fate: Fate)
    requires
        is_run(a, a_replies),
        is_run(b, b_replies),
        begins(a[0]),
        begins(b[0]),
        a[0].transfer.state == b[0].transfer.state,
        unended(a),
        unended(b),
        smooth(a, a_replies),
        smooth(b, b_replies),
        forall|j: int| 0 <= j < a.len() ==> keeps_to(#[trigger] a[j], fate),
        forall|j: int| 0 <= j < b.len() ==> keeps_to(#[trigger] b[j], fate),
        a.last().transfer.phase is Finished,
        b.last().transfer.phase is Finished,
    ensures
        ends_alike(a, b),
        failing(a.last().transfer) ==> {
            &&& exists|chunk: PendingChunk| #[trigger] fails_by(a, fate, chunk)
            &&& exists|chunk: PendingChunk| #[trigger] fails_by(b, fate, chunk)
        },
{
    if failing(a.last().transfer) {
        let (i, id) = lemma_fails_by(a, a_replies, fate);
        if !failing(b.last().transfer) {
            lemma_well_ended(b.last().transfer);
            lemma_no_bad_chunk(b, b_replies, a, a_replies, fate, i, id);
        }
    } else {
        lemma_well_ended(a.last().transfer);
    }
    if failing(b.last().transfer) {
        let (i, id) = lemma_fails_by(b, b_replies, fate);
        if !failing(a.last().transfer) {
            lemma_no_bad_chunk(a, a_replies, b, b_replies, fate, i, id);
        }
    } else {
        lemma_well_ended(b.last().transfer);
        law_same_end(a, a_replies, b, b_replies);
    }
}

/// Whether a chunk was pending in a run before the transfer failed, if it did.
pub open spec fn was_pending(moments: Seq<Moment>, chunk: PendingChunk) -> bool {
    exists|i: int, id: usize|
        #![trigger moments[i].transfer.state.pending.contains_key(id)]
        {
            &&& 0 <= i < moments.len()
            &&& !failing(moments[i].transfer)
            &&& moments[i].transfer.state.pending.contains_key(id)
            &&& moments[i].transfer.state.pending[id] == chunk
        }
}

/// Whether an error becomes of a chunk and of no other one.
pub open spec fn only_bad(fate: Fate, bad: PendingChunk) -> bool {
    &&& fate(bad) is Err
    &&& forall|chunk: PendingChunk| chunk != bad ==> #[trigger] fate(chunk) is Ok
}

/// If an error becomes of just one chunk, and the chunk is submitted in a run of
/// the transfer, then the transfer fails with the error of that chunk in this
/// and in every other run, however it waits and the completions come.
pub proof fn law_bad_chunk(
    a: Seq<Moment>,
    a_replies: Seq<Reply>,
    b: Seq<Moment>,
    b_replies: Seq<Reply>,
    fate: Fate,
    bad: PendingChunk,
)
    requires
        is_run(a, a_replies),
        is_run(b, b_replies),
        begins(a[0]),
        begins(b[0]),
        a[0].transfer.state == b[0].transfer.state,
        unended(a),
        unended(b),
        smooth(a, a_replies),
        smooth(b, b_replies),
        forall|j: int| 0 <= j < a.len() ==> keeps_to(#[trigger] a[j], fate),
        forall|j: int| 0 <= j < b.len() ==> keeps_to(#[trigger] b[j], fate),
        a.last().transfer.phase is Finished,
        b.last().transfer.phase is Finished,
        only_bad(fate, bad),
        was_pending(a, bad) || was_pending(b, bad),
    ensures
        fails_by(a, fate, bad),
        fails_by(b, fate, bad),
{
    law_end_alike(a, a_replies, b, b_replies, fate);
    if !failing(a.last().transfer) {
        if was_pending(a, bad) {
            lemma_was_pending(a, a_replies, a, a_replies, fate, bad);
        } else {
            lemma_was_pending(a, a_replies, b, b_replies, fate, bad);
        }
    }
    let first = choose|chunk: PendingChunk| #[trigger] fails_by(a, fate, chunk);
    let second = choose|chunk: PendingChunk| #[trigger] fails_by(b, fate, chunk);
    assert(fails_by(a, fate, first) && fails_by(b, fate, second));
    assert(first == bad && second == bad);
}

proof fn lemma_was_pending(
    a: Seq<Moment>,
    a_replies: Seq<Reply>,
    b: Seq<Moment>,
    b_replies: Seq<Reply>,
    fate: Fate,
    chunk: PendingChunk,
)
    requires
        is_run(a, a_replies),
        is_run(b, b_replies),
        begins(a[0]),
        begins(b[0]),
        a[0].transfer.state == b[0].transfer.state,
        unended(a),
        unended(b),
        forall|j: int| 0 <= j < a.len() ==> keeps_to(#[trigger] a[j], fate),
        forall|j: int| 0 <= j < b.len() ==> keeps_to(#[trigger] b[j], fate),
        a.last().transfer.phase == PhaseView::Finished(Ok(())),
        was_pending(b, chunk),
    ensures
        fate(chunk) is Ok,
{
    let (i, id) = choose|i: int, id: usize|
        #![trigger b[i].transfer.state.pending.contains_key(id)]
        {
            &&& 0 <= i < b.len()
            &&& !failing(b[i].transfer)
            &&& b[i].transfer.state.pending.contains_key(id)
            &&& b[i].transfer.state.pending[id] == chunk
        };
    lemma_no_bad_chunk(a, a_replies, b, b_replies, fate, i, id);
}

/// The result that the kernel gives for each chunk.
pub type Answer = spec_fn(PendingChunk) -> i64;

/// Whether the kernel gives a transfer that is not failing the results of an
/// answer.
pub open spec fn answered(moment: Moment, answer: Answer) -> bool {
    let s = moment.transfer.state;
    let completed = moment.driver.completed;
    !failing(moment.transfer) ==> forall|id: usize| #[trigger]
        s.pending.contains_key(id) && completed.contains_key(id) ==> completed[id].res == answer(s.pending[id])
}

/// Whether a chunk reaches to the end of the buffer, so that nothing is submitted
/// behind it.
pub open spec fn reaches_end(s: ExactView, chunk: PendingChunk) -> bool {
    chunk.offset + chunk.len == s.total_len
}

/// Whether a result cuts a chunk of a read short.
pub open spec fn cuts(s: ExactView, chunk: PendingChunk, res: i64) -> bool {
    s.kind == TransferKind::Read && (op_result(res) matches Ok(actual) && 0 < actual < chunk.len)
}

/// What becomes of each chunk of a transfer if the kernel cuts no chunk short
/// but those that reach to the end of the buffer.
pub open spec fn fate_of(s: ExactView, answer: Answer) -> Fate {
    |chunk: PendingChunk|
        match op_result(answer(chunk)) {
            Ok(actual) => if actual == chunk.len || cuts(s, chunk, answer(chunk)) {
                Ok(actual)
            } else {
                Err(short_error_of(s.kind, chunk.len as int, actual))
            },
            Err(error) => Err(error),
        }
}

proof fn lemma_answered(moments: Seq<Moment>, replies: Seq<Reply>, answer: Answer)
    requires
        is_run(moments, replies),
        begins(moments[0]),
        forall|j: int| 0 <= j < moments.len() ==> answered(#[trigger] moments[j], answer),
        forall|chunk: PendingChunk| #[trigger]
            cuts(moments[0].transfer.state, chunk, answer(chunk)) ==> reaches_end(moments[0].transfer.state, chunk),
    ensures
        forall|j: int|
            0 <= j < moments.len() ==> keeps_to(#[trigger] moments[j], fate_of(moments[0].transfer.state, answer)),
{
    let start = moments[0].transfer.state;
    assert forall|j: int| 0 <= j < moments.len() implies keeps_to(#[trigger] moments[j], fate_of(start, answer)) by {
        law_run(moments, replies, j);
        let s = moments[j].transfer.state;
        assert(moments[j].transfer.wf(moments[j].driver));
        assert(answered(moments[j], answer));
        if !failing(moments[j].transfer) {
            assert forall|id: usize| #[trigger] s.pending.contains_key(id) implies {
                let fate = fate_of(start, answer);
                let chunk = s.pending[id];
                let completed = moments[j].driver.completed;
                &&& completed.contains_key(id) ==> s.outcome(completed, id) == fate(chunk)
                &&& is_cut(fate, chunk) ==> chunk.offset + chunk.len == s.submitted
            } by {
                let chunk = s.pending[id];
                if cuts(start, chunk, answer(chunk)) {
                    assert(reaches_end(start, chunk));
                }
            }
        }
    }
}

/// A polled and a blocking run of the same transfer, or any two, end alike if the
/// kernel gives the same results for the same chunks, in whatever order and
/// batches, and the submissions and waits do not fail. If just one chunk that is
/// submitted in either of them completes badly, both end with the error of that
/// chunk. The kernel must not cut a chunk of a read short that more can be
/// submitted behind: it depends on the batches whether that is an error.
pub proof fn law_same_answers(
    a: Seq<Moment>,
    a_replies: Seq<Reply>,
    b: Seq<Moment>,
    b_replies: Seq<Reply>,
    answer: Answer,
)
    requires
        is_run(a, a_replies),
        is_run(b, b_replies),
        begins(a[0]),
        begins(b[0]),
        a[0].transfer.state == b[0].transfer.state,
        unended(a),
        unended(b),
        smooth(a, a_replies),
        smooth(b, b_replies),
        forall|j: int| 0 <= j < a.len() ==> answered(#[trigger] a[j], answer),
        forall|j: int| 0 <= j < b.len() ==> answered(#[trigger] b[j], answer),
        forall|chunk: PendingChunk| #[trigger]
            cuts(a[0].transfer.state, chunk, answer(chunk)) ==> reaches_end(a[0].transfer.state, chunk),
        a.last().transfer.phase is Finished,
        b.last().transfer.phase is Finished,
    ensures
        ends_alike(a, b),
        failing(a.last().transfer) ==> {
            let fate = fate_of(a[0].transfer.state, answer);
            &&& exists|chunk: PendingChunk| #[trigger] fails_by(a, fate, chunk)
            &&& exists|chunk: PendingChunk| #[trigger] fails_by(b, fate, chunk)
        },
        forall|bad: PendingChunk| #[trigger]
            only_bad(fate_of(a[0].transfer.state, answer), bad) && (was_pending(a, bad) || was_pending(b, bad)) ==> {
                let fate = fate_of(a[0].transfer.state, answer);
                &&& fails_by(a, fate, bad)
                &&& fails_by(b, fate, bad)
            },
{
    let fate = fate_of(a[0].transfer.state, answer);
    lemma_answered(a, a_replies, answer);
    lemma_answered(b, b_replies, answer);
    law_end_alike(a, a_replies, b, b_replies, fate);
    assert forall|bad: PendingChunk| #[trigger]
        only_bad(fate, bad) && (was_pending(a, bad) || was_pending(b, bad)) implies fails_by(a, fate, bad) && fails_by(
        b,
        fate,
        bad,
    ) by {
        law_bad_chunk(a, a_replies, b, b_replies, fate, bad);
    }
}

} // verus!
