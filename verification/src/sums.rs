//! Sums over finite sets of operation numbers.

use vstd::prelude::*;

verus! {

/// The sum of `f` over a finite set.
pub open spec fn sum(ids: Set<usize>, f: spec_fn(usize) -> int) -> int
    decreases ids.len(),
    when ids.finite()
{
    if ids.len() == 0 {
        0
    } else {
        let id = ids.choose();
        f(id) + sum(ids.remove(id), f)
    }
}

/// The sum over no number is zero.
pub proof fn lemma_sum_empty(f: spec_fn(usize) -> int)
    ensures
        sum(Set::empty(), f) == 0,
{
}

/// A number of the set can be taken out of its sum.
pub proof fn lemma_sum_remove(ids: Set<usize>, f: spec_fn(usize) -> int, id: usize)
    requires
        ids.finite(),
        ids.contains(id),
    ensures
        sum(ids, f) == f(id) + sum(ids.remove(id), f),
    decreases ids.len(),
{
    let first = ids.choose();
    if first != id {
        let rest = ids.remove(first);
        lemma_sum_remove(rest, f, id);
        lemma_sum_remove(ids.remove(id), f, first);
        assert(rest.remove(id) =~= ids.remove(id).remove(first));
    }
}

/// A number that is not in the set can be added to its sum.
pub proof fn lemma_sum_insert(ids: Set<usize>, f: spec_fn(usize) -> int, id: usize)
    requires
        ids.finite(),
        !ids.contains(id),
    ensures
        sum(ids.insert(id), f) == f(id) + sum(ids, f),
{
    lemma_sum_remove(ids.insert(id), f, id);
    assert(ids.insert(id).remove(id) =~= ids);
}

/// A sum depends on the values over its set alone.
pub proof fn lemma_sum_same(ids: Set<usize>, f: spec_fn(usize) -> int, g: spec_fn(usize) -> int)
    requires
        ids.finite(),
        forall|id: usize| #[trigger] ids.contains(id) ==> f(id) == g(id),
    ensures
        sum(ids, f) == sum(ids, g),
    decreases ids.len(),
{
    if ids.len() != 0 {
        let id = ids.choose();
        assert(ids.contains(id));
        lemma_sum_same(ids.remove(id), f, g);
    }
}

/// A sum of values that are not negative is not negative.
pub proof fn lemma_sum_nonnegative(ids: Set<usize>, f: spec_fn(usize) -> int)
    requires
        ids.finite(),
        forall|id: usize| #[trigger] ids.contains(id) ==> f(id) >= 0,
    ensures
        sum(ids, f) >= 0,
    decreases ids.len(),
{
    if ids.len() != 0 {
        let id = ids.choose();
        assert(ids.contains(id));
        lemma_sum_nonnegative(ids.remove(id), f);
    }
}

} // verus!
