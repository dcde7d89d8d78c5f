//! The slab that numbers the operations in flight.

use slab::Slab;
use vstd::prelude::*;

use crate::request::InFlight;

verus! {

/// `slab::Slab`, which keeps values under keys of its own choice. Nothing is
/// claimed of the type here.
#[verifier::external_type_specification]
#[verifier::external_body]
#[verifier::reject_recursive_types(T)]
pub struct ExSlab<T>(slab::Slab<T>);

/// The operations that a slab holds, by key.
pub uninterp spec fn slab_contents(slab: Slab<InFlight>) -> Map<usize, InFlight>;

/// The number of operations that a slab was made for.
pub uninterp spec fn slab_limit(slab: Slab<InFlight>) -> nat;

/// The keys that a slab has taken back and not given again, the one taken back
/// last at the end.
pub uninterp spec fn slab_vacated(slab: Slab<InFlight>) -> Seq<usize>;

/// The key of the next insertion: the one taken back last, or else the number
/// of operations held.
pub open spec fn next_key(contents: Map<usize, InFlight>, vacated: Seq<usize>) -> int {
    if vacated.len() == 0 {
        contents.dom().len() as int
    } else {
        vacated.last() as int
    }
}

/// The keys taken back that are left after an insertion.
pub open spec fn rest_vacated(vacated: Seq<usize>) -> Seq<usize> {
    if vacated.len() == 0 {
        vacated
    } else {
        vacated.drop_last()
    }
}

/// Upper bound of the bytes that a slab spends on one operation.
pub const SLOT_BYTES: usize = 64;

/// `Slab::with_capacity`: the slab is empty, has no vacated key and can take
/// `capacity` operations without allocating again. The storage must fit into
/// the address space, as it has to for any vector.
#[verifier::external_body]
pub(crate) fn slab_with_capacity(capacity: usize) -> (slots: Slab<InFlight>)
    requires
        capacity * SLOT_BYTES <= isize::MAX,
    ensures
        slab_contents(slots).dom() == Set::<usize>::empty(),
        slab_limit(slots) == capacity,
        slab_vacated(slots) == Seq::<usize>::empty(),
{
    Slab::with_capacity(capacity)
}

/// `Slab::len`: the number of operations held.
#[verifier::external_body]
pub(crate) fn slab_len(slab: &Slab<InFlight>) -> (len: usize)
    ensures
        len == slab_contents(*slab).dom().len(),
{
    slab.len()
}

/// `Slab::is_empty`: whether no operation is held.
#[verifier::external_body]
pub(crate) fn slab_is_empty(slab: &Slab<InFlight>) -> (empty: bool)
    ensures
        empty == (slab_contents(*slab).dom() == Set::<usize>::empty()),
{
    slab.is_empty()
}

/// `Slab::contains`: whether an operation has the key.
#[verifier::external_body]
pub(crate) fn slab_contains(slab: &Slab<InFlight>, key: usize) -> (found: bool)
    ensures
        found == slab_contents(*slab).contains_key(key),
{
    slab.contains(key)
}

/// `Slab::get`: the operation that has the key, if any.
#[verifier::external_body]
pub(crate) fn slab_get(slab: &Slab<InFlight>, key: usize) -> (op: Option<&InFlight>)
    ensures
        match op {
            Some(op) => slab_contents(*slab).contains_key(key) && *op == slab_contents(*slab)[key],
            None => !slab_contents(*slab).contains_key(key),
        },
{
    slab.get(key)
}

/// `Slab::vacant_key`: the key of the next insertion.
#[verifier::external_body]
pub(crate) fn slab_vacant_key(slab: &Slab<InFlight>) -> (key: usize)
    ensures
        key == next_key(slab_contents(*slab), slab_vacated(*slab)),
{
    slab.vacant_key()
}

/// `Slab::insert`: the operation is added under the key taken back last, or
/// else under the number of operations held, which is the first key that was
/// never given. A slab that holds fewer operations than it was made for does
/// not allocate here.
#[verifier::external_body]
pub(crate) fn slab_insert(slab: &mut Slab<InFlight>, op: InFlight) -> (key: usize)
    requires
        slab_contents(*old(slab)).dom().len() < slab_limit(*old(slab)),
    ensures
        key == next_key(slab_contents(*old(slab)), slab_vacated(*old(slab))),
        slab_contents(*final(slab)) == slab_contents(*old(slab)).insert(key, op),
        slab_vacated(*final(slab)) == rest_vacated(slab_vacated(*old(slab))),
        slab_limit(*final(slab)) == slab_limit(*old(slab)),
{
    slab.insert(op)
}

/// `Slab::remove`: the operation that has the key is taken out, and its key is
/// the next one to be given.
#[verifier::external_body]
pub(crate) fn slab_remove(slab: &mut Slab<InFlight>, key: usize) -> (op: InFlight)
    requires
        slab_contents(*old(slab)).contains_key(key),
    ensures
        op == slab_contents(*old(slab))[key],
        slab_contents(*final(slab)) == slab_contents(*old(slab)).remove(key),
        slab_limit(*final(slab)) == slab_limit(*old(slab)),
        slab_vacated(*final(slab)) == slab_vacated(*old(slab)).push(key),
{
    slab.remove(key)
}

/// `Slab::iter`: the keys of the operations held, in ascending order.
#[verifier::external_body]
pub(crate) fn slab_keys(slab: &Slab<InFlight>) -> (keys: Vec<usize>)
    ensures
        keys@.to_set() == slab_contents(*slab).dom(),
        forall|i: int, j: int| 0 <= i < j < keys@.len() ==> keys@[i] < keys@[j],
{
    slab.iter().map(|entry| entry.0).collect()
}

} // verus!
