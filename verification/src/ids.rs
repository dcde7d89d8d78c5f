//! Lists of operation numbers.

use std::collections::{HashMap, HashSet};
use vstd::prelude::*;
use vstd::std_specs::iter::IteratorSpec;

verus! {

broadcast use vstd::std_specs::hash::group_hash_axioms;

/// The keys of a map, each once, in no particular order.
pub fn map_keys<V>(map: &HashMap<usize, V>) -> (ids: Vec<usize>)
    ensures
        ids@.no_duplicates(),
        ids@.to_set() == map@.dom(),
        map@.dom().finite(),
{
    let ghost all = map.keys().remaining().unref();
    let mut ids: Vec<usize> = Vec::new();
    for id in it: map.keys()
        invariant
            it.seq().unref() == all,
            ids@ =~= all.take(it.index()),
    {
        ids.push(*id);
    }
    assert(ids@ =~= all);
    ids
}

/// The members of a set, each once, in no particular order.
pub fn set_members(set: &HashSet<usize>) -> (ids: Vec<usize>)
    ensures
        ids@.no_duplicates(),
        ids@.to_set() == set@,
        set@.finite(),
{
    let ghost all = set.iter().remaining().unref();
    let mut ids: Vec<usize> = Vec::new();
    for id in it: set.iter()
        invariant
            it.seq().unref() == all,
            ids@ =~= all.take(it.index()),
    {
        ids.push(*id);
    }
    assert(ids@ =~= all);
    ids
}

} // verus!
