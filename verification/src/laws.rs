//! Laws of the tables, stated over what they map.
use vstd::prelude::*;
use crate::buckets::{lookup, removal};

verus! {

/// A lookup of a key right after it was written answers the value written.
pub proof fn law_read_after_write(m: Map<usize, usize>, key: usize, value: usize)
    ensures
        lookup(m.insert(key, value), key) == Ok::<usize, usize>(value),
{
}

/// Writing one key leaves the answer for every other key as it was.
pub proof fn law_write_leaves_other_keys(m: Map<usize, usize>, key: usize, value: usize, other: usize)
    requires
        other != key,
    ensures
        lookup(m.insert(key, value), other) == lookup(m, other),
{
}

/// A lookup of a key right after its removal answers `Err(0)`.
pub proof fn law_read_after_remove(m: Map<usize, usize>, key: usize)
    ensures
        lookup(m.remove(key), key) == Err::<usize, usize>(0),
{
}

/// Removing one key leaves the answer for every other key as it was.
pub proof fn law_remove_leaves_other_keys(m: Map<usize, usize>, key: usize, other: usize)
    requires
        other != key,
    ensures
        lookup(m.remove(key), other) == lookup(m, other),
{
}

/// A removal succeeds exactly when a lookup of the same key does.
pub proof fn law_remove_succeeds_iff_found(m: Map<usize, usize>, key: usize)
    ensures
        removal(m, key) is Ok <==> lookup(m, key) is Ok,
{
}

/// A second removal of the same key fails.
pub proof fn law_remove_twice(m: Map<usize, usize>, key: usize)
    ensures
        removal(m.remove(key), key) == Err::<usize, usize>(0),
{
}

/// Writing the same key and value twice is the same as writing them once.
pub proof fn law_write_idempotent(m: Map<usize, usize>, key: usize, value: usize)
    ensures
        m.insert(key, value).insert(key, value) == m.insert(key, value),
{
    assert(m.insert(key, value).insert(key, value) =~= m.insert(key, value));
}

/// A new table answers `Err(0)` for every key.
pub proof fn law_new_table_is_empty(key: usize)
    ensures
        lookup(Map::<usize, usize>::empty(), key) == Err::<usize, usize>(0),
{
}

} // verus!
