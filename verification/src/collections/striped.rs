//! The growing striped table as a benchmark collection of `u64` keys.
use vstd::prelude::*;
use crate::buckets::Entry;
use crate::hashmaps::striped::{insert_ends, StripedHashTable};

verus! {

/// The slot that a `u64` key takes in the table: the key as a `usize`.
pub open spec fn slot_key(key: u64) -> usize {
    key as usize
}

/// A benchmark collection over a growing striped table. Every insertion writes
/// the value 0; an update adds one to the stored value.
pub struct StripedHashMapTable {
    table: StripedHashTable,
}

impl StripedHashMapTable {
    /// The buckets of the table.
    pub closed spec fn buckets(&self) -> Seq<Seq<Entry>> {
        self.table@
    }

    /// What the table maps.
    pub closed spec fn map(&self) -> Map<usize, usize> {
        self.table.map()
    }

    /// The table is well formed.
    pub closed spec fn inv(&self) -> bool {
        self.table.wf()
    }

    /// The table has a bucket to put keys in.
    pub open spec fn usable(&self) -> bool {
        self.inv() && self.buckets().len() > 0
    }

    /// A collection over a table of `capacity` empty buckets.
    pub fn with_capacity(capacity: usize) -> (c: Self)
        ensures
            c.inv(),
            c.buckets().len() == capacity,
            c.map() == Map::<usize, usize>::empty(),
    {
        StripedHashMapTable { table: StripedHashTable::with_capacity(capacity) }
    }

    /// Whether an insertion of `key` would end (see `insert_ends`).
    pub fn insert_would_end(&self, key: &u64) -> (r: bool)
        requires
            self.usable(),
        ensures
            r == insert_ends(self.buckets(), slot_key(*key)),
    {
        self.table.insert_would_end(#[verifier::truncate] (*key as usize))
    }

    /// Number of buckets.
    pub fn bucket_count(&self) -> (n: usize)
        ensures
            n == self.buckets().len(),
    {
        self.table.bucket_count()
    }

    /// The value of `key` when it is mapped.
    pub fn value_of(&self, key: &u64) -> (r: Option<usize>)
        requires
            self.usable(),
        ensures
            r == if self.map().contains_key(slot_key(*key)) {
                Some(self.map()[slot_key(*key)])
            } else {
                None::<usize>
            },
    {
        match self.table.get(#[verifier::truncate] (*key as usize)) {
            Ok(v) => Some(v),
            Err(_) => None,
        }
    }

    /// Whether `key` is mapped.
    pub fn get(&mut self, key: &u64) -> (r: bool)
        requires
            old(self).usable(),
        ensures
            *final(self) == *old(self),
            r == old(self).map().contains_key(slot_key(*key)),
    {
        self.table.get(#[verifier::truncate] (*key as usize)).is_ok()
    }

    /// Maps `key` to 0; always `true`.
    pub fn insert(&mut self, key: &u64) -> (r: bool)
        requires
            old(self).usable(),
            insert_ends(old(self).buckets(), slot_key(*key)),
        ensures
            final(self).usable(),
            final(self).map() == old(self).map().insert(slot_key(*key), 0),
            r,
    {
        self.table.insert_or_update(#[verifier::truncate] (*key as usize), 0).is_ok()
    }

    /// Unmaps `key`; `true` when it was mapped.
    pub fn remove(&mut self, key: &u64) -> (r: bool)
        requires
            old(self).usable(),
        ensures
            final(self).usable(),
            final(self).map() == old(self).map().remove(slot_key(*key)),
            final(self).buckets().len() == old(self).buckets().len(),
            r == old(self).map().contains_key(slot_key(*key)),
    {
        match self.table.remove(#[verifier::truncate] (*key as usize)) {
            Ok(_) => true,
            Err(_) => false,
        }
    }

    /// Adds one to the value of `key` when it is mapped; `true` when it was.
    pub fn update(&mut self, key: &u64) -> (r: bool)
        requires
            old(self).usable(),
            old(self).map().contains_key(slot_key(*key)) ==> {
                &&& old(self).map()[slot_key(*key)] < usize::MAX
                &&& insert_ends(old(self).buckets(), slot_key(*key))
            },
        ensures
            final(self).usable(),
            final(self).map() == if old(self).map().contains_key(slot_key(*key)) {
                old(self).map().insert(
                    slot_key(*key),
                    (old(self).map()[slot_key(*key)] + 1) as usize,
                )
            } else {
                old(self).map()
            },
            r == old(self).map().contains_key(slot_key(*key)),
    {
        let k = #[verifier::truncate] (*key as usize);
        match self.table.get(k) {
            Ok(value) => self.table.insert_or_update(k, value + 1).is_ok(),
            Err(_value) => false,
        }
    }
}

} // verus!
