//! A striped hash table with a fixed number of buckets.
use vstd::prelude::*;
use crate::buckets::{
    lookup, removal, buckets_wf, clear_entry, contents, find_live, holds_key, home, lemma_clear_entry,
    lemma_live_index_unique, lemma_put_entry, live_at, live_index, put_entry, Entry,
};

verus! {

/// A hash table of `usize` keys and values, spread over a fixed number of buckets.
/// Removal marks an entry dead and leaves its slot in the bucket.
pub struct StripedHashTable {
    buckets: Vec<Vec<Entry>>,
}

impl View for StripedHashTable {
    type V = Seq<Seq<Entry>>;

    closed spec fn view(&self) -> Seq<Seq<Entry>> {
        Seq::new(self.buckets@.len(), |i: int| self.buckets@[i]@)
    }
}

impl StripedHashTable {
    /// The table's buckets are well formed.
    pub open spec fn wf(&self) -> bool {
        buckets_wf(self@)
    }

    /// What the table maps.
    pub open spec fn map(&self) -> Map<usize, usize> {
        contents(self@)
    }

    /// A table of `capacity` empty buckets.
    pub fn with_capacity(capacity: usize) -> (t: Self)
        ensures
            t.wf(),
            t@.len() == capacity,
            forall|i: int| 0 <= i < capacity ==> (#[trigger] t@[i]).len() == 0,
            t.map() == Map::<usize, usize>::empty(),
    {
        let mut buckets: Vec<Vec<Entry>> = Vec::new();
        let mut i: usize = 0;
        while i < capacity
            invariant
                i <= capacity,
                buckets@.len() == i,
                forall|j: int| 0 <= j < i ==> (#[trigger] buckets@[j])@.len() == 0,
            decreases capacity - i,
        {
            buckets.push(Vec::new());
            i = i + 1;
        }
        let t = StripedHashTable { buckets };
        assert(t.map() =~= Map::<usize, usize>::empty()) by {
            assert forall|k: usize| !#[trigger] t.map().contains_key(k) by {
                if t@.len() > 0 {
                    let b = home(t@, k);
                    assert(b.len() == 0);
                    if holds_key(b, k) {
                        assert(live_at(b, k, live_index(b, k)));
                    }
                }
            }
        }
        t
    }

    /// Number of buckets.
    pub fn bucket_count(&self) -> (n: usize)
        ensures
            n == self@.len(),
    {
        self.buckets.len()
    }

    /// Looks `key` up: `Ok` with its value, or `Err(0)` when it is not mapped.
    pub fn get(&self, key: usize) -> (r: Result<usize, usize>)
        requires
            self.wf(),
            self@.len() > 0,
        ensures
            r == lookup(self.map(), key),
    {
        let index = key % self.buckets.len();
        let bucket = &self.buckets[index];
        assert(bucket@ == home(self@, key));
        match find_live(bucket, key) {
            Some(i) => {
                proof {
                    lemma_live_index_unique(bucket@, key, i as int);
                }
                Ok(bucket[i].1)
            },
            None => Err(0),
        }
    }

    /// Maps `key` to `value`, over the live entry of `key` if there is one and in a
    /// new slot at the end of its bucket otherwise. Always `Ok(0)`.
    pub fn insert_or_update(&mut self, key: usize, value: usize) -> (r: Result<i32, i32>)
        requires
            old(self).wf(),
            old(self)@.len() > 0,
        ensures
            final(self).wf(),
            final(self).map() == old(self).map().insert(key, value),
            r == Ok::<i32, i32>(0),
            final(self)@ == put_entry(old(self)@, key, value),
    {
        let ghost old_view = self@;
        let index = key % self.buckets.len();
        assert(self.buckets@[index as int]@ == home(old_view, key));
        proof {
            lemma_put_entry(old_view, key, value);
        }
        match find_live(&self.buckets[index], key) {
            Some(i) => {
                proof {
                    lemma_live_index_unique(self.buckets@[index as int]@, key, i as int);
                }
                self.buckets[index].set(i, (key, value, 1));
            },
            None => {
                self.buckets[index].push((key, value, 1));
            },
        }
        assert(self@ =~= put_entry(old_view, key, value));
        Ok(0)
    }

    /// Unmaps `key` by clearing the flag of its live entry: `Ok(0)` when it was
    /// mapped, `Err(0)` (and nothing changes) when it was not.
    pub fn remove(&mut self, key: usize) -> (r: Result<usize, usize>)
        requires
            old(self).wf(),
            old(self)@.len() > 0,
        ensures
            final(self).wf(),
            final(self).map() == old(self).map().remove(key),
            r == removal(old(self).map(), key),
            final(self)@ == clear_entry(old(self)@, key),
    {
        let ghost old_view = self@;
        let index = key % self.buckets.len();
        assert(self.buckets@[index as int]@ == home(old_view, key));
        match find_live(&self.buckets[index], key) {
            Some(i) => {
                proof {
                    lemma_live_index_unique(self.buckets@[index as int]@, key, i as int);
                    lemma_clear_entry(old_view, key);
                }
                let e = self.buckets[index][i];
                self.buckets[index].set(i, (e.0, e.1, 0));
                assert(self@ =~= clear_entry(old_view, key));
                Ok(0)
            },
            None => {
                assert(contents(old_view).remove(key) =~= contents(old_view));
                assert(self@ =~= clear_entry(old_view, key));
                Err(0)
            },
        }
    }
}

} // verus!
