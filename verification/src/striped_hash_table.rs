//! A hash table whose key spreading and bucket count are set apart from its data.
use vstd::prelude::*;

verus! {

/// Remainder of `a` by `b > 0` rounded toward zero, as `%` computes it on `i32`.
pub open spec fn rem_toward_zero(a: int, b: int) -> int {
    if a >= 0 {
        a % b
    } else {
        -((-a) % b)
    }
}

/// Position of the first entry of `b` at or after `i` whose key is `key`.
pub open spec fn first_match_from(b: Seq<(i32, i32)>, key: i32, i: int) -> Option<int>
    decreases b.len() - i,
{
    if i < 0 || i >= b.len() {
        None
    } else if b[i].0 == key {
        Some(i)
    } else {
        first_match_from(b, key, i + 1)
    }
}

/// Position of the first entry of `b` whose key is `key`.
pub open spec fn first_match(b: Seq<(i32, i32)>, key: i32) -> Option<int> {
    first_match_from(b, key, 0)
}

/// `b` with the value of every entry whose key is `key` set to `value`.
pub open spec fn set_matches(b: Seq<(i32, i32)>, key: i32, value: i32) -> Seq<(i32, i32)> {
    Seq::new(b.len(), |i: int| if b[i].0 == key { (key, value) } else { b[i] })
}

/// What a lookup of `key` answers on bucket `b`: the value of its first entry,
/// or `Err(-1)` when it has none.
pub open spec fn answer(b: Seq<(i32, i32)>, key: i32) -> Result<i32, i32> {
    match first_match(b, key) {
        Some(i) => Ok(b[i].1),
        None => Err(-1i32),
    }
}

/// Bucket `b` after writing `value` for `key`: every entry of `key` takes the
/// value, or a new entry goes at the end when there is none.
pub open spec fn written(b: Seq<(i32, i32)>, key: i32, value: i32) -> Seq<(i32, i32)> {
    if first_match(b, key).is_some() {
        set_matches(b, key, value)
    } else {
        b.push((key, value))
    }
}

/// A hash table of `i32` keys and values. Keys are spread over the lock
/// stripes by `key % stripes` and over the data buckets by `key % capacity`.
/// A table made by `new` has its stripes but no data bucket yet.
pub struct HashTable {
    lock_stripes: usize,
    data: Vec<Vec<(i32, i32)>>,
    capacity: i32,
}

impl HashTable {
    /// Number of lock stripes.
    pub closed spec fn stripes(&self) -> nat {
        self.lock_stripes as nat
    }

    /// The data buckets.
    pub closed spec fn buckets(&self) -> Seq<Seq<(i32, i32)>> {
        Seq::new(self.data@.len(), |i: int| self.data@[i]@)
    }

    /// The bucket count that keys are spread by.
    pub closed spec fn cap(&self) -> int {
        self.capacity as int
    }

    /// Index of the bucket that `key` is read from and written to.
    pub open spec fn bucket_index(&self, key: i32) -> int {
        rem_toward_zero(key as int, self.cap())
    }

    /// An access to `key` stays in bounds: there are stripes, the bucket count is
    /// positive and `key` falls into an existing bucket.
    pub open spec fn can_access(&self, key: i32) -> bool {
        &&& self.stripes() > 0
        &&& self.cap() > 0
        &&& 0 <= self.bucket_index(key) < self.buckets().len()
    }

    /// The bucket that `key` falls into.
    pub open spec fn bucket_of(&self, key: i32) -> Seq<(i32, i32)> {
        self.buckets()[self.bucket_index(key)]
    }

    /// A table of `capacity` lock stripes, bucket count `capacity`, and no data bucket.
    pub fn new(capacity: i32) -> (t: Self)
        requires
            capacity >= 0,
        ensures
            t.stripes() == capacity,
            t.cap() == capacity,
            t.buckets().len() == 0,
    {
        let data: Vec<Vec<(i32, i32)>> = Vec::new();
        let t = HashTable { lock_stripes: capacity as usize, data, capacity };
        assert(t.buckets() =~= Seq::<Seq<(i32, i32)>>::empty());
        t
    }

    /// Looks `key` up in its bucket: `Ok` with the value of its first entry, or
    /// `Err(-1)` when the bucket has none.
    pub fn get(&self, key: i32) -> (r: Result<i32, i32>)
        requires
            self.can_access(key),
        ensures
            r == answer(self.bucket_of(key), key),
    {
        let bucket = self.bucket_at(key);
        match Self::scan(bucket, key) {
            Some(i) => Ok(bucket[i].1),
            None => Err(-1),
        }
    }

    /// Whether the bucket of `key` holds an entry for it.
    pub fn contains(self, key: i32) -> (r: bool)
        requires
            self.can_access(key),
        ensures
            r == first_match(self.bucket_of(key), key).is_some(),
    {
        let bucket = self.bucket_at(key);
        Self::scan(bucket, key).is_some()
    }

    /// Sets the value of every entry of `key` in its bucket to `value`, or adds an
    /// entry at the end of the bucket when there is none. Before that, when the
    /// bucket holds more than four times the bucket count of entries, the bucket
    /// count doubles; the entries stay where they are. Always `Ok(0)`.
    pub fn put(&mut self, key: i32, value: i32) -> (r: Result<i32, i32>)
        requires
            old(self).can_access(key),
            old(self).bucket_of(key).len() > 4 * old(self).cap() ==> 2 * old(self).cap()
                <= i32::MAX,
        ensures
            r == Ok::<i32, i32>(0),
            final(self).stripes() == old(self).stripes(),
            final(self).cap() == if old(self).bucket_of(key).len() > 4 * old(self).cap() {
                2 * old(self).cap()
            } else {
                old(self).cap()
            },
            final(self).buckets() == old(self).buckets().update(
                old(self).bucket_index(key),
                written(old(self).bucket_of(key), key, value),
            ),
    {
        let ghost old_buckets = self.buckets();
        let ghost ob = self.bucket_of(key);
        let _lock_index = (#[verifier::truncate] (key as usize)) % self.lock_stripes;
        let bucket_index = (key % self.capacity) as usize;
        assert(self.data@[bucket_index as int]@ == ob);
        if (self.data[bucket_index].len() as u64) > (self.capacity as u64) * 4 {
            self.capacity = self.capacity * 2;
        }
        let len = self.data[bucket_index].len();
        let mut found = false;
        let mut i: usize = 0;
        while i < len
            invariant
                bucket_index < self.data@.len(),
                self.data@.len() == old_buckets.len(),
                len == ob.len(),
                i <= len,
                forall|x: int|
                    0 <= x < self.data@.len() && x != bucket_index ==> (#[trigger] self.data@[x])@
                        == old_buckets[x],
                self.data@[bucket_index as int]@.len() == len,
                forall|j: int|
                    0 <= j < len ==> (#[trigger] self.data@[bucket_index as int]@[j]) == if j
                        < i {
                        set_matches(ob, key, value)[j]
                    } else {
                        ob[j]
                    },
                found == exists|j: int| 0 <= j < i && ob[j].0 == key,
                self.lock_stripes == old(self).lock_stripes,
                self.capacity as int == if ob.len() > 4 * old(self).cap() {
                    2 * old(self).cap()
                } else {
                    old(self).cap()
                },
            decreases len - i,
        {
            if self.data[bucket_index][i].0 == key {
                found = true;
                self.data[bucket_index].set(i, (key, value));
            }
            i = i + 1;
        }
        proof {
            Self::lemma_first_match_some_iff(ob, key);
            assert(self.data@[bucket_index as int]@ =~= set_matches(ob, key, value));
            if !found {
                assert(set_matches(ob, key, value) =~= ob);
            }
        }
        if !found {
            self.data[bucket_index].push((key, value));
        }
        assert(self.buckets() =~= old_buckets.update(bucket_index as int, written(ob, key, value)));
        Ok(0)
    }

    /// The bucket that `key` falls into, found through its lock stripe.
    fn bucket_at(&self, key: i32) -> (b: &Vec<(i32, i32)>)
        requires
            self.can_access(key),
        ensures
            b@ == self.bucket_of(key),
    {
        let _lock_index = (#[verifier::truncate] (key as usize)) % self.lock_stripes;
        let bucket_index = key % self.capacity;
        &self.data[bucket_index as usize]
    }

    /// Position of the first entry of `bucket` whose key is `key`.
    fn scan(bucket: &Vec<(i32, i32)>, key: i32) -> (r: Option<usize>)
        ensures
            r matches Some(i) ==> i < bucket@.len() && first_match(bucket@, key) == Some(i as int),
            r is None ==> first_match(bucket@, key) is None,
    {
        let n = bucket.len();
        let mut i: usize = 0;
        while i < n
            invariant
                n == bucket@.len(),
                i <= n,
                first_match(bucket@, key) == first_match_from(bucket@, key, i as int),
            decreases n - i,
        {
            if bucket[i].0 == key {
                return Some(i);
            }
            i = i + 1;
        }
        None
    }

    /// `first_match` finds an entry exactly when the bucket holds one for `key`.
    proof fn lemma_first_match_some_iff(b: Seq<(i32, i32)>, key: i32)
        ensures
            first_match(b, key).is_some() == exists|j: int| 0 <= j < b.len() && b[j].0 == key,
    {
        Self::lemma_first_match_from(b, key, 0);
    }

    proof fn lemma_first_match_from(b: Seq<(i32, i32)>, key: i32, i: int)
        requires
            0 <= i,
        ensures
            first_match_from(b, key, i).is_some() == exists|j: int|
                i <= j < b.len() && b[j].0 == key,
        decreases b.len() - i,
    {
        if i < b.len() {
            Self::lemma_first_match_from(b, key, i + 1);
            if b[i].0 != key {
                assert forall|j: int| i <= j < b.len() && b[j].0 == key implies i + 1 <= j by {}
            }
        }
    }
}

/// Reading a key from the bucket it was just written to answers the value written.
pub proof fn law_read_after_write(b: Seq<(i32, i32)>, key: i32, value: i32)
    ensures
        answer(written(b, key, value), key) == Ok::<i32, i32>(value),
{
    HashTable::lemma_first_match_some_iff(b, key);
    match first_match(b, key) {
        Some(i) => {
            lemma_first_match_after_set(b, key, value, 0);
        },
        None => {
            lemma_first_match_pushed(b, key, value, 0);
        },
    }
}

/// With the bucket count unchanged, a lookup right after a `put` of the same key
/// answers the value put.
pub proof fn law_table_read_after_write(bs: Seq<Seq<(i32, i32)>>, cap: int, key: i32, value: i32)
    requires
        cap > 0,
        0 <= rem_toward_zero(key as int, cap) < bs.len(),
    ensures
        ({
            let i = rem_toward_zero(key as int, cap);
            answer(bs.update(i, written(bs[i], key, value))[i], key) == Ok::<i32, i32>(value)
        }),
{
    let i = rem_toward_zero(key as int, cap);
    law_read_after_write(bs[i], key, value);
}

proof fn lemma_first_match_after_set(b: Seq<(i32, i32)>, key: i32, value: i32, j: int)
    requires
        0 <= j,
        first_match_from(b, key, j).is_some(),
    ensures
        first_match_from(set_matches(b, key, value), key, j) == first_match_from(b, key, j),
        set_matches(b, key, value)[first_match_from(b, key, j).unwrap()].1 == value,
    decreases b.len() - j,
{
    if j < b.len() && b[j].0 != key {
        lemma_first_match_after_set(b, key, value, j + 1);
    }
}

proof fn lemma_first_match_pushed(b: Seq<(i32, i32)>, key: i32, value: i32, j: int)
    requires
        0 <= j <= b.len(),
        first_match_from(b, key, j).is_none(),
    ensures
        first_match_from(b.push((key, value)), key, j) == Some(b.len() as int),
    decreases b.len() - j,
{
    if j < b.len() {
        lemma_first_match_pushed(b, key, value, j + 1);
    }
}

} // verus!
