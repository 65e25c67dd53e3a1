//! An adapter over a lock-free map with leapfrog probing.
use vstd::prelude::*;
use ::leapfrog::LeapMap;
use crate::adapters::Adapter;

verus! {

/// Holds the lock-free map. The map's type carries an allocator bound of a
/// crate that this library does not name, so the holder keeps the map in a
/// private field and only the trusted calls below look inside.
#[verifier::external_body]
pub struct LeapHolder {
    map: LeapMap<u64, u64>,
}

/// What the held map holds.
pub uninterp spec fn leapmap_contents(h: LeapHolder) -> Map<u64, u64>;

/// The hash that the map files `key` under (`LeapMap::hash_usize`).
pub uninterp spec fn leap_hash_of(key: u64) -> usize;

/// A key that the map can file: its hash is not 0, the hash the map reserves
/// for empty cells.
pub open spec fn leap_key_ok(key: u64) -> bool {
    leap_hash_of(key) != 0
}

/// A value that the map can store: neither of the two largest `u64`, which it
/// reserves for erased and migrated cells.
pub open spec fn leap_value_ok(value: u64) -> bool {
    value < u64::MAX - 1
}

/// A trusted call of `LeapMap::with_capacity`: the new map holds nothing.
#[verifier::external_body]
fn leap_with_capacity(capacity: usize) -> (fresh: LeapHolder)
    ensures
        leapmap_contents(fresh) =~= Map::empty(),
{
    LeapHolder { map: LeapMap::with_capacity(capacity) }
}

/// A trusted call of `LeapMap::hash_usize`: the hash the map files `key` under.
#[verifier::external_body]
fn leap_key_hash(h: &LeapHolder, key: u64) -> (r: usize)
    ensures
        r == leap_hash_of(key),
{
    h.map.hash_usize(&key)
}

/// A trusted call of `LeapMap::get` and `Ref::value`: the value of `key` when
/// the map holds it and `None` otherwise. A key whose hash is 0 is refused: the
/// map's lookup asserts that the hash is not 0.
#[verifier::external_body]
fn leap_get(h: &LeapHolder, key: &u64) -> (r: Option<u64>)
    requires
        leap_key_ok(*key),
    ensures
        r == if leapmap_contents(*h).contains_key(*key) {
            Some(leapmap_contents(*h)[*key])
        } else {
            None::<u64>
        },
{
    let mut found = h.map.get(key)?;
    found.value()
}

/// A trusted call of `LeapMap::insert`: for a key that the map can file and a
/// value that it can store, the map then maps `key` to `value` and the old value
/// comes back when there was one.
#[verifier::external_body]
fn leap_insert(h: &mut LeapHolder, key: u64, value: u64) -> (r: Option<u64>)
    requires
        leap_key_ok(key),
        leap_value_ok(value),
    ensures
        leapmap_contents(*final(h)) == leapmap_contents(*old(h)).insert(key, value),
        r == if leapmap_contents(*old(h)).contains_key(key) {
            Some(leapmap_contents(*old(h))[key])
        } else {
            None::<u64>
        },
{
    h.map.insert(key, value)
}

/// A trusted call of `LeapMap::remove`: for a key that the map can file, the
/// map then no longer holds `key` and its value comes back when there was one.
/// A key whose hash is 0 is refused: the map's lookup asserts that the hash is
/// not 0.
#[verifier::external_body]
fn leap_remove(h: &mut LeapHolder, key: &u64) -> (r: Option<u64>)
    requires
        leap_key_ok(*key),
    ensures
        leapmap_contents(*final(h)) == leapmap_contents(*old(h)).remove(*key),
        r == if leapmap_contents(*old(h)).contains_key(*key) {
            Some(leapmap_contents(*old(h))[*key])
        } else {
            None::<u64>
        },
{
    h.map.remove(key)
}

/// A trusted call of `LeapMap::update`: for a key that the map can file and a
/// value that it can store, a held key then maps to `value` and its old value
/// comes back; an absent key is left absent and `None` comes back. A key whose
/// hash is 0 is refused: the map's lookup asserts that the hash is not 0.
#[verifier::external_body]
fn leap_update(h: &mut LeapHolder, key: &u64, value: u64) -> (r: Option<u64>)
    requires
        leap_key_ok(*key),
        leap_value_ok(value),
    ensures
        leapmap_contents(*final(h)) == if leapmap_contents(*old(h)).contains_key(*key) {
            leapmap_contents(*old(h)).insert(*key, value)
        } else {
            leapmap_contents(*old(h))
        },
        r == if leapmap_contents(*old(h)).contains_key(*key) {
            Some(leapmap_contents(*old(h))[*key])
        } else {
            None::<u64>
        },
{
    h.map.update(key, value)
}

/// One lock-free map holding every key.
pub struct LeapMapAdapter {
    holder: LeapHolder,
}

impl View for LeapMapAdapter {
    type V = Map<u64, u64>;

    closed spec fn view(&self) -> Map<u64, u64> {
        leapmap_contents(self.holder)
    }
}

impl LeapMapAdapter {
    /// An empty adapter with room for `capacity` keys.
    pub fn create_with_capacity(capacity: usize) -> (a: Self)
        ensures
            a.inv(),
            a@ == Map::<u64, u64>::empty(),
    {
        LeapMapAdapter { holder: leap_with_capacity(capacity) }
    }

    /// Whether `key` can be filed by the map (its hash is not 0).
    pub fn accepts(&self, key: &u64) -> (r: bool)
        ensures
            r == leap_key_ok(*key),
    {
        leap_key_hash(&self.holder, *key) != 0
    }

    /// `get`, for any key: `None` (and nothing changes) when the map cannot file it.
    pub fn try_get(&mut self, key: &u64) -> (r: Option<bool>)
        ensures
            *final(self) == *old(self),
            r == if leap_key_ok(*key) {
                Some(old(self)@.contains_key(*key))
            } else {
                None::<bool>
            },
    {
        if self.accepts(key) {
            Some(leap_get(&self.holder, key).is_some())
        } else {
            None
        }
    }

    /// `insert`, for any key: `None` (and nothing changes) when the map cannot
    /// file the key.
    pub fn try_insert(&mut self, key: &u64, value: u64) -> (r: Option<bool>)
        requires
            old(self).inv(),
            leap_value_ok(value),
        ensures
            final(self).inv(),
            match r {
                Some(b) => leap_key_ok(*key) && final(self)@ == old(self)@.insert(*key, value) && b
                    == !old(self)@.contains_key(*key),
                None => !leap_key_ok(*key) && *final(self) == *old(self),
            },
    {
        if self.accepts(key) {
            Some(self.insert(key, value))
        } else {
            None
        }
    }

    /// `remove`, for any key: `None` (and nothing changes) when the map cannot
    /// file the key.
    pub fn try_remove(&mut self, key: &u64) -> (r: Option<bool>)
        requires
            old(self).inv(),
        ensures
            final(self).inv(),
            match r {
                Some(b) => leap_key_ok(*key) && final(self)@ == old(self)@.remove(*key) && b
                    == old(self)@.contains_key(*key),
                None => !leap_key_ok(*key) && *final(self) == *old(self),
            },
    {
        if self.accepts(key) {
            Some(self.remove(key))
        } else {
            None
        }
    }

    /// `update`, for any key: `None` (and nothing changes) when the map cannot
    /// file the key or cannot store the raised value.
    pub fn try_update(&mut self, key: &u64) -> (r: Option<bool>)
        requires
            old(self).inv(),
        ensures
            final(self).inv(),
            match r {
                Some(b) => leap_key_ok(*key) && final(self)@ == crate::adapters::bumped(
                    old(self)@,
                    *key,
                ) && b == old(self)@.contains_key(*key),
                None => *final(self) == *old(self) && (!leap_key_ok(*key) || (old(
                    self,
                )@.contains_key(*key) && !leap_value_ok((old(self)@[*key] + 1) as u64))),
            },
    {
        if !self.accepts(key) {
            return None;
        }
        match leap_get(&self.holder, key) {
            Some(v) => {
                if v >= u64::MAX - 2 {
                    return None;
                }
            },
            None => {},
        }
        Some(self.update(key))
    }
}

impl Adapter for LeapMapAdapter {
    /// Every value held is one that the map can store.
    open spec fn inv(&self) -> bool {
        forall|k: u64| #[trigger] self@.contains_key(k) ==> leap_value_ok(self@[k])
    }

    open spec fn admits_key(key: u64) -> bool {
        leap_key_ok(key)
    }

    open spec fn admits_value(value: u64) -> bool {
        leap_value_ok(value)
    }

    fn accepts_key(&self, key: &u64) -> (r: bool) {
        self.accepts(key)
    }

    fn accepts_value(&self, value: u64) -> (r: bool) {
        value < u64::MAX - 1
    }

    fn value(&self, key: &u64) -> (r: Option<u64>) {
        leap_get(&self.holder, key)
    }

    fn get(&mut self, key: &u64) -> (r: bool) {
        leap_get(&self.holder, key).is_some()
    }

    fn insert(&mut self, key: &u64, value: u64) -> (r: bool) {
        let r = leap_insert(&mut self.holder, *key, value).is_none();
        assert forall|k: u64| #[trigger] self@.contains_key(k) implies leap_value_ok(self@[k]) by {
            if k != *key {
                assert(old(self)@.contains_key(k));
            }
        }
        r
    }

    fn remove(&mut self, key: &u64) -> (r: bool) {
        let r = leap_remove(&mut self.holder, key).is_some();
        assert forall|k: u64| #[trigger] self@.contains_key(k) implies leap_value_ok(self@[k]) by {
            assert(old(self)@.contains_key(k));
        }
        r
    }

    fn update(&mut self, key: &u64) -> (r: bool) {
        match leap_get(&self.holder, key) {
            Some(v) => {
                let next = v + 1;
                leap_update(&mut self.holder, key, next).is_some()
            },
            None => false,
        }
    }
}

} // verus!
