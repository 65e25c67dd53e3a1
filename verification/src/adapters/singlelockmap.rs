//! An adapter over one standard hash map.
use vstd::prelude::*;
use std::collections::HashMap;
use crate::adapters::{bumped, Adapter};

verus! {

broadcast use vstd::std_specs::hash::group_hash_axioms;

/// One standard hash map holding every key.
pub struct SingleLockMapAdapter {
    map: HashMap<u64, u64>,
}

impl View for SingleLockMapAdapter {
    type V = Map<u64, u64>;

    closed spec fn view(&self) -> Map<u64, u64> {
        self.map@
    }
}

impl SingleLockMapAdapter {
    /// An empty adapter with room for `capacity` keys.
    pub fn create_with_capacity(capacity: usize) -> (a: Self)
        ensures
            a@ == Map::<u64, u64>::empty(),
    {
        SingleLockMapAdapter { map: HashMap::with_capacity(capacity) }
    }
}

impl Adapter for SingleLockMapAdapter {
    open spec fn inv(&self) -> bool {
        true
    }

    open spec fn admits_key(key: u64) -> bool {
        true
    }

    open spec fn admits_value(value: u64) -> bool {
        true
    }

    fn accepts_key(&self, key: &u64) -> (r: bool) {
        true
    }

    fn accepts_value(&self, value: u64) -> (r: bool) {
        true
    }

    fn value(&self, key: &u64) -> (r: Option<u64>) {
        match self.map.get(key) {
            Some(v) => Some(*v),
            None => None,
        }
    }

    fn get(&mut self, key: &u64) -> (r: bool) {
        self.map.get(key).is_some()
    }

    fn insert(&mut self, key: &u64, value: u64) -> (r: bool) {
        self.map.insert(*key, value).is_none()
    }

    fn remove(&mut self, key: &u64) -> (r: bool) {
        self.map.remove(key).is_some()
    }

    fn update(&mut self, key: &u64) -> (r: bool) {
        match self.map.get(key) {
            Some(v) => {
                let next = *v + 1;
                self.map.insert(*key, next);
                true
            },
            None => false,
        }
    }
}

} // verus!
