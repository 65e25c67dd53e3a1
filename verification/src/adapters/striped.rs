//! An adapter over a vector of standard hash maps, one per stripe.
use vstd::prelude::*;
use std::collections::HashMap;
use crate::adapters::{bumped, Adapter};

verus! {

broadcast use vstd::std_specs::hash::group_hash_axioms;

/// The smallest power of two that is at least `n`, searched upward from `p`.
pub open spec fn pow2_at_least(n: nat, p: nat) -> nat
    decreases (if p >= n { 0 } else { n - p }),
    when p > 0
{
    if p >= n {
        p
    } else {
        pow2_at_least(n, 2 * p)
    }
}

/// The smallest power of two that is at least `n`, or `None` when it does not
/// fit in a `usize`.
pub fn next_power_of_two(n: usize) -> (r: Option<usize>)
    ensures
        match r {
            Some(p) => p == pow2_at_least(n as nat, 1),
            None => pow2_at_least(n as nat, 1) > usize::MAX,
        },
{
    let mut p: usize = 1;
    while p < n
        invariant
            p > 0,
            pow2_at_least(n as nat, 1) == pow2_at_least(n as nat, p as nat),
        decreases (if p >= n { 0 } else { n - p }),
    {
        if p > usize::MAX / 2 {
            proof {
                lemma_pow2_at_least_ge(n as nat, 2 * p as nat);
            }
            return None;
        }
        p = p * 2;
    }
    Some(p)
}

proof fn lemma_pow2_at_least_ge(n: nat, p: nat)
    requires
        p > 0,
    ensures
        pow2_at_least(n, p) >= p,
    decreases (if p >= n { 0 } else { n - p }),
{
    if p < n {
        lemma_pow2_at_least_ge(n, 2 * p);
    }
}

/// The number of stripes for a machine of `cpus` processors: the smallest power
/// of two that is at least four per processor.
pub open spec fn stripes_for(cpus: nat) -> nat {
    pow2_at_least(4 * cpus, 1)
}

/// The stripe that `key` belongs to among `n`: the key, as a `usize`, modulo `n`.
pub open spec fn stripe_of(key: u64, n: int) -> int {
    (key as usize) as int % n
}

/// Standard hash maps, one per stripe; a key lives in stripe `key % stripes`.
pub struct StripedHashMapAdapter {
    buckets: Vec<HashMap<u64, u64>>,
}

impl View for StripedHashMapAdapter {
    type V = Map<u64, u64>;

    closed spec fn view(&self) -> Map<u64, u64> {
        let n = self.buckets@.len() as int;
        Map::new(
            |k: u64| n > 0 && self.buckets@[stripe_of(k, n)]@.contains_key(k),
            |k: u64| self.buckets@[stripe_of(k, n)]@[k],
        )
    }
}

/// A trusted call of `num_cpus::get`.
/// It claims, as that crate documents, that the count is at least 1; the count
/// itself depends on the machine and is not stated.
#[verifier::external_body]
fn available_cpus() -> (r: usize)
    ensures
        r >= 1,
{
    num_cpus::get()
}

impl StripedHashMapAdapter {
    /// Number of stripes.
    pub closed spec fn stripes(&self) -> nat {
        self.buckets@.len()
    }

    /// An empty adapter with one stripe per four processors of this machine,
    /// rounded up to a power of two; `None` when that count overflows a `usize`.
    /// The outcome is that of `with_cpu_count` for the machine's processor count
    /// `c >= 1`: success exactly when `4 * c` and its stripe count fit a `usize`.
    pub fn create_with_capacity(capacity: usize) -> (r: Option<Self>)
        ensures
            exists|c: nat|
                c >= 1 && c <= usize::MAX && match r {
                    Some(a) => a.inv() && a@ == Map::<u64, u64>::empty() && a.stripes()
                        == #[trigger] stripes_for(c),
                    None => 4 * c > usize::MAX || stripes_for(c) > usize::MAX,
                },
    {
        let cpus = available_cpus();
        let r = Self::with_cpu_count(capacity, cpus);
        proof {
            let c = cpus as nat;
            assert(c >= 1 && c <= usize::MAX && match r {
                Some(a) => a.inv() && a@ == Map::<u64, u64>::empty() && a.stripes()
                    == stripes_for(c),
                None => 4 * c > usize::MAX || stripes_for(c) > usize::MAX,
            });
        }
        r
    }

    /// An empty adapter with `stripes_for(cpus)` stripes, each with room for
    /// `capacity / stripes` keys; `None` when the stripe count overflows a `usize`.
    pub fn with_cpu_count(capacity: usize, cpus: usize) -> (r: Option<Self>)
        ensures
            match r {
                Some(a) => a.inv() && a@ == Map::<u64, u64>::empty() && a.stripes()
                    == stripes_for(cpus as nat),
                None => 4 * cpus > usize::MAX || stripes_for(cpus as nat) > usize::MAX,
            },
    {
        if cpus > usize::MAX / 4 {
            return None;
        }
        let no_buckets = match next_power_of_two(cpus * 4) {
            Some(p) => p,
            None => {
                return None;
            },
        };
        proof {
            lemma_pow2_at_least_ge((4 * cpus) as nat, 1);
        }
        let capacity_per_bucket = capacity / no_buckets;
        let mut buckets: Vec<HashMap<u64, u64>> = Vec::new();
        let mut i: usize = 0;
        while i < no_buckets
            invariant
                i <= no_buckets,
                buckets@.len() == i,
                forall|j: int| 0 <= j < i ==> (#[trigger] buckets@[j])@ == Map::<u64, u64>::empty(),
            decreases no_buckets - i,
        {
            buckets.push(HashMap::with_capacity(capacity_per_bucket));
            i = i + 1;
        }
        let a = StripedHashMapAdapter { buckets };
        assert(a@ =~= Map::<u64, u64>::empty());
        Some(a)
    }

    /// Number of stripes.
    pub fn stripe_count(&self) -> (n: usize)
        ensures
            n == self.stripes(),
    {
        self.buckets.len()
    }

    /// Position of the stripe of `key`.
    fn stripe(&self, key: u64) -> (i: usize)
        requires
            self.inv(),
        ensures
            i == stripe_of(key, self.buckets@.len() as int),
            i < self.buckets@.len(),
    {
        (#[verifier::truncate] (key as usize)) % self.buckets.len()
    }
}

impl Adapter for StripedHashMapAdapter {
    /// At least one stripe, and each key lives in its own stripe.
    closed spec fn inv(&self) -> bool {
        let n = self.buckets@.len() as int;
        &&& n > 0
        &&& forall|i: int, k: u64|
            0 <= i < n && #[trigger] self.buckets@[i]@.contains_key(k) ==> stripe_of(k, n) == i
    }

    open spec fn admits_key(key: u64) -> bool {
        true
    }

    open spec fn admits_value(value: u64) -> bool {
        true
    }

    fn accepts_key(&self, key: &u64) -> (r: bool) {
        true
    }

    fn accepts_value(&self, value: u64) -> (r: bool) {
        true
    }

    fn value(&self, key: &u64) -> (r: Option<u64>) {
        let index = self.stripe(*key);
        match self.buckets[index].get(key) {
            Some(v) => Some(*v),
            None => None,
        }
    }

    fn get(&mut self, key: &u64) -> (r: bool) {
        let index = self.stripe(*key);
        self.buckets[index].get(key).is_some()
    }

    fn insert(&mut self, key: &u64, value: u64) -> (r: bool) {
        let ghost old_view = self@;
        let index = self.stripe(*key);
        let r = self.buckets[index].insert(*key, value).is_none();
        assert(self@ =~= old_view.insert(*key, value));
        r
    }

    fn remove(&mut self, key: &u64) -> (r: bool) {
        let ghost old_view = self@;
        let index = self.stripe(*key);
        let r = self.buckets[index].remove(key).is_some();
        assert(self@ =~= old_view.remove(*key));
        r
    }

    fn update(&mut self, key: &u64) -> (r: bool) {
        let ghost old_view = self@;
        let index = self.stripe(*key);
        match self.buckets[index].get(key) {
            Some(v) => {
                let next = *v + 1;
                self.buckets[index].insert(*key, next);
                assert(self@ =~= bumped(old_view, *key));
                true
            },
            None => false,
        }
    }
}

} // verus!
