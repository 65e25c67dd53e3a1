//! Adapters that give one map interface over several map implementations.
use vstd::prelude::*;

pub mod dashmap_adapter;
pub mod leapmap_adapter;
pub mod singlelockmap;
pub mod striped;

verus! {

/// A map of `u64` keys to `u64` values behind the operations that the request
/// handlers issue. Its view is what it maps.
pub trait Adapter: View<V = Map<u64, u64>> + Sized {
    /// The adapter's own invariant.
    spec fn inv(&self) -> bool;

    /// The keys that the map can file.
    spec fn admits_key(key: u64) -> bool;

    /// The values that the map can store.
    spec fn admits_value(value: u64) -> bool;

    /// Whether the map can file `key`.
    fn accepts_key(&self, key: &u64) -> (r: bool)
        ensures
            r == Self::admits_key(*key),
    ;

    /// Whether the map can store `value`.
    fn accepts_value(&self, value: u64) -> (r: bool)
        ensures
            r == Self::admits_value(value),
    ;

    /// The value of `key` when it is mapped.
    fn value(&self, key: &u64) -> (r: Option<u64>)
        requires
            self.inv(),
            Self::admits_key(*key),
        ensures
            r == if self@.contains_key(*key) {
                Some(self@[*key])
            } else {
                None::<u64>
            },
    ;

    /// Whether `key` is mapped.
    fn get(&mut self, key: &u64) -> (r: bool)
        requires
            old(self).inv(),
            Self::admits_key(*key),
        ensures
            final(self).inv(),
            final(self)@ == old(self)@,
            r == old(self)@.contains_key(*key),
            (final(self)@, r) == call_step(old(self)@, Call::Get(*key)),
    ;

    /// Maps `key` to `value`; `true` when `key` was not mapped before.
    fn insert(&mut self, key: &u64, value: u64) -> (r: bool)
        requires
            old(self).inv(),
            Self::admits_key(*key),
            Self::admits_value(value),
        ensures
            final(self).inv(),
            final(self)@ == old(self)@.insert(*key, value),
            r == !old(self)@.contains_key(*key),
            (final(self)@, r) == call_step(old(self)@, Call::Insert(*key, value)),
    ;

    /// Unmaps `key`; `true` when it was mapped.
    fn remove(&mut self, key: &u64) -> (r: bool)
        requires
            old(self).inv(),
            Self::admits_key(*key),
        ensures
            final(self).inv(),
            final(self)@ == old(self)@.remove(*key),
            r == old(self)@.contains_key(*key),
            (final(self)@, r) == call_step(old(self)@, Call::Remove(*key)),
    ;

    /// Adds one to the value of `key` when it is mapped; `true` when it was.
    fn update(&mut self, key: &u64) -> (r: bool)
        requires
            old(self).inv(),
            Self::admits_key(*key),
            old(self)@.contains_key(*key) ==> old(self)@[*key] < u64::MAX && Self::admits_value(
                (old(self)@[*key] + 1) as u64,
            ),
        ensures
            final(self).inv(),
            final(self)@ == bumped(old(self)@, *key),
            r == old(self)@.contains_key(*key),
            (final(self)@, r) == call_step(old(self)@, Call::Update(*key)),
    ;
}

/// `m` with the value of `key` raised by one, when `key` is mapped.
pub open spec fn bumped(m: Map<u64, u64>, key: u64) -> Map<u64, u64> {
    if m.contains_key(key) {
        m.insert(key, (m[key] + 1) as u64)
    } else {
        m
    }
}

/// One of the calls that change or read a map through an adapter.
pub enum Call {
    /// `get` of a key.
    Get(u64),
    /// `insert` of a key and a value.
    Insert(u64, u64),
    /// `remove` of a key.
    Remove(u64),
    /// `update` of a key.
    Update(u64),
}

/// What a map that maps `m` maps after `call`, and what the call answers.
pub open spec fn call_step(m: Map<u64, u64>, call: Call) -> (Map<u64, u64>, bool) {
    match call {
        Call::Get(key) => (m, m.contains_key(key)),
        Call::Insert(key, value) => (m.insert(key, value), !m.contains_key(key)),
        Call::Remove(key) => (m.remove(key), m.contains_key(key)),
        Call::Update(key) => (bumped(m, key), m.contains_key(key)),
    }
}

/// `views` are the contents that a map goes through from `start` under `calls`,
/// one call after another, and `answers` what each call answered.
pub open spec fn follows(
    start: Map<u64, u64>,
    calls: Seq<Call>,
    views: Seq<Map<u64, u64>>,
    answers: Seq<bool>,
) -> bool {
    &&& views.len() == calls.len() + 1
    &&& answers.len() == calls.len()
    &&& views[0] == start
    &&& forall|i: int|
        #![trigger calls[i]]
        0 <= i < calls.len() ==> call_step(views[i], calls[i]) == (views[i + 1], answers[i])
}

proof fn lemma_histories_agree_upto(
    start: Map<u64, u64>,
    calls: Seq<Call>,
    views_a: Seq<Map<u64, u64>>,
    answers_a: Seq<bool>,
    views_b: Seq<Map<u64, u64>>,
    answers_b: Seq<bool>,
    i: int,
)
    requires
        follows(start, calls, views_a, answers_a),
        follows(start, calls, views_b, answers_b),
        0 <= i <= calls.len(),
    ensures
        views_a[i] == views_b[i],
        forall|j: int| 0 <= j < i ==> answers_a[j] == answers_b[j],
    decreases i,
{
    if i > 0 {
        lemma_histories_agree_upto(start, calls, views_a, answers_a, views_b, answers_b, i - 1);
        let c = calls[i - 1];
        assert(call_step(views_a[i - 1], c) == (views_a[i], answers_a[i - 1]));
        assert(call_step(views_b[i - 1], c) == (views_b[i], answers_b[i - 1]));
    }
}

/// Any two adapters that map the same, given the same calls in the same order,
/// go through the same contents and give the same answers: every adapter behaves
/// as the single-lock standard map does, call for call.
pub proof fn law_adapters_agree(
    start: Map<u64, u64>,
    calls: Seq<Call>,
    views_a: Seq<Map<u64, u64>>,
    answers_a: Seq<bool>,
    views_b: Seq<Map<u64, u64>>,
    answers_b: Seq<bool>,
)
    requires
        follows(start, calls, views_a, answers_a),
        follows(start, calls, views_b, answers_b),
    ensures
        views_a == views_b,
        answers_a == answers_b,
{
    assert forall|i: int| 0 <= i < views_a.len() implies views_a[i] == views_b[i] by {
        lemma_histories_agree_upto(start, calls, views_a, answers_a, views_b, answers_b, i);
    }
    lemma_histories_agree_upto(
        start,
        calls,
        views_a,
        answers_a,
        views_b,
        answers_b,
        calls.len() as int,
    );
    assert(views_a =~= views_b);
    assert(answers_a =~= answers_b);
}

} // verus!
