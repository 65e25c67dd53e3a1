//! A striped hash table that doubles its buckets when a bucket fills up.
use vstd::prelude::*;
use crate::buckets::{
    lookup, removal, buckets_bounded, buckets_wf, clear_entry, contents, find_live, holds_key, home,
    home_index, keep, lemma_clear_entry, lemma_live_index_unique, lemma_put_entry,
    law_growth_keeps_contents, lemma_rehash_contents, live_at, live_index, live_keys_unique, placed, put_entry, rehash,
    Entry,
};

verus! {

/// A hash table of `usize` keys and values whose bucket count doubles when an
/// insertion meets a full bucket. A bucket is full when it holds as many slots as
/// the table has buckets. Removal marks an entry dead and leaves its slot.
pub struct StripedHashTable {
    table: Vec<Vec<Entry>>,
}

impl View for StripedHashTable {
    type V = Seq<Seq<Entry>>;

    closed spec fn view(&self) -> Seq<Seq<Entry>> {
        Seq::new(self.table@.len(), |i: int| self.table@[i]@)
    }
}

/// Bucket `i` of the buckets `bs` is full.
pub open spec fn is_full(bs: Seq<Seq<Entry>>, i: int) -> bool {
    bs[i].len() >= bs.len()
}

/// An insertion of `key` into `bs` ends: when it meets a full bucket, bucket 0 is
/// full too (else the table would retry without growing, forever), and the
/// doubled bucket count fits in a `usize`.
pub open spec fn insert_ends(bs: Seq<Seq<Entry>>, key: usize) -> bool {
    is_full(bs, home_index(bs, key)) ==> is_full(bs, 0) && 2 * bs.len() <= usize::MAX
}

/// The buckets that an insertion of `key` writes into: the doubled ones when its
/// bucket is full.
pub open spec fn grown_for(bs: Seq<Seq<Entry>>, key: usize) -> Seq<Seq<Entry>> {
    if is_full(bs, home_index(bs, key)) {
        rehash(bs)
    } else {
        bs
    }
}

impl StripedHashTable {
    /// The buckets are well formed and none holds more slots than there are buckets.
    pub open spec fn wf(&self) -> bool {
        buckets_wf(self@) && buckets_bounded(self@)
    }

    /// What the table maps.
    pub open spec fn map(&self) -> Map<usize, usize> {
        contents(self@)
    }

    /// A table of `capacity` empty buckets.
    pub fn with_capacity(capacity: usize) -> (t: Self)
        ensures
            t.wf(),
            t@.len() == capacity,
            forall|i: int| 0 <= i < capacity ==> (#[trigger] t@[i]).len() == 0,
            t.map() == Map::<usize, usize>::empty(),
    {
        let mut table: Vec<Vec<Entry>> = Vec::new();
        let mut i: usize = 0;
        while i < capacity
            invariant
                i <= capacity,
                table@.len() == i,
                forall|j: int| 0 <= j < i ==> (#[trigger] table@[j])@.len() == 0,
            decreases capacity - i,
        {
            table.push(Vec::new());
            i = i + 1;
        }
        let t = StripedHashTable { table };
        assert(t.map() =~= Map::<usize, usize>::empty()) by {
            assert forall|k: usize| !#[trigger] t.map().contains_key(k) by {
                if t@.len() > 0 {
                    let b = home(t@, k);
                    assert(b.len() == 0);
                    if holds_key(b, k) {
                        assert(live_at(b, k, live_index(b, k)));
                    }
                }
            }
        }
        t
    }

    /// Looks `key` up: `Ok` with its value, or `Err(0)` when it is not mapped.
    pub fn get(&self, key: usize) -> (r: Result<usize, usize>)
        requires
            self.wf(),
            self@.len() > 0,
        ensures
            r == lookup(self.map(), key),
    {
        let index = key % self.table.len();
        let bucket = &self.table[index];
        assert(bucket@ == home(self@, key));
        match find_live(bucket, key) {
            Some(i) => {
                proof {
                    lemma_live_index_unique(bucket@, key, i as int);
                }
                Ok(bucket[i].1)
            },
            None => Err(0),
        }
    }

    /// Number of buckets.
    pub fn bucket_count(&self) -> (n: usize)
        ensures
            n == self@.len(),
    {
        self.table.len()
    }

    /// Whether an insertion of `key` would end (see `insert_ends`).
    pub fn insert_would_end(&self, key: usize) -> (r: bool)
        requires
            self@.len() > 0,
        ensures
            r == insert_ends(self@, key),
    {
        let n = self.table.len();
        let index = key % n;
        assert(self.table@[index as int]@ == self@[home_index(self@, key)]);
        assert(self.table@[0]@ == self@[0]);
        if self.table[index].len() < n {
            true
        } else {
            self.table[0].len() >= n && n <= usize::MAX / 2
        }
    }

    /// Doubles the buckets when bucket 0 is full, moving every entry, dead or
    /// live, to the bucket its key belongs to; does nothing otherwise.
    fn resize(&mut self)
        requires
            old(self).wf(),
            old(self)@.len() > 0,
            is_full(old(self)@, 0) ==> 2 * old(self)@.len() <= usize::MAX,
        ensures
            final(self).wf(),
            final(self)@ == if is_full(old(self)@, 0) {
                rehash(old(self)@)
            } else {
                old(self)@
            },
            final(self)@.len() >= old(self)@.len(),
            final(self).map() == old(self).map(),
    {
        let ghost old_view = self@;
        let old_capacity = self.table.len();
        if self.table[0].len() < old_capacity {
            return;
        }
        let new_capacity = old_capacity * 2;
        let ghost n = old_capacity as int;
        let ghost m = new_capacity as int;
        let mut buckets: Vec<Vec<Entry>> = Vec::new();
        let mut t: usize = 0;
        while t < new_capacity
            invariant
                t <= new_capacity,
                buckets@.len() == t,
                forall|x: int| 0 <= x < t ==> (#[trigger] buckets@[x])@.len() == 0,
            decreases new_capacity - t,
        {
            buckets.push(Vec::new());
            t = t + 1;
        }
        let mut i: usize = 0;
        while i < old_capacity
            invariant
                self@ == old_view,
                old_view.len() == n,
                buckets_wf(old_view),
                buckets_bounded(old_view),
                n == old_capacity,
                m == new_capacity,
                m == 2 * n,
                n > 0,
                i <= old_capacity,
                buckets@.len() == new_capacity,
                forall|x: int|
                    0 <= x < m ==> (#[trigger] buckets@[x])@ == (if x % n < i {
                        keep(old_view[x % n], m, x)
                    } else {
                        Seq::<Entry>::empty()
                    }),
                forall|x: int| 0 <= x < m ==> live_keys_unique(#[trigger] buckets@[x]@),
                forall|x: int| 0 <= x < m ==> placed(#[trigger] buckets@[x]@, x, m),
            decreases old_capacity - i,
        {
            let len = self.table[i].len();
            let ghost ob = old_view[i as int];
            assert(self.table@[i as int]@ == ob);
            let mut j: usize = 0;
            while j < len
                invariant
                    self@ == old_view,
                    old_view.len() == n,
                    buckets_wf(old_view),
                    n == old_capacity,
                    m == new_capacity,
                    m == 2 * n,
                    n > 0,
                    i < old_capacity,
                    ob == old_view[i as int],
                    len == ob.len(),
                    j <= len,
                    buckets@.len() == new_capacity,
                    forall|x: int|
                        0 <= x < m ==> (#[trigger] buckets@[x])@ == (if x % n < i {
                            keep(old_view[x % n], m, x)
                        } else if x % n == i {
                            keep(ob.take(j as int), m, x)
                        } else {
                            Seq::<Entry>::empty()
                        }),
                    forall|x: int| 0 <= x < m ==> live_keys_unique(#[trigger] buckets@[x]@),
                    forall|x: int| 0 <= x < m ==> placed(#[trigger] buckets@[x]@, x, m),
                decreases len - j,
            {
                assert(self.table@[i as int]@ == ob);
                let e = self.table[i][j];
                assert(e == ob[j as int]);
                let ni = e.0 % new_capacity;
                let ghost nj = ni as int;
                proof {
                    assert(placed(old_view[i as int], i as int, n));
                    assert(e.0 as int % n == i);
                    vstd::arithmetic::div_mod::lemma_mod_mod(e.0 as int, n, 2);
                    assert(nj % n == i);
                    let pre = buckets@[nj]@;
                    assert(pre == keep(ob.take(j as int), m, nj));
                    assert(ob.take(j as int + 1) =~= ob.take(j as int).push(e));
                    if e.2 == 1 {
                        assert forall|a: int| 0 <= a < pre.len() && pre[a].2 == 1 implies pre[a].0
                            != e.0 by {
                            let x = pre[a];
                            assert(pre.contains(x));
                            ob.take(j as int).lemma_filter_contains_rev(
                                |q: Entry| q.0 as int % m == nj,
                                x,
                            );
                            let b = choose|b: int|
                                0 <= b < ob.take(j as int).len() && ob.take(j as int)[b] == x;
                            assert(ob[b] == x);
                            assert(live_keys_unique(ob));
                            if x.0 == e.0 {
                                assert(ob[b].0 == ob[j as int].0);
                            }
                        }
                    }
                }
                buckets[ni].push(e);
                proof {
                    assert forall|x: int| 0 <= x < m implies (#[trigger] buckets@[x])@ == (if x
                        % n < i {
                        keep(old_view[x % n], m, x)
                    } else if x % n == i {
                        keep(ob.take(j as int + 1), m, x)
                    } else {
                        Seq::<Entry>::empty()
                    }) by {
                        if x % n == i {
                            ob.take(j as int).lemma_filter_push(
                                e,
                                |q: Entry| q.0 as int % m == x,
                            );
                        }
                    }
                    let nb = buckets@[nj]@;
                    assert(live_keys_unique(nb)) by {
                        assert forall|a: int, b: int|
                            0 <= a < nb.len() && 0 <= b < nb.len() && nb[a].2 == 1 && nb[b].2 == 1
                                && nb[a].0 == nb[b].0 implies a == b by {
                            let pre = nb.drop_last();
                            assert(live_keys_unique(pre));
                            if a < pre.len() && b < pre.len() {
                                assert(nb[a] == pre[a] && nb[b] == pre[b]);
                            } else if a < pre.len() {
                                assert(nb[a] == pre[a]);
                            } else if b < pre.len() {
                                assert(nb[b] == pre[b]);
                            }
                        }
                    }
                    assert(placed(nb, nj, m)) by {
                        assert forall|a: int| 0 <= a < nb.len() implies (#[trigger] nb[a]).0 as int
                            % m == nj by {
                            if a < nb.len() - 1 {
                                assert(nb[a] == nb.drop_last()[a]);
                            }
                        }
                    }
                }
                j = j + 1;
            }
            proof {
                assert(ob.take(len as int) =~= ob);
                assert forall|x: int| 0 <= x < m implies (#[trigger] buckets@[x])@ == (if x % n
                    < i + 1 {
                    keep(old_view[x % n], m, x)
                } else {
                    Seq::<Entry>::empty()
                }) by {
                    if x % n > i {
                    }
                }
            }
            i = i + 1;
        }
        self.table = buckets;
        proof {
            let ns = self@;
            assert(ns =~= rehash(old_view));
            assert(buckets_wf(ns)) by {
                assert forall|x: int| 0 <= x < ns.len() implies live_keys_unique(#[trigger] ns[x])
                    && placed(ns[x], x, ns.len() as int) by {
                    assert(ns[x] == buckets@[x]@);
                }
            }
            assert(buckets_bounded(ns)) by {
                assert forall|x: int| 0 <= x < ns.len() implies (#[trigger] ns[x]).len() <= ns.len() by {
                    let src = old_view[x % n];
                    src.lemma_filter_len(|q: Entry| q.0 as int % m == x);
                    assert(src.len() <= n);
                }
            }
            lemma_rehash_contents(old_view, ns);
        }
    }

    /// Maps `key` to `value`. When the bucket of `key` is full the table first
    /// doubles its buckets; then it writes over the live entry of `key` if there is
    /// one and in a new slot at the end of its bucket otherwise. Always `Ok(0)`.
    pub fn insert_or_update(&mut self, key: usize, value: usize) -> (r: Result<i32, i32>)
        requires
            old(self).wf(),
            old(self)@.len() > 0,
            insert_ends(old(self)@, key),
        ensures
            final(self).wf(),
            final(self).map() == old(self).map().insert(key, value),
            r == Ok::<i32, i32>(0),
            final(self)@ == put_entry(grown_for(old(self)@, key), key, value),
            final(self)@.len() == if is_full(old(self)@, home_index(old(self)@, key)) {
                2 * old(self)@.len()
            } else {
                old(self)@.len()
            },
    {
        let ghost old_view = self@;
        let index = key % self.table.len();
        assert(self.table@[index as int]@ == home(old_view, key));
        if self.table[index].len() >= self.table.len() {
            self.resize();
            proof {
                let ns = self@;
                let h2 = home_index(ns, key);
                assert(h2 % (old_view.len() as int) == home_index(old_view, key)) by {
                    vstd::arithmetic::div_mod::lemma_mod_mod(
                        key as int,
                        old_view.len() as int,
                        2,
                    );
                }
                let src = old_view[h2 % (old_view.len() as int)];
                src.lemma_filter_len(|q: Entry| q.0 as int % ns.len() as int == h2);
            }
        }
        let ghost mid = self@;
        assert(mid == grown_for(old_view, key));
        assert(!is_full(mid, home_index(mid, key)));
        let index = key % self.table.len();
        assert(self.table@[index as int]@ == home(mid, key));
        proof {
            lemma_put_entry(mid, key, value);
        }
        match find_live(&self.table[index], key) {
            Some(i) => {
                proof {
                    lemma_live_index_unique(self.table@[index as int]@, key, i as int);
                }
                self.table[index].set(i, (key, value, 1));
            },
            None => {
                self.table[index].push((key, value, 1));
            },
        }
        assert(self@ =~= put_entry(mid, key, value));
        assert(buckets_bounded(self@)) by {
            assert forall|x: int| 0 <= x < self@.len() implies (#[trigger] self@[x]).len()
                <= self@.len() by {
                if x != index as int {
                    assert(self@[x] == mid[x]);
                }
            }
        }
        proof {
            law_insert_keeps_shape(old_view, key, value);
        }
        Ok(0)
    }

    /// Unmaps `key` by clearing the flag of its live entry: `Ok(0)` when it was
    /// mapped, `Err(0)` (and nothing changes) when it was not.
    pub fn remove(&mut self, key: usize) -> (r: Result<usize, usize>)
        requires
            old(self).wf(),
            old(self)@.len() > 0,
        ensures
            final(self).wf(),
            final(self).map() == old(self).map().remove(key),
            r == removal(old(self).map(), key),
            final(self)@ == clear_entry(old(self)@, key),
            final(self)@.len() == old(self)@.len(),
    {
        let ghost old_view = self@;
        proof {
            law_remove_keeps_shape(old_view, key);
        }
        let index = key % self.table.len();
        assert(self.table@[index as int]@ == home(old_view, key));
        match find_live(&self.table[index], key) {
            Some(i) => {
                proof {
                    lemma_live_index_unique(self.table@[index as int]@, key, i as int);
                    lemma_clear_entry(old_view, key);
                }
                let e = self.table[index][i];
                self.table[index].set(i, (e.0, e.1, 0));
                assert(self@ =~= clear_entry(old_view, key));
                assert(buckets_bounded(self@)) by {
                    assert forall|x: int| 0 <= x < self@.len() implies (#[trigger] self@[x]).len()
                        <= self@.len() by {
                        if x != index as int {
                            assert(self@[x] == old_view[x]);
                        }
                    }
                }
                Ok(0)
            },
            None => {
                assert(contents(old_view).remove(key) =~= contents(old_view));
                assert(self@ =~= clear_entry(old_view, key));
                Err(0)
            },
        }
    }
}

/// An insertion that ends keeps the buckets well formed and bounded, and never
/// lowers the bucket count: it stays, or doubles when the key's bucket is full.
pub proof fn law_insert_keeps_shape(bs: Seq<Seq<Entry>>, key: usize, value: usize)
    requires
        buckets_wf(bs),
        buckets_bounded(bs),
        bs.len() > 0,
        insert_ends(bs, key),
    ensures
        ({
            let after = put_entry(grown_for(bs, key), key, value);
            &&& buckets_wf(after)
            &&& buckets_bounded(after)
            &&& after.len() == if is_full(bs, home_index(bs, key)) {
                2 * bs.len()
            } else {
                bs.len()
            }
            &&& after.len() >= bs.len()
        }),
{
    let g = grown_for(bs, key);
    let n = bs.len() as int;
    if is_full(bs, home_index(bs, key)) {
        law_growth_keeps_contents(bs);
        let h2 = home_index(g, key);
        assert(h2 % n == home_index(bs, key)) by {
            vstd::arithmetic::div_mod::lemma_mod_mod(key as int, n, 2);
        }
        let src = bs[h2 % n];
        src.lemma_filter_len(|q: Entry| q.0 as int % g.len() as int == h2);
        assert(g[h2].len() <= n);
    }
    assert(!is_full(g, home_index(g, key)));
    lemma_put_entry(g, key, value);
    let after = put_entry(g, key, value);
    assert(buckets_bounded(after)) by {
        assert forall|x: int| 0 <= x < after.len() implies (#[trigger] after[x]).len() <= after.len() by {
            if x != home_index(g, key) {
                assert(after[x] == g[x]);
            }
        }
    }
}

/// A removal keeps the buckets well formed and bounded, and keeps the bucket count.
pub proof fn law_remove_keeps_shape(bs: Seq<Seq<Entry>>, key: usize)
    requires
        buckets_wf(bs),
        buckets_bounded(bs),
        bs.len() > 0,
    ensures
        buckets_wf(clear_entry(bs, key)),
        buckets_bounded(clear_entry(bs, key)),
        clear_entry(bs, key).len() == bs.len(),
{
    if holds_key(home(bs, key), key) {
        lemma_clear_entry(bs, key);
        let after = clear_entry(bs, key);
        assert(buckets_bounded(after)) by {
            assert forall|x: int| 0 <= x < after.len() implies (#[trigger] after[x]).len()
                <= after.len() by {
                if x != home_index(bs, key) {
                    assert(after[x] == bs[x]);
                }
            }
        }
    }
}

} // verus!
