//! Buckets of tagged entries, shared by the striped tables.
//!
//! A bucket is a vector of `(key, value, flag)` entries. An entry is live when
//! its flag is `1`; removal clears the flag and leaves the slot in place. A
//! table of `n` buckets keeps every key in bucket `key % n`, and holds at most
//! one live entry per key in a bucket. What the table maps is read off its
//! live entries.
use vstd::prelude::*;

verus! {

/// A slot of a bucket: key, value, and the live flag (`1` = live).
pub type Entry = (usize, usize, usize);

/// `b[i]` is a live entry for `key`.
pub open spec fn live_at(b: Seq<Entry>, key: usize, i: int) -> bool {
    0 <= i < b.len() && b[i].2 == 1 && b[i].0 == key
}

/// The bucket holds a live entry for `key`.
pub open spec fn holds_key(b: Seq<Entry>, key: usize) -> bool {
    exists|i: int| live_at(b, key, i)
}

/// The position of the live entry for `key` (meaningful when `holds_key`).
pub open spec fn live_index(b: Seq<Entry>, key: usize) -> int {
    choose|i: int| live_at(b, key, i)
}

/// No key has two live entries in the bucket.
pub open spec fn live_keys_unique(b: Seq<Entry>) -> bool {
    forall|i: int, j: int|
        #![trigger b[i], b[j]]
        0 <= i < b.len() && 0 <= j < b.len() && b[i].2 == 1 && b[j].2 == 1 && b[i].0 == b[j].0
            ==> i == j
}

/// Every entry of the bucket at position `pos` of a table of `n` buckets hashes there.
pub open spec fn placed(b: Seq<Entry>, pos: int, n: int) -> bool {
    forall|j: int| 0 <= j < b.len() ==> (#[trigger] b[j]).0 as int % n == pos
}

/// Well-formed buckets: each bucket holds only its own keys, each live key once.
pub open spec fn buckets_wf(bs: Seq<Seq<Entry>>) -> bool {
    forall|i: int|
        0 <= i < bs.len() ==> live_keys_unique(#[trigger] bs[i]) && placed(
            bs[i],
            i,
            bs.len() as int,
        )
}

/// Position of the bucket that `key` belongs to.
pub open spec fn home_index(bs: Seq<Seq<Entry>>, key: usize) -> int {
    key as int % bs.len() as int
}

/// The bucket that `key` belongs to.
pub open spec fn home(bs: Seq<Seq<Entry>>, key: usize) -> Seq<Entry> {
    bs[home_index(bs, key)]
}

/// The key is mapped by the buckets.
pub open spec fn maps_key(bs: Seq<Seq<Entry>>, key: usize) -> bool {
    bs.len() > 0 && holds_key(home(bs, key), key)
}

/// The value that the buckets map `key` to (meaningful when `maps_key`).
pub open spec fn value_of(bs: Seq<Seq<Entry>>, key: usize) -> usize {
    home(bs, key)[live_index(home(bs, key), key)].1
}

/// What the buckets map: each key to the value of its live entry.
pub open spec fn contents(bs: Seq<Seq<Entry>>) -> Map<usize, usize> {
    Map::new(|k: usize| maps_key(bs, k), |k: usize| value_of(bs, k))
}

/// What a lookup of `key` answers on a table that maps `m`: `Ok` with the value,
/// or `Err(0)` when the key is not mapped.
pub open spec fn lookup(m: Map<usize, usize>, key: usize) -> Result<usize, usize> {
    if m.contains_key(key) {
        Ok(m[key])
    } else {
        Err(0)
    }
}

/// What a removal of `key` answers on a table that maps `m`: `Ok(0)` when the key
/// was mapped, `Err(0)` when it was not.
pub open spec fn removal(m: Map<usize, usize>, key: usize) -> Result<usize, usize> {
    if m.contains_key(key) {
        Ok(0)
    } else {
        Err(0)
    }
}

/// The buckets after writing a live entry for `key`: over the live entry of `key`
/// in its home bucket if there is one, at the end of that bucket otherwise.
pub open spec fn put_entry(bs: Seq<Seq<Entry>>, key: usize, value: usize) -> Seq<Seq<Entry>> {
    let h = home_index(bs, key);
    let ob = bs[h];
    bs.update(
        h,
        if holds_key(ob, key) {
            ob.update(live_index(ob, key), (key, value, 1usize))
        } else {
            ob.push((key, value, 1usize))
        },
    )
}

/// The buckets after clearing the flag of the live entry for `key`, if there is one.
pub open spec fn clear_entry(bs: Seq<Seq<Entry>>, key: usize) -> Seq<Seq<Entry>> {
    let h = home_index(bs, key);
    let ob = bs[h];
    let i = live_index(ob, key);
    if holds_key(ob, key) {
        bs.update(h, ob.update(i, (ob[i].0, ob[i].1, 0usize)))
    } else {
        bs
    }
}

/// The entries of `b` that belong to bucket `t` of a table of `m` buckets, in order.
pub open spec fn keep(b: Seq<Entry>, m: int, t: int) -> Seq<Entry> {
    b.filter(|e: Entry| e.0 as int % m == t)
}

/// The buckets of twice as many buckets, each filled in order with the entries
/// of the old bucket that its keys came from.
pub open spec fn rehash(bs: Seq<Seq<Entry>>) -> Seq<Seq<Entry>> {
    let n = bs.len() as int;
    Seq::new((2 * n) as nat, |t: int| keep(bs[t % n], 2 * n, t))
}

/// Every bucket holds at most as many slots as there are buckets.
pub open spec fn buckets_bounded(bs: Seq<Seq<Entry>>) -> bool {
    forall|i: int| 0 <= i < bs.len() ==> (#[trigger] bs[i]).len() <= bs.len()
}

/// The live entry of a bucket is the one that `live_index` names.
pub proof fn lemma_live_index_unique(b: Seq<Entry>, key: usize, i: int)
    requires
        live_keys_unique(b),
        live_at(b, key, i),
    ensures
        holds_key(b, key),
        live_index(b, key) == i,
{
    let j = live_index(b, key);
    assert(live_at(b, key, j));
    assert(b[i].0 == b[j].0);
}

/// Writing a live entry for `key` into its home bucket, over the old live entry
/// if there is one and at the end otherwise, keeps the buckets well formed and
/// maps `key` to `value`, leaving every other key as it was.
pub proof fn lemma_put_entry(bs: Seq<Seq<Entry>>, key: usize, value: usize)
    requires
        buckets_wf(bs),
        bs.len() > 0,
    ensures
        buckets_wf(put_entry(bs, key, value)),
        contents(put_entry(bs, key, value)) == contents(bs).insert(key, value),
{
    let n = bs.len() as int;
    let h = home_index(bs, key);
    let ob = bs[h];
    let held = holds_key(ob, key);
    let i = if held { live_index(ob, key) } else { ob.len() as int };
    let nb = if held { ob.update(i, (key, value, 1usize)) } else { ob.push((key, value, 1usize)) };
    let bs2 = bs.update(h, nb);
    assert(bs2 == put_entry(bs, key, value));
    assert(0 <= h < n);
    assert(forall|j: int| 0 <= j < ob.len() && j != i ==> nb[j] == ob[j]);
    assert(nb[i] == (key, value, 1usize));
    assert(live_keys_unique(ob));
    if held {
        assert(live_at(ob, key, i));
    }
    assert(live_keys_unique(nb)) by {
        assert forall|a: int, b: int|
            0 <= a < nb.len() && 0 <= b < nb.len() && nb[a].2 == 1 && nb[b].2 == 1 && nb[a].0
                == nb[b].0 implies a == b by {
            if a != i && b != i {
                assert(nb[a] == ob[a] && nb[b] == ob[b]);
            } else if a == i && b != i {
                assert(nb[b] == ob[b]);
                assert(live_at(ob, key, b));
            } else if a != i && b == i {
                assert(nb[a] == ob[a]);
                assert(live_at(ob, key, a));
            }
        }
    }
    assert(placed(nb, h, n)) by {
        assert forall|j: int| 0 <= j < nb.len() implies (#[trigger] nb[j]).0 as int % n == h by {
            if j != i {
                assert(nb[j] == ob[j]);
                assert(placed(bs[h], h, n));
            }
        }
    }
    assert(buckets_wf(bs2)) by {
        assert forall|x: int| 0 <= x < bs2.len() implies live_keys_unique(#[trigger] bs2[x])
            && placed(bs2[x], x, bs2.len() as int) by {
            if x != h {
                assert(bs2[x] == bs[x]);
            }
        }
    }
    let m1 = contents(bs);
    let m2 = contents(bs2);
    assert forall|k: usize| #[trigger] m2.contains_key(k) == m1.insert(key, value).contains_key(k)
        && (m2.contains_key(k) ==> m2[k] == m1.insert(key, value)[k]) by {
        let hk = home_index(bs, k);
        assert(home_index(bs2, k) == hk);
        if hk != h {
            assert(home(bs2, k) == home(bs, k));
            assert(k != key);
        } else if k == key {
            assert(live_at(nb, key, i));
            lemma_live_index_unique(nb, key, i);
        } else {
            assert(home(bs2, k) == nb);
            assert(home(bs, k) == ob);
            if holds_key(ob, k) {
                let j = live_index(ob, k);
                assert(live_at(ob, k, j));
                assert(j != i);
                assert(live_at(nb, k, j));
                lemma_live_index_unique(nb, k, j);
            }
            if holds_key(nb, k) {
                let j = live_index(nb, k);
                assert(live_at(nb, k, j));
                assert(j != i);
                assert(live_at(ob, k, j));
            }
        }
    }
    assert(m2 =~= m1.insert(key, value));
}

/// Clearing the flag of the live entry for `key` keeps the buckets well formed and
/// unmaps `key`, leaving every other key as it was.
pub proof fn lemma_clear_entry(bs: Seq<Seq<Entry>>, key: usize)
    requires
        buckets_wf(bs),
        bs.len() > 0,
        holds_key(home(bs, key), key),
    ensures
        buckets_wf(clear_entry(bs, key)),
        contents(clear_entry(bs, key)) == contents(bs).remove(key),
{
    let n = bs.len() as int;
    let h = home_index(bs, key);
    let ob = bs[h];
    let i = live_index(ob, key);
    assert(live_at(ob, key, i));
    let nb = ob.update(i, (ob[i].0, ob[i].1, 0usize));
    let bs2 = bs.update(h, nb);
    assert(bs2 == clear_entry(bs, key));
    assert(0 <= h < n);
    assert(live_keys_unique(ob));
    assert(forall|j: int| 0 <= j < ob.len() && j != i ==> nb[j] == ob[j]);
    assert(live_keys_unique(nb)) by {
        assert forall|a: int, b: int|
            0 <= a < nb.len() && 0 <= b < nb.len() && nb[a].2 == 1 && nb[b].2 == 1 && nb[a].0
                == nb[b].0 implies a == b by {
            assert(a != i && b != i);
            assert(nb[a] == ob[a] && nb[b] == ob[b]);
        }
    }
    assert(placed(nb, h, n)) by {
        assert forall|j: int| 0 <= j < nb.len() implies (#[trigger] nb[j]).0 as int % n == h by {
            assert(placed(bs[h], h, n));
            assert(ob[j].0 == nb[j].0);
        }
    }
    assert(buckets_wf(bs2)) by {
        assert forall|x: int| 0 <= x < bs2.len() implies live_keys_unique(#[trigger] bs2[x])
            && placed(bs2[x], x, bs2.len() as int) by {
            if x != h {
                assert(bs2[x] == bs[x]);
            }
        }
    }
    let m1 = contents(bs);
    let m2 = contents(bs2);
    assert forall|k: usize| #[trigger] m2.contains_key(k) == m1.remove(key).contains_key(k)
        && (m2.contains_key(k) ==> m2[k] == m1.remove(key)[k]) by {
        let hk = home_index(bs, k);
        assert(home_index(bs2, k) == hk);
        if hk != h {
            assert(home(bs2, k) == home(bs, k));
            assert(k != key);
        } else if k == key {
            if holds_key(nb, key) {
                let j = live_index(nb, key);
                assert(live_at(nb, key, j));
                assert(j != i);
                assert(live_at(ob, key, j));
            }
        } else {
            assert(home(bs2, k) == nb);
            assert(home(bs, k) == ob);
            if holds_key(ob, k) {
                let j = live_index(ob, k);
                assert(live_at(ob, k, j));
                assert(j != i);
                assert(live_at(nb, k, j));
                lemma_live_index_unique(nb, k, j);
            }
            if holds_key(nb, k) {
                let j = live_index(nb, k);
                assert(live_at(nb, k, j));
                assert(j != i);
                assert(live_at(ob, k, j));
            }
        }
    }
    assert(m2 =~= m1.remove(key));
}

/// A live entry found in a bucket is what the buckets map its key to.
pub proof fn lemma_maps_entry(bs: Seq<Seq<Entry>>, key: usize, i: int)
    requires
        buckets_wf(bs),
        bs.len() > 0,
        live_at(home(bs, key), key, i),
    ensures
        contents(bs).contains_key(key),
        contents(bs)[key] == home(bs, key)[i].1,
{
    assert(0 <= home_index(bs, key) < bs.len());
    lemma_live_index_unique(home(bs, key), key, i);
}

/// Rehashing into twice as many buckets keeps what the buckets map.
pub proof fn lemma_rehash_contents(bs: Seq<Seq<Entry>>, ns: Seq<Seq<Entry>>)
    requires
        buckets_wf(bs),
        buckets_wf(ns),
        bs.len() > 0,
        ns == rehash(bs),
    ensures
        contents(ns) == contents(bs),
{
    let n = bs.len() as int;
    let m = 2 * n;
    assert forall|k: usize| #[trigger] contents(ns).contains_key(k) == contents(bs).contains_key(k)
        && (contents(ns).contains_key(k) ==> contents(ns)[k] == contents(bs)[k]) by {
        let t = k as int % m;
        let h = k as int % n;
        assert(t % n == h) by {
            vstd::arithmetic::div_mod::lemma_mod_mod(k as int, n, 2);
        }
        assert(home_index(ns, k) == t);
        assert(home_index(bs, k) == h);
        let ob = bs[h];
        let nb = ns[t];
        assert(nb == keep(ob, m, t));
        let pred = |e: Entry| e.0 as int % m == t;
        if holds_key(nb, k) {
            let a = live_index(nb, k);
            assert(live_at(nb, k, a));
            let x = nb[a];
            assert(nb.contains(x));
            ob.lemma_filter_contains_rev(pred, x);
            let b = choose|b: int| 0 <= b < ob.len() && ob[b] == x;
            assert(live_at(ob, k, b));
            lemma_maps_entry(bs, k, b);
            lemma_maps_entry(ns, k, a);
        }
        if holds_key(ob, k) {
            let b = live_index(ob, k);
            assert(live_at(ob, k, b));
            let x = ob[b];
            assert(pred(x));
            ob.lemma_filter_contains(pred, b);
            assert(nb.contains(x));
            let a = choose|a: int| 0 <= a < nb.len() && nb[a] == x;
            assert(live_at(nb, k, a));
            lemma_maps_entry(bs, k, b);
            lemma_maps_entry(ns, k, a);
        }
    }
    assert(contents(ns) =~= contents(bs));
}

/// Keeping part of a bucket keeps each live key at most once.
proof fn lemma_keep_unique(b: Seq<Entry>, m: int, t: int)
    requires
        live_keys_unique(b),
    ensures
        live_keys_unique(keep(b, m, t)),
    decreases b.len(),
{
    reveal(Seq::filter);
    let pred = |e: Entry| e.0 as int % m == t;
    if b.len() > 0 {
        let front = b.drop_last();
        let last = b.last();
        assert(live_keys_unique(front)) by {
            assert forall|i: int, j: int|
                0 <= i < front.len() && 0 <= j < front.len() && front[i].2 == 1 && front[j].2 == 1
                    && front[i].0 == front[j].0 implies i == j by {
                assert(front[i] == b[i] && front[j] == b[j]);
            }
        }
        lemma_keep_unique(front, m, t);
        let fk = keep(front, m, t);
        if pred(last) {
            let nk = fk.push(last);
            assert(keep(b, m, t) == nk);
            assert forall|i: int, j: int|
                0 <= i < nk.len() && 0 <= j < nk.len() && nk[i].2 == 1 && nk[j].2 == 1 && nk[i].0
                    == nk[j].0 implies i == j by {
                if i < fk.len() && j < fk.len() {
                    assert(nk[i] == fk[i] && nk[j] == fk[j]);
                } else if i < fk.len() || j < fk.len() {
                    let a = if i < fk.len() { i } else { j };
                    let x = fk[a];
                    assert(nk[a] == x);
                    assert(fk.contains(x));
                    front.lemma_filter_contains_rev(pred, x);
                    let c = choose|c: int| 0 <= c < front.len() && front[c] == x;
                    assert(b[c] == x);
                    assert(b[b.len() - 1] == last);
                }
            }
        } else {
            assert(keep(b, m, t) == fk);
        }
    }
}

/// Growing the buckets keeps them well formed and bounded, and keeps what they
/// map.
pub proof fn law_growth_keeps_contents(bs: Seq<Seq<Entry>>)
    requires
        buckets_wf(bs),
        buckets_bounded(bs),
        bs.len() > 0,
    ensures
        buckets_wf(rehash(bs)),
        buckets_bounded(rehash(bs)),
        contents(rehash(bs)) == contents(bs),
{
    let n = bs.len() as int;
    let m = 2 * n;
    let ns = rehash(bs);
    assert forall|x: int| 0 <= x < ns.len() implies live_keys_unique(#[trigger] ns[x]) && placed(
        ns[x],
        x,
        ns.len() as int,
    ) && ns[x].len() <= ns.len() by {
        let src = bs[x % n];
        let pred = |e: Entry| e.0 as int % m == x;
        assert(ns[x] == keep(src, m, x));
        lemma_keep_unique(src, m, x);
        assert forall|j: int| 0 <= j < ns[x].len() implies (#[trigger] ns[x][j]).0 as int % m == x by {
            src.lemma_filter_pred(pred, j);
        }
        src.lemma_filter_len(pred);
    }
    lemma_rehash_contents(bs, ns);
}

/// Looks for the live entry of `key` in `bucket`, front to back.
pub fn find_live(bucket: &Vec<Entry>, key: usize) -> (r: Option<usize>)
    ensures
        match r {
            Some(i) => live_at(bucket@, key, i as int) && forall|j: int|
                0 <= j < i ==> !live_at(bucket@, key, j),
            None => !holds_key(bucket@, key),
        },
{
    let n = bucket.len();
    let mut i: usize = 0;
    while i < n
        invariant
            n == bucket@.len(),
            i <= n,
            forall|j: int| 0 <= j < i ==> !live_at(bucket@, key, j),
        decreases n - i,
    {
        if bucket[i].2 == 1 {
            if bucket[i].0 == key {
                return Some(i);
            }
        }
        i = i + 1;
    }
    None
}

} // verus!
