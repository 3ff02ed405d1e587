//! The bounded object cache: a fixed-capacity map from identifier to shared
//! entity, evicting the least recently used entry when a new identifier
//! arrives at a full cache.
//!
//! Recency is kept by an `lru::LruCache` from identifier to a slot number; the
//! shared entities themselves live in a slot table owned by the cache.

use lru::LruCache;
use std::num::NonZeroUsize;
use std::sync::Arc;
use vstd::prelude::*;

verus! {

#[verifier::external_type_specification]
#[verifier::external_body]
#[verifier::reject_recursive_types(K)]
#[verifier::reject_recursive_types(V)]
#[verifier::reject_recursive_types(S)]
pub struct ExLruCache<K, V, S>(LruCache<K, V, S>);

#[verifier::external_type_specification]
#[verifier::external_body]
pub struct ExDefaultHasher(lru::DefaultHasher);

/// The entries of an `lru::LruCache`, most recently used first.
pub uninterp spec fn lru_entries(c: LruCache<i32, usize>) -> Seq<(i32, usize)>;

/// The number of entries that an `lru::LruCache` was made to hold.
pub uninterp spec fn lru_cap(c: LruCache<i32, usize>) -> nat;

/// Whether some entry of `s` is filed under `id`.
pub open spec fn holds<V>(s: Seq<(i32, V)>, id: i32) -> bool {
    exists|i: int| 0 <= i < s.len() && (#[trigger] s[i]).0 == id
}

/// The place in `s` of an entry filed under `id`, where there is one.
pub open spec fn place_of<V>(s: Seq<(i32, V)>, id: i32) -> int {
    choose|i: int| 0 <= i < s.len() && (#[trigger] s[i]).0 == id
}

/// No identifier is filed twice in `s`.
pub open spec fn distinct_ids<V>(s: Seq<(i32, V)>) -> bool {
    forall|i: int, j: int|
        0 <= i < s.len() && 0 <= j < s.len() && i != j
            ==> (#[trigger] s[i]).0 != (#[trigger] s[j]).0
}

/// `s` after the entry at place `i` was used: it moves to the front.
pub open spec fn touched<V>(s: Seq<(i32, V)>, i: int) -> Seq<(i32, V)> {
    seq![s[i]] + s.remove(i)
}

/// Where the entry at place `a`, not the first, stood before the entry at
/// place `i` moved to the front.
pub open spec fn origin(a: int, i: int) -> int {
    if a <= i {
        a - 1
    } else {
        a
    }
}

/// `s`, most recently used first and bounded by `cap`, after `value` was
/// filed under `id`: an entry already under `id` is replaced, otherwise the
/// last entry of a full sequence leaves; the new entry comes first.
pub open spec fn inserted<V>(s: Seq<(i32, V)>, cap: nat, id: i32, value: V) -> Seq<(i32, V)> {
    if holds(s, id) {
        seq![(id, value)] + s.remove(place_of(s, id))
    } else if s.len() >= cap && s.len() > 0 {
        seq![(id, value)] + s.drop_last()
    } else {
        seq![(id, value)] + s
    }
}

/// The largest bound that a cache is made with: `LruCache::new` reserves room
/// for all its entries at once, and a request beyond what can be reserved does
/// not return.
pub const MAX_CAPACITY: usize = 65536;

/// `LruCache::new`: an empty cache that holds at most `cap` entries.
#[verifier::external_body]
fn lru_new(cap: usize) -> (c: LruCache<i32, usize>)
    requires
        0 < cap <= MAX_CAPACITY,
    ensures
        lru_entries(c) == Seq::<(i32, usize)>::empty(),
        lru_cap(c) == cap,
{
    LruCache::new(NonZeroUsize::new(cap).unwrap())
}

/// `LruCache::len`: the number of entries.
#[verifier::external_body]
fn lru_len(c: &LruCache<i32, usize>) -> (n: usize)
    ensures
        n == lru_entries(*c).len(),
{
    c.len()
}

/// `LruCache::cap`: the bound that the cache was made with.
#[verifier::external_body]
fn lru_limit(c: &LruCache<i32, usize>) -> (n: usize)
    ensures
        n == lru_cap(*c),
        n > 0,
{
    c.cap().get()
}

/// `LruCache::peek`: the value under `k`, if any; the order stays.
#[verifier::external_body]
fn lru_peek(c: &LruCache<i32, usize>, k: i32) -> (r: Option<usize>)
    ensures
        holds(lru_entries(*c), k) ==> r == Some(lru_entries(*c)[place_of(lru_entries(*c), k)].1),
        !holds(lru_entries(*c), k) ==> r.is_none(),
{
    c.peek(&k).copied()
}

/// `LruCache::peek_lru`: the least recently used entry, which is the last
/// one; none in an empty cache.
#[verifier::external_body]
fn lru_peek_lru(c: &LruCache<i32, usize>) -> (r: Option<(i32, usize)>)
    ensures
        lru_entries(*c).len() == 0 ==> r.is_none(),
        lru_entries(*c).len() > 0 ==> r == Some(lru_entries(*c).last()),
{
    c.peek_lru().map(|(k, v)| (*k, *v))
}

/// `LruCache::get`: the value under `k`, if any; an entry that is found
/// moves to the front, and nothing else changes.
#[verifier::external_body]
fn lru_get(c: &mut LruCache<i32, usize>, k: i32) -> (r: Option<usize>)
    ensures
        lru_cap(*final(c)) == lru_cap(*old(c)),
        holds(lru_entries(*old(c)), k) ==> r == Some(
            lru_entries(*old(c))[place_of(lru_entries(*old(c)), k)].1,
        ) && lru_entries(*final(c)) == touched(
            lru_entries(*old(c)),
            place_of(lru_entries(*old(c)), k),
        ),
        !holds(lru_entries(*old(c)), k) ==> r.is_none() && lru_entries(*final(c)) == lru_entries(
            *old(c),
        ),
{
    c.get(&k).copied()
}

/// `LruCache::put`: files `v` under `k` at the front. An entry already under
/// `k` is replaced and its value returned; otherwise nothing is returned, and
/// the last entry leaves if the cache held as many entries as its bound.
#[verifier::external_body]
fn lru_put(c: &mut LruCache<i32, usize>, k: i32, v: usize) -> (r: Option<usize>)
    ensures
        lru_cap(*final(c)) == lru_cap(*old(c)),
        holds(lru_entries(*old(c)), k) ==> r == Some(
            lru_entries(*old(c))[place_of(lru_entries(*old(c)), k)].1,
        ) && lru_entries(*final(c)) == seq![(k, v)] + lru_entries(*old(c)).remove(
            place_of(lru_entries(*old(c)), k),
        ),
        !holds(lru_entries(*old(c)), k) ==> r.is_none(),
        !holds(lru_entries(*old(c)), k) && lru_entries(*old(c)).len() == lru_cap(*old(c))
            ==> lru_entries(*final(c)) == seq![(k, v)] + lru_entries(*old(c)).drop_last(),
        !holds(lru_entries(*old(c)), k) && lru_entries(*old(c)).len() != lru_cap(*old(c))
            ==> lru_entries(*final(c)) == seq![(k, v)] + lru_entries(*old(c)),
{
    c.put(k, v)
}

/// `LruCache::iter`: the keys in the order in which the entries are walked,
/// most recently used first.
#[verifier::external_body]
fn lru_keys(c: &LruCache<i32, usize>) -> (r: Vec<i32>)
    ensures
        r@.len() == lru_entries(*c).len(),
        forall|i: int| 0 <= i < r@.len() ==> r@[i] == (#[trigger] lru_entries(*c)[i]).0,
{
    c.iter().map(|(k, _)| *k).collect()
}

/// `Arc::clone`: another handle to the same shared value.
#[verifier::external_body]
fn share<T>(value: &Arc<T>) -> (r: Arc<T>)
    ensures
        r == *value,
{
    Arc::clone(value)
}

/// A bounded cache of shared entities by identifier.
pub struct ObjectMap<T> {
    order: LruCache<i32, usize>,
    slots: Vec<Arc<T>>,
}

impl<T> ObjectMap<T> {
    /// The slot numbers are in range and no two entries share one; no
    /// identifier is filed twice; the bound is kept.
    pub closed spec fn wf(&self) -> bool {
        let e = lru_entries(self.order);
        &&& lru_cap(self.order) > 0
        &&& e.len() <= lru_cap(self.order)
        &&& e.len() == self.slots@.len()
        &&& distinct_ids(e)
        &&& forall|i: int| 0 <= i < e.len() ==> (#[trigger] e[i]).1 < self.slots@.len()
        &&& forall|i: int, j: int|
            0 <= i < e.len() && 0 <= j < e.len() && i != j
                ==> (#[trigger] e[i]).1 != (#[trigger] e[j]).1
    }

    /// The cached entities with their identifiers, most recently used first.
    pub closed spec fn view(&self) -> Seq<(i32, Arc<T>)> {
        let e = lru_entries(self.order);
        Seq::new(e.len(), |i: int| (e[i].0, self.slots@[e[i].1 as int]))
    }

    /// The number of entities that the cache holds at most.
    pub closed spec fn capacity(&self) -> nat {
        lru_cap(self.order)
    }

    /// What `wf` gives of the view: the bound is positive and kept, and no
    /// identifier is cached twice.
    pub proof fn lemma_wf_view(&self)
        requires
            self.wf(),
        ensures
            self.capacity() > 0,
            self@.len() <= self.capacity(),
            distinct_ids(self@),
    {
    }

    proof fn lemma_holds(&self, id: i32)
        requires
            self.wf(),
        ensures
            holds(self@, id) == holds(lru_entries(self.order), id),
            holds(self@, id) ==> place_of(self@, id) == place_of(lru_entries(self.order), id),
    {
        let e = lru_entries(self.order);
        let s = self@;
        assert forall|i: int| 0 <= i < s.len() implies (#[trigger] s[i]).0 == e[i].0 by {}
        if holds(s, id) {
            let i = place_of(s, id);
            assert(e[i].0 == id);
            let j = place_of(e, id);
            assert(e[j].0 == id);
            assert(i == j);
        }
        if holds(e, id) {
            let j = place_of(e, id);
            assert(s[j].0 == id);
        }
    }

    /// An empty cache for at most `cap` entities.
    pub fn new(cap: usize) -> (r: Self)
        requires
            0 < cap <= MAX_CAPACITY,
        ensures
            r.wf(),
            r@ == Seq::<(i32, Arc<T>)>::empty(),
            r.capacity() == cap,
    {
        let r = ObjectMap { order: lru_new(cap), slots: Vec::new() };
        assert(r@ =~= Seq::<(i32, Arc<T>)>::empty());
        r
    }

    /// The number of cached entities.
    pub fn len(&self) -> (n: usize)
        requires
            self.wf(),
        ensures
            n == self@.len(),
    {
        lru_len(&self.order)
    }

    /// The bound that the cache was made with.
    pub fn cap(&self) -> (n: usize)
        requires
            self.wf(),
        ensures
            n == self.capacity(),
    {
        lru_limit(&self.order)
    }

    /// The cached identifiers, most recently used first.
    pub fn ids(&self) -> (r: Vec<i32>)
        requires
            self.wf(),
        ensures
            r@.len() == self@.len(),
            forall|i: int| 0 <= i < r@.len() ==> r@[i] == (#[trigger] self@[i]).0,
    {
        lru_keys(&self.order)
    }

    /// Whether an entity is cached under `id`. Recency is left as it is.
    pub fn contains(&self, id: i32) -> (b: bool)
        requires
            self.wf(),
        ensures
            b == holds(self@, id),
    {
        proof {
            self.lemma_holds(id);
        }
        lru_peek(&self.order, id).is_some()
    }

    /// Looks `id` up. A hit hands out the shared entity and makes its entry
    /// the most recently used; a miss changes nothing.
    pub fn get(&mut self, id: i32) -> (r: Option<Arc<T>>)
        requires
            old(self).wf(),
        ensures
            final(self).wf(),
            final(self).capacity() == old(self).capacity(),
            holds(old(self)@, id) ==> r == Some(old(self)@[place_of(old(self)@, id)].1)
                && final(self)@ == touched(old(self)@, place_of(old(self)@, id)),
            !holds(old(self)@, id) ==> r.is_none() && final(self)@ == old(self)@,
    {
        proof {
            self.lemma_holds(id);
        }
        let ghost e0 = lru_entries(self.order);
        let ghost s0 = self@;
        match lru_get(&mut self.order, id) {
            Some(slot) => {
                proof {
                    let i = place_of(e0, id);
                    let e1 = lru_entries(self.order);
                    assert(e1 == touched(e0, i));
                    assert(e1[0] == e0[i]);
                    assert forall|a: int| 0 < a < e1.len() implies (#[trigger] e1[a])
                        == e0[origin(a, i)] by {}
                    assert(self@ =~= touched(s0, i));
                }
                let r = share(&self.slots[slot]);
                Some(r)
            },
            None => {
                assert(self@ =~= s0);
                None
            },
        }
    }

    /// Files `value` under `id` as the most recently used entry. An entity
    /// already under `id` is replaced; otherwise, where the cache is full, the
    /// least recently used entry is evicted.
    pub fn insert(&mut self, id: i32, value: Arc<T>)
        requires
            old(self).wf(),
        ensures
            final(self).wf(),
            final(self).capacity() == old(self).capacity(),
            final(self)@ == inserted(old(self)@, old(self).capacity(), id, value),
    {
        proof {
            self.lemma_holds(id);
        }
        let ghost e0 = lru_entries(self.order);
        let ghost s0 = self@;
        match lru_peek(&self.order, id) {
            Some(slot) => {
                self.slots.set(slot, value);
                lru_put(&mut self.order, id, slot);
                proof {
                    let i = place_of(e0, id);
                    let e1 = lru_entries(self.order);
                    assert(e1 == seq![(id, slot)] + e0.remove(i));
                    assert forall|a: int| 0 < a < e1.len() implies (#[trigger] e1[a])
                        == e0[origin(a, i)] by {}
                    assert(e1[0] == (id, slot));
                    assert(self@ =~= inserted(s0, self.capacity(), id, value));
                }
            },
            None => {
                if lru_len(&self.order) == lru_limit(&self.order) {
                    match lru_peek_lru(&self.order) {
                        Some(last) => {
                            let slot = last.1;
                            self.slots.set(slot, value);
                            lru_put(&mut self.order, id, slot);
                            proof {
                                let e1 = lru_entries(self.order);
                                assert(e1 == seq![(id, slot)] + e0.drop_last());
                                assert forall|a: int| 0 < a < e1.len() implies
                                    (#[trigger] e1[a]) == e0[a - 1] by {}
                                assert(e1[0] == (id, slot));
                                assert(self@ =~= inserted(s0, self.capacity(), id, value));
                            }
                        },
                        None => {
                            // A full cache holds at least one entry.
                            assert(false);
                        },
                    }
                } else {
                    let slot = self.slots.len();
                    self.slots.push(value);
                    lru_put(&mut self.order, id, slot);
                    proof {
                        let e1 = lru_entries(self.order);
                        assert(e1 == seq![(id, slot)] + e0);
                        assert forall|a: int| 0 < a < e1.len() implies (#[trigger] e1[a])
                            == e0[a - 1] by {}
                        assert(e1[0] == (id, slot));
                        assert(self@ =~= inserted(s0, self.capacity(), id, value));
                    }
                }
            },
        }
    }
}

/// Filing keeps the bound and the identifiers apart: after `value` was filed
/// under `id`, it is the first entry, so that a lookup of `id` finds `value`;
/// no identifier is cached twice, and the cache holds one entry more only
/// where `id` was new and there was room.
pub proof fn lemma_inserted_first<V>(s: Seq<(i32, V)>, cap: nat, id: i32, value: V)
    requires
        distinct_ids(s),
        cap > 0,
        s.len() <= cap,
    ensures
        distinct_ids(inserted(s, cap, id, value)),
        inserted(s, cap, id, value).len() <= cap,
        inserted(s, cap, id, value).len() == if holds(s, id) || s.len() == cap {
            s.len()
        } else {
            s.len() + 1
        },
        holds(inserted(s, cap, id, value), id),
        place_of(inserted(s, cap, id, value), id) == 0,
        inserted(s, cap, id, value)[0] == (id, value),
{
    let r = inserted(s, cap, id, value);
    assert(r[0] == (id, value));
    if holds(s, id) {
        let p = place_of(s, id);
        assert forall|a: int| 0 < a < r.len() implies (#[trigger] r[a]) == s[origin(a, p)] by {}
    } else if s.len() >= cap {
        assert forall|a: int| 0 < a < r.len() implies (#[trigger] r[a]) == s[a - 1] by {}
    } else {
        assert forall|a: int| 0 < a < r.len() implies (#[trigger] r[a]) == s[a - 1] by {}
    }
    assert(distinct_ids(r));
    assert(holds(r, id));
    let q = place_of(r, id);
    assert(r[q].0 == id);
    assert(q == 0);
}

/// Least-recently-used eviction: filing a new identifier in a full cache
/// evicts the last entry, the one used least recently, and nothing else.
/// Every other entry stays, one place further from the front.
pub proof fn lemma_full_insert_evicts_last<V>(s: Seq<(i32, V)>, cap: nat, id: i32, value: V)
    requires
        distinct_ids(s),
        cap > 0,
        s.len() == cap,
        !holds(s, id),
    ensures
        inserted(s, cap, id, value).len() == cap,
        inserted(s, cap, id, value) == seq![(id, value)] + s.drop_last(),
        !holds(inserted(s, cap, id, value), s.last().0),
        forall|i: int|
            0 <= i < s.len() - 1 ==> inserted(s, cap, id, value)[i + 1] == #[trigger] s[i],
        forall|k: i32|
            k != s.last().0 && holds(s, k) ==> #[trigger] holds(inserted(s, cap, id, value), k),
{
    let r = inserted(s, cap, id, value);
    let last = s.last().0;
    assert(s[s.len() - 1].0 == last);
    assert forall|a: int| 0 < a < r.len() implies (#[trigger] r[a]) == s[a - 1] by {}
    if holds(r, last) {
        let q = place_of(r, last);
        assert(r[q].0 == last);
        if q == 0 {
            assert(holds(s, id));
        } else {
            assert(s[q - 1].0 == last);
        }
        assert(false);
    }
    assert forall|k: i32| k != last && holds(s, k) implies #[trigger] holds(r, k) by {
        let p = place_of(s, k);
        assert(s[p].0 == k);
        assert(r[p + 1] == s[p]);
    }
}

/// A lookup counts as a use: in a full cache of two or more entries, after a
/// hit on the last entry a new identifier evicts the entry that stood before
/// it, and the entry that was looked up stays.
pub proof fn lemma_lookup_refreshes<V>(s: Seq<(i32, V)>, cap: nat, id: i32, value: V)
    requires
        distinct_ids(s),
        cap >= 2,
        s.len() == cap,
        !holds(s, id),
    ensures
        touched(s, s.len() - 1).len() == cap,
        distinct_ids(touched(s, s.len() - 1)),
        !holds(touched(s, s.len() - 1), id),
        touched(s, s.len() - 1).last() == s[s.len() - 2],
        holds(inserted(touched(s, s.len() - 1), cap, id, value), s.last().0),
        !holds(inserted(touched(s, s.len() - 1), cap, id, value), s[s.len() - 2].0),
{
    let n = s.len() as int;
    let t = touched(s, n - 1);
    assert(t[0] == s[n - 1]);
    assert forall|a: int| 0 < a < t.len() implies (#[trigger] t[a]) == s[a - 1] by {}
    assert(distinct_ids(t));
    if holds(t, id) {
        let q = place_of(t, id);
        assert(t[q].0 == id);
        if q == 0 {
            assert(s[n - 1].0 == id);
        } else {
            assert(s[q - 1].0 == id);
        }
        assert(false);
    }
    assert(t.last() == t[n - 1]);
    lemma_full_insert_evicts_last(t, cap, id, value);
    assert(t[0].0 == s.last().0);
    assert(holds(t, s.last().0));
    assert(s.last().0 != t.last().0);
}

/// A hit moves one entry to the front and loses none: the same identifiers
/// are cached afterwards, each with the entity it had.
pub proof fn lemma_touched_keeps<V>(s: Seq<(i32, V)>, i: int)
    requires
        distinct_ids(s),
        0 <= i < s.len(),
    ensures
        touched(s, i).len() == s.len(),
        touched(s, i)[0] == s[i],
        distinct_ids(touched(s, i)),
        forall|k: i32| holds(s, k) == #[trigger] holds(touched(s, i), k),
        forall|k: i32|
            holds(s, k) ==> #[trigger] touched(s, i)[place_of(touched(s, i), k)] == s[place_of(
                s,
                k,
            )],
{
    let t = touched(s, i);
    assert(t[0] == s[i]);
    assert forall|a: int| 0 < a < t.len() implies (#[trigger] t[a]) == s[origin(a, i)] by {}
    assert(distinct_ids(t));
    assert forall|k: i32| holds(s, k) == #[trigger] holds(t, k) by {
        if holds(s, k) {
            let p = place_of(s, k);
            assert(s[p].0 == k);
            let a = if p == i {
                0
            } else if p < i {
                p + 1
            } else {
                p
            };
            assert(t[a] == s[p]);
        }
        if holds(t, k) {
            let a = place_of(t, k);
            assert(t[a].0 == k);
            let p = if a == 0 {
                i
            } else if a <= i {
                a - 1
            } else {
                a
            };
            assert(s[p] == t[a]);
        }
    }
    assert forall|k: i32| holds(s, k) implies #[trigger] t[place_of(t, k)] == s[place_of(
        s,
        k,
    )] by {
        let p = place_of(s, k);
        assert(s[p].0 == k);
        assert(holds(t, k));
        let a = place_of(t, k);
        assert(t[a].0 == k);
        let p2 = if a == 0 {
            i
        } else if a <= i {
            a - 1
        } else {
            a
        };
        assert(s[p2] == t[a]);
        assert(p2 == p);
    }
}

/// `s` after the entries of `items` were filed one after another, the first
/// of them first.
pub open spec fn filed<V>(s: Seq<(i32, V)>, cap: nat, items: Seq<(i32, V)>) -> Seq<(i32, V)>
    decreases items.len(),
{
    if items.len() == 0 {
        s
    } else {
        inserted(filed(s, cap, items.drop_last()), cap, items.last().0, items.last().1)
    }
}

/// Filing entries with distinct identifiers in an empty cache keeps the
/// latest of them, as many as the bound allows, the latest first: each entry
/// beyond the bound evicts the oldest one left, and only that one.
pub proof fn lemma_filed_keeps_latest<V>(cap: nat, items: Seq<(i32, V)>)
    requires
        cap > 0,
        distinct_ids(items),
    ensures
        filed(Seq::empty(), cap, items).len() == if items.len() <= cap {
            items.len()
        } else {
            cap
        },
        forall|i: int|
            0 <= i < filed(Seq::empty(), cap, items).len() ==> #[trigger] filed(
                Seq::empty(),
                cap,
                items,
            )[i] == items[items.len() - 1 - i],
        forall|j: int|
            0 <= j < items.len() ==> (holds(
                filed(Seq::empty(), cap, items),
                (#[trigger] items[j]).0,
            ) <==> j >= items.len() - cap),
    decreases items.len(),
{
    let n = items.len() as int;
    let r = filed(Seq::empty(), cap, items);
    if n > 0 {
        let prefix = items.drop_last();
        let last = items.last();
        assert forall|i: int| 0 <= i < prefix.len() implies (#[trigger] prefix[i]) == items[i] by {}
        assert(distinct_ids(prefix));
        lemma_filed_keeps_latest(cap, prefix);
        let p = filed(Seq::empty(), cap, prefix);
        assert forall|i: int| 0 <= i < p.len() implies (#[trigger] p[i]) == items[n - 2 - i] by {
            assert(p[i] == prefix[prefix.len() - 1 - i]);
        }
        if holds(p, last.0) {
            let q = place_of(p, last.0);
            assert(p[q].0 == last.0);
            assert(p[q] == items[n - 2 - q]);
            assert(items[n - 1].0 == last.0);
            assert(false);
        }
        assert(r == inserted(p, cap, last.0, last.1));
        assert(r[0] == last);
        assert forall|i: int| 0 < i < r.len() implies (#[trigger] r[i]) == p[i - 1] by {}
        assert forall|i: int| 0 <= i < r.len() implies (#[trigger] r[i]) == items[n - 1 - i] by {
            if i > 0 {
                assert(r[i] == p[i - 1]);
            }
        }
    }
    assert forall|j: int| 0 <= j < n implies (holds(r, (#[trigger] items[j]).0) <==> j >= n
        - cap) by {
        if j >= n - cap {
            assert(r[n - 1 - j] == items[j]);
        }
        if holds(r, items[j].0) {
            let q = place_of(r, items[j].0);
            assert(r[q].0 == items[j].0);
            assert(r[q] == items[n - 1 - q]);
            assert(n - 1 - q == j);
        }
    }
}

} // verus!
