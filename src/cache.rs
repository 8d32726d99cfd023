//! A bounded least-recently-used map from chunk keys to values. Recency is a
//! logical timestamp per key, kept in a priority queue so that the oldest key
//! is found without a scan.
use crate::base::{Box3, ChunkCacheKey, Point3};
use priority_queue::PriorityQueue;
use std::cmp::Reverse;
use std::hash::Hash;
use vstd::prelude::*;

verus! {

/// A cache key written as a tuple of integers, as the recency queue holds it.
pub type RecencyKey = (i32, i32, i32, i32, i32, i32, u32);

/// Declares `std::cmp::Reverse`, the priority wrapper of the recency queue;
/// Verus sees nothing inside it.
#[verifier::external_type_specification]
#[verifier::external_body]
#[verifier::reject_recursive_types(T)]
pub struct ExReverse<T>(Reverse<T>);

/// Declares `priority_queue::PriorityQueue`; what it holds is known only
/// through `queued_stamps` and the wrappers below.
#[verifier::external_type_specification]
#[verifier::external_body]
#[verifier::reject_recursive_types(I)]
#[verifier::reject_recursive_types(P)]
#[verifier::reject_recursive_types(H)]
pub struct ExPriorityQueue<I: Hash + Eq, P: Ord, H>(PriorityQueue<I, P, H>);

/// The recency queue: keys with `Reverse` timestamps, so that the greatest
/// priority is the oldest timestamp.
pub type RecencyQueue = PriorityQueue<RecencyKey, Reverse<u64>>;

/// What the recency queue holds: each key with its timestamp.
pub uninterp spec fn queued_stamps(q: RecencyQueue) -> Map<RecencyKey, u64>;

/// Relies on `PriorityQueue::new`: the queue starts empty.
#[verifier::external_body]
fn queue_new() -> (q: RecencyQueue)
    ensures
        queued_stamps(q).dom().is_empty(),
{
    PriorityQueue::new()
}

/// Relies on `PriorityQueue::push_decrease` with priority `Reverse(stamp)`:
/// an absent key is inserted; a present one takes the new priority only when
/// it is lower, that is, when `stamp` is later than the one it has.
#[verifier::external_body]
fn queue_push_decrease(q: &mut RecencyQueue, key: RecencyKey, stamp: u64)
    ensures
        queued_stamps(*final(q)) == if queued_stamps(*old(q)).contains_key(key) && queued_stamps(
            *old(q),
        )[key] >= stamp {
            queued_stamps(*old(q))
        } else {
            queued_stamps(*old(q)).insert(key, stamp)
        },
{
    q.push_decrease(key, Reverse(stamp));
}

/// Relies on `PriorityQueue::pop`: removes and returns an item of greatest
/// priority, that is, a key whose `Reverse` timestamp is the oldest; `None`
/// on an empty queue.
#[verifier::external_body]
fn queue_pop(q: &mut RecencyQueue) -> (r: Option<(RecencyKey, u64)>)
    ensures
        queued_stamps(*old(q)).dom().is_empty() ==> r is None && queued_stamps(*final(q))
            == queued_stamps(*old(q)),
        !queued_stamps(*old(q)).dom().is_empty() ==> (r matches Some((k, s)) && queued_stamps(
            *old(q),
        ).contains_key(k) && queued_stamps(*old(q))[k] == s && (forall|j: RecencyKey|
            #[trigger] queued_stamps(*old(q)).contains_key(j) ==> s <= queued_stamps(*old(q))[j])
            && queued_stamps(*final(q)) == queued_stamps(*old(q)).remove(k)),
{
    q.pop().map(|(k, p)| (k, p.0))
}

/// Relies on `PriorityQueue::clear`: the queue is left empty.
#[verifier::external_body]
fn queue_clear(q: &mut RecencyQueue)
    ensures
        queued_stamps(*final(q)).dom().is_empty(),
{
    q.clear();
}

pub open spec fn tuple_of(k: ChunkCacheKey) -> RecencyKey {
    (
        k.bounds.min.x,
        k.bounds.min.y,
        k.bounds.min.z,
        k.bounds.max.x,
        k.bounds.max.y,
        k.bounds.max.z,
        k.level,
    )
}

pub open spec fn key_of_tuple(t: RecencyKey) -> ChunkCacheKey {
    ChunkCacheKey {
        bounds: Box3 {
            min: Point3 { x: t.0, y: t.1, z: t.2 },
            max: Point3 { x: t.3, y: t.4, z: t.5 },
        },
        level: t.6,
    }
}

fn tuple_exec(k: &ChunkCacheKey) -> (r: RecencyKey)
    ensures
        r == tuple_of(*k),
{
    (
        k.bounds.min.x,
        k.bounds.min.y,
        k.bounds.min.z,
        k.bounds.max.x,
        k.bounds.max.y,
        k.bounds.max.z,
        k.level,
    )
}

fn key_exec(t: RecencyKey) -> (r: ChunkCacheKey)
    ensures
        r == key_of_tuple(t),
{
    ChunkCacheKey {
        bounds: Box3 {
            min: Point3 { x: t.0, y: t.1, z: t.2 },
            max: Point3 { x: t.3, y: t.4, z: t.5 },
        },
        level: t.6,
    }
}

/// The clock after one tick; it stops at its largest value.
pub open spec fn next_clock(c: u64) -> u64 {
    if c < u64::MAX {
        (c + 1) as u64
    } else {
        c
    }
}

/// The map that a list of entries with distinct keys stands for.
pub open spec fn entries_map<V>(s: Seq<(ChunkCacheKey, V)>) -> Map<ChunkCacheKey, V> {
    Map::new(
        |k: ChunkCacheKey| exists|i: int| 0 <= i < s.len() && (#[trigger] s[i]).0 == k,
        |k: ChunkCacheKey| s[choose|i: int| 0 <= i < s.len() && (#[trigger] s[i]).0 == k].1,
    )
}

pub open spec fn keys_distinct<V>(s: Seq<(ChunkCacheKey, V)>) -> bool {
    forall|i: int, j: int| 0 <= i < j < s.len() ==> (#[trigger] s[i]).0 != (#[trigger] s[j]).0
}

proof fn lemma_entries_at<V>(s: Seq<(ChunkCacheKey, V)>, i: int)
    requires
        keys_distinct(s),
        0 <= i < s.len(),
    ensures
        entries_map(s).contains_key(s[i].0),
        entries_map(s)[s[i].0] == s[i].1,
{
    let k = s[i].0;
    assert(exists|j: int| 0 <= j < s.len() && (#[trigger] s[j]).0 == k);
    let c = choose|j: int| 0 <= j < s.len() && (#[trigger] s[j]).0 == k;
    assert(c == i) by {
        if c < i {
            assert(s[c].0 != s[i].0);
        } else if c > i {
            assert(s[i].0 != s[c].0);
        }
    }
}

proof fn lemma_entries_push<V>(s: Seq<(ChunkCacheKey, V)>, k: ChunkCacheKey, v: V)
    requires
        keys_distinct(s),
        !entries_map(s).contains_key(k),
    ensures
        keys_distinct(s.push((k, v))),
        entries_map(s.push((k, v))) == entries_map(s).insert(k, v),
{
    let t = s.push((k, v));
    assert forall|i: int, j: int| 0 <= i < j < t.len() implies (#[trigger] t[i]).0 != (
    #[trigger] t[j]).0 by {
        if j == s.len() {
            if s[i].0 == k {
                lemma_entries_at(s, i);
            }
        } else {
            assert(s[i] == t[i] && s[j] == t[j]);
        }
    }
    assert forall|key: ChunkCacheKey| #[trigger]
        entries_map(t).contains_key(key) == entries_map(s).insert(k, v).contains_key(key) by {
        if entries_map(s).contains_key(key) {
            let i = choose|i: int| 0 <= i < s.len() && (#[trigger] s[i]).0 == key;
            assert(t[i] == s[i]);
        }
        if key == k {
            assert(t[s.len() as int].0 == k);
        }
        if entries_map(t).contains_key(key) {
            let i = choose|i: int| 0 <= i < t.len() && (#[trigger] t[i]).0 == key;
            if i < s.len() {
                assert(t[i] == s[i]);
            }
        }
    }
    assert forall|key: ChunkCacheKey| #[trigger] entries_map(t).contains_key(key) implies entries_map(
        t,
    )[key] == entries_map(s).insert(k, v)[key] by {
        let i = choose|i: int| 0 <= i < t.len() && (#[trigger] t[i]).0 == key;
        lemma_entries_at(t, i);
        if i < s.len() {
            assert(t[i] == s[i]);
            lemma_entries_at(s, i);
        }
    }
    assert(entries_map(t) =~= entries_map(s).insert(k, v));
}

proof fn lemma_entries_update<V>(s: Seq<(ChunkCacheKey, V)>, i: int, v: V)
    requires
        keys_distinct(s),
        0 <= i < s.len(),
    ensures
        keys_distinct(s.update(i, (s[i].0, v))),
        entries_map(s.update(i, (s[i].0, v))) == entries_map(s).insert(s[i].0, v),
{
    let t = s.update(i, (s[i].0, v));
    let k = s[i].0;
    assert forall|a: int, b: int| 0 <= a < b < t.len() implies (#[trigger] t[a]).0 != (
    #[trigger] t[b]).0 by {
        assert(t[a].0 == s[a].0 && t[b].0 == s[b].0);
    }
    assert forall|key: ChunkCacheKey| #[trigger]
        entries_map(t).contains_key(key) == entries_map(s).insert(k, v).contains_key(key) by {
        if entries_map(s).contains_key(key) {
            let j = choose|j: int| 0 <= j < s.len() && (#[trigger] s[j]).0 == key;
            assert(t[j].0 == s[j].0);
        }
        if key == k {
            assert(t[i].0 == k);
        }
        if entries_map(t).contains_key(key) {
            let j = choose|j: int| 0 <= j < t.len() && (#[trigger] t[j]).0 == key;
            assert(t[j].0 == s[j].0);
        }
    }
    assert forall|key: ChunkCacheKey| #[trigger] entries_map(t).contains_key(key) implies entries_map(
        t,
    )[key] == entries_map(s).insert(k, v)[key] by {
        let j = choose|j: int| 0 <= j < t.len() && (#[trigger] t[j]).0 == key;
        lemma_entries_at(t, j);
        if j != i {
            assert(t[j] == s[j]);
            lemma_entries_at(s, j);
        }
    }
    assert(entries_map(t) =~= entries_map(s).insert(k, v));
}

proof fn lemma_entries_remove<V>(s: Seq<(ChunkCacheKey, V)>, i: int)
    requires
        keys_distinct(s),
        0 <= i < s.len(),
    ensures
        keys_distinct(s.remove(i)),
        entries_map(s.remove(i)) == entries_map(s).remove(s[i].0),
{
    let t = s.remove(i);
    let k = s[i].0;
    assert forall|a: int, b: int| 0 <= a < b < t.len() implies (#[trigger] t[a]).0 != (
    #[trigger] t[b]).0 by {
        let a2 = if a < i { a } else { a + 1 };
        let b2 = if b < i { b } else { b + 1 };
        assert(t[a] == s[a2] && t[b] == s[b2]);
    }
    assert forall|key: ChunkCacheKey| #[trigger]
        entries_map(t).contains_key(key) == entries_map(s).remove(k).contains_key(key) by {
        if entries_map(s).contains_key(key) && key != k {
            let j = choose|j: int| 0 <= j < s.len() && (#[trigger] s[j]).0 == key;
            assert(j != i);
            let j2 = if j < i { j } else { j - 1 };
            assert(t[j2] == s[j]);
        }
        if entries_map(t).contains_key(key) {
            let j = choose|j: int| 0 <= j < t.len() && (#[trigger] t[j]).0 == key;
            let j2 = if j < i { j } else { j + 1 };
            assert(t[j] == s[j2]);
            assert(s[j2].0 != s[i].0);
        }
    }
    assert forall|key: ChunkCacheKey| #[trigger] entries_map(t).contains_key(key) implies entries_map(
        t,
    )[key] == entries_map(s).remove(k)[key] by {
        let j = choose|j: int| 0 <= j < t.len() && (#[trigger] t[j]).0 == key;
        let j2 = if j < i { j } else { j + 1 };
        assert(t[j] == s[j2]);
        lemma_entries_at(t, j);
        lemma_entries_at(s, j2);
    }
    assert(entries_map(t) =~= entries_map(s).remove(k));
}

/// A map from chunk keys to values holding at most `max_size` entries; an
/// insert past that bound evicts the entry whose timestamp is the oldest.
/// Lookups leave recency alone; `update_last_accessed` refreshes it.
pub struct Cache<V> {
    cache: Vec<(ChunkCacheKey, V)>,
    last_accessed: RecencyQueue,
    max_size: usize,
    clock: u64,
}

impl<V> View for Cache<V> {
    type V = Map<ChunkCacheKey, V>;

    closed spec fn view(&self) -> Map<ChunkCacheKey, V> {
        entries_map(self.cache@)
    }
}

impl<V> Cache<V> {
    /// Each key's recency timestamp.
    pub closed spec fn stamps(&self) -> Map<ChunkCacheKey, u64> {
        Map::new(
            |k: ChunkCacheKey| queued_stamps(self.last_accessed).contains_key(tuple_of(k)),
            |k: ChunkCacheKey| queued_stamps(self.last_accessed)[tuple_of(k)],
        )
    }

    /// The number of entries.
    pub closed spec fn size(&self) -> nat {
        self.cache@.len()
    }

    pub closed spec fn max_size(&self) -> nat {
        self.max_size as nat
    }

    /// The logical clock that `insert` and `update_last_accessed` stamp with.
    pub closed spec fn clock(&self) -> u64 {
        self.clock
    }

    /// Keys are distinct, the bound holds, and exactly the cached keys have a
    /// timestamp.
    pub closed spec fn wf(&self) -> bool {
        &&& keys_distinct(self.cache@)
        &&& self.cache@.len() <= self.max_size
        &&& forall|t: RecencyKey| #[trigger]
            queued_stamps(self.last_accessed).contains_key(t) ==> entries_map(
                self.cache@,
            ).contains_key(key_of_tuple(t))
        &&& forall|k: ChunkCacheKey| #[trigger]
            entries_map(self.cache@).contains_key(k) ==> queued_stamps(
                self.last_accessed,
            ).contains_key(tuple_of(k))
        &&& forall|t: RecencyKey| #[trigger]
            queued_stamps(self.last_accessed).contains_key(t) ==> queued_stamps(self.last_accessed)[t]
                <= self.clock
    }

    pub fn new(max_size: usize) -> (r: Cache<V>)
        ensures
            r.wf(),
            r@ == Map::<ChunkCacheKey, V>::empty(),
            r.stamps() == Map::<ChunkCacheKey, u64>::empty(),
            r.size() == 0,
            r.max_size() == max_size,
            r.clock() == 0,
    {
        let r = Cache { cache: Vec::new(), last_accessed: queue_new(), max_size, clock: 0 };
        assert(r@ =~= Map::<ChunkCacheKey, V>::empty());
        assert(r.stamps() =~= Map::<ChunkCacheKey, u64>::empty());
        r
    }

    fn find(&self, key: &ChunkCacheKey) -> (r: Option<usize>)
        ensures
            match r {
                Some(i) => i < self.cache@.len() && self.cache@[i as int].0 == *key,
                None => !self@.contains_key(*key),
            },
    {
        let mut i: usize = 0;
        while i < self.cache.len()
            invariant
                i <= self.cache@.len(),
                forall|j: int| 0 <= j < i ==> (#[trigger] self.cache@[j]).0 != *key,
            decreases self.cache@.len() - i,
        {
            if self.cache[i].0 == *key {
                return Some(i);
            }
            i += 1;
        }
        None
    }

    /// The value under `key`; recency is left as it is.
    pub fn get(&self, key: &ChunkCacheKey) -> (r: Option<&V>)
        requires
            self.wf(),
        ensures
            match r {
                Some(v) => self@.contains_key(*key) && *v == self@[*key],
                None => !self@.contains_key(*key),
            },
    {
        match self.find(key) {
            Some(i) => {
                proof {
                    lemma_entries_at(self.cache@, i as int);
                }
                Some(&self.cache[i].1)
            },
            None => None,
        }
    }

    /// The value under `key`, to change in place; recency is left as it is.
    pub fn get_mut(&mut self, key: &ChunkCacheKey) -> (r: Option<&mut V>)
        requires
            old(self).wf(),
        ensures
            r is None <==> !old(self)@.contains_key(*key),
            r is None ==> *final(self) == *old(self),
            r is Some ==> *(r->Some_0) == old(self)@[*key] && final(self)@ == old(self)@.insert(
                *key,
                *final(r->Some_0),
            ) && final(self).stamps() == old(self).stamps() && final(self).size() == old(
                self,
            ).size() && final(self).max_size() == old(self).max_size() && final(self).clock()
                == old(self).clock() && final(self).wf(),
    {
        match self.find(key) {
            Some(i) => {
                let ghost entries = self.cache@;
                proof {
                    lemma_entries_at(entries, i as int);
                }
                let e = &mut self.cache[i];
                let v = &mut e.1;
                proof {
                    lemma_entries_update(entries, i as int, *final(v));
                }
                Some(v)
            },
            None => None,
        }
    }

    /// Whether `key` has an entry.
    pub fn contains_key(&self, key: &ChunkCacheKey) -> (r: bool)
        requires
            self.wf(),
        ensures
            r == self@.contains_key(*key),
    {
        match self.find(key) {
            Some(i) => {
                proof {
                    lemma_entries_at(self.cache@, i as int);
                }
                true
            },
            None => false,
        }
    }

    /// Whether inserting `key` overflows the bound: the key is new and the
    /// cache is full.
    pub open spec fn evicts_on_insert(&self, key: ChunkCacheKey) -> bool {
        !self@.contains_key(key) && self.size() == self.max_size()
    }

    proof fn lemma_stamps_after_push(old_q: RecencyQueue, new_q: RecencyQueue, key: ChunkCacheKey, stamp: u64, old_c: Cache<V>, new_c: Cache<V>)
        requires
            old_c.last_accessed == old_q,
            new_c.last_accessed == new_q,
            queued_stamps(new_q) == if queued_stamps(old_q).contains_key(tuple_of(key))
                && queued_stamps(old_q)[tuple_of(key)] >= stamp {
                queued_stamps(old_q)
            } else {
                queued_stamps(old_q).insert(tuple_of(key), stamp)
            },
        ensures
            new_c.stamps() == stamped(old_c.stamps(), key, stamp),
    {
        assert(new_c.stamps() =~= stamped(old_c.stamps(), key, stamp));
    }

    /// Inserts or overwrites `key` and stamps it with `stamp` unless it has a
    /// later stamp; then, if that overflows the bound, evicts one entry whose
    /// stamp is the oldest.
    pub fn insert_with_priority(&mut self, key: &ChunkCacheKey, value: V, stamp: u64)
        requires
            old(self).wf(),
        ensures
            final(self).wf(),
            final(self).max_size() == old(self).max_size(),
            final(self).clock() == if stamp > old(self).clock() {
                stamp
            } else {
                old(self).clock()
            },
            !old(self).evicts_on_insert(*key) ==> final(self)@ == old(self)@.insert(*key, value)
                && final(self).stamps() == stamped(old(self).stamps(), *key, stamp),
            old(self).evicts_on_insert(*key) ==> exists|victim: ChunkCacheKey|
                #[trigger] oldest_in(stamped(old(self).stamps(), *key, stamp), victim)
                    && final(self)@ == old(self)@.insert(*key, value).remove(victim)
                    && final(self).stamps() == stamped(old(self).stamps(), *key, stamp).remove(victim),
            final(self).size() == if old(self)@.contains_key(*key) || old(self).evicts_on_insert(
                *key,
            ) {
                old(self).size()
            } else {
                old(self).size() + 1
            },
    {
        let ghost old_c = *self;
        let t = tuple_exec(key);
        queue_push_decrease(&mut self.last_accessed, t, stamp);
        proof {
            Self::lemma_stamps_after_push(old_c.last_accessed, self.last_accessed, *key, stamp, old_c, *self);
        }
        let ghost s1 = self.stamps();
        match self.find(key) {
            Some(i) => {
                proof {
                    lemma_entries_update(self.cache@, i as int, value);
                }
                self.cache.set(i, (*key, value));
            },
            None => {
                proof {
                    lemma_entries_push(self.cache@, *key, value);
                }
                self.cache.push((*key, value));
            },
        }
        let ghost m1 = self@;
        assert(m1 == old_c@.insert(*key, value));
        assert forall|k: ChunkCacheKey| #[trigger] m1.contains_key(k) implies s1.contains_key(k) by {
            if k != *key {
                assert(old_c@.contains_key(k));
                assert(queued_stamps(old_c.last_accessed).contains_key(tuple_of(k)));
            }
        }
        assert forall|tt: RecencyKey| #[trigger] queued_stamps(self.last_accessed).contains_key(tt) implies m1.contains_key(key_of_tuple(tt)) by {
            if tt != tuple_of(*key) {
                assert(queued_stamps(old_c.last_accessed).contains_key(tt));
            }
        }
        if self.cache.len() > self.max_size {
            let ghost q0 = self.last_accessed;
            assert(s1.contains_key(*key));
            assert(queued_stamps(q0).contains_key(tuple_of(*key)));
            let popped = queue_pop(&mut self.last_accessed);
            match popped {
                Some((tk, ts)) => {
                    let victim = key_exec(tk);
                    assert(tuple_of(victim) == tk);
                    assert(m1.contains_key(victim));
                    match self.find(&victim) {
                        Some(i) => {
                            proof {
                                lemma_entries_remove(self.cache@, i as int);
                            }
                            self.cache.remove(i);
                            proof {
                                assert(self@ == m1.remove(victim));
                                assert(self.stamps() =~= s1.remove(victim));
                                assert(oldest_in(s1, victim));
                                assert forall|k: ChunkCacheKey| #[trigger] s1.contains_key(k) implies s1[victim] <= s1[k] by {
                                    assert(queued_stamps(q0).contains_key(tuple_of(k)));
                                }
                                assert forall|tt: RecencyKey| #[trigger] queued_stamps(self.last_accessed).contains_key(tt) implies self@.contains_key(key_of_tuple(tt)) by {
                                    assert(queued_stamps(q0).contains_key(tt));
                                    assert(m1.contains_key(key_of_tuple(tt)));
                                    assert(tt != tk);
                                    assert(key_of_tuple(tt) != victim);
                                }
                                assert forall|k: ChunkCacheKey| #[trigger] self@.contains_key(k) implies queued_stamps(self.last_accessed).contains_key(tuple_of(k)) by {
                                    assert(m1.contains_key(k));
                                    assert(s1.contains_key(k));
                                }
                            }
                        },
                        None => {},
                    }
                },
                None => {},
            }
        } else {
            proof {
                assert forall|k: ChunkCacheKey| #[trigger] self@.contains_key(k) implies queued_stamps(self.last_accessed).contains_key(tuple_of(k)) by {
                    assert(s1.contains_key(k));
                }
            }
        }
        let ghost q = queued_stamps(self.last_accessed);
        let ghost c0 = self.clock;
        if stamp > self.clock {
            self.clock = stamp;
        }
        proof {
            assert forall|t: RecencyKey| #[trigger] q.contains_key(t) implies q[t] <= self.clock by {
                assert(queued_stamps(old_c.last_accessed).contains_key(t) ==> queued_stamps(old_c.last_accessed)[t] <= c0);
            }
        }
    }

    /// Inserts or overwrites `key`, stamped with the next tick of the clock,
    /// and evicts the oldest entry if the bound overflows.
    pub fn insert(&mut self, key: &ChunkCacheKey, value: V)
        requires
            old(self).wf(),
        ensures
            final(self).wf(),
            final(self).max_size() == old(self).max_size(),
            final(self).clock() == next_clock(old(self).clock()),
            inserted(*old(self), *final(self), *key, value, final(self).clock()),
            !old(self).evicts_on_insert(*key) ==> final(self)@ == old(self)@.insert(*key, value)
                && final(self).stamps() == stamped(old(self).stamps(), *key, final(self).clock()),
            old(self).evicts_on_insert(*key) ==> exists|victim: ChunkCacheKey|
                #[trigger] oldest_in(stamped(old(self).stamps(), *key, final(self).clock()), victim)
                    && final(self)@ == old(self)@.insert(*key, value).remove(victim)
                    && final(self).stamps() == stamped(old(self).stamps(), *key, final(self).clock()).remove(victim),
            final(self).size() == if old(self)@.contains_key(*key) || old(self).evicts_on_insert(
                *key,
            ) {
                old(self).size()
            } else {
                old(self).size() + 1
            },
    {
        self.clock = if self.clock < u64::MAX {
            self.clock + 1
        } else {
            self.clock
        };
        let stamp = self.clock;
        let ghost mid = *self;
        assert(mid@ == old(self)@ && mid.stamps() == old(self).stamps() && mid.size() == old(
            self,
        ).size());
        self.insert_with_priority(key, value, stamp);
        proof {
            if old(self).evicts_on_insert(*key) {
                let victim = choose|victim: ChunkCacheKey|
                    #[trigger] oldest_in(stamped(mid.stamps(), *key, stamp), victim) && self@ == mid@.insert(
                        *key,
                        value,
                    ).remove(victim) && self.stamps() == stamped(mid.stamps(), *key, stamp).remove(
                        victim,
                    );
                assert(oldest_in(stamped(old(self).stamps(), *key, self.clock()), victim));
            }
        }
    }

    /// Stamps a cached `key` with the next tick of the clock; an absent key
    /// is ignored.
    pub fn update_last_accessed(&mut self, key: &ChunkCacheKey)
        requires
            old(self).wf(),
        ensures
            final(self).wf(),
            final(self)@ == old(self)@,
            final(self).size() == old(self).size(),
            final(self).max_size() == old(self).max_size(),
            final(self).clock() == next_clock(old(self).clock()),
            old(self)@.contains_key(*key) ==> final(self).stamps() == stamped(
                old(self).stamps(),
                *key,
                final(self).clock(),
            ),
            !old(self)@.contains_key(*key) ==> final(self).stamps() == old(self).stamps(),
    {
        self.clock = if self.clock < u64::MAX {
            self.clock + 1
        } else {
            self.clock
        };
        if self.contains_key(key) {
            let ghost old_c = *self;
            let stamp = self.clock;
            let t = tuple_exec(key);
            queue_push_decrease(&mut self.last_accessed, t, stamp);
            proof {
                Self::lemma_stamps_after_push(old_c.last_accessed, self.last_accessed, *key, stamp, old_c, *self);
                assert forall|tt: RecencyKey| #[trigger] queued_stamps(self.last_accessed).contains_key(tt) implies self@.contains_key(key_of_tuple(tt)) by {
                    if tt != tuple_of(*key) {
                        assert(queued_stamps(old_c.last_accessed).contains_key(tt));
                    }
                }
            }
        }
    }

    /// Drops every entry.
    pub fn clear(&mut self)
        requires
            old(self).wf(),
        ensures
            final(self).wf(),
            final(self)@ == Map::<ChunkCacheKey, V>::empty(),
            final(self).stamps() == Map::<ChunkCacheKey, u64>::empty(),
            final(self).size() == 0,
            final(self).max_size() == old(self).max_size(),
            final(self).clock() == old(self).clock(),
    {
        self.cache.clear();
        queue_clear(&mut self.last_accessed);
        assert(self@ =~= Map::<ChunkCacheKey, V>::empty());
        assert(self.stamps() =~= Map::<ChunkCacheKey, u64>::empty());
    }

    /// The cached keys, each once.
    pub fn keys(&self) -> (r: Vec<ChunkCacheKey>)
        requires
            self.wf(),
        ensures
            r@.no_duplicates(),
            forall|k: ChunkCacheKey| self@.contains_key(k) <==> r@.contains(k),
    {
        let mut r: Vec<ChunkCacheKey> = Vec::new();
        let mut i: usize = 0;
        while i < self.cache.len()
            invariant
                self.wf(),
                i <= self.cache@.len(),
                r@.len() == i,
                forall|j: int| 0 <= j < i ==> #[trigger] r@[j] == self.cache@[j].0,
            decreases self.cache@.len() - i,
        {
            r.push(self.cache[i].0);
            i += 1;
        }
        proof {
            assert forall|a: int, b: int| 0 <= a < b < r@.len() implies r@[a] != r@[b] by {
                assert(self.cache@[a].0 != self.cache@[b].0);
            }
            assert forall|k: ChunkCacheKey| self@.contains_key(k) <==> r@.contains(k) by {
                if self@.contains_key(k) {
                    let j = choose|j: int| 0 <= j < self.cache@.len() && (#[trigger] self.cache@[j]).0 == k;
                    assert(r@[j] == k);
                }
                if r@.contains(k) {
                    let j = choose|j: int| 0 <= j < r@.len() && r@[j] == k;
                    assert(self.cache@[j].0 == k);
                }
            }
        }
        r
    }

    /// The number of entries.
    pub fn len(&self) -> (r: usize)
        ensures
            r == self.size(),
    {
        self.cache.len()
    }
}

/// `stamps` after `key` is stamped with `stamp`: a key that is absent, or
/// stamped earlier, takes the new stamp.
pub open spec fn stamped(stamps: Map<ChunkCacheKey, u64>, key: ChunkCacheKey, stamp: u64) -> Map<
    ChunkCacheKey,
    u64,
> {
    if stamps.contains_key(key) && stamps[key] >= stamp {
        stamps
    } else {
        stamps.insert(key, stamp)
    }
}

/// `new` is `old` after `key` was inserted with `value` and stamped with
/// `stamp`, and the oldest entry was evicted if the bound overflowed.
pub open spec fn inserted<V>(
    old: Cache<V>,
    new: Cache<V>,
    key: ChunkCacheKey,
    value: V,
    stamp: u64,
) -> bool {
    &&& new.max_size() == old.max_size()
    &&& !old.evicts_on_insert(key) ==> new@ == old@.insert(key, value) && new.stamps() == stamped(
        old.stamps(),
        key,
        stamp,
    )
    &&& old.evicts_on_insert(key) ==> exists|victim: ChunkCacheKey|
        #[trigger] oldest_in(stamped(old.stamps(), key, stamp), victim) && new@ == old@.insert(
            key,
            value,
        ).remove(victim) && new.stamps() == stamped(old.stamps(), key, stamp).remove(victim)
}

/// `victim` has a stamp, and none is older.
pub open spec fn oldest_in(stamps: Map<ChunkCacheKey, u64>, victim: ChunkCacheKey) -> bool {
    &&& stamps.contains_key(victim)
    &&& forall|k: ChunkCacheKey| #[trigger] stamps.contains_key(k) ==> stamps[victim] <= stamps[k]
}

/// Stamping a cached key leaves the set of stamped keys as it is.
pub proof fn lemma_cache_stamped_dom<V>(c: Cache<V>, key: ChunkCacheKey)
    requires
        c.wf(),
        c@.contains_key(key),
    ensures
        c.stamps().contains_key(key),
{
    assert(queued_stamps(c.last_accessed).contains_key(tuple_of(key)));
}

/// Exactly the cached keys have a stamp, and no stamp is later than the
/// clock.
pub proof fn lemma_stamps_bounded<V>(c: Cache<V>)
    requires
        c.wf(),
    ensures
        forall|k: ChunkCacheKey| #[trigger] c.stamps().contains_key(k) <==> c@.contains_key(k),
        forall|k: ChunkCacheKey| #[trigger] c.stamps().contains_key(k) ==> c.stamps()[k] <= c.clock(),
{
    assert forall|k: ChunkCacheKey| #[trigger] c.stamps().contains_key(k) <==> c@.contains_key(k) by {
        if c.stamps().contains_key(k) {
            assert(queued_stamps(c.last_accessed).contains_key(tuple_of(k)));
            assert(key_of_tuple(tuple_of(k)) == k);
        }
    }
}

/// A cache never holds more entries than its bound.
pub proof fn lemma_cache_bounded<V>(c: Cache<V>)
    requires
        c.wf(),
    ensures
        c.size() <= c.max_size(),
{
}

} // verus!
