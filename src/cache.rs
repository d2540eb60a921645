//! A fixed-capacity key/value cache that evicts the least recently used entry.
use vstd::prelude::*;

verus! {

/// Keys of a [`BoundedCache`]: plain values compared field by field.
pub trait CacheKey: Copy {
    fn same_key(&self, other: &Self) -> (r: bool)
        ensures
            r == (*self == *other),
    ;
}

impl CacheKey for i64 {
    fn same_key(&self, other: &i64) -> (r: bool) {
        *self == *other
    }
}

/// Whether some entry of `s` has key `k`.
pub open spec fn has_key<K, V>(s: Seq<(K, V)>, k: K) -> bool {
    exists|i: int| 0 <= i < s.len() && #[trigger] s[i].0 == k
}

/// The position of the entry with key `k` (meaningful when `has_key(s, k)`).
pub open spec fn key_pos<K, V>(s: Seq<(K, V)>, k: K) -> int {
    choose|i: int| 0 <= i < s.len() && #[trigger] s[i].0 == k
}

/// No two entries share a key.
pub open spec fn distinct_keys<K, V>(s: Seq<(K, V)>) -> bool {
    forall|i: int, j: int| 0 <= i < j < s.len() ==> #[trigger] s[i].0 != #[trigger] s[j].0
}

/// The value cached under `k`.
pub open spec fn lookup<K, V>(s: Seq<(K, V)>, k: K) -> Option<V> {
    if has_key(s, k) {
        Some(s[key_pos(s, k)].1)
    } else {
        None
    }
}

/// The entries after `k` is read: a hit moves its entry to the most recent end.
pub open spec fn touched<K, V>(s: Seq<(K, V)>, k: K) -> Seq<(K, V)> {
    if has_key(s, k) {
        s.remove(key_pos(s, k)).push(s[key_pos(s, k)])
    } else {
        s
    }
}

/// The entries after `k` is removed.
pub open spec fn removed<K, V>(s: Seq<(K, V)>, k: K) -> Seq<(K, V)> {
    if has_key(s, k) {
        s.remove(key_pos(s, k))
    } else {
        s
    }
}

/// The entries after `(k, v)` is inserted into a cache of capacity `cap`:
/// an old entry for `k` goes, then the least recently used entry goes if the
/// cache is full, then `(k, v)` becomes the most recent entry. A cache of
/// capacity zero keeps nothing.
pub open spec fn inserted<K, V>(s: Seq<(K, V)>, cap: nat, k: K, v: V) -> Seq<(K, V)> {
    if cap == 0 {
        s
    } else {
        let t = removed(s, k);
        let u = if t.len() >= cap {
            t.remove(0)
        } else {
            t
        };
        u.push((k, v))
    }
}

/// Whether every entry of `s` satisfies `p`.
pub open spec fn all_entries<K, V>(s: Seq<(K, V)>, p: spec_fn((K, V)) -> bool) -> bool {
    forall|i: int| 0 <= i < s.len() ==> p(#[trigger] s[i])
}

/// Removing the entry for `k` keeps a property of every entry.
pub proof fn lemma_removed_keeps<K, V>(s: Seq<(K, V)>, k: K, p: spec_fn((K, V)) -> bool)
    requires
        all_entries(s, p),
    ensures
        all_entries(removed(s, k), p),
{
    if has_key(s, k) {
        let r = removed(s, k);
        let q = key_pos(s, k);
        assert forall|i: int| 0 <= i < r.len() implies p(#[trigger] r[i]) by {
            if i < q {
                assert(r[i] == s[i]);
            } else {
                assert(r[i] == s[i + 1]);
            }
        }
    }
}

/// Reading `k` keeps a property of every entry.
pub proof fn lemma_touched_keeps<K, V>(s: Seq<(K, V)>, k: K, p: spec_fn((K, V)) -> bool)
    requires
        all_entries(s, p),
    ensures
        all_entries(touched(s, k), p),
{
    if has_key(s, k) {
        let q = key_pos(s, k);
        lemma_removed_keeps(s, k, p);
        let t = touched(s, k);
        assert forall|i: int| 0 <= i < t.len() implies p(#[trigger] t[i]) by {
            if i < t.len() - 1 {
                assert(t[i] == removed(s, k)[i]);
            }
        }
    }
}

/// Inserting an entry that has a property keeps it of every entry.
pub proof fn lemma_inserted_keeps<K, V>(s: Seq<(K, V)>, cap: nat, k: K, v: V, p: spec_fn((K, V)) -> bool)
    requires
        all_entries(s, p),
        p((k, v)),
    ensures
        all_entries(inserted(s, cap, k, v), p),
{
    if cap > 0 {
        lemma_removed_keeps(s, k, p);
        let t = removed(s, k);
        let u = if t.len() >= cap {
            t.remove(0)
        } else {
            t
        };
        assert forall|i: int| 0 <= i < u.len() implies p(#[trigger] u[i]) by {
            if t.len() >= cap {
                assert(u[i] == t[i + 1]);
            }
        }
        let w = inserted(s, cap, k, v);
        assert forall|i: int| 0 <= i < w.len() implies p(#[trigger] w[i]) by {
            if i < u.len() {
                assert(w[i] == u[i]);
            }
        }
    }
}

/// After an insertion into a cache with room for something, the key is cached.
pub proof fn lemma_inserted_has<K, V>(s: Seq<(K, V)>, cap: nat, k: K, v: V)
    requires
        cap > 0,
    ensures
        has_key(inserted(s, cap, k, v), k),
{
    let w = inserted(s, cap, k, v);
    assert(w[w.len() - 1].0 == k);
}

/// After a removal the key is not cached.
pub proof fn lemma_removed_lacks<K, V>(s: Seq<(K, V)>, k: K)
    requires
        distinct_keys(s),
    ensures
        !has_key(removed(s, k), k),
{
    if has_key(s, k) {
        let q = key_pos(s, k);
        let r = removed(s, k);
        assert forall|i: int| 0 <= i < r.len() implies #[trigger] r[i].0 != k by {
            if i < q {
                assert(r[i] == s[i]);
                assert(s[i].0 != s[q].0);
            } else {
                assert(r[i] == s[i + 1]);
                assert(s[q].0 != s[i + 1].0);
            }
        }
    }
}

/// Entries are kept from least recently used (front) to most recently used (back).
pub struct BoundedCache<K, V> {
    entries: Vec<(K, V)>,
    capacity: usize,
}

impl<K, V> View for BoundedCache<K, V> {
    type V = Seq<(K, V)>;

    closed spec fn view(&self) -> Seq<(K, V)> {
        self.entries@
    }
}

impl<K: CacheKey, V> BoundedCache<K, V> {
    /// The number of entries the cache may hold.
    pub closed spec fn cap(&self) -> nat {
        self.capacity as nat
    }

    pub open spec fn wf(&self) -> bool {
        &&& self@.len() <= self.cap()
        &&& distinct_keys(self@)
    }

    pub fn new(capacity: usize) -> (r: Self)
        ensures
            r.wf(),
            r@ == Seq::<(K, V)>::empty(),
            r.cap() == capacity,
    {
        BoundedCache { entries: Vec::new(), capacity }
    }

    pub fn len(&self) -> (r: usize)
        ensures
            r == self@.len(),
    {
        self.entries.len()
    }

    fn find(&self, k: &K) -> (r: Option<usize>)
        requires
            self.wf(),
        ensures
            match r {
                Some(i) => has_key(self@, *k) && i == key_pos(self@, *k),
                None => !has_key(self@, *k),
            },
    {
        let mut i: usize = 0;
        while i < self.entries.len()
            invariant
                0 <= i <= self.entries.len(),
                self.wf(),
                forall|j: int| 0 <= j < i ==> self.entries@[j].0 != *k,
            decreases self.entries.len() - i,
        {
            if self.entries[i].0.same_key(k) {
                proof {
                    assert(self@[i as int].0 == *k);
                    let p = key_pos(self@, *k);
                    assert(0 <= p < self@.len() && self@[p].0 == *k);
                    let ii = i as int;
                    if p < ii {
                        assert(self@[p].0 != self@[ii].0);
                    } else if ii < p {
                        assert(self@[ii].0 != self@[p].0);
                    }
                }
                return Some(i);
            }
            i = i + 1;
        }
        proof {
            assert forall|j: int| 0 <= j < self@.len() implies #[trigger] self@[j].0 != *k by {
                assert(self.entries@[j].0 != *k);
            }
        }
        None
    }

    /// Reads the value under `k`, marking a hit as most recently used.
    pub fn get(&mut self, k: &K) -> (r: Option<&V>)
        requires
            old(self).wf(),
        ensures
            final(self).wf(),
            final(self).cap() == old(self).cap(),
            final(self)@ == touched(old(self)@, *k),
            match r {
                Some(v) => lookup(old(self)@, *k) == Some(*v),
                None => lookup(old(self)@, *k) is None,
            },
    {
        match self.find(k) {
            None => None,
            Some(i) => {
                let e = self.entries.remove(i);
                self.entries.push(e);
                let last = self.entries.len() - 1;
                Some(&self.entries[last].1)
            },
        }
    }

    /// Stores `v` under `k` as the most recently used entry, evicting the least
    /// recently used entry when the cache is full.
    pub fn insert(&mut self, k: K, v: V)
        requires
            old(self).wf(),
        ensures
            final(self).wf(),
            final(self).cap() == old(self).cap(),
            final(self)@ == inserted(old(self)@, old(self).cap(), k, v),
    {
        if self.capacity == 0 {
            return;
        }
        let ghost s0 = self@;
        match self.find(&k) {
            Some(i) => {
                self.entries.remove(i);
            },
            None => {},
        }
        let ghost t = self@;
        assert(t == removed(s0, k));
        assert(!has_key(t, k)) by {
            if has_key(s0, k) {
                let p = key_pos(s0, k);
                assert forall|j: int| 0 <= j < t.len() implies #[trigger] t[j].0 != k by {
                    if j < p {
                        assert(t[j] == s0[j]);
                        assert(s0[j].0 != s0[p].0);
                    } else {
                        assert(t[j] == s0[j + 1]);
                        assert(s0[p].0 != s0[j + 1].0);
                    }
                }
            }
        }
        let full = self.entries.len() >= self.capacity;
        if full {
            self.entries.remove(0);
        }
        let ghost u = self@;
        assert(!has_key(u, k)) by {
            if full {
                assert forall|j: int| 0 <= j < u.len() implies #[trigger] u[j].0 != k by {
                    assert(u[j] == t[j + 1]);
                }
            }
        }
        self.entries.push((k, v));
        proof {
            assert forall|i: int, j: int| 0 <= i < j < self@.len() implies #[trigger] self@[i].0
                != #[trigger] self@[j].0 by {
                if j == self@.len() - 1 {
                    assert(self@[i] == u[i]);
                } else {
                    assert(self@[i] == u[i] && self@[j] == u[j]);
                }
            }
        }
    }

    /// Takes the entry under `k` out of the cache.
    pub fn remove(&mut self, k: &K) -> (r: Option<V>)
        requires
            old(self).wf(),
        ensures
            final(self).wf(),
            final(self).cap() == old(self).cap(),
            final(self)@ == removed(old(self)@, *k),
            r == lookup(old(self)@, *k),
    {
        match self.find(k) {
            Some(i) => {
                let e = self.entries.remove(i);
                Some(e.1)
            },
            None => None,
        }
    }

    /// Drops every entry.
    pub fn clear(&mut self)
        requires
            old(self).wf(),
        ensures
            final(self).wf(),
            final(self).cap() == old(self).cap(),
            final(self)@ == Seq::<(K, V)>::empty(),
    {
        self.entries.clear();
    }
}

} // verus!
