//! The store: in-memory backing tables read through an object cache, a listing cache
//! and a count cache, each bounded and each invalidated on write.
use vstd::prelude::*;

use crate::cache::{
    all_entries, has_key, lemma_inserted_has, lemma_inserted_keeps, lemma_removed_keeps,
    lemma_removed_lacks, lemma_touched_keeps, distinct_keys, inserted, removed, touched, BoundedCache,
};
use crate::durable::{
    detached, edge_pos, from_source, has_edge, has_triple, lemma_filter_insert, lemma_filter_remove,
    object_table, without_edge, DurableStore,
};
use crate::model::{
    bytes_of, copy_associations, records, AssocKey, AssocRecord, AssociationQuery, AssociationType,
    ObjectRecord, ObjectType, TaoAssociation, TaoError, TaoObject,
};
use crate::query::{
    answer, answer_query, cache_fillable, cache_servable, is_cache_fillable, is_cache_servable,
};

verus! {

/// The listing of `(id1, t)` in a table: its rows in listing order.
pub open spec fn listing_of(rows: Seq<TaoAssociation>, id1: i64, t: AssociationType) -> Seq<AssocRecord> {
    records(rows.filter(from_source(id1, t)))
}

/// The number of rows leaving `id1` with type `t`.
pub open spec fn count_of(rows: Seq<TaoAssociation>, id1: i64, t: AssociationType) -> int {
    rows.filter(from_source(id1, t)).len() as int
}

/// One more read round trip, saturating.
pub open spec fn bumped(n: u64) -> u64 {
    if n < u64::MAX {
        (n + 1) as u64
    } else {
        n
    }
}

/// A cached object is the object the table holds under its id.
pub open spec fn object_fresh(objects: Map<i64, ObjectRecord>) -> spec_fn((i64, TaoObject)) -> bool {
    |e: (i64, TaoObject)| objects.contains_key(e.0) && objects[e.0] == e.1@
}

/// A cached listing is the full listing of its key.
pub open spec fn listing_fresh(rows: Seq<TaoAssociation>) -> spec_fn((AssocKey, Vec<TaoAssociation>)) -> bool {
    |e: (AssocKey, Vec<TaoAssociation>)| records(e.1@) == listing_of(rows, e.0.id1, e.0.assoc_type)
}

/// A cached count is the number of rows of its key.
pub open spec fn count_fresh(rows: Seq<TaoAssociation>) -> spec_fn((AssocKey, i64)) -> bool {
    |e: (AssocKey, i64)| e.1 == count_of(rows, e.0.id1, e.0.assoc_type)
}

/// Writing or deleting the edge `(id1, id2, t)` leaves the rows of every
/// other source and type as they were.
pub proof fn lemma_other_rows_kept(
    s0: Seq<TaoAssociation>,
    id1: i64,
    id2: i64,
    t: AssociationType,
    x: Option<(int, TaoAssociation)>,
    k: AssocKey,
)
    requires
        k.id1 != id1 || k.assoc_type != t,
        x matches Some((p, a)) ==> (0 <= p <= without_edge(s0, id1, id2, t).len() && a.id1 == id1 && a.assoc_type == t),
    ensures
        ({
            let s1 = without_edge(s0, id1, id2, t);
            let s2 = match x {
                Some((p, a)) => s1.insert(p, a),
                None => s1,
            };
            s2.filter(from_source(k.id1, k.assoc_type)) == s0.filter(from_source(k.id1, k.assoc_type))
        }),
{
    let f = from_source(k.id1, k.assoc_type);
    let s1 = without_edge(s0, id1, id2, t);
    if crate::durable::has_edge(s0, id1, id2, t) {
        let e = crate::durable::edge_pos(s0, id1, id2, t);
        lemma_filter_remove(s0, e, f);
    }
    match x {
        Some((p, a)) => {
            lemma_filter_insert(s1, p, a, f);
        },
        None => {},
    }
}

/// The payload of the row with natural key `(id1, id2, t)`.
pub open spec fn edge_data(rows: Seq<TaoAssociation>, id1: i64, id2: i64, t: AssociationType) -> Option<Seq<u8>> {
    rows[edge_pos(rows, id1, id2, t)]@.data
}

/// The graph store: in-memory backing tables behind an object cache, a listing cache
/// keyed by `(id1, type)` and a count cache with the same keys. Reads go to
/// the cache first and fill it on a miss; writes go to the tables and drop
/// the entries they could make stale.
pub struct TaoDatabase {
    store: DurableStore,
    object_cache: BoundedCache<i64, TaoObject>,
    assoc_cache: BoundedCache<AssocKey, Vec<TaoAssociation>>,
    count_cache: BoundedCache<AssocKey, i64>,
}

impl TaoDatabase {
    /// The backing tables.
    pub closed spec fn durable(&self) -> DurableStore {
        self.store
    }

    /// The objects of the backing table, by id.
    pub open spec fn objects(&self) -> Map<i64, ObjectRecord> {
        object_table(self.durable().objects())
    }

    /// The associations of the backing table, in listing order.
    pub open spec fn assocs(&self) -> Seq<TaoAssociation> {
        self.durable().assocs()
    }

    /// The backing read round trips made so far.
    pub open spec fn reads(&self) -> u64 {
        self.durable().reads()
    }

    pub closed spec fn object_entries(&self) -> Seq<(i64, TaoObject)> {
        self.object_cache@
    }

    pub closed spec fn listing_entries(&self) -> Seq<(AssocKey, Vec<TaoAssociation>)> {
        self.assoc_cache@
    }

    pub closed spec fn count_entries(&self) -> Seq<(AssocKey, i64)> {
        self.count_cache@
    }

    pub closed spec fn object_capacity(&self) -> nat {
        self.object_cache.cap()
    }

    pub closed spec fn listing_capacity(&self) -> nat {
        self.assoc_cache.cap()
    }

    pub closed spec fn count_capacity(&self) -> nat {
        self.count_cache.cap()
    }

    pub open spec fn object_cached(&self, id: i64) -> bool {
        has_key(self.object_entries(), id)
    }

    pub open spec fn listing_cached(&self, id1: i64, t: AssociationType) -> bool {
        has_key(self.listing_entries(), AssocKey { id1, assoc_type: t })
    }

    pub open spec fn count_cached(&self, id1: i64, t: AssociationType) -> bool {
        has_key(self.count_entries(), AssocKey { id1, assoc_type: t })
    }

    /// The listing of `(id1, t)` in the backing table.
    pub open spec fn listing(&self, id1: i64, t: AssociationType) -> Seq<AssocRecord> {
        listing_of(self.assocs(), id1, t)
    }

    /// The tables are well formed and every cache entry agrees with them.
    pub closed spec fn wf(&self) -> bool {
        &&& self.store.wf()
        &&& self.object_cache.wf()
        &&& self.assoc_cache.wf()
        &&& self.count_cache.wf()
        &&& all_entries(self.object_cache@, object_fresh(self.objects()))
        &&& all_entries(self.assoc_cache@, listing_fresh(self.assocs()))
        &&& all_entries(self.count_cache@, count_fresh(self.assocs()))
    }

    /// What well-formedness says of the tables.
    pub proof fn lemma_tables(&self)
        requires
            self.wf(),
        ensures
            crate::durable::objects_wf(self.durable().objects(), self.durable().next_object_id()),
            crate::durable::assocs_wf(self.assocs(), self.durable().next_assoc_id()),
    {
    }

    /// After a successful write of `(id1, id2, t)` the table holds that edge
    /// with the written payload.
    pub proof fn lemma_created_edge(
        &self,
        after: &Self,
        id1: i64,
        id2: i64,
        t: AssociationType,
        data: Option<Seq<u8>>,
        time1: Option<i64>,
        time2: Option<i64>,
        now: i64,
        a: TaoAssociation,
    )
        requires
            self.association_created(after, id1, id2, t, data, time1, time2, now, Ok(a)),
        ensures
            has_edge(after.assocs(), id1, id2, t),
            edge_data(after.assocs(), id1, id2, t) == data,
    {
        let s = after.assocs();
        let rest = without_edge(self.assocs(), id1, id2, t);
        let p = crate::durable::insert_pos(rest, now);
        after.lemma_tables();
        assert(has_triple(s[p], id1, id2, t));
        let e = edge_pos(s, id1, id2, t);
        if e < p {
            assert(!has_triple(s[e], s[p].id1, s[p].id2, s[p].assoc_type));
        } else if p < e {
            assert(!has_triple(s[p], s[e].id1, s[e].id2, s[e].assoc_type));
        }
    }

    /// A write of one natural key leaves the row of another key as it was.
    pub proof fn lemma_edge_survives(
        &self,
        after: &Self,
        id1: i64,
        id2: i64,
        t: AssociationType,
        data: Option<Seq<u8>>,
        time1: Option<i64>,
        time2: Option<i64>,
        now: i64,
        a: TaoAssociation,
        k1: i64,
        k2: i64,
        kt: AssociationType,
    )
        requires
            self.wf(),
            self.association_created(after, id1, id2, t, data, time1, time2, now, Ok(a)),
            has_edge(self.assocs(), k1, k2, kt),
            k1 != id1 || k2 != id2 || kt != t,
        ensures
            has_edge(after.assocs(), k1, k2, kt),
            edge_data(after.assocs(), k1, k2, kt) == edge_data(self.assocs(), k1, k2, kt),
    {
        let s0 = self.assocs();
        let s1 = without_edge(s0, id1, id2, t);
        let p = crate::durable::insert_pos(s1, now);
        let s2 = after.assocs();
        self.lemma_tables();
        after.lemma_tables();
        let e = edge_pos(s0, k1, k2, kt);
        let e1 = if has_edge(s0, id1, id2, t) {
            let k = edge_pos(s0, id1, id2, t);
            if e < k {
                e
            } else {
                e - 1
            }
        } else {
            e
        };
        if has_edge(s0, id1, id2, t) {
            let k = edge_pos(s0, id1, id2, t);
            assert(e != k);
        }
        assert(s1[e1] == s0[e]);
        let e2 = if e1 < p {
            e1
        } else {
            e1 + 1
        };
        assert(s2[e2] == s1[e1]);
        assert(has_triple(s2[e2], k1, k2, kt));
        let f = edge_pos(s2, k1, k2, kt);
        if f < e2 {
            assert(!has_triple(s2[f], s2[e2].id1, s2[e2].id2, s2[e2].assoc_type));
        } else if e2 < f {
            assert(!has_triple(s2[e2], s2[f].id1, s2[f].id2, s2[f].assoc_type));
        }
    }

    /// Whatever the caches hold agrees with the tables: a cached object is the
    /// table's object, a cached listing is the full listing of its key and a
    /// cached count is the number of rows of its key.
    pub proof fn lemma_caches_agree(&self)
        requires
            self.wf(),
        ensures
            distinct_keys(self.object_entries()),
            distinct_keys(self.listing_entries()),
            distinct_keys(self.count_entries()),
            self.object_entries().len() <= self.object_capacity(),
            self.listing_entries().len() <= self.listing_capacity(),
            self.count_entries().len() <= self.count_capacity(),
            forall|i: int|
                0 <= i < self.object_entries().len() ==> {
                    let e = #[trigger] self.object_entries()[i];
                    self.objects().contains_key(e.0) && self.objects()[e.0] == e.1@
                },
            forall|i: int|
                0 <= i < self.listing_entries().len() ==> {
                    let e = #[trigger] self.listing_entries()[i];
                    records(e.1@) == self.listing(e.0.id1, e.0.assoc_type)
                },
            forall|i: int|
                0 <= i < self.count_entries().len() ==> {
                    let e = #[trigger] self.count_entries()[i];
                    e.1 == count_of(self.assocs(), e.0.id1, e.0.assoc_type)
                },
    {
        assert forall|i: int| 0 <= i < self.object_entries().len() implies {
            let e = #[trigger] self.object_entries()[i];
            self.objects().contains_key(e.0) && self.objects()[e.0] == e.1@
        } by {
            assert(object_fresh(self.objects())(self.object_cache@[i]));
        }
        assert forall|i: int| 0 <= i < self.listing_entries().len() implies {
            let e = #[trigger] self.listing_entries()[i];
            records(e.1@) == self.listing(e.0.id1, e.0.assoc_type)
        } by {
            assert(listing_fresh(self.assocs())(self.assoc_cache@[i]));
        }
        assert forall|i: int| 0 <= i < self.count_entries().len() implies {
            let e = #[trigger] self.count_entries()[i];
            e.1 == count_of(self.assocs(), e.0.id1, e.0.assoc_type)
        } by {
            assert(count_fresh(self.assocs())(self.count_cache@[i]));
        }
    }

    /// The next free ids are those of `other`.
    pub open spec fn same_ids(&self, other: &Self) -> bool {
        &&& other.durable().next_object_id() == self.durable().next_object_id()
        &&& other.durable().next_assoc_id() == self.durable().next_assoc_id()
    }

    /// `after` holds the same tables and ids, with caches of the same sizes.
    pub open spec fn kept_tables(&self, after: &Self) -> bool {
        &&& after.wf()
        &&& self.same_capacities(after)
        &&& self.same_ids(after)
        &&& after.objects() == self.objects()
        &&& after.assocs() == self.assocs()
    }

    /// The caches keep their sizes.
    pub open spec fn same_capacities(&self, other: &Self) -> bool {
        &&& other.object_capacity() == self.object_capacity()
        &&& other.listing_capacity() == self.listing_capacity()
        &&& other.count_capacity() == self.count_capacity()
    }

    /// An empty store with cold caches of the given capacities.
    pub fn with_capacities(objects: usize, listings: usize, counts: usize) -> (r: Self)
        ensures
            r.wf(),
            r.objects() == Map::<i64, ObjectRecord>::empty(),
            r.assocs() == Seq::<TaoAssociation>::empty(),
            r.reads() == 0,
            r.durable().next_object_id() == 1,
            r.durable().next_assoc_id() == 1,
            r.object_capacity() == objects,
            r.listing_capacity() == listings,
            r.count_capacity() == counts,
            r.object_entries().len() == 0,
            r.listing_entries().len() == 0,
            r.count_entries().len() == 0,
    {
        let r = TaoDatabase {
            store: DurableStore::new(),
            object_cache: BoundedCache::new(objects),
            assoc_cache: BoundedCache::new(listings),
            count_cache: BoundedCache::new(counts),
        };
        assert(r.objects() =~= Map::<i64, ObjectRecord>::empty());
        r
    }

    /// An empty store whose object cache holds `capacity` entries, its listing
    /// cache twice that and its count cache half that.
    pub fn new(capacity: usize) -> (r: Self)
        requires
            capacity <= usize::MAX / 2,
        ensures
            r.wf(),
            r.objects() == Map::<i64, ObjectRecord>::empty(),
            r.assocs() == Seq::<TaoAssociation>::empty(),
            r.reads() == 0,
            r.durable().next_object_id() == 1,
            r.durable().next_assoc_id() == 1,
            r.object_capacity() == capacity,
            r.listing_capacity() == 2 * capacity,
            r.count_capacity() == capacity / 2,
            r.object_entries().len() == 0,
            r.listing_entries().len() == 0,
            r.count_entries().len() == 0,
    {
        Self::with_capacities(capacity, capacity * 2, capacity / 2)
    }

    pub fn read_count(&self) -> (r: u64)
        ensures
            r == self.reads(),
    {
        self.store.read_count()
    }

    /// What `create_object` does: on success the object gets the next free
    /// id, both times `now`, and enters the table and the object cache; it
    /// fails with `Storage` only when ids have run out.
    pub open spec fn object_created(
        &self,
        after: &Self,
        object_type: ObjectType,
        data: Seq<u8>,
        now: i64,
        r: Result<TaoObject, TaoError>,
    ) -> bool {
        &&& after.wf()
        &&& self.same_capacities(after)
        &&& after.assocs() == self.assocs()
        &&& after.reads() == self.reads()
        &&& after.durable().next_assoc_id() == self.durable().next_assoc_id()
        &&& after.listing_entries() == self.listing_entries()
        &&& after.count_entries() == self.count_entries()
        &&& match r {
            Ok(o) => {
                &&& o.id == self.durable().next_object_id()
                &&& after.durable().next_object_id() == o.id + 1
                &&& o@ == (ObjectRecord {
                    id: o.id,
                    object_type,
                    data,
                    created_time: now,
                    updated_time: now,
                })
                &&& 0 < o.id
                &&& !self.objects().contains_key(o.id)
                &&& after.objects() == self.objects().insert(o.id, o@)
                &&& (after.object_capacity() > 0 ==> after.object_cached(o.id))
                &&& exists|v: TaoObject|
                    v@ == o@ && after.object_entries() == #[trigger] inserted(
                        self.object_entries(),
                        self.object_capacity(),
                        o.id,
                        v,
                    )
            },
            Err(e) => {
                &&& e == TaoError::Storage
                &&& self.durable().next_object_id() == i64::MAX
                &&& after.objects() == self.objects()
                &&& self.same_ids(after)
                &&& after.object_entries() == self.object_entries()
            },
        }
    }

    /// What `get_object` does: it returns the table's object, from the cache
    /// without a round trip when cached, else with one round trip, caching a
    /// found object.
    pub open spec fn object_read(&self, after: &Self, id: i64, r: Option<TaoObject>) -> bool {
        &&& after.wf()
        &&& self.same_ids(after)
        &&& after.listing_entries() == self.listing_entries()
        &&& after.count_entries() == self.count_entries()
        &&& self.same_capacities(after)
        &&& after.objects() == self.objects()
        &&& after.assocs() == self.assocs()
        &&& match r {
            Some(o) => self.objects().contains_key(id) && o@ == self.objects()[id],
            None => !self.objects().contains_key(id),
        }
        &&& after.reads() == if self.object_cached(id) {
            self.reads()
        } else {
            bumped(self.reads())
        }
        &&& (self.objects().contains_key(id) && after.object_capacity() > 0 ==> after.object_cached(id))
        &&& if self.object_cached(id) {
            after.object_entries() == touched(self.object_entries(), id)
        } else if self.objects().contains_key(id) {
            exists|v: TaoObject|
                v@ == self.objects()[id] && after.object_entries() == #[trigger] inserted(
                    self.object_entries(),
                    self.object_capacity(),
                    id,
                    v,
                )
        } else {
            after.object_entries() == self.object_entries()
        }
    }

    /// What `update_object` does: a missing object is `NotFound`; otherwise
    /// its payload and `updated_time` change and its cache entry goes.
    pub open spec fn object_updated(&self, after: &Self, id: i64, data: Seq<u8>, now: i64, r: Result<(), TaoError>) -> bool {
        &&& after.wf()
        &&& self.same_ids(after)
        &&& after.object_entries() == removed(self.object_entries(), id)
        &&& after.listing_entries() == self.listing_entries()
        &&& after.count_entries() == self.count_entries()
        &&& self.same_capacities(after)
        &&& after.assocs() == self.assocs()
        &&& after.reads() == self.reads()
        &&& match r {
            Ok(_) => {
                &&& self.objects().contains_key(id)
                &&& after.objects() == self.objects().insert(
                    id,
                    ObjectRecord { data, updated_time: now, ..self.objects()[id] },
                )
                &&& !after.object_cached(id)
            },
            Err(e) => {
                &&& e == TaoError::NotFound(id)
                &&& !self.objects().contains_key(id)
                &&& after.objects() == self.objects()
            },
        }
    }

    /// What `delete_object` does: the object and every association touching
    /// it go; its cache entry goes and the listing and count caches are emptied.
    pub open spec fn object_deleted(&self, after: &Self, id: i64) -> bool {
        &&& after.wf()
        &&& self.same_ids(after)
        &&& after.object_entries() == removed(self.object_entries(), id)
        &&& self.same_capacities(after)
        &&& after.objects() == self.objects().remove(id)
        &&& after.assocs() == self.assocs().filter(detached(id))
        &&& after.reads() == self.reads()
        &&& !after.object_cached(id)
        &&& after.listing_entries().len() == 0
        &&& after.count_entries().len() == 0
    }

    /// Creates an object stamped with the time `now`.
    pub fn create_object_at(&mut self, object_type: ObjectType, data: &Vec<u8>, now: i64) -> (r: Result<TaoObject, TaoError>)
        requires
            old(self).wf(),
        ensures
            old(self).object_created(final(self), object_type, data@, now, r),
    {
        let ghost objs0 = self.objects();
        let r = self.store.insert_object(object_type, data, now);
        match r {
            Ok(o) => {
                proof {
                    let p = object_fresh(objs0);
                    let q = object_fresh(self.objects());
                    assert forall|i: int| 0 <= i < self.object_cache@.len() implies q(#[trigger] self.object_cache@[i]) by {
                        assert(p(self.object_cache@[i]));
                    }
                }
                let c = o.clone();
                let ghost cached = c;
                self.object_cache.insert(o.id, c);
                proof {
                    assert(cached@ == o@);
                    assert(self.object_entries() == inserted(old(self).object_entries(), old(self).object_capacity(), o.id, cached));
                    lemma_inserted_keeps(old(self).object_cache@, old(self).object_cache.cap(), o.id, cached, object_fresh(self.objects()));
                    if self.object_cache.cap() > 0 {
                        lemma_inserted_has(old(self).object_cache@, old(self).object_cache.cap(), o.id, cached);
                    }
                }
                Ok(o)
            },
            Err(e) => Err(e),
        }
    }

    /// Reads an object through the cache.
    #[verifier::rlimit(30)]
    pub fn get_object(&mut self, id: i64) -> (r: Option<TaoObject>)
        requires
            old(self).wf(),
        ensures
            old(self).object_read(final(self), id, r),
    {
        proof {
            lemma_touched_keeps(self.object_cache@, id, object_fresh(self.objects()));
        }
        let ghost c0 = self.object_cache@;
        let ghost objs0 = self.objects();
        match self.object_cache.get(&id) {
            Some(o) => {
                proof {
                    let k = crate::cache::key_pos(c0, id);
                    assert(object_fresh(objs0)(c0[k]));
                }
                let out = o.clone();
                proof {
                    let c1 = self.object_cache@;
                    assert(c1[c1.len() - 1].0 == id);
                }
                return Some(out);
            },
            None => {},
        }
        let r = self.store.read_object(id);
        match r {
            Some(o) => {
                let c = o.clone();
                let ghost cached = c;
                let ghost c1 = self.object_cache@;
                self.object_cache.insert(id, c);
                proof {
                    lemma_inserted_keeps(c1, self.object_cache.cap(), id, cached, object_fresh(self.objects()));
                    if self.object_cache.cap() > 0 {
                        lemma_inserted_has(c1, self.object_cache.cap(), id, cached);
                    }
                }
                Some(o)
            },
            None => None,
        }
    }

    /// Replaces an object's payload at time `now` and drops its cache entry.
    pub fn update_object_at(&mut self, id: i64, data: &Vec<u8>, now: i64) -> (r: Result<(), TaoError>)
        requires
            old(self).wf(),
        ensures
            old(self).object_updated(final(self), id, data@, now, r),
    {
        let ghost c0 = self.object_cache@;
        let ghost objs0 = self.objects();
        proof {
            lemma_removed_keeps(c0, id, object_fresh(objs0));
            lemma_removed_lacks(c0, id);
        }
        self.object_cache.remove(&id);
        let found = self.store.update_object(id, data, now);
        proof {
            let c1 = self.object_cache@;
            let p = object_fresh(objs0);
            let q = object_fresh(self.objects());
            assert forall|i: int| 0 <= i < c1.len() implies q(#[trigger] c1[i]) by {
                assert(p(c1[i]));
                assert(c1[i].0 != id);
            }
        }
        if found {
            Ok(())
        } else {
            Err(TaoError::NotFound(id))
        }
    }

    /// Deletes an object and every association that touches it.
    pub fn delete_object(&mut self, id: i64)
        requires
            old(self).wf(),
        ensures
            old(self).object_deleted(final(self), id),
    {
        let ghost c0 = self.object_cache@;
        let ghost objs0 = self.objects();
        proof {
            lemma_removed_keeps(c0, id, object_fresh(objs0));
            lemma_removed_lacks(c0, id);
        }
        self.store.delete_touching(id);
        self.store.delete_object(id);
        self.object_cache.remove(&id);
        self.assoc_cache.clear();
        self.count_cache.clear();
        proof {
            let c1 = self.object_cache@;
            let p = object_fresh(objs0);
            let q = object_fresh(self.objects());
            assert forall|i: int| 0 <= i < c1.len() implies q(#[trigger] c1[i]) by {
                assert(p(c1[i]));
                assert(c1[i].0 != id);
            }
        }
    }

    /// What `create_association` does: on success the table loses any row
    /// with the natural key `(id1, id2, t)` and gains the new row, with the
    /// next free id and both times `now`, at its place in listing order; the
    /// listing and count cache entries of `(id1, t)` go. It fails with
    /// `Storage` only when ids have run out.
    pub open spec fn association_created(
        &self,
        after: &Self,
        id1: i64,
        id2: i64,
        t: AssociationType,
        data: Option<Seq<u8>>,
        time1: Option<i64>,
        time2: Option<i64>,
        now: i64,
        r: Result<TaoAssociation, TaoError>,
    ) -> bool {
        &&& after.wf()
        &&& self.same_capacities(after)
        &&& after.objects() == self.objects()
        &&& after.reads() == self.reads()
        &&& after.durable().next_object_id() == self.durable().next_object_id()
        &&& after.object_entries() == self.object_entries()
        &&& after.listing_entries() == removed(self.listing_entries(), AssocKey { id1, assoc_type: t })
        &&& after.count_entries() == removed(self.count_entries(), AssocKey { id1, assoc_type: t })
        &&& match r {
            Ok(a) => {
                let rest = without_edge(self.assocs(), id1, id2, t);
                let p = crate::durable::insert_pos(rest, now);
                &&& a@ == (AssocRecord {
                    id: a.id,
                    id1,
                    id2,
                    assoc_type: t,
                    data,
                    created_time: now,
                    updated_time: now,
                    time1,
                    time2,
                })
                &&& a.id == self.durable().next_assoc_id()
                &&& after.durable().next_assoc_id() == a.id + 1
                &&& 0 < a.id
                &&& 0 <= p <= rest.len()
                &&& after.assocs() == rest.insert(p, after.assocs()[p])
                &&& after.assocs()[p]@ == a@
                &&& !after.listing_cached(id1, t)
                &&& !after.count_cached(id1, t)
            },
            Err(e) => {
                &&& e == TaoError::Storage
                &&& self.durable().next_assoc_id() == i64::MAX
                &&& after.assocs() == self.assocs()
                &&& self.same_ids(after)
            },
        }
    }

    /// What `delete_association` does: the row with natural key
    /// `(id1, id2, t)` goes, if there is one, and so do the listing and count
    /// cache entries of `(id1, t)`.
    pub open spec fn association_deleted(&self, after: &Self, id1: i64, id2: i64, t: AssociationType) -> bool {
        &&& after.wf()
        &&& self.same_ids(after)
        &&& after.object_entries() == self.object_entries()
        &&& after.listing_entries() == removed(self.listing_entries(), AssocKey { id1, assoc_type: t })
        &&& after.count_entries() == removed(self.count_entries(), AssocKey { id1, assoc_type: t })
        &&& self.same_capacities(after)
        &&& after.objects() == self.objects()
        &&& after.reads() == self.reads()
        &&& after.assocs() == without_edge(self.assocs(), id1, id2, t)
        &&& !after.listing_cached(id1, t)
        &&& !after.count_cached(id1, t)
    }

    /// What `get_associations` does: it returns the query's answer on the
    /// backing listing. A query without target or time range is served from
    /// a cached listing without a round trip; anything else costs one round
    /// trip, and only a query for the full listing fills the cache.
    pub open spec fn associations_read(&self, after: &Self, q: AssociationQuery, r: Seq<AssocRecord>) -> bool {
        &&& after.wf()
        &&& self.same_ids(after)
        &&& after.object_entries() == self.object_entries()
        &&& after.count_entries() == self.count_entries()
        &&& self.same_capacities(after)
        &&& after.objects() == self.objects()
        &&& after.assocs() == self.assocs()
        &&& r == answer(self.listing(q.id1, q.assoc_type), q)
        &&& after.reads() == if cache_servable(q) && self.listing_cached(q.id1, q.assoc_type) {
            self.reads()
        } else {
            bumped(self.reads())
        }
        &&& (cache_fillable(q) && after.listing_capacity() > 0 ==> after.listing_cached(q.id1, q.assoc_type))
        &&& {
            let key = AssocKey { id1: q.id1, assoc_type: q.assoc_type };
            if cache_servable(q) && self.listing_cached(q.id1, q.assoc_type) {
                after.listing_entries() == touched(self.listing_entries(), key)
            } else if cache_fillable(q) {
                exists|v: Vec<TaoAssociation>|
                    records(v@) == self.listing(q.id1, q.assoc_type) && after.listing_entries()
                        == #[trigger] inserted(self.listing_entries(), self.listing_capacity(), key, v)
            } else {
                after.listing_entries() == self.listing_entries()
            }
        }
    }

    /// What `get_association_count` does: it returns the number of rows of
    /// `(id1, t)`, from the cache without a round trip when cached, else with
    /// one round trip, caching the result.
    pub open spec fn associations_counted(&self, after: &Self, id1: i64, t: AssociationType, r: i64) -> bool {
        &&& after.wf()
        &&& self.same_ids(after)
        &&& after.object_entries() == self.object_entries()
        &&& after.listing_entries() == self.listing_entries()
        &&& self.same_capacities(after)
        &&& after.objects() == self.objects()
        &&& after.assocs() == self.assocs()
        &&& r == count_of(self.assocs(), id1, t)
        &&& after.reads() == if self.count_cached(id1, t) {
            self.reads()
        } else {
            bumped(self.reads())
        }
        &&& (after.count_capacity() > 0 ==> after.count_cached(id1, t))
        &&& after.count_entries() == if self.count_cached(id1, t) {
            touched(self.count_entries(), AssocKey { id1, assoc_type: t })
        } else {
            inserted(self.count_entries(), self.count_capacity(), AssocKey { id1, assoc_type: t }, r)
        }
    }

    /// Drops the listing and count cache entries of `key`.
    fn invalidate_key(&mut self, key: AssocKey)
        requires
            old(self).wf(),
        ensures
            final(self).wf(),
            final(self).durable() == old(self).durable(),
            final(self).object_entries() == old(self).object_entries(),
            old(self).same_capacities(final(self)),
            !has_key(final(self).listing_entries(), key),
            !has_key(final(self).count_entries(), key),
            final(self).listing_entries() == removed(old(self).listing_entries(), key),
            final(self).count_entries() == removed(old(self).count_entries(), key),
    {
        proof {
            let rows0 = self.assocs();
            lemma_removed_keeps(self.assoc_cache@, key, listing_fresh(rows0));
            lemma_removed_lacks(self.assoc_cache@, key);
            lemma_removed_keeps(self.count_cache@, key, count_fresh(rows0));
            lemma_removed_lacks(self.count_cache@, key);
        }
        self.assoc_cache.remove(&key);
        self.count_cache.remove(&key);
    }

    /// After a write that touched only rows of `key`, cache entries of other
    /// keys still agree with the table.
    proof fn lemma_caches_fresh(&self, rows0: Seq<TaoAssociation>, key: AssocKey)
        requires
            all_entries(self.assoc_cache@, listing_fresh(rows0)),
            all_entries(self.count_cache@, count_fresh(rows0)),
            !has_key(self.assoc_cache@, key),
            !has_key(self.count_cache@, key),
            forall|k: AssocKey|
                k != key ==> #[trigger] self.assocs().filter(from_source(k.id1, k.assoc_type)) == rows0.filter(
                    from_source(k.id1, k.assoc_type),
                ),
        ensures
            all_entries(self.assoc_cache@, listing_fresh(self.assocs())),
            all_entries(self.count_cache@, count_fresh(self.assocs())),
    {
        let lc = self.assoc_cache@;
        let cc = self.count_cache@;
        assert forall|i: int| 0 <= i < lc.len() implies listing_fresh(self.assocs())(#[trigger] lc[i]) by {
            assert(listing_fresh(rows0)(lc[i]));
            assert(lc[i].0 != key);
            assert(self.assocs().filter(from_source(lc[i].0.id1, lc[i].0.assoc_type)) == rows0.filter(
                from_source(lc[i].0.id1, lc[i].0.assoc_type),
            ));
        }
        assert forall|i: int| 0 <= i < cc.len() implies count_fresh(self.assocs())(#[trigger] cc[i]) by {
            assert(count_fresh(rows0)(cc[i]));
            assert(cc[i].0 != key);
            assert(self.assocs().filter(from_source(cc[i].0.id1, cc[i].0.assoc_type)) == rows0.filter(
                from_source(cc[i].0.id1, cc[i].0.assoc_type),
            ));
        }
    }

    /// Creates or replaces the association `(id1, id2, t)` at time `now`.
    pub fn create_association_at(
        &mut self,
        id1: i64,
        id2: i64,
        t: AssociationType,
        data: &Option<Vec<u8>>,
        time1: Option<i64>,
        time2: Option<i64>,
        now: i64,
    ) -> (r: Result<TaoAssociation, TaoError>)
        requires
            old(self).wf(),
        ensures
            old(self).association_created(final(self), id1, id2, t, bytes_of(*data), time1, time2, now, r),
    {
        let key = AssocKey { id1, assoc_type: t };
        self.invalidate_key(key);
        let ghost rows0 = self.assocs();
        let ghost objs0 = self.objects();
        let r = self.store.upsert_association(id1, id2, t, data, time1, time2, now);
        proof {
            assert(self.objects() == objs0);
            if r is Ok {
                {
                    let rest = without_edge(rows0, id1, id2, t);
                    let p = crate::durable::insert_pos(rest, now);
                    let x = self.assocs()[p];
                    assert forall|k: AssocKey| k != key implies #[trigger] self.assocs().filter(
                        from_source(k.id1, k.assoc_type),
                    ) == rows0.filter(from_source(k.id1, k.assoc_type)) by {
                        lemma_other_rows_kept(rows0, id1, id2, t, Some((p, x)), k);
                    }
                }
            }
            self.lemma_caches_fresh(rows0, key);
        }
        r
    }

    /// Deletes the association `(id1, id2, t)` if it exists.
    pub fn delete_association(&mut self, id1: i64, id2: i64, t: AssociationType)
        requires
            old(self).wf(),
        ensures
            old(self).association_deleted(final(self), id1, id2, t),
    {
        let key = AssocKey { id1, assoc_type: t };
        self.invalidate_key(key);
        let ghost rows0 = self.assocs();
        let ghost objs0 = self.objects();
        self.store.delete_association(id1, id2, t);
        proof {
            assert(self.objects() == objs0);
            assert forall|k: AssocKey| k != key implies #[trigger] self.assocs().filter(
                from_source(k.id1, k.assoc_type),
            ) == rows0.filter(from_source(k.id1, k.assoc_type)) by {
                lemma_other_rows_kept(rows0, id1, id2, t, None, k);
            }
            self.lemma_caches_fresh(rows0, key);
        }
    }

    /// Answers a listing query, through the listing cache where it may.
    #[verifier::rlimit(30)]
    pub fn get_associations(&mut self, q: &AssociationQuery) -> (r: Vec<TaoAssociation>)
        requires
            old(self).wf(),
        ensures
            old(self).associations_read(final(self), *q, records(r@)),
    {
        let key = AssocKey { id1: q.id1, assoc_type: q.assoc_type };
        let ghost rows0 = self.assocs();
        let ghost full = listing_of(rows0, q.id1, q.assoc_type);
        if is_cache_servable(q) {
            proof {
                lemma_touched_keeps(self.assoc_cache@, key, listing_fresh(rows0));
            }
            let ghost c0 = self.assoc_cache@;
            match self.assoc_cache.get(&key) {
                Some(list) => {
                    proof {
                        let k = crate::cache::key_pos(c0, key);
                        assert(listing_fresh(rows0)(c0[k]));
                        assert(records(list@) == full);
                    }
                    let out = answer_query(list, q);
                    proof {
                        let c1 = self.assoc_cache@;
                        assert(c1[c1.len() - 1].0 == key);
                    }
                    return out;
                },
                None => {},
            }
        }
        let rows = self.store.scan_associations(q.id1, q.assoc_type);
        if is_cache_fillable(q) {
            let c = copy_associations(&rows);
            let ghost c1 = self.assoc_cache@;
            let ghost cached = c;
            self.assoc_cache.insert(key, c);
            proof {
                assert(c1 == old(self).listing_entries());
                assert(records(cached@) == full);
                assert(self.listing_entries() == inserted(
                    old(self).listing_entries(),
                    old(self).listing_capacity(),
                    key,
                    cached,
                ));
                lemma_inserted_keeps(c1, self.assoc_cache.cap(), key, cached, listing_fresh(rows0));
                if self.assoc_cache.cap() > 0 {
                    lemma_inserted_has(c1, self.assoc_cache.cap(), key, cached);
                }
            }
        }
        answer_query(&rows, q)
    }

    /// Counts the associations of `(id1, t)`, through the count cache.
    pub fn get_association_count(&mut self, id1: i64, t: AssociationType) -> (r: i64)
        requires
            old(self).wf(),
        ensures
            old(self).associations_counted(final(self), id1, t, r),
    {
        let key = AssocKey { id1, assoc_type: t };
        let ghost rows0 = self.assocs();
        proof {
            lemma_touched_keeps(self.count_cache@, key, count_fresh(rows0));
        }
        let ghost c0 = self.count_cache@;
        match self.count_cache.get(&key) {
            Some(n) => {
                proof {
                    let k = crate::cache::key_pos(c0, key);
                    assert(count_fresh(rows0)(c0[k]));
                }
                let out = *n;
                proof {
                    let c1 = self.count_cache@;
                    assert(c1[c1.len() - 1].0 == key);
                }
                return out;
            },
            None => {},
        }
        let n = self.store.count_associations(id1, t);
        let ghost c1 = self.count_cache@;
        self.count_cache.insert(key, n);
        proof {
            lemma_inserted_keeps(c1, self.count_cache.cap(), key, n, count_fresh(rows0));
            if self.count_cache.cap() > 0 {
                lemma_inserted_has(c1, self.count_cache.cap(), key, n);
            }
        }
        n
    }

    /// The ids of all objects of type `t`, in id order, read from the backing
    /// table in one round trip.
    pub fn ids_of_type(&mut self, t: ObjectType) -> (r: Vec<i64>)
        requires
            old(self).wf(),
        ensures
            old(self).kept_tables(final(self)),
            final(self).reads() == bumped(old(self).reads()),
            r@ == crate::durable::ids_of_type(old(self).durable().objects(), t),
    {
        self.store.ids_of_type(t)
    }

    /// Creates an object stamped with the current time.
    pub fn create_object(&mut self, object_type: ObjectType, data: &Vec<u8>) -> (r: Result<TaoObject, TaoError>)
        requires
            old(self).wf(),
        ensures
            exists|now: i64| old(self).object_created(final(self), object_type, data@, now, r),
    {
        let now = unix_now();
        self.create_object_at(object_type, data, now)
    }

    /// Replaces an object's payload, stamped with the current time.
    pub fn update_object(&mut self, id: i64, data: &Vec<u8>) -> (r: Result<(), TaoError>)
        requires
            old(self).wf(),
        ensures
            exists|now: i64| old(self).object_updated(final(self), id, data@, now, r),
    {
        let now = unix_now();
        self.update_object_at(id, data, now)
    }

    /// Creates or replaces an association, stamped with the current time.
    pub fn create_association(
        &mut self,
        id1: i64,
        id2: i64,
        t: AssociationType,
        data: &Option<Vec<u8>>,
        time1: Option<i64>,
        time2: Option<i64>,
    ) -> (r: Result<TaoAssociation, TaoError>)
        requires
            old(self).wf(),
        ensures
            exists|now: i64|
                old(self).association_created(final(self), id1, id2, t, bytes_of(*data), time1, time2, now, r),
    {
        let now = unix_now();
        self.create_association_at(id1, id2, t, data, time1, time2, now)
    }
}

/// Relies on chrono's `Utc::now` and `DateTime::timestamp`: the current time
/// in whole seconds since the Unix epoch. Nothing is promised of its value.
#[verifier::external_body]
pub(crate) fn unix_now() -> i64 {
    chrono::Utc::now().timestamp()
}

} // verus!
