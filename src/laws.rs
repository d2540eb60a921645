//! Laws of the store that span several operations, proved from the
//! operations' contracts.
use vstd::prelude::*;

use crate::cache::{has_key, inserted, removed};
use crate::durable::{
    detached, edge_pos, from_source, has_edge, has_triple, insert_pos, lemma_filter_insert,
    listed_before, without_edge,
};
use crate::model::{
    records, AssocRecord, AssociationQuery, AssociationType, ObjectType, TaoAssociation, TaoObject,
};
use crate::query::{
    answer, cache_fillable, lemma_filter_ordered, lemma_paged_ordered, narrowed, ordered_by,
};
use crate::store::{bumped, listing_of, TaoDatabase};

verus! {

/// An object read right after it was created is that object, and with a
/// non-empty object cache the read makes no round trip to the backing store.
pub proof fn law_read_after_create(
    db0: TaoDatabase,
    db1: TaoDatabase,
    db2: TaoDatabase,
    object_type: ObjectType,
    data: Seq<u8>,
    now: i64,
    o: TaoObject,
    r: Option<TaoObject>,
)
    requires
        db0.object_created(&db1, object_type, data, now, Ok(o)),
        db1.object_read(&db2, o.id, r),
    ensures
        r matches Some(x) && x@ == o@,
        db1.object_capacity() > 0 ==> db2.reads() == db1.reads(),
{
}

/// The first read after an update returns the new payload and time, read
/// from the backing store rather than from the cache.
pub proof fn law_read_after_update(
    db0: TaoDatabase,
    db1: TaoDatabase,
    db2: TaoDatabase,
    id: i64,
    data: Seq<u8>,
    now: i64,
    r: Option<TaoObject>,
)
    requires
        db0.object_updated(&db1, id, data, now, Ok(())),
        db1.object_read(&db2, id, r),
    ensures
        r matches Some(x) && x@.data == data && x@.updated_time == now && x.id == id,
        db2.reads() == bumped(db1.reads()),
{
}

/// Writing the same natural key twice leaves exactly one row for it, holding
/// the second payload.
pub proof fn law_upsert_idempotent(
    db0: TaoDatabase,
    db1: TaoDatabase,
    db2: TaoDatabase,
    id1: i64,
    id2: i64,
    t: AssociationType,
    data1: Option<Seq<u8>>,
    data2: Option<Seq<u8>>,
    times1: (Option<i64>, Option<i64>, i64),
    times2: (Option<i64>, Option<i64>, i64),
    a1: TaoAssociation,
    a2: TaoAssociation,
)
    requires
        db0.association_created(&db1, id1, id2, t, data1, times1.0, times1.1, times1.2, Ok(a1)),
        db1.association_created(&db2, id1, id2, t, data2, times2.0, times2.1, times2.2, Ok(a2)),
    ensures
        has_edge(db2.assocs(), id1, id2, t),
        db2.assocs()[edge_pos(db2.assocs(), id1, id2, t)]@.data == data2,
        forall|i: int|
            0 <= i < db2.assocs().len() && has_triple(#[trigger] db2.assocs()[i], id1, id2, t) ==> i
                == edge_pos(db2.assocs(), id1, id2, t),
{
    let s = db2.assocs();
    let rest = without_edge(db1.assocs(), id1, id2, t);
    let p = insert_pos(rest, times2.2);
    db2.lemma_tables();
    assert(has_triple(s[p], id1, id2, t));
    let e = edge_pos(s, id1, id2, t);
    assert forall|i: int| 0 <= i < s.len() && has_triple(#[trigger] s[i], id1, id2, t) implies i == p by {
        if i < p {
            assert(!has_triple(s[i], s[p].id1, s[p].id2, s[p].assoc_type));
        } else if p < i {
            assert(!has_triple(s[p], s[i].id1, s[i].id2, s[i].assoc_type));
        }
    }
    assert(e == p);
}

/// A paged query does not fill the listing cache: a full query after it
/// still returns the whole listing.
pub proof fn law_page_does_not_poison(
    db0: TaoDatabase,
    db1: TaoDatabase,
    db2: TaoDatabase,
    paged_query: AssociationQuery,
    full_query: AssociationQuery,
    r1: Seq<AssocRecord>,
    r2: Seq<AssocRecord>,
)
    requires
        full_query.id1 == paged_query.id1,
        full_query.assoc_type == paged_query.assoc_type,
        cache_fillable(full_query),
        db0.associations_read(&db1, paged_query, r1),
        db1.associations_read(&db2, full_query, r2),
    ensures
        r2 == db0.listing(full_query.id1, full_query.assoc_type),
        r1 == answer(db0.listing(full_query.id1, full_query.assoc_type), paged_query),
{
    let l = db0.listing(full_query.id1, full_query.assoc_type);
    assert(l.filter(crate::query::narrowed(full_query)) == l) by {
        crate::durable::lemma_filter_all(l, crate::query::narrowed(full_query));
    }
}

/// Creating a new edge of `(id1, t)` raises its count by exactly one, and
/// the count after the write is not served from the cache.
pub proof fn law_count_after_create(
    db0: TaoDatabase,
    db1: TaoDatabase,
    db2: TaoDatabase,
    db3: TaoDatabase,
    id1: i64,
    id2: i64,
    t: AssociationType,
    data: Option<Seq<u8>>,
    times: (Option<i64>, Option<i64>, i64),
    c1: i64,
    a: TaoAssociation,
    c2: i64,
)
    requires
        db0.associations_counted(&db1, id1, t, c1),
        !has_edge(db1.assocs(), id1, id2, t),
        db1.association_created(&db2, id1, id2, t, data, times.0, times.1, times.2, Ok(a)),
        db2.associations_counted(&db3, id1, t, c2),
    ensures
        c2 == c1 + 1,
        db3.reads() == bumped(db2.reads()),
{
    let rest = without_edge(db1.assocs(), id1, id2, t);
    let p = insert_pos(rest, times.2);
    lemma_filter_insert(rest, p, db2.assocs()[p], from_source(id1, t));
}

/// Deleting an object leaves no association leaving it and no object under
/// its id.
pub proof fn law_cascading_delete(
    db0: TaoDatabase,
    db1: TaoDatabase,
    db2: TaoDatabase,
    db3: TaoDatabase,
    id: i64,
    q: AssociationQuery,
    r: Seq<AssocRecord>,
    o: Option<TaoObject>,
)
    requires
        db0.object_deleted(&db1, id),
        q.id1 == id,
        db1.associations_read(&db2, q, r),
        db2.object_read(&db3, id, o),
    ensures
        r.len() == 0,
        o is None,
{
    let s = db1.assocs();
    let f = from_source(id, q.assoc_type);
    assert forall|i: int| 0 <= i < s.len() implies !f(#[trigger] s[i]) by {
        db0.assocs().lemma_filter_pred(detached(id), i);
    }
    s.lemma_all_neg_filter_empty(f);
    assert(listing_of(s, id, q.assoc_type) =~= Seq::<AssocRecord>::empty());
    assert(Seq::<AssocRecord>::empty().filter(crate::query::narrowed(q)).len() == 0) by {
        reveal_with_fuel(Seq::filter, 1);
    }
}

/// Creating an object while the object cache is full evicts exactly the
/// least recently used entry: the cache keeps its size, loses its oldest key,
/// keeps every other key and gains the new object.
pub proof fn law_object_cache_eviction(
    db0: TaoDatabase,
    db1: TaoDatabase,
    object_type: ObjectType,
    data: Seq<u8>,
    now: i64,
    o: TaoObject,
)
    requires
        db0.wf(),
        db0.object_created(&db1, object_type, data, now, Ok(o)),
        db0.object_capacity() > 0,
        db0.object_entries().len() == db0.object_capacity(),
    ensures
        db1.object_entries().len() == db0.object_capacity(),
        !has_key(db1.object_entries(), db0.object_entries()[0].0),
        forall|i: int|
            1 <= i < db0.object_entries().len() ==> has_key(db1.object_entries(), #[trigger] db0.object_entries()[i].0),
        has_key(db1.object_entries(), o.id),
{
    let s = db0.object_entries();
    let cap = db0.object_capacity();
    db0.lemma_caches_agree();
    assert(!has_key(s, o.id)) by {
        if has_key(s, o.id) {
            let k = crate::cache::key_pos(s, o.id);
            assert(db0.objects().contains_key(s[k].0));
        }
    }
    assert(removed(s, o.id) == s);
    let v = choose|v: TaoObject| v@ == o@ && db1.object_entries() == #[trigger] inserted(s, cap, o.id, v);
    let out = db1.object_entries();
    assert(out == s.remove(0).push((o.id, v)));
    assert forall|i: int| 0 <= i < out.len() implies #[trigger] out[i].0 != s[0].0 by {
        if i < out.len() - 1 {
            assert(out[i] == s[i + 1]);
            assert(s[0].0 != s[i + 1].0);
        } else {
            assert(s[0].0 != o.id);
        }
    }
    assert forall|i: int| 1 <= i < s.len() implies has_key(out, #[trigger] s[i].0) by {
        assert(out[i - 1] == s[i]);
    }
    assert(out[out.len() - 1].0 == o.id);
}

/// Whether `a` is listed before `b`: created later, or at the same second
/// with a higher id.
pub open spec fn newer(a: AssocRecord, b: AssocRecord) -> bool {
    a.created_time > b.created_time || (a.created_time == b.created_time && a.id > b.id)
}

/// Every answer to a listing query lists the most recent association first.
pub proof fn law_answers_newest_first(db: TaoDatabase, q: AssociationQuery)
    requires
        db.wf(),
    ensures
        ordered_by(answer(db.listing(q.id1, q.assoc_type), q), |a: AssocRecord, b: AssocRecord| newer(a, b)),
{
    let rel = |a: AssocRecord, b: AssocRecord| newer(a, b);
    let rel_rows = |a: TaoAssociation, b: TaoAssociation| listed_before(a, b);
    db.lemma_tables();
    let rows = db.assocs();
    assert(ordered_by(rows, rel_rows));
    lemma_filter_ordered(rows, from_source(q.id1, q.assoc_type), rel_rows);
    let f = rows.filter(from_source(q.id1, q.assoc_type));
    let l = records(f);
    assert forall|i: int, j: int| 0 <= i < j < l.len() implies rel(#[trigger] l[i], #[trigger] l[j]) by {
        assert(rel_rows(f[i], f[j]));
    }
    lemma_filter_ordered(l, narrowed(q), rel);
    lemma_paged_ordered(l.filter(narrowed(q)), q.limit, q.offset, rel);
}

/// The cache after inserting `keys[i]` with `vals[i]` in turn, from `s`.
pub open spec fn inserted_all<K, V>(s: Seq<(K, V)>, cap: nat, keys: Seq<K>, vals: Seq<V>) -> Seq<(K, V)>
    decreases keys.len(),
{
    if keys.len() == 0 {
        s
    } else {
        inserted(
            inserted_all(s, cap, keys.drop_last(), vals.drop_last()),
            cap,
            keys.last(),
            vals.last(),
        )
    }
}

/// Filling an empty cache with at most `cap` distinct keys keeps them all, in order.
pub proof fn lemma_fill<K, V>(cap: nat, keys: Seq<K>, vals: Seq<V>)
    requires
        keys.len() <= cap,
        vals.len() == keys.len(),
        forall|i: int, j: int| 0 <= i < j < keys.len() ==> keys[i] != keys[j],
    ensures
        inserted_all(Seq::<(K, V)>::empty(), cap, keys, vals) == Seq::new(
            keys.len(),
            |i: int| (keys[i], vals[i]),
        ),
    decreases keys.len(),
{
    if keys.len() > 0 {
        let ks = keys.drop_last();
        let vs = vals.drop_last();
        lemma_fill(cap, ks, vs);
        let prev = Seq::new(ks.len(), |i: int| (ks[i], vs[i]));
        let k = keys.last();
        assert(!has_key(prev, k)) by {
            assert forall|i: int| 0 <= i < prev.len() implies #[trigger] prev[i].0 != k by {
                assert(keys[i] != keys[keys.len() - 1]);
            }
        }
        assert(removed(prev, k) == prev);
        assert(inserted(prev, cap, k, vals.last()) =~= Seq::new(keys.len(), |i: int| (keys[i], vals[i])));
    }
}

/// Inserting `cap + 1` distinct keys into an empty cache of capacity `cap`
/// leaves exactly `cap` entries: the first, least recently used key is the
/// one evicted and every other key stays.
pub proof fn law_eviction<K, V>(cap: nat, keys: Seq<K>, vals: Seq<V>)
    requires
        cap > 0,
        keys.len() == cap + 1,
        vals.len() == keys.len(),
        forall|i: int, j: int| 0 <= i < j < keys.len() ==> keys[i] != keys[j],
    ensures
        inserted_all(Seq::<(K, V)>::empty(), cap, keys, vals).len() == cap,
        !has_key(inserted_all(Seq::<(K, V)>::empty(), cap, keys, vals), keys[0]),
        forall|i: int| 1 <= i < keys.len() ==> has_key(inserted_all(Seq::<(K, V)>::empty(), cap, keys, vals), #[trigger] keys[i]),
{
    let ks = keys.drop_last();
    let vs = vals.drop_last();
    lemma_fill(cap, ks, vs);
    let prev = Seq::new(ks.len(), |i: int| (ks[i], vs[i]));
    let k = keys.last();
    assert(!has_key(prev, k)) by {
        assert forall|i: int| 0 <= i < prev.len() implies #[trigger] prev[i].0 != k by {
            assert(keys[i] != keys[keys.len() - 1]);
        }
    }
    assert(removed(prev, k) == prev);
    let out = inserted_all(Seq::<(K, V)>::empty(), cap, keys, vals);
    assert(out == prev.remove(0).push((k, vals.last())));
    assert forall|i: int| 0 <= i < out.len() implies #[trigger] out[i].0 != keys[0] by {
        if i < out.len() - 1 {
            assert(out[i] == prev[i + 1]);
            assert(keys[0] != keys[i + 1]);
        } else {
            assert(keys[0] != keys[keys.len() - 1]);
        }
    }
    assert forall|i: int| 1 <= i < keys.len() implies has_key(out, #[trigger] keys[i]) by {
        if i < keys.len() - 1 {
            assert(out[i - 1] == prev[i]);
            assert(out[i - 1].0 == keys[i]);
        } else {
            assert(out[out.len() - 1].0 == keys[i]);
        }
    }
}

} // verus!
