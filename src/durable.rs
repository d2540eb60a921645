//! The backing tables, held in memory: the single source of truth for
//! objects and associations while the process runs. Nothing is written to
//! disk, so the tables start empty in every process. Every read is counted as
//! one round trip to the backing store.
use vstd::prelude::*;

use crate::model::{
    bytes_of, copy_bytes, copy_payload, records, AssocRecord, AssociationType, ObjectRecord,
    ObjectType, TaoAssociation, TaoError, TaoObject,
};

verus! {

/// Whether some row of `rows` has id `id`.
pub open spec fn has_object(rows: Seq<TaoObject>, id: i64) -> bool {
    exists|i: int| 0 <= i < rows.len() && #[trigger] rows[i].id == id
}

/// The position of the row with id `id` (meaningful when `has_object(rows, id)`).
pub open spec fn object_pos(rows: Seq<TaoObject>, id: i64) -> int {
    choose|i: int| 0 <= i < rows.len() && #[trigger] rows[i].id == id
}

/// The object table as a map from id to object.
pub open spec fn object_table(rows: Seq<TaoObject>) -> Map<i64, ObjectRecord> {
    Map::new(|id: i64| has_object(rows, id), |id: i64| rows[object_pos(rows, id)]@)
}

/// The ids of the rows of type `t`, in table order.
pub open spec fn ids_of_type(rows: Seq<TaoObject>, t: ObjectType) -> Seq<i64>
    decreases rows.len(),
{
    if rows.len() == 0 {
        Seq::<i64>::empty()
    } else {
        let prev = ids_of_type(rows.drop_last(), t);
        if rows.last().object_type == t {
            prev.push(rows.last().id)
        } else {
            prev
        }
    }
}

/// Ids grow strictly along the table, stay positive and stay below `next`.
pub open spec fn objects_wf(rows: Seq<TaoObject>, next: i64) -> bool {
    &&& forall|i: int, j: int| 0 <= i < j < rows.len() ==> #[trigger] rows[i].id < #[trigger] rows[j].id
    &&& forall|i: int| 0 <= i < rows.len() ==> 0 < #[trigger] rows[i].id < next
    &&& 0 < next
}

/// In a well-formed table the row at `i` is the one found under its id.
pub proof fn lemma_object_at(rows: Seq<TaoObject>, next: i64, i: int)
    requires
        objects_wf(rows, next),
        0 <= i < rows.len(),
    ensures
        has_object(rows, rows[i].id),
        object_pos(rows, rows[i].id) == i,
        object_table(rows)[rows[i].id] == rows[i]@,
{
    let p = object_pos(rows, rows[i].id);
    assert(rows[i].id == rows[i].id);
    if p < i {
        assert(rows[p].id < rows[i].id);
    } else if i < p {
        assert(rows[i].id < rows[p].id);
    }
}

/// Whether `a` comes before `b` in the canonical listing order: newest
/// `created_time` first, and among equal times the higher (later) id first.
pub open spec fn listed_before(a: TaoAssociation, b: TaoAssociation) -> bool {
    a.created_time > b.created_time || (a.created_time == b.created_time && a.id > b.id)
}

/// Whether `a` has the natural key `(id1, id2, t)`.
pub open spec fn has_triple(a: TaoAssociation, id1: i64, id2: i64, t: AssociationType) -> bool {
    a.id1 == id1 && a.id2 == id2 && a.assoc_type == t
}

/// Rows are in listing order, natural keys are unique, ids are positive and
/// below `next`, and there are fewer rows than ids handed out.
pub open spec fn assocs_wf(rows: Seq<TaoAssociation>, next: i64) -> bool {
    &&& rows.len() < next
    &&& forall|i: int, j: int| 0 <= i < j < rows.len() ==> listed_before(#[trigger] rows[i], #[trigger] rows[j])
    &&& forall|i: int, j: int|
        0 <= i < j < rows.len() ==> !has_triple(#[trigger] rows[i], rows[j].id1, rows[j].id2, #[trigger] rows[j].assoc_type)
    &&& forall|i: int| 0 <= i < rows.len() ==> 0 < #[trigger] rows[i].id < next
    &&& 0 < next
}

/// The rows leaving `id1` with type `t`.
pub open spec fn from_source(id1: i64, t: AssociationType) -> spec_fn(TaoAssociation) -> bool {
    |a: TaoAssociation| a.id1 == id1 && a.assoc_type == t
}

/// The rows that do not touch object `id` at either end.
pub open spec fn detached(id: i64) -> spec_fn(TaoAssociation) -> bool {
    |a: TaoAssociation| a.id1 != id && a.id2 != id
}

/// Whether some row has the natural key `(id1, id2, t)`.
pub open spec fn has_edge(rows: Seq<TaoAssociation>, id1: i64, id2: i64, t: AssociationType) -> bool {
    exists|i: int| 0 <= i < rows.len() && has_triple(#[trigger] rows[i], id1, id2, t)
}

/// The position of the row with natural key `(id1, id2, t)`.
pub open spec fn edge_pos(rows: Seq<TaoAssociation>, id1: i64, id2: i64, t: AssociationType) -> int {
    choose|i: int| 0 <= i < rows.len() && has_triple(#[trigger] rows[i], id1, id2, t)
}

/// The rows without the one with natural key `(id1, id2, t)`.
pub open spec fn without_edge(rows: Seq<TaoAssociation>, id1: i64, id2: i64, t: AssociationType) -> Seq<
    TaoAssociation,
> {
    if has_edge(rows, id1, id2, t) {
        rows.remove(edge_pos(rows, id1, id2, t))
    } else {
        rows
    }
}

/// Where a row created at `ct` enters a table in listing order: after every
/// row created later, before every other row.
pub open spec fn insert_pos(rows: Seq<TaoAssociation>, ct: i64) -> int {
    choose|p: int| #[trigger] splits_at(rows, ct, p)
}

/// Every row before `p` was created after `ct`, and no row from `p` on was.
pub open spec fn splits_at(rows: Seq<TaoAssociation>, ct: i64, p: int) -> bool {
    &&& 0 <= p <= rows.len()
    &&& forall|i: int| 0 <= i < p ==> #[trigger] rows[i].created_time > ct
    &&& forall|i: int| p <= i < rows.len() ==> #[trigger] rows[i].created_time <= ct
}

/// Removing a row that fails `p` leaves the filtered sequence as it was.
pub proof fn lemma_filter_remove<A>(s: Seq<A>, i: int, p: spec_fn(A) -> bool)
    requires
        0 <= i < s.len(),
    ensures
        s.remove(i).filter(p) == if p(s[i]) {
            s.subrange(0, i).filter(p) + s.subrange(i + 1, s.len() as int).filter(p)
        } else {
            s.filter(p)
        },
        s.remove(i).filter(p).len() as int == if p(s[i]) {
            s.filter(p).len() as int - 1
        } else {
            s.filter(p).len() as int
        },
{
    let a = s.subrange(0, i);
    let b = s.subrange(i + 1, s.len() as int);
    let x = seq![s[i]];
    assert(s.remove(i) =~= a + b);
    assert(s =~= a + x + b);
    Seq::filter_distributes_over_add(a, b, p);
    Seq::filter_distributes_over_add(a + x, b, p);
    Seq::filter_distributes_over_add(a, x, p);
    reveal_with_fuel(Seq::filter, 2);
    assert(x.drop_last() =~= Seq::<A>::empty());
}

/// Inserting `x` grows the filtered length by one exactly when `x` passes `p`.
pub proof fn lemma_filter_insert<A>(s: Seq<A>, i: int, x: A, p: spec_fn(A) -> bool)
    requires
        0 <= i <= s.len(),
    ensures
        s.insert(i, x).filter(p).len() as int == if p(x) {
            s.filter(p).len() as int + 1
        } else {
            s.filter(p).len() as int
        },
        !p(x) ==> s.insert(i, x).filter(p) == s.filter(p),
{
    let t = s.insert(i, x);
    assert(t.remove(i) =~= s);
    lemma_filter_remove(t, i, p);
}

/// A filter that every element passes keeps the whole sequence.
pub proof fn lemma_filter_all<A>(s: Seq<A>, p: spec_fn(A) -> bool)
    requires
        forall|i: int| 0 <= i < s.len() ==> p(#[trigger] s[i]),
    ensures
        s.filter(p) == s,
    decreases s.len(),
{
    reveal_with_fuel(Seq::filter, 1);
    if s.len() > 0 {
        let d = s.drop_last();
        assert forall|i: int| 0 <= i < d.len() implies p(#[trigger] d[i]) by {
            assert(d[i] == s[i]);
        }
        lemma_filter_all(d, p);
        assert(s =~= d.push(s.last()));
    } else {
        assert(s.filter(p) =~= s);
    }
}

/// Removing a row keeps a table well formed.
pub proof fn lemma_assocs_remove(rows: Seq<TaoAssociation>, next: i64, k: int)
    requires
        assocs_wf(rows, next),
        0 <= k < rows.len(),
    ensures
        assocs_wf(rows.remove(k), next),
{
    let s = rows.remove(k);
    assert forall|a: int| 0 <= a < s.len() implies #[trigger] s[a] == if a < k {
        rows[a]
    } else {
        rows[a + 1]
    } by {}
    assert forall|a: int, b: int| 0 <= a < b < s.len() implies listed_before(#[trigger] s[a], #[trigger] s[b]) by {
        let a1 = if a < k { a } else { a + 1 };
        let b1 = if b < k { b } else { b + 1 };
        assert(listed_before(rows[a1], rows[b1]));
    }
    assert forall|a: int, b: int| 0 <= a < b < s.len() implies !has_triple(#[trigger] s[a], s[b].id1, s[b].id2, #[trigger] s[b].assoc_type) by {
        let a1 = if a < k { a } else { a + 1 };
        let b1 = if b < k { b } else { b + 1 };
        assert(!has_triple(rows[a1], rows[b1].id1, rows[b1].id2, rows[b1].assoc_type));
    }
    assert forall|a: int| 0 <= a < s.len() implies 0 < #[trigger] s[a].id < next by {
        let a1 = if a < k { a } else { a + 1 };
        assert(0 < rows[a1].id < next);
    }
}

/// Taking out the row with a given natural key keeps a table well formed and
/// leaves no row with that key.
pub proof fn lemma_without_edge(s0: Seq<TaoAssociation>, next: i64, id1: i64, id2: i64, t: AssociationType)
    requires
        assocs_wf(s0, next),
    ensures
        assocs_wf(without_edge(s0, id1, id2, t), next),
        !has_edge(without_edge(s0, id1, id2, t), id1, id2, t),
{
    let s1 = without_edge(s0, id1, id2, t);
    if has_edge(s0, id1, id2, t) {
        let k = edge_pos(s0, id1, id2, t);
        lemma_assocs_remove(s0, next, k);
        assert forall|j: int| 0 <= j < s1.len() implies !has_triple(#[trigger] s1[j], id1, id2, t) by {
            if j < k {
                assert(s1[j] == s0[j]);
                assert(!has_triple(s0[j], s0[k].id1, s0[k].id2, s0[k].assoc_type));
            } else {
                assert(s1[j] == s0[j + 1]);
                assert(!has_triple(s0[k], s0[j + 1].id1, s0[j + 1].id2, s0[j + 1].assoc_type));
            }
        }
    }
}

/// A row with a fresh id and a fresh natural key, put where its creation time
/// belongs, keeps a table well formed.
#[verifier::rlimit(40)]
pub proof fn lemma_assocs_insert(s1: Seq<TaoAssociation>, id: i64, p: int, row: TaoAssociation)
    requires
        assocs_wf(s1, id),
        id < i64::MAX,
        row.id == id,
        splits_at(s1, row.created_time, p),
        !has_edge(s1, row.id1, row.id2, row.assoc_type),
    ensures
        assocs_wf(s1.insert(p, row), (id + 1) as i64),
{
    let s = s1.insert(p, row);
    let now = row.created_time;
    assert forall|a: int| 0 <= a < s.len() implies #[trigger] s[a] == if a < p {
        s1[a]
    } else if a == p {
        row
    } else {
        s1[a - 1]
    } by {}
    assert forall|a: int, b: int| 0 <= a < b < s.len() implies listed_before(#[trigger] s[a], #[trigger] s[b]) by {
        if a < p && b == p {
            assert(s1[a].created_time > now);
        } else if a == p {
            assert(s1[b - 1].created_time <= now);
            assert(s1[b - 1].id < id);
        } else {
            let a1 = if a < p { a } else { a - 1 };
            let b1 = if b < p { b } else { b - 1 };
            assert(listed_before(s1[a1], s1[b1]));
        }
    }
    assert forall|a: int, b: int| 0 <= a < b < s.len() implies !has_triple(#[trigger] s[a], s[b].id1, s[b].id2, #[trigger] s[b].assoc_type) by {
        if a == p {
            assert(!has_triple(s1[b - 1], row.id1, row.id2, row.assoc_type));
        } else if b == p {
            assert(!has_triple(s1[a], row.id1, row.id2, row.assoc_type));
        } else {
            let a1 = if a < p { a } else { a - 1 };
            let b1 = if b < p { b } else { b - 1 };
            assert(!has_triple(s1[a1], s1[b1].id1, s1[b1].id2, s1[b1].assoc_type));
        }
    }
    assert forall|a: int| 0 <= a < s.len() implies 0 < #[trigger] s[a].id < id + 1 by {
        if a < p {
            assert(0 < s1[a].id < id);
        } else if a > p {
            assert(0 < s1[a - 1].id < id);
        }
    }
}

/// The two backing tables, kept in memory, with the next free id of each and
/// a count of read round trips.
pub struct DurableStore {
    objects: Vec<TaoObject>,
    associations: Vec<TaoAssociation>,
    next_object_id: i64,
    next_assoc_id: i64,
    reads: u64,
}

impl DurableStore {
    /// The rows of the object table.
    pub closed spec fn objects(&self) -> Seq<TaoObject> {
        self.objects@
    }

    /// The rows of the association table, in listing order.
    pub closed spec fn assocs(&self) -> Seq<TaoAssociation> {
        self.associations@
    }

    /// The id the next created object gets.
    pub closed spec fn next_object_id(&self) -> i64 {
        self.next_object_id
    }

    /// The id the next written association gets.
    pub closed spec fn next_assoc_id(&self) -> i64 {
        self.next_assoc_id
    }

    /// The read round trips made so far (saturating).
    pub closed spec fn reads(&self) -> u64 {
        self.reads
    }

    pub open spec fn wf(&self) -> bool {
        &&& objects_wf(self.objects(), self.next_object_id())
        &&& assocs_wf(self.assocs(), self.next_assoc_id())
    }

    /// Empty tables; ids start at one.
    pub fn new() -> (r: Self)
        ensures
            r.wf(),
            r.objects() == Seq::<TaoObject>::empty(),
            r.assocs() == Seq::<TaoAssociation>::empty(),
            r.next_object_id() == 1,
            r.next_assoc_id() == 1,
            r.reads() == 0,
    {
        DurableStore {
            objects: Vec::new(),
            associations: Vec::new(),
            next_object_id: 1,
            next_assoc_id: 1,
            reads: 0,
        }
    }

    pub fn read_count(&self) -> (r: u64)
        ensures
            r == self.reads(),
    {
        self.reads
    }

    fn count_read(&mut self)
        ensures
            final(self).objects() == old(self).objects(),
            final(self).assocs() == old(self).assocs(),
            final(self).next_object_id() == old(self).next_object_id(),
            final(self).next_assoc_id() == old(self).next_assoc_id(),
            final(self).reads() == if old(self).reads() < u64::MAX {
                (old(self).reads() + 1) as u64
            } else {
                old(self).reads()
            },
    {
        if self.reads < u64::MAX {
            self.reads = self.reads + 1;
        }
    }

    fn find_object(&self, id: i64) -> (r: Option<usize>)
        requires
            self.wf(),
        ensures
            match r {
                Some(i) => has_object(self.objects(), id) && i == object_pos(self.objects(), id),
                None => !has_object(self.objects(), id),
            },
    {
        let mut i: usize = 0;
        while i < self.objects.len()
            invariant
                i <= self.objects.len(),
                self.wf(),
                forall|j: int| 0 <= j < i ==> self.objects@[j].id != id,
            decreases self.objects.len() - i,
        {
            if self.objects[i].id == id {
                proof {
                    lemma_object_at(self.objects@, self.next_object_id, i as int);
                }
                return Some(i);
            }
            i = i + 1;
        }
        proof {
            assert forall|j: int| 0 <= j < self.objects@.len() implies #[trigger] self.objects@[j].id != id by {
                assert(self.objects@[j].id != id);
            }
        }
        None
    }

    /// Appends a new object under the next free id. Runs out of ids only at `i64::MAX`.
    pub fn insert_object(&mut self, object_type: ObjectType, data: &Vec<u8>, now: i64) -> (r: Result<TaoObject, TaoError>)
        requires
            old(self).wf(),
        ensures
            final(self).wf(),
            final(self).assocs() == old(self).assocs(),
            final(self).next_assoc_id() == old(self).next_assoc_id(),
            final(self).reads() == old(self).reads(),
            match r {
                Ok(o) => {
                    &&& old(self).next_object_id() < i64::MAX
                    &&& o@ == (ObjectRecord {
                        id: old(self).next_object_id(),
                        object_type,
                        data: data@,
                        created_time: now,
                        updated_time: now,
                    })
                    &&& object_table(final(self).objects()) == object_table(old(self).objects()).insert(o.id, o@)
                    &&& final(self).next_object_id() == old(self).next_object_id() + 1
                },
                Err(e) => {
                    &&& e == TaoError::Storage
                    &&& old(self).next_object_id() == i64::MAX
                    &&& final(self).objects() == old(self).objects()
                    &&& final(self).next_object_id() == old(self).next_object_id()
                },
            },
    {
        if self.next_object_id == i64::MAX {
            return Err(TaoError::Storage);
        }
        let id = self.next_object_id;
        let row = TaoObject { id, object_type, data: copy_bytes(data), created_time: now, updated_time: now };
        let out = row.clone();
        self.objects.push(row);
        self.next_object_id = id + 1;
        proof {
            let s = self.objects@;
            assert forall|i: int, j: int| 0 <= i < j < s.len() implies #[trigger] s[i].id < #[trigger] s[j].id by {
                if j == s.len() - 1 {
                    assert(0 < s[i].id < id);
                }
            }
            assert forall|i: int| 0 <= i < s.len() implies 0 < #[trigger] s[i].id < self.next_object_id by {
                if i < s.len() - 1 {
                    assert(s[i] == old(self).objects@[i]);
                }
            }
            let s0 = old(self).objects@;
            assert forall|k: i64| #[trigger] has_object(s, k) == (has_object(s0, k) || k == id) by {
                if has_object(s0, k) {
                    let p = object_pos(s0, k);
                    assert(s[p] == s0[p]);
                }
                if k == id {
                    assert(s[s.len() - 1].id == id);
                }
                if has_object(s, k) && k != id {
                    let p = object_pos(s, k);
                    assert(s[p] == s0[p]);
                }
            }
            assert forall|k: i64| has_object(s, k) implies object_table(s)[k] == (
            #[trigger] object_table(s0).insert(id, out@))[k] by {
                let p = object_pos(s, k);
                lemma_object_at(s, self.next_object_id, p);
                if k != id {
                    let q = object_pos(s0, k);
                    lemma_object_at(s0, old(self).next_object_id, p);
                }
            }
            assert(object_table(s) =~= object_table(s0).insert(id, out@));
        }
        Ok(out)
    }

    /// Reads the object with id `id`: one round trip.
    pub fn read_object(&mut self, id: i64) -> (r: Option<TaoObject>)
        requires
            old(self).wf(),
        ensures
            final(self).wf(),
            final(self).objects() == old(self).objects(),
            final(self).assocs() == old(self).assocs(),
            final(self).next_object_id() == old(self).next_object_id(),
            final(self).next_assoc_id() == old(self).next_assoc_id(),
            final(self).reads() == if old(self).reads() < u64::MAX {
                (old(self).reads() + 1) as u64
            } else {
                old(self).reads()
            },
            match r {
                Some(o) => object_table(old(self).objects()).contains_key(id) && object_table(
                    old(self).objects(),
                )[id] == o@,
                None => !object_table(old(self).objects()).contains_key(id),
            },
    {
        self.count_read();
        match self.find_object(id) {
            Some(i) => Some(self.objects[i].clone()),
            None => None,
        }
    }

    /// Replaces the payload of object `id` and stamps `updated_time`; reports
    /// whether such an object exists.
    pub fn update_object(&mut self, id: i64, data: &Vec<u8>, now: i64) -> (r: bool)
        requires
            old(self).wf(),
        ensures
            final(self).wf(),
            final(self).assocs() == old(self).assocs(),
            final(self).next_object_id() == old(self).next_object_id(),
            final(self).next_assoc_id() == old(self).next_assoc_id(),
            final(self).reads() == old(self).reads(),
            r == object_table(old(self).objects()).contains_key(id),
            object_table(final(self).objects()) == if r {
                object_table(old(self).objects()).insert(
                    id,
                    ObjectRecord {
                        data: data@,
                        updated_time: now,
                        ..object_table(old(self).objects())[id]
                    },
                )
            } else {
                object_table(old(self).objects())
            },
    {
        match self.find_object(id) {
            None => false,
            Some(i) => {
                let ghost s0 = self.objects@;
                let row = TaoObject {
                    id,
                    object_type: self.objects[i].object_type,
                    data: copy_bytes(data),
                    created_time: self.objects[i].created_time,
                    updated_time: now,
                };
                let ghost rec = row@;
                self.objects.set(i, row);
                proof {
                    let s = self.objects@;
                    lemma_object_at(s0, self.next_object_id, i as int);
                    assert forall|a: int, b: int| 0 <= a < b < s.len() implies #[trigger] s[a].id
                        < #[trigger] s[b].id by {
                        assert(s0[a].id < s0[b].id);
                    }
                    assert forall|a: int| 0 <= a < s.len() implies 0 < #[trigger] s[a].id
                        < self.next_object_id by {
                        assert(0 < s0[a].id < self.next_object_id);
                    }
                    assert forall|k: i64| #[trigger] has_object(s, k) == has_object(s0, k) by {
                        if has_object(s0, k) {
                            let p = object_pos(s0, k);
                            assert(s[p].id == s0[p].id);
                        }
                        if has_object(s, k) {
                            let p = object_pos(s, k);
                            assert(s[p].id == s0[p].id);
                        }
                    }
                    assert forall|k: i64| has_object(s, k) implies object_table(s)[k] == (
                    #[trigger] object_table(s0).insert(id, rec))[k] by {
                        let p = object_pos(s, k);
                        lemma_object_at(s, self.next_object_id, p);
                        lemma_object_at(s0, self.next_object_id, p);
                    }
                    assert(object_table(s) =~= object_table(s0).insert(id, rec));
                }
                true
            },
        }
    }

    /// Deletes the object row with id `id`, if any.
    pub fn delete_object(&mut self, id: i64)
        requires
            old(self).wf(),
        ensures
            final(self).wf(),
            final(self).assocs() == old(self).assocs(),
            final(self).next_object_id() == old(self).next_object_id(),
            final(self).next_assoc_id() == old(self).next_assoc_id(),
            final(self).reads() == old(self).reads(),
            object_table(final(self).objects()) == object_table(old(self).objects()).remove(id),
    {
        let ghost s0 = self.objects@;
        match self.find_object(id) {
            None => {
                assert(object_table(s0) =~= object_table(s0).remove(id));
            },
            Some(i) => {
                self.objects.remove(i);
                proof {
                    let s = self.objects@;
                    let ii = i as int;
                    assert forall|a: int| 0 <= a < s.len() implies #[trigger] s[a] == if a < ii {
                        s0[a]
                    } else {
                        s0[a + 1]
                    } by {}
                    assert forall|a: int, b: int| 0 <= a < b < s.len() implies #[trigger] s[a].id
                        < #[trigger] s[b].id by {
                        if a < ii && b >= ii {
                            assert(s0[a].id < s0[b + 1].id);
                        }
                    }
                    assert forall|a: int| 0 <= a < s.len() implies 0 < #[trigger] s[a].id
                        < self.next_object_id by {
                        if a >= ii {
                            assert(0 < s0[a + 1].id);
                        }
                    }
                    lemma_object_at(s0, self.next_object_id, ii);
                    assert forall|k: i64| #[trigger] has_object(s, k) == (has_object(s0, k) && k != id) by {
                        if has_object(s0, k) && k != id {
                            let p = object_pos(s0, k);
                            if p < ii {
                                assert(s[p] == s0[p]);
                            } else {
                                assert(s[p - 1] == s0[p]);
                            }
                        }
                        if has_object(s, k) {
                            let p = object_pos(s, k);
                            if p < ii {
                                lemma_object_at(s0, self.next_object_id, p);
                            } else {
                                lemma_object_at(s0, self.next_object_id, p + 1);
                            }
                        }
                    }
                    assert forall|k: i64| has_object(s, k) implies object_table(s)[k] == (
                    #[trigger] object_table(s0).remove(id))[k] by {
                        let p = object_pos(s, k);
                        lemma_object_at(s, self.next_object_id, p);
                        if p < ii {
                            lemma_object_at(s0, self.next_object_id, p);
                        } else {
                            lemma_object_at(s0, self.next_object_id, p + 1);
                        }
                    }
                    assert(object_table(s) =~= object_table(s0).remove(id));
                }
            },
        }
    }

    fn find_edge(&self, id1: i64, id2: i64, t: AssociationType) -> (r: Option<usize>)
        requires
            self.wf(),
        ensures
            match r {
                Some(i) => has_edge(self.assocs(), id1, id2, t) && i == edge_pos(self.assocs(), id1, id2, t),
                None => !has_edge(self.assocs(), id1, id2, t),
            },
    {
        let mut i: usize = 0;
        while i < self.associations.len()
            invariant
                i <= self.associations.len(),
                self.wf(),
                forall|j: int| 0 <= j < i ==> !has_triple(self.associations@[j], id1, id2, t),
            decreases self.associations.len() - i,
        {
            let a = &self.associations[i];
            if a.id1 == id1 && a.id2 == id2 && a.assoc_type == t {
                proof {
                    let s = self.associations@;
                    let ii = i as int;
                    assert(has_triple(s[ii], id1, id2, t));
                    let p = edge_pos(s, id1, id2, t);
                    if p < ii {
                        assert(!has_triple(s[p], s[ii].id1, s[ii].id2, s[ii].assoc_type));
                    } else if ii < p {
                        assert(!has_triple(s[ii], s[p].id1, s[p].id2, s[p].assoc_type));
                    }
                }
                return Some(i);
            }
            i = i + 1;
        }
        None
    }

    /// Finds where a row created at `ct` enters the table.
    fn find_insert_pos(&self, ct: i64) -> (r: usize)
        requires
            self.wf(),
        ensures
            r == insert_pos(self.assocs(), ct),
            splits_at(self.assocs(), ct, r as int),
    {
        let mut i: usize = 0;
        while i < self.associations.len() && self.associations[i].created_time > ct
            invariant
                i <= self.associations.len(),
                self.wf(),
                forall|j: int| 0 <= j < i ==> #[trigger] self.associations@[j].created_time > ct,
            decreases self.associations.len() - i,
        {
            i = i + 1;
        }
        proof {
            let s = self.associations@;
            assert forall|j: int| i <= j < s.len() implies #[trigger] s[j].created_time <= ct by {
                if j > i {
                    assert(listed_before(s[i as int], s[j]));
                }
            }
            assert(splits_at(s, ct, i as int));
            let p = insert_pos(s, ct);
            assert(splits_at(s, ct, p));
            if p < i {
                assert(s[p].created_time > ct);
            } else if i < p {
                assert(s[i as int].created_time > ct);
            }
        }
        i
    }

    /// Writes the association `(id1, id2, t)` under the next free id, replacing
    /// any row with the same natural key. Runs out of ids only at `i64::MAX`.
    pub fn upsert_association(
        &mut self,
        id1: i64,
        id2: i64,
        t: AssociationType,
        data: &Option<Vec<u8>>,
        time1: Option<i64>,
        time2: Option<i64>,
        now: i64,
    ) -> (r: Result<TaoAssociation, TaoError>)
        requires
            old(self).wf(),
        ensures
            final(self).wf(),
            final(self).objects() == old(self).objects(),
            final(self).next_object_id() == old(self).next_object_id(),
            final(self).reads() == old(self).reads(),
            match r {
                Ok(a) => {
                    let rest = without_edge(old(self).assocs(), id1, id2, t);
                    let p = insert_pos(rest, now);
                    &&& old(self).next_assoc_id() < i64::MAX
                    &&& final(self).next_assoc_id() == old(self).next_assoc_id() + 1
                    &&& a@ == (AssocRecord {
                        id: old(self).next_assoc_id(),
                        id1,
                        id2,
                        assoc_type: t,
                        data: bytes_of(*data),
                        created_time: now,
                        updated_time: now,
                        time1,
                        time2,
                    })
                    &&& 0 <= p <= rest.len()
                    &&& final(self).assocs() == rest.insert(p, final(self).assocs()[p])
                    &&& final(self).assocs()[p]@ == a@
                },
                Err(e) => {
                    &&& e == TaoError::Storage
                    &&& old(self).next_assoc_id() == i64::MAX
                    &&& final(self).assocs() == old(self).assocs()
                    &&& final(self).next_assoc_id() == old(self).next_assoc_id()
                },
            },
    {
        if self.next_assoc_id == i64::MAX {
            return Err(TaoError::Storage);
        }
        let ghost s0 = self.associations@;
        match self.find_edge(id1, id2, t) {
            Some(i) => {
                proof {
                    lemma_assocs_remove(s0, self.next_assoc_id, i as int);
                }
                self.associations.remove(i);
            },
            None => {},
        }
        let ghost s1 = self.associations@;
        proof {
            lemma_without_edge(s0, self.next_assoc_id, id1, id2, t);
        }
        let id = self.next_assoc_id;
        let row = TaoAssociation {
            id,
            id1,
            id2,
            assoc_type: t,
            data: copy_payload(data),
            created_time: now,
            updated_time: now,
            time1,
            time2,
        };
        let out = row.clone();
        let p = self.find_insert_pos(now);
        assert(s1 == self.associations@);
        self.associations.insert(p, row);
        self.next_assoc_id = id + 1;
        proof {
            lemma_assocs_insert(s1, id, p as int, row);
        }
        Ok(out)
    }

    /// Deletes the association `(id1, id2, t)` if it exists.
    pub fn delete_association(&mut self, id1: i64, id2: i64, t: AssociationType)
        requires
            old(self).wf(),
        ensures
            final(self).wf(),
            final(self).objects() == old(self).objects(),
            final(self).next_object_id() == old(self).next_object_id(),
            final(self).next_assoc_id() == old(self).next_assoc_id(),
            final(self).reads() == old(self).reads(),
            final(self).assocs() == without_edge(old(self).assocs(), id1, id2, t),
    {
        match self.find_edge(id1, id2, t) {
            Some(i) => {
                proof {
                    lemma_assocs_remove(self.associations@, self.next_assoc_id, i as int);
                }
                self.associations.remove(i);
            },
            None => {},
        }
    }

    /// Deletes every association with `id` at either end.
    pub fn delete_touching(&mut self, id: i64)
        requires
            old(self).wf(),
        ensures
            final(self).wf(),
            final(self).objects() == old(self).objects(),
            final(self).next_object_id() == old(self).next_object_id(),
            final(self).next_assoc_id() == old(self).next_assoc_id(),
            final(self).reads() == old(self).reads(),
            final(self).assocs() == old(self).assocs().filter(detached(id)),
    {
        let ghost s0 = self.associations@;
        let mut i: usize = 0;
        while i < self.associations.len()
            invariant
                i <= self.associations.len(),
                self.wf(),
                self.objects@ == old(self).objects@,
                self.next_object_id == old(self).next_object_id,
                self.next_assoc_id == old(self).next_assoc_id,
                self.reads == old(self).reads,
                self.associations@.filter(detached(id)) == s0.filter(detached(id)),
                forall|j: int| 0 <= j < i ==> detached(id)(#[trigger] self.associations@[j]),
            decreases self.associations.len() - i,
        {
            let a = &self.associations[i];
            if a.id1 == id || a.id2 == id {
                proof {
                    let s = self.associations@;
                    lemma_assocs_remove(s, self.next_assoc_id, i as int);
                    lemma_filter_remove(s, i as int, detached(id));
                    assert forall|j: int| 0 <= j < i implies detached(id)(#[trigger] s.remove(i as int)[j]) by {
                        assert(s.remove(i as int)[j] == s[j]);
                    }
                }
                self.associations.remove(i);
            } else {
                i = i + 1;
            }
        }
        proof {
            lemma_filter_all(self.associations@, detached(id));
        }
    }

    /// Reads every row leaving `id1` with type `t`, in listing order: one round trip.
    pub fn scan_associations(&mut self, id1: i64, t: AssociationType) -> (r: Vec<TaoAssociation>)
        requires
            old(self).wf(),
        ensures
            final(self).wf(),
            final(self).objects() == old(self).objects(),
            final(self).assocs() == old(self).assocs(),
            final(self).next_object_id() == old(self).next_object_id(),
            final(self).next_assoc_id() == old(self).next_assoc_id(),
            final(self).reads() == if old(self).reads() < u64::MAX {
                (old(self).reads() + 1) as u64
            } else {
                old(self).reads()
            },
            records(r@) == records(old(self).assocs().filter(from_source(id1, t))),
    {
        self.count_read();
        let ghost s = self.associations@;
        let mut out: Vec<TaoAssociation> = Vec::new();
        let mut i: usize = 0;
        while i < self.associations.len()
            invariant
                i <= self.associations.len(),
                self.associations@ == s,
                records(out@) == records(s.subrange(0, i as int).filter(from_source(id1, t))),
            decreases self.associations.len() - i,
        {
            let a = &self.associations[i];
            let ghost before = out@;
            proof {
                reveal_with_fuel(Seq::filter, 1);
                assert(s.subrange(0, i + 1).drop_last() =~= s.subrange(0, i as int));
            }
            if a.id1 == id1 && a.assoc_type == t {
                let c = a.clone();
                out.push(c);
                proof {
                    let f = s.subrange(0, i as int).filter(from_source(id1, t));
                    let g = f.push(s[i as int]);
                    assert(records(before).len() == before.len());
                    assert(records(f).len() == f.len());
                    assert(out@ == before.push(c));
                    assert forall|j: int| 0 <= j < out@.len() implies #[trigger] records(out@)[j] == records(g)[j] by {
                        if j < before.len() {
                            assert(records(before)[j] == records(f)[j]);
                            assert(out@[j] == before[j]);
                            assert(g[j] == f[j]);
                        }
                    }
                    assert(records(out@) =~= records(g));
                }
            }
            i = i + 1;
        }
        assert(s.subrange(0, s.len() as int) =~= s);
        out
    }

    /// Counts the rows leaving `id1` with type `t`: one round trip.
    pub fn count_associations(&mut self, id1: i64, t: AssociationType) -> (r: i64)
        requires
            old(self).wf(),
        ensures
            final(self).wf(),
            final(self).objects() == old(self).objects(),
            final(self).assocs() == old(self).assocs(),
            final(self).next_object_id() == old(self).next_object_id(),
            final(self).next_assoc_id() == old(self).next_assoc_id(),
            final(self).reads() == if old(self).reads() < u64::MAX {
                (old(self).reads() + 1) as u64
            } else {
                old(self).reads()
            },
            r == old(self).assocs().filter(from_source(id1, t)).len(),
    {
        self.count_read();
        let ghost s = self.associations@;
        let mut n: i64 = 0;
        let mut i: usize = 0;
        while i < self.associations.len()
            invariant
                i <= self.associations.len(),
                self.associations@ == s,
                s.len() < self.next_assoc_id,
                n == s.subrange(0, i as int).filter(from_source(id1, t)).len(),
                n <= i,
            decreases self.associations.len() - i,
        {
            let a = &self.associations[i];
            proof {
                reveal_with_fuel(Seq::filter, 1);
                assert(s.subrange(0, i + 1).drop_last() =~= s.subrange(0, i as int));
            }
            if a.id1 == id1 && a.assoc_type == t {
                n = n + 1;
            }
            i = i + 1;
        }
        assert(s.subrange(0, s.len() as int) =~= s);
        n
    }

    /// Reads the ids of all objects of type `t`, in id order: one round trip.
    pub fn ids_of_type(&mut self, t: ObjectType) -> (r: Vec<i64>)
        requires
            old(self).wf(),
        ensures
            final(self).wf(),
            final(self).objects() == old(self).objects(),
            final(self).assocs() == old(self).assocs(),
            final(self).next_object_id() == old(self).next_object_id(),
            final(self).next_assoc_id() == old(self).next_assoc_id(),
            final(self).reads() == if old(self).reads() < u64::MAX {
                (old(self).reads() + 1) as u64
            } else {
                old(self).reads()
            },
            r@ == ids_of_type(old(self).objects(), t),
    {
        self.count_read();
        let ghost s = self.objects@;
        let mut out: Vec<i64> = Vec::new();
        let mut i: usize = 0;
        while i < self.objects.len()
            invariant
                i <= self.objects.len(),
                self.objects@ == s,
                out@ == ids_of_type(s.subrange(0, i as int), t),
            decreases self.objects.len() - i,
        {
            proof {
                assert(s.subrange(0, i + 1).drop_last() =~= s.subrange(0, i as int));
            }
            if self.objects[i].object_type == t {
                out.push(self.objects[i].id);
            }
            i = i + 1;
        }
        assert(s.subrange(0, s.len() as int) =~= s);
        out
    }
}

} // verus!
