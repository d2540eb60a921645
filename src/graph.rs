//! The social graph among the first users: which users there are and which
//! friendship and follow edges join them.
use vstd::prelude::*;

use crate::durable::ids_of_type;
use crate::model::{
    records, AssocRecord, AssociationQuery, AssociationType, ObjectRecord, ObjectType,
    TaoAssociation, TaoObject,
};
use crate::query::answer;
use crate::rules::{first_edges, is_kind, object_records};
use crate::store::{listing_of, TaoDatabase};

verus! {

/// How many users a listing of users returns when the caller names no limit.
pub const DEFAULT_USER_LIMIT: i32 = 100;

/// How many edges of each type the graph reads out of each user.
pub const GRAPH_EDGE_LIMIT: i32 = 20;

/// The first `limit` items of `s` (all of them for a negative limit).
pub open spec fn first_n<T>(s: Seq<T>, limit: i32) -> Seq<T> {
    if 0 <= limit && limit < s.len() {
        s.subrange(0, limit as int)
    } else {
        s
    }
}

/// The objects of type `t` under `ids`, in order; other ids are skipped.
pub open spec fn objects_of_kind(objects: Map<i64, ObjectRecord>, ids: Seq<i64>, t: ObjectType) -> Seq<ObjectRecord>
    decreases ids.len(),
{
    if ids.len() == 0 {
        Seq::<ObjectRecord>::empty()
    } else {
        let prev = objects_of_kind(objects, ids.drop_last(), t);
        if is_kind(objects, ids.last(), t) {
            prev.push(objects[ids.last()])
        } else {
            prev
        }
    }
}

/// The edges of `s` that end at one of `users`.
pub open spec fn edges_among(s: Seq<AssocRecord>, users: Seq<i64>) -> Seq<AssocRecord> {
    s.filter(|a: AssocRecord| users.contains(a.id2))
}

/// The first edges of type `t` out of `u` that end at one of `users`.
pub open spec fn user_edges(rows: Seq<TaoAssociation>, u: i64, t: AssociationType, users: Seq<i64>) -> Seq<AssocRecord> {
    edges_among(answer(listing_of(rows, u, t), first_edges(u, t, Some(GRAPH_EDGE_LIMIT))), users)
}

/// For each of the first `k` users in turn, its friendship edges and then its
/// follow edges that stay among `users`.
pub open spec fn graph_edges(rows: Seq<TaoAssociation>, users: Seq<i64>, k: int) -> Seq<AssocRecord>
    decreases k,
{
    if k <= 0 || k > users.len() {
        Seq::<AssocRecord>::empty()
    } else {
        graph_edges(rows, users, k - 1) + user_edges(rows, users[k - 1], AssociationType::Friendship, users)
            + user_edges(rows, users[k - 1], AssociationType::Follow, users)
    }
}

fn contains_id(ids: &Vec<i64>, id: i64) -> (r: bool)
    ensures
        r == ids@.contains(id),
{
    let mut i: usize = 0;
    while i < ids.len()
        invariant
            i <= ids.len(),
            forall|j: int| 0 <= j < i ==> ids@[j] != id,
        decreases ids.len() - i,
    {
        if ids[i] == id {
            assert(ids@[i as int] == id);
            return true;
        }
        i = i + 1;
    }
    false
}

/// The edges of `items` that end at one of `users`, in order.
fn keep_among(items: &Vec<TaoAssociation>, users: &Vec<i64>, out: &mut Vec<TaoAssociation>)
    ensures
        records(final(out)@) == records(old(out)@) + edges_among(records(items@), users@),
{
    let ghost s = records(items@);
    let ghost start = records(out@);
    let ghost p = |a: AssocRecord| users@.contains(a.id2);
    let mut i: usize = 0;
    while i < items.len()
        invariant
            i <= items.len(),
            s == records(items@),
            p == (|a: AssocRecord| users@.contains(a.id2)),
            records(out@) == start + s.subrange(0, i as int).filter(p),
        decreases items.len() - i,
    {
        proof {
            reveal_with_fuel(Seq::filter, 1);
            assert(s.subrange(0, i + 1).drop_last() =~= s.subrange(0, i as int));
            assert(s[i as int] == items@[i as int]@);
        }
        if contains_id(users, items[i].id2) {
            let ghost before = out@;
            let c = items[i].clone();
            out.push(c);
            proof {
                let f = start + s.subrange(0, i as int).filter(p);
                assert(records(before).len() == before.len());
                assert(out@ == before.push(c));
                assert forall|j: int| 0 <= j < out@.len() implies #[trigger] records(out@)[j] == f.push(c@)[j] by {
                    if j < before.len() {
                        assert(records(before)[j] == f[j]);
                        assert(out@[j] == before[j]);
                    }
                }
                assert(records(out@) =~= f.push(c@));
                assert(f.push(c@) =~= start + s.subrange(0, i as int).filter(p).push(c@));
            }
        }
        i = i + 1;
    }
    assert(s.subrange(0, s.len() as int) =~= s);
}

impl TaoDatabase {
    /// The first `limit` users (100 when no limit is named; all of them for a
    /// negative limit), in id order, each read through the object cache.
    pub fn get_all_users(&mut self, limit: Option<i32>) -> (r: Vec<TaoObject>)
        requires
            old(self).wf(),
        ensures
            final(self).wf(),
            old(self).same_capacities(final(self)),
            final(self).objects() == old(self).objects(),
            final(self).assocs() == old(self).assocs(),
            object_records(r@) == objects_of_kind(
                old(self).objects(),
                first_n(
                    ids_of_type(old(self).durable().objects(), ObjectType::User),
                    match limit {
                        Some(l) => l,
                        None => DEFAULT_USER_LIMIT,
                    },
                ),
                ObjectType::User,
            ),
    {
        let n = match limit {
            Some(l) => l,
            None => DEFAULT_USER_LIMIT,
        };
        let mut ids = self.ids_of_type(ObjectType::User);
        if n >= 0 && (n as u64) < (ids.len() as u64) {
            ids.truncate(n as usize);
        }
        let ghost objs = old(self).objects();
        let ghost want = ids@;
        let mut users: Vec<TaoObject> = Vec::new();
        let mut i: usize = 0;
        while i < ids.len()
            invariant
                i <= ids.len(),
                want == ids@,
                self.wf(),
                old(self).same_capacities(self),
                self.objects() == objs,
                self.assocs() == old(self).assocs(),
                object_records(users@) == objects_of_kind(objs, want.subrange(0, i as int), ObjectType::User),
            decreases ids.len() - i,
        {
            let ghost before = users@;
            proof {
                assert(want.subrange(0, i + 1).drop_last() =~= want.subrange(0, i as int));
            }
            match self.get_user(ids[i]) {
                Some(u) => {
                    users.push(u);
                    proof {
                        assert(object_records(users@) =~= object_records(before).push(users@.last()@));
                    }
                },
                None => {},
            }
            i = i + 1;
        }
        assert(want.subrange(0, want.len() as int) =~= want);
        users
    }

    /// The friendship and follow edges among `users`: for each user in turn,
    /// its first friendship edges and then its first follow edges that end
    /// at one of `users`.
    pub fn social_graph_edges(&mut self, users: &Vec<i64>) -> (r: Vec<TaoAssociation>)
        requires
            old(self).wf(),
        ensures
            final(self).wf(),
            old(self).same_capacities(final(self)),
            final(self).objects() == old(self).objects(),
            final(self).assocs() == old(self).assocs(),
            records(r@) == graph_edges(old(self).assocs(), users@, users@.len() as int),
    {
        let ghost rows = old(self).assocs();
        let mut out: Vec<TaoAssociation> = Vec::new();
        let mut i: usize = 0;
        while i < users.len()
            invariant
                i <= users.len(),
                self.wf(),
                old(self).same_capacities(self),
                self.objects() == old(self).objects(),
                self.assocs() == rows,
                records(out@) == graph_edges(rows, users@, i as int),
            decreases users.len() - i,
        {
            let u = users[i];
            let fq = AssociationQuery {
                id1: u,
                id2: None,
                assoc_type: AssociationType::Friendship,
                start_time: None,
                end_time: None,
                limit: Some(GRAPH_EDGE_LIMIT),
                offset: None,
            };
            let friends = self.get_associations(&fq);
            keep_among(&friends, users, &mut out);
            let gq = AssociationQuery {
                id1: u,
                id2: None,
                assoc_type: AssociationType::Follow,
                start_time: None,
                end_time: None,
                limit: Some(GRAPH_EDGE_LIMIT),
                offset: None,
            };
            let follows = self.get_associations(&gq);
            keep_among(&follows, users, &mut out);
            proof {
                assert(records(out@) =~= graph_edges(rows, users@, i + 1));
            }
            i = i + 1;
        }
        out
    }
}

} // verus!
