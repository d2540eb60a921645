//! Relationship rules above the store: who may be linked to whom, which
//! duplicates are refused, and which objects an edge needs.
use vstd::prelude::*;

use crate::durable::{edge_pos, from_source, has_edge, has_triple};
use crate::model::{
    bytes_of, copy_bytes, records, AssocRecord, AssociationQuery, AssociationType, ObjectRecord, ObjectType,
    TaoAssociation, TaoError, TaoObject,
};
use crate::query::{answer, narrowed};
use crate::dto::{
    CreateFollowRequest, CreateFriendshipRequest, CreateLikeRequest, CreatePostRequest,
    CreateUserRequest, UpdateUserRequest, UserProfile, UserStats,
};
use crate::store::{count_of, edge_data, listing_of, unix_now, TaoDatabase};

verus! {

/// Whether the table holds an object of type `t` under `id`.
pub open spec fn is_kind(objects: Map<i64, ObjectRecord>, id: i64, t: ObjectType) -> bool {
    objects.contains_key(id) && objects[id].object_type == t
}

/// The objects of type `t` at the far end of the edges `s`, in order; ends
/// that are missing or of another type are skipped.
pub open spec fn targets_of_kind(objects: Map<i64, ObjectRecord>, s: Seq<AssocRecord>, t: ObjectType) -> Seq<ObjectRecord>
    decreases s.len(),
{
    if s.len() == 0 {
        Seq::<ObjectRecord>::empty()
    } else {
        let prev = targets_of_kind(objects, s.drop_last(), t);
        if is_kind(objects, s.last().id2, t) {
            prev.push(objects[s.last().id2])
        } else {
            prev
        }
    }
}

/// The values of a sequence of objects.
pub open spec fn object_records(s: Seq<TaoObject>) -> Seq<ObjectRecord> {
    s.map_values(|o: TaoObject| o@)
}

/// The query for the first `limit` edges of type `t` out of `id1`.
pub open spec fn first_edges(id1: i64, t: AssociationType, limit: Option<i32>) -> AssociationQuery {
    AssociationQuery { id1, id2: None, assoc_type: t, start_time: None, end_time: None, limit, offset: None }
}

/// Whether `viewer` may see what `user` links to: it is that user or a friend of it.
pub open spec fn may_view(rows: Seq<TaoAssociation>, viewer: i64, user: i64) -> bool {
    viewer == user || has_edge(rows, viewer, user, AssociationType::Friendship)
}

/// A field that is given and empty.
pub open spec fn blank(s: Option<String>) -> bool {
    s matches Some(v) && v@.len() == 0
}

/// The query that looks for the one edge `(id1, id2, t)`.
pub open spec fn edge_query(id1: i64, id2: i64, t: AssociationType) -> AssociationQuery {
    AssociationQuery {
        id1,
        id2: Some(id2),
        assoc_type: t,
        start_time: None,
        end_time: None,
        limit: Some(1),
        offset: None,
    }
}

/// The edge query finds something exactly when the edge exists.
pub proof fn lemma_edge_query(rows: Seq<TaoAssociation>, id1: i64, id2: i64, t: AssociationType)
    ensures
        answer(listing_of(rows, id1, t), edge_query(id1, id2, t)).len() > 0 <==> has_edge(rows, id1, id2, t),
{
    let q = edge_query(id1, id2, t);
    let fs = from_source(id1, t);
    let f = rows.filter(fs);
    let l = listing_of(rows, id1, t);
    let n = narrowed(q);
    let g = l.filter(n);
    assert(answer(l, q).len() > 0 <==> g.len() > 0);
    assert(l.len() == f.len());
    if has_edge(rows, id1, id2, t) {
        let e = edge_pos(rows, id1, id2, t);
        rows.lemma_filter_contains(fs, e);
        assert(f.contains(rows[e]));
        let j = choose|j: int| 0 <= j < f.len() && f[j] == rows[e];
        assert(l[j] == f[j]@);
        l.lemma_filter_contains(n, j);
        assert(g.contains(l[j]));
    }
    if g.len() > 0 {
        l.lemma_filter_pred(n, 0);
        let x = g[0];
        assert(g.contains(x));
        l.lemma_filter_contains_rev(n, x);
        let j = choose|j: int| 0 <= j < l.len() && l[j] == x;
        assert(l[j] == f[j]@);
        rows.lemma_filter_pred(fs, j);
        assert(f.contains(f[j]));
        rows.lemma_filter_contains_rev(fs, f[j]);
        let i = choose|i: int| 0 <= i < rows.len() && rows[i] == f[j];
        assert(has_triple(rows[i], id1, id2, t));
    }
}

/// `given` if it is there, else `kept`.
pub open spec fn given_or<T>(given: Option<T>, kept: T) -> T {
    match given {
        Some(v) => v,
        None => kept,
    }
}

/// `given` if it is there, else `kept`, for optional fields.
pub open spec fn given_or_kept<T>(given: Option<T>, kept: Option<T>) -> Option<T> {
    if given is Some {
        given
    } else {
        kept
    }
}

fn copy_text(s: &Option<String>) -> (r: Option<String>)
    ensures
        r == *s,
{
    match s {
        Some(v) => Some(v.clone()),
        None => None,
    }
}

/// Merges an update into a user record: each field the request gives
/// replaces the stored one. A username or email given as empty is a
/// validation error.
pub fn apply_user_update(user: UserProfile, req: &UpdateUserRequest) -> (r: Result<UserProfile, TaoError>)
    ensures
        (blank(req.username) || blank(req.email)) ==> r == Err::<UserProfile, TaoError>(TaoError::Validation),
        !blank(req.username) && !blank(req.email) ==> r == Ok::<UserProfile, TaoError>(
            UserProfile {
                username: given_or(req.username, user.username),
                email: given_or(req.email, user.email),
                full_name: given_or_kept(req.full_name, user.full_name),
                bio: given_or_kept(req.bio, user.bio),
                location: given_or_kept(req.location, user.location),
                ..user
            },
        ),
{
    let mut user = user;
    match &req.username {
        Some(n) => {
            if n.as_str().is_empty() {
                return Err(TaoError::Validation);
            }
            user.username = n.clone();
        },
        None => {},
    }
    match &req.email {
        Some(e) => {
            if e.as_str().is_empty() {
                return Err(TaoError::Validation);
            }
            user.email = e.clone();
        },
        None => {},
    }
    if req.full_name.is_some() {
        user.full_name = copy_text(&req.full_name);
    }
    if req.bio.is_some() {
        user.bio = copy_text(&req.bio);
    }
    if req.location.is_some() {
        user.location = copy_text(&req.location);
    }
    Ok(user)
}

impl TaoDatabase {
    /// What `get_user` and `get_post` do: they return the object under `id`
    /// when it has type `t`.
    pub open spec fn kind_read(&self, after: &Self, id: i64, t: ObjectType, r: Option<TaoObject>) -> bool {
        &&& self.kept_tables(after)
        &&& match r {
            Some(o) => is_kind(self.objects(), id, t) && o@ == self.objects()[id],
            None => !is_kind(self.objects(), id, t),
        }
    }

    fn get_kind(&mut self, id: i64, t: ObjectType) -> (r: Option<TaoObject>)
        requires
            old(self).wf(),
        ensures
            old(self).kind_read(final(self), id, t, r),
    {
        match self.get_object(id) {
            Some(o) => {
                if o.object_type == t {
                    Some(o)
                } else {
                    None
                }
            },
            None => None,
        }
    }

    /// The user under `id`, if there is one.
    pub fn get_user(&mut self, id: i64) -> (r: Option<TaoObject>)
        requires
            old(self).wf(),
        ensures
            old(self).kind_read(final(self), id, ObjectType::User, r),
    {
        self.get_kind(id, ObjectType::User)
    }

    /// The post under `id`, if there is one.
    pub fn get_post(&mut self, id: i64) -> (r: Option<TaoObject>)
        requires
            old(self).wf(),
        ensures
            old(self).kind_read(final(self), id, ObjectType::Post, r),
    {
        self.get_kind(id, ObjectType::Post)
    }

    /// Whether the edge `(id1, id2, t)` exists, asked through a listing query.
    pub fn has_relationship(&mut self, id1: i64, id2: i64, t: AssociationType) -> (r: bool)
        requires
            old(self).wf(),
        ensures
            old(self).kept_tables(final(self)),
            r == has_edge(old(self).assocs(), id1, id2, t),
    {
        let q = AssociationQuery {
            id1,
            id2: Some(id2),
            assoc_type: t,
            start_time: None,
            end_time: None,
            limit: Some(1),
            offset: None,
        };
        let found = self.get_associations(&q);
        proof {
            lemma_edge_query(old(self).assocs(), id1, id2, t);
            assert(crate::model::records(found@).len() == found@.len());
        }
        found.len() > 0
    }

    /// Whether `a` and `b` are friends (the edge from `a` to `b`).
    pub fn are_friends(&mut self, a: i64, b: i64) -> (r: bool)
        requires
            old(self).wf(),
        ensures
            old(self).kept_tables(final(self)),
            r == has_edge(old(self).assocs(), a, b, AssociationType::Friendship),
    {
        self.has_relationship(a, b, AssociationType::Friendship)
    }

    /// Whether `follower` follows `followee`.
    pub fn is_following(&mut self, follower: i64, followee: i64) -> (r: bool)
        requires
            old(self).wf(),
        ensures
            old(self).kept_tables(final(self)),
            r == has_edge(old(self).assocs(), follower, followee, AssociationType::Follow),
    {
        self.has_relationship(follower, followee, AssociationType::Follow)
    }

    /// What linking user `a` to user `b` with an edge of type `t` does (both
    /// ways when `mutual`): a missing user is `NotFound`, an existing edge
    /// from `a` to `b` is `Conflict`, running out of ids is `Storage`;
    /// otherwise the edges exist afterwards with payload `data`.
    pub open spec fn users_linked(
        &self,
        after: &Self,
        a: i64,
        b: i64,
        t: AssociationType,
        mutual: bool,
        data: Seq<u8>,
        r: Result<(), TaoError>,
    ) -> bool {
        let objs = self.objects();
        let writes: int = if mutual {
            2
        } else {
            1
        };
        &&& after.wf()
        &&& self.same_capacities(after)
        &&& after.objects() == objs
        &&& r == if !is_kind(objs, a, ObjectType::User) {
            Err(TaoError::NotFound(a))
        } else if !is_kind(objs, b, ObjectType::User) {
            Err(TaoError::NotFound(b))
        } else if has_edge(self.assocs(), a, b, t) {
            Err(TaoError::Conflict)
        } else if self.durable().next_assoc_id() > i64::MAX - writes {
            Err(TaoError::Storage)
        } else {
            Ok(())
        }
        &&& (r is Err && r != Err::<(), TaoError>(TaoError::Storage)) ==> after.assocs() == self.assocs()
        &&& r is Ok ==> has_edge(after.assocs(), a, b, t) && edge_data(after.assocs(), a, b, t) == Some(data)
        &&& (r is Ok && mutual) ==> has_edge(after.assocs(), b, a, t) && edge_data(after.assocs(), b, a, t)
            == Some(data)
        &&& (r is Ok && !mutual) ==> exists|mid: TaoDatabase, now: i64, x: TaoAssociation|
            self.kept_tables(&mid) && #[trigger] mid.association_created(
                after,
                a,
                b,
                t,
                Some(data),
                Some(now),
                None,
                now,
                Ok(x),
            )
        &&& (r is Ok && mutual) ==> exists|mid: TaoDatabase, mid2: TaoDatabase, now: i64, x: TaoAssociation, y: TaoAssociation|
            self.kept_tables(&mid) && #[trigger] mid.association_created(
                &mid2,
                a,
                b,
                t,
                Some(data),
                Some(now),
                None,
                now,
                Ok(x),
            ) && #[trigger] mid2.association_created(after, b, a, t, Some(data), Some(now), None, now, Ok(y))
        &&& (r == Err::<(), TaoError>(TaoError::Storage) && self.durable().next_assoc_id() == i64::MAX) ==> exists|
            mid: TaoDatabase,
            now: i64,
        |
            self.kept_tables(&mid) && #[trigger] mid.association_created(
                after,
                a,
                b,
                t,
                Some(data),
                Some(now),
                None,
                now,
                Err(TaoError::Storage),
            )
        &&& (r == Err::<(), TaoError>(TaoError::Storage) && self.durable().next_assoc_id() < i64::MAX) ==> exists|
            mid: TaoDatabase,
            mid2: TaoDatabase,
            now: i64,
            x: TaoAssociation,
        |
            self.kept_tables(&mid) && #[trigger] mid.association_created(
                &mid2,
                a,
                b,
                t,
                Some(data),
                Some(now),
                None,
                now,
                Ok(x),
            ) && #[trigger] mid2.association_created(
                after,
                b,
                a,
                t,
                Some(data),
                Some(now),
                None,
                now,
                Err(TaoError::Storage),
            )
    }

    fn link_users(&mut self, a: i64, b: i64, t: AssociationType, mutual: bool, data: &Vec<u8>) -> (r: Result<(), TaoError>)
        requires
            old(self).wf(),
        ensures
            old(self).users_linked(final(self), a, b, t, mutual, data@, r),
    {
        if self.get_user(a).is_none() {
            return Err(TaoError::NotFound(a));
        }
        if self.get_user(b).is_none() {
            return Err(TaoError::NotFound(b));
        }
        if self.has_relationship(a, b, t) {
            return Err(TaoError::Conflict);
        }
        let now = unix_now();
        let payload = Some(copy_bytes(data));
        let ghost s1 = *self;
        assert(old(self).kept_tables(&s1));
        assert(bytes_of(payload) == Some(data@));
        let first = self.create_association_at(a, b, t, &payload, Some(now), None, now);
        let ghost s2 = *self;
        match first {
            Err(e) => {
                assert(s1.association_created(self, a, b, t, Some(data@), Some(now), None, now, Err(TaoError::Storage)));
                return Err(e);
            },
            Ok(x) => {
                proof {
                    assert(s1.association_created(&s2, a, b, t, Some(data@), Some(now), None, now, Ok(x)));
                    s1.lemma_created_edge(&s2, a, b, t, Some(data@), Some(now), None, now, x);
                }
            },
        }
        if mutual {
            let second = self.create_association_at(b, a, t, &payload, Some(now), None, now);
            match second {
                Err(e) => {
                    assert(s2.association_created(self, b, a, t, Some(data@), Some(now), None, now, Err(TaoError::Storage)));
                    return Err(e);
                },
                Ok(y) => {
                    proof {
                        assert(s2.association_created(self, b, a, t, Some(data@), Some(now), None, now, Ok(y)));
                        s2.lemma_created_edge(self, b, a, t, Some(data@), Some(now), None, now, y);
                        if a != b {
                            s2.lemma_edge_survives(self, b, a, t, Some(data@), Some(now), None, now, y, a, b, t);
                        }
                    }
                },
            }
        }
        Ok(())
    }

    /// Makes `user1_id` and `user2_id` friends: two edges, one each way,
    /// written one after the other and carrying the same payload.
    pub fn create_friendship(&mut self, req: &CreateFriendshipRequest, data: &Vec<u8>) -> (r: Result<(), TaoError>)
        requires
            old(self).wf(),
        ensures
            old(self).users_linked(final(self), req.user1_id, req.user2_id, AssociationType::Friendship, true, data@, r),
    {
        self.link_users(req.user1_id, req.user2_id, AssociationType::Friendship, true, data)
    }

    /// Makes `follower_id` follow `followee_id`: one edge.
    pub fn create_follow(&mut self, req: &CreateFollowRequest, data: &Vec<u8>) -> (r: Result<(), TaoError>)
        requires
            old(self).wf(),
        ensures
            old(self).users_linked(final(self), req.follower_id, req.followee_id, AssociationType::Follow, false, data@, r),
    {
        self.link_users(req.follower_id, req.followee_id, AssociationType::Follow, false, data)
    }

    /// Records that `user_id` likes the post `target_id`: one edge, replacing
    /// an earlier like of the same post. A missing user or post is `NotFound`.
    pub fn create_like(&mut self, req: &CreateLikeRequest, data: &Vec<u8>) -> (r: Result<(), TaoError>)
        requires
            old(self).wf(),
        ensures
            final(self).wf(),
            old(self).same_capacities(final(self)),
            final(self).objects() == old(self).objects(),
            r == if !is_kind(old(self).objects(), req.user_id, ObjectType::User) {
                Err(TaoError::NotFound(req.user_id))
            } else if !is_kind(old(self).objects(), req.target_id, ObjectType::Post) {
                Err(TaoError::NotFound(req.target_id))
            } else if old(self).durable().next_assoc_id() == i64::MAX {
                Err(TaoError::Storage)
            } else {
                Ok(())
            },
            r is Err ==> final(self).assocs() == old(self).assocs(),
            r is Ok ==> has_edge(final(self).assocs(), req.user_id, req.target_id, AssociationType::Like)
                && edge_data(final(self).assocs(), req.user_id, req.target_id, AssociationType::Like)
                == Some(data@),
            (r is Ok || r == Err::<(), TaoError>(TaoError::Storage)) ==> exists|
                mid: TaoDatabase,
                now: i64,
                w: Result<TaoAssociation, TaoError>,
            |
                old(self).kept_tables(&mid) && #[trigger] mid.association_created(
                    final(self),
                    req.user_id,
                    req.target_id,
                    AssociationType::Like,
                    Some(data@),
                    Some(now),
                    None,
                    now,
                    w,
                ) && (w is Ok <==> r is Ok),
    {
        if self.get_user(req.user_id).is_none() {
            return Err(TaoError::NotFound(req.user_id));
        }
        if self.get_post(req.target_id).is_none() {
            return Err(TaoError::NotFound(req.target_id));
        }
        let now = unix_now();
        let payload = Some(copy_bytes(data));
        let ghost s1 = *self;
        assert(old(self).kept_tables(&s1));
        assert(bytes_of(payload) == Some(data@));
        let w = self.create_association_at(req.user_id, req.target_id, AssociationType::Like, &payload, Some(now), None, now);
        assert(s1.association_created(self, req.user_id, req.target_id, AssociationType::Like, Some(data@), Some(now), None, now, w));
        match w {
            Err(e) => Err(e),
            Ok(x) => {
                proof {
                    s1.lemma_created_edge(self, req.user_id, req.target_id, AssociationType::Like, Some(data@), Some(now), None, now, x);
                }
                Ok(())
            },
        }
    }

    /// Creates a user from its encoded record `data`; an empty username or
    /// email is a validation error.
    pub fn create_user(&mut self, req: &CreateUserRequest, data: &Vec<u8>) -> (r: Result<TaoObject, TaoError>)
        requires
            old(self).wf(),
        ensures
            (req.username@.len() == 0 || req.email@.len() == 0) ==> r == Err::<TaoObject, TaoError>(TaoError::Validation)
                && old(self).kept_tables(final(self)),
            (req.username@.len() > 0 && req.email@.len() > 0) ==> exists|now: i64|
                old(self).object_created(final(self), ObjectType::User, data@, now, r),
    {
        if req.username.as_str().is_empty() || req.email.as_str().is_empty() {
            return Err(TaoError::Validation);
        }
        let now = unix_now();
        self.create_object_at(ObjectType::User, data, now)
    }

    /// Replaces the encoded record of user `user_id`. A missing user is
    /// `NotFound`; a username or email given as empty is a validation error.
    pub fn update_user(&mut self, user_id: i64, req: &UpdateUserRequest, data: &Vec<u8>) -> (r: Result<(), TaoError>)
        requires
            old(self).wf(),
        ensures
            !is_kind(old(self).objects(), user_id, ObjectType::User) ==> r == Err::<(), TaoError>(TaoError::NotFound(user_id))
                && old(self).kept_tables(final(self)),
            is_kind(old(self).objects(), user_id, ObjectType::User) && (blank(req.username) || blank(req.email))
                ==> r == Err::<(), TaoError>(TaoError::Validation) && old(self).kept_tables(final(self)),
            is_kind(old(self).objects(), user_id, ObjectType::User) && !blank(req.username) && !blank(req.email)
                ==> r is Ok && exists|mid: TaoDatabase, now: i64|
                old(self).kept_tables(&mid) && #[trigger] mid.object_updated(final(self), user_id, data@, now, r),
    {
        if self.get_user(user_id).is_none() {
            return Err(TaoError::NotFound(user_id));
        }
        let bad_name = match &req.username {
            Some(n) => n.as_str().is_empty(),
            None => false,
        };
        let bad_email = match &req.email {
            Some(e) => e.as_str().is_empty(),
            None => false,
        };
        if bad_name || bad_email {
            return Err(TaoError::Validation);
        }
        let now = unix_now();
        let ghost mid = *self;
        let r = self.update_object_at(user_id, data, now);
        assert(old(self).kept_tables(&mid) && mid.object_updated(self, user_id, data@, now, r));
        r
    }

    fn delete_kind(&mut self, id: i64, t: ObjectType) -> (r: Result<(), TaoError>)
        requires
            old(self).wf(),
        ensures
            !is_kind(old(self).objects(), id, t) ==> r == Err::<(), TaoError>(TaoError::NotFound(id))
                && old(self).kept_tables(final(self)),
            is_kind(old(self).objects(), id, t) ==> r is Ok && exists|mid: TaoDatabase|
                old(self).kept_tables(&mid) && #[trigger] mid.object_deleted(final(self), id),
    {
        if self.get_kind(id, t).is_none() {
            return Err(TaoError::NotFound(id));
        }
        let ghost mid = *self;
        self.delete_object(id);
        assert(old(self).kept_tables(&mid) && mid.object_deleted(self, id));
        Ok(())
    }

    /// Deletes user `id` and its edges; a missing user is `NotFound`.
    pub fn delete_user(&mut self, id: i64) -> (r: Result<(), TaoError>)
        requires
            old(self).wf(),
        ensures
            !is_kind(old(self).objects(), id, ObjectType::User) ==> r == Err::<(), TaoError>(TaoError::NotFound(id))
                && old(self).kept_tables(final(self)),
            is_kind(old(self).objects(), id, ObjectType::User) ==> r is Ok && exists|mid: TaoDatabase|
                old(self).kept_tables(&mid) && #[trigger] mid.object_deleted(final(self), id),
    {
        self.delete_kind(id, ObjectType::User)
    }

    /// Deletes post `id` and its edges; a missing post is `NotFound`.
    pub fn delete_post(&mut self, id: i64) -> (r: Result<(), TaoError>)
        requires
            old(self).wf(),
        ensures
            !is_kind(old(self).objects(), id, ObjectType::Post) ==> r == Err::<(), TaoError>(TaoError::NotFound(id))
                && old(self).kept_tables(final(self)),
            is_kind(old(self).objects(), id, ObjectType::Post) ==> r is Ok && exists|mid: TaoDatabase|
                old(self).kept_tables(&mid) && #[trigger] mid.object_deleted(final(self), id),
    {
        self.delete_kind(id, ObjectType::Post)
    }

    /// Creates a post by `author_id` from its encoded record `data`, then the
    /// authorship edge from the author to the post, carrying the encoded
    /// authorship record `author_data`. Empty content is a validation error
    /// and a missing author is `NotFound`. The two writes are separate: when
    /// ids run out between them the post stays without its edge.
    pub fn create_post(&mut self, req: &CreatePostRequest, data: &Vec<u8>, author_data: &Vec<u8>) -> (r: Result<TaoObject, TaoError>)
        requires
            old(self).wf(),
        ensures
            final(self).wf(),
            old(self).same_capacities(final(self)),
            req.content@.len() == 0 ==> r == Err::<TaoObject, TaoError>(TaoError::Validation)
                && old(self).kept_tables(final(self)),
            req.content@.len() > 0 && !is_kind(old(self).objects(), req.author_id, ObjectType::User)
                ==> r == Err::<TaoObject, TaoError>(TaoError::NotFound(req.author_id)) && old(self).kept_tables(final(self)),
            req.content@.len() > 0 && is_kind(old(self).objects(), req.author_id, ObjectType::User) ==> {
                &&& old(self).durable().next_object_id() < i64::MAX && old(self).durable().next_assoc_id() < i64::MAX
                    <==> r is Ok
                &&& r is Err ==> r == Err::<TaoObject, TaoError>(TaoError::Storage)
            },
            r matches Ok(o) ==> {
                &&& o@.object_type == ObjectType::Post
                &&& o@.data == data@
                &&& !old(self).objects().contains_key(o.id)
                &&& final(self).objects() == old(self).objects().insert(o.id, o@)
                &&& has_edge(final(self).assocs(), req.author_id, o.id, AssociationType::PostAuthor)
                &&& edge_data(final(self).assocs(), req.author_id, o.id, AssociationType::PostAuthor) == Some(author_data@)
            },
            req.content@.len() > 0 && is_kind(old(self).objects(), req.author_id, ObjectType::User)
                && old(self).durable().next_object_id() == i64::MAX ==> exists|mid: TaoDatabase, now: i64|
                old(self).kept_tables(&mid) && #[trigger] mid.object_created(
                    final(self),
                    ObjectType::Post,
                    data@,
                    now,
                    Err(TaoError::Storage),
                ),
            req.content@.len() > 0 && is_kind(old(self).objects(), req.author_id, ObjectType::User)
                && old(self).durable().next_object_id() < i64::MAX ==> exists|
                mid: TaoDatabase,
                mid2: TaoDatabase,
                now: i64,
                o: TaoObject,
                w: Result<TaoAssociation, TaoError>,
            |
                old(self).kept_tables(&mid) && #[trigger] mid.object_created(&mid2, ObjectType::Post, data@, now, Ok(o))
                    && #[trigger] mid2.association_created(
                    final(self),
                    req.author_id,
                    o.id,
                    AssociationType::PostAuthor,
                    Some(author_data@),
                    Some(now),
                    None,
                    now,
                    w,
                ) && r == match w {
                    Ok(_) => Ok::<TaoObject, TaoError>(o),
                    Err(e) => Err(e),
                },
    {
        if req.content.as_str().is_empty() {
            return Err(TaoError::Validation);
        }
        if self.get_user(req.author_id).is_none() {
            return Err(TaoError::NotFound(req.author_id));
        }
        let now = unix_now();
        let ghost s0 = *self;
        assert(old(self).kept_tables(&s0));
        let created = self.create_object_at(ObjectType::Post, data, now);
        let post = match created {
            Ok(o) => o,
            Err(e) => {
                assert(s0.object_created(self, ObjectType::Post, data@, now, Err(TaoError::Storage)));
                return Err(e);
            },
        };
        let ghost s1 = *self;
        assert(s0.object_created(&s1, ObjectType::Post, data@, now, Ok(post)));
        let payload = Some(copy_bytes(author_data));
        assert(bytes_of(payload) == Some(author_data@));
        let w = self.create_association_at(req.author_id, post.id, AssociationType::PostAuthor, &payload, Some(now), None, now);
        assert(s1.association_created(self, req.author_id, post.id, AssociationType::PostAuthor, Some(author_data@), Some(now), None, now, w));
        match w {
            Ok(x) => {
                proof {
                    s1.lemma_created_edge(self, req.author_id, post.id, AssociationType::PostAuthor, Some(author_data@), Some(now), None, now, x);
                }
                Ok(post)
            },
            Err(e) => Err(e),
        }
    }

    /// Counts the friends, follows and posts of user `user_id`; a missing
    /// user is `NotFound`. Followers are not counted: the count stays zero.
    pub fn get_user_stats(&mut self, user_id: i64) -> (r: Result<UserStats, TaoError>)
        requires
            old(self).wf(),
        ensures
            old(self).kept_tables(final(self)),
            !is_kind(old(self).objects(), user_id, ObjectType::User) ==> r == Err::<UserStats, TaoError>(
                TaoError::NotFound(user_id),
            ),
            is_kind(old(self).objects(), user_id, ObjectType::User) ==> r == Ok::<UserStats, TaoError>(
                UserStats {
                    user_id,
                    friend_count: count_of(old(self).assocs(), user_id, AssociationType::Friendship) as i64,
                    follower_count: 0,
                    following_count: count_of(old(self).assocs(), user_id, AssociationType::Follow) as i64,
                    post_count: count_of(old(self).assocs(), user_id, AssociationType::PostAuthor) as i64,
                },
            ),
    {
        if self.get_user(user_id).is_none() {
            return Err(TaoError::NotFound(user_id));
        }
        let friend_count = self.get_association_count(user_id, AssociationType::Friendship);
        let following_count = self.get_association_count(user_id, AssociationType::Follow);
        let post_count = self.get_association_count(user_id, AssociationType::PostAuthor);
        Ok(UserStats { user_id, friend_count, follower_count: 0, following_count, post_count })
    }

    /// The objects of type `kind` that the first `limit` edges of type `t`
    /// out of `id1` lead to.
    fn targets(&mut self, id1: i64, t: AssociationType, limit: Option<i32>, kind: ObjectType) -> (r: Vec<TaoObject>)
        requires
            old(self).wf(),
        ensures
            old(self).kept_tables(final(self)),
            object_records(r@) == targets_of_kind(
                old(self).objects(),
                answer(old(self).listing(id1, t), first_edges(id1, t, limit)),
                kind,
            ),
    {
        let q = AssociationQuery { id1, id2: None, assoc_type: t, start_time: None, end_time: None, limit, offset: None };
        let edges = self.get_associations(&q);
        let ghost objs = old(self).objects();
        let ghost l = records(edges@);
        let mut out: Vec<TaoObject> = Vec::new();
        let mut i: usize = 0;
        while i < edges.len()
            invariant
                i <= edges.len(),
                l == records(edges@),
                self.wf(),
                old(self).kept_tables(self),
                objs == old(self).objects(),
                object_records(out@) == targets_of_kind(objs, l.subrange(0, i as int), kind),
            decreases edges.len() - i,
        {
            let target = edges[i].id2;
            let ghost before = out@;
            proof {
                assert(l.subrange(0, i + 1).drop_last() =~= l.subrange(0, i as int));
                assert(l.subrange(0, i + 1).last() == edges@[i as int]@);
            }
            match self.get_kind(target, kind) {
                Some(o) => {
                    out.push(o);
                    proof {
                        assert(object_records(out@) =~= object_records(before).push(out@.last()@));
                    }
                },
                None => {},
            }
            i = i + 1;
        }
        assert(l.subrange(0, l.len() as int) =~= l);
        out
    }

    /// The friends of `user_id` among its first `limit` friendship edges, as
    /// `viewer_id` may see them: only the user itself and its friends may
    /// look, anyone else gets a validation error.
    pub fn get_friends(&mut self, viewer_id: i64, user_id: i64, limit: Option<i32>) -> (r: Result<Vec<TaoObject>, TaoError>)
        requires
            old(self).wf(),
        ensures
            old(self).kept_tables(final(self)),
            match r {
                Ok(v) => may_view(old(self).assocs(), viewer_id, user_id) && object_records(v@) == targets_of_kind(
                    old(self).objects(),
                    answer(
                        old(self).listing(user_id, AssociationType::Friendship),
                        first_edges(user_id, AssociationType::Friendship, limit),
                    ),
                    ObjectType::User,
                ),
                Err(e) => e == TaoError::Validation && !may_view(old(self).assocs(), viewer_id, user_id),
            },
    {
        if viewer_id != user_id && !self.are_friends(viewer_id, user_id) {
            return Err(TaoError::Validation);
        }
        Ok(self.targets(user_id, AssociationType::Friendship, limit, ObjectType::User))
    }

    /// The posts of `user_id` among its first `limit` authorship edges, as
    /// `viewer_id` may see them: only the user itself and its friends may
    /// look, anyone else gets a validation error.
    pub fn get_posts_by_user(&mut self, viewer_id: i64, user_id: i64, limit: Option<i32>) -> (r: Result<Vec<TaoObject>, TaoError>)
        requires
            old(self).wf(),
        ensures
            old(self).kept_tables(final(self)),
            match r {
                Ok(v) => may_view(old(self).assocs(), viewer_id, user_id) && object_records(v@) == targets_of_kind(
                    old(self).objects(),
                    answer(
                        old(self).listing(user_id, AssociationType::PostAuthor),
                        first_edges(user_id, AssociationType::PostAuthor, limit),
                    ),
                    ObjectType::Post,
                ),
                Err(e) => e == TaoError::Validation && !may_view(old(self).assocs(), viewer_id, user_id),
            },
    {
        if viewer_id != user_id && !self.are_friends(viewer_id, user_id) {
            return Err(TaoError::Validation);
        }
        Ok(self.targets(user_id, AssociationType::PostAuthor, limit, ObjectType::Post))
    }
}

} // verus!
