//! Records of the store: typed objects, typed associations, queries and errors.
use vstd::prelude::*;

use crate::cache::CacheKey;

verus! {

/// The kinds of object the store holds.
#[derive(Debug, Clone, Copy, PartialEq, Eq, Structural)]
pub enum ObjectType {
    User,
    Post,
    Comment,
    Group,
    Page,
}

/// The kinds of directed edge between two objects.
#[derive(Debug, Clone, Copy, PartialEq, Eq, Structural)]
pub enum AssociationType {
    Friendship,
    Follow,
    Like,
    Membership,
    PostAuthor,
    CommentAuthor,
}

/// What can go wrong in the store and in the rules above it.
#[derive(Debug, Clone, Copy, PartialEq, Eq, Structural)]
pub enum TaoError {
    /// An object that the operation needs does not exist (its id).
    NotFound(i64),
    /// A required field is empty or a name is unknown.
    Validation,
    /// The relationship to be created exists already.
    Conflict,
    /// A payload could not be encoded or decoded.
    Codec,
    /// The backing store could not carry out the write.
    Storage,
}

/// Whether `a` and `b` hold the same characters.
pub fn str_equal(a: &str, b: &str) -> (r: bool)
    ensures
        r == (a@ == b@),
{
    let n = a.unicode_len();
    if n != b.unicode_len() {
        return false;
    }
    let mut i: usize = 0;
    while i < n
        invariant
            n == a@.len(),
            n == b@.len(),
            i <= n,
            forall|j: int| 0 <= j < i ==> a@[j] == b@[j],
        decreases n - i,
    {
        if a.get_char(i) != b.get_char(i) {
            return false;
        }
        i = i + 1;
    }
    assert(a@ =~= b@);
    true
}

impl ObjectType {
    /// The name under which the type is stored.
    pub open spec fn name(self) -> Seq<char> {
        match self {
            ObjectType::User => "user"@,
            ObjectType::Post => "post"@,
            ObjectType::Comment => "comment"@,
            ObjectType::Group => "group"@,
            ObjectType::Page => "page"@,
        }
    }

    /// Different types have different names.
    pub proof fn lemma_name_injective(a: ObjectType, b: ObjectType)
        ensures
            a.name() == b.name() ==> a == b,
    {
        reveal_strlit("user");
        reveal_strlit("post");
        reveal_strlit("comment");
        reveal_strlit("group");
        reveal_strlit("page");
        if a != b {
            assert(a.name() != b.name()) by {
                let (x, y) = (a.name(), b.name());
                if x.len() == y.len() {
                    assert(x[0] != y[0] || x[1] != y[1]);
                }
            }
        }
    }

    pub fn as_str(&self) -> (r: &'static str)
        ensures
            r@ == self.name(),
    {
        match self {
            ObjectType::User => "user",
            ObjectType::Post => "post",
            ObjectType::Comment => "comment",
            ObjectType::Group => "group",
            ObjectType::Page => "page",
        }
    }

    /// The type stored under `name`; an unknown name is a validation error.
    pub fn from_name(name: &str) -> (r: Result<ObjectType, TaoError>)
        ensures
            forall|t: ObjectType| t.name() == name@ ==> r == Ok::<ObjectType, TaoError>(t),
            match r {
                Ok(t) => t.name() == name@,
                Err(e) => e == TaoError::Validation && forall|t: ObjectType| t.name() != name@,
            },
    {
        let all = [ObjectType::User, ObjectType::Post, ObjectType::Comment, ObjectType::Group, ObjectType::Page];
        let mut i: usize = 0;
        while i < 5
            invariant
                all@ == seq![ObjectType::User, ObjectType::Post, ObjectType::Comment, ObjectType::Group, ObjectType::Page],
                i <= 5,
                forall|j: int| 0 <= j < i ==> all@[j].name() != name@,
            decreases 5 - i,
        {
            let t = all[i];
            if str_equal(t.as_str(), name) {
                proof {
                    assert forall|u: Self| u.name() == name@ implies u == t by {
                        Self::lemma_name_injective(u, t);
                    }
                }
                return Ok(t);
            }
            i = i + 1;
        }
        assert forall|t: ObjectType| t.name() != name@ by {
            match t {
                ObjectType::User => assert(all@[0] == t),
                ObjectType::Post => assert(all@[1] == t),
                ObjectType::Comment => assert(all@[2] == t),
                ObjectType::Group => assert(all@[3] == t),
                ObjectType::Page => assert(all@[4] == t),
            }
        }
        Err(TaoError::Validation)
    }
}

impl AssociationType {
    /// The name under which the type is stored.
    pub open spec fn name(self) -> Seq<char> {
        match self {
            AssociationType::Friendship => "friendship"@,
            AssociationType::Follow => "follow"@,
            AssociationType::Like => "like"@,
            AssociationType::Membership => "membership"@,
            AssociationType::PostAuthor => "post_author"@,
            AssociationType::CommentAuthor => "comment_author"@,
        }
    }

    /// Different types have different names.
    pub proof fn lemma_name_injective(a: AssociationType, b: AssociationType)
        ensures
            a.name() == b.name() ==> a == b,
    {
        reveal_strlit("friendship");
        reveal_strlit("follow");
        reveal_strlit("like");
        reveal_strlit("membership");
        reveal_strlit("post_author");
        reveal_strlit("comment_author");
        if a != b {
            assert(a.name() != b.name()) by {
                let (x, y) = (a.name(), b.name());
                if x.len() == y.len() {
                    assert(x[0] != y[0] || x[1] != y[1] || x[2] != y[2]);
                }
            }
        }
    }

    pub fn as_str(&self) -> (r: &'static str)
        ensures
            r@ == self.name(),
    {
        match self {
            AssociationType::Friendship => "friendship",
            AssociationType::Follow => "follow",
            AssociationType::Like => "like",
            AssociationType::Membership => "membership",
            AssociationType::PostAuthor => "post_author",
            AssociationType::CommentAuthor => "comment_author",
        }
    }

    /// The type stored under `name`; an unknown name is a validation error.
    pub fn from_name(name: &str) -> (r: Result<AssociationType, TaoError>)
        ensures
            forall|t: AssociationType| t.name() == name@ ==> r == Ok::<AssociationType, TaoError>(t),
            match r {
                Ok(t) => t.name() == name@,
                Err(e) => e == TaoError::Validation && forall|t: AssociationType| t.name() != name@,
            },
    {
        let all = [
            AssociationType::Friendship,
            AssociationType::Follow,
            AssociationType::Like,
            AssociationType::Membership,
            AssociationType::PostAuthor,
            AssociationType::CommentAuthor,
        ];
        let mut i: usize = 0;
        while i < 6
            invariant
                all@ == seq![
                    AssociationType::Friendship,
                    AssociationType::Follow,
                    AssociationType::Like,
                    AssociationType::Membership,
                    AssociationType::PostAuthor,
                    AssociationType::CommentAuthor,
                ],
                i <= 6,
                forall|j: int| 0 <= j < i ==> all@[j].name() != name@,
            decreases 6 - i,
        {
            let t = all[i];
            if str_equal(t.as_str(), name) {
                proof {
                    assert forall|u: Self| u.name() == name@ implies u == t by {
                        Self::lemma_name_injective(u, t);
                    }
                }
                return Ok(t);
            }
            i = i + 1;
        }
        assert forall|t: AssociationType| t.name() != name@ by {
            match t {
                AssociationType::Friendship => assert(all@[0] == t),
                AssociationType::Follow => assert(all@[1] == t),
                AssociationType::Like => assert(all@[2] == t),
                AssociationType::Membership => assert(all@[3] == t),
                AssociationType::PostAuthor => assert(all@[4] == t),
                AssociationType::CommentAuthor => assert(all@[5] == t),
            }
        }
        Err(TaoError::Validation)
    }
}

/// An object as the store holds it.
pub struct TaoObject {
    pub id: i64,
    pub object_type: ObjectType,
    pub data: Vec<u8>,
    pub created_time: i64,
    pub updated_time: i64,
}

/// The value of a [`TaoObject`], with its payload as a sequence of bytes.
pub struct ObjectRecord {
    pub id: i64,
    pub object_type: ObjectType,
    pub data: Seq<u8>,
    pub created_time: i64,
    pub updated_time: i64,
}

impl View for TaoObject {
    type V = ObjectRecord;

    open spec fn view(&self) -> ObjectRecord {
        ObjectRecord {
            id: self.id,
            object_type: self.object_type,
            data: self.data@,
            created_time: self.created_time,
            updated_time: self.updated_time,
        }
    }
}

/// A copy of `v` with the same bytes.
pub fn copy_bytes(v: &Vec<u8>) -> (r: Vec<u8>)
    ensures
        r@ == v@,
{
    let mut r: Vec<u8> = Vec::new();
    let mut i: usize = 0;
    while i < v.len()
        invariant
            i <= v.len(),
            r@ == v@.subrange(0, i as int),
        decreases v.len() - i,
    {
        r.push(v[i]);
        i = i + 1;
    }
    assert(r@ =~= v@);
    r
}

impl Clone for TaoObject {
    fn clone(&self) -> (r: Self)
        ensures
            r@ == self@,
    {
        TaoObject {
            id: self.id,
            object_type: self.object_type,
            data: copy_bytes(&self.data),
            created_time: self.created_time,
            updated_time: self.updated_time,
        }
    }
}

/// A directed, typed edge from `id1` to `id2`; `(id1, id2, assoc_type)` is its natural key.
pub struct TaoAssociation {
    pub id: i64,
    pub id1: i64,
    pub id2: i64,
    pub assoc_type: AssociationType,
    pub data: Option<Vec<u8>>,
    pub created_time: i64,
    pub updated_time: i64,
    pub time1: Option<i64>,
    pub time2: Option<i64>,
}

/// The value of a [`TaoAssociation`], with its payload as a sequence of bytes.
pub struct AssocRecord {
    pub id: i64,
    pub id1: i64,
    pub id2: i64,
    pub assoc_type: AssociationType,
    pub data: Option<Seq<u8>>,
    pub created_time: i64,
    pub updated_time: i64,
    pub time1: Option<i64>,
    pub time2: Option<i64>,
}

pub open spec fn bytes_of(d: Option<Vec<u8>>) -> Option<Seq<u8>> {
    match d {
        Some(v) => Some(v@),
        None => None,
    }
}

impl View for TaoAssociation {
    type V = AssocRecord;

    open spec fn view(&self) -> AssocRecord {
        AssocRecord {
            id: self.id,
            id1: self.id1,
            id2: self.id2,
            assoc_type: self.assoc_type,
            data: bytes_of(self.data),
            created_time: self.created_time,
            updated_time: self.updated_time,
            time1: self.time1,
            time2: self.time2,
        }
    }
}

/// A copy of an optional payload.
pub fn copy_payload(d: &Option<Vec<u8>>) -> (r: Option<Vec<u8>>)
    ensures
        bytes_of(r) == bytes_of(*d),
{
    match d {
        Some(v) => Some(copy_bytes(v)),
        None => None,
    }
}

impl Clone for TaoAssociation {
    fn clone(&self) -> (r: Self)
        ensures
            r@ == self@,
    {
        TaoAssociation {
            id: self.id,
            id1: self.id1,
            id2: self.id2,
            assoc_type: self.assoc_type,
            data: copy_payload(&self.data),
            created_time: self.created_time,
            updated_time: self.updated_time,
            time1: self.time1,
            time2: self.time2,
        }
    }
}

/// The values of a sequence of associations.
pub open spec fn records(s: Seq<TaoAssociation>) -> Seq<AssocRecord> {
    s.map_values(|a: TaoAssociation| a@)
}

/// A copy of a list of associations.
pub fn copy_associations(v: &Vec<TaoAssociation>) -> (r: Vec<TaoAssociation>)
    ensures
        records(r@) == records(v@),
{
    let mut r: Vec<TaoAssociation> = Vec::new();
    let mut i: usize = 0;
    while i < v.len()
        invariant
            i <= v.len(),
            records(r@) == records(v@.subrange(0, i as int)),
        decreases v.len() - i,
    {
        let ghost r0 = r@;
        let c = v[i].clone();
        r.push(c);
        proof {
            assert(records(r0).len() == r0.len());
            assert(records(v@.subrange(0, i as int)).len() == i);
            assert(r0.len() == i);
            assert(r@ == r0.push(c));
            assert forall|j: int| 0 <= j < r@.len() implies #[trigger] records(r@)[j] == records(
                v@.subrange(0, i + 1),
            )[j] by {
                if j < i {
                    assert(records(r0)[j] == records(v@.subrange(0, i as int))[j]);
                    assert(r@[j] == r0[j]);
                }
            }
            assert(records(r@) =~= records(v@.subrange(0, i + 1)));
        }
        i = i + 1;
    }
    assert(v@.subrange(0, v@.len() as int) =~= v@);
    r
}

/// The key of the listing and count caches: one source object and one edge type.
#[derive(Debug, Clone, Copy, PartialEq, Eq, Structural)]
pub struct AssocKey {
    pub id1: i64,
    pub assoc_type: AssociationType,
}

impl CacheKey for AssocKey {
    fn same_key(&self, other: &AssocKey) -> (r: bool) {
        self.id1 == other.id1 && self.assoc_type == other.assoc_type
    }
}

/// A listing query: the edges of one type out of `id1`, optionally narrowed
/// to one target, to a range of `time1`, and to a page.
#[derive(Debug, Clone, Copy, PartialEq, Eq, Structural)]
pub struct AssociationQuery {
    pub id1: i64,
    pub id2: Option<i64>,
    pub assoc_type: AssociationType,
    pub start_time: Option<i64>,
    pub end_time: Option<i64>,
    pub limit: Option<i32>,
    pub offset: Option<i64>,
}

} // verus!
