use tao_store::{
    ApiResponse, AssociationQuery, AssociationType, CreateFollowRequest, CreateFriendshipRequest,
    CreateLikeRequest, CreatePostRequest, CreateUserRequest, IndexerTags, ObjectType, TaoDatabase,
    TaoError, UpdateUserRequest, UserProfile,
};
use tao_store::apply_user_update;

fn user(db: &mut TaoDatabase, name: &str) -> i64 {
    let req = CreateUserRequest {
        username: name.to_string(),
        email: format!("{}@example.com", name),
        full_name: None,
        bio: None,
        location: None,
    };
    db.create_user(&req, &name.as_bytes().to_vec()).unwrap().id
}

fn post_req(author_id: i64, content: &str) -> CreatePostRequest {
    CreatePostRequest {
        author_id,
        content: content.to_string(),
        post_type: "text".to_string(),
        visibility: None,
        media_url: None,
    }
}

fn edges(db: &mut TaoDatabase, id1: i64, assoc_type: AssociationType) -> Vec<i64> {
    let q = AssociationQuery { id1, id2: None, assoc_type, start_time: None, end_time: None, limit: None, offset: None };
    db.get_associations(&q).iter().map(|a| a.id2).collect()
}

#[test]
fn friendship_is_written_both_ways() {
    let mut db = TaoDatabase::new(8);
    let a = user(&mut db, "alice");
    let b = user(&mut db, "bob");
    let req = CreateFriendshipRequest { user1_id: a, user2_id: b, relationship_type: None };
    assert_eq!(db.create_friendship(&req, &vec![5]), Ok(()));
    assert_eq!(edges(&mut db, a, AssociationType::Friendship), vec![b]);
    assert_eq!(edges(&mut db, b, AssociationType::Friendship), vec![a]);
    assert!(db.are_friends(a, b));
    assert!(db.are_friends(b, a));
    assert_eq!(db.create_friendship(&req, &vec![5]), Err(TaoError::Conflict));
}

#[test]
fn friendship_needs_two_users() {
    let mut db = TaoDatabase::new(8);
    let a = user(&mut db, "alice");
    let p = db.create_post(&post_req(a, "hi"), &vec![1], &vec![9]).unwrap();
    let req = CreateFriendshipRequest { user1_id: a, user2_id: 77, relationship_type: None };
    assert_eq!(db.create_friendship(&req, &vec![]), Err(TaoError::NotFound(77)));
    let req = CreateFriendshipRequest { user1_id: p.id, user2_id: a, relationship_type: None };
    assert_eq!(db.create_friendship(&req, &vec![]), Err(TaoError::NotFound(p.id)));
    assert!(edges(&mut db, a, AssociationType::Friendship).is_empty());
}

#[test]
fn friendship_rows_share_payload_and_time() {
    let mut db = TaoDatabase::new(8);
    let a = user(&mut db, "alice");
    let b = user(&mut db, "bob");
    let c = user(&mut db, "carol");
    db.create_follow(&CreateFollowRequest { follower_id: c, followee_id: a, follow_type: None }, &vec![1]).unwrap();
    let req = CreateFriendshipRequest { user1_id: a, user2_id: b, relationship_type: None };
    db.create_friendship(&req, &vec![6, 6]).unwrap();
    let q = |id1: i64| AssociationQuery { id1, id2: None, assoc_type: AssociationType::Friendship, start_time: None, end_time: None, limit: None, offset: None };
    let ab = db.get_associations(&q(a));
    let ba = db.get_associations(&q(b));
    assert_eq!(ab[0].data, Some(vec![6, 6]));
    assert_eq!(ba[0].data, Some(vec![6, 6]));
    assert!(ab[0].time1.is_some());
    assert_eq!(ab[0].time1, ba[0].time1);
    assert_eq!(edges(&mut db, c, AssociationType::Follow), vec![a]);
}

#[test]
fn user_update_merges_given_fields() {
    let user = UserProfile {
        username: "alice".to_string(),
        email: "a@x".to_string(),
        full_name: Some("Alice".to_string()),
        bio: None,
        profile_picture_url: None,
        created_time: 3,
        last_active_time: Some(4),
        is_verified: true,
        location: Some("Paris".to_string()),
    };
    let req = UpdateUserRequest { username: None, email: Some("new@x".to_string()), full_name: None, bio: Some("hi".to_string()), location: None };
    let merged = apply_user_update(user, &req).unwrap();
    assert_eq!(merged.username, "alice");
    assert_eq!(merged.email, "new@x");
    assert_eq!(merged.full_name, Some("Alice".to_string()));
    assert_eq!(merged.bio, Some("hi".to_string()));
    assert_eq!(merged.location, Some("Paris".to_string()));
    assert!(merged.is_verified);
    let blank = UpdateUserRequest { username: None, email: Some(String::new()), full_name: None, bio: None, location: None };
    assert!(matches!(apply_user_update(merged, &blank), Err(TaoError::Validation)));
}

#[test]
fn follow_is_one_way_and_refuses_duplicates() {
    let mut db = TaoDatabase::new(8);
    let a = user(&mut db, "alice");
    let b = user(&mut db, "bob");
    let req = CreateFollowRequest { follower_id: a, followee_id: b, follow_type: None };
    assert_eq!(db.create_follow(&req, &vec![1]), Ok(()));
    assert!(db.is_following(a, b));
    assert!(!db.is_following(b, a));
    assert_eq!(db.create_follow(&req, &vec![1]), Err(TaoError::Conflict));
    assert_eq!(db.get_association_count(a, AssociationType::Follow), 1);
}

#[test]
fn like_needs_user_and_post() {
    let mut db = TaoDatabase::new(8);
    let a = user(&mut db, "alice");
    let b = user(&mut db, "bob");
    let p = db.create_post(&post_req(a, "hello"), &vec![1], &vec![9]).unwrap();
    let like = CreateLikeRequest { user_id: b, target_id: p.id, reaction_type: "like".to_string() };
    assert_eq!(db.create_like(&like, &vec![2]), Ok(()));
    let other = CreateLikeRequest { user_id: a, target_id: p.id, reaction_type: "like".to_string() };
    assert_eq!(db.create_like(&other, &vec![4]), Ok(()));
    assert_eq!(db.create_like(&like, &vec![3]), Ok(()));
    assert_eq!(db.get_association_count(b, AssociationType::Like), 1);
    assert_eq!(db.get_association_count(a, AssociationType::Like), 1);
    let q = AssociationQuery { id1: b, id2: None, assoc_type: AssociationType::Like, start_time: None, end_time: None, limit: None, offset: None };
    assert_eq!(db.get_associations(&q)[0].data, Some(vec![3]));
    let on_user = CreateLikeRequest { user_id: b, target_id: a, reaction_type: "like".to_string() };
    assert_eq!(db.create_like(&on_user, &vec![2]), Err(TaoError::NotFound(a)));
    let by_nobody = CreateLikeRequest { user_id: 500, target_id: p.id, reaction_type: "like".to_string() };
    assert_eq!(db.create_like(&by_nobody, &vec![2]), Err(TaoError::NotFound(500)));
}

#[test]
fn post_gets_author_edge() {
    let mut db = TaoDatabase::new(8);
    let a = user(&mut db, "alice");
    let p = db.create_post(&post_req(a, "first"), &vec![4, 2], &vec![9]).unwrap();
    assert_eq!(p.object_type, ObjectType::Post);
    assert_eq!(p.data, vec![4, 2]);
    assert_eq!(edges(&mut db, a, AssociationType::PostAuthor), vec![p.id]);
    let q = AssociationQuery { id1: a, id2: Some(p.id), assoc_type: AssociationType::PostAuthor, start_time: None, end_time: None, limit: None, offset: None };
    let edge = db.get_associations(&q);
    assert_eq!(edge[0].data, Some(vec![9]));
    assert_eq!(edge[0].time1, Some(p.created_time));
    assert_eq!(db.create_post(&post_req(a, ""), &vec![1], &vec![9]).err(), Some(TaoError::Validation));
    assert_eq!(db.create_post(&post_req(900, "x"), &vec![1], &vec![9]).err(), Some(TaoError::NotFound(900)));
}

#[test]
fn user_validation() {
    let mut db = TaoDatabase::new(8);
    let req = CreateUserRequest { username: String::new(), email: "e@x".to_string(), full_name: None, bio: None, location: None };
    assert_eq!(db.create_user(&req, &vec![]).err(), Some(TaoError::Validation));
    let req = CreateUserRequest { username: "u".to_string(), email: String::new(), full_name: None, bio: None, location: None };
    assert_eq!(db.create_user(&req, &vec![]).err(), Some(TaoError::Validation));
    let a = user(&mut db, "alice");
    let blank = UpdateUserRequest { username: Some(String::new()), email: None, full_name: None, bio: None, location: None };
    assert_eq!(db.update_user(a, &blank, &vec![1]), Err(TaoError::Validation));
    let rename = UpdateUserRequest { username: Some("al".to_string()), email: None, full_name: None, bio: None, location: None };
    assert_eq!(db.update_user(a, &rename, &vec![9]), Ok(()));
    assert_eq!(db.get_user(a).unwrap().data, vec![9]);
    assert_eq!(db.update_user(a + 100, &rename, &vec![9]), Err(TaoError::NotFound(a + 100)));
}

#[test]
fn get_user_and_get_post_check_the_type() {
    let mut db = TaoDatabase::new(8);
    let a = user(&mut db, "alice");
    let p = db.create_post(&post_req(a, "x"), &vec![1], &vec![9]).unwrap();
    assert!(db.get_user(a).is_some());
    assert!(db.get_user(p.id).is_none());
    assert!(db.get_post(p.id).is_some());
    assert!(db.get_post(a).is_none());
}

#[test]
fn delete_user_and_post() {
    let mut db = TaoDatabase::new(8);
    let a = user(&mut db, "alice");
    let p = db.create_post(&post_req(a, "x"), &vec![1], &vec![9]).unwrap();
    assert_eq!(db.delete_user(p.id), Err(TaoError::NotFound(p.id)));
    assert_eq!(db.delete_post(p.id), Ok(()));
    assert!(db.get_post(p.id).is_none());
    assert!(edges(&mut db, a, AssociationType::PostAuthor).is_empty());
    assert_eq!(db.delete_user(a), Ok(()));
    assert!(db.get_user(a).is_none());
    assert_eq!(db.delete_user(a), Err(TaoError::NotFound(a)));
}

#[test]
fn user_stats_count_edges() {
    let mut db = TaoDatabase::new(8);
    let a = user(&mut db, "alice");
    let b = user(&mut db, "bob");
    let c = user(&mut db, "carol");
    db.create_friendship(&CreateFriendshipRequest { user1_id: a, user2_id: b, relationship_type: None }, &vec![]).unwrap();
    db.create_follow(&CreateFollowRequest { follower_id: a, followee_id: c, follow_type: None }, &vec![]).unwrap();
    db.create_post(&post_req(a, "one"), &vec![1], &vec![9]).unwrap();
    db.create_post(&post_req(a, "two"), &vec![2], &vec![9]).unwrap();
    let stats = db.get_user_stats(a).unwrap();
    assert_eq!(stats.user_id, a);
    assert_eq!(stats.friend_count, 1);
    assert_eq!(stats.following_count, 1);
    assert_eq!(stats.post_count, 2);
    assert_eq!(stats.follower_count, 0);
    assert_eq!(db.get_user_stats(999), Err(TaoError::NotFound(999)));
}

#[test]
fn friends_and_posts_are_visible_to_friends_only() {
    let mut db = TaoDatabase::new(8);
    let a = user(&mut db, "alice");
    let b = user(&mut db, "bob");
    let c = user(&mut db, "carol");
    db.create_friendship(&CreateFriendshipRequest { user1_id: a, user2_id: b, relationship_type: None }, &vec![]).unwrap();
    let p = db.create_post(&post_req(a, "mine"), &vec![1], &vec![9]).unwrap();
    let friends = db.get_friends(b, a, None).unwrap();
    assert_eq!(friends.len(), 1);
    assert_eq!(friends[0].id, b);
    let posts = db.get_posts_by_user(a, a, Some(10)).unwrap();
    assert_eq!(posts.len(), 1);
    assert_eq!(posts[0].id, p.id);
    assert_eq!(db.get_friends(c, a, None).err(), Some(TaoError::Validation));
    assert_eq!(db.get_posts_by_user(c, a, None).err(), Some(TaoError::Validation));
}

#[test]
fn api_response_envelopes() {
    let r = ApiResponse::success(5);
    assert!(r.success);
    assert_eq!(r.data, Some(5));
    assert_eq!(r.message, None);
    let r = ApiResponse::success_with_message(6, "made".to_string());
    assert_eq!(r.data, Some(6));
    assert_eq!(r.message, Some("made".to_string()));
    let r = ApiResponse::success_message("done".to_string());
    assert!(r.success);
    assert_eq!(r.data, None);
}

#[test]
fn indexer_tags_count_regions() {
    let mut t = IndexerTags::new();
    t.increment_title();
    t.increment_body();
    t.increment_body();
    t.increment_info_box();
    t.increment_category();
    t.increment_category();
    t.increment_category();
    assert_eq!(t.get_title(), 1);
    assert_eq!(t.get_body(), 2);
    assert_eq!(t.get_info_box(), 1);
    assert_eq!(t.get_category(), 3);
}
