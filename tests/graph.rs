use tao_store::{AssociationType, CreateFollowRequest, CreateFriendshipRequest, CreatePostRequest, CreateUserRequest, TaoDatabase};

fn user(db: &mut TaoDatabase, name: &str) -> i64 {
    let req = CreateUserRequest { username: name.to_string(), email: "e@x".to_string(), full_name: None, bio: None, location: None };
    db.create_user(&req, &vec![]).unwrap().id
}

#[test]
fn all_users_in_id_order_with_limit() {
    let mut db = TaoDatabase::new(4);
    let a = user(&mut db, "a");
    let post = CreatePostRequest { author_id: a, content: "c".to_string(), post_type: "text".to_string(), visibility: None, media_url: None };
    db.create_post(&post, &vec![1], &vec![9]).unwrap();
    let b = user(&mut db, "b");
    let c = user(&mut db, "c");
    let all: Vec<i64> = db.get_all_users(None).iter().map(|u| u.id).collect();
    assert_eq!(all, vec![a, b, c]);
    let two: Vec<i64> = db.get_all_users(Some(2)).iter().map(|u| u.id).collect();
    assert_eq!(two, vec![a, b]);
    assert!(db.get_all_users(Some(0)).is_empty());
    assert_eq!(db.get_all_users(Some(-1)).len(), 3);
}

#[test]
fn graph_edges_stay_among_users() {
    let mut db = TaoDatabase::new(4);
    let a = user(&mut db, "a");
    let b = user(&mut db, "b");
    let c = user(&mut db, "c");
    db.create_friendship(&CreateFriendshipRequest { user1_id: a, user2_id: b, relationship_type: None }, &vec![]).unwrap();
    db.create_follow(&CreateFollowRequest { follower_id: a, followee_id: c, follow_type: None }, &vec![]).unwrap();
    let edges = db.social_graph_edges(&vec![a, b]);
    let pairs: Vec<(i64, i64, AssociationType)> = edges.iter().map(|e| (e.id1, e.id2, e.assoc_type)).collect();
    assert_eq!(pairs, vec![(a, b, AssociationType::Friendship), (b, a, AssociationType::Friendship)]);
    let edges = db.social_graph_edges(&vec![a, b, c]);
    assert_eq!(edges.len(), 3);
    assert_eq!((edges[1].id1, edges[1].id2, edges[1].assoc_type), (a, c, AssociationType::Follow));
}
