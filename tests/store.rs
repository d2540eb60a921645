use tao_store::{apply_limit_offset, AssociationQuery, AssociationType, ObjectType, TaoDatabase, TaoError};

fn full_query(id1: i64, assoc_type: AssociationType) -> AssociationQuery {
    AssociationQuery { id1, id2: None, assoc_type, start_time: None, end_time: None, limit: None, offset: None }
}

#[test]
fn test_insert_and_query() {
    let mut db = TaoDatabase::new(4);
    let a = db.create_object(ObjectType::User, &b"A".to_vec()).unwrap();
    let b = db.create_object(ObjectType::User, &b"B".to_vec()).unwrap();
    db.create_association(a.id, b.id, AssociationType::Friendship, &None, None, None).unwrap();
    let edges = db.get_associations(&full_query(a.id, AssociationType::Friendship));
    assert_eq!(edges.len(), 1);
    assert_eq!(edges[0].id2, b.id);
}

#[test]
fn ids_start_at_one_and_grow() {
    let mut db = TaoDatabase::new(4);
    let a = db.create_object_at(ObjectType::User, &vec![1], 100).unwrap();
    let b = db.create_object_at(ObjectType::Post, &vec![2], 100).unwrap();
    assert_eq!(a.id, 1);
    assert_eq!(b.id, 2);
    assert_eq!(a.created_time, 100);
    assert_eq!(a.updated_time, 100);
    assert_eq!(b.object_type, ObjectType::Post);
}

#[test]
fn read_after_create_uses_cache() {
    let mut db = TaoDatabase::new(4);
    let o = db.create_object_at(ObjectType::User, &vec![7, 8], 5).unwrap();
    let before = db.read_count();
    let got = db.get_object(o.id).unwrap();
    assert_eq!(db.read_count(), before);
    assert_eq!(got.id, o.id);
    assert_eq!(got.data, vec![7, 8]);
    assert_eq!(got.object_type, ObjectType::User);
}

#[test]
fn read_with_cold_cache_goes_to_storage() {
    let mut db = TaoDatabase::with_capacities(0, 0, 0);
    let o = db.create_object_at(ObjectType::User, &vec![1], 5).unwrap();
    assert_eq!(db.read_count(), 0);
    assert!(db.get_object(o.id).is_some());
    assert_eq!(db.read_count(), 1);
    assert!(db.get_object(99).is_none());
    assert_eq!(db.read_count(), 2);
}

#[test]
fn update_invalidates_cached_object() {
    let mut db = TaoDatabase::new(4);
    let o = db.create_object_at(ObjectType::User, &vec![1], 5).unwrap();
    db.get_object(o.id).unwrap();
    db.update_object_at(o.id, &vec![9, 9], 6).unwrap();
    let before = db.read_count();
    let got = db.get_object(o.id).unwrap();
    assert_eq!(db.read_count(), before + 1);
    assert_eq!(got.data, vec![9, 9]);
    assert_eq!(got.updated_time, 6);
    assert_eq!(got.created_time, 5);
}

#[test]
fn update_of_missing_object_is_not_found() {
    let mut db = TaoDatabase::new(4);
    assert_eq!(db.update_object_at(42, &vec![1], 6), Err(TaoError::NotFound(42)));
}

#[test]
fn upsert_keeps_one_row_with_second_payload() {
    let mut db = TaoDatabase::new(4);
    let first = db.create_association_at(1, 2, AssociationType::Follow, &Some(vec![1]), None, None, 10).unwrap();
    let second = db.create_association_at(1, 2, AssociationType::Follow, &Some(vec![2]), None, None, 11).unwrap();
    assert!(second.id > first.id);
    let rows = db.get_associations(&full_query(1, AssociationType::Follow));
    assert_eq!(rows.len(), 1);
    assert_eq!(rows[0].data, Some(vec![2]));
    assert_eq!(rows[0].id, second.id);
    assert_eq!(db.get_association_count(1, AssociationType::Follow), 1);
}

#[test]
fn listing_is_newest_first() {
    let mut db = TaoDatabase::new(4);
    db.create_association_at(1, 2, AssociationType::Follow, &None, None, None, 10).unwrap();
    db.create_association_at(1, 3, AssociationType::Follow, &None, None, None, 30).unwrap();
    db.create_association_at(1, 4, AssociationType::Follow, &None, None, None, 20).unwrap();
    db.create_association_at(1, 5, AssociationType::Follow, &None, None, None, 20).unwrap();
    let rows = db.get_associations(&full_query(1, AssociationType::Follow));
    let targets: Vec<i64> = rows.iter().map(|a| a.id2).collect();
    assert_eq!(targets, vec![3, 5, 4, 2]);
}

#[test]
fn pagination_does_not_poison_cache() {
    let mut db = TaoDatabase::new(4);
    for target in 2..6 {
        db.create_association_at(1, target, AssociationType::Follow, &None, None, None, target).unwrap();
    }
    let mut page = full_query(1, AssociationType::Follow);
    page.limit = Some(1);
    assert_eq!(db.get_associations(&page).len(), 1);
    let all = db.get_associations(&full_query(1, AssociationType::Follow));
    assert_eq!(all.len(), 4);
    let before = db.read_count();
    let again = db.get_associations(&full_query(1, AssociationType::Follow));
    assert_eq!(again.len(), 4);
    assert_eq!(db.read_count(), before);
}

#[test]
fn offset_then_limit() {
    let mut db = TaoDatabase::new(4);
    for target in 2..7 {
        db.create_association_at(1, target, AssociationType::Like, &None, None, None, target).unwrap();
    }
    let mut q = full_query(1, AssociationType::Like);
    q.offset = Some(1);
    q.limit = Some(2);
    let rows = db.get_associations(&q);
    let targets: Vec<i64> = rows.iter().map(|a| a.id2).collect();
    assert_eq!(targets, vec![5, 4]);
    q.offset = Some(5);
    assert!(db.get_associations(&q).is_empty());
}

#[test]
fn target_and_time_filters() {
    let mut db = TaoDatabase::new(4);
    db.create_association_at(1, 2, AssociationType::Follow, &None, Some(100), None, 1).unwrap();
    db.create_association_at(1, 3, AssociationType::Follow, &None, Some(200), None, 2).unwrap();
    db.create_association_at(1, 4, AssociationType::Follow, &None, None, None, 3).unwrap();
    let mut q = full_query(1, AssociationType::Follow);
    q.id2 = Some(3);
    let rows = db.get_associations(&q);
    assert_eq!(rows.len(), 1);
    assert_eq!(rows[0].id2, 3);
    let mut q = full_query(1, AssociationType::Follow);
    q.start_time = Some(100);
    q.end_time = Some(150);
    let rows = db.get_associations(&q);
    assert_eq!(rows.len(), 1);
    assert_eq!(rows[0].id2, 2);
    let mut q = full_query(1, AssociationType::Follow);
    q.start_time = Some(0);
    assert_eq!(db.get_associations(&q).len(), 2);
}

#[test]
fn count_changes_by_one_after_create() {
    let mut db = TaoDatabase::new(4);
    db.create_association_at(1, 2, AssociationType::Follow, &None, None, None, 1).unwrap();
    assert_eq!(db.get_association_count(1, AssociationType::Follow), 1);
    db.create_association_at(1, 3, AssociationType::Follow, &None, None, None, 2).unwrap();
    let before = db.read_count();
    assert_eq!(db.get_association_count(1, AssociationType::Follow), 2);
    assert_eq!(db.read_count(), before + 1);
    assert_eq!(db.get_association_count(1, AssociationType::Follow), 2);
    assert_eq!(db.read_count(), before + 1);
}

#[test]
fn delete_association_is_quiet_when_absent() {
    let mut db = TaoDatabase::new(4);
    db.create_association_at(1, 2, AssociationType::Follow, &None, None, None, 1).unwrap();
    assert_eq!(db.get_association_count(1, AssociationType::Follow), 1);
    db.delete_association(1, 2, AssociationType::Follow);
    db.delete_association(1, 2, AssociationType::Follow);
    assert_eq!(db.get_association_count(1, AssociationType::Follow), 0);
    assert!(db.get_associations(&full_query(1, AssociationType::Follow)).is_empty());
}

#[test]
fn cascading_delete() {
    let mut db = TaoDatabase::new(4);
    let a = db.create_object_at(ObjectType::User, &vec![1], 1).unwrap();
    let b = db.create_object_at(ObjectType::User, &vec![2], 1).unwrap();
    db.create_association_at(a.id, b.id, AssociationType::Follow, &None, None, None, 2).unwrap();
    db.create_association_at(b.id, a.id, AssociationType::Follow, &None, None, None, 2).unwrap();
    assert_eq!(db.get_associations(&full_query(b.id, AssociationType::Follow)).len(), 1);
    db.delete_object(a.id);
    assert!(db.get_associations(&full_query(a.id, AssociationType::Follow)).is_empty());
    assert!(db.get_associations(&full_query(b.id, AssociationType::Follow)).is_empty());
    assert!(db.get_object(a.id).is_none());
    assert!(db.get_object(b.id).is_some());
}

#[test]
fn limit_and_offset_ignore_non_positive_values() {
    assert_eq!(apply_limit_offset(vec![1, 2, 3], Some(0), Some(-1)), vec![1, 2, 3]);
    assert_eq!(apply_limit_offset(vec![1, 2, 3], Some(2), None), vec![1, 2]);
    assert_eq!(apply_limit_offset(vec![1, 2, 3], None, Some(1)), vec![2, 3]);
    assert_eq!(apply_limit_offset(vec![1, 2, 3], Some(5), Some(3)), Vec::<i32>::new());
}

#[test]
fn type_names_round_trip() {
    assert_eq!(ObjectType::Comment.as_str(), "comment");
    assert_eq!(AssociationType::PostAuthor.as_str(), "post_author");
    assert_eq!(ObjectType::from_name("page"), Ok(ObjectType::Page));
    assert_eq!(AssociationType::from_name("comment_author"), Ok(AssociationType::CommentAuthor));
    assert_eq!(ObjectType::from_name("robot"), Err(TaoError::Validation));
    assert_eq!(AssociationType::from_name("Follow"), Err(TaoError::Validation));
}

#[test]
fn timestamps_come_from_the_clock() {
    let mut db = TaoDatabase::new(4);
    let o = db.create_object(ObjectType::Group, &vec![3]).unwrap();
    assert!(o.created_time > 1_600_000_000);
    assert_eq!(o.created_time, o.updated_time);
    let a = db.create_association(o.id, o.id, AssociationType::Membership, &None, None, None).unwrap();
    assert!(a.created_time >= o.created_time);
}
