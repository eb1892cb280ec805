use record_store::store::{Database, RecordNotFound, User};

fn ids_sorted(users: &[User]) -> Vec<u32> {
    let mut ids: Vec<u32> = users.iter().map(|u| u.id).collect();
    ids.sort();
    ids
}

#[test]
fn create_assigns_distinct_increasing_ids_from_one() {
    let mut db = Database::new();
    let a = db.create(String::from("a"), String::from("a@x.com"));
    let b = db.create(String::from("b"), String::from("b@x.com"));
    let c = db.create(String::from("c"), String::from("c@x.com"));
    assert_eq!(a, 1);
    assert_eq!(b, 2);
    assert_eq!(c, 3);
    assert!(a < b && b < c);
}

#[test]
fn create_then_read_yields_the_record() {
    let mut db = Database::new();
    let id = db.create(String::from("Alice"), String::from("a@x.com"));
    let user = db.read(id).expect("freshly created id must be present");
    assert_eq!(user.id, id);
    assert_eq!(user.name, "Alice");
    assert_eq!(user.email, "a@x.com");
}

#[test]
fn read_on_fresh_store_is_not_found() {
    let db = Database::new();
    assert!(db.read(1).is_none());
}

#[test]
fn update_on_missing_id_is_not_found_and_leaves_store_unchanged() {
    let mut db = Database::new();
    db.create(String::from("Alice"), String::from("a@x.com"));
    let r = db.update(7, Some(String::from("x")), Some(String::from("y")));
    assert!(matches!(r, Err(RecordNotFound)));
    let users = db.list();
    assert_eq!(users.len(), 1);
    let u = db.read(1).unwrap();
    assert_eq!(u.name, "Alice");
    assert_eq!(u.email, "a@x.com");
}

#[test]
fn update_with_only_name_preserves_email() {
    let mut db = Database::new();
    let id = db.create(String::from("Alice"), String::from("a@x.com"));
    let u = db.update(id, Some(String::from("Alicia")), None).unwrap();
    assert_eq!(u.id, id);
    assert_eq!(u.name, "Alicia");
    assert_eq!(u.email, "a@x.com");
    let stored = db.read(id).unwrap();
    assert_eq!(stored.name, "Alicia");
    assert_eq!(stored.email, "a@x.com");
}

#[test]
fn update_with_only_email_preserves_name() {
    let mut db = Database::new();
    let id = db.create(String::from("Alice"), String::from("a@x.com"));
    let u = db.update(id, None, Some(String::from("alice@y.com"))).unwrap();
    assert_eq!(u.name, "Alice");
    assert_eq!(u.email, "alice@y.com");
    let stored = db.read(id).unwrap();
    assert_eq!(stored.name, "Alice");
    assert_eq!(stored.email, "alice@y.com");
}

#[test]
fn update_with_both_fields_replaces_both() {
    let mut db = Database::new();
    let id = db.create(String::from("Alice"), String::from("a@x.com"));
    let u = db
        .update(id, Some(String::from("Bea")), Some(String::from("b@y.com")))
        .unwrap();
    assert_eq!(u.name, "Bea");
    assert_eq!(u.email, "b@y.com");
}

#[test]
fn update_with_no_fields_returns_the_record_unchanged() {
    let mut db = Database::new();
    let id = db.create(String::from("Alice"), String::from("a@x.com"));
    let u = db.update(id, None, None).unwrap();
    assert_eq!(u.id, id);
    assert_eq!(u.name, "Alice");
    assert_eq!(u.email, "a@x.com");
}

#[test]
fn delete_removes_and_second_delete_is_not_found() {
    let mut db = Database::new();
    let id = db.create(String::from("Alice"), String::from("a@x.com"));
    assert!(db.delete(id).is_ok());
    assert!(db.read(id).is_none());
    assert!(matches!(db.delete(id), Err(RecordNotFound)));
}

#[test]
fn delete_on_empty_store_is_not_found() {
    let mut db = Database::new();
    assert!(matches!(db.delete(1), Err(RecordNotFound)));
}

#[test]
fn delete_does_not_free_the_identifier() {
    let mut db = Database::new();
    let a = db.create(String::from("a"), String::from("a@x.com"));
    assert!(db.delete(a).is_ok());
    let b = db.create(String::from("b"), String::from("b@x.com"));
    assert_ne!(a, b);
    assert_eq!(b, 2);
}

#[test]
fn list_on_empty_store_is_empty() {
    let db = Database::new();
    assert!(db.list().is_empty());
}

#[test]
fn list_after_deleting_the_middle_record() {
    let mut db = Database::new();
    db.create(String::from("a"), String::from("a@x.com"));
    db.create(String::from("b"), String::from("b@x.com"));
    db.create(String::from("c"), String::from("c@x.com"));
    assert!(db.delete(2).is_ok());
    let users = db.list();
    assert_eq!(users.len(), 2);
    assert_eq!(ids_sorted(&users), vec![1, 3]);
    for u in &users {
        match u.id {
            1 => {
                assert_eq!(u.name, "a");
                assert_eq!(u.email, "a@x.com");
            }
            3 => {
                assert_eq!(u.name, "c");
                assert_eq!(u.email, "c@x.com");
            }
            other => panic!("unexpected id {}", other),
        }
    }
}

#[test]
fn empty_name_and_email_are_accepted() {
    let mut db = Database::new();
    let id = db.create(String::new(), String::new());
    let u = db.read(id).unwrap();
    assert_eq!(u.name, "");
    assert_eq!(u.email, "");
    let u = db.update(id, Some(String::new()), None).unwrap();
    assert_eq!(u.name, "");
}

#[test]
fn duplicate_copies_all_fields() {
    let mut db = Database::new();
    let id = db.create(String::from("Alice"), String::from("a@x.com"));
    let copy = db.read(id).unwrap().duplicate();
    assert_eq!(copy.id, id);
    assert_eq!(copy.name, "Alice");
    assert_eq!(copy.email, "a@x.com");
}

#[test]
fn fresh_store_can_create() {
    let db = Database::new();
    assert!(db.can_create());
}

#[test]
fn end_to_end_session() {
    let mut db = Database::new();
    let a = db.create(String::from("Alice"), String::from("a@x.com"));
    assert_eq!(a, 1);
    let b = db.create(String::from("Bob"), String::from("b@x.com"));
    assert_eq!(b, 2);
    let u = db.update(1, Some(String::from("Alicia")), None).unwrap();
    assert_eq!(u.id, 1);
    assert_eq!(u.name, "Alicia");
    assert_eq!(u.email, "a@x.com");
    assert!(db.delete(2).is_ok());
    assert!(db.read(2).is_none());
    let users = db.list();
    assert_eq!(users.len(), 1);
    assert_eq!(users[0].id, 1);
    assert_eq!(users[0].name, "Alicia");
    assert_eq!(users[0].email, "a@x.com");
}
