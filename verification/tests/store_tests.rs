use document_store::store::DocumentStorage;

const OWNER_A: u64 = 1;
const OWNER_B: u64 = 2;

fn tags(names: &[&str]) -> Vec<String> {
    names.iter().map(|s| s.to_string()).collect()
}

fn create(store: &mut DocumentStorage, now: u64, owner: u64, name: &str, tag_names: &[&str]) -> u32 {
    store
        .store_document(
            true,
            now,
            owner,
            vec![1, 2, 3],
            name.to_string(),
            None,
            tags(tag_names),
        )
        .expect("authorized create must return an id")
}

#[test]
fn test_init_empty() {
    let store = DocumentStorage::init();
    assert_eq!(store.get_document_count(OWNER_A), 0);
    assert!(store.get_user_documents(OWNER_A).is_empty());
    assert!(store.get_document(OWNER_A, 0).is_none());
    assert_eq!(store.next_document_id(OWNER_A), 0);
}

#[test]
fn test_ids_sequential_after_delete() {
    let mut store = DocumentStorage::init();
    assert_eq!(create(&mut store, 10, OWNER_A, "a", &[]), 0);
    assert_eq!(create(&mut store, 11, OWNER_A, "b", &[]), 1);
    assert_eq!(create(&mut store, 12, OWNER_A, "c", &[]), 2);
    assert!(store.delete_document(true, OWNER_A, 1));
    // The freed id is never reused: the counter keeps running.
    assert_eq!(create(&mut store, 13, OWNER_A, "d", &[]), 3);
    assert_eq!(store.next_document_id(OWNER_A), 4);
}

#[test]
fn test_create_then_read_timestamps() {
    let mut store = DocumentStorage::init();
    let id = create(&mut store, 77, OWNER_A, "a", &["x"]);
    let doc = store.get_document(OWNER_A, id).expect("created doc must be readable");
    assert_eq!(doc.created_at, doc.updated_at);
    assert_eq!(doc.created_at, 77);
    assert_eq!(doc.id, id);
    assert_eq!(doc.owner, OWNER_A);
    assert_eq!(doc.encrypted_content, vec![1, 2, 3]);
    assert_eq!(doc.name, "a");
    assert_eq!(doc.encrypted_metadata, None);
    assert_eq!(doc.tags, tags(&["x"]));
}

#[test]
fn test_update_name_preserves_other_fields() {
    let mut store = DocumentStorage::init();
    let id = store
        .store_document(
            true,
            5,
            OWNER_A,
            vec![9, 9],
            "old".to_string(),
            Some(vec![7]),
            tags(&["t1", "t2"]),
        )
        .unwrap();
    assert!(store.update_document(true, 8, OWNER_A, id, None, Some("x".to_string()), None, None));
    let doc = store.get_document(OWNER_A, id).unwrap();
    assert_eq!(doc.name, "x");
    assert_eq!(doc.encrypted_content, vec![9, 9]);
    assert_eq!(doc.encrypted_metadata, Some(vec![7]));
    assert_eq!(doc.tags, tags(&["t1", "t2"]));
    assert_eq!(doc.created_at, 5);
    assert_eq!(doc.updated_at, 8);
    assert!(doc.updated_at >= 5);
}

#[test]
fn test_update_replaces_supplied_fields() {
    let mut store = DocumentStorage::init();
    let id = create(&mut store, 1, OWNER_A, "n", &["a"]);
    assert!(store.update_document(
        true,
        2,
        OWNER_A,
        id,
        Some(vec![4, 5]),
        None,
        Some(vec![6]),
        Some(tags(&["b", "c"])),
    ));
    let doc = store.get_document(OWNER_A, id).unwrap();
    assert_eq!(doc.encrypted_content, vec![4, 5]);
    assert_eq!(doc.name, "n");
    assert_eq!(doc.encrypted_metadata, Some(vec![6]));
    assert_eq!(doc.tags, tags(&["b", "c"]));
    assert_eq!(doc.updated_at, 2);
}

#[test]
fn test_update_with_no_fields_refreshes_timestamp() {
    let mut store = DocumentStorage::init();
    let id = create(&mut store, 3, OWNER_A, "n", &[]);
    assert!(store.update_document(true, 9, OWNER_A, id, None, None, None, None));
    let doc = store.get_document(OWNER_A, id).unwrap();
    assert_eq!(doc.created_at, 3);
    assert_eq!(doc.updated_at, 9);
}

#[test]
fn test_metadata_is_never_cleared() {
    let mut store = DocumentStorage::init();
    let id = store
        .store_document(true, 1, OWNER_A, vec![], "n".to_string(), Some(vec![1]), tags(&[]))
        .unwrap();
    // An absent metadata field retains the stored blob.
    assert!(store.update_document(true, 2, OWNER_A, id, None, None, None, None));
    assert_eq!(store.get_document(OWNER_A, id).unwrap().encrypted_metadata, Some(vec![1]));
}

#[test]
fn test_update_nonexistent_returns_false() {
    let mut store = DocumentStorage::init();
    let id = create(&mut store, 1, OWNER_A, "n", &[]);
    let before_count = store.get_document_count(OWNER_A);
    let before_list = store.get_user_documents(OWNER_A);
    assert!(!store.update_document(true, 2, OWNER_A, 55, None, Some("x".to_string()), None, None));
    assert_eq!(store.get_document_count(OWNER_A), before_count);
    assert_eq!(store.get_user_documents(OWNER_A), before_list);
    assert_eq!(store.get_document(OWNER_A, id).unwrap().updated_at, 1);
}

#[test]
fn test_delete_nonexistent_returns_false() {
    let mut store = DocumentStorage::init();
    create(&mut store, 1, OWNER_A, "n", &[]);
    let before_count = store.get_document_count(OWNER_A);
    let before_list = store.get_user_documents(OWNER_A);
    assert!(!store.delete_document(true, OWNER_A, 55));
    assert_eq!(store.get_document_count(OWNER_A), before_count);
    assert_eq!(store.get_user_documents(OWNER_A), before_list);
}

#[test]
fn test_delete_removes_and_decrements() {
    let mut store = DocumentStorage::init();
    let id0 = create(&mut store, 1, OWNER_A, "a", &[]);
    let id1 = create(&mut store, 2, OWNER_A, "b", &[]);
    let id2 = create(&mut store, 3, OWNER_A, "c", &[]);
    assert_eq!(store.get_document_count(OWNER_A), 3);
    assert!(store.delete_document(true, OWNER_A, id1));
    assert_eq!(store.get_document_count(OWNER_A), 2);
    assert!(store.get_document(OWNER_A, id1).is_none());
    let listed: Vec<u32> = store.get_user_documents(OWNER_A).iter().map(|d| d.id).collect();
    // The two remaining documents keep their relative order.
    assert_eq!(listed, vec![id0, id2]);
}

#[test]
fn test_unauthorized_mutations_leave_state() {
    let mut store = DocumentStorage::init();
    let id = create(&mut store, 1, OWNER_A, "n", &["t"]);
    let before_list = store.get_user_documents(OWNER_A);
    let before_next = store.next_document_id(OWNER_A);

    assert!(store.store_document(false, 9, OWNER_A, vec![], "x".to_string(), None, tags(&[])).is_none());
    assert!(!store.update_document(false, 9, OWNER_A, id, None, Some("x".to_string()), None, None));
    assert!(!store.delete_document(false, OWNER_A, id));

    assert_eq!(store.get_user_documents(OWNER_A), before_list);
    assert_eq!(store.next_document_id(OWNER_A), before_next);
    assert_eq!(store.get_document_count(OWNER_A), 1);
    assert_eq!(store.get_document(OWNER_A, id).unwrap().name, "n");
}

#[test]
fn test_owners_are_isolated() {
    let mut store = DocumentStorage::init();
    let a0 = create(&mut store, 1, OWNER_A, "a", &[]);
    let b0 = create(&mut store, 2, OWNER_B, "b", &[]);
    // Each owner has its own id namespace, starting at zero.
    assert_eq!(a0, 0);
    assert_eq!(b0, 0);
    assert_eq!(store.get_document_count(OWNER_A), 1);
    assert_eq!(store.get_document_count(OWNER_B), 1);
    assert!(store.delete_document(true, OWNER_A, a0));
    assert_eq!(store.get_document_count(OWNER_A), 0);
    assert_eq!(store.get_document_count(OWNER_B), 1);
    assert_eq!(store.get_document(OWNER_B, b0).unwrap().name, "b");
}

#[test]
fn test_read_requires_no_authorization() {
    let mut store = DocumentStorage::init();
    let id = create(&mut store, 1, OWNER_A, "n", &[]);
    // Reads take no credential at all: knowing owner and id suffices.
    assert!(store.get_document(OWNER_A, id).is_some());
    assert_eq!(store.get_user_documents(OWNER_A).len(), 1);
}

#[test]
fn test_no_field_validation_on_create() {
    let mut store = DocumentStorage::init();
    // Empty name, zero-length content and duplicate tags are all accepted.
    let id = store
        .store_document(true, 1, OWNER_A, vec![], String::new(), None, tags(&["t", "t"]))
        .unwrap();
    let doc = store.get_document(OWNER_A, id).unwrap();
    assert_eq!(doc.name, "");
    assert!(doc.encrypted_content.is_empty());
    assert_eq!(doc.tags, tags(&["t", "t"]));
}
