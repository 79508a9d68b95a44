use document_store::store::DocumentStorage;

const OWNER: u64 = 7;

fn tags(names: &[&str]) -> Vec<String> {
    names.iter().map(|s| s.to_string()).collect()
}

fn create_tagged(store: &mut DocumentStorage, now: u64, name: &str, tag_names: &[&str]) -> u32 {
    store
        .store_document(
            true,
            now,
            OWNER,
            vec![0],
            name.to_string(),
            None,
            tags(tag_names),
        )
        .expect("authorized create must return an id")
}

#[test]
fn test_list_preserves_creation_order() {
    let mut store = DocumentStorage::init();
    create_tagged(&mut store, 1, "first", &[]);
    create_tagged(&mut store, 2, "second", &[]);
    create_tagged(&mut store, 3, "third", &[]);
    let names: Vec<String> = store.get_user_documents(OWNER).iter().map(|d| d.name.clone()).collect();
    assert_eq!(names, vec!["first".to_string(), "second".to_string(), "third".to_string()]);
}

#[test]
fn test_list_of_unknown_owner_is_empty() {
    let store = DocumentStorage::init();
    assert!(store.get_user_documents(OWNER).is_empty());
    assert!(store.get_documents_by_tags(OWNER, tags(&["a"])).is_empty());
}

#[test]
fn test_tag_filter_or_semantics() {
    let mut store = DocumentStorage::init();
    let matching = create_tagged(&mut store, 1, "ab", &["a", "b"]);
    create_tagged(&mut store, 2, "x", &["x"]);
    // One shared tag suffices.
    let found = store.get_documents_by_tags(OWNER, tags(&["b", "c"]));
    assert_eq!(found.len(), 1);
    assert_eq!(found[0].id, matching);
    // No shared tag excludes.
    let found = store.get_documents_by_tags(OWNER, tags(&["a"]));
    assert_eq!(found.len(), 1);
    assert_eq!(found[0].id, matching);
    let none = store.get_documents_by_tags(OWNER, tags(&["z"]));
    assert!(none.is_empty());
}

#[test]
fn test_tag_filter_empty_search_matches_nothing() {
    let mut store = DocumentStorage::init();
    create_tagged(&mut store, 1, "a", &["a"]);
    assert!(store.get_documents_by_tags(OWNER, tags(&[])).is_empty());
}

#[test]
fn test_tag_filter_is_case_sensitive_and_exact() {
    let mut store = DocumentStorage::init();
    create_tagged(&mut store, 1, "a", &["Tag"]);
    assert!(store.get_documents_by_tags(OWNER, tags(&["tag"])).is_empty());
    assert!(store.get_documents_by_tags(OWNER, tags(&["Tag "])).is_empty());
    assert_eq!(store.get_documents_by_tags(OWNER, tags(&["Tag"])).len(), 1);
}

#[test]
fn test_tag_filter_preserves_order() {
    let mut store = DocumentStorage::init();
    let id0 = create_tagged(&mut store, 1, "a", &["t"]);
    create_tagged(&mut store, 2, "b", &["other"]);
    let id2 = create_tagged(&mut store, 3, "c", &["t", "more"]);
    let found: Vec<u32> = store.get_documents_by_tags(OWNER, tags(&["t"])).iter().map(|d| d.id).collect();
    assert_eq!(found, vec![id0, id2]);
}

#[test]
fn test_count_follows_creates_and_deletes() {
    let mut store = DocumentStorage::init();
    assert_eq!(store.get_document_count(OWNER), 0);
    let id0 = create_tagged(&mut store, 1, "a", &[]);
    let id1 = create_tagged(&mut store, 2, "b", &[]);
    assert_eq!(store.get_document_count(OWNER), 2);
    assert!(store.delete_document(true, OWNER, id0));
    assert_eq!(store.get_document_count(OWNER), 1);
    assert!(store.delete_document(true, OWNER, id1));
    assert_eq!(store.get_document_count(OWNER), 0);
    // The counter survives the deletions.
    assert_eq!(store.next_document_id(OWNER), 2);
}

#[test]
fn test_updated_tags_drive_the_filter() {
    let mut store = DocumentStorage::init();
    let id = create_tagged(&mut store, 1, "a", &["old"]);
    assert!(store.update_document(true, 2, OWNER, id, None, None, None, Some(tags(&["new"]))));
    assert!(store.get_documents_by_tags(OWNER, tags(&["old"])).is_empty());
    assert_eq!(store.get_documents_by_tags(OWNER, tags(&["new"])).len(), 1);
}
