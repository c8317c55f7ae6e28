use clipboard_manager::crypto::Crypto;
use clipboard_manager::models::{ClipboardItem, DataType, EntryKind};
use clipboard_manager::store::{Database, StoreError};

fn make_db() -> Database {
    let crypto = Crypto::new(vec![7u8; 32]).unwrap();
    Database::new(crypto)
}

fn text_item(content: &str, timestamp: u64) -> ClipboardItem {
    ClipboardItem {
        id: None,
        content: content.to_string(),
        kind: EntryKind::Text,
        timestamp,
        is_sensitive: false,
        is_pinned: false,
        source_app: None,
        data_type: DataType::Text,
        collection_id: None,
        note: None,
    }
}

#[test]
fn basic_lifecycle() {
    let mut db = make_db();
    let pruned = db.insert_item(&text_item("hello", 1), 100).unwrap();
    assert!(pruned.is_empty());
    assert_eq!(db.count_history(), 1);

    let toggled = db.toggle_sensitive(0).unwrap();
    assert!(toggled);

    let item = db.get_by_position(0).unwrap();
    let id = item.id.unwrap();
    assert!(item.is_sensitive);
    assert_eq!(item.content, "hello");

    let full = db.get_item_content(id).unwrap();
    assert_eq!(full, "hello");

    let deleted = db.delete_item(0).unwrap();
    assert_eq!(deleted.content, "hello");
    assert_eq!(db.count_history(), 0);
}

#[test]
fn dedup_refreshes_single_row() {
    let mut db = make_db();
    db.insert_item(&text_item("dup", 10), 100).unwrap();
    let first = db.get_by_position(0).unwrap();
    let mut second = text_item("dup", 20);
    second.source_app = Some("SomeApp".to_string());
    db.insert_item(&second, 100).unwrap();

    assert_eq!(db.count_history(), 1);
    let refreshed = db.get_by_position(0).unwrap();
    assert_eq!(refreshed.id, first.id);
    assert_eq!(refreshed.timestamp, 20);
    assert_eq!(refreshed.source_app.as_deref(), Some("SomeApp"));
}

#[test]
fn same_content_different_kind_is_no_duplicate() {
    let mut db = make_db();
    db.insert_item(&text_item("/tmp/shot.png", 1), 100).unwrap();
    let mut image = text_item("/tmp/shot.png", 2);
    image.kind = EntryKind::Image;
    image.data_type = DataType::Image;
    db.insert_item(&image, 100).unwrap();
    assert_eq!(db.count_history(), 2);
}

#[test]
fn capacity_prunes_oldest_eligible() {
    let mut db = make_db();
    let contents = ["a", "b", "c", "d", "e"];
    let mut all_pruned = Vec::new();
    for (i, c) in contents.iter().enumerate() {
        let pruned = db.insert_item(&text_item(c, (i + 1) as u64), 3).unwrap();
        all_pruned.extend(pruned);
    }
    assert_eq!(db.count_history(), 3);
    let pruned_contents: Vec<String> = all_pruned.into_iter().map(|p| p.content).collect();
    assert_eq!(pruned_contents, vec!["a".to_string(), "b".to_string()]);
    let remaining: Vec<String> =
        db.get_history(1, 10, None, None).into_iter().map(|it| it.content).collect();
    assert_eq!(remaining, vec!["e".to_string(), "d".to_string(), "c".to_string()]);
}

#[test]
fn pinned_entries_survive_pruning() {
    let mut db = make_db();
    db.insert_item(&text_item("keep me", 1), 10).unwrap();
    assert!(db.toggle_pin(0).unwrap());
    for i in 0..6u64 {
        let c = format!("filler {}", i);
        db.insert_item(&text_item(&c, 2 + i), 3).unwrap();
    }
    assert_eq!(db.count_history(), 3);
    let listed = db.get_history(1, 10, None, None);
    assert!(listed.iter().any(|it| it.content == "keep me" && it.is_pinned));
}

#[test]
fn capacity_is_soft_for_pinned() {
    let mut db = make_db();
    for i in 0..3u64 {
        let c = format!("pinned {}", i);
        db.insert_item(&text_item(&c, i + 1), 10).unwrap();
        // the fresh entry is unpinned, so it stands after the pinned ones
        let pos = db.count_history() - 1;
        assert!(db.toggle_pin(pos).unwrap());
    }
    // capacity 2 is exceeded, but all entries are pinned: none is removed
    let pruned = db.insert_item(&text_item("fresh", 10), 2).unwrap();
    assert_eq!(pruned.len(), 1);
    assert_eq!(pruned[0].content, "fresh");
    assert_eq!(db.count_history(), 3);
}

#[test]
fn ordering_pinned_first_then_newest() {
    let mut db = make_db();
    db.insert_item(&text_item("old", 1), 100).unwrap();
    db.insert_item(&text_item("mid", 5), 100).unwrap();
    db.insert_item(&text_item("new", 9), 100).unwrap();
    // pin "old", which sits at the bottom (position 2)
    assert!(db.toggle_pin(2).unwrap());

    let order: Vec<String> =
        db.get_history(1, 10, None, None).into_iter().map(|it| it.content).collect();
    assert_eq!(order, vec!["old".to_string(), "new".to_string(), "mid".to_string()]);
}

#[test]
fn collection_detach_keeps_entry() {
    let mut db = make_db();
    let work = db.create_collection("work".to_string(), 1).unwrap();
    assert_eq!(work.name, "work");
    db.insert_item(&text_item("report", 2), 100).unwrap();
    let id = db.get_by_position(0).unwrap().id.unwrap();

    db.set_item_collection(id, Some(work.id)).unwrap();
    assert_eq!(db.get_by_position(0).unwrap().collection_id, Some(work.id));

    db.delete_collection(work.id);
    let after = db.get_by_position(0).unwrap();
    assert_eq!(after.id, Some(id));
    assert_eq!(after.collection_id, None);
    assert!(db.get_collections().is_empty());
}

#[test]
fn clear_policy() {
    let mut db = make_db();
    let coll = db.create_collection("stash".to_string(), 1).unwrap();

    db.insert_item(&text_item("pinned one", 1), 100).unwrap();
    db.toggle_pin(0).unwrap();
    db.insert_item(&text_item("collected one", 2), 100).unwrap();
    let collected_id = db
        .get_history(1, 10, Some("collected".to_string()), None)
        .first()
        .unwrap()
        .id
        .unwrap();
    db.set_item_collection(collected_id, Some(coll.id)).unwrap();
    db.insert_item(&text_item("plain one", 3), 100).unwrap();

    let deleted = db.clear_history(true, true);
    assert_eq!(deleted.len(), 1);
    assert_eq!(deleted[0].content, "plain one");
    assert_eq!(db.count_history(), 2);
    let left: Vec<String> =
        db.get_history(1, 10, None, None).into_iter().map(|it| it.content).collect();
    assert!(left.contains(&"pinned one".to_string()));
    assert!(left.contains(&"collected one".to_string()));

    let deleted_all = db.clear_history(false, false);
    assert_eq!(deleted_all.len(), 2);
    assert_eq!(db.count_history(), 0);
}

#[test]
fn list_truncates_long_text_but_full_fetch_does_not() {
    let mut db = make_db();
    let long = "x".repeat(250);
    db.insert_item(&text_item(&long, 1), 100).unwrap();
    let listed = db.get_history(1, 10, None, None);
    assert_eq!(listed[0].content.chars().count(), 200);
    let id = listed[0].id.unwrap();
    assert_eq!(db.get_item_content(id).unwrap(), long);
}

#[test]
fn list_filters_by_query_and_collection() {
    let mut db = make_db();
    let coll = db.create_collection("notes".to_string(), 1).unwrap();
    db.insert_item(&text_item("alpha beta", 1), 100).unwrap();
    db.insert_item(&text_item("beta gamma", 2), 100).unwrap();
    db.insert_item(&text_item("delta", 3), 100).unwrap();
    let id = db.get_history(1, 10, Some("delta".to_string()), None)[0].id.unwrap();
    db.set_item_collection(id, Some(coll.id)).unwrap();

    let betas: Vec<String> = db
        .get_history(1, 10, Some("beta".to_string()), None)
        .into_iter()
        .map(|it| it.content)
        .collect();
    assert_eq!(betas, vec!["beta gamma".to_string(), "alpha beta".to_string()]);

    let in_coll = db.get_history(1, 10, None, Some(coll.id));
    assert_eq!(in_coll.len(), 1);
    assert_eq!(in_coll[0].content, "delta");

    // pagination: page two of size two over three entries
    let page2 = db.get_history(2, 2, None, None);
    assert_eq!(page2.len(), 1);
    assert_eq!(page2[0].content, "alpha beta");
}

#[test]
fn toggle_sensitive_round_trip_restores_plaintext() {
    let mut db = make_db();
    db.insert_item(&text_item("secret text", 1), 100).unwrap();
    assert!(db.toggle_sensitive(0).unwrap());
    // transparently decrypted on every read
    assert_eq!(db.get_by_position(0).unwrap().content, "secret text");
    assert!(!db.toggle_sensitive(0).unwrap());
    let item = db.get_by_position(0).unwrap();
    assert!(!item.is_sensitive);
    assert_eq!(item.content, "secret text");
}

#[test]
fn sensitive_insert_stores_encrypted_and_lists_plaintext() {
    let mut db = make_db();
    let mut item = text_item("classified", 1);
    item.is_sensitive = true;
    db.insert_item(&item, 100).unwrap();
    let listed = db.get_by_position(0).unwrap();
    assert!(listed.is_sensitive);
    assert_eq!(listed.content, "classified");
    // dedup is by plaintext even for the sensitive entry
    db.insert_item(&text_item("classified", 2), 100).unwrap();
    assert_eq!(db.count_history(), 1);
    assert_eq!(db.get_by_position(0).unwrap().timestamp, 2);
}

#[test]
fn not_found_errors() {
    let mut db = make_db();
    assert_eq!(db.toggle_sensitive(0), Err(StoreError::NotFound));
    assert_eq!(db.toggle_pin(5), Err(StoreError::NotFound));
    assert!(db.delete_item(0).is_none());
    assert!(db.get_by_position(3).is_none());
    assert_eq!(db.get_item_content(42), Err(StoreError::NotFound));
    db.insert_item(&text_item("x", 1), 100).unwrap();
    let id = db.get_by_position(0).unwrap().id.unwrap();
    assert_eq!(db.set_item_collection(id, Some(999)), Err(StoreError::NotFound));
}

#[test]
fn update_content_and_conflict() {
    let mut db = make_db();
    db.insert_item(&text_item("one", 1), 100).unwrap();
    db.insert_item(&text_item("two", 2), 100).unwrap();
    let id_one = db.get_history(1, 10, Some("one".to_string()), None)[0].id.unwrap();

    // overwriting with content another entry holds is refused
    assert_eq!(
        db.update_content(id_one, "two".to_string(), DataType::Text, None, 5),
        Err(StoreError::Conflict)
    );

    db.update_content(id_one, "first".to_string(), DataType::Text, Some("note".to_string()), 9)
        .unwrap();
    let updated = db.get_by_position(0).unwrap();
    assert_eq!(updated.id, Some(id_one));
    assert_eq!(updated.content, "first");
    assert_eq!(updated.timestamp, 9);
    assert_eq!(updated.note.as_deref(), Some("note"));
}

#[test]
fn update_timestamp_moves_entry_to_front() {
    let mut db = make_db();
    db.insert_item(&text_item("a", 1), 100).unwrap();
    db.insert_item(&text_item("b", 2), 100).unwrap();
    let id_a = db.get_history(1, 10, Some("a".to_string()), None)[0].id.unwrap();
    db.update_timestamp(id_a, 10);
    let order: Vec<String> =
        db.get_history(1, 10, None, None).into_iter().map(|it| it.content).collect();
    assert_eq!(order, vec!["a".to_string(), "b".to_string()]);
}

#[test]
fn note_matches_query() {
    let mut db = make_db();
    db.insert_item(&text_item("payload", 1), 100).unwrap();
    let id = db.get_by_position(0).unwrap().id.unwrap();
    db.update_content(id, "payload".to_string(), DataType::Text, Some("remember me".to_string()), 2)
        .unwrap();
    let hits = db.get_history(1, 10, Some("remember".to_string()), None);
    assert_eq!(hits.len(), 1);
    assert_eq!(hits[0].content, "payload");
}
