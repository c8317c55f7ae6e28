use clipboard_manager::commands::set_clipboard_item;
use clipboard_manager::crypto::Crypto;
use clipboard_manager::models::{AppConfig, ClipboardItem, DataType, EntryKind};
use clipboard_manager::monitor::{is_password_manager, CaptureDecision, ClipboardMonitor};
use clipboard_manager::state::AppState;
use clipboard_manager::store::Database;

fn setup() -> (ClipboardMonitor, AppState, Database) {
    let monitor = ClipboardMonitor::new(String::new());
    let state = AppState::new(AppConfig::default());
    let crypto = Crypto::new(vec![9u8; 32]).unwrap();
    let db = Database::new(crypto);
    (monitor, state, db)
}

#[test]
fn captures_new_text_and_classifies_it() {
    let (mut monitor, mut state, mut db) = setup();
    let (d, pruned) = monitor
        .on_text_change(&mut state, &mut db, &"https://example.com/x".to_string(), None, 1)
        .unwrap();
    assert_eq!(d, CaptureDecision::Capture);
    assert!(pruned.is_empty());
    assert_eq!(db.count_history(), 1);
    let item = db.get_by_position(0).unwrap();
    assert_eq!(item.content, "https://example.com/x");
    assert_eq!(item.kind, EntryKind::Text);
    assert_eq!(item.data_type, DataType::Url);
    assert!(!item.is_sensitive);
}

#[test]
fn paused_ignores_changes() {
    let (mut monitor, mut state, mut db) = setup();
    state.set_paused(true);
    assert!(state.get_paused());
    let (d, _) = monitor
        .on_text_change(&mut state, &mut db, &"while paused".to_string(), None, 1)
        .unwrap();
    assert_eq!(d, CaptureDecision::Paused);
    assert_eq!(db.count_history(), 0);
    state.set_paused(false);
    let (d2, _) = monitor
        .on_text_change(&mut state, &mut db, &"while paused".to_string(), None, 2)
        .unwrap();
    assert_eq!(d2, CaptureDecision::Capture);
    assert_eq!(db.count_history(), 1);
}

#[test]
fn sensitive_app_discards_entirely() {
    let (mut monitor, mut state, mut db) = setup();
    let (d, _) = monitor
        .on_text_change(
            &mut state,
            &mut db,
            &"master password".to_string(),
            Some("1Password 8".to_string()),
            1,
        )
        .unwrap();
    assert_eq!(d, CaptureDecision::SensitiveApp);
    assert_eq!(db.count_history(), 0);
}

#[test]
fn password_manager_matching() {
    let apps = vec!["1Password".to_string(), "KeePassXC".to_string()];
    assert!(is_password_manager(&apps, "1Password 8"));
    assert!(is_password_manager(&apps, "keepassxc")); // case-insensitive equality
    assert!(!is_password_manager(&apps, "Terminal"));
}

#[test]
fn self_echo_is_suppressed_once_on_exact_match() {
    let (mut monitor, mut state, mut db) = setup();
    state.mark_text_write("written by us".to_string());
    let (d, _) = monitor
        .on_text_change(&mut state, &mut db, &"written by us".to_string(), None, 1)
        .unwrap();
    assert_eq!(d, CaptureDecision::SelfEcho);
    assert_eq!(db.count_history(), 0);
    // the marker was consumed: a second identical observation is merely unchanged
    let (d2, _) = monitor
        .on_text_change(&mut state, &mut db, &"written by us".to_string(), None, 2)
        .unwrap();
    assert_eq!(d2, CaptureDecision::Unchanged);
}

#[test]
fn non_matching_marker_is_kept() {
    let (mut monitor, mut state, mut db) = setup();
    state.mark_text_write("what we wrote".to_string());
    let (d, _) = monitor
        .on_text_change(&mut state, &mut db, &"someone else".to_string(), None, 1)
        .unwrap();
    assert_eq!(d, CaptureDecision::Capture);
    // the marker still guards the write it marks
    let (d2, _) = monitor
        .on_text_change(&mut state, &mut db, &"what we wrote".to_string(), None, 2)
        .unwrap();
    assert_eq!(d2, CaptureDecision::SelfEcho);
}

#[test]
fn unchanged_and_empty_are_ignored() {
    let (mut monitor, mut state, mut db) = setup();
    let (_, _) = monitor
        .on_text_change(&mut state, &mut db, &"same".to_string(), None, 1)
        .unwrap();
    let (d, _) = monitor
        .on_text_change(&mut state, &mut db, &"same".to_string(), None, 2)
        .unwrap();
    assert_eq!(d, CaptureDecision::Unchanged);
    let (d2, _) = monitor
        .on_text_change(&mut state, &mut db, &String::new(), None, 3)
        .unwrap();
    assert_eq!(d2, CaptureDecision::Unchanged);
    assert_eq!(db.count_history(), 1);
}

#[test]
fn image_observation_and_recording() {
    let (mut monitor, mut state, mut db) = setup();
    let rgba = vec![1u8, 2, 3, 4];
    let d = monitor.observe_image(&mut state, &rgba, &None);
    assert_eq!(d, CaptureDecision::Capture);
    // unchanged on the next observation of the same bytes
    assert_eq!(monitor.observe_image(&mut state, &rgba, &None), CaptureDecision::Unchanged);
    // empty images are ignored
    assert_eq!(monitor.observe_image(&mut state, &Vec::new(), &None), CaptureDecision::Unchanged);

    let pruned = monitor
        .record_image(&mut db, "/data/images/1.png".to_string(), None, 5, 10)
        .unwrap();
    assert!(pruned.is_empty());
    let item = db.get_by_position(0).unwrap();
    assert_eq!(item.kind, EntryKind::Image);
    assert_eq!(item.data_type, DataType::Image);
    assert_eq!(item.content, "/data/images/1.png");
}

#[test]
fn image_echo_marker() {
    let (mut monitor, mut state, _db) = setup();
    let rgba = vec![9u8, 9, 9];
    state.mark_image_write(rgba.clone());
    assert_eq!(monitor.observe_image(&mut state, &rgba, &None), CaptureDecision::SelfEcho);
    // consumed: the same bytes again are just unchanged now
    assert_eq!(monitor.observe_image(&mut state, &rgba, &None), CaptureDecision::Unchanged);
}

#[test]
fn manual_set_is_not_recaptured() {
    let (mut monitor, mut state, mut db) = setup();
    let pruned = set_clipboard_item(
        &mut state,
        &mut db,
        "pasted by hand".to_string(),
        EntryKind::Text,
        None,
        7,
    )
    .unwrap();
    assert!(pruned.is_empty());
    assert_eq!(db.count_history(), 1);
    let stored = db.get_by_position(0).unwrap();
    assert_eq!(stored.content, "pasted by hand");
    assert!(!stored.is_sensitive);

    // the write-back must not re-trigger capture of itself
    let (d, _) = monitor
        .on_text_change(&mut state, &mut db, &"pasted by hand".to_string(), None, 8)
        .unwrap();
    assert_eq!(d, CaptureDecision::SelfEcho);
    assert_eq!(db.count_history(), 1);
}

#[test]
fn manual_set_by_id_refreshes_timestamp() {
    let (_monitor, mut state, mut db) = setup();
    set_clipboard_item(&mut state, &mut db, "existing".to_string(), EntryKind::Text, None, 1)
        .unwrap();
    let id = db.get_by_position(0).unwrap().id.unwrap();
    set_clipboard_item(&mut state, &mut db, "existing".to_string(), EntryKind::Text, Some(id), 99)
        .unwrap();
    assert_eq!(db.count_history(), 1);
    assert_eq!(db.get_by_position(0).unwrap().timestamp, 99);
}

#[test]
fn paste_stack_is_fifo() {
    let mut state = AppState::new(AppConfig::default());
    let mk = |c: &str| ClipboardItem {
        id: None,
        content: c.to_string(),
        kind: EntryKind::Text,
        timestamp: 0,
        is_sensitive: false,
        is_pinned: false,
        source_app: None,
        data_type: DataType::Text,
        collection_id: None,
        note: None,
    };
    state.set_paste_stack(vec![mk("first"), mk("second"), mk("third")]);
    assert_eq!(state.pop_paste_item().unwrap().content, "first");
    assert_eq!(state.pop_paste_item().unwrap().content, "second");
    assert_eq!(state.pop_paste_item().unwrap().content, "third");
    assert!(state.pop_paste_item().is_none());
}
