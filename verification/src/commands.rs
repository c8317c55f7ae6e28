//! The verified compute side of the foreground command layer. Most
//! foreground commands are direct store calls; placing an item on the
//! clipboard by hand is the one with logic of its own: it must mark the
//! echo-suppression slot before the caller touches the OS clipboard, and
//! then either refresh the timestamp of the existing entry or insert a
//! fresh, classified entry.

use vstd::prelude::*;
use crate::classify::{classify_content, classify_spec};
use crate::models::{ClipboardItem, EntryKind, ItemModel};
use crate::state::AppState;
use crate::store::{
    after_insert_step,
    after_prune,
    index_of_id,
    item_of_pruned,
    place_entry,
    pruned_by,
    retime,
    Database,
    EntryModel,
    StoreError,
};

verus! {

/// The entry a manual paste-to-store creates: unpinned, non-sensitive —
/// only the store's toggle flags sensitivity — without provenance, and
/// classified from the content whatever its kind.
pub open spec fn manual_item(content: Seq<char>, kind: EntryKind, now: u64) -> ItemModel {
    ItemModel {
        id: None,
        content,
        kind,
        timestamp: now,
        is_sensitive: false,
        is_pinned: false,
        source_app: None,
        data_type: classify_spec(content),
        collection_id: None,
        note: None,
    }
}

/// Register a manual clipboard write with the core, before the caller
/// performs the OS clipboard write itself: the content is recorded in
/// the echo-suppression slot so the write is not re-captured, and the
/// store is brought up to date — an existing entry (addressed by id) has
/// its timestamp refreshed, anything else is inserted as a fresh entry,
/// pruning included. Returns the pruned entries for resource cleanup.
pub fn set_clipboard_item(
    state: &mut AppState,
    db: &mut Database,
    content: String,
    kind: EntryKind,
    id: Option<i64>,
    now: u64,
) -> (r: Result<Vec<ClipboardItem>, StoreError>)
    requires
        old(db).wf(),
    ensures
        final(db).wf(),
        final(db).collections_view() == old(db).collections_view(),
        final(state).last_app_change matches Some(s) && s@ == content@,
        final(state).config == old(state).config,
        final(state).is_paused == old(state).is_paused,
        final(state).last_app_image_change == old(state).last_app_image_change,
        final(state).paste_stack == old(state).paste_stack,
        ({
            let max = old(state).config.max_history_size;
            match id {
                Some(eid) => match r {
                    Ok(pruned) => {
                        &&& pruned@.len() == 0
                        &&& match index_of_id(old(db)@, eid) {
                            Some(i) => final(db)@ == place_entry(
                                old(db)@.remove(i),
                                retime(old(db)@[i], now),
                            ),
                            None => final(db)@ == old(db)@,
                        }
                    },
                    Err(_) => false,
                },
                None => match r {
                    Ok(pruned) => {
                        let s2 = after_insert_step(
                            old(db)@,
                            manual_item(content@, kind, now),
                            old(db).spec_next_id(),
                        );
                        &&& final(db)@ == after_prune(s2, max as nat)
                        &&& pruned@.map_values(|it: ClipboardItem| it@) == pruned_by(
                            s2,
                            max as nat,
                        ).map_values(|e: EntryModel| item_of_pruned(e))
                    },
                    Err(_) => final(db)@ == old(db)@,
                },
            }
        }),
{
    state.mark_text_write(content.clone());
    match id {
        Some(eid) => {
            db.update_timestamp(eid, now);
            let empty: Vec<ClipboardItem> = Vec::new();
            proof {
                assert(empty@.len() == 0);
            }
            Ok(empty)
        },
        None => {
            let item = ClipboardItem {
                id: None,
                content: content.clone(),
                kind,
                timestamp: now,
                is_sensitive: false,
                is_pinned: false,
                source_app: None,
                data_type: classify_content(content.as_str()),
                collection_id: None,
                note: None,
            };
            let max = state.config.max_history_size;
            db.insert_item(&item, max)
        },
    }
}

} // verus!
