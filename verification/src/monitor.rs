//! The capture coordinator's decision core. The embedding application
//! runs the blocking clipboard-observation loop and reads the OS
//! clipboard and the foreground window; everything the coordinator
//! decides about an observed change — pause, sensitive-application
//! suppression, echo suppression, change detection, classification and
//! the store insert — happens here.

use vstd::prelude::*;
use crate::classify::{classify_content, classify_spec};
use crate::models::{ClipboardItem, DataType, EntryKind, ItemModel};
use crate::state::{eq_bytes, AppState};
use crate::store::{after_insert_step, after_prune, pruned_by, item_of_pruned, Database, StoreError};
use crate::text::{contains_seq, eq_ignore_case_spec, eq_ignore_ascii_case, str_contains};

verus! {

/// Whether a foreground application name matches the sensitive list: it
/// contains a listed name, or equals one up to ASCII letter case.
pub open spec fn app_is_sensitive(apps: Seq<Seq<char>>, name: Seq<char>) -> bool {
    exists|i: int|
        0 <= i < apps.len() && (contains_seq(name, #[trigger] apps[i]) || eq_ignore_case_spec(
            name,
            apps[i],
        ))
}

/// What the coordinator decided about one observed clipboard change.
#[derive(Clone, Copy, PartialEq, Eq, Structural, Debug)]
pub enum CaptureDecision {
    /// Capture is paused; the change is ignored, not queued.
    Paused,
    /// The foreground application is on the sensitive list; the change is
    /// discarded entirely, no history trace.
    SensitiveApp,
    /// The change is this system's own write-back; the marker is consumed
    /// and the change discarded.
    SelfEcho,
    /// The value is unchanged since the last observation, or empty.
    Unchanged,
    /// The change is to be captured.
    Capture,
}

/// The item an observed text change becomes: a fresh, unpinned,
/// non-sensitive text entry — automatic capture never flags sensitivity —
/// classified heuristically, carrying the foreground application.
pub open spec fn text_capture_item(
    text: Seq<char>,
    source_app: Option<Seq<char>>,
    now: u64,
) -> ItemModel {
    ItemModel {
        id: None,
        content: text,
        kind: EntryKind::Text,
        timestamp: now,
        is_sensitive: false,
        is_pinned: false,
        source_app,
        data_type: classify_spec(text),
        collection_id: None,
        note: None,
    }
}

/// The item a persisted image capture becomes: the entry references the
/// externally stored file by path, never the raw bytes.
pub open spec fn image_capture_item(
    path: Seq<char>,
    source_app: Option<Seq<char>>,
    now: u64,
) -> ItemModel {
    ItemModel {
        id: None,
        content: path,
        kind: EntryKind::Image,
        timestamp: now,
        is_sensitive: false,
        is_pinned: false,
        source_app,
        data_type: DataType::Image,
        collection_id: None,
        note: None,
    }
}

/// The capture coordinator's own memory: the last value it saw on the
/// clipboard, per kind, to ignore repeated observations of one value.
pub struct ClipboardMonitor {
    pub last_text: String,
    pub last_image_hash: Vec<u8>,
}

/// Whether the foreground application is on the configured sensitive
/// list, so that its clipboard activity must be ignored entirely.
pub fn is_password_manager(sensitive_apps: &Vec<String>, app_name: &str) -> (r: bool)
    ensures
        r == app_is_sensitive(sensitive_apps@.map_values(|s: String| s@), app_name@),
{
    let ghost apps = sensitive_apps@.map_values(|s: String| s@);
    let n = sensitive_apps.len();
    let mut i: usize = 0;
    while i < n
        invariant
            n == sensitive_apps@.len(),
            0 <= i <= n,
            apps == sensitive_apps@.map_values(|s: String| s@),
            forall|k: int|
                0 <= k < i ==> !(contains_seq(app_name@, #[trigger] apps[k]) || eq_ignore_case_spec(
                    app_name@,
                    apps[k],
                )),
        decreases n - i,
    {
        if str_contains(app_name, sensitive_apps[i].as_str()) || eq_ignore_ascii_case(
            app_name,
            sensitive_apps[i].as_str(),
        ) {
            proof {
                assert(contains_seq(app_name@, apps[i as int]) || eq_ignore_case_spec(
                    app_name@,
                    apps[i as int],
                ));
            }
            return true;
        }
        i += 1;
    }
    false
}

impl ClipboardMonitor {
    /// A coordinator primed with what the clipboard held at startup, so
    /// that the pre-existing value is not captured as a change.
    pub fn new(initial_text: String) -> (r: ClipboardMonitor)
        ensures
            r.last_text == initial_text,
            r.last_image_hash@ == Seq::<u8>::empty(),
    {
        let r = ClipboardMonitor { last_text: initial_text, last_image_hash: Vec::new() };
        proof {
            assert(r.last_image_hash@ =~= Seq::<u8>::empty());
        }
        r
    }

    /// Decide what an observed text change becomes, in the fixed order:
    /// paused, sensitive application, self-echo (consuming the marker on
    /// an exact match), unchanged-or-empty — and otherwise capture it,
    /// classifying the text and inserting it into the store, pruning
    /// included. Returns the decision, with the pruned entries to clean
    /// up after, or the store's error; a failed insert changes nothing.
    pub fn on_text_change(
        &mut self,
        state: &mut AppState,
        db: &mut Database,
        text: &String,
        source_app: Option<String>,
        now: u64,
    ) -> (r: Result<(CaptureDecision, Vec<ClipboardItem>), StoreError>)
        requires
            old(db).wf(),
        ensures
            final(db).wf(),
            final(db).collections_view() == old(db).collections_view(),
            final(state).config == old(state).config,
            final(state).is_paused == old(state).is_paused,
            final(state).last_app_image_change == old(state).last_app_image_change,
            final(state).paste_stack == old(state).paste_stack,
            ({
                let paused = old(state).is_paused;
                let sens = match source_app {
                    Some(a) => app_is_sensitive(
                        old(state).config.sensitive_apps@.map_values(|s: String| s@),
                        a@,
                    ),
                    None => false,
                };
                let echo = old(state).last_app_change matches Some(s) && s@ == text@;
                let unchanged = text@ == old(self).last_text@ || text@.len() == 0;
                let item = text_capture_item(text@, crate::models::view_opt_string(source_app), now);
                match r {
                    Ok((d, pruned)) => {
                        &&& (d == CaptureDecision::Paused) <==> paused
                        &&& (d == CaptureDecision::SensitiveApp) <==> (!paused && sens)
                        &&& (d == CaptureDecision::SelfEcho) <==> (!paused && !sens && echo)
                        &&& (d == CaptureDecision::Unchanged) <==> (!paused && !sens && !echo
                            && unchanged)
                        &&& (d == CaptureDecision::Capture) <==> (!paused && !sens && !echo
                            && !unchanged)
                        &&& (d == CaptureDecision::SelfEcho) ==> final(state).last_app_change
                            is None && final(self).last_text@ == text@
                        &&& (d == CaptureDecision::Capture) ==> ({
                            let s2 = after_insert_step(old(db)@, item, old(db).spec_next_id());
                            let max = old(state).config.max_history_size;
                            &&& final(self).last_text@ == text@
                            &&& final(state).last_app_change == old(state).last_app_change
                            &&& final(db)@ == after_prune(s2, max as nat)
                            &&& pruned@.map_values(|it: ClipboardItem| it@) == pruned_by(
                                s2,
                                max as nat,
                            ).map_values(|e: crate::store::EntryModel| item_of_pruned(e))
                        })
                        &&& (d == CaptureDecision::Paused || d == CaptureDecision::SensitiveApp
                            || d == CaptureDecision::Unchanged) ==> (final(db)@ == old(db)@
                            && final(self).last_text == old(self).last_text
                            && final(state).last_app_change == old(state).last_app_change)
                        &&& (d != CaptureDecision::Capture) ==> pruned@.len() == 0
                    },
                    Err(_) => {
                        &&& final(db)@ == old(db)@
                        &&& !paused && !sens && !echo && !unchanged
                        &&& final(self).last_text@ == text@
                    },
                }
            }),
    {
        if state.get_paused() {
            return Ok((CaptureDecision::Paused, Vec::new()));
        }
        let sens = match &source_app {
            Some(a) => is_password_manager(&state.config.sensitive_apps, a.as_str()),
            None => false,
        };
        if sens {
            return Ok((CaptureDecision::SensitiveApp, Vec::new()));
        }
        if state.consume_text_echo(text.as_str()) {
            self.last_text = text.clone();
            return Ok((CaptureDecision::SelfEcho, Vec::new()));
        }
        if *text == self.last_text || text.as_str().unicode_len() == 0 {
            return Ok((CaptureDecision::Unchanged, Vec::new()));
        }
        self.last_text = text.clone();
        let item = ClipboardItem {
            id: None,
            content: text.clone(),
            kind: EntryKind::Text,
            timestamp: now,
            is_sensitive: false,
            is_pinned: false,
            source_app,
            data_type: classify_content(text.as_str()),
            collection_id: None,
            note: None,
        };
        let max = state.config.max_history_size;
        match db.insert_item(&item, max) {
            Ok(pruned) => Ok((CaptureDecision::Capture, pruned)),
            Err(e) => Err(e),
        }
    }

    /// Decide whether an observed image change is to be captured, in the
    /// same fixed order as for text, comparing the raw bytes against the
    /// image echo marker and the last observed image. On a capture
    /// decision the coordinator remembers the bytes; the caller then
    /// persists the image to a file and hands the path to
    /// [`ClipboardMonitor::record_image`].
    pub fn observe_image(
        &mut self,
        state: &mut AppState,
        rgba: &Vec<u8>,
        source_app: &Option<String>,
    ) -> (d: CaptureDecision)
        ensures
            final(state).config == old(state).config,
            final(state).is_paused == old(state).is_paused,
            final(state).last_app_change == old(state).last_app_change,
            final(state).paste_stack == old(state).paste_stack,
            final(self).last_text == old(self).last_text,
            ({
                let paused = old(state).is_paused;
                let sens = match *source_app {
                    Some(a) => app_is_sensitive(
                        old(state).config.sensitive_apps@.map_values(|s: String| s@),
                        a@,
                    ),
                    None => false,
                };
                let echo = old(state).last_app_image_change matches Some(b) && b@ == rgba@;
                let unchanged = rgba@.len() == 0 || rgba@ == old(self).last_image_hash@;
                &&& (d == CaptureDecision::Paused) <==> paused
                &&& (d == CaptureDecision::SensitiveApp) <==> (!paused && sens)
                &&& (d == CaptureDecision::SelfEcho) <==> (!paused && !sens && echo)
                &&& (d == CaptureDecision::Unchanged) <==> (!paused && !sens && !echo && unchanged)
                &&& (d == CaptureDecision::Capture) <==> (!paused && !sens && !echo && !unchanged)
                &&& (d == CaptureDecision::SelfEcho) ==> final(state).last_app_image_change is None
                    && final(self).last_image_hash@ == rgba@
                &&& (d == CaptureDecision::Capture) ==> final(self).last_image_hash@ == rgba@
                    && final(state).last_app_image_change == old(state).last_app_image_change
                &&& (d == CaptureDecision::Paused || d == CaptureDecision::SensitiveApp || d
                    == CaptureDecision::Unchanged) ==> (final(self).last_image_hash == old(
                    self,
                ).last_image_hash && final(state).last_app_image_change == old(
                    state,
                ).last_app_image_change)
            }),
    {
        if state.get_paused() {
            return CaptureDecision::Paused;
        }
        let sens = match source_app {
            Some(a) => is_password_manager(&state.config.sensitive_apps, a.as_str()),
            None => false,
        };
        if sens {
            return CaptureDecision::SensitiveApp;
        }
        if state.consume_image_echo(rgba) {
            self.last_image_hash = clone_bytes(rgba);
            return CaptureDecision::SelfEcho;
        }
        if rgba.len() == 0 || eq_bytes(rgba, &self.last_image_hash) {
            return CaptureDecision::Unchanged;
        }
        self.last_image_hash = clone_bytes(rgba);
        CaptureDecision::Capture
    }

    /// Insert a captured image into the store, as an entry referencing
    /// the externally stored file at `path`; pruning included, exactly as
    /// for text.
    pub fn record_image(
        &mut self,
        db: &mut Database,
        path: String,
        source_app: Option<String>,
        now: u64,
        max_size: usize,
    ) -> (r: Result<Vec<ClipboardItem>, StoreError>)
        requires
            old(db).wf(),
        ensures
            final(db).wf(),
            final(db).collections_view() == old(db).collections_view(),
            final(self).last_text == old(self).last_text,
            final(self).last_image_hash == old(self).last_image_hash,
            ({
                let item = image_capture_item(path@, crate::models::view_opt_string(source_app), now);
                match r {
                    Ok(pruned) => {
                        let s2 = after_insert_step(old(db)@, item, old(db).spec_next_id());
                        &&& final(db)@ == after_prune(s2, max_size as nat)
                        &&& pruned@.map_values(|it: ClipboardItem| it@) == pruned_by(
                            s2,
                            max_size as nat,
                        ).map_values(|e: crate::store::EntryModel| item_of_pruned(e))
                    },
                    Err(_) => final(db)@ == old(db)@,
                }
            }),
    {
        let item = ClipboardItem {
            id: None,
            content: path,
            kind: EntryKind::Image,
            timestamp: now,
            is_sensitive: false,
            is_pinned: false,
            source_app,
            data_type: DataType::Image,
            collection_id: None,
            note: None,
        };
        db.insert_item(&item, max_size)
    }
}

fn clone_bytes(v: &Vec<u8>) -> (r: Vec<u8>)
    ensures
        r@ == v@,
{
    let mut r: Vec<u8> = Vec::new();
    let n = v.len();
    let mut i: usize = 0;
    while i < n
        invariant
            n == v@.len(),
            0 <= i <= n,
            r@ == v@.take(i as int),
        decreases n - i,
    {
        r.push(v[i]);
        proof {
            assert(r@ =~= v@.take(i + 1));
        }
        i += 1;
    }
    proof {
        assert(v@.take(n as int) =~= v@);
    }
    r
}


} // verus!
