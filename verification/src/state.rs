//! Shared runtime state between the background capture coordinator and
//! the foreground command layer: a pause flag, single-slot echo-suppression
//! markers for the last programmatic clipboard write, the active
//! configuration snapshot, and a FIFO paste queue. The embedding
//! application guards each field independently; the methods here are the
//! state transitions on them.

use vstd::prelude::*;
use crate::models::{AppConfig, ClipboardItem};

verus! {

/// The shared runtime state.
pub struct AppState {
    pub config: AppConfig,
    pub is_paused: bool,
    pub last_app_change: Option<String>,
    pub last_app_image_change: Option<Vec<u8>>,
    pub paste_stack: Vec<ClipboardItem>,
}

fn clone_string_vec(v: &Vec<String>) -> (r: Vec<String>)
    ensures
        r@ == v@,
{
    let mut r: Vec<String> = Vec::new();
    let n = v.len();
    let mut i: usize = 0;
    while i < n
        invariant
            n == v@.len(),
            0 <= i <= n,
            r@ == v@.take(i as int),
        decreases n - i,
    {
        r.push(v[i].clone());
        proof {
            assert(r@ =~= v@.take(i + 1));
        }
        i += 1;
    }
    proof {
        assert(v@.take(n as int) =~= v@);
    }
    r
}

fn clone_config(c: &AppConfig) -> (r: AppConfig)
    ensures
        r.shortcut == c.shortcut,
        r.max_history_size == c.max_history_size,
        r.language == c.language,
        r.theme == c.theme,
        r.sensitive_apps@ == c.sensitive_apps@,
        r.compact_mode == c.compact_mode,
        r.clear_pinned_on_clear == c.clear_pinned_on_clear,
        r.clear_collected_on_clear == c.clear_collected_on_clear,
{
    AppConfig {
        shortcut: c.shortcut.clone(),
        max_history_size: c.max_history_size,
        language: c.language.clone(),
        theme: c.theme.clone(),
        sensitive_apps: clone_string_vec(&c.sensitive_apps),
        compact_mode: c.compact_mode,
        clear_pinned_on_clear: c.clear_pinned_on_clear,
        clear_collected_on_clear: c.clear_collected_on_clear,
    }
}

impl AppState {
    /// Fresh runtime state over a configuration: capture running, no
    /// echo markers, an empty paste queue.
    pub fn new(config: AppConfig) -> (r: AppState)
        ensures
            r.config == config,
            !r.is_paused,
            r.last_app_change is None,
            r.last_app_image_change is None,
            r.paste_stack@ == Seq::<ClipboardItem>::empty(),
    {
        let r = AppState {
            config,
            is_paused: false,
            last_app_change: None,
            last_app_image_change: None,
            paste_stack: Vec::new(),
        };
        proof {
            assert(r.paste_stack@ =~= Seq::<ClipboardItem>::empty());
        }
        r
    }

    /// Pause or resume capture. While paused, observed clipboard changes
    /// are ignored, not queued.
    pub fn set_paused(&mut self, paused: bool)
        ensures
            final(self).is_paused == paused,
            final(self).config == old(self).config,
            final(self).last_app_change == old(self).last_app_change,
            final(self).last_app_image_change == old(self).last_app_image_change,
            final(self).paste_stack == old(self).paste_stack,
    {
        self.is_paused = paused;
    }

    /// Whether capture is paused.
    pub fn get_paused(&self) -> (r: bool)
        ensures
            r == self.is_paused,
    {
        self.is_paused
    }

    /// The active configuration snapshot.
    pub fn get_config(&self) -> (r: AppConfig)
        ensures
            r.shortcut == self.config.shortcut,
            r.max_history_size == self.config.max_history_size,
            r.language == self.config.language,
            r.theme == self.config.theme,
            r.sensitive_apps@ == self.config.sensitive_apps@,
            r.compact_mode == self.config.compact_mode,
            r.clear_pinned_on_clear == self.config.clear_pinned_on_clear,
            r.clear_collected_on_clear == self.config.clear_collected_on_clear,
    {
        clone_config(&self.config)
    }

    /// Replace the configuration snapshot; written only by a
    /// configuration save.
    pub fn set_config(&mut self, config: AppConfig)
        ensures
            final(self).config == config,
            final(self).is_paused == old(self).is_paused,
            final(self).last_app_change == old(self).last_app_change,
            final(self).last_app_image_change == old(self).last_app_image_change,
            final(self).paste_stack == old(self).paste_stack,
    {
        self.config = config;
    }

    /// Record the text this system is about to write to the clipboard,
    /// so that the next observation of exactly that text is suppressed.
    /// Single-slot: a newer marker replaces an unconsumed older one.
    pub fn mark_text_write(&mut self, content: String)
        ensures
            final(self).last_app_change matches Some(s) && s@ == content@,
            final(self).config == old(self).config,
            final(self).is_paused == old(self).is_paused,
            final(self).last_app_image_change == old(self).last_app_image_change,
            final(self).paste_stack == old(self).paste_stack,
    {
        self.last_app_change = Some(content);
    }

    /// Consume the text echo marker: suppressed exactly when the observed
    /// text matches the marked text, and the marker is single-use — a
    /// match clears it, a non-match leaves it for the write it marks.
    pub fn consume_text_echo(&mut self, observed: &str) -> (suppressed: bool)
        ensures
            suppressed == (old(self).last_app_change matches Some(s) && s@ == observed@),
            final(self).last_app_change == (if suppressed {
                None::<String>
            } else {
                old(self).last_app_change
            }),
            final(self).config == old(self).config,
            final(self).is_paused == old(self).is_paused,
            final(self).last_app_image_change == old(self).last_app_image_change,
            final(self).paste_stack == old(self).paste_stack,
    {
        let obs = observed.to_owned();
        let matched = match &self.last_app_change {
            Some(s) => *s == obs,
            None => false,
        };
        if matched {
            self.last_app_change = None;
        }
        matched
    }

    /// Record the raw image this system is about to write to the
    /// clipboard, with the same single-slot semantics as the text marker.
    pub fn mark_image_write(&mut self, rgba: Vec<u8>)
        ensures
            final(self).last_app_image_change matches Some(b) && b@ == rgba@,
            final(self).config == old(self).config,
            final(self).is_paused == old(self).is_paused,
            final(self).last_app_change == old(self).last_app_change,
            final(self).paste_stack == old(self).paste_stack,
    {
        self.last_app_image_change = Some(rgba);
    }

    /// Consume the image echo marker; suppressed exactly when the
    /// observed bytes match the marked bytes.
    pub fn consume_image_echo(&mut self, observed: &Vec<u8>) -> (suppressed: bool)
        ensures
            suppressed == (old(self).last_app_image_change matches Some(b) && b@ == observed@),
            final(self).last_app_image_change == (if suppressed {
                None::<Vec<u8>>
            } else {
                old(self).last_app_image_change
            }),
            final(self).config == old(self).config,
            final(self).is_paused == old(self).is_paused,
            final(self).last_app_change == old(self).last_app_change,
            final(self).paste_stack == old(self).paste_stack,
    {
        let matched = match &self.last_app_image_change {
            Some(b) => eq_bytes(b, observed),
            None => false,
        };
        if matched {
            self.last_app_image_change = None;
        }
        matched
    }

    /// Replace the paste queue with the given items, front first.
    pub fn set_paste_stack(&mut self, items: Vec<ClipboardItem>)
        ensures
            final(self).paste_stack == items,
            final(self).config == old(self).config,
            final(self).is_paused == old(self).is_paused,
            final(self).last_app_change == old(self).last_app_change,
            final(self).last_app_image_change == old(self).last_app_image_change,
    {
        self.paste_stack = items;
    }

    /// Dequeue the next queued item, first in first out; `None` when the
    /// queue is empty.
    pub fn pop_paste_item(&mut self) -> (r: Option<ClipboardItem>)
        ensures
            old(self).paste_stack@.len() == 0 ==> r is None && final(self).paste_stack
                == old(self).paste_stack,
            old(self).paste_stack@.len() > 0 ==> (r matches Some(it) && it
                == old(self).paste_stack@[0] && final(self).paste_stack@ == old(
                self,
            ).paste_stack@.drop_first()),
            final(self).config == old(self).config,
            final(self).is_paused == old(self).is_paused,
            final(self).last_app_change == old(self).last_app_change,
            final(self).last_app_image_change == old(self).last_app_image_change,
    {
        if self.paste_stack.len() == 0 {
            return None;
        }
        let it = self.paste_stack.remove(0);
        proof {
            assert(self.paste_stack@ =~= old(self).paste_stack@.drop_first());
        }
        Some(it)
    }
}

/// Whether two byte vectors hold the same bytes.
pub(crate) fn eq_bytes(a: &Vec<u8>, b: &Vec<u8>) -> (r: bool)
    ensures
        r == (a@ == b@),
{
    if a.len() != b.len() {
        return false;
    }
    let n = a.len();
    let mut i: usize = 0;
    while i < n
        invariant
            n == a@.len(),
            n == b@.len(),
            0 <= i <= n,
            forall|k: int| 0 <= k < i ==> a@[k] == b@[k],
        decreases n - i,
    {
        if a[i] != b[i] {
            return false;
        }
        i += 1;
    }
    proof {
        assert(a@ =~= b@);
    }
    true
}

} // verus!
