//! The data model: clipboard entries, collections, and the application
//! configuration consumed by the store's pruning policy and the capture
//! coordinator.

use vstd::prelude::*;

verus! {

/// The two kinds of clipboard entry. A text entry holds the text itself;
/// an image entry holds a reference (a path) to an externally stored file,
/// never the raw bytes.
#[derive(Clone, Copy, PartialEq, Eq, Structural, Debug)]
pub enum EntryKind {
    Text,
    Image,
}

/// Finer classification of an entry's content, derived heuristically from
/// the content and independent of [`EntryKind`].
#[derive(Clone, Copy, PartialEq, Eq, Structural, Debug)]
pub enum DataType {
    Text,
    Url,
    Email,
    Phone,
    Code,
    Image,
}

/// A clipboard entry as exchanged with callers. `content` is always the
/// plaintext (for sensitive entries the store keeps an encrypted envelope
/// internally and decrypts before handing an item out).
///
/// `timestamp` is a chronologically ordered key: larger means newer.
#[derive(Clone, Debug)]
pub struct ClipboardItem {
    pub id: Option<i64>,
    pub content: String,
    pub kind: EntryKind,
    pub timestamp: u64,
    pub is_sensitive: bool,
    pub is_pinned: bool,
    pub source_app: Option<String>,
    pub data_type: DataType,
    pub collection_id: Option<i64>,
    pub note: Option<String>,
}

/// The mathematical view of a [`ClipboardItem`].
pub struct ItemModel {
    pub id: Option<i64>,
    pub content: Seq<char>,
    pub kind: EntryKind,
    pub timestamp: u64,
    pub is_sensitive: bool,
    pub is_pinned: bool,
    pub source_app: Option<Seq<char>>,
    pub data_type: DataType,
    pub collection_id: Option<i64>,
    pub note: Option<Seq<char>>,
}

pub open spec fn view_opt_string(s: Option<String>) -> Option<Seq<char>> {
    match s {
        Some(t) => Some(t@),
        None => None,
    }
}

impl View for ClipboardItem {
    type V = ItemModel;

    open spec fn view(&self) -> ItemModel {
        ItemModel {
            id: self.id,
            content: self.content@,
            kind: self.kind,
            timestamp: self.timestamp,
            is_sensitive: self.is_sensitive,
            is_pinned: self.is_pinned,
            source_app: view_opt_string(self.source_app),
            data_type: self.data_type,
            collection_id: self.collection_id,
            note: view_opt_string(self.note),
        }
    }
}

/// A named group of entries. Deleting a collection never deletes its
/// entries; it detaches them.
#[derive(Clone, Debug)]
pub struct Collection {
    pub id: i64,
    pub name: String,
    pub created_at: u64,
}

/// The mathematical view of a [`Collection`].
pub struct CollectionModel {
    pub id: i64,
    pub name: Seq<char>,
    pub created_at: u64,
}

impl View for Collection {
    type V = CollectionModel;

    open spec fn view(&self) -> CollectionModel {
        CollectionModel { id: self.id, name: self.name@, created_at: self.created_at }
    }
}

/// Application configuration, consumed by the store's pruning policy, the
/// bulk-clear policy and the capture coordinator's classification.
#[derive(Clone, Debug)]
pub struct AppConfig {
    pub shortcut: String,
    pub max_history_size: usize,
    pub language: String,
    pub theme: String,
    pub sensitive_apps: Vec<String>,
    pub compact_mode: bool,
    pub clear_pinned_on_clear: bool,
    pub clear_collected_on_clear: bool,
}

/// The classification used when nothing finer applies.
pub fn default_data_type() -> (r: DataType)
    ensures
        r == DataType::Text,
{
    DataType::Text
}

/// The language setting used when the configuration names none.
pub fn default_language() -> (r: String)
    ensures
        r@ == "auto"@,
{
    let r = String::from_str("auto");
    r
}

/// The theme setting used when the configuration names none.
pub fn default_theme() -> (r: String)
    ensures
        r@ == "auto"@,
{
    let r = String::from_str("auto");
    r
}

/// The applications whose clipboard activity is ignored by default:
/// widely used password managers.
pub fn default_sensitive_apps() -> (r: Vec<String>)
    ensures
        r@.len() == 7,
        r@[0]@ == "1Password"@,
        r@[1]@ == "Keychain Access"@,
        r@[2]@ == "Bitwarden"@,
        r@[3]@ == "LastPass"@,
        r@[4]@ == "KeePassXC"@,
        r@[5]@ == "Enpass"@,
        r@[6]@ == "Dashlane"@,
{
    let mut r: Vec<String> = Vec::new();
    r.push(String::from_str("1Password"));
    r.push(String::from_str("Keychain Access"));
    r.push(String::from_str("Bitwarden"));
    r.push(String::from_str("LastPass"));
    r.push(String::from_str("KeePassXC"));
    r.push(String::from_str("Enpass"));
    r.push(String::from_str("Dashlane"));
    r
}

impl Default for AppConfig {
    /// The configuration used when none has been saved yet.
    fn default() -> (r: Self)
        ensures
            r.shortcut@ == "CommandOrControl+Shift+V"@,
            r.max_history_size == 20,
            r.language@ == "auto"@,
            r.theme@ == "auto"@,
            r.sensitive_apps@.len() == 7,
            !r.compact_mode,
            !r.clear_pinned_on_clear,
            !r.clear_collected_on_clear,
    {
        AppConfig {
            shortcut: String::from_str("CommandOrControl+Shift+V"),
            max_history_size: 20,
            language: default_language(),
            theme: default_theme(),
            sensitive_apps: default_sensitive_apps(),
            compact_mode: false,
            clear_pinned_on_clear: false,
            clear_collected_on_clear: false,
        }
    }
}

} // verus!
