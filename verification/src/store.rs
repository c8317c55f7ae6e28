//! The content store: sole owner of clipboard entries and collections.
//! It holds the active entries in their canonical order — pinned entries
//! first, then newest first — keeps `(content, kind)` pairs unique by
//! refreshing duplicates in place, encrypts sensitive text at rest, and
//! prunes the oldest eligible entries when an insert pushes the live
//! count over the configured capacity.
//!
//! Every operation is all-or-nothing: it either completes, or returns an
//! error and leaves the store as it was.

use vstd::prelude::*;
use crate::crypto::{Crypto, CryptoError, decrypt_spec};
use crate::text::{contains_seq, str_contains};
use crate::models::{
    ClipboardItem,
    Collection,
    CollectionModel,
    DataType,
    EntryKind,
    ItemModel,
    view_opt_string,
};

verus! {

/// Errors surfaced by store operations.
#[derive(Clone, Copy, PartialEq, Eq, Structural, Debug)]
pub enum StoreError {
    /// No entry or collection stands at the given position or id.
    NotFound,
    /// A sensitive payload could not be encrypted; the operation was
    /// refused whole rather than storing sensitive text in plaintext.
    Crypto(CryptoError),
    /// The change would leave two active entries with the same content
    /// and kind.
    Conflict,
    /// The identifier space is exhausted.
    IdsExhausted,
}

/// In list results, text content longer than this many characters is
/// truncated to it; the full content stays retrievable by id.
pub const DISPLAY_LEN: usize = 200;

/// The mathematical view of one stored entry. `content` is the plaintext
/// the entry stands for, whether or not it is encrypted at rest.
pub struct EntryModel {
    pub id: i64,
    pub content: Seq<char>,
    pub kind: EntryKind,
    pub timestamp: u64,
    pub is_sensitive: bool,
    pub is_pinned: bool,
    pub source_app: Option<Seq<char>>,
    pub data_type: DataType,
    pub collection_id: Option<i64>,
    pub note: Option<Seq<char>>,
}

/// One persisted entry. For sensitive text, `content` holds the envelope;
/// `plain` is the plaintext it decrypts to.
struct StoredEntry {
    id: i64,
    content: String,
    kind: EntryKind,
    timestamp: u64,
    is_sensitive: bool,
    is_pinned: bool,
    source_app: Option<String>,
    data_type: DataType,
    collection_id: Option<i64>,
    note: Option<String>,
    plain: Ghost<Seq<char>>,
}

spec fn entry_model(e: StoredEntry) -> EntryModel {
    EntryModel {
        id: e.id,
        content: e.plain@,
        kind: e.kind,
        timestamp: e.timestamp,
        is_sensitive: e.is_sensitive,
        is_pinned: e.is_pinned,
        source_app: view_opt_string(e.source_app),
        data_type: e.data_type,
        collection_id: e.collection_id,
        note: view_opt_string(e.note),
    }
}

/// What is persisted matches the plaintext the entry stands for: sensitive
/// text is stored as an envelope that decrypts to it, everything else is
/// stored as it is.
spec fn entry_ok(key: Seq<u8>, e: StoredEntry) -> bool {
    if e.is_sensitive && e.kind == EntryKind::Text {
        decrypt_spec(key, e.content@) == Some(e.plain@)
    } else {
        e.content@ == e.plain@
    }
}

spec fn detach_stored(e: StoredEntry, cid: i64) -> StoredEntry {
    if e.collection_id == Some(cid) {
        StoredEntry { collection_id: None, ..e }
    } else {
        e
    }
}

/// Canonical order: `a` may stand at or before `b` — pinned entries come
/// first, and within the pinned and the unpinned group newer entries
/// (larger timestamps) come first. Entries with equal keys may stand in
/// either order.
pub open spec fn before_eq(a: EntryModel, b: EntryModel) -> bool {
    if a.is_pinned != b.is_pinned {
        a.is_pinned
    } else {
        a.timestamp >= b.timestamp
    }
}

/// The sequence is in canonical order.
pub open spec fn sorted_canonical(s: Seq<EntryModel>) -> bool {
    forall|i: int, j: int| 0 <= i < j < s.len() ==> before_eq(#[trigger] s[i], #[trigger] s[j])
}

/// Whether the entry holds this plaintext content under this kind.
pub open spec fn same_content(e: EntryModel, content: Seq<char>, kind: EntryKind) -> bool {
    e.content == content && e.kind == kind
}

/// The first index holding this content and kind, if any.
pub open spec fn dedup_index(s: Seq<EntryModel>, content: Seq<char>, kind: EntryKind) -> Option<
    int,
>
    decreases s.len(),
{
    if s.len() == 0 {
        None
    } else if same_content(s[0], content, kind) {
        Some(0)
    } else {
        match dedup_index(s.drop_first(), content, kind) {
            Some(i) => Some(i + 1),
            None => None,
        }
    }
}

/// Where a new entry is placed: before the first entry it may precede,
/// so that insertion keeps the canonical order and a new entry goes in
/// front of entries with an equal key.
pub open spec fn insert_pos(s: Seq<EntryModel>, e: EntryModel) -> int
    decreases s.len(),
{
    if s.len() == 0 {
        0
    } else if before_eq(e, s[0]) {
        0
    } else {
        1 + insert_pos(s.drop_first(), e)
    }
}

/// The sequence with `e` placed at its canonical position.
pub open spec fn place_entry(s: Seq<EntryModel>, e: EntryModel) -> Seq<EntryModel> {
    s.insert(insert_pos(s, e), e)
}

/// How many entries of the sequence are unpinned.
pub open spec fn unpinned_count(s: Seq<EntryModel>) -> nat
    decreases s.len(),
{
    if s.len() == 0 {
        0
    } else {
        unpinned_count(s.drop_last()) + (if s.last().is_pinned {
            0nat
        } else {
            1nat
        })
    }
}

/// How many entries pruning removes to respect `max`: enough to come back
/// to `max`, but never a pinned entry — capacity is a soft bound when all
/// excess entries are pinned.
pub open spec fn prune_count(s: Seq<EntryModel>, max: nat) -> nat {
    if s.len() <= max {
        0
    } else if s.len() - max <= unpinned_count(s) {
        (s.len() - max) as nat
    } else {
        unpinned_count(s)
    }
}

/// The store after pruning to `max`: the oldest unpinned entries — the
/// tail of the canonical order — are dropped.
pub open spec fn after_prune(s: Seq<EntryModel>, max: nat) -> Seq<EntryModel> {
    s.take(s.len() - prune_count(s, max))
}

/// What pruning to `max` removes, oldest first.
pub open spec fn pruned_by(s: Seq<EntryModel>, max: nat) -> Seq<EntryModel> {
    s.skip(s.len() - prune_count(s, max)).reverse()
}

/// An entry with its sensitivity flipped; its plaintext content, position
/// key and everything else stay.
pub open spec fn flip_sensitive(e: EntryModel) -> EntryModel {
    EntryModel { is_sensitive: !e.is_sensitive, ..e }
}

/// An entry with its pinned flag flipped.
pub open spec fn flip_pinned(e: EntryModel) -> EntryModel {
    EntryModel { is_pinned: !e.is_pinned, ..e }
}

/// An entry refreshed in place by a duplicate insert: the timestamp and
/// the provenance are taken from the new observation, all else stays.
pub open spec fn refresh(e: EntryModel, timestamp: u64, source_app: Option<Seq<char>>) -> EntryModel {
    EntryModel { timestamp, source_app, ..e }
}

/// The entry a fresh insert creates: uncollected until a caller attaches
/// it to a collection.
pub open spec fn entry_of_item(m: ItemModel, id: i64) -> EntryModel {
    EntryModel {
        id,
        content: m.content,
        kind: m.kind,
        timestamp: m.timestamp,
        is_sensitive: m.is_sensitive,
        is_pinned: m.is_pinned,
        source_app: m.source_app,
        data_type: m.data_type,
        collection_id: None,
        note: m.note,
    }
}

/// The store after the dedup-or-create step of an insert, before pruning:
/// a duplicate refreshes and moves to its new position, anything else
/// becomes a fresh entry at its canonical position.
pub open spec fn after_insert_step(s: Seq<EntryModel>, item: ItemModel, fresh_id: i64) -> Seq<
    EntryModel,
> {
    match dedup_index(s, item.content, item.kind) {
        Some(j) => {
            let e = refresh(s[j], item.timestamp, item.source_app);
            place_entry(s.remove(j), e)
        },
        None => place_entry(s, entry_of_item(item, fresh_id)),
    }
}

/// The pruned entries an insert reports, as items: oldest first, with the
/// plaintext content and no id, for external resource cleanup.
pub open spec fn item_of_pruned(e: EntryModel) -> ItemModel {
    ItemModel {
        id: None,
        content: e.content,
        kind: e.kind,
        timestamp: e.timestamp,
        is_sensitive: e.is_sensitive,
        is_pinned: e.is_pinned,
        source_app: e.source_app,
        data_type: e.data_type,
        collection_id: e.collection_id,
        note: e.note,
    }
}

/// Every stored entry's persisted form matches its plaintext.
spec fn stored_ok(key: Seq<u8>, ev: Seq<StoredEntry>) -> bool {
    forall|i: int| 0 <= i < ev.len() ==> entry_ok(key, #[trigger] ev[i])
}

/// Ids are unique, non-negative and below the next id to be handed out.
pub open spec fn ids_ok(s: Seq<EntryModel>, next_id: i64) -> bool {
    &&& forall|i: int| 0 <= i < s.len() ==> 0 <= (#[trigger] s[i]).id < next_id
    &&& forall|i: int, j: int|
        0 <= i < j < s.len() ==> (#[trigger] s[i]).id != (#[trigger] s[j]).id
}

/// No two active entries share plaintext content and kind.
pub open spec fn contents_unique(s: Seq<EntryModel>) -> bool {
    forall|i: int, j: int|
        0 <= i < j < s.len() ==> !((#[trigger] s[i]).content == (#[trigger] s[j]).content
            && s[i].kind == s[j].kind)
}

/// `cid` is the id of one of the collections.
pub open spec fn cid_in(cs: Seq<CollectionModel>, cid: i64) -> bool {
    exists|k: int| 0 <= k < cs.len() && (#[trigger] cs[k]).id == cid
}

/// Every collected entry refers to a collection that exists.
pub open spec fn refs_ok(s: Seq<EntryModel>, cs: Seq<CollectionModel>) -> bool {
    forall|i: int|
        0 <= i < s.len() ==> match (#[trigger] s[i]).collection_id {
            Some(cid) => cid_in(cs, cid),
            None => true,
        }
}

proof fn lemma_remove_preserves(s: Seq<EntryModel>, j: int, next_id: i64, cs: Seq<CollectionModel>)
    requires
        0 <= j < s.len(),
        sorted_canonical(s),
        ids_ok(s, next_id),
        contents_unique(s),
        refs_ok(s, cs),
    ensures
        sorted_canonical(s.remove(j)),
        ids_ok(s.remove(j), next_id),
        contents_unique(s.remove(j)),
        refs_ok(s.remove(j), cs),
{
    s.remove_ensures(j);
    let t = s.remove(j);
    assert forall|i: int| 0 <= i < t.len() implies #[trigger] t[i] == s[if i < j {
        i
    } else {
        i + 1
    }] by {}
    assert forall|a: int, b: int| 0 <= a < b < t.len() implies before_eq(
        #[trigger] t[a],
        #[trigger] t[b],
    ) && t[a].id != t[b].id && !(t[a].content == t[b].content && t[a].kind == t[b].kind) by {
        let a2: int = if a < j {
            a
        } else {
            a + 1
        };
        let b2: int = if b < j {
            b
        } else {
            b + 1
        };
        assert(t[a] == s[a2] && t[b] == s[b2] && a2 < b2);
    }
}

proof fn lemma_take_preserves(s: Seq<EntryModel>, k: int, next_id: i64, cs: Seq<CollectionModel>)
    requires
        0 <= k <= s.len(),
        sorted_canonical(s),
        ids_ok(s, next_id),
        contents_unique(s),
        refs_ok(s, cs),
    ensures
        sorted_canonical(s.take(k)),
        ids_ok(s.take(k), next_id),
        contents_unique(s.take(k)),
        refs_ok(s.take(k), cs),
{
    let t = s.take(k);
    assert(forall|i: int| 0 <= i < t.len() ==> #[trigger] t[i] == s[i]);
}

proof fn lemma_place_preserves(s: Seq<EntryModel>, e: EntryModel, next_id: i64, cs: Seq<
    CollectionModel,
>)
    requires
        sorted_canonical(s),
        ids_ok(s, next_id),
        contents_unique(s),
        refs_ok(s, cs),
        0 <= e.id < next_id,
        forall|i: int| 0 <= i < s.len() ==> (#[trigger] s[i]).id != e.id,
        forall|i: int| 0 <= i < s.len() ==> !same_content(#[trigger] s[i], e.content, e.kind),
        match e.collection_id {
            Some(cid) => cid_in(cs, cid),
            None => true,
        },
    ensures
        sorted_canonical(place_entry(s, e)),
        ids_ok(place_entry(s, e), next_id),
        contents_unique(place_entry(s, e)),
        refs_ok(place_entry(s, e), cs),
        place_entry(s, e).len() == s.len() + 1,
{
    lemma_place_sorted(s, e);
    lemma_insert_pos_props(s, e);
    let p = insert_pos(s, e);
    s.insert_ensures(p, e);
    let t = place_entry(s, e);
    assert forall|i: int| 0 <= i < t.len() implies #[trigger] t[i] == (if i < p {
        s[i]
    } else if i == p {
        e
    } else {
        s[i - 1]
    }) by {}
    assert forall|a: int, b: int| 0 <= a < b < t.len() implies t[a].id != t[b].id && !(
    (#[trigger] t[a]).content == (#[trigger] t[b]).content && t[a].kind == t[b].kind) by {
        if a != p && b != p {
            let a2: int = if a < p {
                a
            } else {
                a - 1
            };
            let b2: int = if b < p {
                b
            } else {
                b - 1
            };
            assert(t[a] == s[a2] && t[b] == s[b2] && a2 < b2);
        } else if a == p {
            assert(t[a] == e && t[b] == s[b - 1]);
        } else {
            assert(t[b] == e && t[a] == s[a]);
        }
    }
}

/// An entry as a full item: with its id and its plaintext content.
pub open spec fn item_of_entry(e: EntryModel) -> ItemModel {
    ItemModel {
        id: Some(e.id),
        content: e.content,
        kind: e.kind,
        timestamp: e.timestamp,
        is_sensitive: e.is_sensitive,
        is_pinned: e.is_pinned,
        source_app: e.source_app,
        data_type: e.data_type,
        collection_id: e.collection_id,
        note: e.note,
    }
}

fn clone_opt_string(s: &Option<String>) -> (r: Option<String>)
    ensures
        r == *s,
        view_opt_string(r) == view_opt_string(*s),
{
    match s {
        Some(t) => Some(t.clone()),
        None => None,
    }
}

/// The plaintext an entry stands for: decrypt sensitive text; should
/// decryption ever fail, fall back to the raw stored value rather than
/// failing the read (under the store's invariant it cannot fail).
fn entry_plaintext(crypto: &Crypto, e: &StoredEntry) -> (r: String)
    requires
        crypto.wf(),
        entry_ok(crypto.key_bytes(), *e),
    ensures
        r@ == entry_model(*e).content,
{
    if e.is_sensitive && e.kind == EntryKind::Text {
        match crypto.decrypt(e.content.as_str()) {
            Ok(p) => p,
            Err(_) => e.content.clone(),
        }
    } else {
        e.content.clone()
    }
}

/// An entry as the item an insert reports among the pruned: plaintext
/// content, no id.
fn entry_to_pruned_item(crypto: &Crypto, e: &StoredEntry) -> (r: ClipboardItem)
    requires
        crypto.wf(),
        entry_ok(crypto.key_bytes(), *e),
    ensures
        r@ == item_of_pruned(entry_model(*e)),
{
    ClipboardItem {
        id: None,
        content: entry_plaintext(crypto, e),
        kind: e.kind,
        timestamp: e.timestamp,
        is_sensitive: e.is_sensitive,
        is_pinned: e.is_pinned,
        source_app: clone_opt_string(&e.source_app),
        data_type: e.data_type,
        collection_id: e.collection_id,
        note: clone_opt_string(&e.note),
    }
}

/// An entry as a full item, with its id and plaintext content.
fn entry_to_item(crypto: &Crypto, e: &StoredEntry) -> (r: ClipboardItem)
    requires
        crypto.wf(),
        entry_ok(crypto.key_bytes(), *e),
    ensures
        r@ == item_of_entry(entry_model(*e)),
{
    ClipboardItem {
        id: Some(e.id),
        content: entry_plaintext(crypto, e),
        kind: e.kind,
        timestamp: e.timestamp,
        is_sensitive: e.is_sensitive,
        is_pinned: e.is_pinned,
        source_app: clone_opt_string(&e.source_app),
        data_type: e.data_type,
        collection_id: e.collection_id,
        note: clone_opt_string(&e.note),
    }
}

fn entry_before_eq(a: &StoredEntry, b: &StoredEntry) -> (r: bool)
    ensures
        r == before_eq(entry_model(*a), entry_model(*b)),
{
    if a.is_pinned != b.is_pinned {
        a.is_pinned
    } else {
        a.timestamp >= b.timestamp
    }
}

pub proof fn lemma_insert_pos_props(s: Seq<EntryModel>, e: EntryModel)
    ensures
        0 <= insert_pos(s, e) <= s.len(),
        forall|i: int| 0 <= i < insert_pos(s, e) ==> !before_eq(e, #[trigger] s[i]),
        insert_pos(s, e) < s.len() ==> before_eq(e, s[insert_pos(s, e)]),
    decreases s.len(),
{
    if s.len() == 0 {
    } else if before_eq(e, s[0]) {
    } else {
        lemma_insert_pos_props(s.drop_first(), e);
        let p = insert_pos(s, e);
        assert forall|i: int| 0 <= i < p implies !before_eq(e, #[trigger] s[i]) by {
            if i > 0 {
                assert(s.drop_first()[i - 1] == s[i]);
            }
        }
        if p < s.len() {
            assert(s.drop_first()[p - 1] == s[p]);
        }
    }
}

proof fn lemma_insert_pos_unique(s: Seq<EntryModel>, e: EntryModel, idx: int)
    requires
        0 <= idx <= s.len(),
        forall|i: int| 0 <= i < idx ==> !before_eq(e, #[trigger] s[i]),
        idx < s.len() ==> before_eq(e, s[idx]),
    ensures
        insert_pos(s, e) == idx,
{
    lemma_insert_pos_props(s, e);
    let p = insert_pos(s, e);
    if p < idx {
        assert(before_eq(e, s[p]));
        assert(false);
    }
    if idx < p {
        assert(before_eq(e, s[idx]));
        assert(false);
    }
}

pub proof fn lemma_place_sorted(s: Seq<EntryModel>, e: EntryModel)
    requires
        sorted_canonical(s),
    ensures
        sorted_canonical(place_entry(s, e)),
        place_entry(s, e).len() == s.len() + 1,
{
    lemma_insert_pos_props(s, e);
    let p = insert_pos(s, e);
    s.insert_ensures(p, e);
    let t = place_entry(s, e);
    assert forall|i: int, j: int| 0 <= i < j < t.len() implies before_eq(
        #[trigger] t[i],
        #[trigger] t[j],
    ) by {
        if i < p && j < p {
            assert(t[i] == s[i] && t[j] == s[j]);
        } else if i < p && j == p {
            assert(t[i] == s[i] && t[j] == e);
            assert(!before_eq(e, s[i]));
        } else if i < p && j > p {
            assert(t[i] == s[i] && t[j] == s[j - 1]);
        } else if i == p {
            assert(t[i] == e && t[j] == s[j - 1]);
            assert(before_eq(e, s[p]));
            if j - 1 > p {
                assert(before_eq(s[p], s[j - 1]));
            }
        } else {
            assert(t[i] == s[i - 1] && t[j] == s[j - 1]);
        }
    }
}

proof fn lemma_dedup_first(s: Seq<EntryModel>, content: Seq<char>, kind: EntryKind, j: int)
    requires
        0 <= j < s.len(),
        same_content(s[j], content, kind),
        forall|i: int| 0 <= i < j ==> !same_content(#[trigger] s[i], content, kind),
    ensures
        dedup_index(s, content, kind) == Some(j),
    decreases s.len(),
{
    if j == 0 {
    } else {
        assert(s.drop_first()[j - 1] == s[j]);
        assert forall|i: int| 0 <= i < j - 1 implies !same_content(
            #[trigger] s.drop_first()[i],
            content,
            kind,
        ) by {
            assert(s.drop_first()[i] == s[i + 1]);
        }
        lemma_dedup_first(s.drop_first(), content, kind, j - 1);
    }
}

proof fn lemma_dedup_none(s: Seq<EntryModel>, content: Seq<char>, kind: EntryKind)
    requires
        forall|i: int| 0 <= i < s.len() ==> !same_content(#[trigger] s[i], content, kind),
    ensures
        dedup_index(s, content, kind) is None,
    decreases s.len(),
{
    if s.len() > 0 {
        assert forall|i: int| 0 <= i < s.drop_first().len() implies !same_content(
            #[trigger] s.drop_first()[i],
            content,
            kind,
        ) by {
            assert(s.drop_first()[i] == s[i + 1]);
        }
        lemma_dedup_none(s.drop_first(), content, kind);
    }
}

pub proof fn lemma_dedup_some_props(s: Seq<EntryModel>, content: Seq<char>, kind: EntryKind)
    ensures
        match dedup_index(s, content, kind) {
            Some(j) => 0 <= j < s.len() && same_content(s[j], content, kind),
            None => forall|i: int| 0 <= i < s.len() ==> !same_content(#[trigger] s[i], content, kind),
        },
    decreases s.len(),
{
    if s.len() > 0 {
        lemma_dedup_some_props(s.drop_first(), content, kind);
        if !same_content(s[0], content, kind) {
            match dedup_index(s.drop_first(), content, kind) {
                Some(j) => {
                    assert(s.drop_first()[j] == s[j + 1]);
                },
                None => {
                    assert forall|i: int| 0 <= i < s.len() implies !same_content(
                        #[trigger] s[i],
                        content,
                        kind,
                    ) by {
                        if i > 0 {
                            assert(s.drop_first()[i - 1] == s[i]);
                        }
                    }
                },
            }
        }
    }
}

/// In canonical order, a pinned last entry means every entry is pinned.
pub proof fn lemma_last_pinned_all_pinned(s: Seq<EntryModel>)
    requires
        sorted_canonical(s),
        s.len() > 0,
        s.last().is_pinned,
    ensures
        forall|i: int| 0 <= i < s.len() ==> (#[trigger] s[i]).is_pinned,
{
    assert forall|i: int| 0 <= i < s.len() implies (#[trigger] s[i]).is_pinned by {
        if i < s.len() - 1 {
            assert(before_eq(s[i], s[s.len() - 1]));
        }
    }
}

pub proof fn lemma_all_pinned_count_zero(s: Seq<EntryModel>)
    requires
        forall|i: int| 0 <= i < s.len() ==> (#[trigger] s[i]).is_pinned,
    ensures
        unpinned_count(s) == 0,
    decreases s.len(),
{
    if s.len() > 0 {
        lemma_all_pinned_count_zero(s.drop_last());
    }
}

/// The index of the entry carrying this id, if any.
pub open spec fn index_of_id(s: Seq<EntryModel>, id: i64) -> Option<int>
    decreases s.len(),
{
    if s.len() == 0 {
        None
    } else if s[0].id == id {
        Some(0)
    } else {
        match index_of_id(s.drop_first(), id) {
            Some(i) => Some(i + 1),
            None => None,
        }
    }
}

proof fn lemma_id_first(s: Seq<EntryModel>, id: i64, j: int)
    requires
        0 <= j < s.len(),
        s[j].id == id,
        forall|i: int| 0 <= i < j ==> (#[trigger] s[i]).id != id,
    ensures
        index_of_id(s, id) == Some(j),
    decreases s.len(),
{
    if j > 0 {
        assert(s.drop_first()[j - 1] == s[j]);
        assert forall|i: int| 0 <= i < j - 1 implies (#[trigger] s.drop_first()[i]).id != id by {
            assert(s.drop_first()[i] == s[i + 1]);
        }
        lemma_id_first(s.drop_first(), id, j - 1);
    }
}

proof fn lemma_id_none(s: Seq<EntryModel>, id: i64)
    requires
        forall|i: int| 0 <= i < s.len() ==> (#[trigger] s[i]).id != id,
    ensures
        index_of_id(s, id) is None,
    decreases s.len(),
{
    if s.len() > 0 {
        assert forall|i: int|
            0 <= i < s.drop_first().len() implies (#[trigger] s.drop_first()[i]).id != id by {
            assert(s.drop_first()[i] == s[i + 1]);
        }
        lemma_id_none(s.drop_first(), id);
    }
}

/// An entry with its timestamp refreshed.
pub open spec fn retime(e: EntryModel, timestamp: u64) -> EntryModel {
    EntryModel { timestamp, ..e }
}

/// An entry with overwritten content, classification, note and timestamp.
pub open spec fn recontent(
    e: EntryModel,
    content: Seq<char>,
    data_type: DataType,
    note: Option<Seq<char>>,
    timestamp: u64,
) -> EntryModel {
    EntryModel { content, data_type, note, timestamp, ..e }
}

/// An entry attached to (or detached from) a collection.
pub open spec fn set_coll(e: EntryModel, cid: Option<i64>) -> EntryModel {
    EntryModel { collection_id: cid, ..e }
}

/// An entry detached from the collection `cid` if it belongs to it.
pub open spec fn detach_entry(e: EntryModel, cid: i64) -> EntryModel {
    if e.collection_id == Some(cid) {
        EntryModel { collection_id: None, ..e }
    } else {
        e
    }
}

/// The index of the collection carrying this id, if any.
pub open spec fn index_of_cid(cs: Seq<CollectionModel>, id: i64) -> Option<int>
    decreases cs.len(),
{
    if cs.len() == 0 {
        None
    } else if cs[0].id == id {
        Some(0)
    } else {
        match index_of_cid(cs.drop_first(), id) {
            Some(i) => Some(i + 1),
            None => None,
        }
    }
}

/// The collections after deleting the one carrying this id, if any did.
pub open spec fn remove_cid(cs: Seq<CollectionModel>, id: i64) -> Seq<CollectionModel> {
    match index_of_cid(cs, id) {
        Some(k) => cs.remove(k),
        None => cs,
    }
}

proof fn lemma_cid_first(cs: Seq<CollectionModel>, id: i64, j: int)
    requires
        0 <= j < cs.len(),
        cs[j].id == id,
        forall|i: int| 0 <= i < j ==> (#[trigger] cs[i]).id != id,
    ensures
        index_of_cid(cs, id) == Some(j),
    decreases cs.len(),
{
    if j > 0 {
        assert(cs.drop_first()[j - 1] == cs[j]);
        assert forall|i: int| 0 <= i < j - 1 implies (#[trigger] cs.drop_first()[i]).id != id by {
            assert(cs.drop_first()[i] == cs[i + 1]);
        }
        lemma_cid_first(cs.drop_first(), id, j - 1);
    }
}

proof fn lemma_cid_none(cs: Seq<CollectionModel>, id: i64)
    requires
        forall|i: int| 0 <= i < cs.len() ==> (#[trigger] cs[i]).id != id,
    ensures
        index_of_cid(cs, id) is None,
        !cid_in(cs, id),
    decreases cs.len(),
{
    if cs.len() > 0 {
        assert forall|i: int|
            0 <= i < cs.drop_first().len() implies (#[trigger] cs.drop_first()[i]).id != id by {
            assert(cs.drop_first()[i] == cs[i + 1]);
        }
        lemma_cid_none(cs.drop_first(), id);
    }
}

fn clone_collection(c: &Collection) -> (r: Collection)
    ensures
        r == *c,
{
    Collection { id: c.id, name: c.name.clone(), created_at: c.created_at }
}

/// Whether an entry survives a bulk clear under the given retention
/// policy: kept when pinned entries are kept and it is pinned, or when
/// collected entries are kept and it belongs to a collection.
pub open spec fn kept_by_clear(e: EntryModel, keep_pinned: bool, keep_collected: bool) -> bool {
    (keep_pinned && e.is_pinned) || (keep_collected && e.collection_id is Some)
}

/// The entries a bulk clear keeps, in their order.
pub open spec fn after_clear(s: Seq<EntryModel>, keep_pinned: bool, keep_collected: bool) -> Seq<
    EntryModel,
>
    decreases s.len(),
{
    if s.len() == 0 {
        Seq::empty()
    } else {
        (if kept_by_clear(s[0], keep_pinned, keep_collected) {
            seq![s[0]]
        } else {
            Seq::empty()
        }) + after_clear(s.drop_first(), keep_pinned, keep_collected)
    }
}

/// The entries a bulk clear deletes, in their order.
pub open spec fn cleared_by(s: Seq<EntryModel>, keep_pinned: bool, keep_collected: bool) -> Seq<
    EntryModel,
>
    decreases s.len(),
{
    if s.len() == 0 {
        Seq::empty()
    } else {
        (if kept_by_clear(s[0], keep_pinned, keep_collected) {
            Seq::empty()
        } else {
            seq![s[0]]
        }) + cleared_by(s.drop_first(), keep_pinned, keep_collected)
    }
}

/// Whether an entry satisfies a listing filter: the query, if any and
/// non-empty, occurs in the plaintext content or in the note, and the
/// entry belongs to the requested collection, if one is requested.
pub open spec fn matches_query(e: EntryModel, q: Option<Seq<char>>, cid: Option<i64>) -> bool {
    (match q {
        Some(qs) => qs.len() == 0 || contains_seq(e.content, qs) || (match e.note {
            Some(nt) => contains_seq(nt, qs),
            None => false,
        }),
        None => true,
    }) && (match cid {
        Some(c) => e.collection_id == Some(c),
        None => true,
    })
}

/// The entries that satisfy a listing filter, in their order.
pub open spec fn filtered_view(s: Seq<EntryModel>, q: Option<Seq<char>>, cid: Option<i64>) -> Seq<
    EntryModel,
>
    decreases s.len(),
{
    if s.len() == 0 {
        Seq::empty()
    } else {
        filtered_view(s.drop_last(), q, cid) + (if matches_query(s.last(), q, cid) {
            seq![s.last()]
        } else {
            Seq::empty()
        })
    }
}

/// Text content as a list shows it: truncated to `DISPLAY_LEN` characters.
pub open spec fn truncate_content(c: Seq<char>, kind: EntryKind) -> Seq<char> {
    if kind == EntryKind::Text && c.len() > DISPLAY_LEN {
        c.take(DISPLAY_LEN as int)
    } else {
        c
    }
}

/// An entry as a list shows it: with its id, decrypted, truncated.
pub open spec fn display_item(e: EntryModel) -> ItemModel {
    ItemModel {
        id: Some(e.id),
        content: truncate_content(e.content, e.kind),
        kind: e.kind,
        timestamp: e.timestamp,
        is_sensitive: e.is_sensitive,
        is_pinned: e.is_pinned,
        source_app: e.source_app,
        data_type: e.data_type,
        collection_id: e.collection_id,
        note: e.note,
    }
}

/// One page of a sequence: `limit` elements from `offset`, clamped to
/// what is there.
pub open spec fn page_of(s: Seq<EntryModel>, offset: int, limit: int) -> Seq<EntryModel> {
    if offset >= s.len() {
        Seq::empty()
    } else if offset + limit > s.len() {
        s.subrange(offset, s.len() as int)
    } else {
        s.subrange(offset, offset + limit)
    }
}

fn clone_item(it: &ClipboardItem) -> (r: ClipboardItem)
    ensures
        r == *it,
{
    ClipboardItem {
        id: it.id,
        content: it.content.clone(),
        kind: it.kind,
        timestamp: it.timestamp,
        is_sensitive: it.is_sensitive,
        is_pinned: it.is_pinned,
        source_app: clone_opt_string(&it.source_app),
        data_type: it.data_type,
        collection_id: it.collection_id,
        note: clone_opt_string(&it.note),
    }
}

/// An entry as a list shows it: with its id, decrypted, its text content
/// truncated to `DISPLAY_LEN` characters.
fn entry_to_display_item(crypto: &Crypto, e: &StoredEntry) -> (r: ClipboardItem)
    requires
        crypto.wf(),
        entry_ok(crypto.key_bytes(), *e),
    ensures
        r@ == display_item(entry_model(*e)),
{
    let full = entry_plaintext(crypto, e);
    let content = if e.kind == EntryKind::Text && full.as_str().unicode_len() > DISPLAY_LEN {
        String::from_str(full.as_str().substring_char(0, DISPLAY_LEN))
    } else {
        full
    };
    ClipboardItem {
        id: Some(e.id),
        content,
        kind: e.kind,
        timestamp: e.timestamp,
        is_sensitive: e.is_sensitive,
        is_pinned: e.is_pinned,
        source_app: clone_opt_string(&e.source_app),
        data_type: e.data_type,
        collection_id: e.collection_id,
        note: clone_opt_string(&e.note),
    }
}

/// The content store.
pub struct Database {
    entries: Vec<StoredEntry>,
    collections: Vec<Collection>,
    next_id: i64,
    next_collection_id: i64,
    crypto: Crypto,
}

impl View for Database {
    type V = Seq<EntryModel>;

    /// The store's entries in their canonical order, as models holding
    /// the plaintext.
    closed spec fn view(&self) -> Seq<EntryModel> {
        self.entries@.map_values(|e: StoredEntry| entry_model(e))
    }
}

impl Database {
    /// The collections, in creation order.
    pub closed spec fn collections_view(&self) -> Seq<CollectionModel> {
        self.collections@.map_values(|c: Collection| c@)
    }

    /// The id the next created entry receives.
    pub closed spec fn spec_next_id(&self) -> i64 {
        self.next_id
    }

    /// The id the next created collection receives.
    pub closed spec fn spec_next_collection_id(&self) -> i64 {
        self.next_collection_id
    }

    spec fn spec_key(&self) -> Seq<u8> {
        self.crypto.key_bytes()
    }

    /// The store's internal invariant.
    pub closed spec fn wf(&self) -> bool {
        &&& self.crypto.wf()
        &&& stored_ok(self.crypto.key_bytes(), self.entries@)
        &&& sorted_canonical(self@)
        &&& ids_ok(self@, self.next_id)
        &&& contents_unique(self@)
        &&& refs_ok(self@, self.collections_view())
        &&& forall|i: int|
            0 <= i < self.collections_view().len() ==> 0 <= (
            #[trigger] self.collections_view()[i]).id < self.next_collection_id
        &&& forall|i: int, j: int|
            0 <= i < j < self.collections_view().len() ==> (
            #[trigger] self.collections_view()[i]).id != (
            #[trigger] self.collections_view()[j]).id
        &&& 0 <= self.next_id
        &&& 0 <= self.next_collection_id
    }

    /// An empty store over the given crypto envelope.
    pub fn new(crypto: Crypto) -> (r: Database)
        requires
            crypto.wf(),
        ensures
            r.wf(),
            r@ == Seq::<EntryModel>::empty(),
            r.collections_view() == Seq::<CollectionModel>::empty(),
    {
        let db = Database {
            entries: Vec::new(),
            collections: Vec::new(),
            next_id: 0,
            next_collection_id: 0,
            crypto,
        };
        proof {
            assert(db@ =~= Seq::<EntryModel>::empty());
            assert(db.collections_view() =~= Seq::<CollectionModel>::empty());
        }
        db
    }

    /// How many entries are live.
    pub fn count_history(&self) -> (r: usize)
        ensures
            r == self@.len(),
    {
        self.entries.len()
    }

    /// The index of the active entry holding this plaintext content and
    /// kind, if one does.
    fn find_duplicate(&self, content: &String, kind: EntryKind) -> (r: Option<usize>)
        requires
            self.wf(),
        ensures
            match r {
                Some(k) => k < self@.len() && dedup_index(self@, content@, kind) == Some(k as int),
                None => dedup_index(self@, content@, kind) is None,
            },
    {
        let n = self.entries.len();
        let mut j: usize = 0;
        while j < n
            invariant
                self.wf(),
                n == self@.len(),
                0 <= j <= n,
                forall|i: int| 0 <= i < j ==> !same_content(#[trigger] self@[i], content@, kind),
            decreases n - j,
        {
            let p = entry_plaintext(&self.crypto, &self.entries[j]);
            if p == *content && self.entries[j].kind == kind {
                proof {
                    lemma_dedup_first(self@, content@, kind, j as int);
                }
                return Some(j);
            }
            j += 1;
        }
        proof {
            lemma_dedup_none(self@, content@, kind);
        }
        None
    }

    /// The canonical position for this entry among the current ones.
    fn find_position(&self, e: &StoredEntry) -> (r: usize)
        ensures
            r <= self@.len(),
            r == insert_pos(self@, entry_model(*e)),
    {
        let n = self.entries.len();
        let mut i: usize = 0;
        while i < n
            invariant
                n == self@.len(),
                0 <= i <= n,
                forall|k: int|
                    0 <= k < i ==> !before_eq(entry_model(*e), #[trigger] self@[k]),
            decreases n - i,
        {
            if entry_before_eq(e, &self.entries[i]) {
                proof {
                    lemma_insert_pos_unique(self@, entry_model(*e), i as int);
                }
                return i;
            }
            i += 1;
        }
        proof {
            lemma_insert_pos_unique(self@, entry_model(*e), self@.len() as int);
        }
        n
    }

    /// Whether pruning must remove another entry: the live count is over
    /// the bound and the oldest entry — the last in canonical order — is
    /// not pinned.
    fn prune_step_needed(&self, max_size: usize) -> (r: bool)
        ensures
            r == (self@.len() > max_size && !self@[self@.len() - 1].is_pinned),
    {
        let n = self.entries.len();
        n > max_size && !self.entries[n - 1].is_pinned
    }

    /// Insert an item. A duplicate — an active entry with the same
    /// plaintext content and kind — has its timestamp and provenance
    /// refreshed in place and no new row is created; anything else becomes
    /// a new row, with sensitive text encrypted first. If the live count
    /// then exceeds `max_size`, the oldest unpinned entries are pruned
    /// until the count is back at `max_size` — or until only pinned
    /// entries remain, capacity being a soft bound for pinned entries —
    /// and the pruned entries are returned oldest first, decrypted, so the
    /// caller can clean up external resources they reference.
    ///
    /// A sensitive payload that cannot be encrypted (the cipher's length
    /// bound, or a failing system random number generator) is refused
    /// whole, never stored in plaintext; the store is left unchanged.
    #[verifier::loop_isolation(false)]
    #[verifier::rlimit(100)]
    pub fn insert_item(&mut self, item: &ClipboardItem, max_size: usize) -> (r: Result<
        Vec<ClipboardItem>,
        StoreError,
    >)
        requires
            old(self).wf(),
        ensures
            final(self).wf(),
            final(self).collections_view() == old(self).collections_view(),
            match r {
                Ok(pruned) => {
                    let s2 = after_insert_step(old(self)@, item@, old(self).spec_next_id());
                    &&& final(self)@ == after_prune(s2, max_size as nat)
                    &&& pruned@.map_values(|it: ClipboardItem| it@) == pruned_by(
                        s2,
                        max_size as nat,
                    ).map_values(|e: EntryModel| item_of_pruned(e))
                },
                Err(e) => {
                    &&& final(self)@ == old(self)@
                    &&& dedup_index(old(self)@, item@.content, item@.kind) is None
                    &&& (e matches StoreError::Crypto(_) ==> item.is_sensitive && item.kind
                        == EntryKind::Text)
                    &&& (e == StoreError::IdsExhausted ==> old(self).spec_next_id() == i64::MAX)
                    &&& (e matches StoreError::Crypto(_) || e == StoreError::IdsExhausted)
                },
            },
    {
        let dup = self.find_duplicate(&item.content, item.kind);
        match dup {
            Some(j) => {
                self.refresh_duplicate(j, item);
            },
            None => {
                let stored_content: String;
                if item.is_sensitive && item.kind == EntryKind::Text {
                    match self.crypto.encrypt(item.content.as_str()) {
                        Ok(env) => {
                            stored_content = env;
                        },
                        Err(ce) => {
                            return Err(StoreError::Crypto(ce));
                        },
                    }
                } else {
                    stored_content = item.content.clone();
                }
                if self.next_id == i64::MAX {
                    return Err(StoreError::IdsExhausted);
                }
                self.create_entry(item, stored_content);
            },
        }
        let pruned = self.prune_excess(max_size);
        Ok(pruned)
    }

    /// Refresh the duplicate at index `j` in place — new timestamp, new
    /// provenance — and move it to its new canonical position.
    fn refresh_duplicate(&mut self, j: usize, item: &ClipboardItem)
        requires
            old(self).wf(),
            j < old(self)@.len(),
            dedup_index(old(self)@, item@.content, item@.kind) == Some(j as int),
        ensures
            final(self).wf(),
            final(self)@ == after_insert_step(old(self)@, item@, old(self).spec_next_id()),
            final(self).collections_view() == old(self).collections_view(),
            final(self).spec_next_id() == old(self).spec_next_id(),
            final(self).spec_next_collection_id() == old(self).spec_next_collection_id(),
    {
        let ghost s0 = self@;
        let ghost cv0 = self.collections_view();
        let ghost ev0 = self.entries@;
        let mut e = self.entries.remove(j);
        e.timestamp = item.timestamp;
        e.source_app = clone_opt_string(&item.source_app);
        proof {
            ev0.remove_ensures(j as int);
            s0.remove_ensures(j as int);
            assert(self@ =~= s0.remove(j as int));
        }
        let ghost s1 = self@;
        let ghost em = entry_model(e);
        proof {
            assert(s0[j as int] == entry_model(ev0[j as int]));
            assert(em == refresh(s0[j as int], item@.timestamp, item@.source_app));
            lemma_remove_preserves(s0, j as int, self.next_id, cv0);
            assert forall|i: int| 0 <= i < s1.len() implies (#[trigger] s1[i]).id != em.id
                && !same_content(s1[i], em.content, em.kind) by {
                let i2: int = if i < j {
                    i
                } else {
                    i + 1
                };
                assert(s1[i] == s0[i2]);
                if i2 < j {
                    assert(!(s0[i2].content == s0[j as int].content && s0[i2].kind
                        == s0[j as int].kind));
                } else {
                    assert(!(s0[j as int].content == s0[i2].content && s0[j as int].kind
                        == s0[i2].kind));
                }
            }
        }
        let pos = self.find_position(&e);
        let ghost ev1 = self.entries@;
        self.entries.insert(pos, e);
        proof {
            ev1.insert_ensures(pos as int, e);
            s1.insert_ensures(pos as int, em);
            assert(self@ =~= s1.insert(pos as int, em));
            lemma_place_preserves(s1, em, self.next_id, cv0);
            assert(self@ == after_insert_step(s0, item@, self.next_id));
            assert forall|i: int|
                0 <= i < self.entries@.len() implies entry_ok(
                self.crypto.key_bytes(),
                #[trigger] self.entries@[i],
            ) by {
                if i != pos {
                    let i2: int = if i < pos {
                        i
                    } else {
                        i - 1
                    };
                    assert(self.entries@[i] == ev1[i2]);
                } else {
                    assert(self.entries@[i] == e);
                    assert(entry_ok(self.crypto.key_bytes(), ev0[j as int]));
                }
            }
        }
    }

    /// Create a fresh row from the item, storing `stored_content` (the
    /// envelope for sensitive text, the plaintext otherwise) at the item's
    /// canonical position, under the next free id.
    fn create_entry(&mut self, item: &ClipboardItem, stored_content: String)
        requires
            old(self).wf(),
            old(self).spec_next_id() < i64::MAX,
            dedup_index(old(self)@, item@.content, item@.kind) is None,
            if item.is_sensitive && item.kind == EntryKind::Text {
                decrypt_spec(old(self).spec_key(), stored_content@) == Some(item.content@)
            } else {
                stored_content@ == item.content@
            },
        ensures
            final(self).wf(),
            final(self)@ == after_insert_step(old(self)@, item@, old(self).spec_next_id()),
            final(self).collections_view() == old(self).collections_view(),
            final(self).spec_next_id() == old(self).spec_next_id() + 1,
            final(self).spec_next_collection_id() == old(self).spec_next_collection_id(),
    {
        let ghost s0 = self@;
        let ghost cv0 = self.collections_view();
        let e = StoredEntry {
            id: self.next_id,
            content: stored_content,
            kind: item.kind,
            timestamp: item.timestamp,
            is_sensitive: item.is_sensitive,
            is_pinned: item.is_pinned,
            source_app: clone_opt_string(&item.source_app),
            data_type: item.data_type,
            collection_id: None,
            note: clone_opt_string(&item.note),
            plain: Ghost(item.content@),
        };
        let ghost em = entry_model(e);
        proof {
            assert(em == entry_of_item(item@, old(self).spec_next_id()));
            assert(entry_ok(self.crypto.key_bytes(), e));
        }
        self.next_id = self.next_id + 1;
        let pos = self.find_position(&e);
        let ghost ev1 = self.entries@;
        let ghost s1 = self@;
        self.entries.insert(pos, e);
        proof {
            ev1.insert_ensures(pos as int, e);
            s1.insert_ensures(pos as int, em);
            assert(self@ =~= s1.insert(pos as int, em));
            lemma_dedup_some_props(s0, item@.content, item@.kind);
            assert forall|i: int| 0 <= i < s1.len() implies 0 <= (#[trigger] s1[i]).id
                < self.next_id && s1[i].id != em.id && !same_content(s1[i], em.content, em.kind) by {}
            lemma_place_preserves(s1, em, self.next_id, cv0);
            assert(self@ == after_insert_step(s0, item@, old(self).spec_next_id()));
            assert forall|i: int|
                0 <= i < self.entries@.len() implies entry_ok(
                self.crypto.key_bytes(),
                #[trigger] self.entries@[i],
            ) by {
                if i != pos {
                    let i2: int = if i < pos {
                        i
                    } else {
                        i - 1
                    };
                    assert(self.entries@[i] == ev1[i2]);
                } else {
                    assert(self.entries@[i] == e);
                }
            }
        }
    }

    /// Prune the oldest unpinned entries until the live count is back at
    /// `max_size`, or until only pinned entries remain. Returns the pruned
    /// entries oldest first, decrypted.
    #[verifier::loop_isolation(false)]
    #[verifier::rlimit(60)]
    fn prune_excess(&mut self, max_size: usize) -> (pruned: Vec<ClipboardItem>)
        requires
            old(self).wf(),
        ensures
            final(self).wf(),
            final(self)@ == after_prune(old(self)@, max_size as nat),
            pruned@.map_values(|it: ClipboardItem| it@) == pruned_by(
                old(self)@,
                max_size as nat,
            ).map_values(|e: EntryModel| item_of_pruned(e)),
            final(self).collections_view() == old(self).collections_view(),
            final(self).spec_next_id() == old(self).spec_next_id(),
            final(self).spec_next_collection_id() == old(self).spec_next_collection_id(),
    {
        let ghost s2 = self@;
        let ghost cr0 = self.crypto;
        let ghost coll0 = self.collections@;
        let ghost ni2 = self.next_id;
        let ghost nci0 = self.next_collection_id;
        let ghost cv0 = self.collections_view();
        let mut pruned: Vec<ClipboardItem> = Vec::new();
        proof {
            assert(self@ =~= s2.take(self@.len() as int));
            assert(pruned@.map_values(|it: ClipboardItem| it@) =~= s2.skip(
                self@.len() as int,
            ).reverse().map_values(|e: EntryModel| item_of_pruned(e)));
        }
        while self.prune_step_needed(max_size)
            invariant
                self.crypto == cr0,
                self.collections@ == coll0,
                self.next_id == ni2,
                self.next_collection_id == nci0,
                stored_ok(self.crypto.key_bytes(), self.entries@),
                self@.len() <= s2.len(),
                self@ == s2.take(self@.len() as int),
                pruned@.map_values(|it: ClipboardItem| it@) == s2.skip(
                    self@.len() as int,
                ).reverse().map_values(|e: EntryModel| item_of_pruned(e)),
                unpinned_count(s2) == unpinned_count(self@) + (s2.len() - self@.len()),
                s2.len() <= max_size ==> self@ == s2,
                s2.len() > max_size ==> self@.len() >= max_size,
            decreases self.entries.len(),
        {
            let ghost evp = self.entries@;
            let ghost sp = self@;
            let ghost pp = pruned@;
            let e = self.entries.pop().unwrap();
            let it = entry_to_pruned_item(&self.crypto, &e);
            pruned.push(it);
            proof {
                let l = self@.len() as int;
                assert(e == evp[l]);
                assert(sp[l] == entry_model(evp[l]));
                assert(sp[l] == s2[l]);
                assert(!s2[l].is_pinned);
                assert(self@ =~= s2.take(l));
                assert(s2.take(l + 1).drop_last() =~= s2.take(l));
                assert(s2.take(l + 1).last() == s2[l]);
                assert(unpinned_count(s2.take(l + 1)) == unpinned_count(s2.take(l)) + 1);
                assert(s2.skip(l).reverse() =~= s2.skip(l + 1).reverse().push(s2[l]));
                assert(it@ == item_of_pruned(s2[l]));
                assert(pruned@.map_values(|it2: ClipboardItem| it2@) =~= pp.map_values(
                    |it2: ClipboardItem| it2@,
                ).push(it@));
                assert(s2.skip(l).reverse().map_values(|e2: EntryModel| item_of_pruned(e2)) =~= s2
                    .skip(l + 1).reverse().map_values(|e2: EntryModel| item_of_pruned(e2)).push(
                    item_of_pruned(s2[l]),
                ));
                assert(pruned@.map_values(|it2: ClipboardItem| it2@) =~= s2.skip(
                    l,
                ).reverse().map_values(|e2: EntryModel| item_of_pruned(e2)));
            }
        }
        proof {
            let l = self@.len() as int;
            let n = s2.len() as int;
            let mx = max_size as nat;
            if n <= max_size {
                assert(self@ == s2);
                assert(prune_count(s2, mx) == 0);
            } else if l <= max_size {
                assert(l == max_size);
                assert(unpinned_count(s2) >= n - l);
                assert(prune_count(s2, mx) == n - l);
            } else {
                assert(self@[l - 1].is_pinned);
                lemma_take_preserves(s2, l, ni2, cv0);
                lemma_last_pinned_all_pinned(self@);
                lemma_all_pinned_count_zero(self@);
                assert(unpinned_count(s2) == n - l);
                assert(prune_count(s2, mx) == n - l);
            }
            assert(self@ == after_prune(s2, mx));
            assert(pruned@.map_values(|it: ClipboardItem| it@) == pruned_by(s2, mx).map_values(
                |e: EntryModel| item_of_pruned(e),
            ));
            lemma_take_preserves(s2, l, ni2, cv0);
            assert(self.collections_view() == cv0);
        }
        pruned
    }

    /// The entry at the given zero-based offset in the canonical order,
    /// decrypted and with its full content; `None` out of range.
    pub fn get_by_position(&self, index: usize) -> (r: Option<ClipboardItem>)
        requires
            self.wf(),
        ensures
            match r {
                Some(it) => index < self@.len() && it@ == item_of_entry(self@[index as int]),
                None => index >= self@.len(),
            },
    {
        if index >= self.entries.len() {
            return None;
        }
        Some(entry_to_item(&self.crypto, &self.entries[index]))
    }

    /// Remove the entry at the given offset in the canonical order and
    /// return it, decrypted, for external resource cleanup; out of range
    /// removes nothing.
    pub fn delete_item(&mut self, index: usize) -> (r: Option<ClipboardItem>)
        requires
            old(self).wf(),
        ensures
            final(self).wf(),
            final(self).collections_view() == old(self).collections_view(),
            final(self).spec_next_id() == old(self).spec_next_id(),
            final(self).spec_next_collection_id() == old(self).spec_next_collection_id(),
            match r {
                Some(it) => index < old(self)@.len() && it@ == item_of_entry(
                    old(self)@[index as int],
                ) && final(self)@ == old(self)@.remove(index as int),
                None => index >= old(self)@.len() && final(self)@ == old(self)@,
            },
    {
        if index >= self.entries.len() {
            return None;
        }
        let ghost s0 = self@;
        let ghost ev0 = self.entries@;
        let it = entry_to_item(&self.crypto, &self.entries[index]);
        let _ = self.entries.remove(index);
        proof {
            ev0.remove_ensures(index as int);
            s0.remove_ensures(index as int);
            assert(self@ =~= s0.remove(index as int));
            lemma_remove_preserves(s0, index as int, self.next_id, self.collections_view());
            assert forall|i: int|
                0 <= i < self.entries@.len() implies entry_ok(
                self.crypto.key_bytes(),
                #[trigger] self.entries@[i],
            ) by {
                let i2: int = if i < index {
                    i
                } else {
                    i + 1
                };
                assert(self.entries@[i] == ev0[i2]);
            }
        }
        Some(it)
    }

    /// Flip the pinned flag of the entry at the given offset; the entry
    /// moves to its new canonical position. Fails with `NotFound` when no
    /// entry stands at that offset.
    pub fn toggle_pin(&mut self, index: usize) -> (r: Result<bool, StoreError>)
        requires
            old(self).wf(),
        ensures
            final(self).wf(),
            final(self).collections_view() == old(self).collections_view(),
            final(self).spec_next_id() == old(self).spec_next_id(),
            final(self).spec_next_collection_id() == old(self).spec_next_collection_id(),
            match r {
                Ok(b) => index < old(self)@.len() && b == !old(self)@[index as int].is_pinned
                    && final(self)@ == place_entry(
                    old(self)@.remove(index as int),
                    flip_pinned(old(self)@[index as int]),
                ),
                Err(e) => e == StoreError::NotFound && index >= old(self)@.len() && final(self)@
                    == old(self)@,
            },
    {
        if index >= self.entries.len() {
            return Err(StoreError::NotFound);
        }
        let ghost s0 = self@;
        let ghost cv0 = self.collections_view();
        let ghost ev0 = self.entries@;
        let mut e = self.entries.remove(index);
        let new_state = !e.is_pinned;
        e.is_pinned = new_state;
        proof {
            ev0.remove_ensures(index as int);
            s0.remove_ensures(index as int);
            assert(self@ =~= s0.remove(index as int));
        }
        let ghost s1 = self@;
        let ghost em = entry_model(e);
        proof {
            assert(s0[index as int] == entry_model(ev0[index as int]));
            assert(em == flip_pinned(s0[index as int]));
            lemma_remove_preserves(s0, index as int, self.next_id, cv0);
            assert forall|i: int| 0 <= i < s1.len() implies (#[trigger] s1[i]).id != em.id
                && !same_content(s1[i], em.content, em.kind) by {
                let i2: int = if i < index {
                    i
                } else {
                    i + 1
                };
                assert(s1[i] == s0[i2]);
                if i2 < index {
                    assert(!(s0[i2].content == s0[index as int].content && s0[i2].kind
                        == s0[index as int].kind));
                } else {
                    assert(!(s0[index as int].content == s0[i2].content && s0[index as int].kind
                        == s0[i2].kind));
                }
            }
        }
        let pos = self.find_position(&e);
        let ghost ev1 = self.entries@;
        self.entries.insert(pos, e);
        proof {
            ev1.insert_ensures(pos as int, e);
            s1.insert_ensures(pos as int, em);
            assert(self@ =~= s1.insert(pos as int, em));
            lemma_place_preserves(s1, em, self.next_id, cv0);
            assert forall|i: int|
                0 <= i < self.entries@.len() implies entry_ok(
                self.crypto.key_bytes(),
                #[trigger] self.entries@[i],
            ) by {
                if i != pos {
                    let i2: int = if i < pos {
                        i
                    } else {
                        i - 1
                    };
                    assert(self.entries@[i] == ev1[i2]);
                } else {
                    assert(self.entries@[i] == e);
                    assert(entry_ok(self.crypto.key_bytes(), ev0[index as int]));
                }
            }
        }
        Ok(new_state)
    }

    /// Flip the sensitivity of the entry at the given offset. Text content
    /// is re-encrypted (turning on) or decrypted (turning off) in the same
    /// operation, so the flag and the stored form never disagree. Fails
    /// with `NotFound` when no entry stands at that offset; when the
    /// payload cannot be encrypted, the toggle is refused whole.
    pub fn toggle_sensitive(&mut self, index: usize) -> (r: Result<bool, StoreError>)
        requires
            old(self).wf(),
        ensures
            final(self).wf(),
            final(self).collections_view() == old(self).collections_view(),
            final(self).spec_next_id() == old(self).spec_next_id(),
            final(self).spec_next_collection_id() == old(self).spec_next_collection_id(),
            match r {
                Ok(b) => index < old(self)@.len() && b == !old(self)@[index as int].is_sensitive
                    && final(self)@ == old(self)@.update(
                    index as int,
                    flip_sensitive(old(self)@[index as int]),
                ),
                Err(e) => final(self)@ == old(self)@ && ((e == StoreError::NotFound && index
                    >= old(self)@.len()) || (e matches StoreError::Crypto(_) && index < old(
                    self,
                )@.len() && !old(self)@[index as int].is_sensitive && old(self)@[index as int].kind
                    == EntryKind::Text)),
            },
    {
        if index >= self.entries.len() {
            return Err(StoreError::NotFound);
        }
        let ghost s0 = self@;
        let ghost ev0 = self.entries@;
        let mut e = self.entries.remove(index);
        proof {
            ev0.remove_ensures(index as int);
            s0.remove_ensures(index as int);
            assert(self@ =~= s0.remove(index as int));
            assert(s0[index as int] == entry_model(ev0[index as int]));
            assert(entry_ok(self.crypto.key_bytes(), ev0[index as int]));
        }
        let new_state = !e.is_sensitive;
        if e.kind == EntryKind::Text {
            if new_state {
                match self.crypto.encrypt(e.content.as_str()) {
                    Ok(env) => {
                        e.content = env;
                    },
                    Err(ce) => {
                        let ghost em0 = entry_model(e);
                        self.entries.insert(index, e);
                        proof {
                            ev0.remove(index as int).insert_ensures(index as int, e);
                            s0.remove(index as int).insert_ensures(index as int, em0);
                            assert(self@ =~= s0);
                            assert(self.entries@ =~= ev0);
                        }
                        return Err(StoreError::Crypto(ce));
                    },
                }
            } else {
                match self.crypto.decrypt(e.content.as_str()) {
                    Ok(p) => {
                        e.content = p;
                    },
                    Err(_) => {
                        // under the invariant a stored envelope always decrypts
                        proof {
                            assert(false);
                        }
                    },
                }
            }
        }
        e.is_sensitive = new_state;
        let ghost em = entry_model(e);
        let ghost s1 = self@;
        let ghost ev1 = self.entries@;
        self.entries.insert(index, e);
        proof {
            assert(em == flip_sensitive(s0[index as int]));
            ev1.insert_ensures(index as int, e);
            s1.insert_ensures(index as int, em);
            assert(self@ =~= s0.update(index as int, em));
            assert(self.entries@ =~= ev0.update(index as int, e));
            assert(entry_ok(self.crypto.key_bytes(), e));
            assert forall|i: int|
                0 <= i < self.entries@.len() implies entry_ok(
                self.crypto.key_bytes(),
                #[trigger] self.entries@[i],
            ) by {
                if i != index {
                    assert(self.entries@[i] == ev0[i]);
                }
            }
            assert forall|i: int, j: int| 0 <= i < j < self@.len() implies before_eq(
                #[trigger] self@[i],
                #[trigger] self@[j],
            ) && self@[i].id != self@[j].id && !(self@[i].content == self@[j].content
                && self@[i].kind == self@[j].kind) by {
                assert(self@[i] == if i == index {
                    em
                } else {
                    s0[i]
                });
                assert(self@[j] == if j == index {
                    em
                } else {
                    s0[j]
                });
            }
        }
        Ok(new_state)
    }

    /// One page of the history: entries matching the query and collection
    /// filter, in canonical order, offset by `(page - 1) * page_size` and
    /// limited to `page_size`; decrypted, text truncated for display.
    #[verifier::loop_isolation(false)]
    #[verifier::rlimit(60)]
    pub fn get_history(
        &self,
        page: usize,
        page_size: usize,
        query: Option<String>,
        collection_id: Option<i64>,
    ) -> (r: Vec<ClipboardItem>)
        requires
            self.wf(),
            1 <= page,
            (page - 1) * page_size <= usize::MAX,
        ensures
            r@.map_values(|it: ClipboardItem| it@) == page_of(
                filtered_view(self@, view_opt_string(query), collection_id),
                (page - 1) * page_size,
                page_size as int,
            ).map_values(|e: EntryModel| display_item(e)),
    {
        let ghost qv = view_opt_string(query);
        let n = self.entries.len();
        let mut all: Vec<ClipboardItem> = Vec::new();
        let mut i: usize = 0;
        proof {
            assert(self@.take(0) =~= Seq::<EntryModel>::empty());
            assert(all@.map_values(|it: ClipboardItem| it@) =~= filtered_view(
                self@.take(0),
                qv,
                collection_id,
            ).map_values(|e: EntryModel| display_item(e)));
        }
        while i < n
            invariant
                0 <= i <= n,
                all@.map_values(|it: ClipboardItem| it@) == filtered_view(
                    self@.take(i as int),
                    qv,
                    collection_id,
                ).map_values(|e: EntryModel| display_item(e)),
            decreases n - i,
        {
            let e = &self.entries[i];
            let plain = entry_plaintext(&self.crypto, e);
            let q_ok: bool = match &query {
                Some(q) => {
                    if q.as_str().unicode_len() == 0 {
                        true
                    } else if str_contains(plain.as_str(), q.as_str()) {
                        true
                    } else {
                        match &e.note {
                            Some(nt) => str_contains(nt.as_str(), q.as_str()),
                            None => false,
                        }
                    }
                },
                None => true,
            };
            let c_ok: bool = match collection_id {
                Some(c) => match e.collection_id {
                    Some(c2) => c2 == c,
                    None => false,
                },
                None => true,
            };
            let ghost ap = all@;
            if q_ok && c_ok {
                let it = entry_to_display_item(&self.crypto, e);
                all.push(it);
            }
            proof {
                let t = self@.take(i + 1);
                assert(t.drop_last() =~= self@.take(i as int));
                assert(t.last() == self@[i as int]);
                assert((q_ok && c_ok) == matches_query(self@[i as int], qv, collection_id));
                if q_ok && c_ok {
                    assert(filtered_view(t, qv, collection_id) =~= filtered_view(
                        self@.take(i as int),
                        qv,
                        collection_id,
                    ).push(self@[i as int]));
                    assert(all@.map_values(|it2: ClipboardItem| it2@) =~= ap.map_values(
                        |it2: ClipboardItem| it2@,
                    ).push(display_item(self@[i as int])));
                } else {
                    assert(filtered_view(t, qv, collection_id) =~= filtered_view(
                        self@.take(i as int),
                        qv,
                        collection_id,
                    ));
                }
                assert(all@.map_values(|it2: ClipboardItem| it2@) =~= filtered_view(
                    t,
                    qv,
                    collection_id,
                ).map_values(|e2: EntryModel| display_item(e2)));
            }
            i += 1;
        }
        let ghost fv = filtered_view(self@, qv, collection_id);
        proof {
            assert(self@.take(n as int) =~= self@);
            assert(all@.map_values(|it: ClipboardItem| it@) =~= fv.map_values(
                |e: EntryModel| display_item(e),
            ));
        }
        let offset = (page - 1) * page_size;
        let mut out: Vec<ClipboardItem> = Vec::new();
        let mut k = offset;
        while k < all.len() && out.len() < page_size
            invariant
                offset <= k <= all@.len() || (k == offset && offset > all@.len()),
                out@ == (if offset <= all@.len() && k <= all@.len() {
                    all@.subrange(offset as int, k as int)
                } else {
                    Seq::<ClipboardItem>::empty()
                }),
                out@.len() <= page_size,
                k - offset == out@.len(),
            decreases all@.len() - k,
        {
            let it = clone_item(&all[k]);
            out.push(it);
            proof {
                assert(out@ =~= all@.subrange(offset as int, k + 1));
            }
            k += 1;
        }
        proof {
            let fvd = fv.map_values(|e: EntryModel| display_item(e));
            assert(fvd.len() == fv.len());
            if offset >= all@.len() {
                assert(out@ =~= Seq::<ClipboardItem>::empty());
                assert(page_of(fv, offset as int, page_size as int) =~= Seq::<
                    EntryModel,
                >::empty());
            } else if k == all@.len() && out@.len() < page_size {
                assert(page_of(fv, offset as int, page_size as int) =~= fv.subrange(
                    offset as int,
                    fv.len() as int,
                ));
            } else {
                assert(out@.len() == page_size);
                assert(k == offset + page_size);
                assert(page_of(fv, offset as int, page_size as int) =~= fv.subrange(
                    offset as int,
                    offset + page_size as int,
                ));
            }
            let pg = page_of(fv, offset as int, page_size as int);
            let outm = out@.map_values(|it: ClipboardItem| it@);
            let pgm = pg.map_values(|e: EntryModel| display_item(e));
            assert forall|j: int| 0 <= j < outm.len() implies #[trigger] outm[j] == pgm[j] by {
                assert(out@[j] == all@[offset + j]);
                assert(all@.map_values(|it: ClipboardItem| it@)[offset + j] == all@[offset + j]@);
                assert(pg[j] == fv[offset + j]);
            }
            assert(outm =~= pgm);
        }
        out
    }

    /// Delete every entry the retention policy does not keep — any
    /// combination of "keep pinned" and "keep collected"; both false
    /// clears everything — and return the deleted entries, decrypted,
    /// for external resource cleanup.
    #[verifier::loop_isolation(false)]
    #[verifier::rlimit(100)]
    pub fn clear_history(&mut self, keep_pinned: bool, keep_collected: bool) -> (r: Vec<
        ClipboardItem,
    >)
        requires
            old(self).wf(),
        ensures
            final(self).wf(),
            final(self)@ == after_clear(old(self)@, keep_pinned, keep_collected),
            r@.map_values(|it: ClipboardItem| it@) == cleared_by(
                old(self)@,
                keep_pinned,
                keep_collected,
            ).map_values(|e: EntryModel| item_of_entry(e)),
            final(self).collections_view() == old(self).collections_view(),
            final(self).spec_next_id() == old(self).spec_next_id(),
            final(self).spec_next_collection_id() == old(self).spec_next_collection_id(),
    {
        let ghost s0 = self@;
        let ghost cr0 = self.crypto;
        let ghost coll0 = self.collections@;
        let ghost ni0 = self.next_id;
        let ghost nci0 = self.next_collection_id;
        let ghost cv0 = self.collections_view();
        let mut deleted: Vec<ClipboardItem> = Vec::new();
        let mut i = self.entries.len();
        proof {
            assert(s0.skip(s0.len() as int) =~= Seq::<EntryModel>::empty());
            assert(self@ =~= s0.take(i as int) + after_clear(
                s0.skip(i as int),
                keep_pinned,
                keep_collected,
            ));
            assert(deleted@.map_values(|it: ClipboardItem| it@) =~= cleared_by(
                s0.skip(i as int),
                keep_pinned,
                keep_collected,
            ).map_values(|e: EntryModel| item_of_entry(e)));
        }
        while i > 0
            invariant
                0 <= i <= s0.len(),
                self.crypto == cr0,
                self.collections@ == coll0,
                self.next_id == ni0,
                self.next_collection_id == nci0,
                stored_ok(self.crypto.key_bytes(), self.entries@),
                sorted_canonical(self@),
                ids_ok(self@, ni0),
                contents_unique(self@),
                refs_ok(self@, cv0),
                self@ == s0.take(i as int) + after_clear(
                    s0.skip(i as int),
                    keep_pinned,
                    keep_collected,
                ),
                forall|k: int| 0 <= k < i ==> #[trigger] self@[k] == s0[k],
                i <= self@.len(),
                deleted@.map_values(|it: ClipboardItem| it@) == cleared_by(
                    s0.skip(i as int),
                    keep_pinned,
                    keep_collected,
                ).map_values(|e: EntryModel| item_of_entry(e)),
            decreases i,
        {
            let idx = i - 1;
            proof {
                assert(self@[idx as int] == s0[idx as int]);
                assert(s0.skip(idx as int) =~= seq![s0[idx as int]] + s0.skip(i as int));
                assert(s0.skip(idx as int).drop_first() =~= s0.skip(i as int));
            }
            let keep = (keep_pinned && self.entries[idx].is_pinned) || (keep_collected
                && self.entries[idx].collection_id.is_some());
            proof {
                assert(keep == kept_by_clear(s0[idx as int], keep_pinned, keep_collected));
            }
            if keep {
                proof {
                    assert(s0.take(i as int) =~= s0.take(idx as int).push(s0[idx as int]));
                    assert(after_clear(s0.skip(idx as int), keep_pinned, keep_collected) =~= seq![
                        s0[idx as int],
                    ] + after_clear(s0.skip(i as int), keep_pinned, keep_collected));
                    assert(self@ =~= s0.take(idx as int) + after_clear(
                        s0.skip(idx as int),
                        keep_pinned,
                        keep_collected,
                    ));
                    assert(cleared_by(s0.skip(idx as int), keep_pinned, keep_collected)
                        =~= cleared_by(s0.skip(i as int), keep_pinned, keep_collected));
                }
            } else {
                let it = entry_to_item(&self.crypto, &self.entries[idx]);
                let ghost evp = self.entries@;
                let ghost sp = self@;
                let ghost dp = deleted@;
                let _ = self.entries.remove(idx);
                deleted.insert(0, it);
                proof {
                    evp.remove_ensures(idx as int);
                    sp.remove_ensures(idx as int);
                    assert(self@ =~= sp.remove(idx as int));
                    lemma_remove_preserves(sp, idx as int, ni0, cv0);
                    assert forall|k: int|
                        0 <= k < self.entries@.len() implies entry_ok(
                        self.crypto.key_bytes(),
                        #[trigger] self.entries@[k],
                    ) by {
                        let k2: int = if k < idx {
                            k
                        } else {
                            k + 1
                        };
                        assert(self.entries@[k] == evp[k2]);
                    }
                    assert(after_clear(s0.skip(idx as int), keep_pinned, keep_collected)
                        =~= after_clear(s0.skip(i as int), keep_pinned, keep_collected));
                    assert(self@ =~= s0.take(idx as int) + after_clear(
                        s0.skip(idx as int),
                        keep_pinned,
                        keep_collected,
                    ));
                    assert(cleared_by(s0.skip(idx as int), keep_pinned, keep_collected) =~= seq![
                        s0[idx as int],
                    ] + cleared_by(s0.skip(i as int), keep_pinned, keep_collected));
                    dp.insert_ensures(0, it);
                    assert(it@ == item_of_entry(s0[idx as int]));
                    assert(deleted@ =~= seq![it] + dp);
                    assert(deleted@.map_values(|it2: ClipboardItem| it2@) =~= seq![it@]
                        + dp.map_values(|it2: ClipboardItem| it2@));
                    assert(deleted@.map_values(|it2: ClipboardItem| it2@) =~= cleared_by(
                        s0.skip(idx as int),
                        keep_pinned,
                        keep_collected,
                    ).map_values(|e2: EntryModel| item_of_entry(e2)));
                }
            }
            i = idx;
        }
        proof {
            assert(s0.take(0) =~= Seq::<EntryModel>::empty());
            assert(s0.skip(0) =~= s0);
            assert(self@ =~= after_clear(s0, keep_pinned, keep_collected));
            assert(deleted@.map_values(|it: ClipboardItem| it@) =~= cleared_by(
                s0,
                keep_pinned,
                keep_collected,
            ).map_values(|e: EntryModel| item_of_entry(e)));
        }
        deleted
    }

    /// The index of the entry carrying this id, if any.
    fn find_by_id(&self, id: i64) -> (r: Option<usize>)
        ensures
            match r {
                Some(k) => k < self@.len() && index_of_id(self@, id) == Some(k as int),
                None => index_of_id(self@, id) is None,
            },
    {
        let n = self.entries.len();
        let mut j: usize = 0;
        while j < n
            invariant
                n == self@.len(),
                0 <= j <= n,
                forall|i: int| 0 <= i < j ==> (#[trigger] self@[i]).id != id,
            decreases n - j,
        {
            if self.entries[j].id == id {
                proof {
                    lemma_id_first(self@, id, j as int);
                }
                return Some(j);
            }
            j += 1;
        }
        proof {
            lemma_id_none(self@, id);
        }
        None
    }

    /// The full, decrypted content of the entry with this id, bypassing
    /// list truncation; `NotFound` when no entry carries the id.
    pub fn get_item_content(&self, id: i64) -> (r: Result<String, StoreError>)
        requires
            self.wf(),
        ensures
            match r {
                Ok(c) => index_of_id(self@, id) matches Some(i) && c@ == self@[i].content,
                Err(e) => e == StoreError::NotFound && index_of_id(self@, id) is None,
            },
    {
        match self.find_by_id(id) {
            Some(k) => Ok(entry_plaintext(&self.crypto, &self.entries[k])),
            None => Err(StoreError::NotFound),
        }
    }

    /// Refresh the timestamp of the entry with this id; it moves to its
    /// new canonical position. An unknown id changes nothing.
    pub fn update_timestamp(&mut self, id: i64, timestamp: u64)
        requires
            old(self).wf(),
        ensures
            final(self).wf(),
            final(self).collections_view() == old(self).collections_view(),
            final(self).spec_next_id() == old(self).spec_next_id(),
            final(self).spec_next_collection_id() == old(self).spec_next_collection_id(),
            match index_of_id(old(self)@, id) {
                Some(i) => final(self)@ == place_entry(
                    old(self)@.remove(i),
                    retime(old(self)@[i], timestamp),
                ),
                None => final(self)@ == old(self)@,
            },
    {
        let index = match self.find_by_id(id) {
            Some(i) => i,
            None => {
                return ;
            },
        };
        let ghost s0 = self@;
        let ghost cv0 = self.collections_view();
        let ghost ev0 = self.entries@;
        let mut e = self.entries.remove(index);
        e.timestamp = timestamp;
        proof {
            ev0.remove_ensures(index as int);
            s0.remove_ensures(index as int);
            assert(self@ =~= s0.remove(index as int));
        }
        let ghost s1 = self@;
        let ghost em = entry_model(e);
        proof {
            assert(s0[index as int] == entry_model(ev0[index as int]));
            assert(em == retime(s0[index as int], timestamp));
            lemma_remove_preserves(s0, index as int, self.next_id, cv0);
            assert forall|i: int| 0 <= i < s1.len() implies (#[trigger] s1[i]).id != em.id
                && !same_content(s1[i], em.content, em.kind) by {
                let i2: int = if i < index {
                    i
                } else {
                    i + 1
                };
                assert(s1[i] == s0[i2]);
                if i2 < index {
                    assert(!(s0[i2].content == s0[index as int].content && s0[i2].kind
                        == s0[index as int].kind));
                } else {
                    assert(!(s0[index as int].content == s0[i2].content && s0[index as int].kind
                        == s0[i2].kind));
                }
            }
        }
        let pos = self.find_position(&e);
        let ghost ev1 = self.entries@;
        self.entries.insert(pos, e);
        proof {
            ev1.insert_ensures(pos as int, e);
            s1.insert_ensures(pos as int, em);
            assert(self@ =~= s1.insert(pos as int, em));
            lemma_place_preserves(s1, em, self.next_id, cv0);
            assert forall|i: int|
                0 <= i < self.entries@.len() implies entry_ok(
                self.crypto.key_bytes(),
                #[trigger] self.entries@[i],
            ) by {
                if i != pos {
                    let i2: int = if i < pos {
                        i
                    } else {
                        i - 1
                    };
                    assert(self.entries@[i] == ev1[i2]);
                } else {
                    assert(self.entries@[i] == e);
                    assert(entry_ok(self.crypto.key_bytes(), ev0[index as int]));
                }
            }
        }
    }

    /// Overwrite the content, classification and note of the entry with
    /// this id and refresh its timestamp, re-encrypting when the entry is
    /// sensitive text. Refused with `Conflict` when another active entry
    /// already holds the new content under the same kind; `NotFound` for
    /// an unknown id; a crypto error leaves the store unchanged.
    #[verifier::rlimit(60)]
    pub fn update_content(
        &mut self,
        id: i64,
        new_content: String,
        new_data_type: DataType,
        new_note: Option<String>,
        timestamp: u64,
    ) -> (r: Result<(), StoreError>)
        requires
            old(self).wf(),
        ensures
            final(self).wf(),
            final(self).collections_view() == old(self).collections_view(),
            final(self).spec_next_id() == old(self).spec_next_id(),
            final(self).spec_next_collection_id() == old(self).spec_next_collection_id(),
            match r {
                Ok(()) => index_of_id(old(self)@, id) matches Some(i) && final(self)@
                    == place_entry(
                    old(self)@.remove(i),
                    recontent(
                        old(self)@[i],
                        new_content@,
                        new_data_type,
                        view_opt_string(new_note),
                        timestamp,
                    ),
                ),
                Err(e) => final(self)@ == old(self)@ && match e {
                    StoreError::NotFound => index_of_id(old(self)@, id) is None,
                    StoreError::Conflict => index_of_id(old(self)@, id) matches Some(i)
                        && dedup_index(old(self)@, new_content@, old(self)@[i].kind) matches Some(k)
                        && k != i,
                    StoreError::Crypto(_) => index_of_id(old(self)@, id) matches Some(i) && old(
                        self,
                    )@[i].is_sensitive && old(self)@[i].kind == EntryKind::Text,
                    _ => false,
                },
            },
    {
        let index = match self.find_by_id(id) {
            Some(i) => i,
            None => {
                return Err(StoreError::NotFound);
            },
        };
        let kind = self.entries[index].kind;
        let ghost s0 = self@;
        match self.find_duplicate(&new_content, kind) {
            Some(k) => {
                if k != index {
                    return Err(StoreError::Conflict);
                }
            },
            None => {},
        }
        let ghost cv0 = self.collections_view();
        let ghost ev0 = self.entries@;
        let mut e = self.entries.remove(index);
        proof {
            ev0.remove_ensures(index as int);
            s0.remove_ensures(index as int);
            assert(self@ =~= s0.remove(index as int));
            assert(s0[index as int] == entry_model(ev0[index as int]));
        }
        if e.is_sensitive && e.kind == EntryKind::Text {
            match self.crypto.encrypt(new_content.as_str()) {
                Ok(env) => {
                    e.content = env;
                },
                Err(ce) => {
                    let ghost em0 = entry_model(e);
                    self.entries.insert(index, e);
                    proof {
                        ev0.remove(index as int).insert_ensures(index as int, e);
                        s0.remove(index as int).insert_ensures(index as int, em0);
                        assert(self@ =~= s0);
                        assert(self.entries@ =~= ev0);
                    }
                    return Err(StoreError::Crypto(ce));
                },
            }
        } else {
            e.content = new_content.clone();
        }
        e.plain = Ghost(new_content@);
        e.data_type = new_data_type;
        e.note = clone_opt_string(&new_note);
        e.timestamp = timestamp;
        let ghost s1 = self@;
        let ghost em = entry_model(e);
        proof {
            assert(em == recontent(
                s0[index as int],
                new_content@,
                new_data_type,
                view_opt_string(new_note),
                timestamp,
            ));
            lemma_remove_preserves(s0, index as int, self.next_id, cv0);
            lemma_dedup_some_props(s0, new_content@, kind);
            assert forall|i: int| 0 <= i < s1.len() implies (#[trigger] s1[i]).id != em.id
                && !same_content(s1[i], em.content, em.kind) by {
                let i2: int = if i < index {
                    i
                } else {
                    i + 1
                };
                assert(s1[i] == s0[i2]);
                if i2 < index {
                    assert(s0[i2].id != s0[index as int].id);
                } else {
                    assert(s0[index as int].id != s0[i2].id);
                }
                if same_content(s0[i2], new_content@, kind) {
                    match dedup_index(s0, new_content@, kind) {
                        Some(k) => {
                            if k != i2 {
                                if k < i2 {
                                    assert(!(s0[k].content == s0[i2].content && s0[k].kind
                                        == s0[i2].kind));
                                } else {
                                    assert(!(s0[i2].content == s0[k].content && s0[i2].kind
                                        == s0[k].kind));
                                }
                            }
                        },
                        None => {},
                    }
                }
            }
        }
        let pos = self.find_position(&e);
        let ghost ev1 = self.entries@;
        self.entries.insert(pos, e);
        proof {
            ev1.insert_ensures(pos as int, e);
            s1.insert_ensures(pos as int, em);
            assert(self@ =~= s1.insert(pos as int, em));
            lemma_place_preserves(s1, em, self.next_id, cv0);
            assert forall|i: int|
                0 <= i < self.entries@.len() implies entry_ok(
                self.crypto.key_bytes(),
                #[trigger] self.entries@[i],
            ) by {
                if i != pos {
                    let i2: int = if i < pos {
                        i
                    } else {
                        i - 1
                    };
                    assert(self.entries@[i] == ev1[i2]);
                } else {
                    assert(self.entries@[i] == e);
                }
            }
        }
        Ok(())
    }

    /// Create a collection under a fresh id.
    pub fn create_collection(&mut self, name: String, created_at: u64) -> (r: Result<
        Collection,
        StoreError,
    >)
        requires
            old(self).wf(),
        ensures
            final(self).wf(),
            final(self)@ == old(self)@,
            final(self).spec_next_id() == old(self).spec_next_id(),
            match r {
                Ok(c) => c@ == (CollectionModel {
                    id: old(self).spec_next_collection_id(),
                    name: name@,
                    created_at,
                }) && final(self).collections_view() == old(self).collections_view().push(c@)
                    && final(self).spec_next_collection_id() == old(
                    self,
                ).spec_next_collection_id() + 1,
                Err(e) => e == StoreError::IdsExhausted && old(self).spec_next_collection_id()
                    == i64::MAX && final(self).collections_view() == old(self).collections_view()
                    && final(self).spec_next_collection_id() == old(self).spec_next_collection_id(),
            },
    {
        if self.next_collection_id == i64::MAX {
            return Err(StoreError::IdsExhausted);
        }
        let ghost cv0 = self.collections_view();
        let c = Collection { id: self.next_collection_id, name, created_at };
        let out = clone_collection(&c);
        self.collections.push(c);
        self.next_collection_id = self.next_collection_id + 1;
        proof {
            assert(self.collections_view() =~= cv0.push(out@));
            assert forall|i: int|
                0 <= i < self@.len() implies match (#[trigger] self@[i]).collection_id {
                Some(cid) => cid_in(self.collections_view(), cid),
                None => true,
            } by {
                match self@[i].collection_id {
                    Some(cid) => {
                        let k = choose|k: int|
                            0 <= k < cv0.len() && (#[trigger] cv0[k]).id == cid;
                        assert(self.collections_view()[k] == cv0[k]);
                    },
                    None => {},
                }
            }
        }
        Ok(out)
    }

    /// All collections, in creation order.
    pub fn get_collections(&self) -> (r: Vec<Collection>)
        ensures
            r@.map_values(|c: Collection| c@) == self.collections_view(),
    {
        let n = self.collections.len();
        let mut out: Vec<Collection> = Vec::new();
        proof {
            assert(out@.map_values(|c: Collection| c@) =~= self.collections_view().take(0));
        }
        let mut i: usize = 0;
        while i < n
            invariant
                n == self.collections@.len(),
                0 <= i <= n,
                out@.map_values(|c: Collection| c@) == self.collections_view().take(i as int),
            decreases n - i,
        {
            let ghost op = out@;
            let c2 = clone_collection(&self.collections[i]);
            let ghost c2m = c2@;
            out.push(c2);
            proof {
                assert(c2m == self.collections_view()[i as int]);
                assert(out@.map_values(|c: Collection| c@) =~= op.map_values(
                    |c: Collection| c@,
                ).push(c2m));
                assert(self.collections_view().take(i + 1) =~= self.collections_view().take(
                    i as int,
                ).push(self.collections_view()[i as int]));
            }
            i += 1;
        }
        proof {
            assert(self.collections_view().take(n as int) =~= self.collections_view());
        }
        out
    }

    /// The index of the collection carrying this id, if any.
    fn find_collection_index(&self, cid: i64) -> (r: Option<usize>)
        ensures
            match r {
                Some(k) => k < self.collections_view().len() && index_of_cid(
                    self.collections_view(),
                    cid,
                ) == Some(k as int) && cid_in(self.collections_view(), cid),
                None => index_of_cid(self.collections_view(), cid) is None && !cid_in(
                    self.collections_view(),
                    cid,
                ),
            },
    {
        let m = self.collections.len();
        let mut j: usize = 0;
        while j < m
            invariant
                m == self.collections_view().len(),
                0 <= j <= m,
                forall|i2: int|
                    0 <= i2 < j ==> (#[trigger] self.collections_view()[i2]).id != cid,
            decreases m - j,
        {
            if self.collections[j].id == cid {
                proof {
                    lemma_cid_first(self.collections_view(), cid, j as int);
                    assert(0 <= j < self.collections_view().len()
                        && self.collections_view()[j as int].id == cid);
                }
                return Some(j);
            }
            j += 1;
        }
        proof {
            lemma_cid_none(self.collections_view(), cid);
        }
        None
    }

    /// Delete the collection with this id: its member entries are
    /// detached — they survive with no collection — and the collection
    /// itself is removed. An unknown id changes nothing.
    #[verifier::loop_isolation(false)]
    #[verifier::rlimit(60)]
    pub fn delete_collection(&mut self, id: i64)
        requires
            old(self).wf(),
        ensures
            final(self).wf(),
            final(self)@ == old(self)@.map_values(|e: EntryModel| detach_entry(e, id)),
            final(self).collections_view() == remove_cid(old(self).collections_view(), id),
            final(self).spec_next_id() == old(self).spec_next_id(),
            final(self).spec_next_collection_id() == old(self).spec_next_collection_id(),
    {
        let ghost s0 = self@;
        let ghost ev0 = self.entries@;
        let ghost cv0 = self.collections_view();
        let ghost cr0 = self.crypto;
        let ghost coll0 = self.collections@;
        let ghost ni0 = self.next_id;
        let ghost nci0 = self.next_collection_id;
        let n = self.entries.len();
        let mut i: usize = 0;
        while i < n
            invariant
                self.crypto == cr0,
                self.collections@ == coll0,
                self.next_id == ni0,
                self.next_collection_id == nci0,
                n == self.entries@.len(),
                0 <= i <= n,
                forall|k: int| 0 <= k < i ==> #[trigger] self.entries@[k] == detach_stored(
                    ev0[k],
                    id,
                ),
                forall|k: int| i <= k < n ==> #[trigger] self.entries@[k] == ev0[k],
            decreases n - i,
        {
            if self.entries[i].collection_id.is_some() {
                let cur = match self.entries[i].collection_id {
                    Some(c) => c,
                    None => 0,
                };
                if cur == id {
                    self.entries[i].collection_id = None;
                }
            }
            i += 1;
        }
        proof {
            assert(self.entries@ =~= ev0.map_values(|e: StoredEntry| detach_stored(e, id)));
            assert(self@ =~= s0.map_values(|e: EntryModel| detach_entry(e, id)));
        }
        let ghost evd = self.entries@;
        let ghost sd = self@;
        let k = self.find_collection_index(id);
        match k {
            Some(kk) => {
                let ghost cvv = self.collections@;
                let _ = self.collections.remove(kk);
                proof {
                    cvv.remove_ensures(kk as int);
                    cv0.remove_ensures(kk as int);
                    assert(self.collections_view() =~= cv0.remove(kk as int));
                }
            },
            None => {},
        }
        proof {
            assert(self.collections_view() == remove_cid(cv0, id));
            let cvn = self.collections_view();
            assert forall|a: int, b: int| 0 <= a < b < sd.len() implies before_eq(
                #[trigger] sd[a],
                #[trigger] sd[b],
            ) && sd[a].id != sd[b].id && !(sd[a].content == sd[b].content && sd[a].kind
                == sd[b].kind) by {
                assert(sd[a] == detach_entry(s0[a], id));
                assert(sd[b] == detach_entry(s0[b], id));
            }
            assert forall|a: int| 0 <= a < sd.len() implies 0 <= (#[trigger] sd[a]).id
                < self.next_id by {
                assert(sd[a] == detach_entry(s0[a], id));
            }
            assert forall|a: int|
                0 <= a < evd.len() implies entry_ok(
                self.crypto.key_bytes(),
                #[trigger] evd[a],
            ) by {
                assert(evd[a] == detach_stored(ev0[a], id));
                assert(entry_ok(self.crypto.key_bytes(), ev0[a]));
            }
            assert forall|a: int|
                0 <= a < sd.len() implies match (#[trigger] sd[a]).collection_id {
                Some(cid) => cid_in(cvn, cid),
                None => true,
            } by {
                assert(sd[a] == detach_entry(s0[a], id));
                match sd[a].collection_id {
                    Some(cid) => {
                        assert(cid != id);
                        assert(cid_in(cv0, cid));
                        let w = choose|w: int|
                            0 <= w < cv0.len() && (#[trigger] cv0[w]).id == cid;
                        match index_of_cid(cv0, id) {
                            Some(kk) => {
                                cv0.remove_ensures(kk);
                                let w2: int = if w < kk {
                                    w
                                } else {
                                    w - 1
                                };
                                assert(cv0[kk].id == id) by {
                                    lemma_cid_index_props(cv0, id);
                                }
                                assert(w != kk);
                                assert(cvn[w2] == cv0[w]);
                            },
                            None => {},
                        }
                    },
                    None => {},
                }
            }
            assert forall|a: int, b: int| 0 <= a < b < cvn.len() implies (
            #[trigger] cvn[a]).id != (#[trigger] cvn[b]).id by {
                match index_of_cid(cv0, id) {
                    Some(kk) => {
                        cv0.remove_ensures(kk);
                        let a2: int = if a < kk {
                            a
                        } else {
                            a + 1
                        };
                        let b2: int = if b < kk {
                            b
                        } else {
                            b + 1
                        };
                        assert(cvn[a] == cv0[a2] && cvn[b] == cv0[b2] && a2 < b2);
                    },
                    None => {},
                }
            }
            assert forall|a: int| 0 <= a < cvn.len() implies 0 <= (#[trigger] cvn[a]).id
                < self.next_collection_id by {
                match index_of_cid(cv0, id) {
                    Some(kk) => {
                        cv0.remove_ensures(kk);
                        let a2: int = if a < kk {
                            a
                        } else {
                            a + 1
                        };
                        assert(cvn[a] == cv0[a2]);
                    },
                    None => {},
                }
            }
        }
    }

    /// Attach the entry with id `item_id` to the collection named by
    /// `collection_id`, or detach it with `None`. Attaching to a
    /// collection that does not exist fails with `NotFound`; an unknown
    /// entry id changes nothing.
    pub fn set_item_collection(&mut self, item_id: i64, collection_id: Option<i64>) -> (r: Result<
        (),
        StoreError,
    >)
        requires
            old(self).wf(),
        ensures
            final(self).wf(),
            final(self).collections_view() == old(self).collections_view(),
            final(self).spec_next_id() == old(self).spec_next_id(),
            final(self).spec_next_collection_id() == old(self).spec_next_collection_id(),
            match r {
                Ok(()) => (match collection_id {
                    Some(c) => cid_in(old(self).collections_view(), c),
                    None => true,
                }) && (match index_of_id(old(self)@, item_id) {
                    Some(i) => final(self)@ == old(self)@.update(
                        i,
                        set_coll(old(self)@[i], collection_id),
                    ),
                    None => final(self)@ == old(self)@,
                }),
                Err(e) => e == StoreError::NotFound && final(self)@ == old(self)@ && (
                collection_id matches Some(c) && !cid_in(old(self).collections_view(), c)),
            },
    {
        let ghost cv0 = self.collections_view();
        if let Some(c) = collection_id {
            match self.find_collection_index(c) {
                Some(_) => {},
                None => {
                    return Err(StoreError::NotFound);
                },
            }
        }
        let index = match self.find_by_id(item_id) {
            Some(i) => i,
            None => {
                return Ok(());
            },
        };
        let ghost s0 = self@;
        let ghost ev0 = self.entries@;
        let mut e = self.entries.remove(index);
        e.collection_id = collection_id;
        let ghost em = entry_model(e);
        let ghost s1 = self@;
        let ghost ev1 = self.entries@;
        self.entries.insert(index, e);
        proof {
            ev0.remove_ensures(index as int);
            s0.remove_ensures(index as int);
            ev1.insert_ensures(index as int, e);
            s1.insert_ensures(index as int, em);
            assert(s0[index as int] == entry_model(ev0[index as int]));
            assert(em == set_coll(s0[index as int], collection_id));
            assert(self@ =~= s0.update(index as int, em));
            assert(self.entries@ =~= ev0.update(index as int, e));
            assert(entry_ok(self.crypto.key_bytes(), ev0[index as int]));
            assert(entry_ok(self.crypto.key_bytes(), e));
            assert forall|i: int|
                0 <= i < self.entries@.len() implies entry_ok(
                self.crypto.key_bytes(),
                #[trigger] self.entries@[i],
            ) by {
                if i != index {
                    assert(self.entries@[i] == ev0[i]);
                }
            }
            assert forall|i: int, j2: int| 0 <= i < j2 < self@.len() implies before_eq(
                #[trigger] self@[i],
                #[trigger] self@[j2],
            ) && self@[i].id != self@[j2].id && !(self@[i].content == self@[j2].content
                && self@[i].kind == self@[j2].kind) by {
                assert(self@[i] == if i == index {
                    em
                } else {
                    s0[i]
                });
                assert(self@[j2] == if j2 == index {
                    em
                } else {
                    s0[j2]
                });
            }
        }
        Ok(())
    }
}

proof fn lemma_cid_index_props(cs: Seq<CollectionModel>, id: i64)
    ensures
        match index_of_cid(cs, id) {
            Some(k) => 0 <= k < cs.len() && cs[k].id == id,
            None => !cid_in(cs, id),
        },
    decreases cs.len(),
{
    if cs.len() > 0 {
        lemma_cid_index_props(cs.drop_first(), id);
        if cs[0].id != id {
            match index_of_cid(cs.drop_first(), id) {
                Some(k) => {
                    assert(cs.drop_first()[k] == cs[k + 1]);
                },
                None => {
                    assert forall|i: int| 0 <= i < cs.len() implies (#[trigger] cs[i]).id
                        != id by {
                        if i > 0 {
                            assert(cs.drop_first()[i - 1] == cs[i]);
                        }
                    }
                },
            }
        }
    }
}

} // verus!
