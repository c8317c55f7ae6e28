//! The store's guiding properties, stated and proved once over its
//! mathematical model: deduplication, the capacity bound, the pinned
//! exemption from pruning, and the listing order.

use vstd::prelude::*;
use crate::models::ItemModel;
use crate::store::{
    after_insert_step,
    after_prune,
    before_eq,
    contents_unique,
    dedup_index,
    display_item,
    entry_of_item,
    filtered_view,
    insert_pos,
    lemma_all_pinned_count_zero,
    lemma_dedup_some_props,
    lemma_insert_pos_props,
    lemma_place_sorted,
    matches_query,
    page_of,
    place_entry,
    prune_count,
    pruned_by,
    refresh,
    same_content,
    sorted_canonical,
    unpinned_count,
    EntryModel,
};

verus! {

proof fn lemma_unpinned_le_len(s: Seq<EntryModel>)
    ensures
        unpinned_count(s) <= s.len(),
    decreases s.len(),
{
    if s.len() > 0 {
        lemma_unpinned_le_len(s.drop_last());
    }
}

/// In canonical order the pinned entries are exactly the front of the
/// sequence: an entry is pinned if and only if it stands before the last
/// `unpinned_count` positions.
proof fn lemma_sorted_pinned_front(s: Seq<EntryModel>)
    requires
        sorted_canonical(s),
    ensures
        forall|i: int|
            0 <= i < s.len() ==> ((#[trigger] s[i]).is_pinned <==> i < s.len() - unpinned_count(
                s,
            )),
    decreases s.len(),
{
    lemma_unpinned_le_len(s);
    if s.len() > 0 {
        if s.last().is_pinned {
            crate::store::lemma_last_pinned_all_pinned(s);
            lemma_all_pinned_count_zero(s);
        } else {
            let s2 = s.drop_last();
            assert(sorted_canonical(s2)) by {
                assert forall|a: int, b: int| 0 <= a < b < s2.len() implies before_eq(
                    #[trigger] s2[a],
                    #[trigger] s2[b],
                ) by {
                    assert(s2[a] == s[a] && s2[b] == s[b]);
                }
            }
            lemma_sorted_pinned_front(s2);
            assert(unpinned_count(s) == unpinned_count(s2) + 1);
            assert forall|i: int| 0 <= i < s.len() implies ((#[trigger] s[i]).is_pinned <==> i
                < s.len() - unpinned_count(s)) by {
                if i < s.len() - 1 {
                    assert(s2[i] == s[i]);
                }
            }
        }
    }
}

proof fn lemma_remove_keeps_sorted(s: Seq<EntryModel>, j: int)
    requires
        sorted_canonical(s),
        0 <= j < s.len(),
    ensures
        sorted_canonical(s.remove(j)),
{
    s.remove_ensures(j);
    let t = s.remove(j);
    assert forall|a: int, b: int| 0 <= a < b < t.len() implies before_eq(
        #[trigger] t[a],
        #[trigger] t[b],
    ) by {
        let a2: int = if a < j {
            a
        } else {
            a + 1
        };
        let b2: int = if b < j {
            b
        } else {
            b + 1
        };
        assert(t[a] == s[a2] && t[b] == s[b2] && a2 < b2);
    }
}

/// After the dedup-or-create step the sequence is in canonical order
/// again, and each of its entries is either the inserted one or one
/// carried over unchanged (up to the refresh of a duplicate).
proof fn lemma_step_sorted(s: Seq<EntryModel>, item: ItemModel, next_id: i64)
    requires
        sorted_canonical(s),
    ensures
        sorted_canonical(after_insert_step(s, item, next_id)),
{
    lemma_dedup_some_props(s, item.content, item.kind);
    match dedup_index(s, item.content, item.kind) {
        Some(j) => {
            lemma_remove_keeps_sorted(s, j);
            lemma_place_sorted(s.remove(j), refresh(s[j], item.timestamp, item.source_app));
        },
        None => {
            lemma_place_sorted(s, entry_of_item(item, next_id));
        },
    }
}

/// Dedup: after an insert there is exactly one active entry holding the
/// inserted plaintext content and kind. A duplicate is refreshed in
/// place — the live count stays, the entry keeps its id and takes the
/// insert's timestamp and provenance, and no second row appears; fresh
/// content adds one entry under the fresh id.
pub proof fn lemma_insert_dedup(s: Seq<EntryModel>, item: ItemModel, next_id: i64)
    requires
        sorted_canonical(s),
        contents_unique(s),
    ensures
        ({
            let t = after_insert_step(s, item, next_id);
            &&& exists|k: int|
                0 <= k < t.len() && same_content(#[trigger] t[k], item.content, item.kind)
                    && t[k].timestamp == item.timestamp && t[k].source_app == item.source_app && (
                match dedup_index(s, item.content, item.kind) {
                    Some(j) => t.len() == s.len() && t[k].id == s[j].id,
                    None => t.len() == s.len() + 1 && t[k].id == next_id,
                })
            &&& forall|k1: int, k2: int|
                0 <= k1 < k2 < t.len() ==> !(same_content(#[trigger] t[k1], item.content, item.kind)
                    && same_content(#[trigger] t[k2], item.content, item.kind))
        }),
{
    let t = after_insert_step(s, item, next_id);
    lemma_dedup_some_props(s, item.content, item.kind);
    match dedup_index(s, item.content, item.kind) {
        Some(j) => {
            let s1 = s.remove(j);
            let e2 = refresh(s[j], item.timestamp, item.source_app);
            s.remove_ensures(j);
            let pos = insert_pos(s1, e2);
            lemma_insert_pos_props(s1, e2);
            s1.insert_ensures(pos, e2);
            assert(t[pos] == e2);
            assert(same_content(t[pos], item.content, item.kind));
            assert forall|k1: int, k2: int| 0 <= k1 < k2 < t.len() implies !(same_content(
                #[trigger] t[k1],
                item.content,
                item.kind,
            ) && same_content(#[trigger] t[k2], item.content, item.kind)) by {
                if k1 != pos && k2 != pos {
                    let a1: int = if k1 < pos {
                        k1
                    } else {
                        k1 - 1
                    };
                    let a2: int = if k2 < pos {
                        k2
                    } else {
                        k2 - 1
                    };
                    let b1: int = if a1 < j {
                        a1
                    } else {
                        a1 + 1
                    };
                    let b2: int = if a2 < j {
                        a2
                    } else {
                        a2 + 1
                    };
                    assert(t[k1] == s[b1] && t[k2] == s[b2] && b1 != b2);
                    if same_content(s[b1], item.content, item.kind) && same_content(
                        s[b2],
                        item.content,
                        item.kind,
                    ) {
                        if b1 < b2 {
                            assert(!(s[b1].content == s[b2].content && s[b1].kind == s[b2].kind));
                        } else {
                            assert(!(s[b2].content == s[b1].content && s[b2].kind == s[b1].kind));
                        }
                    }
                } else {
                    let ko: int = if k1 == pos {
                        k2
                    } else {
                        k1
                    };
                    if ko != pos {
                        let a: int = if ko < pos {
                            ko
                        } else {
                            ko - 1
                        };
                        let b: int = if a < j {
                            a
                        } else {
                            a + 1
                        };
                        assert(t[ko] == s[b] && b != j);
                        if same_content(s[b], item.content, item.kind) {
                            if b < j {
                                assert(!(s[b].content == s[j].content && s[b].kind == s[j].kind));
                            } else {
                                assert(!(s[j].content == s[b].content && s[j].kind == s[b].kind));
                            }
                        }
                    }
                }
            }
        },
        None => {
            let e2 = entry_of_item(item, next_id);
            let pos = insert_pos(s, e2);
            lemma_insert_pos_props(s, e2);
            s.insert_ensures(pos, e2);
            assert(t[pos] == e2);
            assert(same_content(t[pos], item.content, item.kind));
            assert forall|k1: int, k2: int| 0 <= k1 < k2 < t.len() implies !(same_content(
                #[trigger] t[k1],
                item.content,
                item.kind,
            ) && same_content(#[trigger] t[k2], item.content, item.kind)) by {
                let ko: int = if k1 == pos {
                    k2
                } else {
                    k1
                };
                if ko != pos {
                    let a: int = if ko < pos {
                        ko
                    } else {
                        ko - 1
                    };
                    assert(t[ko] == s[a]);
                    assert(!same_content(s[a], item.content, item.kind));
                }
            }
        },
    }
}

/// Capacity: pruning removes exactly enough of the oldest unpinned
/// entries — when the excess is covered by unpinned entries the live
/// count comes back to the bound, never below it; everything pruned is
/// unpinned, and no kept unpinned entry is older than a pruned one.
pub proof fn lemma_prune_capacity(s: Seq<EntryModel>, max: nat)
    requires
        sorted_canonical(s),
    ensures
        s.len() <= max ==> after_prune(s, max) == s && pruned_by(s, max).len() == 0,
        (s.len() > max && s.len() - max <= unpinned_count(s)) ==> after_prune(s, max).len() == max,
        after_prune(s, max).len() == s.len() - prune_count(s, max),
        pruned_by(s, max).len() == prune_count(s, max),
        forall|p: int|
            0 <= p < pruned_by(s, max).len() ==> !(#[trigger] pruned_by(s, max)[p]).is_pinned,
        forall|a: int, p: int|
            (0 <= a < after_prune(s, max).len() && 0 <= p < pruned_by(s, max).len() && !(
            #[trigger] after_prune(s, max)[a]).is_pinned) ==> after_prune(s, max)[a].timestamp >= (
            #[trigger] pruned_by(s, max)[p]).timestamp,
{
    lemma_unpinned_le_len(s);
    lemma_sorted_pinned_front(s);
    let n = s.len() as int;
    let pc = prune_count(s, max) as int;
    if s.len() <= max {
        assert(after_prune(s, max) =~= s);
    }
    assert forall|p: int| 0 <= p < pruned_by(s, max).len() implies !(#[trigger] pruned_by(
        s,
        max,
    )[p]).is_pinned by {
        assert(pruned_by(s, max)[p] == s[n - 1 - p]);
        assert(n - 1 - p >= n - pc);
        assert(pc <= unpinned_count(s));
    }
    assert forall|a: int, p: int|
        (0 <= a < after_prune(s, max).len() && 0 <= p < pruned_by(s, max).len() && !(
        #[trigger] after_prune(s, max)[a]).is_pinned) implies after_prune(s, max)[a].timestamp >= (
    #[trigger] pruned_by(s, max)[p]).timestamp by {
        assert(after_prune(s, max)[a] == s[a]);
        assert(pruned_by(s, max)[p] == s[n - 1 - p]);
        assert(a < n - pc && n - 1 - p >= n - pc);
        assert(before_eq(s[a], s[n - 1 - p]));
    }
}

/// Pinned exemption: an insert, pruning included, never removes a pinned
/// entry — however far capacity is exceeded, every pinned entry survives
/// under its id, still pinned.
pub proof fn lemma_insert_keeps_pinned(s: Seq<EntryModel>, item: ItemModel, next_id: i64, max: nat)
    requires
        sorted_canonical(s),
    ensures
        ({
            let t2 = after_prune(after_insert_step(s, item, next_id), max);
            forall|i: int|
                0 <= i < s.len() && (#[trigger] s[i]).is_pinned ==> exists|k: int|
                    0 <= k < t2.len() && (#[trigger] t2[k]).id == s[i].id && t2[k].is_pinned
        }),
{
    let t = after_insert_step(s, item, next_id);
    let t2 = after_prune(t, max);
    lemma_step_sorted(s, item, next_id);
    lemma_sorted_pinned_front(t);
    lemma_unpinned_le_len(t);
    lemma_dedup_some_props(s, item.content, item.kind);
    assert forall|i: int| 0 <= i < s.len() && (#[trigger] s[i]).is_pinned implies exists|k: int|
        0 <= k < t2.len() && (#[trigger] t2[k]).id == s[i].id && t2[k].is_pinned by {
        let k1: int = match dedup_index(s, item.content, item.kind) {
            Some(j) => {
                let s1 = s.remove(j);
                let e2 = refresh(s[j], item.timestamp, item.source_app);
                s.remove_ensures(j);
                let pos = insert_pos(s1, e2);
                lemma_insert_pos_props(s1, e2);
                s1.insert_ensures(pos, e2);
                if i == j {
                    assert(t[pos] == e2 && e2.id == s[j].id && e2.is_pinned == s[j].is_pinned);
                    pos
                } else {
                    let a: int = if i < j {
                        i
                    } else {
                        i - 1
                    };
                    let k: int = if a < pos {
                        a
                    } else {
                        a + 1
                    };
                    assert(s1[a] == s[i]);
                    assert(t[k] == s1[a]);
                    k
                }
            },
            None => {
                let e2 = entry_of_item(item, next_id);
                let pos = insert_pos(s, e2);
                lemma_insert_pos_props(s, e2);
                s.insert_ensures(pos, e2);
                let k: int = if i < pos {
                    i
                } else {
                    i + 1
                };
                assert(t[k] == s[i]);
                k
            },
        };
        assert(0 <= k1 < t.len() && t[k1].id == s[i].id && t[k1].is_pinned);
        assert(k1 < t.len() - unpinned_count(t));
        assert(prune_count(t, max) <= unpinned_count(t));
        assert(t2[k1] == t[k1]);
    }
}

proof fn lemma_filtered_member(s: Seq<EntryModel>, q: Option<Seq<char>>, cid: Option<i64>)
    ensures
        forall|k: int|
            0 <= k < filtered_view(s, q, cid).len() ==> exists|i: int|
                0 <= i < s.len() && #[trigger] filtered_view(s, q, cid)[k] == s[i],
    decreases s.len(),
{
    if s.len() > 0 {
        lemma_filtered_member(s.drop_last(), q, cid);
        let fv = filtered_view(s, q, cid);
        let fv2 = filtered_view(s.drop_last(), q, cid);
        assert forall|k: int| 0 <= k < fv.len() implies exists|i: int|
            0 <= i < s.len() && #[trigger] fv[k] == s[i] by {
            if k < fv2.len() {
                assert(fv[k] == fv2[k]);
                let i = choose|i: int| 0 <= i < s.drop_last().len() && #[trigger] fv2[k]
                    == s.drop_last()[i];
                assert(s.drop_last()[i] == s[i]);
                assert(fv[k] == s[i]);
            } else {
                assert(fv[k] == s.last());
                assert(fv[k] == s[s.len() - 1]);
            }
        }
    }
}

proof fn lemma_filtered_sorted(s: Seq<EntryModel>, q: Option<Seq<char>>, cid: Option<i64>)
    requires
        sorted_canonical(s),
    ensures
        sorted_canonical(filtered_view(s, q, cid)),
    decreases s.len(),
{
    if s.len() > 0 {
        let s2 = s.drop_last();
        assert(sorted_canonical(s2)) by {
            assert forall|a: int, b: int| 0 <= a < b < s2.len() implies before_eq(
                #[trigger] s2[a],
                #[trigger] s2[b],
            ) by {
                assert(s2[a] == s[a] && s2[b] == s[b]);
            }
        }
        lemma_filtered_sorted(s2, q, cid);
        lemma_filtered_member(s2, q, cid);
        let fv = filtered_view(s, q, cid);
        let fv2 = filtered_view(s2, q, cid);
        assert forall|a: int, b: int| 0 <= a < b < fv.len() implies before_eq(
            #[trigger] fv[a],
            #[trigger] fv[b],
        ) by {
            if b < fv2.len() {
                assert(fv[a] == fv2[a] && fv[b] == fv2[b]);
            } else {
                assert(fv[b] == s.last());
                assert(fv[a] == fv2[a]);
                let i = choose|i: int| 0 <= i < s2.len() && #[trigger] fv2[a] == s2[i];
                assert(s2[i] == s[i]);
                if i < s.len() - 1 {
                    assert(before_eq(s[i], s[s.len() - 1]));
                } else {
                    assert(fv[a] == s[s.len() - 1]);
                    assert(before_eq(fv[a], fv[b]));
                }
            }
        }
    }
}

/// Ordering: a list result is pinned-first, then timestamp-descending —
/// every pinned item stands before every unpinned one, and within the
/// pinned and the unpinned group newer items come first. This holds for
/// any filter and any page of the canonical order.
pub proof fn lemma_list_ordering(
    s: Seq<EntryModel>,
    q: Option<Seq<char>>,
    cid: Option<i64>,
    offset: int,
    limit: int,
)
    requires
        sorted_canonical(s),
        0 <= offset,
        0 <= limit,
    ensures
        ({
            let res = page_of(filtered_view(s, q, cid), offset, limit).map_values(
                |e: EntryModel| display_item(e),
            );
            forall|i: int, j: int|
                0 <= i < j < res.len() ==> (((#[trigger] res[i]).is_pinned || !(
                #[trigger] res[j]).is_pinned) && (res[i].is_pinned == res[j].is_pinned
                    ==> res[i].timestamp >= res[j].timestamp))
        }),
{
    lemma_filtered_sorted(s, q, cid);
    let fv = filtered_view(s, q, cid);
    let pg = page_of(fv, offset, limit);
    let res = pg.map_values(|e: EntryModel| display_item(e));
    assert forall|i: int, j: int| 0 <= i < j < res.len() implies (((#[trigger] res[i]).is_pinned
        || !(#[trigger] res[j]).is_pinned) && (res[i].is_pinned == res[j].is_pinned
        ==> res[i].timestamp >= res[j].timestamp)) by {
        if offset < fv.len() {
            assert(pg[i] == fv[offset + i] && pg[j] == fv[offset + j]);
            assert(before_eq(fv[offset + i], fv[offset + j]));
            assert(res[i] == display_item(pg[i]) && res[j] == display_item(pg[j]));
        }
    }
}

} // verus!
