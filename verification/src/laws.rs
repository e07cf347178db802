//! The laws of the cache, stated and proved over the same spec functions
//! that the operations' contracts use. Each law holds for every input its
//! `requires` admits, not just for the values a test happens to pick.

use crate::assoc::{
    contains_key, find_key, keys_distinct, lemma_find_key, lemma_find_key_push, lemma_index_is_find,
    lemma_remove_assoc, value_of,
};
use crate::cache::{
    cache_wf, fresh_item, spec_cleanup_mem_budget, spec_got_value, spec_insert_item,
    spec_remove_item, CacheView, CleanseStrategy,
};
use crate::eviction::{
    cand_keys_distinct, keys_of, lemma_selected_mem_props, lemma_selected_mem_sums,
    lemma_sort_preserves, selected_mem, sort_cands, sum_mem, sum_selectable, CandView,
};
use crate::memdb::{
    apply_demotions, cand_of, item_wf, lemma_demotions_demoted_key, lemma_demotions_preserve,
    lemma_demotions_remove_exactly, lemma_snapshot_resident_sum, mem_in_use, snapshot_of,
    store_wf, tiers_linked, ItemView,
};
use vstd::prelude::*;

verus! {

/// Accounting invariant: in a well-formed cache — and every operation
/// keeps the cache well-formed — `ram_used` equals the sum of the memory
/// footprints of the memory-resident entries.
pub proof fn lemma_accounting_invariant(cv: CacheView)
    requires
        cache_wf(cv),
    ensures
        cv.ram_used == mem_in_use(cv.entries),
{
}

/// Tier exclusivity lower bound: every entry reachable from the index holds
/// its payload or records a disk location; one with neither never sits in a
/// well-formed index.
pub proof fn lemma_tier_exclusivity(cv: CacheView)
    requires
        cache_wf(cv),
    ensures
        forall|i: int| 0 <= i < cv.entries.len() ==> ((#[trigger] cv.entries[i]).1.value is Some
            || cv.entries[i].1.filepath is Some),
{
    assert forall|i: int| 0 <= i < cv.entries.len() implies ((#[trigger] cv.entries[i]).1.value
        is Some || cv.entries[i].1.filepath is Some) by {
        assert(item_wf(cv.entries[i].1));
    }
}

/// Eviction monotonicity: a memory-cleanup pass requesting `n` bytes frees
/// a memory footprint between zero and the pre-pass total, and at least `n`
/// whenever the entries that could be demoted — the memory-resident ones
/// not yet on disk — carry at least `n` bytes of footprint between them.
pub proof fn lemma_eviction_monotonicity(
    e: Seq<(Seq<char>, ItemView)>,
    f: Seq<(Seq<char>, Seq<u8>)>,
    dir: Seq<char>,
    strategy: CleanseStrategy,
    n: u64,
)
    requires
        store_wf(e),
        keys_distinct(f),
        tiers_linked(e, f),
    ensures
        ({
            let sel = selected_mem(sort_cands(strategy, snapshot_of(e, f)), n as int);
            let removed = mem_in_use(e) - mem_in_use(apply_demotions(e, f, keys_of(sel), dir).0);
            &&& 0 <= removed
            &&& removed <= mem_in_use(e)
            &&& n <= sum_selectable(snapshot_of(e, f)) ==> removed >= n
        }),
{
    let snap = snapshot_of(e, f);
    assert(snap.len() == e.len());
    assert forall|i: int, j: int| 0 <= i < j < snap.len() implies snap[i].key != snap[j].key by {
        assert(snap[i] == cand_of(e[i], f));
        assert(snap[j] == cand_of(e[j], f));
    }
    lemma_sort_preserves(strategy, snap);
    let sorted = sort_cands(strategy, snap);
    lemma_selected_mem_props(sorted, n as int);
    lemma_selected_mem_sums(sorted, n as int);
    let sel = selected_mem(sorted, n as int);
    assert forall|i: int| 0 <= i < sel.len() implies snap.contains(#[trigger] sel[i]) by {
        assert(sorted.contains(sel[i]));
        let j = choose|j: int| 0 <= j < sorted.len() && sorted[j] == sel[i];
        assert(snap.contains(sorted[j]));
    }
    lemma_demotions_remove_exactly(e, f, sel, dir);
    lemma_snapshot_resident_sum(e, f);
    crate::eviction::lemma_sum_selectable_le_resident(snap);
    assert(sum_mem(sel) <= sum_selectable(sorted));
}

/// Eviction monotonicity at the facade: a memory-cleanup down to a budget
/// never raises `ram_used`, and reaches the budget whenever the entries
/// that could be demoted carry enough footprint to cover the excess.
pub proof fn lemma_cleanup_reaches_budget(cv: CacheView, strategy: CleanseStrategy, new_max: u64)
    requires
        cache_wf(cv),
    ensures
        spec_cleanup_mem_budget(cv, strategy, new_max).ram_used <= cv.ram_used,
        cv.ram_used > new_max && cv.ram_used - new_max <= sum_selectable(
            snapshot_of(cv.entries, cv.files),
        ) ==> spec_cleanup_mem_budget(cv, strategy, new_max).ram_used <= new_max,
{
    if cv.ram_used > new_max {
        let n = (cv.ram_used - new_max) as u64;
        lemma_eviction_monotonicity(cv.entries, cv.files, cv.cache_path, strategy, n);
    }
}

/// Round trip, memory tier: a `set` of `b` under `key` followed
/// immediately by a `get` of `key` yields exactly `b`, straight from
/// memory.
pub proof fn lemma_round_trip_memory(cv: CacheView, key: Seq<char>, b: Seq<u8>, t: u128)
    requires
        cache_wf(cv),
    ensures
        spec_got_value(spec_insert_item(cv, key, b, t), key) == Some(b),
{
    let cv1 = spec_remove_item(cv, key);
    lemma_remove_assoc(cv.entries, key);
    assert(!contains_key(cv1.entries, key));
    let e2 = cv1.entries.push((key, fresh_item(b, t)));
    lemma_find_key_push(cv1.entries, (key, fresh_item(b, t)), key);
    assert(contains_key(e2, key));
    assert(value_of(e2, key) == fresh_item(b, t));
}

/// Round trip, disk tier: when a memory-cleanup pass demotes `key`, a `get`
/// of `key` afterwards still yields exactly the payload that was resident
/// before the pass, read transparently from the entry's file.
pub proof fn lemma_round_trip_disk(
    cv: CacheView,
    strategy: CleanseStrategy,
    new_max: u64,
    key: Seq<char>,
)
    requires
        cache_wf(cv),
        cv.ram_used > new_max,
        keys_of(
            selected_mem(
                sort_cands(strategy, snapshot_of(cv.entries, cv.files)),
                cv.ram_used - new_max,
            ),
        ).contains(key),
    ensures
        value_of(cv.entries, key).value is Some,
        spec_got_value(spec_cleanup_mem_budget(cv, strategy, new_max), key) == Some(
            value_of(cv.entries, key).value->Some_0,
        ),
{
    let snap = snapshot_of(cv.entries, cv.files);
    assert(snap.len() == cv.entries.len());
    assert forall|i: int, j: int| 0 <= i < j < snap.len() implies snap[i].key != snap[j].key by {
        assert(snap[i] == cand_of(cv.entries[i], cv.files));
        assert(snap[j] == cand_of(cv.entries[j], cv.files));
    }
    lemma_sort_preserves(strategy, snap);
    let sorted = sort_cands(strategy, snap);
    let n = cv.ram_used - new_max;
    lemma_selected_mem_props(sorted, n as int);
    let sel = selected_mem(sorted, n as int);
    let keys = keys_of(sel);
    let i = choose|i: int| 0 <= i < keys.len() && keys[i] == key;
    assert(sel[i].key == key);
    assert(sorted.contains(sel[i]));
    let j = choose|j: int| 0 <= j < sorted.len() && sorted[j] == sel[i];
    assert(snap.contains(sorted[j]));
    let m = choose|m: int| 0 <= m < snap.len() && snap[m] == sel[i];
    assert(snap[m] == cand_of(cv.entries[m], cv.files));
    assert(cv.entries[m].0 == key);
    assert(cv.entries[m].1.value is Some);
    lemma_index_is_find(cv.entries, m);
    assert(value_of(cv.entries, key) == cv.entries[m].1);
    assert forall|a: int, b2: int| 0 <= a < b2 < keys.len() implies keys[a] != keys[b2] by {
        assert(keys[a] == sel[a].key);
        assert(keys[b2] == sel[b2].key);
    }
    lemma_demotions_demoted_key(cv.entries, cv.files, keys, cv.cache_path, i);
    let res = apply_demotions(cv.entries, cv.files, keys, cv.cache_path);
    lemma_demotions_preserve(cv.entries, cv.files, keys, cv.cache_path);
    assert(value_of(res.0, key) == crate::memdb::demoted_item(
        value_of(cv.entries, key),
        crate::memdb::file_path_view(cv.cache_path, key),
    ));
}

/// Idempotent remove: removing a key that is not in the index changes
/// nothing — in particular `ram_used` stays as it was — and the operation
/// has no error to report.
pub proof fn lemma_idempotent_remove(cv: CacheView, key: Seq<char>)
    requires
        !contains_key(cv.entries, key),
    ensures
        spec_remove_item(cv, key) == cv,
        spec_remove_item(cv, key).ram_used == cv.ram_used,
{
}

/// Overwrite cleans the old tier: a `set` under a key that had been
/// demoted to disk deletes the old file while installing the new payload —
/// no file remains under the key, and the new entry is purely
/// memory-resident.
pub proof fn lemma_overwrite_cleans_old_tier(cv: CacheView, key: Seq<char>, b: Seq<u8>, t: u128)
    requires
        cache_wf(cv),
    ensures
        ({
            let cv2 = spec_insert_item(cv, key, b, t);
            &&& !contains_key(cv2.files, key)
            &&& contains_key(cv2.entries, key)
            &&& value_of(cv2.entries, key) == fresh_item(b, t)
        }),
{
    let cv1 = spec_remove_item(cv, key);
    lemma_remove_assoc(cv.entries, key);
    lemma_remove_assoc(cv.files, key);
    assert(!contains_key(cv1.files, key)) by {
        if !contains_key(cv.entries, key) {
            assert(!contains_key(cv.files, key));
        }
    }
    lemma_find_key_push(cv1.entries, (key, fresh_item(b, t)), key);
    assert(value_of(cv1.entries.push((key, fresh_item(b, t))), key) == fresh_item(b, t));
}

} // verus!
