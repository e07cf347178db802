//! The in-memory key-to-entry index and the eviction/demotion algorithm.
//!
//! [`DatabaseItem`] is one cached item: its payload (while memory-resident),
//! its access bookkeeping, and the location of its on-disk file (once
//! demoted). [`FastDB`] owns the association of keys to items; its order is
//! the insertion order, which makes the eviction snapshot deterministic.

use crate::assoc::{
    contains_key, find_key, keys_distinct, lemma_find_key, lemma_push_keeps_distinct,
    lemma_remove_assoc, lemma_remove_keeps_distinct, lemma_set_assoc, lemma_update_keeps_distinct,
    remove_key, set_assoc, value_of,
};
use crate::cache::CleanseStrategy;
use crate::disk::{disk_in_use, file_size, write_file, DiskStore};
use crate::assoc::lemma_index_is_find;
use crate::eviction::{
    cand_keys_distinct, cand_views, keys_of, lemma_sum_mem_snoc, selected_disk, selected_mem,
    sort_candidates, sort_cands, sum_mem, sum_mem_resident, CandView, Candidate,
};
use vstd::prelude::*;
use vstd::string::StringExecFns;

verus! {

/// Bytes accounted for the `Option<Vec<u8>>` payload slot of an entry.
pub const VALUE_SLOT_BYTES: u64 = 24;

/// Bytes accounted for the access counter of an entry.
pub const COUNTER_BYTES: u64 = 8;

/// Bytes accounted for the access timestamp of an entry.
pub const STAMP_BYTES: u64 = 16;

/// Bytes accounted for the optional file-path slot of an entry.
pub const PATH_SLOT_BYTES: u64 = 24;

/// Fixed per-entry bookkeeping overhead: the same constant is used when a
/// footprint is added to the running total and when it is subtracted, so the
/// accounting can never drift.
pub const ENTRY_OVERHEAD: u64 = VALUE_SLOT_BYTES + COUNTER_BYTES + STAMP_BYTES + PATH_SLOT_BYTES;

/// The mathematical value of one cached item.
pub struct ItemView {
    /// The payload bytes, present while the item is memory-resident.
    pub value: Option<Seq<u8>>,
    /// Nanosecond timestamp of the last write or successful read.
    pub last_access: u128,
    /// Number of successful reads since the item was written.
    pub access_counter: u64,
    /// Path of the item's on-disk file, present once the item was demoted.
    pub filepath: Option<Seq<char>>,
}

/// Length of the payload, or 0 when the item is not memory-resident.
pub open spec fn spec_value_len(iv: ItemView) -> int {
    match iv.value {
        Some(b) => b.len() as int,
        None => 0,
    }
}

/// What `get_value_mem_size` returns: payload length plus the payload slot.
pub open spec fn spec_value_mem_size(iv: ItemView) -> int {
    spec_value_len(iv) + VALUE_SLOT_BYTES
}

/// The memory footprint of an item: payload length plus the fixed per-entry
/// overhead.
pub open spec fn spec_mem_size(iv: ItemView) -> int {
    spec_value_len(iv) + ENTRY_OVERHEAD
}

/// The footprint can be computed in 64 bits.
pub open spec fn item_fits(iv: ItemView) -> bool {
    spec_mem_size(iv) <= u64::MAX
}

/// A well-formed item: it holds its payload or points at a file (one with
/// neither is logically deleted and must not sit in an index), and its
/// footprint is computable.
pub open spec fn item_wf(iv: ItemView) -> bool {
    &&& iv.value is Some || iv.filepath is Some
    &&& item_fits(iv)
}

/// Size of the item's on-disk file: the size of the file stored under `k` in
/// `files` if the item records a disk location, 0 otherwise.
pub open spec fn spec_disk_size(iv: ItemView, k: Seq<char>, files: Seq<(Seq<char>, Seq<u8>)>) -> int {
    if iv.filepath is Some {
        file_size(files, k)
    } else {
        0
    }
}

/// One cached item: payload, access bookkeeping, and disk location.
#[derive(Clone, Debug)]
pub struct DatabaseItem {
    /// The payload bytes, present while the item is memory-resident.
    pub value: Option<Vec<u8>>,
    /// Nanosecond timestamp of the last write or successful read.
    pub last_access: u128,
    /// Number of successful reads since the item was written.
    pub access_counter: u64,
    /// Path of the item's on-disk file, present once the item was demoted.
    pub filepath: Option<String>,
}

impl View for DatabaseItem {
    type V = ItemView;

    open spec fn view(&self) -> ItemView {
        ItemView {
            value: match self.value {
                Some(v) => Some(v@),
                None => None,
            },
            last_access: self.last_access,
            access_counter: self.access_counter,
            filepath: match self.filepath {
                Some(p) => Some(p@),
                None => None,
            },
        }
    }
}

/// Byte-for-byte copy of a byte vector.
pub fn clone_bytes(v: &Vec<u8>) -> (r: Vec<u8>)
    ensures
        r@ == v@,
{
    let mut r: Vec<u8> = Vec::new();
    let n = v.len();
    let mut i: usize = 0;
    while i < n
        invariant
            n == v@.len(),
            i <= n,
            r@ =~= v@.subrange(0, i as int),
        decreases n - i,
    {
        r.push(v[i]);
        i = i + 1;
    }
    proof {
        assert(r@ =~= v@);
    }
    r
}

impl DatabaseItem {
    /// Bytes this item's payload occupies in memory: the payload length plus
    /// the payload slot itself.
    pub fn get_value_mem_size(&self) -> (r: u64)
        requires
            item_fits(self@),
        ensures
            r == spec_value_mem_size(self@),
    {
        let val_len: u64 = match &self.value {
            Some(v) => v.len() as u64,
            None => 0,
        };
        val_len + VALUE_SLOT_BYTES
    }

    /// The item's full memory footprint: payload bytes plus the fixed
    /// per-entry overhead.
    pub fn get_mem_size(&self) -> (r: u64)
        requires
            item_fits(self@),
        ensures
            r == spec_mem_size(self@),
    {
        self.get_value_mem_size() + COUNTER_BYTES + STAMP_BYTES + PATH_SLOT_BYTES
    }

    /// Size of this item's on-disk file, 0 while nothing was demoted. The
    /// item is stored under `key`; `disk` is the disk tier that holds the
    /// file.
    pub fn get_disk_size(&self, key: &str, disk: &DiskStore) -> (r: u64)
        ensures
            r == spec_disk_size(self@, key@, disk@),
    {
        match &self.filepath {
            Some(_) => disk.size_for(key),
            None => 0,
        }
    }

    /// An exact copy of the item.
    pub(crate) fn duplicate(&self) -> (r: DatabaseItem)
        ensures
            r@ == self@,
    {
        DatabaseItem {
            value: match &self.value {
                Some(v) => Some(clone_bytes(v)),
                None => None,
            },
            last_access: self.last_access,
            access_counter: self.access_counter,
            filepath: match &self.filepath {
                Some(p) => Some(p.clone()),
                None => None,
            },
        }
    }
}

impl Default for DatabaseItem {
    /// A fresh, empty item stamped with the current time.
    fn default() -> (r: Self)
        ensures
            r@.value is None,
            r@.access_counter == 0,
            r@.filepath is None,
    {
        Self {
            value: None,
            last_access: crate::tools::get_nano_time(),
            access_counter: 0,
            filepath: None,
        }
    }
}

/// A sequence of index entries is well-formed when its keys are pairwise
/// distinct and every item is well-formed.
pub open spec fn store_wf(s: Seq<(Seq<char>, ItemView)>) -> bool {
    &&& keys_distinct(s)
    &&& forall|i: int| 0 <= i < s.len() ==> item_wf(#[trigger] s[i].1)
}

/// `s` with `iv` stored under `k`: the item under `k` is replaced in place if
/// the key is present, appended otherwise.
pub open spec fn spec_set(s: Seq<(Seq<char>, ItemView)>, k: Seq<char>, iv: ItemView) -> Seq<
    (Seq<char>, ItemView),
> {
    set_assoc(s, k, iv)
}

/// What an item adds to the memory-in-use total: its full footprint while it
/// is memory-resident, nothing once demoted.
pub open spec fn mem_contrib(iv: ItemView) -> int {
    if iv.value is Some {
        spec_mem_size(iv)
    } else {
        0
    }
}

/// Total memory in use by the entries of `s`: the sum of the footprints of
/// the memory-resident ones.
pub open spec fn mem_in_use(s: Seq<(Seq<char>, ItemView)>) -> int
    decreases s.len(),
{
    if s.len() == 0 {
        0
    } else {
        mem_contrib(s[0].1) + mem_in_use(s.drop_first())
    }
}

/// The memory-in-use total never goes below zero.
pub proof fn lemma_mem_in_use_nonneg(s: Seq<(Seq<char>, ItemView)>)
    ensures
        mem_in_use(s) >= 0,
    decreases s.len(),
{
    if s.len() > 0 {
        lemma_mem_in_use_nonneg(s.drop_first());
    }
}

/// Removing the entry at an index lowers the total by that entry's
/// contribution.
pub proof fn lemma_mem_in_use_remove(s: Seq<(Seq<char>, ItemView)>, i: int)
    requires
        0 <= i < s.len(),
    ensures
        mem_in_use(s.remove(i)) == mem_in_use(s) - mem_contrib(s[i].1),
    decreases s.len(),
{
    if i == 0 {
        assert(s.remove(0) =~= s.drop_first());
    } else {
        lemma_mem_in_use_remove(s.drop_first(), i - 1);
        assert(s.remove(i).drop_first() =~= s.drop_first().remove(i - 1));
        assert(s.remove(i)[0] == s[0]);
    }
}

/// Replacing the entry at an index changes the total by the difference of
/// the contributions.
pub proof fn lemma_mem_in_use_update(s: Seq<(Seq<char>, ItemView)>, i: int, v: (Seq<char>, ItemView))
    requires
        0 <= i < s.len(),
    ensures
        mem_in_use(s.update(i, v)) == mem_in_use(s) - mem_contrib(s[i].1) + mem_contrib(v.1),
    decreases s.len(),
{
    if i == 0 {
        assert(s.update(0, v).drop_first() =~= s.drop_first());
        assert(s.update(0, v)[0] == v);
    } else {
        lemma_mem_in_use_update(s.drop_first(), i - 1, v);
        assert(s.update(i, v).drop_first() =~= s.drop_first().update(i - 1, v));
        assert(s.update(i, v)[0] == s[0]);
    }
}

/// Appending an entry raises the total by that entry's contribution.
pub proof fn lemma_mem_in_use_push(s: Seq<(Seq<char>, ItemView)>, v: (Seq<char>, ItemView))
    ensures
        mem_in_use(s.push(v)) == mem_in_use(s) + mem_contrib(v.1),
    decreases s.len(),
{
    if s.len() == 0 {
        assert(s.push(v).drop_first() =~= Seq::<(Seq<char>, ItemView)>::empty());
        assert(s.push(v)[0] == v);
        assert(mem_in_use(s.push(v)) == mem_contrib(v.1) + mem_in_use(s.push(v).drop_first()));
        assert(mem_in_use(Seq::<(Seq<char>, ItemView)>::empty()) == 0);
    } else {
        lemma_mem_in_use_push(s.drop_first(), v);
        assert(s.push(v).drop_first() =~= s.drop_first().push(v));
        assert(s.push(v)[0] == s[0]);
        assert(mem_in_use(s.push(v)) == mem_contrib(s[0].1) + mem_in_use(s.push(v).drop_first()));
    }
}

/// Any single entry's contribution is at most the total.
pub proof fn lemma_mem_contrib_le(s: Seq<(Seq<char>, ItemView)>, i: int)
    requires
        0 <= i < s.len(),
    ensures
        mem_contrib(s[i].1) <= mem_in_use(s),
    decreases s.len(),
{
    if i == 0 {
        lemma_mem_in_use_nonneg(s.drop_first());
        assert(mem_contrib(s[0].1) >= 0);
    } else {
        lemma_mem_contrib_le(s.drop_first(), i - 1);
        assert(s.drop_first()[i - 1] == s[i]);
        assert(mem_contrib(s[0].1) >= 0);
    }
}

/// The snapshot record a cleanup pass takes of the entry `e`: its key, its
/// bookkeeping, its memory footprint, and the size of its on-disk file in
/// `files`.
pub open spec fn cand_of(e: (Seq<char>, ItemView), files: Seq<(Seq<char>, Seq<u8>)>) -> CandView {
    CandView {
        key: e.0,
        access_counter: e.1.access_counter,
        last_access: e.1.last_access,
        mem_size: spec_mem_size(e.1) as u64,
        disk_size: spec_disk_size(e.1, e.0, files) as u64,
        resident: e.1.value is Some,
    }
}

/// The snapshot of every entry, in index order.
pub open spec fn snapshot_of(
    entries: Seq<(Seq<char>, ItemView)>,
    files: Seq<(Seq<char>, Seq<u8>)>,
) -> Seq<CandView> {
    Seq::new(entries.len(), |i: int| cand_of(entries[i], files))
}

/// The path of the file a demotion writes for `key`:
/// `<dir>/<key>/cachefile`.
pub open spec fn file_path_view(dir: Seq<char>, key: Seq<char>) -> Seq<char> {
    dir + "/"@ + key + "/cachefile"@
}

/// The item `iv` after demotion: payload cleared, disk location recorded,
/// bookkeeping kept.
pub open spec fn demoted_item(iv: ItemView, path: Seq<char>) -> ItemView {
    ItemView {
        value: None,
        last_access: iv.last_access,
        access_counter: iv.access_counter,
        filepath: Some(path),
    }
}

/// One demotion step on the pair of index and disk tier: if `k` is present
/// and memory-resident, its payload becomes the file under `k` and the entry
/// records the file's path; otherwise nothing changes.
pub open spec fn apply_demote_one(
    entries: Seq<(Seq<char>, ItemView)>,
    files: Seq<(Seq<char>, Seq<u8>)>,
    k: Seq<char>,
    dir: Seq<char>,
) -> (Seq<(Seq<char>, ItemView)>, Seq<(Seq<char>, Seq<u8>)>) {
    if contains_key(entries, k) && value_of(entries, k).value is Some {
        let i = find_key(entries, k);
        let iv = entries[i].1;
        (
            entries.update(i, (k, demoted_item(iv, file_path_view(dir, k)))),
            write_file(files, k, iv.value->Some_0),
        )
    } else {
        (entries, files)
    }
}

/// The demotion steps for `keys`, applied left to right.
pub open spec fn apply_demotions(
    entries: Seq<(Seq<char>, ItemView)>,
    files: Seq<(Seq<char>, Seq<u8>)>,
    keys: Seq<Seq<char>>,
    dir: Seq<char>,
) -> (Seq<(Seq<char>, ItemView)>, Seq<(Seq<char>, Seq<u8>)>)
    decreases keys.len(),
{
    if keys.len() == 0 {
        (entries, files)
    } else {
        let prev = apply_demotions(entries, files, keys.drop_last(), dir);
        apply_demote_one(prev.0, prev.1, keys.last(), dir)
    }
}

/// One eviction step on the pair of index and disk tier: if `k` is present,
/// its entry and its file (if any) are removed entirely; otherwise nothing
/// changes.
pub open spec fn apply_evict_one(
    entries: Seq<(Seq<char>, ItemView)>,
    files: Seq<(Seq<char>, Seq<u8>)>,
    k: Seq<char>,
) -> (Seq<(Seq<char>, ItemView)>, Seq<(Seq<char>, Seq<u8>)>) {
    if contains_key(entries, k) {
        (entries.remove(find_key(entries, k)), remove_key(files, k))
    } else {
        (entries, files)
    }
}

/// The eviction steps for `keys`, applied left to right.
pub open spec fn apply_evictions(
    entries: Seq<(Seq<char>, ItemView)>,
    files: Seq<(Seq<char>, Seq<u8>)>,
    keys: Seq<Seq<char>>,
) -> (Seq<(Seq<char>, ItemView)>, Seq<(Seq<char>, Seq<u8>)>)
    decreases keys.len(),
{
    if keys.len() == 0 {
        (entries, files)
    } else {
        let prev = apply_evictions(entries, files, keys.drop_last());
        apply_evict_one(prev.0, prev.1, keys.last())
    }
}

/// The two tiers agree: a key has a file exactly when it has an entry that
/// records a disk location.
pub open spec fn tiers_linked(
    entries: Seq<(Seq<char>, ItemView)>,
    files: Seq<(Seq<char>, Seq<u8>)>,
) -> bool {
    forall|k: Seq<char>|
        #[trigger] contains_key(files, k) <==> contains_key(entries, k) && value_of(
            entries,
            k,
        ).filepath is Some
}

/// One demotion step keeps both tiers well-formed and linked.
pub proof fn lemma_demote_one_preserves(
    e: Seq<(Seq<char>, ItemView)>,
    f: Seq<(Seq<char>, Seq<u8>)>,
    k: Seq<char>,
    dir: Seq<char>,
)
    requires
        store_wf(e),
        keys_distinct(f),
        tiers_linked(e, f),
    ensures
        store_wf(apply_demote_one(e, f, k, dir).0),
        keys_distinct(apply_demote_one(e, f, k, dir).1),
        tiers_linked(apply_demote_one(e, f, k, dir).0, apply_demote_one(e, f, k, dir).1),
{
    if contains_key(e, k) && value_of(e, k).value is Some {
        lemma_find_key(e, k);
        let i = find_key(e, k);
        let demoted = demoted_item(e[i].1, file_path_view(dir, k));
        let e2 = apply_demote_one(e, f, k, dir).0;
        let f2 = apply_demote_one(e, f, k, dir).1;
        assert(e2 == set_assoc(e, k, demoted));
        assert(f2 == set_assoc(f, k, e[i].1.value->Some_0));
        lemma_set_assoc(e, k, demoted);
        lemma_set_assoc(f, k, e[i].1.value->Some_0);
        assert forall|j: int| 0 <= j < e2.len() implies item_wf(#[trigger] e2[j].1) by {
            if j != i {
                assert(e2[j] == e[j]);
                assert(item_wf(e[j].1));
            } else {
                assert(e2[j].1 == demoted);
            }
        }
        assert forall|k2: Seq<char>| #[trigger] contains_key(f2, k2) <==> contains_key(e2, k2)
            && value_of(e2, k2).filepath is Some by {
            if k2 == k {
                assert(contains_key(f2, k));
                assert(contains_key(e2, k));
                assert(value_of(e2, k) == demoted);
            } else {
                assert(contains_key(f2, k2) == contains_key(f, k2));
                assert(contains_key(e2, k2) == contains_key(e, k2));
                if contains_key(e, k2) {
                    assert(value_of(e2, k2) == value_of(e, k2));
                }
            }
        }
    }
}

/// A sequence of demotion steps keeps both tiers well-formed and linked.
pub proof fn lemma_demotions_preserve(
    e: Seq<(Seq<char>, ItemView)>,
    f: Seq<(Seq<char>, Seq<u8>)>,
    keys: Seq<Seq<char>>,
    dir: Seq<char>,
)
    requires
        store_wf(e),
        keys_distinct(f),
        tiers_linked(e, f),
    ensures
        store_wf(apply_demotions(e, f, keys, dir).0),
        keys_distinct(apply_demotions(e, f, keys, dir).1),
        tiers_linked(apply_demotions(e, f, keys, dir).0, apply_demotions(e, f, keys, dir).1),
    decreases keys.len(),
{
    if keys.len() > 0 {
        lemma_demotions_preserve(e, f, keys.drop_last(), dir);
        let prev = apply_demotions(e, f, keys.drop_last(), dir);
        lemma_demote_one_preserves(prev.0, prev.1, keys.last(), dir);
    }
}

/// One eviction step keeps both tiers well-formed and linked.
pub proof fn lemma_evict_one_preserves(
    e: Seq<(Seq<char>, ItemView)>,
    f: Seq<(Seq<char>, Seq<u8>)>,
    k: Seq<char>,
)
    requires
        store_wf(e),
        keys_distinct(f),
        tiers_linked(e, f),
    ensures
        store_wf(apply_evict_one(e, f, k).0),
        keys_distinct(apply_evict_one(e, f, k).1),
        tiers_linked(apply_evict_one(e, f, k).0, apply_evict_one(e, f, k).1),
{
    if contains_key(e, k) {
        lemma_find_key(e, k);
        let i = find_key(e, k);
        let e2 = apply_evict_one(e, f, k).0;
        let f2 = apply_evict_one(e, f, k).1;
        assert(e2 == remove_key(e, k));
        lemma_remove_assoc(e, k);
        lemma_remove_assoc(f, k);
        assert forall|j: int| 0 <= j < e2.len() implies item_wf(#[trigger] e2[j].1) by {
            if j < i {
                assert(e2[j] == e[j]);
            } else {
                assert(e2[j] == e[j + 1]);
            }
            assert(item_wf(e2[j].1));
        }
        assert forall|k2: Seq<char>| #[trigger] contains_key(f2, k2) <==> contains_key(e2, k2)
            && value_of(e2, k2).filepath is Some by {
            if k2 == k {
                assert(!contains_key(f2, k));
                assert(!contains_key(e2, k));
            } else {
                assert(contains_key(f2, k2) == contains_key(f, k2));
                assert(contains_key(e2, k2) == contains_key(e, k2));
                if contains_key(e, k2) {
                    assert(value_of(e2, k2) == value_of(e, k2));
                }
            }
        }
    }
}

/// A sequence of eviction steps keeps both tiers well-formed and linked.
pub proof fn lemma_evictions_preserve(
    e: Seq<(Seq<char>, ItemView)>,
    f: Seq<(Seq<char>, Seq<u8>)>,
    keys: Seq<Seq<char>>,
)
    requires
        store_wf(e),
        keys_distinct(f),
        tiers_linked(e, f),
    ensures
        store_wf(apply_evictions(e, f, keys).0),
        keys_distinct(apply_evictions(e, f, keys).1),
        tiers_linked(apply_evictions(e, f, keys).0, apply_evictions(e, f, keys).1),
    decreases keys.len(),
{
    if keys.len() > 0 {
        lemma_evictions_preserve(e, f, keys.drop_last());
        let prev = apply_evictions(e, f, keys.drop_last());
        lemma_evict_one_preserves(prev.0, prev.1, keys.last());
    }
}

/// Pairwise distinct keys in a plain key sequence.
pub open spec fn seq_keys_distinct(keys: Seq<Seq<char>>) -> bool {
    forall|i: int, j: int| 0 <= i < j < keys.len() ==> keys[i] != keys[j]
}

/// Demotions never add or remove entries, and they leave every key they do
/// not demote — entry and file alike — exactly as it was.
pub proof fn lemma_demotions_other_keys(
    e: Seq<(Seq<char>, ItemView)>,
    f: Seq<(Seq<char>, Seq<u8>)>,
    keys: Seq<Seq<char>>,
    dir: Seq<char>,
    k: Seq<char>,
)
    requires
        store_wf(e),
        keys_distinct(f),
        tiers_linked(e, f),
    ensures
        contains_key(apply_demotions(e, f, keys, dir).0, k) == contains_key(e, k),
        contains_key(e, k) && !keys.contains(k) ==> value_of(apply_demotions(e, f, keys, dir).0, k)
            == value_of(e, k),
        !keys.contains(k) ==> contains_key(apply_demotions(e, f, keys, dir).1, k) == contains_key(
            f,
            k,
        ),
        !keys.contains(k) && contains_key(f, k) ==> value_of(apply_demotions(e, f, keys, dir).1, k)
            == value_of(f, k),
    decreases keys.len(),
{
    if keys.len() > 0 {
        let p = keys.drop_last();
        lemma_demotions_preserve(e, f, p, dir);
        lemma_demotions_other_keys(e, f, p, dir, k);
        assert(keys[keys.len() - 1] == keys.last());
        assert(keys.contains(keys.last()));
        if !keys.contains(k) {
            assert forall|i: int| 0 <= i < p.len() implies p[i] != k by {
                assert(p[i] == keys[i]);
            }
            if p.contains(k) {
                let i = choose|i: int| 0 <= i < p.len() && p[i] == k;
                assert(false);
            }
        }
        let prev = apply_demotions(e, f, p, dir);
        let kl = keys.last();
        if contains_key(prev.0, kl) && value_of(prev.0, kl).value is Some {
            lemma_find_key(prev.0, kl);
            let i = find_key(prev.0, kl);
            assert(value_of(prev.0, kl) == prev.0[i].1);
            lemma_set_assoc(prev.0, kl, demoted_item(prev.0[i].1, file_path_view(dir, kl)));
            lemma_set_assoc(prev.1, kl, prev.0[i].1.value->Some_0);
        }
    }
}

/// What a demotion pass does to each key it demotes, provided the demoted
/// keys are pairwise distinct and the key names a memory-resident entry:
/// the entry keeps its bookkeeping, drops its payload, and records the path
/// of its file, and the file holds exactly the payload.
pub proof fn lemma_demotions_demoted_key(
    e: Seq<(Seq<char>, ItemView)>,
    f: Seq<(Seq<char>, Seq<u8>)>,
    keys: Seq<Seq<char>>,
    dir: Seq<char>,
    j: int,
)
    requires
        store_wf(e),
        keys_distinct(f),
        tiers_linked(e, f),
        seq_keys_distinct(keys),
        0 <= j < keys.len(),
        contains_key(e, keys[j]),
        value_of(e, keys[j]).value is Some,
    ensures
        ({
            let res = apply_demotions(e, f, keys, dir);
            &&& contains_key(res.0, keys[j])
            &&& value_of(res.0, keys[j]) == demoted_item(
                value_of(e, keys[j]),
                file_path_view(dir, keys[j]),
            )
            &&& contains_key(res.1, keys[j])
            &&& value_of(res.1, keys[j]) == value_of(e, keys[j]).value->Some_0
        }),
    decreases keys.len(),
{
    let p = keys.drop_last();
    let kl = keys.last();
    lemma_demotions_preserve(e, f, p, dir);
    let prev = apply_demotions(e, f, p, dir);
    assert(forall|i: int| 0 <= i < p.len() ==> p[i] == keys[i]);
    if j == keys.len() - 1 {
        if p.contains(kl) {
            let i = choose|i: int| 0 <= i < p.len() && p[i] == kl;
            assert(keys[i] == keys[keys.len() - 1]);
            assert(false);
        }
        lemma_demotions_other_keys(e, f, p, dir, kl);
        assert(contains_key(prev.0, kl));
        assert(value_of(prev.0, kl) == value_of(e, kl));
        lemma_find_key(prev.0, kl);
        let i = find_key(prev.0, kl);
        assert(value_of(prev.0, kl) == prev.0[i].1);
        lemma_set_assoc(prev.0, kl, demoted_item(prev.0[i].1, file_path_view(dir, kl)));
        lemma_set_assoc(prev.1, kl, prev.0[i].1.value->Some_0);
    } else {
        assert forall|a: int, b: int| 0 <= a < b < p.len() implies p[a] != p[b] by {
            assert(p[a] == keys[a]);
            assert(p[b] == keys[b]);
        }
        lemma_demotions_demoted_key(e, f, p, dir, j);
        assert(keys[j] != kl);
        if contains_key(prev.0, kl) && value_of(prev.0, kl).value is Some {
            lemma_find_key(prev.0, kl);
            let i = find_key(prev.0, kl);
            assert(value_of(prev.0, kl) == prev.0[i].1);
            lemma_set_assoc(prev.0, kl, demoted_item(prev.0[i].1, file_path_view(dir, kl)));
            lemma_set_assoc(prev.1, kl, prev.0[i].1.value->Some_0);
        }
    }
}

/// Demoting a sequence of pairwise distinct, memory-resident snapshot
/// records frees exactly the sum of their footprints.
pub proof fn lemma_demotions_remove_exactly(
    e: Seq<(Seq<char>, ItemView)>,
    f: Seq<(Seq<char>, Seq<u8>)>,
    sel: Seq<CandView>,
    dir: Seq<char>,
)
    requires
        store_wf(e),
        keys_distinct(f),
        tiers_linked(e, f),
        cand_keys_distinct(sel),
        forall|i: int| 0 <= i < sel.len() ==> snapshot_of(e, f).contains(#[trigger] sel[i]),
        forall|i: int| 0 <= i < sel.len() ==> (#[trigger] sel[i]).resident,
    ensures
        mem_in_use(apply_demotions(e, f, keys_of(sel), dir).0) == mem_in_use(e) - sum_mem(sel),
    decreases sel.len(),
{
    if sel.len() == 0 {
        assert(keys_of(sel).len() == 0);
    } else {
        let p = sel.drop_last();
        assert(forall|i: int| 0 <= i < p.len() ==> p[i] == sel[i]);
        lemma_demotions_remove_exactly(e, f, p, dir);
        lemma_demotions_preserve(e, f, keys_of(p), dir);
        let prev = apply_demotions(e, f, keys_of(p), dir);
        let c = sel.last();
        let k = c.key;
        let snap = snapshot_of(e, f);
        assert(snap.contains(c));
        let m = choose|m: int| 0 <= m < snap.len() && snap[m] == c;
        assert(snap[m] == cand_of(e[m], f));
        assert(e[m].0 == k);
        assert(item_wf(e[m].1));
        assert(e[m].1.value is Some);
        assert(c.mem_size == spec_mem_size(e[m].1));
        lemma_index_is_find(e, m);
        assert(value_of(e, k) == e[m].1);
        if keys_of(p).contains(k) {
            let i = choose|i: int| 0 <= i < keys_of(p).len() && keys_of(p)[i] == k;
            assert(keys_of(p)[i] == p[i].key);
            assert(sel[i].key == sel[sel.len() - 1].key);
            assert(false);
        }
        lemma_demotions_other_keys(e, f, keys_of(p), dir, k);
        assert(contains_key(prev.0, k));
        assert(value_of(prev.0, k) == e[m].1);
        lemma_find_key(prev.0, k);
        let i1 = find_key(prev.0, k);
        assert(value_of(prev.0, k) == prev.0[i1].1);
        lemma_mem_in_use_update(
            prev.0,
            i1,
            (k, demoted_item(prev.0[i1].1, file_path_view(dir, k))),
        );
        assert(mem_contrib(prev.0[i1].1) == spec_mem_size(e[m].1));
        assert(mem_contrib(demoted_item(prev.0[i1].1, file_path_view(dir, k))) == 0);
        lemma_sum_mem_snoc(p, c);
        assert(p.push(c) =~= sel);
        assert(keys_of(sel).last() == k);
        assert(keys_of(sel).drop_last() =~= keys_of(p));
    }
}

/// The resident footprints of the snapshot sum to the memory in use.
pub proof fn lemma_snapshot_resident_sum(
    e: Seq<(Seq<char>, ItemView)>,
    f: Seq<(Seq<char>, Seq<u8>)>,
)
    requires
        store_wf(e),
    ensures
        sum_mem_resident(snapshot_of(e, f)) == mem_in_use(e),
    decreases e.len(),
{
    if e.len() > 0 {
        assert forall|a: int, b: int| 0 <= a < b < e.drop_first().len() implies e.drop_first()[a].0
            != e.drop_first()[b].0 by {
            assert(e.drop_first()[a] == e[a + 1]);
            assert(e.drop_first()[b] == e[b + 1]);
        }
        assert forall|i: int| 0 <= i < e.drop_first().len() implies item_wf(
            #[trigger] e.drop_first()[i].1,
        ) by {
            assert(e.drop_first()[i] == e[i + 1]);
        }
        lemma_snapshot_resident_sum(e.drop_first(), f);
        assert(snapshot_of(e.drop_first(), f) =~= snapshot_of(e, f).drop_first());
        assert(item_wf(e[0].1));
        assert(snapshot_of(e, f)[0] == cand_of(e[0], f));
    }
}

/// The keys of a sequence of owned strings, in order.
pub open spec fn str_keys_of(s: Seq<String>) -> Seq<Seq<char>> {
    Seq::new(s.len(), |i: int| s[i]@)
}

/// Builds the path `<dir>/<key>/cachefile` of the file a demotion writes.
fn build_file_path(dir: &str, key: &str) -> (r: String)
    ensures
        r@ == file_path_view(dir@, key@),
{
    let mut s = dir.to_owned();
    s.append("/");
    s.append(key);
    s.append("/cachefile");
    proof {
        assert(s@ =~= file_path_view(dir@, key@));
    }
    s
}

/// The key-to-entry index. Entries keep their insertion order; a `set` of an
/// existing key replaces the entry in place.
#[derive(Debug)]
pub struct FastDB {
    entries: Vec<(String, DatabaseItem)>,
}

impl View for FastDB {
    type V = Seq<(Seq<char>, ItemView)>;

    closed spec fn view(&self) -> Seq<(Seq<char>, ItemView)> {
        Seq::new(self.entries@.len(), |i: int| (self.entries@[i].0@, self.entries@[i].1@))
    }
}

impl Default for FastDB {
    /// An empty index.
    fn default() -> (r: Self)
        ensures
            r@ == Seq::<(Seq<char>, ItemView)>::empty(),
            r.wf(),
    {
        let r = Self { entries: Vec::new() };
        proof {
            assert(r@ =~= Seq::<(Seq<char>, ItemView)>::empty());
        }
        r
    }
}

impl FastDB {
    /// Keys pairwise distinct, every item well-formed.
    pub open spec fn wf(&self) -> bool {
        store_wf(self@)
    }

    /// Index of the entry stored under `key`, if any.
    fn position_of(&self, key: &str) -> (r: Option<usize>)
        ensures
            match r {
                Some(i) => i == find_key(self@, key@),
                None => !contains_key(self@, key@),
            },
    {
        let k = key.to_owned();
        let n = self.entries.len();
        let mut i: usize = 0;
        while i < n
            invariant
                n == self.entries@.len(),
                i <= n,
                k@ == key@,
                forall|j: int| 0 <= j < i ==> self@[j].0 != key@,
            decreases n - i,
        {
            if self.entries[i].0 == k {
                proof {
                    assert(self@[i as int].0 == key@);
                    lemma_find_key(self@, key@);
                }
                return Some(i);
            }
            proof {
                assert(self@[i as int].0 == self.entries@[i as int].0@);
            }
            i = i + 1;
        }
        proof {
            lemma_find_key(self@, key@);
        }
        None
    }

    /// Stores `value` under `key`; returns the item previously stored there,
    /// if any.
    pub fn set(&mut self, key: String, value: DatabaseItem) -> (r: Option<DatabaseItem>)
        requires
            old(self).wf(),
            item_wf(value@),
        ensures
            final(self).wf(),
            final(self)@ == spec_set(old(self)@, key@, value@),
            match r {
                Some(p) => contains_key(old(self)@, key@) && p@ == value_of(old(self)@, key@),
                None => !contains_key(old(self)@, key@),
            },
    {
        let ghost prev = self@;
        match self.position_of(key.as_str()) {
            Some(i) => {
                proof {
                    lemma_find_key(prev, key@);
                }
                let old_pair = self.entries.remove(i);
                self.entries.insert(i, (key, value));
                proof {
                    assert(self@ =~= prev.update(i as int, (key@, value@)));
                    lemma_update_keeps_distinct(prev, i as int, (key@, value@));
                }
                Some(old_pair.1)
            },
            None => {
                proof {
                    lemma_find_key(prev, key@);
                }
                self.entries.push((key, value));
                proof {
                    assert(self@ =~= prev.push((key@, value@)));
                    lemma_push_keeps_distinct(prev, (key@, value@));
                }
                None
            },
        }
    }

    /// A copy of the item stored under `key`, if any.
    pub fn get(&self, key: &str) -> (r: Option<DatabaseItem>)
        ensures
            match r {
                Some(item) => contains_key(self@, key@) && item@ == value_of(self@, key@),
                None => !contains_key(self@, key@),
            },
    {
        match self.position_of(key) {
            Some(i) => {
                proof {
                    lemma_find_key(self@, key@);
                }
                Some(self.entries[i].1.duplicate())
            },
            None => None,
        }
    }

    /// Snapshots every entry and sorts the snapshot ascending by `strategy`.
    fn get_keys(&self, disk: &DiskStore, strategy: &CleanseStrategy) -> (r: Vec<Candidate>)
        requires
            self.wf(),
        ensures
            cand_views(r@) == sort_cands(*strategy, snapshot_of(self@, disk@)),
    {
        let mut snap: Vec<Candidate> = Vec::new();
        let n = self.entries.len();
        let mut i: usize = 0;
        while i < n
            invariant
                self.wf(),
                n == self.entries@.len(),
                i <= n,
                cand_views(snap@) =~= snapshot_of(self@, disk@).subrange(0, i as int),
            decreases n - i,
        {
            proof {
                assert(self@[i as int] == (self.entries@[i as int].0@, self.entries@[i as int].1@));
                assert(item_wf(self@[i as int].1));
            }
            let key_clone = self.entries[i].0.clone();
            let mem = self.entries[i].1.get_mem_size();
            let dsz = self.entries[i].1.get_disk_size(self.entries[i].0.as_str(), disk);
            let res = self.entries[i].1.value.is_some();
            let c = Candidate {
                key: key_clone,
                access_counter: self.entries[i].1.access_counter,
                last_access: self.entries[i].1.last_access,
                mem_size: mem,
                disk_size: dsz,
                resident: res,
            };
            proof {
                assert(c@ == cand_of(self@[i as int], disk@));
            }
            let ghost prev_snap = snap@;
            snap.push(c);
            proof {
                assert(self@.len() == n as int);
                assert(snapshot_of(self@, disk@).len() == n as int);
                assert(cand_views(prev_snap).len() == prev_snap.len());
                assert(snapshot_of(self@, disk@).subrange(0, i as int).len() == i as int);
                assert(prev_snap.len() == i as int);
                assert forall|j: int| 0 <= j < snap@.len() implies cand_views(snap@)[j]
                    == snapshot_of(self@, disk@).subrange(0, i as int + 1)[j] by {
                    assert(snapshot_of(self@, disk@)[j] == cand_of(self@[j], disk@));
                    if j < i {
                        assert(snap@[j] == prev_snap[j]);
                        assert(cand_views(prev_snap)[j] == prev_snap[j]@);
                        assert(snapshot_of(self@, disk@).subrange(0, i as int)[j] == snapshot_of(
                            self@,
                            disk@,
                        )[j]);
                    } else {
                        assert(snap@[j] == c);
                    }
                }
                assert(cand_views(snap@) =~= snapshot_of(self@, disk@).subrange(0, i as int + 1));
            }
            i = i + 1;
        }
        proof {
            assert(snapshot_of(self@, disk@).subrange(0, n as int) =~= snapshot_of(self@, disk@));
        }
        sort_candidates(strategy, snap)
    }

    /// Demotes the entry stored under `key`, if it is present and
    /// memory-resident: its payload becomes the file under `key` in `disk`,
    /// and the entry records the file's path under `cache_path`. Returns the
    /// entry's freed memory footprint, the bytes written, and the size of
    /// any file the write replaced (each 0 if nothing was demoted).
    fn demote_one(&mut self, disk: &mut DiskStore, key: &str, cache_path: &str) -> (r: (
        u64,
        u64,
        u64,
    ))
        requires
            old(self).wf(),
            old(disk).wf(),
            mem_in_use(old(self)@) <= u64::MAX,
        ensures
            final(self).wf(),
            final(disk).wf(),
            final(self)@ == apply_demote_one(old(self)@, old(disk)@, key@, cache_path@).0,
            final(disk)@ == apply_demote_one(old(self)@, old(disk)@, key@, cache_path@).1,
            r.0 == mem_in_use(old(self)@) - mem_in_use(final(self)@),
            disk_in_use(final(disk)@) == disk_in_use(old(disk)@) + r.1 - r.2,
            r.1 <= r.0,
            r.2 <= disk_in_use(old(disk)@),
    {
        let ghost prev_e = self@;
        let ghost prev_f = disk@;
        match self.position_of(key) {
            None => {
                proof {
                    crate::disk::lemma_disk_in_use_nonneg(prev_f);
                }
                (0, 0, 0)
            },
            Some(i) => {
                proof {
                    lemma_find_key(prev_e, key@);
                    assert(value_of(prev_e, key@) == prev_e[i as int].1);
                    assert(prev_e[i as int].1 == self.entries@[i as int].1@);
                }
                if self.entries[i].1.value.is_none() {
                    proof {
                        crate::disk::lemma_disk_in_use_nonneg(prev_f);
                    }
                    return (0, 0, 0);
                }
                proof {
                    assert(item_wf(prev_e[i as int].1));
                }
                let mem = self.entries[i].1.get_mem_size();
                let (k_old, item_old) = self.entries.remove(i);
                let DatabaseItem { value, last_access, access_counter, filepath: _ } = item_old;
                let payload = match value {
                    Some(v) => v,
                    None => {
                        proof {
                            assert(false);
                        }
                        Vec::new()
                    },
                };
                let written = payload.len() as u64;
                let path_s = build_file_path(cache_path, key);
                let new_item = DatabaseItem {
                    value: None,
                    last_access,
                    access_counter,
                    filepath: Some(path_s),
                };
                let ghost demoted = demoted_item(prev_e[i as int].1, file_path_view(cache_path@, key@));
                proof {
                    assert(new_item@ == demoted);
                }
                self.entries.insert(i, (k_old, new_item));
                proof {
                    assert(k_old@ == key@);
                    assert(self@ =~= prev_e.update(i as int, (key@, demoted)));
                    lemma_update_keeps_distinct(prev_e, i as int, (key@, demoted));
                    lemma_mem_in_use_update(prev_e, i as int, (key@, demoted));
                    assert(mem_contrib(demoted) == 0);
                    assert(mem_contrib(prev_e[i as int].1) == spec_mem_size(prev_e[i as int].1));
                    assert(payload@ == prev_e[i as int].1.value->Some_0);
                }
                let replaced = disk.write(key.to_owned(), payload);
                proof {
                    lemma_find_key(prev_f, key@);
                    if contains_key(prev_f, key@) {
                        let fidx = find_key(prev_f, key@);
                        crate::disk::lemma_disk_in_use_update(
                            prev_f,
                            fidx,
                            (key@, prev_e[i as int].1.value->Some_0),
                        );
                        crate::disk::lemma_file_le_disk_in_use(prev_f, fidx);
                    } else {
                        let pushed = prev_f.push((key@, prev_e[i as int].1.value->Some_0));
                        assert(pushed.drop_last() =~= prev_f);
                        assert(pushed.last() == (key@, prev_e[i as int].1.value->Some_0));
                        assert(disk_in_use(pushed) == disk_in_use(prev_f) + pushed.last().1.len());
                        crate::disk::lemma_disk_in_use_nonneg(prev_f);
                    }
                }
                (mem, written, replaced)
            },
        }
    }

    /// The memory-cleanup pass: snapshots and sorts the entries by
    /// `strategy`, then walks the sorted snapshot and demotes every entry
    /// that is memory-resident and not yet on disk, until `to_clean` bytes
    /// of memory footprint are freed or the candidates are exhausted.
    /// Entries whose payload is already on disk are never selected, even
    /// when their file is empty. Returns the freed memory footprint, the
    /// bytes written to disk, and the bytes of replaced files (for the
    /// caller to update its accounting).
    pub fn cleanup_mem(
        &mut self,
        strategy: &CleanseStrategy,
        to_clean: u64,
        cache_path: &str,
        disk: &mut DiskStore,
    ) -> (r: (u64, u64, u64))
        requires
            old(self).wf(),
            old(disk).wf(),
            mem_in_use(old(self)@) <= u64::MAX,
            disk_in_use(old(disk)@) + mem_in_use(old(self)@) <= u64::MAX,
        ensures
            final(self).wf(),
            final(disk).wf(),
            ({
                let sel = selected_mem(
                    sort_cands(*strategy, snapshot_of(old(self)@, old(disk)@)),
                    to_clean as int,
                );
                &&& final(self)@ == apply_demotions(
                    old(self)@,
                    old(disk)@,
                    keys_of(sel),
                    cache_path@,
                ).0
                &&& final(disk)@ == apply_demotions(
                    old(self)@,
                    old(disk)@,
                    keys_of(sel),
                    cache_path@,
                ).1
            }),
            r.0 == mem_in_use(old(self)@) - mem_in_use(final(self)@),
            mem_in_use(final(self)@) >= 0,
            disk_in_use(final(disk)@) == disk_in_use(old(disk)@) + r.1 - r.2,
            r.1 <= r.0,
    {
        let ghost e0 = self@;
        let ghost f0 = disk@;
        crate::tools::log("cleaning the memory tier");
        let keys_sorted = self.get_keys(disk, strategy);
        let ghost svs = cand_views(keys_sorted@);
        let ghost sel_full = selected_mem(svs, to_clean as int);

        let mut to_disk: Vec<String> = Vec::new();
        let mut tc: u64 = to_clean;
        let mut i: usize = 0;
        let ghost mut sel_acc: Seq<CandView> = Seq::empty();
        proof {
            assert(svs.subrange(0, svs.len() as int) =~= svs);
            assert(Seq::<CandView>::empty() + selected_mem(svs, to_clean as int) =~= selected_mem(
                svs,
                to_clean as int,
            ));
        }
        while i < keys_sorted.len() && tc > 0
            invariant
                svs == cand_views(keys_sorted@),
                i <= svs.len(),
                sel_full == selected_mem(svs, to_clean as int),
                sel_acc + selected_mem(svs.subrange(i as int, svs.len() as int), tc as int)
                    == sel_full,
                to_disk@.len() == sel_acc.len(),
                forall|j: int| 0 <= j < sel_acc.len() ==> to_disk@[j]@ == sel_acc[j].key,
            decreases svs.len() - i,
        {
            let ghost suffix = svs.subrange(i as int, svs.len() as int);
            proof {
                assert(suffix[0] == svs[i as int]);
                assert(svs[i as int] == keys_sorted@[i as int]@);
                assert(suffix.drop_first() =~= svs.subrange(i as int + 1, svs.len() as int));
            }
            if keys_sorted[i].disk_size == 0 && keys_sorted[i].resident {
                let ghost c = svs[i as int];
                proof {
                    assert(c.disk_size == 0 && c.resident);
                    assert(selected_mem(suffix, tc as int) == seq![c] + selected_mem(
                        suffix.drop_first(),
                        tc - c.mem_size,
                    ));
                    assert(sel_acc + (seq![c] + selected_mem(
                        suffix.drop_first(),
                        tc - c.mem_size,
                    )) =~= sel_acc.push(c) + selected_mem(suffix.drop_first(), tc - c.mem_size));
                }
                to_disk.push(keys_sorted[i].key.clone());
                let msz = keys_sorted[i].mem_size;
                let ghost tc0 = tc as int;
                if msz <= tc {
                    tc = tc - msz;
                } else {
                    tc = 0;
                }
                proof {
                    sel_acc = sel_acc.push(c);
                    if c.mem_size > tc0 {
                        assert(tc0 - c.mem_size <= 0);
                        assert(selected_mem(
                            svs.subrange(i as int + 1, svs.len() as int),
                            tc0 - c.mem_size,
                        ) == Seq::<CandView>::empty());
                        assert(selected_mem(svs.subrange(i as int + 1, svs.len() as int), 0int)
                            == Seq::<CandView>::empty());
                    }
                }
            } else {
                proof {
                    assert(selected_mem(suffix, tc as int) == selected_mem(
                        suffix.drop_first(),
                        tc as int,
                    ));
                }
            }
            i = i + 1;
        }
        proof {
            if tc == 0 {
                assert(selected_mem(svs.subrange(i as int, svs.len() as int), 0int)
                    == Seq::<CandView>::empty());
            } else {
                assert(i == svs.len());
                assert(svs.subrange(i as int, svs.len() as int).len() == 0);
            }
            assert(sel_acc + Seq::<CandView>::empty() =~= sel_acc);
            assert(sel_acc == sel_full);
        }

        let ghost kseq = str_keys_of(to_disk@);
        proof {
            assert(kseq =~= keys_of(sel_full));
        }
        let mut freed: u64 = 0;
        let mut written: u64 = 0;
        let mut replaced: u64 = 0;
        let mut j: usize = 0;
        proof {
            assert(kseq.subrange(0, 0) =~= Seq::<Seq<char>>::empty());
            crate::disk::lemma_disk_in_use_nonneg(f0);
            lemma_mem_in_use_nonneg(self@);
        }
        while j < to_disk.len()
            invariant
                self.wf(),
                disk.wf(),
                kseq == str_keys_of(to_disk@),
                j <= to_disk@.len(),
                mem_in_use(e0) <= u64::MAX,
                disk_in_use(f0) + mem_in_use(e0) <= u64::MAX,
                disk_in_use(f0) >= 0,
                self@ == apply_demotions(e0, f0, kseq.subrange(0, j as int), cache_path@).0,
                disk@ == apply_demotions(e0, f0, kseq.subrange(0, j as int), cache_path@).1,
                freed == mem_in_use(e0) - mem_in_use(self@),
                0 <= mem_in_use(self@) <= mem_in_use(e0),
                disk_in_use(disk@) == disk_in_use(f0) + written - replaced,
                written <= freed,
                replaced <= disk_in_use(f0) + written,
            decreases to_disk@.len() - j,
        {
            let ghost cur_e = self@;
            let ghost cur_f = disk@;
            proof {
                assert(kseq.subrange(0, j as int + 1).drop_last() =~= kseq.subrange(0, j as int));
                assert(kseq.subrange(0, j as int + 1).last() == kseq[j as int]);
                assert(kseq[j as int] == to_disk@[j as int]@);
            }
            let m = self.demote_one(disk, to_disk[j].as_str(), cache_path);
            proof {
                lemma_mem_in_use_nonneg(self@);
                assert(apply_demotions(e0, f0, kseq.subrange(0, j as int + 1), cache_path@)
                    == apply_demote_one(cur_e, cur_f, kseq[j as int], cache_path@));
            }
            freed = freed + m.0;
            written = written + m.1;
            replaced = replaced + m.2;
            j = j + 1;
        }
        proof {
            assert(kseq.subrange(0, to_disk@.len() as int) =~= kseq);
        }
        (freed, written, replaced)
    }

    /// Evicts the entry stored under `key` entirely, if present: the entry
    /// leaves the index and its file (if any) leaves `disk`. Returns the
    /// freed disk bytes and the freed memory footprint (each 0 if the key
    /// was absent).
    fn evict_one(&mut self, disk: &mut DiskStore, key: &str) -> (r: (u64, u64))
        requires
            old(self).wf(),
            old(disk).wf(),
        ensures
            final(self).wf(),
            final(disk).wf(),
            final(self)@ == apply_evict_one(old(self)@, old(disk)@, key@).0,
            final(disk)@ == apply_evict_one(old(self)@, old(disk)@, key@).1,
            r.0 == disk_in_use(old(disk)@) - disk_in_use(final(disk)@),
            r.0 <= disk_in_use(old(disk)@),
            r.1 == mem_in_use(old(self)@) - mem_in_use(final(self)@),
            r.1 <= mem_in_use(old(self)@),
    {
        let ghost prev_e = self@;
        let ghost prev_f = disk@;
        match self.position_of(key) {
            None => {
                proof {
                    crate::disk::lemma_disk_in_use_nonneg(prev_f);
                    lemma_mem_in_use_nonneg(prev_e);
                }
                (0, 0)
            },
            Some(i) => {
                proof {
                    lemma_find_key(prev_e, key@);
                    assert(prev_e[i as int].1 == self.entries@[i as int].1@);
                    assert(item_wf(prev_e[i as int].1));
                }
                let mfree: u64 = if self.entries[i].1.value.is_some() {
                    self.entries[i].1.get_mem_size()
                } else {
                    0
                };
                let _pair = self.entries.remove(i);
                let dfree = disk.delete(key);
                proof {
                    assert(self@ =~= prev_e.remove(i as int));
                    lemma_remove_keeps_distinct(prev_e, i as int);
                    lemma_mem_in_use_remove(prev_e, i as int);
                    lemma_mem_in_use_nonneg(self@);
                    lemma_find_key(prev_f, key@);
                    if contains_key(prev_f, key@) {
                        let fidx = find_key(prev_f, key@);
                        crate::disk::lemma_disk_in_use_remove(prev_f, fidx);
                        crate::disk::lemma_file_le_disk_in_use(prev_f, fidx);
                    } else {
                        crate::disk::lemma_disk_in_use_nonneg(prev_f);
                    }
                }
                (dfree, mfree)
            },
        }
    }

    /// The disk-cleanup pass: snapshots and sorts the entries by `strategy`,
    /// then walks the sorted snapshot and evicts every candidate entirely —
    /// regardless of tier — until `to_clean` bytes of disk usage are
    /// reclaimed or the candidates are exhausted. Returns the freed disk
    /// bytes and the freed memory footprint (for the caller to update its
    /// accounting).
    pub fn cleanup_disk(
        &mut self,
        strategy: &CleanseStrategy,
        to_clean: u64,
        disk: &mut DiskStore,
    ) -> (r: (u64, u64))
        requires
            old(self).wf(),
            old(disk).wf(),
            mem_in_use(old(self)@) <= u64::MAX,
            disk_in_use(old(disk)@) <= u64::MAX,
        ensures
            final(self).wf(),
            final(disk).wf(),
            ({
                let sel = selected_disk(
                    sort_cands(*strategy, snapshot_of(old(self)@, old(disk)@)),
                    to_clean as int,
                );
                &&& final(self)@ == apply_evictions(old(self)@, old(disk)@, keys_of(sel)).0
                &&& final(disk)@ == apply_evictions(old(self)@, old(disk)@, keys_of(sel)).1
            }),
            r.0 == disk_in_use(old(disk)@) - disk_in_use(final(disk)@),
            disk_in_use(final(disk)@) >= 0,
            r.1 == mem_in_use(old(self)@) - mem_in_use(final(self)@),
            mem_in_use(final(self)@) >= 0,
    {
        let ghost e0 = self@;
        let ghost f0 = disk@;
        crate::tools::warn("cleaning the disk tier");
        let keys_sorted = self.get_keys(disk, strategy);
        let ghost svs = cand_views(keys_sorted@);
        let ghost sel_full = selected_disk(svs, to_clean as int);

        let mut to_remove: Vec<String> = Vec::new();
        let mut tc: u64 = to_clean;
        let mut i: usize = 0;
        let ghost mut sel_acc: Seq<CandView> = Seq::empty();
        proof {
            assert(svs.subrange(0, svs.len() as int) =~= svs);
            assert(Seq::<CandView>::empty() + selected_disk(svs, to_clean as int) =~= selected_disk(
                svs,
                to_clean as int,
            ));
        }
        while i < keys_sorted.len() && tc > 0
            invariant
                svs == cand_views(keys_sorted@),
                i <= svs.len(),
                sel_full == selected_disk(svs, to_clean as int),
                sel_acc + selected_disk(svs.subrange(i as int, svs.len() as int), tc as int)
                    == sel_full,
                to_remove@.len() == sel_acc.len(),
                forall|j: int| 0 <= j < sel_acc.len() ==> to_remove@[j]@ == sel_acc[j].key,
            decreases svs.len() - i,
        {
            let ghost suffix = svs.subrange(i as int, svs.len() as int);
            let ghost c = svs[i as int];
            proof {
                assert(suffix[0] == c);
                assert(c == keys_sorted@[i as int]@);
                assert(suffix.drop_first() =~= svs.subrange(i as int + 1, svs.len() as int));
                assert(selected_disk(suffix, tc as int) == seq![c] + selected_disk(
                    suffix.drop_first(),
                    tc - c.disk_size,
                ));
                assert(sel_acc + (seq![c] + selected_disk(suffix.drop_first(), tc - c.disk_size))
                    =~= sel_acc.push(c) + selected_disk(suffix.drop_first(), tc - c.disk_size));
            }
            to_remove.push(keys_sorted[i].key.clone());
            let dsz = keys_sorted[i].disk_size;
            let ghost tc0 = tc as int;
            if dsz <= tc {
                tc = tc - dsz;
            } else {
                tc = 0;
            }
            proof {
                sel_acc = sel_acc.push(c);
                if c.disk_size > tc0 {
                    assert(tc0 - c.disk_size <= 0);
                    assert(selected_disk(
                        svs.subrange(i as int + 1, svs.len() as int),
                        tc0 - c.disk_size,
                    ) == Seq::<CandView>::empty());
                    assert(selected_disk(svs.subrange(i as int + 1, svs.len() as int), 0int)
                        == Seq::<CandView>::empty());
                }
            }
            i = i + 1;
        }
        proof {
            if tc == 0 {
                assert(selected_disk(svs.subrange(i as int, svs.len() as int), 0int)
                    == Seq::<CandView>::empty());
            } else {
                assert(i == svs.len());
                assert(svs.subrange(i as int, svs.len() as int).len() == 0);
            }
            assert(sel_acc + Seq::<CandView>::empty() =~= sel_acc);
            assert(sel_acc == sel_full);
        }

        let ghost kseq = str_keys_of(to_remove@);
        proof {
            assert(kseq =~= keys_of(sel_full));
        }
        let mut dfreed: u64 = 0;
        let mut mfreed: u64 = 0;
        let mut j: usize = 0;
        proof {
            assert(kseq.subrange(0, 0) =~= Seq::<Seq<char>>::empty());
            crate::disk::lemma_disk_in_use_nonneg(disk@);
            lemma_mem_in_use_nonneg(self@);
        }
        while j < to_remove.len()
            invariant
                self.wf(),
                disk.wf(),
                kseq == str_keys_of(to_remove@),
                j <= to_remove@.len(),
                mem_in_use(e0) <= u64::MAX,
                disk_in_use(f0) <= u64::MAX,
                self@ == apply_evictions(e0, f0, kseq.subrange(0, j as int)).0,
                disk@ == apply_evictions(e0, f0, kseq.subrange(0, j as int)).1,
                dfreed == disk_in_use(f0) - disk_in_use(disk@),
                0 <= disk_in_use(disk@) <= disk_in_use(f0),
                mfreed == mem_in_use(e0) - mem_in_use(self@),
                0 <= mem_in_use(self@) <= mem_in_use(e0),
            decreases to_remove@.len() - j,
        {
            let ghost cur_e = self@;
            let ghost cur_f = disk@;
            proof {
                assert(kseq.subrange(0, j as int + 1).drop_last() =~= kseq.subrange(0, j as int));
                assert(kseq.subrange(0, j as int + 1).last() == kseq[j as int]);
                assert(kseq[j as int] == to_remove@[j as int]@);
            }
            let m = self.evict_one(disk, to_remove[j].as_str());
            proof {
                lemma_mem_in_use_nonneg(self@);
                crate::disk::lemma_disk_in_use_nonneg(disk@);
                assert(apply_evictions(e0, f0, kseq.subrange(0, j as int + 1)) == apply_evict_one(
                    cur_e,
                    cur_f,
                    kseq[j as int],
                ));
            }
            dfreed = dfreed + m.0;
            mfreed = mfreed + m.1;
            j = j + 1;
        }
        proof {
            assert(kseq.subrange(0, to_remove@.len() as int) =~= kseq);
        }
        (dfreed, mfreed)
    }

    /// Deletes the entry stored under `key`; returns the removed item, if
    /// any. A missing key is not an error.
    pub fn del(&mut self, key: &str) -> (r: Option<DatabaseItem>)
        requires
            old(self).wf(),
        ensures
            final(self).wf(),
            final(self)@ == remove_key(old(self)@, key@),
            match r {
                Some(p) => contains_key(old(self)@, key@) && p@ == value_of(old(self)@, key@),
                None => !contains_key(old(self)@, key@),
            },
    {
        let ghost prev = self@;
        match self.position_of(key) {
            Some(i) => {
                proof {
                    lemma_find_key(prev, key@);
                }
                let pair = self.entries.remove(i);
                proof {
                    assert(self@ =~= prev.remove(i as int));
                    lemma_remove_keeps_distinct(prev, i as int);
                }
                Some(pair.1)
            },
            None => None,
        }
    }
}

} // verus!
