//! The cache facade: configuration, byte accounting, and the public
//! get/set/remove/resize operations.
//!
//! The facade owns the index, the modelled disk tier, the byte budgets and
//! the running totals `ram_used` / `disk_used`. Its well-formedness
//! predicate ties the totals to the tiers (the accounting can never drift)
//! and ties the tiers to each other (an entry records a disk location
//! exactly when its file exists).

use crate::assoc::{
    contains_key, find_key, keys_distinct, lemma_find_key, lemma_remove_assoc, lemma_set_assoc,
    remove_key, set_assoc, value_of,
};
use crate::disk::{disk_in_use, file_size, DiskStore};
use crate::eviction::{keys_of, selected_disk, selected_mem, sort_cands};
use crate::memdb::{
    apply_demotions, apply_evictions, clone_bytes, item_wf, lemma_demotions_preserve,
    lemma_evictions_preserve, lemma_mem_contrib_le, lemma_mem_in_use_nonneg, lemma_mem_in_use_push,
    lemma_mem_in_use_remove, lemma_mem_in_use_update, mem_contrib, mem_in_use, snapshot_of,
    spec_mem_size, store_wf, tiers_linked, DatabaseItem, FastDB, ItemView, ENTRY_OVERHEAD,
};
use vstd::prelude::*;

verus! {

pub const ONE_BYTE: u64 = 1;

pub const ONE_KIBIBYTE: u64 = ONE_BYTE * 1024;

pub const ONE_MEBIBYTE: u64 = ONE_KIBIBYTE * 1024;

pub const ONE_GIBIBYTE: u64 = ONE_MEBIBYTE * 1024;

pub const TEN_GIBIBYTE: u64 = ONE_GIBIBYTE * 10;

pub const ONE_SECOND: u64 = 1;

pub const ONE_MINUTE: u64 = ONE_SECOND * 60;

pub const ONE_HOUR: u64 = ONE_MINUTE * 60;

pub const ONE_DAY: u64 = ONE_HOUR * 24;

/// Strategies for choosing which entries leave a tier first.
/// * `LastAccess`: entries with the oldest access time leave first.
/// * `LeastUsed`: entries with the fewest reads leave first.
/// * `Combined`: fewest reads first, oldest access time as the tie-break.
#[derive(Debug)]
pub enum CleanseStrategy {
    LastAccess,
    LeastUsed,
    Combined,
}

/// The mathematical value of the whole cache.
pub struct CacheView {
    /// Byte ceiling of the memory tier.
    pub max_ram_cache: u64,
    /// Byte ceiling of the disk tier.
    pub max_disk_cache: u64,
    /// Seconds after which an entry is eligible for forced eviction.
    /// Declared configuration; enforcing it is a periodic sweep's task, not
    /// this core's.
    pub decache_age: u64,
    /// Directory under which demotions record their files.
    pub cache_path: Seq<char>,
    /// The key-to-entry index, in insertion order.
    pub entries: Seq<(Seq<char>, ItemView)>,
    /// The disk tier: one file per demoted key.
    pub files: Seq<(Seq<char>, Seq<u8>)>,
    /// Running total of the footprints of the memory-resident entries.
    pub ram_used: u64,
    /// Running total of the file sizes of the disk tier.
    pub disk_used: u64,
}

/// A well-formed cache: both tiers are well-formed and linked, and the
/// running totals equal the tiers' actual sums at every quiescent point.
pub open spec fn cache_wf(cv: CacheView) -> bool {
    &&& store_wf(cv.entries)
    &&& keys_distinct(cv.files)
    &&& tiers_linked(cv.entries, cv.files)
    &&& cv.ram_used == mem_in_use(cv.entries)
    &&& cv.disk_used == disk_in_use(cv.files)
}

/// A fresh item as `set` installs it: the payload resident, the read count
/// zero, nothing on disk.
pub open spec fn fresh_item(b: Seq<u8>, t: u128) -> ItemView {
    ItemView { value: Some(b), last_access: t, access_counter: 0, filepath: None }
}

/// An item after a successful read at time `t`: the stamp refreshed, the
/// read count raised by one (it stays put once saturated).
pub open spec fn touched_item(iv: ItemView, t: u128) -> ItemView {
    ItemView {
        value: iv.value,
        last_access: t,
        access_counter: if iv.access_counter < u64::MAX {
            (iv.access_counter + 1) as u64
        } else {
            u64::MAX
        },
        filepath: iv.filepath,
    }
}

/// What `remove_cache_item` does: the entry under `k` and its file (if any)
/// leave the cache, and both totals drop accordingly; a missing key changes
/// nothing.
pub open spec fn spec_remove_item(cv: CacheView, k: Seq<char>) -> CacheView {
    if contains_key(cv.entries, k) {
        CacheView {
            entries: remove_key(cv.entries, k),
            files: remove_key(cv.files, k),
            ram_used: (cv.ram_used - mem_contrib(value_of(cv.entries, k))) as u64,
            disk_used: (cv.disk_used - file_size(cv.files, k)) as u64,
            ..cv
        }
    } else {
        cv
    }
}

/// What `insert_cache_item` does at time `t`: any entry under `k` leaves
/// first (with its file), then a fresh memory-resident entry is appended
/// and its footprint joins `ram_used`.
pub open spec fn spec_insert_item(cv: CacheView, k: Seq<char>, b: Seq<u8>, t: u128) -> CacheView {
    let cv1 = spec_remove_item(cv, k);
    CacheView {
        entries: cv1.entries.push((k, fresh_item(b, t))),
        ram_used: (cv1.ram_used + b.len() + ENTRY_OVERHEAD) as u64,
        ..cv1
    }
}

/// What `get_cache_item` does at time `t`: the entry under `k` has its
/// access bookkeeping refreshed in place; a missing key changes nothing.
pub open spec fn spec_touch(cv: CacheView, k: Seq<char>, t: u128) -> CacheView {
    if contains_key(cv.entries, k) {
        CacheView {
            entries: set_assoc(cv.entries, k, touched_item(value_of(cv.entries, k), t)),
            ..cv
        }
    } else {
        cv
    }
}

/// What `get_cache_value` returns: the payload from memory when resident,
/// else the bytes of the entry's file when one is recorded and present,
/// else nothing.
pub open spec fn spec_got_value(cv: CacheView, k: Seq<char>) -> Option<Seq<u8>> {
    if !contains_key(cv.entries, k) {
        None
    } else {
        let iv = value_of(cv.entries, k);
        if iv.value is Some {
            Some(iv.value->Some_0)
        } else if iv.filepath is Some && contains_key(cv.files, k) {
            Some(value_of(cv.files, k))
        } else {
            None
        }
    }
}

/// What a memory-cleanup down to `new_max` bytes does: nothing while
/// `ram_used` fits; otherwise the strategy-sorted demotion of candidates
/// until the excess is freed, with both totals following the tiers.
pub open spec fn spec_cleanup_mem_budget(
    cv: CacheView,
    strategy: CleanseStrategy,
    new_max: u64,
) -> CacheView {
    if cv.ram_used <= new_max {
        cv
    } else {
        let sel = selected_mem(
            sort_cands(strategy, snapshot_of(cv.entries, cv.files)),
            cv.ram_used - new_max,
        );
        let res = apply_demotions(cv.entries, cv.files, keys_of(sel), cv.cache_path);
        CacheView {
            entries: res.0,
            files: res.1,
            ram_used: mem_in_use(res.0) as u64,
            disk_used: disk_in_use(res.1) as u64,
            ..cv
        }
    }
}

/// What a disk-cleanup down to `new_max` bytes does: nothing while
/// `disk_used` fits; otherwise the strategy-sorted full eviction of
/// candidates until the excess is reclaimed.
pub open spec fn spec_cleanup_disk_budget(
    cv: CacheView,
    strategy: CleanseStrategy,
    new_max: u64,
) -> CacheView {
    if cv.disk_used <= new_max {
        cv
    } else {
        let sel = selected_disk(
            sort_cands(strategy, snapshot_of(cv.entries, cv.files)),
            cv.disk_used - new_max,
        );
        let res = apply_evictions(cv.entries, cv.files, keys_of(sel));
        CacheView {
            entries: res.0,
            files: res.1,
            ram_used: mem_in_use(res.0) as u64,
            disk_used: disk_in_use(res.1) as u64,
            ..cv
        }
    }
}

/// The strategy a cleanup uses: the requested one, or `Combined` when none
/// was requested.
pub open spec fn chosen_strategy(s: Option<CleanseStrategy>) -> CleanseStrategy {
    match s {
        Some(v) => v,
        None => CleanseStrategy::Combined,
    }
}

/// What `resize_cache` does: an unspecified budget keeps its current value;
/// the memory tier is cleaned down to the new RAM budget, then the disk
/// tier down to the new disk budget, and the budgets are installed.
pub open spec fn spec_resize(
    cv: CacheView,
    max_ram: Option<u64>,
    max_disk: Option<u64>,
    strategy: CleanseStrategy,
) -> CacheView {
    let new_ram = match max_ram {
        Some(v) => v,
        None => cv.max_ram_cache,
    };
    let new_disk = match max_disk {
        Some(v) => v,
        None => cv.max_disk_cache,
    };
    let cv1 = spec_cleanup_mem_budget(cv, strategy, new_ram);
    let cv2 = spec_cleanup_disk_budget(cv1, strategy, new_disk);
    CacheView { max_ram_cache: new_ram, max_disk_cache: new_disk, ..cv2 }
}

/// The cache: configuration, the two tiers, and the running byte totals.
/// * `max_ram_cache`: bytes of memory to use for caching (default 1 GiB).
/// * `max_disk_cache`: bytes of disk to use for caching (default 10 GiB).
/// * `decache_age`: seconds after which an entry is eligible for forced
///   eviction (default one day; enforcement is a periodic sweep's task).
/// * `cache_path`: directory under which demoted entries keep their files
///   (default a relative directory; embedders inject the real location
///   through `set_cache_path`).
#[derive(Debug)]
pub struct Cache {
    max_ram_cache: u64,
    max_disk_cache: u64,
    decache_age: u64,
    cache_path: String,
    memdb: FastDB,
    disk: DiskStore,
    memdb_size: u64,
    diskdb_size: u64,
}

impl View for Cache {
    type V = CacheView;

    closed spec fn view(&self) -> CacheView {
        CacheView {
            max_ram_cache: self.max_ram_cache,
            max_disk_cache: self.max_disk_cache,
            decache_age: self.decache_age,
            cache_path: self.cache_path@,
            entries: self.memdb@,
            files: self.disk@,
            ram_used: self.memdb_size,
            disk_used: self.diskdb_size,
        }
    }
}

impl Default for Cache {
    /// An empty cache with the default budgets.
    fn default() -> (r: Self)
        ensures
            r.wf(),
            r@.max_ram_cache == ONE_GIBIBYTE,
            r@.max_disk_cache == TEN_GIBIBYTE,
            r@.decache_age == ONE_DAY,
            r@.cache_path == "cache"@,
            r@.entries == Seq::<(Seq<char>, ItemView)>::empty(),
            r@.files == Seq::<(Seq<char>, Seq<u8>)>::empty(),
            r@.ram_used == 0,
            r@.disk_used == 0,
    {
        let r = Self {
            max_ram_cache: ONE_GIBIBYTE,
            max_disk_cache: TEN_GIBIBYTE,
            decache_age: ONE_DAY,
            cache_path: "cache".to_owned(),
            memdb: FastDB::default(),
            disk: DiskStore::new(),
            memdb_size: 0,
            diskdb_size: 0,
        };
        proof {
            assert forall|k: Seq<char>| !(#[trigger] contains_key(r@.files, k)) by {
                assert(find_key(r@.files, k) == -1);
            }
        }
        r
    }
}

impl Cache {
    /// The cache's accounting and cross-tier invariants hold.
    pub open spec fn wf(&self) -> bool {
        cache_wf(self@)
    }

    /// Sets or changes the cache directory for future demotions. Files
    /// already written under the previous directory are neither migrated
    /// nor deleted: clearing the old path is the caller's responsibility.
    pub fn set_cache_path(&mut self, new_cache_path: String)
        requires
            old(self).wf(),
        ensures
            final(self).wf(),
            final(self)@ == (CacheView { cache_path: new_cache_path@, ..old(self)@ }),
    {
        self.cache_path = new_cache_path;
    }

    /// Removes the entry stored under `key` together with its on-disk file,
    /// and drops both totals by what left. A missing key is not an error.
    pub fn remove_cache_item(&mut self, key: &str) -> (r: Option<DatabaseItem>)
        requires
            old(self).wf(),
        ensures
            final(self).wf(),
            final(self)@ == spec_remove_item(old(self)@, key@),
            r is None,
    {
        let ghost cv = self@;
        let dbi = self.memdb.get(key);
        match dbi {
            Some(v) => {
                proof {
                    lemma_find_key(cv.entries, key@);
                    assert(item_wf(cv.entries[find_key(cv.entries, key@)].1));
                }
                let size: u64 = if v.value.is_some() {
                    v.get_mem_size()
                } else {
                    0
                };
                self.memdb.del(key);
                proof {
                    let i = find_key(cv.entries, key@);
                    lemma_mem_in_use_remove(cv.entries, i);
                    lemma_mem_contrib_le(cv.entries, i);
                    lemma_mem_in_use_nonneg(self@.entries);
                    assert(size == mem_contrib(value_of(cv.entries, key@)));
                }
                self.memdb_size = self.memdb_size - size;
                let dfree = self.disk.delete(key);
                proof {
                    lemma_find_key(cv.files, key@);
                    if contains_key(cv.files, key@) {
                        let fi = find_key(cv.files, key@);
                        crate::disk::lemma_disk_in_use_remove(cv.files, fi);
                        crate::disk::lemma_file_le_disk_in_use(cv.files, fi);
                    }
                }
                self.diskdb_size = self.diskdb_size - dfree;
                proof {
                    lemma_remove_assoc(cv.entries, key@);
                    lemma_remove_assoc(cv.files, key@);
                    let e2 = remove_key(cv.entries, key@);
                    let f2 = remove_key(cv.files, key@);
                    let i = find_key(cv.entries, key@);
                    assert forall|j: int| 0 <= j < e2.len() implies item_wf(
                        #[trigger] e2[j].1,
                    ) by {
                        if j < i {
                            assert(e2[j] == cv.entries[j]);
                        } else {
                            assert(e2[j] == cv.entries[j + 1]);
                        }
                    }
                    assert forall|k2: Seq<char>| #[trigger] contains_key(f2, k2) <==> contains_key(
                        e2,
                        k2,
                    ) && value_of(e2, k2).filepath is Some by {
                        if k2 != key@ {
                            if contains_key(e2, k2) {
                                assert(value_of(e2, k2) == value_of(cv.entries, k2));
                            }
                        }
                    }
                    assert(self@ == spec_remove_item(cv, key@));
                }
                None
            },
            None => {
                proof {
                    assert(self@ == spec_remove_item(cv, key@));
                }
                None
            },
        }
    }

    /// Stores `value` under `key` at time `now`: any previous entry under
    /// `key` leaves first, together with its on-disk file, then a fresh
    /// memory-resident entry is installed with a read count of zero.
    pub fn insert_cache_item_at(&mut self, key: String, value: Vec<u8>, now: u128) -> (r: Option<
        DatabaseItem,
    >)
        requires
            old(self).wf(),
            old(self)@.ram_used + value@.len() + ENTRY_OVERHEAD <= u64::MAX,
        ensures
            final(self).wf(),
            final(self)@ == spec_insert_item(old(self)@, key@, value@, now),
            r is None,
    {
        let ghost cv = self@;
        self.remove_cache_item(key.as_str());
        let ghost cv1 = self@;
        let dbi = DatabaseItem { value: Some(value), last_access: now, access_counter: 0, filepath: None };
        proof {
            assert(dbi@ == fresh_item(value@, now));
            lemma_mem_in_use_nonneg(cv1.entries);
            assert(item_wf(dbi@));
            if contains_key(cv.entries, key@) {
                lemma_find_key(cv.entries, key@);
                lemma_mem_contrib_le(cv.entries, find_key(cv.entries, key@));
                lemma_mem_in_use_nonneg(cv.entries.remove(find_key(cv.entries, key@)));
            }
            assert(cv1.ram_used <= cv.ram_used);
        }
        let size = dbi.get_mem_size();
        self.memdb_size = self.memdb_size + size;
        let r = self.memdb.set(key, dbi);
        proof {
            lemma_remove_assoc(cv.entries, key@);
            assert(!contains_key(cv1.entries, key@));
            lemma_mem_in_use_push(cv1.entries, (key@, fresh_item(value@, now)));
            let e2 = cv1.entries.push((key@, fresh_item(value@, now)));
            assert forall|k2: Seq<char>| #[trigger] contains_key(cv1.files, k2) <==> contains_key(
                e2,
                k2,
            ) && value_of(e2, k2).filepath is Some by {
                crate::assoc::lemma_find_key_push(cv1.entries, (key@, fresh_item(value@, now)), k2);
                if k2 == key@ {
                    assert(!contains_key(cv1.files, key@));
                    assert(value_of(e2, key@) == fresh_item(value@, now));
                } else {
                    assert(contains_key(e2, k2) == contains_key(cv1.entries, k2));
                    if contains_key(cv1.entries, k2) {
                        crate::assoc::lemma_find_key(cv1.entries, k2);
                        assert(e2[find_key(cv1.entries, k2)] == cv1.entries[find_key(
                            cv1.entries,
                            k2,
                        )]);
                        assert(value_of(e2, k2) == value_of(cv1.entries, k2));
                    }
                }
            }
            assert(self@ == spec_insert_item(cv, key@, value@, now));
        }
        r
    }

    /// Stores `value` under `key`, stamped with the current time. Any
    /// previous entry under `key` leaves first, together with its on-disk
    /// file.
    pub fn insert_cache_item(&mut self, key: String, value: Vec<u8>) -> (r: Option<DatabaseItem>)
        requires
            old(self).wf(),
            old(self)@.ram_used + value@.len() + ENTRY_OVERHEAD <= u64::MAX,
        ensures
            final(self).wf(),
            exists|t: u128| final(self)@ == spec_insert_item(old(self)@, key@, value@, t),
            r is None,
    {
        let now = crate::tools::get_nano_time();
        let ghost cv = self@;
        let r = self.insert_cache_item_at(key, value, now);
        proof {
            assert(self@ == spec_insert_item(cv, key@, value@, now));
        }
        r
    }

    /// Looks up the entry stored under `key` at time `now`: on a hit, the
    /// entry's access stamp and read count are refreshed in place and a
    /// copy of the refreshed entry is returned.
    pub fn get_cache_item_at(&mut self, key: &str, now: u128) -> (r: Option<DatabaseItem>)
        requires
            old(self).wf(),
        ensures
            final(self).wf(),
            final(self)@ == spec_touch(old(self)@, key@, now),
            match r {
                Some(item) => contains_key(old(self)@.entries, key@) && item@ == touched_item(
                    value_of(old(self)@.entries, key@),
                    now,
                ),
                None => !contains_key(old(self)@.entries, key@),
            },
    {
        let ghost cv = self@;
        let f = self.memdb.get(key);
        match f {
            None => None,
            Some(fx) => {
                let mut fx = fx;
                fx.last_access = now;
                if fx.access_counter < u64::MAX {
                    fx.access_counter = fx.access_counter + 1;
                }
                proof {
                    lemma_find_key(cv.entries, key@);
                    assert(item_wf(cv.entries[find_key(cv.entries, key@)].1));
                    assert(fx@ == touched_item(value_of(cv.entries, key@), now));
                    assert(item_wf(fx@));
                }
                let copy = fx.duplicate();
                self.memdb.set(key.to_owned(), copy);
                proof {
                    let i = find_key(cv.entries, key@);
                    lemma_set_assoc(cv.entries, key@, fx@);
                    lemma_mem_in_use_update(cv.entries, i, (key@, fx@));
                    assert(mem_contrib(fx@) == mem_contrib(cv.entries[i].1));
                    let e2 = set_assoc(cv.entries, key@, fx@);
                    assert forall|k2: Seq<char>| #[trigger] contains_key(cv.files, k2)
                        <==> contains_key(e2, k2) && value_of(e2, k2).filepath is Some by {
                        if k2 == key@ {
                            assert(value_of(e2, key@) == fx@);
                            assert(fx@.filepath == value_of(cv.entries, key@).filepath);
                        } else {
                            assert(contains_key(e2, k2) == contains_key(cv.entries, k2));
                            if contains_key(cv.entries, k2) {
                                assert(value_of(e2, k2) == value_of(cv.entries, k2));
                            }
                        }
                    }
                    assert(self@ == spec_touch(cv, key@, now));
                }
                Some(fx)
            },
        }
    }

    /// Looks up the entry stored under `key`: on a hit, the entry's access
    /// stamp is refreshed to the current time and its read count raised,
    /// and a copy of the refreshed entry is returned.
    pub fn get_cache_item(&mut self, key: String) -> (r: Option<DatabaseItem>)
        requires
            old(self).wf(),
        ensures
            final(self).wf(),
            exists|t: u128|
                {
                    &&& final(self)@ == spec_touch(old(self)@, key@, t)
                    &&& match r {
                        Some(item) => contains_key(old(self)@.entries, key@) && item@
                            == touched_item(value_of(old(self)@.entries, key@), t),
                        None => !contains_key(old(self)@.entries, key@),
                    }
                },
    {
        let now = crate::tools::get_nano_time();
        let ghost cv = self@;
        let r = self.get_cache_item_at(key.as_str(), now);
        proof {
            assert(self@ == spec_touch(cv, key@, now));
        }
        r
    }

    /// Reads the bytes stored under `key` at time `now`: from memory while
    /// the entry is resident, transparently from its on-disk file once
    /// demoted. A hit refreshes the entry's access bookkeeping either way.
    pub fn get_cache_value_at(&mut self, key: &str, now: u128) -> (r: Option<Vec<u8>>)
        requires
            old(self).wf(),
        ensures
            final(self).wf(),
            final(self)@ == spec_touch(old(self)@, key@, now),
            match r {
                Some(b) => spec_got_value(old(self)@, key@) == Some(b@),
                None => spec_got_value(old(self)@, key@) is None,
            },
    {
        let ghost cv = self@;
        let cache_item = self.get_cache_item_at(key, now);
        match cache_item {
            None => None,
            Some(fxi) => {
                proof {
                    assert(fxi@ == touched_item(value_of(cv.entries, key@), now));
                    assert(self@.files == cv.files);
                }
                match fxi.value {
                    Some(v) => {
                        crate::tools::log("from memory");
                        proof {
                            assert(value_of(cv.entries, key@).value == Some(v@));
                        }
                        Some(v)
                    },
                    None => {
                        match &fxi.filepath {
                            None => None,
                            Some(_) => {
                                match self.disk.read(key) {
                                    Some(b) => {
                                        crate::tools::log("from disk");
                                        let out = clone_bytes(b);
                                        proof {
                                            assert(spec_got_value(cv, key@) == Some(
                                                value_of(cv.files, key@),
                                            ));
                                        }
                                        Some(out)
                                    },
                                    None => None,
                                }
                            },
                        }
                    },
                }
            },
        }
    }

    /// Reads the bytes stored under `key`: from memory while the entry is
    /// resident, transparently from its on-disk file once demoted. A hit
    /// refreshes the entry's access bookkeeping either way.
    pub fn get_cache_value(&mut self, key: String) -> (r: Option<Vec<u8>>)
        requires
            old(self).wf(),
        ensures
            final(self).wf(),
            exists|t: u128| final(self)@ == spec_touch(old(self)@, key@, t),
            match r {
                Some(b) => spec_got_value(old(self)@, key@) == Some(b@),
                None => spec_got_value(old(self)@, key@) is None,
            },
    {
        let now = crate::tools::get_nano_time();
        let ghost cv = self@;
        let r = self.get_cache_value_at(key.as_str(), now);
        proof {
            assert(self@ == spec_touch(cv, key@, now));
        }
        r
    }

    /// Cleans the memory tier down to `new_max_cache` bytes by demoting
    /// strategy-selected entries to disk; a total already within the budget
    /// changes nothing.
    fn cleanup_mem_cache(&mut self, cleanse_strategy: &CleanseStrategy, new_max_cache: u64)
        requires
            old(self).wf(),
            old(self)@.ram_used + old(self)@.disk_used <= u64::MAX,
        ensures
            final(self).wf(),
            final(self)@ == spec_cleanup_mem_budget(old(self)@, *cleanse_strategy, new_max_cache),
            final(self)@.ram_used + final(self)@.disk_used <= old(self)@.ram_used + old(
                self,
            )@.disk_used,
    {
        if self.memdb_size <= new_max_cache {
            return ;
        }
        let to_clean = self.memdb_size - new_max_cache;
        crate::tools::log("cleaning the memory cache down to its new budget");
        let path = self.cache_path.clone();
        let ghost cv = self@;
        let r = self.memdb.cleanup_mem(cleanse_strategy, to_clean, path.as_str(), &mut self.disk);
        proof {
            let sel = selected_mem(
                sort_cands(*cleanse_strategy, snapshot_of(cv.entries, cv.files)),
                to_clean as int,
            );
            lemma_demotions_preserve(cv.entries, cv.files, keys_of(sel), cv.cache_path);
            crate::disk::lemma_disk_in_use_nonneg(self.disk@);
        }
        self.memdb_size = self.memdb_size - r.0;
        self.diskdb_size = (self.diskdb_size + r.1) - r.2;
        proof {
            assert(self@ == spec_cleanup_mem_budget(cv, *cleanse_strategy, new_max_cache));
        }
    }

    /// Cleans the disk tier down to `new_max_disk` bytes by fully evicting
    /// strategy-selected entries; a total already within the budget changes
    /// nothing.
    fn cleanup_disk_cache(&mut self, cleanse_strategy: &CleanseStrategy, new_max_disk: u64)
        requires
            old(self).wf(),
        ensures
            final(self).wf(),
            final(self)@ == spec_cleanup_disk_budget(old(self)@, *cleanse_strategy, new_max_disk),
            final(self)@.ram_used <= old(self)@.ram_used,
            final(self)@.disk_used <= old(self)@.disk_used,
    {
        if self.diskdb_size <= new_max_disk {
            return ;
        }
        let to_clean = self.diskdb_size - new_max_disk;
        let ghost cv = self@;
        let r = self.memdb.cleanup_disk(cleanse_strategy, to_clean, &mut self.disk);
        proof {
            let sel = selected_disk(
                sort_cands(*cleanse_strategy, snapshot_of(cv.entries, cv.files)),
                to_clean as int,
            );
            lemma_evictions_preserve(cv.entries, cv.files, keys_of(sel));
        }
        self.memdb_size = self.memdb_size - r.1;
        self.diskdb_size = self.diskdb_size - r.0;
        proof {
            assert(self@ == spec_cleanup_disk_budget(cv, *cleanse_strategy, new_max_disk));
        }
    }

    /// Changes the cache's budgets; an unspecified budget keeps its current
    /// value. If the new RAM budget is below the bytes currently resident,
    /// the memory tier is cleaned down to it first; likewise for the disk
    /// budget and the disk tier. The whole operation blocks every other
    /// cache operation until it completes.
    pub fn resize_cache(
        &mut self,
        max_ram_cache: Option<u64>,
        max_disk_cache: Option<u64>,
        cleanse_strategy: Option<CleanseStrategy>,
    )
        requires
            old(self).wf(),
            old(self)@.ram_used + old(self)@.disk_used <= u64::MAX,
        ensures
            final(self).wf(),
            final(self)@ == spec_resize(
                old(self)@,
                max_ram_cache,
                max_disk_cache,
                chosen_strategy(cleanse_strategy),
            ),
    {
        crate::tools::warn("resizing the cache: no requests will be handled");
        let ghost cv = self@;
        let new_max_ram = match max_ram_cache {
            Some(v) => v,
            None => self.max_ram_cache,
        };
        let new_max_disk = match max_disk_cache {
            Some(v) => v,
            None => self.max_disk_cache,
        };
        let c_strat = match cleanse_strategy {
            Some(s) => s,
            None => CleanseStrategy::Combined,
        };
        self.cleanup_mem_cache(&c_strat, new_max_ram);
        self.cleanup_disk_cache(&c_strat, new_max_disk);
        self.max_ram_cache = new_max_ram;
        self.max_disk_cache = new_max_disk;
        proof {
            assert(self@ == spec_resize(
                cv,
                max_ram_cache,
                max_disk_cache,
                chosen_strategy(cleanse_strategy),
            ));
        }
        crate::tools::warn("resized the cache: requests will be handled again");
    }

    /// Bytes of memory currently occupied by the memory-resident entries.
    pub fn ram_used(&self) -> (r: u64)
        ensures
            r == self@.ram_used,
    {
        self.memdb_size
    }

    /// Bytes currently occupied by the disk tier's files.
    pub fn disk_used(&self) -> (r: u64)
        ensures
            r == self@.disk_used,
    {
        self.diskdb_size
    }
}

} // verus!
