use rust_fast_cache::cache::{Cache, CleanseStrategy};
use rust_fast_cache::disk::DiskStore;
use rust_fast_cache::memdb::{DatabaseItem, FastDB};
use rust_fast_cache::tools::{debug, error, get_nano_time, log, warn};

// One entry's bookkeeping overhead: the payload slot (24) plus the counter
// (8), the stamp (16) and the path slot (24).
const OVERHEAD: u64 = 72;

#[test]
fn footprint_formulas() {
    let item = DatabaseItem {
        value: Some(vec![1, 2, 3]),
        last_access: 0,
        access_counter: 0,
        filepath: None,
    };
    assert_eq!(item.get_value_mem_size(), 3 + 24);
    assert_eq!(item.get_mem_size(), 3 + OVERHEAD);

    let bare = DatabaseItem {
        value: None,
        last_access: 0,
        access_counter: 0,
        filepath: Some(String::from("somewhere")),
    };
    assert_eq!(bare.get_value_mem_size(), 24);
    assert_eq!(bare.get_mem_size(), OVERHEAD);

    let disk = DiskStore::new();
    assert_eq!(bare.get_disk_size("k", &disk), 0);
}

#[test]
fn accounting_tracks_resident_footprints() {
    let mut c = Cache::default();
    assert_eq!(c.ram_used(), 0);

    c.insert_cache_item_at(String::from("k1"), vec![0u8; 10], 1);
    assert_eq!(c.ram_used(), 10 + OVERHEAD);

    c.insert_cache_item_at(String::from("k2"), vec![0u8; 20], 2);
    assert_eq!(c.ram_used(), (10 + OVERHEAD) + (20 + OVERHEAD));

    // reads change bookkeeping, never the accounting
    c.get_cache_item_at("k1", 3);
    assert_eq!(c.ram_used(), (10 + OVERHEAD) + (20 + OVERHEAD));

    c.remove_cache_item("k1");
    assert_eq!(c.ram_used(), 20 + OVERHEAD);

    // an overwrite first removes the old entry, then accounts the new one
    c.insert_cache_item_at(String::from("k2"), vec![0u8; 5], 4);
    assert_eq!(c.ram_used(), 5 + OVERHEAD);
}

#[test]
fn round_trip_memory_and_disk() {
    let mut c = Cache::default();
    let payload: Vec<u8> = (0..200).map(|i| (i % 251) as u8).collect();
    c.insert_cache_item_at(String::from("k"), payload.clone(), 1);

    assert_eq!(c.get_cache_value_at("k", 2), Some(payload.clone()));

    // demote everything, then read transparently from the disk tier
    c.resize_cache(Some(0), None, None);
    assert_eq!(c.ram_used(), 0);
    let item = c.get_cache_item_at("k", 3).unwrap();
    assert!(item.value.is_none());
    assert!(item.filepath.is_some());
    assert_eq!(
        item.filepath.as_deref(),
        Some("cache/k/cachefile"),
        "demotion records the file under <cache_path>/<key>/cachefile"
    );
    assert_eq!(c.get_cache_value_at("k", 4), Some(payload));
}

#[test]
fn idempotent_remove() {
    let mut c = Cache::default();
    c.insert_cache_item_at(String::from("present"), vec![9u8; 30], 1);
    let used = c.ram_used();

    assert!(c.remove_cache_item("missing").is_none());
    assert_eq!(c.ram_used(), used);

    // and again, still without an error
    assert!(c.remove_cache_item("missing").is_none());
    assert_eq!(c.ram_used(), used);
}

#[test]
fn overwrite_cleans_old_tier() {
    let mut c = Cache::default();
    c.insert_cache_item_at(String::from("k"), vec![1u8; 40], 1);
    c.resize_cache(Some(0), None, None);
    assert_eq!(c.disk_used(), 40, "the old payload sits on disk");

    c.insert_cache_item_at(String::from("k"), vec![2u8; 8], 2);
    assert_eq!(c.disk_used(), 0, "no file remains under the key");
    let item = c.get_cache_item_at("k", 3).unwrap();
    assert!(item.filepath.is_none());
    assert_eq!(item.value, Some(vec![2u8; 8]));
}

#[test]
fn end_to_end_demote_all() {
    let mut c = Cache::default();
    let mut payloads: Vec<Vec<u8>> = Vec::new();
    for i in 0..25u8 {
        let payload = vec![i; 10 * 1024];
        payloads.push(payload.clone());
        c.insert_cache_item(format!("K_{}", i), payload);
    }
    assert_eq!(c.ram_used(), 25 * (10 * 1024 + OVERHEAD));

    c.resize_cache(Some(0), None, None);
    assert_eq!(c.ram_used(), 0, "every entry was demoted");
    assert_eq!(c.disk_used(), 25 * 10 * 1024);

    for i in 0..25u8 {
        let got = c.get_cache_value(format!("K_{}", i));
        assert_eq!(got, Some(payloads[i as usize].clone()));
    }
}

/// Entries `A(count=5, t=100)`, `B(count=1, t=200)`, `C(count=1, t=50)`,
/// inserted in the order A, B, C.
fn build_abc() -> Cache {
    let mut c = Cache::default();
    c.insert_cache_item_at(String::from("A"), vec![1u8; 10], 1);
    c.insert_cache_item_at(String::from("B"), vec![2u8; 10], 2);
    c.insert_cache_item_at(String::from("C"), vec![3u8; 10], 3);
    c.get_cache_item_at("A", 60);
    c.get_cache_item_at("A", 70);
    c.get_cache_item_at("A", 80);
    c.get_cache_item_at("A", 90);
    c.get_cache_item_at("A", 100);
    c.get_cache_item_at("B", 200);
    c.get_cache_item_at("C", 50);
    c
}

/// Demotes exactly the first `n` candidates of the strategy's order (each
/// entry of `build_abc` has the same footprint, 82 bytes).
fn demote_first(c: &mut Cache, n: u64, strategy: CleanseStrategy) {
    let footprint = 10 + OVERHEAD;
    let to_free = (n - 1) * footprint + 1;
    let used = c.ram_used();
    c.resize_cache(Some(used - to_free), None, Some(strategy));
}

fn resident(c: &mut Cache, key: &str) -> bool {
    c.get_cache_item_at(key, 0).unwrap().value.is_some()
}

#[test]
fn strategy_ordering_combined() {
    // Combined sorts by (count, stamp): C(1,50), B(1,200), A(5,100).
    let mut c = build_abc();
    demote_first(&mut c, 1, CleanseStrategy::Combined);
    assert!(!resident(&mut c, "C"));
    assert!(resident(&mut c, "B"));
    assert!(resident(&mut c, "A"));

    let mut c = build_abc();
    demote_first(&mut c, 2, CleanseStrategy::Combined);
    assert!(!resident(&mut c, "C"));
    assert!(!resident(&mut c, "B"));
    assert!(resident(&mut c, "A"));
}

#[test]
fn strategy_ordering_least_used() {
    // LeastUsed sorts by count alone; the B/C tie keeps the snapshot
    // (insertion) order: B, C, A.
    let mut c = build_abc();
    demote_first(&mut c, 1, CleanseStrategy::LeastUsed);
    assert!(!resident(&mut c, "B"));
    assert!(resident(&mut c, "C"));
    assert!(resident(&mut c, "A"));

    let mut c = build_abc();
    demote_first(&mut c, 2, CleanseStrategy::LeastUsed);
    assert!(!resident(&mut c, "B"));
    assert!(!resident(&mut c, "C"));
    assert!(resident(&mut c, "A"));
}

#[test]
fn strategy_ordering_last_access() {
    // LastAccess sorts by stamp alone: C(50), A(100), B(200).
    let mut c = build_abc();
    demote_first(&mut c, 1, CleanseStrategy::LastAccess);
    assert!(!resident(&mut c, "C"));
    assert!(resident(&mut c, "A"));
    assert!(resident(&mut c, "B"));

    let mut c = build_abc();
    demote_first(&mut c, 2, CleanseStrategy::LastAccess);
    assert!(!resident(&mut c, "C"));
    assert!(!resident(&mut c, "A"));
    assert!(resident(&mut c, "B"));
}

#[test]
fn disk_cleanup_evicts_entirely() {
    let mut c = Cache::default();
    c.insert_cache_item_at(String::from("x"), vec![1u8; 10], 1);
    c.insert_cache_item_at(String::from("y"), vec![2u8; 10], 2);
    c.insert_cache_item_at(String::from("z"), vec![3u8; 10], 3);
    c.resize_cache(Some(0), None, None);
    assert_eq!(c.disk_used(), 30);

    // reclaim 20 bytes of disk: the two earliest-inserted entries leave
    // entirely (equal counts and ascending stamps sort them x, y, z)
    c.resize_cache(None, Some(10), None);
    assert_eq!(c.disk_used(), 10);
    assert!(c.get_cache_value_at("x", 4).is_none());
    assert!(c.get_cache_value_at("y", 5).is_none());
    assert_eq!(c.get_cache_value_at("z", 6), Some(vec![3u8; 10]));
}

#[test]
fn empty_payload_stays_demoted() {
    let mut c = Cache::default();
    c.insert_cache_item_at(String::from("empty"), Vec::new(), 1);
    c.resize_cache(Some(0), None, None);
    assert_eq!(c.ram_used(), 0);
    assert_eq!(c.disk_used(), 0, "an empty payload makes an empty file");
    assert_eq!(c.get_cache_value_at("empty", 2), Some(Vec::new()));

    // a second pass must not select the already-demoted entry again, even
    // though its file is empty
    c.insert_cache_item_at(String::from("other"), vec![5u8; 10], 3);
    c.resize_cache(Some(0), None, None);
    assert_eq!(c.ram_used(), 0);
    assert_eq!(c.get_cache_value_at("empty", 4), Some(Vec::new()));
    assert_eq!(c.get_cache_value_at("other", 5), Some(vec![5u8; 10]));
}

#[test]
fn disk_store_holds_one_file_per_key() {
    let mut d = DiskStore::new();
    assert_eq!(d.size_for("a"), 0);
    assert!(d.read("a").is_none());

    assert_eq!(d.write(String::from("a"), vec![1, 2, 3]), 0);
    assert_eq!(d.size_for("a"), 3);
    assert_eq!(d.read("a"), Some(&vec![1, 2, 3]));

    // a second write replaces the file and reports what it replaced
    assert_eq!(d.write(String::from("a"), vec![9]), 3);
    assert_eq!(d.read("a"), Some(&vec![9]));

    assert_eq!(d.delete("a"), 1);
    assert!(d.read("a").is_none());
    assert_eq!(d.delete("a"), 0);
}

#[test]
fn memdb_set_replaces_in_place() {
    let mut db = FastDB::default();
    let fresh = |v: Vec<u8>| DatabaseItem {
        value: Some(v),
        last_access: 7,
        access_counter: 0,
        filepath: None,
    };
    assert!(db.set(String::from("k"), fresh(vec![1])).is_none());
    let old = db.set(String::from("k"), fresh(vec![2, 3])).unwrap();
    assert_eq!(old.value, Some(vec![1]));
    assert_eq!(db.get("k").unwrap().value, Some(vec![2, 3]));
    assert!(db.get("other").is_none());
}

#[test]
fn tier_exclusivity_observable() {
    let mut c = Cache::default();
    c.insert_cache_item_at(String::from("k"), vec![1u8; 10], 1);

    // resident: payload set, no disk location
    let before = c.get_cache_item_at("k", 2).unwrap();
    assert!(before.value.is_some() || before.filepath.is_some());
    assert!(before.value.is_some() && before.filepath.is_none());

    // demoted: no payload, disk location set — never both unset
    c.resize_cache(Some(0), None, None);
    let after = c.get_cache_item_at("k", 3).unwrap();
    assert!(after.value.is_some() || after.filepath.is_some());
    assert!(after.value.is_none() && after.filepath.is_some());
}

#[test]
fn logger_and_clock() {
    debug("a debug line");
    log("a log line");
    warn("a warn line");
    error("an error line");
    let t = get_nano_time();
    assert!(t > 0);
}
