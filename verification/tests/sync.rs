use std::collections::hash_map::DefaultHasher;
use std::hash::{Hash, Hasher};

use engramai::binary::Binary64;
use engramai::store::MemoryStore;
use engramai::sync::{content_hash, merge_snapshot, merge_snapshot_as, MergeReport, Snapshot};
use engramai::types::{MemoryLayer, MemoryRecord, MemoryType, Timestamp};

fn double(x: f64) -> Binary64 {
    Binary64 { bits: x.to_bits() }
}

fn value(x: Binary64) -> f64 {
    f64::from_bits(x.bits)
}

fn at(secs: i64) -> Timestamp {
    Timestamp { secs, nanos: 0 }
}

fn make_record(id: &str, content: &str) -> MemoryRecord {
    MemoryRecord {
        id: id.to_string(),
        content: content.to_string(),
        memory_type: MemoryType::Factual,
        layer: MemoryLayer::Working,
        created_at: at(1_700_000_000),
        access_times: vec![at(1_700_000_000)],
        working_strength: double(1.0),
        core_strength: double(0.0),
        importance: double(0.5),
        pinned: false,
        consolidation_count: 0,
        last_consolidated: None,
        source: String::new(),
        contradicts: None,
        contradicted_by: None,
        metadata: None,
        embedding: None,
    }
}

fn is_hex(s: &str) -> bool {
    s.chars().all(|c| matches!(c, '0'..='9' | 'a'..='f'))
}

#[test]
fn snapshot_holds_all_memories() {
    let mut store = MemoryStore::new(None);
    store.add(&make_record("a1", "hello world"));
    store.add(&make_record("b2", "rust programming"));
    store.add(&make_record("c3", "Hello World  "));

    let snapshot = Snapshot::from_store(&store);
    assert_eq!(snapshot.version, 1);
    assert_eq!(snapshot.memories.len(), 2);
    assert_eq!(snapshot.memories[0].1.id, "c3");
    assert_eq!(snapshot.memories[1].1.id, "b2");
    for (hash, record) in &snapshot.memories {
        assert_eq!(*hash, content_hash(record));
    }
    assert_eq!(snapshot.node_id.len(), 12);
    assert!(is_hex(&snapshot.node_id[..8]));
    assert_eq!(&snapshot.node_id[8..9], "-");
    assert!(is_hex(&snapshot.node_id[9..]));
    assert_ne!(snapshot.node_id, Snapshot::from_store(&store).node_id);
}

#[test]
fn test_merge_new_memories() {
    let mut local = MemoryStore::new(None);
    local.add(&make_record("a1", "local memory"));

    let mut remote = MemoryStore::new(None);
    remote.add(&make_record("b2", "remote memory"));

    let snapshot = Snapshot::from_store(&remote);
    let report = merge_snapshot(&mut local, &snapshot);

    assert_eq!(report.added, 1);
    assert_eq!(local.all().len(), 2);
}

#[test]
fn test_merge_idempotent() {
    let mut local = MemoryStore::new(None);
    local.add(&make_record("a1", "shared memory"));

    let snapshot = Snapshot::from_store(&local);

    // Import same snapshot twice
    let _report1 = merge_snapshot(&mut local, &snapshot);
    let report2 = merge_snapshot(&mut local, &snapshot);

    // Second import should skip everything
    assert_eq!(report2.added, 0);
    assert_eq!(local.all().len(), 1);
}

#[test]
fn test_merge_strength_max_wins() {
    let mut local = MemoryStore::new(None);
    let mut rec = make_record("a1", "test memory");
    rec.working_strength = double(0.5);
    rec.core_strength = double(0.3);
    local.add(&rec);

    // Remote has higher strengths
    let mut remote = MemoryStore::new(None);
    let mut remote_rec = make_record("a1", "test memory");
    remote_rec.working_strength = double(0.8);
    remote_rec.core_strength = double(0.1); // lower core
    remote.add(&remote_rec);

    let snapshot = Snapshot::from_store(&remote);
    let report = merge_snapshot(&mut local, &snapshot);

    assert_eq!(report.updated, 1);
    let merged = local.all();
    assert_eq!(merged.len(), 1);
    // Max-wins: working=0.8 (remote), core=0.3 (local)
    assert!((value(merged[0].working_strength) - 0.8).abs() < 0.01);
    assert!((value(merged[0].core_strength) - 0.3).abs() < 0.01);
}

#[test]
fn content_hash_is_that_of_the_standard_hasher() {
    let mut r = make_record("x", "  \u{c4}pfel und Birnen \n");
    r.memory_type = MemoryType::Procedural;
    r.source = "garden".to_string();
    let mut hasher = DefaultHasher::new();
    r.content.trim().to_lowercase().hash(&mut hasher);
    "procedural".to_string().hash(&mut hasher);
    r.source.hash(&mut hasher);
    assert_eq!(content_hash(&r), format!("{:016x}", hasher.finish()));
    let mut same = make_record("y", "\u{e4}PFEL UND birnen");
    same.memory_type = MemoryType::Procedural;
    same.source = "garden".to_string();
    same.importance = double(0.9);
    assert_eq!(content_hash(&same), content_hash(&r));
    same.source = "market".to_string();
    assert_ne!(content_hash(&same), content_hash(&r));
}

#[test]
fn merge_joins_times_counts_and_pins() {
    let mut local = MemoryStore::new(None);
    let mut rec = make_record("a1", "test memory");
    rec.access_times = vec![at(30), at(10)];
    rec.consolidation_count = 5;
    local.add(&rec);
    let mut remote = MemoryStore::new(None);
    let mut other = make_record("b1", "Test Memory");
    other.access_times = vec![at(20), at(10), at(20), at(5)];
    other.consolidation_count = 2;
    other.pinned = true;
    other.importance = double(0.75);
    remote.add(&other);

    let report = merge_snapshot(&mut local, &Snapshot::from_store(&remote));
    assert_eq!(report, MergeReport { added: 0, updated: 1, skipped: 0, links_merged: 0 });
    let m = local.get("a1").unwrap();
    assert_eq!(m.content, "test memory");
    assert_eq!(m.access_times, vec![at(5), at(10), at(20), at(30)]);
    assert_eq!(m.consolidation_count, 5);
    assert!(m.pinned);
    assert_eq!(value(m.importance), 0.75);
}

#[test]
fn merge_skips_what_brings_nothing() {
    let mut local = MemoryStore::new(None);
    local.add(&make_record("a1", "test memory"));
    let mut remote = MemoryStore::new(None);
    let mut other = make_record("b1", "test memory");
    other.working_strength = double(0.9);
    other.pinned = true;
    remote.add(&other);
    let report = merge_snapshot(&mut local, &Snapshot::from_store(&remote));
    assert_eq!(report, MergeReport { added: 0, updated: 0, skipped: 1, links_merged: 0 });
    assert!(!local.get("a1").unwrap().pinned);
}

#[test]
fn merge_renames_on_collision() {
    let mut local = MemoryStore::new(None);
    local.add(&make_record("a1", "local memory"));
    let mut remote = MemoryStore::new(None);
    remote.add(&make_record("a1", "remote memory"));
    let snapshot = Snapshot::from_store(&remote);

    let mut other = MemoryStore::new(None);
    other.add(&make_record("a1", "local memory"));
    merge_snapshot_as(&mut other, &snapshot, &vec!["fresh".to_string()]);
    assert_eq!(other.get("a1").unwrap().content, "local memory");
    assert_eq!(other.get("fresh").unwrap().content, "remote memory");

    let report = merge_snapshot(&mut local, &snapshot);
    assert_eq!(report.added, 1);
    let all = local.all();
    assert_eq!(all.len(), 2);
    assert_eq!(all[0].id, "a1");
    assert_eq!(all[1].content, "remote memory");
    assert_eq!(all[1].id.len(), 8);
    assert!(is_hex(&all[1].id));
    // Merged again, nothing is new.
    let again = merge_snapshot(&mut local, &snapshot);
    assert_eq!(again, MergeReport { added: 0, updated: 0, skipped: 1, links_merged: 0 });
    assert_eq!(local.all().len(), 2);
}

#[test]
fn merge_takes_the_stronger_link() {
    let mut local = MemoryStore::new(None);
    local.record_coactivation("a", "b", 1);
    local.decay_hebbian_links(double(0.5));
    local.record_coactivation("c", "d", 3);
    let mut remote = MemoryStore::new(None);
    remote.record_coactivation("a", "b", 1);
    remote.decay_hebbian_links(double(0.75));
    remote.record_coactivation("c", "d", 1);
    remote.decay_hebbian_links(double(0.8));
    remote.record_coactivation("e", "f", 2);
    let snapshot = Snapshot::from_store(&remote);
    let report = merge_snapshot(&mut local, &snapshot);
    assert_eq!(report.links_merged, 2);
    let weights: Vec<(String, f64)> =
        local.export_hebbian_links().into_iter().map(|l| (l.0, value(l.2))).collect();
    assert_eq!(weights, vec![("a".to_string(), 0.75 * 0.8), ("c".to_string(), 0.8)]);
    // Merged again, nothing changes.
    merge_snapshot(&mut local, &snapshot);
    let again: Vec<(String, f64)> =
        local.export_hebbian_links().into_iter().map(|l| (l.0, value(l.2))).collect();
    assert_eq!(again, weights);
}

#[test]
fn stores_converge_after_both_merges() {
    let mut a = MemoryStore::new(None);
    let mut b = MemoryStore::new(None);
    a.add(&make_record("1", "one"));
    a.add(&make_record("2", "two"));
    b.add(&make_record("1", "three"));
    b.add(&make_record("9", "TWO"));
    let sa = Snapshot::from_store(&a);
    let sb = Snapshot::from_store(&b);
    merge_snapshot(&mut a, &sb);
    merge_snapshot(&mut b, &sa);
    let mut ha: Vec<String> = a.all().iter().map(content_hash).collect();
    let mut hb: Vec<String> = b.all().iter().map(content_hash).collect();
    ha.sort();
    hb.sort();
    assert_eq!(ha.len(), 3);
    assert_eq!(ha, hb);
}

#[test]
fn strengths_converge_after_both_merges() {
    let mut a = MemoryStore::new(None);
    let mut b = MemoryStore::new(None);
    let mut x = make_record("1", "one");
    x.working_strength = double(0.25);
    x.core_strength = double(0.75);
    a.add(&x);
    let mut y = make_record("2", "One");
    y.working_strength = double(0.5);
    y.core_strength = double(0.125);
    y.importance = double(0.0625);
    b.add(&y);
    let sa = Snapshot::from_store(&a);
    let sb = Snapshot::from_store(&b);
    merge_snapshot(&mut a, &sb);
    merge_snapshot(&mut b, &sa);
    for m in [&a.all()[0], &b.all()[0]] {
        assert_eq!(value(m.working_strength), 0.5);
        assert_eq!(value(m.core_strength), 0.75);
        assert_eq!(value(m.importance), 0.5);
    }
}

#[test]
fn default_report_is_empty() {
    let r = MergeReport::default();
    assert_eq!((r.added, r.updated, r.skipped, r.links_merged), (0, 0, 0, 0));
}

#[test]
fn stores_converge_in_turn() {
    let mut a = MemoryStore::new(None);
    let mut b = MemoryStore::new(None);
    let mut shared = make_record("m1", "shared thing");
    shared.working_strength = double(0.9);
    shared.importance = double(0.2);
    a.add(&shared);
    shared.id = "m2".to_string();
    shared.working_strength = double(0.4);
    shared.importance = double(0.7);
    b.add(&shared);
    a.add(&make_record("m2", "only here"));
    b.add(&make_record("m1", "only there"));
    a.record_coactivation("x", "y", 1);

    merge_snapshot(&mut b, &Snapshot::from_store(&a));
    merge_snapshot(&mut a, &Snapshot::from_store(&b));

    let figures = |store: &MemoryStore| {
        let mut v: Vec<(String, f64, f64, f64)> = store
            .all()
            .iter()
            .map(|r| {
                let hash = content_hash(r);
                (hash, value(r.working_strength), value(r.core_strength), value(r.importance))
            })
            .collect();
        v.sort_by(|x, y| x.0.cmp(&y.0));
        v
    };
    let found = figures(&a);
    assert_eq!(found.len(), 3);
    assert_eq!(found, figures(&b));
    let hash = content_hash(&shared);
    assert!(found.contains(&(hash, 0.9, 0.0, 0.7)));
    assert_eq!(a.export_hebbian_links(), b.export_hebbian_links());
}

#[test]
fn content_hashes_are_sixteen_digits() {
    for content in ["", "a", "Hello World", "\u{6f22}\u{5b57}"] {
        let hash = content_hash(&make_record("m", content));
        assert_eq!(hash.len(), 16);
        assert!(is_hex(&hash));
    }
}

#[test]
fn snapshots_have_the_time() {
    let t = Snapshot::from_store(&MemoryStore::new(None)).created_at;
    assert!(t.secs > 1_600_000_000);
    assert!(t.nanos < 1_000_000_000);
}
