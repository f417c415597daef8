use engramai::binary::{Binary32, Binary64};
use engramai::store::MemoryStore;
use engramai::types::{MemoryLayer, MemoryRecord, MemoryType, Timestamp};
use engramai::vector::cosine_similarity;

fn double(x: f64) -> Binary64 {
    Binary64 { bits: x.to_bits() }
}

fn single(x: f32) -> Binary32 {
    Binary32 { bits: x.to_bits() }
}

fn singles(v: &[f32]) -> Vec<Binary32> {
    v.iter().map(|x| single(*x)).collect()
}

fn value(x: Binary64) -> f64 {
    f64::from_bits(x.bits)
}

fn at(secs: i64) -> Timestamp {
    Timestamp { secs, nanos: 0 }
}

fn make_record(id: &str, content: &str) -> MemoryRecord {
    MemoryRecord {
        id: id.to_string(),
        content: content.to_string(),
        memory_type: MemoryType::Factual,
        layer: MemoryLayer::Working,
        created_at: at(1_700_000_000),
        access_times: vec![at(1_700_000_000)],
        working_strength: double(1.0),
        core_strength: double(0.0),
        importance: double(0.5),
        pinned: false,
        consolidation_count: 0,
        last_consolidated: None,
        source: String::new(),
        contradicts: None,
        contradicted_by: None,
        metadata: None,
        embedding: None,
    }
}

fn ids(v: &[MemoryRecord]) -> Vec<String> {
    v.iter().map(|r| r.id.clone()).collect()
}

#[test]
fn test_add_get() {
    let mut store = MemoryStore::new(None);
    let record = make_record("abc", "hello world");
    store.add(&record);
    let got = store.get("abc").unwrap();
    assert_eq!(got.content, "hello world");
}

#[test]
fn test_fts() {
    let mut store = MemoryStore::new(None);
    store.add(&make_record("1", "rust programming language"));
    store.add(&make_record("2", "python scripting language"));
    store.add(&make_record("3", "cooking recipes"));

    let results = store.search_fts("programming rust", 10);
    assert!(!results.is_empty());
    assert_eq!(results[0].id, "1");
}

#[test]
fn test_vector_search() {
    let mut store = MemoryStore::new(None);
    let mut r1 = make_record("1", "first");
    r1.embedding = Some(singles(&[1.0, 0.0, 0.0]));
    let mut r2 = make_record("2", "second");
    r2.embedding = Some(singles(&[0.0, 1.0, 0.0]));
    store.add(&r1);
    store.add(&r2);

    let results = store.search_vector(&singles(&[1.0, 0.1, 0.0]), 10, single(0.0));
    assert_eq!(results[0].0, "1");
}

#[test]
fn test_cosine_similarity() {
    let cos = |a: &[f32], b: &[f32]| {
        f32::from_bits(cosine_similarity(&singles(a), &singles(b)).bits)
    };
    assert!((cos(&[1.0, 0.0], &[1.0, 0.0]) - 1.0).abs() < 1e-6);
    assert!((cos(&[1.0, 0.0], &[0.0, 1.0])).abs() < 1e-6);
}

#[test]
fn cosine_has_exact_values() {
    let cos = |a: &[f32], b: &[f32]| {
        f32::from_bits(cosine_similarity(&singles(a), &singles(b)).bits)
    };
    assert_eq!(cos(&[3.0, 4.0], &[4.0, 3.0]), 24.0f32 / 25.0f32);
    assert_eq!(cos(&[1.0, 2.0, 2.0], &[-1.0, -2.0, -2.0]), -1.0);
    assert_eq!(cos(&[1.0, 2.0], &[1.0]), 0.0);
    assert_eq!(cos(&[], &[]), 0.0);
    assert_eq!(cos(&[0.0, 0.0], &[1.0, 1.0]), 0.0);
    let a = [0.1f32, 0.2, 0.3, 0.4, 0.5];
    let b = [0.9f32, -0.7, 0.3, 0.2, 0.11];
    let dot: f32 = a.iter().zip(b.iter()).map(|(x, y)| x * y).sum();
    let na: f32 = a.iter().map(|x| x * x).sum::<f32>().sqrt();
    let nb: f32 = b.iter().map(|x| x * x).sum::<f32>().sqrt();
    assert_eq!(cos(&a, &b), dot / (na * nb));
}

#[test]
fn search_ranks_by_hits_and_keeps_order_of_equals() {
    let mut store = MemoryStore::new(None);
    store.add(&make_record("a", "green apple"));
    store.add(&make_record("b", "green tea"));
    store.add(&make_record("c", "green apple tea"));
    store.add(&make_record("d", "black coffee"));
    assert_eq!(ids(&store.search_fts("GREEN apple, tea!", 10)), vec!["c", "a", "b"]);
    assert_eq!(ids(&store.search_fts("green apple tea", 2)), vec!["c", "a"]);
    assert_eq!(ids(&store.search_fts("apple apple tea", 10)), vec!["c", "a", "b"]);
    assert!(store.search_fts("the of and", 10).is_empty());
    assert!(store.search_fts("", 10).is_empty());
    assert!(store.search_fts("green", 0).is_empty());
}

#[test]
fn search_goes_by_lower_case_beyond_ascii() {
    let mut store = MemoryStore::new(None);
    store.add(&make_record("a", "\u{c9}COLE fran\u{e7}aise"));
    assert_eq!(ids(&store.search_fts("\u{e9}cole", 10)), vec!["a"]);
    assert!(store.search_fts("ecole", 10).is_empty());
}

#[test]
fn add_replaces_and_keeps_old_tokens() {
    let mut store = MemoryStore::new(None);
    store.add(&make_record("a", "alpha"));
    store.add(&make_record("b", "beta"));
    store.add(&make_record("a", "gamma"));
    assert_eq!(ids(&store.all()), vec!["a", "b"]);
    assert_eq!(store.get("a").unwrap().content, "gamma");
    assert_eq!(ids(&store.search_fts("alpha", 10)), vec!["a"]);
    store.update(&make_record("a", "gamma"));
    assert!(store.search_fts("alpha", 10).is_empty());
    assert_eq!(ids(&store.search_fts("gamma", 10)), vec!["a"]);
}

#[test]
fn delete_removes_memory_tokens_and_links() {
    let mut store = MemoryStore::new(None);
    for id in ["a", "b", "c"] {
        store.add(&make_record(id, "shared words"));
    }
    assert!(store.record_coactivation("a", "b", 1));
    assert!(store.record_coactivation("c", "b", 1));
    store.delete("b");
    assert!(store.get("b").is_none());
    assert_eq!(ids(&store.all()), vec!["a", "c"]);
    assert_eq!(ids(&store.search_fts("shared", 10)), vec!["a", "c"]);
    assert!(store.get_hebbian_neighbors("a").is_empty());
    assert!(store.get_hebbian_neighbors("c").is_empty());
    store.delete("nothing");
    assert_eq!(store.all().len(), 2);
}

#[test]
fn access_is_recorded() {
    let mut store = MemoryStore::new(None);
    store.add(&make_record("a", "alpha"));
    store.record_access_at("a", at(1_800_000_000));
    assert_eq!(store.get_access_times("a"), vec![at(1_700_000_000), at(1_800_000_000)]);
    store.record_access("a");
    let times = store.get_access_times("a");
    assert_eq!(times.len(), 3);
    let now = std::time::SystemTime::now()
        .duration_since(std::time::UNIX_EPOCH)
        .unwrap()
        .as_secs() as i64;
    assert!((times[2].secs - now).abs() <= 5);
    assert!(times[2].nanos < 1_000_000_000);
    assert!(store.get_access_times("b").is_empty());
    store.record_access("b");
    assert_eq!(store.all().len(), 1);
}

#[test]
fn search_by_type_filters() {
    let mut store = MemoryStore::new(None);
    let mut r = make_record("a", "alpha");
    r.memory_type = MemoryType::Opinion;
    store.add(&r);
    store.add(&make_record("b", "beta"));
    assert_eq!(ids(&store.search_by_type(MemoryType::Opinion)), vec!["a"]);
    assert_eq!(ids(&store.search_by_type(MemoryType::Factual)), vec!["b"]);
    assert!(store.search_by_type(MemoryType::Causal).is_empty());
}

#[test]
fn links_form_at_the_threshold() {
    let mut store = MemoryStore::new(None);
    for _ in 0..3 {
        assert!(!store.record_coactivation("y", "x", 4));
        assert!(store.get_hebbian_neighbors("x").is_empty());
    }
    let counted = store.export_hebbian_links();
    assert_eq!(counted.len(), 1);
    assert_eq!((counted[0].0.as_str(), counted[0].1.as_str()), ("x", "y"));
    assert_eq!(value(counted[0].2), -3.0);
    assert!(store.record_coactivation("x", "y", 4));
    assert_eq!(store.get_hebbian_neighbors("x"), vec!["y"]);
    assert_eq!(store.get_hebbian_neighbors("y"), vec!["x"]);
    assert_eq!(value(store.export_hebbian_links()[0].2), 1.0);
    assert!(!store.record_coactivation("y", "x", 4));
    assert_eq!(value(store.export_hebbian_links()[0].2), 1.0);
}

#[test]
fn decay_weakens_links_and_keeps_counts() {
    let mut store = MemoryStore::new(None);
    store.record_coactivation("a", "b", 1);
    store.record_coactivation("c", "d", 3);
    assert_eq!(store.decay_hebbian_links(double(0.5)), 0);
    let links = store.export_hebbian_links();
    assert_eq!(value(links[0].2), 0.5);
    assert_eq!(value(links[1].2), -1.0);
    store.record_coactivation("a", "b", 1);
    assert_eq!(value(store.export_hebbian_links()[0].2), 0.5 + 0.1);
    assert_eq!(store.decay_hebbian_links(double(0.1)), 1);
    let left = store.export_hebbian_links();
    assert_eq!(left.len(), 1);
    assert_eq!(value(left[0].2), -1.0);
}

#[test]
fn save_and_load_restore_the_store() {
    let mut store = MemoryStore::new(Some("some/where.bin".to_string()));
    store.add(&make_record("a", "alpha beta"));
    store.add(&make_record("b", "beta gamma"));
    store.record_coactivation("a", "b", 1);
    store.record_coactivation("a", "c", 5);
    let (path, image) = store.save().unwrap();
    assert_eq!(path, "some/where.bin");
    assert_eq!(image.version, 1);
    let mut other = MemoryStore::new(None);
    other.load(&image);
    assert_eq!(ids(&other.all()), vec!["a", "b"]);
    assert_eq!(ids(&other.search_fts("gamma", 10)), vec!["b"]);
    assert_eq!(other.get_hebbian_neighbors("a"), vec!["b"]);
    assert_eq!(other.export_hebbian_links().len(), 2);
    assert!(other.save().is_none());
}

#[test]
fn vector_search_orders_and_limits() {
    let mut store = MemoryStore::new(None);
    for (id, e) in [
        ("far", vec![-1.0f32, 0.0]),
        ("near", vec![1.0, 0.1]),
        ("same", vec![2.0, 0.0]),
        ("side", vec![0.0, 1.0]),
        ("short", vec![1.0]),
    ] {
        let mut r = make_record(id, id);
        r.embedding = Some(singles(&e));
        store.add(&r);
    }
    store.add(&make_record("none", "none"));
    let q = singles(&[1.0, 0.0]);
    let found: Vec<String> =
        store.search_vector(&q, 10, single(0.0)).into_iter().map(|x| x.0).collect();
    assert_eq!(found, vec!["same", "near", "side", "short"]);
    let best = store.search_vector(&q, 1, single(0.0));
    assert_eq!(best.len(), 1);
    assert_eq!(best[0].0, "same");
    assert_eq!(f32::from_bits(best[0].1.bits), 1.0);
    assert_eq!(store.search_vector(&q, 10, single(-1.0)).len(), 5);
    assert!(store.search_vector(&q, 10, single(f32::NAN)).is_empty());
}

#[test]
fn a_formed_link_makes_neighbors() {
    let mut store = MemoryStore::new(None);
    for threshold in [3, 3, 3, 3] {
        let before = store.get_hebbian_neighbors("b").contains(&"a".to_string());
        let formed = store.record_coactivation("b", "a", threshold);
        let after = store.get_hebbian_neighbors("b").contains(&"a".to_string());
        assert_eq!(formed, !before && after);
    }
    assert_eq!(store.get_hebbian_neighbors("a"), vec!["b"]);
    // The pair is kept in order, whichever memory is named first.
    assert_eq!(store.export_hebbian_links()[0].0, "a");
}
