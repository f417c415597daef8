use engramai::binary::{Binary32, Binary64};
use engramai::links::coactivation_pairs;
use engramai::types::{MemoryLayer, MemoryRecord, MemoryType, Timestamp};
use engramai::{pg, sqlite};

fn double(x: f64) -> Binary64 {
    Binary64 { bits: x.to_bits() }
}

fn single(x: f32) -> Binary32 {
    Binary32 { bits: x.to_bits() }
}

fn sample() -> MemoryRecord {
    MemoryRecord {
        id: "abc".to_string(),
        content: "hello".to_string(),
        memory_type: MemoryType::Emotional,
        layer: MemoryLayer::Archive,
        created_at: Timestamp { secs: 851_042_397, nanos: 120_000_000 },
        access_times: vec![Timestamp { secs: 1, nanos: 2 }],
        working_strength: double(0.1),
        core_strength: double(0.2),
        importance: double(0.3),
        pinned: true,
        consolidation_count: 7,
        last_consolidated: Some(Timestamp { secs: 1_700_000_000, nanos: 0 }),
        source: "s".to_string(),
        contradicts: Some("x".to_string()),
        contradicted_by: None,
        metadata: Some("{\"b\": 1, \"a\": [true, null]}".to_string()),
        embedding: Some(vec![single(1.5), single(-0.25)]),
    }
}

#[test]
fn sqlite_row_round_trip() {
    let r = sample();
    let row = sqlite::record_to_row(&r).unwrap();
    assert_eq!(row.memory_type, "emotional");
    assert_eq!(row.layer, "archive");
    assert_eq!(row.created_at, "1996-12-20T00:39:57.120+00:00");
    assert_eq!(row.last_consolidated.as_deref(), Some("2023-11-14T22:13:20+00:00"));
    assert_eq!(row.pinned, 1);
    assert_eq!(row.embedding, Some(vec![0, 0, 0xc0, 0x3f, 0, 0, 0x80, 0xbe]));
    let back = sqlite::row_to_record(row, r.access_times.clone());
    assert_eq!(back.id, r.id);
    assert_eq!(back.content, r.content);
    assert_eq!(back.memory_type, r.memory_type);
    assert_eq!(back.layer, r.layer);
    assert_eq!(back.created_at, r.created_at);
    assert_eq!(back.access_times, r.access_times);
    assert_eq!(back.working_strength, r.working_strength);
    assert_eq!(back.core_strength, r.core_strength);
    assert_eq!(back.importance, r.importance);
    assert_eq!(back.pinned, r.pinned);
    assert_eq!(back.consolidation_count, r.consolidation_count);
    assert_eq!(back.last_consolidated, r.last_consolidated);
    assert_eq!(back.source, r.source);
    assert_eq!(back.contradicts, r.contradicts);
    assert_eq!(back.contradicted_by, r.contradicted_by);
    assert_eq!(back.metadata.as_deref(), Some("{\"a\":[true,null],\"b\":1}"));
    assert_eq!(back.embedding, r.embedding);
}

#[test]
fn sqlite_row_with_unreadable_parts() {
    let mut row = sqlite::record_to_row(&sample()).unwrap();
    row.memory_type = "unheard of".to_string();
    row.layer = "cellar".to_string();
    row.created_at = "yesterday".to_string();
    row.last_consolidated = Some("never".to_string());
    row.metadata = Some("{".to_string());
    row.pinned = 0;
    row.embedding = Some(vec![0, 0, 0xc0, 0x3f, 9]);
    let fallback = Timestamp { secs: 5, nanos: 6 };
    let r = sqlite::row_to_record_at(row, vec![], fallback);
    assert_eq!(r.memory_type, MemoryType::Factual);
    assert_eq!(r.layer, MemoryLayer::Working);
    assert_eq!(r.created_at, fallback);
    assert_eq!(r.last_consolidated, None);
    assert_eq!(r.metadata, None);
    assert!(!r.pinned);
    assert_eq!(r.embedding, Some(vec![single(1.5)]));
}

#[test]
fn times_outside_of_the_calendar_have_no_row() {
    let mut r = sample();
    r.created_at = Timestamp { secs: i64::MAX, nanos: 0 };
    assert!(sqlite::record_to_row(&r).is_none());
    assert!(sqlite::time_to_text(r.created_at).is_none());
}

#[test]
fn times_are_printed_and_read() {
    let first = Timestamp { secs: -62_167_219_200, nanos: 0 };
    let last = Timestamp { secs: 253_402_300_799, nanos: 999_999_999 };
    assert_eq!(sqlite::time_to_text(first).unwrap(), "0000-01-01T00:00:00+00:00");
    assert_eq!(sqlite::time_to_text(last).unwrap(), "9999-12-31T23:59:59.999999999+00:00");
    let texts = vec![
        sqlite::time_to_text(first).unwrap(),
        "noon".to_string(),
        sqlite::time_to_text(last).unwrap(),
        "1970-01-01T02:00:00.5+02:00".to_string(),
    ];
    let half = Timestamp { secs: 0, nanos: 500_000_000 };
    assert_eq!(sqlite::texts_to_times(&texts), vec![first, last, half]);
}

#[test]
fn database_urls() {
    assert_eq!(sqlite::database_url(":memory:"), "sqlite::memory:");
    assert_eq!(sqlite::database_url("sqlite:x.db"), "sqlite:x.db");
    assert_eq!(sqlite::database_url("x.db"), "sqlite:x.db?mode=rwc");
    assert_eq!(sqlite::database_url("sqlit"), "sqlite:sqlit?mode=rwc");
}

#[test]
fn full_text_queries() {
    assert_eq!(
        sqlite::fts_query("Rust's (safe) a code").as_deref(),
        Some("Rust OR safe OR code")
    );
    assert!(sqlite::fts_query("a - b").is_none());
    assert_eq!(pg::tsquery("  rust   is\u{a0}fast\n"), "rust | is | fast");
    assert_eq!(pg::tsquery(" "), "");
}

#[test]
fn sqlite_cosine() {
    let v = |x: &[f32]| x.iter().map(|y| single(*y)).collect::<Vec<_>>();
    let cos = |a: &[f32], b: &[f32]| {
        f32::from_bits(sqlite::cosine_similarity(&v(a), &v(b)).bits)
    };
    assert_eq!(cos(&[3.0, 4.0], &[4.0, 3.0]), 24.0f32 / 25.0f32);
    assert_eq!(cos(&[1e-6, 0.0], &[1e-6, 0.0]), 0.0);
    assert_eq!(cos(&[1.0], &[1.0, 2.0]), 0.0);
    assert_eq!(cos(&[], &[]), 0.0);
}

#[test]
fn sqlite_vector_search() {
    let blob = |x: &[f32]| x.iter().flat_map(|f| f.to_le_bytes()).collect::<Vec<u8>>();
    let rows = vec![
        ("side".to_string(), blob(&[0.0, 1.0])),
        ("same".to_string(), blob(&[2.0, 0.0])),
        ("near".to_string(), blob(&[1.0, 0.5])),
        ("far".to_string(), blob(&[-1.0, 0.0])),
    ];
    let q = vec![single(1.0), single(0.0)];
    let found: Vec<String> = sqlite::search_vector(&rows, &q, 10, single(0.0))
        .into_iter()
        .map(|x| x.0)
        .collect();
    assert_eq!(found, vec!["same", "near", "side"]);
    assert_eq!(sqlite::search_vector(&rows, &q, 1, single(0.0)).len(), 1);
}

#[test]
fn pg_row_round_trip() {
    let r = sample();
    let row = pg::record_to_row(&r);
    assert_eq!(row.memory_type, "emotional");
    let back = pg::row_to_record(row, r.access_times.clone());
    assert_eq!(back.id, r.id);
    assert_eq!(back.created_at, r.created_at);
    assert_eq!(back.layer, MemoryLayer::Archive);
    assert_eq!(back.metadata, r.metadata);
    assert_eq!(back.embedding, None);
}

#[test]
fn pg_scores_are_narrowed() {
    let rows = vec![
        ("a".to_string(), double(0.9)),
        ("b".to_string(), double(0.1)),
        ("c".to_string(), double(f64::NAN)),
    ];
    let kept = pg::keep_similar(&rows, single(0.5));
    assert_eq!(kept, vec![("a".to_string(), single(0.9f64 as f32))]);
}

#[test]
fn pairs_are_ordered() {
    let ids: Vec<String> = ["c", "a", "b"].iter().map(|s| s.to_string()).collect();
    let p: Vec<(String, String)> = coactivation_pairs(&ids);
    let flat: Vec<(&str, &str)> = p.iter().map(|x| (x.0.as_str(), x.1.as_str())).collect();
    assert_eq!(flat, vec![("a", "c"), ("b", "c"), ("a", "b")]);
}

#[test]
fn a_new_memory_is_accessed_when_it_is_created() {
    let mut r = sample();
    r.access_times = vec![Timestamp { secs: 5, nanos: 0 }, Timestamp { secs: 6, nanos: 0 }];
    let (row, accesses) = sqlite::record_to_insert(&r).unwrap();
    assert_eq!(accesses, vec!["1996-12-20T00:39:57.120+00:00"]);
    let back = sqlite::row_to_record(row, sqlite::texts_to_times(&accesses));
    assert_eq!(back.access_times, vec![r.created_at]);
    assert_eq!(back.created_at, r.created_at);
    assert_eq!(back.embedding, r.embedding);
    assert_eq!(back.metadata.as_deref(), Some("{\"a\":[true,null],\"b\":1}"));
    r.created_at = Timestamp { secs: i64::MAX, nanos: 0 };
    assert!(sqlite::record_to_insert(&r).is_none());
}

#[test]
fn leap_seconds_are_printed_and_read() {
    for (secs, nanos, text) in [
        (1_483_228_799, 1_500_000_000, "2016-12-31T23:59:60.500+00:00"),
        (1_483_228_799, 1_000_000_000, "2016-12-31T23:59:60+00:00"),
        (253_402_300_799, 1_999_999_999, "9999-12-31T23:59:60.999999999+00:00"),
        (-1, 1_000_001_000, "1969-12-31T23:59:60.000001+00:00"),
    ] {
        let t = Timestamp { secs, nanos };
        let printed = sqlite::time_to_text(t).unwrap();
        assert_eq!(printed, text);
        assert_eq!(sqlite::texts_to_times(&vec![printed]), vec![t]);
    }
    assert!(sqlite::time_to_text(Timestamp { secs: 0, nanos: 1_000_000_000 }).is_none());
    assert!(sqlite::time_to_text(Timestamp { secs: 59, nanos: 2_000_000_000 }).is_none());
}
