use engramai::binary::{Binary32, Binary64};
use engramai::memory::{Candidate, Memory};
use engramai::types::{MemoryConfig, MemoryLayer, MemoryRecord, MemoryType, RetrievalConfig, Timestamp};

fn double(x: f64) -> Binary64 {
    Binary64 { bits: x.to_bits() }
}

fn value(x: Binary64) -> f64 {
    f64::from_bits(x.bits)
}

fn singles(v: &[f32]) -> Vec<Binary32> {
    v.iter().map(|x| Binary32 { bits: x.to_bits() }).collect()
}

fn config() -> MemoryConfig {
    MemoryConfig {
        actr_decay: double(0.5),
        context_weight: double(1.5),
        importance_weight: double(0.5),
        contradiction_penalty: double(3.0),
        hebbian_enabled: true,
        hebbian_threshold: 3,
        hebbian_decay: double(0.95),
        forget_threshold: double(0.01),
        reward_magnitude: double(0.15),
        downscale_factor: double(0.95),
    }
}

fn retrieval() -> RetrievalConfig {
    RetrievalConfig {
        cognitive_weight: double(0.5),
        semantic_weight: double(0.3),
        keyword_weight: double(0.2),
        mmr_lambda: double(0.7),
        min_content_length: 3,
        candidate_multiplier: 3,
    }
}

fn new_memory(path: &str) -> Memory {
    Memory::new(path, config(), retrieval())
}

/// Short greetings and thanks are noise.
fn is_noise(content: &str) -> bool {
    matches!(content, "ok" | "thanks")
}

fn add(mem: &mut Memory, content: &str, t: MemoryType, importance: Option<f64>) -> String {
    let importance = importance.map(double);
    mem.add(content, t, importance, double(0.3), None, None, is_noise(content))
}

/// The memories that share words with a query, each with the same score.
fn find(mem: &Memory, query: &str, limit: usize) -> Vec<Candidate> {
    mem.storage()
        .search_fts(query, limit)
        .into_iter()
        .map(|record| Candidate { record, score: double(1.0) })
        .collect()
}

fn strengths(mem: &Memory) -> Vec<Binary64> {
    mem.storage().all().iter().map(|r| r.working_strength.add(r.core_strength)).collect()
}

#[test]
fn test_basic_workflow() {
    let mut mem = new_memory("test.db");

    // Add memories
    let id1 = add(&mut mem, "potato prefers action", MemoryType::Relational, Some(0.7));

    let _id2 = add(&mut mem, "Use moltbook.com for API", MemoryType::Procedural, Some(0.8));

    // Recall
    let found = find(&mem, "potato preference", 5);
    let results = mem.recall(&found, None);
    assert!(!results.is_empty());
    assert!(results[0].record.content.contains("potato"));

    // Pin
    mem.pin(&id1);

    // Consolidate
    mem.consolidate(&vec![]);

    // Stats
    let stats = mem.stats(&strengths(&mem));
    assert_eq!(stats.total_memories, 2);
    assert_eq!(stats.pinned, 1);
}

#[test]
fn test_hebbian_links() {
    let mut mem = new_memory("test.db");

    let id1 = add(&mut mem, "Python is a programming language", MemoryType::Factual, None);

    let id2 = add(&mut mem, "Python has dynamic typing", MemoryType::Factual, None);

    // Recall them together multiple times to form Hebbian link
    for _ in 0..4 {
        let found = find(&mem, "Python programming", 10);
        let _results = mem.recall(&found, None);
    }

    // Check if link was formed
    let links = mem.hebbian_links(&id1);
    assert!(!links.is_empty() || mem.hebbian_links(&id2).contains(&id1));
}

#[test]
fn test_forgetting() {
    let mut mem = new_memory("test.db");

    add(&mut mem, "Weak memory", MemoryType::Episodic, Some(0.1));

    // Consolidate many times to decay
    for _ in 0..10 {
        let mut weaker = mem.storage().all();
        for r in weaker.iter_mut() {
            r.working_strength = r.working_strength.mul(double(0.5));
        }
        mem.consolidate(&weaker);
    }

    // Prune weak memories
    let s = strengths(&mem);
    mem.forget(None, Some(double(0.01)), &s);

    let stats = mem.stats(&strengths(&mem));
    // Memory should be archived or forgotten
    assert!(stats.total_memories <= 1);
    assert_eq!(mem.storage().all()[0].layer, MemoryLayer::Archive);
}

#[test]
fn test_reward_learning() {
    let mut mem = new_memory("test.db");

    let _id = add(&mut mem, "Test memory", MemoryType::Factual, Some(0.5));

    // Recall to make it "recent"
    let found = find(&mem, "test", 5);
    mem.recall(&found, None);

    // Apply positive feedback
    mem.reward("great job!", 3);

    // Memory should be strengthened (check via stats or direct query)
    let stats = mem.stats(&strengths(&mem));
    assert!(stats.total_memories > 0);
    assert_eq!(value(mem.storage().all()[0].working_strength), 1.0 + 0.15);
}

#[test]
fn test_noise_filtering() {
    let mut mem = new_memory(":memory:");

    // Noise should be silently rejected
    let id1 = add(&mut mem, "ok", MemoryType::Factual, None);
    assert!(id1.is_empty());

    let id2 = add(&mut mem, "thanks", MemoryType::Factual, None);
    assert!(id2.is_empty());

    // Real content should be accepted
    let id3 = add(&mut mem, "Rust uses ownership for memory safety", MemoryType::Factual, None);
    assert!(!id3.is_empty());

    let stats = mem.stats(&strengths(&mem));
    assert_eq!(stats.total_memories, 1);
}

#[test]
fn test_retrieval_config_customization() {
    let mut mem = new_memory(":memory:");

    // Set custom retrieval config
    let config = RetrievalConfig {
        cognitive_weight: double(0.7),
        semantic_weight: double(0.2),
        keyword_weight: double(0.1),
        mmr_lambda: double(0.9), // almost pure relevance
        min_content_length: 10,
        candidate_multiplier: 5,
    };
    mem.set_retrieval_config(config);
    assert_eq!(mem.retrieval_config().candidate_multiplier, 5);
    assert_eq!(mem.retrieval_config().mmr_lambda, double(0.9));

    add(
        &mut mem,
        "Rust is a systems programming language for safety and speed",
        MemoryType::Factual,
        None,
    );
    let found = find(&mem, "Rust", 3);
    let results = mem.recall(&found, None);
    assert!(!results.is_empty());
}

#[test]
fn test_sync_cross_device() {
    // Simulate two devices
    let mut device_a = new_memory(":memory:");
    let mut device_b = new_memory(":memory:");

    // Device A adds memories
    add(&mut device_a, "User prefers dark mode", MemoryType::Relational, Some(0.6));
    add(&mut device_a, "Project uses PostgreSQL", MemoryType::Factual, Some(0.5));

    // Device B adds different memories
    add(&mut device_b, "Meeting at 3pm tomorrow", MemoryType::Episodic, Some(0.4));

    // Export from A, import into B
    let snapshot_a = device_a.export_snapshot();
    let report = device_b.import_snapshot(&snapshot_a);
    assert_eq!(report.added, 2);

    // B should now have all 3 memories
    let stats_b = device_b.stats(&strengths(&device_b));
    assert_eq!(stats_b.total_memories, 3);

    // Export from B, import into A
    let snapshot_b = device_b.export_snapshot();
    let report = device_a.import_snapshot(&snapshot_b);
    assert_eq!(report.added, 1); // only the meeting memory is new

    // A should now also have 3
    let stats_a = device_a.stats(&strengths(&device_a));
    assert_eq!(stats_a.total_memories, 3);
}

#[test]
fn test_sync_idempotent() {
    let mut device_a = new_memory(":memory:");
    add(&mut device_a, "Persistent memory", MemoryType::Factual, Some(0.5));

    let snapshot = device_a.export_snapshot();

    // Import the same snapshot twice
    let _r1 = device_a.import_snapshot(&snapshot);
    let _r2 = device_a.import_snapshot(&snapshot);

    // Should not duplicate
    let stats = device_a.stats(&strengths(&device_a));
    assert_eq!(stats.total_memories, 1);
}

#[test]
fn test_meta_learning() {
    let mut mem = new_memory(":memory:");

    let _id = add(
        &mut mem,
        "Important fact about Rust ownership",
        MemoryType::Factual,
        Some(0.5),
    );

    // Retrieve multiple times
    for _ in 0..5 {
        let found = find(&mem, "Rust ownership", 3);
        mem.recall(&found, None);
    }

    // Positive feedback
    mem.reward("perfect answer!", 3);
    mem.reward("exactly right!", 3);

    // Consolidate triggers meta-learning
    mem.consolidate(&vec![]);

    // The memory's importance should have increased
    let found = find(&mem, "Rust", 3);
    let results = mem.recall(&found, None);
    assert!(!results.is_empty());
    // Importance started at 0.5, should be higher after positive meta-learning
    assert!(value(results[0].record.importance) >= 0.5);
    assert_eq!(value(results[0].record.importance), 0.5 + (2.0 / 2.0 - 0.5) * 0.05);
}

#[test]
fn test_add_with_embedding() {
    let mut mem = new_memory(":memory:");

    let embedding = singles(&[0.1, 0.2, 0.3, 0.4, 0.5]);
    let id = mem.add_with_embedding(
        "Vector-indexed memory",
        MemoryType::Factual,
        Some(double(0.6)),
        double(0.3),
        None,
        None,
        embedding.clone(),
        is_noise("Vector-indexed memory"),
    );
    assert!(!id.is_empty());

    // Can retrieve via hybrid recall with embedding
    let near = mem.storage().search_vector(
        &singles(&[0.1, 0.2, 0.3, 0.4, 0.5]),
        3,
        Binary32 { bits: 0 },
    );
    let candidates: Vec<Candidate> = near
        .into_iter()
        .map(|(id, _)| Candidate {
            record: mem.storage().get(&id).unwrap(),
            score: double(1.0),
        })
        .collect();
    let results = mem.recall_hybrid(&candidates, None);
    assert!(!results.is_empty());
    assert_eq!(results[0].record.embedding, Some(embedding));
}

#[test]
fn new_memories_have_a_strong_working_trace() {
    let mut mem = new_memory(":memory:");
    let id = mem.add(
        "alpha",
        MemoryType::Causal,
        None,
        double(0.35),
        Some("chat"),
        Some("{\"k\":1}".to_string()),
        false,
    );
    assert_eq!(id.len(), 8);
    assert!(id.chars().all(|c| matches!(c, '0'..='9' | 'a'..='f')));
    let r = mem.storage().get(&id).unwrap();
    assert_eq!(r.memory_type, MemoryType::Causal);
    assert_eq!(r.layer, MemoryLayer::Working);
    assert_eq!(value(r.working_strength), 1.0);
    assert_eq!(value(r.core_strength), 0.0);
    assert_eq!(value(r.importance), 0.35);
    assert_eq!(r.source, "chat");
    assert_eq!(r.metadata, Some("{\"k\":1}".to_string()));
    assert_eq!(r.access_times.len(), 1);
    assert!(!r.pinned);
    assert!(mem.save().is_none());
    assert_eq!(new_memory("x.db").save().unwrap().0, "x.db");
}

#[test]
fn recall_computes_confidence() {
    let mut mem = new_memory(":memory:");
    for (content, importance) in [("strong", 1.0), ("middling", 0.5), ("feeble", 0.0)] {
        add(&mut mem, content, MemoryType::Factual, Some(importance));
    }
    let scores = [6.0, 0.0, -7.5];
    let candidates: Vec<Candidate> = mem
        .storage()
        .all()
        .into_iter()
        .zip(scores.iter())
        .map(|(record, s)| Candidate { record, score: double(*s) })
        .collect();
    let results = mem.recall(&candidates, Some(double(0.1)));
    assert_eq!(results.len(), 2);
    assert_eq!(value(results[0].confidence), ((16.0f64 / 20.0) * 0.7 + 1.0 * 0.3).clamp(0.0, 1.0));
    assert_eq!(results[0].confidence_label, "high");
    assert_eq!(value(results[1].confidence), (10.0f64 / 20.0) * 0.7 + 0.5 * 0.3);
    assert_eq!(results[1].confidence_label, "medium");
    let all = mem.recall(&candidates, None);
    assert_eq!(all.len(), 3);
    assert_eq!(all[2].confidence_label, "very low");
    assert_eq!(value(all[2].confidence), (2.5f64 / 20.0) * 0.7);
    let counts: Vec<usize> =
        mem.storage().all().iter().map(|r| r.access_times.len()).collect();
    assert_eq!(counts, vec![3, 3, 2]);
}

#[test]
fn cognitive_scores_leave_out_the_unreachable() {
    let mut mem = new_memory(":memory:");
    add(&mut mem, "alpha", MemoryType::Factual, None);
    let id = add(&mut mem, "beta", MemoryType::Factual, None);
    let scores = mem.cognitive_scores(&vec![double(f64::NEG_INFINITY), double(-2.5)]);
    assert_eq!(scores, vec![(id, double(-2.5))]);
}

#[test]
fn reward_touches_the_last_accessed() {
    let mut mem = new_memory(":memory:");
    let a = add(&mut mem, "alpha", MemoryType::Factual, None);
    let b = add(&mut mem, "beta", MemoryType::Factual, None);
    let all = mem.storage().all();
    let late = Timestamp { secs: 4_000_000_000, nanos: 1 };
    mem.recall_at(
        &vec![Candidate { record: all[0].clone(), score: double(1.0) }],
        None,
        &vec![late],
    );
    mem.reward("this is WRONG, a bad mistake", 1);
    assert_eq!(
        value(mem.storage().get(&a).unwrap().working_strength),
        1.0 * (1.0 + -1.0 * 0.1)
    );
    assert_eq!(value(mem.storage().get(&b).unwrap().working_strength), 1.0);
    mem.reward("hmm", 2);
    assert_eq!(value(mem.storage().get(&b).unwrap().working_strength), 1.0);
    for _ in 0..20 {
        mem.reward("yes, correct", 2);
    }
    assert_eq!(value(mem.storage().get(&b).unwrap().working_strength), 2.0);
}

#[test]
fn blame_lowers_importance() {
    let mut mem = new_memory(":memory:");
    let id = add(&mut mem, "alpha", MemoryType::Factual, Some(0.06));
    for _ in 0..2 {
        let found = find(&mem, "alpha", 3);
        mem.recall(&found, None);
    }
    mem.consolidate(&vec![]);
    assert_eq!(value(mem.storage().get(&id).unwrap().importance), 0.06);
    mem.reward("poor", 1);
    mem.consolidate(&vec![]);
    assert_eq!(value(mem.storage().get(&id).unwrap().importance), 0.05);
}

#[test]
fn downscale_spares_the_pinned() {
    let mut mem = new_memory(":memory:");
    let a = add(&mut mem, "alpha", MemoryType::Factual, None);
    let b = add(&mut mem, "beta", MemoryType::Factual, None);
    mem.pin(&a);
    mem.pin("unknown");
    assert_eq!(mem.downscale(None), 1);
    assert_eq!(value(mem.storage().get(&a).unwrap().working_strength), 1.0);
    assert_eq!(value(mem.storage().get(&b).unwrap().working_strength), 0.95);
    mem.unpin(&a);
    assert_eq!(mem.downscale(Some(double(0.5))), 2);
    assert_eq!(value(mem.storage().get(&a).unwrap().working_strength), 0.5);
    assert_eq!(value(mem.storage().get(&b).unwrap().working_strength), 0.95 * 0.5);
}

#[test]
fn forget_deletes_or_archives() {
    let mut mem = new_memory(":memory:");
    let a = add(&mut mem, "alpha", MemoryType::Factual, None);
    let b = add(&mut mem, "beta", MemoryType::Factual, None);
    let c = add(&mut mem, "gamma", MemoryType::Factual, None);
    mem.pin(&a);
    mem.forget(None, None, &vec![double(0.001), double(0.001), double(0.5)]);
    let layer = |mem: &Memory, id: &str| mem.storage().get(id).unwrap().layer;
    assert_eq!(layer(&mem, &a), MemoryLayer::Working);
    assert_eq!(layer(&mem, &b), MemoryLayer::Archive);
    assert_eq!(layer(&mem, &c), MemoryLayer::Working);
    mem.forget(Some(&a), None, &vec![]);
    assert!(mem.storage().get(&a).is_none());
    assert_eq!(mem.storage().all().len(), 2);
}

#[test]
fn stats_group_by_type_and_layer() {
    let mut mem = new_memory(":memory:");
    add(&mut mem, "alpha", MemoryType::Opinion, Some(0.1));
    let b = add(&mut mem, "beta", MemoryType::Factual, Some(0.2));
    add(&mut mem, "gamma", MemoryType::Opinion, Some(0.7));
    mem.pin(&b);
    let s = vec![double(0.5), double(0.25), double(0.2)];
    let start = mem.created_at();
    let stats = mem.stats_at(&s, Timestamp { secs: start.secs + 5400, nanos: start.nanos });
    assert_eq!(stats.total_memories, 3);
    assert_eq!(stats.pinned, 1);
    assert_eq!(value(stats.uptime_hours), 1.5);
    assert_eq!(stats.by_type.len(), 2);
    assert_eq!(stats.by_type[0].0, "factual");
    assert_eq!(stats.by_type[0].1.count, 1);
    assert_eq!(value(stats.by_type[0].1.avg_strength), 0.25);
    assert_eq!(stats.by_type[1].0, "opinion");
    assert_eq!(stats.by_type[1].1.count, 2);
    assert_eq!(value(stats.by_type[1].1.avg_strength), (0.5 + 0.2) / 2.0);
    assert_eq!(value(stats.by_type[1].1.avg_importance), (0.1 + 0.7) / 2.0);
    assert_eq!(stats.by_layer.len(), 1);
    assert_eq!(stats.by_layer[0].0, "working");
    assert_eq!(stats.by_layer[0].1.count, 3);
    assert_eq!(value(stats.by_layer[0].1.avg_working), 1.0);
    assert_eq!(value(stats.by_layer[0].1.avg_core), 0.0);
    let early = mem.stats_at(&s, Timestamp { secs: start.secs - 3600, nanos: start.nanos });
    assert_eq!(value(early.uptime_hours), -1.0);
}

fn linked_pair(x: &str, y: &str) -> (Memory, String, String) {
    let mut mem = new_memory(":memory:");
    let a = add(&mut mem, x, MemoryType::Factual, Some(0.5));
    let b = add(&mut mem, y, MemoryType::Factual, Some(0.95));
    let mut strong = mem.storage().get(&b).unwrap();
    strong.core_strength = double(0.25);
    mem.consolidate(&vec![strong]);
    for _ in 0..3 {
        let both: Vec<Candidate> = mem
            .storage()
            .all()
            .into_iter()
            .map(|record| Candidate { record, score: double(1.0) })
            .collect();
        mem.recall(&both, None);
    }
    (mem, a, b)
}

#[test]
fn compress_merges_alike_neighbors() {
    let (mut mem, a, b) =
        linked_pair("Rust is fast. Rust is safe", "rust is fast; Rust is fun and safe");
    assert_eq!(mem.hebbian_links(&a), vec![b.clone()]);
    let none: Option<fn(&[&str]) -> String> = None;
    assert_eq!(mem.compress(double(0.99), none), 0);
    assert_eq!(mem.compress(double(0.3), none), 1);
    assert!(mem.storage().get(&a).is_none());
    let left = mem.storage().get(&b).unwrap();
    assert_eq!(left.content, "Rust is fast. Rust is safe. Rust is fun and safe");
    assert_eq!(value(left.importance), 1.0);
    assert_eq!(value(left.core_strength), 0.25);
    assert!(mem.hebbian_links(&b).is_empty());
    assert_eq!(mem.storage().search_fts("fun", 10).len(), 1);
    assert_eq!(mem.compress(double(0.0), none), 0);
}

#[test]
fn compress_takes_a_merge_function() {
    let (mut mem, a, b) = linked_pair("tea is green", "tea is hot");
    let count = mem.compress(double(0.1), Some(|parts: &[&str]| parts.join(" + ")));
    assert_eq!(count, 1);
    assert!(mem.storage().get(&a).is_none());
    assert_eq!(mem.storage().get(&b).unwrap().content, "tea is green + tea is hot");
}

#[test]
fn compress_needs_two_memories() {
    let mut mem = new_memory(":memory:");
    add(&mut mem, "alpha", MemoryType::Factual, None);
    let none: Option<fn(&[&str]) -> String> = None;
    assert_eq!(mem.compress(double(0.0), none), 0);
}

#[test]
fn load_restores_what_was_saved() {
    let mut mem = new_memory("m.db");
    let id = add(&mut mem, "alpha beta", MemoryType::Factual, None);
    let (_, image) = mem.save().unwrap();
    let mut other = new_memory("m.db");
    other.load(&image);
    let r: MemoryRecord = other.storage().get(&id).unwrap();
    assert_eq!(r.content, "alpha beta");
    assert_eq!(other.storage().search_fts("beta", 5).len(), 1);
}
