//! Rows and queries of the PostgreSQL backend.

use vstd::prelude::*;
use crate::binary::{Binary32, Binary64};
use crate::text::{join, split_whitespace};
use crate::types::{MemoryLayer, MemoryRecord, MemoryType, RecordView, Timestamp};

verus! {

/// A row of the table of memories.
#[derive(Debug)]
pub struct PgRow {
    pub id: String,
    pub content: String,
    pub memory_type: String,
    pub layer: String,
    pub created_at: Timestamp,
    pub working_strength: Binary64,
    pub core_strength: Binary64,
    pub importance: Binary64,
    pub pinned: bool,
    pub consolidation_count: i32,
    pub last_consolidated: Option<Timestamp>,
    pub source: String,
    pub contradicts: Option<String>,
    pub contradicted_by: Option<String>,
    pub metadata: Option<String>,
}

/// The memory that a row holds. Embeddings are not read back.
pub open spec fn record_of(row: PgRow, access_times: Seq<Timestamp>) -> RecordView {
    RecordView {
        id: row.id@,
        content: row.content@,
        memory_type: MemoryType::named(row.memory_type@),
        layer: MemoryLayer::named(row.layer@),
        created_at: row.created_at,
        access_times,
        working_strength: row.working_strength,
        core_strength: row.core_strength,
        importance: row.importance,
        pinned: row.pinned,
        consolidation_count: row.consolidation_count,
        last_consolidated: row.last_consolidated,
        source: row.source@,
        contradicts: crate::types::opt_text(row.contradicts),
        contradicted_by: crate::types::opt_text(row.contradicted_by),
        metadata: crate::types::opt_text(row.metadata),
        embedding: None,
    }
}

/// The memory that a row holds, with its access times.
pub fn row_to_record(row: PgRow, access_times: Vec<Timestamp>) -> (r: MemoryRecord)
    ensures
        r@ == record_of(row, access_times@),
{
    MemoryRecord {
        memory_type: MemoryType::from_name(row.memory_type.as_str()),
        layer: MemoryLayer::from_name(row.layer.as_str()),
        id: row.id,
        content: row.content,
        created_at: row.created_at,
        access_times,
        working_strength: row.working_strength,
        core_strength: row.core_strength,
        importance: row.importance,
        pinned: row.pinned,
        consolidation_count: row.consolidation_count,
        last_consolidated: row.last_consolidated,
        source: row.source,
        contradicts: row.contradicts,
        contradicted_by: row.contradicted_by,
        metadata: row.metadata,
        embedding: None,
    }
}

/// The row that a memory is written as.
pub fn record_to_row(r: &MemoryRecord) -> (row: PgRow)
    ensures
        forall|access_times: Seq<Timestamp>| #[trigger]
            record_of(row, access_times) == (RecordView { access_times, embedding: None, ..r@ }),
        row.memory_type@ == r.memory_type.name(),
        row.layer@ == r.layer.name(),
{
    let c = r.clone();
    let row = PgRow {
        memory_type: c.memory_type.to_string(),
        layer: c.layer.to_string(),
        id: c.id,
        content: c.content,
        created_at: c.created_at,
        working_strength: c.working_strength,
        core_strength: c.core_strength,
        importance: c.importance,
        pinned: c.pinned,
        consolidation_count: c.consolidation_count,
        last_consolidated: c.last_consolidated,
        source: c.source,
        contradicts: c.contradicts,
        contradicted_by: c.contradicted_by,
        metadata: c.metadata,
    };
    proof {
        crate::types::type_name_round_trip(r.memory_type);
        crate::types::layer_name_round_trip(r.layer);
    }
    row
}

/// The full-text query for a text: any of its words.
pub fn tsquery(query: &str) -> (r: String)
    ensures
        r@ == crate::text::joined(crate::text::fields(query@), " | "@),
{
    join(&split_whitespace(query), " | ")
}

/// A similarity that the database gives for a memory, in single precision.
pub open spec fn single_scores(v: Seq<(String, Binary64)>) -> Seq<(Seq<char>, Binary32)> {
    Seq::new(v.len(), |i: int| (v[i].0@, v[i].1.narrowed()))
}

/// The memories that are similar enough, in the order in which the database
/// gives them.
pub fn keep_similar(rows: &Vec<(String, Binary64)>, min_score: Binary32) -> (r: Vec<
    (String, Binary32),
>)
    ensures
        crate::store::scored_ids(r@) == single_scores(rows@).filter(
            |x: (Seq<char>, Binary32)| x.1.at_least(min_score),
        ),
{
    let ghost s = single_scores(rows@);
    let ghost keep = |x: (Seq<char>, Binary32)| x.1.at_least(min_score);
    let mut r: Vec<(String, Binary32)> = Vec::new();
    let mut i: usize = 0;
    assert(s.take(0).filter(keep) =~= Seq::<(Seq<char>, Binary32)>::empty()) by {
        reveal(Seq::filter);
    }
    assert(crate::store::scored_ids(r@) =~= Seq::<(Seq<char>, Binary32)>::empty());
    while i < rows.len()
        invariant
            i <= rows@.len(),
            s == single_scores(rows@),
            keep == (|x: (Seq<char>, Binary32)| x.1.at_least(min_score)),
            crate::store::scored_ids(r@) == s.take(i as int).filter(keep),
        decreases rows@.len() - i,
    {
        let ghost before = r@;
        assert(s.take(i + 1).drop_last() == s.take(i as int));
        assert(s.take(i + 1).last() == s[i as int]);
        let score = rows[i].1.narrow();
        if score.ge(min_score) {
            r.push((rows[i].0.clone(), score));
            assert(crate::store::scored_ids(r@) =~= crate::store::scored_ids(before).push(
                s[i as int],
            ));
        }
        assert(crate::store::scored_ids(r@) == s.take(i + 1).filter(keep)) by {
            reveal(Seq::filter);
        }
        i = i + 1;
    }
    assert(s.take(rows@.len() as int) == s);
    r
}

} // verus!
