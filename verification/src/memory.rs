//! The memory system: what callers use to add, recall, reward, consolidate,
//! compress, forget and synchronise memories.
//!
//! How strong or active a memory is at a moment, and which memories a query
//! retrieves, is computed by cognitive models outside of this module; their
//! results come in as arguments.

use vstd::prelude::*;
use crate::binary::{Binary32, Binary64};
use crate::compression::compress_store;
use crate::feedback::{compute_confidence, confidence_label, detect_feedback_polarity};
use crate::host::{fresh_id, now};
use crate::meta::{MetaStats, Outcome};
use crate::numbers::{MINUS_INFINITY, MINUS_ZERO, ONE, TENTH, TWENTIETH, TWO};
use crate::ranking::{rank, Scored};
use crate::store::{MemoryStore, StoreSnapshot, StoreView};
use crate::sync::{merge_snapshot, MergeReport, Snapshot};
use crate::text::same;
use crate::types::{
    MemoryConfig, MemoryLayer, MemoryRecord, MemoryType, RecallResult, RecordView,
    RetrievalConfig, Timestamp,
};

verus! {

/// A function that merges the contents of memories.
pub type MergeFn = dyn Fn(&[&str]) -> String;

/// What a [`Memory`] holds.
#[verifier::ext_equal]
pub struct MemoryView {
    pub store: StoreView,
    pub config: MemoryConfig,
    pub retrieval_config: RetrievalConfig,
    pub created_at: Timestamp,
    pub meta: Seq<crate::meta::TallyView>,
}

/// A memory system.
#[derive(Debug)]
pub struct Memory {
    storage: MemoryStore,
    config: MemoryConfig,
    retrieval_config: RetrievalConfig,
    created_at: Timestamp,
    meta_stats: MetaStats,
}

// --- New memories ---

/// A memory as it is first encoded: with a strong working trace, no core trace
/// and one access.
pub open spec fn encoded(
    id: Seq<char>,
    content: Seq<char>,
    memory_type: MemoryType,
    importance: Binary64,
    source: Seq<char>,
    metadata: Option<Seq<char>>,
    embedding: Option<Seq<Binary32>>,
    created_at: Timestamp,
    accessed_at: Timestamp,
) -> RecordView {
    RecordView {
        id,
        content,
        memory_type,
        layer: MemoryLayer::Working,
        created_at,
        access_times: seq![accessed_at],
        working_strength: Binary64 { bits: ONE },
        core_strength: Binary64 { bits: 0 },
        importance,
        pinned: false,
        consolidation_count: 0,
        last_consolidated: None,
        source,
        contradicts: None,
        contradicted_by: None,
        metadata,
        embedding,
    }
}

/// A memory as it is first encoded.
pub fn new_record(
    id: String,
    content: &str,
    memory_type: MemoryType,
    importance: Binary64,
    source: &str,
    metadata: Option<String>,
    embedding: Option<Vec<Binary32>>,
    created_at: Timestamp,
    accessed_at: Timestamp,
) -> (r: MemoryRecord)
    ensures
        r@ == encoded(
            id@,
            content@,
            memory_type,
            importance,
            source@,
            crate::types::opt_text(metadata),
            crate::types::opt_seq(embedding),
            created_at,
            accessed_at,
        ),
{
    let mut access_times: Vec<Timestamp> = Vec::new();
    access_times.push(accessed_at);
    assert(access_times@ =~= seq![accessed_at]);
    MemoryRecord {
        id,
        content: content.to_owned(),
        memory_type,
        layer: MemoryLayer::Working,
        created_at,
        access_times,
        working_strength: Binary64 { bits: ONE },
        core_strength: Binary64 { bits: 0 },
        importance,
        pinned: false,
        consolidation_count: 0,
        last_consolidated: None,
        source: source.to_owned(),
        contradicts: None,
        contradicted_by: None,
        metadata,
        embedding,
    }
}

pub open spec fn or_else<T>(o: Option<T>, other: T) -> T {
    match o {
        Some(x) => x,
        None => other,
    }
}

pub open spec fn source_text(o: Option<&str>) -> Seq<char> {
    match o {
        Some(s) => s@,
        None => Seq::empty(),
    }
}

/// The path that a store is kept at: none for `:memory:`.
pub open spec fn storage_path(path: Seq<char>) -> Option<Seq<char>> {
    if path == ":memory:"@ {
        None
    } else {
        Some(path)
    }
}

impl MemoryView {
    pub open spec fn with_store(self, store: StoreView) -> MemoryView {
        MemoryView { store, ..self }
    }
}

impl Memory {
    pub closed spec fn view(&self) -> MemoryView {
        MemoryView {
            store: self.storage@,
            config: self.config,
            retrieval_config: self.retrieval_config,
            created_at: self.created_at,
            meta: self.meta_stats@,
        }
    }

    pub closed spec fn wf(&self) -> bool {
        &&& self.storage.wf()
        &&& self.meta_stats.wf()
        &&& self.created_at.nanos < 1_000_000_000
    }

    /// What holds of every memory system.
    pub proof fn lemma_wf(&self)
        requires
            self.wf(),
        ensures
            self@.store.wf(),
            crate::meta::unique_tallies(self@.meta),
            self@.created_at.nanos < 1_000_000_000,
    {
        self.storage.lemma_wf();
    }

    /// A memory system without memories, kept in the file at `path`; with
    /// `:memory:` it is kept in no file.
    pub fn new(path: &str, config: MemoryConfig, retrieval_config: RetrievalConfig) -> (r: Memory)
        ensures
            r.wf(),
            r@.store == StoreView::empty(storage_path(path@)),
            r@.config == config,
            r@.retrieval_config == retrieval_config,
            crate::host::is_clock_time(r@.created_at),
            r@.meta == Seq::<crate::meta::TallyView>::empty(),
    {
        let storage = if same(path, ":memory:") {
            MemoryStore::new(None)
        } else {
            MemoryStore::new(Some(path.to_owned()))
        };
        Memory {
            storage,
            config,
            retrieval_config,
            created_at: now(),
            meta_stats: MetaStats::new(),
        }
    }

    /// Loads what was kept on disk.
    pub fn load(&mut self, image: &StoreSnapshot)
        requires
            old(self).wf(),
        ensures
            final(self).wf(),
            final(self)@ == old(self)@.with_store(
                old(self)@.store.loaded(
                    crate::types::records(image.memories@),
                    crate::links::links_of(image.hebbian_links@),
                ),
            ),
    {
        self.storage.load(image);
    }

    /// What to write to disk, and where; nothing where the system is kept in
    /// no file.
    pub fn save(&self) -> (r: Option<(String, StoreSnapshot)>)
        ensures
            match r {
                Some((path, image)) => {
                    &&& self@.store.path == Some(path@)
                    &&& crate::types::records(image.memories@) == self@.store.memories
                    &&& crate::links::links_of(image.hebbian_links@) == self@.store.links
                    &&& image.version == 1
                },
                None => self@.store.path is None,
            },
    {
        self.storage.save()
    }

    /// Sets the parameters of the retrieval pipeline.
    pub fn set_retrieval_config(&mut self, config: RetrievalConfig)
        requires
            old(self).wf(),
        ensures
            final(self).wf(),
            final(self)@ == (MemoryView { retrieval_config: config, ..old(self)@ }),
    {
        self.retrieval_config = config;
    }

    /// The parameters of the memory system.
    pub fn config(&self) -> (r: MemoryConfig)
        ensures
            r == self@.config,
    {
        self.config
    }

    /// The parameters of the retrieval pipeline.
    pub fn retrieval_config(&self) -> (r: RetrievalConfig)
        ensures
            r == self@.retrieval_config,
    {
        self.retrieval_config
    }

    /// When the memory system was set up.
    pub fn created_at(&self) -> (r: Timestamp)
        ensures
            r == self@.created_at,
    {
        self.created_at
    }

    /// The store.
    pub fn storage(&self) -> (r: &MemoryStore)
        requires
            self.wf(),
        ensures
            r@ == self@.store,
            r.wf(),
    {
        &self.storage
    }

    /// Stores a new memory and returns its identifier. Noise is not stored:
    /// the identifier is then empty.
    pub fn add(
        &mut self,
        content: &str,
        memory_type: MemoryType,
        importance: Option<Binary64>,
        default_importance: Binary64,
        source: Option<&str>,
        metadata: Option<String>,
        noise: bool,
    ) -> (id: String)
        requires
            old(self).wf(),
        ensures
            final(self).wf(),
            noise ==> id@.len() == 0 && final(self)@ == old(self)@,
            !noise ==> crate::host::is_short_id(id@) && exists|created_at: Timestamp,
                accessed_at: Timestamp|
                crate::host::is_clock_time(created_at) && crate::host::is_clock_time(accessed_at)
                    && final(self)@ == old(self)@.with_store(
                    old(self)@.store.added(
                        #[trigger] encoded(
                            id@,
                            content@,
                            memory_type,
                            or_else(importance, default_importance),
                            source_text(source),
                            crate::types::opt_text(metadata),
                            None,
                            created_at,
                            accessed_at,
                        ),
                    ),
                ),
    {
        self.add_any(
            content,
            memory_type,
            importance,
            default_importance,
            source,
            metadata,
            None,
            noise,
        )
    }

    /// Stores a new memory with its embedding and returns its identifier.
    /// Noise is not stored: the identifier is then empty.
    pub fn add_with_embedding(
        &mut self,
        content: &str,
        memory_type: MemoryType,
        importance: Option<Binary64>,
        default_importance: Binary64,
        source: Option<&str>,
        metadata: Option<String>,
        embedding: Vec<Binary32>,
        noise: bool,
    ) -> (id: String)
        requires
            old(self).wf(),
        ensures
            final(self).wf(),
            noise ==> id@.len() == 0 && final(self)@ == old(self)@,
            !noise ==> crate::host::is_short_id(id@) && exists|created_at: Timestamp,
                accessed_at: Timestamp|
                crate::host::is_clock_time(created_at) && crate::host::is_clock_time(accessed_at)
                    && final(self)@ == old(self)@.with_store(
                    old(self)@.store.added(
                        #[trigger] encoded(
                            id@,
                            content@,
                            memory_type,
                            or_else(importance, default_importance),
                            source_text(source),
                            crate::types::opt_text(metadata),
                            Some(embedding@),
                            created_at,
                            accessed_at,
                        ),
                    ),
                ),
    {
        self.add_any(
            content,
            memory_type,
            importance,
            default_importance,
            source,
            metadata,
            Some(embedding),
            noise,
        )
    }

    fn add_any(
        &mut self,
        content: &str,
        memory_type: MemoryType,
        importance: Option<Binary64>,
        default_importance: Binary64,
        source: Option<&str>,
        metadata: Option<String>,
        embedding: Option<Vec<Binary32>>,
        noise: bool,
    ) -> (id: String)
        requires
            old(self).wf(),
        ensures
            final(self).wf(),
            noise ==> id@.len() == 0 && final(self)@ == old(self)@,
            !noise ==> crate::host::is_short_id(id@) && exists|created_at: Timestamp,
                accessed_at: Timestamp|
                crate::host::is_clock_time(created_at) && crate::host::is_clock_time(accessed_at)
                    && final(self)@ == old(self)@.with_store(
                    old(self)@.store.added(
                        #[trigger] encoded(
                            id@,
                            content@,
                            memory_type,
                            or_else(importance, default_importance),
                            source_text(source),
                            crate::types::opt_text(metadata),
                            crate::types::opt_seq(embedding),
                            created_at,
                            accessed_at,
                        ),
                    ),
                ),
    {
        if noise {
            return String::new();
        }
        let id = fresh_id();
        let weight = match importance {
            Some(x) => x,
            None => default_importance,
        };
        let origin = match source {
            Some(s) => s.to_owned(),
            None => String::new(),
        };
        assert(origin@ =~= source_text(source));
        assert(weight == or_else(importance, default_importance));
        let ghost meta = crate::types::opt_text(metadata);
        let ghost emb = crate::types::opt_seq(embedding);
        let created_at = now();
        let accessed_at = now();
        let record = new_record(
            id.clone(),
            content,
            memory_type,
            weight,
            origin.as_str(),
            metadata,
            embedding,
            created_at,
            accessed_at,
        );
        self.storage.add(&record);
        assert(record@ == encoded(
            id@,
            content@,
            memory_type,
            or_else(importance, default_importance),
            source_text(source),
            meta,
            emb,
            created_at,
            accessed_at,
        ));
        assert(self@ =~= old(self)@.with_store(old(self)@.store.added(record@)));
        id
    }

    /// Pins a memory: it is not scaled down and not archived when others are.
    pub fn pin(&mut self, memory_id: &str)
        requires
            old(self).wf(),
        ensures
            final(self).wf(),
            final(self)@ == old(self)@.with_store(pin_set(old(self)@.store, memory_id@, true)),
    {
        self.set_pinned(memory_id, true);
    }

    /// Unpins a memory.
    pub fn unpin(&mut self, memory_id: &str)
        requires
            old(self).wf(),
        ensures
            final(self).wf(),
            final(self)@ == old(self)@.with_store(pin_set(old(self)@.store, memory_id@, false)),
    {
        self.set_pinned(memory_id, false);
    }

    fn set_pinned(&mut self, memory_id: &str, pinned: bool)
        requires
            old(self).wf(),
        ensures
            final(self).wf(),
            final(self)@ == old(self)@.with_store(pin_set(old(self)@.store, memory_id@, pinned)),
    {
        match self.storage.get(memory_id) {
            Some(record) => {
                let mut record = record;
                let ghost before = record@;
                record.pinned = pinned;
                assert(record@ =~= (RecordView { pinned, ..before }));
                self.storage.update(&record);
            },
            None => {},
        }
    }

    /// The memories linked with a memory.
    pub fn hebbian_links(&self, memory_id: &str) -> (r: Vec<String>)
        ensures
            crate::text::texts(r@) == crate::links::neighbors(self@.store.links, memory_id@),
    {
        self.storage.get_hebbian_neighbors(memory_id)
    }

    /// A snapshot of all memories.
    pub fn export_snapshot(&self) -> (r: Snapshot)
        ensures
            r.version == 1,
            crate::host::is_node_id(r.node_id@),
            crate::host::is_clock_time(r.created_at),
            crate::sync::keyed(r.memories@) == crate::sync::by_hash(self@.store.memories),
            crate::links::links_of(r.hebbian_links@) == self@.store.links,
    {
        Snapshot::from_store(&self.storage)
    }

    /// Merges a snapshot of another device.
    pub fn import_snapshot(&mut self, snapshot: &Snapshot) -> (r: MergeReport)
        requires
            old(self).wf(),
        ensures
            final(self).wf(),
            exists|fresh: Seq<Seq<char>>|
                fresh.len() == snapshot.memories@.len() && crate::sync::all_short_ids(fresh)
                    && final(self)@ == old(self)@.with_store(
                    #[trigger] crate::sync::merged(
                        old(self)@.store,
                        crate::sync::keyed(snapshot.memories@),
                        crate::links::links_of(snapshot.hebbian_links@),
                        fresh,
                    ),
                ),
            crate::sync::reports(
                r,
                old(self)@.store.memories,
                crate::sync::keyed(snapshot.memories@),
                crate::links::links_of(snapshot.hebbian_links@),
            ),
    {
        merge_snapshot(&mut self.storage, snapshot)
    }
}

/// The store after a memory is pinned or unpinned.
pub open spec fn pin_set(st: StoreView, id: Seq<char>, pinned: bool) -> StoreView {
    match crate::store::lookup(st.memories, id) {
        Some(r) => st.updated(RecordView { pinned, ..r }),
        None => st,
    }
}

// --- Downscaling, forgetting, rewarding ---

/// A memory whose strengths are scaled by `factor`.
pub open spec fn scaled(r: RecordView, factor: Binary64) -> RecordView {
    RecordView {
        working_strength: r.working_strength.times(factor),
        core_strength: r.core_strength.times(factor),
        ..r
    }
}

/// The memories that downscaling changes, as it leaves them.
pub open spec fn scaled_down(s: Seq<RecordView>, factor: Binary64) -> Seq<RecordView> {
    s.filter(|r: RecordView| !r.pinned).map_values(|r: RecordView| scaled(r, factor))
}

/// A memory with its strength at some moment.
pub struct Weighed {
    pub record: RecordView,
    pub strength: Binary64,
}

/// Memories with their strengths.
pub open spec fn weighed(s: Seq<RecordView>, strengths: Seq<Binary64>) -> Seq<Weighed> {
    Seq::new(s.len(), |i: int| Weighed { record: s[i], strength: strengths[i] })
}

/// Whether a memory is to be archived: it is not pinned, weaker than the
/// threshold, and not archived yet.
pub open spec fn fades(w: Weighed, threshold: Binary64) -> bool {
    !w.record.pinned && w.strength.below(threshold) && w.record.layer != MemoryLayer::Archive
}

pub open spec fn archived(r: RecordView) -> RecordView {
    RecordView { layer: MemoryLayer::Archive, ..r }
}

/// The memories that forgetting changes, as it leaves them.
pub open spec fn faded_memories(
    s: Seq<RecordView>,
    strengths: Seq<Binary64>,
    threshold: Binary64,
) -> Seq<RecordView> {
    weighed(s, strengths).filter(|w: Weighed| fades(w, threshold)).map_values(
        |w: Weighed| archived(w.record),
    )
}

/// Where a moment stands in time.
pub open spec fn moment(t: Timestamp) -> int {
    t.secs * 0x1_0000_0000 + t.nanos
}

/// The memories that have been accessed, by their last access.
pub open spec fn accesses(s: Seq<RecordView>) -> Seq<crate::ranking::Rank> {
    Seq::new(
        s.len(),
        |i: int|
            crate::ranking::Rank {
                at: i,
                score: if s[i].access_times.len() > 0 {
                    moment(s[i].access_times.last())
                } else {
                    0
                },
            },
    ).filter(|x: crate::ranking::Rank| s[x.at].access_times.len() > 0)
}

/// The last accessed memories, the latest first, at most `n` of them.
pub open spec fn recent(s: Seq<RecordView>, n: nat) -> Seq<RecordView> {
    crate::store::at_places(s, crate::ranking::first(crate::ranking::ranked(accesses(s)), n))
}

/// The working strength of a memory after feedback. Praise adds to it, up to
/// 2; blame takes a tenth off.
pub open spec fn rewarded_strength(
    strength: Binary64,
    polarity: Binary64,
    magnitude: Binary64,
) -> Binary64 {
    if crate::links::positive(polarity) {
        strength.plus(magnitude.times(polarity)).lesser(Binary64 { bits: TWO })
    } else {
        strength.times(
            (Binary64 { bits: ONE }).plus(polarity.times(Binary64 { bits: TENTH })),
        ).greater(Binary64 { bits: 0 })
    }
}

pub open spec fn rewarded(r: RecordView, polarity: Binary64, magnitude: Binary64) -> RecordView {
    RecordView {
        working_strength: rewarded_strength(r.working_strength, polarity, magnitude),
        ..r
    }
}

/// What feedback counts for.
pub open spec fn verdict(polarity: Binary64) -> Outcome {
    if crate::links::positive(polarity) {
        Outcome::Praised
    } else {
        Outcome::Blamed
    }
}

/// The identifiers of some memories.
pub open spec fn ids_of(s: Seq<RecordView>) -> Seq<Seq<char>> {
    s.map_values(|r: RecordView| r.id)
}

/// The tallies after an outcome of each of some memories.
pub open spec fn counted_all(
    meta: Seq<crate::meta::TallyView>,
    ids: Seq<Seq<char>>,
    what: Outcome,
) -> Seq<crate::meta::TallyView>
    decreases ids.len(),
{
    if ids.len() == 0 {
        meta
    } else {
        crate::meta::counted(counted_all(meta, ids.drop_last(), what), ids.last(), what)
    }
}

/// The memory system after feedback of the given polarity on the last accessed
/// memories.
pub open spec fn after_reward(m: MemoryView, polarity: Binary64, recent_n: nat) -> MemoryView {
    if polarity.datum().mag == 0 {
        m
    } else {
        let r = recent(m.store.memories, recent_n);
        MemoryView {
            store: m.store.with_updates(
                r.map_values(|x: RecordView| rewarded(x, polarity, m.config.reward_magnitude)),
            ),
            meta: counted_all(m.meta, ids_of(r), verdict(polarity)),
            ..m
        }
    }
}

impl Memory {
    /// Scales the strengths of all memories that are not pinned. Returns how
    /// many these are.
    pub fn downscale(&mut self, factor: Option<Binary64>) -> (count: usize)
        requires
            old(self).wf(),
        ensures
            final(self).wf(),
            final(self)@ == old(self)@.with_store(
                old(self)@.store.with_updates(
                    scaled_down(
                        old(self)@.store.memories,
                        or_else(factor, old(self)@.config.downscale_factor),
                    ),
                ),
            ),
            count == old(self)@.store.memories.filter(|r: RecordView| !r.pinned).len(),
    {
        let by = match factor {
            Some(x) => x,
            None => self.config.downscale_factor,
        };
        let all = self.storage.all();
        let ghost s = self@.store.memories;
        let ghost keep = |r: RecordView| !r.pinned;
        let ghost change = |r: RecordView| scaled(r, by);
        let mut new: Vec<MemoryRecord> = Vec::new();
        let mut i: usize = 0;
        assert(s.take(0).filter(keep) =~= Seq::<RecordView>::empty()) by {
            reveal(Seq::filter);
        }
        assert(crate::types::records(new@) =~= s.take(0).filter(keep).map_values(change));
        while i < all.len()
            invariant
                i <= all@.len(),
                s == crate::types::records(all@),
                keep == (|r: RecordView| !r.pinned),
                change == (|r: RecordView| scaled(r, by)),
                crate::types::records(new@) == s.take(i as int).filter(keep).map_values(change),
            decreases all@.len() - i,
        {
            let ghost before = new@;
            let ghost kept = s.take(i as int).filter(keep);
            assert(s.take(i + 1).drop_last() == s.take(i as int));
            assert(s.take(i + 1).last() == all@[i as int]@);
            assert(s.take(i + 1).filter(keep) == if keep(s[i as int]) {
                kept.push(s[i as int])
            } else {
                kept
            }) by {
                reveal(Seq::filter);
            }
            if !all[i].pinned {
                let mut r = all[i].clone();
                r.working_strength = r.working_strength.mul(by);
                r.core_strength = r.core_strength.mul(by);
                new.push(r);
                assert(r@ =~= scaled(s[i as int], by));
                assert(crate::types::records(new@) =~= crate::types::records(before).push(r@));
                assert(kept.push(s[i as int]).map_values(change) =~= kept.map_values(change).push(
                    r@,
                ));
            }
            i = i + 1;
        }
        assert(s.take(all@.len() as int) == s);
        assert(s.filter(keep).map_values(change).len() == s.filter(keep).len());
        assert(crate::types::records(new@).len() == new@.len());
        self.storage.update_all(&new);
        new.len()
    }

    /// Deletes a memory; or, where none is named, archives all memories that
    /// are not pinned and weaker than a threshold, given the strength of each
    /// stored memory.
    pub fn forget(
        &mut self,
        memory_id: Option<&str>,
        threshold: Option<Binary64>,
        strengths: &Vec<Binary64>,
    )
        requires
            old(self).wf(),
            memory_id is None ==> strengths@.len() == old(self)@.store.memories.len(),
        ensures
            final(self).wf(),
            final(self)@ == old(self)@.with_store(
                match memory_id {
                    Some(id) => old(self)@.store.deleted(id@),
                    None => old(self)@.store.with_updates(
                        faded_memories(
                            old(self)@.store.memories,
                            strengths@,
                            or_else(threshold, old(self)@.config.forget_threshold),
                        ),
                    ),
                },
            ),
    {
        let limit = match threshold {
            Some(x) => x,
            None => self.config.forget_threshold,
        };
        if let Some(id) = memory_id {
            self.storage.delete(id);
            return;
        }
        let all = self.storage.all();
        let ghost s = weighed(self@.store.memories, strengths@);
        let ghost keep = |w: Weighed| fades(w, limit);
        let ghost change = |w: Weighed| archived(w.record);
        let mut new: Vec<MemoryRecord> = Vec::new();
        let mut i: usize = 0;
        assert(s.take(0).filter(keep) =~= Seq::<Weighed>::empty()) by {
            reveal(Seq::filter);
        }
        assert(crate::types::records(new@) =~= s.take(0).filter(keep).map_values(change));
        while i < all.len()
            invariant
                i <= all@.len(),
                strengths@.len() == all@.len(),
                s == weighed(crate::types::records(all@), strengths@),
                keep == (|w: Weighed| fades(w, limit)),
                change == (|w: Weighed| archived(w.record)),
                crate::types::records(new@) == s.take(i as int).filter(keep).map_values(change),
            decreases all@.len() - i,
        {
            let ghost before = new@;
            let ghost kept = s.take(i as int).filter(keep);
            let ghost w = s[i as int];
            assert(w == (Weighed { record: all@[i as int]@, strength: strengths@[i as int] }));
            assert(s.take(i + 1).drop_last() == s.take(i as int));
            assert(s.take(i + 1).last() == w);
            assert(s.take(i + 1).filter(keep) == if keep(w) {
                kept.push(w)
            } else {
                kept
            }) by {
                reveal(Seq::filter);
            }
            if !all[i].pinned && strengths[i].lt(limit) && all[i].layer != MemoryLayer::Archive {
                let mut r = all[i].clone();
                r.layer = MemoryLayer::Archive;
                new.push(r);
                assert(r@ =~= archived(w.record));
                assert(crate::types::records(new@) =~= crate::types::records(before).push(r@));
                assert(kept.push(w).map_values(change) =~= kept.map_values(change).push(r@));
            }
            i = i + 1;
        }
        assert(s.take(all@.len() as int) == s);
        self.storage.update_all(&new);
    }

    /// Applies feedback to the last accessed memories: praise strengthens
    /// them, blame weakens them, and both are counted.
    pub fn reward(&mut self, feedback: &str, recent_n: usize)
        requires
            old(self).wf(),
        ensures
            final(self).wf(),
            final(self)@ == after_reward(
                old(self)@,
                crate::feedback::polarity(crate::text::lowercase(feedback@)),
                recent_n as nat,
            ),
    {
        let polarity = detect_feedback_polarity(feedback);
        self.reward_by(polarity, recent_n);
    }

    /// Applies feedback of the given polarity to the last accessed memories.
    pub fn reward_by(&mut self, polarity: Binary64, recent_n: usize)
        requires
            old(self).wf(),
        ensures
            final(self).wf(),
            final(self)@ == after_reward(old(self)@, polarity, recent_n as nat),
    {
        if polarity.bits == 0 || polarity.bits == MINUS_ZERO {
            return;
        }
        let chosen = self.last_accessed(recent_n);
        let magnitude = self.config.reward_magnitude;
        let ghost m = self@;
        let ghost r = recent(m.store.memories, recent_n as nat);
        let ghost change = |x: RecordView| rewarded(x, polarity, magnitude);
        let praise = (Binary64 { bits: 0 }).lt(polarity);
        let what = if praise {
            Outcome::Praised
        } else {
            Outcome::Blamed
        };
        let mut new: Vec<MemoryRecord> = Vec::new();
        let mut i: usize = 0;
        assert(crate::types::records(new@) =~= r.take(0).map_values(change));
        assert(ids_of(r.take(0)).len() == 0);
        while i < chosen.len()
            invariant
                i <= chosen@.len(),
                r == crate::types::records(chosen@),
                change == (|x: RecordView| rewarded(x, polarity, magnitude)),
                praise == crate::links::positive(polarity),
                what == verdict(polarity),
                self.wf(),
                self@ == (MemoryView {
                    meta: counted_all(m.meta, ids_of(r.take(i as int)), what),
                    ..m
                }),
                crate::types::records(new@) == r.take(i as int).map_values(change),
            decreases chosen@.len() - i,
        {
            let ghost before = new@;
            assert(r.take(i + 1) == r.take(i as int).push(r[i as int]));
            assert(ids_of(r.take(i + 1)).drop_last() =~= ids_of(r.take(i as int)));
            let mut x = chosen[i].clone();
            assert(x@ == r[i as int]);
            if praise {
                x.working_strength = x.working_strength.add(magnitude.mul(polarity)).min(
                    Binary64 { bits: TWO },
                );
            } else {
                x.working_strength = x.working_strength.mul(
                    (Binary64 { bits: ONE }).add(polarity.mul(Binary64 { bits: TENTH })),
                ).max(Binary64 { bits: 0 });
            }
            self.meta_stats.count(x.id.as_str(), what);
            new.push(x);
            assert(x@ =~= rewarded(r[i as int], polarity, magnitude));
            assert(crate::types::records(new@) =~= crate::types::records(before).push(x@));
            assert(r.take(i + 1).map_values(change) =~= r.take(i as int).map_values(change).push(
                x@,
            ));
            i = i + 1;
        }
        assert(r.take(chosen@.len() as int) == r);
        self.storage.update_all(&new);
        assert(m.config.reward_magnitude == magnitude);
        assert(r.map_values(change) =~= r.map_values(
            |x: RecordView| rewarded(x, polarity, m.config.reward_magnitude),
        ));
    }

    /// The last accessed memories, the latest first.
    fn last_accessed(&self, n: usize) -> (r: Vec<MemoryRecord>)
        requires
            self.wf(),
        ensures
            crate::types::records(r@) == recent(self@.store.memories, n as nat),
    {
        let all = self.storage.all();
        let ghost s = self@.store.memories;
        let ghost keep = |x: crate::ranking::Rank| s[x.at].access_times.len() > 0;
        let ghost ranks = Seq::new(
            s.len(),
            |i: int|
                crate::ranking::Rank {
                    at: i,
                    score: if s[i].access_times.len() > 0 {
                        moment(s[i].access_times.last())
                    } else {
                        0
                    },
                },
        );
        let mut list: Vec<Scored> = Vec::new();
        let mut i: usize = 0;
        assert(ranks.take(0).filter(keep) =~= Seq::<crate::ranking::Rank>::empty()) by {
            reveal(Seq::filter);
        }
        assert(crate::ranking::ranks(list@) =~= Seq::<crate::ranking::Rank>::empty());
        while i < all.len()
            invariant
                i <= all@.len(),
                s == crate::types::records(all@),
                keep == (|x: crate::ranking::Rank| s[x.at].access_times.len() > 0),
                ranks.len() == all@.len(),
                forall|k: int|
                    0 <= k < ranks.len() ==> #[trigger] ranks[k] == (crate::ranking::Rank {
                        at: k,
                        score: if s[k].access_times.len() > 0 {
                            moment(s[k].access_times.last())
                        } else {
                            0
                        },
                    }),
                crate::ranking::ranks(list@) == ranks.take(i as int).filter(keep),
            decreases all@.len() - i,
        {
            let ghost before = list@;
            assert(ranks.take(i + 1).drop_last() == ranks.take(i as int));
            assert(ranks.take(i + 1).last() == ranks[i as int]);
            assert(s[i as int] == all@[i as int]@);
            let times = &all[i].access_times;
            if times.len() > 0 {
                let t = times[times.len() - 1];
                let x = Scored {
                    at: i,
                    score: t.secs as i128 * 0x1_0000_0000 + t.nanos as i128,
                };
                list.push(x);
                assert(crate::ranking::ranks(list@) =~= crate::ranking::ranks(before).push(x@));
            }
            assert(crate::ranking::ranks(list@) == ranks.take(i + 1).filter(keep)) by {
                reveal(Seq::filter);
            }
            i = i + 1;
        }
        assert(ranks.take(all@.len() as int) == ranks);
        let order = rank(&list);
        let ghost best = crate::ranking::first(crate::ranking::ranks(order@), n as nat);
        proof {
            crate::store::lemma_places(ranks, keep, n as nat);
        }
        let mut r: Vec<MemoryRecord> = Vec::new();
        let mut j: usize = 0;
        while j < order.len() && j < n
            invariant
                j <= order.len(),
                j <= n,
                s == crate::types::records(all@),
                best == crate::ranking::first(crate::ranking::ranks(order@), n as nat),
                forall|k: int|
                    0 <= k < best.len() ==> 0 <= (#[trigger] best[k]).at < all@.len(),
                crate::types::records(r@) == crate::store::at_places(s, best.take(j as int)),
            decreases order.len() - j,
        {
            let ghost before = r@;
            assert(best[j as int] == order@[j as int]@);
            r.push(all[order[j].at].clone());
            assert(best.take(j + 1) == best.take(j as int).push(best[j as int]));
            assert(crate::types::records(r@) =~= crate::types::records(before).push(
                s[best[j as int].at],
            ));
            assert(crate::store::at_places(s, best.take(j + 1)) =~= crate::store::at_places(
                s,
                best.take(j as int),
            ).push(s[best[j as int].at]));
            j = j + 1;
        }
        assert(best.take(j as int) == best);
        r
    }
}

// --- Recall ---

/// A memory that a query retrieved, with its score.
#[derive(Debug)]
pub struct Candidate {
    pub record: MemoryRecord,
    pub score: Binary64,
}

/// What a [`Candidate`] holds.
pub struct CandidateView {
    pub record: RecordView,
    pub score: Binary64,
}

pub open spec fn candidates_of(v: Seq<Candidate>) -> Seq<CandidateView> {
    Seq::new(v.len(), |i: int| CandidateView { record: v[i].record@, score: v[i].score })
}

/// What a [`RecallResult`] holds.
pub struct ResultView {
    pub record: RecordView,
    pub activation: Binary64,
    pub confidence: Binary64,
    pub label: Seq<char>,
}

impl View for RecallResult {
    type V = ResultView;

    open spec fn view(&self) -> ResultView {
        ResultView {
            record: self.record@,
            activation: self.activation,
            confidence: self.confidence,
            label: self.confidence_label@,
        }
    }
}

pub open spec fn results_of(v: Seq<RecallResult>) -> Seq<ResultView> {
    Seq::new(v.len(), |i: int| v[i]@)
}

/// A candidate with how sure the recall is of it.
pub open spec fn assessed(c: CandidateView) -> ResultView {
    let confidence = crate::feedback::confidence(c.score, c.record.importance);
    ResultView {
        record: c.record,
        activation: c.score,
        confidence,
        label: crate::feedback::label(confidence),
    }
}

/// The candidates that the recall is sure enough of.
pub open spec fn recall_results(c: Seq<CandidateView>, min_confidence: Binary64) -> Seq<ResultView> {
    c.map_values(|x: CandidateView| assessed(x)).filter(
        |r: ResultView| r.confidence.at_least(min_confidence),
    )
}

/// The identifiers of some results.
pub open spec fn result_ids(s: Seq<ResultView>) -> Seq<Seq<char>> {
    s.map_values(|r: ResultView| r.record.id)
}

/// The store after the first `n` of some memories are accessed.
pub open spec fn accessed_first(
    st: StoreView,
    ids: Seq<Seq<char>>,
    times: Seq<Timestamp>,
    n: nat,
) -> StoreView
    decreases n,
{
    if n == 0 {
        st
    } else {
        accessed_first(st, ids, times, (n - 1) as nat).accessed(ids[n - 1], times[n - 1])
    }
}

/// The weights after the memory at place `i` is recalled together with each of
/// those after it and before place `j`.
pub open spec fn paired(
    links: Seq<crate::links::LinkView>,
    ids: Seq<Seq<char>>,
    i: nat,
    j: nat,
    threshold: i32,
) -> Seq<crate::links::LinkView>
    decreases j,
{
    if j <= i + 1 {
        links
    } else {
        crate::links::after_coactivation(
            paired(links, ids, i, (j - 1) as nat, threshold),
            ids[i as int],
            ids[j - 1],
            threshold,
        )
    }
}

/// The weights after each of the first `n` memories is recalled together with
/// each of those after it.
pub open spec fn all_paired(
    links: Seq<crate::links::LinkView>,
    ids: Seq<Seq<char>>,
    n: nat,
    threshold: i32,
) -> Seq<crate::links::LinkView>
    decreases n,
{
    if n == 0 {
        links
    } else {
        paired(
            all_paired(links, ids, (n - 1) as nat, threshold),
            ids,
            (n - 1) as nat,
            ids.len(),
            threshold,
        )
    }
}

/// The memory system after some memories are recalled at the given times: each
/// is accessed and counted, and where links are enabled each pair of them is
/// recalled together.
pub open spec fn after_recall(
    m: MemoryView,
    ids: Seq<Seq<char>>,
    times: Seq<Timestamp>,
) -> MemoryView {
    let st = accessed_first(m.store, ids, times, ids.len());
    MemoryView {
        store: StoreView {
            links: if m.config.hebbian_enabled {
                all_paired(st.links, ids, ids.len(), m.config.hebbian_threshold)
            } else {
                st.links
            },
            ..st
        },
        meta: counted_all(m.meta, ids, Outcome::Retrieved),
        ..m
    }
}

/// Identifiers with the activation of their memories.
pub open spec fn activations_of(v: Seq<(String, Binary64)>) -> Seq<(Seq<char>, Binary64)> {
    Seq::new(v.len(), |i: int| (v[i].0@, v[i].1))
}

impl Memory {
    /// The activation of each memory that can be recalled at all, given that of
    /// each stored memory: those of negative infinite activation cannot.
    pub fn cognitive_scores(&self, activations: &Vec<Binary64>) -> (r: Vec<(String, Binary64)>)
        requires
            activations@.len() == self@.store.memories.len(),
        ensures
            activations_of(r@) == weighed(self@.store.memories, activations@).filter(
                |w: Weighed| w.strength != (Binary64 { bits: MINUS_INFINITY }),
            ).map_values(|w: Weighed| (w.record.id, w.strength)),
    {
        let all = self.storage.all();
        let ghost s = weighed(self@.store.memories, activations@);
        let ghost keep = |w: Weighed| w.strength != (Binary64 { bits: MINUS_INFINITY });
        let ghost change = |w: Weighed| (w.record.id, w.strength);
        let mut r: Vec<(String, Binary64)> = Vec::new();
        let mut i: usize = 0;
        assert(s.take(0).filter(keep) =~= Seq::<Weighed>::empty()) by {
            reveal(Seq::filter);
        }
        assert(activations_of(r@) =~= s.take(0).filter(keep).map_values(change));
        while i < all.len()
            invariant
                i <= all@.len(),
                activations@.len() == all@.len(),
                s == weighed(crate::types::records(all@), activations@),
                keep == (|w: Weighed| w.strength != (Binary64 { bits: MINUS_INFINITY })),
                change == (|w: Weighed| (w.record.id, w.strength)),
                activations_of(r@) == s.take(i as int).filter(keep).map_values(change),
            decreases all@.len() - i,
        {
            let ghost before = r@;
            let ghost kept = s.take(i as int).filter(keep);
            let ghost w = s[i as int];
            assert(w == (Weighed { record: all@[i as int]@, strength: activations@[i as int] }));
            assert(s.take(i + 1).drop_last() == s.take(i as int));
            assert(s.take(i + 1).last() == w);
            assert(s.take(i + 1).filter(keep) == if keep(w) {
                kept.push(w)
            } else {
                kept
            }) by {
                reveal(Seq::filter);
            }
            let a = activations[i];
            if a.bits != MINUS_INFINITY {
                r.push((all[i].id.clone(), a));
                assert(activations_of(r@) =~= activations_of(before).push(change(w)));
                assert(kept.push(w).map_values(change) =~= kept.map_values(change).push(
                    change(w),
                ));
            }
            i = i + 1;
        }
        assert(s.take(all@.len() as int) == s);
        r
    }

    /// Recalls memories: of the candidates for a query those are returned that
    /// the recall is sure enough of.
    pub fn recall(
        &mut self,
        candidates: &Vec<Candidate>,
        min_confidence: Option<Binary64>,
    ) -> (r: Vec<RecallResult>)
        requires
            old(self).wf(),
        ensures
            final(self).wf(),
            results_of(r@) == recall_results(
                candidates_of(candidates@),
                or_else(min_confidence, Binary64 { bits: 0 }),
            ),
            exists|times: Seq<Timestamp>|
                times.len() == candidates@.len() && crate::host::are_clock_times(times)
                    && final(self)@ == #[trigger] after_recall(
                    old(self)@,
                    result_ids(results_of(r@)),
                    times,
                ),
    {
        self.recall_hybrid(candidates, min_confidence)
    }

    /// Recalls memories: of the candidates for a query and an embedding those
    /// are returned that the recall is sure enough of.
    pub fn recall_hybrid(
        &mut self,
        candidates: &Vec<Candidate>,
        min_confidence: Option<Binary64>,
    ) -> (r: Vec<RecallResult>)
        requires
            old(self).wf(),
        ensures
            final(self).wf(),
            results_of(r@) == recall_results(
                candidates_of(candidates@),
                or_else(min_confidence, Binary64 { bits: 0 }),
            ),
            exists|times: Seq<Timestamp>|
                times.len() == candidates@.len() && crate::host::are_clock_times(times)
                    && final(self)@ == #[trigger] after_recall(
                    old(self)@,
                    result_ids(results_of(r@)),
                    times,
                ),
    {
        let mut times: Vec<Timestamp> = Vec::new();
        let mut i: usize = 0;
        while i < candidates.len()
            invariant
                i <= candidates@.len(),
                times@.len() == i,
                crate::host::are_clock_times(times@),
            decreases candidates@.len() - i,
        {
            times.push(now());
            i = i + 1;
        }
        self.recall_at(candidates, min_confidence, &times)
    }

    /// Recalls memories, where the results are accessed at the given times.
    pub fn recall_at(
        &mut self,
        candidates: &Vec<Candidate>,
        min_confidence: Option<Binary64>,
        times: &Vec<Timestamp>,
    ) -> (r: Vec<RecallResult>)
        requires
            old(self).wf(),
            times@.len() >= candidates@.len(),
        ensures
            final(self).wf(),
            results_of(r@) == recall_results(
                candidates_of(candidates@),
                or_else(min_confidence, Binary64 { bits: 0 }),
            ),
            final(self)@ == after_recall(old(self)@, result_ids(results_of(r@)), times@),
    {
        let min = match min_confidence {
            Some(x) => x,
            None => Binary64 { bits: 0 },
        };
        let r = assess(candidates, min);
        let ghost m = self@;
        let ghost ids = result_ids(results_of(r@));
        let mut i: usize = 0;
        assert(ids.take(0).len() == 0);
        while i < r.len()
            invariant
                i <= r@.len(),
                r@.len() <= times@.len(),
                ids == result_ids(results_of(r@)),
                self.wf(),
                self@ == (MemoryView {
                    store: accessed_first(m.store, ids, times@, i as nat),
                    meta: counted_all(m.meta, ids.take(i as int), Outcome::Retrieved),
                    ..m
                }),
            decreases r@.len() - i,
        {
            assert(ids.take(i + 1).drop_last() == ids.take(i as int));
            assert(ids[i as int] == r@[i as int].record.id@);
            self.storage.record_access_at(r[i].record.id.as_str(), times[i]);
            self.meta_stats.count(r[i].record.id.as_str(), Outcome::Retrieved);
            i = i + 1;
        }
        assert(ids.take(ids.len() as int) == ids);
        if self.config.hebbian_enabled {
            self.record_pairs(&r);
        }
        r
    }

    /// Records that each pair of some results has been recalled together.
    fn record_pairs(&mut self, r: &Vec<RecallResult>)
        requires
            old(self).wf(),
        ensures
            final(self).wf(),
            final(self)@ == old(self)@.with_store(
                StoreView {
                    links: all_paired(
                        old(self)@.store.links,
                        result_ids(results_of(r@)),
                        r@.len(),
                        old(self)@.config.hebbian_threshold,
                    ),
                    ..old(self)@.store
                },
            ),
    {
        let threshold = self.config.hebbian_threshold;
        let ghost m = self@;
        let ghost ids = result_ids(results_of(r@));
        let mut i: usize = 0;
        while i < r.len()
            invariant
                i <= r@.len(),
                ids == result_ids(results_of(r@)),
                threshold == m.config.hebbian_threshold,
                self.wf(),
                self@ == m.with_store(
                    StoreView {
                        links: all_paired(m.store.links, ids, i as nat, threshold),
                        ..m.store
                    },
                ),
            decreases r@.len() - i,
        {
            let ghost before = all_paired(m.store.links, ids, i as nat, threshold);
            let mut j: usize = i + 1;
            while j < r.len()
                invariant
                    i < j <= r@.len(),
                    ids == result_ids(results_of(r@)),
                    self.wf(),
                    self@ == m.with_store(
                        StoreView {
                            links: paired(before, ids, i as nat, j as nat, threshold),
                            ..m.store
                        },
                    ),
                decreases r@.len() - j,
            {
                assert(ids[i as int] == r@[i as int].record.id@);
                assert(ids[j as int] == r@[j as int].record.id@);
                self.storage.record_coactivation(
                    r[i].record.id.as_str(),
                    r[j].record.id.as_str(),
                    threshold,
                );
                j = j + 1;
            }
            i = i + 1;
        }
    }
}

/// The candidates that the recall is sure enough of.
pub fn assess(candidates: &Vec<Candidate>, min_confidence: Binary64) -> (r: Vec<RecallResult>)
    ensures
        results_of(r@) == recall_results(candidates_of(candidates@), min_confidence),
        r@.len() <= candidates@.len(),
{
    let ghost s = candidates_of(candidates@).map_values(|x: CandidateView| assessed(x));
    let ghost keep = |r: ResultView| r.confidence.at_least(min_confidence);
    let mut r: Vec<RecallResult> = Vec::new();
    let mut i: usize = 0;
    assert(s.take(0).filter(keep) =~= Seq::<ResultView>::empty()) by {
        reveal(Seq::filter);
    }
    assert(results_of(r@) =~= Seq::<ResultView>::empty());
    while i < candidates.len()
        invariant
            i <= candidates@.len(),
            s == candidates_of(candidates@).map_values(|x: CandidateView| assessed(x)),
            keep == (|r: ResultView| r.confidence.at_least(min_confidence)),
            results_of(r@) == s.take(i as int).filter(keep),
            r@.len() <= i,
        decreases candidates@.len() - i,
    {
        let ghost before = r@;
        assert(s.take(i + 1).drop_last() == s.take(i as int));
        assert(s.take(i + 1).last() == s[i as int]);
        let c = &candidates[i];
        let confidence = compute_confidence(c.score, c.record.importance);
        if confidence.ge(min_confidence) {
            let x = RecallResult {
                record: c.record.clone(),
                activation: c.score,
                confidence,
                confidence_label: confidence_label(confidence),
            };
            assert(x@ == s[i as int]);
            r.push(x);
            assert(results_of(r@) =~= results_of(before).push(x@));
        }
        assert(results_of(r@) == s.take(i + 1).filter(keep)) by {
            reveal(Seq::filter);
        }
        i = i + 1;
    }
    assert(s.take(candidates@.len() as int) == s);
    r
}

// --- Consolidation ---

/// The store after the lessons of the first `n` tallies are applied.
pub open spec fn learned(
    st: StoreView,
    meta: Seq<crate::meta::TallyView>,
    n: nat,
) -> StoreView
    decreases n,
{
    if n == 0 {
        st
    } else {
        let before = learned(st, meta, (n - 1) as nat);
        let t = meta[n - 1];
        match (t.tally.lesson(), crate::store::lookup(before.memories, t.id)) {
            (Some(by), Some(r)) => before.updated(
                RecordView { importance: crate::meta::adjusted(r.importance, by), ..r },
            ),
            _ => before,
        }
    }
}

/// The store after links are decayed, where they are enabled.
pub open spec fn decayed(st: StoreView, config: MemoryConfig) -> StoreView {
    if config.hebbian_enabled {
        StoreView { links: crate::links::after_decay(st.links, config.hebbian_decay), ..st }
    } else {
        st
    }
}

/// The memory system after a consolidation cycle that leaves some memories as
/// given.
pub open spec fn consolidated(m: MemoryView, rewritten: Seq<RecordView>) -> MemoryView {
    m.with_store(
        learned(decayed(m.store.with_updates(rewritten), m.config), m.meta, m.meta.len()),
    )
}

impl Memory {
    /// Consolidates memories, given those that the consolidation cycle has
    /// changed: they are stored, links decay, and the importance of memories is
    /// adjusted to the feedback on them.
    pub fn consolidate(&mut self, rewritten: &Vec<MemoryRecord>)
        requires
            old(self).wf(),
        ensures
            final(self).wf(),
            final(self)@ == consolidated(old(self)@, crate::types::records(rewritten@)),
    {
        self.storage.update_all(rewritten);
        if self.config.hebbian_enabled {
            self.storage.decay_hebbian_links(self.config.hebbian_decay);
        }
        self.meta_learn();
    }

    /// Adjusts the importance of memories to the feedback on them.
    fn meta_learn(&mut self)
        requires
            old(self).wf(),
        ensures
            final(self).wf(),
            final(self)@ == old(self)@.with_store(
                learned(old(self)@.store, old(self)@.meta, old(self)@.meta.len()),
            ),
    {
        let ghost m = self@;
        let mut i: usize = 0;
        while i < self.meta_stats.len()
            invariant
                i <= m.meta.len(),
                self.wf(),
                self@ == m.with_store(learned(m.store, m.meta, i as nat)),
            decreases m.meta.len() - i,
        {
            let (id, tally) = self.meta_stats.entry(i);
            match tally.adjustment() {
                Some(by) => {
                    match self.storage.get(id) {
                        Some(record) => {
                            let mut record = record;
                            let ghost before = record@;
                            record.importance = record.importance.add(by).clamp(
                                Binary64 { bits: TWENTIETH },
                                Binary64 { bits: ONE },
                            );
                            assert(record@ =~= (RecordView {
                                importance: crate::meta::adjusted(before.importance, by),
                                ..before
                            }));
                            self.storage.update(&record);
                        },
                        None => {},
                    }
                },
                None => {},
            }
            i = i + 1;
        }
    }
}

// --- Compression ---

impl Memory {
    /// Merges linked memories whose contents are alike into one, by `merge_fn`
    /// where one is given, else by joining their sentences. Returns the number
    /// of merges.
    pub fn compress<F: Fn(&[&str]) -> String>(
        &mut self,
        similarity_threshold: Binary64,
        merge_fn: Option<F>,
    ) -> (count: usize)
        requires
            old(self).wf(),
            merge_fn matches Some(f) ==> forall|arg: &[&str]| #[trigger] call_requires(f, (arg,)),
        ensures
            final(self).wf(),
            exists|texts: Seq<Seq<char>>| #[trigger]
                crate::compression::texts_of_merges(
                    merge_fn,
                    crate::compression::compression(
                        old(self)@.store,
                        similarity_threshold,
                        texts,
                    ),
                    texts,
                ) && final(self)@ == old(self)@.with_store(
                    crate::compression::compression(
                        old(self)@.store,
                        similarity_threshold,
                        texts,
                    ).store,
                ) && count == texts.len(),
    {
        compress_store(&mut self.storage, similarity_threshold, &merge_fn)
    }
}

} // verus!
