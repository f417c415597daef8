//! Memory records and the other values that pass through the library.

use vstd::prelude::*;
use crate::binary::{Binary32, Binary64};
use crate::text::same;

verus! {

/// A kind of memory.
#[derive(Clone, Copy, PartialEq, Eq, Structural, Debug)]
pub enum MemoryType {
    Factual,
    Episodic,
    Relational,
    Emotional,
    Procedural,
    Opinion,
    Causal,
}

impl MemoryType {
    pub open spec fn name(self) -> Seq<char> {
        match self {
            MemoryType::Factual => "factual"@,
            MemoryType::Episodic => "episodic"@,
            MemoryType::Relational => "relational"@,
            MemoryType::Emotional => "emotional"@,
            MemoryType::Procedural => "procedural"@,
            MemoryType::Opinion => "opinion"@,
            MemoryType::Causal => "causal"@,
        }
    }

    /// The type with the given name; factual where no type has it.
    pub open spec fn named(name: Seq<char>) -> MemoryType {
        if name == "episodic"@ {
            MemoryType::Episodic
        } else if name == "relational"@ {
            MemoryType::Relational
        } else if name == "emotional"@ {
            MemoryType::Emotional
        } else if name == "procedural"@ {
            MemoryType::Procedural
        } else if name == "opinion"@ {
            MemoryType::Opinion
        } else if name == "causal"@ {
            MemoryType::Causal
        } else {
            MemoryType::Factual
        }
    }

    /// The name of the type.
    pub fn to_string(&self) -> (r: String)
        ensures
            r@ == self.name(),
    {
        match self {
            MemoryType::Factual => "factual".to_owned(),
            MemoryType::Episodic => "episodic".to_owned(),
            MemoryType::Relational => "relational".to_owned(),
            MemoryType::Emotional => "emotional".to_owned(),
            MemoryType::Procedural => "procedural".to_owned(),
            MemoryType::Opinion => "opinion".to_owned(),
            MemoryType::Causal => "causal".to_owned(),
        }
    }

    /// The type with the given name; factual where no type has it.
    pub fn from_name(name: &str) -> (r: MemoryType)
        ensures
            r == MemoryType::named(name@),
    {
        if same(name, "episodic") {
            MemoryType::Episodic
        } else if same(name, "relational") {
            MemoryType::Relational
        } else if same(name, "emotional") {
            MemoryType::Emotional
        } else if same(name, "procedural") {
            MemoryType::Procedural
        } else if same(name, "opinion") {
            MemoryType::Opinion
        } else if same(name, "causal") {
            MemoryType::Causal
        } else {
            MemoryType::Factual
        }
    }
}

/// The name of a type stands for that type.
pub proof fn type_name_round_trip(t: MemoryType)
    ensures
        MemoryType::named(t.name()) == t,
{
    reveal_strlit("factual");
    reveal_strlit("episodic");
    reveal_strlit("relational");
    reveal_strlit("emotional");
    reveal_strlit("procedural");
    reveal_strlit("opinion");
    reveal_strlit("causal");
    assert("relational"@[0] == 'r' && "procedural"@[0] == 'p');
    assert("episodic"@.len() == 8 && "relational"@.len() == 10 && "emotional"@.len() == 9);
    assert("procedural"@.len() == 10 && "opinion"@.len() == 7 && "causal"@.len() == 6);
    assert("factual"@.len() == 7);
    assert("factual"@[0] == 'f' && "opinion"@[0] == 'o');
}

/// A layer of memory.
#[derive(Clone, Copy, PartialEq, Eq, Structural, Debug)]
pub enum MemoryLayer {
    Core,
    Working,
    Archive,
}

impl MemoryLayer {
    pub open spec fn name(self) -> Seq<char> {
        match self {
            MemoryLayer::Core => "core"@,
            MemoryLayer::Working => "working"@,
            MemoryLayer::Archive => "archive"@,
        }
    }

    /// The layer with the given name; the working one where no layer has it.
    pub open spec fn named(name: Seq<char>) -> MemoryLayer {
        if name == "core"@ {
            MemoryLayer::Core
        } else if name == "archive"@ {
            MemoryLayer::Archive
        } else {
            MemoryLayer::Working
        }
    }

    /// The name of the layer.
    pub fn to_string(&self) -> (r: String)
        ensures
            r@ == self.name(),
    {
        match self {
            MemoryLayer::Core => "core".to_owned(),
            MemoryLayer::Working => "working".to_owned(),
            MemoryLayer::Archive => "archive".to_owned(),
        }
    }

    /// The layer with the given name; the working one where no layer has it.
    pub fn from_name(name: &str) -> (r: MemoryLayer)
        ensures
            r == MemoryLayer::named(name@),
    {
        if same(name, "core") {
            MemoryLayer::Core
        } else if same(name, "archive") {
            MemoryLayer::Archive
        } else {
            MemoryLayer::Working
        }
    }
}

/// The name of a layer stands for that layer.
pub proof fn layer_name_round_trip(l: MemoryLayer)
    ensures
        MemoryLayer::named(l.name()) == l,
{
    reveal_strlit("core");
    reveal_strlit("working");
    reveal_strlit("archive");
    assert("working"@[0] == 'w' && "archive"@[0] == 'a');
}

/// A moment: seconds since the start of 1970 (UTC), and nanoseconds. During
/// a leap second the nanoseconds go on past a thousand million.
#[derive(Clone, Copy, PartialEq, Eq, Structural, Debug)]
pub struct Timestamp {
    pub secs: i64,
    pub nanos: u32,
}

impl Timestamp {
    /// Whether `self` is before `other` or the same moment.
    pub open spec fn not_after(self, other: Timestamp) -> bool {
        self.secs < other.secs || (self.secs == other.secs && self.nanos <= other.nanos)
    }

    /// Whether `self` is before `other` or the same moment.
    pub fn le(self, other: Timestamp) -> (r: bool)
        ensures
            r == self.not_after(other),
    {
        self.secs < other.secs || (self.secs == other.secs && self.nanos <= other.nanos)
    }
}

/// What an optional text holds.
pub open spec fn opt_text(o: Option<String>) -> Option<Seq<char>> {
    match o {
        Some(s) => Some(s@),
        None => None,
    }
}

/// What an optional vector holds.
pub open spec fn opt_seq<T>(o: Option<Vec<T>>) -> Option<Seq<T>> {
    match o {
        Some(v) => Some(v@),
        None => None,
    }
}

/// One memory.
#[derive(Debug)]
pub struct MemoryRecord {
    pub id: String,
    pub content: String,
    pub memory_type: MemoryType,
    pub layer: MemoryLayer,
    pub created_at: Timestamp,
    pub access_times: Vec<Timestamp>,
    pub working_strength: Binary64,
    pub core_strength: Binary64,
    pub importance: Binary64,
    pub pinned: bool,
    pub consolidation_count: i32,
    pub last_consolidated: Option<Timestamp>,
    pub source: String,
    pub contradicts: Option<String>,
    pub contradicted_by: Option<String>,
    /// A JSON text.
    pub metadata: Option<String>,
    pub embedding: Option<Vec<Binary32>>,
}

/// What a [`MemoryRecord`] holds.
#[verifier::ext_equal]
pub struct RecordView {
    pub id: Seq<char>,
    pub content: Seq<char>,
    pub memory_type: MemoryType,
    pub layer: MemoryLayer,
    pub created_at: Timestamp,
    pub access_times: Seq<Timestamp>,
    pub working_strength: Binary64,
    pub core_strength: Binary64,
    pub importance: Binary64,
    pub pinned: bool,
    pub consolidation_count: i32,
    pub last_consolidated: Option<Timestamp>,
    pub source: Seq<char>,
    pub contradicts: Option<Seq<char>>,
    pub contradicted_by: Option<Seq<char>>,
    pub metadata: Option<Seq<char>>,
    pub embedding: Option<Seq<Binary32>>,
}

impl View for MemoryRecord {
    type V = RecordView;

    open spec fn view(&self) -> RecordView {
        RecordView {
            id: self.id@,
            content: self.content@,
            memory_type: self.memory_type,
            layer: self.layer,
            created_at: self.created_at,
            access_times: self.access_times@,
            working_strength: self.working_strength,
            core_strength: self.core_strength,
            importance: self.importance,
            pinned: self.pinned,
            consolidation_count: self.consolidation_count,
            last_consolidated: self.last_consolidated,
            source: self.source@,
            contradicts: opt_text(self.contradicts),
            contradicted_by: opt_text(self.contradicted_by),
            metadata: opt_text(self.metadata),
            embedding: opt_seq(self.embedding),
        }
    }
}

/// What some records hold.
pub open spec fn records(v: Seq<MemoryRecord>) -> Seq<RecordView> {
    Seq::new(v.len(), |i: int| v[i]@)
}

fn clone_text(o: &Option<String>) -> (r: Option<String>)
    ensures
        opt_text(r) == opt_text(*o),
{
    match o {
        Some(s) => Some(s.clone()),
        None => None,
    }
}

/// A copy of some moments.
pub fn clone_times(v: &Vec<Timestamp>) -> (r: Vec<Timestamp>)
    ensures
        r@ == v@,
{
    let mut r: Vec<Timestamp> = Vec::new();
    let mut i: usize = 0;
    while i < v.len()
        invariant
            i <= v.len(),
            r@ == v@.take(i as int),
        decreases v.len() - i,
    {
        r.push(v[i]);
        i = i + 1;
    }
    assert(v@.take(v.len() as int) == v@);
    r
}

fn clone_embedding(o: &Option<Vec<Binary32>>) -> (r: Option<Vec<Binary32>>)
    ensures
        opt_seq(r) == opt_seq(*o),
{
    match o {
        Some(v) => {
            let mut r: Vec<Binary32> = Vec::new();
            let mut i: usize = 0;
            while i < v.len()
                invariant
                    i <= v.len(),
                    r@ == v@.take(i as int),
                decreases v.len() - i,
            {
                r.push(v[i]);
                i = i + 1;
            }
            assert(v@.take(v.len() as int) == v@);
            Some(r)
        },
        None => None,
    }
}

impl Clone for MemoryRecord {
    fn clone(&self) -> (r: Self)
        ensures
            r@ == self@,
    {
        MemoryRecord {
            id: self.id.clone(),
            content: self.content.clone(),
            memory_type: self.memory_type,
            layer: self.layer,
            created_at: self.created_at,
            access_times: clone_times(&self.access_times),
            working_strength: self.working_strength,
            core_strength: self.core_strength,
            importance: self.importance,
            pinned: self.pinned,
            consolidation_count: self.consolidation_count,
            last_consolidated: self.last_consolidated,
            source: self.source.clone(),
            contradicts: clone_text(&self.contradicts),
            contradicted_by: clone_text(&self.contradicted_by),
            metadata: clone_text(&self.metadata),
            embedding: clone_embedding(&self.embedding),
        }
    }
}

/// Tunable parameters of a memory.
#[derive(Clone, Copy, Debug)]
pub struct MemoryConfig {
    pub actr_decay: Binary64,
    pub context_weight: Binary64,
    pub importance_weight: Binary64,
    pub contradiction_penalty: Binary64,
    pub hebbian_enabled: bool,
    /// How often two memories are recalled together before they are linked.
    pub hebbian_threshold: i32,
    pub hebbian_decay: Binary64,
    pub forget_threshold: Binary64,
    pub reward_magnitude: Binary64,
    pub downscale_factor: Binary64,
}

/// Tunable parameters of the retrieval pipeline.
#[derive(Clone, Copy, Debug)]
pub struct RetrievalConfig {
    pub cognitive_weight: Binary64,
    pub semantic_weight: Binary64,
    pub keyword_weight: Binary64,
    pub mmr_lambda: Binary64,
    pub min_content_length: usize,
    pub candidate_multiplier: usize,
}

/// A recalled memory.
#[derive(Debug, Clone)]
pub struct RecallResult {
    pub record: MemoryRecord,
    pub activation: Binary64,
    pub confidence: Binary64,
    pub confidence_label: String,
}

/// Figures on the memories of one type.
#[derive(Clone, Copy, PartialEq, Eq, Structural, Debug)]
pub struct TypeStats {
    pub count: usize,
    pub avg_strength: Binary64,
    pub avg_importance: Binary64,
}

/// Figures on the memories of one layer.
#[derive(Clone, Copy, PartialEq, Eq, Structural, Debug)]
pub struct LayerStats {
    pub count: usize,
    pub avg_working: Binary64,
    pub avg_core: Binary64,
}

/// Figures on all memories. Types and layers without memories are left out.
#[derive(Debug, Clone)]
pub struct MemoryStats {
    pub total_memories: usize,
    pub by_type: Vec<(String, TypeStats)>,
    pub by_layer: Vec<(String, LayerStats)>,
    pub pinned: usize,
    pub uptime_hours: Binary64,
}

} // verus!
