//! Rows, queries and vector search of the SQLite backend.

use vstd::prelude::*;
use crate::binary::{Binary32, Binary64};
use crate::notation::{parse_json, parse_rfc3339, print_rfc3339};
use crate::host::now;
use crate::numbers::SINGLE_TINY;
use crate::ranking::{rank, Scored};
use crate::text::{join, same, terms_of};
use crate::types::{MemoryLayer, MemoryRecord, MemoryType, RecordView, Timestamp};
use crate::vector::dot_product;

verus! {

// --- Connecting and querying ---

/// The URL of a database: in memory for `:memory:`, unchanged where it is a
/// URL, else a file that is created where it is missing.
pub open spec fn url_of(name: Seq<char>) -> Seq<char> {
    if name == ":memory:"@ {
        "sqlite::memory:"@
    } else if "sqlite:"@.is_prefix_of(name) {
        name
    } else {
        "sqlite:"@ + name + "?mode=rwc"@
    }
}

/// Whether a text starts with `sqlite:`.
fn is_url(name: &str) -> (r: bool)
    ensures
        r == "sqlite:"@.is_prefix_of(name@),
{
    let a = crate::text::chars_of("sqlite:");
    let b = crate::text::chars_of(name);
    if b.len() < a.len() {
        return false;
    }
    let mut i: usize = 0;
    while i < a.len()
        invariant
            i <= a@.len() <= b@.len(),
            a@ == "sqlite:"@,
            b@ == name@,
            forall|k: int| 0 <= k < i ==> a@[k] == b@[k],
        decreases a@.len() - i,
    {
        if a[i] != b[i] {
            return false;
        }
        i = i + 1;
    }
    true
}

/// The URL of a database.
pub fn database_url(name: &str) -> (r: String)
    ensures
        r@ == url_of(name@),
{
    if same(name, ":memory:") {
        "sqlite::memory:".to_owned()
    } else if is_url(name) {
        name.to_owned()
    } else {
        let mut parts: Vec<String> = Vec::new();
        parts.push("sqlite:".to_owned());
        parts.push(name.to_owned());
        parts.push("?mode=rwc".to_owned());
        let r = join(&parts, "");
        proof {
            let t = crate::text::texts(parts@);
            assert(t =~= seq!["sqlite:"@, name@, "?mode=rwc"@]);
            reveal_with_fuel(crate::text::joined, 3);
            assert(t.drop_last() =~= seq!["sqlite:"@, name@]);
            assert(t.drop_last().drop_last() =~= seq!["sqlite:"@]);
            reveal_strlit("");
            assert(r@ =~= url_of(name@));
        }
        r
    }
}

/// The full-text query for a text: any of its terms; none where it has no
/// terms.
pub fn fts_query(query: &str) -> (r: Option<String>)
    ensures
        crate::types::opt_text(r) == if crate::text::terms(query@).len() == 0 {
            None
        } else {
            Some(crate::text::joined(crate::text::terms(query@), " OR "@))
        },
{
    let terms = terms_of(query);
    assert(crate::text::texts(terms@).len() == terms@.len());
    if terms.len() == 0 {
        None
    } else {
        Some(join(&terms, " OR "))
    }
}

// --- Embeddings as bytes ---

/// The number in four bytes, the least significant first.
pub open spec fn from_bytes(b: Seq<u8>, i: int) -> Binary32 {
    Binary32 {
        bits: (b[i] + 0x100 * b[i + 1] + 0x10000 * b[i + 2] + 0x1000000 * b[i + 3]) as u32,
    }
}

/// The numbers in some bytes, four bytes each. Bytes left over at the end are
/// not read.
pub open spec fn floats(b: Seq<u8>) -> Seq<Binary32> {
    Seq::new(b.len() / 4, |i: int| from_bytes(b, 4 * i))
}

/// A byte of a number: number 0 is the least significant.
pub open spec fn byte_of(x: Binary32, k: int) -> u8 {
    (if k == 0 {
        x.bits % 0x100
    } else if k == 1 {
        x.bits / 0x100 % 0x100
    } else if k == 2 {
        x.bits / 0x10000 % 0x100
    } else {
        x.bits / 0x1000000
    }) as u8
}

/// The bytes of some numbers.
pub open spec fn bytes(v: Seq<Binary32>) -> Seq<u8> {
    Seq::new(4 * v.len(), |k: int| byte_of(v[k / 4], k % 4))
}

/// Numbers that were written as bytes are read back.
pub proof fn bytes_round_trip(v: Seq<Binary32>)
    ensures
        floats(bytes(v)) == v,
{
    let b = bytes(v);
    let f = floats(b);
    assert(b.len() / 4 == v.len());
    assert forall|i: int| 0 <= i < v.len() implies f[i] == v[i] by {
        assert((4 * i) / 4 == i && (4 * i) % 4 == 0);
        assert((4 * i + 1) / 4 == i && (4 * i + 1) % 4 == 1);
        assert((4 * i + 2) / 4 == i && (4 * i + 2) % 4 == 2);
        assert((4 * i + 3) / 4 == i && (4 * i + 3) % 4 == 3);
        let x = v[i].bits;
        assert(x == x % 0x100 + 0x100 * (x / 0x100 % 0x100) + 0x10000 * (x / 0x10000 % 0x100)
            + 0x1000000 * (x / 0x1000000));
        assert(x / 0x1000000 < 0x100);
    }
    assert(f =~= v);
}

/// The numbers in some bytes.
pub fn blob_to_f32(blob: &[u8]) -> (r: Vec<Binary32>)
    ensures
        r@ == floats(blob@),
{
    let mut r: Vec<Binary32> = Vec::new();
    let n: usize = blob.len() / 4;
    let mut i: usize = 0;
    while i < n
        invariant
            i <= n,
            n == blob@.len() / 4,
            blob@.len() <= usize::MAX,
            r@ == floats(blob@).take(i as int),
        decreases n - i,
    {
        let k: usize = 4 * i;
        let x: u32 = blob[k] as u32 + 0x100 * blob[k + 1] as u32 + 0x10000 * blob[k + 2] as u32
            + 0x1000000 * blob[k + 3] as u32;
        r.push(Binary32 { bits: x });
        assert(r@ =~= floats(blob@).take(i + 1));
        i = i + 1;
    }
    assert(floats(blob@).take(n as int) =~= floats(blob@));
    r
}

/// The bytes of some numbers.
pub fn f32_to_blob(v: &Vec<Binary32>) -> (r: Vec<u8>)
    ensures
        r@ == bytes(v@),
{
    let mut r: Vec<u8> = Vec::new();
    let mut i: usize = 0;
    while i < v.len()
        invariant
            i <= v@.len(),
            r@.len() == 4 * i,
            forall|k: int| 0 <= k < 4 * i ==> #[trigger] r@[k] == byte_of(v@[k / 4], k % 4),
        decreases v@.len() - i,
    {
        let x = v[i].bits;
        let ghost before = r@;
        r.push((x % 0x100) as u8);
        r.push((x / 0x100 % 0x100) as u8);
        r.push((x / 0x10000 % 0x100) as u8);
        r.push((x / 0x1000000) as u8);
        assert forall|k: int| 0 <= k < 4 * (i + 1) implies #[trigger] r@[k] == byte_of(
            v@[k / 4],
            k % 4,
        ) by {
            if k < 4 * i {
                assert(r@[k] == before[k]);
            } else {
                assert(k / 4 == i);
            }
        }
        i = i + 1;
    }
    assert(r@ =~= bytes(v@));
    r
}

// --- Rows ---

/// A row of the table of memories.
#[derive(Debug)]
pub struct SqliteRow {
    pub id: String,
    pub content: String,
    pub memory_type: String,
    pub layer: String,
    pub created_at: String,
    pub working_strength: Binary64,
    pub core_strength: Binary64,
    pub importance: Binary64,
    pub pinned: i32,
    pub consolidation_count: i32,
    pub last_consolidated: Option<String>,
    pub source: String,
    pub contradicts: Option<String>,
    pub contradicted_by: Option<String>,
    pub metadata: Option<String>,
    pub embedding: Option<Vec<u8>>,
}

/// The moment that an optional text stands for.
pub open spec fn opt_moment(o: Option<Seq<char>>) -> Option<Timestamp> {
    match o {
        Some(s) => crate::notation::moment_of(s),
        None => None,
    }
}

/// The JSON in an optional text.
pub open spec fn opt_json(o: Option<Seq<char>>) -> Option<Seq<char>> {
    match o {
        Some(s) => crate::notation::json_text(s),
        None => None,
    }
}

/// The numbers in optional bytes.
pub open spec fn opt_floats(o: Option<Seq<u8>>) -> Option<Seq<Binary32>> {
    match o {
        Some(b) => Some(floats(b)),
        None => None,
    }
}

/// The memory that a row holds, given what its texts stand for: the times of
/// creation and last consolidation, and the metadata. A memory without a time
/// of creation counts as created at `otherwise`.
pub open spec fn record_with(
    row: SqliteRow,
    created_at: Option<Timestamp>,
    last_consolidated: Option<Timestamp>,
    metadata: Option<Seq<char>>,
    access_times: Seq<Timestamp>,
    otherwise: Timestamp,
) -> RecordView {
    RecordView {
        id: row.id@,
        content: row.content@,
        memory_type: MemoryType::named(row.memory_type@),
        layer: MemoryLayer::named(row.layer@),
        created_at: match created_at {
            Some(t) => t,
            None => otherwise,
        },
        access_times,
        working_strength: row.working_strength,
        core_strength: row.core_strength,
        importance: row.importance,
        pinned: row.pinned != 0,
        consolidation_count: row.consolidation_count,
        last_consolidated,
        source: row.source@,
        contradicts: crate::types::opt_text(row.contradicts),
        contradicted_by: crate::types::opt_text(row.contradicted_by),
        metadata,
        embedding: opt_floats(crate::types::opt_seq(row.embedding)),
    }
}

/// The memory that a row holds. A memory whose time of creation cannot be read
/// counts as created at `otherwise`; a time of consolidation and metadata that
/// cannot be read are left out.
pub open spec fn record_of(
    row: SqliteRow,
    access_times: Seq<Timestamp>,
    otherwise: Timestamp,
) -> RecordView {
    record_with(
        row,
        crate::notation::moment_of(row.created_at@),
        opt_moment(crate::types::opt_text(row.last_consolidated)),
        opt_json(crate::types::opt_text(row.metadata)),
        access_times,
        otherwise,
    )
}

/// The memory that a row holds, given what its texts stand for.
pub fn fill_record(
    row: SqliteRow,
    created_at: Option<Timestamp>,
    last_consolidated: Option<Timestamp>,
    metadata: Option<String>,
    access_times: Vec<Timestamp>,
    otherwise: Timestamp,
) -> (r: MemoryRecord)
    ensures
        r@ == record_with(
            row,
            created_at,
            last_consolidated,
            crate::types::opt_text(metadata),
            access_times@,
            otherwise,
        ),
{
    let ghost w = record_with(
        row,
        created_at,
        last_consolidated,
        crate::types::opt_text(metadata),
        access_times@,
        otherwise,
    );
    let embedding = match &row.embedding {
        Some(b) => Some(blob_to_f32(b.as_slice())),
        None => None,
    };
    let r = MemoryRecord {
        memory_type: MemoryType::from_name(row.memory_type.as_str()),
        layer: MemoryLayer::from_name(row.layer.as_str()),
        id: row.id,
        content: row.content,
        created_at: match created_at {
            Some(t) => t,
            None => otherwise,
        },
        access_times,
        working_strength: row.working_strength,
        core_strength: row.core_strength,
        importance: row.importance,
        pinned: row.pinned != 0,
        consolidation_count: row.consolidation_count,
        last_consolidated,
        source: row.source,
        contradicts: row.contradicts,
        contradicted_by: row.contradicted_by,
        metadata,
        embedding,
    };
    assert(r@ =~= w);
    r
}

/// The memory that a row holds, with its access times, where a time of creation
/// that cannot be read is replaced.
pub fn row_to_record_at(
    row: SqliteRow,
    access_times: Vec<Timestamp>,
    otherwise: Timestamp,
) -> (r: MemoryRecord)
    ensures
        r@ == record_of(row, access_times@, otherwise),
{
    let created_at = parse_rfc3339(row.created_at.as_str());
    let last_consolidated = match &row.last_consolidated {
        Some(s) => parse_rfc3339(s.as_str()),
        None => None,
    };
    let metadata = match &row.metadata {
        Some(s) => parse_json(s.as_str()),
        None => None,
    };
    fill_record(row, created_at, last_consolidated, metadata, access_times, otherwise)
}

/// The memory that a row holds, with its access times. A memory whose time of
/// creation cannot be read counts as created now.
pub fn row_to_record(row: SqliteRow, access_times: Vec<Timestamp>) -> (r: MemoryRecord)
    ensures
        exists|otherwise: Timestamp|
            crate::host::is_clock_time(otherwise) && r@ == #[trigger] record_of(
                row,
                access_times@,
                otherwise,
            ),
        crate::notation::moment_of(row.created_at@) matches Some(t) ==> r@ == record_of(
            row,
            access_times@,
            t,
        ),
{
    let otherwise = now();
    row_to_record_at(row, access_times, otherwise)
}

/// Whether a row is what a memory is written as, given the texts of its times.
pub open spec fn is_row_of(
    row: SqliteRow,
    r: RecordView,
    created_at: Seq<char>,
    last_consolidated: Option<Seq<char>>,
) -> bool {
    &&& row.id@ == r.id
    &&& row.content@ == r.content
    &&& row.memory_type@ == r.memory_type.name()
    &&& row.layer@ == r.layer.name()
    &&& row.created_at@ == created_at
    &&& row.working_strength == r.working_strength
    &&& row.core_strength == r.core_strength
    &&& row.importance == r.importance
    &&& row.pinned == if r.pinned {
        1i32
    } else {
        0i32
    }
    &&& row.consolidation_count == r.consolidation_count
    &&& crate::types::opt_text(row.last_consolidated) == last_consolidated
    &&& row.source@ == r.source
    &&& crate::types::opt_text(row.contradicts) == r.contradicts
    &&& crate::types::opt_text(row.contradicted_by) == r.contradicted_by
    &&& crate::types::opt_text(row.metadata) == r.metadata
    &&& crate::types::opt_seq(row.embedding) == match r.embedding {
        Some(v) => Some(bytes(v)),
        None => None,
    }
}

/// A row that a memory was written as gives the memory back, with what its
/// texts stand for.
pub proof fn row_round_trip(
    row: SqliteRow,
    r: RecordView,
    created_at: Seq<char>,
    last_consolidated: Option<Seq<char>>,
    otherwise: Timestamp,
)
    requires
        is_row_of(row, r, created_at, last_consolidated),
    ensures
        record_of(row, r.access_times, otherwise) == (RecordView {
            created_at: match crate::notation::moment_of(created_at) {
                Some(t) => t,
                None => otherwise,
            },
            last_consolidated: opt_moment(last_consolidated),
            metadata: opt_json(r.metadata),
            ..r
        }),
{
    crate::types::type_name_round_trip(r.memory_type);
    crate::types::layer_name_round_trip(r.layer);
    if let Some(v) = r.embedding {
        bytes_round_trip(v);
    }
}

/// The row that a memory is written as, given the texts of its times.
pub fn fill_row(r: &MemoryRecord, created_at: String, last_consolidated: Option<String>) -> (row:
    SqliteRow)
    ensures
        is_row_of(row, r@, created_at@, crate::types::opt_text(last_consolidated)),
{
    let embedding = match &r.embedding {
        Some(v) => Some(f32_to_blob(v)),
        None => None,
    };
    let c = r.clone();
    SqliteRow {
        memory_type: c.memory_type.to_string(),
        layer: c.layer.to_string(),
        id: c.id,
        content: c.content,
        created_at,
        working_strength: c.working_strength,
        core_strength: c.core_strength,
        importance: c.importance,
        pinned: if c.pinned {
            1
        } else {
            0
        },
        consolidation_count: c.consolidation_count,
        last_consolidated,
        source: c.source,
        contradicts: c.contradicts,
        contradicted_by: c.contradicted_by,
        metadata: c.metadata,
        embedding,
    }
}

/// The text of an optional moment.
pub open spec fn opt_time_text(o: Option<Timestamp>) -> Option<Seq<char>> {
    match o {
        Some(t) => crate::notation::rfc3339_text(t.secs, t.nanos),
        None => None,
    }
}

/// The row that a memory is written as; none where one of its times is outside
/// of the calendar. Read again, the row gives the same memory, with its metadata
/// as JSON is printed, if its times are in the years 0 to 9999.
pub fn record_to_row(r: &MemoryRecord) -> (row: Option<SqliteRow>)
    ensures
        row is None <==> crate::notation::rfc3339_text(r.created_at.secs, r.created_at.nanos) is None
            || (r.last_consolidated is Some && opt_time_text(r.last_consolidated) is None),
        row matches Some(w) ==> crate::notation::rfc3339_text(
            r.created_at.secs,
            r.created_at.nanos,
        ) == Some(w.created_at@) && is_row_of(
            w,
            r@,
            w.created_at@,
            opt_time_text(r.last_consolidated),
        ),
        row matches Some(w) ==> (crate::notation::in_calendar(r.created_at)
            ==> crate::notation::moment_of(w.created_at@) == Some(r.created_at)),
        crate::notation::in_calendar(r.created_at) && (r.last_consolidated matches Some(t)
            ==> crate::notation::in_calendar(t)) ==> (row matches Some(w) && forall|otherwise: Timestamp|
            #[trigger] record_of(w, r@.access_times, otherwise) == (RecordView {
                metadata: opt_json(r@.metadata),
                ..r@
            })),
{
    let created_at = match print_rfc3339(r.created_at) {
        Some(s) => s,
        None => {
            return None;
        },
    };
    let last_consolidated = match r.last_consolidated {
        Some(t) => match print_rfc3339(t) {
            Some(s) => Some(s),
            None => {
                return None;
            },
        },
        None => None,
    };
    let w = fill_row(r, created_at, last_consolidated);
    assert forall|otherwise: Timestamp|
        crate::notation::in_calendar(r.created_at) && (r.last_consolidated matches Some(t)
            ==> crate::notation::in_calendar(t)) implies #[trigger] record_of(
        w,
        r@.access_times,
        otherwise,
    ) == (RecordView { metadata: opt_json(r@.metadata), ..r@ }) by {
        row_round_trip(w, r@, w.created_at@, opt_time_text(r.last_consolidated), otherwise);
    }
    Some(w)
}

/// What is written for a new memory: its row, and the texts of its accesses.
/// Its creation counts as its one access, whatever accesses it holds; none
/// where one of its times is outside of the calendar. Read again, both give the
/// memory back, accessed when it was created, with its metadata as JSON is
/// printed, if its times are in the years 0 to 9999.
pub fn record_to_insert(r: &MemoryRecord) -> (w: Option<(SqliteRow, Vec<String>)>)
    ensures
        w is None <==> crate::notation::rfc3339_text(r.created_at.secs, r.created_at.nanos) is None
            || (r.last_consolidated is Some && opt_time_text(r.last_consolidated) is None),
        w matches Some((row, accesses)) ==> {
            &&& crate::notation::rfc3339_text(r.created_at.secs, r.created_at.nanos) == Some(
                row.created_at@,
            )
            &&& is_row_of(row, r@, row.created_at@, opt_time_text(r.last_consolidated))
            &&& crate::text::texts(accesses@) == seq![row.created_at@]
        },
        crate::notation::in_calendar(r.created_at) && (r.last_consolidated matches Some(t)
            ==> crate::notation::in_calendar(t)) ==> (w matches Some((row, accesses)) && forall|
            otherwise: Timestamp,
        |
            #[trigger] record_of(
                row,
                moments_of(crate::text::texts(accesses@)),
                otherwise,
            ) == (RecordView {
                access_times: seq![r@.created_at],
                metadata: opt_json(r@.metadata),
                ..r@
            })),
{
    match record_to_row(r) {
        Some(row) => {
            let mut accesses: Vec<String> = Vec::new();
            accesses.push(row.created_at.clone());
            let ghost s = crate::text::texts(accesses@);
            assert(s =~= seq![row.created_at@]);
            assert forall|otherwise: Timestamp|
                crate::notation::in_calendar(r.created_at) && (r.last_consolidated matches Some(t)
                    ==> crate::notation::in_calendar(t)) implies #[trigger] record_of(
                row,
                moments_of(s),
                otherwise,
            ) == (RecordView {
                access_times: seq![r@.created_at],
                metadata: opt_json(r@.metadata),
                ..r@
            }) by {
                lemma_moments_of_one(row.created_at@);
                let read = record_of(row, r@.access_times, otherwise);
                assert(read == (RecordView { metadata: opt_json(r@.metadata), ..r@ }));
            }
            Some((row, accesses))
        },
        None => None,
    }
}

/// The text of a moment; none where it is outside of the calendar.
pub fn time_to_text(t: Timestamp) -> (r: Option<String>)
    ensures
        crate::types::opt_text(r) == crate::notation::rfc3339_text(t.secs, t.nanos),
        crate::notation::in_calendar(t) ==> (r matches Some(s) && crate::notation::moment_of(s@)
            == Some(t)),
{
    print_rfc3339(t)
}

/// The moments that some texts stand for. Texts that cannot be read are left
/// out.
pub open spec fn moments_of(s: Seq<Seq<char>>) -> Seq<Timestamp> {
    s.filter_map(|t: Seq<char>| crate::notation::moment_of(t))
}

proof fn lemma_moments_of_one(t: Seq<char>)
    ensures
        moments_of(seq![t]) == match crate::notation::moment_of(t) {
            Some(m) => seq![m],
            None => Seq::empty(),
        },
{
    let s = seq![t];
    let f = |t: Seq<char>| crate::notation::moment_of(t);
    assert(s.drop_last() =~= Seq::<Seq<char>>::empty());
    reveal_with_fuel(Seq::filter_map, 2);
}

/// The moments that some texts stand for. Texts that cannot be read are left
/// out.
pub fn texts_to_times(v: &Vec<String>) -> (r: Vec<Timestamp>)
    ensures
        r@ == moments_of(crate::text::texts(v@)),
{
    let ghost all = crate::text::texts(v@);
    let ghost f = |t: Seq<char>| crate::notation::moment_of(t);
    let mut r: Vec<Timestamp> = Vec::new();
    let mut i: usize = 0;
    assert(all.take(0).filter_map(f) =~= Seq::<Timestamp>::empty());
    while i < v.len()
        invariant
            i <= v@.len(),
            all == crate::text::texts(v@),
            f == (|t: Seq<char>| crate::notation::moment_of(t)),
            r@ == all.take(i as int).filter_map(f),
        decreases v@.len() - i,
    {
        assert(all.take(i + 1).drop_last() == all.take(i as int));
        assert(all.take(i + 1).last() == v@[i as int]@);
        let ghost before = r@;
        match parse_rfc3339(v[i].as_str()) {
            Some(t) => {
                r.push(t);
                assert(r@ =~= before + seq![t]);
            },
            None => {},
        }
        assert(r@ =~= all.take(i + 1).filter_map(f));
        i = i + 1;
    }
    assert(all.take(v@.len() as int) == all);
    r
}

// --- Vector search ---

/// The cosine of the angle between two vectors; 0 where they differ in length,
/// are empty, or are together too short in space.
pub open spec fn cosine(a: Seq<Binary32>, b: Seq<Binary32>) -> Binary32 {
    let zero = Binary32 { bits: 0 };
    let length = crate::vector::dot(a, a, a.len(), zero).root().times(
        crate::vector::dot(b, b, b.len(), zero).root(),
    );
    if a.len() != b.len() || a.len() == 0 || length.below(Binary32 { bits: SINGLE_TINY }) {
        zero
    } else {
        crate::vector::dot(a, b, a.len(), zero).over(length)
    }
}

/// The cosine of the angle between two vectors.
pub fn cosine_similarity(a: &[Binary32], b: &[Binary32]) -> (r: Binary32)
    ensures
        r == cosine(a@, b@),
{
    let zero = Binary32 { bits: 0 };
    if a.len() != b.len() || a.len() == 0 {
        return zero;
    }
    let dot = dot_product(a, b, zero);
    let length = dot_product(a, a, zero).sqrt().mul(dot_product(b, b, zero).sqrt());
    if length.lt(Binary32 { bits: SINGLE_TINY }) {
        zero
    } else {
        dot.div(length)
    }
}

/// The identifier and embedding of a memory.
pub struct Embedded {
    pub id: Seq<char>,
    pub blob: Seq<u8>,
}

pub open spec fn embedded(v: Seq<(String, Vec<u8>)>) -> Seq<Embedded> {
    Seq::new(v.len(), |i: int| Embedded { id: v[i].0@, blob: v[i].1@ })
}

/// The memories that are similar enough to an embedding.
pub open spec fn close(
    s: Seq<Embedded>,
    query: Seq<Binary32>,
    min_score: Binary32,
) -> Seq<crate::ranking::Rank> {
    Seq::new(
        s.len(),
        |i: int|
            crate::ranking::Rank {
                at: i,
                score: cosine(query, floats(s[i].blob)).datum().rank(),
            },
    ).filter(
        |x: crate::ranking::Rank| cosine(query, floats(s[x.at].blob)).at_least(min_score),
    )
}

/// The most similar memories first, with how similar they are.
pub open spec fn vector_result(
    s: Seq<Embedded>,
    query: Seq<Binary32>,
    limit: nat,
    min_score: Binary32,
) -> Seq<(Seq<char>, Binary32)> {
    crate::ranking::first(crate::ranking::ranked(close(s, query, min_score)), limit).map_values(
        |x: crate::ranking::Rank| (s[x.at].id, cosine(query, floats(s[x.at].blob))),
    )
}

fn similar(rows: &Vec<(String, Vec<u8>)>, query: &[Binary32], min_score: Binary32) -> (r: Vec<
    Scored,
>)
    ensures
        crate::ranking::ranks(r@) == close(embedded(rows@), query@, min_score),
{
    let ghost s = embedded(rows@);
    let ghost keep = |x: crate::ranking::Rank|
        cosine(query@, floats(s[x.at].blob)).at_least(min_score);
    let ghost all = Seq::new(
        s.len(),
        |i: int|
            crate::ranking::Rank {
                at: i,
                score: cosine(query@, floats(s[i].blob)).datum().rank(),
            },
    );
    let mut r: Vec<Scored> = Vec::new();
    let mut i: usize = 0;
    assert(all.take(0).filter(keep) == Seq::<crate::ranking::Rank>::empty()) by {
        reveal(Seq::filter);
    }
    assert(crate::ranking::ranks(r@) == Seq::<crate::ranking::Rank>::empty());
    while i < rows.len()
        invariant
            i <= rows@.len(),
            s == embedded(rows@),
            keep == (|x: crate::ranking::Rank|
                cosine(query@, floats(s[x.at].blob)).at_least(min_score)),
            all.len() == rows@.len(),
            forall|k: int|
                0 <= k < all.len() ==> #[trigger] all[k] == (crate::ranking::Rank {
                    at: k,
                    score: cosine(query@, floats(s[k].blob)).datum().rank(),
                }),
            crate::ranking::ranks(r@) == all.take(i as int).filter(keep),
        decreases rows@.len() - i,
    {
        let ghost before = r@;
        assert(all.take(i + 1).drop_last() == all.take(i as int));
        assert(all.take(i + 1).last() == all[i as int]);
        let e = blob_to_f32(rows[i].1.as_slice());
        let c = cosine_similarity(query, e.as_slice());
        assert(s[i as int].blob == rows@[i as int].1@);
        if c.ge(min_score) {
            let x = Scored { at: i, score: c.rank() as i128 };
            r.push(x);
            assert(crate::ranking::ranks(r@) =~= crate::ranking::ranks(before).push(x@));
        }
        assert(crate::ranking::ranks(r@) == all.take(i + 1).filter(keep)) by {
            reveal(Seq::filter);
        }
        i = i + 1;
    }
    assert(all.take(rows@.len() as int) == all);
    r
}

/// Of the memories in some rows those most similar to an embedding, at most
/// `limit` of them and none below `min_score`.
pub fn search_vector(
    rows: &Vec<(String, Vec<u8>)>,
    query_embedding: &[Binary32],
    limit: usize,
    min_score: Binary32,
) -> (r: Vec<(String, Binary32)>)
    ensures
        crate::store::scored_ids(r@) == vector_result(
            embedded(rows@),
            query_embedding@,
            limit as nat,
            min_score,
        ),
{
    let ghost s = embedded(rows@);
    let ghost query = query_embedding@;
    let hits = similar(rows, query_embedding, min_score);
    let order = rank(&hits);
    let ghost best = crate::ranking::first(crate::ranking::ranks(order@), limit as nat);
    proof {
        crate::store::lemma_places(
            Seq::new(
                s.len(),
                |i: int|
                    crate::ranking::Rank {
                        at: i,
                        score: cosine(query, floats(s[i].blob)).datum().rank(),
                    },
            ),
            |x: crate::ranking::Rank| cosine(query, floats(s[x.at].blob)).at_least(min_score),
            limit as nat,
        );
    }
    let ghost out = best.map_values(
        |x: crate::ranking::Rank| (s[x.at].id, cosine(query, floats(s[x.at].blob))),
    );
    let mut r: Vec<(String, Binary32)> = Vec::new();
    let mut i: usize = 0;
    while i < order.len() && i < limit
        invariant
            i <= order.len(),
            i <= limit,
            s == embedded(rows@),
            query == query_embedding@,
            best == crate::ranking::first(crate::ranking::ranks(order@), limit as nat),
            forall|k: int| 0 <= k < best.len() ==> 0 <= (#[trigger] best[k]).at < rows@.len(),
            out == best.map_values(
                |x: crate::ranking::Rank| (s[x.at].id, cosine(query, floats(s[x.at].blob))),
            ),
            crate::store::scored_ids(r@) == out.take(i as int),
        decreases order.len() - i,
    {
        let ghost before = r@;
        assert(best[i as int] == order@[i as int]@);
        let row = &rows[order[i].at];
        let e = blob_to_f32(row.1.as_slice());
        r.push((row.0.clone(), cosine_similarity(query_embedding, e.as_slice())));
        assert(crate::store::scored_ids(r@) =~= crate::store::scored_ids(before).push(
            out[i as int],
        ));
        assert(out.take(i + 1) == out.take(i as int).push(out[i as int]));
        i = i + 1;
    }
    assert(out.take(i as int) == out);
    r
}

} // verus!
