//! Synchronisation between devices: snapshots of a store, and their merge.
//!
//! Memories are known by the hash of their content. A merge adds the memories
//! whose hash is new, gives known memories the greater of both strengths, and
//! gives links the greater of both strengths. A snapshot that is merged a
//! second time changes nothing.

use vstd::prelude::*;
use vstd::std_specs::hash::DefaultHasherAdditionalSpecFns;
use std::collections::hash_map::DefaultHasher;
use std::hash::Hasher;
use crate::binary::Binary64;
use crate::host::{fresh_id, generate_node_id, now};
use crate::store::{MemoryStore, StoreView};
use crate::text::{normalized, same};
use crate::times::{join_times, sort_times};
use crate::types::{MemoryRecord, RecordView, Timestamp};

verus! {

// --- Content hashes ---

/// The hash of a content, as 16 hexadecimal digits.
pub type ContentHash = String;

/// A hexadecimal digit.
pub open spec fn hex_digit(n: int) -> char {
    if n < 10 {
        (0x30 + n) as char
    } else {
        (0x57 + n) as char
    }
}

/// The last `len` hexadecimal digits of a number.
pub open spec fn hex(n: nat, len: nat) -> Seq<char>
    decreases len,
{
    if len == 0 {
        Seq::empty()
    } else {
        hex(n / 16, (len - 1) as nat).push(hex_digit((n % 16) as int))
    }
}

fn digit(n: u64) -> (c: char)
    requires
        n < 16,
    ensures
        c == hex_digit(n as int),
{
    if n < 10 {
        (0x30u8 + n as u8) as char
    } else {
        (0x57u8 + n as u8) as char
    }
}

/// The last `len` hexadecimal digits of a number.
pub fn to_hex(n: u64, len: usize) -> (r: String)
    ensures
        r@ == hex(n as nat, len as nat),
        r@.len() == len,
        crate::host::all_hex(r@),
    decreases len,
{
    if len == 0 {
        String::new()
    } else {
        let mut r = to_hex(n / 16, len - 1);
        r.push(digit(n % 16));
        r
    }
}

/// What is hashed of a memory: its content without the white space around it
/// and in lower case, its type and its source, each closed by a byte that no
/// text holds.
pub open spec fn hashed(content: Seq<char>, kind: Seq<char>, source: Seq<char>) -> Seq<Seq<u8>> {
    seq![
        vstd::utf8::encode_utf8(content),
        seq![0xffu8],
        vstd::utf8::encode_utf8(kind),
        seq![0xffu8],
        vstd::utf8::encode_utf8(source),
        seq![0xffu8],
    ]
}

/// The content hash of a memory.
pub open spec fn hash_of(r: RecordView) -> Seq<char> {
    hex(
        DefaultHasher::spec_finish(
            hashed(crate::text::normal(r.content), r.memory_type.name(), r.source),
        ) as nat,
        16,
    )
}

fn write_text(hasher: &mut DefaultHasher, s: &str)
    ensures
        final(hasher)@ == old(hasher)@.push(vstd::utf8::encode_utf8(s@)).push(seq![0xffu8]),
{
    hasher.write(s.as_bytes());
    let close: [u8; 1] = [0xff];
    assert(close@ == seq![0xffu8]);
    hasher.write(close.as_slice());
}

/// The content hash of a memory. It depends on the content, up to case and
/// the white space around it, the type and the source.
pub fn content_hash(record: &MemoryRecord) -> (r: ContentHash)
    ensures
        r@ == hash_of(record@),
        r@.len() == 16,
        crate::host::all_hex(r@),
{
    let mut hasher = DefaultHasher::new();
    write_text(&mut hasher, normalized(record.content.as_str()).as_str());
    write_text(&mut hasher, record.memory_type.to_string().as_str());
    write_text(&mut hasher, record.source.as_str());
    assert(hasher@ == hashed(
        crate::text::normal(record@.content),
        record@.memory_type.name(),
        record@.source,
    ));
    to_hex(hasher.finish(), 16)
}

proof fn lemma_hex(n: nat, len: nat)
    ensures
        hex(n, len).len() == len,
        crate::host::all_hex(hex(n, len)),
    decreases len,
{
    if len > 0 {
        lemma_hex(n / 16, (len - 1) as nat);
    }
}

/// A content hash is 16 hexadecimal digits.
pub proof fn hash_is_hex(r: RecordView)
    ensures
        hash_of(r).len() == 16,
        crate::host::all_hex(hash_of(r)),
{
    lemma_hex(
        DefaultHasher::spec_finish(
            hashed(crate::text::normal(r.content), r.memory_type.name(), r.source),
        ) as nat,
        16,
    );
}

/// The content hash depends on the content up to case and the white space
/// around it, on the type and on the source, and on nothing else.
pub proof fn hash_depends_on_content(a: RecordView, b: RecordView)
    requires
        crate::text::normal(a.content) == crate::text::normal(b.content),
        a.memory_type == b.memory_type,
        a.source == b.source,
    ensures
        hash_of(a) == hash_of(b),
{
}

// --- Snapshots ---

/// A portable copy of a store.
#[derive(Debug, Clone)]
pub struct Snapshot {
    /// The version of the format.
    pub version: u32,
    /// The device that made the snapshot.
    pub node_id: String,
    /// When the snapshot was made.
    pub created_at: Timestamp,
    /// The memories, each with its content hash.
    pub memories: Vec<(ContentHash, MemoryRecord)>,
    /// The weights of pairs of memories.
    pub hebbian_links: Vec<(String, String, Binary64)>,
}

/// A memory with the hash that it is known by.
pub struct Keyed {
    pub hash: Seq<char>,
    pub record: RecordView,
}

/// What some keyed memories hold.
pub open spec fn keyed(v: Seq<(ContentHash, MemoryRecord)>) -> Seq<Keyed> {
    Seq::new(v.len(), |i: int| Keyed { hash: v[i].0@, record: v[i].1@ })
}

pub open spec fn hash_at(s: Seq<Keyed>, i: int, hash: Seq<char>) -> bool {
    0 <= i < s.len() && s[i].hash == hash
}

/// Whether a memory is known by the given hash.
pub open spec fn has_hash(s: Seq<Keyed>, hash: Seq<char>) -> bool {
    exists|i: int| hash_at(s, i, hash)
}

pub open spec fn hash_place(s: Seq<Keyed>, hash: Seq<char>) -> int {
    choose|i: int| hash_at(s, i, hash)
}

/// No two memories are known by the same hash.
pub open spec fn unique_hashes(s: Seq<Keyed>) -> bool {
    forall|i: int, j: int|
        0 <= i < j < s.len() ==> (#[trigger] s[i]).hash != (#[trigger] s[j]).hash
}

/// `s` with `k` in place of the memory known by the same hash, or at its end
/// where there is none.
pub open spec fn put_keyed(s: Seq<Keyed>, k: Keyed) -> Seq<Keyed> {
    if has_hash(s, k.hash) {
        s.update(hash_place(s, k.hash), k)
    } else {
        s.push(k)
    }
}

/// Memories by their content hash. Of memories with the same hash the last one
/// is taken.
pub open spec fn by_hash(s: Seq<RecordView>) -> Seq<Keyed>
    decreases s.len(),
{
    if s.len() == 0 {
        Seq::empty()
    } else {
        put_keyed(by_hash(s.drop_last()), Keyed { hash: hash_of(s.last()), record: s.last() })
    }
}

proof fn lemma_hash_place_unique(s: Seq<Keyed>, i: int, hash: Seq<char>)
    requires
        unique_hashes(s),
        hash_at(s, i, hash),
    ensures
        has_hash(s, hash),
        hash_place(s, hash) == i,
{
    let p = hash_place(s, hash);
    assert(hash_at(s, p, hash));
    if p < i {
        assert(s[p].hash != s[i].hash);
    }
    if i < p {
        assert(s[i].hash != s[p].hash);
    }
}

proof fn lemma_put_keyed(s: Seq<Keyed>, k: Keyed)
    requires
        unique_hashes(s),
    ensures
        unique_hashes(put_keyed(s, k)),
        forall|h: Seq<char>| #[trigger]
            has_hash(put_keyed(s, k), h) <==> h == k.hash || has_hash(s, h),
{
    let t = put_keyed(s, k);
    let p = if has_hash(s, k.hash) {
        hash_place(s, k.hash)
    } else {
        s.len() as int
    };
    if has_hash(s, k.hash) {
        assert(hash_at(s, p, k.hash));
    }
    assert forall|i: int, j: int| 0 <= i < j < t.len() implies (#[trigger] t[i]).hash != (
    #[trigger] t[j]).hash by {
        if j < s.len() {
            assert(s[i].hash != s[j].hash);
        } else {
            assert(!hash_at(s, i, k.hash));
        }
    }
    assert(hash_at(t, p, k.hash));
    assert forall|h: Seq<char>| #[trigger] has_hash(t, h) <==> h == k.hash || has_hash(s, h) by {
        if has_hash(t, h) && h != k.hash {
            let q = hash_place(t, h);
            assert(hash_at(t, q, h));
            assert(hash_at(s, q, h));
        }
        if has_hash(s, h) {
            let q = hash_place(s, h);
            assert(hash_at(s, q, h));
            assert(hash_at(t, q, h));
        }
    }
}

/// The memories of a snapshot have different hashes, each the content hash of
/// its memory; and the hash of every memory of the store is there.
pub proof fn by_hash_is_complete(s: Seq<RecordView>)
    ensures
        unique_hashes(by_hash(s)),
        forall|k: int|
            0 <= k < by_hash(s).len() ==> (#[trigger] by_hash(s)[k]).hash == hash_of(
                by_hash(s)[k].record,
            ) && s.contains(by_hash(s)[k].record),
        forall|i: int| 0 <= i < s.len() ==> has_hash(by_hash(s), hash_of(#[trigger] s[i])),
    decreases s.len(),
{
    if s.len() > 0 {
        let rest = s.drop_last();
        by_hash_is_complete(rest);
        let before = by_hash(rest);
        let k = Keyed { hash: hash_of(s.last()), record: s.last() };
        lemma_put_keyed(before, k);
        let after = by_hash(s);
        if has_hash(before, k.hash) {
            assert(hash_at(before, hash_place(before, k.hash), k.hash));
        }
        assert forall|j: int| 0 <= j < after.len() implies (#[trigger] after[j]).hash == hash_of(
            after[j].record,
        ) && s.contains(after[j].record) by {
            if after[j] == k {
                assert(s[s.len() - 1] == k.record);
            } else {
                assert(after[j] == before[j]);
                let m = choose|m: int| 0 <= m < rest.len() && rest[m] == before[j].record;
                assert(s[m] == after[j].record);
            }
        }
        assert forall|i: int| 0 <= i < s.len() implies has_hash(after, hash_of(#[trigger] s[i])) by {
            if i < rest.len() {
                assert(rest[i] == s[i]);
                assert(has_hash(before, hash_of(rest[i])));
            }
        }
    }
}

/// Where all memories have different hashes, a snapshot holds all of them.
pub proof fn by_hash_holds_all(s: Seq<RecordView>)
    requires
        forall|i: int, j: int|
            0 <= i < j < s.len() ==> hash_of(#[trigger] s[i]) != hash_of(#[trigger] s[j]),
    ensures
        by_hash(s).len() == s.len(),
        forall|i: int| 0 <= i < s.len() ==> (#[trigger] by_hash(s)[i]).record == s[i],
    decreases s.len(),
{
    if s.len() > 0 {
        let rest = s.drop_last();
        assert forall|i: int, j: int| 0 <= i < j < rest.len() implies hash_of(#[trigger] rest[i])
            != hash_of(#[trigger] rest[j]) by {
            assert(hash_of(s[i]) != hash_of(s[j]));
        }
        by_hash_holds_all(rest);
        by_hash_is_complete(rest);
        let h = hash_of(s.last());
        let before = by_hash(rest);
        if has_hash(before, h) {
            let p = hash_place(before, h);
            assert(hash_at(before, p, h));
            assert(before[p].record == rest[p]);
            assert(hash_of(s[p]) != hash_of(s[s.len() - 1]));
        }
    }
}

/// The place of a hash, or the number of memories where it has none.
fn find_hash(v: &Vec<(ContentHash, MemoryRecord)>, hash: &str) -> (i: usize)
    requires
        unique_hashes(keyed(v@)),
    ensures
        i <= v@.len(),
        i < v@.len() ==> hash_place(keyed(v@), hash@) == i,
        i < v@.len() <==> has_hash(keyed(v@), hash@),
{
    let ghost s = keyed(v@);
    let mut i: usize = 0;
    while i < v.len()
        invariant
            i <= v@.len(),
            s == keyed(v@),
            unique_hashes(s),
            forall|j: int| 0 <= j < i ==> !hash_at(s, j, hash@),
        decreases v@.len() - i,
    {
        if same(v[i].0.as_str(), hash) {
            assert(hash_at(s, i as int, hash@));
            proof {
                lemma_hash_place_unique(s, i as int, hash@);
            }
            return i;
        }
        assert(!hash_at(s, i as int, hash@));
        i = i + 1;
    }
    i
}

impl Snapshot {
    /// A snapshot of a store.
    pub fn from_store(store: &MemoryStore) -> (r: Snapshot)
        ensures
            r.version == 1,
            crate::host::is_node_id(r.node_id@),
            crate::host::is_clock_time(r.created_at),
            keyed(r.memories@) == by_hash(store@.memories),
            crate::links::links_of(r.hebbian_links@) == store@.links,
    {
        let all = store.all();
        let ghost s = store@.memories;
        let mut memories: Vec<(ContentHash, MemoryRecord)> = Vec::new();
        let mut i: usize = 0;
        assert(keyed(memories@) =~= by_hash(s.take(0)));
        while i < all.len()
            invariant
                i <= all@.len(),
                s == crate::types::records(all@),
                keyed(memories@) == by_hash(s.take(i as int)),
            decreases all@.len() - i,
        {
            let record = all[i].clone();
            let hash = content_hash(&record);
            let ghost before = keyed(memories@);
            let ghost k = Keyed { hash: hash@, record: record@ };
            proof {
                by_hash_is_complete(s.take(i as int));
                assert(s.take(i + 1).drop_last() == s.take(i as int));
                assert(s.take(i + 1).last() == record@);
            }
            let p = find_hash(&memories, hash.as_str());
            if p < memories.len() {
                memories.set(p, (hash, record));
            } else {
                memories.push((hash, record));
            }
            assert(keyed(memories@) =~= put_keyed(before, k));
            i = i + 1;
        }
        assert(s.take(all@.len() as int) == s);
        Snapshot {
            version: 1,
            node_id: generate_node_id(),
            created_at: now(),
            memories,
            hebbian_links: store.export_hebbian_links(),
        }
    }
}

// --- Merging ---

/// What a merge did.
#[derive(Clone, Copy, PartialEq, Eq, Structural, Debug)]
pub struct MergeReport {
    /// The number of memories that were new.
    pub added: usize,
    /// The number of known memories that were changed.
    pub updated: usize,
    /// The number of known memories that were left as they are.
    pub skipped: usize,
    /// The number of links.
    pub links_merged: usize,
}

impl Default for MergeReport {
    fn default() -> (r: MergeReport)
        ensures
            r == (MergeReport { added: 0, updated: 0, skipped: 0, links_merged: 0 }),
    {
        MergeReport { added: 0, updated: 0, skipped: 0, links_merged: 0 }
    }
}

/// The last of some memories with the given content hash.
pub open spec fn match_of(s: Seq<RecordView>, hash: Seq<char>) -> Option<RecordView>
    decreases s.len(),
{
    if s.len() == 0 {
        None
    } else if hash_of(s.last()) == hash {
        Some(s.last())
    } else {
        match_of(s.drop_last(), hash)
    }
}

/// Whether a remote memory brings anything to the local one with its hash.
pub open spec fn brings_more(local: RecordView, remote: RecordView) -> bool {
    ||| local.working_strength.below(remote.working_strength)
    ||| local.core_strength.below(remote.core_strength)
    ||| local.importance.below(remote.importance)
    ||| remote.access_times.len() > local.access_times.len()
}

/// The access times of both, each once, in order.
pub open spec fn merged_times(local: Seq<Timestamp>, remote: Seq<Timestamp>) -> Seq<Timestamp> {
    crate::times::sorted(crate::times::joined(local, remote))
}

/// A local memory with what a remote one brings to it.
pub open spec fn merged_record(local: RecordView, remote: RecordView) -> RecordView {
    RecordView {
        working_strength: local.working_strength.greater(remote.working_strength),
        core_strength: local.core_strength.greater(remote.core_strength),
        importance: local.importance.greater(remote.importance),
        access_times: merged_times(local.access_times, remote.access_times),
        consolidation_count: if local.consolidation_count >= remote.consolidation_count {
            local.consolidation_count
        } else {
            remote.consolidation_count
        },
        pinned: local.pinned || remote.pinned,
        ..local
    }
}

/// A remote memory as it is added: under a fresh identifier where its own is
/// taken.
pub open spec fn renamed(st: StoreView, remote: RecordView, fresh: Seq<char>) -> RecordView {
    if crate::store::has_id(st.memories, remote.id) {
        RecordView { id: fresh, ..remote }
    } else {
        remote
    }
}

/// The store after one remote memory is merged, given the local memories
/// before the merge.
pub open spec fn merge_one(
    st: StoreView,
    locals: Seq<RecordView>,
    k: Keyed,
    fresh: Seq<char>,
) -> StoreView {
    match match_of(locals, k.hash) {
        Some(l) => if brings_more(l, k.record) {
            st.updated(merged_record(l, k.record))
        } else {
            st
        },
        None => st.added(renamed(st, k.record, fresh)),
    }
}

/// The store after the first `n` remote memories are merged.
pub open spec fn merge_first(st: StoreView, s: Seq<Keyed>, fresh: Seq<Seq<char>>, n: nat) -> StoreView
    decreases n,
{
    if n == 0 {
        st
    } else {
        merge_one(
            merge_first(st, s, fresh, (n - 1) as nat),
            st.memories,
            s[n - 1],
            fresh[n - 1],
        )
    }
}

/// Weights after remote links are merged: of every pair that is linked
/// remotely the greater strength.
pub open spec fn merge_links(
    s: Seq<crate::links::LinkView>,
    new: Seq<crate::links::LinkView>,
) -> Seq<crate::links::LinkView>
    decreases new.len(),
{
    if new.len() == 0 {
        s
    } else {
        let before = merge_links(s, new.drop_last());
        let l = new.last();
        if crate::links::positive(l.weight) {
            crate::links::raised(before, l.a, l.b, l.weight)
        } else {
            before
        }
    }
}

/// The store after a snapshot is merged into it. The memory at a place of the
/// snapshot takes the identifier at that place of `fresh` if its own is taken.
pub open spec fn merged(
    st: StoreView,
    s: Seq<Keyed>,
    links: Seq<crate::links::LinkView>,
    fresh: Seq<Seq<char>>,
) -> StoreView {
    StoreView {
        links: merge_links(st.links, links),
        ..merge_first(st, s, fresh, s.len())
    }
}

pub open spec fn is_new(locals: Seq<RecordView>) -> spec_fn(Keyed) -> bool {
    |k: Keyed| match_of(locals, k.hash) is None
}

pub open spec fn is_changed(locals: Seq<RecordView>) -> spec_fn(Keyed) -> bool {
    |k: Keyed| match_of(locals, k.hash) matches Some(l) && brings_more(l, k.record)
}

pub open spec fn is_known(locals: Seq<RecordView>) -> spec_fn(Keyed) -> bool {
    |k: Keyed| match_of(locals, k.hash) matches Some(l) && !brings_more(l, k.record)
}

/// Whether a report tells what a merge does.
pub open spec fn reports(
    r: MergeReport,
    locals: Seq<RecordView>,
    s: Seq<Keyed>,
    links: Seq<crate::links::LinkView>,
) -> bool {
    &&& r.added == s.filter(is_new(locals)).len()
    &&& r.updated == s.filter(is_changed(locals)).len()
    &&& r.skipped == s.filter(is_known(locals)).len()
    &&& r.links_merged == links.filter(
        |l: crate::links::LinkView| crate::links::positive(l.weight),
    ).len()
}

/// The place after the last local memory with the given hash; 0 where there is
/// none.
fn find_match(hashes: &Vec<ContentHash>, locals: &Vec<MemoryRecord>, hash: &str) -> (i: usize)
    requires
        hashes@.len() == locals@.len(),
        forall|k: int| 0 <= k < hashes@.len() ==> (#[trigger] hashes@[k])@ == hash_of(locals@[k]@),
    ensures
        i <= locals@.len(),
        i == 0 ==> match_of(crate::types::records(locals@), hash@) is None,
        i > 0 ==> match_of(crate::types::records(locals@), hash@) == Some(locals@[i - 1]@),
{
    let ghost s = crate::types::records(locals@);
    let mut i: usize = locals.len();
    assert(s.take(i as int) == s);
    while i > 0 && !same(hashes[i - 1].as_str(), hash)
        invariant
            i <= locals@.len(),
            hashes@.len() == locals@.len(),
            s == crate::types::records(locals@),
            forall|k: int|
                0 <= k < hashes@.len() ==> (#[trigger] hashes@[k])@ == hash_of(locals@[k]@),
            match_of(s, hash@) == match_of(s.take(i as int), hash@),
        decreases i,
    {
        assert(s.take(i as int).last() == locals@[i - 1]@);
        assert(s.take(i as int).drop_last() == s.take(i - 1));
        i = i - 1;
    }
    if i > 0 {
        assert(s.take(i as int).last() == locals@[i - 1]@);
    }
    i
}

/// What a remote memory brings to a local one: nothing, or the merged memory.
fn merge_records(local: &MemoryRecord, remote: &MemoryRecord) -> (r: Option<MemoryRecord>)
    ensures
        crate::store::opt_record(r) == if brings_more(local@, remote@) {
            Some(merged_record(local@, remote@))
        } else {
            None
        },
{
    if local.working_strength.lt(remote.working_strength) || local.core_strength.lt(
        remote.core_strength,
    ) || local.importance.lt(remote.importance) || remote.access_times.len()
        > local.access_times.len() {
        let mut m = local.clone();
        m.working_strength = local.working_strength.max(remote.working_strength);
        m.core_strength = local.core_strength.max(remote.core_strength);
        m.importance = local.importance.max(remote.importance);
        m.access_times = sort_times(&join_times(&local.access_times, &remote.access_times));
        if remote.consolidation_count > local.consolidation_count {
            m.consolidation_count = remote.consolidation_count;
        }
        m.pinned = local.pinned || remote.pinned;
        assert(m@ =~= merged_record(local@, remote@));
        Some(m)
    } else {
        None
    }
}

/// Merges a snapshot into a store, where a memory whose identifier is taken
/// gets the one at its place in `fresh`.
pub fn merge_snapshot_as(
    store: &mut MemoryStore,
    snapshot: &Snapshot,
    fresh: &Vec<String>,
) -> (r: MergeReport)
    requires
        old(store).wf(),
        fresh@.len() >= snapshot.memories@.len(),
    ensures
        final(store).wf(),
        final(store)@ == merged(
            old(store)@,
            keyed(snapshot.memories@),
            crate::links::links_of(snapshot.hebbian_links@),
            crate::text::texts(fresh@),
        ),
        reports(
            r,
            old(store)@.memories,
            keyed(snapshot.memories@),
            crate::links::links_of(snapshot.hebbian_links@),
        ),
{
    let locals = store.all();
    let ghost st = store@;
    let ghost lv = st.memories;
    let ghost s = keyed(snapshot.memories@);
    let ghost ids = crate::text::texts(fresh@);
    let mut hashes: Vec<ContentHash> = Vec::new();
    let mut i: usize = 0;
    while i < locals.len()
        invariant
            i <= locals@.len(),
            hashes@.len() == i,
            forall|k: int|
                0 <= k < hashes@.len() ==> (#[trigger] hashes@[k])@ == hash_of(locals@[k]@),
        decreases locals@.len() - i,
    {
        hashes.push(content_hash(&locals[i]));
        i = i + 1;
    }
    let mut report = MergeReport { added: 0, updated: 0, skipped: 0, links_merged: 0 };
    let mut n: usize = 0;
    proof {
        lemma_filter_nothing(s, lv);
    }
    while n < snapshot.memories.len()
        invariant
            n <= snapshot.memories@.len(),
            fresh@.len() >= snapshot.memories@.len(),
            hashes@.len() == locals@.len(),
            forall|k: int|
                0 <= k < hashes@.len() ==> (#[trigger] hashes@[k])@ == hash_of(locals@[k]@),
            s == keyed(snapshot.memories@),
            lv == crate::types::records(locals@),
            lv == st.memories,
            ids == crate::text::texts(fresh@),
            store.wf(),
            store@ == merge_first(st, s, ids, n as nat),
            report.added <= n,
            report.updated <= n,
            report.skipped <= n,
            report.links_merged == 0,
            report.added == s.take(n as int).filter(is_new(lv)).len(),
            report.updated == s.take(n as int).filter(is_changed(lv)).len(),
            report.skipped == s.take(n as int).filter(is_known(lv)).len(),
        decreases snapshot.memories@.len() - n,
    {
        let (hash, remote) = &snapshot.memories[n];
        let ghost k = s[n as int];
        assert(k == (Keyed { hash: hash@, record: remote@ }));
        proof {
            lemma_filter_step(s, n as int, lv);
        }
        let m = find_match(&hashes, &locals, hash.as_str());
        if m > 0 {
            match merge_records(&locals[m - 1], remote) {
                Some(record) => {
                    store.update(&record);
                    report.updated = report.updated + 1;
                },
                None => {
                    report.skipped = report.skipped + 1;
                },
            }
        } else {
            let mut record = remote.clone();
            let taken = store.get(record.id.as_str()).is_some();
            if taken {
                record.id = fresh[n].clone();
            }
            assert(record@ =~= renamed(store@, remote@, ids[n as int]));
            store.add(&record);
            report.added = report.added + 1;
        }
        n = n + 1;
    }
    assert(s.take(s.len() as int) == s);
    let ghost links = crate::links::links_of(snapshot.hebbian_links@);
    let ghost mid = store@;
    proof {
        lemma_merge_first_links(st, s, ids, s.len());
    }
    let ghost linked = |l: crate::links::LinkView| crate::links::positive(l.weight);
    let mut j: usize = 0;
    assert(links.take(0).filter(linked).len() == 0) by {
        reveal(Seq::filter);
    }
    while j < snapshot.hebbian_links.len()
        invariant
            j <= snapshot.hebbian_links@.len(),
            links == crate::links::links_of(snapshot.hebbian_links@),
            linked == (|l: crate::links::LinkView| crate::links::positive(l.weight)),
            store.wf(),
            store@ == (StoreView {
                links: merge_links(st.links, links.take(j as int)),
                ..mid
            }),
            report.links_merged <= j,
            report.links_merged == links.take(j as int).filter(linked).len(),
            report.added == s.filter(is_new(lv)).len(),
            report.updated == s.filter(is_changed(lv)).len(),
            report.skipped == s.filter(is_known(lv)).len(),
        decreases snapshot.hebbian_links@.len() - j,
    {
        assert(links.take(j + 1).drop_last() == links.take(j as int));
        assert(links.take(j + 1).last() == links[j as int]);
        assert(links.take(j + 1).filter(linked).len() == report.links_merged + if linked(
            links[j as int],
        ) {
            1int
        } else {
            0
        }) by {
            reveal(Seq::filter);
        }
        let l = &snapshot.hebbian_links[j];
        if (Binary64 { bits: 0 }).lt(l.2) {
            store.raise_link(l.0.as_str(), l.1.as_str(), l.2);
            report.links_merged = report.links_merged + 1;
        }
        j = j + 1;
    }
    assert(links.take(links.len() as int) == links);
    report
}

proof fn lemma_filter_nothing(s: Seq<Keyed>, locals: Seq<RecordView>)
    ensures
        s.take(0).filter(is_new(locals)).len() == 0,
        s.take(0).filter(is_changed(locals)).len() == 0,
        s.take(0).filter(is_known(locals)).len() == 0,
{
    reveal(Seq::filter);
}

proof fn lemma_filter_step(s: Seq<Keyed>, n: int, locals: Seq<RecordView>)
    requires
        0 <= n < s.len(),
    ensures
        s.take(n + 1).filter(is_new(locals)).len() == s.take(n).filter(is_new(locals)).len() + if is_new(
            locals,
        )(s[n]) {
            1int
        } else {
            0
        },
        s.take(n + 1).filter(is_changed(locals)).len() == s.take(n).filter(is_changed(locals)).len()
            + if is_changed(locals)(s[n]) {
            1int
        } else {
            0
        },
        s.take(n + 1).filter(is_known(locals)).len() == s.take(n).filter(is_known(locals)).len()
            + if is_known(locals)(s[n]) {
            1int
        } else {
            0
        },
{
    reveal(Seq::filter);
    assert(s.take(n + 1).drop_last() == s.take(n));
    assert(s.take(n + 1).last() == s[n]);
}

/// Merging memories changes no link.
pub proof fn lemma_merge_first_links(st: StoreView, s: Seq<Keyed>, fresh: Seq<Seq<char>>, n: nat)
    ensures
        merge_first(st, s, fresh, n).links == st.links,
        merge_first(st, s, fresh, n).path == st.path,
    decreases n,
{
    if n > 0 {
        lemma_merge_first_links(st, s, fresh, (n - 1) as nat);
    }
}

pub open spec fn all_short_ids(ids: Seq<Seq<char>>) -> bool {
    forall|i: int| 0 <= i < ids.len() ==> crate::host::is_short_id(#[trigger] ids[i])
}

/// Merges a snapshot into a store. A new memory whose identifier is taken gets
/// a random one.
pub fn merge_snapshot(store: &mut MemoryStore, snapshot: &Snapshot) -> (r: MergeReport)
    requires
        old(store).wf(),
    ensures
        final(store).wf(),
        exists|fresh: Seq<Seq<char>>|
            fresh.len() == snapshot.memories@.len() && all_short_ids(fresh) && final(store)@
                == #[trigger] merged(
                old(store)@,
                keyed(snapshot.memories@),
                crate::links::links_of(snapshot.hebbian_links@),
                fresh,
            ),
        reports(
            r,
            old(store)@.memories,
            keyed(snapshot.memories@),
            crate::links::links_of(snapshot.hebbian_links@),
        ),
{
    let mut fresh: Vec<String> = Vec::new();
    let mut i: usize = 0;
    while i < snapshot.memories.len()
        invariant
            i <= snapshot.memories@.len(),
            fresh@.len() == i,
            all_short_ids(crate::text::texts(fresh@)),
        decreases snapshot.memories@.len() - i,
    {
        let ghost before = crate::text::texts(fresh@);
        let id = fresh_id();
        fresh.push(id);
        assert(crate::text::texts(fresh@) =~= before.push(id@));
        i = i + 1;
    }
    merge_snapshot_as(store, snapshot, &fresh)
}

} // verus!
