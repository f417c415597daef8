//! The store: memories, the index that finds them by their tokens, and the
//! links between them.

use vstd::prelude::*;
use crate::binary::{Binary32, Binary64};
use crate::host::now;
use crate::index::InvertedIndex;
use crate::links::HebbianLinks;
use crate::ranking::{rank, Scored};
use crate::text::{same, tokenize};
use crate::types::{clone_times, MemoryRecord, MemoryType, RecordView, Timestamp};
use crate::vector::cosine_similarity;

verus! {

/// What a [`MemoryStore`] holds.
#[verifier::ext_equal]
pub struct StoreView {
    pub memories: Seq<RecordView>,
    pub links: Seq<crate::links::LinkView>,
    pub index: Set<crate::index::Entry>,
    pub path: Option<Seq<char>>,
}

// --- Memories by identifier ---

pub open spec fn id_at(s: Seq<RecordView>, i: int, id: Seq<char>) -> bool {
    0 <= i < s.len() && s[i].id == id
}

/// Whether `s` holds a memory with the given identifier.
pub open spec fn has_id(s: Seq<RecordView>, id: Seq<char>) -> bool {
    exists|i: int| id_at(s, i, id)
}

/// The place of the memory with the given identifier.
pub open spec fn place(s: Seq<RecordView>, id: Seq<char>) -> int {
    choose|i: int| id_at(s, i, id)
}

/// The memory with the given identifier.
pub open spec fn lookup(s: Seq<RecordView>, id: Seq<char>) -> Option<RecordView> {
    if has_id(s, id) {
        Some(s[place(s, id)])
    } else {
        None
    }
}

/// No two memories have the same identifier.
pub open spec fn unique_ids(s: Seq<RecordView>) -> bool {
    forall|i: int, j: int|
        0 <= i < j < s.len() ==> (#[trigger] s[i]).id != (#[trigger] s[j]).id
}

/// `s` with `r` in place of the memory with the same identifier, or at its end
/// where there is none.
pub open spec fn put(s: Seq<RecordView>, r: RecordView) -> Seq<RecordView> {
    if has_id(s, r.id) {
        s.update(place(s, r.id), r)
    } else {
        s.push(r)
    }
}

pub open spec fn other_than(id: Seq<char>) -> spec_fn(RecordView) -> bool {
    |r: RecordView| r.id != id
}

/// `s` without the memory with the given identifier.
pub open spec fn without(s: Seq<RecordView>, id: Seq<char>) -> Seq<RecordView> {
    s.filter(other_than(id))
}

pub open spec fn opt_record(o: Option<MemoryRecord>) -> Option<RecordView> {
    match o {
        Some(r) => Some(r@),
        None => None,
    }
}

pub proof fn lemma_place_unique(s: Seq<RecordView>, i: int, id: Seq<char>)
    requires
        unique_ids(s),
        id_at(s, i, id),
    ensures
        has_id(s, id),
        place(s, id) == i,
        lookup(s, id) == Some(s[i]),
{
    let p = place(s, id);
    assert(id_at(s, p, id));
    if p < i {
        assert(s[p].id != s[i].id);
    }
    if i < p {
        assert(s[i].id != s[p].id);
    }
}

/// Putting a memory leaves identifiers unique; the memory is found under its
/// identifier, and every other memory as before.
pub proof fn put_then_lookup(s: Seq<RecordView>, r: RecordView, id: Seq<char>)
    requires
        unique_ids(s),
    ensures
        unique_ids(put(s, r)),
        lookup(put(s, r), id) == if id == r.id {
            Some(r)
        } else {
            lookup(s, id)
        },
        has_id(put(s, r), id) == (id == r.id || has_id(s, id)),
{
    let t = put(s, r);
    let p = if has_id(s, r.id) {
        place(s, r.id)
    } else {
        s.len() as int
    };
    if has_id(s, r.id) {
        assert(id_at(s, p, r.id));
    }
    assert forall|i: int, j: int| 0 <= i < j < t.len() implies (#[trigger] t[i]).id != (
    #[trigger] t[j]).id by {
        if j < s.len() {
            assert(s[i].id != s[j].id);
        } else {
            assert(!id_at(s, i, r.id));
        }
    }
    assert(id_at(t, p, r.id));
    if id == r.id {
        lemma_place_unique(t, p, id);
    } else if has_id(s, id) {
        let q = place(s, id);
        assert(id_at(s, q, id));
        assert(id_at(t, q, id));
        lemma_place_unique(t, q, id);
    } else if has_id(t, id) {
        let q = place(t, id);
        assert(id_at(t, q, id));
        assert(id_at(s, q, id));
    }
}

proof fn lemma_filter_unique(s: Seq<RecordView>, keep: spec_fn(RecordView) -> bool)
    requires
        unique_ids(s),
    ensures
        unique_ids(s.filter(keep)),
    decreases s.len(),
{
    reveal(Seq::filter);
    if s.len() > 0 {
        let rest = s.drop_last();
        assert forall|i: int, j: int| 0 <= i < j < rest.len() implies (#[trigger] rest[i]).id != (
        #[trigger] rest[j]).id by {
            assert(s[i].id != s[j].id);
        }
        lemma_filter_unique(rest, keep);
        let f = rest.filter(keep);
        let t = s.filter(keep);
        assert forall|i: int, j: int| 0 <= i < j < t.len() implies (#[trigger] t[i]).id != (
        #[trigger] t[j]).id by {
            if j == f.len() {
                assert(f.contains(f[i]));
                rest.lemma_filter_contains_rev(keep, f[i]);
                let k = choose|k: int| 0 <= k < rest.len() && rest[k] == f[i];
                assert(s[k] == f[i]);
                assert(s[k].id != s[s.len() - 1].id);
            } else {
                assert(f[i].id != f[j].id);
            }
        }
    }
}

/// After removal no memory has the identifier, and every other memory is found
/// as before.
pub proof fn without_then_lookup(s: Seq<RecordView>, gone: Seq<char>, id: Seq<char>)
    requires
        unique_ids(s),
    ensures
        unique_ids(without(s, gone)),
        lookup(without(s, gone), id) == if id == gone {
            None
        } else {
            lookup(s, id)
        },
        has_id(without(s, gone), id) == (id != gone && has_id(s, id)),
{
    broadcast use vstd::seq_lib::group_filter_ensures;

    let keep = other_than(gone);
    let t = s.filter(keep);
    lemma_filter_unique(s, keep);
    if has_id(t, id) {
        let q = place(t, id);
        assert(id_at(t, q, id));
        assert(t.contains(t[q]));
        s.lemma_filter_contains_rev(keep, t[q]);
        let k = choose|k: int| 0 <= k < s.len() && s[k] == t[q];
        assert(id_at(s, k, id));
        lemma_place_unique(s, k, id);
        assert(keep(t[q]));
    }
    if id != gone && has_id(s, id) {
        let q = place(s, id);
        assert(id_at(s, q, id));
        assert(keep(s[q]));
        assert(t.contains(s[q]));
        let k = choose|k: int| 0 <= k < t.len() && t[k] == s[q];
        assert(id_at(t, k, id));
        lemma_place_unique(t, k, id);
    }
}

// --- The store ---

/// The search tokens of a content.
pub open spec fn tokens_of(content: Seq<char>) -> Seq<Seq<char>> {
    crate::text::tokens(crate::text::lowercase(content))
}

/// The index entries of a memory.
pub open spec fn entries_of(r: RecordView) -> Set<crate::index::Entry> {
    crate::index::entries(tokens_of(r.content), r.id)
}

pub open spec fn covers(index: Set<crate::index::Entry>, r: RecordView) -> bool {
    entries_of(r).subset_of(index)
}

impl StoreView {
    /// Identifiers are unique, each pair has one weight, the index lists every
    /// token of every memory, and it lists stored memories only.
    pub open spec fn wf(self) -> bool {
        &&& unique_ids(self.memories)
        &&& crate::links::unique_pairs(self.links)
        &&& forall|i: int|
            0 <= i < self.memories.len() ==> covers(self.index, #[trigger] self.memories[i])
        &&& forall|e: crate::index::Entry| #[trigger]
            self.index.contains(e) ==> has_id(self.memories, e.1)
    }

    /// A store without memories.
    pub open spec fn empty(path: Option<Seq<char>>) -> StoreView {
        StoreView { memories: Seq::empty(), links: Seq::empty(), index: Set::empty(), path }
    }

    /// The store after `r` is added.
    pub open spec fn added(self, r: RecordView) -> StoreView {
        StoreView {
            memories: put(self.memories, r),
            index: self.index.union(entries_of(r)),
            ..self
        }
    }

    /// The store after `r` takes the place of the memory with its identifier.
    pub open spec fn updated(self, r: RecordView) -> StoreView {
        StoreView {
            memories: put(self.memories, r),
            index: crate::index::without_id(self.index, r.id).union(entries_of(r)),
            ..self
        }
    }

    /// The store without the memory `id` and without its links.
    pub open spec fn deleted(self, id: Seq<char>) -> StoreView {
        StoreView {
            memories: without(self.memories, id),
            links: crate::links::unlinked(self.links, id),
            index: crate::index::without_id(self.index, id),
            ..self
        }
    }

    /// The store after the memory `id` is accessed at `t`.
    pub open spec fn accessed(self, id: Seq<char>, t: Timestamp) -> StoreView {
        match lookup(self.memories, id) {
            Some(r) => StoreView {
                memories: put(
                    self.memories,
                    RecordView { access_times: r.access_times.push(t), ..r },
                ),
                ..self
            },
            None => self,
        }
    }
}

proof fn lemma_put_members(s: Seq<RecordView>, r: RecordView, i: int)
    requires
        unique_ids(s),
        0 <= i < put(s, r).len(),
    ensures
        put(s, r)[i] == r || (i < s.len() && put(s, r)[i] == s[i] && s[i].id != r.id),
{
    if has_id(s, r.id) {
        assert(id_at(s, place(s, r.id), r.id));
        if i != place(s, r.id) && s[i].id == r.id {
            lemma_place_unique(s, i, r.id);
        }
    } else if i < s.len() {
        assert(!id_at(s, i, r.id));
    }
}

/// A store stays well formed when a memory is added or updated.
pub proof fn put_keeps_wf(st: StoreView, r: RecordView)
    requires
        st.wf(),
    ensures
        st.added(r).wf(),
        st.updated(r).wf(),
{
    put_then_lookup(st.memories, r, r.id);
    let a = st.added(r);
    let u = st.updated(r);
    assert forall|i: int| 0 <= i < a.memories.len() implies covers(
        a.index,
        #[trigger] a.memories[i],
    ) && covers(u.index, a.memories[i]) by {
        lemma_put_members(st.memories, r, i);
        if a.memories[i] != r {
            assert(covers(st.index, st.memories[i]));
        }
    }
    assert forall|e: crate::index::Entry| #[trigger] a.index.contains(e) implies has_id(
        a.memories,
        e.1,
    ) by {
        put_then_lookup(st.memories, r, e.1);
    }
    assert forall|e: crate::index::Entry| #[trigger] u.index.contains(e) implies has_id(
        u.memories,
        e.1,
    ) by {
        put_then_lookup(st.memories, r, e.1);
    }
}

/// A store stays well formed when a memory is deleted.
pub proof fn delete_keeps_wf(st: StoreView, id: Seq<char>)
    requires
        st.wf(),
    ensures
        st.deleted(id).wf(),
{
    broadcast use vstd::seq_lib::group_filter_ensures;

    let d = st.deleted(id);
    without_then_lookup(st.memories, id, id);
    crate::links::lemma_unlinked_unique(st.links, id);
    let keep = other_than(id);
    assert forall|i: int| 0 <= i < d.memories.len() implies covers(
        d.index,
        #[trigger] d.memories[i],
    ) by {
        assert(d.memories.contains(d.memories[i]));
        st.memories.lemma_filter_contains_rev(keep, d.memories[i]);
        assert(keep(d.memories[i]));
        let k = choose|k: int| 0 <= k < st.memories.len() && st.memories[k] == d.memories[i];
        assert(covers(st.index, st.memories[k]));
    }
    assert forall|e: crate::index::Entry| #[trigger] d.index.contains(e) implies has_id(
        d.memories,
        e.1,
    ) by {
        without_then_lookup(st.memories, id, e.1);
    }
}

/// A store stays well formed when a memory is accessed.
pub proof fn access_keeps_wf(st: StoreView, id: Seq<char>, t: Timestamp)
    requires
        st.wf(),
    ensures
        st.accessed(id, t).wf(),
{
    if has_id(st.memories, id) {
        let p = place(st.memories, id);
        assert(id_at(st.memories, p, id));
        let r = st.memories[p];
        let n = RecordView { access_times: r.access_times.push(t), ..r };
        let a = st.accessed(id, t);
        put_then_lookup(st.memories, n, id);
        assert(covers(st.index, r));
        assert(entries_of(n) == entries_of(r));
        assert forall|i: int| 0 <= i < a.memories.len() implies covers(
            a.index,
            #[trigger] a.memories[i],
        ) by {
            lemma_put_members(st.memories, n, i);
            if a.memories[i] != n {
                assert(covers(st.index, st.memories[i]));
            }
        }
        assert forall|e: crate::index::Entry| #[trigger] a.index.contains(e) implies has_id(
            a.memories,
            e.1,
        ) by {
            put_then_lookup(st.memories, n, e.1);
        }
    }
}

// --- The image of a store ---

/// What is kept of a store on disk.
#[derive(Debug)]
pub struct StoreSnapshot {
    pub memories: Vec<MemoryRecord>,
    pub hebbian_links: Vec<(String, String, Binary64)>,
    pub version: u32,
}

impl StoreView {
    /// The store after some memories are added, one after the other.
    pub open spec fn with_memories(self, new: Seq<RecordView>) -> StoreView
        decreases new.len(),
    {
        if new.len() == 0 {
            self
        } else {
            self.with_memories(new.drop_last()).added(new.last())
        }
    }

    /// The store after some memories are updated, one after the other.
    pub open spec fn with_updates(self, new: Seq<RecordView>) -> StoreView
        decreases new.len(),
    {
        if new.len() == 0 {
            self
        } else {
            self.with_updates(new.drop_last()).updated(new.last())
        }
    }

    /// The store after an image is loaded into it.
    pub open spec fn loaded(
        self,
        new: Seq<RecordView>,
        links: Seq<crate::links::LinkView>,
    ) -> StoreView {
        StoreView {
            links: crate::links::with_links(self.links, links),
            ..self.with_memories(new)
        }
    }
}

// --- Search ---

/// How many of some tokens, counted with their repetitions, the index lists
/// for a memory.
pub open spec fn hits(
    index: Set<crate::index::Entry>,
    tokens: Seq<Seq<char>>,
    id: Seq<char>,
) -> nat {
    tokens.filter(|t: Seq<char>| index.contains((t, id))).len()
}

/// The memories for which the index lists one of some tokens.
pub open spec fn found(st: StoreView, tokens: Seq<Seq<char>>) -> Seq<crate::ranking::Rank> {
    Seq::new(
        st.memories.len(),
        |i: int|
            crate::ranking::Rank {
                at: i,
                score: hits(st.index, tokens, st.memories[i].id) as int,
            },
    ).filter(|x: crate::ranking::Rank| x.score > 0)
}

/// The memories that stand at some places.
pub open spec fn at_places(
    s: Seq<RecordView>,
    places: Seq<crate::ranking::Rank>,
) -> Seq<RecordView> {
    places.map_values(|x: crate::ranking::Rank| s[x.at])
}

/// What a search for some tokens gives: the memories with most hits first.
pub open spec fn fts_result(
    st: StoreView,
    tokens: Seq<Seq<char>>,
    limit: nat,
) -> Seq<RecordView> {
    at_places(
        st.memories,
        crate::ranking::first(crate::ranking::ranked(found(st, tokens)), limit),
    )
}

/// How similar a memory is to an embedding.
pub open spec fn closeness(m: RecordView, query: Seq<Binary32>) -> Option<Binary32> {
    match m.embedding {
        Some(e) => Some(crate::vector::cosine(query, e)),
        None => None,
    }
}

pub open spec fn close_enough(m: RecordView, query: Seq<Binary32>, min_score: Binary32) -> bool {
    closeness(m, query) matches Some(c) && c.at_least(min_score)
}

/// The memories that are similar enough to an embedding.
pub open spec fn close(
    s: Seq<RecordView>,
    query: Seq<Binary32>,
    min_score: Binary32,
) -> Seq<crate::ranking::Rank> {
    Seq::new(
        s.len(),
        |i: int|
            crate::ranking::Rank {
                at: i,
                score: match closeness(s[i], query) {
                    Some(c) => c.datum().rank(),
                    None => 0,
                },
            },
    ).filter(|x: crate::ranking::Rank| close_enough(s[x.at], query, min_score))
}

/// What a search for an embedding gives: the most similar memories first, with
/// how similar they are.
pub open spec fn vector_result(
    s: Seq<RecordView>,
    query: Seq<Binary32>,
    limit: nat,
    min_score: Binary32,
) -> Seq<(Seq<char>, Binary32)> {
    crate::ranking::first(crate::ranking::ranked(close(s, query, min_score)), limit).map_values(
        |x: crate::ranking::Rank| (s[x.at].id, closeness(s[x.at], query)->0),
    )
}

/// Identifiers with their scores.
pub open spec fn scored_ids(v: Seq<(String, Binary32)>) -> Seq<(Seq<char>, Binary32)> {
    Seq::new(v.len(), |i: int| (v[i].0@, v[i].1))
}

/// Places in a list come out of ranking as places in that list.
pub proof fn lemma_places(
    all: Seq<crate::ranking::Rank>,
    keep: spec_fn(crate::ranking::Rank) -> bool,
    limit: nat,
)
    requires
        forall|i: int| 0 <= i < all.len() ==> (#[trigger] all[i]).at == i,
    ensures
        forall|k: int|
            0 <= k < crate::ranking::first(crate::ranking::ranked(all.filter(keep)), limit).len()
                ==> 0 <= (#[trigger] crate::ranking::first(
                crate::ranking::ranked(all.filter(keep)),
                limit,
            )[k]).at < all.len() && all.filter(keep).contains(
                crate::ranking::first(crate::ranking::ranked(all.filter(keep)), limit)[k],
            ) && keep(crate::ranking::first(crate::ranking::ranked(all.filter(keep)), limit)[k]),
{
    let f = all.filter(keep);
    let r = crate::ranking::ranked(f);
    let t = crate::ranking::first(r, limit);
    crate::ranking::ranked_is_permutation(f);
    assert forall|k: int| 0 <= k < t.len() implies 0 <= (#[trigger] t[k]).at < all.len()
        && f.contains(t[k]) && keep(t[k]) by {
        broadcast use vstd::seq_lib::group_filter_ensures;

        assert(r.contains(t[k])) by {
            assert(r[k] == t[k]);
        }
        all.lemma_filter_contains_rev(keep, t[k]);
        let j = choose|j: int| 0 <= j < f.len() && f[j] == t[k];
        assert(keep(f[j]));
        let i = choose|i: int| 0 <= i < all.len() && all[i] == t[k];
        assert(all[i].at == i);
    }
}

/// A store of memories, with the path of the file that it is kept in.
#[derive(Debug)]
pub struct MemoryStore {
    memories: Vec<MemoryRecord>,
    hebbian_links: HebbianLinks,
    inverted_index: InvertedIndex,
    path: Option<String>,
}

impl MemoryStore {
    pub closed spec fn view(&self) -> StoreView {
        StoreView {
            memories: crate::types::records(self.memories@),
            links: self.hebbian_links@,
            index: self.inverted_index@,
            path: crate::types::opt_text(self.path),
        }
    }

    pub closed spec fn wf(&self) -> bool {
        &&& self@.wf()
        &&& self.inverted_index.wf()
    }

    /// What holds of every store.
    pub proof fn lemma_wf(&self)
        requires
            self.wf(),
        ensures
            self@.wf(),
    {
    }

    /// An empty store that is kept in the file at `path`, if one is given.
    pub fn new(path: Option<String>) -> (r: MemoryStore)
        ensures
            r.wf(),
            r@ == StoreView::empty(crate::types::opt_text(path)),
    {
        let r = MemoryStore {
            memories: Vec::new(),
            hebbian_links: HebbianLinks::new(),
            inverted_index: InvertedIndex::new(),
            path,
        };
        assert(r@.memories =~= Seq::<RecordView>::empty());
        r
    }

    /// The place of a memory, or the number of memories where it has none.
    fn find(&self, id: &str) -> (i: usize)
        requires
            self.wf(),
        ensures
            i <= self.memories@.len(),
            i < self.memories@.len() ==> id_at(self@.memories, i as int, id@) && place(
                self@.memories,
                id@,
            ) == i && lookup(self@.memories, id@) == Some(self.memories@[i as int]@),
            i < self.memories@.len() <==> has_id(self@.memories, id@),
    {
        let mut i: usize = 0;
        while i < self.memories.len()
            invariant
                i <= self.memories@.len(),
                self.wf(),
                forall|j: int| 0 <= j < i ==> !id_at(self@.memories, j, id@),
            decreases self.memories@.len() - i,
        {
            if same(self.memories[i].id.as_str(), id) {
                assert(id_at(self@.memories, i as int, id@));
                proof {
                    lemma_place_unique(self@.memories, i as int, id@);
                }
                return i;
            }
            assert(!id_at(self@.memories, i as int, id@));
            i = i + 1;
        }
        i
    }

    /// Puts a record into the place of the memory with its identifier.
    fn put(&mut self, record: MemoryRecord)
        requires
            old(self).wf(),
        ensures
            final(self)@ == (StoreView { memories: put(old(self)@.memories, record@), ..old(self)@ }),
            final(self).inverted_index.wf(),
    {
        let i = self.find(record.id.as_str());
        if i < self.memories.len() {
            self.memories.set(i, record);
            assert(self@.memories =~= put(old(self)@.memories, record@));
        } else {
            self.memories.push(record);
            assert(self@.memories =~= put(old(self)@.memories, record@));
        }
    }

    /// Adds a memory.
    pub fn add(&mut self, record: &MemoryRecord)
        requires
            old(self).wf(),
        ensures
            final(self).wf(),
            final(self)@ == old(self)@.added(record@),
    {
        proof {
            put_keeps_wf(self@, record@);
        }
        self.put(record.clone());
        self.inverted_index.index_record(record.content.as_str(), record.id.as_str());
        assert(self@ =~= old(self)@.added(record@));
    }

    /// The memory with the given identifier.
    pub fn get(&self, id: &str) -> (r: Option<MemoryRecord>)
        requires
            self.wf(),
        ensures
            opt_record(r) == lookup(self@.memories, id@),
    {
        let i = self.find(id);
        if i < self.memories.len() {
            Some(self.memories[i].clone())
        } else {
            None
        }
    }

    /// All memories.
    pub fn all(&self) -> (r: Vec<MemoryRecord>)
        ensures
            crate::types::records(r@) == self@.memories,
    {
        let mut r: Vec<MemoryRecord> = Vec::new();
        let mut i: usize = 0;
        while i < self.memories.len()
            invariant
                i <= self.memories@.len(),
                crate::types::records(r@) == self@.memories.take(i as int),
            decreases self.memories@.len() - i,
        {
            let ghost before = r@;
            r.push(self.memories[i].clone());
            assert(crate::types::records(r@) =~= crate::types::records(before).push(
                self@.memories[i as int],
            ));
            assert(self@.memories.take(i + 1) == self@.memories.take(i as int).push(
                self@.memories[i as int],
            ));
            i = i + 1;
        }
        assert(self@.memories.take(self.memories@.len() as int) == self@.memories);
        r
    }

    /// Puts a memory in place of the one with the same identifier.
    pub fn update(&mut self, record: &MemoryRecord)
        requires
            old(self).wf(),
        ensures
            final(self).wf(),
            final(self)@ == old(self)@.updated(record@),
    {
        proof {
            put_keeps_wf(self@, record@);
        }
        self.put(record.clone());
        self.inverted_index.deindex_record(record.id.as_str());
        self.inverted_index.index_record(record.content.as_str(), record.id.as_str());
        assert(self@ =~= old(self)@.updated(record@));
    }

    /// Updates some memories, one after the other.
    pub fn update_all(&mut self, new: &Vec<MemoryRecord>)
        requires
            old(self).wf(),
        ensures
            final(self).wf(),
            final(self)@ == old(self)@.with_updates(crate::types::records(new@)),
    {
        let ghost all = crate::types::records(new@);
        let mut i: usize = 0;
        assert(self@ == old(self)@.with_updates(all.take(0)));
        while i < new.len()
            invariant
                i <= new@.len(),
                all == crate::types::records(new@),
                self.wf(),
                self@ == old(self)@.with_updates(all.take(i as int)),
            decreases new@.len() - i,
        {
            assert(all.take(i + 1).drop_last() == all.take(i as int));
            assert(all.take(i + 1).last() == new@[i as int]@);
            self.update(&new[i]);
            i = i + 1;
        }
        assert(all.take(new@.len() as int) == all);
    }

    /// Deletes a memory and its links.
    pub fn delete(&mut self, id: &str)
        requires
            old(self).wf(),
        ensures
            final(self).wf(),
            final(self)@ == old(self)@.deleted(id@),
    {
        proof {
            delete_keeps_wf(self@, id@);
        }
        let ghost all = self@.memories;
        let ghost keep = other_than(id@);
        self.inverted_index.deindex_record(id);
        self.hebbian_links.unlink(id);
        let mut kept: Vec<MemoryRecord> = Vec::new();
        let mut i: usize = 0;
        assert(all.take(0).filter(keep) == Seq::<RecordView>::empty()) by {
            reveal(Seq::filter);
        }
        assert(crate::types::records(kept@) == Seq::<RecordView>::empty());
        while i < self.memories.len()
            invariant
                i <= self.memories@.len(),
                crate::types::records(self.memories@) == all,
                keep == other_than(id@),
                crate::types::records(kept@) == all.take(i as int).filter(keep),
            decreases self.memories@.len() - i,
        {
            let ghost before = kept@;
            let r = &self.memories[i];
            assert(all[i as int] == r@);
            assert(all.take(i + 1).drop_last() == all.take(i as int));
            assert(all.take(i + 1).last() == r@);
            if !same(r.id.as_str(), id) {
                kept.push(r.clone());
                assert(crate::types::records(kept@) =~= crate::types::records(before).push(r@));
            }
            assert(crate::types::records(kept@) == all.take(i + 1).filter(keep)) by {
                reveal(Seq::filter);
            }
            i = i + 1;
        }
        assert(all.take(self.memories@.len() as int) == all);
        self.memories = kept;
        assert(self@ =~= old(self)@.deleted(id@));
    }

    /// Records that a memory is accessed at `t`.
    pub fn record_access_at(&mut self, id: &str, t: Timestamp)
        requires
            old(self).wf(),
        ensures
            final(self).wf(),
            final(self)@ == old(self)@.accessed(id@, t),
    {
        proof {
            access_keeps_wf(self@, id@, t);
        }
        match self.get(id) {
            Some(record) => {
                let mut record = record;
                let ghost before = record@;
                record.access_times.push(t);
                assert(id_at(self@.memories, place(self@.memories, id@), id@));
                assert(record@ =~= (RecordView {
                    access_times: before.access_times.push(t),
                    ..before
                }));
                self.put(record);
            },
            None => {},
        }
        assert(self@ =~= old(self)@.accessed(id@, t));
    }

    /// Records that a memory is accessed now.
    pub fn record_access(&mut self, id: &str)
        requires
            old(self).wf(),
        ensures
            final(self).wf(),
            exists|t: Timestamp|
                crate::host::is_clock_time(t) && final(self)@ == #[trigger] old(self)@.accessed(
                    id@,
                    t,
                ),
    {
        let t = now();
        self.record_access_at(id, t);
    }

    /// When a memory was accessed.
    pub fn get_access_times(&self, id: &str) -> (r: Vec<Timestamp>)
        requires
            self.wf(),
        ensures
            r@ == match lookup(self@.memories, id@) {
                Some(m) => m.access_times,
                None => Seq::empty(),
            },
    {
        let i = self.find(id);
        if i < self.memories.len() {
            clone_times(&self.memories[i].access_times)
        } else {
            Vec::new()
        }
    }

    /// The memories of a type.
    pub fn search_by_type(&self, memory_type: MemoryType) -> (r: Vec<MemoryRecord>)
        ensures
            crate::types::records(r@) == self@.memories.filter(
                |m: RecordView| m.memory_type == memory_type,
            ),
    {
        let ghost all = self@.memories;
        let ghost keep = |m: RecordView| m.memory_type == memory_type;
        let mut r: Vec<MemoryRecord> = Vec::new();
        let mut i: usize = 0;
        assert(all.take(0).filter(keep) == Seq::<RecordView>::empty()) by {
            reveal(Seq::filter);
        }
        assert(crate::types::records(r@) == Seq::<RecordView>::empty());
        while i < self.memories.len()
            invariant
                i <= self.memories@.len(),
                self@.memories == all,
                keep == (|m: RecordView| m.memory_type == memory_type),
                crate::types::records(r@) == all.take(i as int).filter(keep),
            decreases self.memories@.len() - i,
        {
            let ghost before = r@;
            let m = &self.memories[i];
            assert(all[i as int] == m@);
            assert(all.take(i + 1).drop_last() == all.take(i as int));
            assert(all.take(i + 1).last() == m@);
            if m.memory_type == memory_type {
                r.push(m.clone());
                assert(crate::types::records(r@) =~= crate::types::records(before).push(m@));
            }
            assert(crate::types::records(r@) == all.take(i + 1).filter(keep)) by {
                reveal(Seq::filter);
            }
            i = i + 1;
        }
        assert(all.take(self.memories@.len() as int) == all);
        r
    }

    /// The memories linked with a memory.
    pub fn get_hebbian_neighbors(&self, memory_id: &str) -> (r: Vec<String>)
        ensures
            crate::text::texts(r@) == crate::links::neighbors(self@.links, memory_id@),
    {
        self.hebbian_links.neighbors_of(memory_id)
    }

    /// Records that two memories have been recalled together. Returns whether
    /// this forms a new link, which it does when the pair has been recalled
    /// together `threshold` times.
    pub fn record_coactivation(&mut self, id1: &str, id2: &str, threshold: i32) -> (formed: bool)
        requires
            old(self).wf(),
        ensures
            final(self).wf(),
            final(self)@ == (StoreView {
                links: crate::links::after_coactivation(old(self)@.links, id1@, id2@, threshold),
                ..old(self)@
            }),
            formed == crate::links::forms_link(old(self)@.links, id1@, id2@, threshold),
            crate::links::in_order(old(self)@.links) ==> crate::links::in_order(final(self)@.links)
                && (formed <==> !crate::links::neighbors(old(self)@.links, id1@).contains(id2@)
                && crate::links::neighbors(final(self)@.links, id1@).contains(id2@)),
    {
        let formed = self.hebbian_links.record_coactivation(id1, id2, threshold);
        assert(self@.index == old(self)@.index);
        formed
    }

    /// Gives the pair of two memories at least the given strength.
    pub(crate) fn raise_link(&mut self, id1: &str, id2: &str, strength: Binary64)
        requires
            old(self).wf(),
        ensures
            final(self).wf(),
            final(self)@ == (StoreView {
                links: crate::links::raised(old(self)@.links, id1@, id2@, strength),
                ..old(self)@
            }),
    {
        self.hebbian_links.raise(id1, id2, strength);
        assert(self@.index == old(self)@.index);
    }

    /// Decays all links by `factor` and drops those that have become weak.
    /// Returns how many were dropped.
    pub fn decay_hebbian_links(&mut self, factor: Binary64) -> (pruned: usize)
        requires
            old(self).wf(),
        ensures
            final(self).wf(),
            final(self)@ == (StoreView {
                links: crate::links::after_decay(old(self)@.links, factor),
                ..old(self)@
            }),
            pruned == old(self)@.links.len() - final(self)@.links.len(),
    {
        let pruned = self.hebbian_links.decay(factor);
        assert(self@.index == old(self)@.index);
        pruned
    }

    /// The weights of all pairs.
    pub fn export_hebbian_links(&self) -> (r: Vec<(String, String, Binary64)>)
        ensures
            crate::links::links_of(r@) == self@.links,
    {
        let ghost all = self@.links;
        let mut r: Vec<(String, String, Binary64)> = Vec::new();
        let mut i: usize = 0;
        while i < self.hebbian_links.len()
            invariant
                i <= all.len(),
                all == self.hebbian_links@,
                crate::links::links_of(r@) == all.take(i as int),
            decreases all.len() - i,
        {
            let ghost before = r@;
            let (a, b, w) = self.hebbian_links.entry(i);
            r.push((a.to_owned(), b.to_owned(), w));
            assert(crate::links::links_of(r@) =~= crate::links::links_of(before).push(
                all[i as int],
            ));
            assert(all.take(i + 1) == all.take(i as int).push(all[i as int]));
            i = i + 1;
        }
        assert(all.take(all.len() as int) == all);
        r
    }

    /// How many of some tokens the index lists for a memory.
    fn count_hits(&self, tokens: &Vec<String>, id: &str) -> (n: usize)
        requires
            self.wf(),
        ensures
            n == hits(self@.index, crate::text::texts(tokens@), id@),
    {
        let ghost all = crate::text::texts(tokens@);
        let ghost index = self@.index;
        let ghost has = |t: Seq<char>| index.contains((t, id@));
        let mut n: usize = 0;
        let mut i: usize = 0;
        assert(all.take(0).filter(has).len() == 0) by {
            reveal(Seq::filter);
        }
        while i < tokens.len()
            invariant
                i <= tokens.len(),
                n <= i,
                self.wf(),
                index == self.inverted_index@,
                all == crate::text::texts(tokens@),
                has == (|t: Seq<char>| index.contains((t, id@))),
                n == all.take(i as int).filter(has).len(),
            decreases tokens.len() - i,
        {
            assert(all.take(i + 1).drop_last() == all.take(i as int));
            assert(all.take(i + 1).last() == tokens@[i as int]@);
            assert(all.take(i + 1).filter(has).len() == n + if index.contains(
                (tokens@[i as int]@, id@),
            ) {
                1int
            } else {
                0
            }) by {
                reveal(Seq::filter);
            }
            if self.inverted_index.contains(tokens[i].as_str(), id) {
                n = n + 1;
            }
            i = i + 1;
        }
        assert(all.take(tokens.len() as int) == all);
        n
    }

    /// The memories for which the index lists one of some tokens.
    fn matching(&self, tokens: &Vec<String>) -> (r: Vec<Scored>)
        requires
            self.wf(),
        ensures
            crate::ranking::ranks(r@) == found(self@, crate::text::texts(tokens@)),
    {
        let ghost st = self@;
        let ghost toks = crate::text::texts(tokens@);
        let ghost keep = |x: crate::ranking::Rank| x.score > 0;
        let ghost all = Seq::new(
            st.memories.len(),
            |i: int|
                crate::ranking::Rank {
                    at: i,
                    score: hits(st.index, toks, st.memories[i].id) as int,
                },
        );
        let mut r: Vec<Scored> = Vec::new();
        let mut i: usize = 0;
        assert(all.take(0).filter(keep) == Seq::<crate::ranking::Rank>::empty()) by {
            reveal(Seq::filter);
        }
        assert(crate::ranking::ranks(r@) == Seq::<crate::ranking::Rank>::empty());
        while i < self.memories.len()
            invariant
                i <= self.memories@.len(),
                self.wf(),
                st == self@,
                toks == crate::text::texts(tokens@),
                keep == (|x: crate::ranking::Rank| x.score > 0),
                all.len() == self.memories@.len(),
                forall|k: int|
                    0 <= k < all.len() ==> #[trigger] all[k] == (crate::ranking::Rank {
                        at: k,
                        score: hits(st.index, toks, st.memories[k].id) as int,
                    }),
                crate::ranking::ranks(r@) == all.take(i as int).filter(keep),
            decreases self.memories@.len() - i,
        {
            let ghost before = r@;
            assert(all.take(i + 1).drop_last() == all.take(i as int));
            assert(all.take(i + 1).last() == all[i as int]);
            let n = self.count_hits(tokens, self.memories[i].id.as_str());
            if n > 0 {
                let x = Scored { at: i, score: n as i128 };
                r.push(x);
                assert(crate::ranking::ranks(r@) =~= crate::ranking::ranks(before).push(x@));
            }
            assert(crate::ranking::ranks(r@) == all.take(i + 1).filter(keep)) by {
                reveal(Seq::filter);
            }
            i = i + 1;
        }
        assert(all.take(self.memories@.len() as int) == all);
        r
    }

    /// The memories that share tokens with a query, those that share most
    /// first, at most `limit` of them.
    pub fn search_fts(&self, query: &str, limit: usize) -> (r: Vec<MemoryRecord>)
        requires
            self.wf(),
        ensures
            crate::types::records(r@) == fts_result(self@, tokens_of(query@), limit as nat),
    {
        let tokens = tokenize(query);
        let hits = self.matching(&tokens);
        let order = rank(&hits);
        let ghost best = crate::ranking::first(crate::ranking::ranks(order@), limit as nat);
        let ghost st = self@;
        proof {
            let toks = crate::text::texts(tokens@);
            lemma_places(
                Seq::new(
                    st.memories.len(),
                    |i: int|
                        crate::ranking::Rank {
                            at: i,
                            score: crate::store::hits(st.index, toks, st.memories[i].id) as int,
                        },
                ),
                |x: crate::ranking::Rank| x.score > 0,
                limit as nat,
            );
        }
        let mut r: Vec<MemoryRecord> = Vec::new();
        let mut i: usize = 0;
        while i < order.len() && i < limit
            invariant
                i <= order.len(),
                i <= limit,
                st == self@,
                best == crate::ranking::first(crate::ranking::ranks(order@), limit as nat),
                forall|k: int|
                    0 <= k < best.len() ==> 0 <= (#[trigger] best[k]).at < self.memories@.len(),
                crate::types::records(r@) == at_places(st.memories, best.take(i as int)),
            decreases order.len() - i,
        {
            let ghost before = r@;
            assert(best[i as int] == order@[i as int]@);
            r.push(self.memories[order[i].at].clone());
            assert(best.take(i + 1) == best.take(i as int).push(best[i as int]));
            assert(crate::types::records(r@) =~= crate::types::records(before).push(
                st.memories[best[i as int].at],
            ));
            assert(at_places(st.memories, best.take(i + 1)) =~= at_places(
                st.memories,
                best.take(i as int),
            ).push(st.memories[best[i as int].at]));
            i = i + 1;
        }
        assert(best.take(i as int) == best);
        r
    }

    /// The memories that are similar enough to an embedding.
    fn similar(&self, query: &[Binary32], min_score: Binary32) -> (r: Vec<Scored>)
        ensures
            crate::ranking::ranks(r@) == close(self@.memories, query@, min_score),
    {
        let ghost s = self@.memories;
        let ghost keep = |x: crate::ranking::Rank| close_enough(s[x.at], query@, min_score);
        let ghost all = Seq::new(
            s.len(),
            |i: int|
                crate::ranking::Rank {
                    at: i,
                    score: match closeness(s[i], query@) {
                        Some(c) => c.datum().rank(),
                        None => 0,
                    },
                },
        );
        let mut r: Vec<Scored> = Vec::new();
        let mut i: usize = 0;
        assert(all.take(0).filter(keep) == Seq::<crate::ranking::Rank>::empty()) by {
            reveal(Seq::filter);
        }
        assert(crate::ranking::ranks(r@) == Seq::<crate::ranking::Rank>::empty());
        while i < self.memories.len()
            invariant
                i <= self.memories@.len(),
                s == self@.memories,
                keep == (|x: crate::ranking::Rank| close_enough(s[x.at], query@, min_score)),
                all.len() == self.memories@.len(),
                forall|k: int|
                    0 <= k < all.len() ==> #[trigger] all[k] == (crate::ranking::Rank {
                        at: k,
                        score: match closeness(s[k], query@) {
                            Some(c) => c.datum().rank(),
                            None => 0,
                        },
                    }),
                crate::ranking::ranks(r@) == all.take(i as int).filter(keep),
            decreases self.memories@.len() - i,
        {
            let ghost before = r@;
            assert(all.take(i + 1).drop_last() == all.take(i as int));
            assert(all.take(i + 1).last() == all[i as int]);
            assert(s[i as int] == self.memories@[i as int]@);
            match &self.memories[i].embedding {
                Some(e) => {
                    let c = cosine_similarity(query, e.as_slice());
                    if c.ge(min_score) {
                        let x = Scored { at: i, score: c.rank() as i128 };
                        r.push(x);
                        assert(crate::ranking::ranks(r@) =~= crate::ranking::ranks(before).push(
                            x@,
                        ));
                    }
                },
                None => {},
            }
            assert(crate::ranking::ranks(r@) == all.take(i + 1).filter(keep)) by {
                reveal(Seq::filter);
            }
            i = i + 1;
        }
        assert(all.take(self.memories@.len() as int) == all);
        r
    }

    /// The memories most similar to an embedding, with how similar they are,
    /// at most `limit` of them and none below `min_score`.
    pub fn search_vector(
        &self,
        query_embedding: &[Binary32],
        limit: usize,
        min_score: Binary32,
    ) -> (r: Vec<(String, Binary32)>)
        ensures
            scored_ids(r@) == vector_result(
                self@.memories,
                query_embedding@,
                limit as nat,
                min_score,
            ),
    {
        let ghost s = self@.memories;
        let ghost query = query_embedding@;
        let hits = self.similar(query_embedding, min_score);
        let order = rank(&hits);
        let ghost best = crate::ranking::first(crate::ranking::ranks(order@), limit as nat);
        proof {
            lemma_places(
                Seq::new(
                    s.len(),
                    |i: int|
                        crate::ranking::Rank {
                            at: i,
                            score: match closeness(s[i], query) {
                                Some(c) => c.datum().rank(),
                                None => 0,
                            },
                        },
                ),
                |x: crate::ranking::Rank| close_enough(s[x.at], query, min_score),
                limit as nat,
            );
        }
        let ghost out = best.map_values(
            |x: crate::ranking::Rank| (s[x.at].id, closeness(s[x.at], query)->0),
        );
        let mut r: Vec<(String, Binary32)> = Vec::new();
        let mut i: usize = 0;
        while i < order.len() && i < limit
            invariant
                i <= order.len(),
                i <= limit,
                s == self@.memories,
                query == query_embedding@,
                best == crate::ranking::first(crate::ranking::ranks(order@), limit as nat),
                forall|k: int|
                    0 <= k < best.len() ==> 0 <= (#[trigger] best[k]).at < self.memories@.len()
                        && close_enough(s[best[k].at], query, min_score),
                out == best.map_values(
                    |x: crate::ranking::Rank| (s[x.at].id, closeness(s[x.at], query)->0),
                ),
                scored_ids(r@) == out.take(i as int),
            decreases order.len() - i,
        {
            let ghost before = r@;
            assert(best[i as int] == order@[i as int]@);
            let m = &self.memories[order[i].at];
            assert(s[best[i as int].at] == m@);
            match &m.embedding {
                Some(e) => {
                    r.push((m.id.clone(), cosine_similarity(query_embedding, e.as_slice())));
                },
                None => {},
            }
            assert(scored_ids(r@) =~= scored_ids(before).push(out[i as int]));
            assert(out.take(i + 1) == out.take(i as int).push(out[i as int]));
            i = i + 1;
        }
        assert(out.take(i as int) == out);
        r
    }

    /// What to write to disk, and where; nothing where the store has no path.
    pub fn save(&self) -> (r: Option<(String, StoreSnapshot)>)
        ensures
            match r {
                Some((path, image)) => {
                    &&& self@.path == Some(path@)
                    &&& crate::types::records(image.memories@) == self@.memories
                    &&& crate::links::links_of(image.hebbian_links@) == self@.links
                    &&& image.version == 1
                },
                None => self@.path is None,
            },
    {
        match &self.path {
            Some(path) => Some(
                (
                    path.clone(),
                    StoreSnapshot {
                        memories: self.all(),
                        hebbian_links: self.export_hebbian_links(),
                        version: 1,
                    },
                ),
            ),
            None => None,
        }
    }

    /// Loads what was kept on disk.
    pub fn load(&mut self, image: &StoreSnapshot)
        requires
            old(self).wf(),
        ensures
            final(self).wf(),
            final(self)@ == old(self)@.loaded(
                crate::types::records(image.memories@),
                crate::links::links_of(image.hebbian_links@),
            ),
    {
        let ghost new = crate::types::records(image.memories@);
        let ghost links = crate::links::links_of(image.hebbian_links@);
        let mut i: usize = 0;
        assert(self@ == old(self)@.with_memories(new.take(0)));
        while i < image.memories.len()
            invariant
                i <= image.memories@.len(),
                new == crate::types::records(image.memories@),
                self.wf(),
                self@ == old(self)@.with_memories(new.take(i as int)),
            decreases image.memories@.len() - i,
        {
            assert(new.take(i + 1).drop_last() == new.take(i as int));
            assert(new.take(i + 1).last() == image.memories@[i as int]@);
            self.add(&image.memories[i]);
            i = i + 1;
        }
        assert(new.take(image.memories@.len() as int) == new);
        let ghost mid = self@;
        proof {
            lemma_with_memories_links(old(self)@, new);
        }
        let mut j: usize = 0;
        while j < image.hebbian_links.len()
            invariant
                j <= image.hebbian_links@.len(),
                links == crate::links::links_of(image.hebbian_links@),
                self.wf(),
                self@ == (StoreView {
                    links: crate::links::with_links(mid.links, links.take(j as int)),
                    ..mid
                }),
            decreases image.hebbian_links@.len() - j,
        {
            assert(links.take(j + 1).drop_last() == links.take(j as int));
            assert(links.take(j + 1).last() == links[j as int]);
            let l = &image.hebbian_links[j];
            let ghost before = self@;
            self.hebbian_links.set(l.0.as_str(), l.1.as_str(), l.2);
            assert(self@.index == before.index);
            j = j + 1;
        }
        assert(links.take(image.hebbian_links@.len() as int) == links);
    }
}

proof fn lemma_with_memories_links(st: StoreView, new: Seq<RecordView>)
    ensures
        st.with_memories(new).links == st.links,
        st.with_memories(new).path == st.path,
    decreases new.len(),
{
    if new.len() > 0 {
        lemma_with_memories_links(st, new.drop_last());
    }
}

} // verus!
