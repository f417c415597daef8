//! What holds of the merge of snapshots.

use vstd::prelude::*;
use crate::binary::Binary64;
use crate::links::LinkView;
use crate::store::StoreView;
use crate::sync::Keyed;
use crate::types::RecordView;

verus! {

// --- What is merged ---

/// A snapshot is valid where each memory is known by its content hash, and no
/// hash stands twice.
pub open spec fn valid(s: Seq<Keyed>) -> bool {
    &&& crate::sync::unique_hashes(s)
    &&& forall|k: int|
        0 <= k < s.len() ==> (#[trigger] s[k]).hash == crate::sync::hash_of(s[k].record)
}

/// Whether the remote memory `i` is new to the store, and its identifier is
/// that of a local memory or of a new one before it.
pub open spec fn clashes(st: StoreView, s: Seq<Keyed>, i: int) -> bool {
    is_news(st, s, i) && (crate::store::has_id(st.memories, s[i].record.id) || exists|j: int|
        0 <= j < i && #[trigger] is_news(st, s, j) && s[j].record.id == s[i].record.id)
}

/// Whether the content of the remote memory `i` is new to the store.
pub open spec fn is_news(st: StoreView, s: Seq<Keyed>, i: int) -> bool {
    last_place(st.memories, s[i].hash) < 0
}

/// The identifiers held ready for new memories whose own is taken are unused:
/// no local and no new memory has one of them, and they differ from each other.
pub open spec fn unused(st: StoreView, s: Seq<Keyed>, fresh: Seq<Seq<char>>) -> bool {
    &&& fresh.len() >= s.len()
    &&& forall|i: int|
        0 <= i < s.len() && #[trigger] clashes(st, s, i) ==> !crate::store::has_id(
            st.memories,
            fresh[i],
        )
    &&& forall|i: int, j: int|
        0 <= i < s.len() && 0 <= j < s.len() && #[trigger] clashes(st, s, i)
            && #[trigger] is_news(st, s, j) ==> fresh[i] != s[j].record.id
    &&& forall|i: int, j: int|
        0 <= i < j < s.len() && #[trigger] clashes(st, s, i) && #[trigger] clashes(st, s, j)
            ==> fresh[i] != fresh[j]
}

/// The place of the last memory with the given hash; -1 where there is none.
pub open spec fn last_place(s: Seq<RecordView>, hash: Seq<char>) -> int
    decreases s.len(),
{
    if s.len() == 0 {
        -1
    } else if crate::sync::hash_of(s.last()) == hash {
        s.len() - 1
    } else {
        last_place(s.drop_last(), hash)
    }
}

pub(crate) proof fn lemma_last_place(s: Seq<RecordView>, hash: Seq<char>)
    ensures
        -1 <= last_place(s, hash) < s.len(),
        last_place(s, hash) >= 0 ==> crate::sync::hash_of(s[last_place(s, hash)]) == hash,
        forall|i: int|
            last_place(s, hash) < i < s.len() ==> crate::sync::hash_of(#[trigger] s[i]) != hash,
        crate::sync::match_of(s, hash) == if last_place(s, hash) >= 0 {
            Some(s[last_place(s, hash)])
        } else {
            None
        },
    decreases s.len(),
{
    if s.len() > 0 && crate::sync::hash_of(s.last()) != hash {
        let rest = s.drop_last();
        lemma_last_place(rest, hash);
        assert forall|i: int| last_place(s, hash) < i < s.len() implies crate::sync::hash_of(
            #[trigger] s[i],
        ) != hash by {
            if i < rest.len() {
                assert(crate::sync::hash_of(rest[i]) != hash);
            }
        }
    }
}

/// The last memory with a hash stands at a place after which no memory has it.
pub(crate) proof fn lemma_last_place_is(s: Seq<RecordView>, hash: Seq<char>, p: int)
    requires
        0 <= p < s.len(),
        crate::sync::hash_of(s[p]) == hash,
        forall|i: int| p < i < s.len() ==> crate::sync::hash_of(#[trigger] s[i]) != hash,
    ensures
        last_place(s, hash) == p,
        crate::sync::match_of(s, hash) == Some(s[p]),
{
    lemma_last_place(s, hash);
    let q = last_place(s, hash);
    if q < p {
        assert(crate::sync::hash_of(s[p]) != hash);
    }
    if p < q {
        assert(crate::sync::hash_of(s[q]) != hash);
    }
}

/// How many of the first `n` remote memories are new.
pub open spec fn news(locals: Seq<RecordView>, s: Seq<Keyed>, n: nat) -> nat
    decreases n,
{
    if n == 0 {
        0
    } else {
        news(locals, s, (n - 1) as nat) + if last_place(locals, s[n - 1].hash) < 0 {
            1nat
        } else {
            0
        }
    }
}

proof fn lemma_news_monotone(locals: Seq<RecordView>, s: Seq<Keyed>, a: nat, b: nat)
    requires
        a <= b,
    ensures
        news(locals, s, a) <= news(locals, s, b),
        a < b && last_place(locals, s[a as int].hash) < 0 ==> news(locals, s, a) < news(
            locals,
            s,
            b,
        ),
    decreases b,
{
    if a < b {
        lemma_news_monotone(locals, s, a, (b - 1) as nat);
    }
}

/// The index lists nothing under the identifier of `r` but the tokens of `r`.
pub open spec fn exact_for(index: Set<crate::index::Entry>, r: RecordView) -> bool {
    forall|e: crate::index::Entry| #[trigger]
        index.contains(e) && e.1 == r.id ==> crate::store::entries_of(r).contains(e)
}

/// No one of the first `n` remote memories has the hash of the local memory at
/// place `i` as its last.
pub open spec fn untouched(locals: Seq<RecordView>, s: Seq<Keyed>, n: int, i: int) -> bool {
    forall|k: int| 0 <= k < n ==> last_place(locals, (#[trigger] s[k]).hash) != i
}

/// What became of the remote memory `k`: the local memory with its hash is the
/// merged one, or it stands among the new ones.
pub open spec fn arrived(
    st: StoreView,
    m: StoreView,
    s: Seq<Keyed>,
    fresh: Seq<Seq<char>>,
    k: int,
) -> bool {
    let locals = st.memories;
    let p = last_place(locals, s[k].hash);
    if p >= 0 {
        if crate::sync::brings_more(locals[p], s[k].record) {
            &&& m.memories[p] == crate::sync::merged_record(locals[p], s[k].record)
            &&& exact_for(m.index, m.memories[p])
        } else {
            m.memories[p] == locals[p]
        }
    } else {
        let q = (locals.len() + news(locals, s, k as nat)) as int;
        &&& q < m.memories.len()
        &&& m.memories[q] == (RecordView { id: m.memories[q].id, ..s[k].record })
        &&& m.memories[q].id == s[k].record.id || (clashes(st, s, k) && m.memories[q].id
            == fresh[k])
    }
}

pub open spec fn comes_from(
    locals: Seq<RecordView>,
    s: Seq<Keyed>,
    n: int,
    q: int,
    k: int,
) -> bool {
    &&& 0 <= k < n
    &&& last_place(locals, s[k].hash) < 0
    &&& q == locals.len() + news(locals, s, k as nat)
}

/// The memory at place `q` is one of the first `n` remote ones.
pub open spec fn is_new_place(locals: Seq<RecordView>, s: Seq<Keyed>, n: int, q: int) -> bool {
    exists|k: int| comes_from(locals, s, n, q, k)
}

/// `a` and `b` differ at most in what a merge may change: strengths,
/// importance, access times, consolidation count and whether the memory is
/// pinned.
pub open spec fn same_memory(a: RecordView, b: RecordView) -> bool {
    a == (RecordView {
        working_strength: a.working_strength,
        core_strength: a.core_strength,
        importance: a.importance,
        access_times: a.access_times,
        consolidation_count: a.consolidation_count,
        pinned: a.pinned,
        ..b
    })
}

/// The state of a merge after the first `n` remote memories.
pub open spec fn merging(
    st: StoreView,
    s: Seq<Keyed>,
    fresh: Seq<Seq<char>>,
    n: nat,
    m: StoreView,
) -> bool {
    let locals = st.memories;
    &&& m.wf()
    &&& m.memories.len() == locals.len() + news(locals, s, n)
    &&& forall|i: int|
        0 <= i < locals.len() ==> same_memory(#[trigger] m.memories[i], locals[i])
    &&& forall|i: int|
        0 <= i < locals.len() && untouched(locals, s, n as int, i) ==> #[trigger] m.memories[i]
            == locals[i]
    &&& forall|k: int| 0 <= k < n ==> #[trigger] arrived(st, m, s, fresh, k)
    &&& forall|q: int|
        locals.len() <= q < m.memories.len() ==> #[trigger] is_new_place(locals, s, n as int, q)
}

/// A merge of a new memory keeps the state.
proof fn lemma_merging_new(
    st: StoreView,
    s: Seq<Keyed>,
    fresh: Seq<Seq<char>>,
    n: nat,
    m: StoreView,
)
    requires
        st.wf(),
        valid(s),
        unused(st, s, fresh),
        n < s.len(),
        merging(st, s, fresh, n, m),
        last_place(st.memories, s[n as int].hash) < 0,
    ensures
        merging(
            st,
            s,
            fresh,
            n + 1,
            m.added(crate::sync::renamed(m, s[n as int].record, fresh[n as int])),
        ),
{
    let locals = st.memories;
    let rec = s[n as int].record;
    let new = crate::sync::renamed(m, rec, fresh[n as int]);
    let a = m.added(new);
    assert(is_news(st, s, n as int));
    if crate::store::has_id(m.memories, rec.id) {
        let p = crate::store::place(m.memories, rec.id);
        assert(crate::store::id_at(m.memories, p, rec.id));
        if p < locals.len() {
            assert(m.memories[p].id == locals[p].id);
            assert(crate::store::id_at(locals, p, rec.id));
        } else {
            assert(is_new_place(locals, s, n as int, p));
            let k = choose|k: int| comes_from(locals, s, n as int, p, k);
            assert(arrived(st, m, s, fresh, k));
            assert(is_news(st, s, k));
        }
        assert(clashes(st, s, n as int));
    }
    if crate::store::has_id(m.memories, new.id) {
        let p = crate::store::place(m.memories, new.id);
        assert(crate::store::id_at(m.memories, p, new.id));
        assert(new.id == fresh[n as int]);
        if p < locals.len() {
            assert(m.memories[p].id == locals[p].id);
            assert(crate::store::id_at(locals, p, fresh[n as int]));
        } else {
            assert(is_new_place(locals, s, n as int, p));
            let k = choose|k: int| comes_from(locals, s, n as int, p, k);
            assert(arrived(st, m, s, fresh, k));
            assert(is_news(st, s, k));
            assert(fresh[n as int] != s[k].record.id);
        }
    }
    assert(a.memories == m.memories.push(new));
    crate::store::put_keeps_wf(m, new);
    assert forall|i: int| 0 <= i < locals.len() implies same_memory(
        #[trigger] a.memories[i],
        locals[i],
    ) by {
        assert(a.memories[i] == m.memories[i]);
    }
    assert forall|i: int| 0 <= i < locals.len() && untouched(locals, s, n as int + 1, i) implies (
    #[trigger] a.memories[i]) == locals[i] by {
        assert(a.memories[i] == m.memories[i]);
        assert(untouched(locals, s, n as int, i));
    }
    assert forall|k: int| 0 <= k < n + 1 implies #[trigger] arrived(st, a, s, fresh, k) by {
        if k < n {
            assert(arrived(st, m, s, fresh, k));
            let p = last_place(locals, s[k].hash);
            lemma_last_place(locals, s[k].hash);
            if p >= 0 {
                assert(a.memories[p] == m.memories[p]);
                if crate::sync::brings_more(locals[p], s[k].record) {
                    assert forall|e: crate::index::Entry| #[trigger]
                        a.index.contains(e) && e.1
                            == a.memories[p].id implies crate::store::entries_of(
                        a.memories[p],
                    ).contains(e) by {
                        if !m.index.contains(e) {
                            assert(e.1 == new.id);
                            assert(crate::store::id_at(m.memories, p, new.id));
                        }
                    }
                }
            } else {
                lemma_news_monotone(locals, s, k as nat, n);
                let q = (locals.len() + news(locals, s, k as nat)) as int;
                assert(a.memories[q] == m.memories[q]);
            }
        } else {
            let q = (locals.len() + news(locals, s, k as nat)) as int;
            assert(a.memories[q] == new);
        }
    }
    assert forall|q: int| locals.len() <= q < a.memories.len() implies #[trigger] is_new_place(
        locals,
        s,
        n as int + 1,
        q,
    ) by {
        if q < m.memories.len() {
            assert(is_new_place(locals, s, n as int, q));
            let k = choose|k: int| comes_from(locals, s, n as int, q, k);
            assert(comes_from(locals, s, n as int + 1, q, k));
        } else {
            assert(comes_from(locals, s, n as int + 1, q, n as int));
        }
    }
}

/// A merge of a memory that brings something to a local one keeps the state.
proof fn lemma_merging_changed(
    st: StoreView,
    s: Seq<Keyed>,
    fresh: Seq<Seq<char>>,
    n: nat,
    m: StoreView,
    p: int,
)
    requires
        st.wf(),
        valid(s),
        unused(st, s, fresh),
        n < s.len(),
        merging(st, s, fresh, n, m),
        last_place(st.memories, s[n as int].hash) == p,
        p >= 0,
        crate::sync::brings_more(st.memories[p], s[n as int].record),
    ensures
        merging(
            st,
            s,
            fresh,
            n + 1,
            m.updated(crate::sync::merged_record(st.memories[p], s[n as int].record)),
        ),
{
    let locals = st.memories;
    let rec = s[n as int].record;
    lemma_last_place(locals, s[n as int].hash);
    let new = crate::sync::merged_record(locals[p], rec);
    let u = m.updated(new);
    assert(m.memories[p].id == locals[p].id);
    assert(crate::store::id_at(m.memories, p, new.id));
    crate::store::lemma_place_unique(m.memories, p, new.id);
    assert(u.memories == m.memories.update(p, new));
    crate::store::put_keeps_wf(m, new);
    assert forall|i: int| 0 <= i < locals.len() implies same_memory(
        #[trigger] u.memories[i],
        locals[i],
    ) by {
        if i != p {
            assert(u.memories[i] == m.memories[i]);
        }
    }
    assert forall|i: int| 0 <= i < locals.len() && untouched(locals, s, n as int + 1, i) implies (
    #[trigger] u.memories[i]) == locals[i] by {
        assert(last_place(locals, s[n as int].hash) != i);
        assert(u.memories[i] == m.memories[i]);
        assert(untouched(locals, s, n as int, i));
    }
    assert forall|k: int| 0 <= k < n + 1 implies #[trigger] arrived(st, u, s, fresh, k) by {
        if k < n {
            assert(arrived(st, m, s, fresh, k));
            let pk = last_place(locals, s[k].hash);
            lemma_last_place(locals, s[k].hash);
            if pk >= 0 {
                if pk == p {
                    assert(s[k].hash != s[n as int].hash);
                }
                assert(u.memories[pk] == m.memories[pk]);
                assert(m.memories[pk].id != m.memories[p].id) by {
                    if pk < p {
                        assert(m.memories[pk].id != m.memories[p].id);
                    } else {
                        assert(m.memories[p].id != m.memories[pk].id);
                    }
                }
            } else {
                lemma_news_monotone(locals, s, k as nat, n);
                let q = (locals.len() + news(locals, s, k as nat)) as int;
                assert(u.memories[q] == m.memories[q]);
            }
        } else {
            assert(u.memories[p] == new);
        }
    }
    assert forall|q: int| locals.len() <= q < u.memories.len() implies #[trigger] is_new_place(
        locals,
        s,
        n as int + 1,
        q,
    ) by {
        assert(is_new_place(locals, s, n as int, q));
        let k = choose|k: int| comes_from(locals, s, n as int, q, k);
        assert(comes_from(locals, s, n as int + 1, q, k));
    }
}

/// A merge of a memory that brings nothing keeps the state.
proof fn lemma_merging_known(
    st: StoreView,
    s: Seq<Keyed>,
    fresh: Seq<Seq<char>>,
    n: nat,
    m: StoreView,
    p: int,
)
    requires
        st.wf(),
        valid(s),
        unused(st, s, fresh),
        n < s.len(),
        merging(st, s, fresh, n, m),
        last_place(st.memories, s[n as int].hash) == p,
        p >= 0,
        !crate::sync::brings_more(st.memories[p], s[n as int].record),
    ensures
        merging(st, s, fresh, n + 1, m),
{
    let locals = st.memories;
    lemma_last_place(locals, s[n as int].hash);
    assert(untouched(locals, s, n as int, p)) by {
        assert forall|k: int| 0 <= k < n implies last_place(locals, (#[trigger] s[k]).hash) != p by {
            lemma_last_place(locals, s[k].hash);
            assert(s[k].hash != s[n as int].hash);
        }
    }
    assert(m.memories[p] == locals[p]);
    assert forall|i: int| 0 <= i < locals.len() && untouched(locals, s, n as int + 1, i) implies (
    #[trigger] m.memories[i]) == locals[i] by {
        assert(untouched(locals, s, n as int, i));
    }
    assert forall|k: int| 0 <= k < n + 1 implies #[trigger] arrived(st, m, s, fresh, k) by {
        if k == n {
            assert(m.memories[p] == locals[p]);
        }
    }
    assert forall|q: int| locals.len() <= q < m.memories.len() implies #[trigger] is_new_place(
        locals,
        s,
        n as int + 1,
        q,
    ) by {
        assert(is_new_place(locals, s, n as int, q));
        let k = choose|k: int| comes_from(locals, s, n as int, q, k);
        assert(comes_from(locals, s, n as int + 1, q, k));
    }
}

pub(crate) proof fn lemma_merging(st: StoreView, s: Seq<Keyed>, fresh: Seq<Seq<char>>, n: nat)
    requires
        st.wf(),
        valid(s),
        unused(st, s, fresh),
        n <= s.len(),
    ensures
        merging(st, s, fresh, n, crate::sync::merge_first(st, s, fresh, n)),
    decreases n,
{
    if n > 0 {
        let b = (n - 1) as nat;
        lemma_merging(st, s, fresh, b);
        let m = crate::sync::merge_first(st, s, fresh, b);
        let p = last_place(st.memories, s[b as int].hash);
        lemma_last_place(st.memories, s[b as int].hash);
        if p < 0 {
            lemma_merging_new(st, s, fresh, b, m);
        } else if crate::sync::brings_more(st.memories[p], s[b as int].record) {
            lemma_merging_changed(st, s, fresh, b, m, p);
        } else {
            lemma_merging_known(st, s, fresh, b, m, p);
        }
    }
}

// --- Laws ---

/// The greater of two numbers is below neither, is one of them, and stays the
/// same when the second is brought in again.
pub proof fn greater_is_upper_bound(a: Binary64, b: Binary64)
    ensures
        !a.greater(b).below(a),
        !a.greater(b).below(b),
        a.greater(b) == a || a.greater(b) == b,
        a.greater(b).greater(b) == a.greater(b),
{
}

/// A merge loses no local memory: each stays at its place, with its content,
/// and is not weakened, unpinned or robbed of access times.
pub proof fn merge_keeps_local_memories(
    st: StoreView,
    s: Seq<Keyed>,
    links: Seq<LinkView>,
    fresh: Seq<Seq<char>>,
    i: int,
)
    requires
        st.wf(),
        valid(s),
        unused(st, s, fresh),
        0 <= i < st.memories.len(),
    ensures
        crate::sync::merged(st, s, links, fresh).memories.len() >= st.memories.len(),
        same_memory(crate::sync::merged(st, s, links, fresh).memories[i], st.memories[i]),
        !crate::sync::merged(st, s, links, fresh).memories[i].working_strength.below(
            st.memories[i].working_strength,
        ),
        !crate::sync::merged(st, s, links, fresh).memories[i].core_strength.below(
            st.memories[i].core_strength,
        ),
        !crate::sync::merged(st, s, links, fresh).memories[i].importance.below(
            st.memories[i].importance,
        ),
        st.memories[i].pinned ==> crate::sync::merged(st, s, links, fresh).memories[i].pinned,
        forall|t: crate::types::Timestamp| #[trigger]
            st.memories[i].access_times.contains(t) ==> crate::sync::merged(
                st,
                s,
                links,
                fresh,
            ).memories[i].access_times.contains(t),
{
    let n = s.len();
    lemma_merging(st, s, fresh, n);
    let m = crate::sync::merge_first(st, s, fresh, n);
    let locals = st.memories;
    let l = locals[i];
    assert(same_memory(m.memories[i], l));
    if !untouched(locals, s, n as int, i) {
        let k = choose|k: int| 0 <= k < n && last_place(locals, (#[trigger] s[k]).hash) == i;
        assert(arrived(st, m, s, fresh, k));
        let r = s[k].record;
        greater_is_upper_bound(l.working_strength, r.working_strength);
        greater_is_upper_bound(l.core_strength, r.core_strength);
        greater_is_upper_bound(l.importance, r.importance);
        crate::times::joined_is_union(l.access_times, r.access_times);
        crate::times::sorted_is_in_order(crate::times::joined(l.access_times, r.access_times));
    }
}

/// Whether `s` has a memory with the given content hash.
pub open spec fn knows(s: Seq<RecordView>, hash: Seq<char>) -> bool {
    exists|i: int| 0 <= i < s.len() && crate::sync::hash_of(#[trigger] s[i]) == hash
}

pub(crate) proof fn lemma_knows(s: Seq<RecordView>, hash: Seq<char>)
    ensures
        knows(s, hash) <==> last_place(s, hash) >= 0,
{
    lemma_last_place(s, hash);
    if knows(s, hash) {
        let i = choose|i: int| 0 <= i < s.len() && crate::sync::hash_of(#[trigger] s[i]) == hash;
    }
}

/// After a merge the store knows exactly the contents that it knew and those
/// of the snapshot.
pub proof fn merge_is_union(
    st: StoreView,
    s: Seq<Keyed>,
    links: Seq<LinkView>,
    fresh: Seq<Seq<char>>,
    hash: Seq<char>,
)
    requires
        st.wf(),
        valid(s),
        unused(st, s, fresh),
    ensures
        knows(crate::sync::merged(st, s, links, fresh).memories, hash) <==> knows(st.memories, hash)
            || crate::sync::has_hash(s, hash),
{
    let n = s.len();
    lemma_merging(st, s, fresh, n);
    let m = crate::sync::merge_first(st, s, fresh, n);
    let locals = st.memories;
    if knows(m.memories, hash) {
        let i = choose|i: int|
            0 <= i < m.memories.len() && crate::sync::hash_of(#[trigger] m.memories[i]) == hash;
        if i < locals.len() {
            assert(same_memory(m.memories[i], locals[i]));
            assert(crate::sync::hash_of(locals[i]) == hash);
        } else {
            assert(is_new_place(locals, s, n as int, i));
            let k = choose|k: int| comes_from(locals, s, n as int, i, k);
            assert(arrived(st, m, s, fresh, k));
            assert(s[k].hash == crate::sync::hash_of(s[k].record));
            assert(crate::sync::hash_at(s, k, hash));
        }
    }
    if knows(locals, hash) {
        let i = choose|i: int|
            0 <= i < locals.len() && crate::sync::hash_of(#[trigger] locals[i]) == hash;
        assert(same_memory(m.memories[i], locals[i]));
        assert(crate::sync::hash_of(m.memories[i]) == hash);
    } else if crate::sync::has_hash(s, hash) {
        let k = crate::sync::hash_place(s, hash);
        assert(crate::sync::hash_at(s, k, hash));
        lemma_knows(locals, hash);
        assert(arrived(st, m, s, fresh, k));
        let q = (locals.len() + news(locals, s, k as nat)) as int;
        assert(s[k].hash == crate::sync::hash_of(s[k].record));
        assert(crate::sync::hash_of(m.memories[q]) == hash);
    }
}

/// A snapshot of a store is valid, and knows what the store knows.
pub proof fn snapshot_is_valid(memories: Seq<RecordView>, hash: Seq<char>)
    ensures
        valid(crate::sync::by_hash(memories)),
        crate::sync::has_hash(crate::sync::by_hash(memories), hash) <==> knows(memories, hash),
{
    crate::sync::by_hash_is_complete(memories);
    let s = crate::sync::by_hash(memories);
    if crate::sync::has_hash(s, hash) {
        let k = crate::sync::hash_place(s, hash);
        assert(crate::sync::hash_at(s, k, hash));
        let i = choose|i: int| 0 <= i < memories.len() && memories[i] == s[k].record;
        assert(crate::sync::hash_of(memories[i]) == hash);
    }
}

/// Two stores that merge each other's snapshots know the same contents.
pub proof fn stores_converge(
    a: StoreView,
    b: StoreView,
    fresh_a: Seq<Seq<char>>,
    fresh_b: Seq<Seq<char>>,
    hash: Seq<char>,
)
    requires
        a.wf(),
        b.wf(),
        unused(a, crate::sync::by_hash(b.memories), fresh_a),
        unused(b, crate::sync::by_hash(a.memories), fresh_b),
    ensures
        knows(
            crate::sync::merged(a, crate::sync::by_hash(b.memories), b.links, fresh_a).memories,
            hash,
        ) == knows(
            crate::sync::merged(b, crate::sync::by_hash(a.memories), a.links, fresh_b).memories,
            hash,
        ),
{
    snapshot_is_valid(a.memories, hash);
    snapshot_is_valid(b.memories, hash);
    merge_is_union(a, crate::sync::by_hash(b.memories), b.links, fresh_a, hash);
    merge_is_union(b, crate::sync::by_hash(a.memories), a.links, fresh_b, hash);
}

/// Where the memory with the hash of the remote memory `k` stands after a
/// merge.
pub(crate) proof fn lemma_match_after(
    st: StoreView,
    s: Seq<Keyed>,
    fresh: Seq<Seq<char>>,
    k: int,
) -> (p: int)
    requires
        st.wf(),
        valid(s),
        unused(st, s, fresh),
        0 <= k < s.len(),
    ensures
        ({
            let m = crate::sync::merge_first(st, s, fresh, s.len());
            &&& 0 <= p < m.memories.len()
            &&& crate::sync::match_of(m.memories, s[k].hash) == Some(m.memories[p])
            &&& arrived(st, m, s, fresh, k)
            &&& last_place(st.memories, s[k].hash) >= 0 ==> p == last_place(
                st.memories,
                s[k].hash,
            )
            &&& last_place(st.memories, s[k].hash) < 0 ==> p == st.memories.len() + news(
                st.memories,
                s,
                k as nat,
            )
        }),
{
    let n = s.len();
    lemma_merging(st, s, fresh, n);
    let m = crate::sync::merge_first(st, s, fresh, n);
    let locals = st.memories;
    let hash = s[k].hash;
    let lp = last_place(locals, hash);
    lemma_last_place(locals, hash);
    assert(arrived(st, m, s, fresh, k));
    let p = if lp >= 0 {
        lp
    } else {
        (locals.len() + news(locals, s, k as nat)) as int
    };
    assert(s[k].hash == crate::sync::hash_of(s[k].record));
    assert(crate::sync::hash_of(m.memories[p]) == hash) by {
        if lp >= 0 {
            assert(same_memory(m.memories[p], locals[p]));
        }
    }
    assert forall|i: int| p < i < m.memories.len() implies crate::sync::hash_of(
        #[trigger] m.memories[i],
    ) != hash by {
        if i < locals.len() {
            assert(same_memory(m.memories[i], locals[i]));
            assert(crate::sync::hash_of(locals[i]) != hash);
        } else {
            assert(is_new_place(locals, s, n as int, i));
            let j = choose|j: int| comes_from(locals, s, n as int, i, j);
            assert(arrived(st, m, s, fresh, j));
            assert(s[j].hash == crate::sync::hash_of(s[j].record));
            if j < k {
                assert(s[j].hash != s[k].hash);
            } else if k < j {
                assert(s[k].hash != s[j].hash);
            }
        }
    }
    lemma_last_place_is(m.memories, hash, p);
    p
}

/// After a merge the store holds every remote memory, at least as strong, as
/// important and, where the remote one is pinned and brought anything,
/// as pinned as it is remotely; and for a memory that both sides know, each
/// strength is the local or the remote one.
pub proof fn merge_takes_the_maximum(
    st: StoreView,
    s: Seq<Keyed>,
    links: Seq<LinkView>,
    fresh: Seq<Seq<char>>,
    k: int,
) -> (p: int)
    requires
        st.wf(),
        valid(s),
        unused(st, s, fresh),
        0 <= k < s.len(),
    ensures
        ({
            let m = crate::sync::merged(st, s, links, fresh);
            &&& 0 <= p < m.memories.len()
            &&& crate::sync::hash_of(m.memories[p]) == s[k].hash
            &&& !m.memories[p].working_strength.below(s[k].record.working_strength)
            &&& !m.memories[p].core_strength.below(s[k].record.core_strength)
            &&& !m.memories[p].importance.below(s[k].record.importance)
            &&& crate::sync::match_of(st.memories, s[k].hash) matches Some(l) ==> {
                let r = s[k].record;
                &&& p < st.memories.len() && st.memories[p] == l
                &&& m.memories[p] == l || m.memories[p] == crate::sync::merged_record(l, r)
                &&& m.memories[p].working_strength == l.working_strength
                    || m.memories[p].working_strength == r.working_strength
                &&& m.memories[p].core_strength == l.core_strength
                    || m.memories[p].core_strength == r.core_strength
                &&& m.memories[p].importance == l.importance || m.memories[p].importance
                    == r.importance
                &&& crate::sync::brings_more(l, r) && r.pinned ==> m.memories[p].pinned
            }
            &&& crate::sync::match_of(st.memories, s[k].hash) is None ==> m.memories[p] == (
            RecordView { id: m.memories[p].id, ..s[k].record })
        }),
{
    let p = lemma_match_after(st, s, fresh, k);
    lemma_last_place(st.memories, s[k].hash);
    let m = crate::sync::merge_first(st, s, fresh, s.len());
    lemma_last_place(m.memories, s[k].hash);
    if last_place(st.memories, s[k].hash) >= 0 {
        let l = st.memories[p];
        let r = s[k].record;
        greater_is_upper_bound(l.working_strength, r.working_strength);
        greater_is_upper_bound(l.core_strength, r.core_strength);
        greater_is_upper_bound(l.importance, r.importance);
    }
    assert(crate::sync::hash_of(m.memories[p]) == s[k].hash) by {
        lemma_merging(st, s, fresh, s.len());
        if p < st.memories.len() {
            assert(same_memory(m.memories[p], st.memories[p]));
        } else {
            assert(s[k].hash == crate::sync::hash_of(s[k].record));
        }
    }
    p
}

/// A snapshot has of each content the memory that the store would match.
pub(crate) proof fn lemma_snapshot_matches(memories: Seq<RecordView>, hash: Seq<char>) -> (k: int)
    requires
        knows(memories, hash),
    ensures
        0 <= k < crate::sync::by_hash(memories).len(),
        crate::sync::by_hash(memories)[k].hash == hash,
        crate::sync::match_of(memories, hash) == Some(crate::sync::by_hash(memories)[k].record),
    decreases memories.len(),
{
    let s = crate::sync::by_hash(memories);
    let rest = memories.drop_last();
    let last = memories.last();
    let before = crate::sync::by_hash(rest);
    crate::sync::by_hash_is_complete(rest);
    if crate::sync::hash_of(last) == hash {
        if crate::sync::has_hash(before, hash) {
            let p = crate::sync::hash_place(before, hash);
            assert(crate::sync::hash_at(before, p, hash));
            p
        } else {
            before.len() as int
        }
    } else {
        assert(knows(rest, hash)) by {
            let i = choose|i: int|
                0 <= i < memories.len() && crate::sync::hash_of(#[trigger] memories[i]) == hash;
            assert(rest[i] == memories[i]);
        }
        let k = lemma_snapshot_matches(rest, hash);
        let h = crate::sync::hash_of(last);
        if crate::sync::has_hash(before, h) {
            assert(crate::sync::hash_at(before, crate::sync::hash_place(before, h), h));
        }
        assert(s[k] == before[k]);
        k
    }
}

/// Two numbers stand at the same place in order, or one is no number.
pub open spec fn level(a: Binary64, b: Binary64) -> bool {
    a.is_nan() || b.is_nan() || a.datum().rank() == b.datum().rank()
}

/// Where two stores that know the same content merge each other's snapshots,
/// they end up with the same strengths and importance for it, unless one of
/// these is no number.
pub proof fn strengths_converge(
    a: StoreView,
    b: StoreView,
    fresh_a: Seq<Seq<char>>,
    fresh_b: Seq<Seq<char>>,
    hash: Seq<char>,
) -> (r: (RecordView, RecordView))
    requires
        a.wf(),
        b.wf(),
        unused(a, crate::sync::by_hash(b.memories), fresh_a),
        unused(b, crate::sync::by_hash(a.memories), fresh_b),
        knows(a.memories, hash),
        knows(b.memories, hash),
    ensures
        crate::sync::merged(
            a,
            crate::sync::by_hash(b.memories),
            b.links,
            fresh_a,
        ).memories.contains(r.0),
        crate::sync::merged(
            b,
            crate::sync::by_hash(a.memories),
            a.links,
            fresh_b,
        ).memories.contains(r.1),
        crate::sync::hash_of(r.0) == hash,
        crate::sync::hash_of(r.1) == hash,
        level(r.0.working_strength, r.1.working_strength),
        level(r.0.core_strength, r.1.core_strength),
        level(r.0.importance, r.1.importance),
{
    snapshot_is_valid(a.memories, hash);
    snapshot_is_valid(b.memories, hash);
    let i = lemma_snapshot_matches(a.memories, hash);
    let j = lemma_snapshot_matches(b.memories, hash);
    let sa = crate::sync::by_hash(a.memories);
    let sb = crate::sync::by_hash(b.memories);
    let p = merge_takes_the_maximum(a, sb, b.links, fresh_a, j);
    let q = merge_takes_the_maximum(b, sa, a.links, fresh_b, i);
    let ma = crate::sync::merged(a, sb, b.links, fresh_a).memories;
    let mb = crate::sync::merged(b, sa, a.links, fresh_b).memories;
    merge_keeps_local_memories(a, sb, b.links, fresh_a, p);
    merge_keeps_local_memories(b, sa, a.links, fresh_b, q);
    assert(ma.contains(ma[p]));
    assert(mb.contains(mb[q]));
    (ma[p], mb[q])
}

/// Merging what a memory has already taken from a remote one changes nothing.
proof fn lemma_merged_again(local: RecordView, remote: RecordView)
    ensures
        crate::sync::merged_record(crate::sync::merged_record(local, remote), remote)
            == crate::sync::merged_record(local, remote),
{
    greater_is_upper_bound(local.working_strength, remote.working_strength);
    greater_is_upper_bound(local.core_strength, remote.core_strength);
    greater_is_upper_bound(local.importance, remote.importance);
    let j = crate::times::joined(local.access_times, remote.access_times);
    let t = crate::times::sorted(j);
    crate::times::joined_is_union(local.access_times, remote.access_times);
    crate::times::sorted_is_in_order(j);
    crate::times::joining_known_times(t, remote.access_times);
    crate::times::sorting_is_idempotent(t);
}

/// A store does not change when a memory is updated to what it is, where the
/// index lists nothing else for it.
proof fn lemma_update_same(st: StoreView, p: int)
    requires
        st.wf(),
        0 <= p < st.memories.len(),
        exact_for(st.index, st.memories[p]),
    ensures
        st.updated(st.memories[p]) == st,
{
    let r = st.memories[p];
    let u = st.updated(r);
    assert(crate::store::id_at(st.memories, p, r.id));
    crate::store::lemma_place_unique(st.memories, p, r.id);
    assert(u.memories =~= st.memories);
    assert(crate::store::covers(st.index, r));
    assert forall|e: crate::index::Entry| u.index.contains(e) == st.index.contains(e) by {
        if st.index.contains(e) && e.1 == r.id {
            assert(crate::store::entries_of(r).contains(e));
        }
    }
    assert(u.index =~= st.index);
}

proof fn lemma_merge_again_first(
    st: StoreView,
    t: StoreView,
    s: Seq<Keyed>,
    fresh: Seq<Seq<char>>,
    again: Seq<Seq<char>>,
    n: nat,
)
    requires
        st.wf(),
        valid(s),
        unused(st, s, fresh),
        n <= s.len(),
        t.wf(),
        t.memories == crate::sync::merge_first(st, s, fresh, s.len()).memories,
        t.index == crate::sync::merge_first(st, s, fresh, s.len()).index,
    ensures
        crate::sync::merge_first(t, s, again, n) == t,
    decreases n,
{
    if n > 0 {
        let b = (n - 1) as nat;
        lemma_merge_again_first(st, t, s, fresh, again, b);
        let k = b as int;
        let p = lemma_match_after(st, s, fresh, k);
        lemma_last_place(st.memories, s[k].hash);
        let l = t.memories[p];
        let r = s[k].record;
        if last_place(st.memories, s[k].hash) >= 0 {
            if crate::sync::brings_more(st.memories[p], r) {
                lemma_merged_again(st.memories[p], r);
                if crate::sync::brings_more(l, r) {
                    lemma_update_same(t, p);
                }
            }
        }
    }
}

/// Merging the same snapshot twice is the same as merging it once, whatever
/// identifiers are held ready the second time.
pub proof fn merge_is_idempotent(
    st: StoreView,
    s: Seq<Keyed>,
    links: Seq<LinkView>,
    fresh: Seq<Seq<char>>,
    again: Seq<Seq<char>>,
)
    requires
        st.wf(),
        valid(s),
        unused(st, s, fresh),
    ensures
        crate::sync::merged(crate::sync::merged(st, s, links, fresh), s, links, again)
            == crate::sync::merged(st, s, links, fresh),
{
    let t = crate::sync::merged(st, s, links, fresh);
    lemma_merging(st, s, fresh, s.len());
    crate::sync::lemma_merge_first_links(st, s, fresh, s.len());
    lemma_merge_links_unique(st.links, links);
    assert(t.wf());
    lemma_merge_again_first(st, t, s, fresh, again, s.len());
    assert(links == links.take(links.len() as int));
    lemma_merge_links_again(st.links, links, links);
}

/// The second merge of a snapshot adds nothing; and where no remote memory
/// repeats an access time, it updates nothing.
pub proof fn second_merge_reports_nothing(
    st: StoreView,
    s: Seq<Keyed>,
    links: Seq<LinkView>,
    fresh: Seq<Seq<char>>,
    k: int,
)
    requires
        st.wf(),
        valid(s),
        unused(st, s, fresh),
        0 <= k < s.len(),
    ensures
        !crate::sync::is_new(crate::sync::merged(st, s, links, fresh).memories)(s[k]),
        s[k].record.access_times.no_duplicates() ==> crate::sync::is_known(
            crate::sync::merged(st, s, links, fresh).memories,
        )(s[k]),
{
    let p = lemma_match_after(st, s, fresh, k);
    lemma_last_place(st.memories, s[k].hash);
    let r = s[k].record;
    if last_place(st.memories, s[k].hash) >= 0 {
        let l = st.memories[p];
        greater_is_upper_bound(l.working_strength, r.working_strength);
        greater_is_upper_bound(l.core_strength, r.core_strength);
        greater_is_upper_bound(l.importance, r.importance);
        if r.access_times.no_duplicates() {
            crate::times::joined_is_long(l.access_times, r.access_times);
            crate::times::sorted_is_in_order(
                crate::times::joined(l.access_times, r.access_times),
            );
        }
    }
}

// --- Links ---

pub(crate) proof fn lemma_merge_links_unique(s: Seq<LinkView>, new: Seq<LinkView>)
    requires
        crate::links::unique_pairs(s),
    ensures
        crate::links::unique_pairs(crate::sync::merge_links(s, new)),
    decreases new.len(),
{
    if new.len() > 0 {
        lemma_merge_links_unique(s, new.drop_last());
        let before = crate::sync::merge_links(s, new.drop_last());
        let l = new.last();
        let (a, b) = crate::links::ordered(l.a, l.b);
        crate::links::lemma_set_weight_unique(
            before,
            a,
            b,
            crate::links::stronger(crate::links::weight_of(before, a, b), l.weight),
        );
    }
}

/// A weight that was there is still there, and not less.
pub open spec fn not_weaker(before: Option<Binary64>, after: Option<Binary64>) -> bool {
    before matches Some(w) ==> (after matches Some(v) && (w.is_nan() || v.at_least(w)))
}

/// No weight of a pair falls in a merge, and no remote link is stronger than
/// what the merge leaves.
pub proof fn merged_links_are_maximal(s: Seq<LinkView>, new: Seq<LinkView>)
    requires
        crate::links::unique_pairs(s),
    ensures
        forall|a: Seq<char>, b: Seq<char>|
            not_weaker(
                crate::links::weight_of(s, a, b),
                #[trigger] crate::links::weight_of(crate::sync::merge_links(s, new), a, b),
            ),
        forall|k: int|
            0 <= k < new.len() && crate::links::positive((#[trigger] new[k]).weight) ==> {
                let (a, b) = crate::links::ordered(new[k].a, new[k].b);
                crate::links::weight_of(crate::sync::merge_links(s, new), a, b) matches Some(v)
                    && v.at_least(new[k].weight)
            },
    decreases new.len(),
{
    if new.len() > 0 {
        let rest = new.drop_last();
        merged_links_are_maximal(s, rest);
        lemma_merge_links_unique(s, rest);
        let before = crate::sync::merge_links(s, rest);
        let after = crate::sync::merge_links(s, new);
        let l = new.last();
        let (c, d) = crate::links::ordered(l.a, l.b);
        let w = crate::links::stronger(crate::links::weight_of(before, c, d), l.weight);
        assert forall|a: Seq<char>, b: Seq<char>|
            not_weaker(
                crate::links::weight_of(s, a, b),
                #[trigger] crate::links::weight_of(after, a, b),
            ) by {
            crate::links::set_then_read(before, c, d, w, a, b);
            assert(not_weaker(
                crate::links::weight_of(s, a, b),
                crate::links::weight_of(before, a, b),
            ));
        }
        assert forall|k: int|
            0 <= k < new.len() && crate::links::positive((#[trigger] new[k]).weight) implies ({
            let (a, b) = crate::links::ordered(new[k].a, new[k].b);
            crate::links::weight_of(after, a, b) matches Some(v) && v.at_least(new[k].weight)
        }) by {
            let (a, b) = crate::links::ordered(new[k].a, new[k].b);
            crate::links::set_then_read(before, c, d, w, a, b);
            if k < rest.len() {
                assert(rest[k] == new[k]);
            }
        }
    }
}

/// A merge leaves each pair in order, in whatever order the remote pairs stand.
pub proof fn merged_pairs_are_in_order(s: Seq<LinkView>, new: Seq<LinkView>)
    requires
        crate::links::in_order(s),
    ensures
        crate::links::in_order(crate::sync::merge_links(s, new)),
    decreases new.len(),
{
    if new.len() > 0 {
        merged_pairs_are_in_order(s, new.drop_last());
        let l = new.last();
        crate::links::pairs_stay_in_order(
            crate::sync::merge_links(s, new.drop_last()),
            l.a,
            l.b,
            0,
            l.weight,
        );
    }
}

/// Raising a link to a strength that it has changes nothing.
proof fn lemma_raise_again(s: Seq<LinkView>, l: LinkView)
    requires
        crate::links::unique_pairs(s),
        crate::links::positive(l.weight),
        ({
            let (a, b) = crate::links::ordered(l.a, l.b);
            crate::links::weight_of(s, a, b) matches Some(v) && v.at_least(l.weight)
        }),
    ensures
        crate::links::raised(s, l.a, l.b, l.weight) == s,
{
    let (a, b) = crate::links::ordered(l.a, l.b);
    let p = crate::links::link_place(s, a, b);
    assert(crate::links::link_at(s, p, a, b));
    assert(crate::links::raised(s, l.a, l.b, l.weight) =~= s);
}

proof fn lemma_merge_links_again(s: Seq<LinkView>, new: Seq<LinkView>, part: Seq<LinkView>)
    requires
        crate::links::unique_pairs(s),
        part.len() <= new.len(),
        part == new.take(part.len() as int),
    ensures
        crate::sync::merge_links(crate::sync::merge_links(s, new), part)
            == crate::sync::merge_links(s, new),
    decreases part.len(),
{
    if part.len() > 0 {
        let t = crate::sync::merge_links(s, new);
        let rest = part.drop_last();
        assert(rest == new.take(rest.len() as int));
        lemma_merge_links_again(s, new, rest);
        lemma_merge_links_unique(s, new);
        merged_links_are_maximal(s, new);
        let l = part.last();
        assert(l == new[rest.len() as int]);
        if crate::links::positive(l.weight) {
            lemma_raise_again(t, l);
        }
    }
}

} // verus!
