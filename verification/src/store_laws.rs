//! What holds of the store as a whole: laws that relate its operations.

use vstd::prelude::*;
use crate::binary::{Binary32, Binary64};
use crate::links::LinkView;
use crate::ranking::Rank;
use crate::store::StoreView;
use crate::types::{RecordView, Timestamp};

verus! {

// --- Reading what was written ---

/// An added memory is found under its identifier, and every other memory as
/// before.
pub proof fn get_after_add(st: StoreView, r: RecordView, id: Seq<char>)
    requires
        st.wf(),
    ensures
        crate::store::lookup(st.added(r).memories, id) == if id == r.id {
            Some(r)
        } else {
            crate::store::lookup(st.memories, id)
        },
{
    crate::store::put_then_lookup(st.memories, r, id);
}

/// An updated memory is found under its identifier, and every other memory as
/// before.
pub proof fn get_after_update(st: StoreView, r: RecordView, id: Seq<char>)
    requires
        st.wf(),
    ensures
        crate::store::lookup(st.updated(r).memories, id) == if id == r.id {
            Some(r)
        } else {
            crate::store::lookup(st.memories, id)
        },
{
    crate::store::put_then_lookup(st.memories, r, id);
}

/// A deleted memory is not found, and every other memory is as before.
pub proof fn get_after_delete(st: StoreView, gone: Seq<char>, id: Seq<char>)
    requires
        st.wf(),
    ensures
        crate::store::lookup(st.deleted(gone).memories, id) == if id == gone {
            None
        } else {
            crate::store::lookup(st.memories, id)
        },
{
    crate::store::without_then_lookup(st.memories, gone, id);
}

/// A deleted memory is a neighbour of none.
pub proof fn delete_unlinks(st: StoreView, gone: Seq<char>, id: Seq<char>)
    ensures
        !crate::links::neighbors(st.deleted(gone).links, id).contains(gone),
        crate::links::neighbors(st.deleted(gone).links, gone).len() == 0,
{
    broadcast use vstd::seq_lib::group_filter_ensures;

    let keep = |l: LinkView| l.a != gone && l.b != gone;
    let s = st.links.filter(keep);
    assert forall|i: int| 0 <= i < s.len() implies (#[trigger] s[i]).a != gone && s[i].b != gone by {
        assert(keep(s[i]));
    }
    lemma_no_neighbor(s, gone, id);
}

proof fn lemma_no_neighbor(s: Seq<LinkView>, gone: Seq<char>, id: Seq<char>)
    requires
        forall|i: int| 0 <= i < s.len() ==> (#[trigger] s[i]).a != gone && s[i].b != gone,
    ensures
        !crate::links::neighbors(s, id).contains(gone),
        crate::links::neighbors(s, gone).len() == 0,
    decreases s.len(),
{
    if s.len() > 0 {
        let rest = s.drop_last();
        assert forall|i: int| 0 <= i < rest.len() implies (#[trigger] rest[i]).a != gone
            && rest[i].b != gone by {
            assert(s[i].a != gone);
        }
        lemma_no_neighbor(rest, gone, id);
        let n = crate::links::neighbors(rest, id);
        assert(s[s.len() - 1].a != gone);
        assert forall|k: int|
            0 <= k < crate::links::neighbors(s, id).len() implies #[trigger] crate::links::neighbors(
            s,
            id,
        )[k] != gone by {
            if k < n.len() {
                assert(n[k] == crate::links::neighbors(s, id)[k]);
                assert(n.contains(n[k]));
            }
        }
    }
}

/// Accessing a memory adds one access time to it and changes nothing else.
pub proof fn get_after_access(st: StoreView, accessed: Seq<char>, t: Timestamp, id: Seq<char>)
    requires
        st.wf(),
    ensures
        crate::store::lookup(st.accessed(accessed, t).memories, id) == match crate::store::lookup(
            st.memories,
            id,
        ) {
            Some(r) => Some(
                if id == accessed {
                    RecordView { access_times: r.access_times.push(t), ..r }
                } else {
                    r
                },
            ),
            None => None,
        },
        st.accessed(accessed, t).memories.len() == st.memories.len(),
{
    if crate::store::has_id(st.memories, accessed) {
        let p = crate::store::place(st.memories, accessed);
        assert(crate::store::id_at(st.memories, p, accessed));
        let r = st.memories[p];
        let n = RecordView { access_times: r.access_times.push(t), ..r };
        crate::store::put_then_lookup(st.memories, n, id);
    }
}

/// After some memories with different identifiers are updated, each is found
/// under its identifier, and every other memory is as before. Where all of
/// them were stored, each memory stays at its place.
pub proof fn get_after_updates(st: StoreView, new: Seq<RecordView>, id: Seq<char>)
    requires
        st.wf(),
        crate::store::unique_ids(new),
    ensures
        st.with_updates(new).wf(),
        st.exact() ==> st.with_updates(new).exact(),
        st.with_updates(new).links == st.links,
        st.with_updates(new).path == st.path,
        crate::store::lookup(st.with_updates(new).memories, id) == if crate::store::has_id(
            new,
            id,
        ) {
            crate::store::lookup(new, id)
        } else {
            crate::store::lookup(st.memories, id)
        },
        (forall|i: int|
            0 <= i < new.len() ==> crate::store::has_id(st.memories, (#[trigger] new[i]).id)) ==> {
            &&& st.with_updates(new).memories.len() == st.memories.len()
            &&& forall|i: int|
                0 <= i < st.memories.len() ==> (#[trigger] st.with_updates(new).memories[i]).id
                    == st.memories[i].id
        },
    decreases new.len(),
{
    if new.len() > 0 {
        let rest = new.drop_last();
        let r = new.last();
        assert forall|i: int, j: int| 0 <= i < j < rest.len() implies (#[trigger] rest[i]).id != (
        #[trigger] rest[j]).id by {
            assert(new[i].id != new[j].id);
        }
        get_after_updates(st, rest, id);
        let before = st.with_updates(rest);
        crate::store::put_keeps_wf(before, r);
        if st.exact() {
            update_keeps_exact(before, r);
        }
        crate::store::put_then_lookup(before.memories, r, id);
        let last = new.len() - 1;
        assert(crate::store::id_at(new, last, r.id));
        if id == r.id {
            crate::store::lemma_place_unique(new, last, id);
        } else if crate::store::has_id(rest, id) {
            let p = crate::store::place(rest, id);
            assert(crate::store::id_at(rest, p, id));
            crate::store::lemma_place_unique(rest, p, id);
            assert(crate::store::id_at(new, p, id));
            crate::store::lemma_place_unique(new, p, id);
        } else if crate::store::has_id(new, id) {
            let p = crate::store::place(new, id);
            assert(crate::store::id_at(new, p, id));
            assert(crate::store::id_at(rest, p, id));
        }
        if forall|i: int|
            0 <= i < new.len() ==> crate::store::has_id(st.memories, (#[trigger] new[i]).id) {
            assert forall|i: int| 0 <= i < rest.len() implies crate::store::has_id(
                st.memories,
                (#[trigger] rest[i]).id,
            ) by {
                assert(new[i].id == rest[i].id);
            }
            assert(crate::store::has_id(st.memories, new[last].id));
            let q = crate::store::place(st.memories, r.id);
            assert(crate::store::id_at(st.memories, q, r.id));
            assert(before.memories[q].id == r.id);
            assert(crate::store::id_at(before.memories, q, r.id));
            crate::store::lemma_place_unique(before.memories, q, r.id);
            let after = st.with_updates(new);
            assert(after.memories == before.memories.update(q, r));
            assert forall|i: int| 0 <= i < st.memories.len() implies (
            #[trigger] after.memories[i]).id == st.memories[i].id by {
                assert(before.memories[i].id == st.memories[i].id);
            }
        }
    }
}

// --- Loading what was saved ---

proof fn lemma_with_memories_from_empty(path: Option<Seq<char>>, new: Seq<RecordView>)
    requires
        crate::store::unique_ids(new),
    ensures
        StoreView::empty(path).with_memories(new).memories == new,
        StoreView::empty(path).with_memories(new).wf(),
        StoreView::empty(path).with_memories(new).exact(),
        StoreView::empty(path).with_memories(new).links == Seq::<LinkView>::empty(),
        StoreView::empty(path).with_memories(new).path == path,
    decreases new.len(),
{
    let e = StoreView::empty(path);
    if new.len() > 0 {
        let rest = new.drop_last();
        assert forall|i: int, j: int| 0 <= i < j < rest.len() implies (#[trigger] rest[i]).id != (
        #[trigger] rest[j]).id by {
            assert(new[i].id != new[j].id);
        }
        lemma_with_memories_from_empty(path, rest);
        let r = new.last();
        if crate::store::has_id(rest, r.id) {
            let p = crate::store::place(rest, r.id);
            assert(crate::store::id_at(rest, p, r.id));
            assert(new[p].id != new[new.len() - 1].id);
        }
        crate::store::put_keeps_wf(e.with_memories(rest), r);
        add_keeps_exact(e.with_memories(rest), r);
        assert(e.with_memories(new).memories =~= new);
    }
}

proof fn lemma_with_links_from_empty(new: Seq<LinkView>)
    requires
        crate::links::unique_pairs(new),
    ensures
        crate::links::with_links(Seq::empty(), new) == new,
    decreases new.len(),
{
    if new.len() > 0 {
        let rest = new.drop_last();
        assert forall|i: int, j: int| 0 <= i < j < rest.len() implies !((#[trigger] rest[i]).a == (
        #[trigger] rest[j]).a && rest[i].b == rest[j].b) by {
            assert(!(new[i].a == new[j].a && new[i].b == new[j].b));
        }
        lemma_with_links_from_empty(rest);
        let l = new.last();
        if crate::links::has_link(rest, l.a, l.b) {
            let p = crate::links::link_place(rest, l.a, l.b);
            assert(crate::links::link_at(rest, p, l.a, l.b));
            assert(!(new[p].a == new[new.len() - 1].a && new[p].b == new[new.len() - 1].b));
        }
        assert(crate::links::with_links(Seq::empty(), new) =~= new);
    }
}

/// A new store that loads what another store saved holds the same memories and
/// the same links, and its index lists exactly their tokens.
pub proof fn load_after_save(st: StoreView, path: Option<Seq<char>>)
    requires
        st.wf(),
    ensures
        StoreView::empty(path).loaded(st.memories, st.links).memories == st.memories,
        StoreView::empty(path).loaded(st.memories, st.links).links == st.links,
        StoreView::empty(path).loaded(st.memories, st.links).path == path,
        StoreView::empty(path).loaded(st.memories, st.links).wf(),
        StoreView::empty(path).loaded(st.memories, st.links).exact(),
{
    lemma_with_memories_from_empty(path, st.memories);
    lemma_with_links_from_empty(st.links);
    let l = StoreView::empty(path).loaded(st.memories, st.links);
    let m = StoreView::empty(path).with_memories(st.memories);
    assert forall|e: crate::index::Entry| #[trigger] l.index.contains(e) implies is_own(
        l.memories,
        e,
    ) by {
        assert(m.index.contains(e));
    }
}

// --- The index ---

/// Some memory has the token of an index entry, under the entry's identifier.
pub open spec fn is_own(s: Seq<RecordView>, e: crate::index::Entry) -> bool {
    exists|i: int| 0 <= i < s.len() && crate::store::entries_of(#[trigger] s[i]).contains(e)
}

impl StoreView {
    /// The index lists nothing but the tokens of the stored memories.
    pub open spec fn exact(self) -> bool {
        forall|e: crate::index::Entry| #[trigger] self.index.contains(e) ==> is_own(self.memories, e)
    }
}

/// Adding a memory under a new identifier keeps the index exact.
pub proof fn add_keeps_exact(st: StoreView, r: RecordView)
    requires
        st.wf(),
        st.exact(),
        !crate::store::has_id(st.memories, r.id),
    ensures
        st.added(r).exact(),
{
    let a = st.added(r);
    assert forall|e: crate::index::Entry| #[trigger] a.index.contains(e) implies is_own(
        a.memories,
        e,
    ) by {
        if st.index.contains(e) {
            let i = choose|i: int|
                0 <= i < st.memories.len() && crate::store::entries_of(
                    #[trigger] st.memories[i],
                ).contains(e);
            assert(a.memories[i] == st.memories[i]);
        } else {
            assert(a.memories[st.memories.len() as int] == r);
        }
    }
}

/// Updating a memory keeps the index exact.
pub proof fn update_keeps_exact(st: StoreView, r: RecordView)
    requires
        st.wf(),
        st.exact(),
    ensures
        st.updated(r).exact(),
{
    let u = st.updated(r);
    crate::store::put_then_lookup(st.memories, r, r.id);
    assert forall|e: crate::index::Entry| #[trigger] u.index.contains(e) implies is_own(
        u.memories,
        e,
    ) by {
        if crate::store::entries_of(r).contains(e) {
            let p = crate::store::place(u.memories, r.id);
            assert(crate::store::id_at(u.memories, p, r.id));
            assert(u.memories[p] == r);
        } else {
            let i = choose|i: int|
                0 <= i < st.memories.len() && crate::store::entries_of(
                    #[trigger] st.memories[i],
                ).contains(e);
            assert(st.memories[i].id != r.id);
            if crate::store::has_id(st.memories, r.id) {
                assert(crate::store::id_at(
                    st.memories,
                    crate::store::place(st.memories, r.id),
                    r.id,
                ));
            }
            assert(u.memories[i] == st.memories[i]);
        }
    }
}

/// Deleting a memory keeps the index exact.
pub proof fn delete_keeps_exact(st: StoreView, id: Seq<char>)
    requires
        st.wf(),
        st.exact(),
    ensures
        st.deleted(id).exact(),
{
    broadcast use vstd::seq_lib::group_filter_ensures;

    let d = st.deleted(id);
    let keep = crate::store::other_than(id);
    assert forall|e: crate::index::Entry| #[trigger] d.index.contains(e) implies is_own(
        d.memories,
        e,
    ) by {
        let i = choose|i: int|
            0 <= i < st.memories.len() && crate::store::entries_of(
                #[trigger] st.memories[i],
            ).contains(e);
        assert(keep(st.memories[i]));
        assert(d.memories.contains(st.memories[i]));
        let k = choose|k: int| 0 <= k < d.memories.len() && d.memories[k] == st.memories[i];
        assert(crate::store::entries_of(d.memories[k]).contains(e));
    }
}

// --- Search ---

proof fn lemma_found(st: StoreView, tokens: Seq<Seq<char>>, i: int)
    requires
        0 <= i < st.memories.len(),
    ensures
        crate::store::found(st, tokens).contains(
            Rank {
                at: i,
                score: crate::store::hits(st.index, tokens, st.memories[i].id) as int,
            },
        ) == (crate::store::hits(st.index, tokens, st.memories[i].id) > 0),
        forall|x: Rank| #[trigger]
            crate::store::found(st, tokens).contains(x) ==> 0 <= x.at < st.memories.len()
                && x.score == crate::store::hits(st.index, tokens, st.memories[x.at].id)
                && x.score > 0,
{
    broadcast use vstd::seq_lib::group_filter_ensures;

    let all = Seq::new(
        st.memories.len(),
        |i: int|
            Rank {
                at: i,
                score: crate::store::hits(st.index, tokens, st.memories[i].id) as int,
            },
    );
    let keep = |x: Rank| x.score > 0;
    let f = all.filter(keep);
    assert forall|x: Rank| #[trigger] f.contains(x) implies 0 <= x.at < st.memories.len() && x.score
        == crate::store::hits(st.index, tokens, st.memories[x.at].id) && x.score > 0 by {
        all.lemma_filter_contains_rev(keep, x);
        let j = choose|j: int| 0 <= j < f.len() && f[j] == x;
        assert(keep(f[j]));
    }
    let x = all[i];
    if x.score > 0 {
        assert(keep(all[i]));
    }
}

proof fn lemma_hit(tokens: Seq<Seq<char>>, has: spec_fn(Seq<char>) -> bool)
    ensures
        tokens.filter(has).len() > 0 <==> exists|k: int|
            0 <= k < tokens.len() && has(#[trigger] tokens[k]),
{
    broadcast use vstd::seq_lib::group_filter_ensures;

    let f = tokens.filter(has);
    if f.len() > 0 {
        assert(has(f[0]));
        assert(f.contains(f[0]));
        tokens.lemma_filter_contains_rev(has, f[0]);
        let k = choose|k: int| 0 <= k < tokens.len() && tokens[k] == f[0];
        assert(has(tokens[k]));
    }
    if exists|k: int| 0 <= k < tokens.len() && has(#[trigger] tokens[k]) {
        let k = choose|k: int| 0 <= k < tokens.len() && has(#[trigger] tokens[k]);
        assert(f.contains(tokens[k]));
    }
}

/// A memory that shares a token with the query is among what a search finds,
/// if the limit leaves room for all memories.
pub proof fn search_finds(st: StoreView, tokens: Seq<Seq<char>>, limit: nat, i: int, t: Seq<char>)
    requires
        st.wf(),
        0 <= i < st.memories.len(),
        tokens.contains(t),
        crate::store::tokens_of(st.memories[i].content).contains(t),
        limit >= st.memories.len(),
    ensures
        crate::store::fts_result(st, tokens, limit).contains(st.memories[i]),
{
    let id = st.memories[i].id;
    let index = st.index;
    let has = |t: Seq<char>| index.contains((t, id));
    assert(crate::store::covers(index, st.memories[i]));
    let e = (t, id);
    assert(crate::store::entries_of(st.memories[i]).contains(e));
    assert(index.contains(e));
    let k = choose|k: int| 0 <= k < tokens.len() && tokens[k] == t;
    assert(has(tokens[k]));
    lemma_hit(tokens, has);
    lemma_found(st, tokens, i);
    let f = crate::store::found(st, tokens);
    let x = Rank { at: i, score: crate::store::hits(st.index, tokens, id) as int };
    crate::ranking::ranked_is_permutation(f);
    let r = crate::ranking::ranked(f);
    assert(r.contains(x));
    let j = choose|j: int| 0 <= j < r.len() && r[j] == x;
    lemma_filter_len(
        Seq::new(
            st.memories.len(),
            |i: int|
                Rank {
                    at: i,
                    score: crate::store::hits(st.index, tokens, st.memories[i].id) as int,
                },
        ),
        |x: Rank| x.score > 0,
    );
    assert(crate::ranking::first(r, limit) == r);
    assert(crate::store::fts_result(st, tokens, limit)[j] == st.memories[i]);
}

proof fn lemma_filter_len(s: Seq<Rank>, keep: spec_fn(Rank) -> bool)
    ensures
        s.filter(keep).len() <= s.len(),
    decreases s.len(),
{
    reveal(Seq::filter);
    if s.len() > 0 {
        lemma_filter_len(s.drop_last(), keep);
    }
}

/// What a search finds are stored memories that the index lists under a token
/// of the query, at most `limit` of them, those with more hits first.
pub proof fn search_is_ordered(st: StoreView, tokens: Seq<Seq<char>>, limit: nat)
    ensures
        crate::store::fts_result(st, tokens, limit).len() <= limit,
        forall|k: int|
            0 <= k < crate::store::fts_result(st, tokens, limit).len() ==> st.memories.contains(
                #[trigger] crate::store::fts_result(st, tokens, limit)[k],
            ) && crate::store::hits(
                st.index,
                tokens,
                crate::store::fts_result(st, tokens, limit)[k].id,
            ) > 0,
        forall|j: int, k: int|
            0 <= j < k < crate::store::fts_result(st, tokens, limit).len() ==> crate::store::hits(
                st.index,
                tokens,
                (#[trigger] crate::store::fts_result(st, tokens, limit)[j]).id,
            ) >= crate::store::hits(
                st.index,
                tokens,
                (#[trigger] crate::store::fts_result(st, tokens, limit)[k]).id,
            ),
{
    let all = Seq::new(
        st.memories.len(),
        |i: int|
            Rank {
                at: i,
                score: crate::store::hits(st.index, tokens, st.memories[i].id) as int,
            },
    );
    let keep = |x: Rank| x.score > 0;
    let f = crate::store::found(st, tokens);
    lemma_filter_ascending(all, keep);
    crate::ranking::ranked_is_sorted(f);
    crate::ranking::ranked_is_permutation(f);
    let r = crate::ranking::ranked(f);
    let best = crate::ranking::first(r, limit);
    let out = crate::store::fts_result(st, tokens, limit);
    assert forall|k: int| 0 <= k < out.len() implies st.memories.contains(#[trigger] out[k])
        && best[k].score == crate::store::hits(st.index, tokens, out[k].id) && best[k].score
        > 0 by {
        assert(r[k] == best[k]);
        assert(r.contains(r[k]));
        assert(f.contains(r[k]));
        if st.memories.len() > 0 {
            lemma_found(st, tokens, 0);
        }
        let j = choose|j: int| 0 <= j < f.len() && f[j] == r[k];
        assert(f.len() > 0);
        lemma_filter_len(all, keep);
        assert(out[k] == st.memories[best[k].at]);
    }
    assert forall|j: int, k: int| 0 <= j < k < out.len() implies crate::store::hits(
        st.index,
        tokens,
        (#[trigger] out[j]).id,
    ) >= crate::store::hits(st.index, tokens, (#[trigger] out[k]).id) by {
        assert(r[j].score >= r[k].score);
        assert(best[j] == r[j] && best[k] == r[k]);
    }
}

pub(crate) proof fn lemma_filter_ascending(s: Seq<Rank>, keep: spec_fn(Rank) -> bool)
    requires
        crate::ranking::ascending_places(s),
    ensures
        crate::ranking::ascending_places(s.filter(keep)),
    decreases s.len(),
{
    reveal(Seq::filter);
    if s.len() > 0 {
        let rest = s.drop_last();
        assert forall|i: int, j: int| 0 <= i < j < rest.len() implies (#[trigger] rest[i]).at < (
        #[trigger] rest[j]).at by {
            assert(s[i].at < s[j].at);
        }
        lemma_filter_ascending(rest, keep);
        let f = rest.filter(keep);
        let t = s.filter(keep);
        assert forall|i: int, j: int| 0 <= i < j < t.len() implies (#[trigger] t[i]).at < (
        #[trigger] t[j]).at by {
            if j == f.len() {
                assert(f.contains(f[i]));
                rest.lemma_filter_contains_rev(keep, f[i]);
                let k = choose|k: int| 0 <= k < rest.len() && rest[k] == f[i];
                assert(s[k].at < s[s.len() - 1].at);
            } else {
                assert(f[i].at < f[j].at);
            }
        }
    }
}

/// Where the index is exact, every memory that a search finds shares a token
/// with the query.
pub proof fn search_results_share_a_token(
    st: StoreView,
    tokens: Seq<Seq<char>>,
    limit: nat,
    k: int,
)
    requires
        st.wf(),
        st.exact(),
        0 <= k < crate::store::fts_result(st, tokens, limit).len(),
    ensures
        exists|t: Seq<char>| #[trigger]
            tokens.contains(t) && crate::store::tokens_of(
                crate::store::fts_result(st, tokens, limit)[k].content,
            ).contains(t),
{
    search_is_ordered(st, tokens, limit);
    let m = crate::store::fts_result(st, tokens, limit)[k];
    let index = st.index;
    let has = |t: Seq<char>| index.contains((t, m.id));
    lemma_hit(tokens, has);
    let j = choose|j: int| 0 <= j < tokens.len() && has(#[trigger] tokens[j]);
    let t = tokens[j];
    let e = (t, m.id);
    assert(index.contains(e));
    assert(is_own(st.memories, e));
    let i = choose|i: int|
        0 <= i < st.memories.len() && crate::store::entries_of(#[trigger] st.memories[i]).contains(
            e,
        );
    let p = choose|p: int| 0 <= p < st.memories.len() && st.memories[p] == m;
    assert(crate::store::id_at(st.memories, p, m.id));
    assert(crate::store::id_at(st.memories, i, m.id));
    crate::store::lemma_place_unique(st.memories, p, m.id);
    crate::store::lemma_place_unique(st.memories, i, m.id);
    assert(tokens.contains(t));
}

/// What a search for an embedding finds is at least as similar as asked for,
/// at most `limit` of it, and the most similar comes first.
pub proof fn vector_search_is_ordered(
    s: Seq<RecordView>,
    query: Seq<Binary32>,
    limit: nat,
    min_score: Binary32,
)
    ensures
        crate::store::vector_result(s, query, limit, min_score).len() <= limit,
        forall|k: int|
            0 <= k < crate::store::vector_result(s, query, limit, min_score).len() ==> (
            #[trigger] crate::store::vector_result(s, query, limit, min_score)[k]).1.at_least(
                min_score,
            ),
        forall|j: int, k: int|
            0 <= j < k < crate::store::vector_result(s, query, limit, min_score).len() ==> (
            #[trigger] crate::store::vector_result(s, query, limit, min_score)[j]).1.at_least(
                (#[trigger] crate::store::vector_result(s, query, limit, min_score)[k]).1,
            ),
{
    broadcast use vstd::seq_lib::group_filter_ensures;

    let all = Seq::new(
        s.len(),
        |i: int|
            Rank {
                at: i,
                score: match crate::store::closeness(s[i], query) {
                    Some(c) => c.datum().rank(),
                    None => 0,
                },
            },
    );
    let keep = |x: Rank| crate::store::close_enough(s[x.at], query, min_score);
    let f = crate::store::close(s, query, min_score);
    lemma_filter_ascending(all, keep);
    crate::ranking::ranked_is_sorted(f);
    crate::ranking::ranked_is_permutation(f);
    let r = crate::ranking::ranked(f);
    let best = crate::ranking::first(r, limit);
    let out = crate::store::vector_result(s, query, limit, min_score);
    assert forall|k: int| 0 <= k < out.len() implies (#[trigger] out[k]).1.at_least(min_score)
        && out[k].1.datum().rank() == best[k].score by {
        assert(r[k] == best[k]);
        assert(r.contains(r[k]));
        assert(f.contains(r[k]));
        all.lemma_filter_contains_rev(keep, r[k]);
        let j = choose|j: int| 0 <= j < f.len() && f[j] == r[k];
        assert(keep(f[j]));
        let i = choose|i: int| 0 <= i < all.len() && all[i] == r[k];
        assert(out[k].1 == crate::store::closeness(s[best[k].at], query)->0);
    }
    assert forall|j: int, k: int| 0 <= j < k < out.len() implies (#[trigger] out[j]).1.at_least(
        (#[trigger] out[k]).1,
    ) by {
        assert(r[j].score >= r[k].score);
        assert(best[j] == r[j] && best[k] == r[k]);
        assert(out[j].1.at_least(min_score) && out[k].1.at_least(min_score));
    }
}

// --- Links ---

/// The order in which two memories are named makes no difference to their
/// link.
pub proof fn coactivation_is_symmetric(
    s: Seq<LinkView>,
    id1: Seq<char>,
    id2: Seq<char>,
    threshold: i32,
)
    ensures
        crate::links::after_coactivation(s, id1, id2, threshold)
            == crate::links::after_coactivation(s, id2, id1, threshold),
        crate::links::forms_link(s, id1, id2, threshold) == crate::links::forms_link(
            s,
            id2,
            id1,
            threshold,
        ),
{
    crate::text::lemma_precedes_total(id1, id2);
}

/// The weights after a pair is recalled together `n` times.
pub open spec fn recalled(
    s: Seq<LinkView>,
    id1: Seq<char>,
    id2: Seq<char>,
    threshold: i32,
    n: nat,
) -> Seq<LinkView>
    decreases n,
{
    if n == 0 {
        s
    } else {
        crate::links::after_coactivation(
            recalled(s, id1, id2, threshold, (n - 1) as nat),
            id1,
            id2,
            threshold,
        )
    }
}

/// Two memories that have never been recalled together are counted on each
/// joint recall and linked, with strength 1, on the one that reaches the
/// threshold, and not before.
pub proof fn link_forms_at_threshold(
    s: Seq<LinkView>,
    id1: Seq<char>,
    id2: Seq<char>,
    threshold: i32,
    n: nat,
)
    requires
        crate::links::unique_pairs(s),
        crate::links::weight_of(
            s,
            crate::links::ordered(id1, id2).0,
            crate::links::ordered(id1, id2).1,
        ) is None,
        1 <= n <= threshold,
    ensures
        crate::links::unique_pairs(recalled(s, id1, id2, threshold, n)),
        crate::links::weight_of(
            recalled(s, id1, id2, threshold, n),
            crate::links::ordered(id1, id2).0,
            crate::links::ordered(id1, id2).1,
        ) == Some(
            if n < threshold {
                Binary64::of_int(n as int).negated()
            } else {
                Binary64 { bits: crate::numbers::ONE }
            },
        ),
        crate::links::forms_link(
            recalled(s, id1, id2, threshold, (n - 1) as nat),
            id1,
            id2,
            threshold,
        ) == (n == threshold),
    decreases n,
{
    let (a, b) = crate::links::ordered(id1, id2);
    let before = recalled(s, id1, id2, threshold, (n - 1) as nat);
    crate::exact::one_is_one();
    if n > 1 {
        link_forms_at_threshold(s, id1, id2, threshold, (n - 1) as nat);
        crate::exact::count_round_trip(n - 1);
    }
    let w = crate::links::coactivated(crate::links::weight_of(before, a, b), threshold).0;
    crate::links::lemma_set_weight_unique(before, a, b, w);
    crate::links::set_then_read(before, a, b, w, a, b);
}

/// Linked memories are neighbours of each other.
pub proof fn linked_are_neighbors(s: Seq<LinkView>, a: Seq<char>, b: Seq<char>)
    requires
        crate::links::weight_of(s, a, b) matches Some(w) && crate::links::positive(w),
    ensures
        crate::links::neighbors(s, a).contains(b),
        crate::links::neighbors(s, b).contains(a),
{
    let p = crate::links::link_place(s, a, b);
    assert(crate::links::link_at(s, p, a, b));
    crate::links::lemma_neighbor_at(s, a, p);
    crate::links::lemma_neighbor_at(s, b, p);
}

/// A joint recall never makes a link stronger than 1.
pub proof fn strength_is_at_most_one(current: Option<Binary64>, threshold: i32)
    ensures
        (Binary64 { bits: crate::numbers::ONE }).at_least(
            crate::links::coactivated(current, threshold).0,
        ),
{
    crate::format::lemma_bound_120();
    crate::format::lemma_inf(crate::binary::binary64());
    if let Some(w) = current {
        if !crate::links::positive(w) {
            let j = crate::links::joint_recalls(w);
            crate::exact::lemma_truncate_negated(w);
            if j < threshold {
                crate::exact::count_round_trip(j);
            }
        }
    }
}

/// Decay drops weak links: each weight that is left is a count or a strength
/// of at least 0.1.
pub proof fn decay_drops_weak_links(s: Seq<LinkView>, factor: Binary64, k: int)
    requires
        0 <= k < crate::links::after_decay(s, factor).len(),
    ensures
        crate::links::after_decay(s, factor)[k].weight.below(Binary64 { bits: 0 })
            || crate::links::after_decay(s, factor)[k].weight.at_least(
            Binary64 { bits: crate::numbers::TENTH },
        ),
{
    broadcast use vstd::seq_lib::group_filter_ensures;

    let keep = |l: LinkView| crate::links::lasting(l.weight);
    let faint = s.map_values(|l: LinkView| crate::links::fade(l, factor));
    assert(keep(faint.filter(keep)[k]));
}

/// Decay leaves the counts of pairs that are not linked yet as they are.
pub proof fn decay_keeps_counts(
    s: Seq<LinkView>,
    factor: Binary64,
    a: Seq<char>,
    b: Seq<char>,
    count: Binary64,
)
    requires
        crate::links::unique_pairs(s),
        crate::links::weight_of(s, a, b) == Some(count),
        count.below(Binary64 { bits: 0 }),
    ensures
        crate::links::weight_of(crate::links::after_decay(s, factor), a, b) == Some(count),
{
    broadcast use vstd::seq_lib::group_filter_ensures;

    let keep = |l: LinkView| crate::links::lasting(l.weight);
    let faint = s.map_values(|l: LinkView| crate::links::fade(l, factor));
    let t = faint.filter(keep);
    let p = crate::links::link_place(s, a, b);
    assert(crate::links::link_at(s, p, a, b));
    assert(faint[p] == s[p]);
    assert(keep(faint[p]));
    assert(t.contains(faint[p]));
    let k = choose|k: int| 0 <= k < t.len() && t[k] == faint[p];
    assert(crate::links::link_at(t, k, a, b));
    crate::links::lemma_decay_unique(s, factor);
    crate::links::lemma_place_unique(t, k, a, b);
}

/// An image whose pairs are in order, loaded into a store whose pairs are in
/// order, leaves them in order.
pub proof fn loaded_pairs_are_in_order(s: Seq<LinkView>, new: Seq<LinkView>)
    requires
        crate::links::in_order(s),
        crate::links::in_order(new),
    ensures
        crate::links::in_order(crate::links::with_links(s, new)),
    decreases new.len(),
{
    if new.len() > 0 {
        let rest = new.drop_last();
        let l = new.last();
        assert(crate::links::in_order(rest)) by {
            assert forall|i: int| 0 <= i < rest.len() implies crate::links::ordered(
                (#[trigger] rest[i]).a,
                rest[i].b,
            ) == (rest[i].a, rest[i].b) by {
                assert(rest[i] == new[i]);
            }
        }
        loaded_pairs_are_in_order(s, rest);
        assert(new[new.len() - 1] == l);
        crate::links::lemma_set_weight_in_order(
            crate::links::with_links(s, rest),
            l.a,
            l.b,
            l.weight,
        );
    }
}

} // verus!
