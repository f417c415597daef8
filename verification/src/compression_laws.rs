//! What a compression merges, what survives, and what is left when it is done.

use vstd::prelude::*;
use crate::binary::Binary64;
use crate::compression::Run;
use crate::links::LinkView;
use crate::store::StoreView;
use crate::types::RecordView;

verus! {

// --- Clusters ---

proof fn lemma_picked(
    all: Seq<RecordView>,
    gone: Seq<Seq<char>>,
    r: RecordView,
    threshold: Binary64,
    n: Seq<Seq<char>>,
    k: int,
)
    requires
        0 <= k < n.filter_map(
            |nid: Seq<char>| crate::compression::partner(all, gone, r, threshold, nid),
        ).len(),
    ensures
        ({
            let x = n.filter_map(
                |nid: Seq<char>| crate::compression::partner(all, gone, r, threshold, nid),
            )[k];
            &&& n.contains(x.id)
            &&& !gone.contains(x.id)
            &&& crate::store::lookup(all, x.id) == Some(x)
            &&& crate::content::similarity(r.content, x.content).at_least(threshold)
        }),
    decreases n.len(),
{
    let pick = |nid: Seq<char>| crate::compression::partner(all, gone, r, threshold, nid);
    let x = n.filter_map(pick)[k];
    if n.len() > 0 {
        let rest = n.drop_last().filter_map(pick);
        if k < rest.len() {
            lemma_picked(all, gone, r, threshold, n.drop_last(), k);
            assert(x == rest[k]);
            let j = choose|j: int| 0 <= j < n.drop_last().len() && n.drop_last()[j] == x.id;
            assert(n[j] == x.id);
        } else {
            let nid = n.last();
            let q = crate::store::place(all, nid);
            assert(crate::store::id_at(all, q, nid));
            assert(x.id == nid);
            assert(n[n.len() - 1] == x.id);
        }
    }
}

proof fn lemma_picks(
    all: Seq<RecordView>,
    gone: Seq<Seq<char>>,
    r: RecordView,
    threshold: Binary64,
    n: Seq<Seq<char>>,
    x: RecordView,
)
    requires
        n.contains(x.id),
        crate::compression::partner(all, gone, r, threshold, x.id) == Some(x),
    ensures
        n.filter_map(
            |nid: Seq<char>| crate::compression::partner(all, gone, r, threshold, nid),
        ).contains(x),
    decreases n.len(),
{
    let pick = |nid: Seq<char>| crate::compression::partner(all, gone, r, threshold, nid);
    let out = n.filter_map(pick);
    let rest = n.drop_last().filter_map(pick);
    if n.last() == x.id {
        assert(out[rest.len() as int] == x);
    } else {
        let j = choose|j: int| 0 <= j < n.len() && n[j] == x.id;
        assert(n.drop_last()[j] == x.id);
        lemma_picks(all, gone, r, threshold, n.drop_last(), x);
        let k = choose|k: int| 0 <= k < rest.len() && rest[k] == x;
        assert(out[k] == x);
    }
}

/// A memory is merged with exactly those stored memories that are linked with it,
/// alike, and not merged into another yet.
pub proof fn clusters_are_linked_and_alike(
    all: Seq<RecordView>,
    links: Seq<LinkView>,
    gone: Seq<Seq<char>>,
    r: RecordView,
    threshold: Binary64,
)
    ensures
        ({
            let c = crate::compression::cluster(all, links, gone, r, threshold);
            &&& c.len() > 0
            &&& c[0] == r
            &&& forall|k: int|
                1 <= k < c.len() ==> {
                    let x = #[trigger] c[k];
                    &&& crate::links::neighbors(links, r.id).contains(x.id)
                    &&& !gone.contains(x.id)
                    &&& crate::store::lookup(all, x.id) == Some(x)
                    &&& crate::content::similarity(r.content, x.content).at_least(threshold)
                }
            &&& forall|x: RecordView|
                crate::links::neighbors(links, r.id).contains(x.id) && !gone.contains(x.id)
                    && crate::store::lookup(all, x.id) == Some(x) && crate::content::similarity(
                    r.content,
                    x.content,
                ).at_least(threshold) ==> #[trigger] c.skip(1).contains(x)
        }),
{
    let c = crate::compression::cluster(all, links, gone, r, threshold);
    let n = crate::links::neighbors(links, r.id);
    let pick = |nid: Seq<char>| crate::compression::partner(all, gone, r, threshold, nid);
    let picked = n.filter_map(pick);
    assert(c.skip(1) =~= picked);
    assert forall|k: int| 1 <= k < c.len() implies {
        let x = #[trigger] c[k];
        &&& n.contains(x.id)
        &&& !gone.contains(x.id)
        &&& crate::store::lookup(all, x.id) == Some(x)
        &&& crate::content::similarity(r.content, x.content).at_least(threshold)
    } by {
        lemma_picked(all, gone, r, threshold, n, k - 1);
        assert(c[k] == picked[k - 1]);
    }
    assert forall|x: RecordView|
        n.contains(x.id) && !gone.contains(x.id) && crate::store::lookup(all, x.id) == Some(x)
            && crate::content::similarity(r.content, x.content).at_least(
            threshold,
        ) implies #[trigger] c.skip(1).contains(x) by {
        lemma_picks(all, gone, r, threshold, n, x);
    }
}

// --- Survivors ---

/// The sum of the strengths of a memory.
pub open spec fn whole_strength(r: RecordView) -> Binary64 {
    r.working_strength.plus(r.core_strength)
}

proof fn lemma_strongest_is_strongest(c: Seq<RecordView>, k: int)
    requires
        0 <= k < c.len(),
        forall|i: int| 0 <= i < c.len() ==> !whole_strength(#[trigger] c[i]).is_nan(),
    ensures
        0 <= crate::compression::strongest(c) < c.len(),
        whole_strength(c[crate::compression::strongest(c)]).at_least(whole_strength(c[k])),
        k > crate::compression::strongest(c) ==> whole_strength(c[k]).below(
            whole_strength(c[crate::compression::strongest(c)]),
        ),
    decreases c.len(),
{
    assert(!whole_strength(c[k]).is_nan());
    if c.len() > 1 {
        let rest = c.drop_last();
        let n = c.len() - 1;
        assert forall|i: int| 0 <= i < rest.len() implies !whole_strength(
            #[trigger] rest[i],
        ).is_nan() by {
            assert(rest[i] == c[i]);
        }
        let j = if k < n {
            k
        } else {
            0
        };
        lemma_strongest_is_strongest(rest, j);
        let b = crate::compression::strongest(rest);
        assert(rest[b] == c[b] && rest[j] == c[j]);
        assert(!whole_strength(c[b]).is_nan());
        assert(!whole_strength(c[n]).is_nan());
        assert(c.last() == c[n]);
    }
}

proof fn lemma_absorbed(core: Binary64, others: Seq<RecordView>)
    ensures
        crate::compression::absorbed(core, others) == others.fold_left(
            core,
            |sum: Binary64, r: RecordView|
                sum.plus(r.core_strength.times(crate::number_laws::fraction(1, 2))),
        ),
    decreases others.len(),
{
    crate::number_laws::fractions_are_what_they_say();
    if others.len() > 0 {
        lemma_absorbed(core, others.drop_last());
    }
}

/// The survivor of a cluster is a member of it, at the place given. No member is
/// stronger, and of equally strong ones it is the last, as long as the strengths
/// add up to numbers. It has the merged content; its importance has risen by a
/// tenth of itself, up to 1; half of the core strength of each other member is
/// added to its own; and nothing else of it has changed.
pub proof fn survivor_is_the_strongest(c: Seq<RecordView>, text: Seq<char>) -> (p: int)
    requires
        c.len() > 0,
        forall|i: int| 0 <= i < c.len() ==> !whole_strength(#[trigger] c[i]).is_nan(),
    ensures
        ({
            let x = crate::compression::survivor(c, text);
            let raised = c[p].importance.times(crate::number_laws::fraction(11, 10));
            let one = Binary64::of_int(1);
            &&& 0 <= p < c.len()
            &&& p == crate::compression::strongest(c)
            &&& forall|k: int|
                0 <= k < c.len() ==> whole_strength(c[p]).at_least(
                    whole_strength(#[trigger] c[k]),
                )
            &&& forall|k: int|
                p < k < c.len() ==> whole_strength(#[trigger] c[k]).below(whole_strength(c[p]))
            &&& x == (RecordView {
                content: text,
                importance: x.importance,
                core_strength: x.core_strength,
                ..c[p]
            })
            &&& one.at_least(raised) ==> x.importance == raised
            &&& one.below(raised) ==> x.importance == one
            &&& x.core_strength == c.remove(p).fold_left(
                c[p].core_strength,
                |sum: Binary64, r: RecordView|
                    sum.plus(r.core_strength.times(crate::number_laws::fraction(1, 2))),
            )
        }),
{
    let p = crate::compression::strongest(c);
    crate::number_laws::integers_are_what_they_say();
    crate::number_laws::fractions_are_what_they_say();
    lemma_strongest_is_strongest(c, 0);
    assert forall|k: int| 0 <= k < c.len() implies whole_strength(c[p]).at_least(
        whole_strength(#[trigger] c[k]),
    ) by {
        lemma_strongest_is_strongest(c, k);
    }
    assert forall|k: int| p < k < c.len() implies whole_strength(#[trigger] c[k]).below(
        whole_strength(c[p]),
    ) by {
        lemma_strongest_is_strongest(c, k);
    }
    lemma_absorbed(c[p].core_strength, c.remove(p));
    p
}

// --- One merge ---

/// The weights without those of a memory: the others are as before.
pub proof fn unlinking_keeps_other_links(
    s: Seq<LinkView>,
    id: Seq<char>,
    a: Seq<char>,
    b: Seq<char>,
)
    requires
        crate::links::unique_pairs(s),
    ensures
        crate::links::weight_of(crate::links::unlinked(s, id), a, b) == if a == id || b == id {
            None
        } else {
            crate::links::weight_of(s, a, b)
        },
{
    broadcast use vstd::seq_lib::group_filter_ensures;

    let keep = |l: LinkView| l.a != id && l.b != id;
    let t = s.filter(keep);
    crate::links::lemma_unlinked_unique(s, id);
    if crate::links::has_link(t, a, b) {
        let k = crate::links::link_place(t, a, b);
        assert(crate::links::link_at(t, k, a, b));
        assert(keep(t[k]));
        assert(t.contains(t[k]));
        s.lemma_filter_contains_rev(keep, t[k]);
        let p = choose|p: int| 0 <= p < s.len() && s[p] == t[k];
        assert(crate::links::link_at(s, p, a, b));
        crate::links::lemma_place_unique(s, p, a, b);
    }
    if crate::links::has_link(s, a, b) && a != id && b != id {
        let p = crate::links::link_place(s, a, b);
        assert(crate::links::link_at(s, p, a, b));
        assert(keep(s[p]));
        assert(t.contains(s[p]));
        let k = choose|k: int| 0 <= k < t.len() && t[k] == s[p];
        assert(crate::links::link_at(t, k, a, b));
        crate::links::lemma_place_unique(t, k, a, b);
    }
}

proof fn lemma_ids_push(others: Seq<RecordView>, id: Seq<char>)
    requires
        others.len() > 0,
    ensures
        crate::memory::ids_of(others).contains(id) <==> crate::memory::ids_of(
            others.drop_last(),
        ).contains(id) || others.last().id == id,
{
    let all = crate::memory::ids_of(others);
    let rest = crate::memory::ids_of(others.drop_last());
    if all.contains(id) {
        let k = choose|k: int| 0 <= k < all.len() && all[k] == id;
        if k < rest.len() {
            assert(rest[k] == id);
        }
    }
    if rest.contains(id) {
        let k = choose|k: int| 0 <= k < rest.len() && rest[k] == id;
        assert(all[k] == id);
    }
    assert(all[all.len() - 1] == others.last().id);
}

proof fn lemma_without_all(
    st: StoreView,
    others: Seq<RecordView>,
    id: Seq<char>,
    a: Seq<char>,
    b: Seq<char>,
)
    requires
        st.wf(),
    ensures
        ({
            let after = crate::compression::without_all(st, others);
            let ids = crate::memory::ids_of(others);
            &&& after.wf()
            &&& after.path == st.path
            &&& crate::store::lookup(after.memories, id) == if ids.contains(id) {
                None
            } else {
                crate::store::lookup(st.memories, id)
            }
            &&& crate::links::weight_of(after.links, a, b) == if ids.contains(a) || ids.contains(
                b,
            ) {
                None
            } else {
                crate::links::weight_of(st.links, a, b)
            }
        }),
    decreases others.len(),
{
    if others.len() > 0 {
        let rest = others.drop_last();
        lemma_without_all(st, rest, id, a, b);
        let before = crate::compression::without_all(st, rest);
        let gone = others.last().id;
        crate::store::delete_keeps_wf(before, gone);
        crate::store::without_then_lookup(before.memories, gone, id);
        unlinking_keeps_other_links(before.links, gone, a, b);
        lemma_ids_push(others, id);
        lemma_ids_push(others, a);
        lemma_ids_push(others, b);
    } else {
        assert(crate::memory::ids_of(others).len() == 0);
    }
}

/// A merge leaves the survivor in place of its cluster: the other members are
/// gone, and with them their links; every other memory and every other link is
/// as before. What was merged are the contents of the members, in order.
pub proof fn merge_leaves_the_survivor(
    run: Run,
    all: Seq<RecordView>,
    r: RecordView,
    threshold: Binary64,
    text: Seq<char>,
    id: Seq<char>,
    a: Seq<char>,
    b: Seq<char>,
)
    requires
        run.store.wf(),
        !run.gone.contains(r.id),
        crate::compression::cluster(all, run.store.links, run.gone, r, threshold).len() >= 2,
    ensures
        ({
            let c = crate::compression::cluster(all, run.store.links, run.gone, r, threshold);
            let p = crate::compression::strongest(c);
            let x = crate::compression::survivor(c, text);
            let others = crate::memory::ids_of(c.remove(p));
            let after = crate::compression::step(run, all, r, threshold, text);
            &&& after.store.wf()
            &&& after.gone == run.gone + others
            &&& after.merges.len() == run.merges.len() + 1
            &&& after.merges.last() == Seq::new(c.len(), |k: int| c[k].content)
            &&& after.merges.drop_last() == run.merges
            &&& crate::store::lookup(after.store.memories, id) == if others.contains(id) {
                None
            } else if id == x.id {
                Some(x)
            } else {
                crate::store::lookup(run.store.memories, id)
            }
            &&& crate::links::weight_of(after.store.links, a, b) == if others.contains(a)
                || others.contains(b) {
                None
            } else {
                crate::links::weight_of(run.store.links, a, b)
            }
            &&& after.store.path == run.store.path
        }),
{
    let c = crate::compression::cluster(all, run.store.links, run.gone, r, threshold);
    let p = crate::compression::strongest(c);
    let x = crate::compression::survivor(c, text);
    crate::store::put_keeps_wf(run.store, x);
    crate::store::put_then_lookup(run.store.memories, x, id);
    lemma_without_all(run.store.updated(x), c.remove(p), id, a, b);
    let after = crate::compression::step(run, all, r, threshold, text);
    assert(after.merges.last() =~= Seq::new(c.len(), |k: int| c[k].content));
    assert(after.merges.drop_last() =~= run.merges);
}

/// A memory that others have taken in, or that nothing stored is both linked
/// with and alike, is passed over.
pub proof fn lone_memories_are_passed_over(
    run: Run,
    all: Seq<RecordView>,
    r: RecordView,
    threshold: Binary64,
    text: Seq<char>,
)
    requires
        run.gone.contains(r.id) || forall|x: RecordView|
            !(#[trigger] crate::links::neighbors(run.store.links, r.id).contains(x.id)
                && !run.gone.contains(x.id) && crate::store::lookup(all, x.id) == Some(x)
                && crate::content::similarity(r.content, x.content).at_least(threshold)),
    ensures
        crate::compression::step(run, all, r, threshold, text) == run,
{
    clusters_are_linked_and_alike(all, run.store.links, run.gone, r, threshold);
    let c = crate::compression::cluster(all, run.store.links, run.gone, r, threshold);
    if c.len() >= 2 {
        let x = c[1];
        assert(crate::links::neighbors(run.store.links, r.id).contains(x.id));
    }
}

// --- A whole compression ---

proof fn lemma_unlinked_neighbors(
    s: Seq<LinkView>,
    gone: Seq<char>,
    x: Seq<char>,
    y: Seq<char>,
)
    requires
        crate::links::neighbors(crate::links::unlinked(s, gone), x).contains(y),
    ensures
        crate::links::neighbors(s, x).contains(y),
{
    let keep = |l: LinkView| l.a != gone && l.b != gone;
    let t = s.filter(keep);
    let f = |l: LinkView| crate::links::neighbor(l, x);
    t.lemma_filter_map_contains(f, y);
    let l = choose|l: LinkView| #[trigger] t.contains(l) && f(l) == Some(y);
    s.lemma_filter_contains_rev(keep, l);
    let p = choose|p: int| 0 <= p < s.len() && s[p] == l;
    crate::links::lemma_neighbor_at(s, x, p);
}

proof fn lemma_without_all_neighbors(
    st: StoreView,
    others: Seq<RecordView>,
    x: Seq<char>,
    y: Seq<char>,
)
    requires
        crate::links::neighbors(crate::compression::without_all(st, others).links, x).contains(y),
    ensures
        crate::links::neighbors(st.links, x).contains(y),
    decreases others.len(),
{
    if others.len() > 0 {
        let before = crate::compression::without_all(st, others.drop_last());
        lemma_unlinked_neighbors(before.links, others.last().id, x, y);
        lemma_without_all_neighbors(st, others.drop_last(), x, y);
    }
}

/// What is gone stays gone, and links are only removed.
proof fn lemma_later(
    st: StoreView,
    threshold: Binary64,
    texts: Seq<Seq<char>>,
    n: nat,
    m: nat,
    x: Seq<char>,
    y: Seq<char>,
)
    requires
        n <= m,
    ensures
        ({
            let before = crate::compression::compressed(st, threshold, texts, n);
            let after = crate::compression::compressed(st, threshold, texts, m);
            &&& before.gone.contains(x) ==> after.gone.contains(x)
            &&& crate::links::neighbors(after.store.links, x).contains(y)
                ==> crate::links::neighbors(before.store.links, x).contains(y)
        }),
    decreases m,
{
    if n < m {
        let k = (m - 1) as nat;
        lemma_later(st, threshold, texts, n, k, x, y);
        let mid = crate::compression::compressed(st, threshold, texts, k);
        let after = crate::compression::compressed(st, threshold, texts, m);
        let r = st.memories[k as int];
        let c = crate::compression::cluster(
            st.memories,
            mid.store.links,
            mid.gone,
            r,
            threshold,
        );
        if !mid.gone.contains(r.id) && c.len() >= 2 {
            let p = crate::compression::strongest(c);
            let others = c.remove(p);
            let text = texts[mid.merges.len() as int];
            let kept = mid.store.updated(crate::compression::survivor(c, text));
            if mid.gone.contains(x) {
                let i = choose|i: int| 0 <= i < mid.gone.len() && mid.gone[i] == x;
                assert(after.gone[i] == x);
            }
            if crate::links::neighbors(after.store.links, x).contains(y) {
                lemma_without_all_neighbors(kept, others, x, y);
            }
        }
    }
}

/// When a compression is done, no two memories are left that are still linked and
/// whose contents were alike before it.
pub proof fn compression_leaves_no_alike_pair(
    st: StoreView,
    threshold: Binary64,
    texts: Seq<Seq<char>>,
    i: int,
    j: int,
)
    requires
        st.wf(),
        0 <= i < st.memories.len(),
        0 <= j < st.memories.len(),
        i != j,
    ensures
        ({
            let after = crate::compression::compression(st, threshold, texts).store;
            let x = st.memories[i];
            let y = st.memories[j];
            !(crate::store::has_id(after.memories, x.id) && crate::store::has_id(
                after.memories,
                y.id,
            ) && crate::links::neighbors(after.links, x.id).contains(y.id)
                && crate::content::similarity(x.content, y.content).at_least(threshold))
        }),
{
    let n = st.memories.len();
    let end = crate::compression::compression(st, threshold, texts);
    let x = st.memories[i];
    let y = st.memories[j];
    crate::memory_laws::compress_removes_what_it_merged(st, threshold, texts, n);
    if crate::store::has_id(end.store.memories, x.id) && crate::store::has_id(
        end.store.memories,
        y.id,
    ) && crate::links::neighbors(end.store.links, x.id).contains(y.id)
        && crate::content::similarity(x.content, y.content).at_least(threshold) {
        let before = crate::compression::compressed(st, threshold, texts, i as nat);
        let after = crate::compression::compressed(st, threshold, texts, (i + 1) as nat);
        assert(!end.gone.contains(x.id) && !end.gone.contains(y.id));
        lemma_later(st, threshold, texts, i as nat, n, x.id, y.id);
        lemma_later(st, threshold, texts, i as nat, n, y.id, x.id);
        lemma_later(st, threshold, texts, (i + 1) as nat, n, x.id, y.id);
        lemma_later(st, threshold, texts, (i + 1) as nat, n, y.id, x.id);
        assert(crate::store::id_at(st.memories, j, y.id));
        crate::store::lemma_place_unique(st.memories, j, y.id);
        clusters_are_linked_and_alike(
            st.memories,
            before.store.links,
            before.gone,
            x,
            threshold,
        );
        let c = crate::compression::cluster(
            st.memories,
            before.store.links,
            before.gone,
            x,
            threshold,
        );
        assert(c.skip(1).contains(y));
        let q = choose|q: int| 0 <= q < c.skip(1).len() && c.skip(1)[q] == y;
        assert(c[q + 1] == y);
        let p = crate::compression::strongest(c);
        crate::compression::lemma_strongest(c);
        let others = crate::memory::ids_of(c.remove(p));
        let lost = if p == 0 {
            y
        } else {
            x
        };
        if p == 0 {
            assert(c.remove(p)[q] == y);
            assert(others[q] == y.id);
        } else {
            assert(c.remove(p)[0] == x);
            assert(others[0] == x.id);
        }
        assert(others.contains(lost.id));
        let k = choose|k: int| 0 <= k < others.len() && others[k] == lost.id;
        assert(after.gone[before.gone.len() + k] == lost.id);
        assert(after.gone.contains(lost.id));
    }
}

} // verus!
