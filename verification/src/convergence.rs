//! What two stores have in common once each has merged the other's snapshot,
//! one after the other.

use vstd::prelude::*;
use crate::binary::Binary64;
use crate::links::LinkView;
use crate::store::StoreView;
use crate::types::RecordView;

verus! {

/// No two memories have the same content hash.
pub open spec fn distinct_contents(s: Seq<RecordView>) -> bool {
    forall|i: int, j: int|
        0 <= i < j < s.len() ==> crate::sync::hash_of(#[trigger] s[i]) != crate::sync::hash_of(
            #[trigger] s[j],
        )
}

/// The strengths and the importance of a memory are numbers.
pub open spec fn is_measured(r: RecordView) -> bool {
    !r.working_strength.is_nan() && !r.core_strength.is_nan() && !r.importance.is_nan()
}

/// The strengths and the importance of all memories are numbers.
pub open spec fn all_measured(s: Seq<RecordView>) -> bool {
    forall|i: int| 0 <= i < s.len() ==> is_measured(#[trigger] s[i])
}

/// `n` is the greatest of the numbers that are there, of which there is one at
/// least.
pub open spec fn is_greatest(n: Binary64, a: Option<Binary64>, b: Option<Binary64>) -> bool {
    &&& !n.is_nan()
    &&& a matches Some(x) ==> n.at_least(x)
    &&& b matches Some(y) ==> n.at_least(y)
    &&& a == Some(n) || b == Some(n)
}

pub open spec fn working_of(o: Option<RecordView>) -> Option<Binary64> {
    match o {
        Some(r) => Some(r.working_strength),
        None => None,
    }
}

pub open spec fn core_of(o: Option<RecordView>) -> Option<Binary64> {
    match o {
        Some(r) => Some(r.core_strength),
        None => None,
    }
}

pub open spec fn importance_of(o: Option<RecordView>) -> Option<Binary64> {
    match o {
        Some(r) => Some(r.importance),
        None => None,
    }
}

/// `r` has of two memories, or of the one that is there, the greater strengths
/// and the greater importance.
pub open spec fn is_strongest(r: RecordView, a: Option<RecordView>, b: Option<RecordView>) -> bool {
    &&& is_greatest(r.working_strength, working_of(a), working_of(b))
    &&& is_greatest(r.core_strength, core_of(a), core_of(b))
    &&& is_greatest(r.importance, importance_of(a), importance_of(b))
}

/// Two numbers are equal.
pub open spec fn are_equal(a: Binary64, b: Binary64) -> bool {
    !a.is_nan() && !b.is_nan() && a.datum().rank() == b.datum().rank()
}

/// Two memories have equal strengths and equal importance.
pub open spec fn are_level(a: RecordView, b: RecordView) -> bool {
    &&& are_equal(a.working_strength, b.working_strength)
    &&& are_equal(a.core_strength, b.core_strength)
    &&& are_equal(a.importance, b.importance)
}

/// The store `st` after it has merged a snapshot of `other`.
pub open spec fn after_import(st: StoreView, other: StoreView, fresh: Seq<Seq<char>>) -> StoreView {
    crate::sync::merged(st, crate::sync::by_hash(other.memories), other.links, fresh)
}

/// A merge leaves a store with one memory per content, if it had no more
/// before.
pub proof fn contents_stay_distinct(st: StoreView, other: StoreView, fresh: Seq<Seq<char>>)
    requires
        st.wf(),
        crate::merge_laws::unused(st, crate::sync::by_hash(other.memories), fresh),
        distinct_contents(st.memories),
    ensures
        distinct_contents(after_import(st, other, fresh).memories),
{
    let s = crate::sync::by_hash(other.memories);
    let n = s.len();
    let locals = st.memories;
    crate::merge_laws::snapshot_is_valid(other.memories, Seq::empty());
    crate::merge_laws::lemma_merging(st, s, fresh, n);
    let m = crate::sync::merge_first(st, s, fresh, n);
    assert forall|i: int, j: int| 0 <= i < j < m.memories.len() implies crate::sync::hash_of(
        #[trigger] m.memories[i],
    ) != crate::sync::hash_of(#[trigger] m.memories[j]) by {
        if j < locals.len() {
            assert(crate::merge_laws::same_memory(m.memories[i], locals[i]));
            assert(crate::merge_laws::same_memory(m.memories[j], locals[j]));
            assert(crate::sync::hash_of(locals[i]) != crate::sync::hash_of(locals[j]));
        } else {
            assert(crate::merge_laws::is_new_place(locals, s, n as int, j));
            let k = choose|k: int| crate::merge_laws::comes_from(locals, s, n as int, j, k);
            assert(crate::merge_laws::arrived(st, m, s, fresh, k));
            assert(s[k].hash == crate::sync::hash_of(s[k].record));
            if i < locals.len() {
                assert(crate::merge_laws::same_memory(m.memories[i], locals[i]));
                crate::merge_laws::lemma_last_place(locals, s[k].hash);
                assert(crate::sync::hash_of(locals[i]) != s[k].hash);
            } else {
                assert(crate::merge_laws::is_new_place(locals, s, n as int, i));
                let h = choose|h: int| crate::merge_laws::comes_from(locals, s, n as int, i, h);
                assert(crate::merge_laws::arrived(st, m, s, fresh, h));
                assert(s[h].hash == crate::sync::hash_of(s[h].record));
                if h < k {
                    assert(s[h].hash != s[k].hash);
                } else {
                    assert(s[k].hash != s[h].hash);
                }
            }
        }
    }
}

/// A merge leaves strengths and importance numbers, if they were numbers on
/// both sides.
pub proof fn memories_stay_measured(st: StoreView, other: StoreView, fresh: Seq<Seq<char>>)
    requires
        st.wf(),
        crate::merge_laws::unused(st, crate::sync::by_hash(other.memories), fresh),
        all_measured(st.memories),
        all_measured(other.memories),
    ensures
        all_measured(after_import(st, other, fresh).memories),
{
    let s = crate::sync::by_hash(other.memories);
    let n = s.len();
    let locals = st.memories;
    crate::merge_laws::snapshot_is_valid(other.memories, Seq::empty());
    crate::merge_laws::lemma_merging(st, s, fresh, n);
    let m = crate::sync::merge_first(st, s, fresh, n);
    assert forall|i: int| 0 <= i < m.memories.len() implies is_measured(
        #[trigger] m.memories[i],
    ) by {
        if i < locals.len() {
            assert(is_measured(locals[i]));
            if !crate::merge_laws::untouched(locals, s, n as int, i) {
                let k = choose|k: int|
                    0 <= k < n && crate::merge_laws::last_place(locals, (#[trigger] s[k]).hash)
                        == i;
                assert(crate::merge_laws::arrived(st, m, s, fresh, k));
                lemma_remote_is_measured(other.memories, k);
            }
        } else {
            assert(crate::merge_laws::is_new_place(locals, s, n as int, i));
            let k = choose|k: int| crate::merge_laws::comes_from(locals, s, n as int, i, k);
            assert(crate::merge_laws::arrived(st, m, s, fresh, k));
            lemma_remote_is_measured(other.memories, k);
        }
    }
}

proof fn lemma_remote_is_measured(memories: Seq<RecordView>, k: int)
    requires
        all_measured(memories),
        0 <= k < crate::sync::by_hash(memories).len(),
    ensures
        is_measured(crate::sync::by_hash(memories)[k].record),
{
    crate::sync::by_hash_is_complete(memories);
    let r = crate::sync::by_hash(memories)[k].record;
    assert(memories.contains(r));
    let i = choose|i: int| 0 <= i < memories.len() && memories[i] == r;
    assert(is_measured(memories[i]));
}

/// A local memory whose content the other store does not know stays as it is.
proof fn lemma_match_stays(
    st: StoreView,
    other: StoreView,
    fresh: Seq<Seq<char>>,
    hash: Seq<char>,
)
    requires
        st.wf(),
        crate::merge_laws::unused(st, crate::sync::by_hash(other.memories), fresh),
        crate::merge_laws::knows(st.memories, hash),
        !crate::merge_laws::knows(other.memories, hash),
    ensures
        crate::sync::match_of(after_import(st, other, fresh).memories, hash)
            == crate::sync::match_of(st.memories, hash),
        crate::sync::match_of(st.memories, hash) is Some,
{
    let s = crate::sync::by_hash(other.memories);
    let n = s.len();
    let locals = st.memories;
    crate::merge_laws::snapshot_is_valid(other.memories, hash);
    crate::merge_laws::lemma_merging(st, s, fresh, n);
    let m = crate::sync::merge_first(st, s, fresh, n);
    crate::merge_laws::lemma_knows(locals, hash);
    crate::merge_laws::lemma_last_place(locals, hash);
    let p = crate::merge_laws::last_place(locals, hash);
    assert forall|k: int| 0 <= k < n implies (#[trigger] s[k]).hash != hash by {
        if s[k].hash == hash {
            assert(crate::sync::hash_at(s, k, hash));
        }
    }
    assert(crate::merge_laws::untouched(locals, s, n as int, p)) by {
        assert forall|k: int| 0 <= k < n implies crate::merge_laws::last_place(
            locals,
            (#[trigger] s[k]).hash,
        ) != p by {
            crate::merge_laws::lemma_last_place(locals, s[k].hash);
        }
    }
    assert(m.memories[p] == locals[p]);
    assert forall|i: int| p < i < m.memories.len() implies crate::sync::hash_of(
        #[trigger] m.memories[i],
    ) != hash by {
        if i < locals.len() {
            assert(crate::merge_laws::same_memory(m.memories[i], locals[i]));
            assert(crate::sync::hash_of(locals[i]) != hash);
        } else {
            assert(crate::merge_laws::is_new_place(locals, s, n as int, i));
            let k = choose|k: int| crate::merge_laws::comes_from(locals, s, n as int, i, k);
            assert(crate::merge_laws::arrived(st, m, s, fresh, k));
            assert(s[k].hash == crate::sync::hash_of(s[k].record));
        }
    }
    crate::merge_laws::lemma_last_place_is(m.memories, hash, p);
}

/// After a merge the memory with a content has the greater strengths and the
/// greater importance of the memories with that content on both sides.
pub proof fn merge_leaves_the_strongest(
    st: StoreView,
    other: StoreView,
    fresh: Seq<Seq<char>>,
    hash: Seq<char>,
)
    requires
        st.wf(),
        crate::merge_laws::unused(st, crate::sync::by_hash(other.memories), fresh),
        all_measured(st.memories),
        all_measured(other.memories),
        crate::merge_laws::knows(st.memories, hash) || crate::merge_laws::knows(
            other.memories,
            hash,
        ),
    ensures
        crate::sync::match_of(after_import(st, other, fresh).memories, hash) matches Some(r)
            && is_strongest(
            r,
            crate::sync::match_of(st.memories, hash),
            crate::sync::match_of(other.memories, hash),
        ),
{
    let s = crate::sync::by_hash(other.memories);
    let locals = st.memories;
    crate::merge_laws::snapshot_is_valid(other.memories, hash);
    crate::merge_laws::lemma_knows(locals, hash);
    crate::merge_laws::lemma_last_place(locals, hash);
    crate::merge_laws::lemma_knows(other.memories, hash);
    crate::merge_laws::lemma_last_place(other.memories, hash);
    let lp = crate::merge_laws::last_place(locals, hash);
    if lp >= 0 {
        assert(is_measured(locals[lp]));
    }
    if crate::merge_laws::knows(other.memories, hash) {
        let k = crate::merge_laws::lemma_snapshot_matches(other.memories, hash);
        lemma_remote_is_measured(other.memories, k);
        let p = crate::merge_laws::lemma_match_after(st, s, fresh, k);
        let m = crate::sync::merge_first(st, s, fresh, s.len());
        let r = s[k].record;
        if lp >= 0 {
            assert(m.memories[p] == locals[p] || m.memories[p] == crate::sync::merged_record(
                locals[p],
                r,
            ));
        }
        assert(is_strongest(
            m.memories[p],
            crate::sync::match_of(locals, hash),
            crate::sync::match_of(other.memories, hash),
        ));
    } else {
        lemma_match_stays(st, other, fresh, hash);
    }
}

/// Two stores converge when each merges a snapshot of the other, first `b` one
/// of `a`, then `a` one of what `b` has become: both know exactly the contents
/// that one of them knew, each with one memory, and of each content both have
/// the same strengths and the same importance, the greatest that there were.
pub proof fn stores_converge_in_turn(
    a: StoreView,
    b: StoreView,
    fresh_b: Seq<Seq<char>>,
    fresh_a: Seq<Seq<char>>,
    hash: Seq<char>,
)
    requires
        a.wf(),
        b.wf(),
        distinct_contents(a.memories),
        distinct_contents(b.memories),
        all_measured(a.memories),
        all_measured(b.memories),
        crate::merge_laws::unused(b, crate::sync::by_hash(a.memories), fresh_b),
        crate::merge_laws::unused(
            a,
            crate::sync::by_hash(after_import(b, a, fresh_b).memories),
            fresh_a,
        ),
    ensures
        ({
            let b2 = after_import(b, a, fresh_b);
            let a2 = after_import(a, b2, fresh_a);
            let known = crate::merge_laws::knows(a.memories, hash) || crate::merge_laws::knows(
                b.memories,
                hash,
            );
            &&& distinct_contents(a2.memories)
            &&& distinct_contents(b2.memories)
            &&& crate::merge_laws::knows(a2.memories, hash) == known
            &&& crate::merge_laws::knows(b2.memories, hash) == known
            &&& known ==> {
                &&& crate::sync::match_of(a2.memories, hash) matches Some(x)
                &&& crate::sync::match_of(b2.memories, hash) matches Some(y)
                &&& are_level(x, y)
                &&& is_strongest(
                    x,
                    crate::sync::match_of(a.memories, hash),
                    crate::sync::match_of(b.memories, hash),
                )
                &&& is_strongest(
                    y,
                    crate::sync::match_of(a.memories, hash),
                    crate::sync::match_of(b.memories, hash),
                )
            }
        }),
{
    let b2 = after_import(b, a, fresh_b);
    let a2 = after_import(a, b2, fresh_a);
    contents_stay_distinct(b, a, fresh_b);
    contents_stay_distinct(a, b2, fresh_a);
    memories_stay_measured(b, a, fresh_b);
    crate::merge_laws::snapshot_is_valid(a.memories, hash);
    crate::merge_laws::snapshot_is_valid(b2.memories, hash);
    crate::merge_laws::merge_is_union(
        b,
        crate::sync::by_hash(a.memories),
        a.links,
        fresh_b,
        hash,
    );
    crate::merge_laws::merge_is_union(
        a,
        crate::sync::by_hash(b2.memories),
        b2.links,
        fresh_a,
        hash,
    );
    if crate::merge_laws::knows(b2.memories, hash) {
        merge_leaves_the_strongest(b, a, fresh_b, hash);
        merge_leaves_the_strongest(a, b2, fresh_a, hash);
    }
}

// --- Links ---

/// Whether the weight of a pair is that of a link.
pub open spec fn links_pair(weight: Option<Binary64>) -> bool {
    weight matches Some(w) && crate::links::positive(w)
}

/// The weight of a pair in a list with one more pair.
pub(crate) proof fn lemma_weight_of_last(s: Seq<LinkView>, a: Seq<char>, b: Seq<char>)
    requires
        crate::links::unique_pairs(s),
        s.len() > 0,
    ensures
        crate::links::unique_pairs(s.drop_last()),
        s.last().a == a && s.last().b == b ==> crate::links::weight_of(s, a, b) == Some(
            s.last().weight,
        ) && crate::links::weight_of(s.drop_last(), a, b) is None,
        !(s.last().a == a && s.last().b == b) ==> crate::links::weight_of(s, a, b)
            == crate::links::weight_of(s.drop_last(), a, b),
{
    let rest = s.drop_last();
    let n = s.len() - 1;
    assert forall|i: int, j: int| 0 <= i < j < rest.len() implies !((#[trigger] rest[i]).a == (
    #[trigger] rest[j]).a && rest[i].b == rest[j].b) by {
        assert(!(s[i].a == s[j].a && s[i].b == s[j].b));
    }
    if s.last().a == a && s.last().b == b {
        assert(crate::links::link_at(s, n, a, b));
        crate::links::lemma_place_unique(s, n, a, b);
        if crate::links::has_link(rest, a, b) {
            let p = crate::links::link_place(rest, a, b);
            assert(crate::links::link_at(rest, p, a, b));
            assert(!(s[p].a == s[n].a && s[p].b == s[n].b));
        }
    } else if crate::links::has_link(s, a, b) {
        let p = crate::links::link_place(s, a, b);
        assert(crate::links::link_at(s, p, a, b));
        assert(crate::links::link_at(rest, p, a, b));
        crate::links::lemma_place_unique(rest, p, a, b);
    } else if crate::links::has_link(rest, a, b) {
        let p = crate::links::link_place(rest, a, b);
        assert(crate::links::link_at(rest, p, a, b));
        assert(crate::links::link_at(s, p, a, b));
    }
}

/// After a merge a pair that is linked remotely has the stronger weight, and any
/// other pair the one that it had.
pub proof fn merged_weight(s: Seq<LinkView>, new: Seq<LinkView>, a: Seq<char>, b: Seq<char>)
    requires
        crate::links::unique_pairs(s),
        crate::links::unique_pairs(new),
        crate::links::in_order(new),
    ensures
        crate::links::weight_of(crate::sync::merge_links(s, new), a, b) == if links_pair(
            crate::links::weight_of(new, a, b),
        ) {
            Some(
                crate::links::stronger(
                    crate::links::weight_of(s, a, b),
                    crate::links::weight_of(new, a, b)->0,
                ),
            )
        } else {
            crate::links::weight_of(s, a, b)
        },
    decreases new.len(),
{
    if new.len() > 0 {
        let rest = new.drop_last();
        let l = new.last();
        lemma_weight_of_last(new, a, b);
        assert(crate::links::in_order(rest)) by {
            assert forall|i: int| 0 <= i < rest.len() implies crate::links::ordered(
                (#[trigger] rest[i]).a,
                rest[i].b,
            ) == (rest[i].a, rest[i].b) by {
                assert(rest[i] == new[i]);
            }
        }
        merged_weight(s, rest, a, b);
        assert(new[new.len() - 1] == l);
        let before = crate::sync::merge_links(s, rest);
        crate::merge_laws::lemma_merge_links_unique(s, rest);
        if crate::links::positive(l.weight) {
            let w = crate::links::stronger(
                crate::links::weight_of(before, l.a, l.b),
                l.weight,
            );
            crate::links::set_then_read(before, l.a, l.b, w, a, b);
        }
    }
}

/// Where two stores merge each other's snapshots in turn, a pair of memories
/// that one of them has linked is linked in both, with equal strength, the
/// greatest that there was.
pub proof fn links_converge_in_turn(
    a: Seq<LinkView>,
    b: Seq<LinkView>,
    id1: Seq<char>,
    id2: Seq<char>,
)
    requires
        crate::links::unique_pairs(a),
        crate::links::unique_pairs(b),
        crate::links::in_order(a),
        crate::links::in_order(b),
        links_pair(crate::links::weight_of(a, id1, id2)) || links_pair(
            crate::links::weight_of(b, id1, id2),
        ),
    ensures
        ({
            let b2 = crate::sync::merge_links(b, a);
            let a2 = crate::sync::merge_links(a, b2);
            let x = crate::links::weight_of(a, id1, id2);
            let y = crate::links::weight_of(b, id1, id2);
            &&& crate::links::weight_of(a2, id1, id2) matches Some(v)
            &&& crate::links::weight_of(b2, id1, id2) matches Some(w)
            &&& crate::links::positive(v)
            &&& are_equal(v, w)
            &&& links_pair(x) ==> v.at_least(x->0)
            &&& links_pair(y) ==> v.at_least(y->0)
            &&& x == Some(v) || y == Some(v)
        }),
{
    let b2 = crate::sync::merge_links(b, a);
    crate::merge_laws::lemma_merge_links_unique(b, a);
    crate::merge_laws::merged_pairs_are_in_order(b, a);
    merged_weight(b, a, id1, id2);
    merged_weight(a, b2, id1, id2);
}

} // verus!
