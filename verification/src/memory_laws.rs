//! What holds of the memory system as a whole.

use vstd::prelude::*;
use crate::binary::Binary64;
use crate::compression::Run;
use crate::memory::Weighed;
use crate::meta::Tally;
use crate::numbers::{ONE, TWENTIETH, TWO};
use crate::store::StoreView;
use crate::types::{MemoryLayer, MemoryType, RecordView, Timestamp};

verus! {

// --- Changing some memories ---

/// Some stored memories are changed, each as `change` says, at its place.
proof fn lemma_changed_in_place<T>(
    st: StoreView,
    all: Seq<T>,
    keep: spec_fn(T) -> bool,
    change: spec_fn(T) -> RecordView,
    i: int,
)
    requires
        st.wf(),
        all.len() == st.memories.len(),
        forall|k: int| 0 <= k < all.len() ==> (#[trigger] change(all[k])).id == st.memories[k].id,
        0 <= i < st.memories.len(),
    ensures
        st.with_updates(all.filter(keep).map_values(change)).wf(),
        st.with_updates(all.filter(keep).map_values(change)).memories.len() == st.memories.len(),
        st.with_updates(all.filter(keep).map_values(change)).memories[i] == if keep(all[i]) {
            change(all[i])
        } else {
            st.memories[i]
        },
        st.with_updates(all.filter(keep).map_values(change)).links == st.links,
        st.with_updates(all.filter(keep).map_values(change)).path == st.path,
{
    let f = all.filter(keep);
    let new = f.map_values(change);
    lemma_filter_ids(st.memories, all, keep, change);
    let id = st.memories[i].id;
    crate::store_laws::get_after_updates(st, new, id);
    let after = st.with_updates(new).memories;
    assert(after[i].id == id);
    assert(crate::store::id_at(after, i, id));
    crate::store::lemma_place_unique(after, i, id);
    assert(crate::store::id_at(st.memories, i, id));
    crate::store::lemma_place_unique(st.memories, i, id);
    if keep(all[i]) {
        broadcast use vstd::seq_lib::group_filter_ensures;

        assert(f.contains(all[i]));
        let j = choose|j: int| 0 <= j < f.len() && f[j] == all[i];
        assert(new[j] == change(all[i]));
        assert(crate::store::id_at(new, j, id));
        crate::store::lemma_place_unique(new, j, id);
    } else {
        if crate::store::has_id(new, id) {
            let j = crate::store::place(new, id);
            assert(crate::store::id_at(new, j, id));
            assert(f.contains(f[j]));
            all.lemma_filter_contains_rev(keep, f[j]);
            let k = choose|k: int| 0 <= k < all.len() && all[k] == f[j];
            assert(change(all[k]).id == st.memories[k].id);
            assert(crate::store::id_at(st.memories, k, id));
            crate::store::lemma_place_unique(st.memories, k, id);
            broadcast use vstd::seq_lib::group_filter_ensures;

            assert(keep(f[j]));
        }
    }
}

/// The changed memories have different identifiers, all of them stored.
proof fn lemma_filter_ids<T>(
    s: Seq<RecordView>,
    all: Seq<T>,
    keep: spec_fn(T) -> bool,
    change: spec_fn(T) -> RecordView,
)
    requires
        crate::store::unique_ids(s),
        all.len() == s.len(),
        forall|k: int| 0 <= k < all.len() ==> (#[trigger] change(all[k])).id == s[k].id,
    ensures
        crate::store::unique_ids(all.filter(keep).map_values(change)),
        forall|j: int|
            0 <= j < all.filter(keep).map_values(change).len() ==> crate::store::has_id(
                s,
                (#[trigger] all.filter(keep).map_values(change)[j]).id,
            ),
    decreases all.len(),
{
    reveal(Seq::filter);
    let new = all.filter(keep).map_values(change);
    if all.len() > 0 {
        let rest = all.drop_last();
        let t = s.drop_last();
        assert forall|i: int, j: int| 0 <= i < j < t.len() implies (#[trigger] t[i]).id != (
        #[trigger] t[j]).id by {
            assert(s[i].id != s[j].id);
        }
        assert forall|k: int| 0 <= k < rest.len() implies (#[trigger] change(rest[k])).id
            == t[k].id by {
            assert(change(all[k]).id == s[k].id);
        }
        lemma_filter_ids(t, rest, keep, change);
        let old = rest.filter(keep).map_values(change);
        let last = change(all.last());
        assert(change(all[all.len() - 1]).id == s[s.len() - 1].id);
        assert(new =~= if keep(all.last()) {
            old.push(last)
        } else {
            old
        });
        assert forall|j: int| 0 <= j < old.len() implies (#[trigger] old[j]).id != s.last().id
            && crate::store::has_id(s, old[j].id) by {
            let p = crate::store::place(t, old[j].id);
            assert(crate::store::id_at(t, p, old[j].id));
            assert(crate::store::id_at(s, p, old[j].id));
            assert(s[p].id != s[s.len() - 1].id);
        }
        assert(crate::store::id_at(s, s.len() - 1, last.id));
    }
}

/// Downscaling scales the strengths of each memory that is not pinned, and
/// leaves pinned memories and everything else as it is.
pub proof fn downscale_scales_unpinned(st: StoreView, factor: Binary64, i: int)
    requires
        st.wf(),
        0 <= i < st.memories.len(),
    ensures
        ({
            let after = st.with_updates(crate::memory::scaled_down(st.memories, factor));
            &&& after.wf()
            &&& after.memories.len() == st.memories.len()
            &&& after.memories[i] == if st.memories[i].pinned {
                st.memories[i]
            } else {
                RecordView {
                    working_strength: st.memories[i].working_strength.times(factor),
                    core_strength: st.memories[i].core_strength.times(factor),
                    ..st.memories[i]
                }
            }
            &&& after.links == st.links
            &&& after.path == st.path
        }),
{
    let keep = |r: RecordView| !r.pinned;
    let change = |r: RecordView| crate::memory::scaled(r, factor);
    lemma_changed_in_place(st, st.memories, keep, change, i);
}

/// Forgetting by threshold deletes nothing: it archives each memory that is
/// not pinned and weaker than the threshold, and leaves the others as they are.
pub proof fn forget_archives_weak(
    st: StoreView,
    strengths: Seq<Binary64>,
    threshold: Binary64,
    i: int,
)
    requires
        st.wf(),
        strengths.len() == st.memories.len(),
        0 <= i < st.memories.len(),
    ensures
        ({
            let after = st.with_updates(
                crate::memory::faded_memories(st.memories, strengths, threshold),
            );
            let r = st.memories[i];
            &&& after.wf()
            &&& after.memories.len() == st.memories.len()
            &&& after.memories[i] == if !r.pinned && strengths[i].below(threshold) {
                RecordView { layer: MemoryLayer::Archive, ..r }
            } else {
                r
            }
            &&& after.links == st.links
        }),
{
    let all = crate::memory::weighed(st.memories, strengths);
    let keep = |w: Weighed| crate::memory::fades(w, threshold);
    let change = |w: Weighed| crate::memory::archived(w.record);
    lemma_changed_in_place(st, all, keep, change, i);
    assert(st.memories[i].layer == MemoryLayer::Archive ==> crate::memory::archived(
        st.memories[i],
    ) == st.memories[i]);
}

/// Pinning a stored memory sets its mark and changes nothing else of any
/// memory.
pub proof fn pin_sets_the_mark(st: StoreView, id: Seq<char>, pinned: bool, other: Seq<char>)
    requires
        st.wf(),
    ensures
        crate::memory::pin_set(st, id, pinned).wf(),
        crate::store::lookup(crate::memory::pin_set(st, id, pinned).memories, other)
            == match crate::store::lookup(st.memories, other) {
            Some(r) => Some(
                if other == id {
                    RecordView { pinned, ..r }
                } else {
                    r
                },
            ),
            None => None,
        },
        crate::memory::pin_set(st, id, pinned).memories.len() == st.memories.len(),
        crate::memory::pin_set(st, id, pinned).links == st.links,
        crate::memory::pin_set(st, id, pinned).path == st.path,
        !crate::store::has_id(st.memories, id) ==> crate::memory::pin_set(st, id, pinned) == st,
{
    if crate::store::has_id(st.memories, id) {
        let p = crate::store::place(st.memories, id);
        assert(crate::store::id_at(st.memories, p, id));
        let r = RecordView { pinned, ..st.memories[p] };
        crate::store::put_keeps_wf(st, r);
        crate::store::put_then_lookup(st.memories, r, other);
    }
}

// --- New memories ---

/// A new memory is found under its identifier: it has what it was given, a
/// working strength of 1, no core strength, and one access; it is not pinned, in
/// the working layer, and has never been consolidated or contradicted. Every
/// other memory is as before.
pub proof fn new_memory_is_fresh(
    st: StoreView,
    id: Seq<char>,
    content: Seq<char>,
    memory_type: MemoryType,
    importance: Binary64,
    source: Seq<char>,
    metadata: Option<Seq<char>>,
    embedding: Option<Seq<crate::binary::Binary32>>,
    created_at: Timestamp,
    accessed_at: Timestamp,
    other: Seq<char>,
)
    requires
        st.wf(),
    ensures
        ({
            let after = st.added(
                crate::memory::encoded(
                    id,
                    content,
                    memory_type,
                    importance,
                    source,
                    metadata,
                    embedding,
                    created_at,
                    accessed_at,
                ),
            );
            &&& after.links == st.links
            &&& after.path == st.path
            &&& other != id ==> crate::store::lookup(after.memories, other)
                == crate::store::lookup(st.memories, other)
            &&& crate::store::lookup(after.memories, id) matches Some(r) && {
                &&& r.id == id
                &&& r.content == content
                &&& r.memory_type == memory_type
                &&& r.layer == MemoryLayer::Working
                &&& r.created_at == created_at
                &&& r.access_times.len() == 1
                &&& r.access_times[0] == accessed_at
                &&& r.working_strength == Binary64::of_int(1)
                &&& r.core_strength == Binary64::of_int(0)
                &&& r.importance == importance
                &&& !r.pinned
                &&& r.consolidation_count == 0
                &&& r.last_consolidated is None
                &&& r.source == source
                &&& r.contradicts is None
                &&& r.contradicted_by is None
                &&& r.metadata == metadata
                &&& r.embedding == embedding
            }
        }),
{
    crate::number_laws::integers_are_what_they_say();
    let r = crate::memory::encoded(
        id,
        content,
        memory_type,
        importance,
        source,
        metadata,
        embedding,
        created_at,
        accessed_at,
    );
    crate::store_laws::get_after_add(st, r, id);
    crate::store_laws::get_after_add(st, r, other);
}

/// What is given is taken, and else what stands in for it: an importance in
/// place of the default, a source in place of the empty one, and a path unless
/// the memories are to be kept in no file.
pub proof fn given_values_are_taken(importance: Binary64, default: Binary64, path: Seq<char>)
    ensures
        crate::memory::or_else(Some(importance), default) == importance,
        crate::memory::or_else(None, default) == default,
        forall|source: &str| #[trigger] crate::memory::source_text(Some(source)) == source@,
        crate::memory::source_text(None).len() == 0,
        crate::memory::storage_path(path) is None <==> path == ":memory:"@,
        crate::memory::storage_path(path) matches Some(p) ==> p == path,
{
}

// --- Feedback ---

/// Praise never lifts a working strength above 2, and blame never takes one
/// below 0.
pub proof fn reward_is_bounded(strength: Binary64, polarity: Binary64, magnitude: Binary64)
    ensures
        crate::links::positive(polarity) ==> (Binary64 { bits: TWO }).at_least(
            crate::memory::rewarded_strength(strength, polarity, magnitude),
        ),
        !crate::links::positive(polarity) ==> crate::memory::rewarded_strength(
            strength,
            polarity,
            magnitude,
        ).at_least(Binary64 { bits: 0 }),
{
    crate::format::lemma_bound_120();
    crate::format::lemma_inf(crate::binary::binary64());
}

/// A learnt importance lies from 0.05 to 1, unless it is no number.
pub proof fn learnt_importance_is_bounded(importance: Binary64, by: Binary64)
    ensures
        importance.plus(by).is_nan() || (crate::meta::adjusted(importance, by).at_least(
            Binary64 { bits: TWENTIETH },
        ) && (Binary64 { bits: ONE }).at_least(crate::meta::adjusted(importance, by))),
{
    crate::format::lemma_bound_120();
    crate::format::lemma_inf(crate::binary::binary64());
}

/// Where praise was not rarer than blame, learning does not lower an importance
/// from 0.05 to 1; where blame was not rarer, it does not raise it.
pub proof fn learning_follows_feedback(t: Tally, importance: Binary64, by: Binary64)
    requires
        t.lesson() == Some(by),
        importance.at_least(Binary64 { bits: TWENTIETH }),
        (Binary64 { bits: ONE }).at_least(importance),
    ensures
        t.positive >= t.negative ==> crate::meta::adjusted(importance, by).at_least(importance),
        t.negative >= t.positive ==> importance.at_least(crate::meta::adjusted(importance, by)),
{
    let total = t.positive + t.negative;
    crate::format::lemma_bound_120();
    crate::format::lemma_inf(crate::binary::binary64());
    vstd::arithmetic::power2::lemma_pow2_unfold(65);
    let ratio = Binary64::of_int(t.positive as int).over(Binary64::of_int(total));
    let d = ratio.minus(Binary64 { bits: crate::numbers::HALF });
    crate::rounding::share_of_half(t.positive as int, total);
    crate::rounding::less_a_half(ratio);
    crate::rounding::twentieth_keeps_sign(d);
    if by.datum().neg {
        crate::rounding::taking_off_does_not_increase(importance, by);
    } else {
        crate::rounding::adding_does_not_lessen(importance, by);
    }
    learnt_importance_is_bounded(importance, by);
}

// --- Recall ---

/// A confidence lies from 0 to 1, unless it is no number.
pub proof fn confidence_is_bounded(activation: Binary64, importance: Binary64)
    ensures
        crate::feedback::confidence(activation, importance).is_nan() || (
        crate::feedback::confidence(activation, importance).at_least(Binary64 { bits: 0 }) && (
        Binary64 { bits: ONE }).at_least(crate::feedback::confidence(activation, importance))),
{
    crate::format::lemma_bound_120();
    crate::format::lemma_inf(crate::binary::binary64());
}

/// A recall returns only results that it is sure enough of, each one of the
/// candidates.
pub proof fn recall_is_sure_enough(
    c: Seq<crate::memory::CandidateView>,
    min_confidence: Binary64,
    k: int,
)
    requires
        0 <= k < crate::memory::recall_results(c, min_confidence).len(),
    ensures
        crate::memory::recall_results(c, min_confidence)[k].confidence.at_least(min_confidence),
        exists|i: int|
            0 <= i < c.len() && crate::memory::recall_results(c, min_confidence)[k]
                == crate::memory::assessed(#[trigger] c[i]),
{
    broadcast use vstd::seq_lib::group_filter_ensures;

    let all = c.map_values(|x: crate::memory::CandidateView| crate::memory::assessed(x));
    let keep = |r: crate::memory::ResultView| r.confidence.at_least(min_confidence);
    let r = all.filter(keep);
    assert(keep(r[k]));
    assert(r.contains(r[k]));
    all.lemma_filter_contains_rev(keep, r[k]);
    let i = choose|i: int| 0 <= i < all.len() && all[i] == r[k];
    assert(r[k] == crate::memory::assessed(c[i]));
}

/// `a` is `b`, but for access times that were added at the end.
pub open spec fn later(a: RecordView, b: RecordView) -> bool {
    &&& a == (RecordView { access_times: a.access_times, ..b })
    &&& b.access_times.is_prefix_of(a.access_times)
}

/// A recall adds access times to memories and changes nothing else of them.
pub proof fn recall_only_adds_accesses(
    st: StoreView,
    ids: Seq<Seq<char>>,
    times: Seq<Timestamp>,
    n: nat,
    i: int,
)
    requires
        st.wf(),
        0 <= i < st.memories.len(),
        n <= ids.len(),
    ensures
        ({
            let after = crate::memory::accessed_first(st, ids, times, n);
            &&& after.wf()
            &&& after.memories.len() == st.memories.len()
            &&& later(after.memories[i], st.memories[i])
            &&& after.links == st.links
            &&& after.index == st.index
        }),
    decreases n,
{
    if n > 0 {
        recall_only_adds_accesses(st, ids, times, (n - 1) as nat, i);
        let before = crate::memory::accessed_first(st, ids, times, (n - 1) as nat);
        let id = ids[n - 1];
        let t = times[n - 1];
        crate::store::access_keeps_wf(before, id, t);
        if crate::store::has_id(before.memories, id) {
            assert(crate::store::id_at(
                before.memories,
                crate::store::place(before.memories, id),
                id,
            ));
        }
    }
}

/// To recall two memories is to recall that pair together once.
pub proof fn recall_of_two_is_joint(
    links: Seq<crate::links::LinkView>,
    a: Seq<char>,
    b: Seq<char>,
    threshold: i32,
)
    ensures
        crate::memory::all_paired(links, seq![a, b], 2, threshold)
            == crate::links::after_coactivation(links, a, b, threshold),
        crate::memory::all_paired(links, seq![a], 1, threshold) == links,
{
    reveal_with_fuel(crate::memory::all_paired, 3);
    reveal_with_fuel(crate::memory::paired, 3);
}

/// An outcome of each of some different memories is counted once for each of
/// them, and for no other memory.
pub proof fn outcomes_are_counted_once(
    meta: Seq<crate::meta::TallyView>,
    ids: Seq<Seq<char>>,
    what: crate::meta::Outcome,
    id: Seq<char>,
)
    requires
        crate::meta::unique_tallies(meta),
        ids.no_duplicates(),
    ensures
        crate::meta::unique_tallies(crate::memory::counted_all(meta, ids, what)),
        crate::meta::tally_of(crate::memory::counted_all(meta, ids, what), id) == if ids.contains(
            id,
        ) {
            crate::meta::tally_of(meta, id).after(what)
        } else {
            crate::meta::tally_of(meta, id)
        },
    decreases ids.len(),
{
    if ids.len() > 0 {
        let rest = ids.drop_last();
        outcomes_are_counted_once(meta, rest, what, id);
        let before = crate::memory::counted_all(meta, rest, what);
        crate::meta::count_then_read(before, ids.last(), what, id);
        let last = ids.len() - 1;
        if ids.contains(id) {
            let k = choose|k: int| 0 <= k < ids.len() && ids[k] == id;
            if k < last {
                assert(rest[k] == id);
                assert(ids[k] != ids[last]);
            }
        }
        if rest.contains(id) {
            let k = choose|k: int| 0 <= k < rest.len() && rest[k] == id;
            assert(ids[k] == id);
            assert(ids[k] != ids[last]);
        }
        assert(ids[last] == ids.last());
    }
}

// --- Learning ---

/// Learning adjusts the importance of each memory on which the first `n`
/// tallies hold a lesson, and changes nothing else of any memory.
pub proof fn learning_adjusts_importance(
    st: StoreView,
    meta: Seq<crate::meta::TallyView>,
    n: nat,
    id: Seq<char>,
)
    requires
        st.wf(),
        crate::meta::unique_tallies(meta),
        n <= meta.len(),
    ensures
        crate::memory::learned(st, meta, n).wf(),
        crate::memory::learned(st, meta, n).links == st.links,
        crate::store::lookup(crate::memory::learned(st, meta, n).memories, id)
            == match crate::store::lookup(st.memories, id) {
            Some(r) => Some(
                match crate::meta::tally_of(meta.take(n as int), id).lesson() {
                    Some(by) => RecordView {
                        importance: crate::meta::adjusted(r.importance, by),
                        ..r
                    },
                    None => r,
                },
            ),
            None => None,
        },
    decreases n,
{
    if n == 0 {
        assert(meta.take(0).len() == 0);
        assert(!crate::meta::has_tally(meta.take(0), id));
    } else {
        let b = (n - 1) as nat;
        learning_adjusts_importance(st, meta, b, id);
        let before = crate::memory::learned(st, meta, b);
        let t = meta[n - 1];
        lemma_tally_prefix(meta, b, id);
        if crate::store::has_id(before.memories, t.id) {
            let p = crate::store::place(before.memories, t.id);
            assert(crate::store::id_at(before.memories, p, t.id));
            if let Some(by) = t.tally.lesson() {
                let r = before.memories[p];
                let x = RecordView {
                    importance: crate::meta::adjusted(r.importance, by),
                    ..r
                };
                crate::store::put_keeps_wf(before, x);
                crate::store::put_then_lookup(before.memories, x, id);
            }
        }
    }
}

proof fn lemma_tally_prefix(meta: Seq<crate::meta::TallyView>, b: nat, id: Seq<char>)
    requires
        crate::meta::unique_tallies(meta),
        b < meta.len(),
    ensures
        meta[b as int].id == id ==> crate::meta::tally_of(meta.take(b as int + 1), id)
            == meta[b as int].tally && crate::meta::tally_of(meta.take(b as int), id) == (Tally {
            retrieved: 0,
            positive: 0,
            negative: 0,
        }),
        meta[b as int].id != id ==> crate::meta::tally_of(meta.take(b as int + 1), id)
            == crate::meta::tally_of(meta.take(b as int), id),
{
    let old = meta.take(b as int);
    let new = meta.take(b as int + 1);
    assert forall|i: int, j: int| 0 <= i < j < new.len() implies (#[trigger] new[i]).id != (
    #[trigger] new[j]).id by {
        assert(meta[i].id != meta[j].id);
    }
    assert forall|i: int, j: int| 0 <= i < j < old.len() implies (#[trigger] old[i]).id != (
    #[trigger] old[j]).id by {
        assert(meta[i].id != meta[j].id);
    }
    if meta[b as int].id == id {
        assert(crate::meta::tally_at(new, b as int, id));
        crate::meta::lemma_tally_place(new, b as int, id);
        if crate::meta::has_tally(old, id) {
            let q = crate::meta::tally_place(old, id);
            assert(crate::meta::tally_at(old, q, id));
            assert(meta[q].id != meta[b as int].id);
        }
    } else {
        if crate::meta::has_tally(old, id) {
            let q = crate::meta::tally_place(old, id);
            assert(crate::meta::tally_at(old, q, id));
            assert(crate::meta::tally_at(new, q, id));
            crate::meta::lemma_tally_place(new, q, id);
        } else if crate::meta::has_tally(new, id) {
            let q = crate::meta::tally_place(new, id);
            assert(crate::meta::tally_at(new, q, id));
            assert(crate::meta::tally_at(old, q, id));
        }
    }
}

// --- Figures ---

/// Every memory is counted under one type and under one layer.
pub proof fn figures_count_all(s: Seq<Weighed>, r: Seq<RecordView>)
    ensures
        s.len() == crate::statistics::of_type(s, MemoryType::Factual).len()
            + crate::statistics::of_type(s, MemoryType::Episodic).len()
            + crate::statistics::of_type(s, MemoryType::Relational).len()
            + crate::statistics::of_type(s, MemoryType::Emotional).len()
            + crate::statistics::of_type(s, MemoryType::Procedural).len()
            + crate::statistics::of_type(s, MemoryType::Opinion).len()
            + crate::statistics::of_type(s, MemoryType::Causal).len(),
        r.len() == crate::statistics::of_layer(r, MemoryLayer::Core).len()
            + crate::statistics::of_layer(r, MemoryLayer::Working).len()
            + crate::statistics::of_layer(r, MemoryLayer::Archive).len(),
    decreases s.len() + r.len(),
{
    reveal(Seq::filter);
    if s.len() > 0 {
        figures_count_all(s.drop_last(), r);
    } else if r.len() > 0 {
        figures_count_all(s, r.drop_last());
    }
}

// --- Compression ---

proof fn lemma_without_all(st: StoreView, others: Seq<RecordView>)
    requires
        st.wf(),
    ensures
        crate::compression::without_all(st, others).wf(),
        forall|id: Seq<char>| #[trigger]
            crate::store::has_id(crate::compression::without_all(st, others).memories, id)
                <==> crate::store::has_id(st.memories, id) && !crate::memory::ids_of(
                others,
            ).contains(id),
    decreases others.len(),
{
    let after = crate::compression::without_all(st, others);
    let ids = crate::memory::ids_of(others);
    if others.len() == 0 {
        assert(ids.len() == 0);
    } else {
        let rest = others.drop_last();
        lemma_without_all(st, rest);
        let before = crate::compression::without_all(st, rest);
        let gone = others.last().id;
        crate::store::delete_keeps_wf(before, gone);
        let old = crate::memory::ids_of(rest);
        assert(ids =~= old.push(gone));
        assert forall|id: Seq<char>| #[trigger]
            crate::store::has_id(after.memories, id) <==> crate::store::has_id(st.memories, id)
                && !ids.contains(id) by {
            crate::store::without_then_lookup(before.memories, gone, id);
            assert(ids[old.len() as int] == gone);
            if ids.contains(id) && id != gone {
                let k = choose|k: int| 0 <= k < ids.len() && ids[k] == id;
                assert(old[k] == id);
            }
            if old.contains(id) {
                let k = choose|k: int| 0 <= k < old.len() && old[k] == id;
                assert(ids[k] == id);
            }
        }
    }
}

/// A compression removes exactly the memories that others have taken in; every
/// other memory is still there, and none is new.
pub proof fn compress_removes_what_it_merged(
    st: StoreView,
    threshold: Binary64,
    texts: Seq<Seq<char>>,
    n: nat,
)
    requires
        st.wf(),
        n <= st.memories.len(),
    ensures
        crate::compression::compressed(st, threshold, texts, n).store.wf(),
        forall|id: Seq<char>| #[trigger]
            crate::store::has_id(
                crate::compression::compressed(st, threshold, texts, n).store.memories,
                id,
            ) <==> crate::store::has_id(st.memories, id) && !crate::compression::compressed(
                st,
                threshold,
                texts,
                n,
            ).gone.contains(id),
    decreases n,
{
    if n > 0 {
        compress_removes_what_it_merged(st, threshold, texts, (n - 1) as nat);
        let before = crate::compression::compressed(st, threshold, texts, (n - 1) as nat);
        let after = crate::compression::compressed(st, threshold, texts, n);
        let r = st.memories[n - 1];
        let c = crate::compression::cluster(
            st.memories,
            before.store.links,
            before.gone,
            r,
            threshold,
        );
        if !before.gone.contains(r.id) && c.len() >= 2 {
            let p = crate::compression::strongest(c);
            crate::compression::lemma_strongest(c);
            let text = texts[before.merges.len() as int];
            let s = crate::compression::survivor(c, text);
            let others = c.remove(p);
            lemma_cluster_members(st.memories, before, r, threshold, n - 1, p);
            crate::store::put_keeps_wf(before.store, s);
            let mid = before.store.updated(s);
            lemma_without_all(mid, others);
            let ids = crate::memory::ids_of(others);
            assert forall|id: Seq<char>| #[trigger]
                crate::store::has_id(after.store.memories, id) <==> crate::store::has_id(
                    st.memories,
                    id,
                ) && !after.gone.contains(id) by {
                crate::store::put_then_lookup(before.store.memories, s, id);
                assert(after.gone.contains(id) <==> before.gone.contains(id) || ids.contains(
                    id,
                )) by {
                    let g = before.gone;
                    let a = after.gone;
                    if g.contains(id) {
                        let k = choose|k: int| 0 <= k < g.len() && g[k] == id;
                        assert(a[k] == id);
                    }
                    if ids.contains(id) {
                        let k = choose|k: int| 0 <= k < ids.len() && ids[k] == id;
                        assert(a[g.len() + k] == id);
                    }
                    if a.contains(id) {
                        let k = choose|k: int| 0 <= k < a.len() && a[k] == id;
                        if k < g.len() {
                            assert(g[k] == id);
                        } else {
                            assert(ids[k - g.len()] == id);
                        }
                    }
                }
            }
        }
    }
}

proof fn lemma_cluster_members(
    all: Seq<RecordView>,
    run: Run,
    r: RecordView,
    threshold: Binary64,
    i: int,
    p: int,
)
    requires
        0 <= i < all.len(),
        all[i] == r,
        !run.gone.contains(r.id),
        0 <= p < crate::compression::cluster(
            all,
            run.store.links,
            run.gone,
            r,
            threshold,
        ).len(),
    ensures
        ({
            let c = crate::compression::cluster(all, run.store.links, run.gone, r, threshold);
            crate::store::has_id(all, c[p].id) && !run.gone.contains(c[p].id)
        }),
{
    let n = crate::links::neighbors(run.store.links, r.id);
    assert(crate::store::id_at(all, i, r.id));
    if p > 0 {
        lemma_picked(all, run.gone, r, threshold, n, p - 1);
    }
}

proof fn lemma_picked(
    all: Seq<RecordView>,
    gone: Seq<Seq<char>>,
    r: RecordView,
    threshold: Binary64,
    n: Seq<Seq<char>>,
    k: int,
)
    requires
        0 <= k < n.filter_map(
            |nid: Seq<char>| crate::compression::partner(all, gone, r, threshold, nid),
        ).len(),
    ensures
        ({
            let x = n.filter_map(
                |nid: Seq<char>| crate::compression::partner(all, gone, r, threshold, nid),
            )[k];
            crate::store::has_id(all, x.id) && !gone.contains(x.id)
        }),
    decreases n.len(),
{
    let pick = |nid: Seq<char>| crate::compression::partner(all, gone, r, threshold, nid);
    if n.len() > 0 {
        let rest = n.drop_last().filter_map(pick);
        if k < rest.len() {
            lemma_picked(all, gone, r, threshold, n.drop_last(), k);
            assert(n.filter_map(pick)[k] == rest[k]);
        } else {
            let nid = n.last();
            let q = crate::store::place(all, nid);
            assert(crate::store::id_at(all, q, nid));
        }
    }
}

/// A compression that merges nothing changes nothing.
pub proof fn compress_without_merges(
    st: StoreView,
    threshold: Binary64,
    texts: Seq<Seq<char>>,
    n: nat,
)
    requires
        crate::compression::compressed(st, threshold, texts, n).merges.len() == 0,
    ensures
        crate::compression::compressed(st, threshold, texts, n).store == st,
    decreases n,
{
    if n > 0 {
        let before = crate::compression::compressed(st, threshold, texts, (n - 1) as nat);
        assert(before.merges.len() == 0);
        compress_without_merges(st, threshold, texts, (n - 1) as nat);
    }
}

proof fn lemma_paired_in_order(
    links: Seq<crate::links::LinkView>,
    ids: Seq<Seq<char>>,
    i: nat,
    j: nat,
    threshold: i32,
)
    requires
        crate::links::in_order(links),
    ensures
        crate::links::in_order(crate::memory::paired(links, ids, i, j, threshold)),
    decreases j,
{
    if j > i + 1 {
        lemma_paired_in_order(links, ids, i, (j - 1) as nat, threshold);
        crate::links::pairs_stay_in_order(
            crate::memory::paired(links, ids, i, (j - 1) as nat, threshold),
            ids[i as int],
            ids[j - 1],
            threshold,
            Binary64 { bits: 0 },
        );
    }
}

/// A recall leaves each pair of memories in order.
pub proof fn recalled_pairs_are_in_order(
    links: Seq<crate::links::LinkView>,
    ids: Seq<Seq<char>>,
    n: nat,
    threshold: i32,
)
    requires
        crate::links::in_order(links),
    ensures
        crate::links::in_order(crate::memory::all_paired(links, ids, n, threshold)),
    decreases n,
{
    if n > 0 {
        let b = (n - 1) as nat;
        recalled_pairs_are_in_order(links, ids, b, threshold);
        lemma_paired_in_order(
            crate::memory::all_paired(links, ids, b, threshold),
            ids,
            b,
            ids.len(),
            threshold,
        );
    }
}

} // verus!
