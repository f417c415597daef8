//! What a memory is after a snapshot with the same content was imported, and
//! what the report of an import counts.

use vstd::prelude::*;
use crate::binary::Binary64;
use crate::links::LinkView;
use crate::store::StoreView;
use crate::sync::{Keyed, MergeReport};
use crate::types::{RecordView, Timestamp};

verus! {

/// Whether the remote memory `r` is stronger or more important than the local
/// memory `l`, or was accessed more often.
pub open spec fn has_more(l: RecordView, r: RecordView) -> bool {
    ||| l.working_strength.below(r.working_strength)
    ||| l.core_strength.below(r.core_strength)
    ||| l.importance.below(r.importance)
    ||| l.access_times.len() < r.access_times.len()
}

/// `x` is one of two numbers, and below neither.
pub open spec fn is_top(x: Binary64, a: Binary64, b: Binary64) -> bool {
    (x == a || x == b) && !x.below(a) && !x.below(b)
}

/// A local memory whose content the snapshot has too takes in the remote one
/// where that has more: it then has the access times of both, in order, the
/// greater strengths and importance, the greater consolidation count, and the
/// pin of either; it counts as updated. Where the remote memory has not more,
/// the local one stays as it is and counts as skipped. Nothing else of it
/// changes. Its place is given.
pub proof fn import_unites(
    st: StoreView,
    s: Seq<Keyed>,
    links: Seq<LinkView>,
    fresh: Seq<Seq<char>>,
    k: int,
) -> (p: int)
    requires
        st.wf(),
        crate::merge_laws::valid(s),
        crate::merge_laws::unused(st, s, fresh),
        0 <= k < s.len(),
        crate::merge_laws::knows(st.memories, s[k].hash),
    ensures
        ({
            let m = crate::sync::merged(st, s, links, fresh);
            let l = st.memories[p];
            let r = s[k].record;
            let x = m.memories[p];
            &&& 0 <= p < st.memories.len()
            &&& p < m.memories.len()
            &&& crate::sync::hash_of(l) == s[k].hash
            &&& crate::sync::match_of(st.memories, s[k].hash) == Some(l)
            &&& crate::merge_laws::same_memory(x, l)
            &&& has_more(l, r) ==> {
                &&& forall|t: Timestamp| #[trigger]
                    x.access_times.contains(t) <==> l.access_times.contains(t)
                        || r.access_times.contains(t)
                &&& crate::times::in_order(x.access_times)
                &&& is_top(x.working_strength, l.working_strength, r.working_strength)
                &&& is_top(x.core_strength, l.core_strength, r.core_strength)
                &&& is_top(x.importance, l.importance, r.importance)
                &&& x.consolidation_count >= l.consolidation_count
                &&& x.consolidation_count >= r.consolidation_count
                &&& x.consolidation_count == l.consolidation_count || x.consolidation_count
                    == r.consolidation_count
                &&& x.pinned == (l.pinned || r.pinned)
                &&& crate::sync::is_changed(st.memories)(s[k])
                &&& !crate::sync::is_known(st.memories)(s[k])
            }
            &&& !has_more(l, r) ==> {
                &&& x == l
                &&& crate::sync::is_known(st.memories)(s[k])
                &&& !crate::sync::is_changed(st.memories)(s[k])
            }
            &&& !crate::sync::is_new(st.memories)(s[k])
        }),
{
    crate::merge_laws::lemma_knows(st.memories, s[k].hash);
    crate::merge_laws::lemma_last_place(st.memories, s[k].hash);
    let p = crate::merge_laws::lemma_match_after(st, s, fresh, k);
    let l = st.memories[p];
    let r = s[k].record;
    crate::merge_laws::merge_keeps_local_memories(st, s, links, fresh, p);
    crate::merge_laws::greater_is_upper_bound(l.working_strength, r.working_strength);
    crate::merge_laws::greater_is_upper_bound(l.core_strength, r.core_strength);
    crate::merge_laws::greater_is_upper_bound(l.importance, r.importance);
    crate::times::joined_is_union(l.access_times, r.access_times);
    crate::times::sorted_is_in_order(crate::times::joined(l.access_times, r.access_times));
    p
}

/// A remote memory whose content is new is there after an import as it is
/// remotely, under its own identifier unless that is taken, and counts as added.
/// Its place is given.
pub proof fn import_adds(
    st: StoreView,
    s: Seq<Keyed>,
    links: Seq<LinkView>,
    fresh: Seq<Seq<char>>,
    k: int,
) -> (p: int)
    requires
        st.wf(),
        crate::merge_laws::valid(s),
        crate::merge_laws::unused(st, s, fresh),
        0 <= k < s.len(),
        !crate::merge_laws::knows(st.memories, s[k].hash),
    ensures
        ({
            let m = crate::sync::merged(st, s, links, fresh);
            &&& st.memories.len() <= p < m.memories.len()
            &&& m.memories[p] == s[k].record || (crate::merge_laws::clashes(st, s, k)
                && m.memories[p] == (RecordView { id: fresh[k], ..s[k].record }))
            &&& crate::sync::is_new(st.memories)(s[k])
            &&& !crate::sync::is_changed(st.memories)(s[k])
            &&& !crate::sync::is_known(st.memories)(s[k])
        }),
{
    crate::merge_laws::lemma_knows(st.memories, s[k].hash);
    crate::merge_laws::lemma_last_place(st.memories, s[k].hash);
    crate::merge_laws::lemma_match_after(st, s, fresh, k)
}

/// How many of some remote memories are new.
pub open spec fn count_new(locals: Seq<RecordView>, s: Seq<Keyed>) -> nat
    decreases s.len(),
{
    if s.len() == 0 {
        0
    } else {
        count_new(locals, s.drop_last()) + if crate::merge_laws::knows(locals, s.last().hash) {
            0nat
        } else {
            1
        }
    }
}

/// How many of some remote memories are known and have more than the last local
/// memory with their content.
pub open spec fn count_more(locals: Seq<RecordView>, s: Seq<Keyed>) -> nat
    decreases s.len(),
{
    if s.len() == 0 {
        0
    } else {
        count_more(locals, s.drop_last()) + if crate::merge_laws::knows(locals, s.last().hash)
            && has_more(
            locals[crate::merge_laws::last_place(locals, s.last().hash)],
            s.last().record,
        ) {
            1nat
        } else {
            0
        }
    }
}

/// The report of an import counts each remote memory once: as added where its
/// content is new, as updated where it has more than the local memory with its
/// content, else as skipped; and it counts the remote links.
pub proof fn report_counts_each_memory(
    r: MergeReport,
    locals: Seq<RecordView>,
    s: Seq<Keyed>,
    links: Seq<LinkView>,
)
    requires
        crate::sync::reports(r, locals, s, links),
    ensures
        r.added == count_new(locals, s),
        r.updated == count_more(locals, s),
        r.added + r.updated + r.skipped == s.len(),
        r.links_merged == links.filter(
            |l: LinkView| Binary64::of_int(0).below(l.weight),
        ).len(),
{
    lemma_counts(locals, s);
    crate::number_laws::integers_are_what_they_say();
    let a = |l: LinkView| Binary64::of_int(0).below(l.weight);
    let b = |l: LinkView| crate::links::positive(l.weight);
    assert(a =~= b);
}

proof fn lemma_counts(locals: Seq<RecordView>, s: Seq<Keyed>)
    ensures
        s.filter(crate::sync::is_new(locals)).len() == count_new(locals, s),
        s.filter(crate::sync::is_changed(locals)).len() == count_more(locals, s),
        s.len() == s.filter(crate::sync::is_new(locals)).len() + s.filter(
            crate::sync::is_changed(locals),
        ).len() + s.filter(crate::sync::is_known(locals)).len(),
    decreases s.len(),
{
    reveal(Seq::filter);
    if s.len() > 0 {
        lemma_counts(locals, s.drop_last());
        let hash = s.last().hash;
        crate::merge_laws::lemma_knows(locals, hash);
        crate::merge_laws::lemma_last_place(locals, hash);
    }
}

} // verus!
