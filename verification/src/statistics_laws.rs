//! What the figures on a memory system stand for.

use vstd::prelude::*;
use crate::binary::Binary64;
use crate::memory::{MemoryView, Weighed};
use crate::types::{LayerStats, MemoryLayer, MemoryType, RecordView, Timestamp, TypeStats};

verus! {

/// `mean` is the mean of some numbers: their sum from left to right, starting at
/// -0, by their number.
pub open spec fn is_mean(mean: Binary64, s: Seq<Binary64>) -> bool {
    mean == s.fold_left(
        Binary64::of_int(0).negated(),
        |sum: Binary64, x: Binary64| sum.plus(x),
    ).over(Binary64::of_int(s.len() as int))
}

proof fn lemma_total(s: Seq<Binary64>)
    ensures
        crate::statistics::total(s) == s.fold_left(
            Binary64::of_int(0).negated(),
            |sum: Binary64, x: Binary64| sum.plus(x),
        ),
    decreases s.len(),
{
    crate::number_laws::integers_are_what_they_say();
    if s.len() > 0 {
        lemma_total(s.drop_last());
    }
}

proof fn lemma_filter_distinct<A>(s: Seq<A>, keep: spec_fn(A) -> bool)
    requires
        s.no_duplicates(),
    ensures
        s.filter(keep).no_duplicates(),
    decreases s.len(),
{
    reveal(Seq::filter);
    if s.len() > 0 {
        let rest = s.drop_last();
        lemma_filter_distinct(rest, keep);
        let f = rest.filter(keep);
        let t = s.filter(keep);
        assert forall|i: int, j: int| 0 <= i < t.len() && 0 <= j < t.len() && i != j implies t[i]
            != t[j] by {
            let (a, b) = if i < j {
                (i, j)
            } else {
                (j, i)
            };
            if b == f.len() {
                assert(f.contains(f[a]));
                rest.lemma_filter_contains_rev(keep, f[a]);
                let k = choose|k: int| 0 <= k < rest.len() && rest[k] == f[a];
                assert(s[k] != s[s.len() - 1]);
            } else {
                assert(f[a] != f[b]);
            }
        }
    }
}

/// Whether figures are those on some memories of one type: their number, and the
/// means of their strengths and of their importance.
pub open spec fn are_type_figures(x: TypeStats, s: Seq<Weighed>) -> bool {
    &&& x.count == s.len()
    &&& is_mean(x.avg_strength, Seq::new(s.len(), |i: int| s[i].strength))
    &&& is_mean(x.avg_importance, Seq::new(s.len(), |i: int| s[i].record.importance))
}

/// Whether figures are those on some memories of one layer: their number, and the
/// means of their working and core strengths.
pub open spec fn are_layer_figures(x: LayerStats, s: Seq<RecordView>) -> bool {
    &&& x.count == s.len()
    &&& is_mean(x.avg_working, Seq::new(s.len(), |i: int| s[i].working_strength))
    &&& is_mean(x.avg_core, Seq::new(s.len(), |i: int| s[i].core_strength))
}

proof fn lemma_types(t: MemoryType)
    ensures
        crate::statistics::all_types().contains(t),
        crate::statistics::all_types().no_duplicates(),
{
    let s = crate::statistics::all_types();
    assert(s[0] == MemoryType::Factual && s[1] == MemoryType::Episodic && s[2]
        == MemoryType::Relational && s[3] == MemoryType::Emotional && s[4]
        == MemoryType::Procedural && s[5] == MemoryType::Opinion && s[6] == MemoryType::Causal);
}

proof fn lemma_layers(l: MemoryLayer)
    ensures
        crate::statistics::all_layers().contains(l),
        crate::statistics::all_layers().no_duplicates(),
{
    let s = crate::statistics::all_layers();
    assert(s[0] == MemoryLayer::Core && s[1] == MemoryLayer::Working && s[2]
        == MemoryLayer::Archive);
}

/// The figures tell of each type that has memories, once, under its name, and of
/// no other type. The place at which they tell of it is given.
pub proof fn figures_tell_of_each_type(
    m: MemoryView,
    strengths: Seq<Binary64>,
    at: Timestamp,
    t: MemoryType,
) -> (k: int)
    requires
        strengths.len() == m.store.memories.len(),
        m.store.memories.len() <= usize::MAX,
    ensures
        ({
            let told = crate::statistics::figures(m, strengths, at).by_type;
            let s = crate::memory::weighed(m.store.memories, strengths).filter(
                |w: Weighed| w.record.memory_type == t,
            );
            &&& s.len() > 0 ==> 0 <= k < told.len() && told[k].0 == t.name() && are_type_figures(
                told[k].1,
                s,
            )
            &&& forall|j: int|
                0 <= j < told.len() && (#[trigger] told[j]).0 == t.name() ==> s.len() > 0 && j == k
        }),
{
    broadcast use vstd::seq_lib::group_filter_ensures;

    let all = crate::memory::weighed(m.store.memories, strengths);
    let s = crate::statistics::of_type(all, t);
    let types = crate::statistics::all_types();
    let keep = |x: MemoryType| crate::statistics::of_type(all, x).len() > 0;
    let kept = types.filter(keep);
    let told = crate::statistics::figures(m, strengths, at).by_type;
    lemma_types(t);
    lemma_filter_distinct(types, keep);
    all.lemma_filter_len(|w: Weighed| w.record.memory_type == t);
    let i = choose|i: int| 0 <= i < types.len() && types[i] == t;
    if s.len() > 0 {
        assert(keep(types[i]));
        assert(kept.contains(t));
    }
    let k = if kept.contains(t) {
        choose|k: int| 0 <= k < kept.len() && kept[k] == t
    } else {
        0
    };
    assert forall|j: int| 0 <= j < told.len() && (#[trigger] told[j]).0 == t.name() implies s.len()
        > 0 && j == k by {
        crate::types::type_name_round_trip(kept[j]);
        crate::types::type_name_round_trip(t);
        assert(kept[j] == t);
        assert(keep(kept[j]));
        assert(kept.contains(t));
    }
    if s.len() > 0 {
        let a = s.map_values(|w: Weighed| w.strength);
        let b = s.map_values(|w: Weighed| w.record.importance);
        lemma_total(a);
        lemma_total(b);
        assert(a =~= Seq::new(s.len(), |i: int| s[i].strength));
        assert(b =~= Seq::new(s.len(), |i: int| s[i].record.importance));
    }
    k
}

/// The figures tell of each layer that has memories, once, under its name, and of
/// no other layer. The place at which they tell of it is given.
pub proof fn figures_tell_of_each_layer(
    m: MemoryView,
    strengths: Seq<Binary64>,
    at: Timestamp,
    l: MemoryLayer,
) -> (k: int)
    requires
        m.store.memories.len() <= usize::MAX,
    ensures
        ({
            let told = crate::statistics::figures(m, strengths, at).by_layer;
            let s = m.store.memories.filter(|r: RecordView| r.layer == l);
            &&& s.len() > 0 ==> 0 <= k < told.len() && told[k].0 == l.name() && are_layer_figures(
                told[k].1,
                s,
            )
            &&& forall|j: int|
                0 <= j < told.len() && (#[trigger] told[j]).0 == l.name() ==> s.len() > 0 && j == k
        }),
{
    broadcast use vstd::seq_lib::group_filter_ensures;

    let all = m.store.memories;
    let s = crate::statistics::of_layer(all, l);
    let layers = crate::statistics::all_layers();
    let keep = |x: MemoryLayer| crate::statistics::of_layer(all, x).len() > 0;
    let kept = layers.filter(keep);
    let told = crate::statistics::figures(m, strengths, at).by_layer;
    lemma_layers(l);
    lemma_filter_distinct(layers, keep);
    all.lemma_filter_len(|r: RecordView| r.layer == l);
    let i = choose|i: int| 0 <= i < layers.len() && layers[i] == l;
    if s.len() > 0 {
        assert(keep(layers[i]));
        assert(kept.contains(l));
    }
    let k = if kept.contains(l) {
        choose|k: int| 0 <= k < kept.len() && kept[k] == l
    } else {
        0
    };
    assert forall|j: int| 0 <= j < told.len() && (#[trigger] told[j]).0 == l.name() implies s.len()
        > 0 && j == k by {
        crate::types::layer_name_round_trip(kept[j]);
        crate::types::layer_name_round_trip(l);
        assert(kept[j] == l);
        assert(keep(kept[j]));
        assert(kept.contains(l));
    }
    if s.len() > 0 {
        let a = s.map_values(|r: RecordView| r.working_strength);
        let b = s.map_values(|r: RecordView| r.core_strength);
        lemma_total(a);
        lemma_total(b);
        assert(a =~= Seq::new(s.len(), |i: int| s[i].working_strength));
        assert(b =~= Seq::new(s.len(), |i: int| s[i].core_strength));
    }
    k
}

/// The nanoseconds from one moment to another.
pub open spec fn time_between(from: Timestamp, to: Timestamp) -> int {
    (to.secs - from.secs) * 1_000_000_000 + (to.nanos - from.nanos)
}

/// The figures count all memories and the pinned ones, and give the time since
/// the system was set up in hours, from the whole seconds that have passed. These
/// are given.
pub proof fn figures_count_and_time(
    m: MemoryView,
    strengths: Seq<Binary64>,
    at: Timestamp,
) -> (seconds: int)
    ensures
        ({
            let told = crate::statistics::figures(m, strengths, at);
            let d = time_between(m.created_at, at);
            &&& told.total_memories == m.store.memories.len()
            &&& told.pinned == m.store.memories.filter(|r: RecordView| r.pinned).len()
            &&& told.uptime_hours == Binary64::of_int(seconds).over(Binary64::of_int(3600))
            &&& d >= 0 ==> seconds * 1_000_000_000 <= d < (seconds + 1) * 1_000_000_000
            &&& d <= 0 ==> (seconds - 1) * 1_000_000_000 < d <= seconds * 1_000_000_000
        }),
{
    crate::number_laws::integers_are_what_they_say();
    crate::statistics::whole_seconds(m.created_at, at)
}

} // verus!
