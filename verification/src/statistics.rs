//! Figures on the memories of a system.

use vstd::prelude::*;
use crate::binary::Binary64;
use crate::host::now;
use crate::memory::{Memory, MemoryView, Weighed};
use crate::numbers::{MINUS_ZERO, SECONDS_PER_HOUR};
use crate::types::{
    LayerStats, MemoryLayer, MemoryRecord, MemoryStats, MemoryType, RecordView, Timestamp,
    TypeStats,
};

verus! {

/// The sum of some numbers, from left to right, starting at -0.
pub open spec fn total(s: Seq<Binary64>) -> Binary64
    decreases s.len(),
{
    if s.len() == 0 {
        Binary64 { bits: MINUS_ZERO }
    } else {
        total(s.drop_last()).plus(s.last())
    }
}

/// The mean of some numbers.
pub open spec fn mean(s: Seq<Binary64>) -> Binary64 {
    total(s).over(Binary64::of_int(s.len() as int))
}

/// All types of memory.
pub open spec fn all_types() -> Seq<MemoryType> {
    seq![
        MemoryType::Factual,
        MemoryType::Episodic,
        MemoryType::Relational,
        MemoryType::Emotional,
        MemoryType::Procedural,
        MemoryType::Opinion,
        MemoryType::Causal,
    ]
}

/// All layers of memory.
pub open spec fn all_layers() -> Seq<MemoryLayer> {
    seq![MemoryLayer::Core, MemoryLayer::Working, MemoryLayer::Archive]
}

/// The memories of a type.
pub open spec fn of_type(s: Seq<Weighed>, t: MemoryType) -> Seq<Weighed> {
    s.filter(|w: Weighed| w.record.memory_type == t)
}

/// The memories of a layer.
pub open spec fn of_layer(s: Seq<RecordView>, l: MemoryLayer) -> Seq<RecordView> {
    s.filter(|r: RecordView| r.layer == l)
}

/// The figures on some memories of one type.
pub open spec fn type_figures(s: Seq<Weighed>) -> TypeStats {
    TypeStats {
        count: s.len() as usize,
        avg_strength: mean(s.map_values(|w: Weighed| w.strength)),
        avg_importance: mean(s.map_values(|w: Weighed| w.record.importance)),
    }
}

/// The figures on some memories of one layer.
pub open spec fn layer_figures(s: Seq<RecordView>) -> LayerStats {
    LayerStats {
        count: s.len() as usize,
        avg_working: mean(s.map_values(|r: RecordView| r.working_strength)),
        avg_core: mean(s.map_values(|r: RecordView| r.core_strength)),
    }
}

/// The figures on each type that has memories, under its name.
pub open spec fn by_type(s: Seq<Weighed>) -> Seq<(Seq<char>, TypeStats)> {
    all_types().filter(|t: MemoryType| of_type(s, t).len() > 0).map_values(
        |t: MemoryType| (t.name(), type_figures(of_type(s, t))),
    )
}

/// The figures on each layer that has memories, under its name.
pub open spec fn by_layer(s: Seq<RecordView>) -> Seq<(Seq<char>, LayerStats)> {
    all_layers().filter(|l: MemoryLayer| of_layer(s, l).len() > 0).map_values(
        |l: MemoryLayer| (l.name(), layer_figures(of_layer(s, l))),
    )
}

/// A moment in nanoseconds.
pub open spec fn nanoseconds(t: Timestamp) -> int {
    t.secs * 1_000_000_000 + t.nanos
}

/// The whole seconds between two moments, towards zero.
pub open spec fn whole_seconds(from: Timestamp, to: Timestamp) -> int {
    let d = nanoseconds(to) - nanoseconds(from);
    if d >= 0 {
        d / 1_000_000_000
    } else {
        -((-d) / 1_000_000_000)
    }
}

/// What a [`MemoryStats`] holds.
pub struct StatsView {
    pub total_memories: nat,
    pub by_type: Seq<(Seq<char>, TypeStats)>,
    pub by_layer: Seq<(Seq<char>, LayerStats)>,
    pub pinned: nat,
    pub uptime_hours: Binary64,
}

pub open spec fn named_types(v: Seq<(String, TypeStats)>) -> Seq<(Seq<char>, TypeStats)> {
    Seq::new(v.len(), |i: int| (v[i].0@, v[i].1))
}

pub open spec fn named_layers(v: Seq<(String, LayerStats)>) -> Seq<(Seq<char>, LayerStats)> {
    Seq::new(v.len(), |i: int| (v[i].0@, v[i].1))
}

impl View for MemoryStats {
    type V = StatsView;

    open spec fn view(&self) -> StatsView {
        StatsView {
            total_memories: self.total_memories as nat,
            by_type: named_types(self.by_type@),
            by_layer: named_layers(self.by_layer@),
            pinned: self.pinned as nat,
            uptime_hours: self.uptime_hours,
        }
    }
}

/// The figures on a memory system at a moment, given the strength of each
/// memory at that moment.
pub open spec fn figures(m: MemoryView, strengths: Seq<Binary64>, at: Timestamp) -> StatsView {
    let s = m.store.memories;
    StatsView {
        total_memories: s.len(),
        by_type: by_type(crate::memory::weighed(s, strengths)),
        by_layer: by_layer(s),
        pinned: s.filter(|r: RecordView| r.pinned).len(),
        uptime_hours: Binary64::of_int(whole_seconds(m.created_at, at)).over(
            Binary64 { bits: SECONDS_PER_HOUR },
        ),
    }
}

/// The figures on the memories of one type.
fn stats_of_type(all: &Vec<MemoryRecord>, strengths: &Vec<Binary64>, t: MemoryType) -> (r: TypeStats)
    requires
        strengths@.len() == all@.len(),
    ensures
        r == type_figures(
            of_type(crate::memory::weighed(crate::types::records(all@), strengths@), t),
        ),
        r.count == of_type(
            crate::memory::weighed(crate::types::records(all@), strengths@),
            t,
        ).len(),
{
    let ghost s = crate::memory::weighed(crate::types::records(all@), strengths@);
    let ghost keep = |w: Weighed| w.record.memory_type == t;
    let ghost strength = |w: Weighed| w.strength;
    let ghost importance = |w: Weighed| w.record.importance;
    let mut count: usize = 0;
    let mut sum_strength = Binary64 { bits: MINUS_ZERO };
    let mut sum_importance = Binary64 { bits: MINUS_ZERO };
    let mut i: usize = 0;
    assert(s.take(0).filter(keep) =~= Seq::<Weighed>::empty()) by {
        reveal(Seq::filter);
    }
    while i < all.len()
        invariant
            i <= all@.len(),
            strengths@.len() == all@.len(),
            s == crate::memory::weighed(crate::types::records(all@), strengths@),
            keep == (|w: Weighed| w.record.memory_type == t),
            strength == (|w: Weighed| w.strength),
            importance == (|w: Weighed| w.record.importance),
            count <= i,
            count == s.take(i as int).filter(keep).len(),
            sum_strength == total(s.take(i as int).filter(keep).map_values(strength)),
            sum_importance == total(s.take(i as int).filter(keep).map_values(importance)),
        decreases all@.len() - i,
    {
        let ghost kept = s.take(i as int).filter(keep);
        let ghost w = s[i as int];
        assert(w == (Weighed { record: all@[i as int]@, strength: strengths@[i as int] }));
        assert(s.take(i + 1).drop_last() == s.take(i as int));
        assert(s.take(i + 1).last() == w);
        assert(s.take(i + 1).filter(keep) == if keep(w) {
            kept.push(w)
        } else {
            kept
        }) by {
            reveal(Seq::filter);
        }
        if all[i].memory_type == t {
            proof {
                assert(kept.push(w).map_values(strength).drop_last() =~= kept.map_values(strength));
                assert(kept.push(w).map_values(importance).drop_last() =~= kept.map_values(
                    importance,
                ));
            }
            count = count + 1;
            sum_strength = sum_strength.add(strengths[i]);
            sum_importance = sum_importance.add(all[i].importance);
        }
        i = i + 1;
    }
    assert(s.take(all@.len() as int) == s);
    let n = Binary64::from_int(count as i128);
    TypeStats {
        count,
        avg_strength: sum_strength.div(n),
        avg_importance: sum_importance.div(n),
    }
}

/// The figures on the memories of one layer.
fn stats_of_layer(all: &Vec<MemoryRecord>, l: MemoryLayer) -> (r: LayerStats)
    ensures
        r == layer_figures(of_layer(crate::types::records(all@), l)),
        r.count == of_layer(crate::types::records(all@), l).len(),
{
    let ghost s = crate::types::records(all@);
    let ghost keep = |r: RecordView| r.layer == l;
    let ghost working = |r: RecordView| r.working_strength;
    let ghost core = |r: RecordView| r.core_strength;
    let mut count: usize = 0;
    let mut sum_working = Binary64 { bits: MINUS_ZERO };
    let mut sum_core = Binary64 { bits: MINUS_ZERO };
    let mut i: usize = 0;
    assert(s.take(0).filter(keep) =~= Seq::<RecordView>::empty()) by {
        reveal(Seq::filter);
    }
    while i < all.len()
        invariant
            i <= all@.len(),
            s == crate::types::records(all@),
            keep == (|r: RecordView| r.layer == l),
            working == (|r: RecordView| r.working_strength),
            core == (|r: RecordView| r.core_strength),
            count <= i,
            count == s.take(i as int).filter(keep).len(),
            sum_working == total(s.take(i as int).filter(keep).map_values(working)),
            sum_core == total(s.take(i as int).filter(keep).map_values(core)),
        decreases all@.len() - i,
    {
        let ghost kept = s.take(i as int).filter(keep);
        let ghost r = s[i as int];
        assert(r == all@[i as int]@);
        assert(s.take(i + 1).drop_last() == s.take(i as int));
        assert(s.take(i + 1).last() == r);
        assert(s.take(i + 1).filter(keep) == if keep(r) {
            kept.push(r)
        } else {
            kept
        }) by {
            reveal(Seq::filter);
        }
        if all[i].layer == l {
            proof {
                assert(kept.push(r).map_values(working).drop_last() =~= kept.map_values(working));
                assert(kept.push(r).map_values(core).drop_last() =~= kept.map_values(core));
            }
            count = count + 1;
            sum_working = sum_working.add(all[i].working_strength);
            sum_core = sum_core.add(all[i].core_strength);
        }
        i = i + 1;
    }
    assert(s.take(all@.len() as int) == s);
    let n = Binary64::from_int(count as i128);
    LayerStats { count, avg_working: sum_working.div(n), avg_core: sum_core.div(n) }
}

/// The figures on each type that has memories.
fn stats_by_type(all: &Vec<MemoryRecord>, strengths: &Vec<Binary64>) -> (r: Vec<(String, TypeStats)>)
    requires
        strengths@.len() == all@.len(),
    ensures
        named_types(r@) == by_type(
            crate::memory::weighed(crate::types::records(all@), strengths@),
        ),
{
    let ghost s = crate::memory::weighed(crate::types::records(all@), strengths@);
    let types: [MemoryType; 7] = [
        MemoryType::Factual,
        MemoryType::Episodic,
        MemoryType::Relational,
        MemoryType::Emotional,
        MemoryType::Procedural,
        MemoryType::Opinion,
        MemoryType::Causal,
    ];
    assert(types@ =~= all_types());
    let ghost keep = |t: MemoryType| of_type(s, t).len() > 0;
    let ghost figure = |t: MemoryType| (t.name(), type_figures(of_type(s, t)));
    let mut r: Vec<(String, TypeStats)> = Vec::new();
    let mut i: usize = 0;
    assert(types@.take(0).filter(keep) =~= Seq::<MemoryType>::empty()) by {
        reveal(Seq::filter);
    }
    assert(named_types(r@) =~= types@.take(0).filter(keep).map_values(figure));
    while i < 7
        invariant
            i <= 7,
            types@.len() == 7,
            strengths@.len() == all@.len(),
            s == crate::memory::weighed(crate::types::records(all@), strengths@),
            keep == (|t: MemoryType| of_type(s, t).len() > 0),
            figure == (|t: MemoryType| (t.name(), type_figures(of_type(s, t)))),
            named_types(r@) == types@.take(i as int).filter(keep).map_values(figure),
        decreases 7 - i,
    {
        let ghost before = r@;
        let ghost kept = types@.take(i as int).filter(keep);
        let t = types[i];
        assert(types@.take(i + 1).drop_last() == types@.take(i as int));
        assert(types@.take(i + 1).last() == t);
        assert(types@.take(i + 1).filter(keep) == if keep(t) {
            kept.push(t)
        } else {
            kept
        }) by {
            reveal(Seq::filter);
        }
        let x = stats_of_type(all, strengths, t);
        if x.count > 0 {
            r.push((t.to_string(), x));
            assert(named_types(r@) =~= named_types(before).push(figure(t)));
            assert(kept.push(t).map_values(figure) =~= kept.map_values(figure).push(figure(t)));
        }
        i = i + 1;
    }
    assert(types@.take(7) == types@);
    r
}

/// The figures on each layer that has memories.
fn stats_by_layer(all: &Vec<MemoryRecord>) -> (r: Vec<(String, LayerStats)>)
    ensures
        named_layers(r@) == by_layer(crate::types::records(all@)),
{
    let ghost s = crate::types::records(all@);
    let layers: [MemoryLayer; 3] = [
        MemoryLayer::Core,
        MemoryLayer::Working,
        MemoryLayer::Archive,
    ];
    assert(layers@ =~= all_layers());
    let ghost keep = |l: MemoryLayer| of_layer(s, l).len() > 0;
    let ghost figure = |l: MemoryLayer| (l.name(), layer_figures(of_layer(s, l)));
    let mut r: Vec<(String, LayerStats)> = Vec::new();
    let mut i: usize = 0;
    assert(layers@.take(0).filter(keep) =~= Seq::<MemoryLayer>::empty()) by {
        reveal(Seq::filter);
    }
    assert(named_layers(r@) =~= layers@.take(0).filter(keep).map_values(figure));
    while i < 3
        invariant
            i <= 3,
            layers@.len() == 3,
            s == crate::types::records(all@),
            keep == (|l: MemoryLayer| of_layer(s, l).len() > 0),
            figure == (|l: MemoryLayer| (l.name(), layer_figures(of_layer(s, l)))),
            named_layers(r@) == layers@.take(i as int).filter(keep).map_values(figure),
        decreases 3 - i,
    {
        let ghost before = r@;
        let ghost kept = layers@.take(i as int).filter(keep);
        let l = layers[i];
        assert(layers@.take(i + 1).drop_last() == layers@.take(i as int));
        assert(layers@.take(i + 1).last() == l);
        assert(layers@.take(i + 1).filter(keep) == if keep(l) {
            kept.push(l)
        } else {
            kept
        }) by {
            reveal(Seq::filter);
        }
        let x = stats_of_layer(all, l);
        if x.count > 0 {
            r.push((l.to_string(), x));
            assert(named_layers(r@) =~= named_layers(before).push(figure(l)));
            assert(kept.push(l).map_values(figure) =~= kept.map_values(figure).push(figure(l)));
        }
        i = i + 1;
    }
    assert(layers@.take(3) == layers@);
    r
}

fn count_pinned(all: &Vec<MemoryRecord>) -> (n: usize)
    ensures
        n == crate::types::records(all@).filter(|r: RecordView| r.pinned).len(),
{
    let ghost s = crate::types::records(all@);
    let ghost keep = |r: RecordView| r.pinned;
    let mut n: usize = 0;
    let mut i: usize = 0;
    assert(s.take(0).filter(keep).len() == 0) by {
        reveal(Seq::filter);
    }
    while i < all.len()
        invariant
            i <= all@.len(),
            n <= i,
            s == crate::types::records(all@),
            keep == (|r: RecordView| r.pinned),
            n == s.take(i as int).filter(keep).len(),
        decreases all@.len() - i,
    {
        assert(s.take(i + 1).drop_last() == s.take(i as int));
        assert(s.take(i + 1).last() == all@[i as int]@);
        assert(s.take(i + 1).filter(keep).len() == n + if all@[i as int].pinned {
            1int
        } else {
            0
        }) by {
            reveal(Seq::filter);
        }
        if all[i].pinned {
            n = n + 1;
        }
        i = i + 1;
    }
    assert(s.take(all@.len() as int) == s);
    n
}

fn seconds_between(from: Timestamp, to: Timestamp) -> (r: i128)
    ensures
        r == whole_seconds(from, to),
        -0x40000000000000000 <= r <= 0x40000000000000000,
{
    let a: i128 = from.secs as i128 * 1_000_000_000 + from.nanos as i128;
    let b: i128 = to.secs as i128 * 1_000_000_000 + to.nanos as i128;
    if b >= a {
        (((b - a) as u128) / 1_000_000_000) as i128
    } else {
        0 - (((a - b) as u128) / 1_000_000_000) as i128
    }
}

impl Memory {
    /// Figures on the memories at a moment, given the strength of each at that
    /// moment.
    pub fn stats_at(&self, strengths: &Vec<Binary64>, at: Timestamp) -> (r: MemoryStats)
        requires
            self.wf(),
            strengths@.len() == self@.store.memories.len(),
            at.nanos < 1_000_000_000,
        ensures
            r@ == figures(self@, strengths@, at),
    {
        let all = self.storage().all();
        let s = seconds_between(self.created_at(), at);
        let r = MemoryStats {
            total_memories: all.len(),
            by_type: stats_by_type(&all, strengths),
            by_layer: stats_by_layer(&all),
            pinned: count_pinned(&all),
            uptime_hours: Binary64::from_int(s).div(Binary64 { bits: SECONDS_PER_HOUR }),
        };
        assert(crate::types::records(all@).len() == all@.len());
        r
    }

    /// Figures on the memories, given the strength of each.
    pub fn stats(&self, strengths: &Vec<Binary64>) -> (r: MemoryStats)
        requires
            self.wf(),
            strengths@.len() == self@.store.memories.len(),
        ensures
            exists|at: Timestamp|
                crate::host::is_clock_time(at) && r@ == #[trigger] figures(
                    self@,
                    strengths@,
                    at,
                ),
    {
        let at = now();
        self.stats_at(strengths, at)
    }
}

} // verus!
