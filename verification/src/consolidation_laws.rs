//! What a consolidation does to links and to the importance of memories.

use vstd::prelude::*;
use crate::binary::Binary64;
use crate::links::LinkView;
use crate::memory::MemoryView;
use crate::meta::Tally;
use crate::store::StoreView;
use crate::types::RecordView;

verus! {

// --- Links ---

/// What decay leaves of a weight.
spec fn remnant(weight: Option<Binary64>, factor: Binary64) -> Option<Binary64> {
    match weight {
        Some(w) => if crate::links::lasting(crate::links::faded(w, factor)) {
            Some(crate::links::faded(w, factor))
        } else {
            None
        },
        None => None,
    }
}

proof fn lemma_weight_after_decay(s: Seq<LinkView>, factor: Binary64, a: Seq<char>, b: Seq<char>)
    requires
        crate::links::unique_pairs(s),
    ensures
        crate::links::weight_of(crate::links::after_decay(s, factor), a, b) == remnant(
            crate::links::weight_of(s, a, b),
            factor,
        ),
{
    broadcast use vstd::seq_lib::group_filter_ensures;

    let keep = |l: LinkView| crate::links::lasting(l.weight);
    let faint = s.map_values(|l: LinkView| crate::links::fade(l, factor));
    let t = faint.filter(keep);
    crate::links::lemma_decay_unique(s, factor);
    if crate::links::has_link(t, a, b) {
        let k = crate::links::link_place(t, a, b);
        assert(crate::links::link_at(t, k, a, b));
        assert(keep(t[k]));
        assert(t.contains(t[k]));
        faint.lemma_filter_contains_rev(keep, t[k]);
        let p = choose|p: int| 0 <= p < faint.len() && faint[p] == t[k];
        assert(crate::links::link_at(s, p, a, b));
        crate::links::lemma_place_unique(s, p, a, b);
    }
    if crate::links::has_link(s, a, b) {
        let p = crate::links::link_place(s, a, b);
        assert(crate::links::link_at(s, p, a, b));
        if keep(faint[p]) {
            assert(t.contains(faint[p]));
            let k = choose|k: int| 0 <= k < t.len() && t[k] == faint[p];
            assert(crate::links::link_at(t, k, a, b));
            crate::links::lemma_place_unique(t, k, a, b);
        }
    }
}

/// Whether a weight stands for joint recalls that are still being counted.
pub open spec fn is_count(w: Binary64) -> bool {
    w.below(Binary64::of_int(0))
}

/// Decay by a factor that is not negative multiplies the strength of each link
/// by it. A link that is then weaker than 0.1 is gone; counts of joint recalls
/// stay, and no pair gets a weight that had none.
pub proof fn decay_weakens_links(s: Seq<LinkView>, factor: Binary64, a: Seq<char>, b: Seq<char>)
    requires
        crate::links::unique_pairs(s),
        !factor.datum().neg,
    ensures
        ({
            let after = crate::links::weight_of(crate::links::after_decay(s, factor), a, b);
            let tenth = crate::number_laws::fraction(1, 10);
            match crate::links::weight_of(s, a, b) {
                Some(w) => {
                    &&& Binary64::of_int(0).below(w) ==> after == if w.times(factor).at_least(
                        tenth,
                    ) {
                        Some(w.times(factor))
                    } else {
                        None
                    }
                    &&& is_count(w) ==> after == Some(w)
                },
                None => after is None,
            }
        }),
{
    crate::number_laws::integers_are_what_they_say();
    crate::number_laws::fractions_are_what_they_say();
    lemma_weight_after_decay(s, factor, a, b);
    if let Some(w) = crate::links::weight_of(s, a, b) {
        if Binary64::of_int(0).below(w) {
            lemma_product_not_below_zero(w, factor);
        }
    }
}

proof fn lemma_product_not_below_zero(w: Binary64, factor: Binary64)
    requires
        (Binary64 { bits: 0 }).below(w),
        !factor.datum().neg,
    ensures
        !w.times(factor).below(Binary64 { bits: 0 }),
{
    let f = crate::binary::binary64();
    crate::format::lemma_bound_120();
    crate::format::lemma_inf(f);
    vstd::arithmetic::power2::lemma2_to64();
    vstd::arithmetic::power2::lemma2_to64_rest();
    let x = w.datum();
    let y = factor.datum();
    let p = crate::datum::product(f, x, y);
    let mag = crate::format::round(
        f,
        f.mant(x.mag as nat) * f.mant(y.mag as nat),
        1,
        x.exponent(f) + y.exponent(f) - f.scale(),
    );
    assert(mag <= f.inf());
    assert(!x.neg && !p.neg);
    assert(p.mag < 0x8000000000000000) by {
        assert(crate::datum::quiet_nan(f).mag < 0x8000000000000000);
        assert(f.inf() < 0x8000000000000000);
    }
    assert(!w.times(factor).datum().neg);
    assert(w.times(factor).datum().rank() >= 0);
}

// --- A whole consolidation ---

proof fn lemma_updates_keep(st: StoreView, new: Seq<RecordView>)
    requires
        st.wf(),
    ensures
        st.with_updates(new).wf(),
        st.with_updates(new).links == st.links,
        st.with_updates(new).path == st.path,
    decreases new.len(),
{
    if new.len() > 0 {
        lemma_updates_keep(st, new.drop_last());
        crate::store::put_keeps_wf(st.with_updates(new.drop_last()), new.last());
    }
}

proof fn lemma_decayed_wf(st: StoreView, config: crate::types::MemoryConfig)
    requires
        st.wf(),
    ensures
        crate::memory::decayed(st, config).wf(),
{
    crate::links::lemma_decay_unique(st.links, config.hebbian_decay);
}

/// A consolidation weakens each link by the decay that is set: the strength is
/// multiplied by it, and a link that is then weaker than 0.1 is gone. Counts of
/// joint recalls stay; where links are disabled, all weights stay.
pub proof fn consolidation_weakens_links(
    m: MemoryView,
    rewritten: Seq<RecordView>,
    a: Seq<char>,
    b: Seq<char>,
)
    requires
        m.store.wf(),
        crate::meta::unique_tallies(m.meta),
        !m.config.hebbian_decay.datum().neg,
    ensures
        ({
            let links = crate::memory::consolidated(m, rewritten).store.links;
            let after = crate::links::weight_of(links, a, b);
            let tenth = crate::number_laws::fraction(1, 10);
            let decay = m.config.hebbian_decay;
            &&& !m.config.hebbian_enabled ==> links == m.store.links
            &&& m.config.hebbian_enabled ==> match crate::links::weight_of(m.store.links, a, b) {
                Some(w) => {
                    &&& Binary64::of_int(0).below(w) ==> after == if w.times(decay).at_least(
                        tenth,
                    ) {
                        Some(w.times(decay))
                    } else {
                        None
                    }
                    &&& is_count(w) ==> after == Some(w)
                },
                None => after is None,
            }
        }),
{
    lemma_updates_keep(m.store, rewritten);
    let st = m.store.with_updates(rewritten);
    lemma_decayed_wf(st, m.config);
    crate::memory_laws::learning_adjusts_importance(
        crate::memory::decayed(st, m.config),
        m.meta,
        m.meta.len(),
        a,
    );
    decay_weakens_links(m.store.links, m.config.hebbian_decay, a, b);
}

/// What feedback teaches of the importance of a memory that was praised and
/// blamed so many times: the share of praise less a half, times 0.05.
pub open spec fn teaching(praise: int, blame: int) -> Binary64 {
    crate::number_laws::fraction(praise, praise + blame).minus(
        crate::number_laws::fraction(1, 2),
    ).times(crate::number_laws::fraction(1, 20))
}

/// Whether `after` is the importance that feedback makes of `before`: the two are
/// equal where the memory was recalled less than twice or had no feedback; else
/// `after` is `before` and what the feedback teaches, but not below 0.05 and not
/// above 1.
pub open spec fn is_learnt(t: Tally, before: Binary64, after: Binary64) -> bool {
    let low = crate::number_laws::fraction(1, 20);
    let high = Binary64::of_int(1);
    let sum = before.plus(teaching(t.positive as int, t.negative as int));
    if t.retrieved < 2 || (t.positive == 0 && t.negative == 0) {
        after == before
    } else {
        &&& sum.below(low) ==> after == low
        &&& high.below(sum) ==> after == high
        &&& !sum.below(low) && !high.below(sum) ==> after == sum
    }
}

proof fn lemma_is_learnt(t: Tally, before: Binary64)
    ensures
        match t.lesson() {
            Some(by) => is_learnt(t, before, crate::meta::adjusted(before, by)),
            None => is_learnt(t, before, before),
        },
{
    crate::format::lemma_bound_120();
    crate::format::lemma_inf(crate::binary::binary64());
    crate::number_laws::integers_are_what_they_say();
    crate::number_laws::fractions_are_what_they_say();
}

/// After a consolidation each memory is as the consolidation cycle left it, or as
/// it was where the cycle left it alone, but for its importance, which has
/// learnt from the feedback on the memory.
pub proof fn consolidation_keeps_and_learns(
    m: MemoryView,
    rewritten: Seq<RecordView>,
    id: Seq<char>,
)
    requires
        m.store.wf(),
        crate::meta::unique_tallies(m.meta),
        crate::store::unique_ids(rewritten),
    ensures
        ({
            let after = crate::memory::consolidated(m, rewritten);
            let base = if crate::store::has_id(rewritten, id) {
                crate::store::lookup(rewritten, id)
            } else {
                crate::store::lookup(m.store.memories, id)
            };
            &&& after.meta == m.meta
            &&& after.config == m.config
            &&& after.retrieval_config == m.retrieval_config
            &&& after.created_at == m.created_at
            &&& match (base, crate::store::lookup(after.store.memories, id)) {
                (Some(r), Some(x)) => {
                    &&& x == (RecordView { importance: x.importance, ..r })
                    &&& is_learnt(crate::meta::tally_of(m.meta, id), r.importance, x.importance)
                },
                (None, None) => true,
                _ => false,
            }
        }),
{
    crate::store_laws::get_after_updates(m.store, rewritten, id);
    let st = m.store.with_updates(rewritten);
    lemma_decayed_wf(st, m.config);
    let d = crate::memory::decayed(st, m.config);
    crate::memory_laws::learning_adjusts_importance(d, m.meta, m.meta.len(), id);
    assert(m.meta.take(m.meta.len() as int) == m.meta);
    if let Some(r) = crate::store::lookup(st.memories, id) {
        lemma_is_learnt(crate::meta::tally_of(m.meta, id), r.importance);
    }
}

} // verus!
