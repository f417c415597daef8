//! What feedback does: which memories it reaches, and how it changes them.

use vstd::prelude::*;
use vstd::arithmetic::power2::*;
use crate::binary::Binary64;
use crate::datum::Datum;
use crate::memory::MemoryView;
use crate::ranking::Rank;
use crate::types::RecordView;

verus! {

// --- Numbers ---

/// The order of the factors makes no difference to a product.
pub proof fn times_commutes(x: Binary64, y: Binary64)
    ensures
        x.times(y) == y.times(x),
{
    let f = crate::binary::binary64();
    let a = f.mant(x.datum().mag as nat);
    let b = f.mant(y.datum().mag as nat);
    assert(a * b == b * a) by (nonlinear_arith);
}

/// A product with a number from -1 to 1 is no greater in size than the other
/// factor, and as great in size where that number is 1 or -1.
pub proof fn times_a_share(x: Binary64, y: Binary64)
    requires
        crate::rounding::finite(x),
        y.datum().mag <= crate::numbers::ONE,
    ensures
        x.times(y).datum().neg == (x.datum().neg != y.datum().neg),
        x.times(y).datum().mag <= x.datum().mag,
        y.datum().mag == crate::numbers::ONE ==> x.times(y).datum().mag == x.datum().mag,
{
    let f = crate::binary::binary64();
    crate::format::lemma_inf(f);
    crate::format::lemma_bound_120();
    lemma2_to64();
    lemma2_to64_rest();
    let one: nat = crate::numbers::ONE as nat;
    let a = x.datum().mag as nat;
    let b = y.datum().mag as nat;
    let w = pow2(52);
    assert(one == 1023 * w);
    vstd::arithmetic::div_mod::lemma_fundamental_div_mod_converse(one as int, w as int, 1023, 0);
    assert(f.mant(one) == w);
    assert(f.shift(one) == 1022);
    crate::rounding::lemma_bits_order(f, b, one);
    let ma = f.mant(a);
    let mb = f.mant(b);
    let ea = f.shift(a);
    let eb = f.shift(b);
    let j = (1022 - eb) as nat;
    lemma_pow2_pos(eb);
    lemma_pow2_adds(eb, j);
    assert(mb <= w * pow2(j)) by (nonlinear_arith)
        requires
            mb * pow2(eb) <= w * pow2(1022),
            pow2(eb) * pow2(j) == pow2(1022),
            pow2(eb) > 0,
    ;
    lemma_pow2_adds(52, j);
    let e = ea + eb - 1074;
    assert(ma * mb <= ma * pow2(52 + j)) by (nonlinear_arith)
        requires
            mb <= w * pow2(j),
            w * pow2(j) == pow2(52 + j),
    ;
    crate::rounding::round_is_monotone(f, ma * mb, ma * pow2(52 + j), 1, e);
    crate::rounding::lemma_round_shifted(f, ma, e, 52 + j);
    crate::rounding::round_of_number(f, a);
    if b == one {
        assert(j == 0);
        assert(ma * mb == ma * pow2(52 + j));
    }
}

/// To take a number off one that is not less leaves a number that is not
/// negative and not greater.
pub proof fn difference_is_between(x: Binary64, y: Binary64)
    requires
        crate::rounding::finite(x),
        !x.datum().neg,
        y.datum().neg,
        y.datum().mag <= x.datum().mag,
    ensures
        !x.plus(y).datum().neg,
        x.plus(y).datum().mag <= x.datum().mag,
{
    let f = crate::binary::binary64();
    crate::format::lemma_inf(f);
    crate::format::lemma_bound_120();
    let a = x.datum();
    let b = y.datum();
    let lo = crate::datum::min_exponent(f, a, b);
    let i = (a.exponent(f) - lo) as nat;
    let j = (b.exponent(f) - lo) as nat;
    let ma = f.mant(a.mag as nat);
    let mb = f.mant(b.mag as nat);
    let sum = crate::datum::exact_sum(f, a, b);
    assert((-(mb as int)) * pow2(j) == -((mb * pow2(j)) as int)) by (nonlinear_arith);
    assert(sum == ma * pow2(i) - mb * pow2(j));
    lemma_pow2_pos(lo);
    lemma_pow2_adds(i, lo);
    lemma_pow2_adds(j, lo);
    crate::rounding::lemma_bits_order(f, b.mag as nat, a.mag as nat);
    assert(ma * pow2(i) >= mb * pow2(j)) by (nonlinear_arith)
        requires
            mb * pow2(b.exponent(f)) <= ma * pow2(a.exponent(f)),
            pow2(i) * pow2(lo) == pow2(a.exponent(f)),
            pow2(j) * pow2(lo) == pow2(b.exponent(f)),
            pow2(lo) > 0,
    ;
    crate::rounding::taking_off_does_not_increase(x, y);
    assert(crate::format::round(f, crate::datum::abs(sum), 1, lo as int) <= f.inf());
}

/// To add a number that is not negative makes no number less.
pub proof fn adding_never_lessens(x: Binary64, y: Binary64)
    requires
        crate::rounding::finite(x),
        !y.is_nan(),
        !y.datum().neg,
    ensures
        x.plus(y).at_least(x),
{
    let f = crate::binary::binary64();
    crate::format::lemma_inf(f);
    crate::format::lemma_bound_120();
    let a = x.datum();
    let b = y.datum();
    if !a.neg {
        crate::rounding::adding_does_not_lessen(x, y);
    } else if crate::rounding::finite(y) {
        let lo = crate::datum::min_exponent(f, a, b);
        let i = (a.exponent(f) - lo) as nat;
        let j = (b.exponent(f) - lo) as nat;
        let p = f.mant(a.mag as nat) * pow2(i);
        let q = f.mant(b.mag as nat) * pow2(j);
        let sum = crate::datum::exact_sum(f, a, b);
        assert((-(f.mant(a.mag as nat) as int)) * pow2(i) == -(p as int)) by (nonlinear_arith)
            requires
                p == f.mant(a.mag as nat) * pow2(i),
        ;
        assert(sum == q - p);
        if sum < 0 {
            crate::rounding::lemma_round_shifted(f, f.mant(a.mag as nat), lo as int, i);
            crate::rounding::round_of_number(f, a.mag as nat);
            crate::rounding::round_is_monotone(f, (p - q) as nat, p, 1, lo as int);
        } else if sum > 0 {
            assert(crate::format::round(f, (q - p) as nat, 1, lo as int) <= f.inf());
        }
    }
}

// --- Strengths ---

/// Blame weakens: of a strength that is not negative, feedback of a polarity
/// from -1 to below 0 leaves the part 1 + polarity / 10, which is not more than
/// there was and not below 0.
pub proof fn blame_weakens(strength: Binary64, polarity: Binary64, magnitude: Binary64)
    requires
        crate::rounding::finite(strength),
        !strength.datum().neg,
        polarity.below(Binary64::of_int(0)),
        polarity.at_least(Binary64::of_int(-1)),
    ensures
        ({
            let after = crate::memory::rewarded_strength(strength, polarity, magnitude);
            let tenth = crate::number_laws::fraction(1, 10);
            &&& after == strength.times(Binary64::of_int(1).plus(polarity.times(tenth)))
            &&& strength.at_least(after)
            &&& after.at_least(Binary64::of_int(0))
        }),
{
    let f = crate::binary::binary64();
    crate::format::lemma_inf(f);
    crate::format::lemma_bound_120();
    crate::number_laws::integers_are_what_they_say();
    crate::number_laws::fractions_are_what_they_say();
    lemma_minus_one();
    let one = Binary64 { bits: crate::numbers::ONE };
    let tenth = Binary64 { bits: crate::numbers::TENTH };
    times_commutes(polarity, tenth);
    times_a_share(tenth, polarity);
    let part = polarity.times(tenth);
    difference_is_between(one, part);
    times_a_share(strength, one.plus(part));
}

proof fn lemma_minus_one()
    ensures
        Binary64::of_int(-1) == (Binary64 { bits: crate::numbers::MINUS_ONE }),
{
    lemma2_to64();
    lemma2_to64_rest();
    crate::format::lemma_bound_120();
    crate::format::lemma_inf(crate::binary::binary64());
    crate::exact::lemma_int_magnitude(1, 1);
}

/// Praise strengthens: it adds the magnitude times the polarity, up to 2, and so
/// lowers no strength that is at most 2.
pub proof fn praise_strengthens(strength: Binary64, polarity: Binary64, magnitude: Binary64)
    requires
        crate::rounding::finite(strength),
        Binary64::of_int(2).at_least(strength),
        crate::rounding::finite(polarity),
        Binary64::of_int(0).below(polarity),
        crate::rounding::finite(magnitude),
        !magnitude.datum().neg,
    ensures
        ({
            let after = crate::memory::rewarded_strength(strength, polarity, magnitude);
            let more = strength.plus(magnitude.times(polarity));
            &&& after.at_least(strength)
            &&& Binary64::of_int(2).at_least(after)
            &&& Binary64::of_int(2).at_least(more) ==> after == more
            &&& more.at_least(Binary64::of_int(2)) ==> after.at_least(Binary64::of_int(2))
            &&& polarity == Binary64::of_int(1) ==> more == strength.plus(magnitude)
        }),
{
    let f = crate::binary::binary64();
    crate::format::lemma_inf(f);
    crate::format::lemma_bound_120();
    crate::number_laws::integers_are_what_they_say();
    let a = magnitude.datum();
    let b = polarity.datum();
    let gain = magnitude.times(polarity);
    assert(crate::format::round(
        f,
        f.mant(a.mag as nat) * f.mant(b.mag as nat),
        1,
        a.exponent(f) + b.exponent(f) - f.scale(),
    ) <= f.inf());
    assert(!gain.is_nan() && !gain.datum().neg);
    adding_never_lessens(strength, gain);
    if polarity == Binary64::of_int(1) {
        times_a_share(magnitude, polarity);
        assert(gain == magnitude);
    }
}

// --- The memories that feedback reaches ---

/// Whether a memory has been accessed.
pub open spec fn was_accessed(r: RecordView) -> bool {
    r.access_times.len() > 0
}

/// Whether the last access of `a` was not after that of `b`.
pub open spec fn accessed_no_later(a: RecordView, b: RecordView) -> bool {
    a.access_times.last().not_after(b.access_times.last())
}

spec fn access_ranks(s: Seq<RecordView>) -> Seq<Rank> {
    Seq::new(
        s.len(),
        |i: int|
            Rank {
                at: i,
                score: if s[i].access_times.len() > 0 {
                    crate::memory::moment(s[i].access_times.last())
                } else {
                    0
                },
            },
    )
}

proof fn lemma_access_count(s: Seq<RecordView>, n: nat)
    requires
        n <= s.len(),
    ensures
        access_ranks(s).take(n as int).filter(
            |x: Rank| s[x.at].access_times.len() > 0,
        ).len() == s.take(n as int).filter(|r: RecordView| was_accessed(r)).len(),
    decreases n,
{
    reveal(Seq::filter);
    if n > 0 {
        lemma_access_count(s, (n - 1) as nat);
        let a = access_ranks(s);
        assert(a.take(n as int).drop_last() =~= a.take(n - 1));
        assert(s.take(n as int).drop_last() =~= s.take(n - 1));
        assert(a.take(n as int).last() == a[n - 1]);
        assert(s.take(n as int).last() == s[n - 1]);
    }
}

/// Feedback reaches the last accessed memories: as many as asked for, or all that
/// were accessed where these are fewer; the latest first; and none is left out
/// that was accessed later than one of them.
pub proof fn feedback_reaches_the_latest(s: Seq<RecordView>, n: nat)
    requires
        crate::store::unique_ids(s),
    ensures
        ({
            let r = crate::memory::recent(s, n);
            let accessed = s.filter(|x: RecordView| was_accessed(x)).len();
            &&& r.len() == if n < accessed {
                n
            } else {
                accessed
            }
            &&& crate::store::unique_ids(r)
            &&& forall|k: int|
                0 <= k < r.len() ==> s.contains(#[trigger] r[k]) && was_accessed(r[k])
            &&& forall|j: int, k: int|
                0 <= j < k < r.len() ==> accessed_no_later(#[trigger] r[k], #[trigger] r[j])
            &&& forall|i: int, k: int|
                0 <= i < s.len() && was_accessed(#[trigger] s[i]) && !r.contains(s[i]) && 0 <= k
                    < r.len() ==> accessed_no_later(s[i], #[trigger] r[k])
        }),
{
    broadcast use vstd::seq_lib::group_filter_ensures;

    let all = access_ranks(s);
    let keep = |x: Rank| s[x.at].access_times.len() > 0;
    let f = all.filter(keep);
    assert(f == crate::memory::accesses(s));
    lemma_access_count(s, s.len());
    assert(all.take(s.len() as int) =~= all);
    assert(s.take(s.len() as int) =~= s);
    crate::store_laws::lemma_filter_ascending(all, keep);
    crate::ranking::ranked_is_sorted(f);
    crate::ranking::ranked_is_permutation(f);
    let q = crate::ranking::ranked(f);
    let best = crate::ranking::first(q, n);
    let r = crate::memory::recent(s, n);
    assert forall|k: int| 0 <= k < q.len() implies 0 <= (#[trigger] q[k]).at < s.len()
        && was_accessed(s[q[k].at]) && q[k].score == crate::memory::moment(
        s[q[k].at].access_times.last(),
    ) by {
        assert(q.contains(q[k]));
        assert(f.contains(q[k]));
        all.lemma_filter_contains_rev(keep, q[k]);
        let j = choose|j: int| 0 <= j < f.len() && f[j] == q[k];
        assert(keep(f[j]));
        let i = choose|i: int| 0 <= i < all.len() && all[i] == q[k];
        assert(all[i].at == i);
    }
    assert forall|k: int| 0 <= k < r.len() implies r[k] == s[q[k].at] by {
        assert(best[k] == q[k]);
    }
    assert forall|k: int| 0 <= k < r.len() implies s.contains(#[trigger] r[k]) && was_accessed(
        r[k],
    ) by {
        assert(r[k] == s[q[k].at]);
        assert(was_accessed(s[q[k].at]));
    }
    assert forall|j: int, k: int| 0 <= j < k < r.len() implies accessed_no_later(
        #[trigger] r[k],
        #[trigger] r[j],
    ) by {
        assert(q[j].score >= q[k].score);
        assert(r[k] == s[q[k].at] && r[j] == s[q[j].at]);
    }
    assert forall|j: int, k: int| 0 <= j < k < r.len() implies (#[trigger] r[j]).id != (
    #[trigger] r[k]).id by {
        assert(r[k] == s[q[k].at] && r[j] == s[q[j].at]);
        assert(q[j].score == q[k].score ==> q[j].at < q[k].at);
        assert(q[j].at != q[k].at);
        if q[j].at < q[k].at {
            assert(s[q[j].at].id != s[q[k].at].id);
        } else {
            assert(s[q[k].at].id != s[q[j].at].id);
        }
    }
    assert forall|i: int, k: int|
        0 <= i < s.len() && was_accessed(#[trigger] s[i]) && !r.contains(s[i]) && 0 <= k
            < r.len() implies accessed_no_later(s[i], #[trigger] r[k]) by {
        assert(keep(all[i]));
        assert(f.contains(all[i]));
        assert(q.contains(all[i]));
        let p = choose|p: int| 0 <= p < q.len() && q[p] == all[i];
        if p < r.len() {
            assert(r[p] == s[i]);
        }
        assert(q[k].score >= q[p].score);
        assert(r[k] == s[q[k].at]);
    }
}

/// Feedback changes the working strength of each memory that it reaches, by its
/// polarity and the magnitude set, and nothing else of any memory; feedback that
/// neither praises nor blames changes nothing.
pub proof fn feedback_changes_the_latest(
    m: MemoryView,
    polarity: Binary64,
    recent_n: nat,
    id: Seq<char>,
)
    requires
        m.store.wf(),
    ensures
        ({
            let after = crate::memory::after_reward(m, polarity, recent_n);
            let r = crate::memory::recent(m.store.memories, recent_n);
            let old_record = crate::store::lookup(m.store.memories, id);
            let new_record = crate::store::lookup(after.store.memories, id);
            &&& polarity.datum().mag == 0 ==> after == m
            &&& after.store.links == m.store.links
            &&& after.store.path == m.store.path
            &&& after.config == m.config
            &&& after.retrieval_config == m.retrieval_config
            &&& after.created_at == m.created_at
            &&& !crate::store::has_id(r, id) ==> new_record == old_record
            &&& polarity.datum().mag != 0 && crate::store::has_id(r, id) ==> {
                &&& old_record matches Some(x)
                &&& new_record == Some(
                    RecordView {
                        working_strength: crate::memory::rewarded_strength(
                            x.working_strength,
                            polarity,
                            m.config.reward_magnitude,
                        ),
                        ..x
                    },
                )
            }
        }),
{
    if polarity.datum().mag != 0 {
        let s = m.store.memories;
        let r = crate::memory::recent(s, recent_n);
        feedback_reaches_the_latest(s, recent_n);
        let change = |x: RecordView|
            crate::memory::rewarded(x, polarity, m.config.reward_magnitude);
        let new = r.map_values(change);
        assert forall|i: int, j: int| 0 <= i < j < new.len() implies (#[trigger] new[i]).id != (
        #[trigger] new[j]).id by {
            assert(r[i].id != r[j].id);
        }
        crate::store_laws::get_after_updates(m.store, new, id);
        if crate::store::has_id(r, id) {
            let p = crate::store::place(r, id);
            assert(crate::store::id_at(r, p, id));
            assert(crate::store::id_at(new, p, id));
            crate::store::lemma_place_unique(new, p, id);
            assert(s.contains(r[p]));
            let q = choose|q: int| 0 <= q < s.len() && s[q] == r[p];
            assert(crate::store::id_at(s, q, id));
            crate::store::lemma_place_unique(s, q, id);
        } else if crate::store::has_id(new, id) {
            let p = crate::store::place(new, id);
            assert(crate::store::id_at(new, p, id));
            assert(crate::store::id_at(r, p, id));
        }
    }
}

/// Feedback is counted once for each memory that it reaches, as praise or as
/// blame, as far as counts reach; nothing else is counted.
pub proof fn feedback_is_counted(
    m: MemoryView,
    polarity: Binary64,
    recent_n: nat,
    id: Seq<char>,
)
    requires
        m.store.wf(),
        crate::meta::unique_tallies(m.meta),
        !polarity.is_nan(),
        polarity.datum().mag != 0,
    ensures
        ({
            let old_tally = crate::meta::tally_of(m.meta, id);
            let tally = crate::meta::tally_of(
                crate::memory::after_reward(m, polarity, recent_n).meta,
                id,
            );
            let reached = crate::store::has_id(
                crate::memory::recent(m.store.memories, recent_n),
                id,
            );
            let praise = Binary64::of_int(0).below(polarity);
            &&& tally.retrieved == old_tally.retrieved
            &&& tally.positive == if reached && praise && old_tally.positive < u64::MAX {
                old_tally.positive + 1
            } else {
                old_tally.positive as int
            }
            &&& tally.negative == if reached && !praise && old_tally.negative < u64::MAX {
                old_tally.negative + 1
            } else {
                old_tally.negative as int
            }
        }),
{
    crate::number_laws::integers_are_what_they_say();
    let r = crate::memory::recent(m.store.memories, recent_n);
    feedback_reaches_the_latest(m.store.memories, recent_n);
    let ids = crate::memory::ids_of(r);
    assert(ids.no_duplicates()) by {
        assert forall|i: int, j: int| 0 <= i < ids.len() && 0 <= j < ids.len() && i
            != j implies ids[i] != ids[j] by {
            if i < j {
                assert(r[i].id != r[j].id);
            } else {
                assert(r[j].id != r[i].id);
            }
        }
    }
    crate::memory_laws::outcomes_are_counted_once(
        m.meta,
        ids,
        crate::memory::verdict(polarity),
        id,
    );
    if crate::store::has_id(r, id) {
        let p = crate::store::place(r, id);
        assert(crate::store::id_at(r, p, id));
        assert(ids[p] == id);
    }
    if ids.contains(id) {
        let p = choose|p: int| 0 <= p < ids.len() && ids[p] == id;
        assert(crate::store::id_at(r, p, id));
    }
}

} // verus!
