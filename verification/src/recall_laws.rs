//! What a recall gives, and what it leaves behind: accesses, tallies and links.

use vstd::prelude::*;
use crate::binary::Binary64;
use crate::links::LinkView;
use crate::memory::{CandidateView, MemoryView, ResultView};
use crate::store::StoreView;
use crate::types::{RecordView, Timestamp};

verus! {

// --- Results ---

/// Whether a recall that asks for `min_confidence` is sure enough of a candidate.
pub open spec fn is_sure(c: CandidateView, min_confidence: Binary64) -> bool {
    crate::feedback::confidence(c.score, c.record.importance).at_least(min_confidence)
}

/// Whether `r` tells of the candidate `c`, with how sure the recall is of it.
pub open spec fn tells_of(r: ResultView, c: CandidateView) -> bool {
    &&& r.record == c.record
    &&& r.activation == c.score
    &&& r.confidence == crate::feedback::confidence(c.score, c.record.importance)
    &&& r.label == crate::feedback::label(r.confidence)
}

/// Numbers that rise.
pub open spec fn rising(s: Seq<int>) -> bool {
    forall|j: int, k: int| 0 <= j < k < s.len() ==> #[trigger] s[j] < #[trigger] s[k]
}

/// A recall leaves out no candidate that it is sure enough of and adds none: the
/// results tell of the sure ones, each once, in the order of the candidates. The
/// places at which they stand among the candidates are given.
pub proof fn recall_gives_all_that_is_sure(
    c: Seq<CandidateView>,
    min_confidence: Binary64,
) -> (places: Seq<int>)
    ensures
        places.len() == crate::memory::recall_results(c, min_confidence).len(),
        rising(places),
        forall|k: int|
            0 <= k < places.len() ==> 0 <= #[trigger] places[k] < c.len() && is_sure(
                c[places[k]],
                min_confidence,
            ) && tells_of(
                crate::memory::recall_results(c, min_confidence)[k],
                c[places[k]],
            ),
        forall|i: int|
            0 <= i < c.len() && is_sure(#[trigger] c[i], min_confidence) ==> places.contains(i),
        crate::memory::recall_results(c, min_confidence).len() == c.filter(
            |x: CandidateView| is_sure(x, min_confidence),
        ).len(),
    decreases c.len(),
{
    reveal(Seq::filter);
    let change = |x: CandidateView| crate::memory::assessed(x);
    let keep = |r: ResultView| r.confidence.at_least(min_confidence);
    let sure = |x: CandidateView| is_sure(x, min_confidence);
    if c.len() == 0 {
        assert(c.map_values(change) =~= Seq::<ResultView>::empty());
        Seq::empty()
    } else {
        let rest = c.drop_last();
        let before = recall_gives_all_that_is_sure(rest, min_confidence);
        let all = c.map_values(change);
        assert(all.drop_last() =~= rest.map_values(change));
        assert(all.last() == crate::memory::assessed(c.last()));
        let n = c.len() - 1;
        let after = if is_sure(c.last(), min_confidence) {
            before.push(n)
        } else {
            before
        };
        assert forall|k: int| 0 <= k < after.len() implies 0 <= #[trigger] after[k] < c.len()
            && is_sure(c[after[k]], min_confidence) && tells_of(
            crate::memory::recall_results(c, min_confidence)[k],
            c[after[k]],
        ) by {
            if k < before.len() {
                assert(before[k] == after[k]);
                assert(c[after[k]] == rest[before[k]]);
                assert(crate::memory::recall_results(c, min_confidence)[k]
                    == crate::memory::recall_results(rest, min_confidence)[k]);
            }
        }
        assert forall|i: int| 0 <= i < c.len() && is_sure(
            #[trigger] c[i],
            min_confidence,
        ) implies after.contains(i) by {
            if i < n {
                assert(rest[i] == c[i]);
                assert(before.contains(i));
                let k = choose|k: int| 0 <= k < before.len() && before[k] == i;
                assert(after[k] == i);
            } else {
                assert(after[before.len() as int] == i);
            }
        }
        assert forall|j: int, k: int| 0 <= j < k < after.len() implies #[trigger] after[j]
            < #[trigger] after[k] by {
            assert(after[j] == before[j]);
            if k < before.len() {
                assert(after[k] == before[k]);
            }
        }
        after
    }
}

/// Asking for less confidence loses no result: what a recall gives that asks for
/// more is among what it gives when it asks for less.
pub proof fn asking_for_less_gives_more(c: Seq<CandidateView>, more: Binary64, less: Binary64)
    requires
        more.at_least(less),
    ensures
        forall|r: ResultView| #[trigger]
            crate::memory::recall_results(c, more).contains(r) ==> crate::memory::recall_results(
                c,
                less,
            ).contains(r),
        crate::memory::recall_results(c, more).len() <= crate::memory::recall_results(
            c,
            less,
        ).len(),
    decreases c.len(),
{
    reveal(Seq::filter);
    let change = |x: CandidateView| crate::memory::assessed(x);
    let a = crate::memory::recall_results(c, more);
    let b = crate::memory::recall_results(c, less);
    if c.len() == 0 {
        assert(c.map_values(change) =~= Seq::<ResultView>::empty());
    } else {
        let rest = c.drop_last();
        asking_for_less_gives_more(rest, more, less);
        let all = c.map_values(change);
        assert(all.drop_last() =~= rest.map_values(change));
        let p = crate::memory::recall_results(rest, more);
        let q = crate::memory::recall_results(rest, less);
        assert forall|r: ResultView| #[trigger] a.contains(r) implies b.contains(r) by {
            let k = choose|k: int| 0 <= k < a.len() && a[k] == r;
            if k < p.len() {
                assert(p[k] == r);
                assert(p.contains(r));
                assert(q.contains(r));
                let j = choose|j: int| 0 <= j < q.len() && q[j] == r;
                assert(b[j] == r);
            } else {
                assert(b[q.len() as int] == r);
            }
        }
    }
}

// --- Accesses ---

/// Each of some different memories is accessed once, at its time, and no other
/// memory is; nothing else of any memory changes.
proof fn lemma_accessed_first(
    st: StoreView,
    ids: Seq<Seq<char>>,
    times: Seq<Timestamp>,
    n: nat,
    id: Seq<char>,
)
    requires
        st.wf(),
        n <= ids.len(),
        ids.no_duplicates(),
    ensures
        crate::memory::accessed_first(st, ids, times, n).wf(),
        crate::memory::accessed_first(st, ids, times, n).links == st.links,
        crate::memory::accessed_first(st, ids, times, n).index == st.index,
        crate::memory::accessed_first(st, ids, times, n).path == st.path,
        crate::memory::accessed_first(st, ids, times, n).memories.len() == st.memories.len(),
        forall|k: int|
            0 <= k < n && #[trigger] ids[k] == id ==> crate::store::lookup(
                crate::memory::accessed_first(st, ids, times, n).memories,
                id,
            ) == match crate::store::lookup(st.memories, id) {
                Some(r) => Some(
                    RecordView { access_times: r.access_times.push(times[k]), ..r },
                ),
                None => None,
            },
        (forall|k: int| 0 <= k < n ==> #[trigger] ids[k] != id) ==> crate::store::lookup(
            crate::memory::accessed_first(st, ids, times, n).memories,
            id,
        ) == crate::store::lookup(st.memories, id),
    decreases n,
{
    if n > 0 {
        let b = (n - 1) as nat;
        lemma_accessed_first(st, ids, times, b, id);
        let before = crate::memory::accessed_first(st, ids, times, b);
        crate::store::access_keeps_wf(before, ids[b as int], times[b as int]);
        crate::store_laws::get_after_access(before, ids[b as int], times[b as int], id);
        assert forall|k: int| 0 <= k < n && #[trigger] ids[k] == id implies crate::store::lookup(
            crate::memory::accessed_first(st, ids, times, n).memories,
            id,
        ) == match crate::store::lookup(st.memories, id) {
            Some(r) => Some(RecordView { access_times: r.access_times.push(times[k]), ..r }),
            None => None,
        } by {
            if k < b {
                assert(ids[k] != ids[b as int]);
            } else {
                assert forall|j: int| 0 <= j < b implies #[trigger] ids[j] != id by {
                    assert(ids[j] != ids[k]);
                }
            }
        }
    }
}

/// A recall is an access of each memory that it gives, at its time, and of no
/// other; of the memories it changes nothing else.
pub proof fn recall_accesses_its_results(
    m: MemoryView,
    ids: Seq<Seq<char>>,
    times: Seq<Timestamp>,
    id: Seq<char>,
)
    requires
        m.store.wf(),
        ids.no_duplicates(),
    ensures
        ({
            let after = crate::memory::after_recall(m, ids, times);
            &&& after.store.memories.len() == m.store.memories.len()
            &&& after.store.index == m.store.index
            &&& after.store.path == m.store.path
            &&& after.config == m.config
            &&& after.retrieval_config == m.retrieval_config
            &&& after.created_at == m.created_at
            &&& forall|k: int|
                0 <= k < ids.len() && #[trigger] ids[k] == id ==> crate::store::lookup(
                    after.store.memories,
                    id,
                ) == match crate::store::lookup(m.store.memories, id) {
                    Some(r) => Some(
                        RecordView { access_times: r.access_times.push(times[k]), ..r },
                    ),
                    None => None,
                }
            &&& !ids.contains(id) ==> crate::store::lookup(after.store.memories, id)
                == crate::store::lookup(m.store.memories, id)
        }),
{
    lemma_accessed_first(m.store, ids, times, ids.len(), id);
}

/// A recall counts one retrieval of each memory that it gives, as far as counts
/// reach, and counts nothing else.
pub proof fn recall_counts_its_results(
    m: MemoryView,
    ids: Seq<Seq<char>>,
    times: Seq<Timestamp>,
    id: Seq<char>,
)
    requires
        crate::meta::unique_tallies(m.meta),
        ids.no_duplicates(),
    ensures
        ({
            let old_tally = crate::meta::tally_of(m.meta, id);
            let tally = crate::meta::tally_of(crate::memory::after_recall(m, ids, times).meta, id);
            &&& tally.positive == old_tally.positive
            &&& tally.negative == old_tally.negative
            &&& tally.retrieved == if ids.contains(id) && old_tally.retrieved < u64::MAX {
                old_tally.retrieved + 1
            } else {
                old_tally.retrieved as int
            }
        }),
{
    crate::memory_laws::outcomes_are_counted_once(
        m.meta,
        ids,
        crate::meta::Outcome::Retrieved,
        id,
    );
}

// --- Links ---

/// Whether `(a, b)` is the pair of the memories at two different places, the
/// first of them before `n`.
pub open spec fn is_pair(ids: Seq<Seq<char>>, n: int, a: Seq<char>, b: Seq<char>) -> bool {
    exists|i: int, j: int|
        0 <= i < j < ids.len() && i < n && #[trigger] crate::links::ordered(ids[i], ids[j]) == (
            a,
            b,
        )
}

/// Whether `(a, b)` is the pair of the memory at place `i` with one after it and
/// before place `j`.
spec fn is_pair_with(ids: Seq<Seq<char>>, i: int, j: int, a: Seq<char>, b: Seq<char>) -> bool {
    exists|k: int| i < k < j && #[trigger] crate::links::ordered(ids[i], ids[k]) == (a, b)
}

/// The weight of a pair after one more joint recall.
pub open spec fn once_more(current: Option<Binary64>, threshold: i32) -> Option<Binary64> {
    Some(crate::links::coactivated(current, threshold).0)
}

proof fn lemma_same_pair(x: Seq<char>, y: Seq<char>, u: Seq<char>, v: Seq<char>)
    requires
        crate::links::ordered(x, y) == crate::links::ordered(u, v),
    ensures
        (x == u && y == v) || (x == v && y == u),
{
}

proof fn lemma_paired(
    links: Seq<LinkView>,
    ids: Seq<Seq<char>>,
    i: nat,
    j: nat,
    threshold: i32,
    a: Seq<char>,
    b: Seq<char>,
)
    requires
        crate::links::unique_pairs(links),
        ids.no_duplicates(),
        i < ids.len(),
        j <= ids.len(),
    ensures
        crate::links::unique_pairs(crate::memory::paired(links, ids, i, j, threshold)),
        crate::links::weight_of(crate::memory::paired(links, ids, i, j, threshold), a, b)
            == if is_pair_with(ids, i as int, j as int, a, b) {
            once_more(crate::links::weight_of(links, a, b), threshold)
        } else {
            crate::links::weight_of(links, a, b)
        },
    decreases j,
{
    if j > i + 1 {
        let k = (j - 1) as nat;
        lemma_paired(links, ids, i, k, threshold, a, b);
        let before = crate::memory::paired(links, ids, i, k, threshold);
        let (c, d) = crate::links::ordered(ids[i as int], ids[k as int]);
        let w = crate::links::coactivated(
            crate::links::weight_of(before, c, d),
            threshold,
        ).0;
        crate::links::lemma_set_weight_unique(before, c, d, w);
        crate::links::set_then_read(before, c, d, w, a, b);
        if (a, b) == (c, d) {
            assert(crate::links::ordered(ids[i as int], ids[k as int]) == (a, b));
            if is_pair_with(ids, i as int, k as int, a, b) {
                let l = choose|l: int|
                    i < l < k && #[trigger] crate::links::ordered(ids[i as int], ids[l]) == (a, b);
                lemma_same_pair(ids[i as int], ids[l], ids[i as int], ids[k as int]);
                assert(ids[l] != ids[k as int]);
                assert(ids[i as int] != ids[k as int]);
            }
        } else if is_pair_with(ids, i as int, j as int, a, b) {
            let l = choose|l: int|
                i < l < j && #[trigger] crate::links::ordered(ids[i as int], ids[l]) == (a, b);
            assert(l < k);
        }
        if is_pair_with(ids, i as int, k as int, a, b) {
            let l = choose|l: int|
                i < l < k && #[trigger] crate::links::ordered(ids[i as int], ids[l]) == (a, b);
            assert(i < l < j);
        }
    }
}

proof fn lemma_all_paired(
    links: Seq<LinkView>,
    ids: Seq<Seq<char>>,
    n: nat,
    threshold: i32,
    a: Seq<char>,
    b: Seq<char>,
)
    requires
        crate::links::unique_pairs(links),
        ids.no_duplicates(),
        n <= ids.len(),
    ensures
        crate::links::unique_pairs(crate::memory::all_paired(links, ids, n, threshold)),
        crate::links::weight_of(crate::memory::all_paired(links, ids, n, threshold), a, b)
            == if is_pair(ids, n as int, a, b) {
            once_more(crate::links::weight_of(links, a, b), threshold)
        } else {
            crate::links::weight_of(links, a, b)
        },
    decreases n,
{
    if n > 0 {
        let i = (n - 1) as nat;
        lemma_all_paired(links, ids, i, threshold, a, b);
        let before = crate::memory::all_paired(links, ids, i, threshold);
        lemma_paired(before, ids, i, ids.len(), threshold, a, b);
        if is_pair_with(ids, i as int, ids.len() as int, a, b) {
            let k = choose|k: int|
                i < k < ids.len() && #[trigger] crate::links::ordered(ids[i as int], ids[k]) == (
                    a,
                    b,
                );
            assert(crate::links::ordered(ids[i as int], ids[k]) == (a, b));
            assert(is_pair(ids, n as int, a, b));
            if is_pair(ids, i as int, a, b) {
                let (p, q) = choose|p: int, q: int|
                    0 <= p < q < ids.len() && p < i && #[trigger] crate::links::ordered(
                        ids[p],
                        ids[q],
                    ) == (a, b);
                lemma_same_pair(ids[p], ids[q], ids[i as int], ids[k]);
                assert(ids[p] != ids[i as int]);
                assert(ids[p] != ids[k]);
            }
        } else if is_pair(ids, n as int, a, b) {
            let (p, q) = choose|p: int, q: int|
                0 <= p < q < ids.len() && p < n && #[trigger] crate::links::ordered(
                    ids[p],
                    ids[q],
                ) == (a, b);
            if p == i {
                assert(crate::links::ordered(ids[i as int], ids[q]) == (a, b));
                assert(is_pair_with(ids, i as int, ids.len() as int, a, b));
            }
            assert(p < i);
            assert(is_pair(ids, i as int, a, b));
        } else if is_pair(ids, i as int, a, b) {
            let (p, q) = choose|p: int, q: int|
                0 <= p < q < ids.len() && p < i && #[trigger] crate::links::ordered(
                    ids[p],
                    ids[q],
                ) == (a, b);
            assert(is_pair(ids, n as int, a, b));
        }
    }
}

/// A recall counts as one joint recall of each two memories that it gives, and
/// of no other pair; where links are disabled, of none.
pub proof fn recall_links_its_results(
    m: MemoryView,
    ids: Seq<Seq<char>>,
    times: Seq<Timestamp>,
    a: Seq<char>,
    b: Seq<char>,
)
    requires
        m.store.wf(),
        ids.no_duplicates(),
    ensures
        ({
            let after = crate::memory::after_recall(m, ids, times).store.links;
            let current = crate::links::weight_of(m.store.links, a, b);
            &&& crate::links::weight_of(after, a, b) == if m.config.hebbian_enabled && is_pair(
                ids,
                ids.len() as int,
                a,
                b,
            ) {
                once_more(current, m.config.hebbian_threshold)
            } else {
                current
            }
            &&& !m.config.hebbian_enabled ==> after == m.store.links
        }),
{
    lemma_accessed_first(m.store, ids, times, ids.len(), a);
    lemma_all_paired(m.store.links, ids, ids.len(), m.config.hebbian_threshold, a, b);
}

/// One more joint recall of a pair: where it is linked, the link gains 0.1, up
/// to 1; where it is not, the count of joint recalls rises by one, and a link of
/// strength 1 is formed if that reaches the threshold.
pub proof fn joint_recall_counts_or_strengthens(
    s: Seq<LinkView>,
    id1: Seq<char>,
    id2: Seq<char>,
    threshold: i32,
)
    requires
        crate::links::unique_pairs(s),
    ensures
        ({
            let (a, b) = crate::links::ordered(id1, id2);
            let one = Binary64::of_int(1);
            let tenth = Binary64::of_int(1).over(Binary64::of_int(10));
            let after = crate::links::weight_of(
                crate::links::after_coactivation(s, id1, id2, threshold),
                a,
                b,
            );
            let formed = crate::links::forms_link(s, id1, id2, threshold);
            &&& after is Some
            &&& match crate::links::weight_of(s, a, b) {
                None => if threshold <= 1 {
                    after == Some(one) && formed
                } else {
                    after == Some(one.negated()) && !formed
                },
                Some(w) => if (Binary64 { bits: 0 }).below(w) {
                    &&& !formed
                    &&& one.at_least(w.plus(tenth)) ==> after == Some(w.plus(tenth))
                    &&& w.plus(tenth).at_least(one) ==> after->0.datum().rank()
                        == one.datum().rank()
                    &&& one.at_least(w) ==> after->0.at_least(w)
                } else {
                    forall|n: int|
                        1 <= n < i32::MAX && w == #[trigger] Binary64::of_int(n).negated() ==> if n
                            + 1 >= threshold {
                            after == Some(one) && formed
                        } else {
                            after == Some(Binary64::of_int(n + 1).negated()) && !formed
                        }
                },
            }
        }),
{
    let (a, b) = crate::links::ordered(id1, id2);
    let current = crate::links::weight_of(s, a, b);
    let w = crate::links::coactivated(current, threshold).0;
    crate::links::set_then_read(s, a, b, w, a, b);
    crate::exact::one_is_one();
    crate::number_laws::fractions_are_what_they_say();
    crate::format::lemma_bound_120();
    crate::format::lemma_inf(crate::binary::binary64());
    if let Some(x) = current {
        if (Binary64 { bits: 0 }).below(x) {
            if crate::rounding::finite(x) {
                crate::rounding::adding_does_not_lessen(
                    x,
                    Binary64 { bits: crate::numbers::TENTH },
                );
            }
        } else {
            assert forall|n: int|
                1 <= n < i32::MAX && x == #[trigger] Binary64::of_int(
                    n,
                ).negated() implies crate::links::joint_recalls(x) == n + 1 by {
                crate::exact::count_round_trip(n);
            }
        }
    }
}

// --- Pairs of a joint recall ---

proof fn lemma_pairs_with(ids: Seq<Seq<char>>, i: nat, j: nat, k: int)
    requires
        i < k < j,
    ensures
        crate::links::pairs_with(ids, i, j).len() == j - i - 1,
        crate::links::pairs_with(ids, i, j)[k - i - 1] == crate::links::ordered(
            ids[i as int],
            ids[k],
        ),
    decreases j,
{
    let rest = crate::links::pairs_with(ids, i, (j - 1) as nat);
    if j - 1 > i + 1 {
        let m = if k < j - 1 {
            k
        } else {
            i as int + 1
        };
        lemma_pairs_with(ids, i, (j - 1) as nat, m);
    }
    assert(crate::links::pairs_with(ids, i, j) == rest.push(
        crate::links::ordered(ids[i as int], ids[j - 1]),
    ));
}

/// How many pairs the first `n` of some memories make with those after them.
pub open spec fn pair_count(len: nat, n: nat) -> int
    decreases n,
{
    if n == 0 {
        0
    } else {
        pair_count(len, (n - 1) as nat) + (len - n)
    }
}

/// Memories that are recalled together make one pair of each two of them, each in
/// the order in which its weight is kept, and no other pair.
pub proof fn recalled_memories_make_all_pairs(ids: Seq<Seq<char>>, n: nat)
    requires
        n <= ids.len(),
    ensures
        crate::links::pairs(ids, n).len() == pair_count(ids.len(), n),
        forall|i: int, j: int|
            0 <= i < n && i < j < ids.len() ==> crate::links::pairs(ids, n).contains(
                #[trigger] crate::links::ordered(ids[i], ids[j]),
            ),
        forall|k: int|
            0 <= k < crate::links::pairs(ids, n).len() ==> is_pair(
                ids,
                n as int,
                (#[trigger] crate::links::pairs(ids, n)[k]).0,
                crate::links::pairs(ids, n)[k].1,
            ),
    decreases n,
{
    if n > 0 {
        let b = (n - 1) as nat;
        recalled_memories_make_all_pairs(ids, b);
        let before = crate::links::pairs(ids, b);
        let new = crate::links::pairs_with(ids, b, ids.len());
        let after = crate::links::pairs(ids, n);
        assert(after == before + new);
        if n < ids.len() {
            lemma_pairs_with(ids, b, ids.len(), n as int);
        }
        assert forall|i: int, j: int| 0 <= i < n && i < j < ids.len() implies after.contains(
            #[trigger] crate::links::ordered(ids[i], ids[j]),
        ) by {
            let x = crate::links::ordered(ids[i], ids[j]);
            if i < b {
                assert(before.contains(x));
                let k = choose|k: int| 0 <= k < before.len() && before[k] == x;
                assert(after[k] == x);
            } else {
                lemma_pairs_with(ids, b, ids.len(), j);
                assert(after[before.len() + (j - b - 1)] == x);
            }
        }
        assert forall|k: int| 0 <= k < after.len() implies is_pair(
            ids,
            n as int,
            (#[trigger] after[k]).0,
            after[k].1,
        ) by {
            if k < before.len() {
                assert(before[k] == after[k]);
                assert(is_pair(ids, b as int, before[k].0, before[k].1));
                let (i, j) = choose|i: int, j: int|
                    0 <= i < j < ids.len() && i < b && #[trigger] crate::links::ordered(
                        ids[i],
                        ids[j],
                    ) == (before[k].0, before[k].1);
                assert(crate::links::ordered(ids[i], ids[j]) == (after[k].0, after[k].1));
            } else {
                let j = k - before.len() + b + 1;
                lemma_pairs_with(ids, b, ids.len(), j);
                assert(crate::links::ordered(ids[b as int], ids[j]) == (after[k].0, after[k].1));
            }
        }
    }
}

} // verus!
