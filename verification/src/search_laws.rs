//! What searches find, and that they leave out nothing better.

use vstd::prelude::*;
use crate::binary::Binary32;
use crate::ranking::Rank;
use crate::sqlite::Embedded;
use crate::store::StoreView;
use crate::types::{MemoryType, RecordView};

verus! {

// --- Rankings ---

/// Whether `x` stands before `y` in a ranking: it scores more, or as much and
/// comes first.
pub open spec fn goes_first(x: Rank, y: Rank) -> bool {
    x.score > y.score || (x.score == y.score && x.at < y.at)
}

/// The best of some places: as many as asked for, or all that qualify where these
/// are fewer; the best first; and none is left out that would go before one of
/// them.
proof fn lemma_best(all: Seq<Rank>, keep: spec_fn(Rank) -> bool, limit: nat)
    requires
        forall|i: int| 0 <= i < all.len() ==> (#[trigger] all[i]).at == i,
    ensures
        ({
            let q = crate::ranking::first(crate::ranking::ranked(all.filter(keep)), limit);
            let n = all.filter(keep).len();
            &&& q.len() == if limit < n {
                limit
            } else {
                n
            }
            &&& forall|k: int|
                0 <= k < q.len() ==> 0 <= (#[trigger] q[k]).at < all.len() && q[k] == all[q[k].at]
                    && keep(q[k])
            &&& forall|j: int, k: int|
                0 <= j < k < q.len() ==> goes_first(#[trigger] q[j], #[trigger] q[k])
            &&& forall|i: int|
                0 <= i < all.len() && keep(#[trigger] all[i]) && !q.contains(all[i]) ==> q.len()
                    == limit && forall|k: int|
                    0 <= k < q.len() ==> goes_first(#[trigger] q[k], all[i])
        }),
{
    broadcast use vstd::seq_lib::group_filter_ensures;

    let f = all.filter(keep);
    let r = crate::ranking::ranked(f);
    let q = crate::ranking::first(r, limit);
    crate::store_laws::lemma_filter_ascending(all, keep);
    crate::ranking::ranked_is_sorted(f);
    crate::ranking::ranked_is_permutation(f);
    assert forall|k: int| 0 <= k < r.len() implies 0 <= (#[trigger] r[k]).at < all.len() && r[k]
        == all[r[k].at] && keep(r[k]) by {
        assert(r.contains(r[k]));
        assert(f.contains(r[k]));
        all.lemma_filter_contains_rev(keep, r[k]);
        let j = choose|j: int| 0 <= j < f.len() && f[j] == r[k];
        assert(keep(f[j]));
        let i = choose|i: int| 0 <= i < all.len() && all[i] == r[k];
        assert(all[i].at == i);
    }
    assert forall|k: int| 0 <= k < q.len() implies 0 <= (#[trigger] q[k]).at < all.len() && q[k]
        == all[q[k].at] && keep(q[k]) by {
        assert(q[k] == r[k]);
    }
    assert forall|j: int, k: int| 0 <= j < k < q.len() implies goes_first(
        #[trigger] q[j],
        #[trigger] q[k],
    ) by {
        assert(q[j] == r[j] && q[k] == r[k]);
        assert(r[j].score >= r[k].score);
    }
    assert forall|i: int|
        0 <= i < all.len() && keep(#[trigger] all[i]) && !q.contains(all[i]) implies q.len()
        == limit && forall|k: int| 0 <= k < q.len() ==> goes_first(#[trigger] q[k], all[i]) by {
        assert(f.contains(all[i]));
        assert(r.contains(all[i]));
        let p = choose|p: int| 0 <= p < r.len() && r[p] == all[i];
        if p < q.len() {
            assert(q[p] == all[i]);
        }
        assert forall|k: int| 0 <= k < q.len() implies goes_first(#[trigger] q[k], all[i]) by {
            assert(q[k] == r[k]);
            assert(r[k].score >= r[p].score);
        }
    }
}

proof fn lemma_as_many<A, B>(
    a: Seq<A>,
    p: spec_fn(A) -> bool,
    b: Seq<B>,
    q: spec_fn(B) -> bool,
)
    requires
        a.len() == b.len(),
        forall|i: int| 0 <= i < a.len() ==> p(#[trigger] a[i]) == q(b[i]),
    ensures
        a.filter(p).len() == b.filter(q).len(),
    decreases a.len(),
{
    reveal(Seq::filter);
    if a.len() > 0 {
        let n = a.len() - 1;
        assert forall|i: int| 0 <= i < n implies p(#[trigger] a.drop_last()[i]) == q(
            b.drop_last()[i],
        ) by {
            assert(p(a[i]) == q(b[i]));
        }
        lemma_as_many(a.drop_last(), p, b.drop_last(), q);
        assert(p(a[n]) == q(b[n]));
    }
}

// --- Full-text search ---

/// Each token of a query that the index lists for a memory is a hit.
pub proof fn each_listed_token_is_a_hit(
    index: Set<crate::index::Entry>,
    tokens: Seq<Seq<char>>,
    t: Seq<char>,
    id: Seq<char>,
)
    ensures
        crate::store::hits(index, Seq::empty(), id) == 0,
        crate::store::hits(index, tokens.push(t), id) == crate::store::hits(index, tokens, id)
            + if index.contains((t, id)) {
            1nat
        } else {
            0
        },
{
    reveal(Seq::filter);
    assert(tokens.push(t).drop_last() =~= tokens);
}

/// A search gives as many memories as asked for, or all with a hit where these
/// are fewer. It leaves out no memory that has more hits than one that it gives;
/// of memories with as many hits those stored first are given first.
pub proof fn search_leaves_out_nothing_better(st: StoreView, tokens: Seq<Seq<char>>, limit: nat)
    ensures
        ({
            let r = crate::store::fts_result(st, tokens, limit);
            let hit = |m: RecordView| crate::store::hits(st.index, tokens, m.id) > 0;
            let n = st.memories.filter(hit).len();
            &&& r.len() == if limit < n {
                limit
            } else {
                n
            }
            &&& forall|i: int, k: int|
                0 <= i < st.memories.len() && hit(#[trigger] st.memories[i]) && !r.contains(
                    st.memories[i],
                ) && 0 <= k < r.len() ==> crate::store::hits(
                    st.index,
                    tokens,
                    st.memories[i].id,
                ) <= crate::store::hits(st.index, tokens, (#[trigger] r[k]).id)
        }),
{
    let hit = |m: RecordView| crate::store::hits(st.index, tokens, m.id) > 0;
    let all = Seq::new(
        st.memories.len(),
        |i: int|
            Rank {
                at: i,
                score: crate::store::hits(st.index, tokens, st.memories[i].id) as int,
            },
    );
    let keep = |x: Rank| x.score > 0;
    lemma_best(all, keep, limit);
    lemma_as_many(all, keep, st.memories, hit);
    let q = crate::ranking::first(crate::ranking::ranked(all.filter(keep)), limit);
    let r = crate::store::fts_result(st, tokens, limit);
    assert(all.filter(keep) == crate::store::found(st, tokens));
    assert forall|i: int, k: int|
        0 <= i < st.memories.len() && hit(#[trigger] st.memories[i]) && !r.contains(
            st.memories[i],
        ) && 0 <= k < r.len() implies crate::store::hits(st.index, tokens, st.memories[i].id)
        <= crate::store::hits(st.index, tokens, (#[trigger] r[k]).id) by {
        assert(keep(all[i]));
        if q.contains(all[i]) {
            let p = choose|p: int| 0 <= p < q.len() && q[p] == all[i];
            assert(r[p] == st.memories[i]);
        }
        assert(goes_first(q[k], all[i]));
        assert(r[k] == st.memories[q[k].at]);
        assert(q[k] == all[q[k].at]);
    }
}

/// A search by type gives exactly the memories of that type, in order.
pub proof fn search_by_type_gives_that_type(s: Seq<RecordView>, t: MemoryType, r: RecordView)
    ensures
        s.filter(|m: RecordView| m.memory_type == t).contains(r) <==> s.contains(r)
            && r.memory_type == t,
{
    broadcast use vstd::seq_lib::group_filter_ensures;

    let keep = |m: RecordView| m.memory_type == t;
    let f = s.filter(keep);
    if f.contains(r) {
        s.lemma_filter_contains_rev(keep, r);
        let k = choose|k: int| 0 <= k < f.len() && f[k] == r;
        assert(keep(f[k]));
    }
    if s.contains(r) && r.memory_type == t {
        let i = choose|i: int| 0 <= i < s.len() && s[i] == r;
        assert(keep(s[i]));
    }
}

// --- Search by embedding ---

/// Whether the embedding of a memory is as similar to the query as asked for.
pub open spec fn is_similar(m: RecordView, query: Seq<Binary32>, min_score: Binary32) -> bool {
    m.embedding matches Some(e) && crate::vector::cosine(query, e).at_least(min_score)
}

/// Whether `x` names the memory at place `i`, which is similar enough, with its
/// similarity.
pub open spec fn names_memory(
    s: Seq<RecordView>,
    query: Seq<Binary32>,
    min_score: Binary32,
    x: (Seq<char>, Binary32),
    i: int,
) -> bool {
    &&& 0 <= i < s.len()
    &&& is_similar(s[i], query, min_score)
    &&& x == (s[i].id, crate::vector::cosine(query, s[i].embedding->0))
}

/// Whether `x` names a memory that is similar enough, with its similarity.
pub open spec fn names_similar(
    s: Seq<RecordView>,
    query: Seq<Binary32>,
    min_score: Binary32,
    x: (Seq<char>, Binary32),
) -> bool {
    exists|i: int| names_memory(s, query, min_score, x, i)
}

/// A search by embedding gives as many memories as asked for, or all that are
/// similar enough where these are fewer, each with its similarity; and it leaves
/// out no memory that is more similar than one that it gives.
pub proof fn vector_search_leaves_out_nothing_better(
    s: Seq<RecordView>,
    query: Seq<Binary32>,
    limit: nat,
    min_score: Binary32,
)
    ensures
        ({
            let r = crate::store::vector_result(s, query, limit, min_score);
            let similar = |m: RecordView| is_similar(m, query, min_score);
            let n = s.filter(similar).len();
            &&& r.len() == if limit < n {
                limit
            } else {
                n
            }
            &&& forall|k: int|
                0 <= k < r.len() ==> names_similar(s, query, min_score, #[trigger] r[k])
            &&& forall|i: int, k: int|
                0 <= i < s.len() && is_similar(#[trigger] s[i], query, min_score) && !r.contains(
                    (s[i].id, crate::vector::cosine(query, s[i].embedding->0)),
                ) && 0 <= k < r.len() ==> (#[trigger] r[k]).1.at_least(
                    crate::vector::cosine(query, s[i].embedding->0),
                )
        }),
{
    let similar = |m: RecordView| is_similar(m, query, min_score);
    let all = Seq::new(
        s.len(),
        |i: int|
            Rank {
                at: i,
                score: match crate::store::closeness(s[i], query) {
                    Some(c) => c.datum().rank(),
                    None => 0,
                },
            },
    );
    let keep = |x: Rank| crate::store::close_enough(s[x.at], query, min_score);
    lemma_best(all, keep, limit);
    assert forall|i: int| 0 <= i < all.len() implies keep(#[trigger] all[i]) == similar(s[i]) by {
        assert(all[i].at == i);
    }
    lemma_as_many(all, keep, s, similar);
    let q = crate::ranking::first(crate::ranking::ranked(all.filter(keep)), limit);
    let r = crate::store::vector_result(s, query, limit, min_score);
    assert(all.filter(keep) == crate::store::close(s, query, min_score));
    assert forall|k: int| 0 <= k < r.len() implies names_similar(
        s,
        query,
        min_score,
        #[trigger] r[k],
    ) by {
        assert(keep(q[k]));
        assert(names_memory(s, query, min_score, r[k], q[k].at));
    }
    assert forall|i: int, k: int|
        0 <= i < s.len() && is_similar(#[trigger] s[i], query, min_score) && !r.contains(
            (s[i].id, crate::vector::cosine(query, s[i].embedding->0)),
        ) && 0 <= k < r.len() implies (#[trigger] r[k]).1.at_least(
        crate::vector::cosine(query, s[i].embedding->0),
    ) by {
        assert(all[i].at == i);
        assert(keep(all[i]));
        if q.contains(all[i]) {
            let p = choose|p: int| 0 <= p < q.len() && q[p] == all[i];
            assert(r[p] == (s[i].id, crate::vector::cosine(query, s[i].embedding->0)));
        }
        assert(goes_first(q[k], all[i]));
        assert(keep(q[k]));
        assert(q[k] == all[q[k].at]);
    }
}

/// Whether an embedding held as bytes is as similar to the query as asked for.
pub open spec fn row_is_similar(e: Embedded, query: Seq<Binary32>, min_score: Binary32) -> bool {
    crate::sqlite::cosine(query, crate::sqlite::floats(e.blob)).at_least(min_score)
}

/// Whether `x` names the row at place `i`, which is similar enough, with its
/// similarity.
pub open spec fn names_row(
    s: Seq<Embedded>,
    query: Seq<Binary32>,
    min_score: Binary32,
    x: (Seq<char>, Binary32),
    i: int,
) -> bool {
    &&& 0 <= i < s.len()
    &&& row_is_similar(s[i], query, min_score)
    &&& x == (s[i].id, crate::sqlite::cosine(query, crate::sqlite::floats(s[i].blob)))
}

/// Whether `x` names a row that is similar enough, with its similarity.
pub open spec fn names_similar_row(
    s: Seq<Embedded>,
    query: Seq<Binary32>,
    min_score: Binary32,
    x: (Seq<char>, Binary32),
) -> bool {
    exists|i: int| names_row(s, query, min_score, x, i)
}

/// A search among rows gives as many as asked for, or all that are similar enough
/// where these are fewer, each with its similarity, the most similar first; and
/// it leaves out no row that is more similar than one that it gives.
pub proof fn row_search_leaves_out_nothing_better(
    s: Seq<Embedded>,
    query: Seq<Binary32>,
    limit: nat,
    min_score: Binary32,
)
    ensures
        ({
            let r = crate::sqlite::vector_result(s, query, limit, min_score);
            let similar = |e: Embedded| row_is_similar(e, query, min_score);
            let n = s.filter(similar).len();
            &&& r.len() == if limit < n {
                limit
            } else {
                n
            }
            &&& forall|k: int|
                0 <= k < r.len() ==> names_similar_row(s, query, min_score, #[trigger] r[k])
            &&& forall|j: int, k: int|
                0 <= j < k < r.len() ==> (#[trigger] r[j]).1.at_least((#[trigger] r[k]).1)
            &&& forall|i: int, k: int|
                0 <= i < s.len() && row_is_similar(#[trigger] s[i], query, min_score)
                    && !r.contains(
                    (s[i].id, crate::sqlite::cosine(query, crate::sqlite::floats(s[i].blob))),
                ) && 0 <= k < r.len() ==> (#[trigger] r[k]).1.at_least(
                    crate::sqlite::cosine(query, crate::sqlite::floats(s[i].blob)),
                )
        }),
{
    let similar = |e: Embedded| row_is_similar(e, query, min_score);
    let all = Seq::new(
        s.len(),
        |i: int|
            Rank {
                at: i,
                score: crate::sqlite::cosine(
                    query,
                    crate::sqlite::floats(s[i].blob),
                ).datum().rank(),
            },
    );
    let keep = |x: Rank|
        crate::sqlite::cosine(query, crate::sqlite::floats(s[x.at].blob)).at_least(min_score);
    lemma_best(all, keep, limit);
    assert forall|i: int| 0 <= i < all.len() implies keep(#[trigger] all[i]) == similar(s[i]) by {
        assert(all[i].at == i);
    }
    lemma_as_many(all, keep, s, similar);
    let q = crate::ranking::first(crate::ranking::ranked(all.filter(keep)), limit);
    let r = crate::sqlite::vector_result(s, query, limit, min_score);
    assert(all.filter(keep) == crate::sqlite::close(s, query, min_score));
    assert forall|k: int| 0 <= k < r.len() implies names_similar_row(
        s,
        query,
        min_score,
        #[trigger] r[k],
    ) by {
        assert(keep(q[k]));
        assert(names_row(s, query, min_score, r[k], q[k].at));
    }
    assert forall|j: int, k: int| 0 <= j < k < r.len() implies (#[trigger] r[j]).1.at_least(
        (#[trigger] r[k]).1,
    ) by {
        assert(goes_first(q[j], q[k]));
        assert(keep(q[j]) && keep(q[k]));
        assert(q[j] == all[q[j].at] && q[k] == all[q[k].at]);
    }
    assert forall|i: int, k: int|
        0 <= i < s.len() && row_is_similar(#[trigger] s[i], query, min_score) && !r.contains(
            (s[i].id, crate::sqlite::cosine(query, crate::sqlite::floats(s[i].blob))),
        ) && 0 <= k < r.len() implies (#[trigger] r[k]).1.at_least(
        crate::sqlite::cosine(query, crate::sqlite::floats(s[i].blob)),
    ) by {
        assert(all[i].at == i);
        assert(keep(all[i]));
        if q.contains(all[i]) {
            let p = choose|p: int| 0 <= p < q.len() && q[p] == all[i];
            assert(r[p] == (
                s[i].id,
                crate::sqlite::cosine(query, crate::sqlite::floats(s[i].blob)),
            ));
        }
        assert(goes_first(q[k], all[i]));
        assert(keep(q[k]));
        assert(q[k] == all[q[k].at]);
    }
}

} // verus!
