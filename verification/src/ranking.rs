//! Ranking by score, best first.

use vstd::prelude::*;

verus! {

/// A place in some list, and the score by which it is ranked.
#[derive(Clone, Copy, PartialEq, Eq, Structural, Debug)]
pub struct Scored {
    pub at: usize,
    pub score: i128,
}

/// What a [`Scored`] holds.
pub struct Rank {
    pub at: int,
    pub score: int,
}

impl View for Scored {
    type V = Rank;

    open spec fn view(&self) -> Rank {
        Rank { at: self.at as int, score: self.score as int }
    }
}

/// What some scored places hold.
pub open spec fn ranks(v: Seq<Scored>) -> Seq<Rank> {
    Seq::new(v.len(), |i: int| v[i]@)
}

/// A ranking with `x` added: after all that score as much, before all that
/// score less.
pub open spec fn ranked_with(s: Seq<Rank>, x: Rank) -> Seq<Rank>
    decreases s.len(),
{
    if s.len() == 0 || s.last().score >= x.score {
        s.push(x)
    } else {
        ranked_with(s.drop_last(), x).push(s.last())
    }
}

/// `s` by descending score; equal scores keep their order.
pub open spec fn ranked(s: Seq<Rank>) -> Seq<Rank>
    decreases s.len(),
{
    if s.len() == 0 {
        s
    } else {
        ranked_with(ranked(s.drop_last()), s.last())
    }
}

/// The first `limit` items, or all where there are fewer.
pub open spec fn first<T>(s: Seq<T>, limit: nat) -> Seq<T> {
    if limit < s.len() {
        s.take(limit as int)
    } else {
        s
    }
}

/// Scores do not rise.
pub open spec fn descending(s: Seq<Rank>) -> bool {
    forall|i: int, j: int|
        0 <= i < j < s.len() ==> (#[trigger] s[i]).score >= (#[trigger] s[j]).score
}

/// Where scores are equal, places rise.
pub open spec fn stable(s: Seq<Rank>) -> bool {
    forall|i: int, j: int|
        0 <= i < j < s.len() && (#[trigger] s[i]).score == (#[trigger] s[j]).score ==> s[i].at
            < s[j].at
}

/// Places rise.
pub open spec fn ascending_places(s: Seq<Rank>) -> bool {
    forall|i: int, j: int| 0 <= i < j < s.len() ==> (#[trigger] s[i]).at < (#[trigger] s[j]).at
}

proof fn lemma_ranked_with(s: Seq<Rank>, x: Rank)
    requires
        descending(s),
        stable(s),
        forall|i: int| 0 <= i < s.len() ==> (#[trigger] s[i]).at < x.at,
    ensures
        descending(ranked_with(s, x)),
        stable(ranked_with(s, x)),
        forall|i: int|
            0 <= i < ranked_with(s, x).len() ==> (#[trigger] ranked_with(s, x)[i]) == x
                || s.contains(ranked_with(s, x)[i]),
    decreases s.len(),
{
    let t = ranked_with(s, x);
    if s.len() == 0 || s.last().score >= x.score {
        assert forall|i: int| 0 <= i < t.len() implies (#[trigger] t[i]) == x || s.contains(
            t[i],
        ) by {
            if i < s.len() {
                assert(s[i] == t[i]);
            }
        }
    } else {
        let rest = s.drop_last();
        lemma_ranked_with(rest, x);
        let r = ranked_with(rest, x);
        assert forall|i: int| 0 <= i < r.len() implies (#[trigger] r[i]).score >= s.last().score && (
        r[i].score == s.last().score ==> r[i].at < s.last().at) by {
            if r[i] != x {
                assert(rest.contains(r[i]));
                let k = choose|k: int| 0 <= k < rest.len() && rest[k] == r[i];
                assert(s[k].score >= s[s.len() - 1].score);
            }
        }
        assert forall|i: int| 0 <= i < t.len() implies (#[trigger] t[i]) == x || s.contains(
            t[i],
        ) by {
            if i < r.len() {
                assert(t[i] == r[i]);
                if r[i] != x {
                    let k = choose|k: int| 0 <= k < rest.len() && rest[k] == r[i];
                    assert(s[k] == t[i]);
                }
            } else {
                assert(s[s.len() - 1] == t[i]);
            }
        }
    }
}

proof fn lemma_ranked_with_items(s: Seq<Rank>, x: Rank)
    ensures
        ranked_with(s, x).to_multiset() == s.to_multiset().insert(x),
        ranked_with(s, x).len() == s.len() + 1,
    decreases s.len(),
{
    broadcast use vstd::seq_lib::group_to_multiset_ensures;

    if s.len() > 0 && s.last().score < x.score {
        let rest = s.drop_last();
        lemma_ranked_with_items(rest, x);
        assert(s == rest.push(s.last()));
        assert(ranked_with(s, x).to_multiset() =~= s.to_multiset().insert(x));
    }
}

/// A ranking holds exactly what was ranked.
pub proof fn ranked_is_permutation(s: Seq<Rank>)
    ensures
        ranked(s).len() == s.len(),
        ranked(s).to_multiset() == s.to_multiset(),
        forall|x: Rank| #[trigger] ranked(s).contains(x) <==> s.contains(x),
    decreases s.len(),
{
    broadcast use vstd::seq_lib::group_to_multiset_ensures;

    if s.len() > 0 {
        let rest = s.drop_last();
        ranked_is_permutation(rest);
        lemma_ranked_with_items(ranked(rest), s.last());
        assert(s == rest.push(s.last()));
    }
    assert forall|x: Rank| #[trigger] ranked(s).contains(x) <==> s.contains(x) by {
        assert(ranked(s).contains(x) <==> ranked(s).to_multiset().count(x) > 0);
        assert(s.contains(x) <==> s.to_multiset().count(x) > 0);
    }
}

/// Scores do not rise in a ranking, and what scores the same stays in order.
pub proof fn ranked_is_sorted(s: Seq<Rank>)
    requires
        ascending_places(s),
    ensures
        descending(ranked(s)),
        stable(ranked(s)),
    decreases s.len(),
{
    if s.len() > 0 {
        let rest = s.drop_last();
        ranked_is_sorted(rest);
        let r = ranked(rest);
        ranked_is_permutation(rest);
        assert forall|i: int| 0 <= i < r.len() implies (#[trigger] r[i]).at < s.last().at by {
            assert(r.contains(r[i]));
            let k = choose|k: int| 0 <= k < rest.len() && rest[k] == r[i];
            assert(s[k].at < s[s.len() - 1].at);
        }
        lemma_ranked_with(r, s.last());
    }
}

/// Adds `x` to a ranking.
fn insert(v: &mut Vec<Scored>, x: Scored)
    ensures
        ranks(final(v)@) == ranked_with(ranks(old(v)@), x@),
{
    let ghost all = ranks(v@);
    let mut i: usize = v.len();
    assert(all.take(i as int) == all);
    assert(ranked_with(all.take(i as int), x@) + all.skip(i as int) == ranked_with(all, x@));
    while i > 0 && v[i - 1].score < x.score
        invariant
            i <= v.len(),
            ranks(v@) == all,
            v@ == old(v)@,
            ranked_with(all.take(i as int), x@) + all.skip(i as int) == ranked_with(all, x@),
        decreases i,
    {
        let ghost t = all.take(i as int);
        assert(t.last() == all[i - 1]);
        assert(t.drop_last() == all.take(i - 1));
        assert(ranked_with(all.take(i - 1), x@) + all.skip(i - 1) =~= ranked_with(
            all.take(i - 1),
            x@,
        ).push(all[i - 1]) + all.skip(i as int));
        i = i - 1;
    }
    assert(i > 0 ==> all.take(i as int).last() == all[i - 1]);
    v.insert(i, x);
    assert(ranks(v@) =~= all.take(i as int).push(x@) + all.skip(i as int));
}

/// Ranks by descending score; equal scores keep their order.
pub fn rank(v: &Vec<Scored>) -> (r: Vec<Scored>)
    ensures
        ranks(r@) == ranked(ranks(v@)),
{
    let ghost all = ranks(v@);
    let mut r: Vec<Scored> = Vec::new();
    let mut i: usize = 0;
    assert(ranks(r@) == ranked(all.take(0)));
    while i < v.len()
        invariant
            i <= v.len(),
            all == ranks(v@),
            ranks(r@) == ranked(all.take(i as int)),
        decreases v.len() - i,
    {
        assert(all.take(i + 1).drop_last() == all.take(i as int));
        insert(&mut r, v[i]);
        i = i + 1;
    }
    assert(all.take(v.len() as int) == all);
    r
}

} // verus!
