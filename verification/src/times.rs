//! Joining and ordering access times.

use vstd::prelude::*;
use crate::types::{clone_times, Timestamp};

verus! {

/// `a`, followed by those of `b` that are not yet there.
pub open spec fn joined(a: Seq<Timestamp>, b: Seq<Timestamp>) -> Seq<Timestamp>
    decreases b.len(),
{
    if b.len() == 0 {
        a
    } else {
        let before = joined(a, b.drop_last());
        if before.contains(b.last()) {
            before
        } else {
            before.push(b.last())
        }
    }
}

/// Times in order, with `t` added.
pub open spec fn sorted_with(s: Seq<Timestamp>, t: Timestamp) -> Seq<Timestamp>
    decreases s.len(),
{
    if s.len() == 0 || s.last().not_after(t) {
        s.push(t)
    } else {
        sorted_with(s.drop_last(), t).push(s.last())
    }
}

/// `s` from the earliest to the latest.
pub open spec fn sorted(s: Seq<Timestamp>) -> Seq<Timestamp>
    decreases s.len(),
{
    if s.len() == 0 {
        s
    } else {
        sorted_with(sorted(s.drop_last()), s.last())
    }
}

/// No time is later than one that follows it.
pub open spec fn in_order(s: Seq<Timestamp>) -> bool {
    forall|i: int, j: int|
        0 <= i < j < s.len() ==> (#[trigger] s[i]).not_after(#[trigger] s[j])
}

proof fn lemma_sorted_with(s: Seq<Timestamp>, t: Timestamp)
    ensures
        sorted_with(s, t).to_multiset() == s.to_multiset().insert(t),
        in_order(s) ==> in_order(sorted_with(s, t)),
        forall|i: int|
            0 <= i < sorted_with(s, t).len() ==> (#[trigger] sorted_with(s, t)[i]) == t
                || s.contains(sorted_with(s, t)[i]),
    decreases s.len(),
{
    broadcast use vstd::seq_lib::group_to_multiset_ensures;

    let r = sorted_with(s, t);
    if s.len() == 0 || s.last().not_after(t) {
        assert forall|i: int| 0 <= i < r.len() implies (#[trigger] r[i]) == t || s.contains(
            r[i],
        ) by {
            if i < s.len() {
                assert(s[i] == r[i]);
            }
        }
        if in_order(s) {
            assert forall|i: int, j: int| 0 <= i < j < r.len() implies (#[trigger] r[i]).not_after(
                #[trigger] r[j],
            ) by {
                if j == s.len() && i < s.len() - 1 {
                    assert(s[i].not_after(s[s.len() - 1]));
                }
            }
        }
    } else {
        let rest = s.drop_last();
        lemma_sorted_with(rest, t);
        let q = sorted_with(rest, t);
        assert(s == rest.push(s.last()));
        assert(r.to_multiset() =~= s.to_multiset().insert(t));
        assert forall|i: int| 0 <= i < r.len() implies (#[trigger] r[i]) == t || s.contains(
            r[i],
        ) by {
            if i < q.len() {
                assert(q[i] == r[i]);
                if q[i] != t {
                    let k = choose|k: int| 0 <= k < rest.len() && rest[k] == q[i];
                    assert(s[k] == r[i]);
                }
            } else {
                assert(s[s.len() - 1] == r[i]);
            }
        }
        if in_order(s) {
            assert(in_order(rest)) by {
                assert forall|i: int, j: int| 0 <= i < j < rest.len() implies (
                #[trigger] rest[i]).not_after(#[trigger] rest[j]) by {
                    assert(s[i].not_after(s[j]));
                }
            }
            assert forall|i: int, j: int| 0 <= i < j < r.len() implies (#[trigger] r[i]).not_after(
                #[trigger] r[j],
            ) by {
                if j == q.len() {
                    assert(q[i] == r[i]);
                    if q[i] != t {
                        let k = choose|k: int| 0 <= k < rest.len() && rest[k] == q[i];
                        assert(s[k].not_after(s[s.len() - 1]));
                    }
                } else {
                    assert(q[i].not_after(q[j]));
                }
            }
        }
    }
}

/// Sorting puts times in order and keeps exactly those that are there.
pub proof fn sorted_is_in_order(s: Seq<Timestamp>)
    ensures
        in_order(sorted(s)),
        sorted(s).to_multiset() == s.to_multiset(),
        sorted(s).len() == s.len(),
        forall|t: Timestamp| #[trigger] sorted(s).contains(t) <==> s.contains(t),
    decreases s.len(),
{
    broadcast use vstd::seq_lib::group_to_multiset_ensures;

    if s.len() > 0 {
        let rest = s.drop_last();
        sorted_is_in_order(rest);
        lemma_sorted_with(sorted(rest), s.last());
        assert(s == rest.push(s.last()));
    }
    assert(sorted(s).len() == sorted(s).to_multiset().len());
    assert(s.len() == s.to_multiset().len());
    assert forall|t: Timestamp| #[trigger] sorted(s).contains(t) <==> s.contains(t) by {
        assert(sorted(s).contains(t) <==> sorted(s).to_multiset().count(t) > 0);
        assert(s.contains(t) <==> s.to_multiset().count(t) > 0);
    }
}

/// Sorting leaves what is in order as it is.
pub proof fn sorting_is_idempotent(s: Seq<Timestamp>)
    requires
        in_order(s),
    ensures
        sorted(s) == s,
    decreases s.len(),
{
    if s.len() > 0 {
        let rest = s.drop_last();
        assert forall|i: int, j: int| 0 <= i < j < rest.len() implies (#[trigger] rest[i]).not_after(
            #[trigger] rest[j],
        ) by {
            assert(s[i].not_after(s[j]));
        }
        sorting_is_idempotent(rest);
        if rest.len() > 0 {
            assert(s[rest.len() - 1].not_after(s[s.len() - 1]));
        }
        assert(rest.push(s.last()) == s);
    }
}

/// Joining two lists of times gives the times of both and no others.
pub proof fn joined_is_union(a: Seq<Timestamp>, b: Seq<Timestamp>)
    ensures
        forall|t: Timestamp| #[trigger]
            joined(a, b).contains(t) <==> a.contains(t) || b.contains(t),
        joined(a, b).len() >= a.len(),
        joined(a, b).take(a.len() as int) == a,
    decreases b.len(),
{
    if b.len() == 0 {
        assert(joined(a, b).take(a.len() as int) =~= a);
    } else {
        let rest = b.drop_last();
        joined_is_union(a, rest);
        let before = joined(a, rest);
        let after = joined(a, b);
        assert(after.take(a.len() as int) =~= before.take(a.len() as int));
        assert forall|t: Timestamp| #[trigger] after.contains(t) <==> a.contains(t) || b.contains(
            t,
        ) by {
            if after.contains(t) && !before.contains(t) {
                assert(b[b.len() - 1] == t);
            }
            if before.contains(t) {
                let k = choose|k: int| 0 <= k < before.len() && before[k] == t;
                assert(after[k] == t);
                if rest.contains(t) {
                    let m = choose|m: int| 0 <= m < rest.len() && rest[m] == t;
                    assert(b[m] == t);
                }
            }
            if b.contains(t) {
                let m = choose|m: int| 0 <= m < b.len() && b[m] == t;
                if m < rest.len() {
                    assert(rest[m] == t);
                } else {
                    if !before.contains(t) {
                        assert(after[before.len() as int] == t);
                    }
                }
            }
        }
    }
}

/// Joining times that are all there adds nothing.
pub proof fn joining_known_times(a: Seq<Timestamp>, b: Seq<Timestamp>)
    requires
        forall|t: Timestamp| #[trigger] b.contains(t) ==> a.contains(t),
    ensures
        joined(a, b) == a,
    decreases b.len(),
{
    if b.len() > 0 {
        let rest = b.drop_last();
        assert forall|t: Timestamp| #[trigger] rest.contains(t) implies a.contains(t) by {
            let m = choose|m: int| 0 <= m < rest.len() && rest[m] == t;
            assert(b[m] == t);
            assert(b.contains(t));
        }
        joining_known_times(a, rest);
        assert(b.contains(b[b.len() - 1]));
    }
}

/// Without repetitions, as many times come out of joining as stand in the
/// second list.
pub proof fn joined_is_long(a: Seq<Timestamp>, b: Seq<Timestamp>)
    requires
        b.no_duplicates(),
    ensures
        joined(a, b).len() >= b.len(),
{
    joined_is_union(a, b);
    let j = joined(a, b);
    b.unique_seq_to_set();
    vstd::seq_lib::seq_to_set_is_finite(j);
    vstd::seq_lib::seq_to_set_is_finite(b);
    assert(b.to_set().subset_of(j.to_set())) by {
        assert forall|t: Timestamp| b.to_set().contains(t) implies j.to_set().contains(t) by {
            assert(b.contains(t));
            assert(j.contains(t));
        }
    }
    vstd::set_lib::lemma_len_subset(b.to_set(), j.to_set());
    j.lemma_cardinality_of_set();
}

/// Whether a time is among some times.
fn has_time(v: &Vec<Timestamp>, t: Timestamp) -> (r: bool)
    ensures
        r == v@.contains(t),
{
    let mut i: usize = 0;
    while i < v.len()
        invariant
            i <= v.len(),
            forall|k: int| 0 <= k < i ==> v@[k] != t,
        decreases v.len() - i,
    {
        if v[i] == t {
            assert(v@.contains(t));
            return true;
        }
        i = i + 1;
    }
    false
}

/// Joins two lists of times.
pub fn join_times(a: &Vec<Timestamp>, b: &Vec<Timestamp>) -> (r: Vec<Timestamp>)
    ensures
        r@ == joined(a@, b@),
{
    let mut r = clone_times(a);
    let mut i: usize = 0;
    assert(joined(a@, b@.take(0)) == a@);
    while i < b.len()
        invariant
            i <= b.len(),
            r@ == joined(a@, b@.take(i as int)),
        decreases b.len() - i,
    {
        assert(b@.take(i + 1).drop_last() == b@.take(i as int));
        if !has_time(&r, b[i]) {
            r.push(b[i]);
        }
        i = i + 1;
    }
    assert(b@.take(b.len() as int) == b@);
    r
}

fn insert(v: &mut Vec<Timestamp>, t: Timestamp)
    ensures
        final(v)@ == sorted_with(old(v)@, t),
{
    let ghost all = v@;
    let mut i: usize = v.len();
    assert(all.take(i as int) == all);
    assert(sorted_with(all.take(i as int), t) + all.skip(i as int) == sorted_with(all, t));
    while i > 0 && !v[i - 1].le(t)
        invariant
            i <= v.len(),
            v@ == all,
            sorted_with(all.take(i as int), t) + all.skip(i as int) == sorted_with(all, t),
        decreases i,
    {
        let ghost s = all.take(i as int);
        assert(s.last() == all[i - 1]);
        assert(s.drop_last() == all.take(i - 1));
        assert(sorted_with(all.take(i - 1), t) + all.skip(i - 1) =~= sorted_with(
            all.take(i - 1),
            t,
        ).push(all[i - 1]) + all.skip(i as int));
        i = i - 1;
    }
    assert(i > 0 ==> all.take(i as int).last() == all[i - 1]);
    v.insert(i, t);
    assert(v@ =~= all.take(i as int).push(t) + all.skip(i as int));
}

/// Sorts times from the earliest to the latest.
pub fn sort_times(v: &Vec<Timestamp>) -> (r: Vec<Timestamp>)
    ensures
        r@ == sorted(v@),
{
    let mut r: Vec<Timestamp> = Vec::new();
    let mut i: usize = 0;
    while i < v.len()
        invariant
            i <= v.len(),
            r@ == sorted(v@.take(i as int)),
        decreases v.len() - i,
    {
        assert(v@.take(i + 1).drop_last() == v@.take(i as int));
        insert(&mut r, v[i]);
        i = i + 1;
    }
    assert(v@.take(v.len() as int) == v@);
    r
}

} // verus!
