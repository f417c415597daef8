//! Comparing and merging the contents of memories.

use vstd::prelude::*;
use crate::binary::Binary64;
use crate::numbers::ONE;
use crate::text::{same, sentences_of, words_of, join};

verus! {

/// The contents of some string slices.
pub open spec fn slices(v: Seq<&str>) -> Seq<Seq<char>> {
    Seq::new(v.len(), |i: int| v[i]@)
}

/// The sentences of some texts, one text after the other.
pub open spec fn all_sentences(contents: Seq<Seq<char>>) -> Seq<Seq<char>>
    decreases contents.len(),
{
    if contents.len() == 0 {
        Seq::empty()
    } else {
        all_sentences(contents.drop_last()) + crate::text::sentences(contents.last())
    }
}

/// Whether `s` is one of `seen` up to case.
pub open spec fn seen_before(seen: Seq<Seq<char>>, s: Seq<char>) -> bool {
    exists|i: int|
        0 <= i < seen.len() && crate::text::lowercase(#[trigger] seen[i]) == crate::text::lowercase(
            s,
        )
}

/// `s` without what has come before, up to case.
pub open spec fn first_of_each(s: Seq<Seq<char>>) -> Seq<Seq<char>>
    decreases s.len(),
{
    if s.len() == 0 {
        Seq::empty()
    } else {
        let before = first_of_each(s.drop_last());
        if seen_before(s.drop_last(), s.last()) {
            before
        } else {
            before.push(s.last())
        }
    }
}

/// What `default_merge` makes of some texts.
pub open spec fn merged_text(contents: Seq<Seq<char>>) -> Seq<char> {
    crate::text::joined(first_of_each(all_sentences(contents)), ". "@)
}

/// Adds the sentences of one text that have not been seen yet.
fn merge_into(
    content: &str,
    seen: &mut Vec<String>,
    merged: &mut Vec<String>,
    Ghost(done): Ghost<Seq<Seq<char>>>,
)
    requires
        lowered(old(seen)@, done),
        crate::text::texts(old(merged)@) == first_of_each(done),
    ensures
        lowered(final(seen)@, done + crate::text::sentences(content@)),
        crate::text::texts(final(merged)@) == first_of_each(
            done + crate::text::sentences(content@),
        ),
{
    let list = sentences_of(content);
    let ghost new = crate::text::sentences(content@);
    let mut i: usize = 0;
    assert(done + new.take(0) == done);
    while i < list.len()
        invariant
            i <= list.len(),
            crate::text::texts(list@) == new,
            lowered(seen@, done + new.take(i as int)),
            crate::text::texts(merged@) == first_of_each(done + new.take(i as int)),
        decreases list.len() - i,
    {
        let ghost before = done + new.take(i as int);
        let ghost after = done + new.take(i + 1);
        assert(new[i as int] == list@[i as int]@);
        assert(after == before.push(new[i as int]));
        assert(after.drop_last() == before);
        let lower = list[i].as_str().to_lowercase();
        let mut k: usize = 0;
        let mut found = false;
        while k < seen.len()
            invariant
                k <= seen.len(),
                lowered(seen@, before),
                found == exists|j: int| 0 <= j < k && (#[trigger] seen@[j])@ == lower@,
            decreases seen.len() - k,
        {
            if same(seen[k].as_str(), lower.as_str()) {
                found = true;
                assert(seen@[k as int]@ == lower@);
            }
            k = k + 1;
        }
        assert(found == seen_before(before, new[i as int])) by {
            if found {
                let j = choose|j: int| 0 <= j < seen@.len() && (#[trigger] seen@[j])@ == lower@;
                assert(crate::text::lowercase(before[j]) == lower@);
            }
            if seen_before(before, new[i as int]) {
                let j = choose|j: int|
                    0 <= j < before.len() && crate::text::lowercase(#[trigger] before[j])
                        == crate::text::lowercase(new[i as int]);
                assert(seen@[j]@ == lower@);
            }
        }
        let ghost old_merged = merged@;
        let ghost old_seen = seen@;
        if !found {
            let sentence = list[i].clone();
            merged.push(sentence);
            assert(crate::text::texts(merged@) == crate::text::texts(old_merged).push(
                new[i as int],
            ));
        }
        seen.push(lower);
        assert(lowered(seen@, after)) by {
            assert forall|j: int| 0 <= j < seen@.len() implies (#[trigger] seen@[j])@
                == crate::text::lowercase(after[j]) by {
                if j < old_seen.len() {
                    assert(seen@[j] == old_seen[j]);
                    assert(after[j] == before[j]);
                }
            }
        }
        i = i + 1;
    }
    assert(new.take(list.len() as int) == new);
}

/// `seen` holds the lower case of each sentence of `done`.
spec fn lowered(seen: Seq<String>, done: Seq<Seq<char>>) -> bool {
    seen.len() == done.len() && forall|j: int|
        0 <= j < seen.len() ==> (#[trigger] seen[j])@ == crate::text::lowercase(done[j])
}

/// Merges texts into one: their sentences in order, each once whatever its
/// case, a full stop between them.
pub fn default_merge(contents: &[&str]) -> (r: String)
    ensures
        r@ == merged_text(slices(contents@)),
{
    let ghost all = slices(contents@);
    let mut seen: Vec<String> = Vec::new();
    let mut merged: Vec<String> = Vec::new();
    let mut i: usize = 0;
    assert(crate::text::texts(merged@) == Seq::<Seq<char>>::empty());
    while i < contents.len()
        invariant
            i <= contents.len(),
            all == slices(contents@),
            lowered(seen@, all_sentences(all.take(i as int))),
            crate::text::texts(merged@) == first_of_each(all_sentences(all.take(i as int))),
        decreases contents.len() - i,
    {
        let ghost done = all_sentences(all.take(i as int));
        assert(all.take(i + 1).drop_last() == all.take(i as int));
        assert(all.take(i + 1).last() == contents@[i as int]@);
        merge_into(contents[i], &mut seen, &mut merged, Ghost(done));
        i = i + 1;
    }
    assert(all.take(contents.len() as int) == all);
    join(&merged, ". ")
}

/// The set of words of a text.
pub open spec fn word_set(s: Seq<char>) -> Set<Seq<char>> {
    crate::text::words(s).to_set()
}

/// The words that two texts share, as a part of all their words.
pub open spec fn similarity(a: Seq<char>, b: Seq<char>) -> Binary64 {
    let wa = word_set(a);
    let wb = word_set(b);
    if wa.len() == 0 || wb.len() == 0 {
        Binary64 { bits: 0 }
    } else {
        Binary64::of_int(wa.intersect(wb).len() as int).over(
            Binary64::of_int(wa.union(wb).len() as int),
        )
    }
}

fn is_among(list: &Vec<String>, word: &str) -> (r: bool)
    ensures
        r == crate::text::texts(list@).contains(word@),
{
    let ghost all = crate::text::texts(list@);
    let mut i: usize = 0;
    while i < list.len()
        invariant
            i <= list.len(),
            all == crate::text::texts(list@),
            forall|k: int| 0 <= k < i ==> all[k] != word@,
        decreases list.len() - i,
    {
        assert(all[i as int] == list@[i as int]@);
        if same(list[i].as_str(), word) {
            return true;
        }
        i = i + 1;
    }
    false
}

/// `list` with each text once.
fn distinct(list: &Vec<String>) -> (r: Vec<String>)
    ensures
        crate::text::texts(r@).no_duplicates(),
        crate::text::texts(r@).to_set() == crate::text::texts(list@).to_set(),
        r.len() <= list.len(),
{
    let ghost all = crate::text::texts(list@);
    let mut r: Vec<String> = Vec::new();
    let mut i: usize = 0;
    assert(crate::text::texts(r@).to_set() =~= all.take(0).to_set());
    while i < list.len()
        invariant
            i <= list.len(),
            r.len() <= i,
            all == crate::text::texts(list@),
            crate::text::texts(r@).no_duplicates(),
            crate::text::texts(r@).to_set() == all.take(i as int).to_set(),
        decreases list.len() - i,
    {
        let ghost before = r@;
        assert(all.take(i + 1) == all.take(i as int).push(all[i as int]));
        proof {
            lemma_to_set_push(all.take(i as int), all[i as int]);
            lemma_to_set_push(crate::text::texts(before), all[i as int]);
        }
        assert(all[i as int] == list@[i as int]@);
        if is_among(&r, list[i].as_str()) {
            assert(all.take(i as int).to_set().contains(all[i as int]));
            assert(all.take(i + 1).to_set() =~= all.take(i as int).to_set());
        } else {
            r.push(list[i].clone());
            assert(crate::text::texts(r@) == crate::text::texts(before).push(all[i as int]));
        }
        i = i + 1;
    }
    assert(all.take(list.len() as int) == all);
    r
}

proof fn lemma_to_set_push<A>(s: Seq<A>, x: A)
    ensures
        s.push(x).to_set() =~= s.to_set().insert(x),
{
    let p = s.push(x);
    assert forall|y: A| p.to_set().contains(y) == s.to_set().insert(x).contains(y) by {
        if p.contains(y) {
            let i = choose|i: int| 0 <= i < p.len() && p[i] == y;
            if i < s.len() {
                assert(s[i] == y);
            }
        }
        if s.contains(y) {
            let i = choose|i: int| 0 <= i < s.len() && s[i] == y;
            assert(p[i] == y);
        }
        if y == x {
            assert(p[s.len() as int] == y);
        }
    }
}

/// Similarity of two texts: the words they share, as a part of all their
/// words.
pub fn jaccard_similarity(a: &str, b: &str) -> (r: Binary64)
    ensures
        r == similarity(a@, b@),
        r.at_least(Binary64 { bits: 0 }),
        (Binary64 { bits: ONE }).at_least(r),
        word_set(a@).union(word_set(b@)).len() < 0x20_0000_0000_0000 ==> (r == (Binary64 {
            bits: ONE,
        }) <==> word_set(a@) == word_set(b@) && word_set(a@).len() > 0),
{
    let wa = distinct(&words_of(a));
    let wb = distinct(&words_of(b));
    let ghost sa = crate::text::texts(wa@);
    let ghost sb = crate::text::texts(wb@);
    proof {
        sa.unique_seq_to_set();
        sb.unique_seq_to_set();
        vstd::arithmetic::power2::lemma2_to64();
        vstd::arithmetic::power2::lemma2_to64_rest();
        vstd::arithmetic::power2::lemma_pow2_unfold(65);
        vstd::set_lib::lemma_set_intersect_union_lens(sa.to_set(), sb.to_set());
        similarity_is_a_share(a@, b@);
    }
    if wa.len() == 0 || wb.len() == 0 {
        return Binary64 { bits: 0 };
    }
    // Count the shared words, and the words of `b` that are new.
    let mut shared: Vec<String> = Vec::new();
    let mut i: usize = 0;
    assert(crate::text::texts(shared@).to_set() =~= sb.take(0).to_set().intersect(sa.to_set()));
    while i < wb.len()
        invariant
            i <= wb.len(),
            sa == crate::text::texts(wa@),
            sb == crate::text::texts(wb@),
            sb.no_duplicates(),
            shared.len() <= i,
            crate::text::texts(shared@).no_duplicates(),
            crate::text::texts(shared@).to_set() == sb.take(i as int).to_set().intersect(
                sa.to_set(),
            ),
        decreases wb.len() - i,
    {
        let ghost before = shared@;
        assert(sb[i as int] == wb@[i as int]@);
        assert(sb.take(i + 1) == sb.take(i as int).push(sb[i as int]));
        proof {
            lemma_to_set_push(sb.take(i as int), sb[i as int]);
            lemma_to_set_push(crate::text::texts(before), sb[i as int]);
        }
        assert(!sb.take(i as int).contains(sb[i as int]));
        if is_among(&wa, wb[i].as_str()) {
            shared.push(wb[i].clone());
            assert(crate::text::texts(shared@) == crate::text::texts(before).push(sb[i as int]));
            assert(!crate::text::texts(before).contains(sb[i as int])) by {
                if crate::text::texts(before).contains(sb[i as int]) {
                    assert(crate::text::texts(before).to_set().contains(sb[i as int]));
                }
            }
            assert(crate::text::texts(shared@).no_duplicates());
        }
        assert(crate::text::texts(shared@).to_set() =~= sb.take(i + 1).to_set().intersect(
            sa.to_set(),
        ));
        i = i + 1;
    }
    let ghost sc = crate::text::texts(shared@);
    proof {
        assert(sb.take(wb.len() as int) == sb);
        sc.unique_seq_to_set();
        assert(sc.to_set() =~= sa.to_set().intersect(sb.to_set()));
        vstd::set_lib::lemma_set_intersect_union_lens(sa.to_set(), sb.to_set());
    }
    let common = Binary64::from_int(shared.len() as i128);
    let total = Binary64::from_int(wa.len() as i128 + wb.len() as i128 - shared.len() as i128);
    common.div(total)
}

// --- Laws ---

/// Merging keeps each sentence once, up to case: every sentence is there, and
/// no two are the same.
pub proof fn each_sentence_once(s: Seq<Seq<char>>)
    ensures
        forall|i: int| 0 <= i < s.len() ==> seen_before(first_of_each(s), #[trigger] s[i]),
        forall|k: int| 0 <= k < first_of_each(s).len() ==> s.contains(#[trigger] first_of_each(s)[k]),
        forall|j: int, k: int|
            0 <= j < k < first_of_each(s).len() ==> crate::text::lowercase(
                #[trigger] first_of_each(s)[j],
            ) != crate::text::lowercase(#[trigger] first_of_each(s)[k]),
    decreases s.len(),
{
    if s.len() > 0 {
        let rest = s.drop_last();
        each_sentence_once(rest);
        let before = first_of_each(rest);
        let after = first_of_each(s);
        let last = s.last();
        assert forall|k: int| 0 <= k < after.len() implies s.contains(#[trigger] after[k]) by {
            if k < before.len() {
                assert(after[k] == before[k]);
                let m = choose|m: int| 0 <= m < rest.len() && rest[m] == before[k];
                assert(s[m] == after[k]);
            } else {
                assert(s[s.len() - 1] == after[k]);
            }
        }
        assert forall|i: int| 0 <= i < s.len() implies seen_before(after, #[trigger] s[i]) by {
            if i < rest.len() {
                assert(rest[i] == s[i]);
                assert(seen_before(before, rest[i]));
                let k = choose|k: int|
                    0 <= k < before.len() && crate::text::lowercase(#[trigger] before[k])
                        == crate::text::lowercase(rest[i]);
                assert(after[k] == before[k]);
            } else if seen_before(rest, last) {
                let m = choose|m: int|
                    0 <= m < rest.len() && crate::text::lowercase(#[trigger] rest[m])
                        == crate::text::lowercase(last);
                assert(seen_before(before, rest[m]));
                let k = choose|k: int|
                    0 <= k < before.len() && crate::text::lowercase(#[trigger] before[k])
                        == crate::text::lowercase(rest[m]);
                assert(after[k] == before[k]);
            } else {
                assert(after[before.len() as int] == last);
            }
        }
        assert forall|j: int, k: int| 0 <= j < k < after.len() implies crate::text::lowercase(
            #[trigger] after[j],
        ) != crate::text::lowercase(#[trigger] after[k]) by {
            if k < before.len() {
                assert(crate::text::lowercase(before[j]) != crate::text::lowercase(before[k]));
            } else {
                let m = choose|m: int| 0 <= m < rest.len() && rest[m] == before[j];
                assert(crate::text::lowercase(rest[m]) != crate::text::lowercase(last));
            }
        }
    }
}

pub(crate) proof fn lemma_all_sentences(contents: Seq<Seq<char>>, k: int)
    requires
        0 <= k < all_sentences(contents).len(),
    ensures
        crate::text::is_sentence(all_sentences(contents)[k]),
    decreases contents.len(),
{
    if contents.len() > 0 {
        let before = all_sentences(contents.drop_last());
        if k < before.len() {
            lemma_all_sentences(contents.drop_last(), k);
        } else {
            crate::text::sentences_are_sentences(contents.last(), k - before.len());
        }
    }
}

proof fn lemma_distinct_sentences(s: Seq<Seq<char>>)
    requires
        forall|j: int, k: int|
            0 <= j < k < s.len() ==> crate::text::lowercase(#[trigger] s[j])
                != crate::text::lowercase(#[trigger] s[k]),
    ensures
        first_of_each(s) == s,
    decreases s.len(),
{
    if s.len() > 0 {
        let rest = s.drop_last();
        assert forall|j: int, k: int| 0 <= j < k < rest.len() implies crate::text::lowercase(
            #[trigger] rest[j],
        ) != crate::text::lowercase(#[trigger] rest[k]) by {
            assert(crate::text::lowercase(s[j]) != crate::text::lowercase(s[k]));
        }
        lemma_distinct_sentences(rest);
        assert(!seen_before(rest, s.last())) by {
            if seen_before(rest, s.last()) {
                let j = choose|j: int|
                    0 <= j < rest.len() && crate::text::lowercase(#[trigger] rest[j])
                        == crate::text::lowercase(s.last());
                assert(crate::text::lowercase(s[j]) != crate::text::lowercase(s[s.len() - 1]));
            }
        }
        assert(rest.push(s.last()) =~= s);
    } else {
        assert(s =~= Seq::<Seq<char>>::empty());
    }
}

/// A merged text that is merged again stays as it is.
pub proof fn merging_again_changes_nothing(contents: Seq<Seq<char>>)
    ensures
        merged_text(seq![merged_text(contents)]) == merged_text(contents),
{
    let all = all_sentences(contents);
    let parts = first_of_each(all);
    each_sentence_once(all);
    assert forall|k: int| 0 <= k < parts.len() implies crate::text::is_sentence(
        #[trigger] parts[k],
    ) by {
        assert(all.contains(parts[k]));
        let m = choose|m: int| 0 <= m < all.len() && all[m] == parts[k];
        lemma_all_sentences(contents, m);
    }
    crate::text::joined_sentences(parts);
    lemma_distinct_sentences(parts);
    let again = seq![merged_text(contents)];
    assert(again.drop_last() =~= Seq::<Seq<char>>::empty());
    assert(all_sentences(again.drop_last()) =~= Seq::<Seq<char>>::empty());
    assert(all_sentences(again) =~= parts);
}

proof fn lemma_all_sentences_of_both(a: Seq<Seq<char>>, b: Seq<Seq<char>>)
    ensures
        all_sentences(a + b) == all_sentences(a) + all_sentences(b),
    decreases b.len(),
{
    if b.len() == 0 {
        assert(a + b =~= a);
    } else {
        assert((a + b).drop_last() =~= a + b.drop_last());
        lemma_all_sentences_of_both(a, b.drop_last());
    }
    assert(all_sentences(a + b) =~= all_sentences(a) + all_sentences(b));
}

proof fn lemma_nothing_new(s: Seq<Seq<char>>, t: Seq<Seq<char>>)
    requires
        forall|k: int| 0 <= k < t.len() ==> seen_before(s, #[trigger] t[k]),
    ensures
        first_of_each(s + t) == first_of_each(s),
    decreases t.len(),
{
    if t.len() == 0 {
        assert(s + t =~= s);
    } else {
        let rest = t.drop_last();
        assert forall|k: int| 0 <= k < rest.len() implies seen_before(s, #[trigger] rest[k]) by {
            assert(seen_before(s, t[k]));
        }
        lemma_nothing_new(s, rest);
        assert((s + t).drop_last() =~= s + rest);
        assert(seen_before(s, t[t.len() - 1]));
        let i = choose|i: int|
            0 <= i < s.len() && crate::text::lowercase(#[trigger] s[i]) == crate::text::lowercase(
                t.last(),
            );
        assert((s + rest)[i] == s[i]);
        assert(seen_before(s + rest, t.last()));
    }
}

/// Texts that are merged together with themselves give what they give alone.
pub proof fn merging_twice_over_changes_nothing(contents: Seq<Seq<char>>)
    ensures
        merged_text(contents + contents) == merged_text(contents),
{
    let all = all_sentences(contents);
    lemma_all_sentences_of_both(contents, contents);
    assert forall|k: int| 0 <= k < all.len() implies seen_before(all, #[trigger] all[k]) by {}
    lemma_nothing_new(all, all);
}

/// Similarity does not depend on the order of the two texts.
pub proof fn similarity_is_symmetric(a: Seq<char>, b: Seq<char>)
    ensures
        similarity(a, b) == similarity(b, a),
{
    assert(word_set(a).intersect(word_set(b)) =~= word_set(b).intersect(word_set(a)));
    assert(word_set(a).union(word_set(b)) =~= word_set(b).union(word_set(a)));
}

/// Similarity lies from 0 to 1. Texts with the same words, if they have any, are
/// as similar as can be; and, as long as all their words can be counted exactly,
/// no others are.
pub proof fn similarity_is_a_share(a: Seq<char>, b: Seq<char>)
    requires
        word_set(a).union(word_set(b)).len() <= vstd::arithmetic::power2::pow2(65),
    ensures
        similarity(a, b).at_least(Binary64 { bits: 0 }),
        (Binary64 { bits: ONE }).at_least(similarity(a, b)),
        word_set(a) == word_set(b) && word_set(a).len() > 0 ==> similarity(a, b) == (Binary64 {
            bits: ONE,
        }),
        word_set(a).union(word_set(b)).len() < vstd::arithmetic::power2::pow2(53) && similarity(
            a,
            b,
        ) == (Binary64 { bits: ONE }) ==> word_set(a) == word_set(b) && word_set(a).len() > 0,
{
    let wa = word_set(a);
    let wb = word_set(b);
    let both = wa.intersect(wb);
    let all = wa.union(wb);
    crate::format::lemma_inf(crate::binary::binary64());
    crate::format::lemma_bound_120();
    if wa.len() > 0 && wb.len() > 0 {
        vstd::seq_lib::seq_to_set_is_finite(crate::text::words(a));
        vstd::seq_lib::seq_to_set_is_finite(crate::text::words(b));
        vstd::set_lib::lemma_len_subset(both, wa);
        vstd::set_lib::lemma_len_subset(wa, all);
        vstd::set_lib::lemma_len_subset(wb, all);
        crate::rounding::share_of_whole(both.len() as int, all.len() as int);
        if wa == wb {
            assert(both =~= wa && all =~= wa);
        }
        if both.len() == all.len() {
            vstd::set_lib::lemma_subset_equality(both, all);
            assert forall|w: Seq<char>| wa.contains(w) == wb.contains(w) by {
                if wa.contains(w) || wb.contains(w) {
                    assert(all.contains(w));
                    assert(both.contains(w));
                }
            }
            assert(wa =~= wb);
        }
    }
}

} // verus!
