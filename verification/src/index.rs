//! An inverted index: which memories hold which search token.

use vstd::prelude::*;
use crate::text::{same, tokenize};

verus! {

/// The memories that hold one token.
#[derive(Debug)]
struct Posting {
    token: String,
    ids: Vec<String>,
}

/// An inverted index from tokens to memory identifiers.
#[derive(Debug)]
pub struct InvertedIndex {
    postings: Vec<Posting>,
}

/// A token and the identifier of a memory that holds it.
pub type Entry = (Seq<char>, Seq<char>);

/// The entries of one memory with the given tokens.
pub open spec fn entries(tokens: Seq<Seq<char>>, id: Seq<char>) -> Set<Entry> {
    Set::new(|e: Entry| e.1 == id && tokens.contains(e.0))
}

/// `index` without the memory `id`.
pub open spec fn without_id(index: Set<Entry>, id: Seq<char>) -> Set<Entry> {
    index.filter(|e: Entry| e.1 != id)
}

impl InvertedIndex {
    spec fn listed(self, k: int, token: Seq<char>, id: Seq<char>) -> bool {
        &&& 0 <= k < self.postings@.len()
        &&& self.postings@[k].token@ == token
        &&& crate::text::texts(self.postings@[k].ids@).contains(id)
    }

    /// The tokens of the memories in the index.
    pub closed spec fn view(&self) -> Set<Entry> {
        Set::new(|e: Entry| exists|k: int| self.listed(k, e.0, e.1))
    }

    /// Each token is listed once, with at least one memory.
    pub closed spec fn wf(&self) -> bool {
        &&& forall|i: int, j: int|
            0 <= i < j < self.postings@.len() ==> (#[trigger] self.postings@[i]).token@ != (
            #[trigger] self.postings@[j]).token@
        &&& forall|i: int|
            0 <= i < self.postings@.len() ==> (#[trigger] self.postings@[i]).ids@.len() > 0
    }

    /// An index without entries.
    pub fn new() -> (r: InvertedIndex)
        ensures
            r.wf(),
            r@ == Set::<Entry>::empty(),
    {
        let r = InvertedIndex { postings: Vec::new() };
        assert(r@ =~= Set::<Entry>::empty());
        r
    }

    /// The place of a token, or the number of tokens where it has none.
    fn find(&self, token: &str) -> (k: usize)
        requires
            self.wf(),
        ensures
            k <= self.postings@.len(),
            k < self.postings@.len() ==> self.postings@[k as int].token@ == token@,
            k == self.postings@.len() ==> forall|j: int|
                0 <= j < self.postings@.len() ==> (#[trigger] self.postings@[j]).token@ != token@,
    {
        let mut k: usize = 0;
        while k < self.postings.len()
            invariant
                k <= self.postings@.len(),
                forall|j: int| 0 <= j < k ==> (#[trigger] self.postings@[j]).token@ != token@,
            decreases self.postings@.len() - k,
        {
            if same(self.postings[k].token.as_str(), token) {
                return k;
            }
            k = k + 1;
        }
        k
    }

    /// Whether the memory `id` holds `token`.
    pub fn contains(&self, token: &str, id: &str) -> (r: bool)
        requires
            self.wf(),
        ensures
            r == self@.contains((token@, id@)),
    {
        let k = self.find(token);
        if k == self.postings.len() {
            assert(!self@.contains((token@, id@)));
            return false;
        }
        let ids = &self.postings[k].ids;
        let ghost all = crate::text::texts(ids@);
        let mut j: usize = 0;
        while j < ids.len()
            invariant
                j <= ids.len(),
                k < self.postings@.len(),
                self.postings@[k as int].token@ == token@,
                *ids == self.postings@[k as int].ids,
                all == crate::text::texts(ids@),
                forall|i: int| 0 <= i < j ==> all[i] != id@,
            decreases ids.len() - j,
        {
            assert(all[j as int] == ids@[j as int]@);
            if same(ids[j].as_str(), id) {
                proof {
                    let e = (token@, id@);
                    assert(self.listed(k as int, e.0, e.1));
                    assert(self@.contains(e));
                }
                return true;
            }
            j = j + 1;
        }
        assert(!all.contains(id@));
        assert forall|i: int| !self.listed(i, token@, id@) by {
            if self.listed(i, token@, id@) {
                assert(i == k);
            }
        }
        false
    }

    /// Lists `token` for the memory `id`.
    pub fn insert(&mut self, token: String, id: &str)
        requires
            old(self).wf(),
        ensures
            final(self).wf(),
            final(self)@ == old(self)@.insert((token@, id@)),
    {
        if self.contains(token.as_str(), id) {
            assert(self@ =~= old(self)@.insert((token@, id@)));
            return;
        }
        let k = self.find(token.as_str());
        let ghost before = *self;
        let ghost t = token@;
        if k < self.postings.len() {
            let mut p = self.postings.remove(k);
            let ghost old_ids = p.ids@;
            p.ids.push(id.to_owned());
            let ghost new_ids = p.ids@;
            self.postings.insert(k, p);
            proof {
                let e = (t, id@);
                assert(self.postings@ =~= before.postings@.update(k as int, p));
                assert(crate::text::texts(new_ids) == crate::text::texts(old_ids).push(id@));
                assert(self.listed(k as int, t, id@)) by {
                    assert(crate::text::texts(new_ids)[old_ids.len() as int] == id@);
                }
                assert forall|x: Entry| self@.contains(x) == before@.insert(e).contains(x) by {
                    if self@.contains(x) {
                        let i = choose|i: int| self.listed(i, x.0, x.1);
                        if i == k {
                            let m = choose|m: int|
                                0 <= m < new_ids.len() && crate::text::texts(new_ids)[m] == x.1;
                            if m < old_ids.len() {
                                assert(crate::text::texts(old_ids)[m] == x.1);
                                assert(before.listed(k as int, x.0, x.1));
                            }
                        } else {
                            assert(before.listed(i, x.0, x.1));
                        }
                    }
                    if before@.contains(x) {
                        let i = choose|i: int| before.listed(i, x.0, x.1);
                        if i == k {
                            let m = choose|m: int|
                                0 <= m < old_ids.len() && crate::text::texts(old_ids)[m] == x.1;
                            assert(crate::text::texts(new_ids)[m] == x.1);
                        }
                        assert(self.listed(i, x.0, x.1));
                    }
                    if x == e {
                        assert(self.listed(k as int, x.0, x.1));
                    }
                }
                assert(self@ =~= before@.insert(e));
            }
        } else {
            let mut ids: Vec<String> = Vec::new();
            ids.push(id.to_owned());
            let ghost new_ids = ids@;
            self.postings.push(Posting { token, ids });
            proof {
                let e = (t, id@);
                assert(crate::text::texts(new_ids)[0] == id@);
                assert(self.listed(k as int, t, id@));
                assert forall|x: Entry| self@.contains(x) == before@.insert(e).contains(x) by {
                    if self@.contains(x) {
                        let i = choose|i: int| self.listed(i, x.0, x.1);
                        if i < k {
                            assert(before.listed(i, x.0, x.1));
                        }
                    }
                    if before@.contains(x) {
                        let i = choose|i: int| before.listed(i, x.0, x.1);
                        assert(self.listed(i, x.0, x.1));
                    }
                    if x == e {
                        assert(self.listed(k as int, x.0, x.1));
                    }
                }
                assert(self@ =~= before@.insert(e));
            }
        }
    }

    /// Lists all tokens of a content for the memory `id`.
    pub fn index_record(&mut self, content: &str, id: &str)
        requires
            old(self).wf(),
        ensures
            final(self).wf(),
            final(self)@ == old(self)@.union(
                entries(crate::text::tokens(crate::text::lowercase(content@)), id@),
            ),
    {
        let tokens = tokenize(content);
        let ghost all = crate::text::texts(tokens@);
        let ghost before = self@;
        let mut i: usize = 0;
        assert(self@ =~= before.union(entries(all.take(0), id@)));
        while i < tokens.len()
            invariant
                i <= tokens.len(),
                all == crate::text::texts(tokens@),
                self.wf(),
                self@ == before.union(entries(all.take(i as int), id@)),
            decreases tokens.len() - i,
        {
            assert(all[i as int] == tokens@[i as int]@);
            self.insert(tokens[i].clone(), id);
            proof {
                let now = all.take(i + 1);
                assert(now == all.take(i as int).push(all[i as int]));
                assert forall|e: Entry|
                    entries(now, id@).contains(e) == entries(all.take(i as int), id@).insert(
                        (all[i as int], id@),
                    ).contains(e) by {
                    if all.take(i as int).contains(e.0) {
                        let m = choose|m: int| 0 <= m < i && all.take(i as int)[m] == e.0;
                        assert(now[m] == e.0);
                    }
                    assert(now[i as int] == all[i as int]);
                    if now.contains(e.0) {
                        let m = choose|m: int| 0 <= m < now.len() && now[m] == e.0;
                        if m < i {
                            assert(all.take(i as int)[m] == e.0);
                        }
                    }
                }
                assert(self@ =~= before.union(entries(now, id@)));
            }
            i = i + 1;
        }
        assert(all.take(tokens.len() as int) == all);
    }

    /// Removes a memory from the index.
    pub fn deindex_record(&mut self, id: &str)
        requires
            old(self).wf(),
        ensures
            final(self).wf(),
            final(self)@ == without_id(old(self)@, id@),
    {
        let ghost before = *self;
        let mut kept: Vec<Posting> = Vec::new();
        let mut i: usize = 0;
        while i < self.postings.len()
            invariant
                i <= self.postings@.len(),
                *self == before,
                self.wf(),
                forall|a: int, b: int|
                    0 <= a < b < kept@.len() ==> (#[trigger] kept@[a]).token@ != (
                    #[trigger] kept@[b]).token@,
                forall|a: int| 0 <= a < kept@.len() ==> (#[trigger] kept@[a]).ids@.len() > 0,
                forall|a: int|
                    0 <= a < kept@.len() ==> is_some_rest(#[trigger] kept@[a], before, i as int, id@),
                forall|k: int|
                    0 <= k < i ==> has_rest(kept@, #[trigger] before.postings@[k], id@),
            decreases self.postings@.len() - i,
        {
            let p = &self.postings[i];
            let ids = others(&p.ids, id);
            let ghost kept_before = kept@;
            if ids.len() > 0 {
                let q = Posting { token: p.token.clone(), ids };
                kept.push(q);
                proof {
                    assert(is_rest_of(q, before, i as int, i + 1, id@));
                    assert forall|a: int, b: int| 0 <= a < b < kept@.len() implies (
                    #[trigger] kept@[a]).token@ != (#[trigger] kept@[b]).token@ by {
                        if b == kept_before.len() {
                            assert(kept@[a] == kept_before[a]);
                            let k = choose|k: int|
                                is_rest_of(kept_before[a], before, k, i as int, id@);
                            assert(before.postings@[k].token@ != before.postings@[i as int].token@);
                        }
                    }
                    assert(has_rest(kept@, before.postings@[i as int], id@)) by {
                        assert(kept@[kept_before.len() as int] == q);
                    }
                }
            } else {
                assert(has_rest(kept@, before.postings@[i as int], id@));
            }
            proof {
                assert forall|a: int| 0 <= a < kept@.len() implies is_some_rest(
                    #[trigger] kept@[a],
                    before,
                    i + 1,
                    id@,
                ) by {
                    if a < kept_before.len() {
                        assert(kept@[a] == kept_before[a]);
                        let k = choose|k: int| is_rest_of(kept_before[a], before, k, i as int, id@);
                        assert(is_rest_of(kept@[a], before, k, i + 1, id@));
                    } else {
                        assert(is_rest_of(kept@[a], before, i as int, i + 1, id@));
                    }
                }
                assert forall|k: int| 0 <= k < i + 1 implies has_rest(
                    kept@,
                    #[trigger] before.postings@[k],
                    id@,
                ) by {
                    if k < i {
                        assert(has_rest(kept_before, before.postings@[k], id@));
                        if remaining(before.postings@[k], id@).len() > 0 {
                            let a = choose|a: int|
                                0 <= a < kept_before.len() && #[trigger] kept_before[a].token@
                                    == before.postings@[k].token@ && crate::text::texts(
                                    kept_before[a].ids@,
                                ) == remaining(before.postings@[k], id@);
                            assert(kept@[a] == kept_before[a]);
                        }
                    }
                }
            }
            i = i + 1;
        }
        self.postings = kept;
        proof {
            assert forall|x: Entry| self@.contains(x) == without_id(before@, id@).contains(x) by {
                if self@.contains(x) {
                    let a = choose|a: int| self.listed(a, x.0, x.1);
                    let k = choose|k: int|
                        is_rest_of(kept@[a], before, k, before.postings@.len() as int, id@);
                    lemma_remaining(before.postings@[k], id@, x.1);
                    assert(before.listed(k, x.0, x.1));
                }
                if without_id(before@, id@).contains(x) {
                    let k = choose|k: int| before.listed(k, x.0, x.1);
                    lemma_remaining(before.postings@[k], id@, x.1);
                    assert(has_rest(kept@, before.postings@[k], id@));
                    let a = choose|a: int|
                        0 <= a < kept@.len() && #[trigger] kept@[a].token@
                            == before.postings@[k].token@ && crate::text::texts(kept@[a].ids@)
                            == remaining(before.postings@[k], id@);
                    assert(self.listed(a, x.0, x.1));
                }
            }
            assert(self@ =~= without_id(before@, id@));
        }
    }
}

/// The memories of a posting other than `id`.
spec fn remaining(p: Posting, id: Seq<char>) -> Seq<Seq<char>> {
    crate::text::texts(p.ids@).filter(other_than(id))
}

spec fn other_than(id: Seq<char>) -> spec_fn(Seq<char>) -> bool {
    |s: Seq<char>| s != id
}

proof fn lemma_remaining(p: Posting, id: Seq<char>, x: Seq<char>)
    ensures
        remaining(p, id).contains(x) == (crate::text::texts(p.ids@).contains(x) && x != id),
        remaining(p, id).contains(x) ==> remaining(p, id).len() > 0,
{
    let s = crate::text::texts(p.ids@);
    let keep = other_than(id);
    broadcast use vstd::seq_lib::group_filter_ensures;

    if s.contains(x) && x != id {
        let i = choose|i: int| 0 <= i < s.len() && s[i] == x;
        assert(keep(s[i]));
    }
    if remaining(p, id).contains(x) {
        s.lemma_filter_contains_rev(keep, x);
        let j = choose|j: int| 0 <= j < remaining(p, id).len() && remaining(p, id)[j] == x;
        assert(keep(s.filter(keep)[j]));
    }
}

/// `q` is the posting `k` of `index` without `id`, and `k < bound`.
spec fn is_rest_of(q: Posting, index: InvertedIndex, k: int, bound: int, id: Seq<char>) -> bool {
    &&& 0 <= k < bound
    &&& k < index.postings@.len()
    &&& q.token@ == index.postings@[k].token@
    &&& crate::text::texts(q.ids@) == remaining(index.postings@[k], id)
}

spec fn is_some_rest(q: Posting, index: InvertedIndex, bound: int, id: Seq<char>) -> bool {
    exists|k: int| is_rest_of(q, index, k, bound, id)
}

/// `kept` holds what is left of `p` without `id`, if anything is.
spec fn has_rest(kept: Seq<Posting>, p: Posting, id: Seq<char>) -> bool {
    remaining(p, id).len() > 0 ==> exists|a: int|
        0 <= a < kept.len() && #[trigger] kept[a].token@ == p.token@ && crate::text::texts(
            kept[a].ids@,
        ) == remaining(p, id)
}

/// The texts of `ids` other than `id`.
fn others(ids: &Vec<String>, id: &str) -> (r: Vec<String>)
    ensures
        crate::text::texts(r@) == crate::text::texts(ids@).filter(other_than(id@)),
{
    let ghost all = crate::text::texts(ids@);
    let ghost keep = other_than(id@);
    let mut r: Vec<String> = Vec::new();
    let mut i: usize = 0;
    assert(all.take(0).filter(keep) == Seq::<Seq<char>>::empty()) by {
        reveal(Seq::filter);
    }
    while i < ids.len()
        invariant
            i <= ids.len(),
            all == crate::text::texts(ids@),
            keep == other_than(id@),
            crate::text::texts(r@) == all.take(i as int).filter(keep),
        decreases ids.len() - i,
    {
        let ghost before = r@;
        assert(all.take(i + 1).drop_last() == all.take(i as int));
        assert(all.take(i + 1).last() == ids@[i as int]@);
        if !same(ids[i].as_str(), id) {
            r.push(ids[i].clone());
            assert(crate::text::texts(r@) == crate::text::texts(before).push(ids@[i as int]@));
        }
        assert(crate::text::texts(r@) == all.take(i + 1).filter(keep)) by {
            reveal(Seq::filter);
        }
        i = i + 1;
    }
    assert(all.take(ids.len() as int) == all);
    r
}

} // verus!
