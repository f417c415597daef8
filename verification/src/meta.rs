//! Tallies of how recalled memories fared, and what is learnt from them.

use vstd::prelude::*;
use crate::binary::Binary64;
use crate::numbers::{HALF, ONE, TWENTIETH};
use crate::text::same;

verus! {

/// How often a memory was recalled, praised and blamed.
#[derive(Clone, Copy, PartialEq, Eq, Structural, Debug)]
pub struct Tally {
    pub retrieved: u64,
    pub positive: u64,
    pub negative: u64,
}

/// What can happen to a memory.
#[derive(Clone, Copy, PartialEq, Eq, Structural, Debug)]
pub enum Outcome {
    Retrieved,
    Praised,
    Blamed,
}

/// A count, increased by one. It stops at the greatest one that is held.
pub open spec fn next(n: u64) -> u64 {
    if n == u64::MAX {
        n
    } else {
        (n + 1) as u64
    }
}

fn count_on(n: u64) -> (r: u64)
    ensures
        r == next(n),
{
    if n == u64::MAX {
        n
    } else {
        n + 1
    }
}

impl Tally {
    /// The tally after one more outcome.
    pub open spec fn after(self, what: Outcome) -> Tally {
        match what {
            Outcome::Retrieved => Tally { retrieved: next(self.retrieved), ..self },
            Outcome::Praised => Tally { positive: next(self.positive), ..self },
            Outcome::Blamed => Tally { negative: next(self.negative), ..self },
        }
    }

    fn count(self, what: Outcome) -> (r: Tally)
        ensures
            r == self.after(what),
    {
        match what {
            Outcome::Retrieved => Tally { retrieved: count_on(self.retrieved), ..self },
            Outcome::Praised => Tally { positive: count_on(self.positive), ..self },
            Outcome::Blamed => Tally { negative: count_on(self.negative), ..self },
        }
    }

    /// By how much the importance of a memory changes: from -0.025 where all
    /// feedback was blame to 0.025 where all was praise. Nothing is learnt of
    /// a memory that was recalled less than twice or had no feedback.
    pub open spec fn lesson(self) -> Option<Binary64> {
        let total = self.positive + self.negative;
        if self.retrieved < 2 || total == 0 {
            None
        } else {
            Some(
                Binary64::of_int(self.positive as int).over(Binary64::of_int(total)).minus(
                    Binary64 { bits: HALF },
                ).times(Binary64 { bits: TWENTIETH }),
            )
        }
    }

    /// By how much the importance of a memory changes.
    pub fn adjustment(self) -> (r: Option<Binary64>)
        ensures
            r == self.lesson(),
    {
        let total: i128 = self.positive as i128 + self.negative as i128;
        if self.retrieved < 2 || total == 0 {
            None
        } else {
            let ratio = Binary64::from_int(self.positive as i128).div(Binary64::from_int(total));
            Some(ratio.sub(Binary64 { bits: HALF }).mul(Binary64 { bits: TWENTIETH }))
        }
    }
}

/// The importance of a memory after an adjustment, from 0.05 to 1.
pub open spec fn adjusted(importance: Binary64, by: Binary64) -> Binary64 {
    importance.plus(by).within(Binary64 { bits: TWENTIETH }, Binary64 { bits: ONE })
}

/// The tally of a memory.
pub struct TallyView {
    pub id: Seq<char>,
    pub tally: Tally,
}

/// The tallies of memories.
#[derive(Debug)]
pub struct MetaStats {
    tallies: Vec<(String, Tally)>,
}

pub open spec fn tally_at(s: Seq<TallyView>, i: int, id: Seq<char>) -> bool {
    0 <= i < s.len() && s[i].id == id
}

pub open spec fn has_tally(s: Seq<TallyView>, id: Seq<char>) -> bool {
    exists|i: int| tally_at(s, i, id)
}

pub open spec fn tally_place(s: Seq<TallyView>, id: Seq<char>) -> int {
    choose|i: int| tally_at(s, i, id)
}

/// The tally of a memory; all zero where nothing has been counted yet.
pub open spec fn tally_of(s: Seq<TallyView>, id: Seq<char>) -> Tally {
    if has_tally(s, id) {
        s[tally_place(s, id)].tally
    } else {
        Tally { retrieved: 0, positive: 0, negative: 0 }
    }
}

/// No memory has two tallies.
pub open spec fn unique_tallies(s: Seq<TallyView>) -> bool {
    forall|i: int, j: int|
        0 <= i < j < s.len() ==> (#[trigger] s[i]).id != (#[trigger] s[j]).id
}

/// The tallies after one more outcome of a memory.
pub open spec fn counted(s: Seq<TallyView>, id: Seq<char>, what: Outcome) -> Seq<TallyView> {
    let t = TallyView { id, tally: tally_of(s, id).after(what) };
    if has_tally(s, id) {
        s.update(tally_place(s, id), t)
    } else {
        s.push(t)
    }
}

/// The tally of a memory stands at one place.
pub proof fn lemma_tally_place(s: Seq<TallyView>, i: int, id: Seq<char>)
    requires
        unique_tallies(s),
        tally_at(s, i, id),
    ensures
        has_tally(s, id),
        tally_place(s, id) == i,
{
    let p = tally_place(s, id);
    assert(tally_at(s, p, id));
    if p < i {
        assert(s[p].id != s[i].id);
    }
    if i < p {
        assert(s[i].id != s[p].id);
    }
}

/// Counting an outcome of a memory changes its tally and no other.
pub proof fn count_then_read(s: Seq<TallyView>, id: Seq<char>, what: Outcome, other: Seq<char>)
    requires
        unique_tallies(s),
    ensures
        unique_tallies(counted(s, id, what)),
        tally_of(counted(s, id, what), other) == if other == id {
            tally_of(s, id).after(what)
        } else {
            tally_of(s, other)
        },
{
    let t = counted(s, id, what);
    let p = if has_tally(s, id) {
        tally_place(s, id)
    } else {
        s.len() as int
    };
    if has_tally(s, id) {
        assert(tally_at(s, p, id));
    }
    assert forall|i: int, j: int| 0 <= i < j < t.len() implies (#[trigger] t[i]).id != (
    #[trigger] t[j]).id by {
        if j < s.len() {
            assert(s[i].id != s[j].id);
        } else {
            assert(!tally_at(s, i, id));
        }
    }
    assert(tally_at(t, p, id));
    if other == id {
        lemma_tally_place(t, p, id);
    } else if has_tally(s, other) {
        let q = tally_place(s, other);
        assert(tally_at(s, q, other));
        assert(tally_at(t, q, other));
        lemma_tally_place(t, q, other);
    } else if has_tally(t, other) {
        let q = tally_place(t, other);
        assert(tally_at(t, q, other));
        assert(tally_at(s, q, other));
    }
}

impl MetaStats {
    pub closed spec fn view(&self) -> Seq<TallyView> {
        Seq::new(
            self.tallies@.len(),
            |i: int| TallyView { id: self.tallies@[i].0@, tally: self.tallies@[i].1 },
        )
    }

    pub open spec fn wf(&self) -> bool {
        unique_tallies(self@)
    }

    /// No tallies.
    pub fn new() -> (r: MetaStats)
        ensures
            r.wf(),
            r@ == Seq::<TallyView>::empty(),
    {
        MetaStats { tallies: Vec::new() }
    }

    /// The number of tallies.
    pub fn len(&self) -> (n: usize)
        ensures
            n == self@.len(),
    {
        self.tallies.len()
    }

    /// The memory at a place, and its tally.
    pub fn entry(&self, i: usize) -> (r: (&str, Tally))
        requires
            i < self@.len(),
        ensures
            self@[i as int] == (TallyView { id: r.0@, tally: r.1 }),
    {
        let t = &self.tallies[i];
        (t.0.as_str(), t.1)
    }

    /// Counts one more outcome of a memory.
    pub fn count(&mut self, id: &str, what: Outcome)
        requires
            old(self).wf(),
        ensures
            final(self).wf(),
            final(self)@ == counted(old(self)@, id@, what),
    {
        let ghost s = self@;
        proof {
            count_then_read(s, id@, what, id@);
        }
        let mut i: usize = 0;
        while i < self.tallies.len()
            invariant
                i <= self.tallies@.len(),
                self@ == s,
                self.wf(),
                forall|j: int| 0 <= j < i ==> !tally_at(s, j, id@),
                unique_tallies(counted(s, id@, what)),
                s == old(self)@,
            decreases self.tallies@.len() - i,
        {
            if same(self.tallies[i].0.as_str(), id) {
                assert(tally_at(s, i as int, id@));
                proof {
                    lemma_tally_place(s, i as int, id@);
                }
                let t = self.tallies[i].1.count(what);
                self.tallies.set(i, (id.to_owned(), t));
                assert(self@ =~= counted(s, id@, what));
                return;
            }
            assert(!tally_at(s, i as int, id@));
            i = i + 1;
        }
        let t = Tally { retrieved: 0, positive: 0, negative: 0 }.count(what);
        self.tallies.push((id.to_owned(), t));
        assert(self@ =~= counted(s, id@, what));
    }
}

} // verus!
