//! Links between memories that are recalled together.
//!
//! The weight of a pair is negative while its joint recalls are being
//! counted (minus the count), and positive once the pair is linked (the
//! strength of the link).

use vstd::prelude::*;
use crate::binary::Binary64;
use crate::numbers::{ONE, MINUS_ONE, TENTH};
use crate::text::{comes_before, same};

verus! {

/// The weight of a pair of memories.
#[derive(Debug)]
struct Link {
    a: String,
    b: String,
    weight: Binary64,
}

/// The weight of a pair of memories.
pub struct LinkView {
    pub a: Seq<char>,
    pub b: Seq<char>,
    pub weight: Binary64,
}

impl Link {
    spec fn view(&self) -> LinkView {
        LinkView { a: self.a@, b: self.b@, weight: self.weight }
    }
}

/// The weights of pairs of memories.
#[derive(Debug)]
pub struct HebbianLinks {
    links: Vec<Link>,
}

// --- What the operations mean ---

/// Whether the pair `(a, b)` has a weight.
pub open spec fn has_link(s: Seq<LinkView>, a: Seq<char>, b: Seq<char>) -> bool {
    exists|i: int| link_at(s, i, a, b)
}

pub open spec fn link_at(s: Seq<LinkView>, i: int, a: Seq<char>, b: Seq<char>) -> bool {
    0 <= i < s.len() && s[i].a == a && s[i].b == b
}

/// The place of the pair `(a, b)`.
pub open spec fn link_place(s: Seq<LinkView>, a: Seq<char>, b: Seq<char>) -> int {
    choose|i: int| link_at(s, i, a, b)
}

/// The weight of the pair `(a, b)`.
pub open spec fn weight_of(s: Seq<LinkView>, a: Seq<char>, b: Seq<char>) -> Option<Binary64> {
    if has_link(s, a, b) {
        Some(s[link_place(s, a, b)].weight)
    } else {
        None
    }
}

/// `s` with the given weight for the pair `(a, b)`.
pub open spec fn set_weight(
    s: Seq<LinkView>,
    a: Seq<char>,
    b: Seq<char>,
    weight: Binary64,
) -> Seq<LinkView> {
    let l = LinkView { a, b, weight };
    if has_link(s, a, b) {
        s.update(link_place(s, a, b), l)
    } else {
        s.push(l)
    }
}

/// No pair has two weights.
pub open spec fn unique_pairs(s: Seq<LinkView>) -> bool {
    forall|i: int, j: int|
        0 <= i < j < s.len() ==> !((#[trigger] s[i]).a == (#[trigger] s[j]).a && s[i].b == s[j].b)
}

/// Two memories in the order in which the weight of the pair is kept.
pub open spec fn ordered(id1: Seq<char>, id2: Seq<char>) -> (Seq<char>, Seq<char>) {
    if crate::text::precedes(id1, id2) {
        (id1, id2)
    } else {
        (id2, id1)
    }
}

pub open spec fn positive(w: Binary64) -> bool {
    (Binary64 { bits: 0 }).below(w)
}

/// How often a pair has been recalled together, this time included, given
/// the weight that counts the times before.
pub open spec fn joint_recalls(w: Binary64) -> int {
    w.negated().to_int32() + 1
}

/// The new weight of a pair that is recalled together once more, and whether
/// this forms a link.
pub open spec fn coactivated(current: Option<Binary64>, threshold: i32) -> (Binary64, bool) {
    match current {
        None => if threshold <= 1 {
            (Binary64 { bits: ONE }, true)
        } else {
            (Binary64 { bits: MINUS_ONE }, false)
        },
        Some(w) => if positive(w) {
            (w.plus(Binary64 { bits: TENTH }).lesser(Binary64 { bits: ONE }), false)
        } else if joint_recalls(w) >= threshold {
            (Binary64 { bits: ONE }, true)
        } else {
            (Binary64::of_int(joint_recalls(w)).negated(), false)
        },
    }
}

/// The weights after the pair `(id1, id2)` is recalled together once more.
pub open spec fn after_coactivation(
    s: Seq<LinkView>,
    id1: Seq<char>,
    id2: Seq<char>,
    threshold: i32,
) -> Seq<LinkView> {
    let (a, b) = ordered(id1, id2);
    set_weight(s, a, b, coactivated(weight_of(s, a, b), threshold).0)
}

/// Whether one more joint recall of `(id1, id2)` forms a link.
pub open spec fn forms_link(
    s: Seq<LinkView>,
    id1: Seq<char>,
    id2: Seq<char>,
    threshold: i32,
) -> bool {
    let (a, b) = ordered(id1, id2);
    coactivated(weight_of(s, a, b), threshold).1
}

/// The stronger of a weight and a strength.
pub open spec fn stronger(current: Option<Binary64>, strength: Binary64) -> Binary64 {
    match current {
        None => strength,
        Some(w) => w.greater(strength),
    }
}

/// The weights after the pair `(id1, id2)` is given at least `strength`.
pub open spec fn raised(
    s: Seq<LinkView>,
    id1: Seq<char>,
    id2: Seq<char>,
    strength: Binary64,
) -> Seq<LinkView> {
    let (a, b) = ordered(id1, id2);
    set_weight(s, a, b, stronger(weight_of(s, a, b), strength))
}

/// The weights in a list of pairs.
pub open spec fn links_of(v: Seq<(String, String, Binary64)>) -> Seq<LinkView> {
    Seq::new(v.len(), |i: int| LinkView { a: v[i].0@, b: v[i].1@, weight: v[i].2 })
}

/// `s` with the weights of another list, one after the other.
pub open spec fn with_links(s: Seq<LinkView>, new: Seq<LinkView>) -> Seq<LinkView>
    decreases new.len(),
{
    if new.len() == 0 {
        s
    } else {
        let l = new.last();
        set_weight(with_links(s, new.drop_last()), l.a, l.b, l.weight)
    }
}

/// The memory that `l` links with `id`.
pub open spec fn neighbor(l: LinkView, id: Seq<char>) -> Option<Seq<char>> {
    if !positive(l.weight) {
        None
    } else if l.a == id {
        Some(l.b)
    } else if l.b == id {
        Some(l.a)
    } else {
        None
    }
}

/// The memories linked with `id`.
pub open spec fn neighbors(s: Seq<LinkView>, id: Seq<char>) -> Seq<Seq<char>> {
    s.filter_map(|l: LinkView| neighbor(l, id))
}

/// A weight after decay by `factor`. Counts do not decay.
pub open spec fn faded(w: Binary64, factor: Binary64) -> Binary64 {
    if positive(w) {
        w.times(factor)
    } else {
        w
    }
}

pub open spec fn fade(l: LinkView, factor: Binary64) -> LinkView {
    LinkView { a: l.a, b: l.b, weight: faded(l.weight, factor) }
}

/// Whether a weight is kept after decay: counts are, and links of 0.1 or more.
pub open spec fn lasting(w: Binary64) -> bool {
    w.below(Binary64 { bits: 0 }) || w.at_least(Binary64 { bits: TENTH })
}

/// The weights after decay by `factor`.
pub open spec fn after_decay(s: Seq<LinkView>, factor: Binary64) -> Seq<LinkView> {
    s.map_values(|l: LinkView| fade(l, factor)).filter(|l: LinkView| lasting(l.weight))
}

/// The weights without those of `id`.
pub open spec fn unlinked(s: Seq<LinkView>, id: Seq<char>) -> Seq<LinkView> {
    s.filter(|l: LinkView| l.a != id && l.b != id)
}

// --- Facts about them ---

/// A pair stands at one place.
pub proof fn lemma_place_unique(s: Seq<LinkView>, i: int, a: Seq<char>, b: Seq<char>)
    requires
        unique_pairs(s),
        link_at(s, i, a, b),
    ensures
        has_link(s, a, b),
        link_place(s, a, b) == i,
{
    let p = link_place(s, a, b);
    assert(link_at(s, p, a, b));
    if p < i {
        assert(!(s[p].a == s[i].a && s[p].b == s[i].b));
    }
    if i < p {
        assert(!(s[i].a == s[p].a && s[i].b == s[p].b));
    }
}

/// Setting a weight leaves each pair with one weight.
pub proof fn lemma_set_weight_unique(
    s: Seq<LinkView>,
    a: Seq<char>,
    b: Seq<char>,
    weight: Binary64,
)
    requires
        unique_pairs(s),
    ensures
        unique_pairs(set_weight(s, a, b, weight)),
{
    let t = set_weight(s, a, b, weight);
    if has_link(s, a, b) {
        let p = link_place(s, a, b);
        assert(link_at(s, p, a, b));
        assert forall|i: int, j: int| 0 <= i < j < t.len() implies !((#[trigger] t[i]).a == (
        #[trigger] t[j]).a && t[i].b == t[j].b) by {
            assert(!(s[i].a == s[j].a && s[i].b == s[j].b));
        }
    } else {
        assert forall|i: int, j: int| 0 <= i < j < t.len() implies !((#[trigger] t[i]).a == (
        #[trigger] t[j]).a && t[i].b == t[j].b) by {
            if j == s.len() {
                assert(!link_at(s, i, a, b));
            } else {
                assert(!(s[i].a == s[j].a && s[i].b == s[j].b));
            }
        }
    }
}

/// A weight that was set is read back, and no other weight has changed.
pub proof fn set_then_read(
    s: Seq<LinkView>,
    a: Seq<char>,
    b: Seq<char>,
    weight: Binary64,
    c: Seq<char>,
    d: Seq<char>,
)
    requires
        unique_pairs(s),
    ensures
        weight_of(set_weight(s, a, b, weight), c, d) == if c == a && d == b {
            Some(weight)
        } else {
            weight_of(s, c, d)
        },
{
    let t = set_weight(s, a, b, weight);
    lemma_set_weight_unique(s, a, b, weight);
    let p = if has_link(s, a, b) {
        link_place(s, a, b)
    } else {
        s.len() as int
    };
    if has_link(s, a, b) {
        assert(link_at(s, p, a, b));
    }
    assert(link_at(t, p, a, b));
    if c == a && d == b {
        lemma_place_unique(t, p, a, b);
    } else if has_link(s, c, d) {
        let q = link_place(s, c, d);
        assert(link_at(s, q, c, d));
        assert(link_at(t, q, c, d));
        lemma_place_unique(t, q, c, d);
    } else if has_link(t, c, d) {
        let q = link_place(t, c, d);
        assert(link_at(t, q, c, d));
        assert(link_at(s, q, c, d));
    }
}

proof fn lemma_filter_unique(s: Seq<LinkView>, keep: spec_fn(LinkView) -> bool)
    requires
        unique_pairs(s),
    ensures
        unique_pairs(s.filter(keep)),
    decreases s.len(),
{
    reveal(Seq::filter);
    if s.len() > 0 {
        let rest = s.drop_last();
        assert forall|i: int, j: int| 0 <= i < j < rest.len() implies !((#[trigger] rest[i]).a == (
        #[trigger] rest[j]).a && rest[i].b == rest[j].b) by {
            assert(!(s[i].a == s[j].a && s[i].b == s[j].b));
        }
        lemma_filter_unique(rest, keep);
        let f = rest.filter(keep);
        let t = s.filter(keep);
        assert forall|i: int, j: int| 0 <= i < j < t.len() implies !((#[trigger] t[i]).a == (
        #[trigger] t[j]).a && t[i].b == t[j].b) by {
            if j == f.len() {
                assert(f.contains(f[i]));
                rest.lemma_filter_contains_rev(keep, f[i]);
                let k = choose|k: int| 0 <= k < rest.len() && rest[k] == f[i];
                assert(s[k] == f[i]);
                assert(!(s[k].a == s.last().a && s[k].b == s.last().b));
            } else {
                assert(!(f[i].a == f[j].a && f[i].b == f[j].b));
            }
        }
    }
}

/// Dropping the weights of a memory leaves each pair with one weight.
pub proof fn lemma_unlinked_unique(s: Seq<LinkView>, id: Seq<char>)
    requires
        unique_pairs(s),
    ensures
        unique_pairs(unlinked(s, id)),
{
    lemma_filter_unique(s, |l: LinkView| l.a != id && l.b != id);
}

proof fn lemma_fade_unique(s: Seq<LinkView>, factor: Binary64)
    requires
        unique_pairs(s),
    ensures
        unique_pairs(s.map_values(|l: LinkView| fade(l, factor))),
{
    let t = s.map_values(|l: LinkView| fade(l, factor));
    assert forall|i: int, j: int| 0 <= i < j < t.len() implies !((#[trigger] t[i]).a == (
    #[trigger] t[j]).a && t[i].b == t[j].b) by {
        assert(!(s[i].a == s[j].a && s[i].b == s[j].b));
    }
}

/// Decay leaves each pair with one weight.
pub proof fn lemma_decay_unique(s: Seq<LinkView>, factor: Binary64)
    requires
        unique_pairs(s),
    ensures
        unique_pairs(after_decay(s, factor)),
{
    lemma_fade_unique(s, factor);
    lemma_filter_unique(
        s.map_values(|l: LinkView| fade(l, factor)),
        |l: LinkView| lasting(l.weight),
    );
}

// --- The order of pairs ---

/// Each pair stands in the order in which its weight is kept.
pub open spec fn in_order(s: Seq<LinkView>) -> bool {
    forall|i: int|
        0 <= i < s.len() ==> ordered((#[trigger] s[i]).a, s[i].b) == (s[i].a, s[i].b)
}

/// The order of a pair does not depend on which memory is named first, and a
/// pair in order stays as it is.
proof fn lemma_ordered(id1: Seq<char>, id2: Seq<char>)
    ensures
        ordered(id1, id2) == ordered(id2, id1),
        ({
            let (a, b) = ordered(id1, id2);
            ordered(a, b) == (a, b)
        }),
{
    crate::text::lemma_precedes_total(id1, id2);
}

pub(crate) proof fn lemma_set_weight_in_order(
    s: Seq<LinkView>,
    id1: Seq<char>,
    id2: Seq<char>,
    weight: Binary64,
)
    requires
        in_order(s),
    ensures
        ({
            let (a, b) = ordered(id1, id2);
            in_order(set_weight(s, a, b, weight))
        }),
{
    let (a, b) = ordered(id1, id2);
    lemma_ordered(id1, id2);
    let t = set_weight(s, a, b, weight);
    if has_link(s, a, b) {
        assert(link_at(s, link_place(s, a, b), a, b));
    }
    assert forall|i: int| 0 <= i < t.len() implies ordered((#[trigger] t[i]).a, t[i].b) == (
        t[i].a,
        t[i].b,
    ) by {
        if i < s.len() && t[i] == s[i] {
            assert(ordered(s[i].a, s[i].b) == (s[i].a, s[i].b));
        }
    }
}

proof fn lemma_filter_in_order(s: Seq<LinkView>, keep: spec_fn(LinkView) -> bool)
    requires
        in_order(s),
    ensures
        in_order(s.filter(keep)),
{
    let t = s.filter(keep);
    assert forall|i: int| 0 <= i < t.len() implies ordered((#[trigger] t[i]).a, t[i].b) == (
        t[i].a,
        t[i].b,
    ) by {
        assert(t.contains(t[i]));
        s.lemma_filter_contains_rev(keep, t[i]);
        let k = choose|k: int| 0 <= k < s.len() && s[k] == t[i];
        assert(ordered(s[k].a, s[k].b) == (s[k].a, s[k].b));
    }
}

/// Joint recalls, raised strengths, decay and the removal of a memory leave
/// each pair in order.
pub proof fn pairs_stay_in_order(
    s: Seq<LinkView>,
    id1: Seq<char>,
    id2: Seq<char>,
    threshold: i32,
    number: Binary64,
)
    requires
        in_order(s),
    ensures
        in_order(after_coactivation(s, id1, id2, threshold)),
        in_order(raised(s, id1, id2, number)),
        in_order(after_decay(s, number)),
        in_order(unlinked(s, id1)),
{
    let (a, b) = ordered(id1, id2);
    let current = weight_of(s, a, b);
    lemma_set_weight_in_order(s, id1, id2, coactivated(current, threshold).0);
    lemma_set_weight_in_order(s, id1, id2, stronger(current, number));
    let t = s.map_values(|l: LinkView| fade(l, number));
    assert forall|i: int| 0 <= i < t.len() implies ordered((#[trigger] t[i]).a, t[i].b) == (
        t[i].a,
        t[i].b,
    ) by {
        assert(ordered(s[i].a, s[i].b) == (s[i].a, s[i].b));
    }
    lemma_filter_in_order(t, |l: LinkView| lasting(l.weight));
    lemma_filter_in_order(s, |l: LinkView| l.a != id1 && l.b != id1);
}

pub(crate) proof fn lemma_neighbor_at(s: Seq<LinkView>, id: Seq<char>, p: int)
    requires
        0 <= p < s.len(),
        neighbor(s[p], id) is Some,
    ensures
        neighbors(s, id).contains(neighbor(s[p], id)->0),
    decreases s.len(),
{
    let rest = neighbors(s.drop_last(), id);
    let all = neighbors(s, id);
    let x = neighbor(s[p], id)->0;
    if p < s.len() - 1 {
        lemma_neighbor_at(s.drop_last(), id, p);
        let k = choose|k: int| 0 <= k < rest.len() && rest[k] == x;
        assert(all[k] == x);
    } else {
        assert(all[rest.len() as int] == x);
    }
}

/// Two memories are neighbours exactly where the weight of their pair is
/// positive.
pub proof fn neighbors_are_linked(s: Seq<LinkView>, id1: Seq<char>, id2: Seq<char>)
    requires
        unique_pairs(s),
        in_order(s),
    ensures
        ({
            let (a, b) = ordered(id1, id2);
            neighbors(s, id1).contains(id2) <==> (weight_of(s, a, b) matches Some(w) && positive(w))
        }),
{
    let (a, b) = ordered(id1, id2);
    lemma_ordered(id1, id2);
    if neighbors(s, id1).contains(id2) {
        let f = |l: LinkView| neighbor(l, id1);
        s.lemma_filter_map_contains(f, id2);
        let l = choose|l: LinkView| #[trigger] s.contains(l) && f(l) == Some(id2);
        let p = choose|p: int| 0 <= p < s.len() && s[p] == l;
        assert(ordered(s[p].a, s[p].b) == (s[p].a, s[p].b));
        assert(link_at(s, p, a, b));
        lemma_place_unique(s, p, a, b);
    }
    if weight_of(s, a, b) matches Some(w) && positive(w) {
        let p = link_place(s, a, b);
        assert(link_at(s, p, a, b));
        lemma_neighbor_at(s, id1, p);
    }
}

/// A joint recall forms a link exactly where the two memories were no
/// neighbours and become neighbours; and neighbours stay neighbours.
pub proof fn forming_makes_neighbors(
    s: Seq<LinkView>,
    id1: Seq<char>,
    id2: Seq<char>,
    threshold: i32,
)
    requires
        unique_pairs(s),
        in_order(s),
    ensures
        ({
            let t = after_coactivation(s, id1, id2, threshold);
            &&& forms_link(s, id1, id2, threshold) <==> !neighbors(s, id1).contains(id2)
                && neighbors(t, id1).contains(id2)
            &&& neighbors(s, id1).contains(id2) ==> neighbors(t, id1).contains(id2)
        }),
{
    let (a, b) = ordered(id1, id2);
    let current = weight_of(s, a, b);
    let weight = coactivated(current, threshold).0;
    crate::format::lemma_bound_120();
    crate::format::lemma_inf(crate::binary::binary64());
    lemma_set_weight_unique(s, a, b, weight);
    lemma_set_weight_in_order(s, id1, id2, weight);
    set_then_read(s, a, b, weight, a, b);
    neighbors_are_linked(s, id1, id2);
    neighbors_are_linked(set_weight(s, a, b, weight), id1, id2);
    if let Some(w) = current {
        if positive(w) {
            if crate::rounding::finite(w) {
                crate::rounding::adding_does_not_lessen(w, Binary64 { bits: TENTH });
            }
            assert(positive(weight));
        } else {
            crate::exact::lemma_truncate_negated(w);
            if joint_recalls(w) < threshold {
                crate::exact::count_round_trip(joint_recalls(w));
            }
        }
    }
}

impl HebbianLinks {
    pub closed spec fn view(&self) -> Seq<LinkView> {
        Seq::new(self.links@.len(), |i: int| self.links@[i].view())
    }

    pub open spec fn wf(&self) -> bool {
        unique_pairs(self@)
    }

    /// No weights.
    pub fn new() -> (r: HebbianLinks)
        ensures
            r@ == Seq::<LinkView>::empty(),
            r.wf(),
    {
        HebbianLinks { links: Vec::new() }
    }

    /// The number of weights.
    pub fn len(&self) -> (n: usize)
        ensures
            n == self@.len(),
    {
        self.links.len()
    }

    /// The pair at a place, and its weight.
    pub fn entry(&self, i: usize) -> (r: (&str, &str, Binary64))
        requires
            i < self@.len(),
        ensures
            self@[i as int] == (LinkView { a: r.0@, b: r.1@, weight: r.2 }),
    {
        let l = &self.links[i];
        (l.a.as_str(), l.b.as_str(), l.weight)
    }

    /// The place of the pair `(a, b)`, or the number of pairs where it has none.
    fn find(&self, a: &str, b: &str) -> (i: usize)
        requires
            self.wf(),
        ensures
            i <= self@.len(),
            i < self@.len() ==> link_at(self@, i as int, a@, b@) && link_place(self@, a@, b@) == i,
            i < self@.len() <==> has_link(self@, a@, b@),
    {
        let mut i: usize = 0;
        while i < self.links.len()
            invariant
                i <= self.links@.len(),
                self.wf(),
                forall|j: int| 0 <= j < i ==> !link_at(self@, j, a@, b@),
            decreases self.links@.len() - i,
        {
            let l = &self.links[i];
            if same(l.a.as_str(), a) && same(l.b.as_str(), b) {
                assert(link_at(self@, i as int, a@, b@));
                proof {
                    lemma_place_unique(self@, i as int, a@, b@);
                }
                return i;
            }
            assert(!link_at(self@, i as int, a@, b@));
            i = i + 1;
        }
        i
    }

    /// The weight of the pair `(a, b)`, in this order.
    pub fn weight(&self, a: &str, b: &str) -> (r: Option<Binary64>)
        requires
            self.wf(),
        ensures
            r == weight_of(self@, a@, b@),
    {
        let i = self.find(a, b);
        if i < self.links.len() {
            Some(self.links[i].weight)
        } else {
            None
        }
    }

    /// Sets the weight of the pair `(a, b)`, in this order.
    pub fn set(&mut self, a: &str, b: &str, weight: Binary64)
        requires
            old(self).wf(),
        ensures
            final(self).wf(),
            final(self)@ == set_weight(old(self)@, a@, b@, weight),
    {
        let i = self.find(a, b);
        proof {
            lemma_set_weight_unique(self@, a@, b@, weight);
        }
        let l = Link { a: a.to_owned(), b: b.to_owned(), weight };
        if i < self.links.len() {
            self.links.set(i, l);
            assert(self@ == set_weight(old(self)@, a@, b@, weight));
        } else {
            self.links.push(l);
            assert(self@ == set_weight(old(self)@, a@, b@, weight));
        }
    }

    /// The memories linked with `id`.
    pub fn neighbors_of(&self, id: &str) -> (r: Vec<String>)
        ensures
            crate::text::texts(r@) == neighbors(self@, id@),
    {
        let ghost f = |l: LinkView| neighbor(l, id@);
        let mut r: Vec<String> = Vec::new();
        let mut i: usize = 0;
        assert(self@.take(0).filter_map(f) == Seq::<Seq<char>>::empty());
        while i < self.links.len()
            invariant
                i <= self.links@.len(),
                f == (|l: LinkView| neighbor(l, id@)),
                crate::text::texts(r@) == self@.take(i as int).filter_map(f),
            decreases self.links@.len() - i,
        {
            let ghost before = r@;
            let l = &self.links[i];
            assert(self@[i as int] == l.view());
            assert(self@.take(i + 1).drop_last() == self@.take(i as int));
            assert(self@.take(i + 1).last() == self@[i as int]);
            if (Binary64 { bits: 0 }).lt(l.weight) {
                if same(l.a.as_str(), id) {
                    r.push(l.b.clone());
                    assert(crate::text::texts(r@) == crate::text::texts(before) + seq![l.b@]);
                } else if same(l.b.as_str(), id) {
                    r.push(l.a.clone());
                    assert(crate::text::texts(r@) == crate::text::texts(before) + seq![l.a@]);
                }
            }
            assert(crate::text::texts(r@) == self@.take(i + 1).filter_map(f));
            i = i + 1;
        }
        assert(self@.take(self.links@.len() as int) == self@);
        r
    }

    /// Records that two memories have been recalled together. Returns whether
    /// this forms a new link, which it does when the pair has been recalled
    /// together `threshold` times.
    pub fn record_coactivation(&mut self, id1: &str, id2: &str, threshold: i32) -> (formed: bool)
        requires
            old(self).wf(),
        ensures
            final(self).wf(),
            final(self)@ == after_coactivation(old(self)@, id1@, id2@, threshold),
            formed == forms_link(old(self)@, id1@, id2@, threshold),
            in_order(old(self)@) ==> in_order(final(self)@) && (formed <==> !neighbors(
                old(self)@,
                id1@,
            ).contains(id2@) && neighbors(final(self)@, id1@).contains(id2@)),
    {
        proof {
            if in_order(self@) {
                pairs_stay_in_order(self@, id1@, id2@, threshold, Binary64 { bits: 0 });
                forming_makes_neighbors(self@, id1@, id2@, threshold);
            }
        }
        let (a, b) = if comes_before(id1, id2) {
            (id1, id2)
        } else {
            (id2, id1)
        };
        let one = Binary64 { bits: ONE };
        match self.weight(a, b) {
            None => {
                if threshold <= 1 {
                    self.set(a, b, one);
                    true
                } else {
                    self.set(a, b, Binary64 { bits: MINUS_ONE });
                    false
                }
            },
            Some(w) => {
                if (Binary64 { bits: 0 }).lt(w) {
                    self.set(a, b, w.add(Binary64 { bits: TENTH }).min(one));
                    false
                } else {
                    let count: i64 = w.negate().to_i32() as i64 + 1;
                    if count >= threshold as i64 {
                        self.set(a, b, one);
                        true
                    } else {
                        self.set(a, b, Binary64::from_int(count as i128).negate());
                        false
                    }
                }
            },
        }
    }

    /// Gives the pair of two memories at least the given strength.
    pub fn raise(&mut self, id1: &str, id2: &str, strength: Binary64)
        requires
            old(self).wf(),
        ensures
            final(self).wf(),
            final(self)@ == raised(old(self)@, id1@, id2@, strength),
    {
        let (a, b) = if comes_before(id1, id2) {
            (id1, id2)
        } else {
            (id2, id1)
        };
        match self.weight(a, b) {
            None => {
                self.set(a, b, strength);
            },
            Some(w) => {
                self.set(a, b, w.max(strength));
            },
        }
    }

    /// Decays all links by `factor` and drops those that have become weak.
    /// Returns how many were dropped.
    pub fn decay(&mut self, factor: Binary64) -> (pruned: usize)
        requires
            old(self).wf(),
        ensures
            final(self).wf(),
            final(self)@ == after_decay(old(self)@, factor),
            pruned == old(self)@.len() - final(self)@.len(),
    {
        let ghost all = self@;
        let ghost dim = |l: LinkView| fade(l, factor);
        let ghost keep = |l: LinkView| lasting(l.weight);
        let ghost faint = all.map_values(dim);
        let mut kept = HebbianLinks { links: Vec::new() };
        let mut i: usize = 0;
        assert(faint.take(0).filter(keep) == Seq::<LinkView>::empty()) by {
            reveal(Seq::filter);
        }
        assert(kept@ == Seq::<LinkView>::empty());
        while i < self.links.len()
            invariant
                i <= self.links@.len(),
                self@ == all,
                dim == (|l: LinkView| fade(l, factor)),
                keep == (|l: LinkView| lasting(l.weight)),
                faint == all.map_values(dim),
                kept@ == faint.take(i as int).filter(keep),
                kept@.len() <= i,
            decreases self.links@.len() - i,
        {
            let ghost before = kept@;
            let l = &self.links[i];
            assert(all[i as int] == l.view());
            assert(faint.take(i + 1).drop_last() == faint.take(i as int));
            assert(faint.take(i + 1).last() == fade(l.view(), factor));
            let w = if (Binary64 { bits: 0 }).lt(l.weight) {
                l.weight.mul(factor)
            } else {
                l.weight
            };
            if w.lt(Binary64 { bits: 0 }) || w.ge(Binary64 { bits: TENTH }) {
                kept.links.push(Link { a: l.a.clone(), b: l.b.clone(), weight: w });
                assert(kept@ == before.push(fade(l.view(), factor)));
            }
            assert(kept@ == faint.take(i + 1).filter(keep)) by {
                reveal(Seq::filter);
            }
            i = i + 1;
        }
        assert(faint.take(self.links@.len() as int) == faint);
        let pruned: usize = self.links.len() - kept.links.len();
        self.links = kept.links;
        proof {
            lemma_decay_unique(all, factor);
            assert(self@ == kept@);
        }
        pruned
    }

    /// Drops the weights of all pairs with `id`.
    pub fn unlink(&mut self, id: &str)
        requires
            old(self).wf(),
        ensures
            final(self).wf(),
            final(self)@ == unlinked(old(self)@, id@),
    {
        let ghost all = self@;
        let ghost keep = |l: LinkView| l.a != id@ && l.b != id@;
        let mut kept = HebbianLinks { links: Vec::new() };
        let mut i: usize = 0;
        assert(all.take(0).filter(keep) == Seq::<LinkView>::empty()) by {
            reveal(Seq::filter);
        }
        assert(kept@ == Seq::<LinkView>::empty());
        while i < self.links.len()
            invariant
                i <= self.links@.len(),
                self@ == all,
                keep == (|l: LinkView| l.a != id@ && l.b != id@),
                kept@ == all.take(i as int).filter(keep),
            decreases self.links@.len() - i,
        {
            let ghost before = kept@;
            let l = &self.links[i];
            assert(all[i as int] == l.view());
            assert(all.take(i + 1).drop_last() == all.take(i as int));
            assert(all.take(i + 1).last() == l.view());
            if !same(l.a.as_str(), id) && !same(l.b.as_str(), id) {
                kept.links.push(Link { a: l.a.clone(), b: l.b.clone(), weight: l.weight });
                assert(kept@ == before.push(l.view()));
            }
            assert(kept@ == all.take(i + 1).filter(keep)) by {
                reveal(Seq::filter);
            }
            i = i + 1;
        }
        assert(all.take(self.links@.len() as int) == all);
        self.links = kept.links;
        proof {
            lemma_filter_unique(all, keep);
            assert(self@ == kept@);
        }
    }
}

// --- Pairs ---

/// The memory at place `i` with each of those after it and before place `j`.
pub open spec fn pairs_with(ids: Seq<Seq<char>>, i: nat, j: nat) -> Seq<(Seq<char>, Seq<char>)>
    decreases j,
{
    if j <= i + 1 {
        Seq::empty()
    } else {
        pairs_with(ids, i, (j - 1) as nat).push(ordered(ids[i as int], ids[j - 1]))
    }
}

/// Each of the first `n` memories with each of those after it.
pub open spec fn pairs(ids: Seq<Seq<char>>, n: nat) -> Seq<(Seq<char>, Seq<char>)>
    decreases n,
{
    if n == 0 {
        Seq::empty()
    } else {
        pairs(ids, (n - 1) as nat) + pairs_with(ids, (n - 1) as nat, ids.len())
    }
}

/// What some pairs of texts hold.
pub open spec fn pair_texts(v: Seq<(String, String)>) -> Seq<(Seq<char>, Seq<char>)> {
    Seq::new(v.len(), |i: int| (v[i].0@, v[i].1@))
}

/// The pairs of memories that have been recalled together, each pair in the
/// order in which its weight is kept.
pub fn coactivation_pairs(ids: &Vec<String>) -> (r: Vec<(String, String)>)
    ensures
        pair_texts(r@) == pairs(crate::text::texts(ids@), ids@.len()),
{
    let ghost s = crate::text::texts(ids@);
    let mut r: Vec<(String, String)> = Vec::new();
    let mut i: usize = 0;
    assert(pair_texts(r@) =~= pairs(s, 0));
    while i < ids.len()
        invariant
            i <= ids@.len(),
            s == crate::text::texts(ids@),
            pair_texts(r@) == pairs(s, i as nat),
        decreases ids@.len() - i,
    {
        let ghost done = pairs(s, i as nat);
        let mut j: usize = i + 1;
        assert(done + pairs_with(s, i as nat, j as nat) =~= done);
        while j < ids.len()
            invariant
                i < j <= ids@.len(),
                s == crate::text::texts(ids@),
                pair_texts(r@) == done + pairs_with(s, i as nat, j as nat),
            decreases ids@.len() - j,
        {
            let ghost before = r@;
            let (a, b) = if comes_before(ids[i].as_str(), ids[j].as_str()) {
                (ids[i].clone(), ids[j].clone())
            } else {
                (ids[j].clone(), ids[i].clone())
            };
            r.push((a, b));
            assert(ordered(s[i as int], s[j as int]) == (a@, b@));
            assert(pair_texts(r@) =~= pair_texts(before).push((a@, b@)));
            assert(pair_texts(r@) =~= done + pairs_with(s, i as nat, (j + 1) as nat));
            j = j + 1;
        }
        i = i + 1;
    }
    r
}

} // verus!
