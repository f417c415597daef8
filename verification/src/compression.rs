//! Compression: memories that are linked and alike are merged into one.

use vstd::prelude::*;
use crate::binary::Binary64;
use crate::content::{default_merge, jaccard_similarity};
use crate::numbers::{ELEVEN_TENTHS, HALF, ONE};
use crate::store::{MemoryStore, StoreView};
use crate::text::same;
use crate::types::{MemoryRecord, RecordView};

verus! {

// --- What is merged ---

/// The neighbour `nid` of the memory `r`, if it is alike and not merged yet.
pub open spec fn partner(
    all: Seq<RecordView>,
    gone: Seq<Seq<char>>,
    r: RecordView,
    threshold: Binary64,
    nid: Seq<char>,
) -> Option<RecordView> {
    if gone.contains(nid) {
        None
    } else {
        match crate::store::lookup(all, nid) {
            Some(n) => if crate::content::similarity(r.content, n.content).at_least(threshold) {
                Some(n)
            } else {
                None
            },
            None => None,
        }
    }
}

/// A memory with its neighbours that are alike and not merged yet.
pub open spec fn cluster(
    all: Seq<RecordView>,
    links: Seq<crate::links::LinkView>,
    gone: Seq<Seq<char>>,
    r: RecordView,
    threshold: Binary64,
) -> Seq<RecordView> {
    seq![r] + crate::links::neighbors(links, r.id).filter_map(
        |nid: Seq<char>| partner(all, gone, r, threshold, nid),
    )
}

/// The strength by which the survivor of a cluster is found.
pub open spec fn power(r: RecordView) -> Binary64 {
    r.working_strength.plus(r.core_strength)
}

/// The place of the strongest memory; of equally strong ones the last.
pub open spec fn strongest(c: Seq<RecordView>) -> int
    decreases c.len(),
{
    if c.len() <= 1 {
        0
    } else {
        let b = strongest(c.drop_last());
        if power(c.last()).below(power(c[b])) {
            b
        } else {
            c.len() - 1
        }
    }
}

/// A core strength with half of that of some others added.
pub open spec fn absorbed(core: Binary64, others: Seq<RecordView>) -> Binary64
    decreases others.len(),
{
    if others.len() == 0 {
        core
    } else {
        absorbed(core, others.drop_last()).plus(
            others.last().core_strength.times(Binary64 { bits: HALF }),
        )
    }
}

/// The strongest memory of a cluster after it has taken in the others.
pub open spec fn survivor(c: Seq<RecordView>, text: Seq<char>) -> RecordView {
    let p = strongest(c);
    RecordView {
        content: text,
        importance: c[p].importance.times(Binary64 { bits: ELEVEN_TENTHS }).lesser(
            Binary64 { bits: ONE },
        ),
        core_strength: absorbed(c[p].core_strength, c.remove(p)),
        ..c[p]
    }
}

/// The store without some memories.
pub open spec fn without_all(st: StoreView, others: Seq<RecordView>) -> StoreView
    decreases others.len(),
{
    if others.len() == 0 {
        st
    } else {
        without_all(st, others.drop_last()).deleted(others.last().id)
    }
}

/// The contents of some memories.
pub open spec fn contents(c: Seq<RecordView>) -> Seq<Seq<char>> {
    c.map_values(|r: RecordView| r.content)
}

/// How far a compression has come: the store, the identifiers of the memories
/// that have been taken in by others, and the contents of each cluster that has
/// been merged.
#[verifier::ext_equal]
pub struct Run {
    pub store: StoreView,
    pub gone: Seq<Seq<char>>,
    pub merges: Seq<Seq<Seq<char>>>,
}

/// One step of a compression, where the next cluster is merged into `text`.
pub open spec fn step(
    run: Run,
    all: Seq<RecordView>,
    r: RecordView,
    threshold: Binary64,
    text: Seq<char>,
) -> Run {
    let c = cluster(all, run.store.links, run.gone, r, threshold);
    if run.gone.contains(r.id) || c.len() < 2 {
        run
    } else {
        let others = c.remove(strongest(c));
        Run {
            store: without_all(run.store.updated(survivor(c, text)), others),
            gone: run.gone + crate::memory::ids_of(others),
            merges: run.merges.push(contents(c)),
        }
    }
}

/// A compression of a store after its first `n` memories have been gone
/// through, where the k-th cluster is merged into the k-th of some texts.
pub open spec fn compressed(
    st: StoreView,
    threshold: Binary64,
    texts: Seq<Seq<char>>,
    n: nat,
) -> Run
    decreases n,
{
    if n == 0 {
        Run { store: st, gone: Seq::empty(), merges: Seq::empty() }
    } else {
        let before = compressed(st, threshold, texts, (n - 1) as nat);
        step(
            before,
            st.memories,
            st.memories[n - 1],
            threshold,
            texts[before.merges.len() as int],
        )
    }
}

/// A whole compression. Fewer than two memories are left alone.
pub open spec fn compression(st: StoreView, threshold: Binary64, texts: Seq<Seq<char>>) -> Run {
    compressed(
        st,
        threshold,
        texts,
        if st.memories.len() < 2 {
            0
        } else {
            st.memories.len()
        },
    )
}

/// Whether `merge` can make `text` of some contents.
pub open spec fn merges_to<F: Fn(&[&str]) -> String>(
    merge: F,
    contents: Seq<Seq<char>>,
    text: Seq<char>,
) -> bool {
    exists|arg: &[&str], out: String|
        crate::content::slices(arg@) == contents && out@ == text && #[trigger] call_ensures(
            merge,
            (arg,),
            out,
        )
}

/// Whether some contents can be merged into `text`: by `merge` where one is
/// given, else by joining their sentences.
pub open spec fn merge_gives<F: Fn(&[&str]) -> String>(
    merge: Option<F>,
    contents: Seq<Seq<char>>,
    text: Seq<char>,
) -> bool {
    match merge {
        Some(f) => merges_to(f, contents, text),
        None => text == crate::content::merged_text(contents),
    }
}

/// Whether the texts are what the clusters of a compression were merged into.
pub open spec fn texts_of_merges<F: Fn(&[&str]) -> String>(
    merge: Option<F>,
    run: Run,
    texts: Seq<Seq<char>>,
) -> bool {
    &&& texts.len() == run.merges.len()
    &&& forall|k: int|
        0 <= k < texts.len() ==> merge_gives(merge, run.merges[k], #[trigger] texts[k])
}

/// The texts of later merges make no difference to earlier ones.
proof fn lemma_texts_prefix(
    st: StoreView,
    threshold: Binary64,
    texts: Seq<Seq<char>>,
    more: Seq<Seq<char>>,
    n: nat,
)
    requires
        compressed(st, threshold, texts, n).merges.len() <= texts.len(),
        texts.is_prefix_of(more),
    ensures
        compressed(st, threshold, more, n) == compressed(st, threshold, texts, n),
    decreases n,
{
    if n > 0 {
        let before = compressed(st, threshold, texts, (n - 1) as nat);
        let after = compressed(st, threshold, texts, n);
        assert(before.merges.len() <= after.merges.len());
        lemma_texts_prefix(st, threshold, texts, more, (n - 1) as nat);
        if before.merges.len() < after.merges.len() {
            assert(more[before.merges.len() as int] == texts[before.merges.len() as int]);
        }
    }
}

/// The strongest memory is one of the cluster.
pub proof fn lemma_strongest(c: Seq<RecordView>)
    requires
        c.len() > 0,
    ensures
        0 <= strongest(c) < c.len(),
    decreases c.len(),
{
    if c.len() > 1 {
        lemma_strongest(c.drop_last());
    }
}

// --- Merging ---

fn merge_contents<F: Fn(&[&str]) -> String>(merge: &Option<F>, c: &Vec<MemoryRecord>) -> (r: String)
    requires
        merge matches Some(f) ==> forall|arg: &[&str]| #[trigger] call_requires(f, (arg,)),
    ensures
        merge_gives(*merge, contents(crate::types::records(c@)), r@),
{
    let ghost s = contents(crate::types::records(c@));
    let mut list: Vec<&str> = Vec::new();
    let mut i: usize = 0;
    while i < c.len()
        invariant
            i <= c@.len(),
            s == contents(crate::types::records(c@)),
            crate::content::slices(list@) == s.take(i as int),
        decreases c@.len() - i,
    {
        let ghost before = list@;
        list.push(c[i].content.as_str());
        assert(s[i as int] == c@[i as int].content@);
        assert(crate::content::slices(list@) =~= crate::content::slices(before).push(s[i as int]));
        assert(s.take(i + 1) == s.take(i as int).push(s[i as int]));
        i = i + 1;
    }
    assert(s.take(c@.len() as int) == s);
    let arg: &[&str] = list.as_slice();
    match merge {
        Some(f) => f(arg),
        None => default_merge(arg),
    }
}

fn has_text(v: &Vec<String>, s: &str) -> (r: bool)
    ensures
        r == crate::text::texts(v@).contains(s@),
{
    let ghost all = crate::text::texts(v@);
    let mut i: usize = 0;
    while i < v.len()
        invariant
            i <= v@.len(),
            all == crate::text::texts(v@),
            forall|k: int| 0 <= k < i ==> all[k] != s@,
        decreases v@.len() - i,
    {
        assert(all[i as int] == v@[i as int]@);
        if same(v[i].as_str(), s) {
            assert(all.contains(s@));
            return true;
        }
        i = i + 1;
    }
    false
}

/// The place of a memory, or the number of memories where it has none.
fn find(all: &Vec<MemoryRecord>, id: &str) -> (i: usize)
    requires
        crate::store::unique_ids(crate::types::records(all@)),
    ensures
        i <= all@.len(),
        i < all@.len() ==> crate::store::lookup(crate::types::records(all@), id@) == Some(
            all@[i as int]@,
        ),
        i == all@.len() ==> crate::store::lookup(crate::types::records(all@), id@) is None,
{
    let ghost s = crate::types::records(all@);
    let mut i: usize = 0;
    while i < all.len()
        invariant
            i <= all@.len(),
            s == crate::types::records(all@),
            crate::store::unique_ids(s),
            forall|j: int| 0 <= j < i ==> !crate::store::id_at(s, j, id@),
        decreases all@.len() - i,
    {
        if same(all[i].id.as_str(), id) {
            assert(crate::store::id_at(s, i as int, id@));
            proof {
                crate::store::lemma_place_unique(s, i as int, id@);
            }
            return i;
        }
        assert(!crate::store::id_at(s, i as int, id@));
        i = i + 1;
    }
    i
}

/// A memory with its neighbours that are alike and not merged yet.
fn find_cluster(
    all: &Vec<MemoryRecord>,
    store: &MemoryStore,
    gone: &Vec<String>,
    r: &MemoryRecord,
    threshold: Binary64,
) -> (c: Vec<MemoryRecord>)
    requires
        crate::store::unique_ids(crate::types::records(all@)),
    ensures
        crate::types::records(c@) == cluster(
            crate::types::records(all@),
            store@.links,
            crate::text::texts(gone@),
            r@,
            threshold,
        ),
{
    let ids = store.get_hebbian_neighbors(r.id.as_str());
    let ghost s = crate::types::records(all@);
    let ghost g = crate::text::texts(gone@);
    let ghost n = crate::links::neighbors(store@.links, r@.id);
    let ghost pick = |nid: Seq<char>| partner(s, g, r@, threshold, nid);
    let mut c: Vec<MemoryRecord> = Vec::new();
    c.push(r.clone());
    let mut i: usize = 0;
    assert(n.take(0).filter_map(pick) =~= Seq::<RecordView>::empty());
    assert(crate::types::records(c@) =~= seq![r@] + n.take(0).filter_map(pick));
    while i < ids.len()
        invariant
            i <= ids@.len(),
            crate::store::unique_ids(s),
            s == crate::types::records(all@),
            g == crate::text::texts(gone@),
            n == crate::text::texts(ids@),
            pick == (|nid: Seq<char>| partner(s, g, r@, threshold, nid)),
            crate::types::records(c@) == seq![r@] + n.take(i as int).filter_map(pick),
        decreases ids@.len() - i,
    {
        let ghost before = c@;
        let nid = ids[i].as_str();
        assert(n[i as int] == nid@);
        assert(n.take(i + 1).drop_last() == n.take(i as int));
        assert(n.take(i + 1).last() == nid@);
        if !has_text(gone, nid) {
            let p = find(all, nid);
            if p < all.len() {
                let sim = jaccard_similarity(r.content.as_str(), all[p].content.as_str());
                if sim.ge(threshold) {
                    c.push(all[p].clone());
                    assert(crate::types::records(c@) =~= crate::types::records(before).push(
                        all@[p as int]@,
                    ));
                    assert(pick(nid@) == Some(all@[p as int]@));
                    assert(n.take(i + 1).filter_map(pick) =~= n.take(i as int).filter_map(pick)
                        + seq![all@[p as int]@]);
                }
            }
        }
        assert(crate::types::records(c@) =~= seq![r@] + n.take(i + 1).filter_map(pick));
        i = i + 1;
    }
    assert(n.take(ids@.len() as int) == n);
    c
}

/// The place of the strongest memory.
fn find_strongest(c: &Vec<MemoryRecord>) -> (p: usize)
    requires
        c@.len() > 0,
    ensures
        p == strongest(crate::types::records(c@)),
        p < c@.len(),
{
    let ghost s = crate::types::records(c@);
    let mut p: usize = 0;
    let mut i: usize = 1;
    assert(s.take(1).len() == 1);
    while i < c.len()
        invariant
            1 <= i <= c@.len(),
            s == crate::types::records(c@),
            p < i,
            p == strongest(s.take(i as int)),
        decreases c@.len() - i,
    {
        assert(s.take(i + 1).drop_last() == s.take(i as int));
        assert(s.take(i + 1).last() == c@[i as int]@);
        assert(s.take(i + 1)[p as int] == c@[p as int]@);
        let x = c[i].working_strength.add(c[i].core_strength);
        let best = c[p].working_strength.add(c[p].core_strength);
        if !x.lt(best) {
            p = i;
        }
        i = i + 1;
    }
    assert(s.take(c@.len() as int) == s);
    p
}

/// The strongest memory of a cluster after it has taken in the others, and the
/// others.
fn take_in(c: &Vec<MemoryRecord>, text: String) -> (r: (MemoryRecord, Vec<MemoryRecord>))
    requires
        c@.len() > 0,
    ensures
        r.0@ == survivor(crate::types::records(c@), text@),
        crate::types::records(r.1@) == crate::types::records(c@).remove(
            strongest(crate::types::records(c@)),
        ),
{
    let p = find_strongest(c);
    let ghost s = crate::types::records(c@);
    let ghost t = text@;
    let mut others: Vec<MemoryRecord> = Vec::new();
    let mut i: usize = 0;
    while i < c.len()
        invariant
            i <= c@.len(),
            p < c@.len(),
            s == crate::types::records(c@),
            crate::types::records(others@) == if i <= p {
                s.take(i as int)
            } else {
                s.take(i as int).remove(p as int)
            },
        decreases c@.len() - i,
    {
        let ghost before = others@;
        if i != p {
            others.push(c[i].clone());
            assert(crate::types::records(others@) =~= crate::types::records(before).push(
                s[i as int],
            ));
        }
        assert(crate::types::records(others@) =~= if i + 1 <= p {
            s.take(i + 1)
        } else {
            s.take(i + 1).remove(p as int)
        });
        i = i + 1;
    }
    assert(s.take(c@.len() as int) == s);
    let ghost o = crate::types::records(others@);
    let mut core = c[p].core_strength;
    let mut j: usize = 0;
    assert(o.take(0).len() == 0);
    while j < others.len()
        invariant
            j <= others@.len(),
            p < c@.len(),
            o == crate::types::records(others@),
            core == absorbed(c@[p as int].core_strength, o.take(j as int)),
        decreases others@.len() - j,
    {
        assert(o.take(j + 1).drop_last() == o.take(j as int));
        assert(o.take(j + 1).last() == others@[j as int]@);
        core = core.add(others[j].core_strength.mul(Binary64 { bits: HALF }));
        j = j + 1;
    }
    assert(o.take(others@.len() as int) == o);
    let mut x = c[p].clone();
    x.content = text;
    x.importance = x.importance.mul(Binary64 { bits: ELEVEN_TENTHS }).min(Binary64 { bits: ONE });
    x.core_strength = core;
    assert(s[p as int] == c@[p as int]@);
    assert(x@ =~= survivor(s, t));
    (x, others)
}

/// Merges linked memories that are alike. Of each cluster the strongest memory
/// stays, with the merged content. Returns the number of clusters.
pub fn compress_store<F: Fn(&[&str]) -> String>(
    store: &mut MemoryStore,
    threshold: Binary64,
    merge: &Option<F>,
) -> (count: usize)
    requires
        old(store).wf(),
        merge matches Some(f) ==> forall|arg: &[&str]| #[trigger] call_requires(f, (arg,)),
    ensures
        final(store).wf(),
        exists|texts: Seq<Seq<char>>| #[trigger]
            texts_of_merges(*merge, compression(old(store)@, threshold, texts), texts)
                && final(store)@ == compression(old(store)@, threshold, texts).store && count
                == texts.len(),
{
    let all = store.all();
    let ghost st = store@;
    let ghost mut texts: Seq<Seq<char>> = Seq::empty();
    proof {
        store.lemma_wf();
    }
    if all.len() < 2 {
        assert(crate::types::records(all@).len() == all@.len());
        assert(texts_of_merges(*merge, compression(st, threshold, texts), texts));
        return 0;
    }
    let mut gone: Vec<String> = Vec::new();
    let mut count: usize = 0;
    let mut i: usize = 0;
    assert(crate::text::texts(gone@) =~= Seq::<Seq<char>>::empty());
    while i < all.len()
        invariant
            i <= all@.len(),
            st.memories == crate::types::records(all@),
            crate::store::unique_ids(st.memories),
            merge matches Some(f) ==> forall|arg: &[&str]| #[trigger] call_requires(f, (arg,)),
            store.wf(),
            count <= i,
            count == texts.len(),
            store@ == compressed(st, threshold, texts, i as nat).store,
            crate::text::texts(gone@) == compressed(st, threshold, texts, i as nat).gone,
            texts_of_merges(*merge, compressed(st, threshold, texts, i as nat), texts),
        decreases all@.len() - i,
    {
        let ghost run = compressed(st, threshold, texts, i as nat);
        let r = &all[i];
        assert(st.memories[i as int] == r@);
        if !has_text(&gone, r.id.as_str()) {
            let c = find_cluster(&all, store, &gone, r, threshold);
            let ghost cv = crate::types::records(c@);
            if c.len() >= 2 {
                let text = merge_contents(merge, &c);
                let ghost t = text@;
                let (kept, others) = take_in(&c, text);
                let ghost o = crate::types::records(others@);
                store.update(&kept);
                let ghost mid = store@;
                let ghost g = crate::text::texts(gone@);
                let mut j: usize = 0;
                assert(o.take(0).len() == 0);
                assert(g + crate::memory::ids_of(o.take(0)) =~= g);
                while j < others.len()
                    invariant
                        j <= others@.len(),
                        o == crate::types::records(others@),
                        store.wf(),
                        store@ == without_all(mid, o.take(j as int)),
                        crate::text::texts(gone@) == g + crate::memory::ids_of(o.take(j as int)),
                    decreases others@.len() - j,
                {
                    let ghost gb = gone@;
                    assert(o.take(j + 1).drop_last() == o.take(j as int));
                    assert(o.take(j + 1).last() == others@[j as int]@);
                    let id = others[j].id.as_str();
                    gone.push(id.to_owned());
                    store.delete(id);
                    assert(crate::text::texts(gone@) =~= crate::text::texts(gb).push(id@));
                    assert(crate::memory::ids_of(o.take(j + 1)) =~= crate::memory::ids_of(
                        o.take(j as int),
                    ).push(id@));
                    assert(crate::text::texts(gone@) =~= g + crate::memory::ids_of(o.take(j + 1)));
                    j = j + 1;
                }
                assert(o.take(others@.len() as int) == o);
                proof {
                    let more = texts.push(t);
                    lemma_texts_prefix(st, threshold, texts, more, i as nat);
                    let after = compressed(st, threshold, more, (i + 1) as nat);
                    assert(more[texts.len() as int] == t);
                    assert(after.merges == run.merges.push(contents(cv)));
                    assert(texts_of_merges(*merge, after, more)) by {
                        assert forall|k: int| 0 <= k < more.len() implies merge_gives(
                            *merge,
                            after.merges[k],
                            #[trigger] more[k],
                        ) by {
                            if k < texts.len() {
                                assert(more[k] == texts[k]);
                                assert(merge_gives(*merge, run.merges[k], texts[k]));
                            }
                        }
                    }
                    texts = more;
                }
                count = count + 1;
            } else {
                assert(cv.len() < 2);
            }
        }
        i = i + 1;
    }
    assert(texts_of_merges(*merge, compression(st, threshold, texts), texts));
    count
}

} // verus!
