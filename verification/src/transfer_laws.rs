//! What is carried over by images, snapshots and rows.

use vstd::prelude::*;
use vstd::std_specs::hash::DefaultHasherAdditionalSpecFns;
use std::collections::hash_map::DefaultHasher;
use crate::binary::Binary64;
use crate::links::LinkView;
use crate::sqlite::SqliteRow;
use crate::store::StoreView;
use crate::types::{MemoryLayer, MemoryType, RecordView, Timestamp};

verus! {

// --- Images ---

proof fn lemma_with_memories(st: StoreView, new: Seq<RecordView>, id: Seq<char>)
    requires
        st.wf(),
        crate::store::unique_ids(new),
    ensures
        st.with_memories(new).wf(),
        st.with_memories(new).links == st.links,
        st.with_memories(new).path == st.path,
        crate::store::lookup(st.with_memories(new).memories, id) == if crate::store::has_id(
            new,
            id,
        ) {
            crate::store::lookup(new, id)
        } else {
            crate::store::lookup(st.memories, id)
        },
    decreases new.len(),
{
    if new.len() > 0 {
        let rest = new.drop_last();
        let r = new.last();
        assert forall|i: int, j: int| 0 <= i < j < rest.len() implies (#[trigger] rest[i]).id != (
        #[trigger] rest[j]).id by {
            assert(new[i].id != new[j].id);
        }
        lemma_with_memories(st, rest, id);
        let before = st.with_memories(rest);
        crate::store::put_keeps_wf(before, r);
        crate::store::put_then_lookup(before.memories, r, id);
        let last = new.len() - 1;
        assert(crate::store::id_at(new, last, r.id));
        if id == r.id {
            crate::store::lemma_place_unique(new, last, id);
        } else if crate::store::has_id(rest, id) {
            let p = crate::store::place(rest, id);
            assert(crate::store::id_at(rest, p, id));
            crate::store::lemma_place_unique(rest, p, id);
            assert(crate::store::id_at(new, p, id));
            crate::store::lemma_place_unique(new, p, id);
        } else if crate::store::has_id(new, id) {
            let p = crate::store::place(new, id);
            assert(crate::store::id_at(new, p, id));
            assert(crate::store::id_at(rest, p, id));
        }
    }
}

proof fn lemma_with_links(s: Seq<LinkView>, new: Seq<LinkView>, a: Seq<char>, b: Seq<char>)
    requires
        crate::links::unique_pairs(s),
        crate::links::unique_pairs(new),
    ensures
        crate::links::unique_pairs(crate::links::with_links(s, new)),
        crate::links::weight_of(crate::links::with_links(s, new), a, b)
            == if crate::links::weight_of(new, a, b) is Some {
            crate::links::weight_of(new, a, b)
        } else {
            crate::links::weight_of(s, a, b)
        },
    decreases new.len(),
{
    if new.len() > 0 {
        let rest = new.drop_last();
        let l = new.last();
        crate::convergence::lemma_weight_of_last(new, a, b);
        lemma_with_links(s, rest, a, b);
        let before = crate::links::with_links(s, rest);
        crate::links::lemma_set_weight_unique(before, l.a, l.b, l.weight);
        crate::links::set_then_read(before, l.a, l.b, l.weight, a, b);
    }
}

/// After an image is loaded each memory and each weight of the image is there as
/// the image has it, and every other is as before.
pub proof fn load_brings_the_image(
    st: StoreView,
    memories: Seq<RecordView>,
    links: Seq<LinkView>,
    id: Seq<char>,
    a: Seq<char>,
    b: Seq<char>,
)
    requires
        st.wf(),
        crate::store::unique_ids(memories),
        crate::links::unique_pairs(links),
    ensures
        ({
            let after = st.loaded(memories, links);
            &&& after.path == st.path
            &&& crate::store::lookup(after.memories, id) == if crate::store::has_id(memories, id) {
                crate::store::lookup(memories, id)
            } else {
                crate::store::lookup(st.memories, id)
            }
            &&& crate::links::weight_of(after.links, a, b) == if crate::links::weight_of(
                links,
                a,
                b,
            ) is Some {
                crate::links::weight_of(links, a, b)
            } else {
                crate::links::weight_of(st.links, a, b)
            }
        }),
{
    lemma_with_memories(st, memories, id);
    lemma_with_links(st.links, links, a, b);
}

// --- Snapshots ---

/// A snapshot has of each content the last memory that has it, and nothing else.
pub proof fn snapshot_has_the_last_of_each(memories: Seq<RecordView>, i: int)
    requires
        0 <= i < memories.len(),
        forall|j: int|
            i < j < memories.len() ==> crate::sync::hash_of(#[trigger] memories[j])
                != crate::sync::hash_of(memories[i]),
    ensures
        crate::sync::by_hash(memories).contains(
            crate::sync::Keyed {
                hash: crate::sync::hash_of(memories[i]),
                record: memories[i],
            },
        ),
        forall|k: int|
            0 <= k < crate::sync::by_hash(memories).len() ==> memories.contains(
                (#[trigger] crate::sync::by_hash(memories)[k]).record,
            ),
{
    let hash = crate::sync::hash_of(memories[i]);
    assert(crate::merge_laws::knows(memories, hash));
    let k = crate::merge_laws::lemma_snapshot_matches(memories, hash);
    crate::merge_laws::lemma_last_place_is(memories, hash, i);
    crate::sync::by_hash_is_complete(memories);
    assert(crate::sync::by_hash(memories)[k] == (crate::sync::Keyed {
        hash,
        record: memories[i],
    }));
}

/// The content hash of a memory is that of its content without the white space
/// around it and in lower case, its type and its source, each closed by a byte
/// that no text holds; and no two memories that differ in one of these give the
/// hasher the same to hash.
pub proof fn hash_covers_content_type_and_source(a: RecordView, b: RecordView)
    ensures
        crate::sync::hash_of(a) == crate::sync::hex(
            DefaultHasher::spec_finish(what_is_hashed(a)) as nat,
            16,
        ),
        what_is_hashed(a) == what_is_hashed(b) ==> {
            &&& crate::text::normal(a.content) == crate::text::normal(b.content)
            &&& a.memory_type == b.memory_type
            &&& a.source == b.source
        },
{
    let x = what_is_hashed(a);
    let y = what_is_hashed(b);
    assert(x =~= crate::sync::hashed(
        crate::text::normal(a.content),
        a.memory_type.name(),
        a.source,
    ));
    if x == y {
        assert(x[0] == y[0] && x[2] == y[2] && x[4] == y[4]);
        vstd::utf8::encode_utf8_decode_utf8(crate::text::normal(a.content));
        vstd::utf8::encode_utf8_decode_utf8(crate::text::normal(b.content));
        vstd::utf8::encode_utf8_decode_utf8(a.memory_type.name());
        vstd::utf8::encode_utf8_decode_utf8(b.memory_type.name());
        vstd::utf8::encode_utf8_decode_utf8(a.source);
        vstd::utf8::encode_utf8_decode_utf8(b.source);
        crate::types::type_name_round_trip(a.memory_type);
        crate::types::type_name_round_trip(b.memory_type);
    }
}

/// What the hasher gets of a memory.
pub open spec fn what_is_hashed(r: RecordView) -> Seq<Seq<u8>> {
    seq![
        vstd::utf8::encode_utf8(crate::text::normal(r.content)),
        seq![0xffu8],
        vstd::utf8::encode_utf8(r.memory_type.name()),
        seq![0xffu8],
        vstd::utf8::encode_utf8(r.source),
        seq![0xffu8],
    ]
}

/// The number of a hexadecimal digit.
pub open spec fn digit_value(c: char) -> int {
    if '0' <= c <= '9' {
        c as int - '0' as int
    } else {
        c as int - 'a' as int + 10
    }
}

/// The number that some hexadecimal digits stand for.
pub open spec fn hex_value(s: Seq<char>) -> int
    decreases s.len(),
{
    if s.len() == 0 {
        0
    } else {
        16 * hex_value(s.drop_last()) + digit_value(s.last())
    }
}

/// Sixteen times itself so often.
pub open spec fn sixteen_to(len: nat) -> nat
    decreases len,
{
    if len == 0 {
        1
    } else {
        16 * sixteen_to((len - 1) as nat)
    }
}

/// Hexadecimal digits stand for the number that they were made of, if there are
/// enough of them.
pub proof fn hex_digits_are_read_back(n: nat, len: nat)
    requires
        n < sixteen_to(len),
    ensures
        hex_value(crate::sync::hex(n, len)) == n,
    decreases len,
{
    if len > 0 {
        hex_digits_are_read_back(n / 16, (len - 1) as nat);
        let s = crate::sync::hex(n, len);
        assert(s.drop_last() =~= crate::sync::hex(n / 16, (len - 1) as nat));
        assert(s.last() == crate::sync::hex_digit((n % 16) as int));
        assert(digit_value(crate::sync::hex_digit((n % 16) as int)) == n % 16);
    }
}

// --- Rows ---

/// A row is read column by column. A time of creation that cannot be read is
/// replaced; a time of consolidation or metadata that cannot be read are left
/// out; any mark but 0 pins.
pub proof fn rows_are_read_by_column(
    row: SqliteRow,
    access_times: Seq<Timestamp>,
    otherwise: Timestamp,
)
    ensures
        ({
            let r = crate::sqlite::record_of(row, access_times, otherwise);
            &&& r.id == row.id@
            &&& r.content == row.content@
            &&& r.source == row.source@
            &&& r.working_strength == row.working_strength
            &&& r.core_strength == row.core_strength
            &&& r.importance == row.importance
            &&& r.consolidation_count == row.consolidation_count
            &&& r.access_times == access_times
            &&& r.pinned == (row.pinned != 0)
            &&& forall|t: MemoryType| row.memory_type@ == #[trigger] t.name() ==> r.memory_type == t
            &&& forall|l: MemoryLayer| row.layer@ == #[trigger] l.name() ==> r.layer == l
            &&& match crate::notation::moment_of(row.created_at@) {
                Some(t) => r.created_at == t,
                None => r.created_at == otherwise,
            }
            &&& match row.last_consolidated {
                Some(s) => r.last_consolidated == crate::notation::moment_of(s@),
                None => r.last_consolidated is None,
            }
            &&& match row.metadata {
                Some(s) => r.metadata == crate::notation::json_text(s@),
                None => r.metadata is None,
            }
            &&& match row.contradicts {
                Some(s) => r.contradicts == Some(s@),
                None => r.contradicts is None,
            }
            &&& match row.contradicted_by {
                Some(s) => r.contradicted_by == Some(s@),
                None => r.contradicted_by is None,
            }
            &&& match row.embedding {
                Some(b) => r.embedding == Some(crate::sqlite::floats(b@)),
                None => r.embedding is None,
            }
        }),
{
    let r = crate::sqlite::record_of(row, access_times, otherwise);
    assert forall|t: MemoryType| row.memory_type@ == #[trigger] t.name() implies r.memory_type
        == t by {
        crate::types::type_name_round_trip(t);
    }
    assert forall|l: MemoryLayer| row.layer@ == #[trigger] l.name() implies r.layer == l by {
        crate::types::layer_name_round_trip(l);
    }
}

/// Each four bytes hold one number, the least significant byte first; bytes left
/// over at the end hold none.
pub proof fn bytes_hold_numbers(b: Seq<u8>, i: int)
    requires
        0 <= i < b.len() / 4,
    ensures
        crate::sqlite::floats(b).len() == b.len() / 4,
        crate::sqlite::floats(b)[i].bits == b[4 * i] + 256 * (b[4 * i + 1] + 256 * (b[4 * i + 2]
            + 256 * b[4 * i + 3])),
{
    let n = b[4 * i] + 0x100 * b[4 * i + 1] + 0x10000 * b[4 * i + 2] + 0x1000000 * b[4 * i + 3];
    assert(0 <= n <= 0xffff_ffff);
}

/// The URL of a database is that of the memory for `:memory:`; a name that starts
/// as a URL stays as it is; any other is a file, created where it is missing.
pub proof fn urls_name_databases(name: Seq<char>)
    ensures
        name == ":memory:"@ ==> crate::sqlite::url_of(name) == "sqlite::memory:"@,
        name != ":memory:"@ && "sqlite:"@.is_prefix_of(name) ==> crate::sqlite::url_of(name)
            == name,
        name != ":memory:"@ && !"sqlite:"@.is_prefix_of(name) ==> crate::sqlite::url_of(name)
            == "sqlite:"@ + name + "?mode=rwc"@,
{
}

// --- Moments ---

/// Moments are ordered by their seconds and, within a second, by their
/// nanoseconds.
pub proof fn moments_are_ordered(a: Timestamp, b: Timestamp)
    ensures
        a.not_after(b) <==> a.secs * 0x1_0000_0000 + a.nanos <= b.secs * 0x1_0000_0000 + b.nanos,
        a.not_after(b) || b.not_after(a),
        a.not_after(b) && b.not_after(a) ==> a == b,
{
}

// --- Links ---

/// The stronger of two weights of a pair is kept when it is raised, and no other
/// weight changes.
pub proof fn raising_keeps_the_stronger(
    s: Seq<LinkView>,
    id1: Seq<char>,
    id2: Seq<char>,
    strength: Binary64,
    a: Seq<char>,
    b: Seq<char>,
)
    requires
        crate::links::unique_pairs(s),
        Binary64::of_int(0).below(strength),
    ensures
        ({
            let after = crate::links::weight_of(crate::links::raised(s, id1, id2, strength), a, b);
            let before = crate::links::weight_of(s, a, b);
            &&& (a, b) != crate::links::ordered(id1, id2) ==> after == before
            &&& (a, b) == crate::links::ordered(id1, id2) ==> match before {
                Some(w) => {
                    &&& w.at_least(strength) ==> after == Some(w)
                    &&& !w.at_least(strength) ==> after == Some(strength)
                },
                None => after == Some(strength),
            }
        }),
{
    crate::number_laws::integers_are_what_they_say();
    let (c, d) = crate::links::ordered(id1, id2);
    let w = crate::links::stronger(crate::links::weight_of(s, c, d), strength);
    crate::links::set_then_read(s, c, d, w, a, b);
}

} // verus!
