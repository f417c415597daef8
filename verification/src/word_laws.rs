//! How texts are taken apart into tokens, words and sentences, and compared.

use vstd::prelude::*;
use crate::binary::{Binary32, Binary64};
use crate::text::Separator;

verus! {

proof fn lemma_one_piece(w: Seq<char>, sep: Separator, keep: spec_fn(Seq<char>) -> bool)
    requires
        crate::text::unbroken(w, sep),
    ensures
        crate::text::pieces(w, sep) == seq![w],
        crate::text::pieces(w, sep).filter(keep) == if keep(w) {
            seq![w]
        } else {
            Seq::<Seq<char>>::empty()
        },
{
    crate::text::lemma_unbroken_piece(w, sep);
    reveal(Seq::filter);
    assert(seq![w].drop_last() =~= Seq::<Seq<char>>::empty());
    assert(seq![w].drop_last().filter(keep) =~= Seq::<Seq<char>>::empty());
    assert(seq![w].filter(keep) =~= if keep(w) {
        seq![w]
    } else {
        Seq::<Seq<char>>::empty()
    });
}

/// A text without anything between its letters and digits is a search token as it
/// stands, unless it is a stopword or takes less than two bytes.
pub proof fn word_is_its_token(w: Seq<char>)
    requires
        forall|i: int| 0 <= i < w.len() ==> crate::text::alphanumeric(#[trigger] w[i]),
    ensures
        crate::text::stopwords().contains(w) ==> crate::text::tokens(w).len() == 0,
        w.len() < 2 && crate::text::all_ascii(w) ==> crate::text::tokens(w).len() == 0,
        !crate::text::stopwords().contains(w) && (w.len() >= 2 || (w.len() == 1
            && !crate::text::is_ascii_char(w[0]))) ==> crate::text::tokens(w) == seq![w],
{
    lemma_one_piece(
        w,
        Separator::NonAlphanumeric,
        |x: Seq<char>| crate::text::keeps_token(x),
    );
}

/// A text without anything between its letters and digits is a term of a query as
/// it stands, if it takes two bytes or more; stopwords are terms too.
pub proof fn word_is_its_term(w: Seq<char>)
    requires
        forall|i: int| 0 <= i < w.len() ==> crate::text::alphanumeric(#[trigger] w[i]),
    ensures
        crate::text::terms(w) == if w.len() >= 2 || (w.len() == 1 && !crate::text::is_ascii_char(
            w[0],
        )) {
            seq![w]
        } else {
            Seq::<Seq<char>>::empty()
        },
{
    lemma_one_piece(
        w,
        Separator::NonAlphanumeric,
        |x: Seq<char>| crate::text::two_bytes(x),
    );
}

/// Texts that are joined stand in order, with the separator between each two.
pub proof fn joined_texts_stand_in_order(parts: Seq<Seq<char>>, sep: Seq<char>, x: Seq<char>)
    ensures
        crate::text::joined(Seq::empty(), sep).len() == 0,
        crate::text::joined(seq![x], sep) == x,
        parts.len() > 0 ==> crate::text::joined(parts.push(x), sep) == crate::text::joined(
            parts,
            sep,
        ) + sep + x,
{
    assert(parts.push(x).drop_last() =~= parts);
}

/// Whatever is no letter and no digit parts a text: the tokens of the whole are
/// those before it and those after it, in order.
pub proof fn tokens_part_anywhere(a: Seq<char>, c: char, b: Seq<char>)
    requires
        !crate::text::alphanumeric(c),
    ensures
        crate::text::tokens(a.push(c) + b) == crate::text::tokens(a) + crate::text::tokens(b),
        crate::text::terms(a.push(c) + b) == crate::text::terms(a) + crate::text::terms(b),
{
    let sep = Separator::NonAlphanumeric;
    crate::text::pieces_of_both(a, c, b, sep);
    Seq::filter_distributes_over_add(
        crate::text::pieces(a, sep),
        crate::text::pieces(b, sep),
        |w: Seq<char>| crate::text::keeps_token(w),
    );
    Seq::filter_distributes_over_add(
        crate::text::pieces(a, sep),
        crate::text::pieces(b, sep),
        |w: Seq<char>| crate::text::two_bytes(w),
    );
}

/// White space parts a text: the words and the fields of the whole are those
/// before it and those after it, in order.
pub proof fn words_part_at_white_space(a: Seq<char>, c: char, b: Seq<char>)
    requires
        crate::text::whitespace(c),
    ensures
        crate::text::words(a.push(c) + b) == crate::text::words(a) + crate::text::words(b),
        crate::text::fields(a.push(c) + b) == crate::text::fields(a) + crate::text::fields(b),
{
    let sep = Separator::Whitespace;
    let p = crate::text::pieces(a, sep);
    let q = crate::text::pieces(b, sep);
    crate::text::pieces_of_both(a, c, b, sep);
    let cut = |w: Seq<char>| crate::text::strip(w, Separator::NonAlphanumeric);
    assert((p + q).map_values(cut) =~= p.map_values(cut) + q.map_values(cut));
    Seq::filter_distributes_over_add(
        p.map_values(cut),
        q.map_values(cut),
        |w: Seq<char>| crate::text::two_bytes(w),
    );
    Seq::filter_distributes_over_add(p, q, |w: Seq<char>| w.len() > 0);
}

/// A text without white space is one field, and its word is what stands between
/// its first and its last letter or digit, if that takes two bytes or more.
pub proof fn unspaced_text_is_one_word(w: Seq<char>)
    requires
        w.len() > 0,
        forall|i: int| 0 <= i < w.len() ==> !crate::text::whitespace(#[trigger] w[i]),
    ensures
        crate::text::fields(w) == seq![w],
        ({
            let inner = crate::text::strip(w, Separator::NonAlphanumeric);
            crate::text::words(w) == if inner.len() >= 2 || (inner.len() == 1
                && !crate::text::is_ascii_char(inner[0])) {
                seq![inner]
            } else {
                Seq::<Seq<char>>::empty()
            }
        }),
{
    let sep = Separator::Whitespace;
    lemma_one_piece(w, sep, |x: Seq<char>| x.len() > 0);
    let cut = |x: Seq<char>| crate::text::strip(x, Separator::NonAlphanumeric);
    let keep = |x: Seq<char>| crate::text::two_bytes(x);
    let inner = cut(w);
    assert(seq![w].map_values(cut) =~= seq![inner]);
    reveal(Seq::filter);
    assert(seq![inner].drop_last() =~= Seq::<Seq<char>>::empty());
    assert(seq![inner].drop_last().filter(keep) =~= Seq::<Seq<char>>::empty());
    assert(seq![inner].filter(keep) =~= if keep(inner) {
        seq![inner]
    } else {
        Seq::<Seq<char>>::empty()
    });
}

/// Cutting off the ends takes off separators only, and all of them: what is left
/// stands from the first place given to the second, and neither begins nor ends
/// with a separator.
pub proof fn only_separators_are_cut_off(s: Seq<char>, sep: Separator) -> (r: (int, int))
    ensures
        0 <= r.0 <= r.1 <= s.len(),
        crate::text::strip(s, sep) == s.subrange(r.0, r.1),
        forall|i: int| 0 <= i < r.0 ==> sep.separates(#[trigger] s[i]),
        forall|i: int| r.1 <= i < s.len() ==> sep.separates(#[trigger] s[i]),
        crate::text::bare(crate::text::strip(s, sep), sep),
{
    let n = lemma_front(s, sep);
    let t = crate::text::strip_front(s, sep);
    let m = lemma_back(t, sep);
    assert(t.take(m) =~= s.subrange(n, n + m));
    assert forall|i: int| n + m <= i < s.len() implies sep.separates(#[trigger] s[i]) by {
        assert(t[i - n] == s[i]);
    }
    (n, n + m)
}

proof fn lemma_front(s: Seq<char>, sep: Separator) -> (n: int)
    ensures
        0 <= n <= s.len(),
        crate::text::strip_front(s, sep) == s.skip(n),
        forall|i: int| 0 <= i < n ==> sep.separates(#[trigger] s[i]),
        n < s.len() ==> !sep.separates(s[n]),
    decreases s.len(),
{
    if s.len() > 0 && sep.separates(s.first()) {
        let m = lemma_front(s.drop_first(), sep);
        assert(s.drop_first().skip(m) =~= s.skip(m + 1));
        assert forall|i: int| 0 <= i < m + 1 implies sep.separates(#[trigger] s[i]) by {
            if i > 0 {
                assert(s.drop_first()[i - 1] == s[i]);
            }
        }
        m + 1
    } else {
        assert(s.skip(0) =~= s);
        0
    }
}

proof fn lemma_back(s: Seq<char>, sep: Separator) -> (n: int)
    ensures
        0 <= n <= s.len(),
        crate::text::strip_back(s, sep) == s.take(n),
        forall|i: int| n <= i < s.len() ==> sep.separates(#[trigger] s[i]),
        n > 0 ==> !sep.separates(s[n - 1]),
    decreases s.len(),
{
    if s.len() > 0 && sep.separates(s.last()) {
        let m = lemma_back(s.drop_last(), sep);
        assert(s.drop_last().take(m) =~= s.take(m));
        assert forall|i: int| m <= i < s.len() implies sep.separates(#[trigger] s[i]) by {
            if i < s.len() - 1 {
                assert(s.drop_last()[i] == s[i]);
            }
        }
        m
    } else {
        assert(s.take(s.len() as int) =~= s);
        s.len() as int
    }
}

// --- Merged texts ---

/// A merged text has each sentence of each text, up to case, has no sentence twice
/// and none that was in no text; a sentence stands as it was first written.
pub proof fn merged_text_has_each_sentence(contents: Seq<Seq<char>>)
    ensures
        ({
            let all = crate::content::all_sentences(contents);
            let out = crate::text::sentences(crate::content::merged_text(contents));
            &&& forall|i: int|
                0 <= i < all.len() ==> crate::content::seen_before(out, #[trigger] all[i])
            &&& forall|k: int| 0 <= k < out.len() ==> all.contains(#[trigger] out[k])
            &&& forall|j: int, k: int|
                0 <= j < k < out.len() ==> crate::text::lowercase(#[trigger] out[j])
                    != crate::text::lowercase(#[trigger] out[k])
        }),
{
    let all = crate::content::all_sentences(contents);
    let parts = crate::content::first_of_each(all);
    crate::content::each_sentence_once(all);
    assert forall|k: int| 0 <= k < parts.len() implies crate::text::is_sentence(
        #[trigger] parts[k],
    ) by {
        assert(all.contains(parts[k]));
        let m = choose|m: int| 0 <= m < all.len() && all[m] == parts[k];
        crate::content::lemma_all_sentences(contents, m);
    }
    crate::text::joined_sentences(parts);
}

/// Merging one text more adds its sentences that have not been seen, in order, and
/// changes nothing of what was there.
pub proof fn merging_one_more_text_appends(contents: Seq<Seq<char>>, more: Seq<char>)
    ensures
        crate::content::first_of_each(crate::content::all_sentences(contents)).is_prefix_of(
            crate::content::first_of_each(crate::content::all_sentences(contents.push(more))),
        ),
        crate::content::all_sentences(contents.push(more)) == crate::content::all_sentences(
            contents,
        ) + crate::text::sentences(more),
        crate::content::all_sentences(Seq::empty()).len() == 0,
{
    assert(contents.push(more).drop_last() =~= contents);
    lemma_first_of_each_grows(
        crate::content::all_sentences(contents),
        crate::text::sentences(more),
    );
}

proof fn lemma_first_of_each_grows(s: Seq<Seq<char>>, t: Seq<Seq<char>>)
    ensures
        crate::content::first_of_each(s).is_prefix_of(crate::content::first_of_each(s + t)),
    decreases t.len(),
{
    if t.len() == 0 {
        assert(s + t =~= s);
    } else {
        lemma_first_of_each_grows(s, t.drop_last());
        assert((s + t).drop_last() =~= s + t.drop_last());
    }
}

// --- Similarity ---

/// The similarity of two texts with words is the number of words that they share
/// by the number of all their words; that of a text without words with any other
/// is 0.
pub proof fn similarity_is_shared_by_all(a: Seq<char>, b: Seq<char>)
    ensures
        ({
            let x = crate::text::words(a).to_set();
            let y = crate::text::words(b).to_set();
            &&& crate::text::words(a).len() > 0 && crate::text::words(b).len() > 0
                ==> crate::content::similarity(a, b) == crate::number_laws::fraction(
                x.intersect(y).len() as int,
                x.union(y).len() as int,
            )
            &&& crate::text::words(a).len() == 0 || crate::text::words(b).len() == 0
                ==> crate::content::similarity(a, b) == Binary64::of_int(0)
        }),
{
    crate::number_laws::integers_are_what_they_say();
    lemma_set_of_some(crate::text::words(a));
    lemma_set_of_some(crate::text::words(b));
}

proof fn lemma_set_of_some(s: Seq<Seq<char>>)
    ensures
        s.to_set().len() == 0 <==> s.len() == 0,
{
    vstd::seq_lib::seq_to_set_is_finite(s);
    if s.len() == 0 {
        assert(s.to_set() =~= Set::<Seq<char>>::empty());
    } else {
        assert(s.contains(s[0]));
        assert(s.to_set().contains(s[0]));
    }
}

// --- Parts and order ---

/// A text stands in every text that it was put into, and in no shorter one.
pub proof fn parts_are_found(a: Seq<char>, part: Seq<char>, b: Seq<char>)
    ensures
        crate::text::has_part(a + part + b, part),
        a.len() < part.len() ==> !crate::text::has_part(a, part),
{
    let s = a + part + b;
    assert(s.subrange(a.len() as int, (a.len() + part.len()) as int) =~= part);
    assert(crate::text::part_at(s, part, a.len() as int));
}

/// The first character in which two texts differ decides which comes first; where
/// one goes on where the other ends, the shorter one does.
pub proof fn first_difference_decides(
    common: Seq<char>,
    x: char,
    a: Seq<char>,
    y: char,
    b: Seq<char>,
)
    ensures
        (x as int) < (y as int) ==> crate::text::precedes(common.push(x) + a, common.push(y) + b),
        crate::text::precedes(common, common.push(x) + a),
    decreases common.len(),
{
    let p = common.push(x) + a;
    let q = common.push(y) + b;
    if common.len() > 0 {
        let rest = common.drop_first();
        first_difference_decides(rest, x, a, y, b);
        assert(p.drop_first() =~= rest.push(x) + a);
        assert(q.drop_first() =~= rest.push(y) + b);
    }
}

// --- Vectors ---

/// The order of two numbers makes no difference to their product.
pub proof fn single_times_commutes(x: Binary32, y: Binary32)
    ensures
        x.times(y) == y.times(x),
{
    let f = crate::binary::binary32();
    let a = f.mant(x.datum().mag as nat);
    let b = f.mant(y.datum().mag as nat);
    assert(a * b == b * a) by (nonlinear_arith);
}

proof fn lemma_dot_commutes(a: Seq<Binary32>, b: Seq<Binary32>, n: nat, start: Binary32)
    ensures
        crate::vector::dot(a, b, n, start) == crate::vector::dot(b, a, n, start),
    decreases n,
{
    if n > 0 {
        lemma_dot_commutes(a, b, (n - 1) as nat, start);
        single_times_commutes(a[n - 1], b[n - 1]);
    }
}

/// The sum of the products of the components of two vectors, from left to right.
pub open spec fn scalar_product(
    a: Seq<Binary32>,
    b: Seq<Binary32>,
    start: Binary32,
) -> Binary32 {
    Seq::new(a.len(), |i: int| a[i].times(b[i])).fold_left(
        start,
        |sum: Binary32, x: Binary32| sum.plus(x),
    )
}

proof fn lemma_dot(a: Seq<Binary32>, b: Seq<Binary32>, n: nat, start: Binary32)
    requires
        n <= a.len(),
        n <= b.len(),
    ensures
        crate::vector::dot(a, b, n, start) == Seq::new(
            n,
            |i: int| a[i].times(b[i]),
        ).fold_left(start, |sum: Binary32, x: Binary32| sum.plus(x)),
    decreases n,
{
    let s = Seq::new(n, |i: int| a[i].times(b[i]));
    if n > 0 {
        lemma_dot(a, b, (n - 1) as nat, start);
        assert(s.drop_last() =~= Seq::new((n - 1) as nat, |i: int| a[i].times(b[i])));
    }
}

/// The similarity of two vectors is their scalar product by the product of their
/// lengths. It does not depend on which of them comes first, and is 0 where they
/// differ in the number of components, have none, or one has length 0.
pub proof fn cosine_is_product_by_lengths(a: Seq<Binary32>, b: Seq<Binary32>)
    ensures
        ({
            let start = Binary32 { bits: crate::numbers::SINGLE_MINUS_ZERO };
            let x = scalar_product(a, a, start).root();
            let y = scalar_product(b, b, start).root();
            let c = crate::vector::cosine(a, b);
            &&& c == crate::vector::cosine(b, a)
            &&& a.len() != b.len() || a.len() == 0 || x.datum().mag == 0 || y.datum().mag == 0
                ==> c == (Binary32 { bits: 0 })
            &&& a.len() == b.len() && a.len() > 0 && x.datum().mag != 0 && y.datum().mag != 0
                ==> c == scalar_product(a, b, start).over(x.times(y))
        }),
{
    let start = Binary32 { bits: crate::numbers::SINGLE_MINUS_ZERO };
    lemma_dot(a, a, a.len(), start);
    lemma_dot(b, b, b.len(), start);
    if a.len() == b.len() {
        lemma_dot(a, b, a.len(), start);
        lemma_dot_commutes(a, b, a.len(), start);
    }
    single_times_commutes(
        scalar_product(a, a, start).root(),
        scalar_product(b, b, start).root(),
    );
}

/// The similarity of two vectors in rows is their scalar product by the product of
/// their lengths. It does not depend on which of them comes first, and is 0 where
/// they differ in the number of components, have none, or are together too short.
pub proof fn row_cosine_is_product_by_lengths(a: Seq<Binary32>, b: Seq<Binary32>)
    ensures
        ({
            let start = Binary32 { bits: 0 };
            let length = scalar_product(a, a, start).root().times(
                scalar_product(b, b, start).root(),
            );
            let c = crate::sqlite::cosine(a, b);
            let short = length.below(Binary32 { bits: crate::numbers::SINGLE_TINY });
            &&& c == crate::sqlite::cosine(b, a)
            &&& a.len() != b.len() || a.len() == 0 || short ==> c == (Binary32 { bits: 0 })
            &&& a.len() == b.len() && a.len() > 0 && !short ==> c == scalar_product(
                a,
                b,
                start,
            ).over(length)
        }),
{
    let start = Binary32 { bits: 0 };
    lemma_dot(a, a, a.len(), start);
    lemma_dot(b, b, b.len(), start);
    if a.len() == b.len() {
        lemma_dot(a, b, a.len(), start);
        lemma_dot_commutes(a, b, a.len(), start);
    }
    single_times_commutes(
        scalar_product(a, a, start).root(),
        scalar_product(b, b, start).root(),
    );
}

} // verus!
