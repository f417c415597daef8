//! Words, sentences and other pieces of text.

use vstd::prelude::*;
use vstd::string::*;

verus! {

// --- Characters ---

pub open spec fn is_ascii_char(c: char) -> bool {
    (c as int) < 128
}

pub open spec fn ascii_alphanumeric(c: char) -> bool {
    let n = c as int;
    (0x30 <= n <= 0x39) || (0x41 <= n <= 0x5a) || (0x61 <= n <= 0x7a)
}

pub open spec fn ascii_whitespace(c: char) -> bool {
    let n = c as int;
    n == 0x20 || (0x09 <= n <= 0x0d)
}

pub open spec fn ascii_lower(c: char) -> char {
    if 0x41 <= c as int <= 0x5a {
        (c as int + 0x20) as char
    } else {
        c
    }
}

/// Whether a character outside ASCII is alphabetic or numeric in Unicode.
pub uninterp spec fn unicode_alphanumeric(c: char) -> bool;

/// Whether a character outside ASCII is white space in Unicode.
pub uninterp spec fn unicode_whitespace(c: char) -> bool;

/// The Unicode lower case of a text that is not all ASCII.
pub uninterp spec fn unicode_lowercase(s: Seq<char>) -> Seq<char>;

pub open spec fn alphanumeric(c: char) -> bool {
    if is_ascii_char(c) {
        ascii_alphanumeric(c)
    } else {
        unicode_alphanumeric(c)
    }
}

pub open spec fn whitespace(c: char) -> bool {
    if is_ascii_char(c) {
        ascii_whitespace(c)
    } else {
        unicode_whitespace(c)
    }
}

pub open spec fn all_ascii(s: Seq<char>) -> bool {
    forall|i: int| 0 <= i < s.len() ==> is_ascii_char(#[trigger] s[i])
}

pub open spec fn ascii_lowercase(s: Seq<char>) -> Seq<char> {
    Seq::new(s.len(), |i: int| ascii_lower(s[i]))
}

/// Lower case of a text.
pub open spec fn lowercase(s: Seq<char>) -> Seq<char> {
    if all_ascii(s) {
        ascii_lowercase(s)
    } else {
        unicode_lowercase(s)
    }
}

/// `char::is_alphanumeric`: on ASCII the digits and letters; beyond ASCII
/// what Unicode says of the character.
pub assume_specification[ char::is_alphanumeric ](c: char) -> (r: bool)
    ensures
        is_ascii_char(c) ==> r == ascii_alphanumeric(c),
        !is_ascii_char(c) ==> r == unicode_alphanumeric(c),
;

/// `char::is_whitespace`: on ASCII the space and the characters from
/// tabulator to carriage return; beyond ASCII what Unicode says of the
/// character.
pub assume_specification[ char::is_whitespace ](c: char) -> (r: bool)
    ensures
        is_ascii_char(c) ==> r == ascii_whitespace(c),
        !is_ascii_char(c) ==> r == unicode_whitespace(c),
;

/// `str::to_lowercase`: on an ASCII text each letter becomes its lower case;
/// on any other text the result is a function of the text that Unicode gives.
pub assume_specification[ str::to_lowercase ](s: &str) -> (r: String)
    ensures
        all_ascii(s@) ==> r@ == ascii_lowercase(s@),
        !all_ascii(s@) ==> r@ == unicode_lowercase(s@),
;

/// `String::push` appends one character.
pub assume_specification[ String::push ](s: &mut String, c: char)
    ensures
        final(s)@ == old(s)@.push(c),
;

/// Whether two texts hold the same characters, which they do exactly where they
/// hold the same bytes.
pub(crate) fn same(a: &str, b: &str) -> (r: bool)
    ensures
        r == (a@ == b@),
{
    let x = a.as_bytes();
    let y = b.as_bytes();
    proof {
        vstd::utf8::encode_utf8_decode_utf8(a@);
        vstd::utf8::encode_utf8_decode_utf8(b@);
    }
    if x.len() != y.len() {
        return false;
    }
    let mut i: usize = 0;
    while i < x.len()
        invariant
            i <= x@.len(),
            x@.len() == y@.len(),
            x@ == vstd::utf8::encode_utf8(a@),
            y@ == vstd::utf8::encode_utf8(b@),
            forall|k: int| 0 <= k < i ==> x@[k] == y@[k],
        decreases x@.len() - i,
    {
        if x[i] != y[i] {
            return false;
        }
        i = i + 1;
    }
    assert(x@ =~= y@);
    true
}

/// The number of a character.
fn code_point(c: char) -> (n: u32)
    ensures
        n == c as int,
{
    c as u32
}

/// Lower case of a text.
fn to_lower(s: &str) -> (r: String)
    ensures
        r@ == lowercase(s@),
{
    s.to_lowercase()
}

/// The characters of a text.
pub fn chars_of(s: &str) -> (v: Vec<char>)
    ensures
        v@ == s@,
{
    let mut v: Vec<char> = Vec::new();
    for c in it: s.chars()
        invariant
            v@ == it.seq().take(it.index() as int),
            it.seq() == s@,
    {
        v.push(c);
    }
    v
}

/// The text made of some characters.
pub fn string_of(v: &Vec<char>) -> (s: String)
    ensures
        s@ == v@,
{
    let mut s = String::new();
    let mut i: usize = 0;
    while i < v.len()
        invariant
            i <= v.len(),
            s@ == v@.take(i as int),
        decreases v.len() - i,
    {
        s.push(v[i]);
        i = i + 1;
    }
    assert(v@.take(v.len() as int) == v@);
    s
}

// --- Pieces ---

/// Characters at which a text is taken apart, or which are cut off its ends.
#[derive(Clone, Copy, PartialEq, Eq, Structural, Debug)]
pub enum Separator {
    NonAlphanumeric,
    Whitespace,
    /// The end of a sentence: a full stop, a semicolon or a line end.
    Sentence,
}

impl Separator {
    pub open spec fn separates(self, c: char) -> bool {
        match self {
            Separator::NonAlphanumeric => !alphanumeric(c),
            Separator::Whitespace => whitespace(c),
            Separator::Sentence => c == '.' || c == ';' || c == '\n',
        }
    }

    fn test(self, c: char) -> (r: bool)
        ensures
            r == self.separates(c),
    {
        match self {
            Separator::NonAlphanumeric => !c.is_alphanumeric(),
            Separator::Whitespace => c.is_whitespace(),
            Separator::Sentence => c == '.' || c == ';' || c == '\n',
        }
    }
}

/// The contents of some texts.
pub open spec fn texts(v: Seq<String>) -> Seq<Seq<char>> {
    Seq::new(v.len(), |i: int| v[i]@)
}

/// The contents of some character vectors.
pub open spec fn nested(v: Seq<Vec<char>>) -> Seq<Seq<char>> {
    Seq::new(v.len(), |i: int| v[i]@)
}

/// The pieces of `s` between separators, one more than there are separators.
pub open spec fn pieces(s: Seq<char>, sep: Separator) -> Seq<Seq<char>>
    decreases s.len(),
{
    if s.len() == 0 {
        seq![Seq::<char>::empty()]
    } else {
        let before = pieces(s.drop_last(), sep);
        if sep.separates(s.last()) {
            before.push(Seq::<char>::empty())
        } else {
            before.drop_last().push(before.last().push(s.last()))
        }
    }
}

/// Takes a text apart at every separator.
fn split(s: &Vec<char>, sep: Separator) -> (r: Vec<Vec<char>>)
    ensures
        nested(r@) == pieces(s@, sep),
{
    let mut done: Vec<Vec<char>> = Vec::new();
    let mut current: Vec<char> = Vec::new();
    let mut i: usize = 0;
    assert(nested(done@).push(current@) == seq![Seq::<char>::empty()]);
    while i < s.len()
        invariant
            i <= s.len(),
            nested(done@).push(current@) == pieces(s@.take(i as int), sep),
        decreases s.len() - i,
    {
        let ghost old_done = done@;
        let ghost old_current = current@;
        let ghost before = pieces(s@.take(i as int), sep);
        assert(s@.take(i + 1).drop_last() == s@.take(i as int));
        assert(before.last() == old_current);
        assert(before.drop_last() == nested(old_done));
        if sep.test(s[i]) {
            let finished = current;
            current = Vec::new();
            done.push(finished);
            assert(nested(done@) == nested(old_done).push(old_current));
            assert(nested(done@).push(current@) == before.push(Seq::<char>::empty()));
        } else {
            current.push(s[i]);
        }
        i = i + 1;
    }
    let ghost old_done = done@;
    let ghost last = current@;
    done.push(current);
    assert(nested(done@) == nested(old_done).push(last));
    assert(s@.take(s.len() as int) == s@);
    done
}

/// `s` without the characters of class `sep` at its start.
pub open spec fn strip_front(s: Seq<char>, sep: Separator) -> Seq<char>
    decreases s.len(),
{
    if s.len() > 0 && sep.separates(s.first()) {
        strip_front(s.drop_first(), sep)
    } else {
        s
    }
}

/// `s` without the characters of class `sep` at its end.
pub open spec fn strip_back(s: Seq<char>, sep: Separator) -> Seq<char>
    decreases s.len(),
{
    if s.len() > 0 && sep.separates(s.last()) {
        strip_back(s.drop_last(), sep)
    } else {
        s
    }
}

/// `s` without the characters of class `sep` at either end.
pub open spec fn strip(s: Seq<char>, sep: Separator) -> Seq<char> {
    strip_back(strip_front(s, sep), sep)
}

/// Cuts the characters of class `sep` off both ends.
fn trim(s: &Vec<char>, sep: Separator) -> (r: Vec<char>)
    ensures
        r@ == strip(s@, sep),
{
    let mut from: usize = 0;
    assert(s@.skip(0) == s@);
    while from < s.len() && sep.test(s[from])
        invariant
            from <= s.len(),
            strip_front(s@.skip(from as int), sep) == strip_front(s@, sep),
        decreases s.len() - from,
    {
        assert(s@.skip(from as int).drop_first() == s@.skip(from + 1));
        from = from + 1;
    }
    let ghost front = strip_front(s@, sep);
    assert(front == s@.skip(from as int));
    let mut to: usize = s.len();
    assert(s@.subrange(from as int, to as int) == front);
    while from < to && sep.test(s[to - 1])
        invariant
            from <= to <= s.len(),
            strip_back(s@.subrange(from as int, to as int), sep) == strip_back(front, sep),
        decreases to,
    {
        assert(s@.subrange(from as int, to as int).drop_last() == s@.subrange(
            from as int,
            to - 1,
        ));
        to = to - 1;
    }
    let mut r: Vec<char> = Vec::new();
    let mut i: usize = from;
    while i < to
        invariant
            from <= i <= to <= s.len(),
            r@ == s@.subrange(from as int, i as int),
        decreases to - i,
    {
        r.push(s[i]);
        i = i + 1;
    }
    r
}

/// Whether a text takes at least two bytes in UTF-8.
pub open spec fn two_bytes(w: Seq<char>) -> bool {
    w.len() >= 2 || (w.len() == 1 && !is_ascii_char(w[0]))
}

fn has_two_bytes(w: &Vec<char>) -> (r: bool)
    ensures
        r == two_bytes(w@),
{
    if w.len() == 1 {
        code_point(w[0]) >= 128
    } else {
        w.len() >= 2
    }
}

// --- Search tokens ---

/// Words too common to search for.
pub open spec fn stopwords() -> Seq<Seq<char>> {
    seq![
        "a"@, "an"@, "the"@, "is"@, "are"@, "was"@, "were"@, "be"@, "been"@, "being"@,
        "have"@, "has"@, "had"@, "do"@, "does"@, "did"@, "will"@, "would"@, "shall"@,
        "should"@, "may"@, "might"@, "must"@, "can"@, "could"@, "of"@, "in"@, "to"@,
        "for"@, "with"@, "on"@, "at"@, "by"@, "from"@, "as"@, "into"@, "through"@,
        "during"@, "before"@, "after"@, "and"@, "but"@, "or"@, "nor"@, "not"@, "so"@,
        "yet"@, "both"@, "either"@, "neither"@, "it"@, "its"@, "this"@, "that"@,
        "these"@, "those"@, "i"@, "me"@, "my"@, "we"@, "our"@, "you"@, "your"@,
        "he"@, "him"@, "his"@, "she"@, "her"@, "they"@, "them"@, "their"@,
    ]
}

/// Whether a word is too common to search for.
fn is_stopword(word: &str) -> (r: bool)
    ensures
        r == stopwords().contains(word@),
{
    let list: [&str; 71] = [
        "a", "an", "the", "is", "are", "was", "were", "be", "been", "being",
        "have", "has", "had", "do", "does", "did", "will", "would", "shall",
        "should", "may", "might", "must", "can", "could", "of", "in", "to",
        "for", "with", "on", "at", "by", "from", "as", "into", "through",
        "during", "before", "after", "and", "but", "or", "nor", "not", "so",
        "yet", "both", "either", "neither", "it", "its", "this", "that",
        "these", "those", "i", "me", "my", "we", "our", "you", "your",
        "he", "him", "his", "she", "her", "they", "them", "their",
    ];
    let ghost words = stopwords();
    assert(words.len() == 71);
    assert forall|k: int| 0 <= k < 71 implies #[trigger] list@[k]@ == words[k] by {}
    let mut i: usize = 0;
    while i < 71
        invariant
            i <= 71,
            words == stopwords(),
            words.len() == 71,
            forall|k: int| 0 <= k < 71 ==> #[trigger] list@[k]@ == words[k],
            forall|k: int| 0 <= k < i ==> words[k] != word@,
        decreases 71 - i,
    {
        let w = list[i];
        assert(w@ == words[i as int]);
        if same(w, word) {
            assert(words.contains(word@));
            return true;
        }
        i = i + 1;
    }
    false
}

pub open spec fn keeps_token(w: Seq<char>) -> bool {
    two_bytes(w) && !stopwords().contains(w)
}

/// The search tokens of a text in lower case: its alphanumeric pieces of two
/// bytes or more that are no stopwords, in order.
pub open spec fn tokens(lower: Seq<char>) -> Seq<Seq<char>> {
    pieces(lower, Separator::NonAlphanumeric).filter(|w: Seq<char>| keeps_token(w))
}

/// The search tokens of a text that is already in lower case.
pub fn split_tokens(lower: &str) -> (r: Vec<String>)
    ensures
        texts(r@) == tokens(lower@),
{
    let parts = split(&chars_of(lower), Separator::NonAlphanumeric);
    let ghost all = pieces(lower@, Separator::NonAlphanumeric);
    let ghost keep = |w: Seq<char>| keeps_token(w);
    let mut r: Vec<String> = Vec::new();
    let mut i: usize = 0;
    assert(all.take(0).filter(keep) == Seq::<Seq<char>>::empty()) by {
        reveal(Seq::filter);
    }
    while i < parts.len()
        invariant
            i <= parts.len(),
            all == nested(parts@),
            keep == (|w: Seq<char>| keeps_token(w)),
            texts(r@) == all.take(i as int).filter(keep),
        decreases parts.len() - i,
    {
        let ghost before = r@;
        assert(all.take(i + 1).drop_last() == all.take(i as int));
        assert(all.take(i + 1).last() == parts@[i as int]@);
        if has_two_bytes(&parts[i]) {
            let w = string_of(&parts[i]);
            if !is_stopword(w.as_str()) {
                r.push(w);
                assert(texts(r@) == texts(before).push(w@));
            }
        }
        assert(texts(r@) == all.take(i + 1).filter(keep)) by {
            reveal(Seq::filter);
        }
        i = i + 1;
    }
    assert(all.take(parts.len() as int) == all);
    r
}

/// The search tokens of a text: it is put into lower case and split at all
/// that is not alphanumeric; stopwords and short tokens are dropped.
pub fn tokenize(text: &str) -> (r: Vec<String>)
    ensures
        texts(r@) == tokens(lowercase(text@)),
{
    let lower = to_lower(text);
    split_tokens(lower.as_str())
}

// --- Words, sentences, order ---

/// The words of a text: its white space separated pieces without the
/// punctuation around them, those of two bytes or more.
pub open spec fn words(s: Seq<char>) -> Seq<Seq<char>> {
    pieces(s, Separator::Whitespace).map_values(
        |w: Seq<char>| strip(w, Separator::NonAlphanumeric),
    ).filter(|w: Seq<char>| two_bytes(w))
}

/// The words of a text.
pub fn words_of(s: &str) -> (r: Vec<String>)
    ensures
        texts(r@) == words(s@),
{
    let parts = split(&chars_of(s), Separator::Whitespace);
    let ghost bare = pieces(s@, Separator::Whitespace).map_values(
        |w: Seq<char>| strip(w, Separator::NonAlphanumeric),
    );
    let ghost keep = |w: Seq<char>| two_bytes(w);
    let mut r: Vec<String> = Vec::new();
    let mut i: usize = 0;
    assert(bare.take(0).filter(keep) == Seq::<Seq<char>>::empty()) by {
        reveal(Seq::filter);
    }
    while i < parts.len()
        invariant
            i <= parts.len(),
            bare == nested(parts@).map_values(
                |w: Seq<char>| strip(w, Separator::NonAlphanumeric),
            ),
            keep == (|w: Seq<char>| two_bytes(w)),
            texts(r@) == bare.take(i as int).filter(keep),
        decreases parts.len() - i,
    {
        let ghost before = r@;
        assert(bare.take(i + 1).drop_last() == bare.take(i as int));
        let w = trim(&parts[i], Separator::NonAlphanumeric);
        assert(bare.take(i + 1).last() == w@);
        if has_two_bytes(&w) {
            let word = string_of(&w);
            r.push(word);
            assert(texts(r@) == texts(before).push(w@));
        }
        assert(texts(r@) == bare.take(i + 1).filter(keep)) by {
            reveal(Seq::filter);
        }
        i = i + 1;
    }
    assert(bare.take(parts.len() as int) == bare);
    r
}

/// The white space separated pieces of a text.
pub open spec fn fields(s: Seq<char>) -> Seq<Seq<char>> {
    pieces(s, Separator::Whitespace).filter(|w: Seq<char>| w.len() > 0)
}

/// The white space separated pieces of a text.
pub fn split_whitespace(s: &str) -> (r: Vec<String>)
    ensures
        texts(r@) == fields(s@),
{
    let parts = split(&chars_of(s), Separator::Whitespace);
    let ghost all = pieces(s@, Separator::Whitespace);
    let ghost keep = |w: Seq<char>| w.len() > 0;
    let mut r: Vec<String> = Vec::new();
    let mut i: usize = 0;
    assert(all.take(0).filter(keep) == Seq::<Seq<char>>::empty()) by {
        reveal(Seq::filter);
    }
    while i < parts.len()
        invariant
            i <= parts.len(),
            nested(parts@) == all,
            keep == (|w: Seq<char>| w.len() > 0),
            texts(r@) == all.take(i as int).filter(keep),
        decreases parts.len() - i,
    {
        let ghost before = r@;
        assert(all.take(i + 1).drop_last() == all.take(i as int));
        assert(all.take(i + 1).last() == parts@[i as int]@);
        if parts[i].len() > 0 {
            let w = string_of(&parts[i]);
            r.push(w);
            assert(texts(r@) == texts(before).push(w@));
        }
        assert(texts(r@) == all.take(i + 1).filter(keep)) by {
            reveal(Seq::filter);
        }
        i = i + 1;
    }
    assert(all.take(parts.len() as int) == all);
    r
}

/// The alphanumeric pieces of a text of two bytes or more.
pub open spec fn terms(s: Seq<char>) -> Seq<Seq<char>> {
    pieces(s, Separator::NonAlphanumeric).filter(|w: Seq<char>| two_bytes(w))
}

/// The alphanumeric pieces of a text of two bytes or more.
pub fn terms_of(s: &str) -> (r: Vec<String>)
    ensures
        texts(r@) == terms(s@),
{
    let parts = split(&chars_of(s), Separator::NonAlphanumeric);
    let ghost all = pieces(s@, Separator::NonAlphanumeric);
    let ghost keep = |w: Seq<char>| two_bytes(w);
    let mut r: Vec<String> = Vec::new();
    let mut i: usize = 0;
    assert(all.take(0).filter(keep) == Seq::<Seq<char>>::empty()) by {
        reveal(Seq::filter);
    }
    while i < parts.len()
        invariant
            i <= parts.len(),
            nested(parts@) == all,
            keep == (|w: Seq<char>| two_bytes(w)),
            texts(r@) == all.take(i as int).filter(keep),
        decreases parts.len() - i,
    {
        let ghost before = r@;
        assert(all.take(i + 1).drop_last() == all.take(i as int));
        assert(all.take(i + 1).last() == parts@[i as int]@);
        if has_two_bytes(&parts[i]) {
            let w = string_of(&parts[i]);
            r.push(w);
            assert(texts(r@) == texts(before).push(w@));
        }
        assert(texts(r@) == all.take(i + 1).filter(keep)) by {
            reveal(Seq::filter);
        }
        i = i + 1;
    }
    assert(all.take(parts.len() as int) == all);
    r
}

/// The sentences of a text, without the white space around them and without
/// the empty ones.
pub open spec fn sentences(s: Seq<char>) -> Seq<Seq<char>> {
    pieces(s, Separator::Sentence).map_values(
        |w: Seq<char>| strip(w, Separator::Whitespace),
    ).filter(|w: Seq<char>| w.len() > 0)
}

/// The sentences of a text.
pub fn sentences_of(s: &str) -> (r: Vec<String>)
    ensures
        texts(r@) == sentences(s@),
{
    let parts = split(&chars_of(s), Separator::Sentence);
    let ghost bare = pieces(s@, Separator::Sentence).map_values(
        |w: Seq<char>| strip(w, Separator::Whitespace),
    );
    let ghost keep = |w: Seq<char>| w.len() > 0;
    let mut r: Vec<String> = Vec::new();
    let mut i: usize = 0;
    assert(bare.take(0).filter(keep) == Seq::<Seq<char>>::empty()) by {
        reveal(Seq::filter);
    }
    while i < parts.len()
        invariant
            i <= parts.len(),
            bare == nested(parts@).map_values(|w: Seq<char>| strip(w, Separator::Whitespace)),
            keep == (|w: Seq<char>| w.len() > 0),
            texts(r@) == bare.take(i as int).filter(keep),
        decreases parts.len() - i,
    {
        let ghost before = r@;
        assert(bare.take(i + 1).drop_last() == bare.take(i as int));
        let w = trim(&parts[i], Separator::Whitespace);
        assert(bare.take(i + 1).last() == w@);
        if w.len() > 0 {
            let sentence = string_of(&w);
            r.push(sentence);
            assert(texts(r@) == texts(before).push(w@));
        }
        assert(texts(r@) == bare.take(i + 1).filter(keep)) by {
            reveal(Seq::filter);
        }
        i = i + 1;
    }
    assert(bare.take(parts.len() as int) == bare);
    r
}

/// A text without the white space around it and in lower case.
pub open spec fn normal(s: Seq<char>) -> Seq<char> {
    lowercase(strip(s, Separator::Whitespace))
}

/// A text without the white space at its ends, in lower case.
pub fn normalized(s: &str) -> (r: String)
    ensures
        r@ == normal(s@),
{
    let bare = string_of(&trim(&chars_of(s), Separator::Whitespace));
    to_lower(bare.as_str())
}

/// Some texts in a row, `sep` between each two.
pub open spec fn joined(parts: Seq<Seq<char>>, sep: Seq<char>) -> Seq<char>
    decreases parts.len(),
{
    if parts.len() == 0 {
        Seq::empty()
    } else if parts.len() == 1 {
        parts[0]
    } else {
        joined(parts.drop_last(), sep) + sep + parts.last()
    }
}

/// Some texts in a row, `sep` between each two.
pub fn join(parts: &Vec<String>, sep: &str) -> (r: String)
    ensures
        r@ == joined(texts(parts@), sep@),
{
    let ghost all = texts(parts@);
    let mut r = String::new();
    let mut i: usize = 0;
    while i < parts.len()
        invariant
            i <= parts.len(),
            all == texts(parts@),
            r@ == joined(all.take(i as int), sep@),
        decreases parts.len() - i,
    {
        assert(all.take(i + 1).drop_last() == all.take(i as int));
        assert(all.take(i + 1).last() == parts@[i as int]@);
        if i > 0 {
            r.append(sep);
        }
        r.append(parts[i].as_str());
        assert(r@ == joined(all.take(i + 1), sep@));
        i = i + 1;
    }
    assert(all.take(parts.len() as int) == all);
    r
}

/// Whether `part` stands somewhere in `s`.
pub open spec fn has_part(s: Seq<char>, part: Seq<char>) -> bool {
    exists|i: int| part_at(s, part, i)
}

pub open spec fn part_at(s: Seq<char>, part: Seq<char>, i: int) -> bool {
    0 <= i && i + part.len() <= s.len() && s.subrange(i, i + part.len()) == part
}

fn is_part_at(s: &Vec<char>, part: &Vec<char>, i: usize) -> (r: bool)
    requires
        i <= s.len(),
    ensures
        r == part_at(s@, part@, i as int),
{
    if s.len() - i < part.len() {
        return false;
    }
    let ghost sub = s@.subrange(i as int, i + part.len());
    let mut k: usize = 0;
    while k < part.len()
        invariant
            k <= part.len(),
            i <= s.len(),
            part.len() <= s.len() - i,
            sub == s@.subrange(i as int, i + part.len()),
            forall|j: int| 0 <= j < k ==> sub[j] == part@[j],
        decreases part.len() - k,
    {
        if s[i + k] != part[k] {
            assert(sub[k as int] != part@[k as int]);
            return false;
        }
        k = k + 1;
    }
    assert(sub == part@);
    true
}

/// Whether `part` stands somewhere in `s`.
pub fn contains(s: &str, part: &str) -> (r: bool)
    ensures
        r == has_part(s@, part@),
{
    let cs = chars_of(s);
    let cp = chars_of(part);
    let mut i: usize = 0;
    while i <= cs.len()
        invariant
            i <= cs.len() + 1,
            cs@ == s@,
            cp@ == part@,
            forall|k: int| 0 <= k < i ==> !part_at(s@, part@, k),
        decreases cs.len() + 1 - i,
    {
        if is_part_at(&cs, &cp, i) {
            return true;
        }
        if i == cs.len() {
            assert forall|k: int| !part_at(s@, part@, k) by {}
            return false;
        }
        i = i + 1;
    }
    false
}

/// Whether `a` comes before `b` in dictionary order of code points, which is
/// also the order of the UTF-8 bytes.
pub open spec fn precedes(a: Seq<char>, b: Seq<char>) -> bool
    decreases a.len(),
{
    if b.len() == 0 {
        false
    } else if a.len() == 0 {
        true
    } else if a[0] != b[0] {
        (a[0] as int) < (b[0] as int)
    } else {
        precedes(a.drop_first(), b.drop_first())
    }
}

/// Whether `a` comes before `b`.
pub fn comes_before(a: &str, b: &str) -> (r: bool)
    ensures
        r == precedes(a@, b@),
{
    let ca = chars_of(a);
    let cb = chars_of(b);
    let mut i: usize = 0;
    assert(a@.skip(0) == a@);
    assert(b@.skip(0) == b@);
    while i < ca.len() && i < cb.len()
        invariant
            i <= ca.len(),
            i <= cb.len(),
            ca@ == a@,
            cb@ == b@,
            precedes(a@.skip(i as int), b@.skip(i as int)) == precedes(a@, b@),
        decreases ca.len() - i,
    {
        if ca[i] != cb[i] {
            return code_point(ca[i]) < code_point(cb[i]);
        }
        assert(a@.skip(i as int).drop_first() == a@.skip(i + 1));
        assert(b@.skip(i as int).drop_first() == b@.skip(i + 1));
        i = i + 1;
    }
    i < cb.len()
}

/// Of two texts exactly one comes first, unless they are equal.
pub proof fn lemma_precedes_total(a: Seq<char>, b: Seq<char>)
    ensures
        a == b ==> !precedes(a, b),
        a != b ==> precedes(a, b) != precedes(b, a),
    decreases a.len(),
{
    if a.len() > 0 && b.len() > 0 && a[0] == b[0] {
        lemma_precedes_total(a.drop_first(), b.drop_first());
        if a.drop_first() == b.drop_first() {
            assert(a == seq![a[0]] + a.drop_first());
            assert(b == seq![b[0]] + b.drop_first());
        }
    } else if a.len() == 0 && b.len() == 0 {
        assert(a == b);
    }
}

// --- Laws ---

/// The pieces of a text hold no separators.
pub proof fn pieces_hold_no_separators(s: Seq<char>, sep: Separator, k: int, i: int)
    requires
        0 <= k < pieces(s, sep).len(),
        0 <= i < pieces(s, sep)[k].len(),
    ensures
        !sep.separates(pieces(s, sep)[k][i]),
    decreases s.len(),
{
    if s.len() > 0 {
        let before = pieces(s.drop_last(), sep);
        lemma_pieces_not_empty(s.drop_last(), sep);
        if sep.separates(s.last()) {
            if k < before.len() {
                pieces_hold_no_separators(s.drop_last(), sep, k, i);
            }
        } else {
            if k < before.len() - 1 || i < before.last().len() {
                pieces_hold_no_separators(s.drop_last(), sep, k, i);
            }
        }
    }
}

proof fn lemma_pieces_not_empty(s: Seq<char>, sep: Separator)
    ensures
        pieces(s, sep).len() > 0,
    decreases s.len(),
{
    if s.len() > 0 {
        lemma_pieces_not_empty(s.drop_last(), sep);
    }
}

/// Search tokens are alphanumeric, have two bytes or more, and are no
/// stopwords.
pub proof fn tokens_are_words(lower: Seq<char>, k: int)
    requires
        0 <= k < tokens(lower).len(),
    ensures
        two_bytes(tokens(lower)[k]),
        !stopwords().contains(tokens(lower)[k]),
        forall|i: int|
            0 <= i < tokens(lower)[k].len() ==> alphanumeric(#[trigger] tokens(lower)[k][i]),
{
    broadcast use vstd::seq_lib::group_filter_ensures;

    let all = pieces(lower, Separator::NonAlphanumeric);
    let keep = |w: Seq<char>| keeps_token(w);
    let t = all.filter(keep);
    assert(keep(t[k]));
    assert(t.contains(t[k]));
    all.lemma_filter_contains_rev(keep, t[k]);
    let j = choose|j: int| 0 <= j < all.len() && all[j] == t[k];
    assert forall|i: int| 0 <= i < t[k].len() implies alphanumeric(#[trigger] t[k][i]) by {
        pieces_hold_no_separators(lower, Separator::NonAlphanumeric, j, i);
        assert(all[j][i] == t[k][i]);
    }
}

/// Texts in ASCII that differ in case only have the same search tokens.
pub proof fn tokens_ignore_case(a: Seq<char>, b: Seq<char>)
    requires
        all_ascii(a),
        all_ascii(b),
        ascii_lowercase(a) == ascii_lowercase(b),
    ensures
        tokens(lowercase(a)) == tokens(lowercase(b)),
{
}

/// Where a separator stands in a text, the pieces before and after it are those
/// of the two parts.
pub proof fn pieces_of_both(a: Seq<char>, c: char, b: Seq<char>, sep: Separator)
    requires
        sep.separates(c),
    ensures
        pieces(a.push(c) + b, sep) == pieces(a, sep) + pieces(b, sep),
    decreases b.len(),
{
    let s = a.push(c) + b;
    if b.len() == 0 {
        assert(s == a.push(c));
        assert(a.push(c).drop_last() == a);
        assert(pieces(s, sep) =~= pieces(a, sep) + pieces(b, sep));
    } else {
        let rest = b.drop_last();
        assert(s.drop_last() == a.push(c) + rest);
        assert(s.last() == b.last());
        pieces_of_both(a, c, rest, sep);
        lemma_pieces_not_empty(rest, sep);
        assert(pieces(s, sep) =~= pieces(a, sep) + pieces(b, sep));
    }
}

/// The search tokens of two texts with a space between them are those of both,
/// in order.
pub proof fn tokens_of_both(a: Seq<char>, b: Seq<char>)
    ensures
        tokens(a.push(' ') + b) == tokens(a) + tokens(b),
        all_ascii(a) && all_ascii(b) ==> tokens(lowercase(a.push(' ') + b)) == tokens(lowercase(a))
            + tokens(lowercase(b)),
{
    lemma_tokens_of_both(a, b);
    if all_ascii(a) && all_ascii(b) {
        let s = a.push(' ') + b;
        assert(all_ascii(s)) by {
            assert forall|i: int| 0 <= i < s.len() implies is_ascii_char(#[trigger] s[i]) by {
                if i < a.len() {
                    assert(s[i] == a[i]);
                } else if i > a.len() {
                    assert(s[i] == b[i - a.len() - 1]);
                }
            }
        }
        assert(lowercase(s) =~= lowercase(a).push(' ') + lowercase(b));
        lemma_tokens_of_both(lowercase(a), lowercase(b));
    }
}

proof fn lemma_tokens_of_both(a: Seq<char>, b: Seq<char>)
    ensures
        tokens(a.push(' ') + b) == tokens(a) + tokens(b),
{
    let sep = Separator::NonAlphanumeric;
    pieces_of_both(a, ' ', b, sep);
    Seq::filter_distributes_over_add(
        pieces(a, sep),
        pieces(b, sep),
        |w: Seq<char>| keeps_token(w),
    );
}

/// No character of `s` is a separator.
pub open spec fn unbroken(s: Seq<char>, sep: Separator) -> bool {
    forall|i: int| 0 <= i < s.len() ==> !sep.separates(#[trigger] s[i])
}

pub(crate) proof fn lemma_unbroken_piece(s: Seq<char>, sep: Separator)
    requires
        unbroken(s, sep),
    ensures
        pieces(s, sep) == seq![s],
    decreases s.len(),
{
    if s.len() == 0 {
        assert(s =~= Seq::<char>::empty());
    } else {
        let rest = s.drop_last();
        lemma_unbroken_piece(rest, sep);
        assert(!sep.separates(s[s.len() - 1]));
        assert(rest.push(s.last()) =~= s);
        assert(pieces(s, sep) =~= seq![s]);
    }
}

/// Neither the first nor the last character of `s` is a separator.
pub open spec fn bare(s: Seq<char>, sep: Separator) -> bool {
    s.len() > 0 ==> !sep.separates(s.first()) && !sep.separates(s.last())
}

proof fn lemma_strip_front(s: Seq<char>, sep: Separator) -> (n: int)
    ensures
        0 <= n <= s.len(),
        strip_front(s, sep) == s.skip(n),
        n < s.len() ==> !sep.separates(s[n]),
    decreases s.len(),
{
    if s.len() > 0 && sep.separates(s.first()) {
        let m = lemma_strip_front(s.drop_first(), sep);
        assert(s.drop_first().skip(m) =~= s.skip(m + 1));
        m + 1
    } else {
        assert(s.skip(0) =~= s);
        0
    }
}

proof fn lemma_strip_back(s: Seq<char>, sep: Separator) -> (n: int)
    ensures
        0 <= n <= s.len(),
        strip_back(s, sep) == s.take(n),
        n > 0 ==> !sep.separates(s[n - 1]),
    decreases s.len(),
{
    if s.len() > 0 && sep.separates(s.last()) {
        let m = lemma_strip_back(s.drop_last(), sep);
        assert(s.drop_last().take(m) =~= s.take(m));
        m
    } else {
        assert(s.take(s.len() as int) =~= s);
        s.len() as int
    }
}

/// Cutting off the ends leaves a part of the text with nothing to cut off.
proof fn lemma_strip(s: Seq<char>, sep: Separator) -> (r: (int, int))
    ensures
        0 <= r.0 <= r.1 <= s.len(),
        strip(s, sep) == s.subrange(r.0, r.1),
        bare(strip(s, sep), sep),
{
    let n = lemma_strip_front(s, sep);
    let t = strip_front(s, sep);
    let m = lemma_strip_back(t, sep);
    assert(t.take(m) =~= s.subrange(n, n + m));
    (n, n + m)
}

/// Nothing is cut off a bare text, nor off one with a separator before it but
/// that separator.
proof fn lemma_strip_bare(s: Seq<char>, sep: Separator, c: char)
    requires
        bare(s, sep),
        sep.separates(c),
    ensures
        strip(s, sep) == s,
        strip(seq![c] + s, sep) == s,
{
    let t = seq![c] + s;
    assert(t.first() == c);
    assert(t.drop_first() =~= s);
    assert(strip_front(s, sep) == s);
    assert(strip_front(t, sep) == s);
}

/// Whether a text is one sentence as it stands: it is not empty, holds no end
/// of a sentence, and has no white space around it.
pub open spec fn is_sentence(s: Seq<char>) -> bool {
    s.len() > 0 && unbroken(s, Separator::Sentence) && bare(s, Separator::Whitespace)
}

/// The sentences of a text are sentences as they stand.
pub proof fn sentences_are_sentences(s: Seq<char>, k: int)
    requires
        0 <= k < sentences(s).len(),
    ensures
        is_sentence(sentences(s)[k]),
{
    broadcast use vstd::seq_lib::group_filter_ensures;

    let all = pieces(s, Separator::Sentence);
    let cut = all.map_values(|w: Seq<char>| strip(w, Separator::Whitespace));
    let keep = |w: Seq<char>| w.len() > 0;
    let w = sentences(s)[k];
    assert(keep(cut.filter(keep)[k]));
    assert(cut.filter(keep).contains(w));
    cut.lemma_filter_contains_rev(keep, w);
    let j = choose|j: int| 0 <= j < cut.len() && cut[j] == w;
    let r = lemma_strip(all[j], Separator::Whitespace);
    assert forall|i: int| 0 <= i < w.len() implies !Separator::Sentence.separates(
        #[trigger] w[i],
    ) by {
        assert(w[i] == all[j][r.0 + i]);
        pieces_hold_no_separators(s, Separator::Sentence, j, r.0 + i);
    }
}

/// A text that is one sentence has itself as its sentences, also after a space.
proof fn lemma_one_sentence(s: Seq<char>)
    requires
        is_sentence(s),
    ensures
        sentences(s) == seq![s],
        sentences(seq![' '] + s) == seq![s],
{
    let sep = Separator::Sentence;
    let t = seq![' '] + s;
    assert forall|i: int| 0 <= i < t.len() implies !sep.separates(#[trigger] t[i]) by {
        if i > 0 {
            assert(t[i] == s[i - 1]);
        }
    }
    lemma_unbroken_piece(s, sep);
    lemma_unbroken_piece(t, sep);
    lemma_strip_bare(s, Separator::Whitespace, ' ');
    let cut = |w: Seq<char>| strip(w, Separator::Whitespace);
    let keep = |w: Seq<char>| w.len() > 0;
    assert(seq![s].map_values(cut) =~= seq![s]);
    assert(seq![t].map_values(cut) =~= seq![s]);
    assert(seq![s].filter(keep) =~= seq![s]) by {
        reveal(Seq::filter);
        assert(seq![s].drop_last() =~= Seq::<Seq<char>>::empty());
        assert(seq![s].drop_last().filter(keep) =~= Seq::<Seq<char>>::empty());
    }
}

/// The sentences of two texts with the end of a sentence between them are those
/// of both, in order.
pub proof fn sentences_of_both(a: Seq<char>, c: char, b: Seq<char>)
    requires
        Separator::Sentence.separates(c),
    ensures
        sentences(a.push(c) + b) == sentences(a) + sentences(b),
{
    let sep = Separator::Sentence;
    let cut = |w: Seq<char>| strip(w, Separator::Whitespace);
    let keep = |w: Seq<char>| w.len() > 0;
    let p = pieces(a, sep);
    let q = pieces(b, sep);
    pieces_of_both(a, c, b, sep);
    assert((p + q).map_values(cut) =~= p.map_values(cut) + q.map_values(cut));
    Seq::filter_distributes_over_add(p.map_values(cut), q.map_values(cut), keep);
}

/// Sentences that are put in a row, with a full stop and a space between each
/// two, are read back.
pub proof fn joined_sentences(parts: Seq<Seq<char>>)
    requires
        forall|k: int| 0 <= k < parts.len() ==> is_sentence(#[trigger] parts[k]),
    ensures
        sentences(joined(parts, ". "@)) == parts,
    decreases parts.len(),
{
    reveal_strlit(". ");
    if parts.len() == 0 {
        let none = Seq::<char>::empty();
        lemma_unbroken_piece(none, Separator::Sentence);
        let cut = |w: Seq<char>| strip(w, Separator::Whitespace);
        let keep = |w: Seq<char>| w.len() > 0;
        assert(seq![none].map_values(cut) =~= seq![none]);
        assert(seq![none].filter(keep) =~= Seq::<Seq<char>>::empty()) by {
            reveal(Seq::filter);
            assert(seq![none].drop_last() =~= Seq::<Seq<char>>::empty());
            assert(seq![none].drop_last().filter(keep) =~= Seq::<Seq<char>>::empty());
        }
        assert(parts =~= Seq::<Seq<char>>::empty());
    } else if parts.len() == 1 {
        assert(is_sentence(parts[0]));
        lemma_one_sentence(parts[0]);
        assert(parts =~= seq![parts[0]]);
    } else {
        let rest = parts.drop_last();
        let last = parts.last();
        assert forall|k: int| 0 <= k < rest.len() implies is_sentence(#[trigger] rest[k]) by {
            assert(rest[k] == parts[k]);
        }
        joined_sentences(rest);
        assert(is_sentence(parts[parts.len() - 1]));
        lemma_one_sentence(last);
        let before = joined(rest, ". "@);
        assert(joined(parts, ". "@) =~= before.push('.') + (seq![' '] + last));
        sentences_of_both(before, '.', seq![' '] + last);
        assert(rest + seq![last] =~= parts);
    }
}

} // verus!
