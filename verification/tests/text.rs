use engramai::binary::Binary64;
use engramai::content::{default_merge, jaccard_similarity};
use engramai::feedback::{compute_confidence, confidence_label, detect_feedback_polarity};
use engramai::text::{comes_before, contains, sentences_of, split_whitespace, tokenize, words_of};
use engramai::types::{MemoryLayer, MemoryType};

fn double(x: f64) -> Binary64 {
    Binary64 { bits: x.to_bits() }
}

fn value(x: Binary64) -> f64 {
    f64::from_bits(x.bits)
}

#[test]
fn tokens_leave_out_stopwords_and_short_words() {
    assert_eq!(
        tokenize("The Quick-brown FOX, a fox & I (we) x2!"),
        vec!["quick", "brown", "fox", "fox", "x2"]
    );
    assert!(tokenize("their the of a").is_empty());
    assert!(tokenize("").is_empty());
    assert_eq!(
        tokenize("na\u{ef}ve \u{6f22} \u{6f22}\u{5b57}"),
        vec!["na\u{ef}ve", "\u{6f22}", "\u{6f22}\u{5b57}"]
    );
    // The lower case of the first letter is an i and a combining dot.
    assert_eq!(tokenize("\u{130}stanbul"), vec!["stanbul"]);
}

#[test]
fn words_sentences_and_fields() {
    assert_eq!(words_of(" \"Hello,\" she-said  (a) ok? "), vec!["Hello", "she-said", "ok"]);
    assert_eq!(sentences_of(" One. Two;;\n three \n"), vec!["One", "Two", "three"]);
    assert_eq!(split_whitespace("\ta  b\u{2003}c\n"), vec!["a", "b", "c"]);
    assert!(split_whitespace("").is_empty());
}

#[test]
fn order_and_parts() {
    assert!(comes_before("a", "b"));
    assert!(comes_before("a", "ab"));
    assert!(!comes_before("ab", "a"));
    assert!(!comes_before("a", "a"));
    assert!(comes_before("z", "\u{e9}"));
    assert!(contains("hello", ""));
    assert!(contains("hello", "ell"));
    assert!(!contains("hello", "elo"));
}

#[test]
fn merge_joins_each_sentence_once() {
    assert_eq!(
        default_merge(&["Rust is fast. It is safe", "rust IS fast; and fun\nIt is safe."]),
        "Rust is fast. It is safe. and fun"
    );
    assert_eq!(default_merge(&[]), "");
    assert_eq!(default_merge(&[" . ; "]), "");
    assert_eq!(default_merge(&["a"]), "a");
}

#[test]
fn similarity_counts_shared_words() {
    assert_eq!(value(jaccard_similarity("red green", "green blue")), 1.0 / 3.0);
    assert_eq!(value(jaccard_similarity("red red, green", "(green) red")), 1.0);
    assert_eq!(value(jaccard_similarity("", "red")), 0.0);
    assert_eq!(value(jaccard_similarity("a b", "a b")), 0.0);
    assert_eq!(value(jaccard_similarity("Red", "red")), 0.0);
    assert_eq!(
        jaccard_similarity("one two three", "two six"),
        jaccard_similarity("two six", "one two three")
    );
}

#[test]
fn feedback_has_a_polarity() {
    assert_eq!(value(detect_feedback_polarity("GREAT job!")), 1.0);
    assert_eq!(value(detect_feedback_polarity("that is a Mistake")), -1.0);
    assert_eq!(value(detect_feedback_polarity("hmm")), 0.0);
    assert_eq!(value(detect_feedback_polarity("good but wrong")), 0.0);
    // "incorrect" holds "correct".
    assert_eq!(value(detect_feedback_polarity("incorrect")), 0.0);
    // "know" holds "no".
    assert_eq!(value(detect_feedback_polarity("I know")), -1.0);
}

#[test]
fn confidence_and_its_label() {
    assert_eq!(value(compute_confidence(double(100.0), double(5.0))), 1.0);
    assert_eq!(value(compute_confidence(double(-100.0), double(0.0))), 0.0);
    assert_eq!(
        value(compute_confidence(double(0.3), double(0.4))),
        ((0.3f64 + 10.0) / 20.0).clamp(0.0, 1.0) * 0.7 + 0.4 * 0.3
    );
    assert_eq!(confidence_label(double(0.8)), "high");
    assert_eq!(confidence_label(double(0.79)), "medium");
    assert_eq!(confidence_label(double(0.5)), "medium");
    assert_eq!(confidence_label(double(0.2)), "low");
    assert_eq!(confidence_label(double(0.19)), "very low");
    assert_eq!(confidence_label(double(f64::NAN)), "very low");
}

#[test]
fn names_stand_for_types_and_layers() {
    for t in [
        MemoryType::Factual,
        MemoryType::Episodic,
        MemoryType::Relational,
        MemoryType::Emotional,
        MemoryType::Procedural,
        MemoryType::Opinion,
        MemoryType::Causal,
    ] {
        assert_eq!(MemoryType::from_name(&t.to_string()), t);
    }
    for l in [MemoryLayer::Core, MemoryLayer::Working, MemoryLayer::Archive] {
        assert_eq!(MemoryLayer::from_name(&l.to_string()), l);
    }
    assert_eq!(MemoryType::from_name("?"), MemoryType::Factual);
    assert_eq!(MemoryLayer::from_name("?"), MemoryLayer::Working);
}

#[test]
fn merged_texts_stay_as_they_are() {
    let texts = ["One thing; two THINGS. ", "two things\n\tThree (3)", "", "one thing"];
    let merged = default_merge(&texts);
    assert_eq!(merged, "One thing. two THINGS. Three (3)");
    assert_eq!(default_merge(&[merged.as_str()]), merged);
    assert_eq!(default_merge(&[texts, texts].concat()), merged);
    assert_eq!(default_merge(&[default_merge(&[]).as_str()]), "");
}

#[test]
fn tokens_of_two_texts_follow_each_other() {
    let (a, b) = ("Rust, fast", "the SAFE-language");
    let both = tokenize(&format!("{} {}", a, b));
    assert_eq!(both, vec!["rust", "fast", "safe", "language"]);
    assert_eq!(both, [tokenize(a), tokenize(b)].concat());
}

#[test]
fn similarity_lies_from_zero_to_one() {
    assert_eq!(value(jaccard_similarity("red green", "green, red red")), 1.0);
    assert_eq!(value(jaccard_similarity("red green", "blue yellow")), 0.0);
    assert_eq!(value(jaccard_similarity("?", "?")), 0.0);
    let s = value(jaccard_similarity("red green", "red green blue"));
    assert!(0.0 < s && s < 1.0);
}
