use nessie::chain::{Bigram, Chain, ChainMap, SeqUnigram};
use nessie::region::Region;
use nessie::unigram::Unigram;

fn doc(words: &[&str]) -> Vec<String> {
    words.iter().map(|w| w.to_string()).collect()
}

fn pair(a: &str, b: &str) -> (String, String) {
    (a.to_string(), b.to_string())
}

/// Flattens a snapshot into (bigram, topic, sequence number, next) tuples.
fn tuples(m: &ChainMap) -> Vec<((String, String), (String, String), i32, Option<String>)> {
    let mut out = Vec::new();
    for (bigram, topics) in m {
        for (topic, records) in topics {
            for (seq, next) in records {
                out.push((bigram.clone(), topic.clone(), *seq, next.clone()));
            }
        }
    }
    out
}

fn t(
    b: (&str, &str),
    tp: (&str, &str),
    seq: i32,
    next: Option<&str>,
) -> ((String, String), (String, String), i32, Option<String>) {
    (pair(b.0, b.1), pair(tp.0, tp.1), seq, next.map(|s| s.to_string()))
}

#[test]
fn five_word_document_with_half_width_two() {
    // The first window holds "the" and "quick": two counted words, too little
    // context, so the document records nothing.
    let mut c = Chain::new(2, usize::MAX, 0);
    let r = c.update(doc(&["the", "quick", "brown", "fox", "jumps"]));
    assert!(r.is_ok());
    assert_eq!(c.num_entries(), 0);
    assert!(tuples(&c.extract_chain_map()).is_empty());
}

#[test]
fn eight_word_document_with_half_width_three() {
    let mut c = Chain::new(3, usize::MAX, 0);
    let words = doc(&["the", "quick", "brown", "fox", "jumps", "over", "lazy", "dog"]);
    assert!(c.update(words).is_ok());
    assert_eq!(c.num_entries(), 7);
    let got = tuples(&c.extract_chain_map());
    let want = vec![
        t(("the", "quick"), ("the", "quick"), 0, Some("brown")),
        t(("quick", "brown"), ("the", "quick"), 1, Some("fox")),
        t(("brown", "fox"), ("the", "quick"), 2, Some("jumps")),
        t(("fox", "jumps"), ("the", "quick"), 3, Some("over")),
        t(("jumps", "over"), ("the", "over"), 0, Some("lazy")),
        t(("over", "lazy"), ("the", "over"), 1, Some("dog")),
        t(("lazy", "dog"), ("the", "over"), 2, None),
    ];
    assert_eq!(got, want);
}

#[test]
fn same_document_twice_appends_in_order() {
    let mut c = Chain::new(3, usize::MAX, 0);
    let words = doc(&["the", "quick", "brown", "fox", "jumps", "over", "lazy", "dog"]);
    assert!(c.update(words.clone()).is_ok());
    assert!(c.update(words).is_ok());
    assert_eq!(c.num_entries(), 7);
    let m = c.extract_chain_map();
    let (bigram, topics) = &m[0];
    assert_eq!(bigram, &pair("the", "quick"));
    assert_eq!(topics.len(), 1);
    assert_eq!(topics[0].1, vec![(0, Some("brown".to_string())), (0, Some("brown".to_string()))]);
}

#[test]
fn fresh_indexes_record_identically() {
    let words = doc(&["one", "two", "three", "two", "four", "two", "five", "three", "six"]);
    let mut a = Chain::new(2, usize::MAX, 0);
    let mut b = Chain::new(2, usize::MAX, 0);
    assert!(a.update(words.clone()).is_ok());
    assert!(b.update(words).is_ok());
    assert_eq!(a.allocated_bytes(), b.allocated_bytes());
    assert_eq!(tuples(&a.extract_chain_map()), tuples(&b.extract_chain_map()));
}

#[test]
fn short_document_changes_nothing() {
    let mut c = Chain::new(3, usize::MAX, 0);
    assert!(c.update(doc(&["the", "quick", "brown", "fox", "jumps"])).is_ok());
    let before = c.num_entries();
    let bytes = c.allocated_bytes();
    assert!(c.update(doc(&["alpha", "beta"])).is_ok());
    assert_eq!(c.num_entries(), before);
    assert_eq!(c.allocated_bytes(), bytes);
}

#[test]
fn empty_and_single_word_documents() {
    let mut c = Chain::new(0, usize::MAX, 0);
    assert!(c.update(Vec::new()).is_ok());
    assert!(c.update(doc(&["solitary"])).is_ok());
    assert_eq!(c.num_entries(), 0);
}

#[test]
fn long_tokens_take_region_bytes() {
    let mut c = Chain::new(3, usize::MAX, 0);
    let words = doc(&["extraordinarily", "incomprehensibilities", "abc", "def", "ghi"]);
    assert!(c.update(words).is_ok());
    // "incomprehensibilities" (21 bytes) is the only text held outside a token:
    // each of its copies takes a 32-byte block.
    assert!(c.allocated_bytes() > 0);
    assert_eq!(c.allocated_bytes() % 16, 0);
}

#[test]
fn compaction_drops_sparse_bigrams() {
    let mut c = Chain::new(3, usize::MAX, 2);
    let words = doc(&["the", "quick", "brown", "fox", "jumps", "over", "lazy", "dog"]);
    assert!(c.update(words).is_ok());
    assert_eq!(c.num_entries(), 7);
    assert!(c.compact().is_ok());
    assert_eq!(c.num_entries(), 0);
    assert_eq!(c.spare_bytes(), 0);
}

#[test]
fn compaction_keeps_dense_bigrams_unchanged() {
    let mut c = Chain::new(3, usize::MAX, 1);
    let words = doc(&[
        "supercalifragilistic",
        "quick",
        "brown",
        "fox",
        "jumps",
        "over",
        "lazy",
        "dog",
    ]);
    assert!(c.update(words).is_ok());
    let before_bytes = c.allocated_bytes();
    assert!(before_bytes > 0);
    let mut d = Chain::new(3, usize::MAX, 1);
    let words = doc(&[
        "supercalifragilistic",
        "quick",
        "brown",
        "fox",
        "jumps",
        "over",
        "lazy",
        "dog",
    ]);
    assert!(d.update(words).is_ok());
    assert!(c.compact().is_ok());
    assert_eq!(c.spare_bytes(), 0);
    assert_eq!(c.allocated_bytes(), before_bytes);
    assert_eq!(tuples(&c.extract_chain_map()), tuples(&d.extract_chain_map()));
}

#[test]
fn update_compacts_past_the_size_threshold() {
    // Any region byte crosses a zero threshold, so the update compacts; with a
    // threshold of two topics every bigram of this document goes.
    let mut c = Chain::new(3, 0, 2);
    let words = doc(&[
        "supercalifragilistic",
        "quick",
        "brown",
        "fox",
        "jumps",
        "over",
        "lazy",
        "dog",
    ]);
    assert!(c.update(words).is_ok());
    assert_eq!(c.num_entries(), 0);
    assert_eq!(c.allocated_bytes(), 0);
    assert_eq!(c.spare_bytes(), 0);
}

#[test]
fn bigram_and_seq_unigram_constructors() {
    let mut r = Region::new(0, 1000);
    let a = Unigram::from_slice_in("first", &mut r).unwrap();
    let b = Unigram::from_slice_in("second", &mut r).unwrap();
    let g = Bigram::new(a, b);
    assert_eq!(g.first.as_str(&r), "first");
    assert_eq!(g.second.as_str(&r), "second");
    let s = SeqUnigram::new(4, Some(a));
    assert_eq!(s.seq_num, 4);
    assert_eq!(s.unigram.unwrap().as_str(&r), "first");
    assert!(SeqUnigram::new(0, None).unigram.is_none());
}

#[test]
fn full_region_fails_and_keeps_earlier_records() {
    // The first position takes an entry slot (64), a topic slot (64), a record
    // slot (32) and two 32-byte blocks for "supercalifragilistic" (as half of the
    // bigram and half of its topic): 224 bytes. The second position needs 192
    // more, which a 224-byte region does not have.
    let words = doc(&[
        "supercalifragilistic",
        "quick",
        "brown",
        "fox",
        "jumps",
        "over",
        "lazy",
        "dog",
    ]);
    let mut c = Chain::with_region_capacity(3, usize::MAX, 0, 224);
    assert!(c.update(words.clone()).is_err());
    assert_eq!(c.num_entries(), 1);
    assert_eq!(c.allocated_bytes(), 224);
    let got = tuples(&c.extract_chain_map());
    assert_eq!(
        got,
        vec![t(
            ("supercalifragilistic", "quick"),
            ("supercalifragilistic", "quick"),
            0,
            Some("brown")
        )]
    );

    let mut tight = Chain::with_region_capacity(3, usize::MAX, 0, 200);
    assert!(tight.update(words).is_err());
    assert_eq!(tight.num_entries(), 0);
    assert_eq!(tight.allocated_bytes(), 0);
}

#[test]
fn entries_topics_and_records_are_charged() {
    // Seven positions, each a new bigram with one topic and one record, all
    // tokens inline: 7 * (64 + 64 + 32) bytes.
    let mut c = Chain::new(3, usize::MAX, 0);
    let words = doc(&["the", "quick", "brown", "fox", "jumps", "over", "lazy", "dog"]);
    assert!(c.update(words.clone()).is_ok());
    assert_eq!(c.allocated_bytes(), 1120);
    // Recording it again adds only a record slot per position.
    assert!(c.update(words).is_ok());
    assert_eq!(c.allocated_bytes(), 1120 + 7 * 32);
}
