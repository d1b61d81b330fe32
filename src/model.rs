use vstd::prelude::*;
use crate::counter::{counter_add, counter_remove, sum_counts};
use crate::unigram::{token_cost, utf8_of};

verus! {

/// Two words, as text.
pub type TextPair = (Seq<char>, Seq<char>);

/// A transition: its place in a run of one topic, and the word that followed.
pub type TextRecord = (i32, Option<Seq<char>>);

/// The index as text: each bigram with its topics, each topic with its records
/// in the order they were recorded.
pub type ChainModel = Seq<(TextPair, Seq<(TextPair, Seq<TextRecord>)>)>;

/// Bytes a record takes in the region: its slot and its token.
pub open spec fn record_cost(r: TextRecord) -> nat {
    RECORD_SLOT as nat + match r.1 {
        Some(s) => token_cost(s),
        None => 0,
    }
}

/// Bytes charged to a region for the storage of one record.
pub const RECORD_SLOT: usize = 32;

/// Bytes charged to a region for the storage of one topic of an entry.
pub const RUN_SLOT: usize = 64;

/// Bytes charged to a region for the storage of one entry and its index key.
pub const ENTRY_SLOT: usize = 64;

/// A word takes part in choosing topics when it is longer than two bytes.
pub open spec fn is_topic_word(w: Seq<char>) -> bool {
    utf8_of(w).len() > 2
}

/// First position of the window around position `i`.
pub open spec fn window_start(h: nat, i: nat) -> nat {
    if i > h {
        (i - h) as nat
    } else {
        0
    }
}

/// End, exclusive, of the window around position `i` in a document of `n` words.
pub open spec fn window_end(n: nat, h: nat, i: nat) -> nat {
    if i + h < n {
        i + h
    } else {
        n
    }
}

/// The counter after counting the topic words among the first `e` words.
pub open spec fn seeded(words: Seq<Seq<char>>, e: nat) -> Seq<(Seq<char>, nat)>
    decreases e,
{
    if e == 0 {
        Seq::empty()
    } else {
        let p = seeded(words, (e - 1) as nat);
        if is_topic_word(words[e - 1]) {
            counter_add(p, words[e - 1])
        } else {
            p
        }
    }
}

/// The counter once the window has been moved to position `i`: seeded with the
/// first window at position 0; after that, each step withdraws the word at the
/// window's start, once the start has left the document's beginning, and counts
/// the word at the window's end while the window grows or when its right edge
/// has just reached the end of the document.
pub open spec fn window_counter(words: Seq<Seq<char>>, h: nat, i: nat) -> Seq<(Seq<char>, nat)>
    decreases i,
{
    let n = words.len();
    if i == 0 {
        seeded(words, window_end(n, h, 0))
    } else {
        let prev = window_counter(words, h, (i - 1) as nat);
        let start = window_start(h, i);
        let end = window_end(n, h, i);
        let a = if start > 0 && is_topic_word(words[start as int]) {
            counter_remove(prev, words[start as int])
        } else {
            prev
        };
        if (end < n || i + h == n) && is_topic_word(words[end - 1]) {
            counter_add(a, words[end - 1])
        } else {
            a
        }
    }
}

/// The window at position `i` has enough context to name a topic.
pub open spec fn window_ok(words: Seq<Seq<char>>, h: nat, i: nat) -> bool {
    let c = window_counter(words, h, i);
    sum_counts(c) >= 3 && c.len() >= 2
}

/// The two most frequent words of the window at position `i`.
pub open spec fn topic_at(words: Seq<Seq<char>>, h: nat, i: nat) -> TextPair {
    let c = window_counter(words, h, i);
    (c[0].0, c[1].0)
}

/// The sequence number of position `i`: its place in the current run of one topic.
pub open spec fn seq_at(words: Seq<Seq<char>>, h: nat, i: nat) -> nat
    decreases i,
{
    if i == 0 {
        0
    } else if topic_at(words, h, i) != topic_at(words, h, (i - 1) as nat) {
        0
    } else {
        seq_at(words, h, (i - 1) as nat) + 1
    }
}

/// The word after the bigram at position `i`, if any.
pub open spec fn next_at(words: Seq<Seq<char>>, i: nat) -> Option<Seq<char>> {
    if i + 2 < words.len() {
        Some(words[i + 2int])
    } else {
        None
    }
}

/// The number of positions recorded: positions run from 0 to the next to last
/// word, and stop at the first window without enough context.
pub open spec fn stop_at(words: Seq<Seq<char>>, h: nat, i: nat) -> nat
    decreases words.len() - i,
{
    if i + 1 >= words.len() {
        i
    } else if !window_ok(words, h, i) {
        i
    } else {
        stop_at(words, h, i + 1)
    }
}

/// Position of the first entry of `s` keyed by `p`, scanning from `j`; -1 if none.
pub open spec fn scan<T>(s: Seq<(TextPair, T)>, p: TextPair, j: int) -> int
    decreases s.len() - j,
{
    if j < 0 || j >= s.len() {
        -1
    } else if s[j].0 == p {
        j
    } else {
        scan(s, p, j + 1)
    }
}

pub proof fn lemma_scan<T>(s: Seq<(TextPair, T)>, p: TextPair, j: int)
    requires
        0 <= j,
    ensures
        scan(s, p, j) >= 0 ==> j <= scan(s, p, j) < s.len() && s[scan(s, p, j)].0 == p,
        scan(s, p, j) < 0 ==> forall|k: int| j <= k < s.len() ==> s[k].0 != p,
    decreases s.len() - j,
{
    if j < s.len() && s[j].0 != p {
        lemma_scan(s, p, j + 1);
    }
}

/// The index after appending `rec` to the records of topic `t` under bigram `b`.
pub open spec fn record_into(m: ChainModel, b: TextPair, t: TextPair, rec: TextRecord) -> ChainModel {
    let i = scan(m, b, 0);
    if i < 0 {
        m.push((b, seq![(t, seq![rec])]))
    } else {
        let ts = m[i].1;
        let j = scan(ts, t, 0);
        let nts = if j < 0 {
            ts.push((t, seq![rec]))
        } else {
            ts.update(j, (t, ts[j].1.push(rec)))
        };
        m.update(i, (b, nts))
    }
}

pub open spec fn pair_cost(p: TextPair) -> nat {
    token_cost(p.0) + token_cost(p.1)
}

/// Region bytes that `record_into(m, b, t, rec)` takes: tokens for a new bigram,
/// for a new topic under it, and for the following word.
pub open spec fn step_cost(m: ChainModel, b: TextPair, t: TextPair, rec: TextRecord) -> nat {
    let i = scan(m, b, 0);
    let keys = if i < 0 {
        ENTRY_SLOT as nat + pair_cost(b) + RUN_SLOT as nat + pair_cost(t)
    } else if scan(m[i].1, t, 0) < 0 {
        RUN_SLOT as nat + pair_cost(t)
    } else {
        0
    };
    keys + record_cost(rec)
}

/// The index, the region bytes in use and whether the region ran out, after the
/// first `k` positions of a document have been recorded into `m`.
pub open spec fn run_from(
    m: ChainModel,
    used: nat,
    cap: nat,
    words: Seq<Seq<char>>,
    h: nat,
    k: nat,
) -> (ChainModel, nat, bool)
    decreases k,
{
    if k == 0 {
        (m, used, false)
    } else {
        let st = run_from(m, used, cap, words, h, (k - 1) as nat);
        let i = (k - 1) as nat;
        if st.2 {
            st
        } else {
            let b = (words[i as int], words[i + 1int]);
            let t = topic_at(words, h, i);
            let rec = (seq_at(words, h, i) as i32, next_at(words, i));
            let c = step_cost(st.0, b, t, rec);
            if st.1 + c > cap {
                (st.0, st.1, true)
            } else {
                (record_into(st.0, b, t, rec), st.1 + c, false)
            }
        }
    }
}

/// The outcome of recording a whole document of at least `h` words.
pub open spec fn run_document(m: ChainModel, used: nat, cap: nat, words: Seq<Seq<char>>, h: nat) -> (
    ChainModel,
    nat,
    bool,
) {
    run_from(m, used, cap, words, h, stop_at(words, h, 0))
}

/// The bigrams with at least `thr` topics, in their order.
pub open spec fn prune(m: ChainModel, thr: nat) -> ChainModel
    decreases m.len(),
{
    if m.len() == 0 {
        m
    } else {
        let p = prune(m.drop_last(), thr);
        if m.last().1.len() >= thr {
            p.push(m.last())
        } else {
            p
        }
    }
}

pub open spec fn words_text(words: Vec<String>) -> Seq<Seq<char>> {
    words@.map_values(|w: String| w@)
}

pub proof fn lemma_stop_at(words: Seq<Seq<char>>, h: nat, k: nat, i: nat)
    requires
        k <= i,
        i + 1 <= words.len() || i == k,
        forall|j: nat| k <= j < i ==> #[trigger] window_ok(words, h, j),
        i + 1 >= words.len() || !window_ok(words, h, i),
    ensures
        stop_at(words, h, k) == i,
    decreases i - k,
{
    if k < i {
        assert(window_ok(words, h, k));
        lemma_stop_at(words, h, k + 1, i);
    }
}

pub proof fn lemma_stop_ge(words: Seq<Seq<char>>, h: nat, j: nat)
    ensures
        stop_at(words, h, j) >= j,
    decreases words.len() - j,
{
    if j + 1 < words.len() && window_ok(words, h, j) {
        lemma_stop_ge(words, h, j + 1);
    }
}

pub proof fn lemma_stop_after(words: Seq<Seq<char>>, h: nat, k: nat, i: nat)
    requires
        k <= i,
        i + 1 < words.len(),
        forall|j: nat| k <= j <= i ==> #[trigger] window_ok(words, h, j),
    ensures
        stop_at(words, h, k) > i,
    decreases i - k,
{
    assert(window_ok(words, h, k));
    if k < i {
        lemma_stop_after(words, h, k + 1, i);
    } else {
        lemma_stop_ge(words, h, k + 1);
    }
}

pub proof fn lemma_run_failed(m: ChainModel, used: nat, cap: nat, words: Seq<Seq<char>>, h: nat, k: nat, k2: nat)
    requires
        k <= k2,
        run_from(m, used, cap, words, h, k).2,
    ensures
        run_from(m, used, cap, words, h, k2) == run_from(m, used, cap, words, h, k),
    decreases k2 - k,
{
    if k < k2 {
        lemma_run_failed(m, used, cap, words, h, k, (k2 - 1) as nat);
    }
}

/// Compaction keeps exactly the dense bigrams: every entry it keeps has at least
/// `thr` topics and is an entry of the index as it was, records included; every
/// entry of the index with at least `thr` topics is kept; so every entry with
/// fewer is gone.
pub proof fn lemma_prune(m: ChainModel, thr: nat)
    ensures
        forall|k: int| 0 <= k < prune(m, thr).len() ==> (#[trigger] prune(m, thr)[k]).1.len() >= thr
            && m.contains(prune(m, thr)[k]),
        forall|k: int| 0 <= k < m.len() && (#[trigger] m[k]).1.len() >= thr ==> prune(m, thr).contains(m[k]),
        forall|k: int| 0 <= k < m.len() && (#[trigger] m[k]).1.len() < thr ==> !prune(m, thr).contains(m[k]),
    decreases m.len(),
{
    if m.len() > 0 {
        let d = m.drop_last();
        lemma_prune(d, thr);
        let p = prune(d, thr);
        assert forall|k: int| 0 <= k < prune(m, thr).len() implies (#[trigger] prune(m, thr)[k]).1.len() >= thr
            && m.contains(prune(m, thr)[k]) by {
            if k < p.len() {
                assert(prune(m, thr)[k] == p[k]);
                let x = choose|x: int| 0 <= x < d.len() && d[x] == p[k];
                assert(m[x] == d[x]);
            } else {
                assert(m[m.len() - 1] == m.last());
            }
        }
        assert forall|k: int| 0 <= k < m.len() && (#[trigger] m[k]).1.len() >= thr implies prune(
            m,
            thr,
        ).contains(m[k]) by {
            if k < d.len() {
                assert(d[k] == m[k]);
                let x = choose|x: int| 0 <= x < p.len() && p[x] == d[k];
                assert(prune(m, thr)[x] == p[x]);
            } else {
                assert(prune(m, thr)[p.len() as int] == m.last());
            }
        }
        assert forall|k: int| 0 <= k < m.len() && (#[trigger] m[k]).1.len() < thr implies !prune(
            m,
            thr,
        ).contains(m[k]) by {
            if prune(m, thr).contains(m[k]) {
                let x = choose|x: int| 0 <= x < prune(m, thr).len() && prune(m, thr)[x] == m[k];
                assert(prune(m, thr)[x].1.len() >= thr);
            }
        }
    }
}

/// Region bytes that the tokens of some records take.
pub open spec fn records_cost(rs: Seq<TextRecord>) -> nat
    decreases rs.len(),
{
    if rs.len() == 0 {
        0
    } else {
        records_cost(rs.drop_last()) + record_cost(rs.last())
    }
}

/// Region bytes that a topic and its records take.
pub open spec fn run_cost(t: (TextPair, Seq<TextRecord>)) -> nat {
    RUN_SLOT as nat + pair_cost(t.0) + records_cost(t.1)
}

pub open spec fn topics_cost(ts: Seq<(TextPair, Seq<TextRecord>)>) -> nat
    decreases ts.len(),
{
    if ts.len() == 0 {
        0
    } else {
        topics_cost(ts.drop_last()) + run_cost(ts.last())
    }
}

/// Region bytes that a bigram, its topics and their records take.
pub open spec fn entry_cost(e: (TextPair, Seq<(TextPair, Seq<TextRecord>)>)) -> nat {
    ENTRY_SLOT as nat + pair_cost(e.0) + topics_cost(e.1)
}

/// Region bytes that a whole index takes.
pub open spec fn model_cost(m: ChainModel) -> nat
    decreases m.len(),
{
    if m.len() == 0 {
        0
    } else {
        model_cost(m.drop_last()) + entry_cost(m.last())
    }
}

pub proof fn lemma_records_cost_prefix(s: Seq<TextRecord>, j: int)
    requires
        0 <= j <= s.len(),
    ensures
        records_cost(s.subrange(0, j)) <= records_cost(s),
        j < s.len() ==> records_cost(s.subrange(0, j + 1)) == records_cost(s.subrange(0, j))
            + record_cost(s[j]),
    decreases s.len(),
{
    if j < s.len() {
        assert(s.subrange(0, j + 1).drop_last() =~= s.subrange(0, j));
        let d = s.drop_last();
        assert(d.subrange(0, j) =~= s.subrange(0, j));
        lemma_records_cost_prefix(d, j);
    } else {
        assert(s.subrange(0, j) =~= s);
    }
}

pub proof fn lemma_topics_cost_prefix(s: Seq<(TextPair, Seq<TextRecord>)>, j: int)
    requires
        0 <= j <= s.len(),
    ensures
        topics_cost(s.subrange(0, j)) <= topics_cost(s),
        j < s.len() ==> topics_cost(s.subrange(0, j + 1)) == topics_cost(s.subrange(0, j))
            + run_cost(s[j]),
    decreases s.len(),
{
    if j < s.len() {
        assert(s.subrange(0, j + 1).drop_last() =~= s.subrange(0, j));
        let d = s.drop_last();
        assert(d.subrange(0, j) =~= s.subrange(0, j));
        lemma_topics_cost_prefix(d, j);
    } else {
        assert(s.subrange(0, j) =~= s);
    }
}

pub proof fn lemma_prune_cost_prefix(m: ChainModel, thr: nat, j: int)
    requires
        0 <= j <= m.len(),
    ensures
        model_cost(prune(m.subrange(0, j), thr)) <= model_cost(prune(m, thr)),
    decreases m.len(),
{
    if j < m.len() {
        let d = m.drop_last();
        assert(d.subrange(0, j) =~= m.subrange(0, j));
        lemma_prune_cost_prefix(d, thr, j);
        if m.last().1.len() >= thr {
            assert(prune(d, thr).push(m.last()).drop_last() =~= prune(d, thr));
        }
    } else {
        assert(m.subrange(0, j) =~= m);
    }
}

/// No bigram has two entries: the index is a map from bigrams.
pub open spec fn bigrams_distinct(m: ChainModel) -> bool {
    forall|i: int, j: int| 0 <= i < j < m.len() ==> #[trigger] m[i].0 != #[trigger] m[j].0
}

/// Within each entry, no topic appears twice: an entry's topics form a map.
#[verifier::opaque]
pub open spec fn topics_distinct(m: ChainModel) -> bool {
    forall|i: int, j: int, k: int|
        0 <= i < m.len() && 0 <= j < k < m[i].1.len() ==> #[trigger] m[i].1[j].0 != #[trigger] m[i].1[k].0
}

/// Recording keeps the topics of each entry distinct.
pub proof fn lemma_record_topics(m: ChainModel, b: TextPair, t: TextPair, rec: TextRecord)
    requires
        topics_distinct(m),
    ensures
        topics_distinct(record_into(m, b, t, rec)),
{
    reveal(topics_distinct);
    let n = record_into(m, b, t, rec);
    lemma_scan(m, b, 0);
    let i = scan(m, b, 0);
    if i >= 0 {
        let ts = m[i].1;
        lemma_scan(ts, t, 0);
        assert forall|x: int, j: int, k: int|
            0 <= x < n.len() && 0 <= j < k < n[x].1.len() implies #[trigger] n[x].1[j].0 != #[trigger] n[x].1[k].0 by {
            if x == i {
                if scan(ts, t, 0) < 0 {
                    if k < ts.len() {
                        assert(ts[j].0 != ts[k].0);
                    } else {
                        assert(ts[j].0 != t);
                    }
                } else {
                    let y = scan(ts, t, 0);
                    assert(n[x].1[j].0 == ts[j].0);
                    assert(n[x].1[k].0 == ts[k].0);
                    assert(ts[j].0 != ts[k].0);
                }
            } else {
                assert(n[x] == m[x]);
                assert(m[x].1[j].0 != m[x].1[k].0);
            }
        }
    } else {
        assert forall|x: int, j: int, k: int|
            0 <= x < n.len() && 0 <= j < k < n[x].1.len() implies #[trigger] n[x].1[j].0 != #[trigger] n[x].1[k].0 by {
            if x < m.len() {
                assert(n[x] == m[x]);
                assert(m[x].1[j].0 != m[x].1[k].0);
            }
        }
    }
}

/// Pruning keeps the topics of each entry distinct.
pub proof fn lemma_prune_topics(m: ChainModel, thr: nat)
    requires
        topics_distinct(m),
    ensures
        topics_distinct(prune(m, thr)),
{
    reveal(topics_distinct);
    let p = prune(m, thr);
    lemma_prune(m, thr);
    assert forall|x: int, j: int, k: int|
        0 <= x < p.len() && 0 <= j < k < p[x].1.len() implies #[trigger] p[x].1[j].0 != #[trigger] p[x].1[k].0 by {
        assert(m.contains(p[x]));
        let y = choose|y: int| 0 <= y < m.len() && m[y] == p[x];
        assert(m[y].1[j].0 != m[y].1[k].0);
    }
}

/// Bytes in use in the front region once a document is recorded: what recording
/// left, or, after a successful compaction, exactly what the kept entries take.
pub open spec fn update_front_bytes(
    m: ChainModel,
    used: nat,
    cap: nat,
    back_cap: nat,
    words: Seq<Seq<char>>,
    h: nat,
    ps: nat,
    thr: nat,
) -> nat {
    if words.len() < h {
        used
    } else {
        let st = run_document(m, used, cap, words, h);
        if !st.2 && st.1 > ps && model_cost(prune(st.0, thr)) <= back_cap {
            model_cost(prune(st.0, thr))
        } else {
            st.1
        }
    }
}

/// What recording a document leaves, and whether it succeeds: a document shorter
/// than the window's half width changes nothing; otherwise its positions are
/// recorded, and when the front region then holds more than `ps` bytes the
/// index is pruned to the bigrams with at least `thr` topics, provided the back
/// region can hold them.
pub open spec fn update_outcome(
    m: ChainModel,
    used: nat,
    cap: nat,
    back_cap: nat,
    words: Seq<Seq<char>>,
    h: nat,
    ps: nat,
    thr: nat,
) -> (ChainModel, bool) {
    if words.len() < h {
        (m, true)
    } else {
        let st = run_document(m, used, cap, words, h);
        if st.2 {
            (st.0, false)
        } else if st.1 <= ps {
            (st.0, true)
        } else if model_cost(prune(st.0, thr)) <= back_cap {
            (prune(st.0, thr), true)
        } else {
            (st.0, false)
        }
    }
}

} // verus!
