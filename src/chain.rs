use vstd::prelude::*;
use vstd::pervasive::VecAdditionalExecFns;
use vstd::string::StringSliceAdditionalSpecFns;
use crate::clone_in::CloneIn;
use crate::counter::Counter;
use crate::key_index::{PairIndex, pair_positions, pair_index_new, pair_index_get, pair_index_insert};
use crate::model::{
    ChainModel,
    TextPair,
    TextRecord,
    entry_cost,
    ENTRY_SLOT,
    RECORD_SLOT,
    RUN_SLOT,
    lemma_prune,
    lemma_prune_cost_prefix,
    lemma_records_cost_prefix,
    lemma_run_failed,
    lemma_scan,
    lemma_stop_after,
    lemma_stop_at,
    lemma_topics_cost_prefix,
    model_cost,
    pair_cost,
    prune,
    record_cost,
    record_into,
    records_cost,
    run_cost,
    run_from,
    scan,
    seeded,
    seq_at,
    step_cost,
    stop_at,
    topic_at,
    topics_cost,
    bigrams_distinct,
    lemma_prune_topics,
    lemma_record_topics,
    topics_distinct,
    update_front_bytes,
    update_outcome,
    window_counter,
    window_end,
    window_ok,
    words_text,
};

use crate::region::{AllocError, Region};
use crate::region::{padded, MAX_REGION_BYTES};
use crate::unigram::{INLINE_CAP, Unigram, token_cost};

verus! {

/// An ordered pair of tokens.
#[derive(Clone, Copy)]
pub struct Bigram {
    pub first: Unigram,
    pub second: Unigram,
}

impl Bigram {
    pub fn new(first: Unigram, second: Unigram) -> (r: Bigram)
        ensures
            r.first == first,
            r.second == second,
    {
        Bigram { first, second }
    }

    pub open spec fn text_pair(&self) -> TextPair {
        (self.first@, self.second@)
    }

    pub open spec fn held_in(&self, region: &Region) -> bool {
        self.first.held_in(region) && self.second.held_in(region)
    }

    pub proof fn lemma_held_extends(&self, old: &Region, new: &Region)
        requires
            self.held_in(old),
            new.extends(old),
        ensures
            self.held_in(new),
    {
        self.first.lemma_held_extends(old, new);
        self.second.lemma_held_extends(old, new);
    }
}

impl CloneIn for Bigram {
    open spec fn lives_in(&self, region: &Region) -> bool {
        self.held_in(region)
    }

    open spec fn text(&self) -> Seq<Seq<char>> {
        seq![self.first@, self.second@]
    }

    open spec fn cost(&self) -> nat {
        token_cost(self.first@) + token_cost(self.second@)
    }

    fn clone_in(&self, from: &Region, to: &mut Region) -> (r: Result<Bigram, AllocError>) {
        let ghost start = *to;
        let first = match self.first.clone_in(from, to) {
            Ok(u) => u,
            Err(e) => {
                return Err(e);
            },
        };
        let ghost mid = *to;
        match self.second.clone_in(from, to) {
            Ok(second) => {
                proof {
                    first.lemma_held_extends(&mid, to);
                    to.lemma_extends_trans(&mid, &start);
                    assert(first.text()[0] == first@);
                    assert(self.first.text()[0] == self.first@);
                    assert(second.text()[0] == second@);
                    assert(self.second.text()[0] == self.second@);
                    let r = Bigram { first, second };
                    assert(r.text() =~= self.text());
                }
                Ok(Bigram { first, second })
            },
            Err(e) => {
                proof {
                    to.lemma_extends_trans(&mid, &start);
                }
                Err(e)
            },
        }
    }
}

/// A transition: its sequence number within the run of its topic, and the
/// token that followed the bigram, absent at the end of a document.
#[derive(Clone, Copy)]
pub struct SeqUnigram {
    pub seq_num: i32,
    pub unigram: Option<Unigram>,
}

impl SeqUnigram {
    pub fn new(seq_num: i32, unigram: Option<Unigram>) -> (r: SeqUnigram)
        ensures
            r.seq_num == seq_num,
            r.unigram == unigram,
    {
        SeqUnigram { seq_num, unigram }
    }

    pub open spec fn text_record(&self) -> TextRecord {
        (
            self.seq_num,
            match self.unigram {
                Some(u) => Some(u@),
                None => None,
            },
        )
    }

    pub open spec fn held_in(&self, region: &Region) -> bool {
        match self.unigram {
            Some(u) => u.held_in(region),
            None => true,
        }
    }
}

/// The records of one topic under one bigram.
struct TopicRun {
    topic: Bigram,
    records: Vec<SeqUnigram>,
}

/// A bigram, its topics, and a hash map from each topic's text to its position.
struct Entry {
    bigram: Bigram,
    topics: Vec<TopicRun>,
    topic_index: PairIndex,
}

spec fn run_view(t: TopicRun) -> (TextPair, Seq<TextRecord>) {
    (t.topic.text_pair(), t.records@.map_values(|r: SeqUnigram| r.text_record()))
}

spec fn entry_view(e: Entry) -> (TextPair, Seq<(TextPair, Seq<TextRecord>)>) {
    (e.bigram.text_pair(), e.topics@.map_values(|t: TopicRun| run_view(t)))
}

spec fn run_held(t: TopicRun, region: &Region) -> bool {
    &&& t.topic.held_in(region)
    &&& forall|k: int| 0 <= k < t.records@.len() ==> #[trigger] t.records@[k].held_in(region)
}

/// The entry's tokens are readable through `region`, and its topic index is
/// consistent with its topics.
spec fn entry_held(e: Entry, region: &Region) -> bool {
    &&& e.bigram.held_in(region)
    &&& forall|j: int| 0 <= j < e.topics@.len() ==> run_held(#[trigger] e.topics@[j], region)
    &&& indexed_pairs(entry_view(e).1, pair_positions(e.topic_index))
}

proof fn lemma_run_held_extends(t: TopicRun, old: &Region, new: &Region)
    requires
        run_held(t, old),
        new.extends(old),
    ensures
        run_held(t, new),
{
    t.topic.lemma_held_extends(old, new);
    assert forall|k: int| 0 <= k < t.records@.len() implies #[trigger] t.records@[k].held_in(
        new,
    ) by {
        assert(t.records@[k].held_in(old));
        match t.records@[k].unigram {
            Some(u) => u.lemma_held_extends(old, new),
            None => {},
        }
    }
}

proof fn lemma_entry_held_extends(e: Entry, old: &Region, new: &Region)
    requires
        entry_held(e, old),
        new.extends(old),
    ensures
        entry_held(e, new),
{
    e.bigram.lemma_held_extends(old, new);
    assert forall|j: int| 0 <= j < e.topics@.len() implies run_held(
        #[trigger] e.topics@[j],
        new,
    ) by {
        lemma_run_held_extends(e.topics@[j], old, new);
    }
}

/// Recording is deterministic: two indexes that hold the same records, with the
/// same configuration and regions of the same usage and capacity, come out of the
/// same document with the same records in the same order and the same outcome.
pub proof fn lemma_update_deterministic(a: &Chain, b: &Chain, words: Seq<Seq<char>>)
    requires
        a@ == b@,
        a.half_para() == b.half_para(),
        a.prune_size() == b.prune_size(),
        a.threshold() == b.threshold(),
        a.front().used() == b.front().used(),
        a.front().capacity() == b.front().capacity(),
        a.back().capacity() == b.back().capacity(),
    ensures
        update_outcome(
            a@,
            a.front().used(),
            a.front().capacity(),
            a.back().capacity(),
            words,
            a.half_para(),
            a.prune_size(),
            a.threshold(),
        ) == update_outcome(
            b@,
            b.front().used(),
            b.front().capacity(),
            b.back().capacity(),
            words,
            b.half_para(),
            b.prune_size(),
            b.threshold(),
        ),
{
}

/// `p` sends the key of each item of `m` to its position, and knows no other key;
/// so no key has two items.
pub open spec fn indexed_pairs<T>(m: Seq<(TextPair, T)>, p: Map<TextPair, usize>) -> bool {
    &&& forall|k: TextPair| #[trigger] p.contains_key(k) ==> p[k] < m.len() && m[p[k] as int].0 == k
    &&& forall|i: int| 0 <= i < m.len() ==> #[trigger] p.contains_key(m[i].0) && p[m[i].0] == i
}

proof fn lemma_indexed_push<T>(m: Seq<(TextPair, T)>, p: Map<TextPair, usize>, x: (TextPair, T))
    requires
        indexed_pairs(m, p),
        !p.contains_key(x.0),
        m.len() <= usize::MAX,
    ensures
        indexed_pairs(m.push(x), p.insert(x.0, m.len() as usize)),
{
    let n = m.push(x);
    let q = p.insert(x.0, m.len() as usize);
    assert forall|k: TextPair| #[trigger] q.contains_key(k) implies q[k] < n.len() && n[q[k] as int].0 == k by {
        if k != x.0 {
            assert(n[p[k] as int] == m[p[k] as int]);
        }
    }
    assert forall|i: int| 0 <= i < n.len() implies #[trigger] q.contains_key(n[i].0) && q[n[i].0] == i by {
        if i < m.len() {
            assert(n[i] == m[i]);
            assert(p.contains_key(m[i].0));
        }
    }
}

proof fn lemma_indexed_update<T>(m: Seq<(TextPair, T)>, p: Map<TextPair, usize>, i: int, x: (TextPair, T))
    requires
        indexed_pairs(m, p),
        0 <= i < m.len(),
        x.0 == m[i].0,
    ensures
        indexed_pairs(m.update(i, x), p),
{
    let n = m.update(i, x);
    assert forall|k: TextPair| #[trigger] p.contains_key(k) implies p[k] < n.len() && n[p[k] as int].0 == k by {}
    assert forall|j: int| 0 <= j < n.len() implies #[trigger] p.contains_key(n[j].0) && p[n[j].0] == j by {
        assert(p.contains_key(m[j].0));
    }
}

/// A snapshot of the index that refers to no region: each bigram with its
/// topics, each topic with its records in the order they were recorded.
pub type ChainMap = Vec<((String, String), Vec<((String, String), Vec<(i32, Option<String>)>)>)>;

pub open spec fn pair_text(p: (String, String)) -> TextPair {
    (p.0@, p.1@)
}

pub open spec fn record_text(r: (i32, Option<String>)) -> TextRecord {
    (
        r.0,
        match r.1 {
            Some(s) => Some(s@),
            None => None,
        },
    )
}

pub open spec fn snapshot_run_text(t: ((String, String), Vec<(i32, Option<String>)>)) -> (
    TextPair,
    Seq<TextRecord>,
) {
    (pair_text(t.0), t.1@.map_values(|r: (i32, Option<String>)| record_text(r)))
}

pub open spec fn snapshot_text(m: ChainMap) -> ChainModel {
    m@.map_values(
        |e: ((String, String), Vec<((String, String), Vec<(i32, Option<String>)>)>)|
            (
                pair_text(e.0),
                e.1@.map_values(
                    |t: ((String, String), Vec<(i32, Option<String>)>)| snapshot_run_text(t),
                ),
            ),
    )
}

/// The transition index: for every bigram, which topic accompanied each of its
/// occurrences and which word followed. Long tokens live in the front region,
/// and the region is charged a fixed slot for each entry, topic and record, so
/// its usage measures the whole index. Compaction rebuilds the index in the back
/// region and then swaps the two.
pub struct Chain {
    half_para_len: usize,
    prune_size_bytes: usize,
    prune_threshold: usize,
    front: Region,
    back: Region,
    entries: Vec<Entry>,
    index: PairIndex,
}

impl View for Chain {
    type V = ChainModel;

    closed spec fn view(&self) -> ChainModel {
        self.entries@.map_values(|e: Entry| entry_view(e))
    }
}

impl Chain {
    pub closed spec fn half_para(&self) -> nat {
        self.half_para_len as nat
    }

    pub closed spec fn prune_size(&self) -> nat {
        self.prune_size_bytes as nat
    }

    pub closed spec fn threshold(&self) -> nat {
        self.prune_threshold as nat
    }

    /// The region that holds the tokens of the index.
    pub closed spec fn front(&self) -> Region {
        self.front
    }

    /// The region that the next compaction fills.
    pub closed spec fn back(&self) -> Region {
        self.back
    }

    pub closed spec fn wf(&self) -> bool {
        &&& self.front.wf()
        &&& self.back.wf()
        &&& self.back.used() == 0
        &&& self.front.capacity() == self.back.capacity()
        &&& topics_distinct(self@)
        &&& indexed_pairs(self@, pair_positions(self.index))
        &&& forall|i: int| 0 <= i < self.entries@.len() ==> entry_held(#[trigger] self.entries@[i], &self.front)
    }

    /// An empty index over windows of `half_para_len` words on each side. Once the
    /// front region holds more than `prune_size_bytes` bytes after a document,
    /// the index is compacted, keeping the bigrams with at least
    /// `prune_threshold` topics. Each region holds as many bytes as it can.
    pub fn new(half_para_len: usize, prune_size_bytes: usize, prune_threshold: usize) -> (r: Chain)
        ensures
            r.wf(),
            r@ == Seq::<(TextPair, Seq<(TextPair, Seq<TextRecord>)>)>::empty(),
            r.half_para() == half_para_len,
            r.prune_size() == prune_size_bytes,
            r.threshold() == prune_threshold,
            r.front().used() == 0,
            r.front().capacity() == r.back().capacity(),
            r.front().capacity() == if usize::MAX <= MAX_REGION_BYTES {
                usize::MAX as nat
            } else {
                MAX_REGION_BYTES as nat
            },
    {
        Chain::with_region_capacity(half_para_len, prune_size_bytes, prune_threshold, usize::MAX)
    }

    /// As `new`, with regions that hold at most `region_bytes` bytes each.
    pub fn with_region_capacity(
        half_para_len: usize,
        prune_size_bytes: usize,
        prune_threshold: usize,
        region_bytes: usize,
    ) -> (r: Chain)
        ensures
            r.wf(),
            r@ == Seq::<(TextPair, Seq<(TextPair, Seq<TextRecord>)>)>::empty(),
            r.half_para() == half_para_len,
            r.prune_size() == prune_size_bytes,
            r.threshold() == prune_threshold,
            r.front().used() == 0,
            r.front().capacity() == r.back().capacity(),
            r.front().capacity() == if region_bytes <= MAX_REGION_BYTES {
                region_bytes as nat
            } else {
                MAX_REGION_BYTES as nat
            },
    {
        let r = Chain {
            half_para_len,
            prune_size_bytes,
            prune_threshold,
            front: Region::new(0, region_bytes),
            back: Region::new(1, region_bytes),
            entries: Vec::new(),
            index: pair_index_new(),
        };
        assert(r@ =~= Seq::<(TextPair, Seq<(TextPair, Seq<TextRecord>)>)>::empty());
        proof {
            reveal(topics_distinct);
        }
        r
    }

    /// Number of distinct bigrams.
    pub fn num_entries(&self) -> (r: usize)
        ensures
            r == self@.len(),
    {
        self.entries.len()
    }

    /// Bytes in use in the front region.
    pub fn allocated_bytes(&self) -> (r: usize)
        requires
            self.wf(),
        ensures
            r == self.front().used(),
    {
        self.front.allocated_bytes()
    }

    /// Bytes in use in the back region: none between compactions.
    pub fn spare_bytes(&self) -> (r: usize)
        requires
            self.wf(),
        ensures
            r == self.back().used(),
    {
        self.back.allocated_bytes()
    }
}

fn pair_to_text(b: &Bigram, region: &Region) -> (r: (String, String))
    requires
        b.held_in(region),
    ensures
        pair_text(r) == b.text_pair(),
{
    (b.first.to_text(region), b.second.to_text(region))
}

fn run_to_text(t: &TopicRun, region: &Region) -> (r: ((String, String), Vec<(i32, Option<String>)>))
    requires
        run_held(*t, region),
    ensures
        snapshot_run_text(r) == run_view(*t),
{
    let mut records: Vec<(i32, Option<String>)> = Vec::new();
    let mut k: usize = 0;
    while k < t.records.len()
        invariant
            k <= t.records@.len(),
            run_held(*t, region),
            records@.len() == k,
            forall|m: int| 0 <= m < k ==> #[trigger] record_text(records@[m]) == t.records@[m].text_record(),
        decreases t.records@.len() - k,
    {
        let rec = &t.records[k];
        assert(t.records@[k as int].held_in(region));
        let next = match &rec.unigram {
            Some(u) => Some(u.to_text(region)),
            None => None,
        };
        records.push((rec.seq_num, next));
        k = k + 1;
    }
    assert(records@.map_values(|r: (i32, Option<String>)| record_text(r)) =~= t.records@.map_values(
        |r: SeqUnigram| r.text_record(),
    ));
    (pair_to_text(&t.topic, region), records)
}

/// Region bytes that a token of `s` takes.
fn cost_of(s: &str) -> (r: u128)
    ensures
        r == token_cost(s@),
        r <= usize::MAX as int + 16,
{
    let n = s.as_bytes().len();
    if n <= INLINE_CAP {
        0
    } else {
        let r = ((n as u128 + 15) / 16) * 16;
        assert(r == padded(n as nat));
        assert(r <= n + 15) by (nonlinear_arith)
            requires
                r == ((n + 15) / 16) * 16,
        ;
        r
    }
}

pub open spec fn text_of_next(next: Option<&str>) -> Option<Seq<char>> {
    match next {
        Some(w) => Some(w@),
        None => None,
    }
}

fn empty_bigram() -> (r: Bigram)
    ensures
        r.first.wf(),
        r.second.wf(),
{
    Bigram { first: Unigram::new(), second: Unigram::new() }
}

impl Chain {
    /// Position of the entry of bigram `(b0, b1)`, if any.
    fn find_entry(&self, b0: &str, b1: &str) -> (r: Option<usize>)
        requires
            self.wf(),
        ensures
            match r {
                Some(i) => scan(self@, (b0@, b1@), 0) == i && i < self@.len(),
                None => scan(self@, (b0@, b1@), 0) < 0,
            },
    {
        let ghost p = pair_positions(self.index);
        proof {
            lemma_scan(self@, (b0@, b1@), 0);
        }
        match pair_index_get(&self.index, b0, b1) {
            Some(i) => {
                proof {
                    let f = scan(self@, (b0@, b1@), 0);
                    assert(self@[i as int].0 == (b0@, b1@));
                    if f >= 0 {
                        assert(p.contains_key(self@[f].0));
                    }
                }
                Some(i)
            },
            None => {
                proof {
                    let f = scan(self@, (b0@, b1@), 0);
                    if f >= 0 {
                        assert(p.contains_key(self@[f].0));
                    }
                }
                None
            },
        }
    }

    /// A token of `s` in the front region, which has room for it.
    fn make_token(&mut self, s: &str) -> (u: Unigram)
        requires
            old(self).wf(),
            old(self).front.used() + token_cost(s@) <= old(self).front.capacity(),
        ensures
            final(self).wf(),
            final(self).entries == old(self).entries,
            final(self).index == old(self).index,
            final(self).back == old(self).back,
            final(self).half_para_len == old(self).half_para_len,
            final(self).prune_size_bytes == old(self).prune_size_bytes,
            final(self).prune_threshold == old(self).prune_threshold,
            final(self).front.extends(&old(self).front),
            final(self).front.used() == old(self).front.used() + token_cost(s@),
            u@ == s@,
            u.held_in(&final(self).front),
            forall|v: Unigram| #[trigger] v.held_in(&old(self).front) ==> v.held_in(&final(self).front),
            forall|g: Region| #[trigger] old(self).front.extends(&g) ==> final(self).front.extends(&g),
    {
        let ghost before = self.front;
        match Unigram::from_slice_in(s, &mut self.front) {
            Ok(u) => {
                proof {
                    assert forall|i: int| 0 <= i < self.entries@.len() implies entry_held(
                        #[trigger] self.entries@[i],
                        &self.front,
                    ) by {
                        lemma_entry_held_extends(self.entries@[i], &before, &self.front);
                    }
                    assert forall|v: Unigram| #[trigger] v.held_in(&before) implies v.held_in(&self.front) by {
                        v.lemma_held_extends(&before, &self.front);
                    }
                    assert forall|g: Region| #[trigger] before.extends(&g) implies self.front.extends(&g) by {
                        self.front.lemma_extends_trans(&before, &g);
                    }
                }
                u
            },
            Err(_) => {
                assert(false);
                Unigram::new()
            },
        }
    }
}

fn find_topic(e: &Entry, t0: &str, t1: &str, region: &Region) -> (r: Option<usize>)
    requires
        entry_held(*e, region),
    ensures
        match r {
            Some(j) => scan(entry_view(*e).1, (t0@, t1@), 0) == j && j < e.topics@.len(),
            None => scan(entry_view(*e).1, (t0@, t1@), 0) < 0,
        },
{
    let ghost ts = entry_view(*e).1;
    let ghost p = pair_positions(e.topic_index);
    proof {
        lemma_scan(ts, (t0@, t1@), 0);
    }
    match pair_index_get(&e.topic_index, t0, t1) {
        Some(j) => {
            proof {
                let f = scan(ts, (t0@, t1@), 0);
                assert(ts[j as int].0 == (t0@, t1@));
                if f >= 0 {
                    assert(p.contains_key(ts[f].0));
                }
            }
            Some(j)
        },
        None => {
            proof {
                let f = scan(ts, (t0@, t1@), 0);
                if f >= 0 {
                    assert(p.contains_key(ts[f].0));
                }
            }
            None
        },
    }
}

impl Chain {
    /// A token of `next`, if any, in the front region, which has room for it.
    fn make_next(&mut self, next: Option<&str>) -> (r: Option<Unigram>)
        requires
            old(self).wf(),
            old(self).front.used() + record_cost((0, text_of_next(next))) <= old(self).front.capacity(),
        ensures
            final(self).wf(),
            final(self).entries == old(self).entries,
            final(self).index == old(self).index,
            final(self).back == old(self).back,
            final(self).half_para_len == old(self).half_para_len,
            final(self).prune_size_bytes == old(self).prune_size_bytes,
            final(self).prune_threshold == old(self).prune_threshold,
            final(self).front.extends(&old(self).front),
            final(self).front.used() == old(self).front.used() + record_cost(
                (0, text_of_next(next)),
            ),
            forall|v: Unigram| #[trigger] v.held_in(&old(self).front) ==> v.held_in(&final(self).front),
            forall|g: Region| #[trigger] old(self).front.extends(&g) ==> final(self).front.extends(&g),
            (SeqUnigram { seq_num: 0, unigram: r }).held_in(&final(self).front),
            (SeqUnigram { seq_num: 0, unigram: r }).text_record().1 == text_of_next(next),
    {
        self.make_charge(RECORD_SLOT);
        match next {
            Some(w) => Some(self.make_token(w)),
            None => None,
        }
    }

    /// Charges `n` bytes, a multiple of the alignment, to the front region,
    /// which has room for them.
    fn make_charge(&mut self, n: usize)
        requires
            old(self).wf(),
            padded(n as nat) == n,
            old(self).front.used() + n <= old(self).front.capacity(),
        ensures
            final(self).wf(),
            final(self).entries == old(self).entries,
            final(self).index == old(self).index,
            final(self).back == old(self).back,
            final(self).half_para_len == old(self).half_para_len,
            final(self).prune_size_bytes == old(self).prune_size_bytes,
            final(self).prune_threshold == old(self).prune_threshold,
            final(self).front.extends(&old(self).front),
            final(self).front.used() == old(self).front.used() + n,
            forall|v: Unigram| #[trigger] v.held_in(&old(self).front) ==> v.held_in(&final(self).front),
            forall|g: Region| #[trigger] old(self).front.extends(&g) ==> final(self).front.extends(&g),
    {
        let ghost before = self.front;
        match self.front.charge(n) {
            Ok(()) => {
                proof {
                    assert forall|i: int| 0 <= i < self.entries@.len() implies entry_held(
                        #[trigger] self.entries@[i],
                        &self.front,
                    ) by {
                        lemma_entry_held_extends(self.entries@[i], &before, &self.front);
                    }
                    lemma_growth(before, self.front);
                    assert forall|g: Region| #[trigger] before.extends(&g) implies self.front.extends(&g) by {
                        self.front.lemma_extends_trans(&before, &g);
                    }
                }
            },
            Err(_) => {
                assert(false);
            },
        }
    }

    /// Appends the record `(seq, next)` to topic `(t0, t1)` of bigram `(b0, b1)`,
    /// creating either when absent. Fails, changing nothing, when the front region
    /// cannot hold the new tokens.
    fn record(&mut self, b0: &str, b1: &str, t0: &str, t1: &str, seq: i32, next: Option<&str>) -> (r:
        Result<(), AllocError>)
        requires
            old(self).wf(),
        ensures
            final(self).wf(),
            final(self).back == old(self).back,
            final(self).half_para_len == old(self).half_para_len,
            final(self).prune_size_bytes == old(self).prune_size_bytes,
            final(self).prune_threshold == old(self).prune_threshold,
            final(self).front.extends(&old(self).front),
            ({
                let c = step_cost(old(self)@, (b0@, b1@), (t0@, t1@), (seq, text_of_next(next)));
                &&& r is Ok <==> old(self).front.used() + c <= old(self).front.capacity()
                &&& r is Ok ==> final(self)@ == record_into(
                    old(self)@,
                    (b0@, b1@),
                    (t0@, t1@),
                    (seq, text_of_next(next)),
                )
                &&& r is Ok ==> final(self).front.used() == old(self).front.used() + c
                &&& r is Err ==> *final(self) == *old(self)
            }),
    {
        let ghost m = self@;
        let ghost rec: TextRecord = (seq, text_of_next(next));
        proof {
            self.front.lemma_extends_refl();
            lemma_scan(m, (b0@, b1@), 0);
        }
        let nc: u128 = match next {
            Some(w) => cost_of(w),
            None => 0,
        };
        let used = self.front.allocated_bytes() as u128;
        let cap = self.front.capacity_of() as u128;
        match self.find_entry(b0, b1) {
            None => {
                let c = ENTRY_SLOT as u128 + cost_of(b0) + cost_of(b1) + RUN_SLOT as u128 + cost_of(t0)
                    + cost_of(t1) + RECORD_SLOT as u128 + nc;
                if used + c > cap {
                    return Err(AllocError {  });
                }
                self.make_charge(ENTRY_SLOT);
                self.make_charge(RUN_SLOT);
                let first = self.make_token(b0);
                let second = self.make_token(b1);
                let x = self.make_token(t0);
                let y = self.make_token(t1);
                let nu = self.make_next(next);
                let rec_v = SeqUnigram { seq_num: seq, unigram: nu };
                let mut records: Vec<SeqUnigram> = Vec::new();
                records.push(rec_v);
                let run = TopicRun { topic: Bigram { first: x, second: y }, records };
                let mut topics: Vec<TopicRun> = Vec::new();
                topics.push(run);
                let mut topic_index = pair_index_new();
                let ghost p0 = pair_positions(topic_index);
                pair_index_insert(&mut topic_index, t0.to_owned(), t1.to_owned(), 0);
                let entry = Entry { bigram: Bigram { first, second }, topics, topic_index };
                proof {
                    assert(rec_v.text_record() == rec);
                    assert(run_view(run) =~= ((t0@, t1@), seq![rec]));
                    let ev0 = Seq::<(TextPair, Seq<TextRecord>)>::empty();
                    assert(!p0.contains_key((t0@, t1@))) by {
                        vstd::set_lib::lemma_set_empty_equivalency_len(p0.dom());
                    }
                    assert(indexed_pairs(ev0, p0)) by {
                        vstd::set_lib::lemma_set_empty_equivalency_len(p0.dom());
                    }
                    lemma_indexed_push(ev0, p0, ((t0@, t1@), seq![rec]));
                    assert(ev0.push(((t0@, t1@), seq![rec])) =~= entry_view(entry).1);
                    assert(entry_view(entry) =~= ((b0@, b1@), seq![((t0@, t1@), seq![rec])]));
                    assert(run_held(run, &self.front));
                    assert(entry_held(entry, &self.front));
                }
                let n = self.entries.len();
                let ghost p = pair_positions(self.index);
                self.entries.push(entry);
                pair_index_insert(&mut self.index, b0.to_owned(), b1.to_owned(), n);
                proof {
                    assert(self@ =~= record_into(m, (b0@, b1@), (t0@, t1@), rec));
                    lemma_record_topics(m, (b0@, b1@), (t0@, t1@), rec);
                    assert(!p.contains_key((b0@, b1@))) by {
                        if p.contains_key((b0@, b1@)) {
                            assert(m[p[(b0@, b1@)] as int].0 == (b0@, b1@));
                        }
                    }
                    lemma_indexed_push(m, p, entry_view(entry));
                }
                Ok(())
            },
            Some(i) => {
                let ghost ts = m[i as int].1;
                assert(entry_held(self.entries@[i as int], &self.front));
                let jt = find_topic(&self.entries[i], t0, t1, &self.front);
                proof {
                    lemma_scan(ts, (t0@, t1@), 0);
                    assert(m[i as int] == entry_view(self.entries@[i as int]));
                }
                match jt {
                    None => {
                        let c = RUN_SLOT as u128 + cost_of(t0) + cost_of(t1) + RECORD_SLOT as u128 + nc;
                        if used + c > cap {
                            return Err(AllocError {  });
                        }
                        self.make_charge(RUN_SLOT);
                        let x = self.make_token(t0);
                        let y = self.make_token(t1);
                        let nu = self.make_next(next);
                        let rec_v = SeqUnigram { seq_num: seq, unigram: nu };
                        let mut records: Vec<SeqUnigram> = Vec::new();
                        records.push(rec_v);
                        let run = TopicRun { topic: Bigram { first: x, second: y }, records };
                        proof {
                            assert(rec_v.text_record() == rec);
                            assert(run_view(run) =~= ((t0@, t1@), seq![rec]));
                            assert(run_held(run, &self.front));
                        }
                        let ghost old_entries = self.entries@;
                        let mut e = Entry { bigram: empty_bigram(), topics: Vec::new(), topic_index: pair_index_new() };
                        self.entries.set_and_swap(i, &mut e);
                        let ghost e0 = e;
                        let nt = e.topics.len();
                        e.topics.push(run);
                        pair_index_insert(&mut e.topic_index, t0.to_owned(), t1.to_owned(), nt);
                        proof {
                            assert(entry_held(e0, &self.front));
                            let p = pair_positions(e0.topic_index);
                            assert(entry_view(e0).1 == ts);
                            assert(!p.contains_key((t0@, t1@))) by {
                                if p.contains_key((t0@, t1@)) {
                                    assert(ts[p[(t0@, t1@)] as int].0 == (t0@, t1@));
                                }
                            }
                            lemma_indexed_push(ts, p, ((t0@, t1@), seq![rec]));
                            assert(entry_view(e).1 =~= ts.push(((t0@, t1@), seq![rec])));
                            assert(entry_held(e, &self.front));
                            assert(entry_view(e) =~= (m[i as int].0, ts.push(((t0@, t1@), seq![rec]))));
                        }
                        self.entries.set_and_swap(i, &mut e);
                        proof {
                            assert(self@ =~= record_into(m, (b0@, b1@), (t0@, t1@), rec));
                    lemma_record_topics(m, (b0@, b1@), (t0@, t1@), rec);
                            lemma_indexed_update(m, pair_positions(self.index), i as int, self@[i as int]);
                        }
                        Ok(())
                    },
                    Some(j) => {
                        if used + RECORD_SLOT as u128 + nc > cap {
                            return Err(AllocError {  });
                        }
                        let nu = self.make_next(next);
                        let rec_v = SeqUnigram { seq_num: seq, unigram: nu };
                        let mut e = Entry { bigram: empty_bigram(), topics: Vec::new(), topic_index: pair_index_new() };
                        self.entries.set_and_swap(i, &mut e);
                        let ghost e0 = e;
                        let mut t = TopicRun { topic: empty_bigram(), records: Vec::new() };
                        e.topics.set_and_swap(j, &mut t);
                        let ghost t0v = t;
                        t.records.push(rec_v);
                        proof {
                            assert(entry_held(e0, &self.front));
                            assert(run_held(t0v, &self.front));
                            assert(rec_v.text_record() == rec);
                            assert(run_view(t) =~= (ts[j as int].0, ts[j as int].1.push(rec)));
                            assert(run_held(t, &self.front));
                        }
                        let ghost t1v = t;
                        e.topics.set_and_swap(j, &mut t);
                        proof {
                            assert(e.topics@ =~= e0.topics@.update(j as int, t1v));
                            assert(e0.topics@[j as int] == t0v);
                            assert(run_view(t0v) == ts[j as int]);
                            assert(entry_view(e0).1 == ts);
                            assert(entry_view(e) =~= (m[i as int].0, ts.update(j as int, ((t0@, t1@), ts[j as int].1.push(rec)))));
                            lemma_indexed_update(
                                ts,
                                pair_positions(e.topic_index),
                                j as int,
                                ((t0@, t1@), ts[j as int].1.push(rec)),
                            );
                            assert(entry_held(e, &self.front));
                        }
                        self.entries.set_and_swap(i, &mut e);
                        proof {
                            assert(self@ =~= record_into(m, (b0@, b1@), (t0@, t1@), rec));
                    lemma_record_topics(m, (b0@, b1@), (t0@, t1@), rec);
                            lemma_indexed_update(m, pair_positions(self.index), i as int, self@[i as int]);
                        }
                        Ok(())
                    },
                }
            },
        }
    }
}

proof fn lemma_growth(old: Region, new: Region)
    requires
        new.extends(&old),
    ensures
        forall|v: Unigram| #[trigger] v.held_in(&old) ==> v.held_in(&new),
{
    assert forall|v: Unigram| #[trigger] v.held_in(&old) implies v.held_in(&new) by {
        v.lemma_held_extends(&old, &new);
    }
}

/// A copy of a topic run whose tokens live in `to`.
fn clone_run(t: &TopicRun, from: &Region, to: &mut Region) -> (r: Result<TopicRun, AllocError>)
    requires
        run_held(*t, from),
        old(to).wf(),
    ensures
        final(to).wf(),
        final(to).extends(old(to)),
        r is Ok <==> old(to).used() + run_cost(run_view(*t)) <= old(to).capacity(),
        r is Ok ==> run_view(r->Ok_0) == run_view(*t) && run_held(r->Ok_0, final(to)),
        r is Ok ==> final(to).used() == old(to).used() + run_cost(run_view(*t)),
{
    let ghost start = *to;
    let ghost rv = run_view(*t).1;
    match to.charge(RUN_SLOT) {
        Ok(()) => {},
        Err(e) => {
            proof {
                to.lemma_extends_refl();
            }
            return Err(e);
        },
    }
    let ghost charged = *to;
    let topic = match t.topic.clone_in(from, to) {
        Ok(b) => b,
        Err(e) => {
            proof {
                to.lemma_extends_trans(&charged, &start);
            }
            return Err(e);
        },
    };
    proof {
        to.lemma_extends_trans(&charged, &start);
    }
    proof {
        assert(topic.text()[0] == topic.first@ && topic.text()[1] == topic.second@);
        assert(t.topic.text()[0] == t.topic.first@ && t.topic.text()[1] == t.topic.second@);
    }
    let mut records: Vec<SeqUnigram> = Vec::new();
    let mut k: usize = 0;
    while k < t.records.len()
        invariant
            k <= t.records@.len(),
            run_held(*t, from),
            to.wf(),
            to.extends(&start),
            start == *old(to),
            topic.held_in(to),
            topic.text_pair() == t.topic.text_pair(),
            records@.len() == k,
            rv == run_view(*t).1,
            to.used() == start.used() + RUN_SLOT + pair_cost(t.topic.text_pair()) + records_cost(
                rv.subrange(0, k as int),
            ),
            forall|m: int| 0 <= m < k ==> #[trigger] records@[m].text_record() == t.records@[m].text_record(),
            forall|m: int| 0 <= m < k ==> #[trigger] records@[m].held_in(to),
        decreases t.records@.len() - k,
    {
        let rec = t.records[k];
        assert(t.records@[k as int].held_in(from));
        let ghost before = *to;
        proof {
            lemma_records_cost_prefix(rv, k as int);
            lemma_records_cost_prefix(rv, k + 1);
            assert(rv[k as int] == rec.text_record());
        }
        match to.charge(RECORD_SLOT) {
            Ok(()) => {},
            Err(e) => {
                proof {
                    to.lemma_extends_refl();
                    to.lemma_extends_trans(&before, &start);
                }
                return Err(e);
            },
        }
        let ghost slotted = *to;
        let nu = match rec.unigram {
            Some(u) => match u.clone_in(from, to) {
                Ok(c) => {
                    assert(c.text()[0] == c@ && u.text()[0] == u@);
                    Some(c)
                },
                Err(e) => {
                    proof {
                        slotted.lemma_extends_trans(&before, &start);
                        to.lemma_extends_trans(&slotted, &start);
                    }
                    return Err(e);
                },
            },
            None => {
                proof {
                    to.lemma_extends_refl();
                }
                None
            },
        };
        proof {
            to.lemma_extends_trans(&slotted, &before);
            lemma_growth(before, *to);
            to.lemma_extends_trans(&before, &start);
            topic.lemma_held_extends(&before, to);
            assert forall|m: int| 0 <= m < k implies #[trigger] records@[m].held_in(to) by {
                assert(records@[m].held_in(&before));
                match records@[m].unigram {
                    Some(v) => {
                        assert(v.held_in(&before));
                    },
                    None => {},
                }
            }
        }
        records.push(SeqUnigram { seq_num: rec.seq_num, unigram: nu });
        k = k + 1;
    }
    let r = TopicRun { topic, records };
    proof {
        assert(rv.subrange(0, k as int) =~= rv);
        assert(r.records@.map_values(|x: SeqUnigram| x.text_record()) =~= t.records@.map_values(
            |x: SeqUnigram| x.text_record(),
        ));
    }
    Ok(r)
}

/// A copy of an entry whose tokens live in `to`.
fn clone_entry(e: &Entry, from: &Region, to: &mut Region) -> (r: Result<Entry, AllocError>)
    requires
        entry_held(*e, from),
        old(to).wf(),
    ensures
        final(to).wf(),
        final(to).extends(old(to)),
        r is Ok <==> old(to).used() + entry_cost(entry_view(*e)) <= old(to).capacity(),
        r is Ok ==> entry_view(r->Ok_0) == entry_view(*e) && entry_held(r->Ok_0, final(to)),
        r is Ok ==> final(to).used() == old(to).used() + entry_cost(entry_view(*e)),
{
    let ghost start = *to;
    let ghost ev = entry_view(*e).1;
    match to.charge(ENTRY_SLOT) {
        Ok(()) => {},
        Err(err) => {
            proof {
                to.lemma_extends_refl();
            }
            return Err(err);
        },
    }
    let ghost charged = *to;
    let bigram = match e.bigram.clone_in(from, to) {
        Ok(b) => b,
        Err(err) => {
            proof {
                to.lemma_extends_trans(&charged, &start);
            }
            return Err(err);
        },
    };
    proof {
        to.lemma_extends_trans(&charged, &start);
    }
    proof {
        assert(bigram.text()[0] == bigram.first@ && bigram.text()[1] == bigram.second@);
        assert(e.bigram.text()[0] == e.bigram.first@ && e.bigram.text()[1] == e.bigram.second@);
    }
    let mut topics: Vec<TopicRun> = Vec::new();
    let mut topic_index = pair_index_new();
    proof {
        vstd::set_lib::lemma_set_empty_equivalency_len(pair_positions(topic_index).dom());
    }
    let mut j: usize = 0;
    while j < e.topics.len()
        invariant
            j <= e.topics@.len(),
            indexed_pairs(ev.subrange(0, j as int), pair_positions(topic_index)),
            entry_held(*e, from),
            to.wf(),
            to.extends(&start),
            start == *old(to),
            bigram.held_in(to),
            bigram.text_pair() == e.bigram.text_pair(),
            topics@.len() == j,
            ev == entry_view(*e).1,
            to.used() == start.used() + ENTRY_SLOT + pair_cost(e.bigram.text_pair()) + topics_cost(
                ev.subrange(0, j as int),
            ),
            forall|m: int| 0 <= m < j ==> #[trigger] run_view(topics@[m]) == run_view(e.topics@[m]),
            forall|m: int| 0 <= m < j ==> run_held(#[trigger] topics@[m], to),
        decreases e.topics@.len() - j,
    {
        assert(run_held(e.topics@[j as int], from));
        let ghost before = *to;
        proof {
            lemma_topics_cost_prefix(ev, j as int);
            lemma_topics_cost_prefix(ev, j + 1);
            assert(ev[j as int] == run_view(e.topics@[j as int]));
        }
        let t = match clone_run(&e.topics[j], from, to) {
            Ok(t) => t,
            Err(err) => {
                proof {
                    to.lemma_extends_trans(&before, &start);
                }
                return Err(err);
            },
        };
        proof {
            to.lemma_extends_trans(&before, &start);
            bigram.lemma_held_extends(&before, to);
            assert forall|m: int| 0 <= m < j implies run_held(#[trigger] topics@[m], to) by {
                lemma_run_held_extends(topics@[m], &before, to);
            }
        }
        let key = pair_to_text(&t.topic, to);
        let ghost p = pair_positions(topic_index);
        proof {
            let src = pair_positions(e.topic_index);
            let done = ev.subrange(0, j as int);
            assert(!p.contains_key(ev[j as int].0)) by {
                if p.contains_key(ev[j as int].0) {
                    let k = p[ev[j as int].0] as int;
                    assert(done[k] == ev[k]);
                    assert(src.contains_key(ev[k].0));
                    assert(src.contains_key(ev[j as int].0));
                }
            }
            lemma_indexed_push(done, p, ev[j as int]);
            assert(done.push(ev[j as int]) =~= ev.subrange(0, j + 1));
        }
        pair_index_insert(&mut topic_index, key.0, key.1, j);
        topics.push(t);
        j = j + 1;
    }
    let r = Entry { bigram, topics, topic_index };
    proof {
        assert(ev.subrange(0, j as int) =~= ev);
        assert(r.topics@.map_values(|x: TopicRun| run_view(x)) =~= e.topics@.map_values(
            |x: TopicRun| run_view(x),
        ));
    }
    Ok(r)
}

impl Chain {
    /// Rebuilds the index in the back region, keeping only the bigrams with at
    /// least the configured number of topics, then swaps the regions and empties
    /// the old one in one step. On failure the index and its front region stay as
    /// they were.
    #[verifier::rlimit(100)]
    pub fn compact(&mut self) -> (r: Result<(), AllocError>)
        requires
            old(self).wf(),
        ensures
            final(self).wf(),
            final(self).half_para() == old(self).half_para(),
            final(self).prune_size() == old(self).prune_size(),
            final(self).threshold() == old(self).threshold(),
            r is Ok <==> model_cost(prune(old(self)@, old(self).threshold())) <= old(self).back().capacity(),
            r is Ok ==> final(self)@ == prune(old(self)@, old(self).threshold()),
            r is Ok ==> final(self).front().used() == model_cost(final(self)@),
            r is Err ==> final(self)@ == old(self)@ && final(self).front() == old(self).front(),
            final(self).back().used() == 0,
            final(self).front().capacity() == old(self).front().capacity(),
            final(self).back().capacity() == old(self).back().capacity(),
    {
        let ghost m = self@;
        let thr = self.prune_threshold;
        let mut kept: Vec<Entry> = Vec::with_capacity(self.entries.len());
        let mut index = pair_index_new();
        let mut i: usize = 0;
        while i < self.entries.len()
            invariant
                i <= self.entries@.len(),
                self.front.wf(),
                self.front.capacity() == self.back.capacity(),
                topics_distinct(m),
                self.back.wf(),
                self@ == m,
                m == old(self)@,
                self.front == old(self).front,
                self.entries == old(self).entries,
                self.index == old(self).index,
                indexed_pairs(m, pair_positions(self.index)),
                indexed_pairs(kept@.map_values(|e: Entry| entry_view(e)), pair_positions(index)),
                self.half_para_len == old(self).half_para_len,
                self.prune_size_bytes == old(self).prune_size_bytes,
                self.prune_threshold == thr,
                thr == old(self).prune_threshold,
                forall|k: int| 0 <= k < self.entries@.len() ==> entry_held(#[trigger] self.entries@[k], &self.front),
                kept@.map_values(|e: Entry| entry_view(e)) == prune(m.subrange(0, i as int), thr as nat),
                self.back.used() == model_cost(prune(m.subrange(0, i as int), thr as nat)),
                self.back.capacity() == old(self).back.capacity(),
                forall|k: int| 0 <= k < kept@.len() ==> entry_held(#[trigger] kept@[k], &self.back),
            decreases self.entries@.len() - i,
        {
            assert(entry_held(self.entries@[i as int], &self.front));
            assert(m[i as int] == entry_view(self.entries@[i as int]));
            assert(m.subrange(0, i + 1).drop_last() =~= m.subrange(0, i as int));
            proof {
                lemma_prune_cost_prefix(m, thr as nat, i + 1);
                let p = prune(m.subrange(0, i as int), thr as nat);
                assert(p.push(m[i as int]).drop_last() =~= p);
            }
            if self.entries[i].topics.len() >= thr {
                let ghost before = self.back;
                match clone_entry(&self.entries[i], &self.front, &mut self.back) {
                    Ok(c) => {
                        proof {
                            assert forall|k: int| 0 <= k < kept@.len() implies entry_held(
                                #[trigger] kept@[k],
                                &self.back,
                            ) by {
                                lemma_entry_held_extends(kept@[k], &before, &self.back);
                            }
                        }
                        let ghost kv = kept@;
                        let ghost p = pair_positions(index);
                        let n = kept.len();
                        let key = pair_to_text(&c.bigram, &self.back);
                        kept.push(c);
                        pair_index_insert(&mut index, key.0, key.1, n);
                        proof {
                            let old_view = kv.map_values(|e: Entry| entry_view(e));
                            assert(kept@.map_values(|e: Entry| entry_view(e)) =~= old_view.push(
                                entry_view(c),
                            ));
                            assert(!p.contains_key(m[i as int].0)) by {
                                if p.contains_key(m[i as int].0) {
                                    let k = p[m[i as int].0] as int;
                                    let pm = prune(m.subrange(0, i as int), thr as nat);
                                    assert(old_view[k] == pm[k]);
                                    lemma_prune(m.subrange(0, i as int), thr as nat);
                                    assert(m.subrange(0, i as int).contains(pm[k]));
                                    let j = choose|j: int| 0 <= j < i && m.subrange(0, i as int)[j] == pm[k];
                                    assert(m[j] == pm[k]);
                                    assert(pair_positions(self.index).contains_key(m[j].0));
                                    assert(pair_positions(self.index).contains_key(m[i as int].0));
                                }
                            }
                            lemma_indexed_push(old_view, p, entry_view(c));
                        }
                    },
                    Err(err) => {
                        self.back.reset();
                        return Err(err);
                    },
                }
            }
            i = i + 1;
        }
        assert(m.subrange(0, i as int) =~= m);
        proof {
            lemma_prune_topics(m, thr as nat);
        }
        std::mem::swap(&mut self.front, &mut self.back);
        self.entries = kept;
        self.index = index;
        self.back.reset();
        Ok(())
    }
}

/// Moves the counter to the window of position `i`.
fn advance_window(counter: &mut Counter, words: &Vec<String>, h: usize, i: usize)
    requires
        old(counter).wf(),
        i + 1 < words@.len(),
        words@.len() <= i32::MAX,
        old(counter).spec_total() <= words@.len() + i,
        i == 0 ==> old(counter)@ == Seq::<(Seq<char>, nat)>::empty(),
        i > 0 ==> old(counter)@ == window_counter(words_text(*words), h as nat, (i - 1) as nat),
    ensures
        final(counter).wf(),
        final(counter)@ == window_counter(words_text(*words), h as nat, i as nat),
        final(counter).spec_total() <= words@.len() + i + 1,
{
    let ghost w = words_text(*words);
    let n = words.len();
    proof {
        counter.lemma_consistent();
    }
    if i == 0 {
        let e0 = if h < n {
            h
        } else {
            n
        };
        let mut k: usize = 0;
        while k < e0
            invariant
                k <= e0,
                e0 == window_end(n as nat, h as nat, 0),
                e0 <= n,
                n == words@.len(),
                n <= i32::MAX,
                w == words_text(*words),
                counter.wf(),
                counter@ == seeded(w, k as nat),
                counter.spec_total() <= k,
            decreases e0 - k,
        {
            assert(w[k as int] == words@[k as int]@);
            let word = words[k].as_str();
            if word.as_bytes().len() > 2 {
                counter.add(word);
            }
            k = k + 1;
        }
    } else {
        let start = if i > h {
            i - h
        } else {
            0
        };
        let end = if h < n && i < n - h {
            i + h
        } else {
            n
        };
        if start > 0 {
            let word = words[start].as_str();
            assert(w[start as int] == words@[start as int]@);
            if word.as_bytes().len() > 2 && counter.contains_key(word) {
                counter.remove(word);
            }
        }
        let at_edge = h <= n && i == n - h;
        let word = words[end - 1].as_str();
        assert(w[end - 1] == words@[end - 1]@);
        if (end < n || at_edge) && word.as_bytes().len() > 2 {
            counter.add(word);
        }
    }
}

impl Chain {
    /// Records one document: for each position from the first word to the next
    /// to last, the topic of the window around it and the word that follows the
    /// bigram there. A document shorter than the window's half width changes
    /// nothing; a window without enough context ends the document early. When the
    /// front region then holds more than the configured size, the index is
    /// compacted. Fails when a region cannot hold the tokens; records made before
    /// the failure stay.
    #[verifier::rlimit(100)]
    pub fn update(&mut self, words: Vec<String>) -> (r: Result<(), AllocError>)
        requires
            old(self).wf(),
            words@.len() <= i32::MAX,
        ensures
            final(self).wf(),
            final(self).half_para() == old(self).half_para(),
            final(self).prune_size() == old(self).prune_size(),
            final(self).threshold() == old(self).threshold(),
            words@.len() < old(self).half_para() ==> r is Ok && final(self)@ == old(self)@
                && final(self).front() == old(self).front(),
            (final(self)@, r is Ok) == update_outcome(
                old(self)@,
                old(self).front().used(),
                old(self).front().capacity(),
                old(self).back().capacity(),
                words_text(words),
                old(self).half_para(),
                old(self).prune_size(),
                old(self).threshold(),
            ),
            final(self).front().used() == update_front_bytes(
                old(self)@,
                old(self).front().used(),
                old(self).front().capacity(),
                old(self).back().capacity(),
                words_text(words),
                old(self).half_para(),
                old(self).prune_size(),
                old(self).threshold(),
            ),
            final(self).back().used() == 0,
            final(self).front().capacity() == old(self).front().capacity(),
            final(self).back().capacity() == old(self).back().capacity(),
    {
        let n = words.len();
        let h = self.half_para_len;
        if n < h {
            return Ok(());
        }
        let ghost w = words_text(words);
        let ghost m0 = self@;
        let ghost used0 = self.front.used();
        let ghost cap = self.front.capacity();
        let ghost hn = h as nat;
        let mut counter = Counter::new();
        let mut prev: (String, String) = (String::new(), String::new());
        let mut seq: i32 = 0;
        let mut i: usize = 0;
        let mut stopped = false;
        while i + 1 < n && !stopped
            invariant
                n == words@.len(),
                n <= i32::MAX,
                n >= h,
                0 <= seq <= i,
                h == self.half_para_len,
                hn == h,
                w == words_text(words),
                self.wf(),
                self.half_para_len == old(self).half_para_len,
                self.prune_size_bytes == old(self).prune_size_bytes,
                self.prune_threshold == old(self).prune_threshold,
                self.front.capacity() == cap,
                cap == old(self).front.capacity(),
                self.back == old(self).back,
                m0 == old(self)@,
                used0 == old(self).front.used(),
                i + 1 <= n || i == 0,
                counter.wf(),
                !stopped ==> counter.spec_total() <= n + i,
                !stopped && i == 0 ==> counter@ == Seq::<(Seq<char>, nat)>::empty() && seq == 0,
                !stopped && i > 0 ==> counter@ == window_counter(w, hn, (i - 1) as nat),
                stopped ==> i + 1 < n && !window_ok(w, hn, i as nat),
                i > 0 ==> (prev.0@, prev.1@) == topic_at(w, hn, (i - 1) as nat),
                i > 0 ==> seq == seq_at(w, hn, (i - 1) as nat) + 1,
                forall|j: nat| j < i ==> #[trigger] window_ok(w, hn, j),
                run_from(m0, used0, cap, w, hn, i as nat) == (self@, self.front.used() as nat, false),
            decreases n - i + (if stopped {
                0int
            } else {
                1int
            }),
        {
            advance_window(&mut counter, &words, h, i);
            proof {
                counter.lemma_consistent();
            }
            if counter.total_count() < 3 || counter.num_items() < 2 {
                stopped = true;
                continue;
            }
            let t0 = match counter.most_frequent(1) {
                Some(e) => &e.0,
                None => {
                    assert(false);
                    return Err(AllocError {  });
                },
            };
            let t1 = match counter.most_frequent(2) {
                Some(e) => &e.0,
                None => {
                    assert(false);
                    return Err(AllocError {  });
                },
            };
            if !(*t0 == prev.0 && *t1 == prev.1) {
                seq = 0;
                prev = (t0.clone(), t1.clone());
            }
            let next: Option<&str> = if i + 2 < n {
                Some(words[i + 2].as_str())
            } else {
                None
            };
            let ghost before = self@;
            let ghost used_before = self.front.used() as nat;
            let res = self.record(words[i].as_str(), words[i + 1].as_str(), t0.as_str(), t1.as_str(), seq, next);
            proof {
                assert(w[i as int] == words@[i as int]@);
                assert(w[i + 1] == words@[i + 1]@);
                if i + 2 < n {
                    assert(w[i + 2] == words@[i + 2]@);
                }
            }
            if res.is_err() {
                proof {
                    lemma_stop_after(w, hn, 0, i as nat);
                    lemma_run_failed(m0, used0, cap, w, hn, (i + 1) as nat, stop_at(w, hn, 0));
                }
                return Err(AllocError {  });
            }
            seq = seq + 1;
            i = i + 1;
        }
        proof {
            lemma_stop_at(w, hn, 0, i as nat);
        }
        if self.front.allocated_bytes() > self.prune_size_bytes {
            self.compact()
        } else {
            Ok(())
        }
    }
}

impl Chain {
    /// A copy of the whole index as plain text, independent of both regions.
    pub fn extract_chain_map(self) -> (r: ChainMap)
        requires
            self.wf(),
        ensures
            snapshot_text(r) == self@,
            bigrams_distinct(snapshot_text(r)),
            topics_distinct(snapshot_text(r)),
    {
        proof {
            let p = pair_positions(self.index);
            assert forall|i: int, j: int| 0 <= i < j < self@.len() implies #[trigger] self@[i].0
                != #[trigger] self@[j].0 by {
                assert(p.contains_key(self@[i].0));
                assert(p.contains_key(self@[j].0));
            }
        }
        let mut out: ChainMap = Vec::new();
        let mut i: usize = 0;
        while i < self.entries.len()
            invariant
                i <= self.entries@.len(),
                self.wf(),
                out@.len() == i,
                forall|m: int| 0 <= m < i ==> #[trigger] snapshot_text(out)[m] == self@[m],
            decreases self.entries@.len() - i,
        {
            let e = &self.entries[i];
            assert(entry_held(self.entries@[i as int], &self.front));
            let mut topics: Vec<((String, String), Vec<(i32, Option<String>)>)> = Vec::new();
            let mut j: usize = 0;
            while j < e.topics.len()
                invariant
                    j <= e.topics@.len(),
                    entry_held(*e, &self.front),
                    topics@.len() == j,
                    forall|m: int| 0 <= m < j ==> #[trigger] snapshot_run_text(topics@[m]) == run_view(e.topics@[m]),
                decreases e.topics@.len() - j,
            {
                assert(run_held(e.topics@[j as int], &self.front));
                let t = run_to_text(&e.topics[j], &self.front);
                topics.push(t);
                j = j + 1;
            }
            let ghost tv = topics@.map_values(
                |t: ((String, String), Vec<(i32, Option<String>)>)| snapshot_run_text(t),
            );
            assert(tv =~= e.topics@.map_values(|t: TopicRun| run_view(t)));
            let ghost prev = out@;
            let ghost prev_out = out;
            let ghost topics_v = topics@;
            let pair = pair_to_text(&e.bigram, &self.front);
            out.push((pair, topics));
            proof {
                assert(out@[i as int].1@ == topics_v);
                assert(self@[i as int] == entry_view(self.entries@[i as int]));
                assert forall|m: int| 0 <= m < i + 1 implies #[trigger] snapshot_text(out)[m] == self@[m] by {
                    if m < i {
                        assert(out@[m] == prev[m]);
                        assert(snapshot_text(prev_out)[m] == self@[m]);
                    } else {
                        let x = snapshot_text(out)[m];
                        assert(x.1.len() == topics_v.len());
                        assert forall|q: int| 0 <= q < x.1.len() implies #[trigger] x.1[q] == self@[m].1[q] by {
                            assert(x.1[q] == snapshot_run_text(topics_v[q]));
                        }
                        assert(x.1 =~= self@[m].1);
                    }
                }
            }
            i = i + 1;
        }
        assert(snapshot_text(out) =~= self@);
        out
    }
}

} // verus!
