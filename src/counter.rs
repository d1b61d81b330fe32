use vstd::prelude::*;
use vstd::pervasive::VecAdditionalExecFns;
use crate::key_index::{KeyIndex, positions, index_new, index_get, index_insert, index_remove};

verus! {

/// Position of the key `k` in `items`, or -1 when it is absent.
pub open spec fn find(items: Seq<(Seq<char>, nat)>, k: Seq<char>) -> int
    decreases items.len(),
{
    if items.len() == 0 {
        -1
    } else if items.last().0 == k {
        items.len() - 1
    } else {
        find(items.drop_last(), k)
    }
}

/// `s` with the entries at `a` and `b` exchanged.
pub open spec fn swap_at<T>(s: Seq<T>, a: int, b: int) -> Seq<T> {
    s.update(a, s[b]).update(b, s[a])
}

/// Where an entry whose count has just risen to `c` moves: scanning left from
/// position `j`, the first position whose left neighbour counts at least `c`.
pub open spec fn rise_to(items: Seq<(Seq<char>, nat)>, j: int, c: nat) -> int
    decreases j,
{
    if j <= 0 {
        0
    } else if items[j - 1].1 < c {
        rise_to(items, j - 1, c)
    } else {
        j
    }
}

/// Where an entry whose count has just fallen to `c` moves: scanning right from
/// position `j`, the last position before the first entry that counts at most `c`.
pub open spec fn sink_to(items: Seq<(Seq<char>, nat)>, j: int, c: nat) -> int
    decreases items.len() - j,
{
    if j + 1 >= items.len() {
        j
    } else if items[j + 1].1 > c {
        sink_to(items, j + 1, c)
    } else {
        j
    }
}

/// The entries after one occurrence of `k` is counted.
pub open spec fn counter_add(items: Seq<(Seq<char>, nat)>, k: Seq<char>) -> Seq<(Seq<char>, nat)> {
    let i = find(items, k);
    if i < 0 {
        items.push((k, 1))
    } else {
        let c = items[i].1 + 1;
        swap_at(items.update(i, (k, c)), i, rise_to(items, i, c))
    }
}

/// The entries after one occurrence of `k` is withdrawn.
pub open spec fn counter_remove(items: Seq<(Seq<char>, nat)>, k: Seq<char>) -> Seq<
    (Seq<char>, nat),
> {
    let i = find(items, k);
    if i < 0 {
        items
    } else if items[i].1 <= 1 {
        items.update(i, items.last()).drop_last()
    } else {
        let c = (items[i].1 - 1) as nat;
        swap_at(items.update(i, (k, c)), i, sink_to(items, i, c))
    }
}

pub open spec fn sum_counts(items: Seq<(Seq<char>, nat)>) -> nat
    decreases items.len(),
{
    if items.len() == 0 {
        0
    } else {
        sum_counts(items.drop_last()) + items.last().1
    }
}

pub open spec fn sorted_desc(items: Seq<(Seq<char>, nat)>) -> bool {
    forall|i: int, j: int| 0 <= i < j < items.len() ==> #[trigger] items[i].1 >= #[trigger] items[j].1
}

pub open spec fn keys_distinct(items: Seq<(Seq<char>, nat)>) -> bool {
    forall|i: int, j: int| 0 <= i < j < items.len() ==> #[trigger] items[i].0 != #[trigger] items[j].0
}

pub open spec fn counts_positive(items: Seq<(Seq<char>, nat)>) -> bool {
    forall|i: int| 0 <= i < items.len() ==> #[trigger] items[i].1 >= 1
}

/// The entries of a consistent counter.
pub open spec fn entries_ok(items: Seq<(Seq<char>, nat)>) -> bool {
    keys_distinct(items) && counts_positive(items) && sorted_desc(items)
}

proof fn lemma_find(items: Seq<(Seq<char>, nat)>, k: Seq<char>)
    requires
        keys_distinct(items),
    ensures
        find(items, k) < 0 <==> (forall|i: int| 0 <= i < items.len() ==> items[i].0 != k),
        find(items, k) >= 0 ==> find(items, k) < items.len() && items[find(items, k)].0 == k,
    decreases items.len(),
{
    if items.len() > 0 {
        let d = items.drop_last();
        assert(keys_distinct(d));
        lemma_find(d, k);
        if items.last().0 != k {
            assert(find(items, k) == find(d, k));
            if forall|i: int| 0 <= i < d.len() ==> d[i].0 != k {
                assert forall|i: int| 0 <= i < items.len() implies items[i].0 != k by {
                    if i < d.len() {
                        assert(d[i] == items[i]);
                    }
                }
            } else {
                let w = choose|i: int| 0 <= i < d.len() && d[i].0 != k == false;
                assert(items[w] == d[w]);
            }
            if find(d, k) >= 0 {
                assert(items[find(d, k)] == d[find(d, k)]);
            }
        } else {
            assert(items[items.len() - 1].0 == k);
        }
    }
}

proof fn lemma_find_at(items: Seq<(Seq<char>, nat)>, k: Seq<char>, i: int)
    requires
        keys_distinct(items),
        0 <= i < items.len(),
        items[i].0 == k,
    ensures
        find(items, k) == i,
{
    lemma_find(items, k);
    let f = find(items, k);
    if f != i {
        if f < i {
            assert(items[f].0 != items[i].0);
        } else {
            assert(items[i].0 != items[f].0);
        }
    }
}

proof fn lemma_rise_to(items: Seq<(Seq<char>, nat)>, j: int, c: nat)
    requires
        0 <= j <= items.len(),
    ensures
        0 <= rise_to(items, j, c) <= j,
        forall|m: int| rise_to(items, j, c) <= m < j ==> #[trigger] items[m].1 < c,
        rise_to(items, j, c) == 0 || items[rise_to(items, j, c) - 1].1 >= c,
    decreases j,
{
    if j > 0 && items[j - 1].1 < c {
        lemma_rise_to(items, j - 1, c);
    }
}

proof fn lemma_sink_to(items: Seq<(Seq<char>, nat)>, j: int, c: nat)
    requires
        0 <= j < items.len(),
    ensures
        j <= sink_to(items, j, c) < items.len(),
        forall|m: int| j < m <= sink_to(items, j, c) ==> #[trigger] items[m].1 > c,
        sink_to(items, j, c) + 1 == items.len() || items[sink_to(items, j, c) + 1].1 <= c,
    decreases items.len() - j,
{
    if j + 1 < items.len() && items[j + 1].1 > c {
        lemma_sink_to(items, j + 1, c);
    }
}

proof fn lemma_sum_update(s: Seq<(Seq<char>, nat)>, i: int, x: (Seq<char>, nat))
    requires
        0 <= i < s.len(),
    ensures
        sum_counts(s.update(i, x)) + s[i].1 == sum_counts(s) + x.1,
    decreases s.len(),
{
    let u = s.update(i, x);
    if i < s.len() - 1 {
        assert(u.drop_last() == s.drop_last().update(i, x));
        lemma_sum_update(s.drop_last(), i, x);
    } else {
        assert(u.drop_last() == s.drop_last());
    }
}

proof fn lemma_count_le_sum(s: Seq<(Seq<char>, nat)>, i: int)
    requires
        0 <= i < s.len(),
    ensures
        s[i].1 <= sum_counts(s),
    decreases s.len(),
{
    if i < s.len() - 1 {
        lemma_count_le_sum(s.drop_last(), i);
    }
}

proof fn lemma_sum_swap(s: Seq<(Seq<char>, nat)>, a: int, b: int)
    requires
        0 <= a < s.len(),
        0 <= b < s.len(),
    ensures
        sum_counts(swap_at(s, a, b)) == sum_counts(s),
{
    let u = s.update(a, s[b]);
    lemma_sum_update(s, a, s[b]);
    lemma_sum_update(u, b, s[a]);
    if a == b {
        assert(u[b] == s[b]);
    } else {
        assert(u[b] == s[b]);
    }
}

/// `p` sends each key of `items` to its position, and knows no other key.
pub open spec fn indexed(items: Seq<(Seq<char>, nat)>, p: Map<Seq<char>, usize>) -> bool {
    &&& forall|k: Seq<char>| #[trigger]
        p.contains_key(k) ==> p[k] < items.len() && items[p[k] as int].0 == k
    &&& forall|i: int|
        0 <= i < items.len() ==> #[trigger] p.contains_key(items[i].0) && p[items[i].0] == i
}

proof fn lemma_swap_indexed(s: Seq<(Seq<char>, nat)>, p: Map<Seq<char>, usize>, a: int, b: int)
    requires
        keys_distinct(s),
        indexed(s, p),
        0 <= a < s.len(),
        0 <= b < s.len(),
        s.len() <= usize::MAX,
        a != b,
    ensures
        indexed(swap_at(s, a, b), p.insert(s[b].0, a as usize).insert(s[a].0, b as usize)),
        keys_distinct(swap_at(s, a, b)),
{
    let r = swap_at(s, a, b);
    let q = p.insert(s[b].0, a as usize).insert(s[a].0, b as usize);
    if a < b {
        assert(s[a].0 != s[b].0);
    } else {
        assert(s[b].0 != s[a].0);
    }
    assert forall|x: int| 0 <= x < s.len() implies #[trigger] r[x] == (if x == a {
        s[b]
    } else if x == b {
        s[a]
    } else {
        s[x]
    }) by {}
    assert forall|i: int, j: int| 0 <= i < j < r.len() implies #[trigger] r[i].0 != #[trigger] r[j].0 by {
        let ii = if i == a { b } else if i == b { a } else { i };
        let jj = if j == a { b } else if j == b { a } else { j };
        assert(r[i] == s[ii]);
        assert(r[j] == s[jj]);
        if ii < jj {
            assert(s[ii].0 != s[jj].0);
        } else {
            assert(s[jj].0 != s[ii].0);
        }
    }
    assert forall|k: Seq<char>| #[trigger] q.contains_key(k) implies q[k] < r.len() && r[q[k] as int].0 == k by {
        if k != s[a].0 && k != s[b].0 {
            assert(p.contains_key(k));
            let x = p[k] as int;
            assert(s[x].0 == k);
            assert(x != a && x != b);
            assert(r[x] == s[x]);
            assert(q[k] == p[k]);
        } else if k == s[a].0 {
            assert(q[k] == b);
            assert(r[b] == s[a]);
        } else {
            assert(q[k] == a);
            assert(r[a] == s[b]);
        }
    }
    assert forall|i: int| 0 <= i < r.len() implies #[trigger] q.contains_key(r[i].0) && q[r[i].0] == i by {
        if i != a && i != b {
            assert(r[i] == s[i]);
            assert(s[i].0 != s[a].0) by {
                if i < a {} else {}
            }
            assert(s[i].0 != s[b].0) by {
                if i < b {} else {}
            }
            assert(p.contains_key(s[i].0));
            assert(p[s[i].0] == i);
        } else if i == a {
            assert(r[i] == s[b]);
        } else {
            assert(r[i] == s[a]);
        }
    }
}

proof fn lemma_set_count_indexed(s: Seq<(Seq<char>, nat)>, p: Map<Seq<char>, usize>, i: int, c: nat)
    requires
        keys_distinct(s),
        indexed(s, p),
        0 <= i < s.len(),
    ensures
        keys_distinct(s.update(i, (s[i].0, c))),
        indexed(s.update(i, (s[i].0, c)), p),
{
    let u = s.update(i, (s[i].0, c));
    assert forall|x: int| 0 <= x < s.len() implies #[trigger] u[x].0 == s[x].0 by {}
    assert forall|a: int, b: int| 0 <= a < b < u.len() implies #[trigger] u[a].0 != #[trigger] u[b].0 by {
        assert(s[a].0 != s[b].0);
    }
    assert forall|k: Seq<char>| #[trigger] p.contains_key(k) implies p[k] < u.len() && u[p[k] as int].0 == k by {}
    assert forall|x: int| 0 <= x < u.len() implies #[trigger] p.contains_key(u[x].0) && p[u[x].0] == x by {
        assert(p.contains_key(s[x].0));
    }
}

proof fn lemma_pop_indexed(s: Seq<(Seq<char>, nat)>, p: Map<Seq<char>, usize>)
    requires
        keys_distinct(s),
        indexed(s, p),
        s.len() > 0,
    ensures
        keys_distinct(s.drop_last()),
        indexed(s.drop_last(), p.remove(s.last().0)),
        sum_counts(s.drop_last()) + s.last().1 == sum_counts(s),
{
    let d = s.drop_last();
    let q = p.remove(s.last().0);
    assert forall|k: Seq<char>| #[trigger] q.contains_key(k) implies q[k] < d.len() && d[q[k] as int].0 == k by {
        assert(p.contains_key(k));
        if p[k] == s.len() - 1 {
            assert(s[s.len() - 1].0 == k);
        }
    }
    assert forall|x: int| 0 <= x < d.len() implies #[trigger] q.contains_key(d[x].0) && q[d[x].0] == x by {
        assert(d[x] == s[x]);
        assert(s[x].0 != s[s.len() - 1].0);
        assert(p.contains_key(s[x].0));
    }
}

proof fn lemma_add_found(s: Seq<(Seq<char>, nat)>, k: Seq<char>, i: int, c: nat, t: int)
    requires
        entries_ok(s),
        0 <= i < s.len(),
        s[i].0 == k,
        c == s[i].1 + 1,
        t == rise_to(s, i, c),
    ensures
        entries_ok(swap_at(s.update(i, (k, c)), i, t)),
{
    lemma_rise_to(s, i, c);
    let s1 = s.update(i, (k, c));
    let r = swap_at(s1, i, t);
    assert forall|x: int| 0 <= x < s.len() implies #[trigger] r[x] == (if x == t {
        (k, c)
    } else if x == i {
        s[t]
    } else {
        s[x]
    }) by {}
    assert forall|x: int| t <= x < i implies #[trigger] s[x].1 == s[i].1 by {
        assert(s[x].1 < c);
        assert(s[x].1 >= s[i].1);
    }
    assert forall|p: int, q: int| 0 <= p < q < r.len() implies #[trigger] r[p].1 >= #[trigger] r[q].1 by {
        if p < t && t > 0 {
            assert(s[p].1 >= s[t - 1].1) by {
                if p < t - 1 {}
            }
        }
        if q > i && t < i {
            assert(s[t].1 >= s[q].1);
        }
    }
    assert forall|p: int, q: int| 0 <= p < q < r.len() implies #[trigger] r[p].0 != #[trigger] r[q].0 by {
        let pp = if p == t { i } else if p == i { t } else { p };
        let qq = if q == t { i } else if q == i { t } else { q };
        assert(r[p].0 == s[pp].0);
        assert(r[q].0 == s[qq].0);
        if pp < qq {
            assert(s[pp].0 != s[qq].0);
        } else {
            assert(s[qq].0 != s[pp].0);
        }
    }
}

proof fn lemma_remove_found(s: Seq<(Seq<char>, nat)>, k: Seq<char>, i: int, c: nat, t: int)
    requires
        entries_ok(s),
        0 <= i < s.len(),
        s[i].0 == k,
        c + 1 == s[i].1,
        c >= 1,
        t == sink_to(s, i, c),
    ensures
        entries_ok(swap_at(s.update(i, (k, c)), i, t)),
{
    lemma_sink_to(s, i, c);
    let s1 = s.update(i, (k, c));
    let r = swap_at(s1, i, t);
    assert forall|x: int| 0 <= x < s.len() implies #[trigger] r[x] == (if x == t {
        (k, c)
    } else if x == i {
        s[t]
    } else {
        s[x]
    }) by {}
    assert forall|x: int| i < x <= t implies #[trigger] s[x].1 == s[i].1 by {
        assert(s[x].1 > c);
        assert(s[i].1 >= s[x].1);
    }
    assert forall|p: int, q: int| 0 <= p < q < r.len() implies #[trigger] r[p].1 >= #[trigger] r[q].1 by {
        if q > t && t + 1 < s.len() {
            assert(s[t + 1].1 >= s[q].1) by {
                if q > t + 1 {}
            }
        }
        if p < i && t > i {
            assert(s[p].1 >= s[t].1);
        }
    }
    assert forall|p: int, q: int| 0 <= p < q < r.len() implies #[trigger] r[p].0 != #[trigger] r[q].0 by {
        let pp = if p == t { i } else if p == i { t } else { p };
        let qq = if q == t { i } else if q == i { t } else { q };
        assert(r[p].0 == s[pp].0);
        assert(r[q].0 == s[qq].0);
        if pp < qq {
            assert(s[pp].0 != s[qq].0);
        } else {
            assert(s[qq].0 != s[pp].0);
        }
    }
}

proof fn lemma_remove_last(s: Seq<(Seq<char>, nat)>, k: Seq<char>, i: int)
    requires
        entries_ok(s),
        0 <= i < s.len(),
        s[i].0 == k,
        s[i].1 == 1,
    ensures
        entries_ok(swap_at(s, i, s.len() - 1).drop_last()),
        swap_at(s, i, s.len() - 1).drop_last() == s.update(i, s.last()).drop_last(),
{
    let n = s.len() - 1;
    let r = swap_at(s, i, n).drop_last();
    assert(r =~= s.update(i, s.last()).drop_last());
    assert forall|x: int| i <= x < s.len() implies #[trigger] s[x].1 == 1 by {
        assert(s[i].1 >= s[x].1);
    }
    assert forall|p: int, q: int| 0 <= p < q < r.len() implies #[trigger] r[p].0 != #[trigger] r[q].0 by {
        let pp = if p == i { n } else { p };
        let qq = if q == i { n } else { q };
        if pp < qq {
            assert(s[pp].0 != s[qq].0);
        } else {
            assert(s[qq].0 != s[pp].0);
        }
    }
    assert forall|p: int, q: int| 0 <= p < q < r.len() implies #[trigger] r[p].1 >= #[trigger] r[q].1 by {
        if q == i {
            assert(s[p].1 >= s[i].1);
        }
    }
}

/// An entry as the model holds it.
pub open spec fn entry_view(e: (String, usize)) -> (Seq<char>, nat) {
    (e.0@, e.1 as nat)
}

/// Counts of words over a window, kept sorted by count, most frequent first.
pub struct Counter {
    items: Vec<(String, usize)>,
    indices: KeyIndex,
    total: usize,
}

impl View for Counter {
    type V = Seq<(Seq<char>, nat)>;

    closed spec fn view(&self) -> Seq<(Seq<char>, nat)> {
        Seq::new(self.items@.len(), |i: int| (self.items@[i].0@, self.items@[i].1 as nat))
    }
}

impl Counter {
    /// Number of occurrences counted and not withdrawn.
    pub closed spec fn spec_total(&self) -> nat {
        self.total as nat
    }

    pub closed spec fn wf(&self) -> bool {
        &&& entries_ok(self@)
        &&& sum_counts(self@) == self.total
        &&& indexed(self@, positions(self.indices))
    }

    /// Whether `k` is counted.
    pub open spec fn contains(&self, k: Seq<char>) -> bool {
        exists|i: int| 0 <= i < self@.len() && #[trigger] self@[i].0 == k
    }

    /// A consistent counter: sorted by count, most frequent first; the counts sum
    /// to `total_count()`; and every counted key has a count of at least one, so
    /// `num_items()` is the number of keys with a positive count.
    pub proof fn lemma_consistent(&self)
        requires
            self.wf(),
        ensures
            sorted_desc(self@),
            sum_counts(self@) == self.spec_total(),
            counts_positive(self@),
            keys_distinct(self@),
    {
    }

    pub fn new() -> (r: Counter)
        ensures
            r.wf(),
            r@ == Seq::<(Seq<char>, nat)>::empty(),
            r.spec_total() == 0,
    {
        let r = Counter { items: Vec::new(), indices: index_new(), total: 0 };
        assert(r@ =~= Seq::<(Seq<char>, nat)>::empty());
        r
    }

    pub fn total_count(&self) -> (r: usize)
        ensures
            r == self.spec_total(),
    {
        self.total
    }

    pub fn num_items(&self) -> (r: usize)
        ensures
            r == self@.len(),
    {
        self.items.len()
    }

    /// Points the index of the key at position `i` back at `i`.
    fn update_index(&mut self, i: usize)
        requires
            i < old(self).items@.len(),
        ensures
            final(self).items == old(self).items,
            final(self).total == old(self).total,
            positions(final(self).indices) == positions(old(self).indices).insert(
                old(self).items@[i as int].0@,
                i,
            ),
    {
        let k = self.items[i].0.clone();
        index_insert(&mut self.indices, k, i);
    }

    /// Exchanges the entries at `a` and `b` and points their keys at their new places.
    fn swap(&mut self, a: usize, b: usize)
        requires
            a < old(self).items@.len(),
            b < old(self).items@.len(),
            keys_distinct(old(self)@),
            indexed(old(self)@, positions(old(self).indices)),
        ensures
            final(self)@ == swap_at(old(self)@, a as int, b as int),
            final(self).total == old(self).total,
            keys_distinct(final(self)@),
            indexed(final(self)@, positions(final(self).indices)),
    {
        if a == b {
            assert(self@ =~= swap_at(self@, a as int, b as int));
            return ;
        }
        let n = self.items.len();
        assert(self@.len() == n);
        let ghost before = self@;
        let mut tmp: (String, usize) = (String::new(), 0);
        self.items.set_and_swap(a, &mut tmp);
        self.items.set_and_swap(b, &mut tmp);
        self.items.set_and_swap(a, &mut tmp);
        assert(self@ =~= swap_at(before, a as int, b as int));
        self.update_index(a);
        self.update_index(b);
        proof {
            lemma_swap_indexed(before, positions(old(self).indices), a as int, b as int);
            assert(old(self).items@[a as int].0@ == before[a as int].0);
            assert(old(self).items@[b as int].0@ == before[b as int].0);
        }
    }

    /// Sets the count of the entry at `i`.
    fn set_count(&mut self, i: usize, c: usize)
        requires
            i < old(self).items@.len(),
        ensures
            final(self)@ == old(self)@.update(i as int, (old(self)@[i as int].0, c as nat)),
            final(self).indices == old(self).indices,
            final(self).total == old(self).total,
    {
        let mut tmp: (String, usize) = (String::new(), 0);
        self.items.set_and_swap(i, &mut tmp);
        tmp.1 = c;
        let ghost before = self@;
        self.items.set_and_swap(i, &mut tmp);
        assert(self@ =~= old(self)@.update(i as int, (old(self)@[i as int].0, c as nat)));
    }

    /// Counts one more occurrence of `key`. A new key goes to the end; a counted
    /// one trades places with the first entry of its old count, if any stands
    /// before it.
    pub fn add(&mut self, key: &str)
        requires
            old(self).wf(),
            old(self).spec_total() < usize::MAX,
        ensures
            final(self).wf(),
            final(self)@ == counter_add(old(self)@, key@),
            final(self).spec_total() == old(self).spec_total() + 1,
    {
        let ghost s = self@;
        proof {
            lemma_find(s, key@);
        }
        match index_get(&self.indices, key) {
            None => {
                let n = self.items.len();
                self.items.push((key.to_owned(), 1));
                index_insert(&mut self.indices, key.to_owned(), n);
                self.total = self.total + 1;
                proof {
                    assert(self@ =~= s.push((key@, 1)));
                    assert(self@.drop_last() =~= s);
                    assert(find(s, key@) < 0) by {
                        if find(s, key@) >= 0 {
                            let f = find(s, key@);
                            assert(positions(old(self).indices).contains_key(s[f].0));
                        }
                    }
                }
            },
            Some(i) => {
                proof {
                    lemma_find_at(s, key@, i as int);
                    lemma_count_le_sum(s, i as int);
                }
                let c = self.items[i].1 + 1;
                self.set_count(i, c);
                let ghost s1 = self@;
                assert(self.items@.len() == self@.len());
                proof {
                    lemma_set_count_indexed(s, positions(self.indices), i as int, c as nat);
                }
                let mut j: usize = i;
                while j > 0 && self.items[j - 1].1 < c
                    invariant
                        self@ == s1,
                        self.items@.len() == s.len(),
                        s1 == s.update(i as int, (key@, c as nat)),
                        j <= i < s.len(),
                        rise_to(s, j as int, c as nat) == rise_to(s, i as int, c as nat),
                    decreases j,
                {
                    assert(self@[j - 1] == s[j - 1]);
                    j = j - 1;
                }
                proof {
                    lemma_rise_to(s, i as int, c as nat);
                    if j > 0 {
                        assert(self@[j - 1] == s[j - 1]);
                    }
                    assert(rise_to(s, j as int, c as nat) == j);
                }
                self.swap(i, j);
                self.total = self.total + 1;
                proof {
                    lemma_add_found(s, key@, i as int, c as nat, j as int);
                    lemma_sum_update(s, i as int, (key@, c as nat));
                    lemma_sum_swap(s1, i as int, j as int);
                }
            },
        }
    }

    /// Withdraws one occurrence of `key`. An entry whose count reaches zero is
    /// replaced by the last entry; otherwise it trades places with the last entry
    /// of its old count, if any stands after it.
    pub fn remove(&mut self, key: &str)
        requires
            old(self).wf(),
            old(self).contains(key@),
        ensures
            final(self).wf(),
            final(self)@ == counter_remove(old(self)@, key@),
            final(self).spec_total() + 1 == old(self).spec_total(),
    {
        let ghost s = self@;
        proof {
            lemma_find(s, key@);
        }
        let i = match index_get(&self.indices, key) {
            Some(i) => i,
            None => {
                proof {
                    let w = choose|w: int| 0 <= w < s.len() && #[trigger] s[w].0 == key@;
                    assert(positions(self.indices).contains_key(s[w].0));
                }
                return ;
            },
        };
        proof {
            lemma_find_at(s, key@, i as int);
            lemma_count_le_sum(s, i as int);
        }
        self.total = self.total - 1;
        let c = self.items[i].1 - 1;
        if c == 0 {
            let last = self.items.len() - 1;
            self.swap(i, last);
            let ghost s2 = self@;
            let ghost old_index = self.indices;
            self.items.pop();
            index_remove(&mut self.indices, key);
            proof {
                lemma_remove_last(s, key@, i as int);
                lemma_sum_swap(s, i as int, last as int);
                assert(self@ =~= s2.drop_last());
                lemma_pop_indexed(s2, positions(old_index));
                assert(s2.last().0 == key@);
            }
        } else {
            self.set_count(i, c);
            let ghost s1 = self@;
            assert(self.items@.len() == self@.len());
            proof {
                lemma_set_count_indexed(s, positions(self.indices), i as int, c as nat);
            }
            let n = self.items.len();
            let mut j: usize = i;
            while j + 1 < n && self.items[j + 1].1 > c
                invariant
                    self@ == s1,
                    self.items@.len() == s.len(),
                    n == s.len(),
                    s1 == s.update(i as int, (key@, c as nat)),
                    i <= j < s.len(),
                    sink_to(s, j as int, c as nat) == sink_to(s, i as int, c as nat),
                decreases s.len() - j,
            {
                assert(self@[j + 1] == s[j + 1]);
                j = j + 1;
            }
            proof {
                lemma_sink_to(s, i as int, c as nat);
                if j + 1 < n {
                    assert(self@[j + 1] == s[j + 1]);
                }
                assert(sink_to(s, j as int, c as nat) == j);
            }
            self.swap(i, j);
            proof {
                lemma_remove_found(s, key@, i as int, c as nat, j as int);
                lemma_sum_update(s, i as int, (key@, c as nat));
                lemma_sum_swap(s1, i as int, j as int);
            }
        }
    }

    /// Whether `key` is counted.
    pub fn contains_key(&self, key: &str) -> (r: bool)
        requires
            self.wf(),
        ensures
            r == self.contains(key@),
            r == (find(self@, key@) >= 0),
    {
        proof {
            lemma_find(self@, key@);
        }
        match index_get(&self.indices, key) {
            Some(i) => {
                assert(self@[i as int].0 == key@);
                true
            },
            None => {
                assert forall|i: int| 0 <= i < self@.len() implies self@[i].0 != key@ by {
                    assert(positions(self.indices).contains_key(self@[i].0));
                }
                false
            },
        }
    }

    /// The entry at 1-based `rank` in count order, if there are that many.
    pub fn most_frequent(&self, rank: usize) -> (r: Option<&(String, usize)>)
        ensures
            r is Some <==> 1 <= rank <= self@.len(),
            r is Some ==> entry_view(*r->0) == self@[rank - 1],
    {
        if rank >= 1 && rank <= self.items.len() {
            Some(&self.items[rank - 1])
        } else {
            None
        }
    }
}

impl Default for Counter {
    fn default() -> (r: Counter)
        ensures
            r.wf(),
            r@ == Seq::<(Seq<char>, nat)>::empty(),
            r.spec_total() == 0,
    {
        Counter::new()
    }
}

} // verus!
