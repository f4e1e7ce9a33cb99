use vstd::prelude::*;

use crate::freq::{entries_view, FreqEntry};
use crate::text::text_eq;

verus! {

/// The count held for `k`, zero where there is none.
pub open spec fn count_of(m: Map<Seq<char>, nat>, k: Seq<char>) -> nat {
    if m.contains_key(k) {
        m[k]
    } else {
        0
    }
}

/// `m` with `c` more counted for `k`.
pub open spec fn add_count(m: Map<Seq<char>, nat>, k: Seq<char>, c: nat) -> Map<
    Seq<char>,
    nat,
> {
    m.insert(k, count_of(m, k) + c)
}

/// The total counted for each value over a sequence of observations.
pub open spec fn tally(s: Seq<(Seq<char>, nat)>) -> Map<Seq<char>, nat>
    decreases s.len(),
{
    if s.len() == 0 {
        Map::empty()
    } else {
        add_count(tally(s.drop_last()), s.last().0, s.last().1)
    }
}

/// No value occurs twice.
pub open spec fn distinct_values(s: Seq<(Seq<char>, nat)>) -> bool {
    forall|i: int, j: int| 0 <= i < j < s.len() ==> s[i].0 != s[j].0
}

proof fn lemma_add_count_commutes(m: Map<Seq<char>, nat>, x: (Seq<char>, nat), y: (
    Seq<char>,
    nat,
))
    ensures
        add_count(add_count(m, x.0, x.1), y.0, y.1) == add_count(
            add_count(m, y.0, y.1),
            x.0,
            x.1,
        ),
{
    assert(add_count(add_count(m, x.0, x.1), y.0, y.1) =~= add_count(
        add_count(m, y.0, y.1),
        x.0,
        x.1,
    ));
}

/// Taking out one observation takes its count off the totals.
pub proof fn lemma_tally_remove(s: Seq<(Seq<char>, nat)>, j: int)
    requires
        0 <= j < s.len(),
    ensures
        tally(s) == add_count(tally(s.remove(j)), s[j].0, s[j].1),
    decreases s.len(),
{
    if j == s.len() - 1 {
        assert(s.remove(j) =~= s.drop_last());
    } else {
        assert(s.remove(j).drop_last() =~= s.drop_last().remove(j));
        assert(s.remove(j).last() == s.last());
        lemma_tally_remove(s.drop_last(), j);
        lemma_add_count_commutes(tally(s.drop_last().remove(j)), s[j], s.last());
    }
}

/// The totals do not depend on the order of the observations: any two
/// sequences that hold the same observations, each as often, give the same totals.
pub proof fn lemma_tally_permutation(s: Seq<(Seq<char>, nat)>, t: Seq<(Seq<char>, nat)>)
    requires
        s.to_multiset() == t.to_multiset(),
    ensures
        tally(s) == tally(t),
    decreases s.len(),
{
    broadcast use vstd::seq_lib::group_to_multiset_ensures;

    if s.len() == 0 {
        assert(t.to_multiset().len() == 0);
        assert(t.len() == 0);
    } else {
        let x = s.last();
        assert(s =~= s.drop_last().push(x));
        assert(s.to_multiset().count(x) > 0);
        assert(t.contains(x));
        let j = choose|j: int| 0 <= j < t.len() && t[j] == x;
        assert(s.drop_last().to_multiset() =~= t.remove(j).to_multiset());
        lemma_tally_permutation(s.drop_last(), t.remove(j));
        lemma_tally_remove(t, j);
    }
}

/// With distinct values, the totals are the counts themselves.
pub proof fn lemma_tally_distinct(s: Seq<(Seq<char>, nat)>)
    requires
        distinct_values(s),
    ensures
        forall|i: int| 0 <= i < s.len() ==> #[trigger] tally(s).contains_key(s[i].0) && tally(
            s,
        )[s[i].0] == s[i].1,
        forall|k: Seq<char>| #[trigger]
            tally(s).contains_key(k) ==> exists|i: int| 0 <= i < s.len() && s[i].0 == k,
    decreases s.len(),
{
    if s.len() > 0 {
        let p = s.drop_last();
        lemma_tally_distinct(p);
        assert forall|k: Seq<char>| #[trigger]
            tally(s).contains_key(k) implies exists|i: int| 0 <= i < s.len() && s[i].0 == k by {
            if k != s.last().0 {
                assert(tally(p).contains_key(k));
                let i = choose|i: int| 0 <= i < p.len() && p[i].0 == k;
                assert(s[i] == p[i]);
            }
        }
        assert(!tally(p).contains_key(s.last().0));
        assert forall|i: int| 0 <= i < s.len() implies #[trigger] tally(s).contains_key(s[i].0)
            && tally(s)[s[i].0] == s[i].1 by {
            if i < p.len() {
                assert(s[i] == p[i]);
                assert(tally(p).contains_key(p[i].0));
            }
        }
    }
}

/// Adds up counts per distinct value.
pub struct Counter {
    counter: Vec<FreqEntry>,
}

impl View for Counter {
    type V = Map<Seq<char>, nat>;

    closed spec fn view(&self) -> Map<Seq<char>, nat> {
        tally(entries_view(self.counter@))
    }
}

impl Counter {
    /// Each value is held once.
    pub closed spec fn wf(&self) -> bool {
        distinct_values(entries_view(self.counter@))
    }

    /// Every total held fits in 64 bits.
    pub proof fn lemma_counts_fit(&self)
        requires
            self.wf(),
        ensures
            forall|k: Seq<char>| count_of(self@, k) <= u64::MAX,
    {
        let s = entries_view(self.counter@);
        lemma_tally_distinct(s);
        assert forall|k: Seq<char>| count_of(self@, k) <= u64::MAX by {
            if tally(s).contains_key(k) {
                let i = choose|i: int| 0 <= i < s.len() && s[i].0 == k;
                assert(s[i] == self.counter@[i]@);
                assert(tally(s).contains_key(s[i].0));
            }
        }
    }

    pub fn new() -> (r: Counter)
        ensures
            r.wf(),
            r@ == Map::<Seq<char>, nat>::empty(),
    {
        let r = Counter { counter: Vec::new() };
        assert(entries_view(r.counter@) =~= Seq::<(Seq<char>, nat)>::empty());
        r
    }

    /// Counts `freq` more for `value`.
    pub fn add(&mut self, value: String, freq: u64)
        requires
            old(self).wf(),
            count_of(old(self)@, value@) + freq <= u64::MAX,
        ensures
            final(self).wf(),
            final(self)@ == add_count(old(self)@, value@, freq as nat),
    {
        let ghost s = entries_view(self.counter@);
        proof {
            lemma_tally_distinct(s);
        }
        let mut i: usize = 0;
        while i < self.counter.len()
            invariant
                i <= self.counter@.len(),
                s == entries_view(self.counter@),
                distinct_values(s),
                tally(s) == old(self)@,
                count_of(tally(s), value@) + freq <= u64::MAX,
                forall|j: int| 0 <= j < i ==> s[j].0 != value@,
            decreases self.counter@.len() - i,
        {
            assert(s[i as int] == self.counter@[i as int]@);
            if text_eq(self.counter[i].value.as_str(), value.as_str()) {
                let old_freq = self.counter[i].freq;
                proof {
                    lemma_tally_distinct(s);
                    assert(s[i as int] == self.counter@[i as int]@);
                    assert(tally(s).contains_key(s[i as int].0));
                    assert(tally(s)[value@] == old_freq);
                }
                self.counter.set(i, FreqEntry::new(old_freq + freq, value));
                proof {
                    let s2 = entries_view(self.counter@);
                    assert(s2 =~= s.update(i as int, (value@, (old_freq + freq) as nat)));
                    assert(s2.remove(i as int) =~= s.remove(i as int));
                    lemma_tally_remove(s, i as int);
                    lemma_tally_remove(s2, i as int);
                    assert forall|a: int, b: int| 0 <= a < b < s2.len() implies s2[a].0
                        != s2[b].0 by {
                        assert(s[a].0 != s[b].0);
                    }
                    assert(tally(s2) =~= add_count(tally(s), value@, freq as nat));
                }
                return;
            }
            i = i + 1;
        }
        self.counter.push(FreqEntry::new(freq, value));
        proof {
            let s2 = entries_view(self.counter@);
            assert(s2.drop_last() =~= s);
            assert forall|a: int, b: int| 0 <= a < b < s2.len() implies s2[a].0 != s2[b].0 by {
                if b < s.len() {
                    assert(s[a].0 != s[b].0);
                } else {
                    assert(s2[a] == s[a]);
                }
            }
        }
    }

    /// One entry per distinct value, with its total, in no particular order.
    pub fn to_freq_entries(self) -> (r: Vec<FreqEntry>)
        requires
            self.wf(),
        ensures
            distinct_values(entries_view(r@)),
            tally(entries_view(r@)) == self@,
    {
        self.counter
    }

    /// The totals of a sequence of entries, or `None` where a total would not
    /// fit in 64 bits.
    pub fn count_all(entries: &Vec<FreqEntry>) -> (r: Option<Counter>)
        ensures
            match r {
                Some(c) => c.wf() && c@ == tally(entries_view(entries@)) && forall|k: Seq<char>|
                    count_of(tally(entries_view(entries@)), k) <= u64::MAX,
                None => exists|k: Seq<char>| count_of(tally(entries_view(entries@)), k) > u64::MAX,
            },
    {
        let ghost s = entries_view(entries@);
        let mut c = Counter::new();
        let mut i: usize = 0;
        assert(s.subrange(0, 0) =~= Seq::<(Seq<char>, nat)>::empty());
        while i < entries.len()
            invariant
                i <= entries@.len(),
                s == entries_view(entries@),
                c.wf(),
                c@ == tally(s.subrange(0, i as int)),
            decreases entries@.len() - i,
        {
            let e = &entries[i];
            assert(s.subrange(0, i + 1).drop_last() =~= s.subrange(0, i as int));
            let have = c.count(e.value.as_str());
            if e.freq > u64::MAX - have {
                proof {
                    lemma_tally_prefix(s, i + 1, e.value@);
                }
                return None;
            }
            c.add(e.value.clone(), e.freq);
            i = i + 1;
        }
        assert(s.subrange(0, i as int) =~= s);
        proof {
            c.lemma_counts_fit();
        }
        Some(c)
    }

    /// The total held for `value`.
    pub fn count(&self, value: &str) -> (r: u64)
        requires
            self.wf(),
        ensures
            r == count_of(self@, value@),
    {
        let ghost s = entries_view(self.counter@);
        proof {
            lemma_tally_distinct(s);
        }
        let mut i: usize = 0;
        while i < self.counter.len()
            invariant
                i <= self.counter@.len(),
                s == entries_view(self.counter@),
                distinct_values(s),
                forall|j: int| 0 <= j < i ==> s[j].0 != value@,
            decreases self.counter@.len() - i,
        {
            assert(s[i as int] == self.counter@[i as int]@);
            if text_eq(self.counter[i].value.as_str(), value) {
                proof {
                    lemma_tally_distinct(s);
                }
                assert(tally(s).contains_key(s[i as int].0));
                return self.counter[i].freq;
            }
            i = i + 1;
        }
        0
    }
}

/// Totals over a prefix never exceed those over the whole.
pub proof fn lemma_tally_prefix(s: Seq<(Seq<char>, nat)>, i: int, k: Seq<char>)
    requires
        0 <= i <= s.len(),
    ensures
        count_of(tally(s.subrange(0, i)), k) <= count_of(tally(s), k),
    decreases s.len(),
{
    if i < s.len() {
        assert(s.drop_last().subrange(0, i) =~= s.subrange(0, i));
        lemma_tally_prefix(s.drop_last(), i, k);
    } else {
        assert(s.subrange(0, i) =~= s);
    }
}

} // verus!
